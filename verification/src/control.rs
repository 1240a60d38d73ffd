//! The decisions of the terminal front end, from state and event to the next
//! state and what to draw: which fetched lyrics are current, when a new track
//! needs lyrics, what each frame shows, and how long to wait for the next one.
use vstd::prelude::*;
use crate::app::{App, AppModel, app_wf};
use crate::lyrics::{active_index_result, next_delay_result, next_delay_spec, sorted_by_start, TrackLyrics, TrackModel};
use crate::player::PlayerTrackInfo;
use crate::text::{chars_of, string_from_chars, trim, trim_chars};

verus! {

/// Request bookkeeping and the header last drawn.
pub struct TuiState {
    active_request_id: u64,
    last_header: Option<(String, String)>,
}

pub struct TuiModel {
    pub active_request_id: u64,
    pub last_header: Option<(Seq<char>, Seq<char>)>,
}

pub open spec fn header_view(h: Option<(String, String)>) -> Option<(Seq<char>, Seq<char>)> {
    match h {
        Some((a, t)) => Some((a@, t@)),
        None => None,
    }
}

impl View for TuiState {
    type V = TuiModel;

    closed spec fn view(&self) -> TuiModel {
        TuiModel {
            active_request_id: self.active_request_id,
            last_header: header_view(self.last_header),
        }
    }
}

/// What one frame shows.
pub enum Frame {
    /// A status message.
    Status(String),
    /// The active word, after the `(artist, title)` header when it must be drawn again.
    Word(Option<(String, String)>, String),
    /// No word yet: only the header, when it must be drawn again.
    Header(Option<(String, String)>),
    /// Nothing to draw.
    Nothing,
}

pub open spec fn lyrics_unavailable_message(err: Seq<char>) -> Seq<char> {
    "lyrics unavailable: "@ + err
}

pub open spec fn loading_message() -> Seq<char> {
    "Loading lyrics..."@
}

/// The search query for a track: trimmed artist and title joined by a space,
/// whichever of them is not empty, or "Unknown track".
pub open spec fn query_of(artist: Seq<char>, title: Seq<char>) -> Seq<char> {
    let a = trim(artist);
    let t = trim(title);
    if a.len() > 0 && t.len() > 0 {
        a + seq![' '] + t
    } else if a.len() > 0 {
        a
    } else if t.len() > 0 {
        t
    } else {
        "Unknown track"@
    }
}

/// The query names the track: with both the trimmed artist and the trimmed
/// title non-empty, it is the whole trimmed artist, one space, and the whole
/// trimmed title, whatever their lengths; with one of them empty it is the
/// other; with both empty it is "Unknown track".
pub proof fn law_query_names_artist_and_title(artist: Seq<char>, title: Seq<char>)
    ensures
        trim(artist).len() > 0 && trim(title).len() > 0 ==> {
            let q = query_of(artist, title);
            let n = trim(artist).len() as int;
            &&& q.len() == n + 1 + trim(title).len()
            &&& q.take(n) == trim(artist)
            &&& q[n] == ' '
            &&& q.skip(n + 1) == trim(title)
        },
        trim(artist).len() > 0 && trim(title).len() == 0 ==> query_of(artist, title) == trim(artist),
        trim(artist).len() == 0 && trim(title).len() > 0 ==> query_of(artist, title) == trim(title),
        trim(artist).len() == 0 && trim(title).len() == 0 ==> query_of(artist, title)
            == "Unknown track"@,
{
    let a = trim(artist);
    let t = trim(title);
    if a.len() > 0 && t.len() > 0 {
        let q = query_of(artist, title);
        assert(q.take(a.len() as int) =~= a);
        assert(q.skip(a.len() as int + 1) =~= t);
    }
}

/// `query_of` as executable code.
pub fn build_query(artist: &str, title: &str) -> (q: String)
    ensures
        q@ == query_of(artist@, title@),
{
    let a = trim_chars(&chars_of(artist));
    let t = trim_chars(&chars_of(title));
    if a.len() > 0 && t.len() > 0 {
        let joined = string_from_chars(&a).concat(" ");
        let q = joined.concat(string_from_chars(&t).as_str());
        proof {
            reveal_strlit(" ");
        }
        q
    } else if a.len() > 0 {
        string_from_chars(&a)
    } else if t.len() > 0 {
        string_from_chars(&t)
    } else {
        String::from_str("Unknown track")
    }
}

/// The wait before the next frame, in milliseconds: until the next span
/// starts, but no longer than the tick and at least 1 ms; the tick when no
/// span is ahead.
pub open spec fn wait_for(delay: Option<u64>, tick_ms: u64) -> u64 {
    match delay {
        Some(d) => if d == 0 {
            1
        } else if d <= tick_ms {
            d
        } else if tick_ms >= 1 {
            tick_ms
        } else {
            1
        },
        None => tick_ms,
    }
}

/// The wait wakes the loop in time for the next word: with a span ahead it
/// is at least 1 ms, never longer than the delay to that span (when that is
/// at least 1 ms) nor than a tick of at least 1 ms; with none ahead it is the tick.
pub proof fn law_wait_wakes_for_next_word(delay: Option<u64>, tick_ms: u64)
    ensures
        delay matches Some(d) ==> {
            &&& 1 <= wait_for(delay, tick_ms)
            &&& d >= 1 ==> wait_for(delay, tick_ms) <= d
            &&& tick_ms >= 1 ==> wait_for(delay, tick_ms) <= tick_ms
        },
        delay is None ==> wait_for(delay, tick_ms) == tick_ms,
{
}

/// `wait_for` the delay that `TrackLyrics::next_word_delay_ms` reports.
pub fn next_wait_timeout(app: &App, position_ms: u64, tick_ms: u64) -> (w: u64)
    ensures
        exists|d: Option<u64>|
            next_delay_result(app@.lyrics.words, position_ms, d) && w == #[trigger] wait_for(
                d,
                tick_ms,
            ),
        sorted_by_start(app@.lyrics.words) ==> w == wait_for(
            next_delay_spec(app@.lyrics.words, position_ms),
            tick_ms,
        ),
{
    let delay = app.lyrics().next_word_delay_ms(position_ms);
    let w = match delay {
        Some(d) => if d == 0 {
            1
        } else if d <= tick_ms {
            d
        } else if tick_ms >= 1 {
            tick_ms
        } else {
            1
        },
        None => tick_ms,
    };
    assert(next_delay_result(app@.lyrics.words, position_ms, delay) && w == wait_for(
        delay,
        tick_ms,
    ));
    w
}

fn header_equals(h: &Option<(String, String)>, artist: &String, title: &String) -> (b: bool)
    ensures
        b == (header_view(*h) == Some((artist@, title@))),
{
    match h {
        Some((a, t)) => *a == *artist && *t == *title,
        None => false,
    }
}

impl TuiState {
    pub fn new() -> (r: TuiState)
        ensures
            r@ == (TuiModel { active_request_id: 0, last_header: None }),
    {
        TuiState { active_request_id: 0, last_header: None }
    }

    /// Takes in the result of lyrics request `request_id`. A result for any
    /// request but the latest is ignored. Fetched lyrics replace the app's
    /// lyrics and their `(artist, title)` header is returned to be drawn; a
    /// failure clears the lyrics and shows "lyrics unavailable: <error>".
    pub fn on_fetched(
        &mut self,
        app: &mut App,
        request_id: u64,
        result: Result<TrackLyrics, String>,
    ) -> (header: Option<(String, String)>)
        ensures
            request_id != old(self)@.active_request_id ==> {
                &&& final(self)@ == old(self)@
                &&& final(app)@ == old(app)@
                &&& header is None
            },
            request_id == old(self)@.active_request_id ==> match result {
                Ok(lyrics) => {
                    &&& final(app)@ == (AppModel {
                        lyrics: lyrics@,
                        active_index: None,
                        status: None,
                    })
                    &&& header_view(header) == Some((lyrics@.artist, lyrics@.title))
                    &&& final(self)@ == (TuiModel {
                        active_request_id: request_id,
                        last_header: Some((lyrics@.artist, lyrics@.title)),
                    })
                },
                Err(e) => {
                    &&& final(app)@ == (AppModel {
                        lyrics: TrackModel { words: Seq::empty(), ..old(app)@.lyrics },
                        active_index: None,
                        status: Some(lyrics_unavailable_message(e@)),
                    })
                    &&& header is None
                    &&& final(self)@ == (TuiModel {
                        active_request_id: request_id,
                        last_header: None,
                    })
                },
            },
            app_wf(old(app)@) ==> app_wf(final(app)@),
    {
        if request_id != self.active_request_id {
            return None;
        }
        match result {
            Ok(new_lyrics) => {
                let artist = new_lyrics.artist.clone();
                let title = new_lyrics.title.clone();
                app.set_lyrics(new_lyrics);
                self.last_header = Some((artist.clone(), title.clone()));
                Some((artist, title))
            },
            Err(err) => {
                app.clear_lyrics();
                let message = String::from_str("lyrics unavailable: ").concat(err.as_str());
                app.set_status(message.as_str());
                self.last_header = None;
                None
            },
        }
    }

    /// Looks at the player's track. When its title or artist differs from the
    /// app's, a new request begins: its id is the previous one plus one
    /// (wrapping), the app takes the new title and artist with no spans and
    /// the status "Loading lyrics...", and the id and search query are
    /// returned for the fetch.
    pub fn on_track(&mut self, app: &mut App, meta: &PlayerTrackInfo) -> (request: Option<
        (u64, String),
    >)
        ensures
            (meta.title@ == old(app)@.lyrics.title && meta.artist@ == old(app)@.lyrics.artist) ==> {
                &&& final(self)@ == old(self)@
                &&& final(app)@ == old(app)@
                &&& request is None
            },
            !(meta.title@ == old(app)@.lyrics.title && meta.artist@ == old(app)@.lyrics.artist)
                ==> {
                let id = if old(self)@.active_request_id == u64::MAX {
                    0
                } else {
                    (old(self)@.active_request_id + 1) as u64
                };
                &&& final(self)@ == (TuiModel { active_request_id: id, last_header: None })
                &&& final(app)@ == (AppModel {
                    lyrics: TrackModel {
                        title: meta.title@,
                        artist: meta.artist@,
                        words: Seq::empty(),
                    },
                    active_index: None,
                    status: Some(loading_message()),
                })
                &&& request matches Some((rid, q)) && rid == id && q@ == query_of(
                    meta.artist@,
                    meta.title@,
                )
            },
            app_wf(old(app)@) ==> app_wf(final(app)@),
    {
        let same = app.lyrics().title == meta.title && app.lyrics().artist == meta.artist;
        if same {
            return None;
        }
        self.active_request_id = self.active_request_id.wrapping_add(1);
        app.set_track_info(meta.title.as_str(), meta.artist.as_str());
        app.set_status("Loading lyrics...");
        self.last_header = None;
        let query = build_query(meta.artist.as_str(), meta.title.as_str());
        Some((self.active_request_id, query))
    }

    /// The header to draw again for the player's track, if it differs from
    /// the last one drawn; it becomes the last one drawn.
    fn refresh_header(&mut self, meta: &PlayerTrackInfo) -> (h: Option<(String, String)>)
        ensures
            final(self)@.active_request_id == old(self)@.active_request_id,
            final(self)@.last_header == Some((meta.artist@, meta.title@)),
            old(self)@.last_header == Some((meta.artist@, meta.title@)) ==> h is None,
            old(self)@.last_header != Some((meta.artist@, meta.title@)) ==> header_view(h) == Some(
                (meta.artist@, meta.title@),
            ),
    {
        if header_equals(&self.last_header, &meta.artist, &meta.title) {
            None
        } else {
            self.last_header = Some((meta.artist.clone(), meta.title.clone()));
            Some((meta.artist.clone(), meta.title.clone()))
        }
    }

    /// One frame at `position_ms`: the app selects its active span; a status
    /// wins over the word; with a player (`meta`), the header is drawn again
    /// when it changed.
    pub fn frame(&mut self, app: &mut App, position_ms: u64, meta: Option<&PlayerTrackInfo>) -> (f:
        Frame)
        ensures
            final(app)@.lyrics == old(app)@.lyrics,
            final(app)@.status == old(app)@.status,
            app_wf(final(app)@),
            active_index_result(old(app)@.lyrics.words, position_ms, final(app)@.active_index),
            sorted_by_start(old(app)@.lyrics.words) ==> final(app)@.active_index
                == crate::lyrics::active_index_spec(old(app)@.lyrics.words, position_ms),
            final(self)@.active_request_id == old(self)@.active_request_id,
            match f {
                Frame::Status(s) => old(app)@.status == Some(s@),
                Frame::Word(h, w) => {
                    &&& old(app)@.status is None
                    &&& final(app)@.active_index matches Some(i)
                    &&& w@ == old(app)@.lyrics.words[i as int].text
                    &&& header_matches(h, meta, old(self)@.last_header)
                },
                Frame::Header(h) => {
                    &&& old(app)@.status is None
                    &&& final(app)@.active_index is None
                    &&& meta is Some
                    &&& header_matches(h, meta, old(self)@.last_header)
                },
                Frame::Nothing => {
                    &&& old(app)@.status is None
                    &&& final(app)@.active_index is None
                    &&& meta is None
                },
            },
            (f is Status || meta is None) ==> final(self)@ == old(self)@,
            !(f is Status) ==> (meta matches Some(m) ==> final(self)@.last_header == Some(
                (m.artist@, m.title@),
            )),
    {
        app.update(position_ms);
        if let Some(status) = app.status() {
            return Frame::Status(status.to_owned());
        }
        let word = match app.active_word() {
            Some(w) => Some(w.text.clone()),
            None => None,
        };
        match word {
            Some(text) => {
                let header = match meta {
                    Some(m) => self.refresh_header(m),
                    None => None,
                };
                Frame::Word(header, text)
            },
            None => match meta {
                Some(m) => Frame::Header(self.refresh_header(m)),
                None => Frame::Nothing,
            },
        }
    }
}

/// The header a frame asks to draw: with a player, its `(artist, title)`
/// exactly when that differs from the last header drawn; without, none.
pub open spec fn header_matches(
    h: Option<(String, String)>,
    meta: Option<&PlayerTrackInfo>,
    last: Option<(Seq<char>, Seq<char>)>,
) -> bool {
    match meta {
        Some(m) => if last == Some((m.artist@, m.title@)) {
            h is None
        } else {
            header_view(h) == Some((m.artist@, m.title@))
        },
        None => h is None,
    }
}

/// A way of running the lyrics fetcher: a program and its arguments.
pub struct FetchCommand {
    pub program: String,
    pub args: Vec<String>,
}

pub open spec fn command_view(c: FetchCommand) -> (Seq<char>, Seq<Seq<char>>) {
    (c.program@, c.args@.map_values(|a: String| a@))
}

/// The program for an argument list: `python3` when it begins with `-m`,
/// else `syncedlyrics`.
pub open spec fn program_for(args: Seq<Seq<char>>) -> Seq<char> {
    if args.len() > 0 && args[0] == "-m"@ {
        "python3"@
    } else {
        "syncedlyrics"@
    }
}

/// The argument lists tried, in order, to fetch enhanced lyrics for `query`.
pub open spec fn fetch_arg_lists(query: Seq<char>) -> Seq<Seq<Seq<char>>> {
    seq![
        seq!["--enhanced"@, query],
        seq![query, "--enhanced"@],
        seq!["-m"@, "syncedlyrics"@, "--enhanced"@, query],
        seq!["-m"@, "syncedlyrics"@, query, "--enhanced"@],
    ]
}

fn owned_args(parts: Vec<&str>) -> (r: Vec<String>)
    ensures
        r@.map_values(|a: String| a@) == parts@.map_values(|p: &str| p@),
{
    let mut r: Vec<String> = Vec::new();
    let mut k: usize = 0;
    while k < parts.len()
        invariant
            0 <= k <= parts@.len(),
            r@.map_values(|a: String| a@) == parts@.take(k as int).map_values(|p: &str| p@),
        decreases parts@.len() - k,
    {
        r.push(parts[k].to_owned());
        proof {
            assert(parts@.take(k + 1).map_values(|p: &str| p@) =~= parts@.take(k as int).map_values(
                |p: &str| p@,
            ).push(parts@[k as int]@));
            assert(r@.map_values(|a: String| a@) =~= r@.drop_last().map_values(|a: String| a@).push(
                r@.last()@,
            ));
        }
        k = k + 1;
    }
    assert(parts@.take(k as int) =~= parts@);
    r
}

fn command_for(parts: Vec<&str>) -> (c: FetchCommand)
    ensures
        command_view(c) == (program_for(parts@.map_values(|p: &str| p@)), parts@.map_values(
            |p: &str| p@,
        )),
{
    let starts_with_m = parts.len() > 0 && is_dash_m(parts[0]);
    let program = if starts_with_m {
        String::from_str("python3")
    } else {
        String::from_str("syncedlyrics")
    };
    let args = owned_args(parts);
    FetchCommand { program, args }
}

fn is_dash_m(s: &str) -> (b: bool)
    ensures
        b == (s@ == "-m"@),
{
    let v = chars_of(s);
    let b = v.len() == 2 && v[0] == '-' && v[1] == 'm';
    proof {
        reveal_strlit("-m");
        if b {
            assert(v@ =~= "-m"@);
        }
    }
    b
}

/// The commands tried, in order, to fetch enhanced lyrics for `query`: the
/// `syncedlyrics` program, then the Python module, each with `--enhanced`
/// before and after the query.
pub fn fetch_commands(query: &str) -> (r: Vec<FetchCommand>)
    ensures
        r@.len() == 4,
        forall|k: int|
            0 <= k < 4 ==> command_view(#[trigger] r@[k]) == (program_for(
                fetch_arg_lists(query@)[k],
            ), fetch_arg_lists(query@)[k]),
{
    let mut r: Vec<FetchCommand> = Vec::new();
    let c0 = command_for(vec!["--enhanced", query]);
    let c1 = command_for(vec![query, "--enhanced"]);
    let c2 = command_for(vec!["-m", "syncedlyrics", "--enhanced", query]);
    let c3 = command_for(vec!["-m", "syncedlyrics", query, "--enhanced"]);
    r.push(c0);
    r.push(c1);
    r.push(c2);
    r.push(c3);
    proof {
        let l = fetch_arg_lists(query@);
        assert(l[0] =~= seq!["--enhanced"@, query@]);
    }
    r
}

/// What to do after running fetch command `tried` (counting from 0) of `count`.
pub enum FetchAction {
    /// That command succeeded: its output is the result.
    Done,
    /// Run the command with this index next.
    Run(usize),
    /// Every command failed.
    GiveUp,
}

/// The fetch stops at the first command that succeeds; after a failure it
/// runs the next command, and gives up after the last.
pub fn fetch_step(tried: usize, succeeded: bool, count: usize) -> (a: FetchAction)
    ensures
        succeeded ==> a is Done,
        !succeeded && tried + 1 < count ==> a == FetchAction::Run((tried + 1) as usize),
        !succeeded && tried + 1 >= count ==> a is GiveUp,
{
    if succeeded {
        FetchAction::Done
    } else if count > 0 && tried < count - 1 {
        FetchAction::Run(tried + 1)
    } else {
        FetchAction::GiveUp
    }
}

} // verus!
