//! The loaded lyrics, the active word and the status line.
use vstd::prelude::*;
use crate::lyrics::{
    active_index_result, active_index_spec, spans_view, sorted_by_start, SpanModel, TrackLyrics,
    TrackModel, WordSpan,
};

verus! {

/// The lyrics being shown, which span is active, and an optional status message.
#[derive(Debug, Clone)]
pub struct App {
    lyrics: TrackLyrics,
    active_index: Option<usize>,
    status: Option<String>,
}

/// The mathematical value of an `App`.
pub struct AppModel {
    pub lyrics: TrackModel,
    pub active_index: Option<usize>,
    pub status: Option<Seq<char>>,
}

pub open spec fn opt_string_view(s: Option<String>) -> Option<Seq<char>> {
    match s {
        Some(t) => Some(t@),
        None => None,
    }
}

impl View for App {
    type V = AppModel;

    closed spec fn view(&self) -> AppModel {
        AppModel {
            lyrics: self.lyrics@,
            active_index: self.active_index,
            status: opt_string_view(self.status),
        }
    }
}

/// The active index, when there is one, names a span of the lyrics.
pub open spec fn app_wf(m: AppModel) -> bool {
    m.active_index matches Some(i) ==> i < m.lyrics.words.len()
}

impl App {
    /// An app showing `lyrics`, with no active word and no status.
    pub fn new(lyrics: TrackLyrics) -> (r: App)
        ensures
            r@ == (AppModel { lyrics: lyrics@, active_index: None, status: None }),
            app_wf(r@),
    {
        App { lyrics, active_index: None, status: None }
    }

    /// Selects the active span for `position_ms`: the last span that starts at
    /// or before it (`TrackLyrics::active_word_index`).
    pub fn update(&mut self, position_ms: u64)
        ensures
            final(self)@.lyrics == old(self)@.lyrics,
            final(self)@.status == old(self)@.status,
            active_index_result(old(self)@.lyrics.words, position_ms, final(self)@.active_index),
            sorted_by_start(old(self)@.lyrics.words) ==> final(self)@.active_index
                == active_index_spec(old(self)@.lyrics.words, position_ms),
            app_wf(final(self)@),
    {
        self.active_index = self.lyrics.active_word_index(position_ms);
    }

    pub fn title(&self) -> (r: &str)
        ensures
            r@ == self@.lyrics.title,
    {
        self.lyrics.title.as_str()
    }

    pub fn artist(&self) -> (r: &str)
        ensures
            r@ == self@.lyrics.artist,
    {
        self.lyrics.artist.as_str()
    }

    /// The active span, if the active index names one.
    pub fn active_word(&self) -> (r: Option<&WordSpan>)
        ensures
            match self@.active_index {
                Some(i) => if i < self@.lyrics.words.len() {
                    r matches Some(w) && w@ == self@.lyrics.words[i as int]
                } else {
                    r is None
                },
                None => r is None,
            },
    {
        match self.active_index {
            Some(index) => {
                if index < self.lyrics.words.len() {
                    Some(&self.lyrics.words[index])
                } else {
                    None
                }
            },
            None => None,
        }
    }

    pub fn lyrics(&self) -> (r: &TrackLyrics)
        ensures
            r@ == self@.lyrics,
    {
        &self.lyrics
    }

    pub fn status(&self) -> (r: Option<&str>)
        ensures
            match r {
                Some(s) => self@.status == Some(s@),
                None => self@.status is None,
            },
    {
        match &self.status {
            Some(s) => Some(s.as_str()),
            None => None,
        }
    }

    /// Shows a status message in place of the lyrics.
    pub fn set_status(&mut self, s: &str)
        ensures
            final(self)@ == (AppModel { status: Some(s@), ..old(self)@ }),
    {
        self.status = Some(s.to_owned());
    }

    /// Replaces the lyrics; no span is active and the status is cleared.
    pub fn set_lyrics(&mut self, lyrics: TrackLyrics)
        ensures
            final(self)@ == (AppModel { lyrics: lyrics@, active_index: None, status: None }),
            app_wf(final(self)@),
    {
        self.lyrics = lyrics;
        self.active_index = None;
        self.status = None;
    }

    /// Starts a new track: its title and artist, no spans, no active span; the
    /// status stays.
    pub fn set_track_info(&mut self, title: &str, artist: &str)
        ensures
            final(self)@ == (AppModel {
                lyrics: TrackModel { title: title@, artist: artist@, words: Seq::empty() },
                active_index: None,
                status: old(self)@.status,
            }),
            app_wf(final(self)@),
    {
        self.lyrics.title = title.to_owned();
        self.lyrics.artist = artist.to_owned();
        self.lyrics.words.clear();
        self.active_index = None;
        proof {
            assert(spans_view(self.lyrics.words@) =~= Seq::<SpanModel>::empty());
        }
    }

    /// Drops all spans and the active span; title, artist and status stay.
    pub fn clear_lyrics(&mut self)
        ensures
            final(self)@ == (AppModel {
                lyrics: TrackModel { words: Seq::empty(), ..old(self)@.lyrics },
                active_index: None,
                status: old(self)@.status,
            }),
            app_wf(final(self)@),
    {
        self.lyrics.words.clear();
        self.active_index = None;
        proof {
            assert(spans_view(self.lyrics.words@) =~= Seq::<SpanModel>::empty());
        }
    }
}

} // verus!
