//! What the screen needs redrawn: terminal size in pixels, the area for the
//! big word, the text colour for the terminal's theme, and which header,
//! word or status was drawn last.
use vstd::prelude::*;
use crate::text::{chars_of, copy_range, exec_find_char, find_char, lemma_find_char_bounds, parse_u8, parse_u8_chars};

verus! {

/// Pixel and cell size of the terminal: the window size the terminal reports
/// when all four fields are positive, else 10x20 pixels per cell of the
/// terminal's cell size (80x24 when unknown).
pub open spec fn pixel_size_of(ws: (u16, u16, u16, u16), cells: Option<(u16, u16)>) -> (
    u32,
    u32,
    u32,
    u32,
) {
    if ws.0 > 0 && ws.1 > 0 && ws.2 > 0 && ws.3 > 0 {
        (ws.0 as u32, ws.1 as u32, ws.2 as u32, ws.3 as u32)
    } else {
        let (cols, rows) = match cells {
            Some(c) => c,
            None => (80u16, 24u16),
        };
        ((cols * 10) as u32, (rows * 20) as u32, cols as u32, rows as u32)
    }
}

/// `pixel_size_of` as executable code: `(pixel_w, pixel_h, cols, rows)`.
pub fn pixel_size(ws: (u16, u16, u16, u16), cells: Option<(u16, u16)>) -> (r: (u32, u32, u32, u32))
    ensures
        r == pixel_size_of(ws, cells),
        r.1 <= 1_310_700,
{
    if ws.0 > 0 && ws.1 > 0 && ws.2 > 0 && ws.3 > 0 {
        (ws.0 as u32, ws.1 as u32, ws.2 as u32, ws.3 as u32)
    } else {
        let (cols, rows) = match cells {
            Some(c) => c,
            None => (80u16, 24u16),
        };
        (cols as u32 * 10, rows as u32 * 20, cols as u32, rows as u32)
    }
}

/// Whether the terminal's `COLORFGBG` value (`fg;bg`) means a dark
/// background: no value, no `;`, a background that is not a `u8`, or one below 8.
pub open spec fn theme_is_dark(colorfgbg: Option<Seq<char>>) -> bool {
    match colorfgbg {
        None => true,
        Some(s) => {
            let p = find_char(s, 0, ';');
            if p < s.len() {
                match parse_u8(s.skip(p + 1)) {
                    Some(bg) => bg < 8,
                    None => true,
                }
            } else {
                true
            }
        },
    }
}

/// White text on dark themes, black text on light ones.
pub fn theme_color(colorfgbg: Option<&str>) -> (rgb: (u8, u8, u8))
    ensures
        rgb == if theme_is_dark(
            match colorfgbg {
                Some(s) => Some(s@),
                None => None,
            },
        ) {
            (255u8, 255u8, 255u8)
        } else {
            (0u8, 0u8, 0u8)
        },
{
    let dark = match colorfgbg {
        None => true,
        Some(s) => {
            let v = chars_of(s);
            let p = exec_find_char(&v, 0, ';');
            if p < v.len() {
                proof {
                    lemma_find_char_bounds(v@, 0, ';');
                }
                let bg = copy_range(&v, p + 1, v.len());
                assert(bg@ =~= v@.skip(p + 1));
                match parse_u8_chars(&bg) {
                    Some(b) => b < 8,
                    None => true,
                }
            } else {
                true
            }
        },
    };
    if dark {
        (255, 255, 255)
    } else {
        (0, 0, 0)
    }
}

/// Where the big word goes: below `header_rows` rows of cells, the full width
/// and the remaining height, if neither is zero.
pub open spec fn word_area_of(pixel_w: u32, pixel_h: u32, cell_rows: u32, header_rows: u16) -> Option<
    (u16, u32, u32),
> {
    let cell_h = if cell_rows > 0 {
        pixel_h / cell_rows
    } else {
        20
    };
    let y = header_rows * cell_h;
    let h = if pixel_h >= y {
        pixel_h - y
    } else {
        0
    };
    if h == 0 || pixel_w == 0 {
        None
    } else {
        Some((header_rows, pixel_w, h as u32))
    }
}

/// Terminal geometry and what was drawn last.
pub struct ScreenState {
    pixel_w: u32,
    pixel_h: u32,
    cell_rows: u32,
    header_rows: u16,
    last_word: Option<String>,
    last_status: Option<String>,
    last_header: Option<(String, String)>,
}

/// The mathematical value of a `ScreenState`.
pub struct ScreenModel {
    pub pixel_w: u32,
    pub pixel_h: u32,
    pub cell_rows: u32,
    pub header_rows: u16,
    pub last_word: Option<Seq<char>>,
    pub last_status: Option<Seq<char>>,
    pub last_header: Option<(Seq<char>, Seq<char>)>,
}

pub open spec fn opt_view(s: Option<String>) -> Option<Seq<char>> {
    match s {
        Some(t) => Some(t@),
        None => None,
    }
}

pub open spec fn pair_view(h: Option<(String, String)>) -> Option<(Seq<char>, Seq<char>)> {
    match h {
        Some((a, t)) => Some((a@, t@)),
        None => None,
    }
}

impl View for ScreenState {
    type V = ScreenModel;

    closed spec fn view(&self) -> ScreenModel {
        ScreenModel {
            pixel_w: self.pixel_w,
            pixel_h: self.pixel_h,
            cell_rows: self.cell_rows,
            header_rows: self.header_rows,
            last_word: opt_view(self.last_word),
            last_status: opt_view(self.last_status),
            last_header: pair_view(self.last_header),
        }
    }
}

fn opt_equals(a: &Option<String>, b: &str) -> (r: bool)
    ensures
        r == (opt_view(*a) == Some(b@)),
{
    match a {
        Some(s) => {
            let t = b.to_owned();
            *s == t
        },
        None => false,
    }
}

/// What was drawn last fits together: a status is shown on a cleared screen,
/// so while one is drawn, no word and no header are.
pub open spec fn screen_wf(m: ScreenModel) -> bool {
    m.last_status is Some ==> m.last_word is None && m.last_header is None
}

/// The screen at a new terminal size, with what was drawn kept.
pub open spec fn with_size(m: ScreenModel, ws: (u16, u16, u16, u16), cells: Option<(u16, u16)>) -> ScreenModel {
    ScreenModel {
        pixel_w: pixel_size_of(ws, cells).0,
        pixel_h: pixel_size_of(ws, cells).1,
        cell_rows: pixel_size_of(ws, cells).3,
        ..m
    }
}

/// The screen with nothing remembered as drawn.
pub open spec fn forget_drawn(m: ScreenModel) -> ScreenModel {
    ScreenModel { last_word: None, last_status: None, last_header: None, ..m }
}

/// The header `(artist, title)` needs drawing unless it is the last one drawn.
pub open spec fn header_draws(m: ScreenModel, artist: Seq<char>, title: Seq<char>) -> bool {
    m.last_header != Some((artist, title))
}

/// The screen after asking for the header: drawing it clears the screen, so
/// it is the only thing drawn.
pub open spec fn after_header(m: ScreenModel, artist: Seq<char>, title: Seq<char>) -> ScreenModel {
    if header_draws(m, artist, title) {
        ScreenModel { last_header: Some((artist, title)), last_word: None, last_status: None, ..m }
    } else {
        m
    }
}

/// The word needs drawing unless it is the last word drawn.
pub open spec fn word_draws(m: ScreenModel, word: Seq<char>) -> bool {
    m.last_word != Some(word)
}

/// The screen after asking for the word: it becomes the last word, and no
/// status remains (the header stays).
pub open spec fn after_word(m: ScreenModel, word: Seq<char>) -> ScreenModel {
    if word_draws(m, word) {
        ScreenModel { last_word: Some(word), last_status: None, ..m }
    } else {
        m
    }
}

/// The area for the big word at the screen's size.
pub open spec fn word_area_in(m: ScreenModel) -> Option<(u16, u32, u32)> {
    word_area_of(m.pixel_w, m.pixel_h, m.cell_rows, m.header_rows)
}

/// The status needs drawing unless it is the last status drawn.
pub open spec fn status_draws(m: ScreenModel, msg: Seq<char>) -> bool {
    m.last_status != Some(msg)
}

/// The screen after asking for the status: drawing it clears the screen, so
/// it is the only thing drawn.
pub open spec fn after_status(m: ScreenModel, msg: Seq<char>) -> ScreenModel {
    if status_draws(m, msg) {
        ScreenModel { last_status: Some(msg), last_word: None, last_header: None, ..m }
    } else {
        m
    }
}

impl ScreenState {
    #[verifier::type_invariant]
    spec fn drawn_fits(self) -> bool {
        screen_wf(self@)
    }

    /// A screen of the given size with two header rows and nothing drawn.
    pub fn new(ws: (u16, u16, u16, u16), cells: Option<(u16, u16)>) -> (r: ScreenState)
        ensures
            r@ == (ScreenModel {
                pixel_w: pixel_size_of(ws, cells).0,
                pixel_h: pixel_size_of(ws, cells).1,
                cell_rows: pixel_size_of(ws, cells).3,
                header_rows: 2,
                last_word: None,
                last_status: None,
                last_header: None,
            }),
            screen_wf(r@),
    {
        let (pw, ph, _cols, rows) = pixel_size(ws, cells);
        ScreenState {
            pixel_w: pw,
            pixel_h: ph,
            cell_rows: rows,
            header_rows: 2,
            last_word: None,
            last_status: None,
            last_header: None,
        }
    }

    /// Takes a new terminal size; what was drawn last stays.
    pub fn set_size(&mut self, ws: (u16, u16, u16, u16), cells: Option<(u16, u16)>)
        ensures
            final(self)@ == with_size(old(self)@, ws, cells),
            screen_wf(final(self)@),
    {
        proof {
            use_type_invariant(&*self);
        }
        let (pw, ph, _cols, rows) = pixel_size(ws, cells);
        self.pixel_w = pw;
        self.pixel_h = ph;
        self.cell_rows = rows;
    }

    /// Forgets what was drawn, so that everything is drawn again.
    pub fn invalidate(&mut self)
        ensures
            final(self)@ == forget_drawn(old(self)@),
            screen_wf(final(self)@),
    {
        self.last_status = None;
        self.last_word = None;
        self.last_header = None;
    }

    /// Whether the header `(artist, title)` must be drawn: not when it is the
    /// last header drawn. Drawing it clears the screen, so no word or status
    /// remains drawn.
    pub fn header_needed(&mut self, artist: &str, title: &str) -> (draw: bool)
        ensures
            draw == header_draws(old(self)@, artist@, title@),
            final(self)@ == after_header(old(self)@, artist@, title@),
            screen_wf(final(self)@),
    {
        proof {
            use_type_invariant(&*self);
        }
        let a = artist.to_owned();
        let t = title.to_owned();
        let same = match &self.last_header {
            Some((la, lt)) => *la == a && *lt == t,
            None => false,
        };
        if same {
            return false;
        }
        self.last_status = None;
        self.last_word = None;
        self.last_header = Some((a, t));
        true
    }

    /// Where to draw `word`: nothing when it is the word drawn last; else it
    /// becomes the last word (and no status remains), and the area below the
    /// header is returned as `(row, width, height)` unless it is empty.
    pub fn word_area(&mut self, word: &str) -> (area: Option<(u16, u32, u32)>)
        ensures
            final(self)@ == after_word(old(self)@, word@),
            area == if word_draws(old(self)@, word@) {
                word_area_in(old(self)@)
            } else {
                None
            },
            screen_wf(final(self)@),
    {
        proof {
            use_type_invariant(&*self);
        }
        if opt_equals(&self.last_word, word) {
            return None;
        }
        self.last_status = None;
        self.last_word = Some(word.to_owned());
        let cell_h: u32 = if self.cell_rows > 0 {
            self.pixel_h / self.cell_rows
        } else {
            20
        };
        let rows64 = self.header_rows as u64;
        let cell64 = cell_h as u64;
        assert(rows64 * cell64 <= 0xffff * 0xffff_ffff) by (nonlinear_arith)
            requires
                rows64 <= 0xffff,
                cell64 <= 0xffff_ffff,
        ;
        let img_y: u64 = rows64 * cell64;
        let img_h: u32 = if self.pixel_h as u64 >= img_y {
            (self.pixel_h as u64 - img_y) as u32
        } else {
            0
        };
        if img_h == 0 || self.pixel_w == 0 {
            None
        } else {
            Some((self.header_rows, self.pixel_w, img_h))
        }
    }

    /// Whether the status `msg` must be drawn: not when it is the status drawn
    /// last. Drawing it clears the screen, so no word or header remains drawn.
    pub fn status_needed(&mut self, msg: &str) -> (draw: bool)
        ensures
            draw == status_draws(old(self)@, msg@),
            final(self)@ == after_status(old(self)@, msg@),
            screen_wf(final(self)@),
    {
        proof {
            use_type_invariant(&*self);
        }
        if opt_equals(&self.last_status, msg) {
            return false;
        }
        self.last_word = None;
        self.last_header = None;
        self.last_status = Some(msg.to_owned());
        true
    }
}

/// Every step keeps what was drawn consistent: from a consistent screen,
/// resizing, forgetting, and asking for a header, a word or a status each
/// leave one where a drawn status excludes a drawn word and header.
pub proof fn law_steps_keep_screen_wf(
    m: ScreenModel,
    ws: (u16, u16, u16, u16),
    cells: Option<(u16, u16)>,
    artist: Seq<char>,
    title: Seq<char>,
    word: Seq<char>,
    msg: Seq<char>,
)
    requires
        screen_wf(m),
    ensures
        screen_wf(with_size(m, ws, cells)),
        screen_wf(forget_drawn(m)),
        screen_wf(after_header(m, artist, title)),
        screen_wf(after_word(m, word)),
        screen_wf(after_status(m, msg)),
{
}

/// Resizing draws nothing anew: whether a header, word or status needs
/// drawing is the same before and after a new terminal size.
pub proof fn law_resize_keeps_drawn(
    m: ScreenModel,
    ws: (u16, u16, u16, u16),
    cells: Option<(u16, u16)>,
    artist: Seq<char>,
    title: Seq<char>,
    word: Seq<char>,
    msg: Seq<char>,
)
    ensures
        header_draws(with_size(m, ws, cells), artist, title) == header_draws(m, artist, title),
        word_draws(with_size(m, ws, cells), word) == word_draws(m, word),
        status_draws(with_size(m, ws, cells), msg) == status_draws(m, msg),
{
}

/// A status is drawn once: right after asking for `msg`, asking for it again
/// draws nothing and changes nothing.
pub proof fn law_repeated_status_draws_nothing(m: ScreenModel, msg: Seq<char>)
    ensures
        !status_draws(after_status(m, msg), msg),
        after_status(after_status(m, msg), msg) == after_status(m, msg),
{
}

/// A status is drawn again after anything else: after a word, after a header
/// (drawn or not), after everything was forgotten, and after another status.
pub proof fn law_status_redrawn_after_other(
    m: ScreenModel,
    msg: Seq<char>,
    other: Seq<char>,
    word: Seq<char>,
    artist: Seq<char>,
    title: Seq<char>,
)
    requires
        screen_wf(m),
    ensures
        status_draws(after_word(m, word), msg),
        status_draws(after_header(m, artist, title), msg),
        status_draws(forget_drawn(m), msg),
        other != msg ==> status_draws(after_status(m, other), msg),
{
}

/// A word is drawn once: right after asking for `word`, asking for it again
/// draws nothing and changes nothing.
pub proof fn law_repeated_word_draws_nothing(m: ScreenModel, word: Seq<char>)
    ensures
        !word_draws(after_word(m, word), word),
        after_word(after_word(m, word), word) == after_word(m, word),
{
}

/// A word is drawn again, in the same area, after a status, after a new
/// header, after everything was forgotten, and after another word.
pub proof fn law_word_redrawn_after_other(
    m: ScreenModel,
    word: Seq<char>,
    other: Seq<char>,
    msg: Seq<char>,
    artist: Seq<char>,
    title: Seq<char>,
)
    requires
        screen_wf(m),
    ensures
        word_draws(after_status(m, msg), word),
        header_draws(m, artist, title) ==> word_draws(after_header(m, artist, title), word),
        word_draws(forget_drawn(m), word),
        other != word ==> word_draws(after_word(m, other), word),
        word_area_in(after_status(m, msg)) == word_area_in(m),
        word_area_in(after_header(m, artist, title)) == word_area_in(m),
        word_area_in(forget_drawn(m)) == word_area_in(m),
        word_area_in(after_word(m, other)) == word_area_in(m),
{
}

/// A header is drawn once, and again after a status or after everything
/// was forgotten.
pub proof fn law_header_redrawn_after_status(
    m: ScreenModel,
    artist: Seq<char>,
    title: Seq<char>,
    msg: Seq<char>,
)
    requires
        screen_wf(m),
    ensures
        !header_draws(after_header(m, artist, title), artist, title),
        after_header(after_header(m, artist, title), artist, title) == after_header(m, artist, title),
        header_draws(after_status(m, msg), artist, title),
        header_draws(forget_drawn(m), artist, title),
{
}

} // verus!
