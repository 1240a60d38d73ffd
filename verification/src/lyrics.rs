//! Lyrics as timed word spans: the LRC / enhanced-LRC parser and the
//! position lookup that picks the active word.
use vstd::prelude::*;
use crate::text::{
    all_digits, copy_range, digits_value, exec_find_char, exec_skip_space, exec_word_end,
    find_char, is_digit, lemma_find_char_bounds, lemma_skip_space_bounds, lemma_word_end_bounds,
    parse_i64, parse_i64_chars, parse_u64, parse_u64_chars, skip_space, string_from_chars, trim,
    trim_chars, unsigned_digits, word_end, chars_of, lemma_back_space_bounds, IntFault,
};

verus! {

/// One timed piece of lyric text: a word (enhanced LRC) or a whole line.
#[derive(Debug, Clone, PartialEq, Eq)]
pub struct WordSpan {
    pub start_ms: u64,
    pub text: String,
}

/// The lyrics of one track: its title, artist and spans ordered by start time.
#[derive(Debug, Clone, PartialEq, Eq)]
pub struct TrackLyrics {
    pub title: String,
    pub artist: String,
    pub words: Vec<WordSpan>,
}

/// The mathematical value of a `WordSpan`.
pub struct SpanModel {
    pub start_ms: u64,
    pub text: Seq<char>,
}

impl View for WordSpan {
    type V = SpanModel;

    open spec fn view(&self) -> SpanModel {
        SpanModel { start_ms: self.start_ms, text: self.text@ }
    }
}

pub open spec fn spans_view(v: Seq<WordSpan>) -> Seq<SpanModel> {
    v.map_values(|w: WordSpan| w@)
}

/// The mathematical value of `TrackLyrics`.
pub struct TrackModel {
    pub title: Seq<char>,
    pub artist: Seq<char>,
    pub words: Seq<SpanModel>,
}

impl View for TrackLyrics {
    type V = TrackModel;

    open spec fn view(&self) -> TrackModel {
        TrackModel { title: self.title@, artist: self.artist@, words: spans_view(self.words@) }
    }
}


/// Spans ordered by non-decreasing start time.
pub open spec fn sorted_by_start(s: Seq<SpanModel>) -> bool {
    forall|i: int, j: int| 0 <= i <= j < s.len() ==> s[i].start_ms <= s[j].start_ms
}

/// `p` splits `s` into spans starting at or before `key` and spans starting after it.
pub open spec fn is_boundary(s: Seq<SpanModel>, p: int, key: u64) -> bool {
    &&& 0 <= p <= s.len()
    &&& p > 0 ==> s[p - 1].start_ms <= key
    &&& p < s.len() ==> s[p].start_ms > key
}

/// The number of spans that start at or before `key`.
pub open spec fn count_started(s: Seq<SpanModel>, key: u64) -> nat
    decreases s.len(),
{
    if s.len() == 0 {
        0
    } else {
        count_started(s.drop_last(), key) + if s.last().start_ms <= key {
            1nat
        } else {
            0nat
        }
    }
}

/// Stable insertion by start time: `x` goes after every span that starts no later than it.
pub open spec fn insert_by_start(s: Seq<SpanModel>, x: SpanModel) -> Seq<SpanModel> {
    s.insert(count_started(s, x.start_ms) as int, x)
}

/// In spans ordered by start time, the only boundary for `key` is the number
/// of spans that start at or before `key`.
pub proof fn lemma_boundary_is_count(s: Seq<SpanModel>, p: int, key: u64)
    requires
        sorted_by_start(s),
        is_boundary(s, p, key),
    ensures
        p == count_started(s, key),
{
    lemma_split_count(s, p, key);
}

proof fn lemma_split_count(s: Seq<SpanModel>, p: int, key: u64)
    requires
        0 <= p <= s.len(),
        forall|i: int| 0 <= i < p ==> #[trigger] s[i].start_ms <= key,
        forall|i: int| p <= i < s.len() ==> #[trigger] s[i].start_ms > key,
    ensures
        p == count_started(s, key),
    decreases s.len(),
{
    if s.len() > 0 {
        let t = s.drop_last();
        let q = if p == s.len() {
            p - 1
        } else {
            p
        };
        assert forall|i: int| 0 <= i < q implies #[trigger] t[i].start_ms <= key by {
            assert(t[i] == s[i]);
        }
        assert forall|i: int| q <= i < t.len() implies #[trigger] t[i].start_ms > key by {
            assert(t[i] == s[i]);
        }
        lemma_split_count(t, q, key);
    }
}

/// Inserting by start time keeps spans ordered by start time.
pub proof fn lemma_insert_keeps_order(s: Seq<SpanModel>, x: SpanModel)
    requires
        sorted_by_start(s),
    ensures
        sorted_by_start(insert_by_start(s, x)),
        insert_by_start(s, x).len() == s.len() + 1,
{
    let p = count_started(s, x.start_ms) as int;
    lemma_count_splits(s, x.start_ms);
    let r = insert_by_start(s, x);
    assert forall|i: int, j: int| 0 <= i <= j < r.len() implies r[i].start_ms <= r[j].start_ms by {
        if i < p && j < p {
        } else if i < p && j == p {
        } else if i < p {
            assert(r[j] == s[j - 1]);
        } else if i == p && j == p {
        } else if i == p {
            assert(r[j] == s[j - 1]);
        } else {
            assert(r[i] == s[i - 1]);
            assert(r[j] == s[j - 1]);
        }
    }
}

/// In spans ordered by start time, the spans counted by `count_started` are a prefix.
pub proof fn lemma_count_splits(s: Seq<SpanModel>, key: u64)
    requires
        sorted_by_start(s),
    ensures
        count_started(s, key) <= s.len(),
        forall|i: int| 0 <= i < count_started(s, key) ==> #[trigger] s[i].start_ms <= key,
        forall|i: int| count_started(s, key) <= i < s.len() ==> #[trigger] s[i].start_ms > key,
    decreases s.len(),
{
    if s.len() > 0 {
        let t = s.drop_last();
        assert forall|i: int, j: int| 0 <= i <= j < t.len() implies t[i].start_ms
            <= t[j].start_ms by {
            assert(t[i] == s[i] && t[j] == s[j]);
        }
        lemma_count_splits(t, key);
        assert forall|i: int| 0 <= i < count_started(t, key) implies #[trigger] s[i].start_ms
            <= key by {
            assert(t[i] == s[i]);
        }
        if s.last().start_ms <= key {
            assert forall|i: int| 0 <= i < s.len() - 1 implies #[trigger] s[i].start_ms
                <= key by {
                assert(s[i].start_ms <= s[s.len() - 1].start_ms);
            }
        } else {
            assert forall|i: int| count_started(s, key) <= i < s.len() implies #[trigger] s[
                i
            ].start_ms > key by {
                if i < s.len() - 1 {
                    assert(t[i] == s[i]);
                }
            }
        }
    }
}

/// Why a lyrics text is refused.
#[derive(Debug, Clone, Copy, PartialEq, Eq)]
pub enum LyricsError {
    /// An `[offset:..]` tag whose value is not a valid `i64`, and why.
    InvalidOffset(IntFault),
    /// The offset moved a timestamp before zero.
    OffsetBeforeZero,
    /// Word sync was required, but no line carries word timestamps.
    NotWordSynced,
    /// No timed lyric was found.
    NoTimestamps,
}

impl LyricsError {
    pub open spec fn message(self) -> Seq<char> {
        match self {
            LyricsError::InvalidOffset(_) => "invalid LRC offset"@,
            LyricsError::OffsetBeforeZero => "LRC offset moved a timestamp before zero"@,
            LyricsError::NotWordSynced => "strict word sync requested, but the lyrics are not enhanced LRC"@,
            LyricsError::NoTimestamps => "no lyric timestamps were found in the supplied content"@,
        }
    }

    /// The human-readable description of the error.
    pub fn to_string(&self) -> (s: String)
        ensures
            s@ == self.message(),
    {
        match self {
            LyricsError::InvalidOffset(_) => String::from_str("invalid LRC offset"),
            LyricsError::OffsetBeforeZero => String::from_str(
                "LRC offset moved a timestamp before zero",
            ),
            LyricsError::NotWordSynced => String::from_str(
                "strict word sync requested, but the lyrics are not enhanced LRC",
            ),
            LyricsError::NoTimestamps => String::from_str(
                "no lyric timestamps were found in the supplied content",
            ),
        }
    }
}

/// The outcome of one parsing step: go on with a value, refuse the text, or
/// leave the domain of the format (a timestamp beyond 64 bits, an offset
/// shift beyond `i64`, or a fraction field whose first three bytes end
/// inside a character).
pub enum Step<T> {
    Next(T),
    Reject(LyricsError),
    Undefined,
}

/// What a bracketed tag denotes.
#[derive(Debug, Clone, Copy, PartialEq, Eq)]
pub enum TagTime {
    /// A timestamp in milliseconds.
    Time(u64),
    /// Not a timestamp.
    NotTime,
    /// Outside the domain (see `Step::Undefined`).
    Undefined,
}

/// Bytes that `c` takes in UTF-8.
pub open spec fn utf8_width(c: char) -> nat {
    let u = c as u32;
    if u < 0x80 {
        1
    } else if u < 0x800 {
        2
    } else if u < 0x10000 {
        3
    } else {
        4
    }
}

/// Bytes that `s` takes in UTF-8.
pub open spec fn utf8_len(s: Seq<char>) -> nat
    decreases s.len(),
{
    if s.len() == 0 {
        0
    } else {
        utf8_len(s.drop_last()) + utf8_width(s.last())
    }
}

/// From char `k`, having counted `bytes` bytes before it: the number of chars
/// that make up exactly the first three bytes, if byte 3 starts a char.
pub open spec fn three_byte_cut(s: Seq<char>, k: int, bytes: nat) -> Option<int>
    decreases s.len() - k,
{
    if bytes == 3 {
        Some(k)
    } else if bytes > 3 || k < 0 || k >= s.len() {
        None
    } else {
        three_byte_cut(s, k + 1, bytes + utf8_width(s[k]))
    }
}

/// Milliseconds of the fraction field after the seconds: one digit counts
/// hundreds, two count tens, longer fields are read by their first three bytes.
pub open spec fn fraction_ms(f: Seq<char>) -> TagTime {
    let n = utf8_len(f);
    if n == 0 {
        TagTime::Time(0)
    } else if n == 1 {
        match parse_u64(f) {
            Some(v) => TagTime::Time((v * 100) as u64),
            None => TagTime::NotTime,
        }
    } else if n == 2 {
        match parse_u64(f) {
            Some(v) => TagTime::Time((v * 10) as u64),
            None => TagTime::NotTime,
        }
    } else {
        match three_byte_cut(f, 0, 0) {
            None => TagTime::Undefined,
            Some(k) => match parse_u64(f.take(k)) {
                Some(v) => TagTime::Time(v),
                None => TagTime::NotTime,
            },
        }
    }
}

pub open spec fn saturating_mul(a: u64, b: u64) -> int {
    if a * b > u64::MAX {
        u64::MAX as int
    } else {
        a * b
    }
}

/// The timestamp `mm:ss.ff` (or `mm:ss:ff`) that a tag holds: minutes up to
/// the first `:`, seconds up to the first `.` (or else the next `:`), then the
/// fraction.
pub open spec fn timestamp_of(tag: Seq<char>) -> TagTime {
    let p = find_char(tag, 0, ':');
    if p >= tag.len() {
        TagTime::NotTime
    } else {
        match parse_u64(tag.take(p)) {
            None => TagTime::NotTime,
            Some(minutes) => {
                let v = tag.skip(p + 1);
                let dot = find_char(v, 0, '.');
                let colon = find_char(v, 0, ':');
                if dot >= v.len() && colon >= v.len() {
                    TagTime::NotTime
                } else {
                    let cut = if dot < v.len() {
                        dot
                    } else {
                        colon
                    };
                    match parse_u64(v.take(cut)) {
                        None => TagTime::NotTime,
                        Some(seconds) => match fraction_ms(v.skip(cut + 1)) {
                            TagTime::Time(f) => {
                                let total = saturating_mul(minutes, 60_000) + saturating_mul(
                                    seconds,
                                    1000,
                                ) + f;
                                if total > u64::MAX {
                                    TagTime::Undefined
                                } else {
                                    TagTime::Time(total as u64)
                                }
                            },
                            other => other,
                        },
                    }
                }
            },
        }
    }
}

pub proof fn lemma_find_char_first(s: Seq<char>, i: int, p: int, c: char)
    requires
        0 <= i <= p < s.len(),
        s[p] == c,
        forall|k: int| i <= k < p ==> #[trigger] s[k] != c,
    ensures
        find_char(s, i, c) == p,
    decreases p - i,
{
    if i < p {
        lemma_find_char_first(s, i + 1, p, c);
    }
}

proof fn lemma_utf8_len_digits(f: Seq<char>)
    requires
        all_digits(f),
    ensures
        utf8_len(f) == f.len(),
    decreases f.len(),
{
    if f.len() > 0 {
        lemma_utf8_len_digits(f.drop_last());
        assert(is_digit(f[f.len() - 1]));
    }
}

/// What a fraction field of one, two or three digits is worth in
/// milliseconds per unit: tenths, hundredths, thousandths of a second.
pub open spec fn fraction_unit_ms(digits: nat) -> nat {
    if digits == 1 {
        100
    } else if digits == 2 {
        10
    } else {
        1
    }
}

proof fn lemma_timestamp_fields(m: Seq<char>, s: Seq<char>, f: Seq<char>, sep: char)
    requires
        sep == '.' || sep == ':',
        m.len() > 0,
        all_digits(m),
        s.len() > 0,
        all_digits(s),
        1 <= f.len() <= 3,
        all_digits(f),
        digits_value(m) * 60_000 + digits_value(s) * 1000 + digits_value(f) * fraction_unit_ms(
            f.len(),
        ) <= u64::MAX,
    ensures
        timestamp_of(m + seq![':'] + s + seq![sep] + f) == TagTime::Time(
            (digits_value(m) * 60_000 + digits_value(s) * 1000 + digits_value(f) * fraction_unit_ms(
                f.len(),
            )) as u64,
        ),
{
    let tag = m + seq![':'] + s + seq![sep] + f;
    let p = m.len() as int;
    assert forall|k: int| 0 <= k < p implies #[trigger] tag[k] != ':' by {
        assert(tag[k] == m[k]);
        assert(is_digit(m[k]));
    }
    lemma_find_char_first(tag, 0, p, ':');
    assert(tag.take(p) =~= m);
    assert(is_digit(m[0]));
    assert(unsigned_digits(m) == m);
    let v = tag.skip(p + 1);
    assert(v =~= s + seq![sep] + f);
    let q = s.len() as int;
    assert forall|k: int| 0 <= k < q implies #[trigger] v[k] != '.' && v[k] != ':' by {
        assert(v[k] == s[k]);
        assert(is_digit(s[k]));
    }
    if sep == '.' {
        lemma_find_char_first(v, 0, q, '.');
    } else {
        lemma_find_char_first(v, 0, q, ':');
        assert forall|k: int| 0 <= k < v.len() implies #[trigger] v[k] != '.' by {
            if k > q {
                assert(v[k] == f[k - q - 1]);
                assert(is_digit(f[k - q - 1]));
            }
        }
        lemma_find_char_bounds(v, 0, '.');
    }
    assert(v.take(q) =~= s);
    assert(is_digit(s[0]));
    assert(unsigned_digits(s) == s);
    assert(v.skip(q + 1) =~= f);
    assert(is_digit(f[0]));
    assert(unsigned_digits(f) == f);
    lemma_utf8_len_digits(f);
    let dm = digits_value(m);
    let ds = digits_value(s);
    let df = digits_value(f);
    assert(dm <= u64::MAX);
    assert(ds <= u64::MAX);
    if f.len() == 3 {
        assert(is_digit(f[1]) && is_digit(f[2]));
        assert(three_byte_cut(f, 3, 3) == Some(3int));
        assert(three_byte_cut(f, 2, 2) == Some(3int));
        assert(three_byte_cut(f, 1, 1) == Some(3int));
        assert(three_byte_cut(f, 0, 0) == Some(3int));
        assert(f.take(3) =~= f);
        assert(df <= 999) by {
            reveal_with_fuel(digits_value, 4);
        }
    }
    assert(fraction_ms(f) == TagTime::Time((df * fraction_unit_ms(f.len())) as u64));
    assert(saturating_mul(dm as u64, 60_000) == dm * 60_000);
    assert(saturating_mul(ds as u64, 1000) == ds * 1000);
}

/// A tag `m:s.f` (or `m:s:f`) of decimal fields is worth `m` minutes, `s`
/// seconds and the fraction `f` of a second (tenths, hundredths or
/// thousandths by its length), counted in milliseconds, for every such tag
/// whose value fits in 64 bits.
pub proof fn law_timestamp_counts_minutes_seconds_fraction(m: Seq<char>, s: Seq<char>, f: Seq<char>)
    requires
        m.len() > 0,
        all_digits(m),
        s.len() > 0,
        all_digits(s),
        1 <= f.len() <= 3,
        all_digits(f),
        digits_value(m) * 60_000 + digits_value(s) * 1000 + digits_value(f) * fraction_unit_ms(
            f.len(),
        ) <= u64::MAX,
    ensures
        timestamp_of(m + seq![':'] + s + seq!['.'] + f) == TagTime::Time(
            (digits_value(m) * 60_000 + digits_value(s) * 1000 + digits_value(f) * fraction_unit_ms(
                f.len(),
            )) as u64,
        ),
        timestamp_of(m + seq![':'] + s + seq![':'] + f) == TagTime::Time(
            (digits_value(m) * 60_000 + digits_value(s) * 1000 + digits_value(f) * fraction_unit_ms(
                f.len(),
            )) as u64,
        ),
{
    lemma_timestamp_fields(m, s, f, '.');
    lemma_timestamp_fields(m, s, f, ':');
}

/// Applying the offset: the timestamp is read as a 64-bit signed value (as a
/// two's complement cast does) and shifted; results before zero are refused.
pub open spec fn shift(t: u64, offset: i64) -> Step<u64> {
    let ti: int = if t <= i64::MAX {
        t as int
    } else {
        t - 0x1_0000_0000_0000_0000
    };
    let sum = ti + offset;
    if sum < i64::MIN || sum > i64::MAX {
        Step::Undefined
    } else if sum < 0 {
        Step::Reject(LyricsError::OffsetBeforeZero)
    } else {
        Step::Next(sum as u64)
    }
}

/// Repeated bracketed timestamps from index `i`: `[..]` tags, and with
/// `angle` also `<..>` tags. `None` when a tag leaves the domain, else the
/// timestamps and the index where the text after them begins.
pub open spec fn tag_scan(t: Seq<char>, i: int, times: Seq<u64>, angle: bool) -> Option<
    (Seq<u64>, int),
>
    decreases t.len() - i,
{
    if 0 <= i < t.len() && (t[i] == '[' || (angle && t[i] == '<')) {
        let closing = if t[i] == '<' {
            '>'
        } else {
            ']'
        };
        let close = find_char(t, i + 1, closing);
        if close >= t.len() {
            Some((times, i))
        } else {
            match timestamp_of(t.subrange(i + 1, close)) {
                TagTime::Time(v) => {
                    proof {
                        lemma_find_char_bounds(t, i + 1, closing);
                    }
                    tag_scan(t, close + 1, times.push(v), angle)
                },
                TagTime::NotTime => Some((times, i)),
                TagTime::Undefined => None,
            }
        }
    } else {
        Some((times, i))
    }
}

/// The state carried from line to line.
pub struct LrcState {
    pub offset: i64,
    pub saw_word_times: bool,
    pub spans: Seq<SpanModel>,
}

pub open spec fn with_span(st: LrcState, ms: u64, text: Seq<char>) -> LrcState {
    LrcState {
        offset: st.offset,
        saw_word_times: st.saw_word_times,
        spans: insert_by_start(st.spans, SpanModel { start_ms: ms, text }),
    }
}

pub open spec fn has_angle(c: Seq<char>) -> bool {
    exists|k: int| 0 <= k < c.len() && (c[k] == '<' || c[k] == '>')
}

/// `[offset:..]`: the key, lower-cased (it is ASCII letters only), is `offset`.
pub open spec fn is_offset_key(key: Seq<char>) -> bool {
    &&& key.len() == 6
    &&& key[0] == 'o' || key[0] == 'O'
    &&& key[1] == 'f' || key[1] == 'F'
    &&& key[2] == 'f' || key[2] == 'F'
    &&& key[3] == 's' || key[3] == 'S'
    &&& key[4] == 'e' || key[4] == 'E'
    &&& key[5] == 't' || key[5] == 'T'
}

pub open spec fn is_ascii_alpha(c: char) -> bool {
    ('a' as u32 <= c as u32 <= 'z' as u32) || ('A' as u32 <= c as u32 <= 'Z' as u32)
}

/// A metadata line `[key:value]` with an alphabetic (possibly empty) key.
pub open spec fn metadata_of(t: Seq<char>) -> Option<(Seq<char>, Seq<char>)> {
    if t.len() >= 2 && t[0] == '[' && t.last() == ']' {
        let inner = t.subrange(1, t.len() - 1);
        let p = find_char(inner, 0, ':');
        if p < inner.len() && (forall|k: int| 0 <= k < p ==> is_ascii_alpha(#[trigger] inner[k])) {
            Some((inner.take(p), inner.skip(p + 1)))
        } else {
            None
        }
    } else {
        None
    }
}

/// Word tokens of an enhanced line from index `i`: each whitespace-separated
/// token may begin with `<mm:ss.xx>` or `[mm:ss.xx]` tags; the last of them
/// becomes the current time, and the rest of the token, if any, is a span at
/// that time.
pub open spec fn token_flow(c: Seq<char>, i: int, current: u64, st: LrcState) -> Step<LrcState>
    decreases c.len() - i,
{
    let j = skip_space(c, i);
    if i < 0 || i > c.len() || j >= c.len() {
        Step::Next(st)
    } else {
        let k = word_end(c, j);
        let tok = c.subrange(j, k);
        proof {
            lemma_skip_space_bounds(c, i);
            lemma_word_end_bounds(c, j + 1);
        }
        match tag_scan(tok, 0, Seq::empty(), true) {
            None => Step::Undefined,
            Some((times, r)) => {
                let now = if times.len() > 0 {
                    times.last()
                } else {
                    current
                };
                let text = tok.subrange(r, tok.len() as int);
                if text.len() == 0 {
                    token_flow(c, k, now, st)
                } else {
                    match shift(now, st.offset) {
                        Step::Next(ms) => token_flow(c, k, now, with_span(st, ms, text)),
                        Step::Reject(e) => Step::Reject(e),
                        Step::Undefined => Step::Undefined,
                    }
                }
            },
        }
    }
}

/// A line-synced line: one span with the whole text per leading timestamp, from `idx`.
pub open spec fn line_spans_flow(times: Seq<u64>, idx: int, text: Seq<char>, st: LrcState) -> Step<
    LrcState,
>
    decreases times.len() - idx,
{
    if idx < 0 || idx >= times.len() {
        Step::Next(st)
    } else {
        match shift(times[idx], st.offset) {
            Step::Next(ms) => line_spans_flow(times, idx + 1, text, with_span(st, ms, text)),
            Step::Reject(e) => Step::Reject(e),
            Step::Undefined => Step::Undefined,
        }
    }
}

/// One line of the text.
pub open spec fn line_flow(line: Seq<char>, st: LrcState) -> Step<LrcState> {
    let t = trim(line);
    if t.len() == 0 {
        Step::Next(st)
    } else {
        match metadata_of(t) {
            Some((key, value)) => if is_offset_key(key) {
                match parse_i64(value) {
                    Ok(o) => Step::Next(
                        LrcState { offset: o, saw_word_times: st.saw_word_times, spans: st.spans },
                    ),
                    Err(f) => Step::Reject(LyricsError::InvalidOffset(f)),
                }
            } else {
                Step::Next(st)
            },
            None => match tag_scan(t, 0, Seq::empty(), false) {
                None => Step::Undefined,
                Some((times, r)) => {
                    let content = trim(t.subrange(r, t.len() as int));
                    if times.len() == 0 || content.len() == 0 {
                        Step::Next(st)
                    } else if has_angle(content) {
                        token_flow(
                            content,
                            0,
                            times[0],
                            LrcState { offset: st.offset, saw_word_times: true, spans: st.spans },
                        )
                    } else {
                        line_spans_flow(times, 0, content, st)
                    }
                },
            },
        }
    }
}

/// The lines of `s` from index `i` (lines end at `\n`).
pub open spec fn lines_flow(s: Seq<char>, i: int, st: LrcState) -> Step<LrcState>
    decreases s.len() - i,
{
    if i < 0 || i > s.len() {
        Step::Next(st)
    } else {
        let e = find_char(s, i, '\n');
        proof {
            lemma_find_char_bounds(s, i, '\n');
        }
        match line_flow(s.subrange(i, e), st) {
            Step::Next(st2) => if e < s.len() {
                lines_flow(s, e + 1, st2)
            } else {
                Step::Next(st2)
            },
            other => other,
        }
    }
}

/// The whole text, from an offset of zero and no spans.
pub open spec fn lrc_flow(s: Seq<char>) -> Step<LrcState> {
    lines_flow(s, 0, LrcState { offset: 0, saw_word_times: false, spans: Seq::empty() })
}

/// Texts outside the domain of the format (see `Step::Undefined`).
pub open spec fn lrc_undefined(s: Seq<char>) -> bool {
    lrc_flow(s) is Undefined
}

/// What `parse_lrc_words` gives for a text in the domain. Outside the domain
/// the parser is never called, and the result is left unspecified: one
/// arbitrary value, whatever `strict_word_sync` is.
pub open spec fn parse_lrc_result(s: Seq<char>, strict_word_sync: bool) -> Result<
    Seq<SpanModel>,
    LyricsError,
> {
    match lrc_flow(s) {
        Step::Next(st) => if strict_word_sync && !st.saw_word_times {
            Err(LyricsError::NotWordSynced)
        } else if st.spans.len() == 0 {
            Err(LyricsError::NoTimestamps)
        } else {
            Ok(st.spans)
        },
        Step::Reject(e) => Err(e),
        Step::Undefined => arbitrary(),
    }
}

/// The parse state, as the executable code carries it.
struct LrcScan {
    offset: i64,
    saw_word_times: bool,
    spans: Vec<WordSpan>,
}

impl LrcScan {
    spec fn model(&self) -> LrcState {
        LrcState {
            offset: self.offset,
            saw_word_times: self.saw_word_times,
            spans: spans_view(self.spans@),
        }
    }
}

spec fn step_model(r: Step<LrcScan>) -> Step<LrcState> {
    match r {
        Step::Next(x) => Step::Next(x.model()),
        Step::Reject(e) => Step::Reject(e),
        Step::Undefined => Step::Undefined,
    }
}

spec fn step_sorted(r: Step<LrcScan>) -> bool {
    r matches Step::Next(x) ==> sorted_by_start(x.model().spans)
}

/// The first index `p` with `words[p].start_ms > key`, by binary search.
/// For any order of the words the result is a boundary; in spans ordered by
/// start time it is the number of spans that start at or before `key`.
pub fn partition_point(words: &Vec<WordSpan>, key: u64) -> (p: usize)
    ensures
        is_boundary(spans_view(words@), p as int, key),
        sorted_by_start(spans_view(words@)) ==> p == count_started(spans_view(words@), key),
{
    let ghost s = spans_view(words@);
    let mut lo: usize = 0;
    let mut hi: usize = words.len();
    while lo < hi
        invariant
            s == spans_view(words@),
            0 <= lo <= hi <= words@.len(),
            lo > 0 ==> s[lo - 1].start_ms <= key,
            hi < words@.len() ==> s[hi as int].start_ms > key,
        decreases hi - lo,
    {
        let mid = lo + (hi - lo) / 2;
        if words[mid].start_ms <= key {
            lo = mid + 1;
        } else {
            hi = mid;
        }
    }
    proof {
        if sorted_by_start(s) {
            lemma_boundary_is_count(s, lo as int, key);
        }
    }
    lo
}

fn insert_span(spans: &mut Vec<WordSpan>, w: WordSpan)
    requires
        sorted_by_start(spans_view(old(spans)@)),
    ensures
        spans_view(final(spans)@) == insert_by_start(spans_view(old(spans)@), w@),
        sorted_by_start(spans_view(final(spans)@)),
{
    let p = partition_point(spans, w.start_ms);
    let ghost before = spans@;
    spans.insert(p, w);
    proof {
        assert(spans_view(spans@) =~= spans_view(before).insert(p as int, w@));
        lemma_insert_keeps_order(spans_view(before), w@);
    }
}

fn width_of(c: char) -> (n: u64)
    ensures
        n == utf8_width(c),
{
    let u = c as u32;
    if u < 0x80 {
        1
    } else if u < 0x800 {
        2
    } else if u < 0x10000 {
        3
    } else {
        4
    }
}

proof fn lemma_utf8_len_prefix(s: Seq<char>, k: int)
    requires
        0 <= k < s.len(),
    ensures
        utf8_len(s.take(k + 1)) == utf8_len(s.take(k)) + utf8_width(s[k]),
{
    assert(s.take(k + 1).drop_last() =~= s.take(k));
}

proof fn lemma_utf8_len_grows(s: Seq<char>, k: int)
    requires
        0 <= k <= s.len(),
    ensures
        utf8_len(s.take(k)) + (s.len() - k) <= utf8_len(s),
    decreases s.len() - k,
{
    if k < s.len() {
        lemma_utf8_len_grows(s, k + 1);
        lemma_utf8_len_prefix(s, k);
    } else {
        assert(s.take(k) =~= s);
    }
}

proof fn lemma_three_byte_cut(s: Seq<char>, k: int)
    requires
        0 <= k <= s.len(),
        utf8_len(s.take(k)) <= 3,
    ensures
        three_byte_cut(s, k, utf8_len(s.take(k))) == three_byte_cut(s, 0, 0),
    decreases k,
{
    if k > 0 {
        lemma_utf8_len_prefix(s, k - 1);
        lemma_three_byte_cut(s, k - 1);
    } else {
        assert(s.take(0) =~= Seq::<char>::empty());
    }
}

/// `fraction_ms` on the chars of `f`.
fn exec_fraction_ms(f: &Vec<char>) -> (r: TagTime)
    ensures
        r == fraction_ms(f@),
{
    // Count bytes, stopping once three are reached.
    let mut k: usize = 0;
    let mut bytes: u64 = 0;
    while k < f.len() && bytes < 3
        invariant
            0 <= k <= f@.len(),
            bytes == utf8_len(f@.take(k as int)),
            bytes <= 6,
            k > 0 ==> utf8_len(f@.take(k - 1)) < 3,
        decreases f@.len() - k,
    {
        proof {
            lemma_utf8_len_prefix(f@, k as int);
        }
        bytes = bytes + width_of(f[k]);
        k = k + 1;
    }
    proof {
        lemma_utf8_len_grows(f@, k as int);
        lemma_utf8_len_grows(f@, 0);
        assert(f@.take(0) =~= Seq::<char>::empty());
    }
    if bytes == 0 {
        assert(f@.take(k as int) =~= f@);
        TagTime::Time(0)
    } else if k == f.len() && bytes <= 2 {
        assert(f@.take(k as int) =~= f@);
        match parse_u64_chars(f) {
            Some(v) => {
                proof {
                    lemma_small_parse(f@);
                }
                if bytes == 1 {
                    TagTime::Time(v * 100)
                } else {
                    TagTime::Time(v * 10)
                }
            },
            None => TagTime::NotTime,
        }
    } else {
        proof {
            if k < f@.len() {
                // Three bytes or more were counted before the end.
                lemma_utf8_len_grows(f@, k as int);
            }
            if bytes <= 3 {
                lemma_three_byte_cut(f@, k as int);
            } else {
                lemma_three_byte_cut(f@, k - 1);
                lemma_utf8_len_prefix(f@, k - 1);
                assert(three_byte_cut(f@, k - 1, utf8_len(f@.take(k - 1))) == three_byte_cut(
                    f@,
                    k as int,
                    bytes as nat,
                ));
                assert(three_byte_cut(f@, k as int, bytes as nat) is None);
            }
        }
        if bytes == 3 {
            let prefix = copy_range(f, 0, k);
            assert(prefix@ =~= f@.take(k as int));
            match parse_u64_chars(&prefix) {
                Some(v) => TagTime::Time(v),
                None => TagTime::NotTime,
            }
        } else {
            TagTime::Undefined
        }
    }
}

/// One or two chars parse to at most 99.
proof fn lemma_small_parse(f: Seq<char>)
    requires
        f.len() <= 2,
        parse_u64(f) is Some,
    ensures
        parse_u64(f).unwrap() <= 99,
{
    let d = unsigned_digits(f);
    reveal_with_fuel(digits_value, 3);
    assert(d.len() <= 2);
    if d.len() == 1 {
        assert(d.drop_last().len() == 0);
    } else if d.len() == 2 {
        assert(d.drop_last().drop_last().len() == 0);
        assert(is_digit(d[0]) && is_digit(d[1]));
        assert(d.drop_last()[0] == d[0]);
    }
}

fn sat_mul(a: u64, b: u64) -> (r: u64)
    ensures
        r == saturating_mul(a, b),
{
    match a.checked_mul(b) {
        Some(v) => v,
        None => u64::MAX,
    }
}

/// `timestamp_of` on the chars of a tag.
pub fn tag_timestamp(tag: &Vec<char>) -> (r: TagTime)
    ensures
        r == timestamp_of(tag@),
{
    let p = exec_find_char(tag, 0, ':');
    if p >= tag.len() {
        return TagTime::NotTime;
    }
    proof {
        lemma_find_char_bounds(tag@, 0, ':');
    }
    let mpart = copy_range(tag, 0, p);
    assert(mpart@ =~= tag@.take(p as int));
    let minutes = match parse_u64_chars(&mpart) {
        Some(m) => m,
        None => {
            return TagTime::NotTime;
        },
    };
    let v = copy_range(tag, p + 1, tag.len());
    assert(v@ =~= tag@.skip(p + 1));
    let dot = exec_find_char(&v, 0, '.');
    let colon = exec_find_char(&v, 0, ':');
    if dot >= v.len() && colon >= v.len() {
        return TagTime::NotTime;
    }
    let cut = if dot < v.len() {
        dot
    } else {
        colon
    };
    proof {
        lemma_find_char_bounds(v@, 0, '.');
        lemma_find_char_bounds(v@, 0, ':');
    }
    let spart = copy_range(&v, 0, cut);
    assert(spart@ =~= v@.take(cut as int));
    let seconds = match parse_u64_chars(&spart) {
        Some(s) => s,
        None => {
            return TagTime::NotTime;
        },
    };
    let fpart = copy_range(&v, cut + 1, v.len());
    assert(fpart@ =~= v@.skip(cut + 1));
    match exec_fraction_ms(&fpart) {
        TagTime::Time(f) => {
            let a = sat_mul(minutes, 60_000);
            let b = sat_mul(seconds, 1000);
            match a.checked_add(b) {
                Some(ab) => match ab.checked_add(f) {
                    Some(total) => TagTime::Time(total),
                    None => TagTime::Undefined,
                },
                None => TagTime::Undefined,
            }
        },
        TagTime::NotTime => TagTime::NotTime,
        TagTime::Undefined => TagTime::Undefined,
    }
}

/// `shift` as executable code.
fn exec_shift(t: u64, offset: i64) -> (r: Step<u64>)
    ensures
        r == shift(t, offset),
{
    let ti: i64 = if t <= i64::MAX as u64 {
        t as i64
    } else {
        ((t - 0x8000_0000_0000_0000u64) as i64) + i64::MIN
    };
    match ti.checked_add(offset) {
        None => Step::Undefined,
        Some(sum) => if sum < 0 {
            Step::Reject(LyricsError::OffsetBeforeZero)
        } else {
            Step::Next(sum as u64)
        },
    }
}

/// `tag_scan` from the start of `t`.
fn exec_tag_scan(t: &Vec<char>, angle: bool) -> (r: Option<(Vec<u64>, usize)>)
    ensures
        match r {
            Some((times, i)) => tag_scan(t@, 0, Seq::empty(), angle) == Some((times@, i as int))
                && i <= t@.len(),
            None => tag_scan(t@, 0, Seq::empty(), angle) is None,
        },
{
    let mut times: Vec<u64> = Vec::new();
    let mut i: usize = 0;
    loop
        invariant
            0 <= i <= t@.len(),
            tag_scan(t@, 0, Seq::empty(), angle) == tag_scan(t@, i as int, times@, angle),
        decreases t@.len() - i,
    {
        if i < t.len() && (t[i] == '[' || (angle && t[i] == '<')) {
            let closing = if t[i] == '<' {
                '>'
            } else {
                ']'
            };
            let close = exec_find_char(t, i + 1, closing);
            proof {
                lemma_find_char_bounds(t@, i + 1, closing);
            }
            if close >= t.len() {
                return Some((times, i));
            }
            let tag = copy_range(t, i + 1, close);
            match tag_timestamp(&tag) {
                TagTime::Time(v) => {
                    times.push(v);
                    i = close + 1;
                },
                TagTime::NotTime => {
                    return Some((times, i));
                },
                TagTime::Undefined => {
                    return None;
                },
            }
        } else {
            return Some((times, i));
        }
    }
}

fn exec_has_angle(c: &Vec<char>) -> (b: bool)
    ensures
        b == has_angle(c@),
{
    let mut k: usize = 0;
    while k < c.len()
        invariant
            0 <= k <= c@.len(),
            forall|j: int| 0 <= j < k ==> c@[j] != '<' && c@[j] != '>',
        decreases c@.len() - k,
    {
        if c[k] == '<' || c[k] == '>' {
            return true;
        }
        k = k + 1;
    }
    false
}

fn exec_is_offset_key(key: &Vec<char>) -> (b: bool)
    ensures
        b == is_offset_key(key@),
{
    key.len() == 6 && (key[0] == 'o' || key[0] == 'O') && (key[1] == 'f' || key[1] == 'F') && (
    key[2] == 'f' || key[2] == 'F') && (key[3] == 's' || key[3] == 'S') && (key[4] == 'e'
        || key[4] == 'E') && (key[5] == 't' || key[5] == 'T')
}

fn exec_metadata_of(t: &Vec<char>) -> (r: Option<(Vec<char>, Vec<char>)>)
    ensures
        match r {
            Some((k, v)) => metadata_of(t@) == Some((k@, v@)),
            None => metadata_of(t@) is None,
        },
{
    if t.len() >= 2 && t[0] == '[' && t[t.len() - 1] == ']' {
        let inner = copy_range(t, 1, t.len() - 1);
        let p = exec_find_char(&inner, 0, ':');
        proof {
            lemma_find_char_bounds(inner@, 0, ':');
        }
        if p >= inner.len() {
            return None;
        }
        let mut k: usize = 0;
        while k < p
            invariant
                0 <= k <= p < inner@.len(),
                inner@ == t@.subrange(1, t@.len() - 1),
                p == find_char(inner@, 0, ':'),
                t@.len() >= 2 && t@[0] == '[' && t@.last() == ']',
                forall|j: int| 0 <= j < k ==> is_ascii_alpha(#[trigger] inner@[j]),
            decreases p - k,
        {
            let c = inner[k];
            let u = c as u32;
            if !(('a' as u32 <= u && u <= 'z' as u32) || ('A' as u32 <= u && u <= 'Z' as u32)) {
                assert(!is_ascii_alpha(inner@[k as int]));
                return None;
            }
            k = k + 1;
        }
        let key = copy_range(&inner, 0, p);
        let value = copy_range(&inner, p + 1, inner.len());
        assert(key@ =~= inner@.take(p as int));
        assert(value@ =~= inner@.skip(p + 1));
        Some((key, value))
    } else {
        None
    }
}

fn exec_token_flow(c: &Vec<char>, current: u64, scan: LrcScan) -> (r: Step<LrcScan>)
    requires
        sorted_by_start(scan.model().spans),
    ensures
        step_model(r) == token_flow(c@, 0, current, scan.model()),
        step_sorted(r),
{
    let ghost init = scan.model();
    let mut st = scan;
    let mut i: usize = 0;
    let mut now = current;
    loop
        invariant
            0 <= i <= c@.len(),
            init == scan.model(),
            sorted_by_start(st.model().spans),
            token_flow(c@, 0, current, init) == token_flow(c@, i as int, now, st.model()),
        decreases c@.len() - i,
    {
        let j = exec_skip_space(c, i);
        if j >= c.len() {
            assert(token_flow(c@, i as int, now, st.model()) == Step::<LrcState>::Next(st.model()));
            return Step::Next(st);
        }
        proof {
            lemma_skip_space_bounds(c@, i as int);
            lemma_word_end_bounds(c@, j + 1);
        }
        let k = exec_word_end(c, j);
        let tok = copy_range(c, j, k);
        match exec_tag_scan(&tok, true) {
            None => {
                return Step::Undefined;
            },
            Some((times, r)) => {
                if times.len() > 0 {
                    now = times[times.len() - 1];
                }
                if r < tok.len() {
                    let text_chars = copy_range(&tok, r, tok.len());
                    match exec_shift(now, st.offset) {
                        Step::Next(ms) => {
                            let text = string_from_chars(&text_chars);
                            insert_span(&mut st.spans, WordSpan { start_ms: ms, text });
                        },
                        Step::Reject(e) => {
                            return Step::Reject(e);
                        },
                        Step::Undefined => {
                            return Step::Undefined;
                        },
                    }
                }
                i = k;
            },
        }
    }
}

fn exec_line_spans(times: &Vec<u64>, c: &Vec<char>, scan: LrcScan) -> (r: Step<LrcScan>)
    requires
        sorted_by_start(scan.model().spans),
    ensures
        step_model(r) == line_spans_flow(times@, 0, c@, scan.model()),
        step_sorted(r),
{
    let ghost init = scan.model();
    let mut st = scan;
    let mut idx: usize = 0;
    while idx < times.len()
        invariant
            0 <= idx <= times@.len(),
            init == scan.model(),
            sorted_by_start(st.model().spans),
            line_spans_flow(times@, 0, c@, init) == line_spans_flow(
                times@,
                idx as int,
                c@,
                st.model(),
            ),
        decreases times@.len() - idx,
    {
        match exec_shift(times[idx], st.offset) {
            Step::Next(ms) => {
                let text = string_from_chars(c);
                insert_span(&mut st.spans, WordSpan { start_ms: ms, text });
            },
            Step::Reject(e) => {
                return Step::Reject(e);
            },
            Step::Undefined => {
                return Step::Undefined;
            },
        }
        idx = idx + 1;
    }
    Step::Next(st)
}

fn exec_line_flow(line: &Vec<char>, scan: LrcScan) -> (r: Step<LrcScan>)
    requires
        sorted_by_start(scan.model().spans),
    ensures
        step_model(r) == line_flow(line@, scan.model()),
        step_sorted(r),
{
    let mut st = scan;
    let t = trim_chars(line);
    if t.len() == 0 {
        return Step::Next(st);
    }
    match exec_metadata_of(&t) {
        Some((key, value)) => {
            if exec_is_offset_key(&key) {
                match parse_i64_chars(&value) {
                    Ok(o) => {
                        st.offset = o;
                        Step::Next(st)
                    },
                    Err(f) => Step::Reject(LyricsError::InvalidOffset(f)),
                }
            } else {
                Step::Next(st)
            }
        },
        None => match exec_tag_scan(&t, false) {
            None => Step::Undefined,
            Some((times, r)) => {
                let rest = copy_range(&t, r, t.len());
                let content = trim_chars(&rest);
                if times.len() == 0 || content.len() == 0 {
                    Step::Next(st)
                } else if exec_has_angle(&content) {
                    st.saw_word_times = true;
                    exec_token_flow(&content, times[0], st)
                } else {
                    exec_line_spans(&times, &content, st)
                }
            },
        },
    }
}

/// Runs the parser over all lines of `s`.
fn exec_lrc_flow(s: &Vec<char>) -> (r: Step<LrcScan>)
    ensures
        step_model(r) == lrc_flow(s@),
        step_sorted(r),
{
    let mut st = LrcScan { offset: 0, saw_word_times: false, spans: Vec::new() };
    proof {
        assert(st.model().spans =~= Seq::<SpanModel>::empty());
    }
    let mut i: usize = 0;
    loop
        invariant
            0 <= i <= s@.len(),
            sorted_by_start(st.model().spans),
            lrc_flow(s@) == lines_flow(s@, i as int, st.model()),
        decreases s@.len() - i,
    {
        let e = exec_find_char(s, i, '\n');
        proof {
            lemma_find_char_bounds(s@, i as int, '\n');
        }
        let line = copy_range(s, i, e);
        match exec_line_flow(&line, st) {
            Step::Next(st2) => {
                st = st2;
                if e >= s.len() {
                    return Step::Next(st);
                }
                i = e + 1;
            },
            Step::Reject(err) => {
                return Step::Reject(err);
            },
            Step::Undefined => {
                return Step::Undefined;
            },
        }
    }
}

/// Whether `raw` lies outside the domain of the format: some timestamp
/// exceeds 64 bits, an offset shift leaves the range of `i64`, or the first
/// three bytes of a fraction field end inside a character (before the text
/// is refused for another reason).
pub fn lrc_outside_domain(raw: &str) -> (b: bool)
    ensures
        b == lrc_undefined(raw@),
{
    let chars = chars_of(raw);
    match exec_lrc_flow(&chars) {
        Step::Undefined => true,
        _ => false,
    }
}

/// Parses LRC text into spans ordered by start time. Enhanced LRC
/// (`[mm:ss.xx]w1 <mm:ss.xx>w2 ...`) gives one span per word at its own
/// timestamp; a line-synced line gives one span with the whole line per
/// leading timestamp, unless `strict_word_sync` requires word timestamps.
/// `[offset:ms]` shifts the timestamps of the lines after it.
pub fn parse_lrc_words(raw: &str, strict_word_sync: bool) -> (r: Result<Vec<WordSpan>, LyricsError>)
    requires
        !lrc_undefined(raw@),
    ensures
        match r {
            Ok(words) => parse_lrc_result(raw@, strict_word_sync) == Ok::<
                Seq<SpanModel>,
                LyricsError,
            >(spans_view(words@)),
            Err(e) => parse_lrc_result(raw@, strict_word_sync) == Err::<Seq<SpanModel>, LyricsError>(
                e,
            ),
        },
        r matches Ok(words) ==> sorted_by_start(spans_view(words@)) && words@.len() > 0,
        // Strict word sync only ever refuses more: a strict success is also the
        // lenient result, and a lenient refusal is also a strict one.
        strict_word_sync ==> (r matches Ok(words) ==> parse_lrc_result(raw@, false) == Ok::<
            Seq<SpanModel>,
            LyricsError,
        >(spans_view(words@))),
        !strict_word_sync ==> (r is Err ==> parse_lrc_result(raw@, true) is Err),
{
    proof {
        law_strict_only_refuses(raw@);
    }
    let chars = chars_of(raw);
    match exec_lrc_flow(&chars) {
        Step::Next(st) => {
            if strict_word_sync && !st.saw_word_times {
                Err(LyricsError::NotWordSynced)
            } else if st.spans.len() == 0 {
                Err(LyricsError::NoTimestamps)
            } else {
                Ok(st.spans)
            }
        },
        Step::Reject(e) => Err(e),
        Step::Undefined => unreached(),
    }
}

/// The title a lyrics file gets: the file's stem, or "Vellum" without one.
pub open spec fn file_title(stem: Option<&str>) -> Seq<char> {
    match stem {
        Some(t) => t@,
        None => "Vellum"@,
    }
}

/// Lyrics from the text of an LRC file: parsed as `parse_lrc_words` does,
/// titled by the file's stem (or "Vellum"), with no artist.
pub fn lyrics_from_file_text(stem: Option<&str>, raw: &str, strict_word_sync: bool) -> (r: Result<
    TrackLyrics,
    LyricsError,
>)
    requires
        !lrc_undefined(raw@),
    ensures
        match r {
            Ok(l) => {
                &&& parse_lrc_result(raw@, strict_word_sync) == Ok::<Seq<SpanModel>, LyricsError>(
                    spans_view(l.words@),
                )
                &&& l.title@ == file_title(stem)
                &&& l.artist@ == Seq::<char>::empty()
            },
            Err(e) => parse_lrc_result(raw@, strict_word_sync) == Err::<Seq<SpanModel>, LyricsError>(
                e,
            ),
        },
{
    let words = match parse_lrc_words(raw, strict_word_sync) {
        Ok(w) => w,
        Err(e) => {
            return Err(e);
        },
    };
    let title = match stem {
        Some(t) => t,
        None => "Vellum",
    };
    let r = TrackLyrics::new(title, "", words);
    proof {
        reveal_strlit("");
    }
    Ok(r)
}

impl TrackLyrics {
    /// Lyrics of a track from its title, artist and spans.
    pub fn new(title: &str, artist: &str, words: Vec<WordSpan>) -> (r: TrackLyrics)
        ensures
            r.title@ == title@,
            r.artist@ == artist@,
            r.words@ == words@,
    {
        TrackLyrics { title: title.to_owned(), artist: artist.to_owned(), words }
    }

    /// The index of the active span at `position_ms`: the last span starting at
    /// or before it (found by binary search), or `None` before the first span.
    pub fn active_word_index(&self, position_ms: u64) -> (r: Option<usize>)
        ensures
            active_index_result(spans_view(self.words@), position_ms, r),
            sorted_by_start(spans_view(self.words@)) ==> r == active_index_spec(
                spans_view(self.words@),
                position_ms,
            ),
    {
        if self.words.len() == 0 {
            return None;
        }
        let index = partition_point(&self.words, position_ms);
        if index == 0 {
            None
        } else {
            Some(index - 1)
        }
    }

    /// Milliseconds from `position_ms` until the next span starts, or `None`
    /// when no span starts after it.
    pub fn next_word_delay_ms(&self, position_ms: u64) -> (r: Option<u64>)
        ensures
            next_delay_result(spans_view(self.words@), position_ms, r),
            sorted_by_start(spans_view(self.words@)) ==> r == next_delay_spec(
                spans_view(self.words@),
                position_ms,
            ),
    {
        let index = partition_point(&self.words, position_ms);
        if index >= self.words.len() {
            None
        } else {
            Some(self.words[index].start_ms - position_ms)
        }
    }
}

/// For spans in start order: the last span that starts at or before `pos`.
pub open spec fn active_index_spec(s: Seq<SpanModel>, pos: u64) -> Option<usize> {
    let n = count_started(s, pos);
    if n == 0 {
        None
    } else {
        Some((n - 1) as usize)
    }
}

/// For spans in start order: the delay until the first span that starts after `pos`.
pub open spec fn next_delay_spec(s: Seq<SpanModel>, pos: u64) -> Option<u64> {
    let n = count_started(s, pos);
    if n >= s.len() {
        None
    } else {
        Some((s[n as int].start_ms - pos) as u64)
    }
}

/// For spans in any order, the active index sits at a boundary: the span it
/// names starts at or before `pos`, and the next one (if any) after it;
/// `None` means no span or a first span after `pos`.
pub open spec fn active_index_result(s: Seq<SpanModel>, pos: u64, r: Option<usize>) -> bool {
    match r {
        Some(i) => is_boundary(s, i + 1, pos),
        None => s.len() == 0 || is_boundary(s, 0, pos),
    }
}

/// For spans in any order, the delay comes from a boundary.
pub open spec fn next_delay_result(s: Seq<SpanModel>, pos: u64, r: Option<u64>) -> bool {
    match r {
        Some(d) => exists|p: int|
            is_boundary(s, p, pos) && p < s.len() && d == s[p].start_ms - pos && #[trigger] s[p].start_ms > pos,
        None => s.len() == 0 || is_boundary(s, s.len() as int, pos),
    }
}

/// The active span is the latest one started: in spans ordered by start
/// time, the index that `active_index_spec` picks names a span that starts at
/// or before the position, every later span starts after it, and `None` means
/// that every span starts after it.
pub proof fn law_active_is_latest_started(s: Seq<SpanModel>, pos: u64)
    requires
        sorted_by_start(s),
        s.len() <= usize::MAX,
    ensures
        match active_index_spec(s, pos) {
            Some(i) => {
                &&& i < s.len()
                &&& s[i as int].start_ms <= pos
                &&& forall|j: int| i < j < s.len() ==> #[trigger] s[j].start_ms > pos
            },
            None => forall|j: int| 0 <= j < s.len() ==> #[trigger] s[j].start_ms > pos,
        },
{
    lemma_count_splits(s, pos);
}

/// Strict word sync only refuses: where the strict parse succeeds, the
/// lenient one gives the same spans, and where the two differ the strict one
/// refuses the text as not word-synced. A strict success in the domain means
/// that the text had word timestamps.
pub proof fn law_strict_only_refuses(s: Seq<char>)
    ensures
        parse_lrc_result(s, true) is Ok ==> parse_lrc_result(s, false) == parse_lrc_result(s, true),
        parse_lrc_result(s, true) != parse_lrc_result(s, false) ==> parse_lrc_result(s, true)
            == Err::<Seq<SpanModel>, LyricsError>(LyricsError::NotWordSynced),
        !lrc_undefined(s) && parse_lrc_result(s, true) is Ok ==> (lrc_flow(s) matches Step::Next(st)
            && st.saw_word_times),
{
}

proof fn lemma_no_bracket_lines(s: Seq<char>, i: int, st: LrcState)
    requires
        0 <= i <= s.len(),
        forall|k: int| 0 <= k < s.len() ==> #[trigger] s[k] != '[',
    ensures
        lines_flow(s, i, st) == Step::Next(st),
    decreases s.len() - i,
{
    let e = find_char(s, i, '\n');
    lemma_find_char_bounds(s, i, '\n');
    let line = s.subrange(i, e);
    let a = skip_space(line, 0);
    lemma_skip_space_bounds(line, 0);
    if a < line.len() {
        lemma_back_space_bounds(line, line.len() as int, a);
        assert(trim(line)[0] == line[a]);
        assert(line[a] == s[i + a]);
    }
    assert(line_flow(line, st) == Step::Next(st));
    if e < s.len() {
        lemma_no_bracket_lines(s, e + 1, st);
    }
}

/// Plain text is refused rather than timed: a text without any `[` holds no
/// timestamp line, so it parses to the refusal `NoTimestamps`.
pub proof fn law_plain_text_is_refused(s: Seq<char>, strict_word_sync: bool)
    requires
        forall|k: int| 0 <= k < s.len() ==> #[trigger] s[k] != '[',
    ensures
        !lrc_undefined(s),
        strict_word_sync ==> parse_lrc_result(s, strict_word_sync) == Err::<
            Seq<SpanModel>,
            LyricsError,
        >(LyricsError::NotWordSynced),
        !strict_word_sync ==> parse_lrc_result(s, strict_word_sync) == Err::<
            Seq<SpanModel>,
            LyricsError,
        >(LyricsError::NoTimestamps),
{
    lemma_no_bracket_lines(
        s,
        0,
        LrcState { offset: 0, saw_word_times: false, spans: Seq::empty() },
    );
}

/// Every span has some text.
pub open spec fn texts_nonempty(s: Seq<SpanModel>) -> bool {
    forall|i: int| 0 <= i < s.len() ==> (#[trigger] s[i]).text.len() > 0
}

pub proof fn lemma_count_at_most_len(s: Seq<SpanModel>, key: u64)
    ensures
        count_started(s, key) <= s.len(),
    decreases s.len(),
{
    if s.len() > 0 {
        lemma_count_at_most_len(s.drop_last(), key);
    }
}

/// Inserting by start time loses no span and adds exactly the new one.
pub proof fn law_insert_keeps_every_span(s: Seq<SpanModel>, x: SpanModel)
    ensures
        insert_by_start(s, x).to_multiset() == s.to_multiset().insert(x),
{
    lemma_count_at_most_len(s, x.start_ms);
    vstd::seq_lib::to_multiset_insert(s, count_started(s, x.start_ms) as int, x);
}

proof fn lemma_insert_keeps_texts(s: Seq<SpanModel>, x: SpanModel)
    requires
        texts_nonempty(s),
        x.text.len() > 0,
    ensures
        texts_nonempty(insert_by_start(s, x)),
{
    lemma_count_at_most_len(s, x.start_ms);
    let p = count_started(s, x.start_ms) as int;
    let r = insert_by_start(s, x);
    assert forall|i: int| 0 <= i < r.len() implies (#[trigger] r[i]).text.len() > 0 by {
        if i < p {
            assert(r[i] == s[i]);
        } else if i > p {
            assert(r[i] == s[i - 1]);
        }
    }
}

proof fn lemma_token_flow_sorted(c: Seq<char>, i: int, current: u64, st: LrcState)
    requires
        sorted_by_start(st.spans),
        texts_nonempty(st.spans),
    ensures
        token_flow(c, i, current, st) matches Step::Next(r) ==> sorted_by_start(r.spans)
            && texts_nonempty(r.spans),
    decreases c.len() - i,
{
    let j = skip_space(c, i);
    if !(i < 0 || i > c.len() || j >= c.len()) {
        let k = word_end(c, j);
        let tok = c.subrange(j, k);
        lemma_skip_space_bounds(c, i);
        lemma_word_end_bounds(c, j + 1);
        match tag_scan(tok, 0, Seq::empty(), true) {
            None => {},
            Some((times, r)) => {
                let now = if times.len() > 0 {
                    times.last()
                } else {
                    current
                };
                let text = tok.subrange(r, tok.len() as int);
                if text.len() == 0 {
                    lemma_token_flow_sorted(c, k, now, st);
                } else {
                    match shift(now, st.offset) {
                        Step::Next(ms) => {
                            lemma_insert_keeps_order(
                                st.spans,
                                SpanModel { start_ms: ms, text },
                            );
                            lemma_insert_keeps_texts(st.spans, SpanModel { start_ms: ms, text });
                            lemma_token_flow_sorted(c, k, now, with_span(st, ms, text));
                        },
                        _ => {},
                    }
                }
            },
        }
    }
}

proof fn lemma_line_spans_sorted(times: Seq<u64>, idx: int, text: Seq<char>, st: LrcState)
    requires
        sorted_by_start(st.spans),
        texts_nonempty(st.spans),
        text.len() > 0,
    ensures
        line_spans_flow(times, idx, text, st) matches Step::Next(r) ==> sorted_by_start(r.spans)
            && texts_nonempty(r.spans),
    decreases times.len() - idx,
{
    if 0 <= idx < times.len() {
        match shift(times[idx], st.offset) {
            Step::Next(ms) => {
                lemma_insert_keeps_order(st.spans, SpanModel { start_ms: ms, text });
                lemma_insert_keeps_texts(st.spans, SpanModel { start_ms: ms, text });
                lemma_line_spans_sorted(times, idx + 1, text, with_span(st, ms, text));
            },
            _ => {},
        }
    }
}

proof fn lemma_lines_sorted(s: Seq<char>, i: int, st: LrcState)
    requires
        sorted_by_start(st.spans),
        texts_nonempty(st.spans),
    ensures
        lines_flow(s, i, st) matches Step::Next(r) ==> sorted_by_start(r.spans) && texts_nonempty(
            r.spans,
        ),
    decreases s.len() - i,
{
    if 0 <= i <= s.len() {
        let e = find_char(s, i, '\n');
        lemma_find_char_bounds(s, i, '\n');
        let line = s.subrange(i, e);
        let t = trim(line);
        if t.len() > 0 && metadata_of(t) is None {
            match tag_scan(t, 0, Seq::empty(), false) {
                Some((times, r)) => {
                    let content = trim(t.subrange(r, t.len() as int));
                    lemma_token_flow_sorted(
                        content,
                        0,
                        if times.len() > 0 { times[0] } else { 0 },
                        LrcState { offset: st.offset, saw_word_times: true, spans: st.spans },
                    );
                    if content.len() > 0 {
                        lemma_line_spans_sorted(times, 0, content, st);
                    }
                },
                None => {},
            }
        }
        match line_flow(line, st) {
            Step::Next(st2) => if e < s.len() {
                lemma_lines_sorted(s, e + 1, st2);
            },
            _ => {},
        }
    }
}

/// Whatever the text in the domain, the spans that parsing gives are in start
/// order, there is at least one, and none is without text.
pub proof fn law_parse_result_in_start_order(s: Seq<char>, strict_word_sync: bool)
    requires
        !lrc_undefined(s),
    ensures
        parse_lrc_result(s, strict_word_sync) matches Ok(v) ==> sorted_by_start(v) && v.len() > 0
            && texts_nonempty(v),
{
    lemma_lines_sorted(s, 0, LrcState { offset: 0, saw_word_times: false, spans: Seq::empty() });
}

} // verus!
