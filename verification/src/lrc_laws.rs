//! Laws of the LRC parser that span whole texts: what strict word sync
//! refuses, and how an `[offset:..]` line moves every span after it.
use vstd::prelude::*;
use crate::lyrics::{
    count_started, has_angle, insert_by_start, is_ascii_alpha, is_offset_key, lemma_find_char_first,
    line_flow, line_spans_flow, lines_flow, lrc_flow, lrc_undefined, metadata_of, parse_lrc_result,
    shift, tag_scan, token_flow, with_span, LrcState, LyricsError, SpanModel, Step,
};
use crate::text::{
    back_space, is_digit, lemma_back_space_bounds, lemma_find_char_bounds, lemma_skip_space_bounds,
    lemma_word_end_bounds, find_char, parse_i64, scan_i64, skip_space, trim, word_end,
};

verus! {

/// No `<` and no `>` anywhere: nothing that could carry word timestamps.
pub open spec fn no_angle(s: Seq<char>) -> bool {
    forall|k: int| 0 <= k < s.len() ==> #[trigger] s[k] != '<' && s[k] != '>'
}

proof fn lemma_trim_is_inside(x: Seq<char>)
    ensures
        trim(x).len() == 0 || ({
            let a = skip_space(x, 0);
            let b = back_space(x, x.len() as int);
            &&& 0 <= a < b <= x.len()
            &&& trim(x) == x.subrange(a, b)
        }),
{
    lemma_skip_space_bounds(x, 0);
    let a = skip_space(x, 0);
    if a < x.len() {
        lemma_back_space_bounds(x, x.len() as int, a);
    }
}

proof fn lemma_no_angle_inside(x: Seq<char>, a: int, b: int)
    requires
        no_angle(x),
        0 <= a <= b <= x.len(),
    ensures
        no_angle(x.subrange(a, b)),
{
    assert forall|k: int| 0 <= k < b - a implies #[trigger] x.subrange(a, b)[k] != '<'
        && x.subrange(a, b)[k] != '>' by {
        assert(x.subrange(a, b)[k] == x[a + k]);
    }
}

proof fn lemma_no_angle_trim(x: Seq<char>)
    requires
        no_angle(x),
    ensures
        no_angle(trim(x)),
{
    lemma_trim_is_inside(x);
    if trim(x).len() > 0 {
        lemma_no_angle_inside(x, skip_space(x, 0), back_space(x, x.len() as int));
    }
}

/// Where a run of tags ends lies between its start and the end of the text.
pub proof fn lemma_tag_scan_bounds(t: Seq<char>, i: int, times: Seq<u64>, angle: bool)
    requires
        0 <= i <= t.len(),
    ensures
        tag_scan(t, i, times, angle) matches Some((_, r)) ==> i <= r <= t.len(),
    decreases t.len() - i,
{
    if 0 <= i < t.len() && (t[i] == '[' || (angle && t[i] == '<')) {
        let closing = if t[i] == '<' {
            '>'
        } else {
            ']'
        };
        let close = find_char(t, i + 1, closing);
        lemma_find_char_bounds(t, i + 1, closing);
        if close < t.len() {
            match crate::lyrics::timestamp_of(t.subrange(i + 1, close)) {
                crate::lyrics::TagTime::Time(v) => {
                    lemma_tag_scan_bounds(t, close + 1, times.push(v), angle);
                },
                _ => {},
            }
        }
    }
}

proof fn lemma_line_spans_keep_flag(times: Seq<u64>, idx: int, text: Seq<char>, st: LrcState)
    ensures
        line_spans_flow(times, idx, text, st) matches Step::Next(r) ==> r.saw_word_times
            == st.saw_word_times,
    decreases times.len() - idx,
{
    if 0 <= idx < times.len() {
        match crate::lyrics::shift(times[idx], st.offset) {
            Step::Next(ms) => {
                lemma_line_spans_keep_flag(
                    times,
                    idx + 1,
                    text,
                    crate::lyrics::with_span(st, ms, text),
                );
            },
            _ => {},
        }
    }
}

proof fn lemma_line_keeps_no_word_flag(line: Seq<char>, st: LrcState)
    requires
        no_angle(line),
        !st.saw_word_times,
    ensures
        line_flow(line, st) matches Step::Next(r) ==> !r.saw_word_times,
{
    let t = trim(line);
    lemma_no_angle_trim(line);
    if t.len() > 0 && crate::lyrics::metadata_of(t) is None {
        lemma_tag_scan_bounds(t, 0, Seq::empty(), false);
        match tag_scan(t, 0, Seq::empty(), false) {
            Some((times, r)) => {
                lemma_no_angle_inside(t, r, t.len() as int);
                let content = trim(t.subrange(r, t.len() as int));
                lemma_no_angle_trim(t.subrange(r, t.len() as int));
                assert(!has_angle(content));
                lemma_line_spans_keep_flag(times, 0, content, st);
            },
            None => {},
        }
    }
}

proof fn lemma_lines_keep_no_word_flag(s: Seq<char>, i: int, st: LrcState)
    requires
        no_angle(s),
        !st.saw_word_times,
    ensures
        lines_flow(s, i, st) matches Step::Next(r) ==> !r.saw_word_times,
    decreases s.len() - i,
{
    if 0 <= i <= s.len() {
        let e = find_char(s, i, '\n');
        lemma_find_char_bounds(s, i, '\n');
        let line = s.subrange(i, e);
        lemma_no_angle_inside(s, i, e);
        lemma_line_keeps_no_word_flag(line, st);
        match line_flow(line, st) {
            Step::Next(st2) => if e < s.len() {
                lemma_lines_keep_no_word_flag(s, e + 1, st2);
            },
            _ => {},
        }
    }
}

/// Strict word sync refuses lyrics without word timestamps: a text in the
/// domain with no `<` or `>` anywhere, so no line with word timestamps, is
/// refused in strict mode whatever its timed lines, and refused as not
/// word-synced wherever lenient parsing accepts it.
pub proof fn law_strict_refuses_line_synced_text(s: Seq<char>)
    requires
        no_angle(s),
        !lrc_undefined(s),
    ensures
        parse_lrc_result(s, true) is Err,
        parse_lrc_result(s, false) is Ok ==> parse_lrc_result(s, true) == Err::<
            Seq<SpanModel>,
            LyricsError,
        >(LyricsError::NotWordSynced),
{
    lemma_lines_keep_no_word_flag(
        s,
        0,
        LrcState { offset: 0, saw_word_times: false, spans: Seq::empty() },
    );
}

/// A line that carries word timestamps: not metadata, led by at least one
/// timestamp tag, with text after the tags that holds a `<` or `>`.
pub open spec fn word_timed_line(line: Seq<char>) -> bool {
    let t = trim(line);
    &&& t.len() > 0
    &&& metadata_of(t) is None
    &&& tag_scan(t, 0, Seq::empty(), false) matches Some((times, r)) && times.len() > 0
        && has_angle(trim(t.subrange(r, t.len() as int)))
}

/// Some line of `s`, from index `from` on, carries word timestamps.
pub open spec fn word_timed_line_from(s: Seq<char>, from: int) -> bool {
    exists|j: int|
        from <= j <= s.len() && (j == 0 || s[j - 1] == '\n') && word_timed_line(
            #[trigger] line_at(s, j),
        )
}

proof fn lemma_tokens_keep_flag(c: Seq<char>, i: int, now: u64, st: LrcState)
    ensures
        token_flow(c, i, now, st) matches Step::Next(r) ==> r.saw_word_times == st.saw_word_times,
    decreases c.len() - i,
{
    let j = skip_space(c, i);
    if !(i < 0 || i > c.len() || j >= c.len()) {
        let k = word_end(c, j);
        let tok = c.subrange(j, k);
        lemma_skip_space_bounds(c, i);
        lemma_word_end_bounds(c, j + 1);
        match tag_scan(tok, 0, Seq::empty(), true) {
            None => {},
            Some((times, r)) => {
                let now2 = if times.len() > 0 {
                    times.last()
                } else {
                    now
                };
                let text = tok.subrange(r, tok.len() as int);
                if text.len() == 0 {
                    lemma_tokens_keep_flag(c, k, now2, st);
                } else {
                    match shift(now2, st.offset) {
                        Step::Next(ms) => {
                            lemma_tokens_keep_flag(c, k, now2, with_span(st, ms, text));
                        },
                        _ => {},
                    }
                }
            },
        }
    }
}

proof fn lemma_line_sets_flag(line: Seq<char>, st: LrcState)
    ensures
        line_flow(line, st) matches Step::Next(r) ==> (r.saw_word_times <==> st.saw_word_times
            || word_timed_line(line)),
{
    let t = trim(line);
    if t.len() > 0 && metadata_of(t) is None {
        match tag_scan(t, 0, Seq::empty(), false) {
            Some((times, r)) => {
                let content = trim(t.subrange(r, t.len() as int));
                lemma_tokens_keep_flag(
                    content,
                    0,
                    if times.len() > 0 { times[0] } else { 0 },
                    LrcState { offset: st.offset, saw_word_times: true, spans: st.spans },
                );
                lemma_line_spans_keep_flag(times, 0, content, st);
            },
            None => {},
        }
    }
}

proof fn lemma_lines_set_flag(s: Seq<char>, i: int, st: LrcState)
    requires
        0 <= i <= s.len(),
        i == 0 || s[i - 1] == '\n',
    ensures
        lines_flow(s, i, st) matches Step::Next(r) ==> (r.saw_word_times <==> st.saw_word_times
            || word_timed_line_from(s, i)),
    decreases s.len() - i,
{
    let e = find_char(s, i, '\n');
    lemma_find_char_bounds(s, i, '\n');
    let line = s.subrange(i, e);
    assert(line == line_at(s, i));
    lemma_line_sets_flag(line, st);
    // The line starts at or after `i` are `i` and those at or after `e + 1`.
    assert forall|j: int| #![trigger line_at(s, j)] i < j <= s.len() && (j == 0 || s[j - 1] == '\n') implies j >= e + 1 by {
        if j <= e {
            assert(s[j - 1] != '\n');
        }
    }
    match line_flow(line, st) {
        Step::Next(st2) => {
            if e < s.len() {
                lemma_lines_set_flag(s, e + 1, st2);
                if word_timed_line_from(s, e + 1) {
                    let j = choose|j: int|
                        e + 1 <= j <= s.len() && (j == 0 || s[j - 1] == '\n') && word_timed_line(
                            #[trigger] line_at(s, j),
                        );
                    assert(word_timed_line(line_at(s, j)));
                }
                if word_timed_line_from(s, i) && !word_timed_line(line) {
                    let j = choose|j: int|
                        i <= j <= s.len() && (j == 0 || s[j - 1] == '\n') && word_timed_line(
                            #[trigger] line_at(s, j),
                        );
                    assert(j != i);
                    assert(word_timed_line_from(s, e + 1));
                }
            } else {
                if word_timed_line_from(s, i) {
                    let j = choose|j: int|
                        i <= j <= s.len() && (j == 0 || s[j - 1] == '\n') && word_timed_line(
                            #[trigger] line_at(s, j),
                        );
                    assert(j == i);
                }
            }
        },
        _ => {},
    }
}

/// Strict word sync accepts exactly the lyrics with word timestamps: in the
/// domain, the strict parse succeeds if and only if the lenient one does and
/// some line carries word timestamps; a lenient success without such a line
/// is refused in strict mode as not word-synced.
pub proof fn law_strict_needs_a_word_timed_line(s: Seq<char>)
    requires
        !lrc_undefined(s),
    ensures
        parse_lrc_result(s, true) is Ok <==> (parse_lrc_result(s, false) is Ok
            && word_timed_line_from(s, 0)),
        parse_lrc_result(s, false) is Ok && !word_timed_line_from(s, 0) ==> parse_lrc_result(s, true)
            == Err::<Seq<SpanModel>, LyricsError>(LyricsError::NotWordSynced),
{
    lemma_lines_set_flag(s, 0, LrcState { offset: 0, saw_word_times: false, spans: Seq::empty() });
}

/// `b` is `a` with every start moved by `o` milliseconds, in the same order
/// and with the same texts.
pub open spec fn shifted_by(a: Seq<SpanModel>, b: Seq<SpanModel>, o: int) -> bool {
    &&& a.len() == b.len()
    &&& forall|k: int|
        0 <= k < a.len() ==> #[trigger] b[k].start_ms == a[k].start_ms + o && b[k].text == a[k].text
}

/// A line that sets the offset: `[offset:..]`, the key in any case.
pub open spec fn is_offset_line(line: Seq<char>) -> bool {
    metadata_of(trim(line)) matches Some((key, _)) && is_offset_key(key)
}

/// The line of `s` that begins at index `i`.
pub open spec fn line_at(s: Seq<char>, i: int) -> Seq<char> {
    s.subrange(i, find_char(s, i, '\n'))
}

/// No line of `s` sets the offset.
pub open spec fn no_offset_line(s: Seq<char>) -> bool {
    forall|i: int|
        0 <= i <= s.len() && (i == 0 || s[i - 1] == '\n') ==> !is_offset_line(
            #[trigger] line_at(s, i),
        )
}

/// The text `t` behind the line `[offset:v]`.
pub open spec fn with_offset_line(v: Seq<char>, t: Seq<char>) -> Seq<char> {
    seq!['[', 'o', 'f', 'f', 's', 'e', 't', ':'] + v + seq![']', '\n'] + t
}

/// Two parse states of the same lines, one without offset and one with
/// offset `o`, whose spans differ by `o`.
spec fn shifted_state(a: LrcState, b: LrcState, o: i64) -> bool {
    &&& a.offset == 0
    &&& b.offset == o
    &&& a.saw_word_times == b.saw_word_times
    &&& shifted_by(a.spans, b.spans, o as int)
}

/// Where the run without offset goes on, the run with offset goes on with
/// spans moved by `o`, leaves the domain, or (for a negative `o`) refuses a
/// span moved before zero.
spec fn follows_shifted(ra: Step<LrcState>, rb: Step<LrcState>, o: i64) -> bool {
    ra matches Step::Next(a) ==> {
        ||| rb matches Step::Next(b) && shifted_state(a, b, o)
        ||| rb is Undefined
        ||| o < 0 && rb == Step::<LrcState>::Reject(LyricsError::OffsetBeforeZero)
    }
}

proof fn lemma_count_shifted(a: Seq<SpanModel>, b: Seq<SpanModel>, o: int, x: u64, y: u64)
    requires
        shifted_by(a, b, o),
        y == x + o,
    ensures
        count_started(b, y) == count_started(a, x),
    decreases a.len(),
{
    if a.len() > 0 {
        let a2 = a.drop_last();
        let b2 = b.drop_last();
        assert forall|k: int| 0 <= k < a2.len() implies #[trigger] b2[k].start_ms == a2[k].start_ms
            + o && b2[k].text == a2[k].text by {
            assert(b2[k] == b[k] && a2[k] == a[k]);
        }
        lemma_count_shifted(a2, b2, o, x, y);
        assert(b[b.len() - 1].start_ms == a[a.len() - 1].start_ms + o);
    }
}

proof fn lemma_insert_shifted(a: Seq<SpanModel>, b: Seq<SpanModel>, o: int, x: u64, y: u64, text: Seq<char>)
    requires
        shifted_by(a, b, o),
        y == x + o,
    ensures
        shifted_by(
            insert_by_start(a, SpanModel { start_ms: x, text }),
            insert_by_start(b, SpanModel { start_ms: y, text }),
            o,
        ),
{
    lemma_count_shifted(a, b, o, x, y);
    crate::lyrics::lemma_count_at_most_len(a, x);
    let p = count_started(a, x) as int;
    let ia = insert_by_start(a, SpanModel { start_ms: x, text });
    let ib = insert_by_start(b, SpanModel { start_ms: y, text });
    assert forall|k: int| 0 <= k < ia.len() implies #[trigger] ib[k].start_ms == ia[k].start_ms + o
        && ib[k].text == ia[k].text by {
        if k < p {
            assert(ia[k] == a[k] && ib[k] == b[k]);
        } else if k > p {
            assert(ia[k] == a[k - 1] && ib[k] == b[k - 1]);
        }
    }
}

proof fn lemma_line_spans_shifted(times: Seq<u64>, idx: int, text: Seq<char>, a: LrcState, b: LrcState, o: i64)
    requires
        shifted_state(a, b, o),
    ensures
        follows_shifted(line_spans_flow(times, idx, text, a), line_spans_flow(times, idx, text, b), o),
    decreases times.len() - idx,
{
    if 0 <= idx < times.len() {
        let t = times[idx];
        match shift(t, a.offset) {
            Step::Next(ms) => {
                match shift(t, b.offset) {
                    Step::Next(ms2) => {
                        lemma_insert_shifted(a.spans, b.spans, o as int, ms, ms2, text);
                        lemma_line_spans_shifted(
                            times,
                            idx + 1,
                            text,
                            with_span(a, ms, text),
                            with_span(b, ms2, text),
                            o,
                        );
                    },
                    _ => {},
                }
            },
            _ => {},
        }
    }
}

proof fn lemma_tokens_shifted(c: Seq<char>, i: int, now: u64, a: LrcState, b: LrcState, o: i64)
    requires
        shifted_state(a, b, o),
    ensures
        follows_shifted(token_flow(c, i, now, a), token_flow(c, i, now, b), o),
    decreases c.len() - i,
{
    let j = skip_space(c, i);
    if !(i < 0 || i > c.len() || j >= c.len()) {
        let k = word_end(c, j);
        let tok = c.subrange(j, k);
        lemma_skip_space_bounds(c, i);
        lemma_word_end_bounds(c, j + 1);
        match tag_scan(tok, 0, Seq::empty(), true) {
            None => {},
            Some((times, r)) => {
                let now2 = if times.len() > 0 {
                    times.last()
                } else {
                    now
                };
                let text = tok.subrange(r, tok.len() as int);
                if text.len() == 0 {
                    lemma_tokens_shifted(c, k, now2, a, b, o);
                } else {
                    match shift(now2, a.offset) {
                        Step::Next(ms) => {
                            match shift(now2, b.offset) {
                                Step::Next(ms2) => {
                                    lemma_insert_shifted(a.spans, b.spans, o as int, ms, ms2, text);
                                    lemma_tokens_shifted(
                                        c,
                                        k,
                                        now2,
                                        with_span(a, ms, text),
                                        with_span(b, ms2, text),
                                        o,
                                    );
                                },
                                _ => {},
                            }
                        },
                        _ => {},
                    }
                }
            },
        }
    }
}

proof fn lemma_line_shifted(line: Seq<char>, a: LrcState, b: LrcState, o: i64)
    requires
        shifted_state(a, b, o),
        !is_offset_line(line),
    ensures
        follows_shifted(line_flow(line, a), line_flow(line, b), o),
{
    let t = trim(line);
    if t.len() > 0 && metadata_of(t) is None {
        match tag_scan(t, 0, Seq::empty(), false) {
            Some((times, r)) => {
                let content = trim(t.subrange(r, t.len() as int));
                if times.len() > 0 && content.len() > 0 {
                    if has_angle(content) {
                        lemma_tokens_shifted(
                            content,
                            0,
                            times[0],
                            LrcState { offset: a.offset, saw_word_times: true, spans: a.spans },
                            LrcState { offset: b.offset, saw_word_times: true, spans: b.spans },
                            o,
                        );
                    } else {
                        lemma_line_spans_shifted(times, 0, content, a, b, o);
                    }
                }
            },
            None => {},
        }
    }
}

proof fn lemma_lines_shifted(s: Seq<char>, i: int, a: LrcState, b: LrcState, o: i64)
    requires
        shifted_state(a, b, o),
        no_offset_line(s),
        0 <= i <= s.len(),
        i == 0 || s[i - 1] == '\n',
    ensures
        follows_shifted(lines_flow(s, i, a), lines_flow(s, i, b), o),
    decreases s.len() - i,
{
    let e = find_char(s, i, '\n');
    lemma_find_char_bounds(s, i, '\n');
    let line = s.subrange(i, e);
    assert(line == line_at(s, i));
    lemma_line_shifted(line, a, b, o);
    match line_flow(line, a) {
        Step::Next(a2) => {
            match line_flow(line, b) {
                Step::Next(b2) => {
                    if e < s.len() {
                        lemma_lines_shifted(s, e + 1, a2, b2, o);
                    }
                },
                _ => {},
            }
        },
        _ => {},
    }
}

proof fn lemma_find_char_after(p: Seq<char>, t: Seq<char>, i: int, c: char)
    requires
        0 <= i <= t.len(),
    ensures
        find_char(p + t, p.len() + i, c) == p.len() + find_char(t, i, c),
    decreases t.len() - i,
{
    let u = p + t;
    if i < t.len() {
        assert(u[p.len() + i] == t[i]);
        if t[i] != c {
            lemma_find_char_after(p, t, i + 1, c);
        }
    }
}

proof fn lemma_lines_after(p: Seq<char>, t: Seq<char>, i: int, st: LrcState)
    requires
        0 <= i <= t.len(),
    ensures
        lines_flow(p + t, p.len() + i, st) == lines_flow(t, i, st),
    decreases t.len() - i,
{
    let u = p + t;
    let e = find_char(t, i, '\n');
    lemma_find_char_bounds(t, i, '\n');
    lemma_find_char_after(p, t, i, '\n');
    assert(u.subrange(p.len() + i, p.len() + e) =~= t.subrange(i, e));
    match line_flow(t.subrange(i, e), st) {
        Step::Next(st2) => if e < t.len() {
            lemma_lines_after(p, t, e + 1, st2);
        },
        _ => {},
    }
}

proof fn lemma_scan_digits(d: Seq<char>, k: int, acc: int, neg: bool)
    requires
        0 <= k,
        scan_i64(d, k, acc, neg) is Ok,
    ensures
        forall|j: int| k <= j < d.len() ==> is_digit(#[trigger] d[j]),
    decreases d.len() - k,
{
    if k < d.len() {
        lemma_scan_digits(d, k + 1, acc * 10 + crate::text::digit_value(d[k]), neg);
    }
}

/// An offset value holds no line break: it is a sign and digits.
proof fn lemma_offset_value_one_line(v: Seq<char>)
    requires
        parse_i64(v) is Ok,
    ensures
        forall|k: int| 0 <= k < v.len() ==> #[trigger] v[k] != '\n' && v[k] != ']',
{
    if v[0] == '-' || v[0] == '+' {
        lemma_scan_digits(v.drop_first(), 0, 0, v[0] == '-');
        assert forall|k: int| 0 <= k < v.len() implies #[trigger] v[k] != '\n' && v[k] != ']' by {
            if k > 0 {
                assert(v[k] == v.drop_first()[k - 1]);
                assert(is_digit(v.drop_first()[k - 1]));
            }
        }
    } else {
        lemma_scan_digits(v, 0, 0, false);
        assert forall|k: int| 0 <= k < v.len() implies #[trigger] v[k] != '\n' && v[k] != ']' by {
            assert(is_digit(v[k]));
        }
    }
}

/// The first line of `with_offset_line(v, t)` sets the offset to the value of `v`.
proof fn lemma_offset_line_sets(v: Seq<char>, o: i64, st: LrcState)
    requires
        parse_i64(v) == Ok::<i64, crate::text::IntFault>(o),
    ensures
        line_flow(seq!['[', 'o', 'f', 'f', 's', 'e', 't', ':'] + v + seq![']'], st) == Step::Next(
            LrcState { offset: o, saw_word_times: st.saw_word_times, spans: st.spans },
        ),
{
    let pre = seq!['[', 'o', 'f', 'f', 's', 'e', 't', ':'] + v + seq![']'];
    let n = pre.len() as int;
    assert(pre[0] == '[');
    assert(pre[n - 1] == ']');
    assert(!crate::text::is_space(pre[0]));
    assert(!crate::text::is_space(pre[n - 1]));
    assert(skip_space(pre, 0) == 0);
    assert(back_space(pre, n) == n);
    assert(pre.subrange(0, n) =~= pre);
    assert(trim(pre) == pre);
    let inner = pre.subrange(1, n - 1);
    assert(inner =~= seq!['o', 'f', 'f', 's', 'e', 't', ':'] + v);
    assert forall|k: int| 0 <= k < 6 implies #[trigger] inner[k] != ':' by {}
    lemma_find_char_first(inner, 0, 6, ':');
    assert forall|k: int| 0 <= k < 6 implies is_ascii_alpha(#[trigger] inner[k]) by {}
    assert(inner.take(6) =~= seq!['o', 'f', 'f', 's', 'e', 't']);
    assert(inner.skip(7) =~= v);
    assert(is_offset_key(inner.take(6)));
    assert(metadata_of(pre) == Some((inner.take(6), inner.skip(7))));
}

/// An `[offset:o]` line moves every span of the text behind it by `o`
/// milliseconds, word-timed spans as much as line-timed ones: for a text
/// with no offset line of its own that parses to `orig`, the text behind the
/// line `[offset:v]` (with `v` the decimal `o`) parses to the spans of `orig`,
/// each moved by `o`, in the same order and with the same texts. It is
/// refused only where a negative `o` moves a span before zero.
pub proof fn law_offset_moves_every_span(
    v: Seq<char>,
    o: i64,
    t: Seq<char>,
    strict_word_sync: bool,
    orig: Seq<SpanModel>,
)
    requires
        parse_i64(v) == Ok::<i64, crate::text::IntFault>(o),
        no_offset_line(t),
        !lrc_undefined(t),
        !lrc_undefined(with_offset_line(v, t)),
        parse_lrc_result(t, strict_word_sync) == Ok::<Seq<SpanModel>, LyricsError>(orig),
    ensures
        match parse_lrc_result(with_offset_line(v, t), strict_word_sync) {
            Ok(moved) => shifted_by(orig, moved, o as int),
            Err(e) => o < 0 && e == LyricsError::OffsetBeforeZero,
        },
{
    let u = with_offset_line(v, t);
    let pre = seq!['[', 'o', 'f', 'f', 's', 'e', 't', ':'] + v + seq![']'];
    let head = pre + seq!['\n'];
    assert(u =~= head + t);
    lemma_offset_value_one_line(v);
    assert forall|k: int| 0 <= k < pre.len() implies #[trigger] u[k] != '\n' by {
        if 8 <= k < 8 + v.len() {
            assert(u[k] == v[k - 8]);
        }
    }
    lemma_find_char_first(u, 0, pre.len() as int, '\n');
    assert(u.subrange(0, pre.len() as int) =~= pre);
    let init = LrcState { offset: 0, saw_word_times: false, spans: Seq::empty() };
    let st1 = LrcState { offset: o, saw_word_times: false, spans: Seq::empty() };
    lemma_offset_line_sets(v, o, init);
    assert(lrc_flow(u) == lines_flow(u, head.len() as int, st1));
    lemma_lines_after(head, t, 0, st1);
    assert(lines_flow(u, head.len() as int, st1) == lines_flow(t, 0, st1));
    lemma_lines_shifted(t, 0, init, st1, o);
}

} // verus!
