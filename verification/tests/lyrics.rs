use vellum_lyrics::lyrics::{
    lrc_outside_domain, lyrics_from_file_text, parse_lrc_words, LyricsError, TrackLyrics, WordSpan,
};
use vellum_lyrics::text::IntFault;

fn span(start_ms: u64, text: &str) -> WordSpan {
    WordSpan { start_ms, text: text.to_owned() }
}

#[test]
fn parses_enhanced_lrc_into_word_spans() {
    let raw = r#"
[ti:Glow]
[ar:Vellum]
[00:12.00]I <00:12.20>see <00:12.45>the <00:12.70>light
"#;

    let words = parse_lrc_words(raw, true).expect("enhanced LRC should parse");
    assert_eq!(
        words,
        vec![
            WordSpan { start_ms: 12_000, text: "I".to_owned() },
            WordSpan { start_ms: 12_200, text: "see".to_owned() },
            WordSpan { start_ms: 12_450, text: "the".to_owned() },
            WordSpan { start_ms: 12_700, text: "light".to_owned() },
        ]
    );
}

#[test]
fn parses_regular_synced_lrc_as_line_spans_when_not_strict() {
    let raw = r#"
[00:10.00]Hello world
[00:15.00]Another line
"#;

    let words = parse_lrc_words(raw, false).expect("line-synced LRC should parse");
    assert_eq!(
        words,
        vec![
            WordSpan { start_ms: 10_000, text: "Hello world".to_owned() },
            WordSpan { start_ms: 15_000, text: "Another line".to_owned() },
        ]
    );
}

#[test]
fn strict_mode_rejects_non_enhanced_input() {
    let raw = r#"
[00:10.00]Hello world
"#;

    let error = parse_lrc_words(raw, true).expect_err("strict mode should reject line sync");
    assert!(error.to_string().contains("strict word sync"));
}

#[test]
fn active_word_lookup_uses_binary_search() {
    let lyrics = TrackLyrics::new(
        "Title",
        "Artist",
        vec![
            WordSpan { start_ms: 100, text: "one".into() },
            WordSpan { start_ms: 200, text: "two".into() },
            WordSpan { start_ms: 300, text: "three".into() },
        ],
    );

    assert_eq!(lyrics.active_word_index(50), None);
    assert_eq!(lyrics.active_word_index(100), Some(0));
    assert_eq!(lyrics.active_word_index(250), Some(1));
    assert_eq!(lyrics.active_word_index(400), Some(2));
}

#[test]
fn offset_shifts_following_timestamps() {
    let raw = "[offset:500]\n[00:01.00]a\n[OFFSET:-100]\n[00:02.00]b";
    assert_eq!(parse_lrc_words(raw, false).unwrap(), vec![span(1500, "a"), span(1900, "b")]);
}

#[test]
fn offset_with_space_is_invalid() {
    let raw = "[offset: 5]\n[00:01.00]a";
    assert_eq!(parse_lrc_words(raw, false), Err(LyricsError::InvalidOffset(IntFault::InvalidDigit)));
    assert_eq!(LyricsError::InvalidOffset(IntFault::Empty).to_string(), "invalid LRC offset");
    assert_eq!(
        parse_lrc_words("[offset:]\n[00:01.00]a", false),
        Err(LyricsError::InvalidOffset(IntFault::Empty))
    );
    assert_eq!(
        parse_lrc_words("[offset:99999999999999999999]\n[00:01.00]a", false),
        Err(LyricsError::InvalidOffset(IntFault::PosOverflow))
    );
    assert_eq!(
        parse_lrc_words("[offset:-99999999999999999999x]\n[00:01.00]a", false),
        Err(LyricsError::InvalidOffset(IntFault::NegOverflow))
    );
}

#[test]
fn offset_before_zero_is_refused() {
    let raw = "[offset:-2000]\n[00:01.00]a";
    let err = parse_lrc_words(raw, false).unwrap_err();
    assert_eq!(err, LyricsError::OffsetBeforeZero);
    assert_eq!(err.to_string(), "LRC offset moved a timestamp before zero");
}

#[test]
fn plain_text_is_refused() {
    let err = parse_lrc_words("just some words\nand more", false).unwrap_err();
    assert_eq!(err, LyricsError::NoTimestamps);
    assert_eq!(err.to_string(), "no lyric timestamps were found in the supplied content");
    assert_eq!(parse_lrc_words("", false), Err(LyricsError::NoTimestamps));
    assert_eq!(parse_lrc_words("plain", true), Err(LyricsError::NotWordSynced));
}

#[test]
fn repeated_line_timestamps_give_sorted_spans() {
    let raw = "[00:05.00][00:01.00]chorus\n[00:03.00]verse";
    assert_eq!(
        parse_lrc_words(raw, false).unwrap(),
        vec![span(1000, "chorus"), span(3000, "verse"), span(5000, "chorus")]
    );
}

#[test]
fn equal_start_times_keep_their_order() {
    let raw = "[00:02.00]b\n[00:01.00]a\n[00:02.00]c";
    assert_eq!(
        parse_lrc_words(raw, false).unwrap(),
        vec![span(1000, "a"), span(2000, "b"), span(2000, "c")]
    );
}

#[test]
fn fraction_forms() {
    assert_eq!(parse_lrc_words("[01:02.5]x", false).unwrap(), vec![span(62_500, "x")]);
    assert_eq!(parse_lrc_words("[01:02.34]x", false).unwrap(), vec![span(62_340, "x")]);
    assert_eq!(parse_lrc_words("[01:02.345]x", false).unwrap(), vec![span(62_345, "x")]);
    assert_eq!(parse_lrc_words("[01:02.3456]x", false).unwrap(), vec![span(62_345, "x")]);
    assert_eq!(parse_lrc_words("[01:02:34]x", false).unwrap(), vec![span(62_340, "x")]);
    assert_eq!(parse_lrc_words("[01:02.]x", false).unwrap(), vec![span(62_000, "x")]);
    assert_eq!(parse_lrc_words("[+1:+2.+5]x", false).unwrap(), vec![span(62_050, "x")]);
}

#[test]
fn a_tag_that_is_no_timestamp_ends_the_timestamps() {
    // The second tag is not a timestamp, so it stays in the text.
    assert_eq!(
        parse_lrc_words("[00:01.00][xx]tail", false).unwrap(),
        vec![span(1000, "[xx]tail")]
    );
    assert_eq!(parse_lrc_words("[00:01]x", false), Err(LyricsError::NoTimestamps));
}

#[test]
fn enhanced_tokens_inherit_and_update_the_time() {
    let raw = "[00:01.00]<00:01.50> hi there <00:02.00>you";
    assert_eq!(
        parse_lrc_words(raw, true).unwrap(),
        vec![span(1500, "hi"), span(1500, "there"), span(2000, "you")]
    );
    let raw2 = "[00:01.00]a [00:03.00]b";
    // Without angle brackets the line is line-synced: inner tags stay text.
    assert_eq!(parse_lrc_words(raw2, false).unwrap(), vec![span(1000, "a [00:03.00]b")]);
    let raw3 = "[00:01.00]a [00:03.00]b <00:04.00>c";
    assert_eq!(
        parse_lrc_words(raw3, false).unwrap(),
        vec![span(1000, "a"), span(3000, "b"), span(4000, "c")]
    );
}

#[test]
fn crlf_and_unicode_spaces_are_trimmed() {
    let raw = "[00:01.00]\u{3000}hello\u{a0}\r\n[00:02.00]  \r\n";
    assert_eq!(parse_lrc_words(raw, false).unwrap(), vec![span(1000, "hello")]);
}

#[test]
fn inputs_outside_the_domain() {
    assert!(lrc_outside_domain("[99999999999999999:01.00]x"));
    assert!(lrc_outside_domain("[00:00.\u{e9}\u{e9}]x"));
    assert!(!lrc_outside_domain("[00:00.\u{e9}]x"));
    assert!(!lrc_outside_domain("[00:01.00]x"));
    // A saturated timestamp read as signed lies before zero.
    assert!(!lrc_outside_domain("[99999999999999999:00.00]x"));
    assert_eq!(
        parse_lrc_words("[99999999999999999:00.00]x", false),
        Err(LyricsError::OffsetBeforeZero)
    );
    // The refusal comes first when a bad offset precedes the overflow.
    assert!(!lrc_outside_domain("[offset:x]\n[99999999999999999:01.00]x"));
}

#[test]
fn next_word_delay_counts_to_the_next_start() {
    let lyrics = TrackLyrics::new(
        "T",
        "A",
        vec![span(100, "one"), span(200, "two"), span(300, "three")],
    );
    assert_eq!(lyrics.next_word_delay_ms(0), Some(100));
    assert_eq!(lyrics.next_word_delay_ms(100), Some(100));
    assert_eq!(lyrics.next_word_delay_ms(250), Some(50));
    assert_eq!(lyrics.next_word_delay_ms(300), None);
    let empty = TrackLyrics::new("", "", Vec::new());
    assert_eq!(empty.active_word_index(5), None);
    assert_eq!(empty.next_word_delay_ms(5), None);
}

#[test]
fn lyrics_from_file_take_the_stem_as_title() {
    let l = lyrics_from_file_text(Some("song"), "[00:01.00]x", false).unwrap();
    assert_eq!(l.title, "song");
    assert_eq!(l.artist, "");
    assert_eq!(l.words, vec![span(1000, "x")]);
    let l2 = lyrics_from_file_text(None, "[00:01.00]x", false).unwrap();
    assert_eq!(l2.title, "Vellum");
    assert_eq!(
        lyrics_from_file_text(None, "[00:01.00]x", true),
        Err(LyricsError::NotWordSynced)
    );
}

#[test]
fn strict_and_lenient_agree_on_word_synced_text() {
    let raw = "[ti:x]\n[00:01.00]a <00:01.50>b\n[00:03.00]line";
    let strict = parse_lrc_words(raw, true).unwrap();
    assert_eq!(strict, parse_lrc_words(raw, false).unwrap());
    assert_eq!(strict, vec![span(1000, "a"), span(1500, "b"), span(3000, "line")]);
}
