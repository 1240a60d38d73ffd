use vellum_lyrics::app::App;
use vellum_lyrics::control::{
    build_query, fetch_commands, fetch_step, next_wait_timeout, FetchAction, Frame, TuiState,
};
use vellum_lyrics::lyrics::{TrackLyrics, WordSpan};
use vellum_lyrics::player::{duration_to_ms, PlayerTrackInfo};

#[test]
fn query_joins_trimmed_artist_and_title() {
    assert_eq!(build_query("  Artist ", " Title"), "Artist Title");
    assert_eq!(build_query("Artist", "  "), "Artist");
    assert_eq!(build_query("", "Title"), "Title");
    assert_eq!(build_query(" ", "\t"), "Unknown track");
}

#[test]
fn wait_follows_the_next_word_within_the_tick() {
    let app = App::new(TrackLyrics::new(
        "",
        "",
        vec![WordSpan { start_ms: 100, text: "a".into() }, WordSpan { start_ms: 200, text: "b".into() }],
    ));
    assert_eq!(next_wait_timeout(&app, 50, 33), 33);
    assert_eq!(next_wait_timeout(&app, 190, 33), 10);
    assert_eq!(next_wait_timeout(&app, 250, 33), 33);
    assert_eq!(next_wait_timeout(&app, 195, 0), 1);
}

#[test]
fn fetch_commands_in_order() {
    let cmds = fetch_commands("Artist Title");
    let shown: Vec<(String, Vec<String>)> = cmds.into_iter().map(|c| (c.program, c.args)).collect();
    assert_eq!(
        shown,
        vec![
            ("syncedlyrics".to_string(), vec!["--enhanced".to_string(), "Artist Title".to_string()]),
            ("syncedlyrics".to_string(), vec!["Artist Title".to_string(), "--enhanced".to_string()]),
            (
                "python3".to_string(),
                vec!["-m".into(), "syncedlyrics".into(), "--enhanced".into(), "Artist Title".into()]
            ),
            (
                "python3".to_string(),
                vec!["-m".into(), "syncedlyrics".into(), "Artist Title".into(), "--enhanced".into()]
            ),
        ]
    );
    let odd = fetch_commands("-m");
    assert_eq!(odd[1].program, "python3");
}

#[test]
fn track_change_requests_lyrics_and_ignores_stale_results() {
    let mut app = App::new(TrackLyrics::new("", "", Vec::new()));
    let mut tui = TuiState::new();
    let meta = PlayerTrackInfo::from_metadata(Some("Title"), Some(vec!["Artist".to_string()]));

    let (id, query) = tui.on_track(&mut app, &meta).expect("new track");
    assert_eq!(id, 1);
    assert_eq!(query, "Artist Title");
    assert_eq!(app.status(), Some("Loading lyrics..."));
    assert!(tui.on_track(&mut app, &meta).is_none());

    match tui.frame(&mut app, 0, Some(&meta)) {
        Frame::Status(s) => assert_eq!(s, "Loading lyrics..."),
        _ => panic!("expected the status"),
    }

    let stale = TrackLyrics::new("Old", "Old", vec![WordSpan { start_ms: 0, text: "old".into() }]);
    assert!(tui.on_fetched(&mut app, 0, Ok(stale)).is_none());
    assert_eq!(app.status(), Some("Loading lyrics..."));

    let fresh = TrackLyrics::new("Title", "Artist", vec![WordSpan { start_ms: 10, text: "hello".into() }]);
    let header = tui.on_fetched(&mut app, id, Ok(fresh));
    assert_eq!(header, Some(("Artist".to_string(), "Title".to_string())));
    assert_eq!(app.status(), None);

    match tui.frame(&mut app, 5, Some(&meta)) {
        Frame::Header(h) => assert!(h.is_none()),
        _ => panic!("expected no word yet"),
    }
    match tui.frame(&mut app, 20, Some(&meta)) {
        Frame::Word(h, w) => {
            assert!(h.is_none());
            assert_eq!(w, "hello");
        }
        _ => panic!("expected the word"),
    }
}

#[test]
fn failed_fetch_shows_the_error() {
    let mut app = App::new(TrackLyrics::new("", "", Vec::new()));
    let mut tui = TuiState::new();
    let meta = PlayerTrackInfo::from_metadata(None, None);
    assert_eq!(meta.title, "Unknown title");
    assert_eq!(meta.artist, "Unknown artist");
    let (id, query) = tui.on_track(&mut app, &meta).unwrap();
    assert_eq!(query, "Unknown artist Unknown title");
    assert!(tui.on_fetched(&mut app, id, Err("boom".to_string())).is_none());
    assert_eq!(app.status(), Some("lyrics unavailable: boom"));
    match tui.frame(&mut app, 0, Some(&meta)) {
        Frame::Status(s) => assert_eq!(s, "lyrics unavailable: boom"),
        _ => panic!("expected the status"),
    }
}

#[test]
fn file_mode_frames_show_words_without_header() {
    let mut app = App::new(TrackLyrics::new("", "", vec![WordSpan { start_ms: 10, text: "w".into() }]));
    let mut tui = TuiState::new();
    assert!(matches!(tui.frame(&mut app, 0, None), Frame::Nothing));
    match tui.frame(&mut app, 10, None) {
        Frame::Word(None, w) => assert_eq!(w, "w"),
        _ => panic!("expected the word"),
    }
}

#[test]
fn header_is_drawn_once_per_track() {
    let mut app = App::new(TrackLyrics::new("T", "A", vec![WordSpan { start_ms: 0, text: "w".into() }]));
    let mut tui = TuiState::new();
    let meta = PlayerTrackInfo::from_metadata(Some("T"), Some(vec!["A".to_string(), "B".to_string()]));
    assert_eq!(meta.artist, "A");
    match tui.frame(&mut app, 5, Some(&meta)) {
        Frame::Word(Some((a, t)), w) => {
            assert_eq!((a.as_str(), t.as_str(), w.as_str()), ("A", "T", "w"));
        }
        _ => panic!("expected the header and the word"),
    }
    match tui.frame(&mut app, 6, Some(&meta)) {
        Frame::Word(None, _) => {}
        _ => panic!("expected the word alone"),
    }
}

#[test]
fn durations_truncate_to_64_bits() {
    assert_eq!(duration_to_ms(1234), 1234);
    assert_eq!(duration_to_ms((1u128 << 64) + 5), 5);
    let meta = PlayerTrackInfo::from_metadata(Some("T"), Some(Vec::new()));
    assert_eq!(meta.artist, "Unknown artist");
}

#[test]
fn fetch_stops_at_first_success_and_gives_up_after_the_last() {
    assert!(matches!(fetch_step(0, true, 4), FetchAction::Done));
    assert!(matches!(fetch_step(0, false, 4), FetchAction::Run(1)));
    assert!(matches!(fetch_step(2, false, 4), FetchAction::Run(3)));
    assert!(matches!(fetch_step(3, false, 4), FetchAction::GiveUp));
    assert!(matches!(fetch_step(3, true, 4), FetchAction::Done));
    assert!(matches!(fetch_step(0, false, 0), FetchAction::GiveUp));
}
