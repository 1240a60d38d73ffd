use vellum_lyrics::app::App;
use vellum_lyrics::lyrics::{TrackLyrics, WordSpan};

fn lyrics() -> TrackLyrics {
    TrackLyrics::new(
        "Song",
        "Band",
        vec![
            WordSpan { start_ms: 100, text: "one".into() },
            WordSpan { start_ms: 200, text: "two".into() },
        ],
    )
}

#[test]
fn update_selects_the_latest_started_word() {
    let mut app = App::new(lyrics());
    assert!(app.active_word().is_none());
    app.update(50);
    assert!(app.active_word().is_none());
    app.update(150);
    assert_eq!(app.active_word().unwrap().text, "one");
    app.update(200);
    assert_eq!(app.active_word().unwrap().text, "two");
    assert_eq!(app.title(), "Song");
    assert_eq!(app.artist(), "Band");
    assert_eq!(app.lyrics().words.len(), 2);
}

#[test]
fn status_and_lyrics_replacement() {
    let mut app = App::new(lyrics());
    assert_eq!(app.status(), None);
    app.set_status("Loading lyrics...");
    assert_eq!(app.status(), Some("Loading lyrics..."));
    app.update(150);
    app.set_lyrics(TrackLyrics::new("Other", "Artist", vec![WordSpan { start_ms: 0, text: "x".into() }]));
    assert_eq!(app.status(), None);
    assert!(app.active_word().is_none());
    assert_eq!(app.title(), "Other");
}

#[test]
fn track_info_and_clearing() {
    let mut app = App::new(lyrics());
    app.update(150);
    app.set_status("busy");
    app.set_track_info("New", "Singer");
    assert_eq!(app.title(), "New");
    assert_eq!(app.artist(), "Singer");
    assert!(app.lyrics().words.is_empty());
    assert!(app.active_word().is_none());
    assert_eq!(app.status(), Some("busy"));

    let mut app2 = App::new(lyrics());
    app2.update(250);
    app2.clear_lyrics();
    assert!(app2.active_word().is_none());
    assert_eq!(app2.title(), "Song");
    assert!(app2.lyrics().words.is_empty());
}
