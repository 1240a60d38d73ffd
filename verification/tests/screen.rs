use vellum_lyrics::kitty::{clear_images_command, image_command};
use vellum_lyrics::screen::{pixel_size, theme_color, ScreenState};

#[test]
fn pixel_size_prefers_the_window_size() {
    assert_eq!(pixel_size((800, 600, 80, 30), Some((1, 1))), (800, 600, 80, 30));
    assert_eq!(pixel_size((0, 600, 80, 30), Some((100, 40))), (1000, 800, 100, 40));
    assert_eq!(pixel_size((0, 0, 0, 0), None), (800, 480, 80, 24));
}

#[test]
fn theme_colour_from_colorfgbg() {
    assert_eq!(theme_color(None), (255, 255, 255));
    assert_eq!(theme_color(Some("15;0")), (255, 255, 255));
    assert_eq!(theme_color(Some("0;15")), (0, 0, 0));
    assert_eq!(theme_color(Some("0;8")), (0, 0, 0));
    assert_eq!(theme_color(Some("0;7")), (255, 255, 255));
    assert_eq!(theme_color(Some("0;abc")), (255, 255, 255));
    assert_eq!(theme_color(Some("15")), (255, 255, 255));
}

#[test]
fn word_area_and_redraw_decisions() {
    let mut screen = ScreenState::new((800, 600, 80, 30), None);
    assert_eq!(screen.word_area("hi"), Some((2, 800, 560)));
    assert_eq!(screen.word_area("hi"), None);
    assert!(screen.header_needed("A", "T"));
    assert!(!screen.header_needed("A", "T"));
    assert_eq!(screen.word_area("hi"), Some((2, 800, 560)));
    assert!(screen.status_needed("wait"));
    assert!(!screen.status_needed("wait"));
    assert!(screen.header_needed("A", "T"));
    screen.invalidate();
    assert!(screen.status_needed("wait"));
    screen.set_size((10, 30, 10, 1), None);
    assert_eq!(screen.word_area("x"), None);
    screen.set_size((0, 0, 0, 0), Some((0, 0)));
    assert_eq!(screen.word_area("y"), None);
}

#[test]
fn redraws_follow_what_was_drawn_last() {
    let mut screen = ScreenState::new((800, 600, 80, 30), None);
    // A status after a word is drawn; the word after the status is drawn again.
    assert_eq!(screen.word_area("hi"), Some((2, 800, 560)));
    assert!(screen.status_needed("wait"));
    assert_eq!(screen.word_area("hi"), Some((2, 800, 560)));
    assert!(screen.status_needed("wait"));
    // A different status is drawn; the same one is not, even after a resize.
    assert!(screen.status_needed("paused"));
    screen.set_size((800, 600, 80, 30), None);
    assert!(!screen.status_needed("paused"));
    // A header kept from before does not redraw the word; a new header does.
    assert!(screen.header_needed("A", "T"));
    assert_eq!(screen.word_area("hi"), Some((2, 800, 560)));
    assert!(!screen.header_needed("A", "T"));
    assert_eq!(screen.word_area("hi"), None);
    assert!(screen.header_needed("B", "T"));
    assert_eq!(screen.word_area("hi"), Some((2, 800, 560)));
    // Another word in between makes the first one drawn again.
    assert_eq!(screen.word_area("yo"), Some((2, 800, 560)));
    assert_eq!(screen.word_area("hi"), Some((2, 800, 560)));
    // After a status, the header is drawn again.
    assert!(screen.status_needed("wait"));
    assert!(screen.header_needed("B", "T"));
}

#[test]
fn image_command_frames_base64() {
    assert_eq!(
        image_command(&[0, 0, 0, 255], 1, 1),
        "\x1b_Ga=T,f=32,s=1,v=1,q=2,m=0;AAAA/w==\x1b\\"
    );
    assert_eq!(image_command(&[], 0, 0), "");
    assert_eq!(image_command(b"Ma", 2, 3), "\x1b_Ga=T,f=32,s=2,v=3,q=2,m=0;TWE=\x1b\\");
    assert_eq!(image_command(b"Man", 10, 0), "\x1b_Ga=T,f=32,s=10,v=0,q=2,m=0;TWFu\x1b\\");
    let big = vec![0u8; 3075];
    let cmd = image_command(&big, 40, 7);
    let first = format!("\x1b_Ga=T,f=32,s=40,v=7,q=2,m=1;{}\x1b\\", "A".repeat(4096));
    let second = "\x1b_Gm=0;AAAA\x1b\\".to_string();
    assert_eq!(cmd, first + &second);
    assert_eq!(clear_images_command(), "\x1b_Ga=d,d=a\x1b\\");
}
