//! The error screen.

use kuula::error_screen::{
    compose, lines, wrap, CHOICES, CHOICES_TEXT, CODE, LOCATION, MESSAGE, MESSAGE_LINES, PANEL,
};
use kuula::fault::Fault;

#[test]
fn wraps_words_and_splits_long_ones() {
    assert_eq!(wrap("a bb ccc", 5), ["a bb", "ccc"]);
    assert_eq!(wrap("abcdefghij", 4), ["abcd", "efgh", "ij"]);
    assert_eq!(wrap("x\n\ny", 4), ["x", "", "y"]);
    assert_eq!(wrap("", 4), [""]);
    assert_eq!(wrap("äöäöäö ok", 4), ["äöäö", "äö", "ok"]);
}

#[test]
fn lines_have_code_location_message_and_choices() {
    let f = Fault::new(
        "budget_exceeded",
        "main.lua",
        Some(7),
        "_update used 1 of 0 cycles",
    );
    let l = lines(&f, 40);
    assert_eq!(l[0], ("budget_exceeded".to_string(), CODE));
    assert_eq!(l[1], ("main.lua:7".to_string(), LOCATION));
    assert_eq!(l[2].0, "_update used 1 of 0 cycles");
    assert_eq!(l.last().unwrap().0, CHOICES_TEXT);
    let long = Fault::new("runtime_error", "main.lua", None, &"word ".repeat(100));
    let l = lines(&long, 20);
    assert_eq!(l.len(), 2 + MESSAGE_LINES + 2);
    assert!(l[1 + MESSAGE_LINES].0.ends_with("..."));
}

#[test]
fn compose_keeps_the_frame_outside_the_panel() {
    let (w, h) = (320u32, 240u32);
    let mut px = vec![9u8; (w * h) as usize];
    let f = Fault::new("runtime_error", "main.lua", Some(3), "boom");
    compose(&mut px, w, h, &f);
    assert_eq!(px[0], 9, "corner untouched");
    assert_eq!(px[(h as usize - 1) * w as usize], 9);
    let mid = (h as usize / 2) * w as usize + w as usize / 2;
    assert!(
        px[mid] == PANEL || px[mid] == MESSAGE || px[mid] == LOCATION || px[mid] == CODE,
        "panel drawn in the middle: {}",
        px[mid]
    );
    assert!(px.contains(&CODE), "the code is drawn in peach");
    assert!(px.contains(&CHOICES));
    // A tiny screen does not panic.
    let mut tiny = vec![0u8; 4];
    compose(&mut tiny, 2, 2, &f);
    compose(&mut Vec::new(), 0, 0, &f);
}

#[test]
fn a_long_line_is_cut_at_the_panels_edge() {
    let (w, h) = (96u32, 64u32);
    let mut px = vec![9u8; (w * h) as usize];
    let f = Fault::new(&"x".repeat(80), &"dir/".repeat(30), Some(3), "boom");
    compose(&mut px, w, h, &f);
    for y in 0..h as usize {
        let row = &px[y * w as usize..(y + 1) * w as usize];
        assert!(row[..8].iter().chain(&row[88..]).all(|&p| p == 9), "row {y}");
    }
    assert!(px.contains(&CODE));
    // A screen with no room for a panel keeps its frame.
    let mut narrow = vec![9u8; 16 * 64];
    compose(&mut narrow, 16, 64, &f);
    assert!(narrow.iter().all(|&p| p == 9));
}
