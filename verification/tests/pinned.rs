use lost_commander::pathname::Style;
use lost_commander::pinned::Pinned;

#[test]
fn a_pin_toggles_and_the_shelf_keeps_its_order() {
    let mut pinned = Pinned::default();
    let here = "/project";

    assert!(pinned.toggle(Style::Unix, here, "cargo test"));
    assert!(pinned.toggle(Style::Unix, here, "cargo build --release"));
    assert!(pinned.toggle(Style::Unix, "/elsewhere", "make"));

    let shelf: Vec<&str> = pinned.here(Style::Unix, here).iter().map(|p| p.line.as_str()).collect();
    assert_eq!(
        shelf,
        vec!["cargo test", "cargo build --release"],
        "this folder's pins, in the order they were made"
    );
    assert!(pinned.is_pinned(Style::Unix, here, "cargo test"));
    assert!(
        !pinned.is_pinned(Style::Unix, here, "make"),
        "another folder's pin is not this folder's"
    );

    // Said twice, it ends where it started.
    assert!(!pinned.toggle(Style::Unix, here, "cargo test"));
    assert!(!pinned.is_pinned(Style::Unix, here, "cargo test"));
}

#[test]
fn whitespace_is_not_identity() {
    let mut pinned = Pinned::default();
    let here = "/project";
    pinned.toggle(Style::Unix, here, "  cargo test  ");
    assert!(pinned.is_pinned(Style::Unix, here, "cargo test"));
    assert!(
        !pinned.toggle(Style::Unix, here, "cargo test"),
        "the same line, so it unpins"
    );
}

#[test]
fn toggling_twice_restores_the_shelf() {
    let mut pinned = Pinned::default();
    pinned.toggle(Style::Unix, "/a", "make");
    let before = pinned.clone();
    pinned.toggle(Style::Unix, "/a", "cargo test");
    pinned.toggle(Style::Unix, "/a", "cargo test");
    assert_eq!(pinned, before);
}

#[test]
fn the_pins_have_a_file_of_their_own() {
    assert_eq!(
        Pinned::path(Style::Unix, Some("/home/u/.config")).as_deref(),
        Some("/home/u/.config/lost-commander/pinned.toml")
    );
}
