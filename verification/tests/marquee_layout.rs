use datara::marquee::layout;

// Font size 10.0 px is 10000 thousandths; one character is then 6000
// thousandths wide, so a 30000 slot fits five characters.

#[test]
fn fitting_text_passes_through() {
    // "hello" is 5 chars * 9000 = 45000 wide at font 15000; the slot holds it.
    assert_eq!(layout("hello", 45000, 15000, 0, false), "hello");
    assert_eq!(layout("hello", 45000, 15000, 1234, true), "hello");
    assert_eq!(layout("hello", 45000, 15000, 999999, false), "hello");
}

#[test]
fn zero_width_font_fits_everything() {
    // Font 1 gives a character width of zero; nothing is ever oversized.
    assert_eq!(layout("anything at all", 1, 1, 777, true), "anything at all");
}

#[test]
fn empty_text_passes_through() {
    assert_eq!(layout("", 0, 10000, 0, true), "");
}

#[test]
fn unfocused_oversized_truncates_with_ellipsis() {
    // 10 chars in a 5-char slot: keep 5 - 3 = 2, then the ellipsis.
    assert_eq!(layout("abcdefghij", 30000, 10000, 0, false), "ab...");
}

#[test]
fn unfocused_tiny_slot_keeps_only_ellipsis() {
    // A 2-char slot leaves nothing before the ellipsis.
    assert_eq!(layout("abcdefghij", 12000, 10000, 0, false), "...");
}

#[test]
fn focused_scroll_positions_across_the_cycle() {
    let text = "abcdefghij";
    // Start of the cycle: the window sits at the beginning.
    assert_eq!(layout(text, 30000, 10000, 0, true), "abcde");
    // Quarter cycle: offset 15000 of range 30000, start index 2.
    assert_eq!(layout(text, 30000, 10000, 1000, true), "cdefg");
    // Half cycle: the window reaches the end of the text exactly.
    assert_eq!(layout(text, 30000, 10000, 2000, true), "fghij");
    // Three quarters: scrolling back, start index 2 again.
    assert_eq!(layout(text, 30000, 10000, 3000, true), "cdefg");
}

#[test]
fn focused_scroll_with_one_spare_character() {
    // Six characters in a five-char slot: the window can move by one.
    assert_eq!(layout("abcdef", 30000, 10000, 0, true), "abcde");
    assert_eq!(layout("abcdef", 30000, 10000, 2000, true), "bcdef");
    assert_eq!(layout("abcdef", 30000, 10000, 3999, true), "abcde");
}

#[test]
fn focused_layout_is_periodic_over_one_cycle() {
    let text = "abcdefghijklmno";
    for &t in &[0u64, 250, 1000, 1999, 2000, 3500] {
        assert_eq!(
            layout(text, 30000, 10000, t, true),
            layout(text, 30000, 10000, t + 4000, true),
        );
    }
}

#[test]
fn multibyte_text_is_measured_in_characters() {
    // Six characters in a 3-char slot: unfocused keeps none before "...".
    assert_eq!(layout("éééééé", 18000, 10000, 0, false), "...");
    // Focused at the start of the cycle shows the first three characters.
    assert_eq!(layout("ééщщфф", 18000, 10000, 0, true), "ééщ");
}
