use unicode_char_group::{block_table, detect_char};

#[test]
fn basic_latin_letter() {
    let r = detect_char('A').unwrap();
    assert_eq!(r.group, "Latin");
    assert_eq!(r.block, "Basic Latin");
}

#[test]
fn basic_latin_upper_boundary() {
    let r = detect_char('\u{7f}').unwrap();
    assert_eq!(r.block, "Basic Latin");
}

#[test]
fn latin_1_supplement_lower_boundary() {
    let r = detect_char('\u{80}').unwrap();
    assert_eq!(r.group, "Latin");
    assert_eq!(r.block, "Latin-1 Supplement");
}

#[test]
fn cyrillic_letter() {
    let r = detect_char('\u{42f}').unwrap();
    assert_eq!(r.group, "Cyrillic");
    assert_eq!(r.block, "Cyrillic");
}

#[test]
fn cjk_unified_ideograph() {
    let r = detect_char('\u{4e2d}').unwrap();
    assert_eq!(r.group, "CJK");
    assert_eq!(r.block, "CJK Unified Ideographs");
}

#[test]
fn cjk_extension_b_lower_boundary() {
    let r = detect_char('\u{20000}').unwrap();
    assert_eq!(r.group, "CJK");
    assert_eq!(r.block, "CJK Unified Ideographs Extension B");
}

#[test]
fn duplicated_extension_f_entry_first_match_wins() {
    // The table declares this range twice; the earliest entry must win.
    let r = detect_char('\u{2ceb0}').unwrap();
    assert_eq!(r.group, "CJK");
    assert_eq!(r.block, "CJK Unified Ideographs Extension F");
}

#[test]
fn greek_letter_is_unclassified() {
    assert!(detect_char('\u{3b1}').is_none());
}

#[test]
fn emoji_is_unclassified() {
    assert!(detect_char('\u{1f600}').is_none());
}

#[test]
fn gap_between_declared_ranges_is_unclassified() {
    // U+0250 lies just above Latin Extended-B and below any other range.
    assert!(detect_char('\u{250}').is_none());
}

#[test]
fn table_has_declared_shape() {
    let t = block_table();
    assert_eq!(t.len(), 29);
    assert_eq!(t[0].group, "Latin");
    assert_eq!(t[0].block, "Basic Latin");
    assert_eq!(t[0].start, 0x0000);
    assert_eq!(t[0].end, 0x007f);
    assert_eq!(t[28].block, "CJK Unified Ideographs Extension G");
    assert_eq!(t[28].end, 0x3134f);
    // The duplicated entry is kept, in place.
    assert_eq!(t[25].block, "CJK Unified Ideographs Extension F");
    assert_eq!(t[26].block, "CJK Unified Ideographs Extension F");
    assert_eq!(t[25].start, t[26].start);
    assert_eq!(t[25].end, t[26].end);
}
