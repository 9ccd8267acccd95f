use hexgrid::view_modes::{byte_text, diff_at_index, CellViewMode, ColorMode, WhichFile};

#[test]
fn modes_cycle() {
    assert_eq!(WhichFile::File0.next(), WhichFile::File1);
    assert_eq!(WhichFile::File1.next(), WhichFile::File0);
    assert_eq!(CellViewMode::Hex.next(), CellViewMode::Ascii);
    assert_eq!(CellViewMode::Ascii.next(), CellViewMode::Hex);
    assert_eq!(ColorMode::Value.next(), ColorMode::Diff);
    assert_eq!(ColorMode::Diff.next(), ColorMode::Semantic01);
    assert_eq!(ColorMode::Semantic01.next(), ColorMode::Value);
}

#[test]
fn cell_text() {
    assert_eq!(byte_text(0xab, CellViewMode::Hex), "AB");
    assert_eq!(byte_text(0x05, CellViewMode::Hex), "05");
    assert_eq!(byte_text(0xff, CellViewMode::Hex), "FF");
    assert_eq!(byte_text(b'A', CellViewMode::Ascii), "A");
    assert_eq!(byte_text(b'~', CellViewMode::Ascii), "~");
    assert_eq!(byte_text(b' ', CellViewMode::Ascii), ".");
    assert_eq!(byte_text(0x80, CellViewMode::Ascii), ".");
}

#[test]
fn byte_differences() {
    let a = [1u8, 2, 3];
    let b = [1u8, 9];
    assert_eq!(diff_at_index(Some(&a), Some(&b), 0), Some(0));
    assert_eq!(diff_at_index(Some(&a), Some(&b), 1), Some(1));
    assert_eq!(diff_at_index(Some(&a), Some(&b), 2), None);
    assert_eq!(diff_at_index(None, Some(&b), 0), None);
    assert_eq!(diff_at_index(Some(&a), None, 0), None);
}
