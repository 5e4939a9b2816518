//! The pen.

use kuula::pen::ColourTable;

#[test]
fn colour_table_composes_remap_then_transparency() {
    let mut t = ColourTable::default();
    assert_eq!(t.lookup(5, 9), 5);
    t.palt(5, true);
    assert_eq!(t.lookup(5, 9), 9);
    t.pal_map(1, 5);
    assert_eq!(t.lookup(1, 9), 9, "1 maps to 5 which is transparent");
    t.palt(5, false);
    assert_eq!(t.lookup(1, 9), 5);
    t.pal_map(1, 6);
    t.palt(1, true);
    assert_eq!(t.lookup(1, 9), 6, "transparency of the source is not used");
    t.reset();
    assert_eq!(t.lookup(1, 9), 1);
    assert_eq!(t.lookup(5, 9), 5);
    assert_eq!(t.lookup(0x85, 0x89), 5, "both indices masked");
}
