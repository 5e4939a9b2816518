//! The palette.

use kuula::palette::{Palette, PaletteError, PALETTE_SIZE, SYSTEM_COLOURS, SYSTEM_PALETTE};

#[test]
fn set_on_system_colours_fails() {
    let mut p = Palette::default();
    for (i, sys) in SYSTEM_PALETTE.iter().enumerate() {
        assert_eq!(p.set(i, [1, 2, 3]), Err(PaletteError::Locked { index: i }));
        assert_eq!(p.entries()[i], *sys);
    }
}

#[test]
fn set_on_cart_colours_succeeds() {
    let mut p = Palette::default();
    for i in SYSTEM_COLOURS..PALETTE_SIZE {
        assert_eq!(p.set(i, [i as u8, 2, 3]), Ok(()));
        assert_eq!(p.entries()[i], [i as u8, 2, 3]);
    }
}

#[test]
fn set_at_128_fails() {
    let mut p = Palette::default();
    assert_eq!(
        p.set(128, [0, 0, 0]),
        Err(PaletteError::OutOfRange { index: 128 })
    );
    assert_eq!(
        p.set(usize::MAX, [0, 0, 0]).unwrap_err().code(),
        "palette_index_out_of_range"
    );
}

/// The brand roles of the shell (ink, midnight, ivory, ...) are drawn from
/// the locked system colours. Moving one moves the shell's identity.
#[test]
fn system_colours_carry_the_brand_roles() {
    let roles = [
        ("ink", 0, [0x00, 0x00, 0x00]),
        ("midnight", 1, [0x1d, 0x2b, 0x53]),
        ("mist", 6, [0xc2, 0xc3, 0xc7]),
        ("ivory", 7, [0xff, 0xf1, 0xe8]),
        ("red", 8, [0xff, 0x00, 0x4d]),
        ("sky", 12, [0x29, 0xad, 0xff]),
        ("lavender", 13, [0x83, 0x76, 0x9c]),
        ("peach", 15, [0xff, 0xcc, 0xaa]),
    ];
    for (name, index, rgb) in roles {
        assert_eq!(
            SYSTEM_PALETTE[index], rgb,
            "{name} is system colour {index}"
        );
    }
}

#[test]
fn default_palette_starts_with_system_colours() {
    let p = Palette::default();
    assert_eq!(&p.entries()[..SYSTEM_COLOURS], &SYSTEM_PALETTE[..]);
    assert_eq!(p.get(0), [0, 0, 0]);
    assert_eq!(p.get(7), [0xff, 0xf1, 0xe8]);
    assert_eq!(p.get(0x87), p.get(7), "high bit is ignored");
}

#[test]
fn a_palette_from_elsewhere_keeps_the_system_colours() {
    let mut p = Palette::default();
    p.set_cart_entries(&[[9, 9, 9]; PALETTE_SIZE]);
    assert_eq!(&p.entries()[..SYSTEM_COLOURS], &SYSTEM_PALETTE[..]);
    assert!(p.entries()[SYSTEM_COLOURS..].iter().all(|c| *c == [9, 9, 9]));
}
