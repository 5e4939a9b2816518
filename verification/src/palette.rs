//! The palette: 128 colours, the first sixteen locked.

use vstd::prelude::*;
use vstd::string::*;
use crate::text::{dec, push_dec};

verus! {

/// Number of palette entries. A colour index is 7 bits.
pub const PALETTE_SIZE: usize = 128;

/// Entries `0..SYSTEM_COLOURS` are the system palette. They are locked:
/// the shell's error screen and overlays rely on them.
pub const SYSTEM_COLOURS: usize = 16;

pub type Rgb = [u8; 3];

/// The 16 system colours, chosen so that 0 is black, 7 is a bright white
/// and 8 is red, matching common fantasy console habits.
pub const SYSTEM_PALETTE: [Rgb; SYSTEM_COLOURS] = [
    [0x00, 0x00, 0x00],
    [0x1d, 0x2b, 0x53],
    [0x7e, 0x25, 0x53],
    [0x00, 0x87, 0x51],
    [0xab, 0x52, 0x36],
    [0x5f, 0x57, 0x4f],
    [0xc2, 0xc3, 0xc7],
    [0xff, 0xf1, 0xe8],
    [0xff, 0x00, 0x4d],
    [0xff, 0xa3, 0x00],
    [0xff, 0xec, 0x27],
    [0x00, 0xe4, 0x36],
    [0x29, 0xad, 0xff],
    [0x83, 0x76, 0x9c],
    [0xff, 0x77, 0xa8],
    [0xff, 0xcc, 0xaa],
];

/// The default colour of entry `i`, channel by channel: the system
/// colours, then a 4x4x7 ramp of red, green and blue.
pub open spec fn default_colour(i: int) -> Seq<u8> {
    if i < SYSTEM_COLOURS {
        SYSTEM_PALETTE@[i]@
    } else {
        let n = i - SYSTEM_COLOURS;
        seq![(n % 4 * 85) as u8, (n / 4 % 4 * 85) as u8, (n / 16 % 7 * 42) as u8]
    }
}

/// The default full palette: the system colours followed by a 4x4x7 RGB
/// ramp in the remaining 112 entries.
pub fn default_palette() -> (out: [Rgb; PALETTE_SIZE])
    ensures
        forall|i: int| 0 <= i < PALETTE_SIZE ==> (#[trigger] out@[i])@ == default_colour(i),
{
    let mut out: [Rgb; PALETTE_SIZE] = [[0u8; 3]; 128];
    let mut i: usize = 0;
    while i < PALETTE_SIZE
        invariant
            i <= PALETTE_SIZE,
            forall|j: int| 0 <= j < i ==> (#[trigger] out@[j])@ == default_colour(j),
        decreases PALETTE_SIZE - i,
    {
        if i < SYSTEM_COLOURS {
            out[i] = SYSTEM_PALETTE[i];
        } else {
            let n: usize = i - SYSTEM_COLOURS;
            let rgb: Rgb = [
                (n % 4 * 85) as u8,
                (n / 4 % 4 * 85) as u8,
                (n / 16 % 7 * 42) as u8,
            ];
            assert(rgb@ =~= default_colour(i as int));
            out[i] = rgb;
        }
        i += 1;
    }
    out
}

#[derive(Debug, Clone, Copy, PartialEq, Eq, Structural)]
pub enum PaletteError {
    /// Index is at or above [`PALETTE_SIZE`].
    OutOfRange { index: usize },
    /// Index is one of the locked system colours.
    Locked { index: usize },
}

impl PaletteError {
    /// Stable error code.
    pub fn code(&self) -> (s: &'static str)
        ensures
            s@ == (match self {
                PaletteError::OutOfRange { .. } => "palette_index_out_of_range"@,
                PaletteError::Locked { .. } => "palette_index_locked"@,
            }),
    {
        match self {
            PaletteError::OutOfRange { .. } => "palette_index_out_of_range",
            PaletteError::Locked { .. } => "palette_index_locked",
        }
    }

    /// What went wrong, in words.
    pub fn text(&self) -> (s: String)
        ensures
            s@ == (match self {
                PaletteError::OutOfRange { index } => "palette index "@ + dec(*index as nat)
                    + " out of range 0..128"@,
                PaletteError::Locked { index } => "palette index "@ + dec(*index as nat)
                    + " is a locked system colour"@,
            }),
    {
        let mut s = "palette index ".to_owned();
        match self {
            PaletteError::OutOfRange { index } => {
                push_dec(&mut s, *index as u64);
                s.append(" out of range 0..128");
            },
            PaletteError::Locked { index } => {
                push_dec(&mut s, *index as u64);
                s.append(" is a locked system colour");
            },
        }
        s
    }
}

/// 128 RGB888 entries. The first 16 are fixed and cannot be changed by a
/// cart.
#[derive(Debug, Clone, PartialEq, Eq)]
pub struct Palette {
    entries: [Rgb; PALETTE_SIZE],
}

impl View for Palette {
    type V = Seq<Rgb>;

    closed spec fn view(&self) -> Seq<Rgb> {
        self.entries@
    }
}

/// Whether a palette holds the default colours.
pub open spec fn default_colours(p: Seq<Rgb>) -> bool {
    &&& p.len() == PALETTE_SIZE
    &&& forall|i: int| 0 <= i < PALETTE_SIZE ==> (#[trigger] p[i])@ == default_colour(i)
}

/// Whether a palette still starts with the system colours.
pub open spec fn system_intact(p: Seq<Rgb>) -> bool {
    &&& p.len() == PALETTE_SIZE
    &&& forall|i: int| 0 <= i < SYSTEM_COLOURS ==> (#[trigger] p[i])@ == SYSTEM_PALETTE@[i]@
}

impl Default for Palette {
    fn default() -> (p: Palette)
        ensures
            default_colours(p@),
            system_intact(p@),
    {
        Palette { entries: default_palette() }
    }
}

impl Palette {
    pub fn entries(&self) -> (e: &[Rgb; PALETTE_SIZE])
        ensures
            e@ == self@,
    {
        &self.entries
    }

    /// An equal palette.
    pub fn copy(&self) -> (p: Palette)
        ensures
            p@ == self@,
    {
        Palette { entries: self.entries }
    }

    /// Colour for `index & 0x7f`.
    pub fn get(&self, index: u8) -> (c: Rgb)
        ensures
            c == self@[index as int % 128],
    {
        self.entries[(index % 128) as usize]
    }

    /// Set a cart-owned entry. Fails on the system colours and out of
    /// range.
    pub fn set(&mut self, index: usize, rgb: Rgb) -> (r: Result<(), PaletteError>)
        ensures
            final(self)@ == (if SYSTEM_COLOURS <= index < PALETTE_SIZE {
                old(self)@.update(index as int, rgb)
            } else {
                old(self)@
            }),
            r == (if index >= PALETTE_SIZE {
                Err(PaletteError::OutOfRange { index })
            } else if index < SYSTEM_COLOURS {
                Err(PaletteError::Locked { index })
            } else {
                Ok::<(), PaletteError>(())
            }),
    {
        if index >= PALETTE_SIZE {
            return Err(PaletteError::OutOfRange { index });
        }
        if index < SYSTEM_COLOURS {
            return Err(PaletteError::Locked { index });
        }
        self.entries[index] = rgb;
        Ok(())
    }

    /// Replace every cart-owned entry at once and keep the system
    /// colours as they are. For a palette that arrives from another
    /// process, whose system entries are not trusted.
    pub fn set_cart_entries(&mut self, entries: &[Rgb; PALETTE_SIZE])
        ensures
            final(self)@ == old(self)@.take(SYSTEM_COLOURS as int) + entries@.skip(
                SYSTEM_COLOURS as int,
            ),
    {
        let mut i: usize = SYSTEM_COLOURS;
        while i < PALETTE_SIZE
            invariant
                SYSTEM_COLOURS <= i <= PALETTE_SIZE,
                forall|j: int| 0 <= j < SYSTEM_COLOURS ==> self@[j] == old(self)@[j],
                forall|j: int| SYSTEM_COLOURS <= j < i ==> self@[j] == entries@[j],
            decreases PALETTE_SIZE - i,
        {
            self.entries[i] = entries[i];
            i += 1;
        }
        assert(self@ =~= old(self)@.take(SYSTEM_COLOURS as int) + entries@.skip(
            SYSTEM_COLOURS as int,
        ));
    }
}

/// The system colours are out of a cart's reach: neither setting one
/// entry nor replacing every cart entry at once changes them.
pub proof fn law_system_colours_are_locked(p: Seq<Rgb>, index: int, rgb: Rgb, entries: Seq<Rgb>)
    requires
        system_intact(p),
        SYSTEM_COLOURS <= index < PALETTE_SIZE,
        entries.len() == PALETTE_SIZE,
    ensures
        system_intact(p.update(index, rgb)),
        system_intact(p.take(SYSTEM_COLOURS as int) + entries.skip(SYSTEM_COLOURS as int)),
{
}

/// A palette has all its colours.
pub proof fn lemma_palette_len(p: Palette)
    ensures
        p@.len() == PALETTE_SIZE,
{
}

} // verus!
