//! The PLTE chunk: the colors of an indexed image.

use vstd::prelude::*;
use crate::error::PngError;
use crate::reader::{read_u8, ByteReader};

verus! {

/// One color of a palette.
#[derive(Debug, Clone, Copy, PartialEq, Eq, Structural)]
pub struct Palette {
    pub r: u8,
    pub g: u8,
    pub b: u8,
}

/// The colors of a palette, in the order of their indices.
#[derive(Debug, Clone, PartialEq, Eq)]
pub struct PLTEChunk {
    pub palettes: Vec<Palette>,
}

impl View for PLTEChunk {
    type V = Seq<Palette>;

    open spec fn view(&self) -> Seq<Palette> {
        self.palettes@
    }
}

/// The first `n` colors stored in `s`, three bytes each.
pub open spec fn palette_entries(s: Seq<u8>, n: nat) -> Seq<Palette> {
    Seq::new(n, |i: int| Palette { r: s[3 * i], g: s[3 * i + 1], b: s[3 * i + 2] })
}

/// What reading a palette of `length` bytes from `s` gives, and the bytes that
/// are left.
pub open spec fn parse_palette(s: Seq<u8>, length: nat) -> (
    Result<Seq<Palette>, PngError>,
    Seq<u8>,
) {
    if length % 3 != 0 {
        (Err(PngError::PaletteLength), s)
    } else if s.len() < length {
        (Err(PngError::UnexpectedEof), Seq::empty())
    } else {
        (Ok(palette_entries(s, length / 3)), s.skip(length as int))
    }
}

impl PLTEChunk {
    /// Reads the contents of a PLTE chunk of `length` bytes.
    pub fn from_bytes(read: &mut ByteReader, length: usize) -> (palette: Result<
        PLTEChunk,
        PngError,
    >)
        ensures
            final(read)@ == parse_palette(old(read)@, length as nat).1,
            match parse_palette(old(read)@, length as nat).0 {
                Ok(entries) => palette matches Ok(p) && p@ == entries,
                Err(e) => palette == Err::<PLTEChunk, PngError>(e),
            },
    {
        if length % 3 != 0 {
            return Err(PngError::PaletteLength);
        }
        let ghost s = read@;
        let mut palettes: Vec<Palette> = Vec::new();
        assert(s.skip(0) =~= s);
        for i in 0..length / 3
            invariant
                length % 3 == 0,
                s == old(read)@,
                3 * i <= s.len(),
                read@ == s.skip(3 * i),
                palettes@ == palette_entries(s, i as nat),
        {
            let r: u8 = read_u8(read)?;
            assert(s.skip(3 * i).skip(1) =~= s.skip(3 * i + 1));
            let g: u8 = read_u8(read)?;
            assert(s.skip(3 * i + 1).skip(1) =~= s.skip(3 * i + 2));
            let b: u8 = read_u8(read)?;
            assert(s.skip(3 * i + 2).skip(1) =~= s.skip(3 * (i + 1)));
            palettes.push(Palette { r, g, b });
            assert(palettes@ =~= palette_entries(s, (i + 1) as nat));
        }
        Ok(PLTEChunk { palettes })
    }
}

/// The contents of the PLTE chunk of these colors.
pub open spec fn palette_bytes(colors: Seq<Palette>) -> Seq<u8> {
    Seq::new(
        3 * colors.len(),
        |i: int|
            if i % 3 == 0 {
                colors[i / 3].r
            } else if i % 3 == 1 {
                colors[i / 3].g
            } else {
                colors[i / 3].b
            },
    )
}

/// Colors that were written are read back.
pub proof fn law_palette_round_trip(colors: Seq<Palette>)
    ensures
        parse_palette(palette_bytes(colors), palette_bytes(colors).len()) == (
            Ok::<Seq<Palette>, PngError>(colors),
            Seq::<u8>::empty(),
        ),
{
    let s = palette_bytes(colors);
    let n = colors.len();
    assert forall|i: int| 0 <= i < n implies #[trigger] palette_entries(s, n)[i] == colors[i] by {
        assert((3 * i) / 3 == i && (3 * i + 1) / 3 == i && (3 * i + 2) / 3 == i);
    }
    assert(palette_entries(s, n) =~= colors);
    assert(s.skip(s.len() as int) =~= Seq::<u8>::empty());
}

} // verus!
