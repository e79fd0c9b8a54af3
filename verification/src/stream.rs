//! The sequence of chunks that makes up a PNG file.

use vstd::prelude::*;
use crate::chunk::{parse_chunk, read_chunk};
use crate::error::PngError;
use crate::header::{parse_header, IHDRChunk};
use crate::palette::{parse_palette, PLTEChunk, Palette};
use crate::reader::{be_u32, read_u32, ByteReader};
use crate::sbit::{parse_sbit, SBITChunk};

verus! {

/// The eight bytes that every PNG file starts with.
pub const SIGNATURE: [u8; 8] = [137, 80, 78, 71, 13, 10, 26, 10];

/// The type of the header chunk.
pub const IHDR: [u8; 4] = [0x49, 0x48, 0x44, 0x52];

/// The type of the gamma chunk.
pub const GAMA: [u8; 4] = [0x67, 0x41, 0x4d, 0x41];

/// The type of the chunk of significant bits.
pub const SBIT: [u8; 4] = [0x73, 0x42, 0x49, 0x54];

/// The type of the palette chunk.
pub const PLTE: [u8; 4] = [0x50, 0x4c, 0x54, 0x45];

/// The type of the chunks of compressed image data.
pub const IDAT: [u8; 4] = [0x49, 0x44, 0x41, 0x54];

/// The type of the chunk that ends the image.
pub const IEND: [u8; 4] = [0x49, 0x45, 0x4e, 0x44];

/// What the chunks of a file say: everything but the compressed image data is
/// decoded.
pub struct ImageStream {
    pub header: IHDRChunk,
    pub palette: Option<PLTEChunk>,
    /// The image's gamma, in units of 1/100000.
    pub gamma: Option<u32>,
    pub sbit: Option<SBITChunk>,
    /// The contents of the IDAT chunks, one behind the other.
    pub data: Vec<u8>,
}

/// The mathematical form of an image and of its stream.
#[verifier::ext_equal]
pub ghost struct ImageModel {
    pub header: IHDRChunk,
    pub palette: Option<Seq<Palette>>,
    pub gamma: Option<u32>,
    pub sbit: Option<SBITChunk>,
    pub data: Seq<u8>,
}

/// The colors of an optional palette.
pub open spec fn palette_model(palette: Option<PLTEChunk>) -> Option<Seq<Palette>> {
    match palette {
        Some(p) => Some(p@),
        None => None,
    }
}

impl View for ImageStream {
    type V = ImageModel;

    open spec fn view(&self) -> ImageModel {
        ImageModel {
            header: self.header,
            palette: palette_model(self.palette),
            gamma: self.gamma,
            sbit: self.sbit,
            data: self.data@,
        }
    }
}

/// An image of which only the header is known.
pub open spec fn only_header(header: IHDRChunk) -> ImageModel {
    ImageModel { header, palette: None, gamma: None, sbit: None, data: Seq::empty() }
}

/// What a chunk behind the header does: it adds to the image, it ends it (`None`),
/// or it is out of place.
pub open spec fn apply_chunk(image: ImageModel, chunk_type: [u8; 4], data: Seq<u8>) -> Result<
    Option<ImageModel>,
    PngError,
> {
    if chunk_type == IHDR {
        Err(PngError::DuplicateHeader)
    } else if chunk_type == GAMA {
        if image.palette is Some {
            Err(PngError::GammaAfterPalette)
        } else if image.data.len() > 0 {
            Err(PngError::GammaAfterData)
        } else if data.len() < 4 {
            Err(PngError::UnexpectedEof)
        } else {
            Ok(Some(ImageModel { gamma: Some(be_u32(data)), ..image }))
        }
    } else if chunk_type == SBIT {
        if image.palette is Some {
            Err(PngError::SbitAfterPalette)
        } else if image.data.len() > 0 {
            Err(PngError::SbitAfterData)
        } else {
            match parse_sbit(data, data.len(), image.header.color_type).0 {
                Ok(sbit) => Ok(Some(ImageModel { sbit: Some(sbit), ..image })),
                Err(e) => Err(e),
            }
        }
    } else if chunk_type == PLTE {
        if image.palette is Some {
            Err(PngError::DuplicatePalette)
        } else {
            match parse_palette(data, data.len()).0 {
                Ok(palette) => Ok(Some(ImageModel { palette: Some(palette), ..image })),
                Err(e) => Err(e),
            }
        }
    } else if chunk_type == IDAT {
        Ok(Some(ImageModel { data: image.data + data, ..image }))
    } else if chunk_type == IEND {
        Ok(None)
    } else {
        Err(PngError::UnknownChunk(chunk_type))
    }
}

/// What the chunks in `s` make of `image`: they follow one another up to the one
/// that ends the image, which is the last thing in `s`.
pub open spec fn parse_chunks(image: ImageModel, s: Seq<u8>) -> Result<ImageModel, PngError>
    decreases s.len(),
{
    match parse_chunk(s) {
        (Err(e), _) => Err(e),
        (Ok((chunk_type, data)), rest) => match apply_chunk(image, chunk_type, data) {
            Err(e) => Err(e),
            Ok(Some(next)) => parse_chunks(next, rest),
            Ok(None) => if rest.len() == 0 {
                Ok(image)
            } else {
                Err(PngError::TrailingData)
            },
        },
    }
}

/// What the bytes of a file say: behind the signature stands the header chunk, and
/// behind it the other chunks.
pub open spec fn parse_stream(s: Seq<u8>) -> Result<ImageModel, PngError> {
    if s.len() < 8 {
        Err(PngError::UnexpectedEof)
    } else if s.take(8) != SIGNATURE@ {
        Err(PngError::InvalidSignature)
    } else {
        match parse_chunk(s.skip(8)) {
            (Err(e), _) => Err(e),
            (Ok((chunk_type, data)), rest) => if chunk_type != IHDR {
                Err(PngError::MissingHeader)
            } else {
                match parse_header(data).0 {
                    Err(e) => Err(e),
                    Ok(header) => parse_chunks(only_header(header), rest),
                }
            },
        }
    }
}

/// Whether two chunk types are the same.
fn same_type(a: &[u8; 4], b: &[u8; 4]) -> (same: bool)
    ensures
        same == (*a == *b),
{
    let same = a[0] == b[0] && a[1] == b[1] && a[2] == b[2] && a[3] == b[3];
    proof {
        if same {
            assert(*a =~= *b);
        }
    }
    same
}

impl ImageStream {
    /// Takes in a chunk behind the header; whether the image goes on behind it.
    fn apply(&mut self, chunk_type: &[u8; 4], chunk_data: &Vec<u8>) -> (more: Result<bool, PngError>)
        ensures
            final(self).header == old(self).header,
            match apply_chunk(old(self)@, *chunk_type, chunk_data@) {
                Ok(Some(next)) => more == Ok::<bool, PngError>(true) && final(self)@ == next,
                Ok(None) => more == Ok::<bool, PngError>(false) && final(self)@ == old(self)@,
                Err(e) => more == Err::<bool, PngError>(e),
            },
    {
        if same_type(chunk_type, &IHDR) {
            return Err(PngError::DuplicateHeader);
        }
        if same_type(chunk_type, &GAMA) {
            if self.palette.is_some() {
                return Err(PngError::GammaAfterPalette);
            }
            if self.data.len() > 0 {
                return Err(PngError::GammaAfterData);
            }
            let gamma: u32 = read_u32(&mut ByteReader::new(chunk_data.as_slice()))?;
            self.gamma = Some(gamma);
            return Ok(true);
        }
        if same_type(chunk_type, &SBIT) {
            if self.palette.is_some() {
                return Err(PngError::SbitAfterPalette);
            }
            if self.data.len() > 0 {
                return Err(PngError::SbitAfterData);
            }
            let sbit = SBITChunk::read_bytes(
                &mut ByteReader::new(chunk_data.as_slice()),
                chunk_data.len(),
                self.header.color_type,
            )?;
            self.sbit = Some(sbit);
            return Ok(true);
        }
        if same_type(chunk_type, &PLTE) {
            if self.palette.is_some() {
                return Err(PngError::DuplicatePalette);
            }
            let palette = PLTEChunk::from_bytes(
                &mut ByteReader::new(chunk_data.as_slice()),
                chunk_data.len(),
            )?;
            self.palette = Some(palette);
            return Ok(true);
        }
        if same_type(chunk_type, &IDAT) {
            self.data.extend_from_slice(chunk_data.as_slice());
            assert(self@.data =~= old(self)@.data + chunk_data@);
            return Ok(true);
        }
        if same_type(chunk_type, &IEND) {
            return Ok(false);
        }
        Err(PngError::UnknownChunk(*chunk_type))
    }

    /// Reads the chunks of a whole file.
    pub fn read(bytes: &[u8]) -> (image: Result<ImageStream, PngError>)
        ensures
            match parse_stream(bytes@) {
                Ok(model) => image matches Ok(i) && i@ == model && i.header.valid(),
                Err(e) => image == Err::<ImageStream, PngError>(e),
            },
    {
        let mut read = ByteReader::new(bytes);
        let magic_bytes = read.read_exact(8)?;
        let mut matching: bool = true;
        for i in 0..8usize
            invariant
                magic_bytes@.len() == 8,
                matching == (forall|k: int| 0 <= k < i ==> magic_bytes@[k] == SIGNATURE@[k]),
        {
            if magic_bytes[i] != SIGNATURE[i] {
                matching = false;
            }
        }
        if !matching {
            return Err(PngError::InvalidSignature);
        }
        assert(magic_bytes@ =~= SIGNATURE@);
        let (chunk_type, chunk_data) = read_chunk(&mut read)?;
        if !same_type(&chunk_type, &IHDR) {
            return Err(PngError::MissingHeader);
        }
        let header = IHDRChunk::from_bytes(&mut ByteReader::new(chunk_data.as_slice()))?;
        let mut image = ImageStream { header, palette: None, gamma: None, sbit: None, data: Vec::new() };
        assert(image@ =~= only_header(header));
        loop
            invariant
                image.header.valid(),
                parse_stream(bytes@) == parse_chunks(image@, read@),
            decreases read@.len(),
        {
            let (chunk_type, chunk_data) = read_chunk(&mut read)?;
            if !image.apply(&chunk_type, &chunk_data)? {
                if !read.is_empty() {
                    return Err(PngError::TrailingData);
                }
                return Ok(image);
            }
        }
    }
}

} // verus!
