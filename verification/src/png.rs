//! The decoded image.

use vstd::prelude::*;
use crate::error::PngError;
use crate::filter::{
    filtered, law_unfilter_undoes_filter, lemma_unfiltered_len, unfilter_data,
};
use crate::header::{header_bytes, law_header_round_trip, parse_header, IHDRChunk};
use crate::palette::PLTEChunk;
use crate::sbit::SBITChunk;
use crate::stream::{
    apply_chunk, only_header, palette_model, parse_stream, ImageModel, ImageStream, GAMA, IDAT,
    IEND, IHDR, PLTE, SBIT,
};
use crate::stream_laws::{
    all_storable, encode_file, interpret, interpret_file, law_accepted_is_a_file,
    law_data_is_all_idat, law_file_round_trip, storable, ChunkModel,
};
use crate::zlib::{decompress, law_stored_round_trip, parse_zlib, stored_zlib};

verus! {

/// A decoded image.
#[derive(Clone, PartialEq, Eq)]
pub struct Png {
    pub header: IHDRChunk,
    pub palette: Option<PLTEChunk>,
    /// The image's gamma, in units of 1/100000.
    pub gamma: Option<u32>,
    pub sbit: Option<SBITChunk>,
    /// The lines of the image, one behind the other, without filter bytes.
    pub data: Vec<u8>,
}

impl View for Png {
    type V = ImageModel;

    open spec fn view(&self) -> ImageModel {
        ImageModel {
            header: self.header,
            palette: palette_model(self.palette),
            gamma: self.gamma,
            sbit: self.sbit,
            data: self.data@,
        }
    }
}

/// The image whose chunks were read, or why its data does not make up an image.
pub open spec fn decode_image(stream: ImageModel) -> Result<ImageModel, PngError> {
    match parse_zlib(stream.data) {
        Err(e) => Err(PngError::Decompression(e)),
        Ok((lines, _)) => match unfilter_data(stream.header, lines) {
            Err(e) => Err(e),
            Ok(data) => Ok(ImageModel { data, ..stream }),
        },
    }
}

/// The image that the bytes of a file stand for, or why there is none.
pub open spec fn parse_png(bytes: Seq<u8>) -> Result<ImageModel, PngError> {
    match parse_stream(bytes) {
        Err(e) => Err(e),
        Ok(stream) => decode_image(stream),
    }
}

impl Png {
    /// Decodes the bytes of a PNG file.
    pub fn read_png(bytes: &[u8]) -> (png: Result<Png, PngError>)
        ensures
            match parse_png(bytes@) {
                Ok(image) => png matches Ok(p) && p@ == image && p.header.valid(),
                Err(e) => png == Err::<Png, PngError>(e),
            },
    {
        let stream = ImageStream::read(bytes)?;
        match decompress(stream.data.as_slice()) {
            Err(e) => Err(PngError::Decompression(e)),
            Ok((lines, _checksum)) => {
                let data = Self::unfilter(&stream.header, lines)?;
                Ok(
                    Png {
                        header: stream.header,
                        palette: stream.palette,
                        gamma: stream.gamma,
                        sbit: stream.sbit,
                        data,
                    },
                )
            },
        }
    }
}

/// A decoded image has all its bytes: as many lines as it is high, each as long as
/// the header says.
pub proof fn law_decoded_size(bytes: Seq<u8>)
    requires
        parse_png(bytes) is Ok,
    ensures
        parse_png(bytes)->Ok_0.header.valid(),
        parse_png(bytes)->Ok_0.data.len() == parse_png(bytes)->Ok_0.header.height * parse_png(
            bytes,
        )->Ok_0.header.stride(),
{
    let stream = parse_stream(bytes)->Ok_0;
    let header = stream.header;
    law_accepted_is_a_file(bytes);
    let chunks = choose|chunks: Seq<ChunkModel>|
        {
            &&& all_storable(chunks)
            &&& bytes == #[trigger] encode_file(chunks)
            &&& interpret_file(chunks) == parse_stream(bytes)
        };
    law_data_is_all_idat(chunks);
    let lines = parse_zlib(stream.data)->Ok_0.0;
    lemma_unfiltered_len(
        lines,
        header.stride(),
        header.pixel_bytes(),
        header.height as nat * header.stride(),
    );
}

/// An image whose lines were filtered in any way, stored, and spread over the IDAT
/// chunks of a file in any way, is read back with all that the other chunks say.
pub proof fn law_image_round_trip(chunks: Seq<ChunkModel>, filters: Seq<u8>, pixels: Seq<u8>)
    requires
        all_storable(chunks),
        interpret_file(chunks) is Ok,
        ({
            let stream = interpret_file(chunks)->Ok_0;
            let header = stream.header;
            &&& header.valid()
            &&& header.scanline_fits()
            &&& filters.len() == header.height
            &&& forall|row: int| 0 <= row < filters.len() ==> #[trigger] filters[row] <= 4
            &&& pixels.len() == header.height * header.stride()
            &&& stream.data == stored_zlib(
                filtered(filters, pixels, header.stride(), header.pixel_bytes()),
            )
        }),
    ensures
        parse_png(encode_file(chunks)) == Ok::<ImageModel, PngError>(
            ImageModel { data: pixels, ..interpret_file(chunks)->Ok_0 },
        ),
{
    let stream = interpret_file(chunks)->Ok_0;
    let header = stream.header;
    let lines = filtered(filters, pixels, header.stride(), header.pixel_bytes());
    law_file_round_trip(chunks);
    law_stored_round_trip(lines);
    law_unfilter_undoes_filter(header, filters, pixels);
}

/// The shortest file of an image: its header, one chunk of data, and the end.
pub open spec fn plain_file(header: IHDRChunk, filters: Seq<u8>, pixels: Seq<u8>) -> Seq<u8> {
    let lines = filtered(filters, pixels, header.stride(), header.pixel_bytes());
    encode_file(
        seq![
            ChunkModel { kind: IHDR, data: header_bytes(header) },
            ChunkModel { kind: IDAT, data: stored_zlib(lines) },
            ChunkModel { kind: IEND, data: Seq::empty() },
        ],
    )
}

/// Every image that fits in one chunk can be written to a file from which it is read
/// back.
pub proof fn law_plain_file_round_trip(header: IHDRChunk, filters: Seq<u8>, pixels: Seq<u8>)
    requires
        header.valid(),
        header.scanline_fits(),
        filters.len() == header.height,
        forall|row: int| 0 <= row < filters.len() ==> #[trigger] filters[row] <= 4,
        pixels.len() == header.height * header.stride(),
        stored_zlib(filtered(filters, pixels, header.stride(), header.pixel_bytes())).len()
            <= u32::MAX,
    ensures
        parse_png(plain_file(header, filters, pixels)) == Ok::<ImageModel, PngError>(
            ImageModel { header, palette: None, gamma: None, sbit: None, data: pixels },
        ),
{
    let data = stored_zlib(filtered(filters, pixels, header.stride(), header.pixel_bytes()));
    let first = ChunkModel { kind: IHDR, data: header_bytes(header) };
    let second = ChunkModel { kind: IDAT, data };
    let third = ChunkModel { kind: IEND, data: Seq::empty() };
    let chunks = seq![first, second, third];
    law_header_round_trip(header);
    lemma_plain_chunks(header, data);
    law_image_round_trip(chunks, filters, pixels);
}

proof fn lemma_plain_chunks(header: IHDRChunk, data: Seq<u8>)
    requires
        parse_header(header_bytes(header)).0 == Ok::<IHDRChunk, PngError>(header),
        data.len() <= u32::MAX,
    ensures
        ({
            let chunks = seq![
                ChunkModel { kind: IHDR, data: header_bytes(header) },
                ChunkModel { kind: IDAT, data },
                ChunkModel { kind: IEND, data: Seq::empty() },
            ];
            &&& all_storable(chunks)
            &&& interpret_file(chunks) == Ok::<ImageModel, PngError>(
                ImageModel { header, palette: None, gamma: None, sbit: None, data },
            )
        }),
{
    let first = ChunkModel { kind: IHDR, data: header_bytes(header) };
    let second = ChunkModel { kind: IDAT, data };
    let third = ChunkModel { kind: IEND, data: Seq::empty() };
    let chunks = seq![first, second, third];
    let start = only_header(header);
    let next = ImageModel { data: start.data + data, ..start };
    assert(chunks.drop_first() =~= seq![second, third]);
    assert(seq![second, third].drop_first() =~= seq![third]);
    assert(start.data + data =~= data);
    assert(IDAT@[0] != GAMA@[0] && IDAT@[0] != SBIT@[0] && IDAT@[0] != PLTE@[0] && IDAT@[1]
        != IHDR@[1]);
    assert(IEND@[0] != GAMA@[0] && IEND@[0] != SBIT@[0] && IEND@[0] != PLTE@[0] && IEND@[1]
        != IHDR@[1] && IEND@[1] != IDAT@[1]);
    assert(apply_chunk(start, IDAT, data) == Ok::<Option<ImageModel>, PngError>(Some(next)));
    assert(apply_chunk(next, IEND, Seq::empty()) == Ok::<Option<ImageModel>, PngError>(None));
    assert(interpret(next, seq![third]) == Ok::<ImageModel, PngError>(next));
    assert(storable(first) && storable(second) && storable(third));
}

} // verus!
