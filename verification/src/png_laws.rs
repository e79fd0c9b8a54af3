//! What is read from a whole file.

use vstd::prelude::*;
use crate::description_laws::{describes, is_whole, law_accepted_chunks};
use crate::error::PngError;
use crate::filter_laws::{
    is_undone, law_filters_are_undone, line_bytes, line_can_be_counted, line_filter,
};
use crate::header::IHDRChunk;
use crate::inflate_laws::{with_blocks, Block};
use crate::png::{decode_image, parse_png, Png};
use crate::stream::{parse_stream, ImageModel, ImageStream};
use crate::stream_laws::{
    all_storable, encode_file, image_data, interpret_file, law_accepted_is_a_file,
    law_file_round_trip, ChunkModel,
};
use crate::zlib::parse_zlib;
use crate::zlib_laws::{is_stream, law_stream_is_read};

verus! {

/// Whether the image is the one that the chunks describe, but for its data, which are
/// decoded.
pub open spec fn tells_of(chunks: Seq<ChunkModel>, image: ImageModel) -> bool {
    describes(
        chunks,
        chunks.len() as int,
        ImageModel { data: image_data(chunks), ..image },
    )
}

/// A file is read: where its chunks make up a whole file, where their image data are a
/// compressed stream, and where the decompressed lines are those of the header's size,
/// each with one of the five filters, the image has all that the chunks tell, and the
/// bytes of which filtering leaves those lines.
pub proof fn law_file_is_read(chunks: Seq<ChunkModel>, header: IHDRChunk, blocks: Seq<Block>)
    requires
        all_storable(chunks),
        is_whole(chunks, header),
        is_stream(image_data(chunks), blocks),
        line_can_be_counted(header),
        with_blocks(Seq::empty(), blocks).len() == header.height * (line_bytes(header) + 1),
        forall|row: int|
            0 <= row < header.height ==> #[trigger] line_filter(
                header,
                with_blocks(Seq::empty(), blocks),
                row,
            ) <= 4,
    ensures
        parse_png(encode_file(chunks)) matches Ok(image) && image.header == header && tells_of(
            chunks,
            image,
        ) && is_undone(header, with_blocks(Seq::empty(), blocks), image.data),
{
    let lines = with_blocks(Seq::empty(), blocks);
    law_file_round_trip(chunks);
    law_accepted_chunks(chunks);
    let stream = interpret_file(chunks)->Ok_0;
    lemma_same_header(chunks, header, stream.header);
    assert(chunks.take(chunks.len() as int) =~= chunks);
    law_stream_is_read(stream.data, blocks);
    law_filters_are_undone(header, lines);
    let image = decode_image(stream)->Ok_0;
    assert((ImageModel { data: image_data(chunks), ..image }) == stream);
}

/// A header is told by its bytes.
proof fn lemma_same_header(chunks: Seq<ChunkModel>, a: IHDRChunk, b: IHDRChunk)
    requires
        is_whole(chunks, a),
        is_whole(chunks, b),
    ensures
        a == b,
{
}

/// Only files are read: what is accepted are the bytes of chunks that make up a whole
/// file; the image has all that they tell; and its bytes are those that the filters of
/// the decompressed lines leave.
pub proof fn law_only_files_are_read(bytes: Seq<u8>)
    ensures
        parse_png(bytes) matches Ok(image) ==> exists|chunks: Seq<ChunkModel>|
            {
                &&& all_storable(chunks)
                &&& bytes == #[trigger] encode_file(chunks)
                &&& is_whole(chunks, image.header)
                &&& tells_of(chunks, image)
                &&& parse_zlib(image_data(chunks)) is Ok
                &&& is_undone(
                    image.header,
                    parse_zlib(image_data(chunks))->Ok_0.0,
                    image.data,
                )
            },
{
    if let Ok(image) = parse_png(bytes) {
        law_accepted_is_a_file(bytes);
        let stream = parse_stream(bytes)->Ok_0;
        let chunks = choose|chunks: Seq<ChunkModel>|
            {
                &&& all_storable(chunks)
                &&& bytes == #[trigger] encode_file(chunks)
                &&& interpret_file(chunks) == parse_stream(bytes)
            };
        law_accepted_chunks(chunks);
        assert(chunks.take(chunks.len() as int) =~= chunks);
        crate::content_laws::law_header_is_read(chunks[0].data, image.header);
        law_filters_are_undone(image.header, parse_zlib(stream.data)->Ok_0.0);
        assert((ImageModel { data: image_data(chunks), ..image }) == stream);
        assert(bytes == encode_file(chunks));
    }
}

/// The first thing that fails decides: the chunks, then the compressed data, then the
/// lines.
pub proof fn law_first_failure_decides(bytes: Seq<u8>)
    ensures
        parse_stream(bytes) matches Err(e) ==> parse_png(bytes) == Err::<ImageModel, PngError>(e),
        parse_stream(bytes) matches Ok(stream) ==> {
            &&& parse_zlib(stream.data) matches Err(e) ==> parse_png(bytes) == Err::<
                ImageModel,
                PngError,
            >(PngError::Decompression(e))
            &&& parse_zlib(stream.data) matches Ok((lines, _)) ==> {
                &&& !line_can_be_counted(stream.header) ==> parse_png(bytes) == Err::<
                    ImageModel,
                    PngError,
                >(PngError::ScanlineTooLong)
                &&& line_can_be_counted(stream.header) && lines.len() != stream.header.height * (
                line_bytes(stream.header) + 1) ==> parse_png(bytes) == Err::<ImageModel, PngError>(
                    PngError::DataLength,
                )
            }
        },
{
    if let Ok(stream) = parse_stream(bytes) {
        law_accepted_is_a_file(bytes);
        let chunks = choose|chunks: Seq<ChunkModel>|
            {
                &&& all_storable(chunks)
                &&& bytes == #[trigger] encode_file(chunks)
                &&& interpret_file(chunks) == parse_stream(bytes)
            };
        law_accepted_chunks(chunks);
        crate::content_laws::law_header_is_read(chunks[0].data, stream.header);
        if let Ok((lines, _)) = parse_zlib(stream.data) {
            law_filters_are_undone(stream.header, lines);
        }
    }
}

/// The model of an image, and of the chunks of one, keeps every field, with all colors of
/// the palette and all bytes of the data.
pub proof fn law_models_keep_everything(png: Png, stream: ImageStream)
    ensures
        png@.header == png.header && stream@.header == stream.header,
        png@.gamma == png.gamma && stream@.gamma == stream.gamma,
        png@.sbit == png.sbit && stream@.sbit == stream.sbit,
        png@.data == png.data@ && stream@.data == stream.data@,
        match png.palette {
            Some(palette) => png@.palette == Some(palette.palettes@),
            None => png@.palette is None,
        },
        match stream.palette {
            Some(palette) => stream@.palette == Some(palette.palettes@),
            None => stream@.palette is None,
        },
{
}

} // verus!
