//! What the chunks of a file say of the image, and which files are accepted.

use vstd::prelude::*;
use crate::checksum_laws::{law_big_endian_digits, number_at};
use crate::chunk::{encode_chunk, law_chunk_round_trip, parse_chunk};
use crate::content_laws::{
    bytes_of_sbit, is_header, is_palette, is_sbit, law_header_is_read, law_palette_contents,
    law_sbit_contents,
};
use crate::error::PngError;
use crate::header::{parse_header, ColorType, IHDRChunk};
use crate::stream::{
    apply_chunk, only_header, parse_chunks, parse_stream, ImageModel, GAMA, IDAT, IEND, IHDR, PLTE,
    SBIT, SIGNATURE,
};
use crate::stream_laws::{
    all_storable, encode_chunks, encode_file, image_data, interpret, interpret_file,
    law_file_round_trip, storable, ChunkModel,
};

verus! {

/// Whether a chunk of type `kind` stands between the header and chunk `i`.
pub open spec fn earlier(chunks: Seq<ChunkModel>, i: int, kind: [u8; 4]) -> bool {
    exists|j: int| 1 <= j < i && (#[trigger] chunks[j]).kind == kind
}

/// Whether image data stands before chunk `i`.
pub open spec fn data_earlier(chunks: Seq<ChunkModel>, i: int) -> bool {
    exists|j: int| 1 <= j < i && (#[trigger] chunks[j]).kind == IDAT && chunks[j].data.len() > 0
}

/// What is wrong with chunk `i`, which stands behind the header of an image of this
/// color type.
pub open spec fn fault(chunks: Seq<ChunkModel>, i: int, color_type: ColorType) -> Option<PngError> {
    let kind = chunks[i].kind;
    let length = chunks[i].data.len();
    if kind == IDAT || kind == IEND {
        None
    } else if kind == IHDR {
        Some(PngError::DuplicateHeader)
    } else if kind == PLTE {
        if earlier(chunks, i, PLTE) {
            Some(PngError::DuplicatePalette)
        } else if length % 3 != 0 {
            Some(PngError::PaletteLength)
        } else {
            None
        }
    } else if kind == GAMA {
        if earlier(chunks, i, PLTE) {
            Some(PngError::GammaAfterPalette)
        } else if data_earlier(chunks, i) {
            Some(PngError::GammaAfterData)
        } else if length < 4 {
            Some(PngError::UnexpectedEof)
        } else {
            None
        }
    } else if kind == SBIT {
        if earlier(chunks, i, PLTE) {
            Some(PngError::SbitAfterPalette)
        } else if data_earlier(chunks, i) {
            Some(PngError::SbitAfterData)
        } else if length != bytes_of_sbit(color_type) {
            Some(PngError::SbitLength(color_type))
        } else {
            None
        }
    } else {
        Some(PngError::UnknownChunk(kind))
    }
}

/// Whether the image goes on behind chunk `i`.
pub open spec fn goes_on(chunks: Seq<ChunkModel>, i: int, color_type: ColorType) -> bool {
    chunks[i].kind != IEND && fault(chunks, i, color_type) is None
}

/// Whether no chunk of the type of chunk `j` stands behind it and before chunk `n`.
pub open spec fn is_last_of_its_type(chunks: Seq<ChunkModel>, j: int, n: int) -> bool {
    forall|l: int| j < l < n ==> (#[trigger] chunks[l]).kind != chunks[j].kind
}

/// Whether the image is the one that the chunks before chunk `n` describe: header and
/// palette are those of their chunks, with all colors of the palette; gamma and
/// significant bits are those of the last chunk of their type; what no chunk tells is
/// absent; and the data are the contents of all IDAT chunks.
pub open spec fn describes(chunks: Seq<ChunkModel>, n: int, image: ImageModel) -> bool {
    &&& is_header(chunks[0].data, image.header)
    &&& image.palette is Some <==> earlier(chunks, n, PLTE)
    &&& forall|j: int|
        1 <= j < n && (#[trigger] chunks[j]).kind == PLTE ==> {
            &&& image.palette matches Some(colors)
            &&& 3 * colors.len() == chunks[j].data.len()
            &&& is_palette(chunks[j].data, colors)
        }
    &&& image.gamma is Some <==> earlier(chunks, n, GAMA)
    &&& forall|j: int|
        1 <= j < n && (#[trigger] chunks[j]).kind == GAMA && is_last_of_its_type(chunks, j, n)
            ==> {
            &&& image.gamma matches Some(gamma)
            &&& gamma == number_at(chunks[j].data, 0)
        }
    &&& image.sbit is Some <==> earlier(chunks, n, SBIT)
    &&& forall|j: int|
        1 <= j < n && (#[trigger] chunks[j]).kind == SBIT && is_last_of_its_type(chunks, j, n)
            ==> {
            &&& image.sbit matches Some(sbit)
            &&& is_sbit(chunks[j].data, image.header.color_type, sbit)
        }
    &&& image.data == image_data(chunks.take(n))
}

/// The types of the chunks are told apart by their first two letters.
proof fn lemma_types_differ()
    ensures
        IHDR != GAMA && IHDR != SBIT && IHDR != PLTE && IHDR != IDAT && IHDR != IEND,
        GAMA != SBIT && GAMA != PLTE && GAMA != IDAT && GAMA != IEND,
        SBIT != PLTE && SBIT != IDAT && SBIT != IEND,
        PLTE != IDAT && PLTE != IEND,
        IDAT != IEND,
{
    assert(IHDR@[0] != GAMA@[0] && IHDR@[0] != SBIT@[0] && IHDR@[0] != PLTE@[0] && IHDR@[1]
        != IDAT@[1] && IHDR@[1] != IEND@[1]);
    assert(GAMA@[0] != SBIT@[0] && GAMA@[0] != PLTE@[0] && GAMA@[0] != IDAT@[0] && GAMA@[0]
        != IEND@[0]);
    assert(SBIT@[0] != PLTE@[0] && SBIT@[0] != IDAT@[0] && SBIT@[0] != IEND@[0]);
    assert(PLTE@[0] != IDAT@[0] && PLTE@[0] != IEND@[0] && IDAT@[1] != IEND@[1]);
}

proof fn lemma_image_data_push(chunks: Seq<ChunkModel>, chunk: ChunkModel)
    ensures
        image_data(chunks.push(chunk)) == image_data(chunks) + (if chunk.kind == IDAT {
            chunk.data
        } else {
            Seq::empty()
        }),
    decreases chunks.len(),
{
    if chunks.len() == 0 {
        reveal_with_fuel(image_data, 2);
        assert(chunks.push(chunk).drop_first() =~= Seq::empty());
        assert(image_data(chunks.push(chunk)) =~= image_data(chunks) + (if chunk.kind == IDAT {
            chunk.data
        } else {
            Seq::empty()
        }));
    } else {
        assert(chunks.push(chunk).drop_first() =~= chunks.drop_first().push(chunk));
        lemma_image_data_push(chunks.drop_first(), chunk);
        assert(image_data(chunks.push(chunk)) =~= image_data(chunks) + (if chunk.kind == IDAT {
            chunk.data
        } else {
            Seq::empty()
        }));
    }
}

proof fn lemma_data_so_far(chunks: Seq<ChunkModel>, n: int)
    requires
        1 <= n <= chunks.len(),
        chunks[0].kind == IHDR,
    ensures
        image_data(chunks.take(n)).len() > 0 <==> data_earlier(chunks, n),
    decreases n,
{
    lemma_types_differ();
    if n == 1 {
        reveal_with_fuel(image_data, 2);
        assert(chunks.take(1).drop_first() =~= Seq::empty());
    } else {
        lemma_data_so_far(chunks, n - 1);
        assert(chunks.take(n) =~= chunks.take(n - 1).push(chunks[n - 1]));
        lemma_image_data_push(chunks.take(n - 1), chunks[n - 1]);
        if data_earlier(chunks, n - 1) {
            let j = choose|j: int|
                1 <= j < n - 1 && (#[trigger] chunks[j]).kind == IDAT && chunks[j].data.len() > 0;
            assert(1 <= j < n);
        }
    }
}

/// What a chunk without a fault does to the image so far.
proof fn lemma_described_step(chunks: Seq<ChunkModel>, n: int, image: ImageModel)
    requires
        1 <= n < chunks.len(),
        chunks[0].kind == IHDR,
        describes(chunks, n, image),
    ensures
        match apply_chunk(image, chunks[n].kind, chunks[n].data) {
            Ok(Some(next)) => {
                &&& goes_on(chunks, n, image.header.color_type)
                &&& next.header == image.header
                &&& describes(chunks, n + 1, next)
            },
            Ok(None) => chunks[n].kind == IEND && describes(chunks, n + 1, image),
            Err(e) => fault(chunks, n, image.header.color_type) == Some(e),
        },
{
    lemma_types_differ();
    lemma_data_so_far(chunks, n);
    let kind = chunks[n].kind;
    let data = chunks[n].data;
    law_palette_contents(data, data.len());
    law_sbit_contents(data, data.len(), image.header.color_type);
    law_big_endian_digits(data, 0);
    assert(chunks.take(n + 1) =~= chunks.take(n).push(chunks[n]));
    lemma_image_data_push(chunks.take(n), chunks[n]);
    assert(image.data + Seq::<u8>::empty() =~= image.data);
    lemma_earlier_step(chunks, n, PLTE);
    lemma_earlier_step(chunks, n, GAMA);
    lemma_earlier_step(chunks, n, SBIT);
    assert forall|j: int|
        1 <= j < n && is_last_of_its_type(chunks, j, n + 1) implies is_last_of_its_type(
        chunks,
        j,
        n,
    ) && (#[trigger] chunks[j]).kind != kind by {
        assert(chunks[n].kind != chunks[j].kind);
    }
}

proof fn lemma_earlier_step(chunks: Seq<ChunkModel>, n: int, kind: [u8; 4])
    requires
        1 <= n < chunks.len(),
    ensures
        earlier(chunks, n + 1, kind) <==> earlier(chunks, n, kind) || chunks[n].kind == kind,
{
    if earlier(chunks, n, kind) {
        let j = choose|j: int| 1 <= j < n && (#[trigger] chunks[j]).kind == kind;
        assert(1 <= j < n + 1);
    }
    if earlier(chunks, n + 1, kind) {
        let j = choose|j: int| 1 <= j < n + 1 && (#[trigger] chunks[j]).kind == kind;
        assert(j < n || j == n);
    }
}

/// The image so far, where the image goes on behind all chunks before chunk `n`.
proof fn lemma_described(chunks: Seq<ChunkModel>, header: IHDRChunk, n: int) -> (image: ImageModel)
    requires
        1 <= n <= chunks.len(),
        chunks[0].kind == IHDR,
        is_header(chunks[0].data, header),
        forall|j: int| 1 <= j < n ==> #[trigger] goes_on(chunks, j, header.color_type),
    ensures
        image.header == header,
        describes(chunks, n, image),
        interpret_file(chunks) == interpret(image, chunks.skip(n)),
    decreases n,
{
    lemma_types_differ();
    law_header_is_read(chunks[0].data, header);
    if n == 1 {
        let image = only_header(header);
        reveal_with_fuel(image_data, 2);
        assert(chunks.skip(1) =~= chunks.drop_first());
        assert(chunks.take(1).drop_first() =~= Seq::empty());
        assert(image_data(chunks.take(1)) =~= Seq::empty());
        image
    } else {
        let m = n - 1;
        let before = lemma_described(chunks, header, m);
        lemma_described_step(chunks, m, before);
        assert(goes_on(chunks, m, header.color_type));
        let rest = chunks.skip(m);
        assert(rest[0] == chunks[m]);
        assert(rest.drop_first() =~= chunks.skip(n));
        match apply_chunk(before, chunks[m].kind, chunks[m].data) {
            Ok(Some(next)) => next,
            _ => before,
        }
    }
}

/// What the first chunk behind which the image does not go on decides: its fault is that
/// of the file, and where it is the end of the image, nothing may follow, and the image is
/// the one that the chunks describe.
pub proof fn law_first_stop_decides(chunks: Seq<ChunkModel>, header: IHDRChunk, n: int)
    requires
        1 <= n < chunks.len(),
        chunks[0].kind == IHDR,
        is_header(chunks[0].data, header),
        forall|j: int| 1 <= j < n ==> #[trigger] goes_on(chunks, j, header.color_type),
        !goes_on(chunks, n, header.color_type),
    ensures
        fault(chunks, n, header.color_type) matches Some(e) ==> interpret_file(chunks) == Err::<
            ImageModel,
            PngError,
        >(e),
        fault(chunks, n, header.color_type) is None && n < chunks.len() - 1 ==> interpret_file(
            chunks,
        ) == Err::<ImageModel, PngError>(PngError::TrailingData),
        fault(chunks, n, header.color_type) is None && n == chunks.len() - 1 ==> {
            &&& interpret_file(chunks) matches Ok(image)
            &&& image.header == header
            &&& describes(chunks, chunks.len() as int, image)
        },
{
    let image = lemma_described(chunks, header, n);
    lemma_described_step(chunks, n, image);
    let rest = chunks.skip(n);
    assert(rest[0] == chunks[n]);
    lemma_types_differ();
}

/// Chunks behind all of which the image goes on make up no whole file.
pub proof fn law_end_is_missed(chunks: Seq<ChunkModel>, header: IHDRChunk)
    requires
        1 <= chunks.len(),
        chunks[0].kind == IHDR,
        is_header(chunks[0].data, header),
        forall|j: int|
            1 <= j < chunks.len() ==> #[trigger] goes_on(chunks, j, header.color_type),
    ensures
        interpret_file(chunks) == Err::<ImageModel, PngError>(PngError::UnexpectedEof),
{
    let image = lemma_described(chunks, header, chunks.len() as int);
    assert(chunks.skip(chunks.len() as int).len() == 0);
}

/// Whether chunks make up a file: a header first, the end last, and between them chunks
/// without a fault.
pub open spec fn is_whole(chunks: Seq<ChunkModel>, header: IHDRChunk) -> bool {
    &&& chunks.len() >= 2
    &&& chunks[0].kind == IHDR
    &&& is_header(chunks[0].data, header)
    &&& chunks.last().kind == IEND
    &&& forall|j: int|
        1 <= j < chunks.len() - 1 ==> #[trigger] goes_on(chunks, j, header.color_type)
}

proof fn lemma_find_stop(chunks: Seq<ChunkModel>, header: IHDRChunk, n: int)
    requires
        1 <= n <= chunks.len(),
        chunks[0].kind == IHDR,
        is_header(chunks[0].data, header),
        interpret_file(chunks) is Ok,
        forall|j: int| 1 <= j < n ==> #[trigger] goes_on(chunks, j, header.color_type),
    ensures
        is_whole(chunks, header),
    decreases chunks.len() - n,
{
    if n == chunks.len() {
        law_end_is_missed(chunks, header);
    } else if goes_on(chunks, n, header.color_type) {
        lemma_find_stop(chunks, header, n + 1);
    } else {
        law_first_stop_decides(chunks, header, n);
    }
}

/// Exactly the chunks that make up a file are accepted, and the image is the one that they
/// describe.
pub proof fn law_accepted_chunks(chunks: Seq<ChunkModel>)
    ensures
        interpret_file(chunks) matches Ok(image) ==> {
            &&& is_whole(chunks, image.header)
            &&& describes(chunks, chunks.len() as int, image)
        },
        forall|header: IHDRChunk| #[trigger]
            is_whole(chunks, header) ==> interpret_file(chunks) is Ok,
{
    if let Ok(image) = interpret_file(chunks) {
        let header = parse_header(chunks[0].data).0->Ok_0;
        law_header_is_read(chunks[0].data, header);
        lemma_find_stop(chunks, header, 1);
        lemma_last_stops(chunks, header);
        law_first_stop_decides(chunks, header, chunks.len() - 1);
    }
    assert forall|header: IHDRChunk| #[trigger] is_whole(chunks, header) implies interpret_file(
        chunks,
    ) is Ok by {
        lemma_last_stops(chunks, header);
        law_first_stop_decides(chunks, header, chunks.len() - 1);
    }
}

proof fn lemma_last_stops(chunks: Seq<ChunkModel>, header: IHDRChunk)
    requires
        is_whole(chunks, header),
    ensures
        !goes_on(chunks, chunks.len() - 1, header.color_type),
        fault(chunks, chunks.len() - 1, header.color_type) is None,
{
    lemma_types_differ();
}

/// A palette chunk gives the image its colors: as many as it has triples of bytes, each at
/// its index. Without one the image has no palette.
pub proof fn law_palette_of_a_file(chunks: Seq<ChunkModel>, i: int)
    requires
        all_storable(chunks),
        parse_stream(encode_file(chunks)) is Ok,
    ensures
        ({
            let image = parse_stream(encode_file(chunks))->Ok_0;
            &&& 0 <= i < chunks.len() && chunks[i].kind == PLTE ==> {
                &&& image.palette matches Some(colors)
                &&& 3 * colors.len() == chunks[i].data.len()
                &&& forall|k: int|
                    0 <= k < colors.len() ==> {
                        &&& (#[trigger] colors[k]).r == chunks[i].data[3 * k]
                        &&& colors[k].g == chunks[i].data[3 * k + 1]
                        &&& colors[k].b == chunks[i].data[3 * k + 2]
                    }
            }
            &&& (forall|j: int| 0 <= j < chunks.len() ==> (#[trigger] chunks[j]).kind != PLTE)
                ==> image.palette is None
        }),
{
    law_file_round_trip(chunks);
    law_accepted_chunks(chunks);
    lemma_types_differ();
}

/// What stands in the place of the first eight bytes of a file decides first.
pub proof fn law_signature(s: Seq<u8>)
    ensures
        s.len() < 8 ==> parse_stream(s) == Err::<ImageModel, PngError>(PngError::UnexpectedEof),
        s.len() >= 8 && !(s[0] == 0x89 && s[1] == 'P' as u8 && s[2] == 'N' as u8 && s[3]
            == 'G' as u8 && s[4] == 13 && s[5] == 10 && s[6] == 26 && s[7] == 10) ==> parse_stream(s)
            == Err::<ImageModel, PngError>(PngError::InvalidSignature),
        parse_stream(s) == Err::<ImageModel, PngError>(PngError::InvalidSignature) ==> s.len() >= 8
            && s.take(8) != seq![137u8, 80, 78, 71, 13, 10, 26, 10],
{
    let t = s.take(8);
    assert(SIGNATURE@ =~= seq![137u8, 80, 78, 71, 13, 10, 26, 10]);
    if s.len() >= 8 && t == SIGNATURE@ {
        assert(t[0] == s[0] && t[1] == s[1] && t[2] == s[2] && t[3] == s[3] && t[4] == s[4] && t[5]
            == s[5] && t[6] == s[6] && t[7] == s[7]);
        lemma_no_signature_fault(s);
    }
}

proof fn lemma_chunks_no_signature_fault(image: ImageModel, s: Seq<u8>)
    ensures
        parse_chunks(image, s) != Err::<ImageModel, PngError>(PngError::InvalidSignature),
    decreases s.len(),
{
    let (parsed, rest) = parse_chunk(s);
    if let Ok((kind, data)) = parsed {
        law_palette_contents(data, data.len());
        law_sbit_contents(data, data.len(), image.header.color_type);
        if let Ok(Some(next)) = apply_chunk(image, kind, data) {
            lemma_chunks_no_signature_fault(next, rest);
        }
    }
}

proof fn lemma_no_signature_fault(s: Seq<u8>)
    requires
        s.len() >= 8,
        s.take(8) == SIGNATURE@,
    ensures
        parse_stream(s) != Err::<ImageModel, PngError>(PngError::InvalidSignature),
{
    let (parsed, rest) = parse_chunk(s.skip(8));
    if let Ok((kind, data)) = parsed {
        if let Ok(header) = parse_header(data).0 {
            lemma_chunks_no_signature_fault(only_header(header), rest);
        }
    }
}

/// A chunk that is cut short is missed.
pub proof fn law_cut_chunk(chunk_type: [u8; 4], data: Seq<u8>, n: int)
    requires
        crate::chunk::all_letters(chunk_type@),
        data.len() <= u32::MAX,
        0 <= n < encode_chunk(chunk_type@, data).len(),
    ensures
        parse_chunk(encode_chunk(chunk_type@, data).take(n)).0 == Err::<
            ([u8; 4], Seq<u8>),
            PngError,
        >(PngError::UnexpectedEof),
{
    let whole = encode_chunk(chunk_type@, data);
    let s = whole.take(n);
    if n >= 8 {
        law_chunk_round_trip(chunk_type, data, Seq::empty());
        assert(whole + Seq::<u8>::empty() =~= whole);
        assert(s.subrange(4, 8) =~= whole.subrange(4, 8));
        assert(crate::reader::be_u32(s) == crate::reader::be_u32(whole));
    }
}

proof fn lemma_cut_chunks(image: ImageModel, chunks: Seq<ChunkModel>, n: int)
    requires
        all_storable(chunks),
        interpret(image, chunks) is Ok,
        0 <= n < encode_chunks(chunks).len(),
    ensures
        parse_chunks(image, encode_chunks(chunks).take(n)) == Err::<ImageModel, PngError>(
            PngError::UnexpectedEof,
        ),
    decreases chunks.len(),
{
    let first = encode_chunk(chunks[0].kind@, chunks[0].data);
    let rest = chunks.drop_first();
    let s = encode_chunks(chunks).take(n);
    assert(storable(chunks[0]));
    assert(all_storable(rest)) by {
        assert forall|i: int| 0 <= i < rest.len() implies storable(#[trigger] rest[i]) by {
            assert(rest[i] == chunks[i + 1]);
        }
    }
    if n < first.len() {
        assert(s =~= first.take(n));
        law_cut_chunk(chunks[0].kind, chunks[0].data, n);
    } else {
        let m = n - first.len();
        assert(s =~= first + encode_chunks(rest).take(m));
        law_chunk_round_trip(chunks[0].kind, chunks[0].data, encode_chunks(rest).take(m));
        if let Ok(Some(next)) = apply_chunk(image, chunks[0].kind, chunks[0].data) {
            lemma_cut_chunks(next, rest, m);
        }
    }
}

/// A file that is cut short anywhere is missed the rest of.
pub proof fn law_cut_file(chunks: Seq<ChunkModel>, n: int)
    requires
        all_storable(chunks),
        interpret_file(chunks) is Ok,
        0 <= n < encode_file(chunks).len(),
    ensures
        parse_stream(encode_file(chunks).take(n)) == Err::<ImageModel, PngError>(
            PngError::UnexpectedEof,
        ),
{
    let s = encode_file(chunks).take(n);
    if n >= 8 {
        let first = encode_chunk(chunks[0].kind@, chunks[0].data);
        let rest = chunks.drop_first();
        assert(s.take(8) =~= SIGNATURE@);
        assert(s.skip(8) =~= encode_chunks(chunks).take(n - 8));
        assert(storable(chunks[0]));
        assert(all_storable(rest)) by {
            assert forall|i: int| 0 <= i < rest.len() implies storable(#[trigger] rest[i]) by {
                assert(rest[i] == chunks[i + 1]);
            }
        }
        if n - 8 < first.len() {
            assert(s.skip(8) =~= first.take(n - 8));
            law_cut_chunk(chunks[0].kind, chunks[0].data, n - 8);
        } else {
            let m = n - 8 - first.len();
            assert(s.skip(8) =~= first + encode_chunks(rest).take(m));
            law_chunk_round_trip(chunks[0].kind, chunks[0].data, encode_chunks(rest).take(m));
            let header = parse_header(chunks[0].data).0->Ok_0;
            lemma_cut_chunks(only_header(header), rest, m);
        }
    }
}

proof fn lemma_bytes_behind(image: ImageModel, chunks: Seq<ChunkModel>, more: Seq<u8>)
    requires
        all_storable(chunks),
        interpret(image, chunks) is Ok,
        more.len() > 0,
    ensures
        parse_chunks(image, encode_chunks(chunks) + more) == Err::<ImageModel, PngError>(
            PngError::TrailingData,
        ),
    decreases chunks.len(),
{
    let first = encode_chunk(chunks[0].kind@, chunks[0].data);
    let rest = chunks.drop_first();
    assert(storable(chunks[0]));
    assert(all_storable(rest)) by {
        assert forall|i: int| 0 <= i < rest.len() implies storable(#[trigger] rest[i]) by {
            assert(rest[i] == chunks[i + 1]);
        }
    }
    assert(encode_chunks(chunks) + more =~= first + (encode_chunks(rest) + more));
    law_chunk_round_trip(chunks[0].kind, chunks[0].data, encode_chunks(rest) + more);
    if let Ok(Some(next)) = apply_chunk(image, chunks[0].kind, chunks[0].data) {
        lemma_bytes_behind(next, rest, more);
    }
}

/// A file with bytes behind its end is turned down.
pub proof fn law_bytes_behind_the_end(chunks: Seq<ChunkModel>, more: Seq<u8>)
    requires
        all_storable(chunks),
        interpret_file(chunks) is Ok,
        more.len() > 0,
    ensures
        parse_stream(encode_file(chunks) + more) == Err::<ImageModel, PngError>(
            PngError::TrailingData,
        ),
{
    let s = encode_file(chunks) + more;
    let first = encode_chunk(chunks[0].kind@, chunks[0].data);
    let rest = chunks.drop_first();
    assert(s.take(8) =~= SIGNATURE@);
    assert(s.skip(8) =~= first + (encode_chunks(rest) + more));
    assert(storable(chunks[0]));
    assert(all_storable(rest)) by {
        assert forall|i: int| 0 <= i < rest.len() implies storable(#[trigger] rest[i]) by {
            assert(rest[i] == chunks[i + 1]);
        }
    }
    law_chunk_round_trip(chunks[0].kind, chunks[0].data, encode_chunks(rest) + more);
    let header = parse_header(chunks[0].data).0->Ok_0;
    lemma_bytes_behind(only_header(header), rest, more);
}

proof fn lemma_encode_push(chunks: Seq<ChunkModel>, chunk: ChunkModel)
    ensures
        encode_chunks(chunks.push(chunk)) == encode_chunks(chunks) + encode_chunk(
            chunk.kind@,
            chunk.data,
        ),
    decreases chunks.len(),
{
    let last = encode_chunk(chunk.kind@, chunk.data);
    let all = chunks.push(chunk);
    if chunks.len() == 0 {
        assert(all.drop_first() =~= Seq::empty());
        assert(encode_chunks(all.drop_first()) =~= Seq::<u8>::empty());
        assert(encode_chunks(all) =~= encode_chunks(chunks) + last);
    } else {
        assert(all.drop_first() =~= chunks.drop_first().push(chunk));
        lemma_encode_push(chunks.drop_first(), chunk);
        assert(encode_chunks(all) =~= encode_chunks(chunks) + last);
    }
}

/// The image so far, and what is still to be read, where the image goes on behind the
/// first `n` chunks.
proof fn lemma_read_so_far(
    chunks: Seq<ChunkModel>,
    header: IHDRChunk,
    n: int,
    more: Seq<u8>,
) -> (image: ImageModel)
    requires
        all_storable(chunks),
        1 <= n <= chunks.len(),
        chunks[0].kind == IHDR,
        is_header(chunks[0].data, header),
        forall|j: int| 1 <= j < n ==> #[trigger] goes_on(chunks, j, header.color_type),
    ensures
        image.header == header,
        describes(chunks, n, image),
        parse_stream(encode_file(chunks.take(n)) + more) == parse_chunks(image, more),
    decreases n,
{
    let m = n - 1;
    let chunk = chunks[m];
    let bytes = encode_chunk(chunk.kind@, chunk.data);
    assert(storable(chunk));
    lemma_encoded_so_far(chunks, m, more);
    if n == 1 {
        assert(chunks.take(0) =~= Seq::empty());
        assert(encode_file(chunks.take(0)) =~= SIGNATURE@);
        lemma_header_first(chunk, header, more);
        lemma_only_header_is_described(chunks, header);
        only_header(header)
    } else {
        let before = lemma_read_so_far(chunks, header, m, bytes + more);
        lemma_described_step(chunks, m, before);
        assert(goes_on(chunks, m, header.color_type));
        lemma_chunk_first(before, chunk, more);
        match apply_chunk(before, chunk.kind, chunk.data) {
            Ok(Some(next)) => next,
            _ => before,
        }
    }
}

/// The bytes of one chunk more.
proof fn lemma_encoded_so_far(chunks: Seq<ChunkModel>, m: int, more: Seq<u8>)
    requires
        0 <= m < chunks.len(),
    ensures
        encode_file(chunks.take(m + 1)) + more == encode_file(chunks.take(m)) + (encode_chunk(
            chunks[m].kind@,
            chunks[m].data,
        ) + more),
{
    assert(chunks.take(m + 1) =~= chunks.take(m).push(chunks[m]));
    lemma_encode_push(chunks.take(m), chunks[m]);
    assert(encode_file(chunks.take(m + 1)) + more =~= encode_file(chunks.take(m)) + (encode_chunk(
        chunks[m].kind@,
        chunks[m].data,
    ) + more));
}

proof fn lemma_header_first(chunk: ChunkModel, header: IHDRChunk, more: Seq<u8>)
    requires
        storable(chunk),
        chunk.kind == IHDR,
        is_header(chunk.data, header),
    ensures
        parse_stream(SIGNATURE@ + (encode_chunk(chunk.kind@, chunk.data) + more)) == parse_chunks(
            only_header(header),
            more,
        ),
{
    law_chunk_round_trip(chunk.kind, chunk.data, more);
    law_header_is_read(chunk.data, header);
    lemma_header_chunk_first(
        encode_chunk(chunk.kind@, chunk.data) + more,
        chunk.data,
        header,
        more,
    );
}

proof fn lemma_header_chunk_first(
    bytes: Seq<u8>,
    data: Seq<u8>,
    header: IHDRChunk,
    rest: Seq<u8>,
)
    requires
        parse_chunk(bytes) == (Ok::<([u8; 4], Seq<u8>), PngError>((IHDR, data)), rest),
        parse_header(data).0 == Ok::<IHDRChunk, PngError>(header),
    ensures
        parse_stream(SIGNATURE@ + bytes) == parse_chunks(only_header(header), rest),
{
    lemma_behind_signature(bytes);
    assert((SIGNATURE@ + bytes).len() >= 8);
}

proof fn lemma_behind_signature(bytes: Seq<u8>)
    ensures
        (SIGNATURE@ + bytes).take(8) == SIGNATURE@,
        (SIGNATURE@ + bytes).skip(8) == bytes,
{
    assert((SIGNATURE@ + bytes).take(8) =~= SIGNATURE@);
    assert((SIGNATURE@ + bytes).skip(8) =~= bytes);
}

proof fn lemma_chunk_first(image: ImageModel, chunk: ChunkModel, more: Seq<u8>)
    requires
        storable(chunk),
    ensures
        apply_chunk(image, chunk.kind, chunk.data) matches Ok(Some(next)) ==> parse_chunks(
            image,
            encode_chunk(chunk.kind@, chunk.data) + more,
        ) == parse_chunks(next, more),
        apply_chunk(image, chunk.kind, chunk.data) matches Err(e) ==> parse_chunks(
            image,
            encode_chunk(chunk.kind@, chunk.data) + more,
        ) == Err::<ImageModel, PngError>(e),
{
    law_chunk_round_trip(chunk.kind, chunk.data, more);
}

proof fn lemma_only_header_is_described(chunks: Seq<ChunkModel>, header: IHDRChunk)
    requires
        1 <= chunks.len(),
        chunks[0].kind == IHDR,
        is_header(chunks[0].data, header),
    ensures
        describes(chunks, 1, only_header(header)),
{
    lemma_types_differ();
    reveal_with_fuel(image_data, 2);
    assert(chunks.take(1).drop_first() =~= Seq::empty());
    assert(image_data(chunks.take(1)) =~= Seq::empty());
}

/// Where the bytes behind good chunks are not those of a chunk, what is wrong with them
/// decides.
pub proof fn law_broken_chunk_decides(chunks: Seq<ChunkModel>, header: IHDRChunk, more: Seq<u8>)
    requires
        all_storable(chunks),
        1 <= chunks.len(),
        chunks[0].kind == IHDR,
        is_header(chunks[0].data, header),
        forall|j: int|
            1 <= j < chunks.len() ==> #[trigger] goes_on(chunks, j, header.color_type),
        parse_chunk(more).0 is Err,
    ensures
        parse_stream(encode_file(chunks) + more) == Err::<ImageModel, PngError>(
            parse_chunk(more).0->Err_0,
        ),
{
    let n = chunks.len() as int;
    let image = lemma_read_so_far(chunks, header, n, more);
    assert(chunks.take(n) =~= chunks);
}

/// The first chunk with a fault decides, whatever bytes stand behind it.
pub proof fn law_first_fault_decides(
    chunks: Seq<ChunkModel>,
    header: IHDRChunk,
    more: Seq<u8>,
)
    requires
        all_storable(chunks),
        2 <= chunks.len(),
        chunks[0].kind == IHDR,
        is_header(chunks[0].data, header),
        forall|j: int|
            1 <= j < chunks.len() - 1 ==> #[trigger] goes_on(chunks, j, header.color_type),
        fault(chunks, chunks.len() - 1, header.color_type) is Some,
    ensures
        parse_stream(encode_file(chunks) + more) == Err::<ImageModel, PngError>(
            fault(chunks, chunks.len() - 1, header.color_type)->0,
        ),
{
    let n = chunks.len() - 1;
    let chunk = chunks[n];
    let bytes = encode_chunk(chunk.kind@, chunk.data);
    let image = lemma_read_so_far(chunks, header, n, bytes + more);
    assert(storable(chunk));
    lemma_encoded_so_far(chunks, n, more);
    assert(chunks.take(n + 1) =~= chunks);
    lemma_chunk_first(image, chunk, more);
    lemma_described_step(chunks, n, image);
    lemma_types_differ();
}

/// The first chunk has to be a header, and one without a fault.
pub proof fn law_first_chunk(more: Seq<u8>)
    ensures
        ({
            let s = seq![137u8, 80, 78, 71, 13, 10, 26, 10] + more;
            match parse_chunk(more).0 {
                Err(e) => parse_stream(s) == Err::<ImageModel, PngError>(e),
                Ok((kind, data)) => {
                    &&& kind != IHDR ==> parse_stream(s) == Err::<ImageModel, PngError>(
                        PngError::MissingHeader,
                    )
                    &&& kind == IHDR ==> (parse_header(data).0 matches Err(e) ==> parse_stream(s)
                        == Err::<ImageModel, PngError>(e))
                },
            }
        }),
{
    let s = seq![137u8, 80, 78, 71, 13, 10, 26, 10] + more;
    assert(s.take(8) =~= SIGNATURE@);
    assert(s.skip(8) =~= more);
}

} // verus!
