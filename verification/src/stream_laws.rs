//! What holds of every sequence of chunks, read or written.

use vstd::prelude::*;
use crate::chunk::{
    all_letters, encode_chunk, law_chunk_is_encoded, law_chunk_round_trip, parse_chunk,
};
use crate::error::PngError;
use crate::header::parse_header;
use crate::stream::{
    apply_chunk, only_header, parse_chunks, parse_stream, ImageModel, GAMA, IDAT, IEND, IHDR, PLTE,
    SBIT, SIGNATURE,
};

verus! {

/// A chunk: its type and its contents.
pub ghost struct ChunkModel {
    pub kind: [u8; 4],
    pub data: Seq<u8>,
}

/// Whether a chunk can stand in a file.
pub open spec fn storable(chunk: ChunkModel) -> bool {
    all_letters(chunk.kind@) && chunk.data.len() <= u32::MAX
}

/// Whether all of `chunks` can stand in a file.
pub open spec fn all_storable(chunks: Seq<ChunkModel>) -> bool {
    forall|i: int| 0 <= i < chunks.len() ==> storable(#[trigger] chunks[i])
}

/// The bytes of `chunks`, one behind the other.
pub open spec fn encode_chunks(chunks: Seq<ChunkModel>) -> Seq<u8>
    decreases chunks.len(),
{
    if chunks.len() == 0 {
        Seq::empty()
    } else {
        encode_chunk(chunks[0].kind@, chunks[0].data) + encode_chunks(chunks.drop_first())
    }
}

/// The bytes of a file with these chunks.
pub open spec fn encode_file(chunks: Seq<ChunkModel>) -> Seq<u8> {
    SIGNATURE@ + encode_chunks(chunks)
}

/// What `chunks`, standing behind the header, make of `image`.
pub open spec fn interpret(image: ImageModel, chunks: Seq<ChunkModel>) -> Result<
    ImageModel,
    PngError,
>
    decreases chunks.len(),
{
    if chunks.len() == 0 {
        Err(PngError::UnexpectedEof)
    } else {
        match apply_chunk(image, chunks[0].kind, chunks[0].data) {
            Err(e) => Err(e),
            Ok(Some(next)) => interpret(next, chunks.drop_first()),
            Ok(None) => if chunks.len() == 1 {
                Ok(image)
            } else {
                Err(PngError::TrailingData)
            },
        }
    }
}

/// The image that the chunks of a file describe.
pub open spec fn interpret_file(chunks: Seq<ChunkModel>) -> Result<ImageModel, PngError> {
    if chunks.len() == 0 {
        Err(PngError::UnexpectedEof)
    } else if chunks[0].kind != IHDR {
        Err(PngError::MissingHeader)
    } else {
        match parse_header(chunks[0].data).0 {
            Err(e) => Err(e),
            Ok(header) => interpret(only_header(header), chunks.drop_first()),
        }
    }
}

/// The contents of all IDAT chunks.
pub open spec fn image_data(chunks: Seq<ChunkModel>) -> Seq<u8>
    decreases chunks.len(),
{
    if chunks.len() == 0 {
        Seq::empty()
    } else if chunks[0].kind == IDAT {
        chunks[0].data + image_data(chunks.drop_first())
    } else {
        image_data(chunks.drop_first())
    }
}

proof fn lemma_encode_len(chunks: Seq<ChunkModel>)
    requires
        chunks.len() > 0,
    ensures
        encode_chunks(chunks).len() >= 12,
{
}

proof fn lemma_chunks_round_trip(image: ImageModel, chunks: Seq<ChunkModel>)
    requires
        all_storable(chunks),
    ensures
        parse_chunks(image, encode_chunks(chunks)) == interpret(image, chunks),
    decreases chunks.len(),
{
    if chunks.len() > 0 {
        let rest = chunks.drop_first();
        assert(storable(chunks[0]));
        assert(all_storable(rest)) by {
            assert forall|i: int| 0 <= i < rest.len() implies storable(#[trigger] rest[i]) by {
                assert(rest[i] == chunks[i + 1]);
            }
        }
        law_chunk_round_trip(chunks[0].kind, chunks[0].data, encode_chunks(rest));
        match apply_chunk(image, chunks[0].kind, chunks[0].data) {
            Ok(Some(next)) => lemma_chunks_round_trip(next, rest),
            Ok(None) => {
                if chunks.len() > 1 {
                    lemma_encode_len(rest);
                }
            },
            Err(_) => {},
        }
    }
}

/// Reading a file gives what its chunks describe.
pub proof fn law_file_round_trip(chunks: Seq<ChunkModel>)
    requires
        all_storable(chunks),
    ensures
        parse_stream(encode_file(chunks)) == interpret_file(chunks),
{
    let s = encode_file(chunks);
    assert(s.take(8) =~= SIGNATURE@);
    assert(s.skip(8) =~= encode_chunks(chunks));
    if chunks.len() > 0 {
        let rest = chunks.drop_first();
        assert(storable(chunks[0]));
        assert(all_storable(rest)) by {
            assert forall|i: int| 0 <= i < rest.len() implies storable(#[trigger] rest[i]) by {
                assert(rest[i] == chunks[i + 1]);
            }
        }
        law_chunk_round_trip(chunks[0].kind, chunks[0].data, encode_chunks(rest));
        if let Ok(header) = parse_header(chunks[0].data).0 {
            lemma_chunks_round_trip(only_header(header), rest);
        }
    }
}

/// The chunks behind the header of bytes that are accepted.
spec fn chunks_in(image: ImageModel, s: Seq<u8>) -> Seq<ChunkModel>
    decreases s.len(),
{
    match parse_chunk(s) {
        (Err(_), _) => Seq::empty(),
        (Ok((kind, data)), rest) => match apply_chunk(image, kind, data) {
            Ok(Some(next)) => seq![ChunkModel { kind, data }] + chunks_in(next, rest),
            _ => seq![ChunkModel { kind, data }],
        },
    }
}

/// One chunk in front of others.
proof fn lemma_cons(first: ChunkModel, tail: Seq<ChunkModel>)
    ensures
        ({
            let chunks = seq![first] + tail;
            &&& chunks.len() == tail.len() + 1
            &&& chunks[0] == first
            &&& chunks.drop_first() == tail
            &&& encode_chunks(chunks) == encode_chunk(first.kind@, first.data) + encode_chunks(tail)
            &&& storable(first) && all_storable(tail) ==> all_storable(chunks)
        }),
{
    let chunks = seq![first] + tail;
    assert(chunks.drop_first() =~= tail);
    assert(chunks[0] == first);
    if storable(first) && all_storable(tail) {
        assert forall|i: int| 0 <= i < chunks.len() implies storable(#[trigger] chunks[i]) by {
            if i > 0 {
                assert(chunks[i] == tail[i - 1]);
            }
        }
    }
}

/// The bytes of a chunk that was read, with what follows.
proof fn lemma_first_chunk(s: Seq<u8>, tail: Seq<ChunkModel>)
    requires
        parse_chunk(s).0 is Ok,
        all_storable(tail),
        parse_chunk(s).1 == encode_chunks(tail),
    ensures
        ({
            let (kind, data) = parse_chunk(s).0->Ok_0;
            let chunks = seq![ChunkModel { kind, data }] + tail;
            &&& all_storable(chunks)
            &&& s == encode_chunks(chunks)
        }),
{
    law_chunk_is_encoded(s);
    let (kind, data) = parse_chunk(s).0->Ok_0;
    lemma_cons(ChunkModel { kind, data }, tail);
}

proof fn lemma_accepted_is_encoded(image: ImageModel, s: Seq<u8>)
    requires
        parse_chunks(image, s) is Ok,
    ensures
        ({
            let chunks = chunks_in(image, s);
            &&& chunks.len() > 0
            &&& all_storable(chunks)
            &&& s == encode_chunks(chunks)
            &&& interpret(image, chunks) == parse_chunks(image, s)
        }),
    decreases s.len(),
{
    let (parsed, rest) = parse_chunk(s);
    let (kind, data) = parsed->Ok_0;
    let first = ChunkModel { kind, data };
    if let Ok(Some(next)) = apply_chunk(image, kind, data) {
        assert(rest.len() < s.len());
        lemma_accepted_is_encoded(next, rest);
        lemma_first_chunk(s, chunks_in(next, rest));
        lemma_cons(first, chunks_in(next, rest));
    } else {
        let none = Seq::<ChunkModel>::empty();
        assert(rest =~= encode_chunks(none));
        lemma_first_chunk(s, none);
        lemma_cons(first, none);
        assert(seq![first] + none =~= seq![first]);
    }
}

/// Only the bytes of a sequence of chunks are accepted, with nothing before,
/// between or behind them, and the image is the one that the chunks describe.
pub proof fn law_accepted_is_a_file(s: Seq<u8>)
    requires
        parse_stream(s) is Ok,
    ensures
        exists|chunks: Seq<ChunkModel>|
            {
                &&& all_storable(chunks)
                &&& s == #[trigger] encode_file(chunks)
                &&& interpret_file(chunks) == parse_stream(s)
            },
{
    lemma_file_chunks(s);
    assert(s == encode_file(file_chunks(s)));
}

/// The chunks of a file that is accepted.
spec fn file_chunks(s: Seq<u8>) -> Seq<ChunkModel> {
    let (parsed, rest) = parse_chunk(s.skip(8));
    let (kind, data) = parsed->Ok_0;
    let header = parse_header(data).0->Ok_0;
    seq![ChunkModel { kind, data }] + chunks_in(only_header(header), rest)
}

proof fn lemma_file_chunks(s: Seq<u8>)
    requires
        parse_stream(s) is Ok,
    ensures
        all_storable(file_chunks(s)),
        s == encode_file(file_chunks(s)),
        interpret_file(file_chunks(s)) == parse_stream(s),
{
    let (parsed, rest) = parse_chunk(s.skip(8));
    let (kind, data) = parsed->Ok_0;
    let header = parse_header(data).0->Ok_0;
    let tail = chunks_in(only_header(header), rest);
    lemma_accepted_is_encoded(only_header(header), rest);
    lemma_first_chunk(s.skip(8), tail);
    lemma_with_header(kind, data, tail);
    lemma_split_signature(s);
}

proof fn lemma_split_signature(s: Seq<u8>)
    requires
        s.len() >= 8,
    ensures
        s == s.take(8) + s.skip(8),
{
    assert(s =~= s.take(8) + s.skip(8));
}

proof fn lemma_with_header(kind: [u8; 4], data: Seq<u8>, tail: Seq<ChunkModel>)
    requires
        kind == IHDR,
        parse_header(data).0 is Ok,
    ensures
        interpret_file(seq![ChunkModel { kind, data }] + tail) == interpret(
            only_header(parse_header(data).0->Ok_0),
            tail,
        ),
{
    lemma_cons(ChunkModel { kind, data }, tail);
}

proof fn lemma_image_data(image: ImageModel, chunks: Seq<ChunkModel>)
    ensures
        interpret(image, chunks) matches Ok(done) ==> {
            &&& done.data == image.data + image_data(chunks)
            &&& done.header == image.header
        },
    decreases chunks.len(),
{
    if chunks.len() > 0 {
        let rest = chunks.drop_first();
        match apply_chunk(image, chunks[0].kind, chunks[0].data) {
            Ok(Some(next)) => {
                lemma_image_data(next, rest);
                if let Ok(done) = interpret(next, rest) {
                    assert(done.data =~= image.data + image_data(chunks));
                }
            },
            Ok(None) => {
                assert(rest.len() == 0 ==> image_data(rest) =~= Seq::<u8>::empty());
                assert(IEND@[1] != IDAT@[1]);
                assert(image.data + Seq::<u8>::empty() =~= image.data);
            },
            Err(_) => {},
        }
    }
}

/// The compressed data of an accepted file are the contents of its IDAT chunks in
/// their order, wherever they stand and however they are split.
pub proof fn law_data_is_all_idat(chunks: Seq<ChunkModel>)
    requires
        interpret_file(chunks) is Ok,
    ensures
        interpret_file(chunks)->Ok_0.data == image_data(chunks),
        interpret_file(chunks)->Ok_0.header.valid(),
{
    let header = parse_header(chunks[0].data).0->Ok_0;
    lemma_image_data(only_header(header), chunks.drop_first());
    assert(IHDR@[1] != IDAT@[1]);
    assert(Seq::<u8>::empty() + image_data(chunks.drop_first()) =~= image_data(
        chunks.drop_first(),
    ));
}

/// How far the image has come: nothing takes a palette or image data away again.
proof fn lemma_order(image: ImageModel, chunks: Seq<ChunkModel>, j: int)
    requires
        interpret(image, chunks) is Ok,
        0 <= j < chunks.len(),
    ensures
        chunks[j].kind != IHDR,
        chunks[j].kind == IEND <==> j == chunks.len() - 1,
        image.palette is Some ==> chunks[j].kind != PLTE && chunks[j].kind != GAMA && chunks[j].kind
            != SBIT,
        image.data.len() > 0 ==> chunks[j].kind != GAMA && chunks[j].kind != SBIT,
    decreases chunks.len(),
{
    assert(IEND@[0] != GAMA@[0] && IEND@[0] != SBIT@[0] && IEND@[0] != PLTE@[0] && IEND@[1]
        != IDAT@[1] && IEND@[1] != IHDR@[1]);
    assert(GAMA@[0] != SBIT@[0] && GAMA@[0] != PLTE@[0] && GAMA@[0] != IDAT@[0] && GAMA@[0]
        != IHDR@[0]);
    assert(SBIT@[0] != PLTE@[0] && SBIT@[0] != IDAT@[0] && SBIT@[0] != IHDR@[0]);
    assert(PLTE@[0] != IDAT@[0] && PLTE@[0] != IHDR@[0] && IDAT@[1] != IHDR@[1]);
    if let Ok(Some(next)) = apply_chunk(image, chunks[0].kind, chunks[0].data) {
        if j > 0 {
            lemma_order(next, chunks.drop_first(), j - 1);
        }
    }
}

/// The order of the chunks of an accepted file: the header comes first and only
/// once, the end comes last and only once, there is one palette at most, and gamma
/// and significant bits stand before the palette and before any image data.
pub proof fn law_chunk_order(chunks: Seq<ChunkModel>, i: int, j: int)
    requires
        interpret_file(chunks) is Ok,
        0 <= i < j < chunks.len(),
    ensures
        chunks[0].kind == IHDR,
        chunks[j].kind != IHDR,
        chunks[i].kind != IEND,
        chunks.last().kind == IEND,
        chunks[i].kind == PLTE ==> chunks[j].kind != PLTE,
        chunks[j].kind == GAMA || chunks[j].kind == SBIT ==> chunks[i].kind != PLTE && (
        chunks[i].kind == IDAT ==> chunks[i].data.len() == 0),
{
    let header = parse_header(chunks[0].data).0->Ok_0;
    let image = only_header(header);
    let rest = chunks.drop_first();
    assert(IEND@[1] != IHDR@[1] && PLTE@[0] != IHDR@[0] && IDAT@[1] != IHDR@[1]);
    lemma_order(image, rest, rest.len() - 1);
    lemma_order(image, rest, j - 1);
    if i > 0 {
        lemma_order(image, rest, i - 1);
        lemma_order_pair(image, rest, i - 1, j - 1);
    }
}

proof fn lemma_order_pair(image: ImageModel, chunks: Seq<ChunkModel>, i: int, j: int)
    requires
        interpret(image, chunks) is Ok,
        0 <= i < j < chunks.len(),
    ensures
        chunks[i].kind == PLTE ==> chunks[j].kind != PLTE,
        chunks[j].kind == GAMA || chunks[j].kind == SBIT ==> chunks[i].kind != PLTE && (
        chunks[i].kind == IDAT ==> chunks[i].data.len() == 0),
    decreases chunks.len(),
{
    assert(PLTE@[0] != IDAT@[0] && PLTE@[0] != SBIT@[0] && PLTE@[0] != GAMA@[0] && PLTE@[0]
        != IHDR@[0] && IDAT@[0] != GAMA@[0] && IDAT@[0] != SBIT@[0] && IDAT@[1] != IHDR@[1]);
    if let Ok(Some(next)) = apply_chunk(image, chunks[0].kind, chunks[0].data) {
        if i > 0 {
            lemma_order_pair(next, chunks.drop_first(), i - 1, j - 1);
        } else {
            lemma_order(next, chunks.drop_first(), j - 1);
        }
    }
}

/// It does not matter how the image data is split into IDAT chunks.
pub proof fn law_idat_split(
    image: ImageModel,
    before: Seq<ChunkModel>,
    a: Seq<u8>,
    b: Seq<u8>,
    after: Seq<ChunkModel>,
)
    ensures
        interpret(
            image,
            before + seq![ChunkModel { kind: IDAT, data: a }, ChunkModel { kind: IDAT, data: b }]
                + after,
        ) == interpret(image, before + seq![ChunkModel { kind: IDAT, data: a + b }] + after),
    decreases before.len(),
{
    let first = ChunkModel { kind: IDAT, data: a };
    let second = ChunkModel { kind: IDAT, data: b };
    let whole = ChunkModel { kind: IDAT, data: a + b };
    let split = before + seq![first, second] + after;
    let joined = before + seq![whole] + after;
    if before.len() == 0 {
        assert(IDAT@[0] != GAMA@[0] && IDAT@[0] != SBIT@[0] && IDAT@[0] != PLTE@[0] && IDAT@[1]
            != IHDR@[1]);
        assert(split.drop_first().drop_first() =~= after);
        assert(joined.drop_first() =~= after);
        let one = ImageModel { data: image.data + a, ..image };
        let two = ImageModel { data: one.data + b, ..one };
        assert(apply_chunk(image, IDAT, a) == Ok::<Option<ImageModel>, PngError>(Some(one)));
        assert(split.drop_first()[0] == second);
        assert(interpret(image, split) == interpret(one, split.drop_first()));
        assert(two =~= (ImageModel { data: image.data + (a + b), ..image }));
    } else {
        let tail = before.drop_first();
        assert(split.drop_first() =~= tail + seq![first, second] + after);
        assert(joined.drop_first() =~= tail + seq![whole] + after);
        assert(split[0] == before[0] && joined[0] == before[0]);
        if let Ok(Some(next)) = apply_chunk(image, before[0].kind, before[0].data) {
            law_idat_split(next, tail, a, b, after);
        }
    }
}

} // verus!
