use png_decoder::error::ZlibError;
use png_decoder::zlib::{compute_adler32, decompress};

const FIXED: [u8; 16] = [
    120, 218, 203, 72, 205, 201, 201, 87, 200, 64, 39, 1, 104, 3, 8, 177,
];
const DYNAMIC: [u8; 283] = [
    120, 218, 229, 208, 97, 150, 67, 48, 24, 64, 209, 181, 37, 130, 148, 152, 136, 18, 21, 130,
    175, 18, 13, 74, 212, 254, 127, 204, 116, 29, 115, 87, 240, 206, 67, 8, 225, 128, 68, 52,
    97, 188, 168, 26, 13, 118, 245, 152, 254, 148, 10, 156, 15, 179, 74, 207, 62, 202, 149, 57,
    226, 66, 47, 1, 111, 93, 144, 247, 111, 42, 45, 22, 240, 225, 195, 201, 199, 171, 48, 164,
    94, 211, 1, 85, 11, 3, 162, 206, 114, 229, 115, 58, 221, 32, 30, 227, 145, 62, 19, 147, 57,
    177, 215, 72, 83, 155, 31, 42, 50, 226, 212, 233, 214, 196, 174, 142, 220, 131, 174, 45,
    243, 112, 15, 151, 142, 99, 215, 229, 100, 27, 171, 20, 45, 131, 204, 200, 49, 247, 146, 83,
    180, 191, 160, 149, 130, 81, 114, 29, 155, 179, 19, 12, 186, 107, 213, 87, 219, 233, 1, 38,
    235, 182, 227, 34, 148, 9, 217, 194, 107, 71, 148, 203, 126, 62, 72, 38, 135, 5, 165, 213,
    184, 145, 188, 115, 152, 119, 75, 120, 7, 207, 218, 149, 62, 92, 84, 187, 184, 217, 82, 125,
    10, 19, 169, 35, 183, 84, 163, 122, 23, 46, 51, 201, 147, 254, 213, 198, 112, 155, 210, 153,
    175, 229, 169, 8, 176, 165, 66, 67, 186, 214, 196, 20, 215, 200, 207, 129, 127, 64, 96, 43,
    233, 187, 207, 3, 215, 242, 96, 209, 69, 124, 24, 149, 71, 126, 214, 85, 22, 122, 7, 170,
    252, 161, 216, 175, 22, 116, 83, 21, 156, 37, 52, 34, 1, 70, 95, 255, 244, 238, 47, 16, 51,
    206, 208,
];
const STORED: [u8; 18] = [
    120, 1, 1, 7, 0, 248, 255, 0, 1, 2, 3, 4, 5, 6, 0, 63, 0, 22,
];

fn dynamic_source() -> Vec<u8> {
    (0..600usize).map(|i| ((i * i / 7) % 50 + 65) as u8).collect()
}

/// A zlib stream of stored blocks, split every `size` bytes.
fn store(data: &[u8], size: usize) -> Vec<u8> {
    let mut out = vec![0x78, 0x01];
    let blocks: Vec<&[u8]> = if data.is_empty() { vec![data] } else { data.chunks(size).collect() };
    for (i, block) in blocks.iter().enumerate() {
        out.push(if i + 1 == blocks.len() { 1 } else { 0 });
        out.extend((block.len() as u16).to_le_bytes());
        out.extend((!(block.len() as u16)).to_le_bytes());
        out.extend_from_slice(block);
    }
    out.extend(compute_adler32(data).to_be_bytes());
    out
}

#[test]
fn adler_of_known_strings() {
    assert_eq!(compute_adler32(b""), 1);
    assert_eq!(compute_adler32(b"Wikipedia"), 0x11e60398);
}

#[test]
fn fixed_codes_and_overlapping_match() {
    let (data, checksum) = decompress(&FIXED).unwrap();
    assert_eq!(data, b"hello hello hello hello");
    assert_eq!(checksum, 1745029297);
}

#[test]
fn dynamic_codes() {
    let (data, checksum) = decompress(&DYNAMIC).unwrap();
    assert_eq!(data, dynamic_source());
    assert_eq!(checksum, compute_adler32(&dynamic_source()));
}

#[test]
fn stored_block() {
    let (data, _) = decompress(&STORED).unwrap();
    assert_eq!(data, vec![0, 1, 2, 3, 4, 5, 6]);
}

#[test]
fn stored_round_trip_over_several_blocks() {
    let source: Vec<u8> = (0..70000usize).map(|i| (i % 251) as u8).collect();
    assert_eq!(decompress(&store(&source, 0xffff)).unwrap().0, source);
    assert_eq!(decompress(&store(&source, 1000)).unwrap().0, source);
    assert_eq!(decompress(&store(b"", 1)).unwrap().0, b"");
}

#[test]
fn bytes_behind_the_stream_are_ignored() {
    let mut longer = FIXED.to_vec();
    longer.push(9);
    assert_eq!(decompress(&longer).unwrap().0, b"hello hello hello hello");
}

#[test]
fn every_cut_stream_ends_unexpectedly() {
    for n in 0..FIXED.len() {
        assert_eq!(decompress(&FIXED[..n]), Err(ZlibError::UnexpectedEnd));
    }
    for n in 0..DYNAMIC.len() {
        assert_eq!(decompress(&DYNAMIC[..n]), Err(ZlibError::UnexpectedEnd));
    }
}

#[test]
fn headers_that_are_refused() {
    // Another method, a window that is too large, a wrong check, a dictionary.
    assert_eq!(decompress(&[0x79, 0x00, 0]), Err(ZlibError::InvalidHeader));
    assert_eq!(decompress(&[0x88, 0x1c, 0]), Err(ZlibError::InvalidHeader));
    assert_eq!(decompress(&[0x78, 0x02, 0]), Err(ZlibError::InvalidHeader));
    assert_eq!(decompress(&[0x78, 0x20, 0]), Err(ZlibError::InvalidHeader));
}

#[test]
fn reserved_block_type() {
    assert_eq!(decompress(&[0x78, 0x01, 0x07, 0, 0]), Err(ZlibError::InvalidBlockType));
}

#[test]
fn stored_lengths_that_disagree() {
    assert_eq!(
        decompress(&[0x78, 0x01, 1, 1, 0, 0, 0, 7]),
        Err(ZlibError::InvalidStoredLength)
    );
}

#[test]
fn wrong_checksum() {
    let mut bad = FIXED.to_vec();
    let last = bad.len() - 1;
    bad[last] ^= 1;
    assert_eq!(decompress(&bad), Err(ZlibError::ChecksumMismatch));
}

#[test]
fn match_before_the_start() {
    // Final block with fixed codes: length 3 (0000001), distance 1 (00000).
    assert_eq!(decompress(&[0x78, 0x01, 0x03, 0x02, 0x00, 0]), Err(ZlibError::InvalidDistance));
}

#[test]
fn symbols_without_a_meaning() {
    // Final block with fixed codes: the literal code 286 (11000110).
    assert_eq!(decompress(&[0x78, 0x01, 0x1b, 0x03, 0, 0]), Err(ZlibError::InvalidCode));
}

#[test]
fn code_lengths_that_are_no_code() {
    // Final dynamic block: 257 literals, 1 distance, 4 code lengths, all of them zero
    // but two of length one for the symbols 16 and 17 and one for 18.
    let bits = [1u8, 0, 1, 0, 0, 0, 0, 0, 0, 0, 0, 0, 0, 0, 0, 0, 0, 1, 0, 0, 1, 0, 0, 1, 0, 0, 0, 0, 0];
    let mut bytes = vec![0x78, 0x01, 0, 0, 0, 0, 0, 0];
    for (i, b) in bits.iter().enumerate() {
        bytes[2 + i / 8] |= b << (i % 8);
    }
    assert_eq!(decompress(&bytes), Err(ZlibError::InvalidCodeLengths));
}
