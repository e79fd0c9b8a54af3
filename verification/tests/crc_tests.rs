use png_decoder::crc::{compute_crc, crc_table, update_crc};

#[test]
fn crc_of_the_check_string() {
    assert_eq!(compute_crc(b"123456789"), 0xcbf43926);
}

#[test]
fn crc_of_the_end_chunk() {
    assert_eq!(compute_crc(b"IEND"), 0xae426082);
}

#[test]
fn crc_of_nothing() {
    assert_eq!(compute_crc(b""), 0);
}

#[test]
fn table_entries() {
    let table = crc_table();
    assert_eq!(table[0], 0);
    assert_eq!(table[1], 0x77073096);
    assert_eq!(table[128], 0xedb88320);
    assert_eq!(table[255], 0x2d02ef8d);
}

#[test]
fn register_runs_over_parts() {
    let half = update_crc(0xffffffff, b"12345");
    assert_eq!(update_crc(half, b"6789") ^ 0xffffffff, 0xcbf43926);
}

#[test]
fn every_change_of_a_byte_shows() {
    let data = *b"some chunk data";
    let crc = compute_crc(&data);
    for i in 0..data.len() {
        for b in 0..=255u8 {
            let mut other = data;
            other[i] = b;
            assert_eq!(compute_crc(&other) == crc, b == data[i]);
        }
    }
}
