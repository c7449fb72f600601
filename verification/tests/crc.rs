use tran::png::crc::crc;
use tran::png::crc::crc_table;

#[test]
fn crc_of_known_texts() {
    assert_eq!(crc(b""), 0);
    assert_eq!(crc(b"123456789"), 0xCBF43926);
    assert_eq!(crc(b"The quick brown fox jumps over the lazy dog"), 0x414FA339);
}

#[test]
fn crc_of_the_end_chunk() {
    // the checksum that every PNG carries in its IEND chunk
    assert_eq!(crc(b"IEND"), 0xAE426082);
}

#[test]
fn crc_table_entries() {
    let table = crc_table();
    assert_eq!(table.len(), 256);
    assert_eq!(table[0], 0);
    assert_eq!(table[1], 0x77073096);
    assert_eq!(table[2], 0xEE0E612C);
    assert_eq!(table[255], 0x2D02EF8D);
}
