use lib::adler::adler32;
use lib::chunk::Chunk;
use lib::crc::{crc32, make_crc_table, crc_update};

#[test]
fn crc32_of_iend_type() {
    assert_eq!(crc32(b"IEND"), 0xAE42_6082);
}

#[test]
fn crc32_check_value() {
    assert_eq!(crc32(b"123456789"), 0xCBF4_3926);
}

#[test]
fn crc32_of_nothing_is_zero() {
    assert_eq!(crc32(b""), 0);
}

#[test]
fn crc_table_first_entries() {
    let table = make_crc_table();
    assert_eq!(table[0], 0);
    assert_eq!(table[1], 0x7707_3096);
    assert_eq!(table[255], 0x2D02_EF8D);
}

#[test]
fn crc_update_in_two_parts_equals_whole() {
    let table = make_crc_table();
    let whole = crc_update(&table, 0xffff_ffff, b"IHDRdata bytes");
    let first = crc_update(&table, 0xffff_ffff, b"IHDR");
    let both = crc_update(&table, first, b"data bytes");
    assert_eq!(whole, both);
    assert_eq!(whole ^ 0xffff_ffff, crc32(b"IHDRdata bytes"));
}

#[test]
fn verify_crc_accepts_the_right_crc() {
    let chunk = Chunk { length: 0, chunk_type: *b"IEND", data: &[], crc: 0xAE42_6082 };
    assert!(chunk.verify_crc());
}

#[test]
fn verify_crc_rejects_a_wrong_crc() {
    let chunk = Chunk { length: 0, chunk_type: *b"IEND", data: &[], crc: 0xAE42_6083 };
    assert!(!chunk.verify_crc());
}

#[test]
fn verify_crc_covers_type_and_data() {
    let data = [0u8, 0, 0, 3, 0, 0, 0, 5, 8, 2, 0, 0, 0];
    let chunk = Chunk { length: 13, chunk_type: *b"IHDR", data: &data, crc: 0x0F13_C1F5 };
    assert!(chunk.verify_crc());
}

#[test]
fn adler32_of_wikipedia() {
    assert_eq!(adler32(b"Wikipedia"), 0x11E6_0398);
}

#[test]
fn adler32_of_nothing_is_one() {
    assert_eq!(adler32(b""), 1);
}

#[test]
fn adler32_across_several_runs() {
    let data = vec![0xffu8; 100_000];
    assert_eq!(adler32(&data), 0x149A_302C);
}
