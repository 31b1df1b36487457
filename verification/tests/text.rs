//! Bytes and text.
use basemyai_engine::bytes;
use basemyai_engine::error::EngineError;
use basemyai_engine::store::files::{generation_dir, generation_id, is_sst_name};
use basemyai_engine::store::sst_block::{join, sst_id, sst_path};
use basemyai_engine::store::verify_logical::parse::{show_key, take_len_prefixed, take_str, take_u64};
use basemyai_engine::text;

#[test]
fn numbers_are_written_in_decimal() {
    assert_eq!(text::dec(0), "0");
    assert_eq!(text::dec(1_203), "1203");
    assert_eq!(text::dec(u64::MAX), "18446744073709551615");
    assert_eq!(text::dec20(7), "00000000000000000007");
    assert_eq!(text::dec20(u64::MAX), "18446744073709551615");
}

#[test]
fn numbers_are_read_back() {
    assert_eq!(text::parse_u64("0"), Some(0));
    assert_eq!(text::parse_u64("00042"), Some(42));
    assert_eq!(text::parse_u64("18446744073709551615"), Some(u64::MAX));
    assert_eq!(text::parse_u64("18446744073709551616"), None);
    for bad in ["", "-1", "1 ", "x", "1_000"] {
        assert_eq!(text::parse_u64(bad), bad.parse::<u64>().ok());
    }
    assert_eq!(text::parse_u64("+5"), "+5".parse::<u64>().ok());
}

#[test]
fn byte_lists_read_like_lists() {
    assert_eq!(text::byte_list(&[]), format!("{:?}", Vec::<u8>::new()));
    assert_eq!(text::byte_list(b"ab"), "[97, 98]");
}

#[test]
fn parts_of_text_are_found() {
    assert!(text::starts_with("gen-1", "gen-"));
    assert!(!text::starts_with("ge", "gen-"));
    assert!(text::ends_with("a.sst", ".sst"));
    assert!(!text::ends_with("sst", ".sst"));
    assert!(text::contains("a.tmp.b", ".tmp"));
    assert!(!text::contains("atmp", ".tmp"));
    assert!(text::same("é", "é"));
    assert!(!text::same("e", "é"));
}

#[test]
fn bytes_are_ordered_like_slices() {
    let all: [&[u8]; 6] = [b"", b"a", b"a\0", b"aa", b"b", b"\xff"];
    for a in all {
        for b in all {
            assert_eq!(bytes::lt(a, b), a < b);
            assert_eq!(bytes::eq(a, b), a == b);
            assert_eq!(bytes::starts_with(a, b), a.starts_with(b));
        }
    }
}

#[test]
fn numbers_are_laid_out_big_endian() {
    assert_eq!(bytes::to_be(0x0102, 4), vec![0, 0, 1, 2]);
    assert_eq!(bytes::from_be(&[0, 0, 1, 2]), 0x0102);
    assert_eq!(bytes::from_be(&bytes::to_be(u64::MAX - 5, 8)), u64::MAX - 5);
}

#[test]
fn keys_are_shown_quoted() {
    assert_eq!(show_key(b"idx/vector/meta"), "\"idx/vector/meta\"");
    assert_eq!(show_key(b"a\n\"b\""), "\"a\\n\\\"b\\\"\"");
    let torn: &[u8] = b"a\xff\xfeb";
    assert_eq!(show_key(torn), format!("{:?}", String::from_utf8_lossy(torn)));
}

#[test]
fn fields_are_taken_off_a_key() {
    assert_eq!(take_len_prefixed(&[0, 0, 0, 2, 9, 8, 7]), Some((&[9u8, 8][..], &[7u8][..])));
    assert_eq!(take_len_prefixed(&[0, 0, 0, 3, 9, 8]), None);
    assert_eq!(take_len_prefixed(&[0, 0, 0]), None);
    assert_eq!(take_str(&[0, 0, 0, 2, 0xc3, 0xa9, 1]), Some(("é".to_string(), &[1u8][..])));
    assert_eq!(take_str(&[0, 0, 0, 1, 0xff]), None);
    assert_eq!(take_u64(&[0, 0, 0, 0, 0, 0, 1, 0]), Some(256));
    assert_eq!(take_u64(&[0; 7]), None);
}

#[test]
fn table_and_generation_names() {
    assert_eq!(sst_path("", 3), "00000000000000000003.sst");
    assert_eq!(sst_path("gen-2", 3), "gen-2/00000000000000000003.sst");
    assert_eq!(join("a", "b"), "a/b");
    assert_eq!(sst_id("00000000000000000003.sst"), Some(3));
    assert_eq!(sst_id("00000000000000000003.sst.tmp"), None);
    assert_eq!(sst_id("x.sst"), None);
    assert!(is_sst_name("x.sst"));
    assert!(!is_sst_name(".sst"));
    assert_eq!(generation_dir(12), "gen-12");
    assert_eq!(generation_id("gen-12"), Some(12));
    assert_eq!(generation_id("gen-"), None);
    assert_eq!(generation_id("generation"), None);
}

#[test]
fn errors_say_what_where_and_why() {
    let e = EngineError::CorruptSst { path: "a.sst".to_string(), reason: "torn".to_string() };
    assert_eq!(e.message(), "corrupt table at a.sst: torn");
    let e = EngineError::UnsupportedStoreFormat { path: "store.meta".to_string(), expected: 3, found: 0 };
    assert_eq!(e.message(), "unsupported store format at store.meta: expected 3, found 0");
    let e = EngineError::VersionEditMissingInput { id: 999 };
    assert_eq!(e.message(), "version edit deletes table 999, which is not live");
}
