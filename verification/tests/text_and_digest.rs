use hash_parity::archive::decompress;
use hash_parity::digest::{hex_encode, ContentDigest};
use hash_parity::error::HarnessError;
use hash_parity::text::{
    bytes_eq, contains_bytes, copy_bytes, fold_ascii, lex_order, literal_bytes, Order,
};

#[test]
fn folding_changes_ascii_capitals_only() {
    assert_eq!(fold_ascii(b"Dance-SINGLE"), b"dance-single".to_vec());
    assert_eq!(fold_ascii(b"@AZ[`az{"), b"@az[`az{".to_vec());
    assert_eq!(fold_ascii("ÉDIT".as_bytes()), "Édit".as_bytes().to_vec());
    assert_eq!(fold_ascii(b""), Vec::<u8>::new());
}

#[test]
fn lexicographic_order() {
    assert_eq!(lex_order(b"abc", b"abd"), Order::Before);
    assert_eq!(lex_order(b"abd", b"abc"), Order::After);
    assert_eq!(lex_order(b"ab", b"abc"), Order::Before);
    assert_eq!(lex_order(b"abc", b"ab"), Order::After);
    assert_eq!(lex_order(b"", b""), Order::Same);
    assert_eq!(lex_order(b"", b"a"), Order::Before);
    assert_eq!(lex_order(b"B", b"a"), Order::Before);
    assert_eq!(lex_order(b"same", b"same"), Order::Same);
}

#[test]
fn order_agrees_with_string_order() {
    let words = ["", "a", "A", "ab", "b", "PackA/Song1", "PackA/Song1/file.ssc.zst", "é", "z"];
    for a in words {
        for b in words {
            let want = if a < b {
                Order::Before
            } else if a == b {
                Order::Same
            } else {
                Order::After
            };
            assert_eq!(lex_order(a.as_bytes(), b.as_bytes()), want);
        }
    }
}

#[test]
fn substring_search() {
    assert!(contains_bytes(b"PackA/Song1/file.ssc.zst", b"Song1"));
    assert!(contains_bytes(b"PackA/Song1/file.ssc.zst", b"PackA"));
    assert!(contains_bytes(b"PackA/Song1/file.ssc.zst", b".zst"));
    assert!(contains_bytes(b"abc", b""));
    assert!(contains_bytes(b"", b""));
    assert!(!contains_bytes(b"", b"a"));
    assert!(!contains_bytes(b"abc", b"abcd"));
    assert!(!contains_bytes(b"aab", b"aba"));
    assert!(contains_bytes(b"aaab", b"aab"));
}

#[test]
fn equality_and_copies() {
    assert!(bytes_eq(b"abc", b"abc"));
    assert!(!bytes_eq(b"abc", b"abd"));
    assert!(!bytes_eq(b"abc", b"ab"));
    assert_eq!(copy_bytes(b"hello"), b"hello".to_vec());
    assert_eq!(literal_bytes("dance-single"), b"dance-single".to_vec());
}

#[test]
fn hexadecimal_text() {
    assert_eq!(hex_encode(&[0x00, 0x0f, 0xa0, 0xff, 0x9a]), b"000fa0ff9a".to_vec());
    assert_eq!(hex_encode(&[]), Vec::<u8>::new());
}

#[test]
fn digest_of_empty_content() {
    let digest = ContentDigest::of_content(b"");
    assert_eq!(digest.as_bytes(), b"d41d8cd98f00b204e9800998ecf8427e");
}

#[test]
fn digest_of_known_content() {
    assert_eq!(ContentDigest::of_content(b"abc").as_bytes(), b"900150983cd24fb0d6963f7d28e17f72");
    assert_eq!(
        ContentDigest::of_content(b"The quick brown fox jumps over the lazy dog").as_bytes(),
        b"9e107d9d372bb6826bd81d3542a419d6"
    );
}

#[test]
fn digest_agrees_with_md5_formatting() {
    let content = b"#TITLE:Song;\n#NOTES:dance-single;";
    let want = format!("{:x}", md5::compute(content));
    assert_eq!(ContentDigest::of_content(content).as_bytes(), want.as_bytes());
}

#[test]
fn digest_text_is_checked() {
    let good = b"d41d8cd98f00b204e9800998ecf8427e";
    assert_eq!(ContentDigest::parse(good).unwrap().as_bytes(), good);
    assert!(ContentDigest::parse(b"D41D8CD98F00B204E9800998ECF8427E").is_none());
    assert!(ContentDigest::parse(b"d41d8cd98f00b204e9800998ecf8427").is_none());
    assert!(ContentDigest::parse(b"d41d8cd98f00b204e9800998ecf8427e0").is_none());
    assert!(ContentDigest::parse(b"g41d8cd98f00b204e9800998ecf8427e").is_none());
    assert!(ContentDigest::parse(b"").is_none());
}

#[test]
fn decompression_recovers_content() {
    let content = b"#TITLE:Song;\n#NOTES:dance-single;".to_vec();
    let stored = zstd::encode_all(&content[..], 0).unwrap();
    assert_ne!(stored, content);
    assert_eq!(decompress(&stored).unwrap(), content);
    let empty = zstd::encode_all(&b""[..], 0).unwrap();
    assert_eq!(decompress(&empty).unwrap(), Vec::<u8>::new());
}

#[test]
fn truncated_or_malformed_stream_is_corrupt() {
    let content = vec![7u8; 4096];
    let stored = zstd::encode_all(&content[..], 0).unwrap();
    let truncated = &stored[..stored.len() - 3];
    assert!(matches!(decompress(truncated), Err(HarnessError::CorruptArchive)));
    assert!(matches!(decompress(b"this is no zstd frame"), Err(HarnessError::CorruptArchive)));
}
