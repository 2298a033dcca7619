use webtoon_viewer::error::GalleryError;
use webtoon_viewer::index::{file_order, image_key, order_from_capture, scan, ImageEntry, ImageIndex, SourceFile};
use webtoon_viewer::text::{bytes_less, parse_decimal, push_decimal, starts_with};

fn file(name: &str) -> SourceFile {
    SourceFile { name: name.to_string(), path: format!("/pictures/{}", name) }
}

#[test]
fn orders_come_from_the_trailing_number() {
    let files = vec![file("page_2.png"), file("page_10.png"), file("page_1.jpg")];
    let report = scan(&files);
    assert_eq!(report.outcomes, vec![Ok(2), Ok(10), Ok(1)]);
    assert_eq!(report.index.len(), 3);
    assert_eq!(report.index.entry(0).order, 2);
    assert_eq!(report.index.entry(1).order, 10);
    assert_eq!(report.index.entry(2).order, 1);
    assert_eq!(report.index.entry(0).key, "page_2.png");
    assert_eq!(report.index.entry(1).key, "page_10.png");
    assert_eq!(report.index.entry(2).key, "page_1.jpg");
    assert_eq!(report.index.entry(2).source_path, "/pictures/page_1.jpg");
}

#[test]
fn one_entry_per_file() {
    let files = vec![file("a1.png"), file("b2.png"), file("c3.png"), file("d4.png")];
    let report = scan(&files);
    assert_eq!(report.index.len(), files.len());
    for i in 0..files.len() {
        assert_eq!(report.index.entry(i).key, image_key(&files[i].name));
        assert_eq!(Ok(report.index.entry(i).order), file_order(&files[i].name));
    }
}

#[test]
fn file_order_reads_the_number_before_the_extension() {
    assert_eq!(file_order("page_2.png"), Ok(2));
    assert_eq!(file_order("chapter3_page_0042.jpeg"), Ok(42));
    assert_eq!(file_order("x7.y"), Ok(7));
}

#[test]
fn file_order_rejects_names_without_a_number() {
    assert_eq!(file_order("cover.png"), Err(GalleryError::UnparsableFilename));
    assert_eq!(file_order("123.png"), Err(GalleryError::UnparsableFilename));
    assert_eq!(file_order("page_5"), Err(GalleryError::UnparsableFilename));
    assert_eq!(file_order(""), Err(GalleryError::UnparsableFilename));
}

#[test]
fn file_order_rejects_a_number_beyond_the_machine_word() {
    assert_eq!(
        file_order("page_99999999999999999999999999999999.png"),
        Err(GalleryError::UnparsableFilename)
    );
}

#[test]
fn order_from_capture_judges_each_outcome() {
    assert_eq!(order_from_capture(&None), Err(GalleryError::UnparsableFilename));
    assert_eq!(order_from_capture(&Some(None)), Err(GalleryError::UnparsableFilename));
    assert_eq!(order_from_capture(&Some(Some("17".to_string()))), Ok(17));
    assert_eq!(order_from_capture(&Some(Some("007".to_string()))), Ok(7));
    assert_eq!(
        order_from_capture(&Some(Some("1x".to_string()))),
        Err(GalleryError::UnparsableFilename)
    );
    assert_eq!(
        order_from_capture(&Some(Some(String::new()))),
        Err(GalleryError::UnparsableFilename)
    );
}

#[test]
fn an_unparsable_name_does_not_stop_the_scan() {
    let files = vec![file("page_1.png"), file("notes.txt"), file("page_2.png")];
    let report = scan(&files);
    assert_eq!(
        report.outcomes,
        vec![Ok(1), Err(GalleryError::UnparsableFilename), Ok(2)]
    );
    assert_eq!(report.index.len(), 2);
    assert_eq!(report.index.entry(0).key, "page_1.png");
    assert_eq!(report.index.entry(1).key, "page_2.png");
}

#[test]
fn keys_are_percent_encoded() {
    assert_eq!(image_key("page_1.jpg"), "page_1.jpg");
    assert_eq!(image_key("my page 1.png"), "my%20page%201.png");
    assert_eq!(image_key("a&b/c~d-e_1.png"), "a%26b%2Fc~d-e_1.png");
    assert_eq!(image_key("\u{e9}1.png"), "%C3%A91.png");
    assert_eq!(image_key("100%.png"), "100%25.png");
}

#[test]
fn insert_replaces_the_entry_with_the_same_key() {
    let mut index = ImageIndex::new();
    assert_eq!(index.len(), 0);
    index.insert(ImageEntry { source_path: "one".to_string(), order: 1, key: "k1".to_string() });
    index.insert(ImageEntry { source_path: "two".to_string(), order: 2, key: "k2".to_string() });
    index.insert(ImageEntry { source_path: "three".to_string(), order: 3, key: "k1".to_string() });
    assert_eq!(index.len(), 2);
    assert_eq!(index.entry(0).source_path, "three");
    assert_eq!(index.entry(0).order, 3);
    assert_eq!(index.entry(1).key, "k2");
    assert_eq!(index.find(&"k2".to_string()), Some(1));
    assert_eq!(index.find(&"k3".to_string()), None);
}

#[test]
fn parse_decimal_gives_exact_values() {
    assert_eq!(parse_decimal(b"0"), Some(0));
    assert_eq!(parse_decimal(b"42"), Some(42));
    assert_eq!(parse_decimal(b"000123"), Some(123));
    assert_eq!(parse_decimal(b""), None);
    assert_eq!(parse_decimal(b"12a"), None);
    assert_eq!(parse_decimal(b"-1"), None);
    assert_eq!(parse_decimal(usize::MAX.to_string().as_bytes()), Some(usize::MAX));
    assert_eq!(parse_decimal(b"340282366920938463463374607431768211456"), None);
}

#[test]
fn push_decimal_writes_the_digits() {
    let mut out = b"n=".to_vec();
    push_decimal(&mut out, 0);
    assert_eq!(out, b"n=0".to_vec());
    let mut out = Vec::new();
    push_decimal(&mut out, 1234567890);
    assert_eq!(out, b"1234567890".to_vec());
    let mut out = Vec::new();
    push_decimal(&mut out, usize::MAX);
    assert_eq!(out, usize::MAX.to_string().into_bytes());
}

#[test]
fn bytes_less_is_lexicographic() {
    assert!(bytes_less(b"a", b"b"));
    assert!(bytes_less(b"a", b"ab"));
    assert!(bytes_less(b"", b"a"));
    assert!(!bytes_less(b"a", b"a"));
    assert!(!bytes_less(b"b", b"ab"));
    assert!(!bytes_less(b"", b""));
    assert!(bytes_less(b"page_10.png", b"page_2.png"));
}

#[test]
fn starts_with_compares_the_leading_bytes() {
    assert!(starts_with(b"GET / HTTP/1.1\r\nHost: x", b"GET / HTTP/1.1\r\n"));
    assert!(starts_with(b"abc", b""));
    assert!(starts_with(b"abc", b"abc"));
    assert!(!starts_with(b"ab", b"abc"));
    assert!(!starts_with(b"abd", b"abc"));
}

#[test]
fn each_error_has_its_message() {
    let all = [
        GalleryError::InvalidSourceDirectory,
        GalleryError::InvalidDestinationPath,
        GalleryError::UnparsableFilename,
        GalleryError::StorageFailure,
        GalleryError::NetworkFailure,
    ];
    for (i, a) in all.iter().enumerate() {
        assert!(!a.message().is_empty());
        for (j, b) in all.iter().enumerate() {
            assert_eq!(i == j, a.message() == b.message());
        }
    }
}
