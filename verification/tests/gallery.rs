use webtoon_viewer::dispatch::{classify_request, document_response, image_response, request_line, response_head, Route};
use webtoon_viewer::document::{build_document, destination_subpath, display_order, image_address, render_document, subpath_from_parse, DOCUMENT_HEAD, DOCUMENT_TAIL};
use webtoon_viewer::error::GalleryError;
use webtoon_viewer::index::{scan, ImageEntry, ImageIndex, SourceFile};

fn file(name: &str) -> SourceFile {
    SourceFile { name: name.to_string(), path: format!("/pictures/{}", name) }
}

fn tag(reference: &str) -> String {
    format!(
        "<img src=\"{}\" style=\"margin:0px;border:0px;height: 100%;width: 100%; object-fit: contain\"></img>",
        reference
    )
}

fn padded(request: &[u8]) -> Vec<u8> {
    let mut buffer = vec![0u8; 1024];
    buffer[..request.len()].copy_from_slice(request);
    buffer
}

#[test]
fn three_pages_are_shown_by_number() {
    let files = vec![file("page_2.png"), file("page_10.png"), file("page_1.jpg")];
    let report = scan(&files);
    assert_eq!(display_order(&report.index), vec![2, 0, 1]);
    let document = build_document(&report.index, "/img");
    let expected = format!(
        "{}{}{}{}{}",
        DOCUMENT_HEAD,
        tag("/img/page_1.jpg"),
        tag("/img/page_2.png"),
        tag("/img/page_10.png"),
        DOCUMENT_TAIL
    );
    assert_eq!(document, expected);
    let route = classify_request(&padded(b"GET /img/page_1.jpg HTTP/1.1\r\n\r\n"), "/img", &report.index);
    assert_eq!(route, Route::Images(vec![2]));
    assert_eq!(report.index.entry(2).source_path, "/pictures/page_1.jpg");
    let contents = vec![1u8, 2, 3, 0, 255];
    assert_eq!(
        image_response(&contents),
        [&b"HTTP/1.1 200 OK\r\nContent-Length: 5\r\n\r\n"[..], &contents[..]].concat()
    );
}

#[test]
fn root_request_gets_the_document_with_its_length() {
    let report = scan(&vec![file("page_1.jpg")]);
    let subpath = destination_subpath("assets").unwrap();
    assert_eq!(subpath, "/assets");
    let document = build_document(&report.index, &subpath);
    let route = classify_request(&padded(b"GET / HTTP/1.1\r\nHost: localhost\r\n\r\n"), &subpath, &report.index);
    assert_eq!(route, Route::Document);
    let response = document_response(&document);
    let head = format!("HTTP/1.1 200 OK\r\nContent-Length: {}\r\n\r\n", document.len());
    assert_eq!(response, [head.as_bytes(), document.as_bytes()].concat());
}

#[test]
fn content_length_counts_bytes_not_characters() {
    let response = document_response("h\u{e9}");
    assert_eq!(response, b"HTTP/1.1 200 OK\r\nContent-Length: 3\r\n\r\nh\xc3\xa9".to_vec());
    assert_eq!(document_response(""), b"HTTP/1.1 200 OK\r\nContent-Length: 0\r\n\r\n".to_vec());
}

#[test]
fn response_head_states_the_length() {
    assert_eq!(response_head(0), b"HTTP/1.1 200 OK\r\nContent-Length: 0\r\n\r\n".to_vec());
    assert_eq!(response_head(1048576), b"HTTP/1.1 200 OK\r\nContent-Length: 1048576\r\n\r\n".to_vec());
}

#[test]
fn empty_index_gives_head_and_tail() {
    let index = ImageIndex::new();
    assert_eq!(build_document(&index, "/img"), format!("{}{}", DOCUMENT_HEAD, DOCUMENT_TAIL));
    assert_eq!(display_order(&index), Vec::<usize>::new());
}

#[test]
fn document_starts_and_ends_as_a_page() {
    let document = build_document(&ImageIndex::new(), "/img");
    assert!(document.starts_with("<!DOCTYPE html><html><head><title>webtoon viewer</title>"));
    assert!(document.ends_with("</script></body></html>"));
    assert!(document.contains("<div id=\"innerdiv\" style=\"display:block; justify-align:center; width:800px; background-color:#eee;\"></div></div><br><script>"));
}

#[test]
fn equal_orders_are_shown_by_key() {
    let report = scan(&vec![file("b_1.png"), file("a_1.png"), file("c_0.png"), file("a_1.jpg")]);
    assert_eq!(display_order(&report.index), vec![2, 3, 1, 0]);
}

#[test]
fn orders_never_go_down_in_the_document() {
    let report = scan(&vec![
        file("p_30.png"),
        file("p_4.png"),
        file("q_4.png"),
        file("p_100.png"),
        file("p_0.png"),
        file("p_15.png"),
    ]);
    let order = display_order(&report.index);
    assert_eq!(order.len(), 6);
    for pair in order.windows(2) {
        assert!(report.index.entry(pair[0]).order <= report.index.entry(pair[1]).order);
    }
    let mut seen = order.clone();
    seen.sort();
    assert_eq!(seen, vec![0, 1, 2, 3, 4, 5]);
}

#[test]
fn listing_order_does_not_change_the_document() {
    let one = scan(&vec![file("a_2.png"), file("b_1.png"), file("c_2.png"), file("d_3.png")]);
    let two = scan(&vec![file("d_3.png"), file("c_2.png"), file("b_1.png"), file("a_2.png")]);
    let first = build_document(&one.index, "/img");
    let second = build_document(&two.index, "/img");
    assert_eq!(first, second);
    assert_eq!(first, build_document(&one.index, "/img"));
}

#[test]
fn references_are_escaped() {
    let subpath = destination_subpath("a&b").unwrap();
    assert_eq!(subpath, "/a&b");
    let report = scan(&vec![file("page_1.jpg")]);
    let document = build_document(&report.index, &subpath);
    assert_eq!(
        document,
        format!("{}{}{}", DOCUMENT_HEAD, tag("/a&amp;b/page_1.jpg"), DOCUMENT_TAIL)
    );
    let odd = build_document(&report.index, "<\">");
    assert_eq!(
        odd,
        format!("{}{}{}", DOCUMENT_HEAD, tag("&lt;&quot;&gt;/page_1.jpg"), DOCUMENT_TAIL)
    );
}

#[test]
fn render_document_follows_the_given_positions() {
    let report = scan(&vec![file("a_1.png"), file("b_2.png")]);
    let document = render_document(&report.index, &vec![1, 0, 1], "/x");
    assert_eq!(
        document,
        format!("{}{}{}{}{}", DOCUMENT_HEAD, tag("/x/b_2.png"), tag("/x/a_1.png"), tag("/x/b_2.png"), DOCUMENT_TAIL)
    );
}

#[test]
fn image_address_joins_with_a_slash() {
    assert_eq!(image_address("/img", "page_1.jpg"), "/img/page_1.jpg");
    assert_eq!(image_address("", ""), "/");
}

#[test]
fn destination_becomes_a_url_path() {
    assert_eq!(destination_subpath("img").unwrap(), "/img");
    assert_eq!(destination_subpath("").unwrap(), "/");
    assert_eq!(destination_subpath("my pictures").unwrap(), "/my%20pictures");
    assert_eq!(destination_subpath("a/../b").unwrap(), "/b");
    assert_eq!(destination_subpath("img?x=1").unwrap(), "/img");
}

#[test]
fn an_address_that_does_not_parse_is_an_invalid_destination() {
    assert_eq!(subpath_from_parse(None), Err(GalleryError::InvalidDestinationPath));
    assert_eq!(subpath_from_parse(Some("/img".to_string())), Ok("/img".to_string()));
}

#[test]
fn unknown_key_gets_no_response() {
    let report = scan(&vec![file("page_1.jpg"), file("page_2.png")]);
    let route = classify_request(&padded(b"GET /img/page_3.png HTTP/1.1\r\n\r\n"), "/img", &report.index);
    assert_eq!(route, Route::Images(Vec::new()));
    let route = classify_request(&padded(b"POST / HTTP/1.1\r\n\r\n"), "/img", &report.index);
    assert_eq!(route, Route::Images(Vec::new()));
    let route = classify_request(&padded(b"GET /other/page_1.jpg HTTP/1.1\r\n\r\n"), "/img", &report.index);
    assert_eq!(route, Route::Images(Vec::new()));
    let route = classify_request(b"", "/img", &report.index);
    assert_eq!(route, Route::Images(Vec::new()));
}

#[test]
fn other_root_shapes_are_not_the_root_request() {
    let index = ImageIndex::new();
    assert_eq!(classify_request(b"GET / HTTP/1.0\r\n", "/img", &index), Route::Images(Vec::new()));
    assert_eq!(classify_request(b"GET / HTTP/1.1\n", "/img", &index), Route::Images(Vec::new()));
    assert_eq!(classify_request(b"GET / HTTP/1.1\r\n", "/img", &index), Route::Document);
}

#[test]
fn every_key_that_prefixes_the_request_is_served() {
    let mut index = ImageIndex::new();
    index.insert(ImageEntry { source_path: "x".to_string(), order: 1, key: "a1.png".to_string() });
    index.insert(ImageEntry { source_path: "y".to_string(), order: 2, key: "b2.png".to_string() });
    index.insert(ImageEntry { source_path: "z".to_string(), order: 3, key: "a1.png2.jpg".to_string() });
    let route = classify_request(&padded(b"GET /img/a1.png2.jpg HTTP/1.1\r\n"), "/img", &index);
    assert_eq!(route, Route::Images(vec![0, 2]));
    let route = classify_request(&padded(b"GET /img/a1.png HTTP/1.1\r\n"), "/img", &index);
    assert_eq!(route, Route::Images(vec![0]));
}

#[test]
fn encoded_names_are_requested_by_their_key() {
    let report = scan(&vec![file("my page 1.png")]);
    let document = build_document(&report.index, "/img");
    assert!(document.contains("src=\"/img/my%20page%201.png\""));
    let route = classify_request(&padded(b"GET /img/my%20page%201.png HTTP/1.1\r\n"), "/img", &report.index);
    assert_eq!(route, Route::Images(vec![0]));
    assert_eq!(request_line("/img", "my%20page%201.png"), b"GET /img/my%20page%201.png".to_vec());
}

#[test]
fn image_bytes_are_served_unchanged() {
    let contents: Vec<u8> = (0..=255u8).collect();
    let response = image_response(&contents);
    let head = b"HTTP/1.1 200 OK\r\nContent-Length: 256\r\n\r\n";
    assert_eq!(&response[..head.len()], &head[..]);
    assert_eq!(&response[head.len()..], &contents[..]);
}
