use vstd::prelude::*;
use crate::document::{is_display_listing, occurs};
use crate::index::{EntryView, ImageIndex};
use crate::text::{append_bytes, bytes_of, decimal_bytes, push_decimal, starts_with};

verus! {

/// The request line that asks for the document.
pub const ROOT_REQUEST: &'static str = "GET / HTTP/1.1\r\n";

/// The start of a request line that asks for an image.
pub const IMAGE_REQUEST_START: &'static str = "GET ";

/// The start of every response, up to the length of the body.
pub const RESPONSE_START: &'static str = "HTTP/1.1 200 OK\r\nContent-Length: ";

/// The end of the response's head.
pub const RESPONSE_HEAD_END: &'static str = "\r\n\r\n";

/// Whether a request begins with the request line for the document.
pub open spec fn is_root_request(request: Seq<u8>) -> bool {
    bytes_of(ROOT_REQUEST@).is_prefix_of(request)
}

/// The start of the request that asks for the image with this key.
pub open spec fn image_request_line(subpath: Seq<char>, key: Seq<char>) -> Seq<u8> {
    bytes_of(IMAGE_REQUEST_START@) + bytes_of(subpath) + bytes_of("/"@) + bytes_of(key)
}

/// Whether a request asks for the image with this key.
pub open spec fn asks_for(request: Seq<u8>, subpath: Seq<char>, key: Seq<char>) -> bool {
    image_request_line(subpath, key).is_prefix_of(request)
}

/// Whether `found` lists, in rising order and each once, the positions of
/// exactly those entries that the request asks for.
pub open spec fn is_match_list(
    found: Seq<usize>,
    request: Seq<u8>,
    subpath: Seq<char>,
    entries: Seq<EntryView>,
) -> bool {
    &&& forall|a: int, b: int| 0 <= a < b < found.len() ==> #[trigger] found[a] < #[trigger] found[b]
    &&& forall|k: int| 0 <= k < found.len() ==> #[trigger] found[k] < entries.len()
    &&& forall|v: int|
        0 <= v < entries.len() ==> (#[trigger] occurs(found, v) <==> asks_for(
            request,
            subpath,
            entries[v].key,
        ))
}

/// What a request is answered with.
#[derive(Debug, PartialEq, Eq)]
pub enum Route {
    /// The gallery document.
    Document,
    /// The images at these positions of the index, one response each. With
    /// no position the connection is closed and nothing is written.
    Images(Vec<usize>),
}

/// Builds the start of the request that asks for the image with this key.
pub fn request_line(subpath: &str, key: &str) -> (line: Vec<u8>)
    ensures
        line@ == image_request_line(subpath@, key@),
{
    let mut line: Vec<u8> = Vec::new();
    append_bytes(&mut line, IMAGE_REQUEST_START.as_bytes());
    append_bytes(&mut line, subpath.as_bytes());
    append_bytes(&mut line, "/".as_bytes());
    append_bytes(&mut line, key.as_bytes());
    proof {
        assert(line@ =~= image_request_line(subpath@, key@));
    }
    line
}

/// Decides what a request gets. A request that begins with the root request
/// line gets the document. Any other gets every image whose request line it
/// begins with, and nothing where there is none.
pub fn classify_request(request: &[u8], subpath: &str, index: &ImageIndex) -> (route: Route)
    ensures
        is_root_request(request@) ==> route is Document,
        !is_root_request(request@) ==> route is Images && is_match_list(
            route->Images_0@,
            request@,
            subpath@,
            index@,
        ),
{
    if starts_with(request, ROOT_REQUEST.as_bytes()) {
        return Route::Document;
    }
    let mut found: Vec<usize> = Vec::new();
    let n = index.len();
    let mut i: usize = 0;
    while i < n
        invariant
            i <= n,
            n == index@.len(),
            forall|a: int, b: int| 0 <= a < b < found@.len() ==> #[trigger] found@[a] < #[trigger] found@[b],
            forall|k: int| 0 <= k < found@.len() ==> #[trigger] found@[k] < i,
            forall|v: int|
                0 <= v < i ==> (#[trigger] occurs(found@, v) <==> asks_for(
                    request@,
                    subpath@,
                    index@[v].key,
                )),
        decreases n - i,
    {
        let line = request_line(subpath, index.entry(i).key.as_str());
        let ghost prev = found@;
        if starts_with(request, line.as_slice()) {
            found.push(i);
            proof {
                assert(found@[prev.len() as int] == i);
                assert forall|v: int| 0 <= v < i + 1 implies (#[trigger] occurs(found@, v) <==> asks_for(
                    request@,
                    subpath@,
                    index@[v].key,
                )) by {
                    if v < i {
                        if occurs(prev, v) {
                            let k = choose|k: int| 0 <= k < prev.len() && #[trigger] prev[k] == v;
                            assert(found@[k] == v);
                        }
                        if occurs(found@, v) {
                            let k = choose|k: int| 0 <= k < found@.len() && #[trigger] found@[k] == v;
                            assert(prev[k] == v);
                        }
                    }
                }
            }
        } else {
            proof {
                assert(!occurs(found@, i as int));
            }
        }
        i += 1;
    }
    Route::Images(found)
}

/// The head of a response with a body of the given length.
pub open spec fn response_header(length: nat) -> Seq<u8> {
    bytes_of(RESPONSE_START@) + decimal_bytes(length) + bytes_of(RESPONSE_HEAD_END@)
}

/// Builds the head of a response: the status line, the length of the body
/// and the empty line.
pub fn response_head(length: usize) -> (head: Vec<u8>)
    ensures
        head@ == response_header(length as nat),
{
    let mut head: Vec<u8> = Vec::new();
    append_bytes(&mut head, RESPONSE_START.as_bytes());
    push_decimal(&mut head, length);
    append_bytes(&mut head, RESPONSE_HEAD_END.as_bytes());
    proof {
        assert(head@ =~= response_header(length as nat));
    }
    head
}

/// The response to a root request: the head with the document's length in
/// bytes, then the document.
pub fn document_response(document: &str) -> (response: Vec<u8>)
    ensures
        response@ == response_header(bytes_of(document@).len()) + bytes_of(document@),
{
    let body = document.as_bytes();
    let mut response = response_head(body.len());
    append_bytes(&mut response, body);
    response
}

/// The response to an image request: the head with the image's length, then
/// the image's bytes as they are.
pub fn image_response(contents: &[u8]) -> (response: Vec<u8>)
    ensures
        response@ == response_header(contents@.len()) + contents@,
{
    let mut response = response_head(contents.len());
    append_bytes(&mut response, contents);
    response
}

/// A request that is no root request and asks for no image of the index is
/// answered with nothing.
pub proof fn lemma_unknown_request_gets_nothing(
    found: Seq<usize>,
    request: Seq<u8>,
    subpath: Seq<char>,
    entries: Seq<EntryView>,
)
    requires
        is_match_list(found, request, subpath, entries),
        forall|v: int| 0 <= v < entries.len() ==> !asks_for(request, subpath, (#[trigger] entries[v]).key),
    ensures
        found.len() == 0,
{
    if found.len() > 0 {
        let v = found[0] as int;
        assert(occurs(found, v));
        assert(!asks_for(request, subpath, entries[v].key));
    }
}

/// Every image that the document refers to can be fetched: a request that
/// is no root request and begins with the request line of an entry of the
/// listing is answered with the image at that entry's position in the index.
pub proof fn lemma_referenced_image_is_served(
    found: Seq<usize>,
    request: Seq<u8>,
    subpath: Seq<char>,
    entries: Seq<EntryView>,
    listing: Seq<EntryView>,
    k: int,
)
    requires
        is_display_listing(listing, entries),
        is_match_list(found, request, subpath, entries),
        0 <= k < listing.len(),
        asks_for(request, subpath, listing[k].key),
    ensures
        exists|position: int|
            0 <= position < entries.len() && entries[position] == listing[k] && #[trigger] occurs(
                found,
                position,
            ),
{
    assert(entries.contains(listing[k]));
    let position = choose|position: int| 0 <= position < entries.len() && entries[position] == listing[k];
    assert(occurs(found, position));
}

} // verus!
