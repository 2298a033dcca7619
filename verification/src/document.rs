use vstd::prelude::*;
use vstd::string::StringExecFns;
use crate::codec::{escape_html, html_escaped, parse_url_path, url_path};
use crate::error::GalleryError;
use crate::index::{distinct_keys, EntryView, ImageEntry, ImageIndex};
use crate::text::{bytes_less, bytes_of, lemma_lex_less_asymmetric, lemma_lex_less_total, lemma_lex_less_transitive, lex_less};

verus! {

/// The address under which a destination is tried as a URL path.
pub const ADDRESS_PREFIX: &'static str = "http://localhost:8080/";

/// The sub-path that a destination stands for, where it forms a URL path.
pub open spec fn spec_subpath(destination: Seq<char>) -> Option<Seq<char>> {
    url_path(ADDRESS_PREFIX@ + destination)
}

/// Turns the outcome of parsing the address into the sub-path, or into
/// `InvalidDestinationPath` where the address did not parse.
pub fn subpath_from_parse(parsed: Option<String>) -> (res: Result<String, GalleryError>)
    ensures
        match parsed {
            Some(path) => res == Ok::<String, GalleryError>(path),
            None => res == Err::<String, GalleryError>(GalleryError::InvalidDestinationPath),
        },
{
    match parsed {
        Some(path) => Ok(path),
        None => Err(GalleryError::InvalidDestinationPath),
    }
}

/// The sub-path under which the images are served: the path of the URL that
/// the destination forms behind the viewer's address.
pub fn destination_subpath(destination: &str) -> (res: Result<String, GalleryError>)
    ensures
        match spec_subpath(destination@) {
            Some(path) => res is Ok && res->Ok_0@ == path,
            None => res == Err::<String, GalleryError>(GalleryError::InvalidDestinationPath),
        },
{
    let mut address = String::from_str(ADDRESS_PREFIX);
    address.append(destination);
    subpath_from_parse(parse_url_path(address.as_str()))
}

/// Whether `x` is shown strictly before `y`: by the smaller order, and among
/// equal orders by the key that comes first byte by byte.
pub open spec fn before(x: EntryView, y: EntryView) -> bool {
    x.order < y.order || (x.order == y.order && lex_less(bytes_of(x.key), bytes_of(y.key)))
}

/// No entry is shown both before and after another.
pub proof fn lemma_before_asymmetric(x: EntryView, y: EntryView)
    requires
        before(x, y),
    ensures
        !before(y, x),
{
    if x.order == y.order {
        lemma_lex_less_asymmetric(bytes_of(x.key), bytes_of(y.key));
    }
}

/// Being shown before carries over from one entry to the next.
pub proof fn lemma_before_transitive(x: EntryView, y: EntryView, z: EntryView)
    requires
        before(x, y),
        before(y, z),
    ensures
        before(x, z),
{
    if x.order == y.order && y.order == z.order {
        lemma_lex_less_transitive(bytes_of(x.key), bytes_of(y.key), bytes_of(z.key));
    }
}

/// Two entries with different keys are shown one before the other.
pub proof fn lemma_before_total(x: EntryView, y: EntryView)
    requires
        x.key != y.key,
    ensures
        before(x, y) || before(y, x),
{
    if x.order == y.order {
        vstd::utf8::encode_utf8_decode_utf8(x.key);
        vstd::utf8::encode_utf8_decode_utf8(y.key);
        lemma_lex_less_total(bytes_of(x.key), bytes_of(y.key));
    }
}

/// Whether `a` is shown strictly before `b`.
pub fn entry_before(a: &ImageEntry, b: &ImageEntry) -> (res: bool)
    ensures
        res == before(a@, b@),
{
    a.order < b.order || (a.order == b.order && bytes_less(
        a.key.as_str().as_bytes(),
        b.key.as_str().as_bytes(),
    ))
}

/// No entry stands after one that it should be shown before.
pub open spec fn in_display_order(listing: Seq<EntryView>) -> bool {
    forall|i: int, j: int|
        0 <= i < j < listing.len() ==> !before(#[trigger] listing[j], #[trigger] listing[i])
}

/// Whether `listing` shows the entries of an index: the same entries, each
/// once, in display order.
pub open spec fn is_display_listing(listing: Seq<EntryView>, entries: Seq<EntryView>) -> bool {
    &&& listing.len() == entries.len()
    &&& forall|k: int| 0 <= k < listing.len() ==> entries.contains(#[trigger] listing[k])
    &&& forall|i: int| 0 <= i < entries.len() ==> listing.contains(#[trigger] entries[i])
    &&& distinct_keys(listing)
    &&& in_display_order(listing)
}

/// The entries that stand at the given positions, in that sequence.
pub open spec fn listing_of(entries: Seq<EntryView>, order: Seq<usize>) -> Seq<EntryView> {
    Seq::new(order.len(), |k: int| entries[order[k] as int])
}

/// Whether the position `v` stands somewhere in `order`.
pub open spec fn occurs(order: Seq<usize>, v: int) -> bool {
    exists|k: int| 0 <= k < order.len() && #[trigger] order[k] == v
}

/// The positions of the entries in the sequence in which they are shown.
pub fn display_order(index: &ImageIndex) -> (order: Vec<usize>)
    requires
        index.wf(),
    ensures
        order@.len() == index@.len(),
        forall|k: int| 0 <= k < order@.len() ==> #[trigger] order@[k] < index@.len(),
        is_display_listing(listing_of(index@, order@), index@),
        forall|a: int, b: int|
            0 <= a < b < order@.len() ==> index@[#[trigger] order@[a] as int].order
                <= index@[#[trigger] order@[b] as int].order,
{
    let n = index.len();
    let mut order: Vec<usize> = Vec::new();
    let mut i: usize = 0;
    while i < n
        invariant
            i <= n,
            n == index@.len(),
            order@.len() == i,
            forall|k: int| 0 <= k < order@.len() ==> #[trigger] order@[k] < i,
            forall|v: int| 0 <= v < i ==> #[trigger] occurs(order@, v),
            forall|a: int, b: int| 0 <= a < b < order@.len() ==> #[trigger] order@[a] != #[trigger] order@[b],
            forall|a: int, b: int|
                0 <= a < b < order@.len() ==> !before(
                    index@[#[trigger] order@[b] as int],
                    index@[#[trigger] order@[a] as int],
                ),
        decreases n - i,
    {
        let entry = index.entry(i);
        let mut p: usize = 0;
        while p < order.len() && !entry_before(entry, index.entry(order[p]))
            invariant
                p <= order@.len(),
                i < n,
                n == index@.len(),
                entry@ == index@[i as int],
                forall|k: int| 0 <= k < order@.len() ==> #[trigger] order@[k] < i,
                forall|a: int| 0 <= a < p ==> !before(index@[i as int], index@[#[trigger] order@[a] as int]),
            decreases order@.len() - p,
        {
            p += 1;
        }
        let ghost prev = order@;
        order.insert(p, i);
        proof {
            let next = order@;
            assert(next == prev.insert(p as int, i));
            assert forall|a: int, b: int| 0 <= a < b < next.len() implies !before(
                index@[#[trigger] next[b] as int],
                index@[#[trigger] next[a] as int],
            ) by {
                if b == p {
                    assert(next[a] == prev[a]);
                } else if a == p {
                    assert(next[b] == prev[b - 1]);
                    let x = index@[i as int];
                    let y = index@[prev[p as int] as int];
                    let z = index@[prev[b - 1] as int];
                    assert(before(x, y));
                    if before(z, x) {
                        lemma_before_transitive(z, x, y);
                        if b - 1 == p {
                            lemma_before_asymmetric(z, x);
                        }
                    }
                } else {
                    let a0 = if a < p { a } else { a - 1 };
                    let b0 = if b < p { b } else { b - 1 };
                    assert(next[a] == prev[a0]);
                    assert(next[b] == prev[b0]);
                }
            }
            assert forall|a: int, b: int| 0 <= a < b < next.len() implies #[trigger] next[a]
                != #[trigger] next[b] by {
                let a0 = if a < p { a } else { a - 1 };
                let b0 = if b < p { b } else { b - 1 };
                if a != p {
                    assert(next[a] == prev[a0]);
                }
                if b != p {
                    assert(next[b] == prev[b0]);
                }
            }
            assert forall|k: int| 0 <= k < next.len() implies #[trigger] next[k] < i + 1 by {
                let k0 = if k < p { k } else { k - 1 };
                if k != p {
                    assert(next[k] == prev[k0]);
                }
            }
            assert forall|v: int| 0 <= v < i + 1 implies #[trigger] occurs(next, v) by {
                if v == i {
                    assert(next[p as int] == v);
                } else {
                    assert(occurs(prev, v));
                    let k0 = choose|k: int| 0 <= k < prev.len() && #[trigger] prev[k] == v;
                    let k1 = if k0 < p { k0 } else { k0 + 1 };
                    assert(next[k1] == v);
                }
            }
        }
        i += 1;
    }
    proof {
        let listing = listing_of(index@, order@);
        assert forall|k: int| 0 <= k < listing.len() implies index@.contains(#[trigger] listing[k]) by {
            assert(index@[order@[k] as int] == listing[k]);
        }
        assert forall|v: int| 0 <= v < index@.len() implies listing.contains(#[trigger] index@[v]) by {
            assert(occurs(order@, v));
            let k = choose|k: int| 0 <= k < order@.len() && #[trigger] order@[k] == v;
            assert(listing[k] == index@[v]);
        }
        assert forall|a: int, b: int| 0 <= a < b < listing.len() implies (#[trigger] listing[a]).key != (
        #[trigger] listing[b]).key by {
            let x = order@[a] as int;
            let y = order@[b] as int;
            assert(x != y);
            if x < y {
                assert(index@[x].key != index@[y].key);
            } else {
                assert(index@[y].key != index@[x].key);
            }
        }
        assert forall|a: int, b: int| 0 <= a < b < listing.len() implies !before(
            #[trigger] listing[b],
            #[trigger] listing[a],
        ) by {
            assert(!before(index@[order@[b] as int], index@[order@[a] as int]));
        }
    }
    order
}

/// In a listing in display order the orders never go down.
pub proof fn lemma_display_order_ascends(listing: Seq<EntryView>)
    requires
        in_display_order(listing),
    ensures
        forall|i: int, j: int|
            0 <= i < j < listing.len() ==> (#[trigger] listing[i]).order <= (#[trigger] listing[j]).order,
{
    assert forall|i: int, j: int| 0 <= i < j < listing.len() implies (#[trigger] listing[i]).order <= (
    #[trigger] listing[j]).order by {
        assert(!before(listing[j], listing[i]));
    }
}

/// Two listings of the same entries in display order agree on their first
/// `k` places.
proof fn lemma_listings_agree(first: Seq<EntryView>, second: Seq<EntryView>, k: int)
    requires
        first.len() == second.len(),
        0 <= k <= first.len(),
        distinct_keys(first),
        distinct_keys(second),
        in_display_order(first),
        in_display_order(second),
        forall|i: int| 0 <= i < first.len() ==> second.contains(#[trigger] first[i]),
        forall|i: int| 0 <= i < second.len() ==> first.contains(#[trigger] second[i]),
    ensures
        forall|j: int| 0 <= j < k ==> #[trigger] first[j] == second[j],
    decreases k,
{
    if k > 0 {
        lemma_listings_agree(first, second, k - 1);
        let at = k - 1;
        let x = first[at];
        let y = second[at];
        if x != y {
            assert(second.contains(x));
            let m = choose|m: int| 0 <= m < second.len() && second[m] == x;
            if m < at {
                assert(first[m] == second[m]);
                assert(first[m].key == first[at].key);
            }
            assert(m > at);
            assert(!before(second[m], second[at]));
            assert(first.contains(y));
            let r = choose|r: int| 0 <= r < first.len() && first[r] == y;
            if r < at {
                assert(first[r] == second[r]);
                assert(second[r].key == second[at].key);
            }
            assert(r > at);
            assert(!before(first[r], first[at]));
            assert(second[at].key != second[m].key);
            lemma_before_total(x, y);
        }
    }
}

/// Entries with distinct keys have one display order only: two listings in
/// display order that hold the same entries, each once, are the same listing.
pub proof fn lemma_display_listing_unique(first: Seq<EntryView>, second: Seq<EntryView>)
    requires
        first.len() == second.len(),
        distinct_keys(first),
        distinct_keys(second),
        in_display_order(first),
        in_display_order(second),
        forall|i: int| 0 <= i < first.len() ==> second.contains(#[trigger] first[i]),
        forall|i: int| 0 <= i < second.len() ==> first.contains(#[trigger] second[i]),
    ensures
        first == second,
{
    lemma_listings_agree(first, second, first.len() as int);
    assert(first =~= second);
}

/// The listing of the entries in display order.
pub open spec fn display_listing(entries: Seq<EntryView>) -> Seq<EntryView> {
    choose|listing: Seq<EntryView>| is_display_listing(listing, entries)
}

/// Any listing that shows the entries is the display listing.
pub proof fn lemma_display_listing_is(listing: Seq<EntryView>, entries: Seq<EntryView>)
    requires
        is_display_listing(listing, entries),
    ensures
        display_listing(entries) == listing,
        is_display_listing(display_listing(entries), entries),
{
    let chosen = display_listing(entries);
    assert(is_display_listing(chosen, entries));
    assert forall|i: int| 0 <= i < chosen.len() implies listing.contains(#[trigger] chosen[i]) by {
        assert(entries.contains(chosen[i]));
        let e = choose|e: int| 0 <= e < entries.len() && entries[e] == chosen[i];
        assert(listing.contains(entries[e]));
    }
    assert forall|i: int| 0 <= i < listing.len() implies chosen.contains(#[trigger] listing[i]) by {
        assert(entries.contains(listing[i]));
        let e = choose|e: int| 0 <= e < entries.len() && entries[e] == listing[i];
        assert(chosen.contains(entries[e]));
    }
    lemma_display_listing_unique(chosen, listing);
}

/// The fixed text of the document up to the first image.
pub const DOCUMENT_HEAD: &'static str =
    "<!DOCTYPE html><html><head><title>webtoon viewer</title><link rel=\"preconnect\" href=\"https://fonts.googleapis.com\"></link><link rel=\"preconnect\" href=\"https://fonts.gstatic.com\" crossorigin></link><link href=\"https://fonts.googleapis.com/css2?family=Permanent+Marker&amp;display=swap\" rel=\"stylesheet\"></link><link href=\"https://fonts.googleapis.com/css2?family=Roboto:ital,wght@0,100;0,300;0,400;0,500;0,700;0,900;1,100;1,300;1,400;1,500;1,700;1,900&amp;display=swap\" rel=\"stylesheet\"></link></head><body><div id=\"maindiv\" style=\"display:grid; place-items:center; background-color:#eee; font-size:0\"><div id=\"header\" style=\"width:100%;font-size:20pt;background-color:#000;text-align:center; font-family: Permanent Marker, cursive;\"><h1 id=\"heading\" class=\"title\" style=\"color:white\">webtoon viewer</h1></div><div id=\"innerdiv\" style=\"display:block; justify-align:center; width:800px; background-color:#eee;\">";

/// The text of an image element before its reference.
pub const IMAGE_OPEN: &'static str = "<img src=\"";

/// The text of an image element after its reference.
pub const IMAGE_CLOSE: &'static str =
    "\" style=\"margin:0px;border:0px;height: 100%;width: 100%; object-fit: contain\"></img>";

/// The fixed text of the document after the last image. Its script gives the
/// content region the full width on mobile browsers and 800 pixels elsewhere.
pub const DOCUMENT_TAIL: &'static str =
    "</div></div><br><script>if(/Android|webOS|iPhone|iPad|iPod|BlackBerry|IEMobile|Opera Mini/i.test(navigator.userAgent)){var e1 = document.getElementById('innerdiv');e1.style.width = '100%';}else{var e1 = document.getElementById('innerdiv');e1.style.width = '800px';}</script></body></html>";

/// The address of an image: the sub-path, a slash and the key.
pub open spec fn image_reference(subpath: Seq<char>, key: Seq<char>) -> Seq<char> {
    subpath + "/"@ + key
}

/// The element that shows one image, its address escaped.
pub open spec fn image_tag(subpath: Seq<char>, key: Seq<char>) -> Seq<char> {
    IMAGE_OPEN@ + html_escaped(image_reference(subpath, key)) + IMAGE_CLOSE@
}

/// The elements of the images of a listing, one after the other.
pub open spec fn image_tags(subpath: Seq<char>, listing: Seq<EntryView>) -> Seq<char>
    decreases listing.len(),
{
    if listing.len() == 0 {
        Seq::<char>::empty()
    } else {
        image_tags(subpath, listing.drop_last()) + image_tag(subpath, listing.last().key)
    }
}

/// The whole document for a listing.
pub open spec fn document_text(subpath: Seq<char>, listing: Seq<EntryView>) -> Seq<char> {
    DOCUMENT_HEAD@ + image_tags(subpath, listing) + DOCUMENT_TAIL@
}

/// The address of the image with this key.
pub fn image_address(subpath: &str, key: &str) -> (address: String)
    ensures
        address@ == image_reference(subpath@, key@),
{
    let mut address = String::from_str(subpath);
    address.append("/");
    address.append(key);
    address
}

/// Writes the document that shows the entries at the given positions, in
/// that sequence.
pub fn render_document(index: &ImageIndex, order: &Vec<usize>, subpath: &str) -> (document: String)
    requires
        forall|k: int| 0 <= k < order@.len() ==> #[trigger] order@[k] < index@.len(),
    ensures
        document@ == document_text(subpath@, listing_of(index@, order@)),
{
    let mut document = String::from_str(DOCUMENT_HEAD);
    let ghost listing = listing_of(index@, order@);
    let mut k: usize = 0;
    proof {
        assert(listing.take(0) =~= Seq::<EntryView>::empty());
        assert(document@ =~= DOCUMENT_HEAD@ + image_tags(subpath@, listing.take(0)));
    }
    while k < order.len()
        invariant
            k <= order@.len(),
            listing == listing_of(index@, order@),
            forall|j: int| 0 <= j < order@.len() ==> #[trigger] order@[j] < index@.len(),
            document@ == DOCUMENT_HEAD@ + image_tags(subpath@, listing.take(k as int)),
        decreases order@.len() - k,
    {
        let entry = index.entry(order[k]);
        let address = image_address(subpath, entry.key.as_str());
        let escaped = escape_html(address.as_str());
        let ghost start = document@;
        document.append(IMAGE_OPEN);
        document.append(escaped.as_str());
        document.append(IMAGE_CLOSE);
        proof {
            assert(listing.take(k + 1).drop_last() =~= listing.take(k as int));
            assert(listing.take(k + 1).last() == entry@);
            assert(document@ =~= start + image_tag(subpath@, entry@.key));
            assert(document@ =~= DOCUMENT_HEAD@ + image_tags(subpath@, listing.take(k + 1)));
        }
        k += 1;
    }
    proof {
        assert(listing.take(k as int) =~= listing);
    }
    document.append(DOCUMENT_TAIL);
    document
}

/// Writes the gallery document: the fixed head, one image element per entry
/// in display order, and the fixed tail.
pub fn build_document(index: &ImageIndex, subpath: &str) -> (document: String)
    requires
        index.wf(),
    ensures
        document@ == document_text(subpath@, display_listing(index@)),
        is_display_listing(display_listing(index@), index@),
{
    let order = display_order(index);
    proof {
        lemma_display_listing_is(listing_of(index@, order@), index@);
    }
    render_document(index, &order, subpath)
}

/// The document depends on the entries alone, not on the sequence in which
/// they were indexed: two indexes with distinct keys that hold the same
/// entries give the same document, byte for byte.
pub proof fn lemma_document_deterministic(
    first: Seq<EntryView>,
    second: Seq<EntryView>,
    first_listing: Seq<EntryView>,
    second_listing: Seq<EntryView>,
    subpath: Seq<char>,
)
    requires
        first.len() == second.len(),
        forall|i: int| 0 <= i < first.len() ==> second.contains(#[trigger] first[i]),
        forall|i: int| 0 <= i < second.len() ==> first.contains(#[trigger] second[i]),
        is_display_listing(first_listing, first),
        is_display_listing(second_listing, second),
    ensures
        first_listing == second_listing,
        document_text(subpath, first_listing) == document_text(subpath, second_listing),
        display_listing(first) == display_listing(second),
{
    assert forall|i: int| 0 <= i < first_listing.len() implies second_listing.contains(
        #[trigger] first_listing[i],
    ) by {
        assert(first.contains(first_listing[i]));
        let e = choose|e: int| 0 <= e < first.len() && first[e] == first_listing[i];
        assert(second.contains(first[e]));
        let f = choose|f: int| 0 <= f < second.len() && second[f] == first[e];
        assert(second_listing.contains(second[f]));
    }
    assert forall|i: int| 0 <= i < second_listing.len() implies first_listing.contains(
        #[trigger] second_listing[i],
    ) by {
        assert(second.contains(second_listing[i]));
        let e = choose|e: int| 0 <= e < second.len() && second[e] == second_listing[i];
        assert(first.contains(second[e]));
        let f = choose|f: int| 0 <= f < first.len() && first[f] == second[e];
        assert(first_listing.contains(first[f]));
    }
    lemma_display_listing_unique(first_listing, second_listing);
    lemma_display_listing_is(first_listing, first);
    lemma_display_listing_is(second_listing, second);
}

} // verus!
