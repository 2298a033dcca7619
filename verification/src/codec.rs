use vstd::prelude::*;
use crate::text::bytes_of;

verus! {

/// Whether a byte passes through percent-encoding unchanged: an ASCII letter
/// or digit, or one of `-`, `.`, `_`, `~`.
pub open spec fn is_unreserved(b: u8) -> bool {
    (48 <= b <= 57) || (65 <= b <= 90) || (97 <= b <= 122) || b == 45 || b == 46 || b == 95 || b
        == 126
}

/// The upper-case hexadecimal digit for a value below sixteen.
pub open spec fn hex_digit(d: u8) -> char {
    if d < 10 {
        (48 + d) as u8 as char
    } else {
        (55 + d) as u8 as char
    }
}

/// What one byte becomes: itself where it is unreserved, else a percent sign
/// and its two hexadecimal digits.
pub open spec fn encoded_byte(b: u8) -> Seq<char> {
    if is_unreserved(b) {
        seq![b as char]
    } else {
        seq!['%', hex_digit(b / 16), hex_digit(b % 16)]
    }
}

/// The percent-encoded form of a byte string.
pub open spec fn percent_encoded(bytes: Seq<u8>) -> Seq<char>
    decreases bytes.len(),
{
    if bytes.len() == 0 {
        Seq::<char>::empty()
    } else {
        encoded_byte(bytes[0]) + percent_encoded(bytes.drop_first())
    }
}

/// A byte can be read back from what it becomes.
pub proof fn lemma_encoded_byte_injective(x: u8, y: u8)
    requires
        encoded_byte(x) == encoded_byte(y),
    ensures
        x == y,
{
    let ex = encoded_byte(x);
    let ey = encoded_byte(y);
    assert(ex.len() == ey.len());
    if is_unreserved(x) {
        assert(ex[0] == x as char);
        assert(ey[0] == y as char);
    } else {
        assert(ex[1] == hex_digit(x / 16));
        assert(ey[1] == hex_digit(y / 16));
        assert(ex[2] == hex_digit(x % 16));
        assert(ey[2] == hex_digit(y % 16));
        assert(x / 16 == y / 16);
        assert(x % 16 == y % 16);
    }
}

/// Percent-encoding loses nothing: two byte strings with the same encoded
/// form are the same.
pub proof fn lemma_percent_encoded_injective(a: Seq<u8>, b: Seq<u8>)
    requires
        percent_encoded(a) == percent_encoded(b),
    ensures
        a == b,
    decreases a.len(),
{
    if a.len() == 0 {
        if b.len() > 0 {
            assert(percent_encoded(b).len() >= encoded_byte(b[0]).len());
        }
        assert(a =~= b);
    } else if b.len() == 0 {
        assert(percent_encoded(a).len() >= encoded_byte(a[0]).len());
    } else {
        let x = a[0];
        let y = b[0];
        let ex = encoded_byte(x);
        let ey = encoded_byte(y);
        let ra = percent_encoded(a.drop_first());
        let rb = percent_encoded(b.drop_first());
        let whole = percent_encoded(a);
        assert(whole == ex + ra);
        assert(whole == ey + rb);
        assert(whole[0] == ex[0]);
        assert(whole[0] == ey[0]);
        if is_unreserved(x) != is_unreserved(y) {
            assert(ex[0] != ey[0]);
        }
        if !is_unreserved(x) {
            assert(whole[1] == ex[1] && whole[1] == ey[1]);
            assert(whole[2] == ex[2] && whole[2] == ey[2]);
        }
        assert(ex =~= ey);
        lemma_encoded_byte_injective(x, y);
        assert(ra =~= whole.subrange(ex.len() as int, whole.len() as int));
        assert(rb =~= whole.subrange(ey.len() as int, whole.len() as int));
        lemma_percent_encoded_injective(a.drop_first(), b.drop_first());
        assert(a =~= seq![x] + a.drop_first());
        assert(b =~= seq![y] + b.drop_first());
    }
}

/// Calls `urlencoding::encode`. Trusted: the result is the text's UTF-8 bytes,
/// each unreserved byte kept and every other byte written as `%` and two
/// upper-case hexadecimal digits.
#[verifier::external_body]
pub(crate) fn percent_encode(name: &str) -> (key: String)
    ensures
        key@ == percent_encoded(bytes_of(name@)),
{
    urlencoding::encode(name).into_owned()
}

/// What one character becomes in escaped HTML text.
pub open spec fn escaped_char(c: char) -> Seq<char> {
    if c == '&' {
        seq!['&', 'a', 'm', 'p', ';']
    } else if c == '"' {
        seq!['&', 'q', 'u', 'o', 't', ';']
    } else if c == '<' {
        seq!['&', 'l', 't', ';']
    } else if c == '>' {
        seq!['&', 'g', 't', ';']
    } else {
        seq![c]
    }
}

/// A text with `&`, `"`, `<` and `>` replaced by their entities.
pub open spec fn html_escaped(text: Seq<char>) -> Seq<char>
    decreases text.len(),
{
    if text.len() == 0 {
        Seq::<char>::empty()
    } else {
        escaped_char(text[0]) + html_escaped(text.drop_first())
    }
}

/// Renders a text through `horrorshow::Template::into_string`. Trusted: a
/// plain text renders as itself with `&`, `"`, `<` and `>` replaced by
/// `&amp;`, `&quot;`, `&lt;` and `&gt;`, and rendering into a string records
/// no error.
#[verifier::external_body]
pub(crate) fn escape_html(text: &str) -> (res: String)
    ensures
        res@ == html_escaped(text@),
{
    horrorshow::Template::into_string(text).unwrap_or_default()
}

/// What the regular expression `pattern` captures in its group `group` at its
/// first match in `text`: `None` where the pattern does not compile,
/// `Some(None)` where it matches nowhere or the group took no part.
pub uninterp spec fn named_capture(pattern: Seq<char>, group: Seq<char>, text: Seq<char>) -> Option<
    Option<Seq<char>>,
>;

/// Compiles `pattern` with `regex::Regex::new`, searches `text` with
/// `Regex::captures` and reads the group with `Captures::name`. Trusted: the
/// outcome depends on the three texts alone.
#[verifier::external_body]
pub(crate) fn capture_named(pattern: &str, group: &str, text: &str) -> (res: Option<Option<String>>)
    ensures
        match res {
            None => named_capture(pattern@, group@, text@).is_none(),
            Some(None) => named_capture(pattern@, group@, text@) == Some(None::<Seq<char>>),
            Some(Some(found)) => named_capture(pattern@, group@, text@) == Some(Some(found@)),
        },
{
    match regex::Regex::new(pattern) {
        Ok(compiled) => match compiled.captures(text) {
            Some(captures) => match captures.name(group) {
                Some(found) => Some(Some(found.as_str().to_string())),
                None => Some(None),
            },
            None => Some(None),
        },
        Err(_) => None,
    }
}

/// The path of the URL that `address` parses to, or `None` where it is no
/// absolute URL.
pub uninterp spec fn url_path(address: Seq<char>) -> Option<Seq<char>>;

/// Parses with `url::Url::parse` and reads `Url::path`. Trusted: the outcome
/// depends on the address alone.
#[verifier::external_body]
pub(crate) fn parse_url_path(address: &str) -> (res: Option<String>)
    ensures
        match res {
            None => url_path(address@).is_none(),
            Some(path) => url_path(address@) == Some(path@),
        },
{
    match url::Url::parse(address) {
        Ok(parsed) => Some(parsed.path().to_string()),
        Err(_) => None,
    }
}

} // verus!
