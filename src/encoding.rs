//! The encodings under which a name can appear inside exported content, and
//! the replacement tokens built from them.

use vstd::prelude::*;
use vstd::string::*;
use vstd::utf8::encode_utf8;
use crate::bytes::push_all;

verus! {

/// Bytes that percent-encoding leaves as they are: ASCII letters, digits,
/// `-`, `.`, `_` and `~`.
pub open spec fn is_unreserved(b: u8) -> bool {
    (48 <= b && b <= 57) || (65 <= b && b <= 90) || (97 <= b && b <= 122) || b == 45 || b == 46
        || b == 95 || b == 126
}

/// Upper-case hexadecimal digit of a value below 16.
pub open spec fn hex_digit(n: u8) -> u8 {
    if n < 10 {
        (48 + n) as u8
    } else {
        (55 + n) as u8
    }
}

/// One byte, percent-encoded.
pub open spec fn percent_byte(b: u8) -> Seq<u8> {
    if is_unreserved(b) {
        seq![b]
    } else {
        seq![37u8, hex_digit(b / 16), hex_digit(b % 16)]
    }
}

/// Every byte but the unreserved ones written as `%` and two upper-case
/// hexadecimal digits.
pub open spec fn percent_encoded(s: Seq<u8>) -> Seq<u8>
    decreases s.len(),
{
    if s.len() == 0 {
        Seq::empty()
    } else {
        percent_encoded(s.drop_last()) + percent_byte(s.last())
    }
}

/// One character, escaped for markup.
pub open spec fn escaped_char(c: char) -> Seq<char> {
    if c == '&' {
        seq!['&', 'a', 'm', 'p', ';']
    } else if c == '<' {
        seq!['&', 'l', 't', ';']
    } else if c == '>' {
        seq!['&', 'g', 't', ';']
    } else if c == '"' {
        seq!['&', 'q', 'u', 'o', 't', ';']
    } else if c == '\'' {
        seq!['&', '#', 'x', '2', '7', ';']
    } else if c == '/' {
        seq!['&', '#', 'x', '2', 'F', ';']
    } else {
        seq![c]
    }
}

/// `&`, `<`, `>`, `"`, `'` and `/` replaced by their markup entities.
pub open spec fn markup_escaped(s: Seq<char>) -> Seq<char>
    decreases s.len(),
{
    if s.len() == 0 {
        Seq::empty()
    } else {
        markup_escaped(s.drop_last()) + escaped_char(s.last())
    }
}

/// Relies on urlencoding::encode, which percent-encodes the UTF-8 bytes of
/// its argument, every byte but ASCII alphanumerics and `-`, `_`, `.`, `~`,
/// with upper-case hexadecimal digits.
#[verifier::external_body]
fn percent_encode(s: &str) -> (r: Vec<u8>)
    ensures
        r@ == percent_encoded(s.spec_bytes()),
{
    urlencoding::encode(s).into_owned().into_bytes()
}

/// Relies on html_escape::encode_safe, which replaces `&`, `<`, `>`, `"`,
/// `'` and `/` by `&amp;`, `&lt;`, `&gt;`, `&quot;`, `&#x27;`, `&#x2F;` and
/// copies every other character.
#[verifier::external_body]
fn markup_escape(s: &str) -> (r: String)
    ensures
        r@ == markup_escaped(s@),
{
    html_escape::encode_safe(s).into_owned()
}

/// The UTF-8 bytes of `s`.
pub fn text_bytes(s: &str) -> (r: Vec<u8>)
    ensures
        r@ == encode_utf8(s@),
{
    let mut r: Vec<u8> = Vec::new();
    push_all(&mut r, s.as_bytes());
    r
}

/// The four forms under which a name appears in content: raw,
/// percent-encoded, markup-escaped, and markup-escaped then percent-encoded.
pub open spec fn encoded_forms(s: Seq<char>) -> Seq<Seq<u8>> {
    seq![
        encode_utf8(s),
        percent_encoded(encode_utf8(s)),
        encode_utf8(markup_escaped(s)),
        percent_encoded(encode_utf8(markup_escaped(s))),
    ]
}

/// A string to look for in content, and what replaces it.
pub struct ReplacementToken {
    pub old_ref: Vec<u8>,
    pub new_ref: Vec<u8>,
}

/// `tokens` pairs each encoded form of `old` with the same form of `new`.
pub open spec fn is_token_set(tokens: Seq<ReplacementToken>, old: Seq<char>, new: Seq<char>) -> bool {
    &&& tokens.len() == 4
    &&& forall|k: int|
        0 <= k < 4 ==> (#[trigger] tokens[k]).old_ref@ == encoded_forms(old)[k]
            && tokens[k].new_ref@ == encoded_forms(new)[k]
}

/// Builds the replacement tokens that turn each encoded form of `old` into
/// the same form of `new`.
pub fn build_replacement_tokens(old: &str, new: &str) -> (r: Vec<ReplacementToken>)
    ensures
        is_token_set(r@, old@, new@),
{
    let old_escaped = markup_escape(old);
    let new_escaped = markup_escape(new);
    let mut r: Vec<ReplacementToken> = Vec::new();
    r.push(ReplacementToken { old_ref: text_bytes(old), new_ref: text_bytes(new) });
    r.push(ReplacementToken { old_ref: percent_encode(old), new_ref: percent_encode(new) });
    r.push(
        ReplacementToken {
            old_ref: text_bytes(old_escaped.as_str()),
            new_ref: text_bytes(new_escaped.as_str()),
        },
    );
    r.push(
        ReplacementToken {
            old_ref: percent_encode(old_escaped.as_str()),
            new_ref: percent_encode(new_escaped.as_str()),
        },
    );
    r
}

} // verus!
