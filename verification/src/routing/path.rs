//! Route paths: joining them, decoding the parameters captured from them, and rewriting them for
//! a router mounted under a prefix.

use vstd::prelude::*;
#[allow(unused_imports)]
use vstd::string::StringExecFns;
#[allow(unused_imports)]
use vstd::utf8::{decode_utf8, encode_scalar, encode_utf8, valid_utf8};

#[allow(unused_imports)]
use crate::text::{
    content_end, lemma_encode_append, lemma_encode_char, optional_text, trim_end,
};
use crate::text::{chars_of, copy_text, slice_text, starts_with, trim_end_chars, Padding};

verus! {

/// `s` with every run of slashes made a single slash.
pub open spec fn collapse(s: Seq<char>) -> Seq<char>
    decreases s.len(),
{
    if s.len() == 0 {
        Seq::empty()
    } else if s.len() >= 2 && s.last() == '/' && s[s.len() - 2] == '/' {
        collapse(s.drop_last())
    } else {
        collapse(s.drop_last()).push(s.last())
    }
}

/// Whether two slashes stand next to each other anywhere in `s`.
pub open spec fn has_double_slash(s: Seq<char>) -> bool {
    exists|i: int| #![trigger s[i]] 1 <= i < s.len() && s[i - 1] == '/' && s[i] == '/'
}

/// The path a node has below a prefix.
pub open spec fn joined(prefix: Seq<char>, segment: Seq<char>) -> Seq<char> {
    collapse(prefix + segment)
}

/// Collapsing keeps the last character, so a trailing slash survives.
pub proof fn collapse_keeps_the_last_character(s: Seq<char>)
    ensures
        s.len() == 0 <==> collapse(s).len() == 0,
        s.len() > 0 ==> collapse(s).last() == s.last(),
        s.len() > 0 ==> collapse(s)[0] == s[0],
    decreases s.len(),
{
    if s.len() > 0 {
        collapse_keeps_the_last_character(s.drop_last());
        if s.len() == 1 {
            assert(collapse(s.drop_last()) =~= Seq::empty());
        }
    }
}

/// A joined path never holds two slashes in a row.
pub proof fn collapse_leaves_no_double_slash(s: Seq<char>)
    ensures
        !has_double_slash(collapse(s)),
    decreases s.len(),
{
    if s.len() > 0 {
        collapse_leaves_no_double_slash(s.drop_last());
        collapse_keeps_the_last_character(s.drop_last());
        let before = collapse(s.drop_last());
        let after = collapse(s);
        if has_double_slash(after) {
            let i = choose|i: int|
                #![trigger after[i]]
                1 <= i < after.len() && after[i - 1] == '/' && after[i] == '/';
            if i < before.len() {
                assert(before[i - 1] == '/' && before[i] == '/');
            } else {
                assert(before.len() > 0);
                assert(before.last() == s[s.len() - 2]);
            }
        }
    }
}

/// A path without a doubled slash is left as it is.
pub proof fn collapse_keeps_clean_paths(s: Seq<char>)
    requires
        !has_double_slash(s),
    ensures
        collapse(s) == s,
    decreases s.len(),
{
    if s.len() > 0 {
        let init = s.drop_last();
        assert(!has_double_slash(init)) by {
            if has_double_slash(init) {
                let i = choose|i: int|
                    #![trigger init[i]]
                    1 <= i < init.len() && init[i - 1] == '/' && init[i] == '/';
                assert(s[i - 1] == '/' && s[i] == '/');
            }
        }
        collapse_keeps_clean_paths(init);
        if s.len() >= 2 && s.last() == '/' && s[s.len() - 2] == '/' {
            assert(s[s.len() - 1] == '/');
            assert(has_double_slash(s));
        }
        assert(init.push(s.last()) =~= s);
    }
}

/// Collapsing twice is collapsing once.
pub proof fn collapse_is_idempotent(s: Seq<char>)
    ensures
        collapse(collapse(s)) == collapse(s),
{
    collapse_leaves_no_double_slash(s);
    collapse_keeps_clean_paths(collapse(s));
}

pub(crate) proof fn lemma_collapse_behind(head: Seq<char>, tail: Seq<char>)
    ensures
        collapse(collapse(head) + tail) == collapse(head + tail),
    decreases tail.len(),
{
    collapse_keeps_the_last_character(head);
    if tail.len() == 0 {
        collapse_is_idempotent(head);
        assert(collapse(head) + tail =~= collapse(head));
        assert(head + tail =~= head);
    } else {
        let init = tail.drop_last();
        lemma_collapse_behind(head, init);
        assert((collapse(head) + tail).drop_last() =~= collapse(head) + init);
        assert((head + tail).drop_last() =~= head + init);
    }
}

proof fn lemma_collapse_ahead(head: Seq<char>, tail: Seq<char>)
    ensures
        collapse(head + collapse(tail)) == collapse(head + tail),
    decreases tail.len(),
{
    if tail.len() > 0 {
        let init = tail.drop_last();
        lemma_collapse_ahead(head, init);
        collapse_keeps_the_last_character(init);
        assert((head + tail).drop_last() =~= head + init);
        if !(tail.len() >= 2 && tail.last() == '/' && tail[tail.len() - 2] == '/') {
            assert((head + collapse(tail)).drop_last() =~= head + collapse(init));
        }
    }
}

/// Joining paths is associative: a prefix, what is mounted below it and a path below that make the
/// same path however they are joined.
pub proof fn joining_is_associative(prefix: Seq<char>, middle: Seq<char>, segment: Seq<char>)
    ensures
        joined(joined(prefix, middle), segment) == joined(prefix, joined(middle, segment)),
{
    lemma_collapse_behind(prefix + middle, segment);
    lemma_collapse_ahead(prefix, middle + segment);
    assert(prefix + middle + segment =~= prefix + (middle + segment));
}

/// Join a mount prefix and a node path, collapsing the duplicate separator a nested `"/api/"` and
/// `"/v1"` would otherwise produce. A trailing slash is kept: `/dir` and `/dir/` are distinct.
pub fn join_path(prefix: &str, segment: &str) -> (r: String)
    ensures
        r@ == joined(prefix@, segment@),
{
    let mut both = copy_text(prefix);
    both.append(segment);
    let chars = chars_of(both.as_str());
    let mut collapsed = String::new();
    let mut i: usize = 0;
    while i < chars.len()
        invariant
            i <= chars.len(),
            chars@ == prefix@ + segment@,
            collapsed@ == collapse(chars@.take(i as int)),
        decreases chars.len() - i,
    {
        let after_slash = i > 0 && chars[i - 1] == '/';
        if !(chars[i] == '/' && after_slash) {
            collapsed.push(chars[i]);
        }
        i = i + 1;
        proof {
            assert(chars@.take(i as int).drop_last() =~= chars@.take(i - 1));
        }
    }
    assert(chars@.take(i as int) =~= chars@);
    collapsed
}

/// The value of a hexadecimal digit.
pub open spec fn hex_digit(byte: u8) -> Option<u8> {
    if 0x30 <= byte <= 0x39 {
        Some((byte - 0x30) as u8)
    } else if 0x61 <= byte <= 0x66 {
        Some((byte - 0x61 + 10) as u8)
    } else if 0x41 <= byte <= 0x46 {
        Some((byte - 0x41 + 10) as u8)
    } else {
        None
    }
}

/// The value of a hexadecimal digit.
pub fn hex_value(byte: u8) -> (r: Option<u8>)
    ensures
        r == hex_digit(byte),
{
    if 0x30 <= byte && byte <= 0x39 {
        Some(byte - 0x30)
    } else if 0x61 <= byte && byte <= 0x66 {
        Some(byte - 0x61 + 10)
    } else if 0x41 <= byte && byte <= 0x46 {
        Some(byte - 0x41 + 10)
    } else {
        None
    }
}

/// The octets that `bytes[from..]` stands for once every `%XX` is replaced, or `None` when a
/// percent sign is not followed by two hexadecimal digits.
pub open spec fn unescaped(bytes: Seq<u8>, from: int) -> Option<Seq<u8>>
    decreases bytes.len() - from,
{
    if from < 0 || from >= bytes.len() {
        Some(Seq::empty())
    } else if bytes[from] == 0x25 {
        if from + 2 < bytes.len() && hex_digit(bytes[from + 1]) is Some && hex_digit(
            bytes[from + 2],
        ) is Some {
            match unescaped(bytes, from + 3) {
                Some(rest) => Some(
                    seq![
                        (hex_digit(bytes[from + 1])->0 * 16 + hex_digit(bytes[from + 2])->0) as u8,
                    ] + rest,
                ),
                None => None,
            }
        } else {
            None
        }
    } else {
        match unescaped(bytes, from + 1) {
            Some(rest) => Some(seq![bytes[from]] + rest),
            None => None,
        }
    }
}

/// A captured path parameter as a handler sees it: percent-decoded, or untouched when an escape is
/// malformed or the octets are not UTF-8.
pub open spec fn percent_decoded(raw: Seq<char>) -> Seq<char> {
    match unescaped(encode_utf8(raw), 0) {
        Some(octets) => if valid_utf8(octets) {
            decode_utf8(octets)
        } else {
            raw
        },
        None => raw,
    }
}

/// `String::from_utf8` accepts exactly the valid UTF-8 sequences, and the string it returns
/// encodes to the bytes it was given.
#[verifier::external_body]
pub(crate) fn utf8_text(bytes: Vec<u8>) -> (r: Option<String>)
    ensures
        r is Some <==> valid_utf8(bytes@),
        r matches Some(text) ==> encode_utf8(text@) == bytes@,
{
    String::from_utf8(bytes).ok()
}

proof fn lemma_unescaped_without_percent(bytes: Seq<u8>, from: int)
    requires
        0 <= from <= bytes.len(),
        !bytes.contains(0x25),
    ensures
        unescaped(bytes, from) == Some(bytes.subrange(from, bytes.len() as int)),
    decreases bytes.len() - from,
{
    if from < bytes.len() {
        assert(bytes.contains(bytes[from]));
        lemma_unescaped_without_percent(bytes, from + 1);
        assert(seq![bytes[from]] + bytes.subrange(from + 1, bytes.len() as int) =~= bytes.subrange(
            from,
            bytes.len() as int,
        ));
    } else {
        assert(bytes.subrange(from, bytes.len() as int) =~= Seq::empty());
    }
}

/// A parameter whose encoding holds no percent sign is handed on unchanged.
pub proof fn plain_parameters_are_unchanged(raw: Seq<char>)
    requires
        !encode_utf8(raw).contains(0x25),
    ensures
        percent_decoded(raw) == raw,
{
    let bytes = encode_utf8(raw);
    lemma_unescaped_without_percent(bytes, 0);
    assert(bytes.subrange(0, bytes.len() as int) =~= bytes);
    vstd::utf8::encode_utf8_decode_utf8(raw);
}

/// The hexadecimal digit of a value below 16.
pub open spec fn hex_char(value: u8, is_upper: bool) -> char {
    if value < 10 {
        (0x30 + value) as char
    } else if is_upper {
        (0x41 + value - 10) as char
    } else {
        (0x61 + value - 10) as char
    }
}

/// Octets with a `%XX` for each of them.
pub open spec fn escaped(octets: Seq<u8>, is_upper: bool) -> Seq<char>
    decreases octets.len(),
{
    if octets.len() == 0 {
        Seq::empty()
    } else {
        seq!['%', hex_char(octets[0] / 16, is_upper), hex_char(octets[0] % 16, is_upper)] + escaped(
            octets.drop_first(),
            is_upper,
        )
    }
}

/// A text with the octets of every character escaped but for those that are kept.
pub open spec fn percent_encoded(
    text: Seq<char>,
    is_kept: spec_fn(char) -> bool,
    is_upper: bool,
) -> Seq<char>
    decreases text.len(),
{
    if text.len() == 0 {
        Seq::empty()
    } else {
        let rest = percent_encoded(text.drop_first(), is_kept, is_upper);
        if is_kept(text[0]) {
            seq![text[0]] + rest
        } else {
            escaped(encode_scalar(text[0] as u32), is_upper) + rest
        }
    }
}

proof fn lemma_unescaped_behind(head: Seq<u8>, tail: Seq<u8>, from: int)
    requires
        0 <= from <= tail.len(),
    ensures
        unescaped(head + tail, head.len() + from) == unescaped(tail, from),
    decreases tail.len() - from,
{
    if from < tail.len() {
        assert((head + tail)[head.len() + from] == tail[from]);
        if tail[from] == 0x25 {
            if from + 2 < tail.len() {
                assert((head + tail)[head.len() + from + 1] == tail[from + 1]);
                assert((head + tail)[head.len() + from + 2] == tail[from + 2]);
                lemma_unescaped_behind(head, tail, from + 3);
            }
        } else {
            lemma_unescaped_behind(head, tail, from + 1);
        }
    }
}

proof fn lemma_unescaped_ahead(head: Seq<u8>, tail: Seq<u8>)
    requires
        !head.contains(0x25),
        unescaped(tail, 0) is Some,
    ensures
        unescaped(head + tail, 0) == Some(head + unescaped(tail, 0)->0),
    decreases head.len(),
{
    if head.len() == 0 {
        assert(head + tail =~= tail);
        assert(head + unescaped(tail, 0)->0 =~= unescaped(tail, 0)->0);
    } else {
        let rest = head.drop_first();
        assert(head.contains(head[0]));
        assert(!rest.contains(0x25)) by {
            if rest.contains(0x25) {
                let i = choose|i: int| 0 <= i < rest.len() && rest[i] == 0x25;
                assert(head[i + 1] == 0x25);
            }
        }
        lemma_unescaped_ahead(rest, tail);
        lemma_unescaped_behind(seq![head[0]], rest + tail, 0);
        assert(head + tail =~= seq![head[0]] + (rest + tail));
        assert(seq![head[0]] + (rest + unescaped(tail, 0)->0) =~= head + unescaped(tail, 0)->0);
    }
}

proof fn lemma_hex_char(value: u8, is_upper: bool)
    requires
        value < 16,
    ensures
        (hex_char(value, is_upper) as u32) < 0x80,
        hex_digit(encode_scalar(hex_char(value, is_upper) as u32)[0]) == Some(value),
        encode_scalar(hex_char(value, is_upper) as u32).len() == 1,
{
    lemma_encode_char(hex_char(value, is_upper));
}

proof fn lemma_unescaped_octets(octets: Seq<u8>, is_upper: bool, tail: Seq<u8>)
    requires
        unescaped(tail, 0) is Some,
    ensures
        unescaped(encode_utf8(escaped(octets, is_upper)) + tail, 0) == Some(
            octets + unescaped(tail, 0)->0,
        ),
    decreases octets.len(),
{
    if octets.len() == 0 {
        assert(encode_utf8(escaped(octets, is_upper)) + tail =~= tail);
        assert(octets + unescaped(tail, 0)->0 =~= unescaped(tail, 0)->0);
    } else {
        let high = hex_char(octets[0] / 16, is_upper);
        let low = hex_char(octets[0] % 16, is_upper);
        let escape = seq!['%', high, low];
        let rest = escaped(octets.drop_first(), is_upper);
        let bytes = seq![
            0x25u8,
            encode_scalar(high as u32)[0],
            encode_scalar(low as u32)[0],
        ];
        lemma_hex_char(octets[0] / 16, is_upper);
        lemma_hex_char(octets[0] % 16, is_upper);
        lemma_encode_char('%');
        lemma_unescaped_octets(octets.drop_first(), is_upper, tail);
        lemma_encode_append(escape, rest);
        assert(encode_utf8(escape) =~= bytes) by {
            reveal_with_fuel(encode_utf8, 4);
            assert(escape.drop_first() =~= seq![high, low]);
            assert(escape.drop_first().drop_first() =~= seq![low]);
            assert(escape.drop_first().drop_first().drop_first() =~= Seq::empty());
        }
        let all = encode_utf8(escaped(octets, is_upper)) + tail;
        assert(all =~= bytes + (encode_utf8(rest) + tail));
        lemma_unescaped_behind(bytes, encode_utf8(rest) + tail, 0);
        assert(all[0] == 0x25 && all[1] == bytes[1] && all[2] == bytes[2]);
        assert(octets[0] / 16 * 16 + octets[0] % 16 == octets[0]);
        assert(seq![octets[0]] + (octets.drop_first() + unescaped(tail, 0)->0) =~= octets
            + unescaped(tail, 0)->0);
    }
}

proof fn lemma_unescaped_encoding(text: Seq<char>, is_kept: spec_fn(char) -> bool, is_upper: bool)
    requires
        !is_kept('%'),
    ensures
        unescaped(encode_utf8(percent_encoded(text, is_kept, is_upper)), 0) == Some(
            encode_utf8(text),
        ),
    decreases text.len(),
{
    if text.len() > 0 {
        let octets = encode_scalar(text[0] as u32);
        let rest = percent_encoded(text.drop_first(), is_kept, is_upper);
        lemma_unescaped_encoding(text.drop_first(), is_kept, is_upper);
        lemma_encode_char(text[0]);
        if is_kept(text[0]) {
            lemma_encode_append(seq![text[0]], rest);
            assert(seq![text[0]].drop_first() =~= Seq::empty());
            assert(encode_utf8(seq![text[0]].drop_first()) =~= Seq::empty());
            assert(encode_utf8(seq![text[0]]) =~= octets);
            assert(!octets.contains(0x25)) by {
                if octets.contains(0x25) {
                    vstd::utf8::char_u32_cast(text[0], 0x25);
                    vstd::utf8::char_u32_cast('%', 0x25);
                }
            }
            lemma_unescaped_ahead(octets, encode_utf8(rest));
        } else {
            lemma_encode_append(escaped(octets, is_upper), rest);
            lemma_unescaped_octets(octets, is_upper, encode_utf8(rest));
        }
    }
}

/// Decoding undoes percent-encoding, in either case of the digits and whichever characters are kept,
/// as long as the percent sign is not.
pub proof fn decoding_undoes_percent_encoding(
    text: Seq<char>,
    is_kept: spec_fn(char) -> bool,
    is_upper: bool,
)
    requires
        !is_kept('%'),
    ensures
        percent_decoded(percent_encoded(text, is_kept, is_upper)) == text,
{
    lemma_unescaped_encoding(text, is_kept, is_upper);
    vstd::utf8::encode_utf8_valid_utf8(text);
    vstd::utf8::encode_utf8_decode_utf8(text);
}

/// Decode percent-encoded octets in a path parameter value.
///
/// Invalid percent sequences or results that are not UTF-8 leave the raw value untouched instead
/// of failing the request.
pub fn percent_decode(raw: &str) -> (r: String)
    ensures
        r@ == percent_decoded(raw@),
{
    let bytes = raw.as_bytes();
    let mut decoded: Vec<u8> = Vec::new();
    let mut index: usize = 0;
    proof {
        match unescaped(bytes@, 0) {
            Some(rest) => {
                assert(decoded@ + rest =~= rest);
            },
            None => {},
        }
    }
    while index < bytes.len()
        invariant
            index <= bytes.len(),
            bytes@ == encode_utf8(raw@),
            match unescaped(bytes@, index as int) {
                Some(rest) => unescaped(bytes@, 0) == Some(decoded@ + rest),
                None => unescaped(bytes@, 0) is None,
            },
        decreases bytes.len() - index,
    {
        let byte = bytes[index];
        let ghost before = decoded@;
        if byte == 0x25 {
            if bytes.len() - index <= 2 {
                return copy_text(raw);
            }
            let high = hex_value(bytes[index + 1]);
            let low = hex_value(bytes[index + 2]);
            match (high, low) {
                (Some(high), Some(low)) => {
                    decoded.push(high * 16 + low);
                    proof {
                        match unescaped(bytes@, index + 3) {
                            Some(rest) => {
                                assert(before + (seq![(high * 16 + low) as u8] + rest) =~= decoded@
                                    + rest);
                            },
                            None => {},
                        }
                    }
                    index = index + 3;
                },
                _ => {
                    return copy_text(raw);
                },
            }
        } else {
            decoded.push(byte);
            proof {
                match unescaped(bytes@, index + 1) {
                    Some(rest) => {
                        assert(before + (seq![byte] + rest) =~= decoded@ + rest);
                    },
                    None => {},
                }
            }
            index = index + 1;
        }
    }
    assert(decoded@ + Seq::<u8>::empty() =~= decoded@);
    match utf8_text(decoded) {
        Some(text) => {
            proof {
                vstd::utf8::encode_utf8_decode_utf8(text@);
            }
            text
        },
        None => copy_text(raw),
    }
}

/// The prefix that is removed from a request path: the mount path without trailing slashes, so
/// that what remains starts at a separator.
pub open spec fn mount_stem(prefix: Seq<char>) -> Seq<char> {
    trim_end(prefix, Padding::Slash)
}

/// The request target a mounted router sees: the mount prefix removed, the bare mount point made
/// the root, and the query kept. `None` when the path does not lie under the prefix.
pub open spec fn mounted_target(
    path: Seq<char>,
    query: Option<Seq<char>>,
    prefix: Seq<char>,
) -> Option<Seq<char>> {
    let stem = mount_stem(prefix);
    if stem.is_prefix_of(path) {
        let rest = path.skip(stem.len() as int);
        let rest = if rest.len() == 0 {
            "/"@
        } else {
            rest
        };
        match query {
            Some(query) => Some(rest + "?"@ + query),
            None => Some(rest),
        }
    } else {
        None
    }
}

/// Rewrite a path and query as the router mounted at `prefix` sees them.
///
/// The prefix is matched on the raw path, before percent-decoding, so an escaped separator inside
/// a segment cannot reach past the mount point.
pub fn rewrite_target(path: &str, query: Option<&str>, prefix: &str) -> (r: Option<String>)
    ensures
        match r {
            Some(target) => mounted_target(
                path@,
                match query {
                    Some(q) => Some(q@),
                    None => None,
                },
                prefix@,
            ) == Some(target@),
            None => mounted_target(
                path@,
                match query {
                    Some(q) => Some(q@),
                    None => None,
                },
                prefix@,
            ) is None,
        },
{
    let full = chars_of(path);
    let mount = chars_of(prefix);
    let stem = trim_end_chars(&mount, Padding::Slash);
    if !starts_with(&full, &stem) {
        return None;
    }
    let rest = slice_text(&full, stem.len(), full.len());
    let mut target = if full.len() == stem.len() {
        copy_text("/")
    } else {
        rest
    };
    if let Some(query) = query {
        target.append("?");
        target.append(query);
    }
    Some(target)
}

/// What `http::Uri` reads as the path and the query of a URI, or what it says when it rejects the
/// text.
pub uninterp spec fn uri_parts(uri: Seq<char>) -> Result<
    (Seq<char>, Option<Seq<char>>),
    Seq<char>,
>;

/// The URI that `http::Uri::from_parts` makes of `uri` with its path and query replaced, or `None`
/// when `http` rejects the replacement.
pub uninterp spec fn uri_with_target(uri: Seq<char>, target: Seq<char>) -> Option<Seq<char>>;

/// Parses with `http::Uri::from_str` and returns `Uri::path` and `Uri::query`, or the text of the
/// error; all are functions of the text alone.
#[verifier::external_body]
pub(crate) fn parse_uri(uri: &str) -> (r: Result<(String, Option<String>), String>)
    ensures
        match r {
            Ok((path, query)) => uri_parts(uri@) == Ok::<_, Seq<char>>(
                (path@, optional_text(query)),
            ),
            Err(error) => uri_parts(uri@) == Err::<(Seq<char>, Option<Seq<char>>), _>(error@),
        },
{
    let uri: http::Uri = uri.parse().map_err(|error: http::uri::InvalidUri| error.to_string())?;
    Ok((uri.path().to_owned(), uri.query().map(str::to_owned)))
}

/// Replaces the path and query of a URI through `http::uri::Parts` and `http::Uri::from_parts`,
/// keeping scheme and authority; the outcome is a function of the two texts alone.
#[verifier::external_body]
fn replace_target(uri: &str, target: &str) -> (r: Option<String>)
    ensures
        match r {
            Some(text) => uri_with_target(uri@, target@) == Some(text@),
            None => uri_with_target(uri@, target@) is None,
        },
{
    let mut parts = uri.parse::<http::Uri>().ok()?.into_parts();
    parts.path_and_query = Some(target.parse().ok()?);
    http::Uri::from_parts(parts).ok().map(|uri| uri.to_string())
}

/// What a mounted router's URI becomes.
pub open spec fn stripped(uri: Seq<char>, prefix: Seq<char>) -> Option<Seq<char>> {
    match uri_parts(uri) {
        Ok((path, query)) => match mounted_target(path, query, prefix) {
            Some(target) => uri_with_target(uri, target),
            None => None,
        },
        Err(_) => None,
    }
}

/// Rewrite `uri` as the router mounted at `prefix` sees it: prefix removed, query and authority
/// kept.
pub fn strip_prefix(uri: &str, prefix: &str) -> (r: Option<String>)
    ensures
        match r {
            Some(text) => stripped(uri@, prefix@) == Some(text@),
            None => stripped(uri@, prefix@) is None,
        },
{
    match parse_uri(uri) {
        Ok((path, query)) => {
            let query = match &query {
                Some(text) => Some(text.as_str()),
                None => None,
            };
            match rewrite_target(path.as_str(), query, prefix) {
                Some(target) => replace_target(uri, target.as_str()),
                None => None,
            }
        },
        Err(_) => None,
    }
}

/// Raised when the mount prefix cannot be stripped from a request's path.
pub struct NestedPathError(pub String);

impl NestedPathError {
    /// The error's text.
    pub fn message(&self) -> (r: String)
        ensures
            r@ == "Could not rewrite `"@ + self.0@
                + "` for the router mounted at its prefix"@,
    {
        let mut text = copy_text("Could not rewrite `");
        text.append(self.0.as_str());
        text.append("` for the router mounted at its prefix");
        text
    }

    /// The status the error is answered with.
    pub fn status(&self) -> (r: u16)
        ensures
            r == 500,
    {
        500
    }
}

/// Under a mount prefix without trailing slash, what lies below it keeps its leading slash.
pub proof fn a_mounted_path_starts_at_a_separator(
    prefix: Seq<char>,
    below: Seq<char>,
    query: Option<Seq<char>>,
)
    requires
        below.len() > 0,
        below[0] == '/',
    ensures
        query is None ==> mounted_target(mount_stem(prefix) + below, query, prefix) == Some(below),
        mounted_target(mount_stem(prefix), None, prefix) == Some("/"@),
{
    let stem = mount_stem(prefix);
    let path = stem + below;
    assert(path.subrange(0, stem.len() as int) =~= stem);
    assert(path.skip(stem.len() as int) =~= below);
    assert(stem.subrange(0, stem.len() as int) =~= stem);
    assert(stem.skip(stem.len() as int) =~= Seq::empty());
}

/// A path with a slash more, right behind another one, is the same path.
pub proof fn a_doubled_slash_counts_once(head: Seq<char>, tail: Seq<char>)
    ensures
        collapse(head + seq!['/', '/'] + tail) == collapse(head + seq!['/'] + tail),
{
    let twice = head + seq!['/', '/'];
    let once = head + seq!['/'];
    assert(twice.drop_last() =~= once);
    assert(collapse(twice) == collapse(once));
    lemma_collapse_behind(twice, tail);
    lemma_collapse_behind(once, tail);
}

/// Whether a character is a hexadecimal digit.
pub open spec fn is_hexadecimal(c: char) -> bool {
    '0' <= c <= '9' || 'a' <= c <= 'f' || 'A' <= c <= 'F'
}

proof fn lemma_hexadecimal(c: char)
    ensures
        hex_digit(encode_scalar(c as u32)[0]) is Some ==> is_hexadecimal(c),
{
    lemma_encode_char(c);
    let byte = encode_scalar(c as u32)[0];
    if hex_digit(byte) is Some {
        vstd::utf8::char_u32_cast(c, byte as u32);
        assert((byte as u32) as char == c);
    }
}

/// A percent sign that two hexadecimal digits do not follow leaves the whole value as it was
/// captured.
pub proof fn a_malformed_escape_leaves_the_value(head: Seq<char>, tail: Seq<char>)
    requires
        !head.contains('%'),
        tail.len() < 2 || !is_hexadecimal(tail[0]) || !is_hexadecimal(tail[1]),
    ensures
        percent_decoded(head + seq!['%'] + tail) == head + seq!['%'] + tail,
{
    let raw = head + seq!['%'] + tail;
    let rest = seq!['%'] + tail;
    lemma_encode_append(head, rest);
    assert(raw =~= head + rest);
    lemma_encode_char('%');
    assert(rest.drop_first() =~= tail);
    let bytes = encode_utf8(rest);
    assert(bytes[0] == 0x25);
    lemma_malformed(tail);
    assert(bytes =~= seq![0x25u8] + encode_utf8(tail));
    assert(unescaped(bytes, 0) is None);
    lemma_no_percent(head);
    lemma_unescaped_ahead_fails(encode_utf8(head), bytes);
}

proof fn lemma_no_percent(s: Seq<char>)
    requires
        !s.contains('%'),
    ensures
        !encode_utf8(s).contains(0x25),
    decreases s.len(),
{
    if s.len() > 0 {
        let rest = s.drop_first();
        let first = encode_scalar(s[0] as u32);
        assert(s.contains(s[0]));
        assert(!rest.contains('%')) by {
            if rest.contains('%') {
                let i = choose|i: int| 0 <= i < rest.len() && rest[i] == '%';
                assert(s[i + 1] == '%');
            }
        }
        lemma_no_percent(rest);
        lemma_encode_char(s[0]);
        if encode_utf8(s).contains(0x25) {
            let i = choose|i: int| 0 <= i < encode_utf8(s).len() && encode_utf8(s)[i] == 0x25;
            if i < first.len() {
                assert(first[i] == 0x25);
                vstd::utf8::char_u32_cast(s[0], 0x25);
                vstd::utf8::char_u32_cast('%', 0x25);
            } else {
                assert(encode_utf8(rest)[i - first.len()] == 0x25);
            }
        }
    }
}

/// What follows a percent sign in bytes, where two digits do not follow it in characters.
proof fn lemma_malformed(tail: Seq<char>)
    requires
        tail.len() < 2 || !is_hexadecimal(tail[0]) || !is_hexadecimal(tail[1]),
    ensures
        ({
            let bytes = encode_utf8(tail);
            bytes.len() < 2 || hex_digit(bytes[0]) is None || hex_digit(bytes[1]) is None
        }),
{
    reveal_with_fuel(encode_utf8, 3);
    if tail.len() > 0 {
        lemma_encode_char(tail[0]);
        assert(tail.drop_first().len() == tail.len() - 1);
        lemma_hexadecimal(tail[0]);
        if tail.len() > 1 {
            lemma_encode_char(tail[1]);
            assert(tail.drop_first()[0] == tail[1]);
            lemma_hexadecimal(tail[1]);
        } else {
            assert(encode_utf8(tail.drop_first()) =~= Seq::empty());
        }
    }
}

proof fn lemma_unescaped_ahead_fails(head: Seq<u8>, tail: Seq<u8>)
    requires
        !head.contains(0x25),
        unescaped(tail, 0) is None,
    ensures
        unescaped(head + tail, 0) is None,
    decreases head.len(),
{
    if head.len() == 0 {
        assert(head + tail =~= tail);
    } else {
        let rest = head.drop_first();
        assert(head.contains(head[0]));
        assert(!rest.contains(0x25)) by {
            if rest.contains(0x25) {
                let i = choose|i: int| 0 <= i < rest.len() && rest[i] == 0x25;
                assert(head[i + 1] == 0x25);
            }
        }
        lemma_unescaped_ahead_fails(rest, tail);
        lemma_unescaped_behind(seq![head[0]], rest + tail, 0);
        assert(head + tail =~= seq![head[0]] + (rest + tail));
    }
}

/// Escaped octets that are no text leave the value as it was captured.
pub proof fn escaped_octets_that_are_no_text_stay(octets: Seq<u8>, is_upper: bool)
    requires
        !valid_utf8(octets),
    ensures
        percent_decoded(escaped(octets, is_upper)) == escaped(octets, is_upper),
{
    let none = Seq::<u8>::empty();
    lemma_unescaped_octets(octets, is_upper, none);
    assert(encode_utf8(escaped(octets, is_upper)) + none =~= encode_utf8(
        escaped(octets, is_upper),
    ));
    assert(octets + none =~= octets);
}

/// A mounted router sees the query of a request, whatever its path: a question mark and the query
/// follow the target that it sees without one.
pub proof fn a_mounted_router_sees_the_query(
    path: Seq<char>,
    query: Seq<char>,
    prefix: Seq<char>,
)
    ensures
        mounted_target(path, Some(query), prefix) is Some <==> mounted_target(path, None, prefix)
            is Some,
        mounted_target(path, None, prefix) matches Some(target) ==> mounted_target(
            path,
            Some(query),
            prefix,
        ) == Some(target + seq!['?'] + query),
{
    reveal_strlit("?");
    assert("?"@ =~= seq!['?']);
}

/// What lies below a prefix is what a router mounted there sees, the prefix itself is its root, and
/// it sees no path that does not start with the prefix. Slashes at the end of the prefix do not
/// count.
pub proof fn a_mounted_router_sees_what_lies_below(
    prefix: Seq<char>,
    slashes: nat,
    below: Seq<char>,
    path: Seq<char>,
)
    requires
        prefix.len() == 0 || prefix.last() != '/',
    ensures
        ({
            let mount = prefix + Seq::new(slashes, |i: int| '/');
            &&& mounted_target(prefix + below, None, mount) == Some(
                if below.len() == 0 {
                    seq!['/']
                } else {
                    below
                },
            )
            &&& !prefix.is_prefix_of(path) ==> mounted_target(path, None, mount) is None
        }),
{
    reveal_strlit("/");
    assert("/"@ =~= seq!['/']);
    lemma_stem(prefix, slashes);
    let whole = prefix + below;
    assert(whole.subrange(0, prefix.len() as int) =~= prefix);
    assert(whole.skip(prefix.len() as int) =~= below);
}

proof fn lemma_stem(prefix: Seq<char>, slashes: nat)
    requires
        prefix.len() == 0 || prefix.last() != '/',
    ensures
        mount_stem(prefix + Seq::new(slashes, |i: int| '/')) == prefix,
    decreases slashes,
{
    let mount = prefix + Seq::new(slashes, |i: int| '/');
    lemma_stem_end(prefix, slashes, slashes);
    assert(mount.subrange(0, prefix.len() as int) =~= prefix);
}

proof fn lemma_stem_end(prefix: Seq<char>, slashes: nat, left: nat)
    requires
        prefix.len() == 0 || prefix.last() != '/',
        left <= slashes,
    ensures
        content_end(
            prefix + Seq::new(slashes, |i: int| '/'),
            Padding::Slash,
            (prefix.len() + left) as int,
        ) == prefix.len(),
    decreases left,
{
    let mount = prefix + Seq::new(slashes, |i: int| '/');
    if left > 0 {
        assert(mount[prefix.len() + left - 1] == '/');
        lemma_stem_end(prefix, slashes, (left - 1) as nat);
    } else if prefix.len() > 0 {
        assert(mount[prefix.len() - 1] == prefix.last());
    }
}

/// The URI that a mounted router sees has the path below the prefix as its target, and the query
/// behind it; one whose path lies elsewhere, or that is no URI, has none.
pub proof fn a_mounted_uri_loses_its_prefix(
    uri: Seq<char>,
    prefix: Seq<char>,
    below: Seq<char>,
    query: Seq<char>,
)
    requires
        prefix.len() == 0 || prefix.last() != '/',
        below.len() > 0,
    ensures
        uri_parts(uri) == Ok::<(Seq<char>, Option<Seq<char>>), Seq<char>>((prefix + below, None))
            ==> stripped(uri, prefix) == uri_with_target(uri, below),
        uri_parts(uri) == Ok::<(Seq<char>, Option<Seq<char>>), Seq<char>>(
            (prefix + below, Some(query)),
        ) ==> stripped(uri, prefix) == uri_with_target(uri, below + seq!['?'] + query),
        uri_parts(uri) is Err ==> stripped(uri, prefix) is None,
{
    a_mounted_router_sees_what_lies_below(prefix, 0, below, prefix);
    assert(prefix + Seq::new(0, |i: int| '/') =~= prefix);
    a_mounted_router_sees_the_query(prefix + below, query, prefix);
}

} // verus!
