//! Text as sequences of characters: the searching, splitting, trimming and rendering that the
//! rest of the library is specified over.

use vstd::prelude::*;
#[allow(unused_imports)]
use vstd::utf8::{encode_scalar, encode_utf8};
#[allow(unused_imports)]
use vstd::string::StringExecFns;

verus! {

/// `String::push` appends exactly the given character.
pub assume_specification [String::push] (s: &mut String, c: char)
    ensures
        final(s)@ == old(s)@.push(c),
;

/// The text of an optional string.
pub open spec fn optional_text(text: Option<String>) -> Option<Seq<char>> {
    match text {
        Some(text) => Some(text@),
        None => None,
    }
}

/// The text of an optional string slice.
pub open spec fn optional_str(text: Option<&str>) -> Option<Seq<char>> {
    match text {
        Some(text) => Some(text@),
        None => None,
    }
}

/// The bytes of an optional vector.
pub open spec fn optional_bytes(bytes: Option<Vec<u8>>) -> Option<Seq<u8>> {
    match bytes {
        Some(bytes) => Some(bytes@),
        None => None,
    }
}

/// The index of the first `c` in `s` at or after `from`, or the length when there is none.
pub open spec fn find(s: Seq<char>, c: char, from: int) -> int
    decreases s.len() - from,
{
    if from < 0 || from >= s.len() {
        s.len() as int
    } else if s[from] == c {
        from
    } else {
        find(s, c, from + 1)
    }
}

/// The index of the last `c` in `s` before `to`, or `-1` when there is none.
pub open spec fn rfind(s: Seq<char>, c: char, to: int) -> int
    decreases to,
{
    if to <= 0 || to > s.len() {
        -1
    } else if s[to - 1] == c {
        to - 1
    } else {
        rfind(s, c, to - 1)
    }
}

/// The pieces of `s` between the separators `c`, from index `from` on; never empty.
pub open spec fn split_from(s: Seq<char>, c: char, from: int) -> Seq<Seq<char>>
    decreases s.len() - from,
{
    let end = find(s, c, from);
    if from < 0 || from > end || end >= s.len() {
        seq![s.subrange(from, s.len() as int)]
    } else {
        seq![s.subrange(from, end)] + split_from(s, c, end + 1)
    }
}

/// The pieces of `s` between the separators `c`.
pub open spec fn split(s: Seq<char>, c: char) -> Seq<Seq<char>> {
    split_from(s, c, 0)
}

/// The parts put one after the other with `separator` in between.
pub open spec fn join(parts: Seq<Seq<char>>, separator: Seq<char>) -> Seq<char>
    decreases parts.len(),
{
    if parts.len() == 0 {
        Seq::empty()
    } else if parts.len() == 1 {
        parts[0]
    } else {
        join(parts.drop_last(), separator) + separator + parts.last()
    }
}

/// Which characters count as padding when a value is trimmed.
#[derive(Clone, Copy, PartialEq, Eq, Debug)]
pub enum Padding {
    /// Everything with the Unicode `White_Space` property.
    WhiteSpace,
    /// Spaces and horizontal tabs only.
    Blank,
    /// Forward slashes.
    Slash,
}

/// Whether `c` has the Unicode `White_Space` property.
pub open spec fn is_white_space(c: char) -> bool {
    ||| '\u{9}' <= c <= '\u{d}'
    ||| c == ' '
    ||| c == '\u{85}'
    ||| c == '\u{a0}'
    ||| c == '\u{1680}'
    ||| '\u{2000}' <= c <= '\u{200a}'
    ||| c == '\u{2028}'
    ||| c == '\u{2029}'
    ||| c == '\u{202f}'
    ||| c == '\u{205f}'
    ||| c == '\u{3000}'
}

/// Whether `c` is padding of the given sort.
pub open spec fn is_padding(padding: Padding, c: char) -> bool {
    match padding {
        Padding::WhiteSpace => is_white_space(c),
        Padding::Blank => c == ' ' || c == '\t',
        Padding::Slash => c == '/',
    }
}

/// The index of the first character of `s` at or after `from` that is not padding.
pub open spec fn content_start(s: Seq<char>, padding: Padding, from: int) -> int
    decreases s.len() - from,
{
    if from < 0 || from >= s.len() {
        s.len() as int
    } else if is_padding(padding, s[from]) {
        content_start(s, padding, from + 1)
    } else {
        from
    }
}

/// One past the index of the last character of `s` before `to` that is not padding.
pub open spec fn content_end(s: Seq<char>, padding: Padding, to: int) -> int
    decreases to,
{
    if to <= 0 || to > s.len() {
        0
    } else if is_padding(padding, s[to - 1]) {
        content_end(s, padding, to - 1)
    } else {
        to
    }
}

/// `s` without leading padding.
pub open spec fn trim_start(s: Seq<char>, padding: Padding) -> Seq<char> {
    s.subrange(content_start(s, padding, 0), s.len() as int)
}

/// `s` without trailing padding.
pub open spec fn trim_end(s: Seq<char>, padding: Padding) -> Seq<char> {
    s.subrange(0, content_end(s, padding, s.len() as int))
}

/// `s` without padding at either end.
pub open spec fn trim(s: Seq<char>, padding: Padding) -> Seq<char> {
    trim_end(trim_start(s, padding), padding)
}

/// `c` with an ASCII capital made small.
pub open spec fn lower(c: char) -> char {
    if 'A' <= c <= 'Z' {
        ((c as u32) + 32) as char
    } else {
        c
    }
}

/// `s` with its ASCII capitals made small.
pub open spec fn lowercase(s: Seq<char>) -> Seq<char> {
    s.map_values(|c: char| lower(c))
}

/// The character of a decimal digit.
pub open spec fn digit(d: int) -> char {
    (('0' as u32) + d) as char
}

/// The decimal numeral of `n`, without leading zeros.
pub open spec fn decimal(n: nat) -> Seq<char>
    decreases n,
{
    if n < 10 {
        seq![digit(n as int)]
    } else {
        decimal(n / 10).push(digit((n % 10) as int))
    }
}

/// The texts of a list of strings.
pub open spec fn texts(strings: Seq<String>) -> Seq<Seq<char>> {
    strings.map_values(|s: String| s@)
}

pub proof fn lemma_find_bounds(s: Seq<char>, c: char, from: int)
    requires
        0 <= from <= s.len(),
    ensures
        from <= find(s, c, from) <= s.len(),
        find(s, c, from) < s.len() ==> s[find(s, c, from)] == c,
        forall|i: int| from <= i < find(s, c, from) ==> s[i] != c,
    decreases s.len() - from,
{
    if from < s.len() && s[from] != c {
        lemma_find_bounds(s, c, from + 1);
    }
}

pub proof fn lemma_rfind_bounds(s: Seq<char>, c: char, to: int)
    requires
        0 <= to <= s.len(),
    ensures
        -1 <= rfind(s, c, to) < to || to == 0 && rfind(s, c, to) == -1,
        rfind(s, c, to) >= 0 ==> s[rfind(s, c, to)] == c,
        forall|i: int| rfind(s, c, to) < i < to ==> s[i] != c,
    decreases to,
{
    if to > 0 && s[to - 1] != c {
        lemma_rfind_bounds(s, c, to - 1);
    }
}

/// A separator occurs in `s` exactly when the search finds one.
pub proof fn lemma_find_contains(s: Seq<char>, c: char)
    ensures
        s.contains(c) <==> find(s, c, 0) < s.len(),
{
    lemma_find_bounds(s, c, 0);
    if s.contains(c) {
        let i = choose|i: int| 0 <= i < s.len() && s[i] == c;
        assert(find(s, c, 0) < s.len());
    }
}

/// Searching behind a prefix finds what searching without the prefix finds.
pub proof fn lemma_find_shift(head: Seq<char>, tail: Seq<char>, c: char, from: int)
    requires
        0 <= from <= tail.len(),
    ensures
        find(head + tail, c, head.len() + from) == head.len() + find(tail, c, from),
    decreases tail.len() - from,
{
    if from < tail.len() && tail[from] != c {
        lemma_find_shift(head, tail, c, from + 1);
    }
}

/// Splitting behind a prefix gives what splitting without the prefix gives.
pub proof fn lemma_split_shift(head: Seq<char>, tail: Seq<char>, c: char, from: int)
    requires
        0 <= from <= tail.len(),
    ensures
        split_from(head + tail, c, head.len() + from) == split_from(tail, c, from),
    decreases tail.len() - from,
{
    let whole = head + tail;
    lemma_find_shift(head, tail, c, from);
    lemma_find_bounds(tail, c, from);
    let end = find(tail, c, from);
    if end < tail.len() {
        lemma_split_shift(head, tail, c, end + 1);
        assert(whole.subrange(head.len() + from, head.len() + end) =~= tail.subrange(from, end));
    } else {
        assert(whole.subrange(head.len() + from, whole.len() as int) =~= tail.subrange(
            from,
            tail.len() as int,
        ));
    }
}

/// A piece without separators, a separator and a rest split into that piece and the pieces of the
/// rest.
pub proof fn lemma_split_at_separator(piece: Seq<char>, c: char, rest: Seq<char>)
    requires
        !piece.contains(c),
    ensures
        split(piece + seq![c] + rest, c) == seq![piece] + split(rest, c),
{
    let head = piece + seq![c];
    let whole = head + rest;
    lemma_find_bounds(whole, c, 0);
    let end = find(whole, c, 0);
    assert(whole[piece.len() as int] == c);
    if end < piece.len() {
        assert(piece[end] == c);
    }
    assert(end == piece.len());
    assert(whole.subrange(0, end) =~= piece);
    lemma_split_shift(head, rest, c, 0);
}

/// A rest behind a separator, without separators itself, is one more piece.
pub proof fn lemma_split_before_last(head: Seq<char>, c: char, piece: Seq<char>)
    requires
        !piece.contains(c),
    ensures
        split(head + seq![c] + piece, c) == split(head, c).push(piece),
    decreases head.len(),
{
    let end = find(head, c, 0);
    lemma_find_bounds(head, c, 0);
    lemma_split_without_separator(piece, c);
    let first = head.subrange(0, end);
    assert(!first.contains(c)) by {
        if first.contains(c) {
            let i = choose|i: int| 0 <= i < first.len() && first[i] == c;
            assert(head[i] == c);
        }
    }
    if end == head.len() {
        assert(first =~= head);
        lemma_split_without_separator(head, c);
        lemma_split_at_separator(head, c, piece);
        assert(seq![head] + seq![piece] =~= seq![head].push(piece));
    } else {
        let rest = head.subrange(end + 1, head.len() as int);
        lemma_split_before_last(rest, c, piece);
        lemma_split_at_separator(first, c, rest);
        lemma_split_at_separator(first, c, rest + seq![c] + piece);
        assert(head =~= first + seq![c] + rest);
        assert(head + seq![c] + piece =~= first + seq![c] + (rest + seq![c] + piece));
        assert(seq![first] + split(rest, c).push(piece) =~= (seq![first] + split(rest, c)).push(
            piece,
        ));
    }
}

/// A text without separators is its only piece.
pub proof fn lemma_split_without_separator(s: Seq<char>, c: char)
    requires
        !s.contains(c),
    ensures
        split(s, c) == seq![s],
{
    lemma_find_contains(s, c);
    lemma_find_bounds(s, c, 0);
    assert(s.subrange(0, s.len() as int) =~= s);
}

/// What stands before a text, without separators, goes to its first piece.
pub proof fn lemma_split_behind(lead: Seq<char>, s: Seq<char>, c: char)
    requires
        !lead.contains(c),
    ensures
        split(s, c).len() > 0,
        split(lead + s, c) == split(s, c).update(0, lead + split(s, c)[0]),
{
    let whole = lead + s;
    let end = find(s, c, 0);
    lemma_find_bounds(s, c, 0);
    lemma_find_bounds(whole, c, 0);
    let at = find(whole, c, 0);
    assert(at == lead.len() + end) by {
        if at < lead.len() {
            assert(lead[at] == c);
        } else if at < lead.len() + end {
            assert(s[at - lead.len()] == c);
        } else if at > lead.len() + end {
            assert(whole[lead.len() + end] == c);
        }
    }
    assert(whole.subrange(0, at) =~= lead + s.subrange(0, end));
    if end < s.len() {
        lemma_split_shift(lead, s, c, end + 1);
    }
    assert(split(whole, c) =~= split(s, c).update(0, lead + split(s, c)[0]));
}

/// What stands behind a text, without separators, goes to its last piece.
pub proof fn lemma_split_ahead(s: Seq<char>, tail: Seq<char>, c: char)
    requires
        !tail.contains(c),
    ensures
        split(s, c).len() > 0,
        split(s + tail, c) == split(s, c).drop_last().push(split(s, c).last() + tail),
    decreases s.len(),
{
    let end = find(s, c, 0);
    lemma_find_bounds(s, c, 0);
    let first = s.subrange(0, end);
    assert(!first.contains(c)) by {
        if first.contains(c) {
            let i = choose|i: int| 0 <= i < first.len() && first[i] == c;
            assert(s[i] == c);
        }
    }
    if end == s.len() {
        assert(first =~= s);
        lemma_split_without_separator(s, c);
        assert(!(s + tail).contains(c)) by {
            if (s + tail).contains(c) {
                let i = choose|i: int| 0 <= i < (s + tail).len() && (s + tail)[i] == c;
                if i < s.len() {
                    assert(s[i] == c);
                } else {
                    assert(tail[i - s.len()] == c);
                }
            }
        }
        lemma_split_without_separator(s + tail, c);
        assert(split(s, c).drop_last().push(split(s, c).last() + tail) =~= seq![s + tail]);
    } else {
        let rest = s.subrange(end + 1, s.len() as int);
        lemma_split_ahead(rest, tail, c);
        lemma_split_at_separator(first, c, rest);
        lemma_split_at_separator(first, c, rest + tail);
        assert(s =~= first + seq![c] + rest);
        assert(s + tail =~= first + seq![c] + (rest + tail));
        assert(split(s + tail, c) =~= split(s, c).drop_last().push(split(s, c).last() + tail));
    }
}

/// Whether a text is padding throughout.
pub open spec fn is_blank_text(s: Seq<char>, padding: Padding) -> bool {
    forall|i: int| 0 <= i < s.len() ==> is_padding(padding, #[trigger] s[i])
}

proof fn lemma_content_start_behind(lead: Seq<char>, s: Seq<char>, padding: Padding, from: int)
    requires
        is_blank_text(lead, padding),
        0 <= from <= lead.len() + s.len(),
    ensures
        content_start(lead + s, padding, from) == lead.len() + content_start(
            s,
            padding,
            if from < lead.len() {
                0
            } else {
                from - lead.len()
            },
        ),
    decreases lead.len() + s.len() - from,
{
    let whole = lead + s;
    if from < whole.len() {
        if from < lead.len() {
            assert(whole[from] == lead[from]);
            lemma_content_start_behind(lead, s, padding, from + 1);
        } else if is_padding(padding, whole[from]) {
            lemma_content_start_behind(lead, s, padding, from + 1);
        }
    }
}

proof fn lemma_content_start_ahead(s: Seq<char>, tail: Seq<char>, padding: Padding, from: int)
    requires
        is_blank_text(tail, padding),
        0 <= from <= s.len() + tail.len(),
    ensures
        from <= s.len() && content_start(s, padding, from) < s.len() ==> content_start(
            s + tail,
            padding,
            from,
        ) == content_start(s, padding, from),
        from >= s.len() || content_start(s, padding, from) == s.len() ==> content_start(
            s + tail,
            padding,
            from,
        ) == s.len() + tail.len(),
    decreases s.len() + tail.len() - from,
{
    let whole = s + tail;
    if from < whole.len() && is_padding(padding, whole[from]) {
        lemma_content_start_ahead(s, tail, padding, from + 1);
    }
    if from < whole.len() && from >= s.len() {
        assert(whole[from] == tail[from - s.len()]);
    }
    if from < s.len() {
        lemma_content_start_bounds(s, padding, from);
    }
}

proof fn lemma_content_end_ahead(s: Seq<char>, tail: Seq<char>, padding: Padding, to: int)
    requires
        is_blank_text(tail, padding),
        0 <= to <= s.len() + tail.len(),
    ensures
        content_end(s + tail, padding, to) == content_end(
            s,
            padding,
            if to < s.len() {
                to
            } else {
                s.len() as int
            },
        ),
    decreases to,
{
    let whole = s + tail;
    if to > 0 {
        if to > s.len() {
            assert(whole[to - 1] == tail[to - 1 - s.len()]);
            lemma_content_end_ahead(s, tail, padding, to - 1);
        } else if is_padding(padding, whole[to - 1]) {
            lemma_content_end_ahead(s, tail, padding, to - 1);
        }
    }
}

/// Padding around a text is trimmed away with its own.
pub proof fn lemma_trim_padded(lead: Seq<char>, s: Seq<char>, tail: Seq<char>, padding: Padding)
    requires
        is_blank_text(lead, padding),
        is_blank_text(tail, padding),
    ensures
        trim(lead + s + tail, padding) == trim(s, padding),
{
    let inner = s + tail;
    assert(lead + s + tail =~= lead + inner);
    lemma_content_start_behind(lead, inner, padding, 0);
    if lead.len() == 0 {
        assert(lead + inner =~= inner);
    }
    lemma_content_start_bounds(inner, padding, 0);
    assert(trim_start(lead + inner, padding) =~= trim_start(inner, padding));
    lemma_content_start_bounds(s, padding, 0);
    lemma_content_start_ahead(s, tail, padding, 0);
    let start = content_start(s, padding, 0);
    let body = trim_start(s, padding);
    if start < s.len() {
        assert(trim_start(inner, padding) =~= body + tail);
        lemma_content_end_ahead(body, tail, padding, (body + tail).len() as int);
        lemma_content_end_bounds(body, padding, body.len() as int);
        assert(trim_end(body + tail, padding) =~= trim_end(body, padding));
    } else {
        assert(trim_start(inner, padding) =~= Seq::empty());
        assert(body =~= Seq::empty());
    }
}

/// A text is what is left of it after trimming, with padding before and behind it.
pub proof fn lemma_trim_parts(s: Seq<char>, padding: Padding) -> (parts: (Seq<char>, Seq<char>))
    ensures
        s == parts.0 + trim(s, padding) + parts.1,
        is_blank_text(parts.0, padding),
        is_blank_text(parts.1, padding),
{
    let start = content_start(s, padding, 0);
    lemma_content_start_bounds(s, padding, 0);
    lemma_blank_before_content(s, padding, 0);
    let body = trim_start(s, padding);
    let end = content_end(body, padding, body.len() as int);
    lemma_content_end_bounds(body, padding, body.len() as int);
    lemma_blank_behind_content(body, padding, body.len() as int);
    let lead = s.subrange(0, start);
    let tail = body.subrange(end, body.len() as int);
    assert(s =~= lead + trim(s, padding) + tail);
    (lead, tail)
}

proof fn lemma_blank_before_content(s: Seq<char>, padding: Padding, from: int)
    requires
        0 <= from <= s.len(),
    ensures
        forall|i: int|
            from <= i < content_start(s, padding, from) ==> is_padding(padding, #[trigger] s[i]),
    decreases s.len() - from,
{
    if from < s.len() && is_padding(padding, s[from]) {
        lemma_blank_before_content(s, padding, from + 1);
    }
}

proof fn lemma_blank_behind_content(s: Seq<char>, padding: Padding, to: int)
    requires
        0 <= to <= s.len(),
    ensures
        forall|i: int|
            content_end(s, padding, to) <= i < to ==> is_padding(padding, #[trigger] s[i]),
    decreases to,
{
    if to > 0 && is_padding(padding, s[to - 1]) {
        lemma_blank_behind_content(s, padding, to - 1);
    }
}

pub proof fn lemma_content_start_bounds(s: Seq<char>, padding: Padding, from: int)
    requires
        0 <= from <= s.len(),
    ensures
        from <= content_start(s, padding, from) <= s.len(),
        content_start(s, padding, from) < s.len() ==> !is_padding(
            padding,
            s[content_start(s, padding, from)],
        ),
    decreases s.len() - from,
{
    if from < s.len() && is_padding(padding, s[from]) {
        lemma_content_start_bounds(s, padding, from + 1);
    }
}

pub proof fn lemma_content_end_bounds(s: Seq<char>, padding: Padding, to: int)
    requires
        0 <= to <= s.len(),
    ensures
        0 <= content_end(s, padding, to) <= to,
        content_end(s, padding, to) > 0 ==> !is_padding(
            padding,
            s[content_end(s, padding, to) - 1],
        ),
    decreases to,
{
    if to > 0 && is_padding(padding, s[to - 1]) {
        lemma_content_end_bounds(s, padding, to - 1);
    }
}

/// The characters of a string.
pub fn chars_of(s: &str) -> (r: Vec<char>)
    ensures
        r@ == s@,
{
    let mut out: Vec<char> = Vec::new();
    for c in it: s.chars()
        invariant
            out@ == it.seq().take(it.index()),
            it.seq() == s@,
    {
        out.push(c);
    }
    out
}

/// The string made of `s[from..to]`.
pub fn slice_text(s: &Vec<char>, from: usize, to: usize) -> (r: String)
    requires
        from <= to <= s.len(),
    ensures
        r@ == s@.subrange(from as int, to as int),
{
    let mut out = String::new();
    let mut i: usize = from;
    while i < to
        invariant
            from <= i <= to <= s.len(),
            out@ == s@.subrange(from as int, i as int),
        decreases to - i,
    {
        out.push(s[i]);
        i = i + 1;
        assert(s@.subrange(from as int, i as int) =~= s@.subrange(from as int, i - 1).push(
            s@[i - 1],
        ));
    }
    out
}

/// The string made of all of `s`.
pub fn string_of(s: &Vec<char>) -> (r: String)
    ensures
        r@ == s@,
{
    assert(s@.subrange(0, s.len() as int) =~= s@);
    slice_text(s, 0, s.len())
}

/// The characters `s[from..to]`.
pub fn slice_chars(s: &Vec<char>, from: usize, to: usize) -> (r: Vec<char>)
    requires
        from <= to <= s.len(),
    ensures
        r@ == s@.subrange(from as int, to as int),
{
    let mut out: Vec<char> = Vec::new();
    let mut i: usize = from;
    while i < to
        invariant
            from <= i <= to <= s.len(),
            out@ == s@.subrange(from as int, i as int),
        decreases to - i,
    {
        out.push(s[i]);
        i = i + 1;
        assert(s@.subrange(from as int, i as int) =~= s@.subrange(from as int, i - 1).push(
            s@[i - 1],
        ));
    }
    out
}

/// A character below 0x80 is encoded as itself, any other one with bytes that are not below it.
pub(crate) proof fn lemma_encode_char(c: char)
    ensures
        encode_scalar(c as u32).len() > 0,
        (c as u32) < 0x80 ==> encode_scalar(c as u32).len() == 1 && encode_scalar(c as u32)[0]
            == c as u32,
        (c as u32) >= 0x80 ==> forall|i: int|
            0 <= i < encode_scalar(c as u32).len() ==> #[trigger] encode_scalar(c as u32)[i] >= 0x80,
{
    let v = c as u32;
    vstd::utf8::char_is_scalar(c);
    assert(v < 0x80 ==> (v & 0x7f) as u8 == v) by (bit_vector);
    assert((0xc0u8 | ((v >> 6) & 0x1f) as u8) >= 0x80) by (bit_vector);
    assert((0xe0u8 | ((v >> 12) & 0x0f) as u8) >= 0x80) by (bit_vector);
    assert((0xf0u8 | ((v >> 18) & 0x7) as u8) >= 0x80) by (bit_vector);
    assert((0x80u8 | (v & 0x3f) as u8) >= 0x80) by (bit_vector);
    assert((0x80u8 | ((v >> 6) & 0x3f) as u8) >= 0x80) by (bit_vector);
    assert((0x80u8 | ((v >> 12) & 0x3f) as u8) >= 0x80) by (bit_vector);
}

/// Texts are encoded one after the other.
pub(crate) proof fn lemma_encode_append(head: Seq<char>, tail: Seq<char>)
    ensures
        encode_utf8(head + tail) == encode_utf8(head) + encode_utf8(tail),
    decreases head.len(),
{
    if head.len() == 0 {
        assert(head + tail =~= tail);
    } else {
        lemma_encode_append(head.drop_first(), tail);
        assert((head + tail).drop_first() =~= head.drop_first() + tail);
        assert((head + tail)[0] == head[0]);
    }
}

/// A copy of a string slice.
pub fn copy_text(s: &str) -> (r: String)
    ensures
        r@ == s@,
{
    s.to_owned()
}

/// An equal optional string.
pub(crate) fn copy_option(text: &Option<String>) -> (r: Option<String>)
    ensures
        r == *text,
{
    match text {
        Some(text) => Some(text.clone()),
        None => None,
    }
}

/// A copy of some bytes.
pub fn copy_bytes(bytes: &Vec<u8>) -> (r: Vec<u8>)
    ensures
        r@ == bytes@,
{
    let mut out: Vec<u8> = Vec::new();
    let mut i: usize = 0;
    while i < bytes.len()
        invariant
            i <= bytes.len(),
            out@ == bytes@.take(i as int),
        decreases bytes.len() - i,
    {
        out.push(bytes[i]);
        i = i + 1;
        assert(bytes@.take(i as int) =~= bytes@.take(i - 1).push(bytes@[i - 1]));
    }
    assert(bytes@.take(i as int) =~= bytes@);
    out
}

/// Whether two strings hold the same characters.
pub fn same(a: &str, b: &str) -> (r: bool)
    ensures
        r == (a@ == b@),
{
    let left = chars_of(a);
    let right = chars_of(b);
    if left.len() != right.len() {
        return false;
    }
    let mut i: usize = 0;
    while i < left.len()
        invariant
            left.len() == right.len(),
            left@ == a@,
            right@ == b@,
            0 <= i <= left.len(),
            forall|j: int| 0 <= j < i ==> left@[j] == right@[j],
        decreases left.len() - i,
    {
        if left[i] != right[i] {
            assert(a@[i as int] != b@[i as int]);
            return false;
        }
        i = i + 1;
    }
    assert(a@ =~= b@);
    true
}

/// The first `c` in `s` at or after `from`, or the length.
pub fn find_char(s: &Vec<char>, c: char, from: usize) -> (r: usize)
    requires
        from <= s.len(),
    ensures
        r == find(s@, c, from as int),
        from <= r <= s.len(),
        r < s.len() ==> s@[r as int] == c,
{
    let mut i: usize = from;
    while i < s.len()
        invariant
            from <= i <= s.len(),
            find(s@, c, from as int) == find(s@, c, i as int),
        decreases s.len() - i,
    {
        if s[i] == c {
            return i;
        }
        i = i + 1;
    }
    i
}

/// Whether `c` occurs in `s`.
pub fn contains_char(s: &str, c: char) -> (r: bool)
    ensures
        r == s@.contains(c),
{
    let chars = chars_of(s);
    proof {
        lemma_find_contains(s@, c);
    }
    find_char(&chars, c, 0) < chars.len()
}

/// The last `c` in `s` before `to`.
pub fn rfind_char(s: &Vec<char>, c: char, to: usize) -> (r: Option<usize>)
    requires
        to <= s.len(),
    ensures
        r matches Some(i) ==> i == rfind(s@, c, to as int) && i < to && s@[i as int] == c,
        r is None <==> rfind(s@, c, to as int) == -1,
{
    let mut i: usize = to;
    while i > 0
        invariant
            i <= to <= s.len(),
            rfind(s@, c, to as int) == rfind(s@, c, i as int),
        decreases i,
    {
        if s[i - 1] == c {
            return Some(i - 1);
        }
        i = i - 1;
    }
    None
}

/// Whether `s` starts with `prefix`.
pub fn starts_with(s: &Vec<char>, prefix: &Vec<char>) -> (r: bool)
    ensures
        r == prefix@.is_prefix_of(s@),
{
    if prefix.len() > s.len() {
        return false;
    }
    let mut i: usize = 0;
    while i < prefix.len()
        invariant
            0 <= i <= prefix.len() <= s.len(),
            forall|j: int| 0 <= j < i ==> prefix@[j] == s@[j],
        decreases prefix.len() - i,
    {
        if s[i] != prefix[i] {
            assert(prefix@[i as int] != s@.subrange(0, prefix@.len() as int)[i as int]);
            return false;
        }
        i = i + 1;
    }
    assert(prefix@ =~= s@.subrange(0, prefix@.len() as int));
    true
}

/// What follows `prefix` in `s`, if `s` starts with it.
pub fn strip_prefix(s: &str, prefix: &str) -> (r: Option<String>)
    ensures
        r is Some <==> prefix@.is_prefix_of(s@),
        r matches Some(rest) ==> rest@ == s@.skip(prefix@.len() as int) && s@ == prefix@ + rest@,
{
    let chars = chars_of(s);
    let lead = chars_of(prefix);
    if starts_with(&chars, &lead) {
        proof {
            assert(s@ =~= prefix@ + s@.skip(prefix@.len() as int));
        }
        Some(slice_text(&chars, lead.len(), chars.len()))
    } else {
        None
    }
}

/// Whether `c` has the Unicode `White_Space` property.
pub fn white_space(c: char) -> (r: bool)
    ensures
        r == is_white_space(c),
{
    ('\u{9}' <= c && c <= '\u{d}') || c == ' ' || c == '\u{85}' || c == '\u{a0}' || c == '\u{1680}'
        || ('\u{2000}' <= c && c <= '\u{200a}') || c == '\u{2028}' || c == '\u{2029}' || c
        == '\u{202f}' || c == '\u{205f}' || c == '\u{3000}'
}

/// Whether `c` is padding of the given sort.
pub fn padding_char(padding: Padding, c: char) -> (r: bool)
    ensures
        r == is_padding(padding, c),
{
    match padding {
        Padding::WhiteSpace => white_space(c),
        Padding::Blank => c == ' ' || c == '\t',
        Padding::Slash => c == '/',
    }
}

/// Drop leading padding.
pub fn trim_start_chars(s: &Vec<char>, padding: Padding) -> (r: Vec<char>)
    ensures
        r@ == trim_start(s@, padding),
{
    let mut i: usize = 0;
    while i < s.len() && padding_char(padding, s[i])
        invariant
            i <= s.len(),
            content_start(s@, padding, 0) == content_start(s@, padding, i as int),
        decreases s.len() - i,
    {
        i = i + 1;
    }
    slice_chars(s, i, s.len())
}

/// Drop trailing padding.
pub fn trim_end_chars(s: &Vec<char>, padding: Padding) -> (r: Vec<char>)
    ensures
        r@ == trim_end(s@, padding),
{
    let mut i: usize = s.len();
    while i > 0 && padding_char(padding, s[i - 1])
        invariant
            i <= s.len(),
            content_end(s@, padding, s.len() as int) == content_end(s@, padding, i as int),
        decreases i,
    {
        i = i - 1;
    }
    slice_chars(s, 0, i)
}

/// Drop padding at both ends.
pub fn trim_chars(s: &Vec<char>, padding: Padding) -> (r: Vec<char>)
    ensures
        r@ == trim(s@, padding),
{
    let start = trim_start_chars(s, padding);
    trim_end_chars(&start, padding)
}

/// Drop padding at both ends of a string.
pub fn trim_text(s: &str, padding: Padding) -> (r: String)
    ensures
        r@ == trim(s@, padding),
{
    let chars = chars_of(s);
    let trimmed = trim_chars(&chars, padding);
    string_of(&trimmed)
}

/// `c` with an ASCII capital made small.
pub fn lower_char(c: char) -> (r: char)
    ensures
        r == lower(c),
{
    match c {
        'A' => 'a',
        'B' => 'b',
        'C' => 'c',
        'D' => 'd',
        'E' => 'e',
        'F' => 'f',
        'G' => 'g',
        'H' => 'h',
        'I' => 'i',
        'J' => 'j',
        'K' => 'k',
        'L' => 'l',
        'M' => 'm',
        'N' => 'n',
        'O' => 'o',
        'P' => 'p',
        'Q' => 'q',
        'R' => 'r',
        'S' => 's',
        'T' => 't',
        'U' => 'u',
        'V' => 'v',
        'W' => 'w',
        'X' => 'x',
        'Y' => 'y',
        'Z' => 'z',
        _ => c,
    }
}

/// `s` with its ASCII capitals made small.
pub fn lowercase_text(s: &str) -> (r: String)
    ensures
        r@ == lowercase(s@),
{
    let chars = chars_of(s);
    let mut out = String::new();
    let mut i: usize = 0;
    while i < chars.len()
        invariant
            i <= chars.len(),
            chars@ == s@,
            out@ == lowercase(s@.take(i as int)),
        decreases chars.len() - i,
    {
        out.push(lower_char(chars[i]));
        i = i + 1;
        assert(lowercase(s@.take(i as int)) =~= lowercase(s@.take(i - 1)).push(lower(s@[i - 1])));
    }
    assert(s@.take(i as int) =~= s@);
    out
}

/// Whether two strings are equal once their ASCII capitals are made small.
pub fn same_ignoring_case(a: &str, b: &str) -> (r: bool)
    ensures
        r == (lowercase(a@) == lowercase(b@)),
{
    same(lowercase_text(a).as_str(), lowercase_text(b).as_str())
}

/// The character of a decimal digit.
fn digit_char(d: u64) -> (r: char)
    requires
        d < 10,
    ensures
        r == digit(d as int),
{
    match d {
        0 => '0',
        1 => '1',
        2 => '2',
        3 => '3',
        4 => '4',
        5 => '5',
        6 => '6',
        7 => '7',
        8 => '8',
        _ => '9',
    }
}

/// The decimal numeral of `n`.
pub fn decimal_text(n: u64) -> (r: String)
    ensures
        r@ == decimal(n as nat),
    decreases n,
{
    if n < 10 {
        let mut out = String::new();
        out.push(digit_char(n));
        assert(out@ =~= seq![digit(n as int)]);
        out
    } else {
        let mut out = decimal_text(n / 10);
        out.push(digit_char(n % 10));
        out
    }
}

/// The pieces of a string between separators.
pub fn split_text(s: &str, c: char) -> (r: Vec<String>)
    ensures
        texts(r@) == split(s@, c),
{
    let chars = chars_of(s);
    let mut out: Vec<String> = Vec::new();
    let mut from: usize = 0;
    assert(texts(out@) + split_from(s@, c, 0) =~= split(s@, c));
    loop
        invariant
            chars@ == s@,
            from <= chars.len(),
            texts(out@) + split_from(s@, c, from as int) == split(s@, c),
        decreases chars.len() - from,
    {
        let end = find_char(&chars, c, from);
        let piece = slice_text(&chars, from, end);
        let ghost before = texts(out@);
        out.push(piece);
        assert(texts(out@) =~= before.push(piece@));
        if end == chars.len() {
            assert(s@.subrange(from as int, end as int) =~= s@.subrange(
                from as int,
                s@.len() as int,
            ));
            assert(texts(out@) =~= before + seq![piece@]);
            return out;
        }
        assert(texts(out@) + split_from(s@, c, end + 1) =~= before + (seq![piece@] + split_from(
            s@,
            c,
            end + 1,
        )));
        from = end + 1;
    }
}

/// Put the parts one after the other with a separator in between.
pub fn join_texts(parts: &Vec<String>, separator: &str) -> (r: String)
    ensures
        r@ == join(texts(parts@), separator@),
{
    let mut out = String::new();
    let mut i: usize = 0;
    while i < parts.len()
        invariant
            i <= parts.len(),
            out@ == join(texts(parts@.take(i as int)), separator@),
        decreases parts.len() - i,
    {
        if i > 0 {
            out.append(separator);
        }
        out.append(parts[i].as_str());
        i = i + 1;
        proof {
            let now = texts(parts@.take(i as int));
            let before = texts(parts@.take(i - 1));
            assert(now.drop_last() =~= before);
            assert(now.last() == parts@[i - 1]@);
            if i == 1 {
                assert(now[0] == parts@[0]@);
                assert(out@ =~= now[0]);
            }
        }
    }
    assert(parts@.take(i as int) =~= parts@);
    out
}

pub proof fn lemma_decimal_is_not_empty(n: nat)
    ensures
        decimal(n).len() >= 1,
        n >= 10 ==> decimal(n).len() >= 2,
    decreases n,
{
    if n >= 10 {
        lemma_decimal_is_not_empty(n / 10);
    }
}

pub proof fn lemma_decimal_is_injective(a: nat, b: nat)
    requires
        decimal(a) == decimal(b),
    ensures
        a == b,
    decreases a,
{
    lemma_decimal_is_not_empty(a);
    lemma_decimal_is_not_empty(b);
    assert(decimal(a).last() == digit((a % 10) as int));
    assert(decimal(b).last() == digit((b % 10) as int));
    if a >= 10 {
        assert(decimal(a).drop_last() =~= decimal(a / 10));
        assert(decimal(b).drop_last() =~= decimal(b / 10));
        lemma_decimal_is_injective(a / 10, b / 10);
    }
}

pub proof fn lemma_decimal_is_digits(n: nat)
    ensures
        is_digits(decimal(n)),
    decreases n,
{
    if n >= 10 {
        lemma_decimal_is_digits(n / 10);
    }
}

/// Whether a character is a decimal digit.
pub open spec fn is_digit(c: char) -> bool {
    '0' <= c <= '9'
}

/// The number that the first `to` digits of a text stand for.
pub open spec fn digits_value(s: Seq<char>, to: int) -> nat
    decreases to,
{
    if to <= 0 || to > s.len() {
        0
    } else {
        digits_value(s, to - 1) * 10 + ((s[to - 1] as u32) - ('0' as u32)) as nat
    }
}

/// Whether a text consists of digits, and has at least one.
pub open spec fn is_digits(s: Seq<char>) -> bool {
    s.len() > 0 && forall|i: int| 0 <= i < s.len() ==> is_digit(#[trigger] s[i])
}

/// The digits of a number, which may stand behind a plus sign.
pub open spec fn unsigned_digits(s: Seq<char>) -> Seq<char> {
    if s.len() > 0 && s[0] == '+' {
        s.subrange(1, s.len() as int)
    } else {
        s
    }
}

/// The natural number a text stands for: digits, which may stand behind a plus sign.
pub open spec fn numeral(s: Seq<char>) -> Option<nat> {
    let digits = unsigned_digits(s);
    if is_digits(digits) {
        Some(digits_value(digits, digits.len() as int))
    } else {
        None
    }
}

/// The natural number a text stands for, where it is at most `max`.
pub open spec fn bounded_numeral(s: Seq<char>, max: u64) -> Option<u64> {
    match numeral(s) {
        Some(n) => if n <= max {
            Some(n as u64)
        } else {
            None
        },
        None => None,
    }
}

proof fn lemma_digits_value_grows(s: Seq<char>, from: int, to: int)
    requires
        0 <= from <= to <= s.len(),
        forall|i: int| 0 <= i < s.len() ==> is_digit(#[trigger] s[i]),
    ensures
        digits_value(s, from) <= digits_value(s, to),
    decreases to - from,
{
    if from < to {
        lemma_digits_value_grows(s, from, to - 1);
        assert(is_digit(s[to - 1]));
    }
}

/// The natural number a text stands for, where it is at most `max`.
pub fn parse_number(text: &str, max: u64) -> (r: Option<u64>)
    ensures
        r == bounded_numeral(text@, max),
{
    let chars = chars_of(text);
    let start: usize = if chars.len() > 0 && chars[0] == '+' {
        1
    } else {
        0
    };
    let digits = slice_chars(&chars, start, chars.len());
    assert(digits@ =~= unsigned_digits(text@));
    if digits.len() == 0 {
        return None;
    }
    let mut value: u64 = 0;
    let mut i: usize = 0;
    while i < digits.len()
        invariant
            i <= digits.len(),
            digits@ == unsigned_digits(text@),
            digits.len() > 0,
            value == digits_value(digits@, i as int),
            value <= max,
            forall|j: int| 0 <= j < i ==> is_digit(#[trigger] digits@[j]),
        decreases digits.len() - i,
    {
        let c = digits[i];
        if !('0' <= c && c <= '9') {
            assert(!is_digit(digits@[i as int]));
            return None;
        }
        let d: u128 = (c as u32 - '0' as u32) as u128;
        let next: u128 = (value as u128) * 10 + d;
        i = i + 1;
        assert(next == digits_value(digits@, i as int));
        if next > max as u128 {
            proof {
                if is_digits(digits@) {
                    lemma_digits_value_grows(digits@, i as int, digits@.len() as int);
                }
            }
            return None;
        }
        value = next as u64;
    }
    assert(is_digits(digits@));
    Some(value)
}

/// Whether `a` comes before `b` or is `b`, comparing character by character from `from` on.
pub open spec fn precedes_from(a: Seq<char>, b: Seq<char>, from: int) -> bool
    decreases a.len() - from,
{
    if from < 0 || from >= a.len() {
        true
    } else if from >= b.len() {
        false
    } else if a[from] == b[from] {
        precedes_from(a, b, from + 1)
    } else {
        a[from] < b[from]
    }
}

/// The dictionary order of texts: `a` comes before `b` or is `b`.
pub open spec fn precedes(a: Seq<char>, b: Seq<char>) -> bool {
    precedes_from(a, b, 0)
}

proof fn lemma_precedes_from_total(a: Seq<char>, b: Seq<char>, from: int)
    requires
        0 <= from,
    ensures
        precedes_from(a, b, from) || precedes_from(b, a, from),
    decreases a.len() - from,
{
    if from < a.len() && from < b.len() && a[from] == b[from] {
        lemma_precedes_from_total(a, b, from + 1);
    }
}

proof fn lemma_precedes_from_antisymmetric(a: Seq<char>, b: Seq<char>, from: int)
    requires
        0 <= from <= a.len(),
        from <= b.len(),
        precedes_from(a, b, from),
        precedes_from(b, a, from),
    ensures
        a.skip(from) == b.skip(from),
    decreases a.len() - from,
{
    if from < a.len() && from < b.len() {
        lemma_precedes_from_antisymmetric(a, b, from + 1);
        assert(a.skip(from) =~= seq![a[from]] + a.skip(from + 1));
        assert(b.skip(from) =~= seq![b[from]] + b.skip(from + 1));
    } else {
        assert(a.skip(from) =~= b.skip(from));
    }
}

proof fn lemma_precedes_from_transitive(a: Seq<char>, b: Seq<char>, c: Seq<char>, from: int)
    requires
        0 <= from,
        precedes_from(a, b, from),
        precedes_from(b, c, from),
    ensures
        precedes_from(a, c, from),
    decreases a.len() - from,
{
    if from < a.len() && from < b.len() && from < c.len() && a[from] == b[from] && b[from]
        == c[from] {
        lemma_precedes_from_transitive(a, b, c, from + 1);
    }
}

/// The dictionary order is a total order.
pub proof fn precedes_is_a_total_order(a: Seq<char>, b: Seq<char>, c: Seq<char>)
    ensures
        precedes(a, a),
        precedes(a, b) || precedes(b, a),
        precedes(a, b) && precedes(b, a) ==> a == b,
        precedes(a, b) && precedes(b, c) ==> precedes(a, c),
{
    lemma_precedes_from_total(a, a, 0);
    lemma_precedes_from_total(a, b, 0);
    if precedes(a, b) && precedes(b, a) {
        lemma_precedes_from_antisymmetric(a, b, 0);
        assert(a.skip(0) =~= a);
        assert(b.skip(0) =~= b);
    }
    if precedes(a, b) && precedes(b, c) {
        lemma_precedes_from_transitive(a, b, c, 0);
    }
}

/// Whether `a` comes before `b` in dictionary order, or is `b`.
pub fn text_precedes(a: &str, b: &str) -> (r: bool)
    ensures
        r == precedes(a@, b@),
{
    let left = chars_of(a);
    let right = chars_of(b);
    let mut i: usize = 0;
    while i < left.len()
        invariant
            i <= left.len(),
            left@ == a@,
            right@ == b@,
            precedes(a@, b@) == precedes_from(a@, b@, i as int),
        decreases left.len() - i,
    {
        if i >= right.len() {
            return false;
        }
        if left[i] != right[i] {
            return left[i] < right[i];
        }
        i = i + 1;
    }
    true
}

/// Whether a parser may make `parsed` of a text.
pub open spec fn may_parse<T, P: Fn(&String) -> Option<T>>(
    parse: P,
    text: Seq<char>,
    parsed: Option<T>,
) -> bool {
    exists|given: String| given@ == text && #[trigger] call_ensures(parse, (&given,), parsed)
}

/// A text without padding at its ends is trimmed to itself.
pub proof fn a_text_without_padding_stays(s: Seq<char>, padding: Padding)
    requires
        s.len() == 0 || (!is_padding(padding, s[0]) && !is_padding(padding, s.last())),
    ensures
        trim(s, padding) == s,
        trim_start(s, padding) == s,
        trim_end(s, padding) == s,
{
    if s.len() > 0 {
        assert(content_start(s, padding, 0) == 0);
        assert(content_end(s, padding, s.len() as int) == s.len());
    }
    assert(trim_start(s, padding) =~= s);
    assert(trim_end(s, padding) =~= s);
}

/// What is trimmed is padding, and what is left has none at its ends.
pub proof fn trimming_leaves_no_padding(s: Seq<char>, padding: Padding)
    ensures
        trim(s, padding).len() > 0 ==> !is_padding(padding, trim(s, padding)[0]) && !is_padding(
            padding,
            trim(s, padding).last(),
        ),
        trim(s, padding).len() == 0 <==> is_blank_text(s, padding),
{
    let start = content_start(s, padding, 0);
    lemma_content_start_bounds(s, padding, 0);
    let body = trim_start(s, padding);
    lemma_content_end_bounds(body, padding, body.len() as int);
    let parts = lemma_trim_parts(s, padding);
    if trim(s, padding).len() > 0 {
        assert(body[0] == s[start]);
    }
    if trim(s, padding).len() == 0 {
        assert(s =~= parts.0 + parts.1);
    } else {
        let at = parts.0.len() as int;
        assert(s[at] == trim(s, padding)[0]);
    }
}

/// Pieces without the separator come apart again where they were joined by it.
pub proof fn joined_pieces_come_apart(parts: Seq<Seq<char>>, c: char)
    requires
        parts.len() > 0,
        forall|i: int| 0 <= i < parts.len() ==> !(#[trigger] parts[i]).contains(c),
    ensures
        split(join(parts, seq![c]), c) == parts,
    decreases parts.len(),
{
    if parts.len() == 1 {
        assert(!parts[0].contains(c));
        lemma_split_without_separator(parts[0], c);
        assert(parts =~= seq![parts[0]]);
    } else {
        let init = parts.drop_last();
        assert forall|i: int| 0 <= i < init.len() implies !(#[trigger] init[i]).contains(c) by {
            assert(!parts[i].contains(c));
        }
        joined_pieces_come_apart(init, c);
        assert(!parts[parts.len() - 1].contains(c));
        lemma_split_before_last(join(init, seq![c]), c, parts.last());
        assert(init.push(parts.last()) =~= parts);
    }
}

/// A text is joined again from the pieces it was split into, none of which holds the separator.
pub proof fn split_pieces_make_the_text(s: Seq<char>, c: char)
    ensures
        split(s, c).len() > 0,
        join(split(s, c), seq![c]) == s,
        forall|i: int| 0 <= i < split(s, c).len() ==> !(#[trigger] split(s, c)[i]).contains(c),
    decreases s.len(),
{
    if !s.contains(c) {
        lemma_split_without_separator(s, c);
    } else {
        lemma_rfind_bounds(s, c, s.len() as int);
        let at = rfind(s, c, s.len() as int);
        lemma_rfind_last(s, c, s.len() as int);
        let head = s.subrange(0, at);
        let tail = s.subrange(at + 1, s.len() as int);
        assert(!tail.contains(c)) by {
            if tail.contains(c) {
                let i = choose|i: int| 0 <= i < tail.len() && tail[i] == c;
                assert(s[at + 1 + i] == c);
            }
        }
        split_pieces_make_the_text(head, c);
        lemma_split_before_last(head, c, tail);
        assert(s =~= head + seq![c] + tail);
        assert(split(s, c).drop_last() =~= split(head, c));
        let all = split(s, c);
        assert forall|i: int| 0 <= i < all.len() implies !(#[trigger] all[i]).contains(c) by {
            if i < split(head, c).len() {
                assert(all[i] == split(head, c)[i]);
            }
        }
    }
}

proof fn lemma_rfind_last(s: Seq<char>, c: char, to: int)
    requires
        0 <= to <= s.len(),
    ensures
        forall|i: int| rfind(s, c, to) < i < to ==> #[trigger] s[i] != c,
        (exists|i: int| 0 <= i < to && #[trigger] s[i] == c) ==> rfind(s, c, to) >= 0 && s[rfind(
            s,
            c,
            to,
        )] == c && rfind(s, c, to) < to,
    decreases to,
{
    if to > 0 && s[to - 1] != c {
        lemma_rfind_last(s, c, to - 1);
    }
}

/// The digits of a numeral stand for the number it was made of, and only zero starts with a zero.
pub proof fn a_numeral_stands_for_its_number(n: nat)
    ensures
        is_digits(decimal(n)),
        digits_value(decimal(n), decimal(n).len() as int) == n,
        n > 0 ==> decimal(n)[0] != '0',
    decreases n,
{
    reveal_with_fuel(digits_value, 2);
    lemma_decimal_is_digits(n);
    if n < 10 {
        assert(digit(n as int) as u32 == '0' as u32 + n);
    } else {
        let before = decimal(n / 10);
        let all = decimal(n);
        assert(digit((n % 10) as int) as u32 == '0' as u32 + n % 10);
        a_numeral_stands_for_its_number(n / 10);
        lemma_decimal_is_not_empty(n / 10);
        lemma_digits_value_of_prefix(before, all, before.len() as int);
        assert(all[all.len() - 1] == digit((n % 10) as int));
    }
}

proof fn lemma_digits_value_of_prefix(a: Seq<char>, b: Seq<char>, to: int)
    requires
        0 <= to <= a.len() <= b.len(),
        forall|i: int| 0 <= i < to ==> #[trigger] a[i] == b[i],
    ensures
        digits_value(a, to) == digits_value(b, to),
    decreases to,
{
    if to > 0 {
        lemma_digits_value_of_prefix(a, b, to - 1);
    }
}

/// Case is ignored of letters alone: a capital counts as its small letter, anything else as itself.
pub proof fn only_capitals_are_made_small(s: Seq<char>, i: int)
    requires
        0 <= i < s.len(),
    ensures
        lowercase(s).len() == s.len(),
        !('A' <= s[i] <= 'Z') ==> lowercase(s)[i] == s[i],
        'A' <= s[i] <= 'Z' ==> 'a' <= lowercase(s)[i] <= 'z' && lowercase(s)[i] as u32 == s[i] as u32
            + 32,
        lowercase(lowercase(s)) == lowercase(s),
{
    assert(lowercase(lowercase(s)) =~= lowercase(s));
}

/// Two texts are ordered by the first characters that differ; a text comes before its extensions.
pub proof fn the_first_difference_orders_texts(
    common: Seq<char>,
    a: char,
    b: char,
    left: Seq<char>,
    right: Seq<char>,
)
    requires
        a < b,
    ensures
        precedes(common + seq![a] + left, common + seq![b] + right),
        !precedes(common + seq![b] + right, common + seq![a] + left),
        precedes(common, common + left),
        left.len() > 0 ==> !precedes(common + left, common),
{
    lemma_precedes_behind(common, seq![a] + left, seq![b] + right, 0);
    lemma_precedes_behind(common, seq![b] + right, seq![a] + left, 0);
    assert(common + seq![a] + left =~= common + (seq![a] + left));
    assert(common + seq![b] + right =~= common + (seq![b] + right));
    let none = Seq::<char>::empty();
    lemma_precedes_behind(common, none, left, 0);
    lemma_precedes_behind(common, left, none, 0);
    assert(common + none =~= common);
}

proof fn lemma_precedes_behind(common: Seq<char>, a: Seq<char>, b: Seq<char>, from: int)
    requires
        0 <= from <= common.len(),
    ensures
        precedes_from(common + a, common + b, from) <==> a.len() == 0 || (b.len() > 0 && (a[0]
            < b[0] || (a[0] == b[0] && precedes_from(
            common + a,
            common + b,
            common.len() as int + 1,
        )))),
    decreases common.len() - from,
{
    if from < common.len() {
        assert((common + a)[from] == (common + b)[from]);
        lemma_precedes_behind(common, a, b, from + 1);
    } else {
        if a.len() > 0 {
            assert((common + a)[from] == a[0]);
        }
        if b.len() > 0 {
            assert((common + b)[from] == b[0]);
        }
    }
}

/// A number is read back from its numeral, with or without a plus sign, unless it exceeds the bound;
/// a text that holds anything but digits is no numeral.
pub proof fn a_numeral_is_read_back(n: nat, max: u64, text: Seq<char>, at: int)
    requires
        0 <= at < text.len(),
        !('0' <= text[at] <= '9'),
        at > 0 || text[at] != '+',
    ensures
        bounded_numeral(decimal(n), max) == if n <= max {
            Some(n as u64)
        } else {
            None
        },
        bounded_numeral(seq!['+'] + decimal(n), max) == bounded_numeral(decimal(n), max),
        bounded_numeral(text, max) is None,
        bounded_numeral(Seq::empty(), max) is None,
{
    let written = decimal(n);
    let signed = seq!['+'] + written;
    lemma_decimal_is_not_empty(n);
    a_numeral_stands_for_its_number(n);
    assert(is_digit(written[0]));
    assert(unsigned_digits(written) == written);
    assert(unsigned_digits(signed) =~= written);
    if text[0] == '+' {
        let rest = text.subrange(1, text.len() as int);
        assert(rest[at - 1] == text[at]);
        assert(!is_digits(rest));
    } else {
        assert(!is_digits(text));
    }
}

} // verus!
