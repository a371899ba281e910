//! Conditional and partial responses: what of a file a request is answered with.

use vstd::prelude::*;
#[allow(unused_imports)]
use vstd::string::StringExecFns;

use crate::middleware::headers::{push_insert, HeaderField, HeaderUpdate};
#[allow(unused_imports)]
use crate::middleware::headers::{updates, UpdateView};
#[allow(unused_imports)]
use crate::text::{
    a_numeral_stands_for_its_number, a_text_without_padding_stays, bounded_numeral, decimal, find,
    is_digits, is_white_space, lemma_decimal_is_digits, lemma_decimal_is_injective,
    lemma_find_bounds, lemma_split_at_separator, lemma_split_without_separator, lemma_trim_padded,
    split, texts, trim, unsigned_digits,
};
use crate::text::{
    chars_of, copy_text, decimal_text, find_char, parse_number, same, slice_text, split_text,
    strip_prefix, trim_text, Padding,
};

verus! {

/// A version of a file.
#[derive(Debug, Clone, Copy, PartialEq, Eq)]
pub struct FileVersion {
    /// The length in bytes.
    pub len: u64,
    /// What tells versions of one length apart: when the file was last modified, or a hash of what is
    /// in it.
    pub stamp: u64,
}

/// The entity tag of a version.
pub open spec fn tag_of(version: FileVersion) -> Seq<char> {
    "\""@ + decimal(version.len as nat) + "-"@ + decimal(version.stamp as nat) + "\""@
}

/// The entity tag of a version, for the `ETag` header.
pub fn entity_tag(version: FileVersion) -> (r: String)
    ensures
        r@ == tag_of(version),
{
    let mut tag = copy_text("\"");
    let len = decimal_text(version.len);
    tag.append(len.as_str());
    tag.append("-");
    let stamp = decimal_text(version.stamp);
    tag.append(stamp.as_str());
    tag.append("\"");
    tag
}

/// Different versions have different entity tags.
pub proof fn tags_tell_versions_apart(a: FileVersion, b: FileVersion)
    requires
        a != b,
    ensures
        tag_of(a) != tag_of(b),
{
    reveal_strlit("\"");
    reveal_strlit("-");
    let (x, y) = (decimal(a.len as nat), decimal(b.len as nat));
    let (u, v) = (decimal(a.stamp as nat), decimal(b.stamp as nat));
    lemma_decimal_is_digits(a.len as nat);
    lemma_decimal_is_digits(b.len as nat);
    if tag_of(a) == tag_of(b) {
        let (s, t) = (tag_of(a), tag_of(b));
        let (m, n) = (x.len() as int, y.len() as int);
        if m < n {
            assert(s[1 + m] == '-');
            assert(t[1 + m] == y[m]);
        }
        if n < m {
            assert(t[1 + n] == '-');
            assert(s[1 + n] == x[n]);
        }
        assert(x =~= s.subrange(1, 1 + m));
        assert(y =~= t.subrange(1, 1 + n));
        assert(u =~= s.subrange(2 + m, s.len() - 1));
        assert(v =~= t.subrange(2 + n, t.len() - 1));
        lemma_decimal_is_injective(a.len as nat, b.len as nat);
        lemma_decimal_is_injective(a.stamp as nat, b.stamp as nat);
    }
}

/// An entity tag without the mark of a weak one.
pub open spec fn strong_part(tag: Seq<char>) -> Seq<char> {
    if "W/"@.is_prefix_of(tag) {
        tag.subrange("W/"@.len() as int, tag.len() as int)
    } else {
        tag
    }
}

/// Whether one of the first `to` entries of a list of entity tags is the given one.
pub open spec fn lists_tag(entries: Seq<Seq<char>>, tag: Seq<char>, to: int) -> bool {
    exists|i: int|
        0 <= i < to && strong_part(trim(#[trigger] entries[i], Padding::WhiteSpace)) == tag
}

/// Whether a precondition names a version's entity tag: it lists it, or is a star.
pub open spec fn names_tag(condition: Seq<char>, tag: Seq<char>) -> bool {
    trim(condition, Padding::WhiteSpace) == "*"@ || lists_tag(
        split(condition, ','),
        tag,
        split(condition, ',').len() as int,
    )
}

fn condition_names(condition: &str, tag: &str) -> (r: bool)
    ensures
        r == names_tag(condition@, tag@),
{
    let whole = trim_text(condition, Padding::WhiteSpace);
    if same(whole.as_str(), "*") {
        return true;
    }
    let entries = split_text(condition, ',');
    let ghost all = split(condition@, ',');
    let mut i: usize = 0;
    while i < entries.len()
        invariant
            i <= entries.len(),
            all == split(condition@, ','),
            texts(entries@) == all,
            !lists_tag(all, tag@, i as int),
        decreases entries.len() - i,
    {
        assert(all[i as int] == entries@[i as int]@);
        let entry = trim_text(entries[i].as_str(), Padding::WhiteSpace);
        let strong = match strip_prefix(entry.as_str(), "W/") {
            Some(rest) => rest,
            None => entry,
        };
        if same(strong.as_str(), tag) {
            assert(lists_tag(all, tag@, all.len() as int));
            return true;
        }
        i = i + 1;
    }
    false
}

/// The bytes of a file that are asked for.
#[derive(Debug, Clone, Copy, PartialEq, Eq)]
pub enum ByteRange {
    /// All of them.
    Whole,
    /// Those from `start` up to `end`.
    Part {
        /// The first.
        start: u64,
        /// The one after the last.
        end: u64,
    },
    /// None that the file has.
    Unsatisfiable,
}

/// The number a text of digits stands for.
pub open spec fn position_of(text: Seq<char>) -> Option<u64> {
    if is_digits(text) {
        bounded_numeral(text, u64::MAX)
    } else {
        None
    }
}

/// The last bytes of a file.
pub open spec fn suffix_range(count: Option<u64>, len: u64) -> ByteRange {
    match count {
        None => ByteRange::Whole,
        Some(count) => if count == 0 || len == 0 {
            ByteRange::Unsatisfiable
        } else {
            ByteRange::Part {
                start: if count < len {
                    (len - count) as u64
                } else {
                    0
                },
                end: len,
            }
        },
    }
}

/// The bytes of a file from one on, up to a last one where one is named.
pub open spec fn bounded_range(start: u64, last: Option<u64>, len: u64) -> ByteRange {
    match last {
        Some(last) => if last < start {
            ByteRange::Whole
        } else if start >= len {
            ByteRange::Unsatisfiable
        } else {
            ByteRange::Part {
                start,
                end: if last < len {
                    (last + 1) as u64
                } else {
                    len
                },
            }
        },
        None => if start < len {
            ByteRange::Part { start, end: len }
        } else {
            ByteRange::Unsatisfiable
        },
    }
}

/// What a range of bytes asks for, where it is one range that can be read; anything else is
/// ignored.
pub open spec fn range_of(range: Seq<char>, len: u64) -> ByteRange {
    let dash = find(range, '-', 0);
    if dash >= range.len() {
        ByteRange::Whole
    } else {
        let first = trim(range.subrange(0, dash), Padding::WhiteSpace);
        let last = trim(range.subrange(dash + 1, range.len() as int), Padding::WhiteSpace);
        if first.len() == 0 {
            suffix_range(position_of(last), len)
        } else {
            match position_of(first) {
                None => ByteRange::Whole,
                Some(start) => if last.len() == 0 {
                    bounded_range(start, None, len)
                } else {
                    match position_of(last) {
                        None => ByteRange::Whole,
                        Some(last) => bounded_range(start, Some(last), len),
                    }
                },
            }
        }
    }
}

/// What a `Range` header asks for.
pub open spec fn requested_range(header: Seq<char>, len: u64) -> ByteRange {
    if "bytes="@.is_prefix_of(header) {
        range_of(header.subrange("bytes="@.len() as int, header.len() as int), len)
    } else {
        ByteRange::Whole
    }
}

fn parse_position(text: &str) -> (r: Option<u64>)
    ensures
        r == position_of(text@),
{
    let chars = chars_of(text);
    if chars.len() == 0 {
        return None;
    }
    if chars[0] == '+' {
        assert(!is_digits(text@));
        return None;
    }
    let r = parse_number(text, u64::MAX);
    assert(crate::text::unsigned_digits(text@) == text@);
    r
}

fn suffix(count: Option<u64>, len: u64) -> (r: ByteRange)
    ensures
        r == suffix_range(count, len),
{
    match count {
        None => ByteRange::Whole,
        Some(count) => if count == 0 || len == 0 {
            ByteRange::Unsatisfiable
        } else if count < len {
            ByteRange::Part { start: len - count, end: len }
        } else {
            ByteRange::Part { start: 0, end: len }
        },
    }
}

fn bounded(start: u64, last: Option<u64>, len: u64) -> (r: ByteRange)
    ensures
        r == bounded_range(start, last, len),
{
    match last {
        Some(last) => if last < start {
            ByteRange::Whole
        } else if start >= len {
            ByteRange::Unsatisfiable
        } else if last < len {
            ByteRange::Part { start, end: last + 1 }
        } else {
            ByteRange::Part { start, end: len }
        },
        None => if start < len {
            ByteRange::Part { start, end: len }
        } else {
            ByteRange::Unsatisfiable
        },
    }
}

/// What a `Range` header asks for, of a file of this length.
pub fn parse_range(header: &str, len: u64) -> (r: ByteRange)
    ensures
        r == requested_range(header@, len),
{
    let range = match strip_prefix(header, "bytes=") {
        Some(range) => range,
        None => {
            return ByteRange::Whole;
        },
    };
    let chars = chars_of(range.as_str());
    let dash = find_char(&chars, '-', 0);
    if dash >= chars.len() {
        return ByteRange::Whole;
    }
    let head = slice_text(&chars, 0, dash);
    let tail = slice_text(&chars, dash + 1, chars.len());
    let first = trim_text(head.as_str(), Padding::WhiteSpace);
    let last = trim_text(tail.as_str(), Padding::WhiteSpace);
    if first.as_str().unicode_len() == 0 {
        return suffix(parse_position(last.as_str()), len);
    }
    match parse_position(first.as_str()) {
        None => ByteRange::Whole,
        Some(start) => if last.as_str().unicode_len() == 0 {
            bounded(start, None, len)
        } else {
            match parse_position(last.as_str()) {
                None => ByteRange::Whole,
                Some(last) => bounded(start, Some(last), len),
            }
        },
    }
}

/// A part of a file that is asked for is not empty and lies inside the file.
pub proof fn a_part_lies_inside_the_file(header: Seq<char>, len: u64)
    ensures
        requested_range(header, len) matches ByteRange::Part { start, end } ==> start < end
            && end <= len,
{
}

/// What a request for a file is answered with.
#[derive(Debug, Clone, Copy, PartialEq, Eq)]
pub enum FilePlan {
    /// 304: the client has this version.
    NotModified,
    /// Bytes of the file: 200 for all of them, 206 for a part, 416 where the file has none of them.
    Bytes(ByteRange),
}

/// The first value of a header, where it is text.
pub open spec fn header_text(field: HeaderField) -> Option<Seq<char>> {
    match field {
        HeaderField::Text(text) => Some(text@),
        _ => None,
    }
}

/// What a request for a file is answered with. A client that has the version is told so; a range
/// counts unless the client asks for it of another version.
pub open spec fn planned(
    version: FileVersion,
    if_none_match: Option<Seq<char>>,
    range: Option<Seq<char>>,
    if_range: Option<Seq<char>>,
) -> FilePlan {
    if if_none_match is Some && names_tag(if_none_match->Some_0, tag_of(version)) {
        FilePlan::NotModified
    } else if range is None || (if_range is Some && trim(if_range->Some_0, Padding::WhiteSpace)
        != tag_of(version)) {
        FilePlan::Bytes(ByteRange::Whole)
    } else {
        FilePlan::Bytes(requested_range(range->Some_0, version.len))
    }
}

/// What a request for a file is answered with, given its `If-None-Match`, `Range` and `If-Range`
/// headers.
pub fn plan_file(
    version: FileVersion,
    if_none_match: &HeaderField,
    range: &HeaderField,
    if_range: &HeaderField,
) -> (r: FilePlan)
    ensures
        r == planned(
            version,
            header_text(*if_none_match),
            header_text(*range),
            header_text(*if_range),
        ),
{
    let tag = entity_tag(version);
    if let HeaderField::Text(condition) = if_none_match {
        if condition_names(condition.as_str(), tag.as_str()) {
            return FilePlan::NotModified;
        }
    }
    match range {
        HeaderField::Text(range) => {
            if let HeaderField::Text(condition) = if_range {
                let wanted = trim_text(condition.as_str(), Padding::WhiteSpace);
                if !same(wanted.as_str(), tag.as_str()) {
                    return FilePlan::Bytes(ByteRange::Whole);
                }
            }
            FilePlan::Bytes(parse_range(range.as_str(), version.len))
        },
        _ => FilePlan::Bytes(ByteRange::Whole),
    }
}

/// The status of a response.
pub open spec fn status_of(plan: FilePlan) -> u16 {
    match plan {
        FilePlan::NotModified => 304,
        FilePlan::Bytes(ByteRange::Whole) => 200,
        FilePlan::Bytes(ByteRange::Part { .. }) => 206,
        FilePlan::Bytes(ByteRange::Unsatisfiable) => 416,
    }
}

/// The value of the `Content-Range` header, where there is one.
pub open spec fn content_range(plan: FilePlan, len: u64) -> Option<Seq<char>> {
    match plan {
        FilePlan::Bytes(ByteRange::Part { start, end }) => Some(
            "bytes "@ + decimal(start as nat) + "-"@ + decimal((end - 1) as nat) + "/"@ + decimal(
                len as nat,
            ),
        ),
        FilePlan::Bytes(ByteRange::Unsatisfiable) => Some("bytes */"@ + decimal(len as nat)),
        _ => None,
    }
}

/// The headers that tell a file's version and the part of it that is sent.
pub open spec fn file_headers(plan: FilePlan, version: FileVersion) -> Seq<UpdateView> {
    let always = seq![
        UpdateView::Insert("etag"@, tag_of(version)),
        UpdateView::Insert("accept-ranges"@, "bytes"@),
    ];
    match content_range(plan, version.len) {
        Some(value) => always.push(UpdateView::Insert("content-range"@, value)),
        None => always,
    }
}

impl FilePlan {
    /// The status of the response.
    pub fn status(&self) -> (r: u16)
        ensures
            r == status_of(*self),
    {
        match self {
            FilePlan::NotModified => 304,
            FilePlan::Bytes(ByteRange::Whole) => 200,
            FilePlan::Bytes(ByteRange::Part { .. }) => 206,
            FilePlan::Bytes(ByteRange::Unsatisfiable) => 416,
        }
    }

    /// The headers of the response. A part has bytes.
    pub fn headers(&self, version: FileVersion) -> (r: Vec<HeaderUpdate>)
        requires
            *self matches FilePlan::Bytes(ByteRange::Part { start, end }) ==> start < end,
        ensures
            updates(r@) == file_headers(*self, version),
    {
        let mut list: Vec<HeaderUpdate> = Vec::new();
        let tag = entity_tag(version);
        assert(updates(list@) =~= Seq::<UpdateView>::empty());
        push_insert(&mut list, "etag", tag.as_str());
        push_insert(&mut list, "accept-ranges", "bytes");
        match self {
            FilePlan::Bytes(ByteRange::Part { start, end }) => {
                let mut value = copy_text("bytes ");
                let first = decimal_text(*start);
                value.append(first.as_str());
                value.append("-");
                let last = decimal_text(*end - 1);
                value.append(last.as_str());
                value.append("/");
                let len = decimal_text(version.len);
                value.append(len.as_str());
                push_insert(&mut list, "content-range", value.as_str());
            },
            FilePlan::Bytes(ByteRange::Unsatisfiable) => {
                let mut value = copy_text("bytes */");
                let len = decimal_text(version.len);
                value.append(len.as_str());
                push_insert(&mut list, "content-range", value.as_str());
            },
            _ => {},
        }
        assert(updates(list@) =~= file_headers(*self, version));
        list
    }
}

proof fn lemma_position_of(n: u64)
    ensures
        position_of(decimal(n as nat)) == Some(n),
        trim(decimal(n as nat), Padding::WhiteSpace) == decimal(n as nat),
        !decimal(n as nat).contains('-'),
        !decimal(n as nat).contains(','),
        decimal(n as nat).len() > 0,
{
    let text = decimal(n as nat);
    a_numeral_stands_for_its_number(n as nat);
    assert(is_digits(text));
    assert(unsigned_digits(text) == text);
    assert(!is_white_space(text[0]) && !is_white_space(text[text.len() - 1]));
    a_text_without_padding_stays(text, Padding::WhiteSpace);
}

/// A range from one byte to another, both named, asks for just these bytes as far as the file has
/// them.
pub proof fn a_named_range_is_what_it_says(start: u64, last: u64, len: u64)
    requires
        start <= last,
    ensures
        requested_range(
            "bytes="@ + decimal(start as nat) + seq!['-'] + decimal(last as nat),
            len,
        ) == if start >= len {
            ByteRange::Unsatisfiable
        } else if last < len {
            ByteRange::Part { start, end: (last + 1) as u64 }
        } else {
            ByteRange::Part { start, end: len }
        },
{
    lemma_position_of(start);
    lemma_position_of(last);
    lemma_two_positions(decimal(start as nat), decimal(last as nat), start, last, len);
}

proof fn lemma_two_positions(first: Seq<char>, second: Seq<char>, start: u64, last: u64, len: u64)
    requires
        !first.contains('-'),
        first.len() > 0,
        second.len() > 0,
        trim(first, Padding::WhiteSpace) == first,
        trim(second, Padding::WhiteSpace) == second,
        position_of(first) == Some(start),
        position_of(second) == Some(last),
    ensures
        requested_range("bytes="@ + first + seq!['-'] + second, len) == bounded_range(
            start,
            Some(last),
            len,
        ),
{
    let range = first + seq!['-'] + second;
    lemma_range_parts(first, second);
    assert("bytes="@ + first + seq!['-'] + second =~= "bytes="@ + range);
}

/// A range without its last byte goes on to the end of the file, and one without its first asks for
/// as many of the last bytes as it names.
pub proof fn an_open_range_ends_with_the_file(n: u64, len: u64)
    ensures
        requested_range("bytes="@ + decimal(n as nat) + seq!['-'], len) == if n < len {
            ByteRange::Part { start: n, end: len }
        } else {
            ByteRange::Unsatisfiable
        },
        requested_range("bytes="@ + seq!['-'] + decimal(n as nat), len) == if n == 0 || len == 0 {
            ByteRange::Unsatisfiable
        } else if n < len {
            ByteRange::Part { start: (len - n) as u64, end: len }
        } else {
            ByteRange::Part { start: 0, end: len }
        },
{
    let none = Seq::<char>::empty();
    let text = decimal(n as nat);
    lemma_position_of(n);
    a_text_without_padding_stays(none, Padding::WhiteSpace);
    lemma_range_parts(text, none);
    lemma_range_parts(none, text);
    assert("bytes="@ + text + seq!['-'] =~= "bytes="@ + (text + seq!['-'] + none));
    assert("bytes="@ + seq!['-'] + text =~= "bytes="@ + (none + seq!['-'] + text));
}

proof fn lemma_range_parts(first: Seq<char>, last: Seq<char>)
    requires
        !first.contains('-'),
    ensures
        ({
            let range = first + seq!['-'] + last;
            let header = "bytes="@ + range;
            &&& find(range, '-', 0) == first.len()
            &&& range.subrange(0, first.len() as int) == first
            &&& range.subrange(first.len() as int + 1, range.len() as int) == last
            &&& "bytes="@.is_prefix_of(header)
            &&& header.subrange("bytes="@.len() as int, header.len() as int) == range
        }),
{
    let range = first + seq!['-'] + last;
    let header = "bytes="@ + range;
    lemma_find_bounds(range, '-', 0);
    let at = find(range, '-', 0);
    assert(range[first.len() as int] == '-');
    if at < first.len() {
        assert(first[at] == '-');
    }
    assert(range.subrange(0, first.len() as int) =~= first);
    assert(range.subrange(first.len() as int + 1, range.len() as int) =~= last);
    assert(header.subrange(0, "bytes="@.len() as int) =~= "bytes="@);
    assert(header.subrange("bytes="@.len() as int, header.len() as int) =~= range);
}

/// A range in another unit is ignored, and so is one without a dash.
pub proof fn other_units_are_ignored(header: Seq<char>, len: u64)
    requires
        !"bytes="@.is_prefix_of(header) || !header.contains('-'),
    ensures
        requested_range(header, len) == ByteRange::Whole,
{
    if "bytes="@.is_prefix_of(header) {
        let range = header.subrange("bytes="@.len() as int, header.len() as int);
        lemma_find_bounds(range, '-', 0);
        let at = find(range, '-', 0);
        if at < range.len() {
            assert(header["bytes="@.len() + at] == '-');
        }
    }
}

proof fn lemma_tag_edges(version: FileVersion)
    ensures
        tag_of(version).len() >= 2,
        tag_of(version)[0] == '"',
        tag_of(version).last() == '"',
        !tag_of(version).contains(','),
{
    reveal_strlit("\"");
    reveal_strlit("-");
    let tag = tag_of(version);
    let (a, b) = (decimal(version.len as nat), decimal(version.stamp as nat));
    lemma_position_of(version.len);
    lemma_position_of(version.stamp);
    assert(tag[0] == '"' && tag[tag.len() - 1] == '"');
    if tag.contains(',') {
        let i = choose|i: int| 0 <= i < tag.len() && tag[i] == ',';
        if 1 <= i < 1 + a.len() {
            assert(a[i - 1] == ',');
        } else if i > 1 + a.len() && i < tag.len() - 1 {
            assert(b[i - 2 - a.len()] == ',');
        }
    }
}

proof fn lemma_quoted(tag: Seq<char>)
    requires
        tag.len() >= 2,
        tag[0] == '"',
        tag.last() == '"',
    ensures
        trim(tag, Padding::WhiteSpace) == tag,
        strong_part(tag) == tag,
        tag != "*"@,
{
    reveal_strlit("W/");
    reveal_strlit("*");
    a_text_without_padding_stays(tag, Padding::WhiteSpace);
    if "W/"@.is_prefix_of(tag) {
        assert(tag.subrange(0, 2)[0] == tag[0]);
        assert("W/"@[0] == 'W');
    }
}

proof fn lemma_weak(tag: Seq<char>)
    requires
        tag.len() >= 2,
        tag.last() == '"',
        !tag.contains(','),
    ensures
        strong_part("W/"@ + tag) == tag,
        trim("W/"@ + tag, Padding::WhiteSpace) == "W/"@ + tag,
        !("W/"@ + tag).contains(','),
        "W/"@ + tag != "*"@,
{
    reveal_strlit("W/");
    reveal_strlit("*");
    let weak = "W/"@ + tag;
    assert(weak[0] == 'W' && weak[weak.len() - 1] == '"');
    a_text_without_padding_stays(weak, Padding::WhiteSpace);
    assert(weak.subrange(0, 2) =~= "W/"@);
    assert(weak.subrange(2, weak.len() as int) =~= tag);
    if weak.contains(',') {
        let i = choose|i: int| 0 <= i < weak.len() && weak[i] == ',';
        if i >= 2 {
            assert(tag[i - 2] == ',');
        } else {
            assert(weak[i] == "W/"@[i]);
        }
    }
}

proof fn lemma_tag(version: FileVersion)
    ensures
        trim(tag_of(version), Padding::WhiteSpace) == tag_of(version),
        !tag_of(version).contains(','),
        strong_part(tag_of(version)) == tag_of(version),
        strong_part("W/"@ + tag_of(version)) == tag_of(version),
        trim("W/"@ + tag_of(version), Padding::WhiteSpace) == "W/"@ + tag_of(version),
        !("W/"@ + tag_of(version)).contains(','),
        tag_of(version) != "*"@,
        "W/"@ + tag_of(version) != "*"@,
{
    let tag = tag_of(version);
    lemma_tag_edges(version);
    lemma_quoted(tag);
    lemma_weak(tag);
}

/// A client that says which version it has is answered that it is not modified exactly where it is
/// the file's version, whether it marks it as weak or not.
pub proof fn only_the_same_version_is_not_modified(
    version: FileVersion,
    known: FileVersion,
    range: Option<Seq<char>>,
    if_range: Option<Seq<char>>,
)
    ensures
        planned(version, Some(tag_of(known)), range, if_range) is NotModified <==> known == version,
        planned(version, Some("W/"@ + tag_of(known)), range, if_range) is NotModified <==> known
            == version,
        planned(version, Some("*"@), range, if_range) is NotModified,
        !(planned(version, None, range, if_range) is NotModified),
{
    reveal_strlit("*");
    let tag = tag_of(version);
    let (strong, weak) = (tag_of(known), "W/"@ + tag_of(known));
    lemma_tag(version);
    lemma_tag(known);
    lemma_split_without_separator(strong, ',');
    lemma_split_without_separator(weak, ',');
    a_text_without_padding_stays("*"@, Padding::WhiteSpace);
    if known != version {
        tags_tell_versions_apart(known, version);
    }
    assert(split(strong, ',')[0] == strong);
    assert(split(weak, ',')[0] == weak);
}

/// A client may name several versions: one of them being the file's is enough.
pub proof fn one_of_several_versions_is_enough(
    version: FileVersion,
    before: Seq<char>,
    after: Seq<char>,
    range: Option<Seq<char>>,
    if_range: Option<Seq<char>>,
)
    requires
        !before.contains(','),
    ensures
        planned(
            version,
            Some(before + seq![','] + seq![' '] + tag_of(version) + seq![','] + after),
            range,
            if_range,
        ) is NotModified,
{
    let tag = tag_of(version);
    let entry = seq![' '] + tag;
    let condition = before + seq![','] + seq![' '] + tag + seq![','] + after;
    lemma_tag(version);
    assert(!entry.contains(',')) by {
        if entry.contains(',') {
            let i = choose|i: int| 0 <= i < entry.len() && entry[i] == ',';
            assert(tag[i - 1] == ',');
        }
    }
    lemma_split_at_separator(entry, ',', after);
    lemma_split_at_separator(before, ',', entry + seq![','] + after);
    assert(condition =~= before + seq![','] + (entry + seq![','] + after));
    let none = Seq::<char>::empty();
    lemma_trim_padded(seq![' '], tag, none, Padding::WhiteSpace);
    assert(seq![' '] + tag + none =~= entry);
    let all = split(condition, ',');
    assert(all[1] == entry);
    assert(strong_part(trim(all[1], Padding::WhiteSpace)) == tag);
}

/// A range counts where the client asks for it without a condition, or of the file's version; of
/// another version, or of one that is marked as weak, it is sent the whole file.
pub proof fn a_range_counts_for_its_version(
    version: FileVersion,
    known: FileVersion,
    range: Seq<char>,
)
    ensures
        planned(version, None, Some(range), None) == FilePlan::Bytes(
            requested_range(range, version.len),
        ),
        planned(version, None, Some(range), Some(tag_of(known))) == if known == version {
            FilePlan::Bytes(requested_range(range, version.len))
        } else {
            FilePlan::Bytes(ByteRange::Whole)
        },
        planned(version, None, Some(range), Some("W/"@ + tag_of(known))) == FilePlan::Bytes(
            ByteRange::Whole,
        ),
        planned(version, None, None, Some(tag_of(known))) == FilePlan::Bytes(ByteRange::Whole),
        planned(version, None, None, None) == FilePlan::Bytes(ByteRange::Whole),
{
    lemma_tag(known);
    lemma_tag_edges(version);
    reveal_strlit("W/");
    assert(("W/"@ + tag_of(known))[0] == 'W');
    if known != version {
        tags_tell_versions_apart(known, version);
    }
}

/// Every response tells the version, and how much of the file it holds where that is not all of it:
/// first and last byte of a part, and in any case the file's length.
pub proof fn a_response_tells_what_it_holds(plan: FilePlan, version: FileVersion, value: Seq<char>)
    ensures
        file_headers(plan, version).contains(UpdateView::Insert("etag"@, value)) <==> value == tag_of(
            version,
        ),
        file_headers(plan, version).contains(UpdateView::Insert("accept-ranges"@, "bytes"@)),
        status_of(plan) == 200 || status_of(plan) == 304 ==> !file_headers(plan, version).contains(
            UpdateView::Insert("content-range"@, value),
        ),
        plan matches FilePlan::Bytes(ByteRange::Part { start, end }) ==> status_of(plan) == 206
            && file_headers(plan, version).contains(
            UpdateView::Insert(
                "content-range"@,
                "bytes "@ + decimal(start as nat) + seq!['-'] + decimal((end - 1) as nat) + seq!['/']
                    + decimal(version.len as nat),
            ),
        ),
        plan == FilePlan::Bytes(ByteRange::Unsatisfiable) ==> status_of(plan) == 416
            && file_headers(plan, version).contains(
            UpdateView::Insert("content-range"@, "bytes */"@ + decimal(version.len as nat)),
        ),
        plan == FilePlan::Bytes(ByteRange::Whole) <==> status_of(plan) == 200,
        plan is NotModified <==> status_of(plan) == 304,
{
    reveal_strlit("etag");
    reveal_strlit("accept-ranges");
    reveal_strlit("content-range");
    reveal_strlit("-");
    reveal_strlit("/");
    assert("-"@ =~= seq!['-']);
    assert("/"@ =~= seq!['/']);
    assert("accept-ranges"@[0] == 'a' && "content-range"@[0] == 'c');
    let all = file_headers(plan, version);
    assert(all[0] == UpdateView::Insert("etag"@, tag_of(version)));
    assert(all[1] == UpdateView::Insert("accept-ranges"@, "bytes"@));
    if content_range(plan, version.len) is Some {
        assert(all[2] == UpdateView::Insert(
            "content-range"@,
            content_range(plan, version.len)->0,
        ));
    }
}

/// Only a header whose first value is text says something.
pub proof fn only_text_is_read(text: String)
    ensures
        header_text(HeaderField::Text(text)) == Some(text@),
        header_text(HeaderField::Absent) is None,
        header_text(HeaderField::Opaque) is None,
{
}

/// A position is written in digits alone: a text with anything else in it, a sign too, is none, and
/// neither is an empty one.
pub proof fn a_position_is_written_in_digits(text: Seq<char>, at: int, n: u64)
    requires
        0 <= at < text.len(),
        !('0' <= text[at] <= '9'),
    ensures
        position_of(text) is None,
        position_of(Seq::empty()) is None,
        position_of(decimal(n as nat)) == Some(n),
{
    lemma_position_of(n);
    if is_digits(text) {
        assert('0' <= text[at] <= '9');
    }
}

} // verus!
