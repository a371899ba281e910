//! Compressing responses.

use std::io::Write;

use flate2::write::{GzEncoder, ZlibEncoder};
use flate2::Compression;

use vstd::prelude::*;
#[allow(unused_imports)]
use vstd::string::StringExecFns;

use crate::middleware::headers::{push_insert, push_remove, HeaderField, HeaderUpdate};
#[allow(unused_imports)]
use crate::middleware::headers::{updates, UpdateView};
use crate::routing::router::header_value_accepts;
#[allow(unused_imports)]
use crate::routing::router::is_header_text;
#[allow(unused_imports)]
use crate::text::{
    a_text_without_padding_stays, decimal, find, is_blank_text, is_padding, lemma_split_ahead,
    lemma_split_at_separator, lemma_split_before_last, lemma_split_behind,
    lemma_split_without_separator, lemma_trim_padded, lemma_trim_parts, lower, lowercase,
    optional_bytes, optional_text, split, texts, trim, trimming_leaves_no_padding,
};
use crate::text::{
    chars_of, copy_text, decimal_text, find_char, lowercase_text, same, same_ignoring_case,
    slice_text, split_text, trim_text, Padding,
};

verus! {

/// The compression middleware encountered an unexpected error.
#[derive(Debug, Clone, Copy)]
pub struct CompressionError;

impl CompressionError {
    /// The error's text.
    pub fn message(&self) -> (r: String)
        ensures
            r@ == "Compression middleware failed"@,
    {
        copy_text("Compression middleware failed")
    }

    /// The status the error is answered with.
    pub fn status(&self) -> (r: u16)
        ensures
            r == 500,
    {
        500
    }
}

/// Compression algorithms supported by [`CompressionMiddleware`].
#[derive(Debug, Clone, Copy, PartialEq, Eq, Structural)]
pub enum CompressionEncoding {
    /// Gzip encoding.
    Gzip,
    /// Deflate (zlib) encoding.
    Deflate,
}

/// Compression strength used by [`CompressionMiddleware`].
#[derive(Debug, Clone, Copy, PartialEq, Eq, Structural)]
pub enum CompressionLevel {
    /// Fast compression optimized for latency.
    Fast,
    /// Best compression ratio with a possible CPU trade-off.
    Best,
    /// Custom compression level (0-9).
    Precise(u32),
    /// Uses the zlib default.
    Default,
}

/// The number of a compression level, from 0 to 9.
pub open spec fn level_number(level: CompressionLevel) -> u32 {
    match level {
        CompressionLevel::Fast => 1,
        CompressionLevel::Best => 9,
        CompressionLevel::Default => 6,
        CompressionLevel::Precise(n) => if n < 9 {
            n
        } else {
            9
        },
    }
}

impl CompressionLevel {
    /// The number of this level; custom levels above 9 count as 9.
    pub fn number(self) -> (r: u32)
        ensures
            r == level_number(self),
            r <= 9,
    {
        match self {
            CompressionLevel::Fast => 1,
            CompressionLevel::Best => 9,
            CompressionLevel::Default => 6,
            CompressionLevel::Precise(n) => if n < 9 {
                n
            } else {
                9
            },
        }
    }
}

/// What `flate2::write::GzEncoder` makes of a body at a compression level.
pub uninterp spec fn gzipped(body: Seq<u8>, level: u32) -> Option<Seq<u8>>;

/// What `flate2::write::ZlibEncoder` makes of a body at a compression level.
pub uninterp spec fn zlibbed(body: Seq<u8>, level: u32) -> Option<Seq<u8>>;

/// Writes the whole body through `flate2::write::GzEncoder` and finishes the stream. The result is
/// named, not described: the encoder writes no time stamp, so it is a function of the body and the
/// level. `None` stands for an error of the encoder.
#[verifier::external_body]
fn gzip(body: &Vec<u8>, level: u32) -> (r: Option<Vec<u8>>)
    requires
        level <= 9,
    ensures
        optional_bytes(r) == gzipped(body@, level),
{
    let mut encoder = GzEncoder::new(Vec::new(), Compression::new(level));
    match encoder.write_all(body.as_slice()) {
        Ok(_) => encoder.finish().ok(),
        Err(_) => None,
    }
}

/// Writes the whole body through `flate2::write::ZlibEncoder` and finishes the stream. The result
/// is named, not described. `None` stands for an error of the encoder.
#[verifier::external_body]
fn zlib(body: &Vec<u8>, level: u32) -> (r: Option<Vec<u8>>)
    requires
        level <= 9,
    ensures
        optional_bytes(r) == zlibbed(body@, level),
{
    let mut encoder = ZlibEncoder::new(Vec::new(), Compression::new(level));
    match encoder.write_all(body.as_slice()) {
        Ok(_) => encoder.finish().ok(),
        Err(_) => None,
    }
}

/// A body compressed with an encoding.
pub open spec fn compressed(
    encoding: CompressionEncoding,
    body: Seq<u8>,
    level: CompressionLevel,
) -> Option<Seq<u8>> {
    match encoding {
        CompressionEncoding::Gzip => gzipped(body, level_number(level)),
        CompressionEncoding::Deflate => zlibbed(body, level_number(level)),
    }
}

/// The name of an encoding in a header.
pub open spec fn encoding_name(encoding: CompressionEncoding) -> Seq<char> {
    match encoding {
        CompressionEncoding::Gzip => "gzip"@,
        CompressionEncoding::Deflate => "deflate"@,
    }
}

impl CompressionEncoding {
    /// The name of this encoding in a header.
    pub fn header_value(self) -> (r: String)
        ensures
            r@ == encoding_name(self),
    {
        match self {
            CompressionEncoding::Gzip => copy_text("gzip"),
            CompressionEncoding::Deflate => copy_text("deflate"),
        }
    }

    /// The body compressed with this encoding.
    pub fn compress(self, body: &Vec<u8>, level: CompressionLevel) -> (r: Option<Vec<u8>>)
        ensures
            optional_bytes(r) == compressed(self, body@, level),
    {
        match self {
            CompressionEncoding::Gzip => gzip(body, level.number()),
            CompressionEncoding::Deflate => zlib(body, level.number()),
        }
    }
}

/// What a client names in `Accept-Encoding`.
#[derive(Debug, Clone, Copy, PartialEq, Eq, Structural)]
pub enum ParsedEncoding {
    /// An encoding the library can produce.
    Specific(CompressionEncoding),
    /// Any encoding.
    Wildcard,
    /// No encoding.
    Identity,
    /// An encoding the library cannot produce.
    Unsupported,
}

/// The encoding a token names.
pub open spec fn token_encoding(token: Seq<char>) -> ParsedEncoding {
    let name = lowercase(trim(token, Padding::WhiteSpace));
    if name == "gzip"@ || name == "x-gzip"@ {
        ParsedEncoding::Specific(CompressionEncoding::Gzip)
    } else if name == "deflate"@ {
        ParsedEncoding::Specific(CompressionEncoding::Deflate)
    } else if name == "*"@ {
        ParsedEncoding::Wildcard
    } else if name == "identity"@ {
        ParsedEncoding::Identity
    } else {
        ParsedEncoding::Unsupported
    }
}

impl ParsedEncoding {
    /// The encoding a token names, ignoring case and surrounding white space.
    pub fn from_token(token: &str) -> (r: Self)
        ensures
            r == token_encoding(token@),
    {
        let trimmed = trim_text(token, Padding::WhiteSpace);
        let name = lowercase_text(trimmed.as_str());
        if same(name.as_str(), "gzip") || same(name.as_str(), "x-gzip") {
            ParsedEncoding::Specific(CompressionEncoding::Gzip)
        } else if same(name.as_str(), "deflate") {
            ParsedEncoding::Specific(CompressionEncoding::Deflate)
        } else if same(name.as_str(), "*") {
            ParsedEncoding::Wildcard
        } else if same(name.as_str(), "identity") {
            ParsedEncoding::Identity
        } else {
            ParsedEncoding::Unsupported
        }
    }
}

/// One element of an `Accept-Encoding` header, with its quality still as text.
#[derive(Debug)]
pub struct Preference {
    /// The encoding.
    pub encoding: ParsedEncoding,
    /// The text of the quality, if one is given.
    pub quality: Option<String>,
}

/// An element of an `Accept-Encoding` header with its text as a sequence of characters.
pub struct PreferenceView {
    /// The encoding.
    pub encoding: ParsedEncoding,
    /// The text of the quality, if one is given.
    pub quality: Option<Seq<char>>,
}

impl View for Preference {
    type V = PreferenceView;

    open spec fn view(&self) -> PreferenceView {
        PreferenceView { encoding: self.encoding, quality: optional_text(self.quality) }
    }
}

/// The value of a `q` parameter, if this section is one.
pub open spec fn quality_section(section: Seq<char>) -> Option<Seq<char>> {
    let parameter = trim(section, Padding::WhiteSpace);
    let at = find(parameter, '=', 0);
    if at < parameter.len() && lowercase(
        trim(parameter.subrange(0, at), Padding::WhiteSpace),
    ) == lowercase("q"@) {
        Some(
            trim(parameter.subrange(at + 1, parameter.len() as int), Padding::WhiteSpace),
        )
    } else {
        None
    }
}

/// The value of the first `q` parameter among the sections at or after `from`.
pub open spec fn quality_text(sections: Seq<Seq<char>>, from: int) -> Option<Seq<char>>
    decreases sections.len() - from,
{
    if from < 0 || from >= sections.len() {
        None
    } else if quality_section(sections[from]) is Some {
        quality_section(sections[from])
    } else {
        quality_text(sections, from + 1)
    }
}

/// What an element of an `Accept-Encoding` header says.
pub open spec fn preference(part: Seq<char>) -> PreferenceView {
    let sections = split(part, ';');
    PreferenceView {
        encoding: token_encoding(trim(sections[0], Padding::WhiteSpace)),
        quality: quality_text(sections, 1),
    }
}

/// What the first `to` elements of an `Accept-Encoding` header say; blank ones say nothing.
pub open spec fn preferences_in(parts: Seq<Seq<char>>, to: int) -> Seq<PreferenceView>
    decreases to,
{
    if to <= 0 || to > parts.len() {
        Seq::empty()
    } else {
        let part = trim(parts[to - 1], Padding::WhiteSpace);
        let before = preferences_in(parts, to - 1);
        if part.len() == 0 {
            before
        } else {
            before.push(preference(part))
        }
    }
}

/// What the first `to` values of the `Accept-Encoding` header say, in order.
pub open spec fn all_preferences(values: Seq<Seq<char>>, to: int) -> Seq<PreferenceView>
    decreases to,
{
    if to <= 0 || to > values.len() {
        Seq::empty()
    } else {
        let parts = split(values[to - 1], ',');
        all_preferences(values, to - 1) + preferences_in(parts, parts.len() as int)
    }
}

/// The elements of a list of preferences.
pub open spec fn preference_views(list: Seq<Preference>) -> Seq<PreferenceView> {
    list.map_values(|p: Preference| p@)
}

fn parse_quality_section(section: &str) -> (r: Option<String>)
    ensures
        optional_text(r) == quality_section(section@),
{
    let parameter = trim_text(section, Padding::WhiteSpace);
    let chars = chars_of(parameter.as_str());
    let at = find_char(&chars, '=', 0);
    if at < chars.len() {
        let key = slice_text(&chars, 0, at);
        let name = trim_text(key.as_str(), Padding::WhiteSpace);
        if same_ignoring_case(name.as_str(), "q") {
            let raw = slice_text(&chars, at + 1, chars.len());
            return Some(trim_text(raw.as_str(), Padding::WhiteSpace));
        }
    }
    None
}

/// Read one element of an `Accept-Encoding` header.
pub fn parse_part(part: &str) -> (r: Preference)
    ensures
        r@ == preference(part@),
{
    let sections = split_text(part, ';');
    let ghost all = texts(sections@);
    let token = trim_text(sections[0].as_str(), Padding::WhiteSpace);
    let encoding = ParsedEncoding::from_token(token.as_str());
    let mut i: usize = 1;
    while i < sections.len()
        invariant
            1 <= i <= sections.len(),
            all == texts(sections@),
            all == split(part@, ';'),
            encoding == token_encoding(trim(all[0], Padding::WhiteSpace)),
            quality_text(all, 1) == quality_text(all, i as int),
        decreases sections.len() - i,
    {
        assert(all[i as int] == sections@[i as int]@);
        let quality = parse_quality_section(sections[i].as_str());
        if quality.is_some() {
            return Preference { encoding, quality };
        }
        i = i + 1;
    }
    Preference { encoding, quality: None }
}

/// Read one value of the `Accept-Encoding` header, after the preferences read so far.
fn parse_header_value(value: &str, list: &mut Vec<Preference>)
    ensures
        preference_views(final(list)@) == preference_views(old(list)@) + preferences_in(
            split(value@, ','),
            split(value@, ',').len() as int,
        ),
{
    let parts = split_text(value, ',');
    let ghost all = texts(parts@);
    let ghost before = preference_views(list@);
    let mut i: usize = 0;
    assert(before + preferences_in(all, 0) =~= before);
    while i < parts.len()
        invariant
            i <= parts.len(),
            all == texts(parts@),
            preference_views(list@) == before + preferences_in(all, i as int),
        decreases parts.len() - i,
    {
        assert(all[i as int] == parts@[i as int]@);
        let ghost now = preference_views(list@);
        let part = trim_text(parts[i].as_str(), Padding::WhiteSpace);
        if part.as_str().unicode_len() > 0 {
            let parsed = parse_part(part.as_str());
            list.push(parsed);
            assert(preference_views(list@) =~= now.push(parsed@));
            assert(before + preferences_in(all, i + 1) =~= now.push(parsed@));
        }
        i = i + 1;
    }
}

/// Read the values of the `Accept-Encoding` header, in order.
pub fn accepted_encodings(values: &Vec<String>) -> (r: Vec<Preference>)
    ensures
        preference_views(r@) == all_preferences(texts(values@), values.len() as int),
{
    let ghost all = texts(values@);
    let mut list: Vec<Preference> = Vec::new();
    let mut i: usize = 0;
    assert(preference_views(list@) =~= Seq::empty());
    while i < values.len()
        invariant
            i <= values.len(),
            all == texts(values@),
            preference_views(list@) == all_preferences(all, i as int),
        decreases values.len() - i,
    {
        assert(all[i as int] == values@[i as int]@);
        parse_header_value(values[i].as_str(), &mut list);
        i = i + 1;
    }
    list
}

/// The rank of the quality 1: the bits of that number in single precision.
///
/// Ranks order as the qualities do, because the bits of numbers from 0 to 1 order as the numbers
/// do.
pub const FULL_QUALITY: u32 = 1065353216;

/// An element of an `Accept-Encoding` header with the rank of its quality.
///
/// Rank 0 stands for quality 0, and for a quality that is not a number from 0 to 1.
#[derive(Debug, Clone, Copy, PartialEq, Eq)]
pub struct Offer {
    /// The encoding.
    pub encoding: ParsedEncoding,
    /// The rank of the quality.
    pub rank: u32,
}

/// Whether an offer lets the `k`th supported encoding be used. An encoding that is supported twice
/// counts where it stands first.
pub open spec fn offers(
    offer: Offer,
    supported: Seq<CompressionEncoding>,
    k: int,
) -> bool {
    &&& offer.rank > 0
    &&& 0 <= k < supported.len()
    &&& match offer.encoding {
        ParsedEncoding::Specific(encoding) => supported[k] == encoding && forall|j: int|
            0 <= j < k ==> supported[j] != encoding,
        ParsedEncoding::Wildcard => true,
        _ => false,
    }
}

/// Whether the `i`th offer lets the `k`th supported encoding be used.
pub open spec fn is_candidate(
    list: Seq<Offer>,
    supported: Seq<CompressionEncoding>,
    i: int,
    k: int,
) -> bool {
    0 <= i < list.len() && offers(list[i], supported, k)
}

/// Whether the candidate `(i, k)` goes before the candidate `(j, l)`: a higher quality first, then
/// what the client names first, then what the server prefers.
pub open spec fn goes_before(list: Seq<Offer>, i: int, k: int, j: int, l: int) -> bool {
    ||| list[i].rank > list[j].rank
    ||| list[i].rank == list[j].rank && (i < j || (i == j && k < l))
}

/// Whether the candidate `(i, k)` goes before all others.
pub open spec fn is_first(
    list: Seq<Offer>,
    supported: Seq<CompressionEncoding>,
    i: int,
    k: int,
) -> bool {
    &&& is_candidate(list, supported, i, k)
    &&& forall|j: int, l: int|
        #[trigger] is_candidate(list, supported, j, l) ==> (j == i && l == k) || goes_before(
            list,
            i,
            k,
            j,
            l,
        )
}

/// Whether `r` is the encoding to answer with.
pub open spec fn is_negotiated(
    list: Seq<Offer>,
    supported: Seq<CompressionEncoding>,
    r: Option<CompressionEncoding>,
) -> bool {
    match r {
        Some(encoding) => exists|i: int, k: int| #[trigger]
            is_first(list, supported, i, k) && supported[k] == encoding,
        None => forall|i: int, k: int| !is_candidate(list, supported, i, k),
    }
}

/// Whether a response may be compressed at all: not the answer to `HEAD`, not one without a body,
/// and not one that is already encoded.
pub open spec fn is_eligible(
    method: Seq<char>,
    status: u16,
    has_content_encoding: bool,
    body_is_empty: Option<bool>,
) -> bool {
    method != "HEAD"@ && status >= 200 && status != 204 && status != 205 && status != 304
        && !has_content_encoding && body_is_empty != Some(true)
}

/// Whether a quality as it is written may be given a rank.
pub open spec fn may_rank<F: Fn(&Option<String>) -> u32>(
    rank: F,
    quality: Option<Seq<char>>,
    given: u32,
) -> bool {
    exists|written: Option<String>| optional_text(written) == quality && #[trigger] call_ensures(
        rank,
        (&written,),
        given,
    )
}

/// Whether an offer is a preference with its rank.
pub open spec fn is_ranked<F: Fn(&Option<String>) -> u32>(
    rank: F,
    preference: PreferenceView,
    offer: Offer,
) -> bool {
    offer.encoding == preference.encoding && may_rank(rank, preference.quality, offer.rank)
}

/// Whether offers are preferences with their ranks.
pub open spec fn are_ranked<F: Fn(&Option<String>) -> u32>(
    rank: F,
    preferences: Seq<PreferenceView>,
    list: Seq<Offer>,
) -> bool {
    &&& list.len() == preferences.len()
    &&& forall|k: int|
        0 <= k < list.len() ==> is_ranked(rank, preferences[k], #[trigger] list[k])
}

/// Whether a candidate was met when the offers before `i`, and of the `i`th offer the encodings
/// before `k`, were looked at.
spec fn met(i: int, k: int, j: int, l: int) -> bool {
    j < i || (j == i && l < k)
}

/// Whether `best` goes before all candidates met so far.
spec fn leads(
    list: Seq<Offer>,
    supported: Seq<CompressionEncoding>,
    best: Option<(usize, usize)>,
    i: int,
    k: int,
) -> bool {
    match best {
        Some((a, b)) => {
            &&& is_candidate(list, supported, a as int, b as int)
            &&& met(i, k, a as int, b as int)
            &&& forall|j: int, l: int|
                #[trigger] is_candidate(list, supported, j, l) && met(i, k, j, l) ==> (j == a && l
                    == b) || goes_before(list, a as int, b as int, j, l)
        },
        None => forall|j: int, l: int|
            #[trigger] is_candidate(list, supported, j, l) ==> !met(i, k, j, l),
    }
}

fn stands_earlier(supported: &Vec<CompressionEncoding>, k: usize) -> (r: bool)
    requires
        k < supported.len(),
    ensures
        r == !(forall|j: int| 0 <= j < k ==> supported@[j] != supported@[k as int]),
{
    let mut j: usize = 0;
    while j < k
        invariant
            j <= k < supported.len(),
            forall|i: int| 0 <= i < j ==> supported@[i] != supported@[k as int],
        decreases k - j,
    {
        if supported[j] == supported[k] {
            return true;
        }
        j = j + 1;
    }
    false
}

fn offer_covers(offer: &Offer, supported: &Vec<CompressionEncoding>, k: usize) -> (r: bool)
    requires
        k < supported.len(),
    ensures
        r == offers(*offer, supported@, k as int),
{
    if offer.rank == 0 {
        return false;
    }
    match offer.encoding {
        ParsedEncoding::Specific(encoding) => {
            supported[k] == encoding && !stands_earlier(supported, k)
        },
        ParsedEncoding::Wildcard => true,
        ParsedEncoding::Identity => false,
        ParsedEncoding::Unsupported => false,
    }
}

fn consider_offer(
    list: &Vec<Offer>,
    supported: &Vec<CompressionEncoding>,
    best: Option<(usize, usize)>,
    i: usize,
) -> (r: Option<(usize, usize)>)
    requires
        i < list.len(),
        leads(list@, supported@, best, i as int, 0),
    ensures
        leads(list@, supported@, r, i + 1, 0),
{
    let mut best = best;
    let mut k: usize = 0;
    while k < supported.len()
        invariant
            i < list.len(),
            k <= supported.len(),
            leads(list@, supported@, best, i as int, k as int),
        decreases supported.len() - k,
    {
        if offer_covers(&list[i], supported, k) {
            assert(is_candidate(list@, supported@, i as int, k as int));
            match best {
                Some((a, b)) => {
                    if list[i].rank > list[a].rank {
                        best = Some((i, k));
                    }
                },
                None => {
                    best = Some((i, k));
                },
            }
        }
        k = k + 1;
    }
    best
}

/// Whether a segment names `Accept-Encoding`.
pub open spec fn names_accept_encoding(segment: Seq<char>) -> bool {
    lowercase(trim(segment, Padding::WhiteSpace)) == lowercase("accept-encoding"@)
}

/// What the first value of the `Vary` header becomes; `None` where it stays as it is.
pub open spec fn vary_update(vary: HeaderField) -> Option<Seq<char>> {
    match vary {
        HeaderField::Absent => Some("Accept-Encoding"@),
        HeaderField::Opaque => Some("Accept-Encoding"@),
        HeaderField::Text(existing) => {
            let trimmed = trim(existing@, Padding::WhiteSpace);
            let combined = if trimmed.len() == 0 {
                "Accept-Encoding"@
            } else {
                trimmed + ", "@ + "Accept-Encoding"@
            };
            if lists_accept_encoding(existing@) {
                None
            } else if is_header_text(combined) {
                Some(combined)
            } else {
                None
            }
        },
    }
}

/// Make a response say that it varies by `Accept-Encoding`, keeping what it already varies by.
pub fn ensure_vary_accept_encoding(vary: &HeaderField) -> (r: Option<String>)
    ensures
        optional_text(r) == vary_update(*vary),
{
    match vary {
        HeaderField::Absent => Some(copy_text("Accept-Encoding")),
        HeaderField::Opaque => Some(copy_text("Accept-Encoding")),
        HeaderField::Text(existing) => {
            let segments = split_text(existing.as_str(), ',');
            let ghost all = texts(segments@);
            let mut i: usize = 0;
            while i < segments.len()
                invariant
                    i <= segments.len(),
                    all == texts(segments@),
                    all == split(existing@, ','),
                    vary == HeaderField::Text(*existing),
                    forall|j: int| 0 <= j < i ==> !names_accept_encoding(#[trigger] all[j]),
                decreases segments.len() - i,
            {
                assert(all[i as int] == segments@[i as int]@);
                let segment = trim_text(segments[i].as_str(), Padding::WhiteSpace);
                if same_ignoring_case(segment.as_str(), "accept-encoding") {
                    assert(names_accept_encoding(split(existing@, ',')[i as int]));
                    return None;
                }
                i = i + 1;
            }
            let trimmed = trim_text(existing.as_str(), Padding::WhiteSpace);
            let combined = if trimmed.as_str().unicode_len() == 0 {
                copy_text("Accept-Encoding")
            } else {
                let mut text = trimmed;
                text.append(", ");
                text.append("Accept-Encoding");
                text
            };
            if header_value_accepts(combined.as_str()) {
                Some(combined)
            } else {
                None
            }
        },
    }
}

/// Whether a list names `Accept-Encoding`, in any letter case.
pub open spec fn lists_accept_encoding(list: Seq<char>) -> bool {
    exists|i: int|
        0 <= i < split(list, ',').len() && names_accept_encoding(#[trigger] split(list, ',')[i])
}

proof fn lemma_blank_has_no_comma(s: Seq<char>)
    requires
        is_blank_text(s, Padding::WhiteSpace),
    ensures
        !s.contains(','),
{
    if s.contains(',') {
        let i = choose|i: int| 0 <= i < s.len() && s[i] == ',';
        assert(is_padding(Padding::WhiteSpace, s[i]));
    }
}

/// Trimming a list changes neither how many entries it has nor which of them name the header.
proof fn lemma_trimmed_list(list: Seq<char>)
    ensures
        ({
            let before = split(list, ',');
            let after = split(trim(list, Padding::WhiteSpace), ',');
            &&& before.len() == after.len()
            &&& forall|i: int|
                0 <= i < after.len() ==> names_accept_encoding(#[trigger] after[i])
                    == names_accept_encoding(before[i])
        }),
{
    let bare = trim(list, Padding::WhiteSpace);
    let (lead, tail) = lemma_trim_parts(list, Padding::WhiteSpace);
    lemma_blank_has_no_comma(lead);
    lemma_blank_has_no_comma(tail);
    lemma_split_ahead(bare, tail, ',');
    lemma_split_behind(lead, bare + tail, ',');
    assert(lead + (bare + tail) =~= list);
    let before = split(list, ',');
    let middle = split(bare + tail, ',');
    let after = split(bare, ',');
    let none = Seq::<char>::empty();
    assert forall|i: int| 0 <= i < after.len() implies names_accept_encoding(#[trigger] after[i])
        == names_accept_encoding(before[i]) by {
        let s = after[i];
        let more = if i == after.len() - 1 {
            tail
        } else {
            none
        };
        let front = if i == 0 {
            lead
        } else {
            none
        };
        assert(middle[i] =~= s + more);
        assert(before[i] =~= front + s + more);
        lemma_trim_padded(front, s, more, Padding::WhiteSpace);
    }
}

proof fn lemma_the_name_names_itself()
    ensures
        names_accept_encoding("Accept-Encoding"@),
        names_accept_encoding(seq![' '] + "Accept-Encoding"@),
        !"Accept-Encoding"@.contains(','),
{
    reveal_strlit("Accept-Encoding");
    reveal_strlit("accept-encoding");
    let name = "Accept-Encoding"@;
    let none = Seq::<char>::empty();
    assert(lowercase(name) =~= lowercase("accept-encoding"@));
    let (lead, tail) = lemma_trim_parts(name, Padding::WhiteSpace);
    let bare = trim(name, Padding::WhiteSpace);
    assert(lead.len() == 0) by {
        if lead.len() > 0 {
            assert(is_padding(Padding::WhiteSpace, lead[0]));
            assert(lead[0] == name[0]);
        }
    }
    assert(tail.len() == 0) by {
        if tail.len() > 0 {
            assert(is_padding(Padding::WhiteSpace, tail[tail.len() - 1]));
            assert(tail[tail.len() - 1] == name[name.len() - 1]);
        }
    }
    assert(bare =~= name);
    lemma_trim_padded(seq![' '], name, none, Padding::WhiteSpace);
    assert(seq![' '] + name + none =~= seq![' '] + name);
}

/// A `Vary` header that was updated names `Accept-Encoding` exactly once, behind everything it named
/// before, and a second update leaves it as it is.
pub proof fn a_vary_header_is_updated_once(vary: HeaderField, updated: String)
    requires
        vary_update(vary) == Some(updated@),
    ensures
        vary_update(HeaderField::Text(updated)) is None,
        names_accept_encoding(split(updated@, ',').last()),
        forall|i: int|
            0 <= i < split(updated@, ',').len() - 1 ==> !names_accept_encoding(
                #[trigger] split(updated@, ',')[i],
            ),
        vary matches HeaderField::Text(existing) ==> trim(existing@, Padding::WhiteSpace).len() > 0
            ==> split(updated@, ',') == split(trim(existing@, Padding::WhiteSpace), ',').push(
            seq![' '] + "Accept-Encoding"@,
        ),
{
    let name = "Accept-Encoding"@;
    lemma_the_name_names_itself();
    if vary is Text && trim(vary->Text_0@, Padding::WhiteSpace).len() > 0 {
        let existing = vary->Text_0@;
        let bare = trim(existing, Padding::WhiteSpace);
        reveal_strlit(", ");
        assert(", "@ =~= seq![','] + seq![' ']);
        assert(updated@ =~= bare + seq![','] + (seq![' '] + name));
        assert(!(seq![' '] + name).contains(',')) by {
            if (seq![' '] + name).contains(',') {
                let i = choose|i: int|
                    0 <= i < (seq![' '] + name).len() && (seq![' '] + name)[i] == ',';
                assert(name[i - 1] == ',');
            }
        }
        lemma_split_before_last(bare, ',', seq![' '] + name);
        lemma_trimmed_list(existing);
        let list = split(updated@, ',');
        assert forall|i: int| 0 <= i < list.len() - 1 implies !names_accept_encoding(
            #[trigger] list[i],
        ) by {
            assert(list[i] == split(bare, ',')[i]);
            assert(!names_accept_encoding(split(existing, ',')[i]));
        }
    } else {
        assert(updated@ == name);
        lemma_split_without_separator(name, ',');
    }
    let list = split(updated@, ',');
    assert(list[list.len() - 1] == list.last());
    assert(lists_accept_encoding(updated@));
}

/// A `Vary` header that names `Accept-Encoding` already is left as it is.
pub proof fn a_vary_header_that_names_it_stays(existing: String)
    requires
        lists_accept_encoding(existing@),
    ensures
        vary_update(HeaderField::Text(existing)) is None,
{
}

/// A response after the middleware looked at its whole body.
#[derive(Debug)]
pub struct Rewritten {
    /// The body.
    pub body: Vec<u8>,
    /// The changes to the headers other than `Vary`.
    pub updates: Vec<HeaderUpdate>,
    /// What the first value of `Vary` becomes, if it changes.
    pub vary: Option<String>,
}

/// A response with its parts as plain values.
#[verifier::ext_equal]
pub struct RewrittenView {
    /// The body.
    pub body: Seq<u8>,
    /// The changes to the headers other than `Vary`.
    pub updates: Seq<UpdateView>,
    /// What the first value of `Vary` becomes, if it changes.
    pub vary: Option<Seq<char>>,
}

impl View for Rewritten {
    type V = RewrittenView;

    open spec fn view(&self) -> RewrittenView {
        RewrittenView {
            body: self.body@,
            updates: updates(self.updates@),
            vary: optional_text(self.vary),
        }
    }
}

/// The header changes that state a body's length.
pub open spec fn length_updates(length: nat) -> Seq<UpdateView> {
    seq![
        UpdateView::Insert("content-length"@, decimal(length)),
        UpdateView::Remove("transfer-encoding"@),
    ]
}

/// A response whose body goes out as it is.
pub open spec fn unchanged_body(original: Seq<u8>) -> RewrittenView {
    RewrittenView { body: original, updates: length_updates(original.len()), vary: None }
}

/// A response, given what compressing its body gave: smaller bodies are not compressed, and a
/// compressed body that is not smaller is not used.
pub open spec fn rewritten(
    original: Seq<u8>,
    minimum_size: usize,
    compressed: Option<Seq<u8>>,
    encoding: CompressionEncoding,
    vary: HeaderField,
) -> Option<RewrittenView> {
    if original.len() < minimum_size {
        Some(unchanged_body(original))
    } else {
        match compressed {
            None => None,
            Some(body) => if body.len() >= original.len() {
                Some(unchanged_body(original))
            } else {
                Some(
                    RewrittenView {
                        body,
                        updates: length_updates(body.len()).push(
                            UpdateView::Insert("content-encoding"@, encoding_name(encoding)),
                        ),
                        vary: vary_update(vary),
                    },
                )
            },
        }
    }
}

/// The plain value of the middleware's answer.
pub open spec fn rewritten_view(r: Result<Rewritten, CompressionError>) -> Option<RewrittenView> {
    match r {
        Ok(response) => Some(response@),
        Err(_) => None,
    }
}

fn set_content_length(length: usize) -> (r: Vec<HeaderUpdate>)
    ensures
        updates(r@) == length_updates(length as nat),
{
    let mut list: Vec<HeaderUpdate> = Vec::new();
    let text = decimal_text(length as u64);
    push_insert(&mut list, "content-length", text.as_str());
    push_remove(&mut list, "transfer-encoding");
    assert(updates(list@) =~= length_updates(length as nat));
    list
}

fn keep_body(original: Vec<u8>) -> (r: Rewritten)
    ensures
        r@ == unchanged_body(original@),
{
    let list = set_content_length(original.len());
    Rewritten { body: original, updates: list, vary: None }
}

/// Middleware that conditionally compresses outgoing responses.
#[derive(Debug)]
pub struct CompressionMiddleware {
    minimum_size: usize,
    encodings: Vec<CompressionEncoding>,
    level: CompressionLevel,
}

/// The encodings supported unless others are configured.
pub open spec fn default_encodings() -> Seq<CompressionEncoding> {
    seq![CompressionEncoding::Gzip, CompressionEncoding::Deflate]
}

fn make_default_encodings() -> (r: Vec<CompressionEncoding>)
    ensures
        r@ == default_encodings(),
{
    let mut list: Vec<CompressionEncoding> = Vec::new();
    list.push(CompressionEncoding::Gzip);
    list.push(CompressionEncoding::Deflate);
    assert(list@ =~= default_encodings());
    list
}

impl CompressionMiddleware {
    /// The minimum response size that qualifies for compression.
    pub closed spec fn threshold(&self) -> usize {
        self.minimum_size
    }

    /// The supported encodings, in the order of preference.
    pub closed spec fn supported(&self) -> Seq<CompressionEncoding> {
        self.encodings@
    }

    /// The compression level.
    pub closed spec fn strength(&self) -> CompressionLevel {
        self.level
    }

    /// A middleware that negotiates `gzip` or `deflate` encoding with a 512 byte default threshold.
    pub fn new() -> (r: Self)
        ensures
            r.threshold() == 512,
            r.supported() == default_encodings(),
            r.strength() == CompressionLevel::Default,
    {
        CompressionMiddleware {
            minimum_size: 512,
            encodings: make_default_encodings(),
            level: CompressionLevel::Default,
        }
    }

    /// Updates the minimum response size that qualifies for compression.
    pub fn minimum_size(self, minimum_size: usize) -> (r: Self)
        ensures
            r.threshold() == minimum_size,
            r.supported() == self.supported(),
            r.strength() == self.strength(),
    {
        let mut middleware = self;
        middleware.minimum_size = minimum_size;
        middleware
    }

    /// Replaces the list of supported encodings. Defaults are restored if the list is empty.
    pub fn encodings(self, encodings: Vec<CompressionEncoding>) -> (r: Self)
        ensures
            r.threshold() == self.threshold(),
            r.supported() == if encodings@.len() == 0 {
                default_encodings()
            } else {
                encodings@
            },
            r.strength() == self.strength(),
    {
        let mut middleware = self;
        if encodings.len() == 0 {
            middleware.encodings = make_default_encodings();
        } else {
            middleware.encodings = encodings;
        }
        middleware
    }

    /// Sets the compression level that will be used by the selected encoder.
    pub fn level(self, level: CompressionLevel) -> (r: Self)
        ensures
            r.threshold() == self.threshold(),
            r.supported() == self.supported(),
            r.strength() == level,
    {
        let mut middleware = self;
        middleware.level = level;
        middleware
    }

    /// The encoding to answer with, given what the client offers.
    pub fn negotiate_encoding(&self, list: &Vec<Offer>) -> (r: Option<CompressionEncoding>)
        ensures
            is_negotiated(list@, self.supported(), r),
    {
        let mut best: Option<(usize, usize)> = None;
        let mut i: usize = 0;
        while i < list.len()
            invariant
                i <= list.len(),
                leads(list@, self.encodings@, best, i as int, 0),
            decreases list.len() - i,
        {
            best = consider_offer(list, &self.encodings, best, i);
            i = i + 1;
        }
        match best {
            Some((a, b)) => {
                assert(is_first(list@, self.encodings@, a as int, b as int));
                Some(self.encodings[b])
            },
            None => {
                assert forall|j: int, l: int| !is_candidate(list@, self.encodings@, j, l) by {
                    if is_candidate(list@, self.encodings@, j, l) {
                        assert(met(i as int, 0, j, l));
                    }
                }
                None
            },
        }
    }

    /// Whether a response may be compressed at all: not the answer to `HEAD`, not one without a
    /// body, and not one that is already encoded.
    pub fn is_response_eligible(
        &self,
        method: &str,
        status: u16,
        has_content_encoding: bool,
        body_is_empty: Option<bool>,
    ) -> (r: bool)
        ensures
            r == is_eligible(method@, status, has_content_encoding, body_is_empty),
    {
        if same(method, "HEAD") {
            return false;
        }
        if status < 200 || status == 204 || status == 205 || status == 304 {
            return false;
        }
        if has_content_encoding {
            return false;
        }
        match body_is_empty {
            Some(true) => false,
            _ => true,
        }
    }

    /// The encoding to answer with, given the client's `Accept-Encoding` headers and a function that
    /// ranks the qualities written there.
    pub fn encoding_for<F: Fn(&Option<String>) -> u32>(
        &self,
        accept_encoding: &Vec<String>,
        rank: F,
    ) -> (r: Option<CompressionEncoding>)
        requires
            forall|quality: &Option<String>| call_requires(rank, (quality,)),
        ensures
            exists|list: Seq<Offer>| #[trigger]
                are_ranked(
                    rank,
                    all_preferences(texts(accept_encoding@), accept_encoding.len() as int),
                    list,
                ) && is_negotiated(list, self.supported(), r),
    {
        let preferences = accepted_encodings(accept_encoding);
        let mut list: Vec<Offer> = Vec::new();
        let mut i: usize = 0;
        while i < preferences.len()
            invariant
                i <= preferences.len(),
                forall|quality: &Option<String>| call_requires(rank, (quality,)),
                are_ranked(rank, preference_views(preferences@).take(i as int), list@),
            decreases preferences.len() - i,
        {
            let rank_of_quality = rank(&preferences[i].quality);
            let ghost view = preference_views(preferences@);
            assert(view[i as int] == preferences@[i as int]@);
            assert(may_rank(rank, view[i as int].quality, rank_of_quality));
            list.push(Offer { encoding: preferences[i].encoding, rank: rank_of_quality });
            i = i + 1;
            assert(are_ranked(rank, view.take(i as int), list@)) by {
                assert forall|k: int| 0 <= k < list@.len() implies is_ranked(
                    rank,
                    view.take(i as int)[k],
                    #[trigger] list@[k],
                ) by {
                    if k < i - 1 {
                        assert(view.take(i as int)[k] == view.take(i - 1)[k]);
                    }
                }
            }
        }
        assert(preference_views(preferences@).take(i as int) =~= preference_views(preferences@));
        self.negotiate_encoding(&list)
    }

    /// The encoding to compress a response with, if it is compressed: where it may be at all, the
    /// one to answer the client with.
    pub fn choose_encoding<F: Fn(&Option<String>) -> u32>(
        &self,
        accept_encoding: &Vec<String>,
        rank: F,
        method: &str,
        status: u16,
        has_content_encoding: bool,
        body_is_empty: Option<bool>,
    ) -> (r: Option<CompressionEncoding>)
        requires
            forall|quality: &Option<String>| call_requires(rank, (quality,)),
        ensures
            if is_eligible(method@, status, has_content_encoding, body_is_empty) {
                exists|list: Seq<Offer>| #[trigger]
                    are_ranked(
                        rank,
                        all_preferences(texts(accept_encoding@), accept_encoding.len() as int),
                        list,
                    ) && is_negotiated(list, self.supported(), r)
            } else {
                r is None
            },
    {
        if self.is_response_eligible(method, status, has_content_encoding, body_is_empty) {
            self.encoding_for(accept_encoding, rank)
        } else {
            None
        }
    }

    /// Whether a body of this length is large enough to be compressed.
    pub fn reaches_minimum(&self, length: usize) -> (r: bool)
        ensures
            r == (length >= self.threshold()),
    {
        length >= self.minimum_size
    }

    /// The response that follows from what compressing its body gave.
    pub fn finish_response(
        &self,
        original: Vec<u8>,
        compressed: Option<Vec<u8>>,
        encoding: CompressionEncoding,
        vary: &HeaderField,
    ) -> (r: Result<Rewritten, CompressionError>)
        ensures
            rewritten_view(r) == rewritten(
                original@,
                self.threshold(),
                optional_bytes(compressed),
                encoding,
                *vary,
            ),
    {
        if !self.reaches_minimum(original.len()) {
            return Ok(keep_body(original));
        }
        match compressed {
            None => Err(CompressionError),
            Some(body) => {
                if body.len() >= original.len() {
                    return Ok(keep_body(original));
                }
                let mut list = set_content_length(body.len());
                let name = encoding.header_value();
                push_insert(&mut list, "content-encoding", name.as_str());
                Ok(
                    Rewritten {
                        body,
                        updates: list,
                        vary: ensure_vary_accept_encoding(vary),
                    },
                )
            },
        }
    }

    /// Compress the body of a response where that makes it smaller.
    pub fn compress_response(
        &self,
        original: Vec<u8>,
        encoding: CompressionEncoding,
        vary: &HeaderField,
    ) -> (r: Result<Rewritten, CompressionError>)
        ensures
            rewritten_view(r) == rewritten(
                original@,
                self.threshold(),
                compressed(encoding, original@, self.strength()),
                encoding,
                *vary,
            ),
    {
        if !self.reaches_minimum(original.len()) {
            return Ok(keep_body(original));
        }
        let compressed = encoding.compress(&original, self.level);
        self.finish_response(original, compressed, encoding, vary)
    }
}

/// Whatever an encoder does, a response never grows, and what it declares as its length is the
/// length of its body.
pub proof fn compression_never_grows_a_body(
    original: Seq<u8>,
    minimum_size: usize,
    compressed: Option<Seq<u8>>,
    encoding: CompressionEncoding,
    vary: HeaderField,
)
    requires
        rewritten(original, minimum_size, compressed, encoding, vary) is Some,
    ensures
        ({
            let r = rewritten(original, minimum_size, compressed, encoding, vary)->0;
            r.body.len() <= original.len() && r.updates[0] == UpdateView::Insert(
                "content-length"@,
                decimal(r.body.len()),
            )
        }),
{
}

/// The encoding to answer with is fixed by the offers and the supported encodings.
pub proof fn negotiation_has_one_outcome(
    list: Seq<Offer>,
    supported: Seq<CompressionEncoding>,
    a: Option<CompressionEncoding>,
    b: Option<CompressionEncoding>,
)
    requires
        is_negotiated(list, supported, a),
        is_negotiated(list, supported, b),
    ensures
        a == b,
{
    if a is Some && b is Some {
        let (i, k) = choose|i: int, k: int| #[trigger]
            is_first(list, supported, i, k) && supported[k] == a->0;
        let (j, l) = choose|j: int, l: int| #[trigger]
            is_first(list, supported, j, l) && supported[l] == b->0;
        assert(is_candidate(list, supported, i, k));
        assert(is_candidate(list, supported, j, l));
    } else if a is Some {
        let (i, k) = choose|i: int, k: int| #[trigger]
            is_first(list, supported, i, k) && supported[k] == a->0;
        assert(is_candidate(list, supported, i, k));
    } else if b is Some {
        let (j, l) = choose|j: int, l: int| #[trigger]
            is_first(list, supported, j, l) && supported[l] == b->0;
        assert(is_candidate(list, supported, j, l));
    }
}

/// Whether a response is compressed depends on the method only through whether it is `HEAD`, whose
/// answers never are; every other answer with a body and no encoding yet is, with any status but
/// those of answers without a body.
pub proof fn only_what_has_no_body_is_left_alone(
    method: Seq<char>,
    other: Seq<char>,
    status: u16,
    has_content_encoding: bool,
    body_is_empty: Option<bool>,
)
    requires
        method != "HEAD"@,
        other != "HEAD"@,
    ensures
        is_eligible(method, status, has_content_encoding, body_is_empty) == is_eligible(
            other,
            status,
            has_content_encoding,
            body_is_empty,
        ),
        !is_eligible("HEAD"@, status, has_content_encoding, body_is_empty),
        !is_eligible(method, status, true, body_is_empty),
        !is_eligible(method, status, has_content_encoding, Some(true)),
        is_eligible(method, status, false, Some(false)) == is_eligible(method, status, false, None),
        is_eligible(method, status, false, None) <==> !(status < 200 || status == 204 || status == 205
            || status == 304),
{
}

/// Whether an offer can be met: it has a quality above zero, and names a supported encoding or leaves
/// the choice.
pub open spec fn can_be_met(offer: Offer, supported: Seq<CompressionEncoding>) -> bool {
    offer.rank > 0 && match offer.encoding {
        ParsedEncoding::Specific(encoding) => supported.contains(encoding),
        ParsedEncoding::Wildcard => supported.len() > 0,
        ParsedEncoding::Identity => false,
        ParsedEncoding::Unsupported => false,
    }
}

proof fn lemma_met_offer(offer: Offer, supported: Seq<CompressionEncoding>) -> (k: int)
    requires
        can_be_met(offer, supported),
    ensures
        offers(offer, supported, k),
{
    match offer.encoding {
        ParsedEncoding::Specific(encoding) => {
            let k = choose|k: int| 0 <= k < supported.len() && supported[k] == encoding;
            lemma_first_supported(supported, encoding, k)
        },
        _ => 0,
    }
}

proof fn lemma_first_supported(
    supported: Seq<CompressionEncoding>,
    encoding: CompressionEncoding,
    k: int,
) -> (first: int)
    requires
        0 <= k < supported.len(),
        supported[k] == encoding,
    ensures
        0 <= first <= k,
        supported[first] == encoding,
        forall|j: int| 0 <= j < first ==> supported[j] != encoding,
    decreases k,
{
    if exists|j: int| 0 <= j < k && supported[j] == encoding {
        let j = choose|j: int| 0 <= j < k && supported[j] == encoding;
        lemma_first_supported(supported, encoding, j)
    } else {
        k
    }
}

/// An encoding is chosen wherever some offer can be met: that of the offer with the best quality, of
/// those with the same quality the first. Where it leaves the choice, it is the one that is
/// preferred.
pub proof fn the_best_offer_is_met(
    list: Seq<Offer>,
    supported: Seq<CompressionEncoding>,
    r: Option<CompressionEncoding>,
)
    requires
        is_negotiated(list, supported, r),
    ensures
        r is None <==> (forall|j: int|
            0 <= j < list.len() ==> !can_be_met(#[trigger] list[j], supported)),
        r matches Some(encoding) ==> exists|i: int|
            {
                &&& 0 <= i < list.len()
                &&& can_be_met(#[trigger] list[i], supported)
                &&& list[i].encoding == ParsedEncoding::Specific(encoding) || (list[i].encoding
                    == ParsedEncoding::Wildcard && encoding == supported[0])
                &&& forall|j: int|
                    0 <= j < list.len() && can_be_met(#[trigger] list[j], supported)
                        ==> list[j].rank < list[i].rank || (list[j].rank == list[i].rank && i <= j)
            },
{
    match r {
        None => {
            assert forall|j: int| 0 <= j < list.len() implies !can_be_met(
                #[trigger] list[j],
                supported,
            ) by {
                if can_be_met(list[j], supported) {
                    let k = lemma_met_offer(list[j], supported);
                    assert(is_candidate(list, supported, j, k));
                }
            }
        },
        Some(encoding) => {
            let (i, k) = choose|i: int, k: int| #[trigger]
                is_first(list, supported, i, k) && supported[k] == encoding;
            assert(is_candidate(list, supported, i, k));
            assert(can_be_met(list[i], supported));
            if list[i].encoding == ParsedEncoding::Wildcard {
                assert(is_candidate(list, supported, i, 0));
            }
            assert forall|j: int|
                0 <= j < list.len() && can_be_met(
                    #[trigger] list[j],
                    supported,
                ) implies list[j].rank < list[i].rank || (list[j].rank == list[i].rank && i <= j) by {
                let l = lemma_met_offer(list[j], supported);
                assert(is_candidate(list, supported, j, l));
            }
        },
    }
}

/// Encodings are known by their names in any case, with white space around them; `x-gzip` is `gzip`.
pub proof fn encodings_are_known_by_their_names(
    lead: Seq<char>,
    name: Seq<char>,
    tail: Seq<char>,
)
    requires
        is_blank_text(lead, Padding::WhiteSpace),
        is_blank_text(tail, Padding::WhiteSpace),
        trim(name, Padding::WhiteSpace) == name,
    ensures
        ({
            let known = token_encoding(lead + name + tail);
            &&& known == ParsedEncoding::Specific(CompressionEncoding::Gzip) <==> lowercase(name)
                == "gzip"@ || lowercase(name) == "x-gzip"@
            &&& known == ParsedEncoding::Specific(CompressionEncoding::Deflate) <==> lowercase(name)
                == "deflate"@
            &&& known == ParsedEncoding::Wildcard <==> lowercase(name) == "*"@
            &&& known == ParsedEncoding::Identity <==> lowercase(name) == "identity"@
        }),
{
    reveal_strlit("gzip");
    reveal_strlit("x-gzip");
    reveal_strlit("deflate");
    reveal_strlit("*");
    reveal_strlit("identity");
    lemma_trim_padded(lead, name, tail, Padding::WhiteSpace);
    assert("gzip"@.len() == 4 && "x-gzip"@.len() == 6 && "deflate"@.len() == 7);
    assert("*"@.len() == 1 && "identity"@.len() == 8);
    let known = token_encoding(lead + name + tail);
    assert(known == token_encoding(name));
    let small = lowercase(name);
    if small == "deflate"@ || small == "*"@ || small == "identity"@ {
        assert(small != "gzip"@ && small != "x-gzip"@);
    }
}

/// An element is an encoding and the quality behind it, if there is one.
pub proof fn an_element_has_an_encoding_and_a_quality(token: Seq<char>, quality: Seq<char>)
    requires
        !token.contains(';'),
        !quality.contains(';'),
        trim(quality, Padding::WhiteSpace) == quality,
    ensures
        preference(token).encoding == token_encoding(token),
        preference(token).quality is None,
        preference(token + seq![';', 'q', '='] + quality).encoding == token_encoding(token),
        preference(token + seq![';', 'q', '='] + quality).quality == Some(quality),
        preference(token + seq![';', 'Q', '='] + quality).quality == Some(quality),
{
    reveal_strlit("q");
    assert(lowercase("q"@) =~= "q"@);
    lemma_token_is_trimmed(token);
    lemma_split_without_separator(token, ';');
    lemma_quality(token, 'q', quality);
    lemma_quality(token, 'Q', quality);
}

proof fn lemma_token_is_trimmed(token: Seq<char>)
    ensures
        token_encoding(trim(token, Padding::WhiteSpace)) == token_encoding(token),
{
    let trimmed = trim(token, Padding::WhiteSpace);
    trimming_leaves_no_padding(token, Padding::WhiteSpace);
    a_text_without_padding_stays(trimmed, Padding::WhiteSpace);
}

#[verifier::rlimit(40)]
#[verifier::spinoff_prover]
proof fn lemma_quality(token: Seq<char>, letter: char, quality: Seq<char>)
    requires
        letter == 'q' || letter == 'Q',
        !token.contains(';'),
        !quality.contains(';'),
        trim(quality, Padding::WhiteSpace) == quality,
    ensures
        preference(token + seq![';', letter, '='] + quality).encoding == token_encoding(token),
        preference(token + seq![';', letter, '='] + quality).quality == Some(quality),
{
    reveal_strlit("q");
    let whole = token + seq![';', letter, '='] + quality;
    let section = seq![letter, '='] + quality;
    let none = Seq::<char>::empty();
    lemma_token_is_trimmed(token);
    assert(whole =~= token + seq![';'] + section);
    assert(!section.contains(';')) by {
        if section.contains(';') {
            let i = choose|i: int| 0 <= i < section.len() && section[i] == ';';
            assert(quality[i - 2] == ';');
        }
    }
    lemma_split_at_separator(token, ';', section);
    lemma_split_without_separator(section, ';');
    let all = split(whole, ';');
    assert(all[0] == token && all[1] == section);
    trimming_leaves_no_padding(quality, Padding::WhiteSpace);
    assert(!is_padding(Padding::WhiteSpace, section[0]));
    assert(section[section.len() - 1] == '=' || section[section.len() - 1] == quality.last());
    a_text_without_padding_stays(section, Padding::WhiteSpace);
    assert(find(section, '=', 0) == 1) by {
        assert(find(section, '=', 1) == 1);
    }
    assert(section.subrange(0, 1) =~= seq![letter]);
    a_text_without_padding_stays(seq![letter], Padding::WhiteSpace);
    assert(section.subrange(2, section.len() as int) =~= quality);
    assert(lower(letter) == 'q');
    assert(lowercase(seq![letter]) =~= lowercase("q"@));
    assert(quality_section(section) == Some(quality));
    assert(quality_text(all, 1) == Some(quality));
}

/// Elements may stand in one header, with commas between them, or in several: it makes no difference.
pub proof fn elements_may_stand_in_several_headers(first: Seq<char>, second: Seq<char>)
    requires
        !first.contains(','),
    ensures
        all_preferences(seq![first + seq![','] + second], 1) == all_preferences(
            seq![first, second],
            2,
        ),
{
    reveal_with_fuel(all_preferences, 3);
    let whole = first + seq![','] + second;
    let parts = split(whole, ',');
    let rest = split(second, ',');
    lemma_split_at_separator(first, ',', second);
    lemma_split_without_separator(first, ',');
    lemma_preferences_behind(first, rest, rest.len() as int);
    assert(parts == seq![first] + rest);
    assert(preferences_in(seq![first], 1) + preferences_in(rest, rest.len() as int)
        =~= preferences_in(parts, parts.len() as int));
    assert(seq![first, second][0] == first && seq![first, second][1] == second);
    assert(all_preferences(seq![first, second], 2) =~= preferences_in(seq![first], 1)
        + preferences_in(rest, rest.len() as int));
    assert(all_preferences(seq![whole], 1) =~= preferences_in(parts, parts.len() as int));
}

proof fn lemma_preferences_behind(first: Seq<char>, rest: Seq<Seq<char>>, to: int)
    requires
        0 <= to <= rest.len(),
    ensures
        preferences_in(seq![first] + rest, to + 1) == preferences_in(seq![first], 1)
            + preferences_in(rest, to),
    decreases to,
{
    reveal_with_fuel(preferences_in, 2);
    let all = seq![first] + rest;
    if to == 0 {
        assert(all[0] == first);
        assert(preferences_in(all, 1) =~= preferences_in(seq![first], 1) + preferences_in(rest, 0));
    } else {
        lemma_preferences_behind(first, rest, to - 1);
        assert(all[to] == rest[to - 1]);
        assert(preferences_in(all, to + 1) =~= preferences_in(seq![first], 1) + preferences_in(
            rest,
            to,
        ));
    }
}

/// A single element is one preference, and a blank one is none.
pub proof fn an_element_is_a_preference(element: Seq<char>)
    requires
        !element.contains(','),
    ensures
        is_blank_text(element, Padding::WhiteSpace) ==> all_preferences(seq![element], 1) == Seq::<
            PreferenceView,
        >::empty(),
        !is_blank_text(element, Padding::WhiteSpace) ==> all_preferences(seq![element], 1) == seq![
            preference(trim(element, Padding::WhiteSpace)),
        ],
{
    reveal_with_fuel(all_preferences, 2);
    reveal_with_fuel(preferences_in, 2);
    lemma_split_without_separator(element, ',');
    trimming_leaves_no_padding(element, Padding::WhiteSpace);
    assert(split(element, ',')[0] == element);
    if is_blank_text(element, Padding::WhiteSpace) {
        assert(all_preferences(seq![element], 1) =~= Seq::<PreferenceView>::empty());
    } else {
        assert(all_preferences(seq![element], 1) =~= seq![
            preference(trim(element, Padding::WhiteSpace)),
        ]);
    }
}

/// What compressing gave is sent exactly where the body is large enough and became smaller, and then
/// named and varied by; otherwise the body is sent as it was, and nothing is said of an encoding.
/// A response fails only where a body that is large enough cannot be compressed.
pub proof fn a_smaller_body_is_sent_and_named(
    original: Seq<u8>,
    minimum_size: usize,
    compressed: Option<Seq<u8>>,
    encoding: CompressionEncoding,
    vary: HeaderField,
    value: Seq<char>,
)
    ensures
        rewritten(original, minimum_size, compressed, encoding, vary) is None <==> original.len()
            >= minimum_size && compressed is None,
        rewritten(original, minimum_size, compressed, encoding, vary) matches Some(response) ==> {
            let is_used = original.len() >= minimum_size && compressed->0.len() < original.len();
            &&& response.body == if is_used {
                compressed->0
            } else {
                original
            }
            &&& response.updates.contains(UpdateView::Insert("content-encoding"@, value))
                <==> is_used && value == (match encoding {
                CompressionEncoding::Gzip => "gzip"@,
                CompressionEncoding::Deflate => "deflate"@,
            })
            &&& response.vary == if is_used {
                vary_update(vary)
            } else {
                None
            }
            &&& response.updates.contains(UpdateView::Insert("content-length"@, value)) <==> value
                == decimal(response.body.len())
            &&& response.updates.contains(UpdateView::Remove("transfer-encoding"@))
        },
{
    reveal_strlit("content-encoding");
    reveal_strlit("content-length");
    if let Some(response) = rewritten(original, minimum_size, compressed, encoding, vary) {
        let all = response.updates;
        let is_used = original.len() >= minimum_size && compressed->0.len() < original.len();
        assert(all.len() == if is_used {
            3int
        } else {
            2
        });
        assert("content-encoding"@.len() == 16 && "content-length"@.len() == 14);
        assert(all[0] == UpdateView::Insert("content-length"@, decimal(response.body.len())));
        assert(all[1] == UpdateView::Remove("transfer-encoding"@));
        if all.len() > 2 {
            assert(all[2] == UpdateView::Insert("content-encoding"@, encoding_name(encoding)));
        }
    }
}

/// Levels rise from fast to best, a precise level is its number, and none is above nine.
pub proof fn levels_are_numbered_by_strength(n: u32)
    ensures
        level_number(CompressionLevel::Fast) == 1,
        level_number(CompressionLevel::Fast) < level_number(CompressionLevel::Default) < level_number(
            CompressionLevel::Best,
        ),
        level_number(CompressionLevel::Best) == 9,
        n <= 9 ==> level_number(CompressionLevel::Precise(n)) == n,
        n > 9 ==> level_number(CompressionLevel::Precise(n)) == 9,
{
}

/// A body is compressed with the encoding that was chosen, at the level that is configured.
pub proof fn a_body_is_compressed_as_chosen(body: Seq<u8>, level: u32)
    requires
        level <= 9,
    ensures
        compressed(CompressionEncoding::Gzip, body, CompressionLevel::Precise(level)) == gzipped(
            body,
            level,
        ),
        compressed(CompressionEncoding::Deflate, body, CompressionLevel::Precise(level)) == zlibbed(
            body,
            level,
        ),
        compressed(CompressionEncoding::Gzip, body, CompressionLevel::Best) == gzipped(body, 9),
        compressed(CompressionEncoding::Deflate, body, CompressionLevel::Fast) == zlibbed(
            body,
            1,
        ),
{
}

/// Without other encodings configured both are supported, and a client that takes both alike gets
/// the first.
pub proof fn both_encodings_are_supported(encoding: CompressionEncoding)
    ensures
        default_encodings().contains(encoding),
        default_encodings().len() == 2,
        default_encodings()[0] == CompressionEncoding::Gzip,
{
    assert(default_encodings()[0] == CompressionEncoding::Gzip);
    assert(default_encodings()[1] == CompressionEncoding::Deflate);
}

/// A response without a `Vary` header, or with one that is no text, gets one that names the request
/// header; one with other names gets it behind them.
pub proof fn a_compressed_response_varies(existing: String)
    ensures
        vary_update(HeaderField::Absent) == Some("Accept-Encoding"@),
        vary_update(HeaderField::Opaque) == Some("Accept-Encoding"@),
        is_blank_text(existing@, Padding::WhiteSpace) && !lists_accept_encoding(existing@)
            ==> vary_update(HeaderField::Text(existing)) == Some("Accept-Encoding"@),
        !lists_accept_encoding(existing@) && existing@.len() > 0 && trim(
            existing@,
            Padding::WhiteSpace,
        ) == existing@ && is_header_text(existing@) ==> vary_update(HeaderField::Text(existing))
            == Some(existing@ + ", Accept-Encoding"@),
        lists_accept_encoding(existing@) ==> vary_update(HeaderField::Text(existing)) is None,
{
    reveal_strlit("Accept-Encoding");
    reveal_strlit(", ");
    reveal_strlit(", Accept-Encoding");
    trimming_leaves_no_padding(existing@, Padding::WhiteSpace);
    let combined = existing@ + ", "@ + "Accept-Encoding"@;
    assert(combined =~= existing@ + ", Accept-Encoding"@);
    assert(is_header_text("Accept-Encoding"@));
    if is_header_text(existing@) {
        assert forall|i: int| 0 <= i < combined.len() implies (' ' <= #[trigger] combined[i]
            && combined[i] != '\u{7f}') || combined[i] == '\t' by {
            if i < existing@.len() {
                assert(combined[i] == existing@[i]);
            } else if i < existing@.len() + 2 {
                assert(combined[i] == ", "@[i - existing@.len()]);
            } else {
                assert(combined[i] == "Accept-Encoding"@[i - existing@.len() - 2]);
            }
        }
    }
}

} // verus!
