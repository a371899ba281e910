//! The IP address of the client.

use vstd::prelude::*;
#[allow(unused_imports)]
use vstd::utf8::{decode_utf8, valid_utf8};

use crate::routing::path::utf8_text;
#[allow(unused_imports)]
use crate::text::{
    find, lemma_find_bounds, lemma_rfind_bounds, may_parse, optional_text, rfind,
};
use crate::text::{chars_of, copy_text, find_char, rfind_char, slice_text};

verus! {

/// An error occurred while extracting the client's IP.
#[derive(Debug, Clone, Copy, PartialEq, Eq)]
pub enum ClientIpError {
    /// The header is not syntactically valid.
    InvalidForwardedHeader,
    /// The header is not a valid UTF-8 string.
    InvalidUtf8,
    /// Failed to parse the address.
    AddrParseError,
    /// The remote address is missing. This points at a server configuration problem, not a bad
    /// request.
    MissingRemoteAddr,
}

impl ClientIpError {
    /// The error's text.
    pub fn message(&self) -> (r: String)
        ensures
            r@ == match self {
                ClientIpError::InvalidForwardedHeader => "Invalid forwarded header"@,
                ClientIpError::InvalidUtf8 => "Invalid UTF-8 in forwarded header"@,
                ClientIpError::AddrParseError => "Failed to parse address"@,
                ClientIpError::MissingRemoteAddr =>
                "Missing remote addr, maybe it's not a tcp/udp connection"@,
            },
    {
        match self {
            ClientIpError::InvalidForwardedHeader => copy_text("Invalid forwarded header"),
            ClientIpError::InvalidUtf8 => copy_text("Invalid UTF-8 in forwarded header"),
            ClientIpError::AddrParseError => copy_text("Failed to parse address"),
            ClientIpError::MissingRemoteAddr => copy_text(
                "Missing remote addr, maybe it's not a tcp/udp connection",
            ),
        }
    }

    /// The status the error is answered with.
    pub fn status(&self) -> (r: u16)
        ensures
            r == if *self is MissingRemoteAddr {
                500u16
            } else {
                400u16
            },
    {
        match self {
            ClientIpError::MissingRemoteAddr => 500,
            _ => 400,
        }
    }
}

/// The index of the first `byte` in `s` at or after `from`, or the length.
pub open spec fn find_in(s: Seq<u8>, byte: u8, from: int) -> int
    decreases s.len() - from,
{
    if from < 0 || from >= s.len() {
        s.len() as int
    } else if s[from] == byte {
        from
    } else {
        find_in(s, byte, from + 1)
    }
}

/// Whether a byte is optional white space: a space or a horizontal tab.
pub open spec fn is_blank(byte: u8) -> bool {
    byte == 0x20 || byte == 0x09
}

/// The index of the first byte at or after `from` that is not blank.
pub open spec fn first_solid(s: Seq<u8>, from: int) -> int
    decreases s.len() - from,
{
    if from < 0 || from >= s.len() {
        s.len() as int
    } else if is_blank(s[from]) {
        first_solid(s, from + 1)
    } else {
        from
    }
}

/// One past the index of the last byte before `to` that is not blank.
pub open spec fn solid_end(s: Seq<u8>, to: int) -> int
    decreases to,
{
    if to <= 0 || to > s.len() {
        0
    } else if is_blank(s[to - 1]) {
        solid_end(s, to - 1)
    } else {
        to
    }
}

/// Bytes without blanks at either end.
pub open spec fn trimmed(s: Seq<u8>) -> Seq<u8> {
    let rest = s.subrange(first_solid(s, 0), s.len() as int);
    rest.subrange(0, solid_end(rest, rest.len() as int))
}

/// A byte with an ASCII capital made small.
pub open spec fn lower_byte(byte: u8) -> u8 {
    if 0x41 <= byte <= 0x5a {
        (byte + 0x20) as u8
    } else {
        byte
    }
}

/// Whether bytes are the word `for`, whatever their case.
pub open spec fn is_for(s: Seq<u8>) -> bool {
    s.len() == 3 && lower_byte(s[0]) == 0x66 && lower_byte(s[1]) == 0x6f && lower_byte(s[2]) == 0x72
}

/// Whether a byte separates the elements of a `Forwarded` header.
pub open spec fn is_separator(byte: u8) -> bool {
    byte == 0x3b || byte == 0x2c
}

/// The index of the first separator at or after `from`, or the length.
pub open spec fn element_end(s: Seq<u8>, from: int) -> int
    decreases s.len() - from,
{
    if from < 0 || from >= s.len() {
        s.len() as int
    } else if is_separator(s[from]) {
        from
    } else {
        element_end(s, from + 1)
    }
}

/// The value of the first `for` element of a `Forwarded` header, from index `from` on. Every element
/// before it must be a pair.
pub open spec fn forwarded_for(s: Seq<u8>, from: int) -> Result<Option<Seq<u8>>, ClientIpError>
    decreases s.len() - from,
{
    let end = element_end(s, from);
    if from < 0 || from > end {
        Ok(None)
    } else {
        let element = s.subrange(from, end);
        let at = find_in(element, 0x3d, 0);
        if at >= element.len() {
            Err(ClientIpError::InvalidForwardedHeader)
        } else if is_for(trimmed(element.subrange(0, at))) {
            Ok(Some(trimmed(element.subrange(at + 1, element.len() as int))))
        } else if end < s.len() {
            forwarded_for(s, end + 1)
        } else {
            Ok(None)
        }
    }
}

/// A value without the quotes around it. `None` where only the first of them is there.
pub open spec fn unquoted(value: Seq<u8>) -> Option<Seq<u8>> {
    if value.len() > 0 && value[0] == 0x22 {
        if value.len() > 1 && value.last() == 0x22 {
            Some(value.subrange(1, value.len() - 1))
        } else {
            None
        }
    } else {
        Some(value)
    }
}

/// Whether a text is a port: digits, and at least one.
pub open spec fn is_port(s: Seq<char>) -> bool {
    s.len() > 0 && forall|i: int| 0 <= i < s.len() ==> '0' <= #[trigger] s[i] <= '9'
}

/// The text of an address, and how it is to be read.
#[derive(Debug)]
pub enum AddressText {
    /// An IPv6 address, which stood in brackets.
    Ipv6(String),
    /// An address; where it cannot be read as one, the text before its port is tried.
    Plain {
        /// The whole text.
        address: String,
        /// The text before the port, if there may be a port.
        without_port: Option<String>,
    },
}

/// The text of an address as plain values.
pub enum AddressView {
    /// See [`AddressText::Ipv6`].
    Ipv6(Seq<char>),
    /// See [`AddressText::Plain`].
    Plain {
        /// The whole text.
        address: Seq<char>,
        /// The text before the port, if there may be a port.
        without_port: Option<Seq<char>>,
    },
}

impl View for AddressText {
    type V = AddressView;

    open spec fn view(&self) -> AddressView {
        match self {
            AddressText::Ipv6(host) => AddressView::Ipv6(host@),
            AddressText::Plain { address, without_port } => AddressView::Plain {
                address: address@,
                without_port: optional_text(*without_port),
            },
        }
    }
}

/// What a text says where an address with an optional port is expected.
pub open spec fn address_of(text: Seq<char>) -> Result<AddressView, ClientIpError> {
    if text.len() > 0 && text[0] == '[' {
        let end = find(text, ']', 0);
        let rest = text.subrange(end + 1, text.len() as int);
        if end >= text.len() {
            Err(ClientIpError::InvalidForwardedHeader)
        } else if rest.len() > 0 && !(rest[0] == ':' && is_port(
            rest.subrange(1, rest.len() as int),
        )) {
            Err(ClientIpError::InvalidForwardedHeader)
        } else {
            Ok(AddressView::Ipv6(text.subrange(1, end)))
        }
    } else {
        let colon = rfind(text, ':', text.len() as int);
        Ok(
            AddressView::Plain {
                address: text,
                without_port: if colon >= 0 && is_port(
                    text.subrange(colon + 1, text.len() as int),
                ) {
                    Some(text.subrange(0, colon))
                } else {
                    None
                },
            },
        )
    }
}

/// What the value of a `for` element says.
pub open spec fn for_value(value: Seq<u8>) -> Result<AddressView, ClientIpError> {
    match unquoted(trimmed(value)) {
        None => Err(ClientIpError::InvalidForwardedHeader),
        Some(bytes) => if valid_utf8(bytes) {
            address_of(decode_utf8(bytes))
        } else {
            Err(ClientIpError::InvalidUtf8)
        },
    }
}

/// What a `Forwarded` header says of the client's address.
pub open spec fn forwarded(header: Seq<u8>) -> Result<Option<AddressView>, ClientIpError> {
    match forwarded_for(header, 0) {
        Err(error) => Err(error),
        Ok(None) => Ok(None),
        Ok(Some(value)) => match for_value(value) {
            Ok(address) => Ok(Some(address)),
            Err(error) => Err(error),
        },
    }
}

/// What an `X-Forwarded-For` header says of the client's address: its first element is the whole
/// address.
pub open spec fn x_forwarded_for(header: Seq<u8>) -> Result<Option<AddressView>, ClientIpError> {
    let first = trimmed(header.subrange(0, find_in(header, 0x2c, 0)));
    if valid_utf8(first) {
        Ok(Some(AddressView::Plain { address: decode_utf8(first), without_port: None }))
    } else {
        Err(ClientIpError::InvalidUtf8)
    }
}

/// Whether `r` is what a header says.
pub open spec fn says(
    r: Result<Option<AddressText>, ClientIpError>,
    expected: Result<Option<AddressView>, ClientIpError>,
) -> bool {
    match r {
        Ok(Some(address)) => expected == Ok::<Option<AddressView>, ClientIpError>(Some(address@)),
        Ok(None) => expected == Ok::<Option<AddressView>, ClientIpError>(None),
        Err(error) => expected == Err::<Option<AddressView>, ClientIpError>(error),
    }
}

proof fn lemma_find_in_bounds(s: Seq<u8>, byte: u8, from: int)
    requires
        0 <= from <= s.len(),
    ensures
        from <= find_in(s, byte, from) <= s.len(),
    decreases s.len() - from,
{
    if from < s.len() && s[from] != byte {
        lemma_find_in_bounds(s, byte, from + 1);
    }
}

fn find_byte(s: &Vec<u8>, byte: u8) -> (r: usize)
    ensures
        r == find_in(s@, byte, 0),
        r <= s.len(),
{
    let mut i: usize = 0;
    while i < s.len() && s[i] != byte
        invariant
            i <= s.len(),
            find_in(s@, byte, 0) == find_in(s@, byte, i as int),
        decreases s.len() - i,
    {
        i = i + 1;
    }
    i
}

fn slice_bytes(s: &Vec<u8>, from: usize, to: usize) -> (r: Vec<u8>)
    requires
        from <= to <= s.len(),
    ensures
        r@ == s@.subrange(from as int, to as int),
{
    let mut out: Vec<u8> = Vec::new();
    let mut i: usize = from;
    while i < to
        invariant
            from <= i <= to <= s.len(),
            out@ == s@.subrange(from as int, i as int),
        decreases to - i,
    {
        out.push(s[i]);
        i = i + 1;
        assert(s@.subrange(from as int, i as int) =~= s@.subrange(from as int, i - 1).push(
            s@[i - 1],
        ));
    }
    out
}

/// The bytes before and after the first `pat`, if there is one.
pub fn split_once(s: &Vec<u8>, pat: u8) -> (r: Option<(Vec<u8>, Vec<u8>)>)
    ensures
        match r {
            Some(pair) => find_in(s@, pat, 0) < s@.len() && pair.0@ == s@.subrange(
                0,
                find_in(s@, pat, 0),
            ) && pair.1@ == s@.subrange(find_in(s@, pat, 0) + 1, s@.len() as int),
            None => find_in(s@, pat, 0) == s@.len(),
        },
{
    let at = find_byte(s, pat);
    if at < s.len() {
        Some((slice_bytes(s, 0, at), slice_bytes(s, at + 1, s.len())))
    } else {
        None
    }
}

/// Strip optional white space (spaces and horizontal tabs) from both ends.
pub fn trim(s: &Vec<u8>) -> (r: Vec<u8>)
    ensures
        r@ == trimmed(s@),
{
    let mut from: usize = 0;
    while from < s.len() && (s[from] == 0x20 || s[from] == 0x09)
        invariant
            from <= s.len(),
            first_solid(s@, 0) == first_solid(s@, from as int),
        decreases s.len() - from,
    {
        from = from + 1;
    }
    let rest = slice_bytes(s, from, s.len());
    let mut to: usize = rest.len();
    while to > 0 && (rest[to - 1] == 0x20 || rest[to - 1] == 0x09)
        invariant
            to <= rest.len(),
            solid_end(rest@, rest@.len() as int) == solid_end(rest@, to as int),
        decreases to,
    {
        to = to - 1;
    }
    slice_bytes(&rest, 0, to)
}

fn lower_ascii(byte: u8) -> (r: u8)
    ensures
        r == lower_byte(byte),
{
    if 0x41 <= byte && byte <= 0x5a {
        byte + 0x20
    } else {
        byte
    }
}

fn names_for(s: &Vec<u8>) -> (r: bool)
    ensures
        r == is_for(s@),
{
    s.len() == 3 && lower_ascii(s[0]) == 0x66 && lower_ascii(s[1]) == 0x6f && lower_ascii(s[2])
        == 0x72
}

fn all_digits(s: &Vec<char>, from: usize) -> (r: bool)
    requires
        from <= s.len(),
    ensures
        r == is_port(s@.subrange(from as int, s.len() as int)),
{
    let ghost part = s@.subrange(from as int, s.len() as int);
    if from == s.len() {
        return false;
    }
    let mut i: usize = from;
    while i < s.len()
        invariant
            from <= i <= s.len(),
            from < s.len(),
            part == s@.subrange(from as int, s.len() as int),
            forall|j: int| 0 <= j < i - from ==> '0' <= #[trigger] part[j] <= '9',
        decreases s.len() - i,
    {
        assert(part[i - from] == s@[i as int]);
        if !('0' <= s[i] && s[i] <= '9') {
            return false;
        }
        i = i + 1;
    }
    true
}

/// Read a text where an address with an optional port is expected.
pub fn parse_ip_addr_with_optional_port(text: &str) -> (r: Result<AddressText, ClientIpError>)
    ensures
        match r {
            Ok(address) => address_of(text@) == Ok::<AddressView, ClientIpError>(address@),
            Err(error) => address_of(text@) == Err::<AddressView, ClientIpError>(error),
        },
{
    let chars = chars_of(text);
    if chars.len() > 0 && chars[0] == '[' {
        let end = find_char(&chars, ']', 0);
        if end >= chars.len() {
            return Err(ClientIpError::InvalidForwardedHeader);
        }
        proof {
            lemma_find_bounds(chars@, ']', 0);
        }
        let ghost rest = text@.subrange(end + 1, text@.len() as int);
        if end + 1 < chars.len() {
            assert(rest[0] == chars@[end + 1]);
            if chars[end + 1] != ':' {
                return Err(ClientIpError::InvalidForwardedHeader);
            }
            let port_is_valid = all_digits(&chars, end + 2);
            assert(rest.subrange(1, rest.len() as int) =~= chars@.subrange(
                end + 2,
                chars@.len() as int,
            ));
            if !port_is_valid {
                return Err(ClientIpError::InvalidForwardedHeader);
            }
        }
        Ok(AddressText::Ipv6(slice_text(&chars, 1, end)))
    } else {
        proof {
            lemma_rfind_bounds(chars@, ':', chars@.len() as int);
        }
        let without_port = match rfind_char(&chars, ':', chars.len()) {
            Some(colon) => {
                if all_digits(&chars, colon + 1) {
                    Some(slice_text(&chars, 0, colon))
                } else {
                    None
                }
            },
            None => None,
        };
        Ok(AddressText::Plain { address: copy_text(text), without_port })
    }
}

fn decode(bytes: Vec<u8>) -> (r: Result<String, ClientIpError>)
    ensures
        match r {
            Ok(text) => valid_utf8(bytes@) && text@ == decode_utf8(bytes@),
            Err(error) => !valid_utf8(bytes@) && error is InvalidUtf8,
        },
{
    let ghost given = bytes@;
    match utf8_text(bytes) {
        Some(text) => {
            proof {
                vstd::utf8::encode_utf8_decode_utf8(text@);
            }
            Ok(text)
        },
        None => Err(ClientIpError::InvalidUtf8),
    }
}

/// Read the value of a `for` element.
pub fn parse_forwarded_for_value(value: &Vec<u8>) -> (r: Result<AddressText, ClientIpError>)
    ensures
        match r {
            Ok(address) => for_value(value@) == Ok::<AddressView, ClientIpError>(address@),
            Err(error) => for_value(value@) == Err::<AddressView, ClientIpError>(error),
        },
{
    let value = trim(value);
    let bytes = if value.len() > 0 && value[0] == 0x22 {
        if value.len() > 1 && value[value.len() - 1] == 0x22 {
            slice_bytes(&value, 1, value.len() - 1)
        } else {
            return Err(ClientIpError::InvalidForwardedHeader);
        }
    } else {
        value
    };
    match decode(bytes) {
        Ok(text) => parse_ip_addr_with_optional_port(text.as_str()),
        Err(error) => Err(error),
    }
}

/// Read a `Forwarded` header: the address of its first `for` element, if it has one.
pub fn parse_forwarded(header: &Vec<u8>) -> (r: Result<Option<AddressText>, ClientIpError>)
    ensures
        says(r, forwarded(header@)),
{
    let mut from: usize = 0;
    loop
        invariant
            from <= header.len(),
            forwarded_for(header@, 0) == forwarded_for(header@, from as int),
        decreases header.len() - from,
    {
        let mut end: usize = from;
        while end < header.len() && header[end] != 0x3b && header[end] != 0x2c
            invariant
                from <= end <= header.len(),
                element_end(header@, from as int) == element_end(header@, end as int),
            decreases header.len() - end,
        {
            end = end + 1;
        }
        let element = slice_bytes(header, from, end);
        match split_once(&element, 0x3d) {
            None => {
                return Err(ClientIpError::InvalidForwardedHeader);
            },
            Some((key, value)) => {
                proof {
                    lemma_find_in_bounds(element@, 0x3d, 0);
                }
                let key = trim(&key);
                if names_for(&key) {
                    let value = trim(&value);
                    return match parse_forwarded_for_value(&value) {
                        Ok(address) => Ok(Some(address)),
                        Err(error) => Err(error),
                    };
                }
            },
        }
        if end >= header.len() {
            return Ok(None);
        }
        from = end + 1;
    }
}

/// Read an `X-Forwarded-For` header: the address is its first element.
pub fn parse_x_forwarded_for(header: &Vec<u8>) -> (r: Result<Option<AddressText>, ClientIpError>)
    ensures
        says(r, x_forwarded_for(header@)),
{
    let end = find_byte(header, 0x2c);
    let first = slice_bytes(header, 0, end);
    let first = trim(&first);
    match decode(first) {
        Ok(address) => Ok(Some(AddressText::Plain { address, without_port: None })),
        Err(error) => Err(error),
    }
}

/// The address that follows from reading a text: the whole of it, or else what stands before its
/// port.
pub open spec fn settled<A>(whole: Option<A>, without_port: Option<A>) -> Result<A, ClientIpError> {
    match whole {
        Some(address) => Ok(address),
        None => match without_port {
            Some(address) => Ok(address),
            None => Err(ClientIpError::AddrParseError),
        },
    }
}

/// The address that follows from reading a text: the whole of it, or else what stands before its
/// port.
pub fn settle<A>(whole: Option<A>, without_port: Option<A>) -> (r: Result<A, ClientIpError>)
    ensures
        r == settled(whole, without_port),
{
    match whole {
        Some(address) => Ok(address),
        None => match without_port {
            Some(address) => Ok(address),
            None => Err(ClientIpError::AddrParseError),
        },
    }
}

/// The address of the client, by what the headers say: `Forwarded` decides if it names an address,
/// then `X-Forwarded-For`, then the peer address. A header that cannot be read is an error.
pub open spec fn client_address<A>(
    forwarded: Option<Result<Option<A>, ClientIpError>>,
    x_forwarded_for: Option<Result<Option<A>, ClientIpError>>,
    peer: Option<A>,
) -> Result<A, ClientIpError> {
    match forwarded {
        Some(Err(error)) => Err(error),
        Some(Ok(Some(address))) => Ok(address),
        _ => match x_forwarded_for {
            Some(Err(error)) => Err(error),
            Some(Ok(Some(address))) => Ok(address),
            _ => match peer {
                Some(address) => Ok(address),
                None => Err(ClientIpError::MissingRemoteAddr),
            },
        },
    }
}

/// The address of the client, by what the headers say.
pub fn select_client_ip<A>(
    forwarded: Option<Result<Option<A>, ClientIpError>>,
    x_forwarded_for: Option<Result<Option<A>, ClientIpError>>,
    peer: Option<A>,
) -> (r: Result<A, ClientIpError>)
    ensures
        r == client_address(forwarded, x_forwarded_for, peer),
{
    match forwarded {
        Some(Err(error)) => {
            return Err(error);
        },
        Some(Ok(Some(address))) => {
            return Ok(address);
        },
        _ => {},
    }
    match x_forwarded_for {
        Some(Err(error)) => {
            return Err(error);
        },
        Some(Ok(Some(address))) => {
            return Ok(address);
        },
        _ => {},
    }
    match peer {
        Some(address) => Ok(address),
        None => Err(ClientIpError::MissingRemoteAddr),
    }
}

/// Whether reading the text of an address may give `out`: an IPv6 address by its own parser, another
/// as a whole or else, where it may have a port, without it.
pub open spec fn may_read<A, P: Fn(&String) -> Option<A>, Q: Fn(&String) -> Option<A>>(
    parse: P,
    parse_ipv6: Q,
    address: AddressView,
    out: Result<A, ClientIpError>,
) -> bool {
    match address {
        AddressView::Ipv6(host) => may_settle(parse_ipv6, host, None, out),
        AddressView::Plain { address, without_port } => may_settle(
            parse,
            address,
            without_port,
            out,
        ),
    }
}

/// Whether reading a text, or else the text without its port, may give `out`.
pub open spec fn may_settle<A, P: Fn(&String) -> Option<A>>(
    parse: P,
    address: Seq<char>,
    without_port: Option<Seq<char>>,
    out: Result<A, ClientIpError>,
) -> bool {
    exists|whole: Option<A>, rest: Option<A>| #[trigger]
        may_try(parse, address, without_port, whole, rest) && out == settled(whole, rest)
}

/// Whether a parser may give `whole` for a text and then `rest` for the text without its port, which
/// is tried only where the whole is no address.
pub open spec fn may_try<A, P: Fn(&String) -> Option<A>>(
    parse: P,
    address: Seq<char>,
    without_port: Option<Seq<char>>,
    whole: Option<A>,
    rest: Option<A>,
) -> bool {
    &&& may_parse(parse, address, whole)
    &&& match without_port {
        Some(host) => whole is None ==> may_parse(parse, host, rest),
        None => rest is None,
    }
}

fn read_address<A, P: Fn(&String) -> Option<A>, Q: Fn(&String) -> Option<A>>(
    parse: &P,
    parse_ipv6: &Q,
    address: AddressText,
) -> (r: Result<A, ClientIpError>)
    requires
        forall|text: &String| call_requires(*parse, (text,)),
        forall|text: &String| call_requires(*parse_ipv6, (text,)),
    ensures
        may_read(*parse, *parse_ipv6, address@, r),
{
    match address {
        AddressText::Ipv6(host) => {
            let found = parse_ipv6(&host);
            assert(may_parse(*parse_ipv6, host@, found));
            assert(may_try(*parse_ipv6, host@, None, found, None));
            settle(found, None)
        },
        AddressText::Plain { address, without_port } => {
            let whole = parse(&address);
            assert(may_parse(*parse, address@, whole));
            let ghost host = optional_text(without_port);
            match whole {
                Some(found) => {
                    assert(may_try(*parse, address@, host, whole, None));
                    Ok(found)
                },
                None => match without_port {
                    Some(host) => {
                        let rest = parse(&host);
                        assert(may_parse(*parse, host@, rest));
                        assert(may_try(*parse, address@, Some(host@), None, rest));
                        settle(None, rest)
                    },
                    None => {
                        assert(may_try(*parse, address@, None, None::<A>, None));
                        settle(None, None)
                    },
                },
            }
        },
    }
}

/// Whether reading what a header says may give `out`.
pub open spec fn may_find<A, P: Fn(&String) -> Option<A>, Q: Fn(&String) -> Option<A>>(
    parse: P,
    parse_ipv6: Q,
    said: Result<Option<AddressView>, ClientIpError>,
    out: Result<Option<A>, ClientIpError>,
) -> bool {
    match said {
        Err(error) => out == Err::<Option<A>, ClientIpError>(error),
        Ok(None) => out == Ok::<Option<A>, ClientIpError>(None),
        Ok(Some(address)) => match out {
            Ok(Some(found)) => may_read(parse, parse_ipv6, address, Ok(found)),
            Ok(None) => false,
            Err(error) => may_read(parse, parse_ipv6, address, Err(error)),
        },
    }
}

fn find_address<A, P: Fn(&String) -> Option<A>, Q: Fn(&String) -> Option<A>>(
    parse: &P,
    parse_ipv6: &Q,
    said: Result<Option<AddressText>, ClientIpError>,
    Ghost(expected): Ghost<Result<Option<AddressView>, ClientIpError>>,
) -> (r: Result<Option<A>, ClientIpError>)
    requires
        forall|text: &String| call_requires(*parse, (text,)),
        forall|text: &String| call_requires(*parse_ipv6, (text,)),
        says(said, expected),
    ensures
        may_find(*parse, *parse_ipv6, expected, r),
{
    match said {
        Ok(Some(address)) => match read_address(parse, parse_ipv6, address) {
            Ok(found) => Ok(Some(found)),
            Err(error) => Err(error),
        },
        Ok(None) => Ok(None),
        Err(error) => Err(error),
    }
}

/// The address of the client.
#[derive(Debug, Clone, Copy)]
pub struct ClientIp<A>(pub A);

/// Whether the headers and the peer address may come to `r`, where reading `Forwarded` gave `first`
/// and reading `X-Forwarded-For` gave `second`. The second header is read only where the first names
/// no address.
pub open spec fn may_extract<A, P: Fn(&String) -> Option<A>, Q: Fn(&String) -> Option<A>>(
    headers: (Option<Seq<u8>>, Option<Seq<u8>>),
    peer: Option<A>,
    parse: P,
    parse_ipv6: Q,
    first: Option<Result<Option<A>, ClientIpError>>,
    second: Option<Result<Option<A>, ClientIpError>>,
    r: Result<A, ClientIpError>,
) -> bool {
    let undecided = first is None || first == Some(Ok::<Option<A>, ClientIpError>(None));
    &&& match headers.0 {
        Some(header) => first matches Some(out) && may_find(
            parse,
            parse_ipv6,
            forwarded(header),
            out,
        ),
        None => first is None,
    }
    &&& undecided ==> match headers.1 {
        Some(header) => second matches Some(out) && may_find(
            parse,
            parse_ipv6,
            x_forwarded_for(header),
            out,
        ),
        None => second is None,
    }
    &&& r == client_address(first, second, peer)
}

impl<A> ClientIp<A> {
    /// Extract the address of the client from the `Forwarded` and `X-Forwarded-For` headers of a
    /// request and the address of its peer, given parsers of addresses and of IPv6 addresses.
    pub fn extract<P: Fn(&String) -> Option<A>, Q: Fn(&String) -> Option<A>>(
        forwarded_header: Option<&Vec<u8>>,
        x_forwarded_for_header: Option<&Vec<u8>>,
        peer: Option<A>,
        parse: P,
        parse_ipv6: Q,
    ) -> (r: Result<ClientIp<A>, ClientIpError>)
        requires
            forall|text: &String| call_requires(parse, (text,)),
            forall|text: &String| call_requires(parse_ipv6, (text,)),
        ensures
            exists|
                first: Option<Result<Option<A>, ClientIpError>>,
                second: Option<Result<Option<A>, ClientIpError>>,
                address: Result<A, ClientIpError>,
            | #[trigger]
                may_extract(
                    (header_bytes(forwarded_header), header_bytes(x_forwarded_for_header)),
                    peer,
                    parse,
                    parse_ipv6,
                    first,
                    second,
                    address,
                ) && match r {
                    Ok(client) => address == Ok::<A, ClientIpError>(client.0),
                    Err(error) => address == Err::<A, ClientIpError>(error),
                },
    {
        let ghost headers = (header_bytes(forwarded_header), header_bytes(x_forwarded_for_header));
        let first = match forwarded_header {
            Some(header) => {
                let said = parse_forwarded(header);
                Some(find_address(&parse, &parse_ipv6, said, Ghost(forwarded(header@))))
            },
            None => None,
        };
        let decided = match &first {
            Some(Ok(None)) => false,
            Some(_) => true,
            None => false,
        };
        let second = match x_forwarded_for_header {
            Some(header) => {
                if decided {
                    None
                } else {
                    let said = parse_x_forwarded_for(header);
                    Some(find_address(&parse, &parse_ipv6, said, Ghost(x_forwarded_for(header@))))
                }
            },
            None => None,
        };
        let ghost found = (first, second);
        let address = select_client_ip(first, second, peer);
        assert(may_extract(headers, peer, parse, parse_ipv6, found.0, found.1, address));
        match address {
            Ok(address) => Ok(ClientIp(address)),
            Err(error) => Err(error),
        }
    }
}

/// The bytes of a header, if there is one.
pub open spec fn header_bytes(header: Option<&Vec<u8>>) -> Option<Seq<u8>> {
    match header {
        Some(bytes) => Some(bytes@),
        None => None,
    }
}

/// Whether bytes are blanks alone.
pub open spec fn is_blanks(s: Seq<u8>) -> bool {
    forall|i: int| 0 <= i < s.len() ==> is_blank(#[trigger] s[i])
}

/// Whether bytes have no blank at either end.
pub open spec fn is_solid(s: Seq<u8>) -> bool {
    s.len() > 0 ==> s[0] != 0x20 && s[0] != 0x09 && s.last() != 0x20 && s.last() != 0x09
}

proof fn lemma_first_solid(lead: Seq<u8>, rest: Seq<u8>, from: int)
    requires
        is_blanks(lead),
        rest.len() > 0 ==> !is_blank(rest[0]),
        0 <= from <= lead.len(),
    ensures
        first_solid(lead + rest, from) == lead.len(),
    decreases lead.len() - from,
{
    if from < lead.len() {
        assert((lead + rest)[from] == lead[from]);
        lemma_first_solid(lead, rest, from + 1);
    } else if rest.len() > 0 {
        assert((lead + rest)[from] == rest[0]);
    }
}

proof fn lemma_solid_end(s: Seq<u8>, tail: Seq<u8>, to: int)
    requires
        is_blanks(tail),
        s.len() > 0 ==> !is_blank(s.last()),
        s.len() <= to <= s.len() + tail.len(),
    ensures
        solid_end(s + tail, to) == s.len(),
    decreases to,
{
    if to > s.len() {
        assert((s + tail)[to - 1] == tail[to - 1 - s.len()]);
        lemma_solid_end(s, tail, to - 1);
    } else if to > 0 {
        assert((s + tail)[to - 1] == s.last());
    }
}

proof fn lemma_trimmed(lead: Seq<u8>, s: Seq<u8>, tail: Seq<u8>)
    requires
        is_blanks(lead),
        is_blanks(tail),
        is_solid(s),
    ensures
        trimmed(lead + s + tail) == s,
{
    let none = Seq::<u8>::empty();
    if s.len() == 0 {
        let all = lead + tail;
        assert(lead + s + tail =~= all + none);
        assert forall|i: int| 0 <= i < all.len() implies is_blank(#[trigger] all[i]) by {
            if i >= lead.len() {
                assert(is_blank(tail[i - lead.len()]));
            } else {
                assert(is_blank(lead[i]));
            }
        }
        lemma_first_solid(all, none, 0);
        assert((all + none).subrange(all.len() as int, all.len() as int) =~= none);
    } else {
        let rest = s + tail;
        assert(lead + s + tail =~= lead + rest);
        assert(rest[0] == s[0]);
        lemma_first_solid(lead, rest, 0);
        assert((lead + rest).subrange(lead.len() as int, (lead + rest).len() as int) =~= rest);
        lemma_solid_end(s, tail, rest.len() as int);
        assert(rest.subrange(0, s.len() as int) =~= s);
    }
}

proof fn lemma_found_in(head: Seq<u8>, byte: u8, rest: Seq<u8>, from: int)
    requires
        !head.contains(byte),
        rest.len() > 0 ==> rest[0] == byte,
        0 <= from <= head.len(),
    ensures
        find_in(head + rest, byte, from) == head.len(),
    decreases head.len() - from,
{
    if from < head.len() {
        assert((head + rest)[from] == head[from]);
        assert(head.contains(head[from]));
        lemma_found_in(head, byte, rest, from + 1);
    } else if rest.len() > 0 {
        assert((head + rest)[from] == rest[0]);
    }
}

proof fn lemma_element_end(head: Seq<u8>, rest: Seq<u8>, from: int)
    requires
        !head.contains(0x3b),
        !head.contains(0x2c),
        rest.len() > 0 ==> rest[0] == 0x3b || rest[0] == 0x2c,
        0 <= from <= head.len(),
    ensures
        element_end(head + rest, from) == head.len(),
    decreases head.len() - from,
{
    if from < head.len() {
        assert((head + rest)[from] == head[from]);
        assert(head.contains(head[from]));
        lemma_element_end(head, rest, from + 1);
    } else if rest.len() > 0 {
        assert((head + rest)[from] == rest[0]);
    }
}

proof fn lemma_element_end_shift(head: Seq<u8>, rest: Seq<u8>, from: int)
    requires
        0 <= from <= rest.len(),
    ensures
        element_end(head + rest, head.len() + from) == head.len() + element_end(rest, from),
        from <= element_end(rest, from) <= rest.len(),
    decreases rest.len() - from,
{
    if from < rest.len() {
        assert((head + rest)[head.len() + from] == rest[from]);
        if !is_separator(rest[from]) {
            lemma_element_end_shift(head, rest, from + 1);
        }
    }
}

proof fn lemma_forwarded_shift(head: Seq<u8>, rest: Seq<u8>, from: int)
    requires
        0 <= from <= rest.len(),
    ensures
        forwarded_for(head + rest, head.len() + from) == forwarded_for(rest, from),
    decreases rest.len() - from,
{
    let whole = head + rest;
    lemma_element_end_shift(head, rest, from);
    let end = element_end(rest, from);
    assert(whole.subrange(head.len() + from, head.len() + end) =~= rest.subrange(from, end));
    if end < rest.len() {
        lemma_forwarded_shift(head, rest, end + 1);
    }
}

/// The client is the first address of an `X-Forwarded-For` header, without the blanks around it and
/// whatever follows a comma.
pub proof fn the_first_address_is_the_client(
    lead: Seq<u8>,
    first: Seq<u8>,
    tail: Seq<u8>,
    others: Seq<u8>,
)
    requires
        is_blanks(lead),
        is_blanks(tail),
        is_solid(first),
        !first.contains(0x2c),
    ensures
        ({
            let expected: Result<Option<AddressView>, ClientIpError> = if valid_utf8(first) {
                Ok(
                    Some(
                        AddressView::Plain { address: decode_utf8(first), without_port: None },
                    ),
                )
            } else {
                Err(ClientIpError::InvalidUtf8)
            };
            &&& x_forwarded_for(lead + first + tail) == expected
            &&& x_forwarded_for(lead + first + tail + seq![0x2cu8] + others) == expected
        }),
{
    let whole = lead + first + tail;
    assert(!whole.contains(0x2c)) by {
        if whole.contains(0x2c) {
            let i = choose|i: int| 0 <= i < whole.len() && whole[i] == 0x2c;
            if i < lead.len() {
                assert(is_blank(lead[i]));
            } else if i < lead.len() + first.len() {
                assert(first[i - lead.len()] == 0x2c);
            } else {
                assert(is_blank(tail[i - lead.len() - first.len()]));
            }
        }
    }
    let none = Seq::<u8>::empty();
    let rest = seq![0x2cu8] + others;
    lemma_found_in(whole, 0x2c, none, 0);
    assert(whole + none =~= whole);
    assert(whole.subrange(0, whole.len() as int) =~= whole);
    lemma_found_in(whole, 0x2c, rest, 0);
    assert(whole + seq![0x2cu8] + others =~= whole + rest);
    assert((whole + rest).subrange(0, whole.len() as int) =~= whole);
    lemma_trimmed(lead, first, tail);
}

/// Elements of a `Forwarded` header that are no `for` are passed over, if they are pairs; the first
/// that is no pair makes the header invalid.
pub proof fn other_elements_are_passed_over(
    name: Seq<u8>,
    value: Seq<u8>,
    separator: u8,
    rest: Seq<u8>,
)
    requires
        separator == 0x3b || separator == 0x2c,
        !name.contains(0x3b),
        !name.contains(0x2c),
        !name.contains(0x3d),
        !value.contains(0x3b),
        !value.contains(0x2c),
        is_solid(name),
        !(name.len() == 3 && (name[0] == 0x66 || name[0] == 0x46) && (name[1] == 0x6f || name[1]
            == 0x4f) && (name[2] == 0x72 || name[2] == 0x52)),
    ensures
        forwarded(name + seq![0x3du8] + value + seq![separator] + rest) == forwarded(rest),
        forwarded(name + seq![0x3du8] + value) == Ok::<Option<AddressView>, ClientIpError>(None),
        forwarded(name + seq![separator] + rest) == Err::<Option<AddressView>, ClientIpError>(
            ClientIpError::InvalidForwardedHeader,
        ),
        forwarded(name) == Err::<Option<AddressView>, ClientIpError>(
            ClientIpError::InvalidForwardedHeader,
        ),
{
    let none = Seq::<u8>::empty();
    let pair = name + seq![0x3du8] + value;
    lemma_pair(name, value);
    lemma_trimmed(none, name, none);
    assert(none + name + none =~= name);
    let tail = seq![separator] + rest;
    assert(pair + seq![separator] + rest =~= pair + tail);
    lemma_element_end(pair, tail, 0);
    assert((pair + tail).subrange(0, pair.len() as int) =~= pair);
    lemma_forwarded_shift(pair + seq![separator], rest, 0);
    assert(pair + seq![separator] + rest =~= pair + tail);
    lemma_element_end(pair, none, 0);
    assert(pair + none =~= pair);
    assert(pair.subrange(0, pair.len() as int) =~= pair);
    assert(name + seq![separator] + rest =~= name + tail);
    lemma_element_end(name, tail, 0);
    assert((name + tail).subrange(0, name.len() as int) =~= name);
    lemma_element_end(name, none, 0);
    assert(name + none =~= name);
    assert(name.subrange(0, name.len() as int) =~= name);
    lemma_found_in(name, 0x3d, none, 0);
}

proof fn lemma_pair(name: Seq<u8>, value: Seq<u8>)
    requires
        !name.contains(0x3d),
    ensures
        find_in(name + seq![0x3du8] + value, 0x3d, 0) == name.len(),
        (name + seq![0x3du8] + value).subrange(0, name.len() as int) == name,
        (name + seq![0x3du8] + value).subrange(
            name.len() as int + 1,
            (name + seq![0x3du8] + value).len() as int,
        ) == value,
        !name.contains(0x3b) && !value.contains(0x3b) ==> !(name + seq![0x3du8] + value).contains(
            0x3b,
        ),
        !name.contains(0x2c) && !value.contains(0x2c) ==> !(name + seq![0x3du8] + value).contains(
            0x2c,
        ),
{
    let pair = name + seq![0x3du8] + value;
    let rest = seq![0x3du8] + value;
    lemma_found_in(name, 0x3d, rest, 0);
    assert(pair =~= name + rest);
    assert(pair.subrange(0, name.len() as int) =~= name);
    assert(pair.subrange(name.len() as int + 1, pair.len() as int) =~= value);
    assert forall|byte: u8|
        byte != 0x3d && !name.contains(byte) && !value.contains(byte) implies !(
    #[trigger] pair.contains(byte)) by {
        if pair.contains(byte) {
            let i = choose|i: int| 0 <= i < pair.len() && pair[i] == byte;
            if i < name.len() {
                assert(name[i] == byte);
            } else if i > name.len() {
                assert(value[i - name.len() - 1] == byte);
            }
        }
    }
}

/// The client is the value of the first `for` element of a `Forwarded` header: the name in any case,
/// blanks around name and value, and whatever follows.
pub proof fn the_for_element_names_the_client(
    lead: Seq<u8>,
    name: Seq<u8>,
    middle: Seq<u8>,
    value: Seq<u8>,
    tail: Seq<u8>,
    rest: Seq<u8>,
)
    requires
        is_blanks(lead),
        is_blanks(middle),
        is_blanks(tail),
        name.len() == 3,
        name[0] == 0x66 || name[0] == 0x46,
        name[1] == 0x6f || name[1] == 0x4f,
        name[2] == 0x72 || name[2] == 0x52,
        !value.contains(0x3b),
        !value.contains(0x2c),
        is_solid(value),
        value.len() == 0 || value[0] != 0x22,
        rest.len() > 0 ==> rest[0] == 0x3b || rest[0] == 0x2c,
    ensures
        ({
            let header = lead + name + middle + seq![0x3du8] + (middle + value + tail) + rest;
            &&& !valid_utf8(value) ==> forwarded(header) == Err::<
                Option<AddressView>,
                ClientIpError,
            >(ClientIpError::InvalidUtf8)
            &&& valid_utf8(value) ==> forwarded(header) == match address_of(decode_utf8(value)) {
                Ok(address) => Ok::<Option<AddressView>, ClientIpError>(Some(address)),
                Err(error) => Err(error),
            }
        }),
{
    let key = lead + name + middle;
    let said = middle + value + tail;
    assert forall|byte: u8| byte == 0x3b || byte == 0x2c || byte == 0x3d implies !(
    #[trigger] key.contains(byte)) by {
        if key.contains(byte) {
            let i = choose|i: int| 0 <= i < key.len() && key[i] == byte;
            if i < lead.len() {
                assert(is_blank(lead[i]));
            } else if i < lead.len() + name.len() {
                assert(name[i - lead.len()] == byte);
            } else {
                assert(is_blank(middle[i - lead.len() - name.len()]));
            }
        }
    }
    assert forall|byte: u8| byte == 0x3b || byte == 0x2c implies !(#[trigger] said.contains(
        byte,
    )) by {
        if said.contains(byte) {
            let i = choose|i: int| 0 <= i < said.len() && said[i] == byte;
            if i < middle.len() {
                assert(is_blank(middle[i]));
            } else if i < middle.len() + value.len() {
                assert(value[i - middle.len()] == byte);
            } else {
                assert(is_blank(tail[i - middle.len() - value.len()]));
            }
        }
    }
    assert(!key.contains(0x3b) && !key.contains(0x2c) && !key.contains(0x3d));
    assert(!said.contains(0x3b) && !said.contains(0x2c));
    let pair = key + seq![0x3du8] + said;
    lemma_pair(key, said);
    lemma_element_end(pair, rest, 0);
    assert((pair + rest).subrange(0, pair.len() as int) =~= pair);
    lemma_trimmed(lead, name, middle);
    lemma_trimmed(middle, value, tail);
    let none = Seq::<u8>::empty();
    lemma_trimmed(none, value, none);
    assert(none + value + none =~= value);
}

/// A quoted value says what the value says; a quote that is not closed makes it invalid.
pub proof fn quotes_make_no_difference(value: Seq<u8>)
    requires
        is_solid(value),
        value.len() > 0,
        value[0] != 0x22,
        value.last() != 0x22,
    ensures
        for_value(seq![0x22u8] + value + seq![0x22u8]) == for_value(value),
        for_value(seq![0x22u8] + value) == Err::<AddressView, ClientIpError>(
            ClientIpError::InvalidForwardedHeader,
        ),
        for_value(seq![0x22u8]) == Err::<AddressView, ClientIpError>(
            ClientIpError::InvalidForwardedHeader,
        ),
{
    let none = Seq::<u8>::empty();
    let closed = seq![0x22u8] + value + seq![0x22u8];
    let open = seq![0x22u8] + value;
    lemma_trimmed(none, value, none);
    lemma_trimmed(none, closed, none);
    lemma_trimmed(none, open, none);
    lemma_trimmed(none, seq![0x22u8], none);
    assert(none + value + none =~= value);
    assert(none + closed + none =~= closed);
    assert(none + open + none =~= open);
    assert(none + seq![0x22u8] + none =~= seq![0x22u8]);
    assert(closed.subrange(1, closed.len() - 1) =~= value);
    assert(open.last() == value.last());
}

/// An IPv6 address stands in brackets, with or without a port behind them; brackets that are not
/// closed, or that something else follows, are invalid.
pub proof fn brackets_hold_an_ipv6_address(host: Seq<char>, port: Seq<char>, other: Seq<char>)
    requires
        !host.contains(']'),
        port.len() > 0,
        forall|i: int| 0 <= i < port.len() ==> '0' <= #[trigger] port[i] <= '9',
        other.len() > 0,
        other[0] != ':',
    ensures
        address_of(seq!['['] + host + seq![']']) == Ok::<AddressView, ClientIpError>(
            AddressView::Ipv6(host),
        ),
        address_of(seq!['['] + host + seq![']', ':'] + port) == Ok::<AddressView, ClientIpError>(
            AddressView::Ipv6(host),
        ),
        address_of(seq!['['] + host) == Err::<AddressView, ClientIpError>(
            ClientIpError::InvalidForwardedHeader,
        ),
        address_of(seq!['['] + host + seq![']'] + other) == Err::<AddressView, ClientIpError>(
            ClientIpError::InvalidForwardedHeader,
        ),
        address_of(seq!['['] + host + seq![']', ':']) == Err::<AddressView, ClientIpError>(
            ClientIpError::InvalidForwardedHeader,
        ),
        address_of(seq!['['] + host + seq![']', ':'] + port + seq!['x']) == Err::<
            AddressView,
            ClientIpError,
        >(ClientIpError::InvalidForwardedHeader),
{
    lemma_bracketed(host, Seq::empty());
    lemma_bracketed(host, seq![':'] + port);
    lemma_bracketed(host, other);
    lemma_bracketed(host, seq![':']);
    let named = seq![':'] + port + seq!['x'];
    lemma_bracketed(host, named);
    assert((seq![':'] + port).subrange(1, port.len() as int + 1) =~= port);
    let text = seq!['['] + host + seq![']'];
    assert(text + Seq::<char>::empty() =~= text);
    assert(text + (seq![':'] + port) =~= seq!['['] + host + seq![']', ':'] + port);
    assert(text + seq![':'] =~= seq!['['] + host + seq![']', ':']);
    assert(text + named =~= seq!['['] + host + seq![']', ':'] + port + seq!['x']);
    assert(named.subrange(1, named.len() as int)[port.len() as int] == 'x');
    let open = seq!['['] + host;
    assert(!open.contains(']')) by {
        if open.contains(']') {
            let i = choose|i: int| 0 <= i < open.len() && open[i] == ']';
            assert(host[i - 1] == ']');
        }
    }
    lemma_find_bounds(open, ']', 0);
    if find(open, ']', 0) < open.len() {
        assert(open.contains(open[find(open, ']', 0)]));
    }
}

proof fn lemma_bracketed(host: Seq<char>, rest: Seq<char>)
    requires
        !host.contains(']'),
    ensures
        ({
            let text = seq!['['] + host + seq![']'] + rest;
            &&& text[0] == '['
            &&& find(text, ']', 0) == host.len() + 1
            &&& text.len() == host.len() + 2 + rest.len()
            &&& text.subrange(host.len() as int + 2, text.len() as int) == rest
            &&& text.subrange(1, host.len() as int + 1) == host
        }),
{
    let text = seq!['['] + host + seq![']'] + rest;
    lemma_find_bounds(text, ']', 0);
    let end = find(text, ']', 0);
    if end < host.len() + 1 {
        if end > 0 {
            assert(host[end - 1] == ']');
            assert(host.contains(host[end - 1]));
        }
    }
    assert(text[host.len() as int + 1] == ']');
    assert(text.subrange(host.len() as int + 2, text.len() as int) =~= rest);
    assert(text.subrange(1, host.len() as int + 1) =~= host);
}

/// Without brackets the whole text may be the address; what stands before a port may be one too.
pub proof fn a_port_may_follow_an_address(host: Seq<char>, port: Seq<char>)
    requires
        host.len() == 0 || host[0] != '[',
        port.len() > 0,
        forall|i: int| 0 <= i < port.len() ==> '0' <= #[trigger] port[i] <= '9',
    ensures
        address_of(host + seq![':'] + port) == Ok::<AddressView, ClientIpError>(
            AddressView::Plain { address: host + seq![':'] + port, without_port: Some(host) },
        ),
        !host.contains(':') ==> address_of(host) == Ok::<AddressView, ClientIpError>(
            AddressView::Plain { address: host, without_port: None },
        ),
        address_of(host + seq![':']) == Ok::<AddressView, ClientIpError>(
            AddressView::Plain { address: host + seq![':'], without_port: None },
        ),
{
    let text = host + seq![':'] + port;
    lemma_rfind_bounds(text, ':', text.len() as int);
    let colon = rfind(text, ':', text.len() as int);
    assert(text[host.len() as int] == ':');
    if colon > host.len() {
        assert(port[colon - host.len() - 1] == ':');
    }
    assert(colon == host.len());
    assert(text.subrange(colon + 1, text.len() as int) =~= port);
    assert(text.subrange(0, colon) =~= host);
    lemma_rfind_bounds(host, ':', host.len() as int);
    if rfind(host, ':', host.len() as int) >= 0 {
        assert(host.contains(host[rfind(host, ':', host.len() as int)]));
    }
    let bare = host + seq![':'];
    assert(bare[bare.len() - 1] == ':');
    assert(rfind(bare, ':', bare.len() as int) == host.len());
}

/// The headers are asked in turn: `Forwarded` first, then `X-Forwarded-For`, then the peer. The first
/// that says something decides, an error too, whatever the later ones say.
pub proof fn the_first_that_knows_the_client_decides<A>(
    address: A,
    error: ClientIpError,
    silent: Option<Result<Option<A>, ClientIpError>>,
    other: Option<Result<Option<A>, ClientIpError>>,
    peer: Option<A>,
)
    requires
        silent is None || (silent->0 is Ok && silent->0->Ok_0 is None),
    ensures
        client_address(Some(Ok(Some(address))), other, peer) == Ok::<A, ClientIpError>(address),
        client_address::<A>(Some(Err(error)), other, peer) == Err::<A, ClientIpError>(error),
        client_address(silent, Some(Ok(Some(address))), peer) == Ok::<A, ClientIpError>(address),
        client_address(silent, Some(Err(error)), peer) == Err::<A, ClientIpError>(error),
        client_address(silent, silent, Some(address)) == Ok::<A, ClientIpError>(address),
        client_address(silent, silent, None) == Err::<A, ClientIpError>(
            ClientIpError::MissingRemoteAddr,
        ),
        settled(Some(address), peer) == Ok::<A, ClientIpError>(address),
        settled(None, Some(address)) == Ok::<A, ClientIpError>(address),
        settled(None::<A>, None) == Err::<A, ClientIpError>(ClientIpError::AddrParseError),
{
}

/// An address that a header names is found if a parser reads it: one in brackets by the parser of
/// IPv6 addresses, another as a whole or else without its port. A header that cannot be read, or
/// whose address cannot, is an error.
pub proof fn a_named_address_is_found<A, P: Fn(&String) -> Option<A>, Q: Fn(&String) -> Option<A>>(
    parse: P,
    parse_ipv6: Q,
    said: Result<Option<AddressView>, ClientIpError>,
    out: Result<Option<A>, ClientIpError>,
)
    requires
        may_find(parse, parse_ipv6, said, out),
    ensures
        said is Err ==> out is Err && out->Err_0 == said->Err_0,
        said is Ok && said->Ok_0 is None <==> out is Ok && out->Ok_0 is None,
        said is Ok && out is Err ==> out->Err_0 is AddrParseError,
        said matches Ok(Some(AddressView::Ipv6(host))) ==> (out matches Ok(Some(found))
            ==> may_parse(parse_ipv6, host, Some(found))),
        said matches Ok(Some(AddressView::Ipv6(host))) ==> (out is Err ==> may_parse(
            parse_ipv6,
            host,
            None::<A>,
        )),
        said matches Ok(Some(AddressView::Plain { address, without_port })) ==> (out matches Ok(
            Some(found),
        ) ==> {
            ||| may_parse(parse, address, Some(found))
            ||| may_parse(parse, address, None::<A>) && without_port is Some && may_parse(
                parse,
                without_port->0,
                Some(found),
            )
        }),
        said matches Ok(Some(AddressView::Plain { address, without_port })) ==> (out is Err ==> {
            &&& may_parse(parse, address, None::<A>)
            &&& without_port is Some ==> may_parse(parse, without_port->0, None::<A>)
        }),
{
}

/// The address of the client comes from the first of the headers that names one, and otherwise it is
/// that of the peer.
pub proof fn a_client_is_found_by_its_headers<
    A,
    P: Fn(&String) -> Option<A>,
    Q: Fn(&String) -> Option<A>,
>(
    first_header: Option<Seq<u8>>,
    second_header: Option<Seq<u8>>,
    peer: Option<A>,
    parse: P,
    parse_ipv6: Q,
    first: Option<Result<Option<A>, ClientIpError>>,
    second: Option<Result<Option<A>, ClientIpError>>,
    r: Result<A, ClientIpError>,
)
    requires
        may_extract((first_header, second_header), peer, parse, parse_ipv6, first, second, r),
    ensures
        first_header is None && second_header is None ==> r == match peer {
            Some(address) => Ok::<A, ClientIpError>(address),
            None => Err(ClientIpError::MissingRemoteAddr),
        },
        first_header matches Some(header) ==> (forwarded(header) matches Err(error) ==> r == Err::<
            A,
            ClientIpError,
        >(error)),
        first_header matches Some(header) ==> (forwarded(header) matches Ok(Some(address))
            ==> may_read(parse, parse_ipv6, address, r)),
        first_header is None || forwarded(first_header->0) == Ok::<
            Option<AddressView>,
            ClientIpError,
        >(None) ==> (second_header matches Some(header) ==> (x_forwarded_for(header) matches Ok(
            Some(address),
        ) ==> may_read(parse, parse_ipv6, address, r))),
        first_header is None || forwarded(first_header->0) == Ok::<
            Option<AddressView>,
            ClientIpError,
        >(None) ==> (second_header matches Some(header) ==> (x_forwarded_for(header) matches Err(
            error,
        ) ==> r == Err::<A, ClientIpError>(error))),
{
}

} // verus!
