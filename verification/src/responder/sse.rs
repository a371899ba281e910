//! Server-sent events.

use std::marker::PhantomData;

use vstd::prelude::*;
#[allow(unused_imports)]
use vstd::string::StringExecFns;
#[allow(unused_imports)]
use vstd::utf8::{decode_utf8, encode_scalar, encode_utf8, encode_utf8_decode_utf8};

use crate::middleware::headers::{push_insert, HeaderUpdate};
#[allow(unused_imports)]
use crate::middleware::headers::{updates, UpdateView};
#[allow(unused_imports)]
use crate::text::{
    a_numeral_stands_for_its_number, decimal, find, is_digit, lemma_encode_append, lemma_encode_char, lemma_find_bounds,
    lemma_split_at_separator, split,
};
use crate::text::{chars_of, copy_text, slice_text};

verus! {

/// Whether a character ends a line.
pub open spec fn is_break(c: char) -> bool {
    c == '\r' || c == '\n'
}

/// A text without the characters that end a line.
pub open spec fn without_breaks(s: Seq<char>) -> Seq<char>
    decreases s.len(),
{
    if s.len() == 0 {
        s
    } else {
        let before = without_breaks(s.drop_last());
        if is_break(s.last()) {
            before
        } else {
            before.push(s.last())
        }
    }
}

/// The index of the first character at or after `from` that ends a line, or the length.
pub open spec fn line_end(s: Seq<char>, from: int) -> int
    decreases s.len() - from,
{
    if from < 0 || from >= s.len() {
        s.len() as int
    } else if is_break(s[from]) {
        from
    } else {
        line_end(s, from + 1)
    }
}

/// Where the line after the one that ends at `end` starts: a carriage return and the line feed
/// after it end one line together.
pub open spec fn next_line(s: Seq<char>, end: int) -> int {
    if s[end] == '\r' && end + 1 < s.len() && s[end + 1] == '\n' {
        end + 2
    } else {
        end + 1
    }
}

/// The lines of a text from `from` on, ended by `LF`, `CR` or `CRLF`; never empty.
pub open spec fn lines_from(s: Seq<char>, from: int) -> Seq<Seq<char>>
    decreases s.len() - from,
{
    let end = line_end(s, from);
    if from < 0 || from > end || end >= s.len() {
        seq![s.subrange(from, s.len() as int)]
    } else {
        seq![s.subrange(from, end)] + lines_from(s, next_line(s, end))
    }
}

/// The lines of a text.
pub open spec fn lines(s: Seq<char>) -> Seq<Seq<char>> {
    lines_from(s, 0)
}

/// What stands between the colon and a value: clients strip one space there, so a value that
/// starts with a space gets another one.
pub open spec fn guard(value: Seq<char>) -> Seq<char> {
    if value.len() > 0 && value[0] == ' ' {
        seq![' ']
    } else {
        Seq::empty()
    }
}

/// A field as it stands on the wire, without the end of its line.
pub open spec fn field(name: Seq<char>, value: Seq<char>) -> Seq<char> {
    name + seq![':'] + guard(value) + without_breaks(value)
}

/// One line per line of a value.
pub open spec fn field_lines(name: Seq<char>, values: Seq<Seq<char>>) -> Seq<char>
    decreases values.len(),
{
    if values.len() == 0 {
        Seq::empty()
    } else {
        field(name, values[0]) + seq!['\n'] + field_lines(name, values.drop_first())
    }
}

/// A value that may span lines, as it stands on the wire.
pub open spec fn multiline_field(name: Seq<char>, value: Seq<char>) -> Seq<char> {
    field_lines(name, lines(value))
}

/// `itoa::Buffer::format` gives the decimal numeral of a number.
#[verifier::external_body]
fn format_integer(n: u128) -> (r: String)
    ensures
        r@ == decimal(n as nat),
{
    itoa::Buffer::new().format(n).to_owned()
}

proof fn lemma_line_end_bounds(s: Seq<char>, from: int)
    requires
        0 <= from <= s.len(),
    ensures
        from <= line_end(s, from) <= s.len(),
        line_end(s, from) < s.len() ==> is_break(s[line_end(s, from)]),
        forall|i: int| from <= i < line_end(s, from) ==> !is_break(s[i]),
    decreases s.len() - from,
{
    if from < s.len() && !is_break(s[from]) {
        lemma_line_end_bounds(s, from + 1);
    }
}

fn find_line_end(s: &Vec<char>, from: usize) -> (r: usize)
    requires
        from <= s.len(),
    ensures
        r == line_end(s@, from as int),
        from <= r <= s.len(),
{
    let mut i: usize = from;
    while i < s.len() && s[i] != '\r' && s[i] != '\n'
        invariant
            from <= i <= s.len(),
            line_end(s@, from as int) == line_end(s@, i as int),
        decreases s.len() - i,
    {
        i = i + 1;
    }
    i
}

/// How an event starts.
pub enum Origin {
    /// With a payload.
    Data(Seq<char>),
    /// With a payload that is a JSON text.
    Json(Seq<char>),
    /// As a comment.
    Comment(Seq<char>),
    /// As a reconnection time, in milliseconds.
    Retry(nat),
}

/// What is set on an event.
pub enum Step {
    /// Its id.
    Id(Seq<char>),
    /// Its name.
    Name(Seq<char>),
}

/// What an event can get no more.
pub struct Marks {
    /// Whether it can get no id.
    pub id: bool,
    /// Whether it can get no name.
    pub name: bool,
}

/// The fields an event has from the start, as they stand on the wire.
pub open spec fn text_of(origin: Origin) -> Seq<char> {
    match origin {
        Origin::Data(data) => multiline_field("data"@, data),
        Origin::Json(json) => "data:"@ + json + "\n"@,
        Origin::Comment(message) => multiline_field(""@, message),
        Origin::Retry(milliseconds) => field("retry"@, decimal(milliseconds)) + seq!['\n'],
    }
}

/// The fields of an event once something is set on it.
pub open spec fn text_after(text: Seq<char>, step: Step) -> Seq<char> {
    match step {
        Step::Id(id) => text + field("id"@, id) + seq!['\n'],
        Step::Name(name) => text + field("event"@, name) + seq!['\n'],
    }
}

/// The fields of an event after some steps.
pub open spec fn text_after_all(origin: Origin, steps: Seq<Step>) -> Seq<char>
    decreases steps.len(),
{
    if steps.len() == 0 {
        text_of(origin)
    } else {
        text_after(text_after_all(origin, steps.drop_last()), steps.last())
    }
}

/// The bytes that an event with these fields goes out as.
pub open spec fn finalized(text: Seq<char>) -> Seq<u8> {
    encode_utf8(text + seq!['\n'])
}

/// What an event can get no more from the start.
pub open spec fn marks_of(origin: Origin) -> Marks {
    match origin {
        Origin::Data(_) | Origin::Json(_) => Marks { id: false, name: false },
        Origin::Comment(_) | Origin::Retry(_) => Marks { id: true, name: true },
    }
}

/// What an event can get no more once something is set on it.
pub open spec fn marks_after(marks: Marks, step: Step) -> Marks {
    match step {
        Step::Id(_) => Marks { id: true, ..marks },
        Step::Name(_) => Marks { name: true, ..marks },
    }
}

/// What an event can get no more after some steps.
pub open spec fn marks_after_all(origin: Origin, steps: Seq<Step>) -> Marks
    decreases steps.len(),
{
    if steps.len() == 0 {
        marks_of(origin)
    } else {
        marks_after(marks_after_all(origin, steps.drop_last()), steps.last())
    }
}

/// Whether an event is a comment or a reconnection time.
pub open spec fn is_directive(origin: Origin) -> bool {
    origin is Comment || origin is Retry
}

/// Whether some step sets an id.
pub open spec fn sets_an_id(steps: Seq<Step>) -> bool {
    exists|i: int| 0 <= i < steps.len() && #[trigger] steps[i] is Id
}

/// Whether some step sets a name.
pub open spec fn sets_a_name(steps: Seq<Step>) -> bool {
    exists|i: int| 0 <= i < steps.len() && #[trigger] steps[i] is Name
}

/// An event can get no id exactly where it is a comment or a reconnection time or has one, and no
/// name exactly where it is one of those or has a name: neither stands in the other's way.
pub proof fn an_id_and_a_name_are_set_once(origin: Origin, steps: Seq<Step>)
    ensures
        marks_after_all(origin, steps).id <==> is_directive(origin) || sets_an_id(steps),
        marks_after_all(origin, steps).name <==> is_directive(origin) || sets_a_name(steps),
    decreases steps.len(),
{
    if steps.len() > 0 {
        let init = steps.drop_last();
        an_id_and_a_name_are_set_once(origin, init);
        assert forall|i: int| 0 <= i < init.len() implies init[i] == #[trigger] steps[i] by {}
        assert forall|i: int| 0 <= i < init.len() implies #[trigger] init[i] == steps[i] by {}
        assert(steps[steps.len() - 1] == steps.last());
    }
}

/// Whether two line feeds stand next to each other anywhere in a text.
pub open spec fn has_blank_line(s: Seq<char>) -> bool {
    exists|i: int| #![trigger s[i]] 1 <= i < s.len() && s[i - 1] == '\n' && s[i] == '\n'
}

/// Whether two line feeds stand next to each other before an index.
pub open spec fn has_blank_line_before(bytes: Seq<u8>, end: int) -> bool {
    exists|i: int|
        #![trigger bytes[i]]
        1 <= i < bytes.len() && i < end && bytes[i - 1] == 0x0a && bytes[i] == 0x0a
}

/// Whether bytes are one block of the stream: no carriage return, a blank line at the end and none
/// before.
pub open spec fn is_one_block(bytes: Seq<u8>) -> bool {
    &&& !bytes.contains(0x0d)
    &&& bytes.len() >= 2
    &&& bytes[bytes.len() - 2] == 0x0a
    &&& bytes[bytes.len() - 1] == 0x0a
    &&& !has_blank_line_before(bytes, bytes.len() - 1)
}

/// Whether a text holds a character that ends a line.
pub open spec fn has_breaks(s: Seq<char>) -> bool {
    exists|i: int| 0 <= i < s.len() && is_break(#[trigger] s[i])
}

/// Whether a text is made of lines that are not empty, each ended by a line feed.
spec fn is_lines(s: Seq<char>) -> bool {
    &&& !s.contains('\r')
    &&& s.len() > 0
    &&& s[0] != '\n'
    &&& s.last() == '\n'
    &&& !has_blank_line(s)
}

proof fn lemma_one_line(line: Seq<char>)
    requires
        line.len() > 0,
        !has_breaks(line),
    ensures
        is_lines(line + seq!['\n']),
{
    let s = line + seq!['\n'];
    assert forall|i: int| 0 <= i < line.len() implies !is_break(#[trigger] s[i]) by {
        assert(s[i] == line[i]);
    }
    assert(!is_break(s[0]));
    if has_blank_line(s) {
        let i = choose|i: int| #![trigger s[i]] 1 <= i < s.len() && s[i - 1] == '\n' && s[i] == '\n';
        assert(is_break(s[i - 1]));
    }
    if s.contains('\r') {
        let i = choose|i: int| 0 <= i < s.len() && s[i] == '\r';
        assert(is_break(s[i]));
    }
}

proof fn lemma_more_lines(head: Seq<char>, tail: Seq<char>)
    requires
        is_lines(head),
        is_lines(tail),
    ensures
        is_lines(head + tail),
{
    let s = head + tail;
    assert forall|i: int| 0 <= i < s.len() implies #[trigger] s[i] == if i < head.len() {
        head[i]
    } else {
        tail[i - head.len()]
    } by {}
    if has_blank_line(s) {
        let i = choose|i: int| #![trigger s[i]] 1 <= i < s.len() && s[i - 1] == '\n' && s[i] == '\n';
        if i < head.len() {
            assert(head[i - 1] == '\n' && head[i] == '\n');
        } else if i > head.len() {
            let k = i - head.len();
            assert(tail[k - 1] == s[i - 1] && tail[k] == '\n');
        }
    }
    if s.contains('\r') {
        let i = choose|i: int| 0 <= i < s.len() && s[i] == '\r';
        if i < head.len() {
            assert(head[i] == '\r');
        } else {
            assert(tail[i - head.len()] == '\r');
        }
    }
    assert(s[0] == head[0]);
    assert(s.last() == tail.last());
}

proof fn lemma_without_breaks(s: Seq<char>)
    ensures
        !has_breaks(without_breaks(s)),
    decreases s.len(),
{
    if s.len() > 0 {
        lemma_without_breaks(s.drop_last());
        let before = without_breaks(s.drop_last());
        let after = without_breaks(s);
        assert forall|i: int| 0 <= i < after.len() implies !is_break(#[trigger] after[i]) by {
            if i < before.len() {
                assert(after[i] == before[i]);
            }
        }
    }
}

proof fn lemma_field_is_a_line(name: Seq<char>, value: Seq<char>)
    requires
        !has_breaks(name),
    ensures
        is_lines(field(name, value) + seq!['\n']),
{
    let line = field(name, value);
    let rest = without_breaks(value);
    lemma_without_breaks(value);
    assert forall|i: int| 0 <= i < line.len() implies !is_break(#[trigger] line[i]) by {
        if i < name.len() {
            assert(line[i] == name[i]);
        } else if i > name.len() + guard(value).len() {
            assert(line[i] == rest[i - name.len() - 1 - guard(value).len()]);
        }
    }
    lemma_one_line(line);
}

proof fn lemma_fields_are_lines(name: Seq<char>, values: Seq<Seq<char>>)
    requires
        !has_breaks(name),
        values.len() > 0,
    ensures
        is_lines(field_lines(name, values)),
    decreases values.len(),
{
    let first = field(name, values[0]) + seq!['\n'];
    let rest = values.drop_first();
    lemma_field_is_a_line(name, values[0]);
    if rest.len() > 0 {
        lemma_fields_are_lines(name, rest);
        lemma_more_lines(first, field_lines(name, rest));
    } else {
        assert(field_lines(name, rest) =~= Seq::empty());
        assert(field_lines(name, values) =~= first);
    }
}

proof fn lemma_events_are_lines(origin: Origin, steps: Seq<Step>)
    requires
        origin matches Origin::Json(json) ==> !has_breaks(json),
    ensures
        is_lines(text_after_all(origin, steps)),
    decreases steps.len(),
{
    reveal_strlit("data");
    reveal_strlit("");
    reveal_strlit("retry");
    reveal_strlit("id");
    reveal_strlit("event");
    if steps.len() == 0 {
        match origin {
            Origin::Data(data) => lemma_fields_are_lines("data"@, lines(data)),
            Origin::Json(json) => {
                reveal_strlit("data:");
                reveal_strlit("\n");
                let line = "data:"@ + json;
                assert forall|i: int| 0 <= i < line.len() implies !is_break(#[trigger] line[i]) by {
                    if i >= 5 {
                        assert(line[i] == json[i - 5]);
                    }
                }
                lemma_one_line(line);
                assert(text_of(origin) =~= line + seq!['\n']);
            },
            Origin::Comment(message) => lemma_fields_are_lines(""@, lines(message)),
            Origin::Retry(milliseconds) => lemma_field_is_a_line("retry"@, decimal(milliseconds)),
        }
    } else {
        let before = text_after_all(origin, steps.drop_last());
        lemma_events_are_lines(origin, steps.drop_last());
        let line = match steps.last() {
            Step::Id(id) => field("id"@, id) + seq!['\n'],
            Step::Name(name) => field("event"@, name) + seq!['\n'],
        };
        match steps.last() {
            Step::Id(id) => lemma_field_is_a_line("id"@, id),
            Step::Name(name) => lemma_field_is_a_line("event"@, name),
        }
        lemma_more_lines(before, line);
        assert(text_after_all(origin, steps) =~= before + line);
    }
}

proof fn lemma_encode_line_feed(s: Seq<char>)
    ensures
        encode_utf8(s.push('\n')) == encode_utf8(s).push(0x0a),
{
    let end = seq!['\n'];
    lemma_encode_append(s, end);
    lemma_encode_char('\n');
    assert(end.drop_first() =~= Seq::empty());
    assert(encode_utf8(end.drop_first()) =~= Seq::empty());
    assert(encode_utf8(end) =~= seq![0x0a]);
    assert(s.push('\n') =~= s + end);
}

proof fn lemma_encoded_lines(s: Seq<char>)
    ensures
        !s.contains('\r') ==> !encode_utf8(s).contains(0x0d),
        s.len() > 0 ==> encode_utf8(s).len() > 0 && (encode_utf8(s)[0] == 0x0a <==> s[0] == '\n'),
        !has_blank_line(s) ==> !has_blank_line_before(encode_utf8(s), encode_utf8(s).len() as int),
    decreases s.len(),
{
    if s.len() > 0 {
        let first = encode_scalar(s[0] as u32);
        let rest = s.drop_first();
        let tail = encode_utf8(rest);
        let bytes = encode_utf8(s);
        lemma_encode_char(s[0]);
        lemma_encoded_lines(rest);
        assert forall|i: int| 0 <= i < rest.len() implies #[trigger] rest[i] == s[i + 1] by {}
        assert forall|i: int| 0 <= i < bytes.len() implies #[trigger] bytes[i] == if i < first.len() {
            first[i]
        } else {
            tail[i - first.len()]
        } by {}
        if first[0] == 0x0a {
            vstd::utf8::char_u32_cast(s[0], 0x0a);
            vstd::utf8::char_u32_cast('\n', 0x0a);
        }
        if !s.contains('\r') {
            assert(s[0] != '\r');
            assert(!rest.contains('\r')) by {
                if rest.contains('\r') {
                    let i = choose|i: int| 0 <= i < rest.len() && rest[i] == '\r';
                    assert(s[i + 1] == '\r');
                }
            }
            if bytes.contains(0x0d) {
                let i = choose|i: int| 0 <= i < bytes.len() && bytes[i] == 0x0d;
                if i >= first.len() {
                    assert(tail[i - first.len()] == 0x0d);
                } else {
                    assert(first[i] == 0x0d);
                    assert(i == 0);
                    vstd::utf8::char_u32_cast(s[0], 0x0d);
                    vstd::utf8::char_u32_cast('\r', 0x0d);
                }
            }
        }
        if !has_blank_line(s) {
            assert(!has_blank_line(rest)) by {
                if has_blank_line(rest) {
                    let i = choose|i: int|
                        #![trigger rest[i]]
                        1 <= i < rest.len() && rest[i - 1] == '\n' && rest[i] == '\n';
                    assert(s[i] == '\n' && s[i + 1] == '\n');
                }
            }
            if has_blank_line_before(bytes, bytes.len() as int) {
                let i = choose|i: int|
                    #![trigger bytes[i]]
                    1 <= i < bytes.len() && i < bytes.len() && bytes[i - 1] == 0x0a && bytes[i]
                        == 0x0a;
                let k = i - first.len();
                if k > 0 {
                    assert(tail[k - 1] == 0x0a && tail[k] == 0x0a);
                } else {
                    assert(first[i - 1] == 0x0a);
                    assert(i == 1);
                    assert(k == 0);
                    assert(rest[0] == '\n');
                    assert(s[1] == '\n');
                }
            }
        }
    }
}

/// Whatever line breaks its arguments hold, an event is exactly one block of the stream: its bytes
/// hold no carriage return, end with a blank line and have none before.
pub proof fn an_event_is_one_block(origin: Origin, steps: Seq<Step>)
    requires
        origin matches Origin::Json(json) ==> !has_breaks(json),
    ensures
        is_one_block(finalized(text_after_all(origin, steps))),
{
    let text = text_after_all(origin, steps);
    let head = encode_utf8(text);
    lemma_events_are_lines(origin, steps);
    lemma_encoded_lines(text);
    lemma_encode_line_feed(text);
    lemma_encode_line_feed(text.drop_last());
    assert(text.drop_last().push('\n') =~= text);
    assert(text + seq!['\n'] =~= text.push('\n'));
    let bytes = finalized(text);
    assert(bytes =~= head.push(0x0a));
    assert(head.last() == 0x0a);
    assert forall|i: int| 0 <= i < head.len() implies #[trigger] bytes[i] == head[i] by {}
    if has_blank_line_before(bytes, bytes.len() - 1) {
        let i = choose|i: int|
            #![trigger bytes[i]]
            1 <= i < bytes.len() && i < bytes.len() - 1 && bytes[i - 1] == 0x0a && bytes[i] == 0x0a;
        assert(head[i - 1] == 0x0a && head[i] == 0x0a);
        assert(has_blank_line_before(head, head.len() as int));
    }
    if bytes.contains(0x0d) {
        let i = choose|i: int| 0 <= i < bytes.len() && bytes[i] == 0x0d;
        assert(head[i] == 0x0d);
        assert(head.contains(0x0d));
    }
}

/// An event of the stream.
#[derive(Debug)]
pub struct Event {
    buffer: String,
    has_id: bool,
    has_event_field: bool,
}

impl Event {
    /// The fields of the event, as they stand on the wire.
    pub closed spec fn text(&self) -> Seq<char> {
        self.buffer@
    }

    /// Whether the event can get no id: it has one, or is of a sort that has none.
    pub closed spec fn id_is_set(&self) -> bool {
        self.has_id
    }

    /// Whether the event can get no name: it has one, or is of a sort that has none.
    pub closed spec fn name_is_set(&self) -> bool {
        self.has_event_field
    }

    /// What the event can get no more.
    pub open spec fn marks(&self) -> Marks {
        Marks { id: self.id_is_set(), name: self.name_is_set() }
    }

    fn empty() -> (r: Self)
        ensures
            r.text() == Seq::<char>::empty(),
            r.marks() == (Marks { id: false, name: false }),
    {
        Event { buffer: String::new(), has_id: false, has_event_field: false }
    }

    /// An event with a data payload.
    ///
    /// A payload of several lines is written as one `data:` line per line, so line breaks in the
    /// payload do not end the event.
    pub fn data(data: &str) -> (r: Self)
        ensures
            r.text() == text_of(Origin::Data(data@)),
            r.marks() == marks_of(Origin::Data(data@)),
    {
        let mut event = Event::empty();
        event.push_multiline_field("data", data);
        assert(event.text() =~= multiline_field("data"@, data@));
        event
    }

    /// An event whose payload is a JSON text.
    pub fn json(json: &str) -> (r: Self)
        ensures
            r.text() == text_of(Origin::Json(json@)),
            r.marks() == marks_of(Origin::Json(json@)),
    {
        let mut event = Event::empty();
        event.buffer.append("data:");
        event.buffer.append(json);
        event.buffer.append("\n");
        assert(event.buffer@ =~= "data:"@ + json@ + "\n"@);
        event
    }

    /// A comment, ignored by clients. It can carry neither an id nor an event name.
    pub fn comment(message: &str) -> (r: Self)
        ensures
            r.text() == text_of(Origin::Comment(message@)),
            r.marks() == marks_of(Origin::Comment(message@)),
    {
        let mut event = Event::empty();
        event.push_multiline_field("", message);
        assert(event.text() =~= multiline_field(""@, message@));
        event.has_event_field = true;
        event.has_id = true;
        event
    }

    /// Tell the client the stream's reconnection time. It can carry neither an id nor an event
    /// name.
    pub fn retry(milliseconds: u128) -> (r: Self)
        ensures
            r.text() == text_of(Origin::Retry(milliseconds as nat)),
            r.marks() == marks_of(Origin::Retry(milliseconds as nat)),
    {
        let mut event = Event::empty();
        let numeral = format_integer(milliseconds);
        event.push_field_line("retry", numeral.as_str());
        assert(event.text() =~= field("retry"@, decimal(milliseconds as nat)) + seq!['\n']);
        event.has_event_field = true;
        event.has_id = true;
        event
    }

    /// Set the id of this event, which must not have been set.
    pub fn id(self, id: &str) -> (r: Self)
        requires
            !self.id_is_set(),
        ensures
            r.text() == text_after(self.text(), Step::Id(id@)),
            r.marks() == marks_after(self.marks(), Step::Id(id@)),
    {
        let mut event = self;
        event.push_field_line("id", id);
        event.has_id = true;
        event
    }

    /// Set the name of this event, which must not have been set.
    pub fn event(self, event: &str) -> (r: Self)
        requires
            !self.name_is_set(),
        ensures
            r.text() == text_after(self.text(), Step::Name(event@)),
            r.marks() == marks_after(self.marks(), Step::Name(event@)),
    {
        let mut named = self;
        named.push_field_line("event", event);
        named.has_event_field = true;
        named
    }

    /// Whether the event can get an id.
    pub fn can_set_id(&self) -> (r: bool)
        ensures
            r == !self.id_is_set(),
    {
        !self.has_id
    }

    /// Whether the event can get a name.
    pub fn can_set_event(&self) -> (r: bool)
        ensures
            r == !self.name_is_set(),
    {
        !self.has_event_field
    }

    /// Append a single field. Line breaks are left out of the value, which cannot span lines.
    fn push_field_line(&mut self, name: &str, value: &str)
        ensures
            final(self).text() == old(self).text() + field(name@, value@) + seq!['\n'],
            final(self).id_is_set() == old(self).id_is_set(),
            final(self).name_is_set() == old(self).name_is_set(),
    {
        let ghost before = self.buffer@;
        self.buffer.append(name);
        self.buffer.push(':');
        let chars = chars_of(value);
        if chars.len() > 0 && chars[0] == ' ' {
            self.buffer.push(' ');
        }
        let ghost head = self.buffer@;
        assert(head =~= before + name@ + seq![':'] + guard(value@));
        let mut i: usize = 0;
        assert(chars@.take(0) =~= Seq::empty());
        assert(head + without_breaks(chars@.take(0)) =~= head);
        while i < chars.len()
            invariant
                i <= chars.len(),
                chars@ == value@,
                self.buffer@ == head + without_breaks(chars@.take(i as int)),
                self.has_id == old(self).has_id,
                self.has_event_field == old(self).has_event_field,
            decreases chars.len() - i,
        {
            assert(chars@.take(i + 1).drop_last() =~= chars@.take(i as int));
            if chars[i] != '\r' && chars[i] != '\n' {
                self.buffer.push(chars[i]);
            }
            i = i + 1;
            assert(self.buffer@ =~= head + without_breaks(chars@.take(i as int)));
        }
        assert(chars@.take(i as int) =~= value@);
        self.buffer.push('\n');
        assert(self.buffer@ =~= before + field(name@, value@) + seq!['\n']);
    }

    /// Append a value that may span lines as one field per line.
    fn push_multiline_field(&mut self, name: &str, value: &str)
        ensures
            final(self).text() == old(self).text() + multiline_field(name@, value@),
            final(self).id_is_set() == old(self).id_is_set(),
            final(self).name_is_set() == old(self).name_is_set(),
    {
        let ghost before = self.buffer@;
        let chars = chars_of(value);
        let mut from: usize = 0;
        let mut end: usize = find_line_end(&chars, 0);
        while end < chars.len()
            invariant
                from <= end <= chars.len(),
                chars@ == value@,
                end == line_end(chars@, from as int),
                self.buffer@ + field_lines(name@, lines_from(chars@, from as int)) == before
                    + multiline_field(name@, value@),
                self.has_id == old(self).has_id,
                self.has_event_field == old(self).has_event_field,
            decreases chars.len() - from,
        {
            let line = slice_text(&chars, from, end);
            let ghost head = self.buffer@;
            let ghost rest = lines_from(chars@, next_line(chars@, end as int));
            proof {
                lemma_line_end_bounds(chars@, from as int);
                assert(lines_from(chars@, from as int).drop_first() =~= rest);
            }
            self.push_field_line(name, line.as_str());
            assert(self.buffer@ + field_lines(name@, rest) =~= head + field_lines(
                name@,
                lines_from(chars@, from as int),
            ));
            if chars[end] == '\r' && end + 1 < chars.len() && chars[end + 1] == '\n' {
                from = end + 2;
            } else {
                from = end + 1;
            }
            end = find_line_end(&chars, from);
        }
        let line = slice_text(&chars, from, chars.len());
        proof {
            let last = lines_from(chars@, from as int);
            assert(last.drop_first() =~= Seq::empty());
            assert(field_lines(name@, last.drop_first()) =~= Seq::empty());
        }
        let ghost head = self.buffer@;
        self.push_field_line(name, line.as_str());
        assert(self.buffer@ =~= head + field_lines(name@, lines_from(chars@, from as int)));
    }

    /// The event as it goes out: its fields and the blank line that ends it.
    pub fn finalize(self) -> (r: Vec<u8>)
        ensures
            r@ == finalized(self.text()),
    {
        let mut buffer = self.buffer;
        buffer.push('\n');
        assert(buffer@ =~= self.text() + seq!['\n']);
        buffer.as_str().as_bytes_vec()
    }
}

/// A stream of events, sent as bytes.
#[derive(Debug)]
pub struct IntoStream<S, E> {
    stream: S,
    _marker: PhantomData<E>,
}

impl<S, E> IntoStream<S, E> {
    /// The stream of events.
    pub closed spec fn source(&self) -> S {
        self.stream
    }

    /// A stream that sends the events of another.
    pub fn new(stream: S) -> (r: Self)
        ensures
            r.source() == stream,
    {
        IntoStream { stream, _marker: PhantomData }
    }

    /// The stream of events.
    pub fn into_inner(self) -> (r: S)
        ensures
            r == self.source(),
    {
        self.stream
    }

    /// What is sent for what the stream of events gave.
    pub fn item(next: Option<Result<Event, E>>) -> (r: Option<Result<Vec<u8>, E>>)
        ensures
            match next {
                Some(Ok(event)) => r is Some && r->0 is Ok && r->0->Ok_0@ == finalized(
                    event.text(),
                ),
                Some(Err(error)) => r == Some(Err::<Vec<u8>, E>(error)),
                None => r is None,
            },
    {
        match next {
            Some(Ok(event)) => Some(Ok(event.finalize())),
            Some(Err(error)) => Some(Err(error)),
            None => None,
        }
    }
}

/// What a stream has to offer when it is asked.
#[derive(Debug)]
pub enum Polled<T> {
    /// An item.
    Item(T),
    /// Nothing any more.
    End,
    /// Nothing yet.
    Pending,
}

/// What a stream with heartbeats does next.
#[derive(Debug)]
pub enum KeepAliveStep<T> {
    /// Pass an item on, and wait a full interval again before the next heartbeat.
    Forward(T),
    /// Send these bytes.
    Heartbeat(Vec<u8>),
    /// Look whether the timer fired.
    AskTimer,
    /// The stream is over.
    Done,
    /// Nothing can be sent yet.
    Wait,
}

/// Merges a periodic comment into a stream that has gone quiet.
#[derive(Debug)]
pub struct KeepAlive {
    finished: bool,
}

impl KeepAlive {
    /// Whether the stream ended.
    pub closed spec fn is_over(&self) -> bool {
        self.finished
    }

    /// A stream that did not end yet.
    pub fn new() -> (r: Self)
        ensures
            !r.is_over(),
    {
        KeepAlive { finished: false }
    }

    /// Whether the stream ended.
    pub fn finished(&self) -> (r: bool)
        ensures
            r == self.is_over(),
    {
        self.finished
    }

    /// What to do once the stream was asked. Once it ended it is over for good; an item it gives is
    /// its own heartbeat.
    pub fn on_stream<T>(&mut self, polled: Polled<T>) -> (r: KeepAliveStep<T>)
        ensures
            final(self).is_over() == (old(self).is_over() || polled is End),
            if old(self).is_over() {
                r is Done
            } else {
                match polled {
                    Polled::Item(item) => r == KeepAliveStep::Forward(item),
                    Polled::End => r is Done,
                    Polled::Pending => r is AskTimer,
                }
            },
    {
        if self.finished {
            return KeepAliveStep::Done;
        }
        match polled {
            Polled::Item(item) => KeepAliveStep::Forward(item),
            Polled::End => {
                self.finished = true;
                KeepAliveStep::Done
            },
            Polled::Pending => KeepAliveStep::AskTimer,
        }
    }

    /// What to do once the timer was asked while the stream had nothing to offer.
    pub fn on_timer<T>(&self, fired: bool) -> (r: KeepAliveStep<T>)
        ensures
            if fired {
                r matches KeepAliveStep::Heartbeat(bytes) && bytes@ == encode_utf8(
                    multiline_field(""@, ""@) + seq!['\n'],
                )
            } else {
                r is Wait
            },
    {
        if fired {
            KeepAliveStep::Heartbeat(Event::comment("").finalize())
        } else {
            KeepAliveStep::Wait
        }
    }
}

/// An event could not be sent: the stream it was meant for is gone.
#[derive(Debug, Clone, Copy)]
pub struct SendError;

impl SendError {
    /// The error's text.
    pub fn message(&self) -> (r: String)
        ensures
            r@ == "Failed to send event to SSE channel"@,
    {
        copy_text("Failed to send event to SSE channel")
    }

    /// The status the error is answered with.
    pub fn status(&self) -> (r: u16)
        ensures
            r == 500,
    {
        500
    }
}

/// How many events a channel buffers before sending waits, unless another number is asked for.
pub const DEFAULT_CHANNEL_CAPACITY: usize = 64;

/// The header changes of a response that is an event stream.
pub fn stream_headers() -> (r: Vec<HeaderUpdate>)
    ensures
        updates(r@) == seq![
            UpdateView::Insert("content-type"@, "text/event-stream"@),
            UpdateView::Insert("cache-control"@, "no-cache"@),
        ],
{
    let mut list: Vec<HeaderUpdate> = Vec::new();
    push_insert(&mut list, "content-type", "text/event-stream");
    push_insert(&mut list, "cache-control", "no-cache");
    assert(updates(list@) =~= seq![
        UpdateView::Insert("content-type"@, "text/event-stream"@),
        UpdateView::Insert("cache-control"@, "no-cache"@),
    ]);
    list
}

/// What a client reads of a line: the name before the first colon and the value after it, without
/// one space.
pub open spec fn received(line: Seq<char>) -> (Seq<char>, Seq<char>) {
    let colon = find(line, ':', 0);
    let value = line.subrange(colon + 1, line.len() as int);
    (
        line.subrange(0, colon),
        if value.len() > 0 && value[0] == ' ' {
            value.drop_first()
        } else {
            value
        },
    )
}

proof fn lemma_without_breaks_has_none(s: Seq<char>)
    ensures
        forall|i: int|
            0 <= i < without_breaks(s).len() ==> !is_break(#[trigger] without_breaks(s)[i]),
    decreases s.len(),
{
    if s.len() > 0 {
        let before = without_breaks(s.drop_last());
        lemma_without_breaks_has_none(s.drop_last());
        assert forall|i: int| 0 <= i < without_breaks(s).len() implies !is_break(
            #[trigger] without_breaks(s)[i],
        ) by {
            if i < before.len() {
                assert(without_breaks(s)[i] == before[i]);
            }
        }
    }
}

proof fn lemma_without_breaks_keeps(s: Seq<char>)
    requires
        forall|i: int| 0 <= i < s.len() ==> !is_break(s[i]),
    ensures
        without_breaks(s) == s,
    decreases s.len(),
{
    if s.len() > 0 {
        lemma_without_breaks_keeps(s.drop_last());
        assert(s.drop_last().push(s.last()) =~= s);
    }
}

proof fn lemma_lines_have_no_breaks(s: Seq<char>, from: int)
    requires
        0 <= from <= s.len(),
    ensures
        forall|k: int, i: int|
            0 <= k < lines_from(s, from).len() && 0 <= i < lines_from(s, from)[k].len()
                ==> !is_break(#[trigger] lines_from(s, from)[k][i]),
    decreases s.len() - from,
{
    lemma_line_end_bounds(s, from);
    let end = line_end(s, from);
    let all = lines_from(s, from);
    if end < s.len() {
        let rest = lines_from(s, next_line(s, end));
        lemma_lines_have_no_breaks(s, next_line(s, end));
        assert forall|k: int, i: int| 0 <= k < all.len() && 0 <= i < all[k].len() implies !is_break(
            #[trigger] all[k][i],
        ) by {
            if k > 0 {
                assert(all[k] == rest[k - 1]);
                assert(!is_break(rest[k - 1][i]));
            } else {
                assert(all[k][i] == s[from + i]);
            }
        }
    } else {
        assert forall|k: int, i: int| 0 <= k < all.len() && 0 <= i < all[k].len() implies !is_break(
            #[trigger] all[k][i],
        ) by {
            assert(all[k][i] == s[from + i]);
        }
    }
}

proof fn lemma_field_has_no_line_feed(name: Seq<char>, value: Seq<char>)
    requires
        !name.contains('\n'),
    ensures
        !field(name, value).contains('\n'),
{
    lemma_without_breaks_has_none(value);
    let whole = field(name, value);
    if whole.contains('\n') {
        let i = choose|i: int| 0 <= i < whole.len() && whole[i] == '\n';
        if i < name.len() {
            assert(name[i] == '\n');
        } else if i < name.len() + 1 + guard(value).len() {
        } else {
            let k = i - name.len() - 1 - guard(value).len();
            assert(without_breaks(value)[k] == '\n');
        }
    }
}

proof fn lemma_received(name: Seq<char>, value: Seq<char>)
    requires
        !name.contains(':'),
        forall|i: int| 0 <= i < value.len() ==> !is_break(value[i]),
    ensures
        received(field(name, value)) == (name, value),
{
    lemma_without_breaks_keeps(value);
    let line = field(name, value);
    lemma_find_bounds(line, ':', 0);
    let colon = find(line, ':', 0);
    assert(line[name.len() as int] == ':');
    if colon < name.len() {
        assert(name[colon] == ':');
    }
    assert(colon == name.len());
    assert(line.subrange(0, colon) =~= name);
    let rest = line.subrange(colon + 1, line.len() as int);
    assert(rest =~= guard(value) + value);
    if value.len() > 0 && value[0] == ' ' {
        assert(rest.drop_first() =~= value);
    } else {
        assert(rest =~= value);
    }
}

proof fn lemma_field_lines_split(name: Seq<char>, values: Seq<Seq<char>>)
    requires
        !name.contains('\n'),
        !name.contains(':'),
        forall|k: int, i: int|
            0 <= k < values.len() && 0 <= i < values[k].len() ==> !is_break(
                #[trigger] values[k][i],
            ),
    ensures
        split(field_lines(name, values), '\n').len() == values.len() + 1,
        split(field_lines(name, values), '\n').last() == Seq::<char>::empty(),
        forall|k: int|
            0 <= k < values.len() ==> received(
                #[trigger] split(field_lines(name, values), '\n')[k],
            ) == (name, values[k]),
    decreases values.len(),
{
    let whole = field_lines(name, values);
    if values.len() == 0 {
        assert(whole.subrange(0, 0) =~= Seq::empty());
    } else {
        let first = field(name, values[0]);
        let rest = field_lines(name, values.drop_first());
        assert forall|k: int, i: int|
            0 <= k < values.drop_first().len() && 0 <= i < values.drop_first()[k].len()
            implies !is_break(#[trigger] values.drop_first()[k][i]) by {
            assert(values.drop_first()[k] == values[k + 1]);
            assert(!is_break(values[k + 1][i]));
        }
        lemma_field_lines_split(name, values.drop_first());
        lemma_field_has_no_line_feed(name, values[0]);
        lemma_split_at_separator(first, '\n', rest);
        assert(whole =~= first + seq!['\n'] + rest);
        assert forall|i: int| 0 <= i < values[0].len() implies !is_break(values[0][i]) by {
            assert(!is_break(values[0][i]));
        }
        lemma_received(name, values[0]);
        assert forall|k: int| 0 <= k < values.len() implies received(
            #[trigger] split(whole, '\n')[k],
        ) == (name, values[k]) by {
            if k > 0 {
                assert(split(whole, '\n')[k] == split(rest, '\n')[k - 1]);
                assert(values.drop_first()[k - 1] == values[k]);
            }
        }
    }
}

/// Whatever a payload holds, a client reads exactly its lines: the event has one `data` field per
/// line of the payload, in order, and no other field.
pub proof fn a_payload_survives_the_wire(value: Seq<char>)
    ensures
        ({
            let wire = split(multiline_field("data"@, value), '\n');
            let sent = lines(value);
            &&& wire.len() == sent.len() + 1
            &&& wire.last() == Seq::<char>::empty()
            &&& forall|k: int|
                0 <= k < sent.len() ==> received(#[trigger] wire[k]) == ("data"@, sent[k])
        }),
{
    reveal_strlit("data");
    lemma_lines_have_no_breaks(value, 0);
    lemma_field_lines_split("data"@, lines(value));
}

/// A field is always one line, whatever its value holds: no value can start another field or end
/// the event.
pub proof fn a_field_is_one_line(name: Seq<char>, value: Seq<char>)
    requires
        !name.contains('\n'),
    ensures
        split(field(name, value) + seq!['\n'], '\n') == seq![
            field(name, value),
            Seq::<char>::empty(),
        ],
{
    lemma_field_has_no_line_feed(name, value);
    let none = Seq::<char>::empty();
    lemma_split_at_separator(field(name, value), '\n', none);
    assert(field(name, value) + seq!['\n'] + none =~= field(name, value) + seq!['\n']);
    assert(none.subrange(0, 0) =~= none);
    assert(split(none, '\n') =~= seq![none]);
    assert(seq![field(name, value)] + seq![none] =~= seq![field(name, value), none]);
}

proof fn lemma_line_end_of(line: Seq<char>, rest: Seq<char>, from: int)
    requires
        !has_breaks(line),
        0 <= from <= line.len(),
        rest.len() > 0 ==> rest[0] == '\r' || rest[0] == '\n',
    ensures
        line_end(line + rest, from) == line.len(),
    decreases line.len() - from,
{
    if from < line.len() {
        assert((line + rest)[from] == line[from]);
        lemma_line_end_of(line, rest, from + 1);
    } else if rest.len() > 0 {
        assert((line + rest)[from] == rest[0]);
    }
}

proof fn lemma_line_end_shift(head: Seq<char>, rest: Seq<char>, from: int)
    requires
        0 <= from <= rest.len(),
    ensures
        line_end(head + rest, head.len() + from) == head.len() + line_end(rest, from),
        from <= line_end(rest, from) <= rest.len(),
    decreases rest.len() - from,
{
    if from < rest.len() {
        assert((head + rest)[head.len() + from] == rest[from]);
        if !is_break(rest[from]) {
            lemma_line_end_shift(head, rest, from + 1);
        }
    }
}

proof fn lemma_lines_shift(head: Seq<char>, rest: Seq<char>, from: int)
    requires
        0 <= from <= rest.len(),
    ensures
        lines_from(head + rest, head.len() + from) == lines_from(rest, from),
    decreases rest.len() - from,
{
    let whole = head + rest;
    lemma_line_end_shift(head, rest, from);
    let end = line_end(rest, from);
    assert(whole.subrange(head.len() + from, whole.len() as int) =~= rest.subrange(
        from,
        rest.len() as int,
    ));
    if end < rest.len() {
        assert(whole.subrange(head.len() + from, head.len() + end) =~= rest.subrange(from, end));
        assert(whole[head.len() + end] == rest[end]);
        if end + 1 < rest.len() {
            assert(whole[head.len() + end + 1] == rest[end + 1]);
        }
        lemma_lines_shift(head, rest, next_line(rest, end));
    }
}

/// A line ends at a line feed, at a carriage return, or at both together, and the rest are further
/// lines; a text without these is one line.
pub proof fn a_break_ends_a_line(line: Seq<char>, rest: Seq<char>)
    requires
        !has_breaks(line),
    ensures
        lines(line) == seq![line],
        lines(line + seq!['\n'] + rest) == seq![line] + lines(rest),
        lines(line + seq!['\r', '\n'] + rest) == seq![line] + lines(rest),
        rest.len() == 0 || rest[0] != '\n' ==> lines(line + seq!['\r'] + rest) == seq![line]
            + lines(rest),
{
    let none = Seq::<char>::empty();
    lemma_line_end_of(line, none, 0);
    assert(line + none =~= line);
    assert(line.subrange(0, line.len() as int) =~= line);
    lemma_line_before(line, seq!['\n'], rest);
    lemma_line_before(line, seq!['\r', '\n'], rest);
    if rest.len() == 0 || rest[0] != '\n' {
        lemma_line_before(line, seq!['\r'], rest);
    }
}

proof fn lemma_line_before(line: Seq<char>, ending: Seq<char>, rest: Seq<char>)
    requires
        !has_breaks(line),
        ending == seq!['\n'] || ending == seq!['\r', '\n'] || (ending == seq!['\r'] && (rest.len()
            == 0 || rest[0] != '\n')),
    ensures
        lines(line + ending + rest) == seq![line] + lines(rest),
{
    let whole = line + ending + rest;
    let tail = ending + rest;
    let head = line + ending;
    assert(whole =~= line + tail);
    assert(whole =~= head + rest);
    lemma_line_end_of(line, tail, 0);
    assert(whole.subrange(0, line.len() as int) =~= line);
    assert(whole[line.len() as int] == ending[0]);
    if ending.len() == 2 {
        assert(whole[line.len() as int + 1] == '\n');
    } else if rest.len() > 0 {
        assert(whole[line.len() as int + 1] == rest[0]);
    }
    assert(next_line(whole, line.len() as int) == head.len());
    lemma_lines_shift(head, rest, 0);
}

/// An id and a name stand on lines of their own, `id` and `event`, behind what the event has already;
/// a value that starts with a space gets another one, and line breaks in it are left out.
pub proof fn what_is_set_stands_on_its_own_line(text: Seq<char>, value: Seq<char>, spaced: Seq<char>)
    requires
        !has_breaks(value),
        value.len() == 0 || value[0] != ' ',
        !has_breaks(spaced),
    ensures
        text_after(text, Step::Id(value)) == text + "id:"@ + value + "\n"@,
        text_after(text, Step::Name(value)) == text + "event:"@ + value + "\n"@,
        text_after(text, Step::Id(seq![' '] + spaced)) == text + "id:  "@ + spaced + "\n"@,
        text_after(text, Step::Name(seq![' '] + spaced)) == text + "event:  "@ + spaced + "\n"@,
        text_after(text, Step::Id(value + seq!['\r', '\n'])) == text_after(text, Step::Id(value)),
        text_after(text, Step::Name(value + seq!['\n'])) == text_after(text, Step::Name(value)),
{
    reveal_strlit("id");
    reveal_strlit("event");
    reveal_strlit("id:");
    reveal_strlit("event:");
    reveal_strlit("id:  ");
    reveal_strlit("event:  ");
    reveal_strlit("\n");
    lemma_without_breaks_keeps(value);
    let shifted = seq![' '] + spaced;
    assert forall|i: int| 0 <= i < shifted.len() implies !is_break(shifted[i]) by {
        if i > 0 {
            assert(shifted[i] == spaced[i - 1]);
        }
    }
    lemma_without_breaks_keeps(shifted);
    assert(text_after(text, Step::Id(value)) =~= text + "id:"@ + value + "\n"@);
    assert(text_after(text, Step::Name(value)) =~= text + "event:"@ + value + "\n"@);
    assert(text_after(text, Step::Id(shifted)) =~= text + "id:  "@ + spaced + "\n"@);
    assert(text_after(text, Step::Name(shifted)) =~= text + "event:  "@ + spaced + "\n"@);
    let fed = value + seq!['\n'];
    assert(fed.drop_last() =~= value);
    let returned = value + seq!['\r', '\n'];
    assert(returned.drop_last().drop_last() =~= value);
    assert(without_breaks(returned.drop_last()) == value);
    assert(without_breaks(returned) == value);
    assert(without_breaks(fed) == value);
    assert(guard(returned) =~= guard(value));
    assert(guard(fed) =~= guard(value));
}

/// A JSON text is one `data` line as it is, a reconnection time is its numeral, and an empty comment
/// is a colon alone.
pub proof fn directives_stand_as_they_are(json: Seq<char>, milliseconds: nat)
    ensures
        text_of(Origin::Json(json)) == "data:"@ + json + "\n"@,
        text_of(Origin::Retry(milliseconds)) == "retry:"@ + decimal(milliseconds) + "\n"@,
        text_of(Origin::Comment(Seq::empty())) == ":\n"@,
        multiline_field(""@, ""@) == ":\n"@,
{
    reveal_strlit("");
    reveal_strlit(":\n");
    reveal_strlit("retry");
    reveal_strlit("retry:");
    reveal_strlit("\n");
    let none = Seq::<char>::empty();
    assert(""@ =~= none);
    a_break_ends_a_line(none, none);
    let values = seq![none];
    assert(values.drop_first() =~= Seq::empty());
    assert(field_lines(none, values.drop_first()) =~= none);
    assert(field_lines(none, values) =~= ":\n"@);
    let number = decimal(milliseconds);
    a_numeral_stands_for_its_number(milliseconds);
    assert forall|i: int| 0 <= i < number.len() implies !is_break(number[i]) by {
        assert(is_digit(number[i]));
    }
    lemma_without_breaks_keeps(number);
    assert(is_digit(number[0]));
    assert(text_of(Origin::Retry(milliseconds)) =~= "retry:"@ + number + "\n"@);
}

/// An event goes out as its fields and one more line feed.
pub proof fn a_blank_line_ends_an_event(text: Seq<char>)
    ensures
        finalized(text) == encode_utf8(text + seq!['\n']),
        decode_utf8(finalized(text)) == text + seq!['\n'],
{
    encode_utf8_decode_utf8(text + seq!['\n']);
}

} // verus!
