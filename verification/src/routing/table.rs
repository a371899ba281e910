//! The path matcher the router is built on.

use matchit::Router as PathMatcher;
use vstd::prelude::*;

#[allow(unused_imports)]
use crate::routing::param::pair_texts;
#[allow(unused_imports)]
use crate::text::{find, optional_text, texts};
use crate::text::{chars_of, copy_text, slice_text};

verus! {

/// The path matcher of `matchit`.
#[verifier::external_type_specification]
#[verifier::external_body]
#[verifier::reject_recursive_types(T)]
pub struct ExMatchitRouter<T>(PathMatcher<T>);

/// The patterns a matcher holds with their values, in the order they were inserted.
pub uninterp spec fn inserted(table: PathMatcher<usize>) -> Seq<(Seq<char>, usize)>;

/// Why `matchit` refuses to insert a pattern after the given ones, in its own words.
pub uninterp spec fn refusal(patterns: Seq<Seq<char>>, pattern: Seq<char>) -> Option<Seq<char>>;

/// The value and the captured parameters that `matchit` finds for a path.
pub uninterp spec fn matched(
    entries: Seq<(Seq<char>, usize)>,
    path: Seq<char>,
) -> Option<(usize, Seq<(Seq<char>, Seq<char>)>)>;

/// The patterns of a list of entries.
pub open spec fn patterns(entries: Seq<(Seq<char>, usize)>) -> Seq<Seq<char>> {
    entries.map_values(|e: (Seq<char>, usize)| e.0)
}

/// Whether a pattern is a literal path: not empty, and without the braces of a parameter.
pub open spec fn is_literal(pattern: Seq<char>) -> bool {
    pattern.len() > 0 && !pattern.contains('{') && !pattern.contains('}')
}

/// Whether a brace stands at an index and again right behind it, which is how a pattern writes a
/// brace that stands for itself.
pub open spec fn is_doubled(pattern: Seq<char>, at: int, brace: char) -> bool {
    0 <= at && at + 1 < pattern.len() && pattern[at] == brace && pattern[at + 1] == brace
}

/// The brace that closes a name, looking from `from` on. `None` where none does, or where an
/// asterisk or a slash comes first.
pub open spec fn closing(pattern: Seq<char>, from: int) -> Option<int>
    decreases pattern.len() - from,
{
    if from < 0 || from >= pattern.len() {
        None
    } else if is_doubled(pattern, from, '{') || is_doubled(pattern, from, '}') {
        closing(pattern, from + 2)
    } else if pattern[from] == '}' {
        Some(from)
    } else if pattern[from] == '*' || pattern[from] == '/' {
        None
    } else {
        closing(pattern, from + 1)
    }
}

/// The brace that closes the parameter opened at an index. `None` where there is none, or no name.
pub open spec fn parameter_end(pattern: Seq<char>, from: int) -> Option<int> {
    if from + 1 >= pattern.len() || pattern[from + 1] == '}' {
        None
    } else {
        match closing(pattern, from + 2) {
            Some(end) => if end < from + 2 || end >= pattern.len() || (pattern[from + 1] == '*'
                && end == from + 2) {
                None
            } else {
                Some(end)
            },
            None => None,
        }
    }
}

/// The named parameters of a pattern, from `from` on, each with the indices of its braces, as far as
/// the pattern can be read: up to a brace that is neither doubled nor part of a parameter.
pub open spec fn parameters(pattern: Seq<char>, from: int) -> Seq<(int, int)>
    decreases pattern.len() - from,
{
    if from < 0 || from >= pattern.len() {
        Seq::empty()
    } else if is_doubled(pattern, from, '{') || is_doubled(pattern, from, '}') {
        parameters(pattern, from + 2)
    } else if pattern[from] == '}' {
        Seq::empty()
    } else if pattern[from] != '{' {
        parameters(pattern, from + 1)
    } else {
        match parameter_end(pattern, from) {
            None => Seq::empty(),
            Some(end) => if pattern[from + 1] == '*' {
                parameters(pattern, end + 1)
            } else {
                seq![(from, end)] + parameters(pattern, end + 1)
            },
        }
    }
}

/// Where the first catch-all parameter of a pattern opens, from `from` on, as far as the pattern can
/// be read.
pub open spec fn catch_all(pattern: Seq<char>, from: int) -> Option<int>
    decreases pattern.len() - from,
{
    if from < 0 || from >= pattern.len() {
        None
    } else if is_doubled(pattern, from, '{') || is_doubled(pattern, from, '}') {
        catch_all(pattern, from + 2)
    } else if pattern[from] == '}' {
        None
    } else if pattern[from] != '{' {
        catch_all(pattern, from + 1)
    } else {
        match parameter_end(pattern, from) {
            None => None,
            Some(end) => if pattern[from + 1] == '*' {
                Some(from)
            } else {
                catch_all(pattern, end + 1)
            },
        }
    }
}

/// A pattern from `from` on with every named parameter called by the same letter, as far as it can be
/// read. What `matchit` makes of two patterns differs at most in words where they agree in this.
pub open spec fn renamed(pattern: Seq<char>, from: int) -> Seq<char>
    decreases pattern.len() - from,
{
    if from < 0 || from >= pattern.len() {
        Seq::empty()
    } else if is_doubled(pattern, from, '{') || is_doubled(pattern, from, '}') {
        pattern.subrange(from, from + 2) + renamed(pattern, from + 2)
    } else if pattern[from] == '}' {
        pattern.skip(from)
    } else if pattern[from] != '{' {
        pattern.subrange(from, from + 1) + renamed(pattern, from + 1)
    } else {
        match parameter_end(pattern, from) {
            None => pattern.skip(from),
            Some(end) => if pattern[from + 1] == '*' {
                pattern.subrange(from, end + 1) + renamed(pattern, end + 1)
            } else {
                seq!['{', 'a', '}'] + renamed(pattern, end + 1)
            },
        }
    }
}

/// Whether the name of a parameter is a single byte.
pub open spec fn has_short_name(pattern: Seq<char>, parameter: (int, int)) -> bool {
    parameter.1 == parameter.0 + 2 && pattern[parameter.0 + 1] < '\u{80}'
}

/// The number of the first parameter with a name longer than a byte and a doubled brace right behind
/// it, from number `from` on, or the number of all parameters. `matchit` takes that brace for the
/// opening brace of another parameter.
pub open spec fn first_misread(pattern: Seq<char>, from: int) -> int
    decreases parameters(pattern, 0).len() - from,
{
    let all = parameters(pattern, 0);
    if from < 0 || from >= all.len() {
        all.len() as int
    } else if !has_short_name(pattern, all[from]) && is_doubled(pattern, all[from].1 + 1, '{') {
        from
    } else {
        first_misread(pattern, from + 1)
    }
}

/// Whether `matchit` misreads a brace of a pattern.
pub open spec fn is_misread(pattern: Seq<char>) -> bool {
    first_misread(pattern, 0) < parameters(pattern, 0).len()
}

/// Whether a doubled brace at an index can be read on as if it opened a parameter.
pub open spec fn reads_on(pattern: Seq<char>, at: int) -> bool {
    &&& at + 2 < pattern.len()
    &&& pattern[at + 2] != '}'
    &&& closing(
        pattern,
        if is_doubled(pattern, at + 2, '{') {
            at + 4
        } else {
            at + 3
        },
    ) is Some
}

/// How many closing braces that are not doubled stand in a pattern from `from` on.
pub open spec fn closing_braces(pattern: Seq<char>, from: int) -> nat
    decreases pattern.len() - from,
{
    if from < 0 || from >= pattern.len() {
        0
    } else if is_doubled(pattern, from, '{') || is_doubled(pattern, from, '}') {
        closing_braces(pattern, from + 2)
    } else if pattern[from] == '}' {
        closing_braces(pattern, from + 1) + 1
    } else {
        closing_braces(pattern, from + 1)
    }
}

/// How many named parameters `matchit` cannot tell apart any more.
pub const TOO_MANY_PARAMETERS: usize = 26;

/// Whether a pattern may have more named parameters than `matchit` can tell apart; it panics on those.
/// Where it reads on from a brace that it misreads, it finds at most one for each closing brace.
pub open spec fn has_too_many_parameters(pattern: Seq<char>) -> bool {
    let all = parameters(pattern, 0);
    let first = first_misread(pattern, 0);
    if is_misread(pattern) {
        first + 1 >= TOO_MANY_PARAMETERS || (reads_on(pattern, all[first].1 + 1) && closing_braces(
            pattern,
            0,
        ) >= TOO_MANY_PARAMETERS)
    } else {
        all.len() >= TOO_MANY_PARAMETERS
    }
}

/// Whether a pattern whose brace is misread agrees with a known one up to that brace, and the known
/// one has a doubled brace there as well. `matchit` may then take one for the other, and need not
/// come to an end.
pub open spec fn is_mixed_up(known: Seq<char>, pattern: Seq<char>) -> bool {
    let first = first_misread(pattern, 0);
    &&& is_misread(pattern)
    &&& first < parameters(known, 0).len()
    &&& renamed(pattern.take(parameters(pattern, 0)[first].1 + 1), 0) == renamed(
        known.take(parameters(known, 0)[first].1 + 1),
        0,
    )
    &&& is_doubled(known, parameters(known, 0)[first].1 + 1, '{')
}

/// Whether the letter that `matchit` calls a parameter by, given its number, stands in doubled braces
/// right before an index.
pub open spec fn is_behind_its_letter(pattern: Seq<char>, at: int, number: int) -> bool {
    &&& is_doubled(pattern, at - 2, '}')
    &&& is_doubled(pattern, at - 5, '{')
    &&& pattern[at - 3] as u32 == 'a' as u32 + number
}

/// The number of the first parameter with a doubled brace right behind it while the name of the
/// parameter before is longer than a byte, from number `from` on, or the number of all parameters.
pub open spec fn first_shift(pattern: Seq<char>, from: int) -> int
    decreases parameters(pattern, 0).len() - from,
{
    let all = parameters(pattern, 0);
    if from < 1 || from >= all.len() {
        all.len() as int
    } else if is_doubled(pattern, all[from].1 + 1, '{') && !has_short_name(pattern, all[from - 1]) {
        from
    } else {
        first_shift(pattern, from + 1)
    }
}

/// Whether a doubled brace stands at an index.
pub open spec fn is_doubled_brace(pattern: Seq<char>, at: int) -> bool {
    is_doubled(pattern, at, '{') || is_doubled(pattern, at, '}')
}

/// Whether a doubled brace stands at an index or behind it.
pub open spec fn has_doubled_brace(pattern: Seq<char>, from: int) -> bool {
    exists|i: int| from <= i < pattern.len() && #[trigger] is_doubled_brace(pattern, i)
}

/// Whether a brace of a pattern may be misread once every parameter behind the given one is called by
/// the name of the one before: it cannot be read on, or there is another one that might not.
pub open spec fn is_shifted(pattern: Seq<char>, number: int) -> bool {
    let all = parameters(pattern, 0);
    let first = first_shift(pattern, number + 1);
    first < all.len() && (!reads_on(pattern, all[first].1 + 1) || has_doubled_brace(
        pattern,
        all[first].1 + 3,
    ))
}

/// Whether a pattern has a catch-all where a known one has a named parameter, right behind the letter
/// of that parameter in doubled braces. `matchit` leaves the parameter out when it words the conflict
/// with the known pattern, gives every later one the name of the one before, and may panic where that
/// makes it misread a brace.
pub open spec fn loses_count(known: Seq<char>, pattern: Seq<char>) -> bool {
    catch_all(pattern, 0) matches Some(at) && exists|k: int|
        0 <= k < parameters(known, 0).len() && is_behind_its_letter(pattern, at, k) && renamed(
            pattern.take(at),
            0,
        ) == renamed(known.take((#[trigger] parameters(known, 0)[k]).0), 0) && is_shifted(known, k)
}

/// Whether one of the patterns may be mixed up with another one.
pub open spec fn any_is_mixed_up(patterns: Seq<Seq<char>>, pattern: Seq<char>) -> bool {
    exists|i: int| 0 <= i < patterns.len() && is_mixed_up(#[trigger] patterns[i], pattern)
}

/// Whether the count is lost in a conflict with one of the patterns.
pub open spec fn any_loses_count(patterns: Seq<Seq<char>>, pattern: Seq<char>) -> bool {
    exists|i: int| 0 <= i < patterns.len() && loses_count(#[trigger] patterns[i], pattern)
}

/// Patterns with one-letter names in those with which the count is lost, so that it is lost no more.
pub open spec fn spared(patterns: Seq<Seq<char>>, pattern: Seq<char>) -> Seq<Seq<char>> {
    patterns.map_values(
        |known: Seq<char>|
            if loses_count(known, pattern) {
                renamed(known, 0)
            } else {
                known
            },
    )
}

/// Why a pattern is not inserted after the given ones, where no conflict is worded with other names:
/// `matchit` would panic or not return, or refuses it.
pub open spec fn judged(patterns: Seq<Seq<char>>, pattern: Seq<char>) -> Option<Seq<char>> {
    if has_too_many_parameters(pattern) {
        Some("Too many route parameters."@)
    } else if any_is_mixed_up(patterns, pattern) {
        refusal(Seq::empty(), pattern)
    } else if any_loses_count(patterns, pattern) {
        Some("Doubled braces stand too close to route parameters."@)
    } else {
        refusal(patterns, pattern)
    }
}

/// The first reason for which one of the patterns from `from` on is not inserted after those before.
pub open spec fn first_judged(patterns: Seq<Seq<char>>, from: int) -> Option<Seq<char>>
    decreases patterns.len() - from,
{
    if from < 0 || from >= patterns.len() {
        None
    } else if judged(patterns.take(from), patterns[from]) is Some {
        judged(patterns.take(from), patterns[from])
    } else {
        first_judged(patterns, from + 1)
    }
}

/// Why a pattern is not inserted after the given ones: `matchit` refuses it. A conflict that it would
/// panic on is worded with one-letter names in place of those it miscounts; which pattern a conflict
/// is with does not depend on names. A pattern that it would mix up is judged by itself, and one with
/// too many parameters is refused.
pub open spec fn turned_down(patterns: Seq<Seq<char>>, pattern: Seq<char>) -> Option<Seq<char>> {
    let conflict = first_judged(spared(patterns, pattern).push(pattern), 0);
    if !has_too_many_parameters(pattern) && !any_is_mixed_up(patterns, pattern) && any_loses_count(
        patterns,
        pattern,
    ) {
        if conflict is Some {
            conflict
        } else {
            refusal(patterns, pattern)
        }
    } else {
        judged(patterns, pattern)
    }
}

/// Whether a pattern is not empty and has no doubled braces, so that every brace belongs to a
/// parameter.
pub open spec fn is_plain(pattern: Seq<char>) -> bool {
    &&& pattern.len() > 0
    &&& forall|i: int|
        0 < i < pattern.len() ==> !((#[trigger] pattern[i] == '{' || pattern[i] == '}')
            && pattern[i - 1] == pattern[i])
}

/// Whether all patterns are plain.
pub open spec fn are_plain(patterns: Seq<Seq<char>>) -> bool {
    forall|i: int| 0 <= i < patterns.len() ==> is_plain(#[trigger] patterns[i])
}

/// Whether a value can be captured for a parameter that is written in a pattern: one segment, or
/// part of one, for a named parameter, anything for a catch-all, and in no case nothing.
pub open spec fn is_captured(written: Seq<char>, name: Seq<char>, value: Seq<char>) -> bool {
    &&& value.len() > 0
    &&& (written == name && !value.contains('/')) || written == seq!['*'] + name
}

/// A pattern with its parameters replaced by captured values, in order; `None` where they are not
/// those of the pattern.
pub open spec fn filled(pattern: Seq<char>, params: Seq<(Seq<char>, Seq<char>)>) -> Option<Seq<char>>
    decreases pattern.len(),
{
    if pattern.len() == 0 {
        if params.len() == 0 {
            Some(Seq::empty())
        } else {
            None
        }
    } else if pattern[0] != '{' {
        match filled(pattern.skip(1), params) {
            Some(rest) => Some(seq![pattern[0]] + rest),
            None => None,
        }
    } else {
        let end = find(pattern, '}', 0);
        if 0 < end < pattern.len() && params.len() > 0 && is_captured(
            pattern.subrange(1, end),
            params[0].0,
            params[0].1,
        ) {
            match filled(pattern.skip(end + 1), params.skip(1)) {
                Some(rest) => Some(params[0].1 + rest),
                None => None,
            }
        } else {
            None
        }
    }
}

/// `matchit::Router::new` holds nothing.
#[verifier::external_body]
pub(crate) fn new_table() -> (r: PathMatcher<usize>)
    ensures
        inserted(r) == Seq::<(Seq<char>, usize)>::empty(),
{
    PathMatcher::new()
}

/// `matchit::Router::insert` adds the pattern, or refuses it; whether it does and what it says
/// depends on the patterns inserted so far and on the new one. A literal pattern is refused only
/// where it was inserted before, or an empty pattern was; a pattern whose braces are misread is
/// always refused. A matcher that refused a pattern is given up: it may panic on a later one. It
/// also panics where a pattern has too many named parameters, and where it loses count of them while
/// it words a conflict; it may not return where it mixes up a pattern with an earlier one. That the
/// patterns are accepted with one-letter names shows that there is no conflict.
#[verifier::external_body]
fn insert(table: PathMatcher<usize>, pattern: &str, value: usize) -> (r: Result<
    PathMatcher<usize>,
    String,
>)
    requires
        !has_too_many_parameters(pattern@),
        !any_is_mixed_up(patterns(inserted(table)), pattern@),
        any_loses_count(patterns(inserted(table)), pattern@) ==> first_judged(
            spared(patterns(inserted(table)), pattern@).push(pattern@),
            0,
        ) is None,
    ensures
        match r {
            Ok(filled) => {
                &&& refusal(patterns(inserted(table)), pattern@) is None
                &&& inserted(filled) == inserted(table).push((pattern@, value))
            },
            Err(text) => refusal(patterns(inserted(table)), pattern@) == Some(text@),
        },
        is_literal(pattern@) && !patterns(inserted(table)).contains(pattern@) && !patterns(
            inserted(table),
        ).contains(Seq::empty()) ==> r is Ok,
        is_misread(pattern@) ==> r is Err,
{
    let mut table = table;
    table.insert(pattern, value).map_err(|error| error.to_string())?;
    Ok(table)
}

proof fn lemma_closing_bounds(pattern: Seq<char>, from: int)
    requires
        0 <= from,
    ensures
        closing(pattern, from) matches Some(end) ==> from <= end < pattern.len(),
    decreases pattern.len() - from,
{
    if from < pattern.len() {
        if is_doubled(pattern, from, '{') || is_doubled(pattern, from, '}') {
            lemma_closing_bounds(pattern, from + 2);
        } else if pattern[from] != '}' && pattern[from] != '*' && pattern[from] != '/' {
            lemma_closing_bounds(pattern, from + 1);
        }
    }
}

proof fn lemma_parameter_bounds(pattern: Seq<char>, from: int)
    requires
        0 <= from,
    ensures
        forall|k: int|
            0 <= k < parameters(pattern, from).len() ==> from <= (
            #[trigger] parameters(pattern, from)[k]).0 && parameters(pattern, from)[k].0 + 2
                <= parameters(pattern, from)[k].1 < pattern.len(),
    decreases pattern.len() - from,
{
    if from < pattern.len() {
        if is_doubled(pattern, from, '{') || is_doubled(pattern, from, '}') {
            lemma_parameter_bounds(pattern, from + 2);
            assert(parameters(pattern, from) == parameters(pattern, from + 2));
        } else if pattern[from] == '}' {
            assert(parameters(pattern, from).len() == 0);
        } else if pattern[from] != '{' {
            lemma_parameter_bounds(pattern, from + 1);
            assert(parameters(pattern, from) == parameters(pattern, from + 1));
        } else if let Some(end) = parameter_end(pattern, from) {
            let rest = parameters(pattern, end + 1);
            lemma_parameter_bounds(pattern, end + 1);
            assert forall|k: int| 0 <= k < parameters(pattern, from).len() implies from <= (
            #[trigger] parameters(pattern, from)[k]).0 && parameters(pattern, from)[k].0 + 2
                <= parameters(pattern, from)[k].1 < pattern.len() by {
                if pattern[from + 1] == '*' {
                    assert(parameters(pattern, from)[k] == rest[k]);
                } else if k > 0 {
                    assert(parameters(pattern, from)[k] == rest[k - 1]);
                }
            }
        }
    }
}

fn doubled(chars: &Vec<char>, at: usize, brace: char) -> (r: bool)
    requires
        at <= chars.len(),
    ensures
        r == is_doubled(chars@, at as int, brace),
{
    at < chars.len() && chars.len() - at > 1 && chars[at] == brace && chars[at + 1] == brace
}

fn find_closing(chars: &Vec<char>, from: usize) -> (r: Option<usize>)
    requires
        from <= chars.len(),
    ensures
        match r {
            Some(end) => closing(chars@, from as int) == Some(end as int) && from <= end
                < chars.len(),
            None => closing(chars@, from as int) is None,
        },
{
    let mut i: usize = from;
    while i < chars.len()
        invariant
            from <= i <= chars.len(),
            closing(chars@, from as int) == closing(chars@, i as int),
        decreases chars.len() - i,
    {
        if doubled(chars, i, '{') || doubled(chars, i, '}') {
            i = i + 2;
        } else if chars[i] == '}' {
            return Some(i);
        } else if chars[i] == '*' || chars[i] == '/' {
            return None;
        } else {
            i = i + 1;
        }
    }
    None
}

fn find_end(chars: &Vec<char>, from: usize) -> (r: Option<usize>)
    requires
        from < chars.len(),
    ensures
        match r {
            Some(end) => parameter_end(chars@, from as int) == Some(end as int) && from + 2 <= end
                < chars.len(),
            None => parameter_end(chars@, from as int) is None,
        },
{
    if chars.len() - from < 2 || chars[from + 1] == '}' {
        return None;
    }
    match find_closing(chars, from + 2) {
        Some(end) => if chars[from + 1] == '*' && end == from + 2 {
            None
        } else {
            Some(end)
        },
        None => None,
    }
}

/// The indices of a list of parameters.
spec fn spans(list: Seq<(usize, usize)>) -> Seq<(int, int)> {
    list.map_values(|p: (usize, usize)| (p.0 as int, p.1 as int))
}

fn find_parameters(chars: &Vec<char>) -> (r: Vec<(usize, usize)>)
    ensures
        spans(r@) == parameters(chars@, 0),
{
    let mut found: Vec<(usize, usize)> = Vec::new();
    let mut i: usize = 0;
    assert(spans(found@) + parameters(chars@, 0) =~= parameters(chars@, 0));
    while i < chars.len()
        invariant
            i <= chars.len(),
            spans(found@) + parameters(chars@, i as int) == parameters(chars@, 0),
        decreases chars.len() - i,
    {
        if doubled(chars, i, '{') || doubled(chars, i, '}') {
            i = i + 2;
        } else if chars[i] == '}' {
            assert(spans(found@) + Seq::<(int, int)>::empty() =~= spans(found@));
            return found;
        } else if chars[i] != '{' {
            i = i + 1;
        } else {
            let end = match find_end(chars, i) {
                Some(end) => end,
                None => {
                    assert(spans(found@) + Seq::<(int, int)>::empty() =~= spans(found@));
                    return found;
                },
            };
            if chars[i + 1] != '*' {
                let ghost before = spans(found@);
                let ghost rest = parameters(chars@, end + 1);
                found.push((i, end));
                assert(spans(found@) + rest =~= before + (seq![(i as int, end as int)] + rest));
            }
            i = end + 1;
        }
    }
    assert(spans(found@) + Seq::<(int, int)>::empty() =~= spans(found@));
    found
}

fn find_catch_all(chars: &Vec<char>) -> (r: Option<usize>)
    ensures
        match r {
            Some(at) => catch_all(chars@, 0) == Some(at as int) && at < chars.len(),
            None => catch_all(chars@, 0) is None,
        },
{
    let mut i: usize = 0;
    while i < chars.len()
        invariant
            i <= chars.len(),
            catch_all(chars@, 0) == catch_all(chars@, i as int),
        decreases chars.len() - i,
    {
        if doubled(chars, i, '{') || doubled(chars, i, '}') {
            i = i + 2;
        } else if chars[i] == '}' {
            return None;
        } else if chars[i] != '{' {
            i = i + 1;
        } else {
            match find_end(chars, i) {
                Some(end) => {
                    if chars[i + 1] == '*' {
                        return Some(i);
                    }
                    i = end + 1;
                },
                None => {
                    return None;
                },
            }
        }
    }
    None
}

/// Append `chars[from..to]`.
fn push_range(out: &mut Vec<char>, chars: &Vec<char>, from: usize, to: usize)
    requires
        from <= to <= chars.len(),
    ensures
        final(out)@ == old(out)@ + chars@.subrange(from as int, to as int),
{
    let ghost before = out@;
    let mut i: usize = from;
    assert(before + chars@.subrange(from as int, from as int) =~= before);
    while i < to
        invariant
            from <= i <= to <= chars.len(),
            out@ == before + chars@.subrange(from as int, i as int),
        decreases to - i,
    {
        out.push(chars[i]);
        i = i + 1;
        assert(before + chars@.subrange(from as int, i as int) =~= (before + chars@.subrange(
            from as int,
            i - 1,
        )).push(chars@[i - 1]));
    }
}

/// The first `to` characters with every named parameter called by the same letter.
fn rename(chars: &Vec<char>, to: usize) -> (r: Vec<char>)
    requires
        to <= chars.len(),
    ensures
        r@ == renamed(chars@.take(to as int), 0),
{
    let mut all: Vec<char> = Vec::new();
    push_range(&mut all, chars, 0, to);
    let ghost whole = chars@.take(to as int);
    assert(all@ =~= whole);
    let mut out: Vec<char> = Vec::new();
    let mut i: usize = 0;
    assert(out@ + renamed(whole, 0) =~= renamed(whole, 0));
    while i < all.len()
        invariant
            i <= all.len(),
            all@ == whole,
            whole == chars@.take(to as int),
            out@ + renamed(whole, i as int) == renamed(whole, 0),
        decreases all.len() - i,
    {
        let ghost before = out@;
        if doubled(&all, i, '{') || doubled(&all, i, '}') {
            push_range(&mut out, &all, i, i + 2);
            assert(out@ + renamed(whole, i + 2) =~= before + renamed(whole, i as int));
            i = i + 2;
        } else if all[i] == '}' {
            let end = all.len();
            push_range(&mut out, &all, i, end);
            assert(out@ =~= before + whole.skip(i as int));
            return out;
        } else if all[i] != '{' {
            push_range(&mut out, &all, i, i + 1);
            assert(out@ + renamed(whole, i + 1) =~= before + renamed(whole, i as int));
            i = i + 1;
        } else {
            match find_end(&all, i) {
                Some(end) => {
                    if all[i + 1] == '*' {
                        push_range(&mut out, &all, i, end + 1);
                    } else {
                        out.push('{');
                        out.push('a');
                        out.push('}');
                        assert(out@ =~= before + seq!['{', 'a', '}']);
                    }
                    assert(out@ + renamed(whole, end + 1) =~= before + renamed(whole, i as int));
                    i = end + 1;
                },
                None => {
                    let end = all.len();
                    push_range(&mut out, &all, i, end);
                    assert(out@ =~= before + whole.skip(i as int));
                    return out;
                },
            }
        }
    }
    assert(out@ + Seq::<char>::empty() =~= out@);
    out
}

fn same_chars(a: &Vec<char>, b: &Vec<char>) -> (r: bool)
    ensures
        r == (a@ == b@),
{
    if a.len() != b.len() {
        return false;
    }
    let mut i: usize = 0;
    while i < a.len()
        invariant
            i <= a.len(),
            a.len() == b.len(),
            forall|j: int| 0 <= j < i ==> a@[j] == b@[j],
        decreases a.len() - i,
    {
        if a[i] != b[i] {
            return false;
        }
        i = i + 1;
    }
    assert(a@ =~= b@);
    true
}

/// Whether the name of a parameter is a single byte.
fn is_short(chars: &Vec<char>, parameter: (usize, usize)) -> (r: bool)
    requires
        parameter.0 + 2 <= parameter.1 < chars.len(),
    ensures
        r == has_short_name(chars@, (parameter.0 as int, parameter.1 as int)),
{
    parameter.1 - parameter.0 == 2 && chars[parameter.0 + 1] < '\u{80}'
}

/// A pattern that was read.
struct Reading {
    chars: Vec<char>,
    parameters: Vec<(usize, usize)>,
}

impl Reading {
    spec fn wf(&self) -> bool {
        spans(self.parameters@) == parameters(self.chars@, 0)
    }

    fn of(pattern: &str) -> (r: Self)
        ensures
            r.wf(),
            r.chars@ == pattern@,
    {
        let chars = chars_of(pattern);
        let parameters = find_parameters(&chars);
        Reading { chars, parameters }
    }

    /// The parameter with a number.
    fn parameter(&self, number: usize) -> (r: (usize, usize))
        requires
            self.wf(),
            number < self.parameters.len(),
        ensures
            (r.0 as int, r.1 as int) == parameters(self.chars@, 0)[number as int],
            r.0 + 2 <= r.1 < self.chars.len(),
    {
        proof {
            lemma_parameter_bounds(self.chars@, 0);
            assert(spans(self.parameters@)[number as int] == parameters(self.chars@, 0)[number as int]);
        }
        self.parameters[number]
    }

    /// The number of the first parameter with a brace behind it that is misread.
    fn first_misread(&self) -> (r: usize)
        requires
            self.wf(),
        ensures
            r == first_misread(self.chars@, 0),
            r <= self.parameters.len(),
    {
        let mut k: usize = 0;
        assert(spans(self.parameters@).len() == self.parameters@.len());
        while k < self.parameters.len()
            invariant
                self.wf(),
                k <= self.parameters.len(),
                parameters(self.chars@, 0).len() == self.parameters.len(),
                first_misread(self.chars@, 0) == first_misread(self.chars@, k as int),
            decreases self.parameters.len() - k,
        {
            let parameter = self.parameter(k);
            if !is_short(&self.chars, parameter) && doubled(&self.chars, parameter.1 + 1, '{') {
                return k;
            }
            k = k + 1;
        }
        k
    }

    /// Whether a misread brace can be read on.
    fn reads_on(&self, at: usize) -> (r: bool)
        requires
            at <= self.chars.len(),
        ensures
            r == reads_on(self.chars@, at as int),
    {
        let chars = &self.chars;
        if chars.len() - at < 3 || chars[at + 2] == '}' {
            return false;
        }
        let next: usize = if doubled(chars, at + 2, '{') {
            at + 4
        } else {
            at + 3
        };
        find_closing(chars, next).is_some()
    }

    fn count_closing_braces(&self) -> (r: usize)
        ensures
            r == closing_braces(self.chars@, 0),
    {
        let chars = &self.chars;
        let mut count: usize = 0;
        let mut i: usize = 0;
        while i < chars.len()
            invariant
                chars == self.chars,
                i <= chars.len(),
                count <= i,
                closing_braces(chars@, 0) == count + closing_braces(chars@, i as int),
            decreases chars.len() - i,
        {
            if doubled(chars, i, '{') || doubled(chars, i, '}') {
                i = i + 2;
            } else {
                if chars[i] == '}' {
                    count = count + 1;
                }
                i = i + 1;
            }
        }
        count
    }

    fn has_too_many_parameters(&self) -> (r: bool)
        requires
            self.wf(),
        ensures
            r == has_too_many_parameters(self.chars@),
    {
        assert(spans(self.parameters@).len() == self.parameters@.len());
        let first = self.first_misread();
        if first >= self.parameters.len() {
            return self.parameters.len() >= TOO_MANY_PARAMETERS;
        }
        let end = self.parameter(first).1;
        first + 1 >= TOO_MANY_PARAMETERS || (self.reads_on(end + 1) && self.count_closing_braces()
            >= TOO_MANY_PARAMETERS)
    }

    fn is_mixed_up(&self, known: &Reading) -> (r: bool)
        requires
            self.wf(),
            known.wf(),
        ensures
            r == is_mixed_up(known.chars@, self.chars@),
    {
        assert(spans(self.parameters@).len() == self.parameters@.len());
        assert(spans(known.parameters@).len() == known.parameters@.len());
        let first = self.first_misread();
        if first >= self.parameters.len() || first >= known.parameters.len() {
            return false;
        }
        let end = self.parameter(first).1;
        let known_end = known.parameter(first).1;
        doubled(&known.chars, known_end + 1, '{') && same_chars(
            &rename(&self.chars, end + 1),
            &rename(&known.chars, known_end + 1),
        )
    }

    fn is_behind_its_letter(&self, at: usize, number: usize) -> (r: bool)
        requires
            at <= self.chars.len(),
        ensures
            r == is_behind_its_letter(self.chars@, at as int, number as int),
    {
        if at < 5 || !doubled(&self.chars, at - 2, '}') || !doubled(&self.chars, at - 5, '{') {
            return false;
        }
        let letter: u32 = self.chars[at - 3] as u32;
        let first: u32 = 'a' as u32;
        letter >= first && (letter - first) as usize == number
    }

    fn has_doubled_brace(&self, from: usize) -> (r: bool)
        ensures
            r == has_doubled_brace(self.chars@, from as int),
    {
        let mut i: usize = from;
        while i < self.chars.len()
            invariant
                from <= i,
                forall|j: int| from <= j < i ==> !#[trigger] is_doubled_brace(self.chars@, j),
            decreases self.chars.len() - i,
        {
            let is_here = doubled(&self.chars, i, '{') || doubled(&self.chars, i, '}');
            assert(is_here == is_doubled_brace(self.chars@, i as int));
            if is_here {
                return true;
            }
            i = i + 1;
        }
        false
    }

    fn is_shifted(&self, number: usize) -> (r: bool)
        requires
            self.wf(),
            number < self.parameters.len(),
        ensures
            r == is_shifted(self.chars@, number as int),
    {
        let ghost all = parameters(self.chars@, 0);
        assert(spans(self.parameters@).len() == self.parameters@.len());
        let mut before = self.parameter(number);
        let mut j: usize = number + 1;
        while j < self.parameters.len()
            invariant
                self.wf(),
                all == parameters(self.chars@, 0),
                all.len() == self.parameters.len(),
                number < j <= self.parameters.len(),
                (before.0 as int, before.1 as int) == all[j - 1],
                before.0 + 2 <= before.1 < self.chars.len(),
                first_shift(self.chars@, number + 1) == first_shift(self.chars@, j as int),
            decreases self.parameters.len() - j,
        {
            let parameter = self.parameter(j);
            let brace = parameter.1 + 1;
            if doubled(&self.chars, brace, '{') && !is_short(&self.chars, before) {
                return !self.reads_on(brace) || self.has_doubled_brace(brace + 2);
            }
            before = parameter;
            j = j + 1;
        }
        false
    }

    fn loses_count(&self, known: &Reading) -> (r: bool)
        requires
            self.wf(),
            known.wf(),
        ensures
            r == loses_count(known.chars@, self.chars@),
    {
        let ghost all = parameters(known.chars@, 0);
        assert(spans(known.parameters@).len() == known.parameters@.len());
        let at = match find_catch_all(&self.chars) {
            Some(at) => at,
            None => {
                return false;
            },
        };
        let head = rename(&self.chars, at);
        let mut k: usize = 0;
        while k < known.parameters.len()
            invariant
                self.wf(),
                known.wf(),
                at < self.chars.len(),
                catch_all(self.chars@, 0) == Some(at as int),
                head@ == renamed(self.chars@.take(at as int), 0),
                all == parameters(known.chars@, 0),
                all.len() == known.parameters.len(),
                k <= known.parameters.len(),
                forall|i: int|
                    0 <= i < k ==> !(is_behind_its_letter(self.chars@, at as int, i) && head@
                        == renamed(known.chars@.take((#[trigger] all[i]).0), 0) && is_shifted(
                        known.chars@,
                        i,
                    )),
            decreases known.parameters.len() - k,
        {
            let start = known.parameter(k).0;
            if self.is_behind_its_letter(at, k) && same_chars(&head, &rename(&known.chars, start))
                && known.is_shifted(k) {
                assert(parameters(known.chars@, 0)[k as int].0 == start);
                assert(catch_all(self.chars@, 0) == Some(at as int));
                return true;
            }
            k = k + 1;
        }
        false
    }
}

/// Whether one of the patterns may be mixed up with another one.
fn finds_mixed_up(patterns: &Vec<String>, pattern: &Reading) -> (r: bool)
    requires
        pattern.wf(),
    ensures
        r == any_is_mixed_up(texts(patterns@), pattern.chars@),
{
    let ghost all = texts(patterns@);
    assert(spans(pattern.parameters@).len() == pattern.parameters@.len());
    if pattern.first_misread() >= pattern.parameters.len() {
        return false;
    }
    let mut i: usize = 0;
    while i < patterns.len()
        invariant
            i <= patterns.len(),
            pattern.wf(),
            all == texts(patterns@),
            forall|j: int| 0 <= j < i ==> !is_mixed_up(#[trigger] all[j], pattern.chars@),
        decreases patterns.len() - i,
    {
        let known = Reading::of(patterns[i].as_str());
        assert(all[i as int] == patterns@[i as int]@);
        if pattern.is_mixed_up(&known) {
            return true;
        }
        i = i + 1;
    }
    false
}

/// Whether the count is lost in a conflict with one of the patterns.
fn finds_lost_count(patterns: &Vec<String>, pattern: &Reading) -> (r: bool)
    requires
        pattern.wf(),
    ensures
        r == any_loses_count(texts(patterns@), pattern.chars@),
{
    let ghost all = texts(patterns@);
    if find_catch_all(&pattern.chars).is_none() {
        return false;
    }
    let mut i: usize = 0;
    while i < patterns.len()
        invariant
            i <= patterns.len(),
            pattern.wf(),
            all == texts(patterns@),
            forall|j: int| 0 <= j < i ==> !loses_count(#[trigger] all[j], pattern.chars@),
        decreases patterns.len() - i,
    {
        let known = Reading::of(patterns[i].as_str());
        assert(all[i as int] == patterns@[i as int]@);
        if pattern.loses_count(&known) {
            return true;
        }
        i = i + 1;
    }
    false
}

/// The patterns, with one-letter names in those with which the count is lost.
fn spare(patterns: &Vec<String>, pattern: &Reading) -> (r: Vec<String>)
    requires
        pattern.wf(),
    ensures
        texts(r@) == spared(texts(patterns@), pattern.chars@),
{
    let ghost all = texts(patterns@);
    let ghost target = spared(all, pattern.chars@);
    let mut kept: Vec<String> = Vec::new();
    let mut i: usize = 0;
    assert(texts(kept@) =~= target.take(0));
    while i < patterns.len()
        invariant
            i <= patterns.len(),
            pattern.wf(),
            all == texts(patterns@),
            target == spared(all, pattern.chars@),
            texts(kept@) == target.take(i as int),
        decreases patterns.len() - i,
    {
        let known = Reading::of(patterns[i].as_str());
        assert(all[i as int] == patterns@[i as int]@);
        let ghost before = kept@;
        if pattern.loses_count(&known) {
            let short = rename(&known.chars, known.chars.len());
            assert(known.chars@.take(known.chars.len() as int) =~= known.chars@);
            kept.push(slice_text(&short, 0, short.len()));
            assert(short@.subrange(0, short.len() as int) =~= short@);
        } else {
            kept.push(copy_text(patterns[i].as_str()));
        }
        assert(texts(kept@) =~= texts(before).push(target[i as int]));
        i = i + 1;
        assert(target.take(i as int) =~= target.take(i - 1).push(target[i - 1]));
    }
    assert(target.take(i as int) =~= target);
    kept
}

/// A literal pattern has no parameters.
proof fn lemma_literals_have_no_parameters(pattern: Seq<char>, from: int)
    requires
        !pattern.contains('{'),
        !pattern.contains('}'),
    ensures
        parameters(pattern, from).len() == 0,
    decreases pattern.len() - from,
{
    if 0 <= from < pattern.len() {
        assert(pattern.contains(pattern[from]));
        lemma_literals_have_no_parameters(pattern, from + 1);
    }
}

/// Neither has it a catch-all.
proof fn lemma_literals_have_no_catch_all(pattern: Seq<char>, from: int)
    requires
        !pattern.contains('{'),
        !pattern.contains('}'),
    ensures
        catch_all(pattern, from) is None,
    decreases pattern.len() - from,
{
    if 0 <= from < pattern.len() {
        assert(pattern.contains(pattern[from]));
        lemma_literals_have_no_catch_all(pattern, from + 1);
    }
}

/// The reason for which one of the patterns is not inserted after those before, if there is one.
fn first_reason(list: &Vec<String>) -> (r: Option<String>)
    ensures
        optional_text(r) == first_judged(texts(list@), 0),
{
    let ghost all = texts(list@);
    let mut table = new_table();
    let mut earlier: Vec<String> = Vec::new();
    let mut i: usize = 0;
    assert(texts(earlier@) =~= all.take(0));
    assert(patterns(inserted(table)) =~= all.take(0));
    while i < list.len()
        invariant
            i <= list.len(),
            all == texts(list@),
            texts(earlier@) == all.take(i as int),
            patterns(inserted(table)) == all.take(i as int),
            first_judged(all, 0) == first_judged(all, i as int),
        decreases list.len() - i,
    {
        let pattern = list[i].as_str();
        assert(all[i as int] == pattern@);
        let reading = Reading::of(pattern);
        if reading.has_too_many_parameters() {
            return Some(copy_text("Too many route parameters."));
        }
        if finds_mixed_up(&earlier, &reading) {
            let empty = new_table();
            assert(patterns(inserted(empty)) =~= Seq::empty());
            return match insert(empty, pattern, i) {
                Ok(_) => None,
                Err(text) => Some(text),
            };
        }
        if finds_lost_count(&earlier, &reading) {
            return Some(copy_text("Doubled braces stand too close to route parameters."));
        }
        let ghost before = inserted(table);
        match insert(table, pattern, i) {
            Ok(filled) => {
                table = filled;
            },
            Err(text) => {
                return Some(text);
            },
        }
        let ghost known = earlier@;
        earlier.push(copy_text(pattern));
        i = i + 1;
        proof {
            assert(all.take(i as int) =~= all.take(i - 1).push(all[i - 1]));
            assert(texts(earlier@) =~= texts(known).push(all[i - 1]));
            assert(patterns(inserted(table)) =~= patterns(before).push(all[i - 1]));
        }
    }
    None
}

/// Insert a pattern after the given ones, unless it is turned down.
pub(crate) fn add_pattern(
    table: PathMatcher<usize>,
    earlier: &Vec<String>,
    pattern: &str,
    value: usize,
) -> (r: Result<PathMatcher<usize>, String>)
    requires
        texts(earlier@) == patterns(inserted(table)),
    ensures
        match r {
            Ok(filled) => {
                &&& turned_down(patterns(inserted(table)), pattern@) is None
                &&& inserted(filled) == inserted(table).push((pattern@, value))
            },
            Err(text) => turned_down(patterns(inserted(table)), pattern@) == Some(text@),
        },
        is_literal(pattern@) && !patterns(inserted(table)).contains(pattern@) && !patterns(
            inserted(table),
        ).contains(Seq::empty()) ==> r is Ok,
{
    let reading = Reading::of(pattern);
    proof {
        if is_literal(pattern@) {
            lemma_literals_have_no_parameters(pattern@, 0);
            lemma_literals_have_no_catch_all(pattern@, 0);
        }
    }
    if reading.has_too_many_parameters() {
        return Err(copy_text("Too many route parameters."));
    }
    if finds_mixed_up(earlier, &reading) {
        let empty = new_table();
        assert(patterns(inserted(empty)) =~= Seq::empty());
        return insert(empty, pattern, value);
    }
    if finds_lost_count(earlier, &reading) {
        let mut list = spare(earlier, &reading);
        let ghost before = list@;
        list.push(copy_text(pattern));
        assert(texts(list@) =~= texts(before).push(pattern@));
        if let Some(text) = first_reason(&list) {
            return Err(text);
        }
    }
    insert(table, pattern, value)
}

/// What a match holds, as plain values.
pub open spec fn match_view(found: Option<(usize, Vec<(String, String)>)>) -> Option<
    (usize, Seq<(Seq<char>, Seq<char>)>),
> {
    match found {
        Some((value, params)) => Some((value, pair_texts(params@))),
        None => None,
    }
}

/// Whether the value found, if any, is one of those inserted, for a pattern that the captured
/// parameters make the path of where all patterns are plain.
pub open spec fn finds_a_pattern_of_the_path(
    entries: Seq<(Seq<char>, usize)>,
    path: Seq<char>,
    found: Option<(usize, Seq<(Seq<char>, Seq<char>)>)>,
) -> bool {
    found matches Some((value, params)) ==> exists|i: int|
        0 <= i < entries.len() && (#[trigger] entries[i]).1 == value && (are_plain(
            patterns(entries),
        ) ==> filled(entries[i].0, params) == Some(path))
}

/// Whether a path that was inserted as a literal pattern is found by itself, capturing nothing.
pub open spec fn finds_the_literal_pattern(
    entries: Seq<(Seq<char>, usize)>,
    path: Seq<char>,
    found: Option<(usize, Seq<(Seq<char>, Seq<char>)>)>,
) -> bool {
    forall|i: int|
        0 <= i < entries.len() && (#[trigger] entries[i]).0 == path && is_literal(path)
            ==> found == Some((entries[i].1, Seq::<(Seq<char>, Seq<char>)>::empty()))
}

/// `matchit::Router::at` finds a value that was inserted and the parameters its pattern captures,
/// depending only on what was inserted and on the path. The pattern with the parameters in it is the
/// path; that is said only where no pattern is empty or has doubled braces, since one that has may be
/// mixed up with another that writes them once. A literal pattern is found by its own path, ahead of
/// any pattern with parameters, and captures nothing.
#[verifier::external_body]
pub(crate) fn at(table: &PathMatcher<usize>, path: &str) -> (r: Option<
    (usize, Vec<(String, String)>),
>)
    ensures
        match_view(r) == matched(inserted(*table), path@),
        finds_a_pattern_of_the_path(inserted(*table), path@, match_view(r)),
        finds_the_literal_pattern(inserted(*table), path@, match_view(r)),
{
    let found = table.at(path).ok()?;
    let params = found.params.iter().map(|(key, value)| (key.to_owned(), value.to_owned()));
    Some((*found.value, params.collect()))
}

proof fn lemma_plain_has_no_doubled(pattern: Seq<char>, at: int, brace: char)
    requires
        is_plain(pattern),
        brace == '{' || brace == '}',
    ensures
        !is_doubled(pattern, at, brace),
{
    if is_doubled(pattern, at, brace) {
        assert(pattern[at + 1] == brace);
    }
}

proof fn lemma_plain_is_not_misread(pattern: Seq<char>, from: int)
    requires
        is_plain(pattern),
        0 <= from <= parameters(pattern, 0).len(),
    ensures
        first_misread(pattern, from) == parameters(pattern, 0).len(),
    decreases parameters(pattern, 0).len() - from,
{
    let all = parameters(pattern, 0);
    if from < all.len() {
        lemma_plain_has_no_doubled(pattern, all[from].1 + 1, '{');
        lemma_plain_is_not_misread(pattern, from + 1);
    }
}

/// A pattern without doubled braces is turned down for its parameters where they are too many, and
/// otherwise exactly where the path matcher refuses it.
pub proof fn a_plain_pattern_is_turned_down_by_the_matcher(
    patterns: Seq<Seq<char>>,
    pattern: Seq<char>,
)
    requires
        is_plain(pattern),
    ensures
        parameters(pattern, 0).len() >= 26 ==> turned_down(patterns, pattern) == Some(
            "Too many route parameters."@,
        ),
        parameters(pattern, 0).len() < 26 ==> turned_down(patterns, pattern) == refusal(
            patterns,
            pattern,
        ),
{
    lemma_plain_is_not_misread(pattern, 0);
    if any_is_mixed_up(patterns, pattern) {
        let i = choose|i: int| 0 <= i < patterns.len() && is_mixed_up(#[trigger] patterns[i], pattern);
        assert(is_misread(pattern));
    }
    if any_loses_count(patterns, pattern) {
        let i = choose|i: int| 0 <= i < patterns.len() && loses_count(#[trigger] patterns[i], pattern);
        let at = catch_all(pattern, 0)->0;
        lemma_plain_has_no_doubled(pattern, at - 2, '}');
    }
}

proof fn lemma_closing_shift(head: Seq<char>, rest: Seq<char>, from: int)
    requires
        0 <= from,
    ensures
        closing(head + rest, head.len() + from) == match closing(rest, from) {
            Some(end) => Some(head.len() + end),
            None => None,
        },
    decreases rest.len() - from,
{
    let whole = head + rest;
    if from < rest.len() {
        assert(whole[head.len() + from] == rest[from]);
        if from + 1 < rest.len() {
            assert(whole[head.len() + from + 1] == rest[from + 1]);
            lemma_closing_shift(head, rest, from + 2);
        }
        lemma_closing_shift(head, rest, from + 1);
    }
}

proof fn lemma_parameters_shift(head: Seq<char>, rest: Seq<char>, from: int)
    requires
        0 <= from,
    ensures
        parameters(head + rest, head.len() + from).len() == parameters(rest, from).len(),
    decreases rest.len() - from,
{
    let whole = head + rest;
    if from < rest.len() {
        assert(whole[head.len() + from] == rest[from]);
        if from + 1 < rest.len() {
            assert(whole[head.len() + from + 1] == rest[from + 1]);
            lemma_parameters_shift(head, rest, from + 2);
        }
        lemma_parameters_shift(head, rest, from + 1);
        lemma_closing_shift(head, rest, from + 2);
        if let Some(end) = parameter_end(rest, from) {
            lemma_parameters_shift(head, rest, end + 1);
        }
    }
}

proof fn lemma_closing_name(pattern: Seq<char>, from: int, end: int)
    requires
        0 <= from <= end < pattern.len(),
        pattern[end] == '}',
        end + 1 == pattern.len() || pattern[end + 1] != '}',
        forall|i: int|
            from <= i < end ==> #[trigger] pattern[i] != '{' && pattern[i] != '}' && pattern[i] != '*'
                && pattern[i] != '/',
    ensures
        closing(pattern, from) == Some(end),
    decreases end - from,
{
    if from < end {
        lemma_closing_name(pattern, from + 1, end);
    }
}

/// Each name in braces is one parameter of a pattern; a catch-all is none of the counted ones, and
/// neither is what stands outside of braces.
pub proof fn each_name_in_braces_is_a_parameter(name: Seq<char>, rest: Seq<char>, plain: char)
    requires
        name.len() > 0,
        forall|i: int|
            0 <= i < name.len() ==> #[trigger] name[i] != '{' && name[i] != '}' && name[i] != '*'
                && name[i] != '/',
        rest.len() == 0 || rest[0] != '}',
        plain != '{',
        plain != '}',
    ensures
        parameters(seq!['{'] + name + seq!['}'] + rest, 0).len() == 1 + parameters(rest, 0).len(),
        parameters(seq!['{', '*'] + name + seq!['}'] + rest, 0).len() == parameters(rest, 0).len(),
        parameters(seq![plain] + rest, 0).len() == parameters(rest, 0).len(),
        parameters(Seq::empty(), 0).len() == 0,
{
    let head = seq!['{'] + name + seq!['}'];
    let whole = head + rest;
    let end = head.len() - 1;
    assert forall|i: int| 1 <= i < end implies #[trigger] whole[i] != '{' && whole[i] != '}'
        && whole[i] != '*' && whole[i] != '/' by {
        assert(whole[i] == name[i - 1]);
    }
    if rest.len() > 0 {
        assert(whole[end + 1] == rest[0]);
    }
    assert(whole[1] == name[0]);
    lemma_closing_name(whole, 2, end);
    lemma_parameters_shift(head, rest, 0);
    let star = seq!['{', '*'] + name + seq!['}'];
    let starred = star + rest;
    let last = star.len() - 1;
    assert forall|i: int| 2 <= i < last implies #[trigger] starred[i] != '{' && starred[i] != '}'
        && starred[i] != '*' && starred[i] != '/' by {
        assert(starred[i] == name[i - 2]);
    }
    if rest.len() > 0 {
        assert(starred[last + 1] == rest[0]);
    }
    lemma_closing_name(starred, 2, last);
    lemma_parameters_shift(star, rest, 0);
    lemma_parameters_shift(seq![plain], rest, 0);
}

} // verus!
