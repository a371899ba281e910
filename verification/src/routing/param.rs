//! The parameters captured from a route's path.

use vstd::prelude::*;
#[allow(unused_imports)]
use vstd::string::StringExecFns;

use crate::text::{copy_text, same};

verus! {

/// The texts of a list of name and value pairs.
pub open spec fn pair_texts(pairs: Seq<(String, String)>) -> Seq<(Seq<char>, Seq<char>)> {
    pairs.map_values(|p: (String, String)| (p.0@, p.1@))
}

/// The value of the first pair at or after `from` that has the given name.
pub open spec fn first_value(
    pairs: Seq<(Seq<char>, Seq<char>)>,
    name: Seq<char>,
    from: int,
) -> Option<Seq<char>>
    decreases pairs.len() - from,
{
    if from < 0 || from >= pairs.len() {
        None
    } else if pairs[from].0 == name {
        Some(pairs[from].1)
    } else {
        first_value(pairs, name, from + 1)
    }
}

/// Route parameters, in the order the pattern names them.
#[derive(Debug, Clone)]
pub struct Params(Vec<(String, String)>);

impl View for Params {
    type V = Seq<(Seq<char>, Seq<char>)>;

    closed spec fn view(&self) -> Seq<(Seq<char>, Seq<char>)> {
        pair_texts(self.0@)
    }
}

/// Error returned when attempting to read a missing route parameter.
#[derive(Debug, Clone)]
pub struct MissingParam {
    name: String,
}

impl MissingParam {
    /// The name that was asked for.
    pub closed spec fn name(&self) -> Seq<char> {
        self.name@
    }

    /// Report `name` as missing.
    pub fn new(name: &str) -> (r: Self)
        ensures
            r.name() == name@,
    {
        MissingParam { name: copy_text(name) }
    }

    /// The error's text.
    pub fn message(&self) -> (r: String)
        ensures
            r@ == "Missing param `"@ + self.name() + "`"@,
    {
        let mut text = copy_text("Missing param `");
        text.append(self.name.as_str());
        text.append("`");
        text
    }

    /// The status the error is answered with.
    pub fn status(&self) -> (r: u16)
        ensures
            r == 400,
    {
        400
    }
}

impl Params {
    /// Parameters in pattern order.
    pub fn new(pairs: Vec<(String, String)>) -> (r: Self)
        ensures
            r@ == pair_texts(pairs@),
    {
        Params(pairs)
    }

    /// No parameters.
    pub fn empty() -> (r: Self)
        ensures
            r@ == Seq::<(Seq<char>, Seq<char>)>::empty(),
    {
        let r = Params(Vec::new());
        assert(r@ =~= Seq::<(Seq<char>, Seq<char>)>::empty());
        r
    }

    /// How many parameters were captured.
    pub fn len(&self) -> (r: usize)
        ensures
            r == self@.len(),
    {
        self.0.len()
    }

    /// Get the route parameter by the name.
    pub fn get(&self, name: &str) -> (r: Result<&str, MissingParam>)
        ensures
            match r {
                Ok(value) => first_value(self@, name@, 0) == Some(value@),
                Err(missing) => first_value(self@, name@, 0) is None && missing.name() == name@,
            },
    {
        let mut i: usize = 0;
        while i < self.0.len()
            invariant
                i <= self.0.len(),
                first_value(self@, name@, 0) == first_value(self@, name@, i as int),
            decreases self.0.len() - i,
        {
            assert(self@[i as int] == (self.0@[i as int].0@, self.0@[i as int].1@));
            if same(self.0[i].0.as_str(), name) {
                return Ok(self.0[i].1.as_str());
            }
            i = i + 1;
        }
        Err(MissingParam::new(name))
    }

    /// The pair at `index`.
    pub fn pair(&self, index: usize) -> (r: (&str, &str))
        requires
            index < self@.len(),
        ensures
            (r.0@, r.1@) == self@[index as int],
    {
        (self.0[index].0.as_str(), self.0[index].1.as_str())
    }

    /// An independent copy.
    pub fn copy(&self) -> (r: Self)
        ensures
            r@ == self@,
    {
        let mut pairs: Vec<(String, String)> = Vec::new();
        let mut i: usize = 0;
        while i < self.0.len()
            invariant
                i <= self.0.len(),
                pair_texts(pairs@) == self@.take(i as int),
            decreases self.0.len() - i,
        {
            let ghost before = pairs@;
            pairs.push((self.0[i].0.clone(), self.0[i].1.clone()));
            assert(pair_texts(pairs@) =~= pair_texts(before).push(
                (self.0@[i as int].0@, self.0@[i as int].1@),
            ));
            i = i + 1;
            assert(self@.take(i as int) =~= self@.take(i - 1).push(self@[i - 1]));
        }
        assert(self@.take(i as int) =~= self@);
        Params(pairs)
    }

    /// The parameters a handler extracts from what the router stored with the request.
    ///
    /// What was stored is read, not taken, so a handler may extract its parameters more than once.
    pub fn extract(stored: Option<&Params>) -> (r: Self)
        ensures
            match stored {
                Some(params) => r@ == params@,
                None => r@.len() == 0,
            },
    {
        match stored {
            Some(params) => params.copy(),
            None => Params::empty(),
        }
    }
}

/// A parameter is read by its name: the first pair of that name gives the value, and a name that no
/// pair has is missing.
pub proof fn the_first_pair_of_a_name_is_read(
    pairs: Seq<(Seq<char>, Seq<char>)>,
    name: Seq<char>,
    from: int,
    at: int,
)
    requires
        0 <= from <= at <= pairs.len(),
        forall|i: int| from <= i < at ==> (#[trigger] pairs[i]).0 != name,
        at < pairs.len() ==> pairs[at].0 == name,
    ensures
        first_value(pairs, name, from) == if at < pairs.len() {
            Some(pairs[at].1)
        } else {
            None
        },
    decreases at - from,
{
    if from < at {
        the_first_pair_of_a_name_is_read(pairs, name, from + 1, at);
    }
}

/// Pairs keep their order, their names and their values.
pub proof fn pairs_keep_their_texts(pairs: Seq<(String, String)>, i: int)
    requires
        0 <= i < pairs.len(),
    ensures
        pair_texts(pairs).len() == pairs.len(),
        pair_texts(pairs)[i].0 == pairs[i].0@,
        pair_texts(pairs)[i].1 == pairs[i].1@,
{
}

} // verus!
