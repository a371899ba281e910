//! Typed access to the segments a route captures.

use vstd::prelude::*;
#[allow(unused_imports)]
use vstd::string::StringExecFns;

use crate::openapi::schema::{ExtractorSchema, ParameterLocation};
use crate::routing::param::Params;
#[allow(unused_imports)]
use crate::text::decimal;
use crate::text::{copy_text, decimal_text};

verus! {

/// The route's path parameters as a value of type `T`.
///
/// A struct or map is filled by name, a tuple in the order the route declares the parameters, and a
/// single value when the route captures exactly one.
#[derive(Debug, Clone, Copy, PartialEq, Eq, PartialOrd, Ord, Hash)]
pub struct Path<T>(pub T);

impl<T> Path<T> {
    /// What the extractor contributes to the OpenAPI document.
    pub fn openapi() -> (r: ExtractorSchema)
        ensures
            r.location == ParameterLocation::Path,
            r.content_type is None,
            r.schema is None,
    {
        ExtractorSchema { location: ParameterLocation::Path, content_type: None, schema: None }
    }
}

/// Raised when the captured path parameters do not fit the requested type.
#[derive(Debug, Clone)]
pub struct PathError(String);

impl PathError {
    /// What is wrong with the parameters.
    pub closed spec fn detail(&self) -> Seq<char> {
        self.0@
    }

    /// Report what is wrong with the parameters.
    pub fn new(detail: &str) -> (r: Self)
        ensures
            r.detail() == detail@,
    {
        PathError(copy_text(detail))
    }

    /// The error's text.
    pub fn message(&self) -> (r: String)
        ensures
            r@ == "Invalid path parameters: "@ + self.detail(),
    {
        let mut text = copy_text("Invalid path parameters: ");
        text.append(self.0.as_str());
        text
    }

    /// The status the error is answered with.
    pub fn status(&self) -> (r: u16)
        ensures
            r == 400,
    {
        400
    }
}

/// One captured parameter.
#[derive(Debug)]
pub struct ParamDeserializer {
    /// Its name in the route pattern.
    pub name: String,
    /// Its value.
    pub value: String,
}

impl ParamDeserializer {
    /// The value read as a type called `expected`, or an error that names the parameter.
    pub fn parse<T>(&self, expected: &str, parsed: Result<T, String>) -> (r: Result<T, PathError>)
        ensures
            match parsed {
                Ok(value) => r == Ok::<T, PathError>(value),
                Err(error) => r is Err && r->Err_0.detail() == "path parameter `"@ + self.name@
                    + "` is not a valid "@ + expected@ + ": "@ + error@,
            },
    {
        match parsed {
            Ok(value) => Ok(value),
            Err(error) => {
                let mut text = copy_text("path parameter `");
                text.append(self.name.as_str());
                text.append("` is not a valid ");
                text.append(expected);
                text.append(": ");
                text.append(error.as_str());
                Err(PathError(text))
            },
        }
    }
}

/// All captured parameters: by name for structs and maps, by position for sequences, and as the
/// single captured value for a primitive.
#[derive(Debug)]
pub struct PathDeserializer {
    params: Params,
    at: usize,
}

impl PathDeserializer {
    /// The parameters, in the order of the route pattern.
    pub closed spec fn pairs(&self) -> Seq<(Seq<char>, Seq<char>)> {
        self.params@
    }

    /// How many parameters were handed out.
    pub closed spec fn position(&self) -> int {
        self.at as int
    }

    /// Whether no more parameters were handed out than there are.
    pub open spec fn wf(&self) -> bool {
        0 <= self.position() <= self.pairs().len()
    }

    /// Read the given parameters.
    pub fn new(params: Params) -> (r: Self)
        ensures
            r.pairs() == params@,
            r.position() == 0,
            r.wf(),
    {
        PathDeserializer { params, at: 0 }
    }

    /// The one captured parameter a primitive target needs, or an error naming the mismatch.
    pub fn single(&self) -> (r: Result<ParamDeserializer, PathError>)
        ensures
            match r {
                Ok(param) => self.pairs().len() == 1 && (param.name@, param.value@)
                    == self.pairs()[0],
                Err(error) => self.pairs().len() != 1 && error.detail()
                    == "the route captures "@ + decimal(self.pairs().len())
                    + " parameters, but the handler asks for a single value"@,
            },
    {
        if self.params.len() == 1 {
            let (name, value) = self.params.pair(0);
            Ok(ParamDeserializer { name: copy_text(name), value: copy_text(value) })
        } else {
            let mut text = copy_text("the route captures ");
            let count = decimal_text(self.params.len() as u64);
            text.append(count.as_str());
            text.append(" parameters, but the handler asks for a single value");
            Err(PathError(text))
        }
    }

    /// Whether a tuple of `len` elements can be filled.
    pub fn tuple(&self, len: usize) -> (r: Result<(), PathError>)
        ensures
            match r {
                Ok(_) => self.pairs().len() == len,
                Err(error) => self.pairs().len() != len && error.detail()
                    == "the route captures "@ + decimal(self.pairs().len())
                    + " parameters, but the handler asks for "@ + decimal(len as nat),
            },
    {
        if self.params.len() == len {
            Ok(())
        } else {
            let mut text = copy_text("the route captures ");
            let count = decimal_text(self.params.len() as u64);
            text.append(count.as_str());
            text.append(" parameters, but the handler asks for ");
            let wanted = decimal_text(len as u64);
            text.append(wanted.as_str());
            Err(PathError(text))
        }
    }

    /// Whether an optional target is absent: it is where the route captures nothing.
    pub fn is_none(&self) -> (r: bool)
        ensures
            r == (self.pairs().len() == 0),
    {
        self.params.len() == 0
    }

    /// How many parameters are left to hand out.
    pub fn remaining(&self) -> (r: usize)
        requires
            self.wf(),
        ensures
            r == self.pairs().len() - self.position(),
    {
        self.params.len() - self.at
    }

    /// The next parameter, in the order of the route pattern.
    pub fn next(&mut self) -> (r: Option<ParamDeserializer>)
        requires
            old(self).wf(),
        ensures
            final(self).wf(),
            final(self).pairs() == old(self).pairs(),
            match r {
                Some(param) => old(self).position() < old(self).pairs().len() && (
                param.name@,
                param.value@,
                ) == old(self).pairs()[old(self).position()] && final(self).position() == old(
                    self,
                ).position() + 1,
                None => old(self).position() == old(self).pairs().len() && final(self).position()
                    == old(self).position(),
            },
    {
        if self.at < self.params.len() {
            let (name, value) = self.params.pair(self.at);
            let param = ParamDeserializer { name: copy_text(name), value: copy_text(value) };
            self.at = self.at + 1;
            Some(param)
        } else {
            None
        }
    }
}

/// A captured segment that names a variant of an enum.
#[derive(Debug)]
pub struct UnitVariant {
    /// The name.
    pub value: String,
}

impl UnitVariant {
    /// A segment names a variant and nothing more, so any variant with a payload is out of reach.
    pub fn carries_data(&self) -> (r: PathError)
        ensures
            r.detail() == "path parameter value `"@ + self.value@
                + "` names a variant that carries data, which a single URL segment cannot supply"@,
    {
        let mut text = copy_text("path parameter value `");
        text.append(self.value.as_str());
        text.append(
            "` names a variant that carries data, which a single URL segment cannot supply",
        );
        PathError(text)
    }
}

/// The parameters that are stored with a request; none where none were stored.
pub open spec fn stored_pairs(stored: Option<&Params>) -> Seq<(Seq<char>, Seq<char>)> {
    match stored {
        Some(params) => params@,
        None => Seq::empty(),
    }
}

/// Whether a value may be read from parameters: from their reader, before any were handed out.
pub open spec fn may_deserialize<T, D: Fn(PathDeserializer) -> Result<T, PathError>>(
    deserialize: D,
    params: Seq<(Seq<char>, Seq<char>)>,
    out: Result<T, PathError>,
) -> bool {
    exists|reader: PathDeserializer| reader.pairs() == params && reader.position() == 0
        && #[trigger] call_ensures(deserialize, (reader,), out)
}

impl<T> Path<T> {
    /// Extract a value from the parameters that the router stored with the request, given what reads
    /// it from them.
    pub fn extract<D: Fn(PathDeserializer) -> Result<T, PathError>>(
        stored: Option<&Params>,
        deserialize: D,
    ) -> (r: Result<Path<T>, PathError>)
        requires
            forall|reader: PathDeserializer|
                reader.wf() ==> #[trigger] call_requires(deserialize, (reader,)),
        ensures
            exists|out: Result<T, PathError>| #[trigger]
                may_deserialize(
                    deserialize,
                    stored_pairs(stored),
                    out,
                ) && match out {
                    Ok(value) => r == Ok::<Path<T>, PathError>(Path(value)),
                    Err(error) => r == Err::<Path<T>, PathError>(error),
                },
    {
        let params = Params::extract(stored);
        assert(params@ =~= stored_pairs(stored));
        let reader = PathDeserializer::new(params);
        let out = deserialize(reader);
        assert(may_deserialize(deserialize, stored_pairs(stored), out));
        match out {
            Ok(value) => Ok(Path(value)),
            Err(error) => Err(error),
        }
    }
}

/// A value is read from all parameters that were stored, and from none where none were.
pub proof fn a_value_is_read_from_what_was_stored(params: &Params)
    ensures
        stored_pairs(Some(params)) == params@,
        stored_pairs(None).len() == 0,
{
}

} // verus!
