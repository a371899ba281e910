//! The specifications that documented handlers register, and the components they define.

use vstd::prelude::*;

use crate::openapi::entry::RouteHandlerDoc;
#[allow(unused_imports)]
use crate::openapi::schema::{ExtractorSchema, ResponseSchema};
#[allow(unused_imports)]
use crate::text::{precedes, precedes_is_a_total_order};
use crate::text::{copy_text, same, text_precedes};

verus! {

/// Metadata captured for every documented handler.
#[derive(Debug)]
pub struct HandlerSpec {
    /// Fully qualified handler name (module and function).
    pub handler_type: String,
    /// Default display name derived from the module path (without the crate prefix).
    pub operation_name: String,
    /// Documentation collected from the handler's doc comments.
    pub docs: Option<String>,
    /// Deprecation flag extracted from handler attributes.
    pub deprecated: bool,
    /// What each extractor argument describes of itself.
    pub parameters: Vec<Option<ExtractorSchema>>,
    /// Names of each documented extractor argument, aligned with `parameters`.
    pub parameter_names: Vec<String>,
    /// What the responder describes of itself.
    pub response: Option<Vec<ResponseSchema>>,
    /// The named schemas that parameters and responders define, dependencies included.
    pub schemas: Vec<(String, usize)>,
}

/// The position of the first specification at or after `from` that has a handler's name.
pub open spec fn spec_position(
    registry: Seq<HandlerSpec>,
    handler_type: Seq<char>,
    from: int,
) -> Option<usize>
    decreases registry.len() - from,
{
    if from < 0 || from >= registry.len() {
        None
    } else if registry[from].handler_type@ == handler_type {
        Some(from as usize)
    } else {
        spec_position(registry, handler_type, from + 1)
    }
}

/// Find the specification a handler registered.
pub fn find_handler_spec(registry: &Vec<HandlerSpec>, handler_type: &str) -> (r: Option<usize>)
    ensures
        r == spec_position(registry@, handler_type@, 0),
        r matches Some(i) ==> i < registry@.len() && registry@[i as int].handler_type@
            == handler_type@,
{
    let mut i: usize = 0;
    while i < registry.len()
        invariant
            i <= registry.len(),
            spec_position(registry@, handler_type@, 0) == spec_position(
                registry@,
                handler_type@,
                i as int,
            ),
        decreases registry.len() - i,
    {
        if same(registry[i].handler_type.as_str(), handler_type) {
            return Some(i);
        }
        i = i + 1;
    }
    None
}

/// Describe a handler by its name.
pub fn describe_handler(registry: &Vec<HandlerSpec>, handler_type: &str) -> (r: RouteHandlerDoc)
    ensures
        r.handler_type@ == handler_type@,
        r.spec == spec_position(registry@, handler_type@, 0),
        r.spec matches Some(i) ==> i < registry@.len(),
{
    RouteHandlerDoc {
        handler_type: copy_text(handler_type),
        spec: find_handler_spec(registry, handler_type),
    }
}

/// The named schemas of a document, sorted by name, each name once.
#[derive(Debug)]
pub struct Components(Vec<(String, usize)>);

/// The names and schemas of a list of definitions.
pub open spec fn definitions(defs: Seq<(String, usize)>) -> Seq<(Seq<char>, usize)> {
    defs.map_values(|d: (String, usize)| (d.0@, d.1))
}

/// Whether definitions are sorted by name, each name once.
pub open spec fn is_sorted(defs: Seq<(Seq<char>, usize)>) -> bool {
    forall|i: int, j: int|
        0 <= i < j < defs.len() ==> precedes((#[trigger] defs[i]).0, (#[trigger] defs[j]).0)
            && defs[i].0 != defs[j].0
}

/// The schema a sorted list defines for a name, as a map.
pub open spec fn as_map(defs: Seq<(Seq<char>, usize)>) -> Map<Seq<char>, usize>
    decreases defs.len(),
{
    if defs.len() == 0 {
        Map::empty()
    } else {
        as_map(defs.drop_last()).insert(defs.last().0, defs.last().1)
    }
}

/// A map with the definitions added that it does not have yet, in order.
pub open spec fn with_definitions(
    map: Map<Seq<char>, usize>,
    defs: Seq<(Seq<char>, usize)>,
) -> Map<Seq<char>, usize>
    decreases defs.len(),
{
    if defs.len() == 0 {
        map
    } else {
        let before = with_definitions(map, defs.drop_last());
        if before.contains_key(defs.last().0) {
            before
        } else {
            before.insert(defs.last().0, defs.last().1)
        }
    }
}

proof fn lemma_as_map(defs: Seq<(Seq<char>, usize)>)
    requires
        is_sorted(defs),
    ensures
        forall|i: int|
            0 <= i < defs.len() ==> as_map(defs).contains_key((#[trigger] defs[i]).0) && as_map(
                defs,
            )[defs[i].0] == defs[i].1,
        forall|name: Seq<char>|
            as_map(defs).contains_key(name) ==> exists|i: int|
                0 <= i < defs.len() && (#[trigger] defs[i]).0 == name,
    decreases defs.len(),
{
    if defs.len() > 0 {
        let init = defs.drop_last();
        assert(is_sorted(init)) by {
            assert forall|i: int, j: int| 0 <= i < j < init.len() implies precedes(
                (#[trigger] init[i]).0,
                (#[trigger] init[j]).0,
            ) && init[i].0 != init[j].0 by {
                assert(defs[i] == init[i] && defs[j] == init[j]);
            }
        }
        lemma_as_map(init);
        assert forall|i: int| 0 <= i < defs.len() implies as_map(defs).contains_key(
            (#[trigger] defs[i]).0,
        ) && as_map(defs)[defs[i].0] == defs[i].1 by {
            if i < init.len() {
                assert(init[i] == defs[i]);
                assert(defs[i].0 != defs[defs.len() - 1].0);
            }
        }
        assert forall|name: Seq<char>| as_map(defs).contains_key(name) implies exists|i: int|
            0 <= i < defs.len() && (#[trigger] defs[i]).0 == name by {
            if name != defs.last().0 {
                assert(as_map(init).contains_key(name));
                let i = choose|i: int| 0 <= i < init.len() && (#[trigger] init[i]).0 == name;
                assert(defs[i].0 == name);
            } else {
                assert(defs[defs.len() - 1].0 == name);
            }
        }
    }
}

impl View for Components {
    type V = Map<Seq<char>, usize>;

    closed spec fn view(&self) -> Map<Seq<char>, usize> {
        as_map(definitions(self.0@))
    }
}

impl Components {
    /// The definitions in order.
    pub closed spec fn listed(&self) -> Seq<(Seq<char>, usize)> {
        definitions(self.0@)
    }

    /// Whether the definitions are sorted by name, each name once.
    pub open spec fn wf(&self) -> bool {
        is_sorted(self.listed()) && self@ == as_map(self.listed())
    }

    /// No definitions.
    pub fn new() -> (r: Self)
        ensures
            r.wf(),
            r@ == Map::<Seq<char>, usize>::empty(),
            r.listed() == Seq::<(Seq<char>, usize)>::empty(),
    {
        let r = Components(Vec::new());
        assert(definitions(r.0@) =~= Seq::empty());
        r
    }

    /// Define a schema, unless its name is already taken.
    pub fn register(&mut self, name: &str, schema: usize)
        requires
            old(self).wf(),
        ensures
            final(self).wf(),
            final(self)@ == if old(self)@.contains_key(name@) {
                old(self)@
            } else {
                old(self)@.insert(name@, schema)
            },
    {
        let ghost before = self.listed();
        proof {
            lemma_as_map(before);
        }
        let mut i: usize = 0;
        while i < self.0.len()
            invariant_except_break
                i <= self.0.len(),
                before == self.listed(),
                *self == *old(self),
                forall|j: int| 0 <= j < i ==> (#[trigger] before[j]).0 != name@,
                forall|j: int| 0 <= j < i ==> precedes((#[trigger] before[j]).0, name@),
                is_sorted(before),
                self@ == as_map(before),
                forall|k: int|
                    0 <= k < before.len() ==> self@.contains_key((#[trigger] before[k]).0),
                old(self).wf(),
            ensures
                i <= self.0.len(),
                before == self.listed(),
                *self == *old(self),
                forall|j: int| 0 <= j < i ==> (#[trigger] before[j]).0 != name@,
                forall|j: int| 0 <= j < i ==> precedes((#[trigger] before[j]).0, name@),
                i < self.0.len() ==> !precedes(before[i as int].0, name@),
            decreases self.0.len() - i,
        {
            assert(before[i as int].0 == self.0@[i as int].0@);
            if same(self.0[i].0.as_str(), name) {
                return ;
            }
            if !text_precedes(self.0[i].0.as_str(), name) {
                break;
            }
            i = i + 1;
        }
        self.0.insert(i, (copy_text(name), schema));
        proof {
            let after = self.listed();
            assert(after =~= before.insert(i as int, (name@, schema)));
            assert forall|j: int| i <= j < before.len() implies precedes(
                name@,
                (#[trigger] before[j]).0,
            ) && before[j].0 != name@ by {
                precedes_is_a_total_order(before[i as int].0, name@, name@);
                if j > i {
                    precedes_is_a_total_order(name@, before[i as int].0, before[j].0);
                    assert(precedes(before[i as int].0, before[j].0));
                }
                precedes_is_a_total_order(name@, before[j].0, name@);
                if before[j].0 == name@ && j > i {
                    precedes_is_a_total_order(before[i as int].0, name@, name@);
                    assert(precedes(before[i as int].0, before[j].0));
                }
            }
            assert forall|a: int, b: int| 0 <= a < b < after.len() implies precedes(
                (#[trigger] after[a]).0,
                (#[trigger] after[b]).0,
            ) && after[a].0 != after[b].0 by {
                if a < i {
                    assert(after[a] == before[a]);
                } else if a > i {
                    assert(after[a] == before[a - 1]);
                }
                if b < i {
                    assert(after[b] == before[b]);
                } else if b > i {
                    assert(after[b] == before[b - 1]);
                }
            }
            lemma_as_map(after);
            assert(!as_map(before).contains_key(name@)) by {
                if as_map(before).contains_key(name@) {
                    let k = choose|k: int|
                        0 <= k < before.len() && (#[trigger] before[k]).0 == name@;
                }
            }
            let wanted = as_map(before).insert(name@, schema);
            assert(as_map(after) =~= wanted) by {
                assert forall|key: Seq<char>|
                    #![trigger as_map(after).contains_key(key)]
                    #![trigger wanted.contains_key(key)]
                    as_map(after).contains_key(key) == wanted.contains_key(key) && (as_map(
                        after,
                    ).contains_key(key) ==> as_map(after)[key] == wanted[key]) by {
                    if as_map(after).contains_key(key) {
                        let k = choose|k: int|
                            0 <= k < after.len() && (#[trigger] after[k]).0 == key;
                        if k < i {
                            assert(before[k] == after[k]);
                        } else if k > i {
                            assert(before[k - 1] == after[k]);
                        }
                    }
                    if as_map(before).contains_key(key) {
                        let k = choose|k: int|
                            0 <= k < before.len() && (#[trigger] before[k]).0 == key;
                        if k < i {
                            assert(after[k] == before[k]);
                        } else {
                            assert(after[k + 1] == before[k]);
                        }
                    }
                    if key == name@ {
                        assert(after[i as int].0 == name@);
                    }
                }
            }
        }
    }

    /// Define several schemas, in order, each unless its name is already taken.
    pub fn register_all(&mut self, defs: &Vec<(String, usize)>)
        requires
            old(self).wf(),
        ensures
            final(self).wf(),
            final(self)@ == with_definitions(old(self)@, definitions(defs@)),
    {
        let ghost all = definitions(defs@);
        let mut i: usize = 0;
        assert(all.take(0) =~= Seq::empty());
        while i < defs.len()
            invariant
                i <= defs.len(),
                all == definitions(defs@),
                self.wf(),
                self@ == with_definitions(old(self)@, all.take(i as int)),
            decreases defs.len() - i,
        {
            self.register(defs[i].0.as_str(), defs[i].1);
            i = i + 1;
            proof {
                assert(all.take(i as int).drop_last() =~= all.take(i - 1));
                assert(all.take(i as int).last() == all[i - 1]);
            }
        }
        assert(all.take(i as int) =~= all);
    }

    /// Define a type's schema and then those it depends on, each unless its name is already taken.
    pub fn register_type(&mut self, name: &str, schema: usize, nested: &Vec<(String, usize)>)
        requires
            old(self).wf(),
        ensures
            final(self).wf(),
            final(self)@ == with_definitions(
                old(self)@,
                seq![(name@, schema)] + definitions(nested@),
            ),
    {
        let ghost start = self@;
        self.register(name, schema);
        self.register_all(nested);
        proof {
            lemma_with_definitions_after(start, name@, schema, definitions(nested@));
        }
    }

    /// The definitions in order, for rendering.
    pub fn list(&self) -> (r: &Vec<(String, usize)>)
        ensures
            definitions(r@) == self.listed(),
    {
        &self.0
    }
}

proof fn lemma_with_definitions_after(
    map: Map<Seq<char>, usize>,
    name: Seq<char>,
    schema: usize,
    defs: Seq<(Seq<char>, usize)>,
)
    ensures
        with_definitions(map, seq![(name, schema)] + defs) == with_definitions(
            if map.contains_key(name) {
                map
            } else {
                map.insert(name, schema)
            },
            defs,
        ),
    decreases defs.len(),
{
    let all = seq![(name, schema)] + defs;
    if defs.len() == 0 {
        assert(all.drop_last() =~= Seq::empty());
        assert(all.last() == (name, schema));
        assert(with_definitions(map, all.drop_last()) == map);
    } else {
        lemma_with_definitions_after(map, name, schema, defs.drop_last());
        assert(all.drop_last() =~= seq![(name, schema)] + defs.drop_last());
        assert(all.last() == defs.last());
    }
}

/// The first definition of a name stands, however many follow.
pub proof fn the_first_definition_stands(
    map: Map<Seq<char>, usize>,
    defs: Seq<(Seq<char>, usize)>,
    name: Seq<char>,
)
    requires
        map.contains_key(name),
    ensures
        with_definitions(map, defs).contains_key(name),
        with_definitions(map, defs)[name] == map[name],
    decreases defs.len(),
{
    if defs.len() > 0 {
        the_first_definition_stands(map, defs.drop_last(), name);
    }
}

/// The first specification that has a handler's name is that of the handler.
pub proof fn the_first_specification_counts(
    registry: Seq<HandlerSpec>,
    handler_type: Seq<char>,
    from: int,
    at: int,
)
    requires
        0 <= from <= at <= registry.len() <= usize::MAX,
        forall|i: int| from <= i < at ==> (#[trigger] registry[i]).handler_type@ != handler_type,
        at < registry.len() ==> registry[at].handler_type@ == handler_type,
    ensures
        spec_position(registry, handler_type, from) == if at < registry.len() {
            Some(at as usize)
        } else {
            None
        },
    decreases at - from,
{
    if from < at {
        the_first_specification_counts(registry, handler_type, from + 1, at);
    }
}

/// Definitions are added to those that are there, which stay as they are; of several definitions of a
/// name the first counts.
pub proof fn the_first_definition_stays(
    map: Map<Seq<char>, usize>,
    defs: Seq<(Seq<char>, usize)>,
    name: Seq<char>,
    at: int,
)
    ensures
        with_definitions(map, defs).contains_key(name) <==> map.contains_key(name) || exists|i: int|
            0 <= i < defs.len() && (#[trigger] defs[i]).0 == name,
        map.contains_key(name) ==> with_definitions(map, defs)[name] == map[name],
        !map.contains_key(name) && 0 <= at < defs.len() && defs[at].0 == name && (forall|i: int|
            0 <= i < at ==> (#[trigger] defs[i]).0 != name) ==> with_definitions(map, defs)[name]
            == defs[at].1,
    decreases defs.len(),
{
    if defs.len() > 0 {
        let init = defs.drop_last();
        let before = with_definitions(map, init);
        the_first_definition_stays(map, init, name, at);
        assert forall|i: int| 0 <= i < init.len() implies #[trigger] init[i] == defs[i] by {}
        assert(defs[defs.len() - 1] == defs.last());
        if exists|i: int| 0 <= i < init.len() && (#[trigger] init[i]).0 == name {
            let i = choose|i: int| 0 <= i < init.len() && (#[trigger] init[i]).0 == name;
            assert(defs[i].0 == name);
        }
        if exists|i: int| 0 <= i < defs.len() && (#[trigger] defs[i]).0 == name {
            let i = choose|i: int| 0 <= i < defs.len() && (#[trigger] defs[i]).0 == name;
            if i < init.len() {
                assert(init[i].0 == name);
            }
        }
        if !map.contains_key(name) && 0 <= at < defs.len() && defs[at].0 == name && (forall|i: int|
            0 <= i < at ==> (#[trigger] defs[i]).0 != name) {
            assert forall|i: int| 0 <= i < at && i < init.len() implies (#[trigger] init[i]).0
                != name by {
                assert(defs[i].0 != name);
            }
            if at < init.len() {
                assert(init[at].0 == name);
                assert(before.contains_key(name));
            } else {
                assert(!before.contains_key(name)) by {
                    if exists|i: int| 0 <= i < init.len() && (#[trigger] init[i]).0 == name {
                        let i = choose|i: int|
                            0 <= i < init.len() && (#[trigger] init[i]).0 == name;
                        assert(defs[i].0 == name);
                    }
                }
            }
        }
    }
}

} // verus!
