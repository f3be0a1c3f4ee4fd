//! Fallback value sources.

use vstd::prelude::*;

use crate::metadata::ConfigMetadata;
use crate::path::{join, join_spec, owned};
use crate::schema::{ConfigSchema, EntryView, ref_view};
use crate::value::{Value, ValueOrigin, WithOrigin};

verus! {

/// Reads a string value from the named environment variable.
#[derive(Debug, Clone, Copy)]
pub struct Env(pub &'static str);

impl Env {
    /// The value that this source provides when its variable holds `raw`: the raw string,
    /// with the variable's path inside the environment as its origin.
    pub fn value_of(&self, raw: String) -> (r: WithOrigin)
        ensures
            r.inner == Value::String(raw),
            r.origin matches ValueOrigin::Path { source, path } && *source == ValueOrigin::EnvVars && path@ == self.0@,
    {
        WithOrigin::new(
            Value::String(raw),
            ValueOrigin::Path { source: Box::new(ValueOrigin::EnvVars), path: owned(self.0) },
        )
    }
}

/// A custom provider, known by its human-readable description. Its value is computed by the
/// caller that gathers fallbacks, which looks the provider up by this description.
#[derive(Debug, Clone, Copy)]
pub struct Manual {
    pub description: &'static str,
}

impl Manual {
    /// A provider with the specified human-readable description.
    pub fn new(description: &'static str) -> (r: Self)
        ensures
            r.description == description,
    {
        Manual { description }
    }
}

/// Location-independent source of a last-resort value for a parameter.
#[derive(Debug, Clone, Copy)]
pub enum FallbackSource {
    Env(Env),
    Manual(Manual),
}

/// A parameter whose fallback source is to be consulted: the canonical prefix of its
/// configuration, the configuration, and the parameter's index in it.
#[derive(Debug)]
pub struct FallbackRequest {
    pub prefix: String,
    pub config: &'static ConfigMetadata,
    pub param_index: usize,
}

impl FallbackRequest {
    /// The fallback source of the parameter.
    pub fn source(&self) -> (r: Option<&'static FallbackSource>)
        requires
            self.param_index < self.config.params@.len(),
        ensures
            r == self.config.params@[self.param_index as int].fallback,
    {
        self.config.params[self.param_index].fallback
    }
}

/// Requests for the parameters `0..k` of a configuration that have a fallback source.
pub open spec fn param_requests(prefix: Seq<char>, meta: &'static ConfigMetadata, k: int) -> Seq<(Seq<char>, &'static ConfigMetadata, int)>
    decreases k,
{
    if k <= 0 {
        Seq::empty()
    } else {
        param_requests(prefix, meta, k - 1) + if meta.params@[k - 1].fallback.is_some() {
            seq![(prefix, meta, k - 1)]
        } else {
            Seq::empty()
        }
    }
}

/// Requests for the first `n` registered configurations, in registration order.
pub open spec fn schema_requests(cs: Seq<EntryView>, n: int) -> Seq<(Seq<char>, &'static ConfigMetadata, int)>
    decreases n,
{
    if n <= 0 {
        Seq::empty()
    } else {
        schema_requests(cs, n - 1) + param_requests(
            cs[n - 1].prefix,
            cs[n - 1].data.metadata,
            cs[n - 1].data.metadata.params@.len() as int,
        )
    }
}

pub open spec fn request_view(r: FallbackRequest) -> (Seq<char>, &'static ConfigMetadata, int) {
    (r.prefix@, r.config, r.param_index as int)
}

/// Every mounted parameter that declares a fallback source, once per registration of its
/// configuration.
pub fn fallback_requests(schema: &ConfigSchema) -> (r: Vec<FallbackRequest>)
    ensures
        r@.map_values(|q: FallbackRequest| request_view(q)) == schema_requests(schema@.configs, schema@.configs.len() as int),
        forall|i: int| 0 <= i < r@.len() ==> #[trigger] r@[i].param_index < r@[i].config.params@.len(),
{
    let refs = schema.iter();
    let ghost cs = schema@.configs;
    let mut r: Vec<FallbackRequest> = Vec::new();
    let mut i: usize = 0;
    while i < refs.len()
        invariant
            0 <= i <= refs@.len(),
            refs@.len() == cs.len(),
            forall|j: int| 0 <= j < refs@.len() ==> #[trigger] refs@[j]@ == ref_view(cs[j], schema@),
            r@.map_values(|q: FallbackRequest| request_view(q)) == schema_requests(cs, i as int),
            forall|j: int| 0 <= j < r@.len() ==> #[trigger] r@[j].param_index < r@[j].config.params@.len(),
        decreases refs@.len() - i,
    {
        let c = &refs[i];
        assert(c@ == ref_view(cs[i as int], schema@));
        let meta = c.metadata();
        let prefix = c.prefix();
        let mut k: usize = 0;
        proof {
            assert(r@.map_values(|q: FallbackRequest| request_view(q)) =~= schema_requests(cs, i as int) + param_requests(prefix@, meta, 0));
        }
        while k < meta.params.len()
            invariant
                0 <= i < refs@.len(),
                refs@.len() == cs.len(),
                0 <= k <= meta.params@.len(),
                prefix@ == cs[i as int].prefix,
                meta == cs[i as int].data.metadata,
                r@.map_values(|q: FallbackRequest| request_view(q)) == schema_requests(cs, i as int) + param_requests(prefix@, meta, k as int),
                forall|j: int| 0 <= j < r@.len() ==> #[trigger] r@[j].param_index < r@[j].config.params@.len(),
            decreases meta.params@.len() - k,
        {
            let ghost before = r@;
            if meta.params[k].fallback.is_some() {
                let q = FallbackRequest { prefix: owned(prefix), config: meta, param_index: k };
                r.push(q);
                proof {
                    assert(r@.map_values(|q: FallbackRequest| request_view(q)) =~= before.map_values(
                        |q: FallbackRequest| request_view(q),
                    ).push(request_view(q)));
                }
            }
            proof {
                assert(r@.map_values(|q: FallbackRequest| request_view(q)) =~= schema_requests(cs, i as int) + param_requests(prefix@, meta, k + 1));
            }
            k = k + 1;
        }
        i = i + 1;
    }
    r
}

/// A fallback value gathered for the parameter `name` of the configuration at `prefix`.
#[derive(Debug)]
pub struct FallbackEntry {
    pub prefix: String,
    pub name: &'static str,
    pub value: WithOrigin,
}

/// Last-resort values gathered from the fallback sources of a schema's parameters.
#[derive(Debug)]
pub struct Fallbacks {
    pub entries: Vec<FallbackEntry>,
    /// Origin of the overlay as a whole.
    pub origin: ValueOrigin,
}


/// Transform recorded in the origin of a fallback value of the parameter.
pub open spec fn fallback_transform(config: &'static ConfigMetadata, k: int) -> Seq<char> {
    "fallback for `"@ + config.name@ + "."@ + config.params@[k].rust_field_name@ + "`"@
}

/// `e` holds value `v` provided for request `q`, under a synthetic origin that wraps the
/// value's own origin.
pub open spec fn entry_for(e: FallbackEntry, q: FallbackRequest, v: WithOrigin) -> bool {
    &&& e.prefix@ == q.prefix@
    &&& e.name == q.config.params@[q.param_index as int].name
    &&& e.value.inner == v.inner
    &&& e.value.origin matches ValueOrigin::Synthetic { source, transform }
    &&& *source == v.origin
    &&& transform@ == fallback_transform(q.config, q.param_index as int)
}

/// Key of the value provided for a request: the prefix and the parameter name.
pub open spec fn request_key(q: FallbackRequest) -> (Seq<char>, Seq<char>) {
    (q.prefix@, q.config.params@[q.param_index as int].name@)
}

pub open spec fn entry_key(e: FallbackEntry) -> (Seq<char>, Seq<char>) {
    (e.prefix@, e.name@)
}

/// Index of the first slot with `key`, searching from `i`; the length if there is none.
pub open spec fn slot_index(slots: Seq<((Seq<char>, Seq<char>), int)>, key: (Seq<char>, Seq<char>), i: int) -> int
    decreases slots.len() - i,
{
    if i < 0 || i >= slots.len() {
        slots.len() as int
    } else if slots[i].0 == key {
        i
    } else {
        slot_index(slots, key, i + 1)
    }
}

/// The overlay after the first `n` answers, as a map in insertion order: each slot holds a
/// key and the index of the answer that provides its value. A later value for a key
/// replaces an earlier one in place.
pub open spec fn overlay(
    requests: Seq<FallbackRequest>,
    provided: Seq<Option<WithOrigin>>,
    n: int,
) -> Seq<((Seq<char>, Seq<char>), int)>
    decreases n,
{
    if n <= 0 {
        Seq::empty()
    } else {
        let prev = overlay(requests, provided, n - 1);
        if provided[n - 1].is_some() {
            let key = request_key(requests[n - 1]);
            let j = slot_index(prev, key, 0);
            if 0 <= j < prev.len() {
                prev.update(j, (key, n - 1))
            } else {
                prev.push((key, n - 1))
            }
        } else {
            prev
        }
    }
}

pub open spec fn has_any(provided: Seq<Option<WithOrigin>>) -> bool {
    exists|i: int| 0 <= i < provided.len() && (#[trigger] provided[i]).is_some()
}

proof fn lemma_slot_index(slots: Seq<((Seq<char>, Seq<char>), int)>, key: (Seq<char>, Seq<char>), i: int)
    requires
        0 <= i <= slots.len(),
    ensures
        i <= slot_index(slots, key, i) <= slots.len(),
        slot_index(slots, key, i) < slots.len() ==> slots[slot_index(slots, key, i)].0 == key,
        forall|k: int| i <= k < slot_index(slots, key, i) ==> slots[k].0 != key,
    decreases slots.len() - i,
{
    if i < slots.len() && slots[i].0 != key {
        lemma_slot_index(slots, key, i + 1);
    }
}

impl Fallbacks {
    /// Gathers the values that the fallback sources provided, `provided[i]` answering
    /// `requests[i]`, into a map keyed by prefix and parameter name (see [`overlay`]).
    /// `None` if no source provided a value.
    pub fn new(requests: &Vec<FallbackRequest>, provided: Vec<Option<WithOrigin>>) -> (r: Option<Fallbacks>)
        requires
            provided@.len() == requests@.len(),
            forall|i: int| 0 <= i < requests@.len() ==> #[trigger] requests@[i].param_index < requests@[i].config.params@.len(),
        ensures
            r.is_none() == !has_any(provided@),
            r.is_some() ==> ({
                let f = r.unwrap();
                let ov = overlay(requests@, provided@, provided@.len() as int);
                &&& f.origin matches ValueOrigin::Fallbacks
                &&& f.entries@.len() == ov.len()
                &&& forall|j: int| 0 <= j < ov.len() ==> {
                    &&& entry_key(#[trigger] f.entries@[j]) == ov[j].0
                    &&& 0 <= ov[j].1 < provided@.len()
                    &&& entry_for(f.entries@[j], requests@[ov[j].1], provided@[ov[j].1].unwrap())
                }
                &&& forall|i: int, j: int| 0 <= i < j < ov.len() ==> entry_key(#[trigger] f.entries@[i]) != entry_key(
                    #[trigger] f.entries@[j],
                )
            }),
    {
        let ghost pv = provided@;
        let ghost rv = requests@;
        let n = provided.len();
        let mut rest = provided;
        let mut entries: Vec<FallbackEntry> = Vec::new();
        let mut any = false;
        let mut i: usize = 0;
        while i < n
            invariant
                0 <= i <= n,
                n == pv.len(),
                n == rv.len(),
                rv == requests@,
                rest@ == pv.skip(i as int),
                forall|k: int| 0 <= k < rv.len() ==> #[trigger] rv[k].param_index < rv[k].config.params@.len(),
                any == exists|k: int| 0 <= k < i && (#[trigger] pv[k]).is_some(),
                any ==> entries@.len() > 0,
                entries@.len() == overlay(rv, pv, i as int).len(),
                forall|j: int| 0 <= j < entries@.len() ==> entry_key(#[trigger] entries@[j]) == overlay(rv, pv, i as int)[j].0,
                forall|j: int| 0 <= j < entries@.len() ==> 0 <= #[trigger] overlay(rv, pv, i as int)[j].1 < i,
                forall|j: int| 0 <= j < entries@.len() ==> entry_for(
                    #[trigger] entries@[j],
                    rv[overlay(rv, pv, i as int)[j].1],
                    pv[overlay(rv, pv, i as int)[j].1].unwrap(),
                ),
                forall|a: int, b: int| 0 <= a < b < entries@.len() ==> entry_key(#[trigger] entries@[a]) != entry_key(
                    #[trigger] entries@[b],
                ),
            decreases n - i,
        {
            let ghost prev = overlay(rv, pv, i as int);
            let ghost before = entries@;
            let item = rest.remove(0);
            proof {
                assert(item == pv[i as int]);
                assert(rest@ =~= pv.skip(i + 1));
            }
            match item {
                Some(v) => {
                    let q = &requests[i];
                    let name = q.config.params[q.param_index].name;
                    let field = q.config.params[q.param_index].rust_field_name;
                    let mut transform = String::from_str("fallback for `");
                    transform.append(q.config.name);
                    transform.append(".");
                    transform.append(field);
                    transform.append("`");
                    let WithOrigin { inner, origin } = v;
                    let e = FallbackEntry {
                        prefix: owned(q.prefix.as_str()),
                        name,
                        value: WithOrigin::new(inner, ValueOrigin::Synthetic { source: Box::new(origin), transform }),
                    };
                    let ghost key = request_key(rv[i as int]);
                    proof {
                        assert(transform@ =~= fallback_transform(q.config, q.param_index as int));
                        assert(entry_for(e, rv[i as int], pv[i as int].unwrap()));
                        assert(entry_key(e) == key);
                        lemma_slot_index(prev, key, 0);
                    }
                    let name_owned = owned(name);
                    let mut j: usize = 0;
                    while j < entries.len()
                        invariant
                            0 <= j <= entries@.len(),
                            entries@ == before,
                            before.len() == prev.len(),
                            name_owned@ == key.1,
                            e.prefix@ == key.0,
                            forall|x: int| 0 <= x < prev.len() ==> entry_key(#[trigger] before[x]) == prev[x].0,
                            forall|x: int| 0 <= x < j ==> prev[x].0 != key,
                        ensures
                            0 <= j <= before.len(),
                            entries@ == before,
                            j < before.len() ==> entry_key(before[j as int]) == key,
                            forall|x: int| 0 <= x < j ==> prev[x].0 != key,
                        decreases entries@.len() - j,
                    {
                        if crate::mount::string_eq(&entries[j].prefix, e.prefix.as_str())
                            && crate::mount::string_eq(&name_owned, entries[j].name) {
                            break;
                        }
                        proof {
                            assert(entry_key(before[j as int]) == prev[j as int].0);
                        }
                        j = j + 1;
                    }
                    proof {
                        if j < entries@.len() {
                            assert(entry_key(before[j as int]) == prev[j as int].0);
                            assert(prev[j as int].0 == key);
                        }
                        assert(slot_index(prev, key, 0) == j);
                    }
                    if j < entries.len() {
                        entries.set(j, e);
                    } else {
                        entries.push(e);
                    }
                    any = true;
                    proof {
                        let ov = overlay(rv, pv, i + 1);
                        assert(pv[i as int].is_some());
                        assert forall|x: int| 0 <= x < entries@.len() implies {
                            &&& entry_key(#[trigger] entries@[x]) == ov[x].0
                            &&& 0 <= ov[x].1 < i + 1
                            &&& entry_for(entries@[x], rv[ov[x].1], pv[ov[x].1].unwrap())
                        } by {
                            if x != j {
                                assert(entries@[x] == before[x]);
                                assert(ov[x] == prev[x]);
                            } else {
                                assert(ov[x] == (key, i as int));
                            }
                        }
                        assert(exists|k: int| 0 <= k < i + 1 && (#[trigger] pv[k]).is_some()) by {
                            assert(pv[i as int].is_some());
                        }
                        assert forall|a: int, b: int| 0 <= a < b < entries@.len() implies entry_key(
                            #[trigger] entries@[a],
                        ) != entry_key(#[trigger] entries@[b]) by {
                            if a != j && b != j {
                                assert(entries@[a] == before[a] && entries@[b] == before[b]);
                            } else if a == j {
                                assert(entries@[b] == before[b]);
                                if b < prev.len() {
                                    assert(entry_key(before[b]) == prev[b].0);
                                }
                            } else {
                                assert(entries@[a] == before[a]);
                                assert(entry_key(before[a]) == prev[a].0);
                            }
                        }
                    }
                },
                None => {
                    proof {
                        assert(overlay(rv, pv, i + 1) == prev);
                        assert(any == exists|k: int| 0 <= k < i + 1 && (#[trigger] pv[k]).is_some());
                    }
                },
            }
            i = i + 1;
        }
        if !any {
            None
        } else {
            Some(Fallbacks { entries, origin: ValueOrigin::Fallbacks })
        }
    }
}

/// Index of the first provided value at or after `i`; the length if there is none.
pub open spec fn first_supplied(supplied: Seq<Option<WithOrigin>>, i: int) -> int
    decreases supplied.len() - i,
{
    if i < 0 || i >= supplied.len() {
        supplied.len() as int
    } else if supplied[i].is_some() {
        i
    } else {
        first_supplied(supplied, i + 1)
    }
}

/// The value of a parameter: the first value supplied at its paths (in priority order),
/// else its fallback value.
pub open spec fn resolve_spec(supplied: Seq<Option<WithOrigin>>, fallback: Option<WithOrigin>) -> Option<WithOrigin> {
    let i = first_supplied(supplied, 0);
    if 0 <= i < supplied.len() {
        supplied[i]
    } else {
        fallback
    }
}

/// Resolves a parameter from the values supplied at its paths, highest priority first, and
/// its fallback value (see [`resolve_spec`]).
pub fn resolve_param(supplied: Vec<Option<WithOrigin>>, fallback: Option<WithOrigin>) -> (r: Option<WithOrigin>)
    ensures
        r == resolve_spec(supplied@, fallback),
{
    let ghost sv = supplied@;
    let mut rest = supplied;
    let mut i: usize = 0;
    let n = rest.len();
    while i < n
        invariant
            0 <= i <= n,
            n == sv.len(),
            sv == supplied@,
            rest@ == sv.skip(i as int),
            first_supplied(sv, 0) == first_supplied(sv, i as int),
        decreases n - i,
    {
        let item = rest.remove(0);
        proof {
            assert(item == sv[i as int]);
            assert(rest@ =~= sv.skip(i + 1));
        }
        if item.is_some() {
            return item;
        }
        i = i + 1;
    }
    fallback
}

/// A value supplied at any path of a parameter, whatever its priority, takes precedence over
/// the fallback value: the result is the same as without a fallback.
pub proof fn lemma_fallback_lowest_priority(supplied: Seq<Option<WithOrigin>>, fallback: Option<WithOrigin>, i: int)
    requires
        0 <= i < supplied.len(),
        supplied[i].is_some(),
    ensures
        resolve_spec(supplied, fallback) == resolve_spec(supplied, None),
        resolve_spec(supplied, fallback).is_some(),
{
    lemma_first_supplied_found(supplied, 0, i);
}

proof fn lemma_first_supplied_found(supplied: Seq<Option<WithOrigin>>, k: int, i: int)
    requires
        0 <= k <= i < supplied.len(),
        supplied[i].is_some(),
    ensures
        k <= first_supplied(supplied, k) <= i,
        supplied[first_supplied(supplied, k)].is_some(),
    decreases i - k,
{
    if supplied[k].is_none() {
        lemma_first_supplied_found(supplied, k + 1, i);
    }
}


impl Fallbacks {
    /// The gathered values keyed by the absolute path of their parameter (the prefix joined
    /// with the parameter name), in gathering order.
    pub fn into_paths(self) -> (r: Vec<(String, WithOrigin)>)
        ensures
            r@.len() == self.entries@.len(),
            forall|i: int| 0 <= i < r@.len() ==> {
                &&& (#[trigger] r@[i]).0@ == join_spec(self.entries@[i].prefix@, self.entries@[i].name@)
                &&& r@[i].1 == self.entries@[i].value
            },
    {
        let ghost ev = self.entries@;
        let mut rest = self.entries;
        let mut r: Vec<(String, WithOrigin)> = Vec::new();
        let n = rest.len();
        let mut i: usize = 0;
        while i < n
            invariant
                0 <= i <= n,
                n == ev.len(),
                rest@ == ev.skip(i as int),
                r@.len() == i,
                forall|k: int| 0 <= k < i ==> {
                    &&& (#[trigger] r@[k]).0@ == join_spec(ev[k].prefix@, ev[k].name@)
                    &&& r@[k].1 == ev[k].value
                },
            decreases n - i,
        {
            let e = rest.remove(0);
            proof {
                assert(e == ev[i as int]);
                assert(rest@ =~= ev.skip(i + 1));
            }
            let FallbackEntry { prefix, name, value } = e;
            r.push((join(prefix.as_str(), name), value));
            i = i + 1;
        }
        r
    }
}

} // verus!
