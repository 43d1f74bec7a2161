//! Graph definition vocabulary: scope contexts, port tables and edge endpoints.

use vstd::prelude::*;
use vstd::string::*;

use crate::cbor::value::{spec_lex_lt, spec_utf8, Value, ValueMap};
use crate::cbor::limits::Limits;
use crate::record_accounting::{Charge, Counters, RecordAccounting};
use crate::types::model::{spec_names_distinct, spec_port_model, spec_port_record, spec_port_steps, spec_port_value_charges,
    PortModel, TypeError};
use crate::types::TypeContext;
use crate::expression::ExpressionContext;
use crate::identifier::Identifier;
use crate::types::Port;

pub mod edge;
pub mod operation;
pub mod node;
pub mod scope;

verus! {

/// The use context of a scope definition; never a serialized scope label.
#[derive(Clone, Copy, Debug, PartialEq, Eq, Structural)]
pub enum ScopeContext {
    /// Root/task use: no carried or next boundary.
    Ordinary,
    /// Loop iteration body: carried/next permitted, local contracts true and limits empty.
    LoopBody,
}

impl ScopeContext {
    /// The guard context of edges and nodes inside a scope of this kind.
    pub fn guard(self) -> (res: ExpressionContext)
        ensures
            res == (ExpressionContext::Guard { loop_body: self == ScopeContext::LoopBody }),
    {
        ExpressionContext::Guard { loop_body: self == ScopeContext::LoopBody }
    }
}

/// Names strictly increase in UTF-8 byte order.
pub open spec fn spec_ports_sorted(entries: Seq<(Identifier, Port)>) -> bool {
    forall|i: int, j: int| 0 <= i < j < entries.len() ==> spec_lex_lt(
        spec_utf8((#[trigger] entries[i]).0@), spec_utf8((#[trigger] entries[j]).0@))
}

/// Immutable identifier-keyed ordinary-value port declarations, in name order
/// with no name repeated.
#[derive(Debug)]
pub struct PortTable {
    entries: Vec<(Identifier, Port)>,
}

impl PortTable {
    #[verifier::type_invariant]
    spec fn sorted(&self) -> bool {
        spec_ports_sorted(self.entries@)
    }

    /// The declarations, in name order.
    pub closed spec fn spec_entries(&self) -> Seq<(Identifier, Port)> {
        self.entries@
    }

    /// The empty table.
    pub fn empty() -> (res: PortTable)
        ensures
            res.spec_entries().len() == 0,
    {
        PortTable { entries: Vec::new() }
    }

    /// The declarations in name order, independently of wire map order.
    pub fn iter(&self) -> (res: &[(Identifier, Port)])
        ensures
            res@ == self.spec_entries(),
            spec_ports_sorted(res@),
    {
        proof {
            use_type_invariant(self);
        }
        self.entries.as_slice()
    }

    /// Looks up an exact local name.
    pub fn get(&self, name: &str) -> (res: Option<&Port>)
        ensures
            res is Some <==> exists|i: int| 0 <= i < self.spec_entries().len()
                && (#[trigger] self.spec_entries()[i]).0@ == name@,
            res matches Some(p) ==> exists|i: int| 0 <= i < self.spec_entries().len()
                && (#[trigger] self.spec_entries()[i]).0@ == name@ && self.spec_entries()[i].1 == *p,
    {
        proof {
            use_type_invariant(self);
        }
        let key = name.as_bytes();
        let mut lo: usize = 0;
        let mut hi: usize = self.entries.len();
        while lo < hi
            invariant
                0 <= lo <= hi <= self.entries@.len(),
                key@ == name.spec_bytes(),
                spec_ports_sorted(self.entries@),
                forall|k: int| 0 <= k < lo ==> spec_lex_lt(spec_utf8((#[trigger] self.entries@[k]).0@), key@),
                forall|k: int| hi <= k < self.entries@.len() ==> spec_lex_lt(key@, spec_utf8((#[trigger] self.entries@[k]).0@)),
            decreases hi - lo,
        {
            let mid = lo + (hi - lo) / 2;
            let entry_name = self.entries[mid].0.as_str().as_bytes();
            match crate::cbor::keys::compare_lex(entry_name, key) {
                crate::cbor::keys::KeyOrder::Less => {
                    proof {
                        assert forall|k: int| 0 <= k < mid + 1 implies spec_lex_lt(
                            spec_utf8((#[trigger] self.entries@[k]).0@), key@) by {
                            if k < mid {
                                crate::cbor::keys::lemma_lex_transitive(
                                    spec_utf8(self.entries@[k].0@), spec_utf8(self.entries@[mid as int].0@), key@);
                            }
                        }
                    }
                    lo = mid + 1;
                },
                crate::cbor::keys::KeyOrder::Greater => {
                    proof {
                        assert forall|k: int| mid <= k < self.entries@.len() implies spec_lex_lt(
                            key@, spec_utf8((#[trigger] self.entries@[k]).0@)) by {
                            if k > mid {
                                crate::cbor::keys::lemma_lex_transitive(
                                    key@, spec_utf8(self.entries@[mid as int].0@), spec_utf8(self.entries@[k].0@));
                            }
                        }
                    }
                    hi = mid;
                },
                crate::cbor::keys::KeyOrder::Equal => {
                    proof {
                        vstd::utf8::encode_utf8_decode_utf8(self.entries@[mid as int].0@);
                        vstd::utf8::encode_utf8_decode_utf8(name@);
                        assert(self.spec_entries()[mid as int].0@ == name@);
                    }
                    return Some(&self.entries[mid].1);
                },
            }
        }
        proof {
            assert forall|i: int| 0 <= i < self.entries@.len() implies (#[trigger] self.entries@[i]).0@ != name@ by {
                if self.entries@[i].0@ == name@ {
                    crate::cbor::keys::lemma_lex_irreflexive(spec_utf8(self.entries@[i].0@));
                }
            }
        }
        None
    }

    /// Number of declarations.
    pub fn len(&self) -> (res: usize)
        ensures
            res == self.spec_entries().len(),
    {
        self.entries.len()
    }

    /// Whether there are no declarations.
    pub fn is_empty(&self) -> (res: bool)
        ensures
            res <==> self.spec_entries().len() == 0,
    {
        self.entries.len() == 0
    }
}

impl Default for PortTable {
    fn default() -> (res: PortTable)
        ensures
            res.spec_entries().len() == 0,
    {
        PortTable::empty()
    }
}

/// Whole-port source of a graph edge; projections belong in expressions.
#[derive(Clone, Debug, PartialEq, Eq)]
pub enum EdgeSource {
    /// Containing-scope input.
    Input(Identifier),
    /// Local node output.
    Output {
        /// Local node name.
        node: Identifier,
        /// Output port name.
        port: Identifier,
    },
    /// Loop-carried boundary value.
    Carried(Identifier),
}

/// Destination boundary of a graph edge.
#[derive(Clone, Debug, PartialEq, Eq)]
pub enum EdgeDestination {
    /// Local node input.
    Input {
        /// Local node name.
        node: Identifier,
        /// Input port name.
        port: Identifier,
    },
    /// Containing-scope output.
    Output(Identifier),
    /// Proposed next value for a declared carried field.
    Next(Identifier),
}

} // verus!

verus! {

/// Canonical graph-record shape, local linkage, context, or conversion
/// failure. Names carried by errors are fixed schema terms, not input data.
#[derive(Debug)]
#[non_exhaustive]
pub enum GraphRecordError {
    /// Underlying codec failure, including unsorted input offsets.
    Codec(crate::cbor::error::Error),
    /// Invalid local identifier.
    Identifier(crate::identifier::ParseIdentifierError),
    /// Invalid referenced digest.
    Digest(crate::digest::ParseDigestError),
    /// Invalid data-port type.
    Type(TypeError),
    /// Invalid expression/context.
    Expression(crate::expression::ExpressionError),
    /// Invalid execution limits or retry policy.
    Options(crate::options::ExecutionOptionsError),
    /// Incorrect array/map/scalar shape at a fixed site.
    InvalidShape(&'static str),
    /// A canonical record is missing a required field.
    MissingField(&'static str),
    /// A record contains a field outside its closed schema.
    UnknownField(&'static str),
    /// Operation tag is not a canonical operation.
    UnknownOperation,
    /// A loop/wait bound is not in 1..=i64::MAX.
    InvalidBound(&'static str),
    /// A node uses a reserved expression root as its name.
    ReservedNodeName,
    /// Ordinary/loop-body structural requirements are violated.
    InvalidScopeRole,
    /// A local node or edge ID occurs more than once.
    DuplicateId(&'static str),
    /// Canonical node/edge arrays are not in ASCII ID order.
    NonCanonicalOrder(&'static str),
    /// An edge/initializer does not identify a declared local endpoint.
    UnknownEndpoint(&'static str),
    /// A primitive node's ports violate its known operation layout.
    InvalidPorts(&'static str),
    /// Whole-record conversion exceeds a codec ceiling.
    LimitExceeded {
        /// Exhausted resource.
        limit: crate::cbor::error::LimitKind,
        /// Configured ceiling.
        maximum: usize,
    },
    /// Fallible storage reservation failed.
    AllocationFailed,
}

/// One step of building a port table record.
pub enum TableStep {
    /// Values charged in order.
    Charges(Seq<Charge>),
    /// A port record built on its own accounting first, with its outcome.
    Inner(Result<(), GraphRecordError>),
    /// Names that must be distinct.
    Distinct(Seq<Seq<char>>),
}

/// The outcome of one step.
pub open spec fn spec_gstep(l: Limits, c: Counters, st: TableStep) -> Result<Counters, GraphRecordError> {
    match st {
        TableStep::Charges(s) => match crate::record_accounting::spec_charges(l, c, s) {
            Ok(d) => Ok(d),
            Err(e) => Err(GraphRecordError::LimitExceeded { limit: e.limit, maximum: e.maximum }),
        },
        TableStep::Inner(r) => match r {
            Ok(()) => Ok(c),
            Err(e) => Err(e),
        },
        TableStep::Distinct(names) => if spec_names_distinct(names) {
            Ok(c)
        } else {
            Err(GraphRecordError::Codec(crate::cbor::error::spec_plain_error(crate::cbor::error::ErrorKind::DuplicateMapKey)))
        },
    }
}

/// The outcome of steps in order; the first failure is reported.
pub open spec fn spec_grun(l: Limits, c: Counters, s: Seq<TableStep>) -> Result<Counters, GraphRecordError>
    decreases s.len(),
{
    if s.len() == 0 {
        Ok(c)
    } else {
        match spec_grun(l, c, s.drop_last()) {
            Ok(d) => spec_gstep(l, d, s.last()),
            Err(e) => Err(e),
        }
    }
}

/// Running a concatenation runs its parts in turn.
pub proof fn lemma_grun_append(l: Limits, c: Counters, s: Seq<TableStep>, t: Seq<TableStep>)
    ensures
        spec_grun(l, c, s + t) == match spec_grun(l, c, s) {
            Ok(d) => spec_grun(l, d, t),
            Err(e) => Err(e),
        },
    decreases t.len(),
{
    if t.len() == 0 {
        assert(s + t =~= s);
    } else {
        lemma_grun_append(l, c, s, t.drop_last());
        assert((s + t).drop_last() =~= s + t.drop_last());
    }
}

/// A nonempty step sequence runs its first step, then the rest.
pub proof fn lemma_grun_front(l: Limits, c: Counters, s: Seq<TableStep>)
    requires
        s.len() > 0,
    ensures
        spec_grun(l, c, s) == match spec_gstep(l, c, s[0]) {
            Ok(d) => spec_grun(l, d, s.drop_first()),
            Err(e) => Err(e),
        },
{
    assert(s =~= seq![s[0]] + s.drop_first());
    lemma_grun_append(l, c, seq![s[0]], s.drop_first());
    assert(seq![s[0]].drop_last() =~= Seq::<TableStep>::empty());
    assert(spec_grun(l, c, Seq::<TableStep>::empty()) == Ok::<Counters, GraphRecordError>(c));
    assert(seq![s[0]].last() == s[0]);
}

/// Building a port's record on its own accounting, in value context.
#[verifier::opaque]
pub open spec fn spec_value_port_inner(l: Limits, p: PortModel) -> Result<(), GraphRecordError> {
    match crate::types::model::spec_run(l, TypeContext::Value, (0, 0, 0), spec_port_steps(p, 0)) {
        Ok(_) => Ok(()),
        Err(e) => Err(GraphRecordError::Type(e)),
    }
}

/// A table's entries as mathematics: names with their ports, in order.
pub open spec fn spec_table_model(es: Seq<(Identifier, Port)>) -> Seq<(Seq<char>, PortModel)> {
    es.map_values(|e: (Identifier, Port)| (e.0@, spec_port_model(e.1)))
}

/// The steps of the entries: each name at depth one, then its port record
/// built on its own and charged whole at depth one.
pub open spec fn spec_table_entries_steps(l: Limits, es: Seq<(Seq<char>, PortModel)>) -> Seq<TableStep>
    decreases es.len(),
{
    if es.len() == 0 {
        Seq::empty()
    } else {
        seq![TableStep::Charges(seq![Charge::Text { len: spec_utf8(es[0].0).len() as usize, depth: 1 }]),
            TableStep::Inner(spec_value_port_inner(l, es[0].1)),
            TableStep::Charges(spec_port_value_charges(es[0].1, 1))]
            + spec_table_entries_steps(l, es.drop_first())
    }
}

/// Everything building a port table record does, in order: the map header,
/// each entry, then the name check.
pub open spec fn spec_table_steps(l: Limits, es: Seq<(Seq<char>, PortModel)>) -> Seq<TableStep> {
    seq![TableStep::Charges(seq![Charge::Collection { len: es.len() as usize, depth: 0 }])]
        + (spec_table_entries_steps(l, es) + seq![TableStep::Distinct(es.map_values(|e: (Seq<char>, PortModel)| e.0))])
}

/// Entry `i` of `built` is declaration `i`: its name and its port record.
pub open spec fn spec_table_records(built: Seq<(String, Value)>, es: Seq<(Seq<char>, PortModel)>) -> bool {
    built.len() == es.len() && forall|i: int| 0 <= i < es.len()
        ==> (#[trigger] built[i]).0@ == es[i].0 && spec_port_record(built[i].1, es[i].1)
}

/// The canonical port table record: a map in canonical key order holding
/// each declaration's name and port record.
pub open spec fn spec_table_record(v: Value, es: Seq<(Seq<char>, PortModel)>) -> bool {
    v matches Value::Object(m) && crate::cbor::value::spec_keys_sorted(m.entries@)
        && exists|built: Seq<(String, Value)>| #[trigger] built.to_multiset() == m.entries@.to_multiset()
            && spec_table_records(built, es)
}

/// Builds a port's record on its own accounting, in value context.
fn value_port_inner(port: &Port, limits: &Limits) -> (res: Result<Value, GraphRecordError>)
    requires
        limits.spec_valid(),
    ensures
        match spec_value_port_inner(*limits, spec_port_model(*port)) {
            Ok(()) => res matches Ok(v) && spec_port_record(v, spec_port_model(*port)),
            Err(e) => res == Err::<Value, GraphRecordError>(e),
        },
{
    reveal(spec_value_port_inner);
    match port.to_value(TypeContext::Value, limits) {
        Ok(v) => Ok(v),
        Err(e) => Err(GraphRecordError::Type(e)),
    }
}

/// Charges values of a port table record.
fn gcharges(acc: &mut RecordAccounting, ch: Charge) -> (res: Result<(), GraphRecordError>)
    ensures
        final(acc).limits == old(acc).limits,
        match spec_gstep(*old(acc).limits, old(acc).counters(), TableStep::Charges(seq![ch])) {
            Ok(c) => res is Ok && final(acc).counters() == c,
            Err(e) => res == Err::<(), GraphRecordError>(e),
        },
{
    proof { crate::record_accounting::lemma_charges_single(*acc.limits, acc.counters(), ch); }
    match acc.apply(ch) {
        Ok(()) => Ok(()),
        Err(e) => Err(GraphRecordError::LimitExceeded { limit: e.limit, maximum: e.maximum }),
    }
}

/// Charges a whole nested value at `d`.
fn gvalue(acc: &mut RecordAccounting, v: &Value, d: usize) -> (res: Result<(), GraphRecordError>)
    requires
        old(acc).limits.spec_valid(),
    ensures
        final(acc).limits == old(acc).limits,
        match spec_gstep(*old(acc).limits, old(acc).counters(), TableStep::Charges(crate::record_accounting::spec_value_charges(*v, d as int))) {
            Ok(c) => res is Ok && final(acc).counters() == c,
            Err(e) => res == Err::<(), GraphRecordError>(e),
        },
{
    match acc.value(v, d) {
        Ok(()) => Ok(()),
        Err(e) => Err(GraphRecordError::LimitExceeded { limit: e.limit, maximum: e.maximum }),
    }
}

} // verus!

verus! {

use crate::expression::template::{spec_params_model, spec_params_sorted, spec_sort_params};

/// Charges and produces the entries of a port table record.
fn table_entries(acc: &mut RecordAccounting, entries: &Vec<(Identifier, Port)>, limits: &Limits)
    -> (res: Result<Vec<(String, Value)>, GraphRecordError>)
    requires
        old(acc).limits == limits,
        limits.spec_valid(),
    ensures
        final(acc).limits == old(acc).limits,
        match spec_grun(*limits, old(acc).counters(), spec_table_entries_steps(*limits, spec_params_model(entries@))) {
            Ok(c) => res matches Ok(built) && final(acc).counters() == c && spec_table_records(built@, spec_params_model(entries@)),
            Err(e) => res == Err::<Vec<(String, Value)>, GraphRecordError>(e),
        },
{
    let ghost l = *limits;
    let ghost ms = spec_params_model(entries@);
    let ghost start = acc.counters();
    let ghost mut rem = spec_table_entries_steps(l, ms);
    proof { assert(ms.subrange(0, ms.len() as int) =~= ms); }
    let mut built: Vec<(String, Value)> = Vec::new();
    let mut j: usize = 0;
    while j < entries.len()
        invariant
            acc.limits == limits,
            old(acc).limits == limits,
            l == *limits,
            limits.spec_valid(),
            ms == spec_params_model(entries@),
            start == old(acc).counters(),
            j <= ms.len(),
            spec_grun(l, start, spec_table_entries_steps(l, ms)) == spec_grun(l, acc.counters(), rem),
            rem == spec_table_entries_steps(l, ms.subrange(j as int, ms.len() as int)),
            built@.len() == j,
            forall|k: int| 0 <= k < j ==> (#[trigger] built@[k]).0@ == ms[k].0 && spec_port_record(built@[k].1, ms[k].1),
        decreases ms.len() - j,
    {
        let ghost next = spec_table_entries_steps(l, ms.subrange(j + 1, ms.len() as int));
        let ghost mj = ms[j as int];
        proof {
            let sub = ms.subrange(j as int, ms.len() as int);
            assert(sub[0] == mj);
            assert(sub.drop_first() =~= ms.subrange(j + 1, ms.len() as int));
            assert(mj == (entries@[j as int].0@, spec_port_model(entries@[j as int].1)));
            lemma_grun_front(l, acc.counters(), rem);
            assert(rem.drop_first() =~= seq![TableStep::Inner(spec_value_port_inner(l, mj.1)),
                TableStep::Charges(spec_port_value_charges(mj.1, 1))] + next);
        }
        let name = entries[j].0.as_str();
        let len = name.as_bytes().len();
        assert(len == spec_utf8(name@).len());
        gcharges(acc, Charge::Text { len, depth: 1 })?;
        proof {
            rem = rem.drop_first();
            lemma_grun_front(l, acc.counters(), rem);
            assert(rem.drop_first() =~= seq![TableStep::Charges(spec_port_value_charges(mj.1, 1))] + next);
        }
        let pv = value_port_inner(&entries[j].1, limits)?;
        proof {
            rem = rem.drop_first();
            lemma_grun_front(l, acc.counters(), rem);
            crate::types::model::lemma_port_value_charges(pv, mj.1, 1);
            assert(rem.drop_first() =~= next);
        }
        gvalue(acc, &pv, 1)?;
        built.push((String::from_str(name), pv));
        proof { rem = next; }
        j = j + 1;
    }
    proof { assert(ms.subrange(ms.len() as int, ms.len() as int) =~= Seq::<(Seq<char>, PortModel)>::empty()); }
    Ok(built)
}

/// Names are distinct exactly when the built entries' keys are.
proof fn lemma_table_keys_distinct(built: Seq<(String, Value)>, es: Seq<(Seq<char>, PortModel)>)
    requires
        spec_table_records(built, es),
    ensures
        crate::cbor::map::spec_keys_distinct(built) <==> spec_names_distinct(es.map_values(|e: (Seq<char>, PortModel)| e.0)),
{
    let names = es.map_values(|e: (Seq<char>, PortModel)| e.0);
    assert forall|i: int| 0 <= i < built.len() implies #[trigger] built[i].0@ == names[i] by {
        assert(built[i].0@ == es[i].0);
    }
    if crate::cbor::map::spec_keys_distinct(built) {
        assert forall|i: int, j: int| 0 <= i < j < names.len() implies spec_utf8(#[trigger] names[i]) != spec_utf8(#[trigger] names[j]) by {
            assert(built[i].0@ == names[i]);
            assert(built[j].0@ == names[j]);
        }
    }
    if spec_names_distinct(names) {
        assert forall|i: int, j: int| 0 <= i < j < built.len() implies spec_utf8(#[trigger] built[i].0@) != spec_utf8(#[trigger] built[j].0@) by {
            assert(built[i].0@ == names[i]);
            assert(built[j].0@ == names[j]);
        }
    }
}

/// Produces the canonical record of port declarations with value-context
/// types, bounding every value first and refusing repeated names.
fn table_value(entries: &Vec<(Identifier, Port)>, limits: &Limits) -> (res: Result<Value, GraphRecordError>)
    ensures
        !limits.spec_valid() ==> res matches Err(GraphRecordError::Codec(_)),
        limits.spec_valid() ==> match spec_grun(*limits, (0, 0, 0), spec_table_steps(*limits, spec_params_model(entries@))) {
            Ok(_) => res matches Ok(v) && spec_table_record(v, spec_params_model(entries@)),
            Err(e) => res == Err::<Value, GraphRecordError>(e),
        },
{
    let mut acc = match RecordAccounting::new(limits) {
        Ok(a) => a,
        Err(e) => return Err(GraphRecordError::Codec(e)),
    };
    let ghost l = *limits;
    let ghost ms = spec_params_model(entries@);
    let ghost body = spec_table_entries_steps(l, ms);
    let ghost last = seq![TableStep::Distinct(ms.map_values(|e: (Seq<char>, PortModel)| e.0))];
    let ghost all = spec_table_steps(l, ms);
    proof {
        lemma_grun_front(l, acc.counters(), all);
        assert(all.drop_first() =~= body + last);
    }
    gcharges(&mut acc, Charge::Collection { len: entries.len(), depth: 0 })?;
    proof { lemma_grun_append(l, acc.counters(), body, last); }
    let built = table_entries(&mut acc, entries, limits)?;
    proof {
        lemma_grun_front(l, acc.counters(), last);
        lemma_table_keys_distinct(built@, ms);
    }
    let ghost built_view = built@;
    let m = match ValueMap::try_from_entries(built) {
        Ok(m) => m,
        Err(e) => return Err(GraphRecordError::Codec(e)),
    };
    proof { assert(built_view.to_multiset() == m.entries@.to_multiset()); }
    Ok(Value::Object(m))
}

/// Reading table entries in stored order: identifier names and value-context
/// port records.
pub open spec fn spec_parse_table_entries(e: Seq<(String, Value)>, l: Limits) -> Result<Seq<(Seq<char>, PortModel)>, GraphRecordError>
    decreases e.len(),
{
    if e.len() == 0 {
        Ok(Seq::empty())
    } else {
        match spec_parse_table_entries(e.drop_last(), l) {
            Err(x) => Err(x),
            Ok(es) => match crate::identifier::spec_identifier_error(spec_utf8(e.last().0@)) {
                Some(x) => Err(GraphRecordError::Identifier(x)),
                None => match crate::types::reading::spec_parse_port(e.last().1, TypeContext::Value, l, false) {
                    Err(x) => Err(GraphRecordError::Type(x)),
                    Ok(p) => Ok(es.push((e.last().0@, p))),
                },
            },
        }
    }
}

/// Reading a port table record: a map of declarations, put in name order.
pub open spec fn spec_parse_table(v: Value, l: Limits) -> Result<Seq<(Seq<char>, PortModel)>, GraphRecordError> {
    match v {
        Value::Object(m) => match spec_parse_table_entries(m.entries@, l) {
            Err(x) => Err(x),
            Ok(es) => if spec_names_distinct(es.map_values(|e: (Seq<char>, PortModel)| e.0)) {
                Ok(spec_sort_params(es))
            } else {
                Err(GraphRecordError::Codec(crate::cbor::error::spec_plain_error(crate::cbor::error::ErrorKind::DuplicateMapKey)))
            },
        },
        _ => Err(GraphRecordError::InvalidShape("port table")),
    }
}

/// A failed prefix of the entries fails every longer prefix alike.
proof fn lemma_table_err_extends(e: Seq<(String, Value)>, l: Limits, i: int, j: int)
    requires
        0 <= i <= j <= e.len(),
        spec_parse_table_entries(e.take(i), l) is Err,
    ensures
        spec_parse_table_entries(e.take(j), l) == spec_parse_table_entries(e.take(i), l),
    decreases j - i,
{
    if i < j {
        lemma_table_err_extends(e, l, i, j - 1);
        assert(e.take(j).drop_last() =~= e.take(j - 1));
    }
}

/// Reads a port table record.
pub(crate) fn parse_table(v: &Value, limits: &Limits) -> (res: Result<PortTable, GraphRecordError>)
    requires
        limits.spec_valid(),
    ensures
        match spec_parse_table(*v, *limits) {
            Ok(es) => res matches Ok(t) && spec_params_model(t.spec_entries()) == es,
            Err(e) => res == Err::<PortTable, GraphRecordError>(e),
        },
{
    let m = match v {
        Value::Object(m) => m,
        _ => return Err(GraphRecordError::InvalidShape("port table")),
    };
    let ghost e = m.entries@;
    let mut out: Vec<(Identifier, Port)> = Vec::new();
    let mut i: usize = 0;
    proof {
        assert(e.take(0) =~= Seq::<(String, Value)>::empty());
        assert(spec_params_model(out@) =~= Seq::<(Seq<char>, PortModel)>::empty());
    }
    while i < m.entries.len()
        invariant
            e == m.entries@,
            *v == Value::Object(*m),
            limits.spec_valid(),
            i <= e.len(),
            spec_parse_table_entries(e.take(i as int), *limits) == Ok::<Seq<(Seq<char>, PortModel)>, GraphRecordError>(spec_params_model(out@)),
        decreases e.len() - i,
    {
        let (k, pv) = &m.entries[i];
        proof {
            assert(e.take(i + 1).drop_last() =~= e.take(i as int));
            assert(e.take(i + 1).last() == e[i as int]);
            crate::identifier::lemma_identifier_error_iff(spec_utf8(k@));
        }
        let id = match Identifier::parse(k.as_str()) {
            Ok(id) => id,
            Err(err) => {
                proof {
                    lemma_table_err_extends(e, *limits, i + 1, e.len() as int);
                    assert(e.take(e.len() as int) =~= e);
                }
                return Err(GraphRecordError::Identifier(err));
            },
        };
        let port = match crate::types::reader::parse_port(pv, TypeContext::Value, limits, false) {
            Ok(p) => p,
            Err(err) => {
                proof {
                    lemma_table_err_extends(e, *limits, i + 1, e.len() as int);
                    assert(e.take(e.len() as int) =~= e);
                }
                return Err(GraphRecordError::Type(err));
            },
        };
        let ghost before = out@;
        out.push((id, port));
        proof {
            assert(spec_params_model(out@) =~= spec_params_model(before).push((k@, spec_port_model(port))));
        }
        i = i + 1;
    }
    proof { assert(e.take(e.len() as int) =~= e); }
    if !names_distinct(&out) {
        return Err(GraphRecordError::Codec(crate::cbor::error::Error::new(crate::cbor::error::ErrorKind::DuplicateMapKey)));
    }
    proof { assert(spec_params_model(out@).map_values(|e: (Seq<char>, PortModel)| e.0) =~= crate::expression::template::spec_param_names(spec_params_model(out@))); }
    let entries = crate::expression::template::sort_params(out);
    proof {
        let ms = spec_params_model(entries@);
        assert forall|i: int, j: int| 0 <= i < j < entries@.len() implies spec_lex_lt(
            spec_utf8((#[trigger] entries@[i]).0@), spec_utf8((#[trigger] entries@[j]).0@)) by {
            assert(ms[i].0 == entries@[i].0@);
            assert(ms[j].0 == entries@[j].0@);
        }
    }
    Ok(PortTable { entries })
}

/// Whether declared names are pairwise distinct.
fn names_distinct(es: &Vec<(Identifier, Port)>) -> (res: bool)
    ensures
        res == spec_names_distinct(spec_params_model(es@).map_values(|e: (Seq<char>, PortModel)| e.0)),
{
    let ghost ns = spec_params_model(es@).map_values(|e: (Seq<char>, PortModel)| e.0);
    let mut a: usize = 0;
    while a < es.len()
        invariant
            ns == spec_params_model(es@).map_values(|e: (Seq<char>, PortModel)| e.0),
            a <= es@.len(),
            forall|x: int, y: int| 0 <= x < y < es@.len() && x < a ==> spec_utf8(#[trigger] ns[x]) != spec_utf8(#[trigger] ns[y]),
        decreases es@.len() - a,
    {
        let mut b: usize = a + 1;
        while b < es.len()
            invariant
                ns == spec_params_model(es@).map_values(|e: (Seq<char>, PortModel)| e.0),
                a < b <= es@.len(),
                forall|x: int, y: int| 0 <= x < y < es@.len() && x < a ==> spec_utf8(#[trigger] ns[x]) != spec_utf8(#[trigger] ns[y]),
                forall|y: int| a < y < b ==> spec_utf8(ns[a as int]) != spec_utf8(#[trigger] ns[y]),
            decreases es@.len() - b,
        {
            assert(ns[a as int] == es@[a as int].0@);
            assert(ns[b as int] == es@[b as int].0@);
            if crate::text::same_text(es[a].0.as_str(), es[b].0.as_str()) {
                return false;
            }
            proof {
                if spec_utf8(ns[a as int]) == spec_utf8(ns[b as int]) {
                    crate::types::model::lemma_utf8_injective(ns[a as int], ns[b as int]);
                }
            }
            b = b + 1;
        }
        a = a + 1;
    }
    true
}

impl PortTable {
    /// The declarations as mathematics, in name order.
    pub open spec fn spec_model(&self) -> Seq<(Seq<char>, PortModel)> {
        spec_params_model(self.spec_entries())
    }

    /// Constructs and normalizes a port table: the declarations' record is
    /// built, refusing repeated names, then read back in name order.
    pub fn new(entries: Vec<(Identifier, Port)>, limits: &Limits) -> (res: Result<PortTable, GraphRecordError>)
        ensures
            !limits.spec_valid() ==> res matches Err(GraphRecordError::Codec(_)),
            limits.spec_valid() ==> match spec_grun(*limits, (0, 0, 0), spec_table_steps(*limits, spec_params_model(entries@))) {
                Err(e) => res == Err::<PortTable, GraphRecordError>(e),
                Ok(_) => exists|v: Value| #[trigger] spec_table_record(v, spec_params_model(entries@))
                    && match spec_parse_table(v, *limits) {
                        Ok(es) => res matches Ok(t) && t.spec_model() == es,
                        Err(e) => res == Err::<PortTable, GraphRecordError>(e),
                    },
            },
    {
        let v = table_value(&entries, limits)?;
        parse_table(&v, limits)
    }

    /// Converts to canonical data with value-context types.
    pub fn to_value(&self, limits: &Limits) -> (res: Result<Value, GraphRecordError>)
        ensures
            !limits.spec_valid() ==> res matches Err(GraphRecordError::Codec(_)),
            limits.spec_valid() ==> match spec_grun(*limits, (0, 0, 0), spec_table_steps(*limits, self.spec_model())) {
                Ok(_) => res matches Ok(v) && spec_table_record(v, self.spec_model()),
                Err(e) => res == Err::<Value, GraphRecordError>(e),
            },
    {
        table_value(&self.entries, limits)
    }

    /// Bounds already decoded table data under the codec limits, then reads it.
    pub fn from_value(v: &Value, limits: &Limits) -> (res: Result<PortTable, GraphRecordError>)
        ensures
            !(limits.spec_valid() && crate::cbor::encode::spec_fits(*v, *limits)) ==> res matches Err(GraphRecordError::Codec(_)),
            limits.spec_valid() && crate::cbor::encode::spec_fits(*v, *limits) ==> match spec_parse_table(*v, *limits) {
                Ok(es) => res matches Ok(t) && t.spec_model() == es,
                Err(e) => res == Err::<PortTable, GraphRecordError>(e),
            },
    {
        if let Err(e) = crate::cbor::encode::encode(v, limits) {
            return Err(GraphRecordError::Codec(e));
        }
        parse_table(v, limits)
    }

    /// Encodes one canonical port table.
    pub fn encode(&self, limits: &Limits) -> (res: Result<Vec<u8>, GraphRecordError>)
        ensures
            !limits.spec_valid() ==> res matches Err(GraphRecordError::Codec(_)),
            limits.spec_valid() ==> (spec_grun(*limits, (0, 0, 0), spec_table_steps(*limits, self.spec_model()))
                matches Err(e) ==> res == Err::<Vec<u8>, GraphRecordError>(e)),
            res matches Ok(b) ==> exists|v: Value| #[trigger] spec_table_record(v, self.spec_model())
                && b@ == crate::cbor::value::spec_encode(v),
            limits.spec_valid() ==> match spec_grun(*limits, (0, 0, 0), spec_table_steps(*limits, self.spec_model())) {
                Ok(_) => exists|v: crate::cbor::value::Value| (crate::cbor::encode::spec_fits(v, *limits) <==> res is Ok) && (res matches Ok(b) ==> b@ == crate::cbor::value::spec_encode(v)) && spec_table_record(v, self.spec_model()),
                Err(e) => res == Err::<Vec<u8>, GraphRecordError>(e),
            },
    {
        let v = self.to_value(limits)?;
        match crate::cbor::encode::encode(&v, limits) {
            Ok(b) => Ok(b),
            Err(e) => Err(GraphRecordError::Codec(e)),
        }
    }

    /// Decodes exactly one canonical port table.
    pub fn decode(bytes: &[u8], limits: &Limits) -> (res: Result<PortTable, GraphRecordError>)
        ensures
            !limits.spec_valid() ==> res matches Err(GraphRecordError::Codec(_)),
            res matches Ok(t) ==> exists|w: Value| #[trigger] crate::cbor::value::spec_encode(w) == bytes@
                && spec_parse_table(w, *limits) == Ok::<Seq<(Seq<char>, PortModel)>, GraphRecordError>(t.spec_model()),
            limits.spec_valid() && (exists|x: crate::cbor::value::Value| #[trigger] crate::cbor::value::spec_encode(x) == bytes@
                && crate::cbor::value::spec_wf(x) && crate::cbor::value::spec_height(x) <= limits.max_depth
                && bytes@.len() <= limits.max_document_bytes) ==> exists|w: crate::cbor::value::Value|
                #[trigger] crate::cbor::value::spec_encode(w) == bytes@ && crate::cbor::value::spec_wf(w) && (match spec_parse_table(w, *limits) {
                Ok(es) => res matches Ok(t) && t.spec_model() == es,
                Err(e) => res == Err::<PortTable, GraphRecordError>(e),
            }),
    {
        let v = match crate::cbor::decode::decode(bytes, limits) {
            Ok(v) => v,
            Err(e) => return Err(GraphRecordError::Codec(e)),
        };
        proof { assert(crate::cbor::value::spec_encode(v) == bytes@ && crate::cbor::value::spec_wf(v)); }
        let t = parse_table(&v, limits)?;
        assert(crate::cbor::value::spec_encode(v) == bytes@);
        Ok(t)
    }
}

} // verus!

