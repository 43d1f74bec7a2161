//! Graph edge records: a named edge from a source endpoint to a destination
//! endpoint, with its guard expression.

use vstd::prelude::*;
use vstd::string::*;

use super::{EdgeDestination, EdgeSource, GraphRecordError, ScopeContext};
use crate::cbor::value::{spec_utf8, Value};
use crate::cbor::map::spec_find;
use crate::expression::model::ExprModel;
use crate::expression::reader::spec_read_expr;
use crate::identifier::{spec_identifier_error, Identifier};
use crate::metadata::{spec_closed, MetadataError};
use crate::expression::ExpressionContext;
use crate::text::same_text;

verus! {

/// An endpoint as mathematics: its tag and its names.
pub type EndpointModel = (Seq<char>, Seq<Seq<char>>);

/// The tag and names of an edge source.
pub open spec fn spec_source_model(s: EdgeSource) -> EndpointModel {
    match s {
        EdgeSource::Input(n) => ("input"@, seq![n@]),
        EdgeSource::Output { node, port } => ("output"@, seq![node@, port@]),
        EdgeSource::Carried(n) => ("carried"@, seq![n@]),
    }
}

/// The tag and names of an edge destination.
pub open spec fn spec_destination_model(d: EdgeDestination) -> EndpointModel {
    match d {
        EdgeDestination::Input { node, port } => ("input"@, seq![node@, port@]),
        EdgeDestination::Output(n) => ("output"@, seq![n@]),
        EdgeDestination::Next(n) => ("next"@, seq![n@]),
    }
}

/// Checking a closed record's field names, as a graph record failure.
pub open spec fn spec_graph_closed(v: Value, name: &'static str, fields: Seq<&'static str>)
    -> Result<Seq<(String, Value)>, GraphRecordError> {
    match spec_closed(v, name, fields) {
        Ok(e) => Ok(e),
        Err(MetadataError::UnknownField(n)) => Err(GraphRecordError::UnknownField(n)),
        Err(MetadataError::MissingField(f)) => Err(GraphRecordError::MissingField(f)),
        Err(_) => Err(GraphRecordError::InvalidShape(name)),
    }
}

/// Reading a text at a fixed schema site.
pub open spec fn spec_read_gtext(v: Value, site: &'static str) -> Result<Seq<char>, GraphRecordError> {
    match v {
        Value::Text(t) => Ok(t@),
        _ => Err(GraphRecordError::InvalidShape(site)),
    }
}

/// Reading an identifier.
pub open spec fn spec_read_gid(v: Value) -> Result<Seq<char>, GraphRecordError> {
    match spec_read_gtext(v, "identifier") {
        Err(e) => Err(e),
        Ok(t) => match spec_identifier_error(spec_utf8(t)) {
            Some(e) => Err(GraphRecordError::Identifier(e)),
            None => Ok(t),
        },
    }
}

/// Reading an endpoint record: a tagged array whose arity is three for the
/// two-name tag `two` and two otherwise, then its names.
pub open spec fn spec_parse_endpoint(v: Value, site: &'static str, tag_site: &'static str, two: Seq<char>,
    one_a: Seq<char>, one_b: Seq<char>) -> Result<EndpointModel, GraphRecordError> {
    match v {
        Value::Array(a) => if a@.len() == 0 {
            Err(GraphRecordError::InvalidShape(site))
        } else {
            match spec_read_gtext(a@[0], tag_site) {
                Err(e) => Err(e),
                Ok(tag) => if a@.len() != (if tag == two { 3int } else { 2int }) {
                    Err(GraphRecordError::InvalidShape("constructor arity"))
                } else if tag == two {
                    match spec_read_gid(a@[1]) {
                        Err(e) => Err(e),
                        Ok(x) => match spec_read_gid(a@[2]) {
                            Err(e) => Err(e),
                            Ok(y) => Ok((tag, seq![x, y])),
                        },
                    }
                } else if tag == one_a || tag == one_b {
                    match spec_read_gid(a@[1]) {
                        Err(e) => Err(e),
                        Ok(x) => Ok((tag, seq![x])),
                    }
                } else {
                    Err(GraphRecordError::InvalidShape(tag_site))
                },
            }
        },
        _ => Err(GraphRecordError::InvalidShape(site)),
    }
}

/// Reading an edge source record.
pub open spec fn spec_parse_source(v: Value) -> Result<EndpointModel, GraphRecordError> {
    spec_parse_endpoint(v, "source", "source tag", "output"@, "input"@, "carried"@)
}

/// Reading an edge destination record.
pub open spec fn spec_parse_destination(v: Value) -> Result<EndpointModel, GraphRecordError> {
    spec_parse_endpoint(v, "destination", "destination tag", "input"@, "output"@, "next"@)
}

/// An edge as mathematics: its name, source, destination and guard.
pub type EdgeModel = (Seq<char>, EndpointModel, EndpointModel, ExprModel);

/// The edge record's field names, in UTF-8 order.
pub open spec fn spec_edge_fields() -> Seq<&'static str> {
    seq!["destination", "guard", "id", "source"]
}

/// Reading a field that the closed-record check found.
pub open spec fn spec_field_or_missing(es: Seq<(String, Value)>, key: &'static str) -> Result<Value, GraphRecordError> {
    match spec_find(es, key@) {
        Some(x) => Ok(x),
        None => Err(GraphRecordError::MissingField(key)),
    }
}

/// Reading an edge record in scope context `c`: a closed map of its name,
/// endpoints and guard, the guard read canonically in the scope's guard
/// context.
pub open spec fn spec_parse_edge(v: Value, c: ScopeContext) -> Result<EdgeModel, GraphRecordError> {
    match spec_graph_closed(v, "edge", spec_edge_fields()) {
        Err(e) => Err(e),
        Ok(es) => match spec_field_or_missing(es, "id") {
            Err(e) => Err(e),
            Ok(iv) => match spec_read_gid(iv) {
                Err(e) => Err(e),
                Ok(id) => match spec_field_or_missing(es, "source") {
                    Err(e) => Err(e),
                    Ok(sv) => match spec_parse_source(sv) {
                        Err(e) => Err(e),
                        Ok(s) => match spec_field_or_missing(es, "destination") {
                            Err(e) => Err(e),
                            Ok(dv) => match spec_parse_destination(dv) {
                                Err(e) => Err(e),
                                Ok(d) => match spec_field_or_missing(es, "guard") {
                                    Err(e) => Err(e),
                                    Ok(gv) => match spec_read_expr(gv,
                                        ExpressionContext::Guard { loop_body: c == ScopeContext::LoopBody }, false) {
                                        Err(e) => Err(GraphRecordError::Expression(e)),
                                        Ok(g) => Ok((id, s, d, g)),
                                    },
                                },
                            },
                        },
                    },
                },
            },
        },
    }
}

} // verus!

verus! {

/// A guarded edge from one local endpoint to another. The unsorted
/// authored shape is preserved; validation happens when it is converted.
#[derive(Debug)]
pub struct Edge {
    id: Identifier,
    source: EdgeSource,
    destination: EdgeDestination,
    guard: crate::expression::Expression,
}

impl Edge {
    /// The edge as mathematics.
    pub closed spec fn spec_model(&self) -> EdgeModel {
        (self.id@, spec_source_model(self.source), spec_destination_model(self.destination),
            crate::expression::model::spec_expr_model(self.guard))
    }

    /// An edge whose guard is the literal `true`.
    pub fn new(id: Identifier, source: EdgeSource, destination: EdgeDestination) -> (res: Edge)
        ensures
            res.spec_model() == (id@, spec_source_model(source), spec_destination_model(destination),
                ExprModel::Literal(crate::expression::model::ScalarModel::Boolean(true))),
    {
        Edge { id, source, destination, guard: crate::expression::Expression::literal(crate::expression::ScalarLiteral::Boolean(true)) }
    }

    /// The same edge with another guard.
    pub fn with_guard(self, guard: crate::expression::Expression) -> (res: Edge)
        ensures
            res.spec_model() == (self.spec_model().0, self.spec_model().1, self.spec_model().2,
                crate::expression::model::spec_expr_model(guard)),
    {
        Edge { id: self.id, source: self.source, destination: self.destination, guard }
    }

    /// The edge's local name.
    pub fn id(&self) -> (res: &Identifier)
        ensures
            res@ == self.spec_model().0,
    {
        &self.id
    }

    /// The edge's source.
    pub fn source(&self) -> (res: &EdgeSource)
        ensures
            spec_source_model(*res) == self.spec_model().1,
    {
        &self.source
    }

    /// The edge's destination.
    pub fn destination(&self) -> (res: &EdgeDestination)
        ensures
            spec_destination_model(*res) == self.spec_model().2,
    {
        &self.destination
    }

    /// The edge's guard.
    pub fn guard(&self) -> (res: &crate::expression::Expression)
        ensures
            crate::expression::model::spec_expr_model(*res) == self.spec_model().3,
    {
        &self.guard
    }
}

/// Reads a text at a fixed schema site.
pub(crate) fn read_gtext<'a>(v: &'a Value, site: &'static str) -> (res: Result<&'a str, GraphRecordError>)
    ensures
        match spec_read_gtext(*v, site) {
            Ok(t) => res matches Ok(s) && s@ == t,
            Err(e) => res == Err::<&str, GraphRecordError>(e),
        },
{
    match v {
        Value::Text(t) => Ok(t.as_str()),
        _ => Err(GraphRecordError::InvalidShape(site)),
    }
}

/// Reads an identifier.
pub(crate) fn read_gid(v: &Value) -> (res: Result<Identifier, GraphRecordError>)
    ensures
        match spec_read_gid(*v) {
            Ok(t) => res matches Ok(id) && id@ == t,
            Err(e) => res == Err::<Identifier, GraphRecordError>(e),
        },
{
    let t = read_gtext(v, "identifier")?;
    proof { crate::identifier::lemma_identifier_error_iff(spec_utf8(t@)); }
    match Identifier::parse(t) {
        Ok(id) => Ok(id),
        Err(e) => Err(GraphRecordError::Identifier(e)),
    }
}

/// Reads an edge source record.
fn parse_source(v: &Value) -> (res: Result<EdgeSource, GraphRecordError>)
    ensures
        match spec_parse_source(*v) {
            Ok(m) => res matches Ok(s) && spec_source_model(s) == m,
            Err(e) => res == Err::<EdgeSource, GraphRecordError>(e),
        },
{
    let a = match v {
        Value::Array(a) => a,
        _ => return Err(GraphRecordError::InvalidShape("source")),
    };
    if a.len() == 0 {
        return Err(GraphRecordError::InvalidShape("source"));
    }
    let tag = read_gtext(&a[0], "source tag")?;
    let two = same_text(tag, "output");
    let n: usize = if two { 3 } else { 2 };
    if a.len() != n {
        return Err(GraphRecordError::InvalidShape("constructor arity"));
    }
    if two {
        let node = read_gid(&a[1])?;
        let port = read_gid(&a[2])?;
        Ok(EdgeSource::Output { node, port })
    } else if same_text(tag, "input") {
        Ok(EdgeSource::Input(read_gid(&a[1])?))
    } else if same_text(tag, "carried") {
        Ok(EdgeSource::Carried(read_gid(&a[1])?))
    } else {
        Err(GraphRecordError::InvalidShape("source tag"))
    }
}

/// Reads an edge destination record.
fn parse_destination(v: &Value) -> (res: Result<EdgeDestination, GraphRecordError>)
    ensures
        match spec_parse_destination(*v) {
            Ok(m) => res matches Ok(d) && spec_destination_model(d) == m,
            Err(e) => res == Err::<EdgeDestination, GraphRecordError>(e),
        },
{
    let a = match v {
        Value::Array(a) => a,
        _ => return Err(GraphRecordError::InvalidShape("destination")),
    };
    if a.len() == 0 {
        return Err(GraphRecordError::InvalidShape("destination"));
    }
    let tag = read_gtext(&a[0], "destination tag")?;
    let two = same_text(tag, "input");
    let n: usize = if two { 3 } else { 2 };
    if a.len() != n {
        return Err(GraphRecordError::InvalidShape("constructor arity"));
    }
    if two {
        let node = read_gid(&a[1])?;
        let port = read_gid(&a[2])?;
        Ok(EdgeDestination::Input { node, port })
    } else if same_text(tag, "output") {
        Ok(EdgeDestination::Output(read_gid(&a[1])?))
    } else if same_text(tag, "next") {
        Ok(EdgeDestination::Next(read_gid(&a[1])?))
    } else {
        Err(GraphRecordError::InvalidShape("destination tag"))
    }
}

/// Checks a closed record's field names.
pub(crate) fn graph_closed<'a>(v: &'a Value, name: &'static str, fields: &[&'static str])
    -> (res: Result<&'a crate::cbor::value::ValueMap, GraphRecordError>)
    ensures
        match spec_graph_closed(*v, name, fields@) {
            Ok(e) => res matches Ok(m) && m.entries@ == e,
            Err(x) => res == Err::<&crate::cbor::value::ValueMap, GraphRecordError>(x),
        },
{
    match crate::metadata::closed(v, name, fields) {
        Ok(m) => Ok(m),
        Err(MetadataError::UnknownField(n)) => Err(GraphRecordError::UnknownField(n)),
        Err(MetadataError::MissingField(f)) => Err(GraphRecordError::MissingField(f)),
        Err(_) => Err(GraphRecordError::InvalidShape(name)),
    }
}

/// Reads a field that the closed-record check found.
pub(crate) fn field_or_missing<'a>(m: &'a crate::cbor::value::ValueMap, key: &'static str) -> (res: Result<&'a Value, GraphRecordError>)
    ensures
        match spec_field_or_missing(m.entries@, key) {
            Ok(x) => res == Ok::<&Value, GraphRecordError>(&x),
            Err(e) => res == Err::<&Value, GraphRecordError>(e),
        },
{
    match m.get(key) {
        Some(x) => Ok(x),
        None => Err(GraphRecordError::MissingField(key)),
    }
}

/// Reads an edge record in scope context `c`.
pub(crate) fn parse_edge(v: &Value, c: ScopeContext) -> (res: Result<Edge, GraphRecordError>)
    ensures
        match spec_parse_edge(*v, c) {
            Ok(m) => res matches Ok(e) && e.spec_model() == m,
            Err(x) => res == Err::<Edge, GraphRecordError>(x),
        },
{
    let fields: [&'static str; 4] = ["destination", "guard", "id", "source"];
    assert(fields@ == spec_edge_fields());
    let m = graph_closed(v, "edge", &fields)?;
    let id = read_gid(field_or_missing(m, "id")?)?;
    let source = parse_source(field_or_missing(m, "source")?)?;
    let destination = parse_destination(field_or_missing(m, "destination")?)?;
    let gv = field_or_missing(m, "guard")?;
    let guard = match crate::expression::reader::parse_expr(gv, c.guard(), false) {
        Ok(g) => g,
        Err(e) => return Err(GraphRecordError::Expression(e)),
    };
    Ok(Edge { id, source, destination, guard })
}

} // verus!

verus! {

use crate::record_accounting::{spec_charges, spec_value_charges, Charge, RecordAccounting};

/// The values charged for an endpoint record at depth `d`: its header, its
/// tag and its names.
pub open spec fn spec_endpoint_charges(p: EndpointModel, d: int) -> Seq<Charge> {
    seq![Charge::Collection { len: (p.1.len() + 1) as usize, depth: d as usize },
        Charge::Text { len: spec_utf8(p.0).len() as usize, depth: (d + 1) as usize }]
        + p.1.map_values(|n: Seq<char>| Charge::Text { len: spec_utf8(n).len() as usize, depth: (d + 1) as usize })
}

/// A text charged at depth one.
pub open spec fn spec_ktext(t: Seq<char>) -> Charge {
    Charge::Text { len: spec_utf8(t).len() as usize, depth: 1 }
}

/// The values charged for an edge record before its guard: the map header,
/// then each key and value in stored order, then the guard's key.
pub open spec fn spec_edge_head(m: EdgeModel) -> Seq<Charge> {
    seq![Charge::Collection { len: 4, depth: 0 }, spec_ktext("id"@), spec_ktext(m.0), spec_ktext("source"@)]
        + spec_endpoint_charges(m.1, 1) + seq![spec_ktext("destination"@)] + spec_endpoint_charges(m.2, 1)
        + seq![spec_ktext("guard"@)]
}

/// `v` is the text `t`.
pub open spec fn spec_is_gtext(v: Value, t: Seq<char>) -> bool {
    v matches Value::Text(s) && s@ == t
}

/// `v` is the record of an endpoint: its tag, then its names.
pub open spec fn spec_endpoint_record(v: Value, p: EndpointModel) -> bool {
    v matches Value::Array(a) && a@.len() == p.1.len() + 1 && spec_is_gtext(a@[0], p.0)
        && forall|i: int| 0 <= i < p.1.len() ==> spec_is_gtext(#[trigger] a@[i + 1], p.1[i])
}

/// The entries of an edge record in build order.
pub open spec fn spec_edge_entries(built: Seq<(String, Value)>, m: EdgeModel) -> bool {
    &&& built.len() == 4
    &&& built[0].0@ == "id"@ && spec_is_gtext(built[0].1, m.0)
    &&& built[1].0@ == "source"@ && spec_endpoint_record(built[1].1, m.1)
    &&& built[2].0@ == "destination"@ && spec_endpoint_record(built[2].1, m.2)
    &&& built[3].0@ == "guard"@ && crate::expression::model::spec_expr_record(built[3].1, m.3)
}

/// The canonical edge record: a map in canonical key order holding the name,
/// the endpoints and the guard.
pub open spec fn spec_edge_record(v: Value, m: EdgeModel) -> bool {
    v matches Value::Object(map) && crate::cbor::value::spec_keys_sorted(map.entries@)
        && exists|built: Seq<(String, Value)>| #[trigger] built.to_multiset() == map.entries@.to_multiset()
            && spec_edge_entries(built, m)
}

/// Charges the `k`-th value of `s`.
pub(crate) fn charge_at(acc: &mut RecordAccounting, ch: Charge, Ghost(s): Ghost<Seq<Charge>>, Ghost(k): Ghost<int>)
    -> (res: Result<(), GraphRecordError>)
    requires
        0 <= k < s.len(),
        s[k] == ch,
    ensures
        final(acc).limits == old(acc).limits,
        res is Ok ==> spec_charges(*old(acc).limits, old(acc).counters(), s.skip(k))
            == spec_charges(*final(acc).limits, final(acc).counters(), s.skip(k + 1)),
        res matches Err(e) ==> spec_charges(*old(acc).limits, old(acc).counters(), s.skip(k)) matches Err(x)
            && e == (GraphRecordError::LimitExceeded { limit: x.limit, maximum: x.maximum }),
{
    proof {
        assert(s.skip(k) =~= seq![ch] + s.skip(k + 1));
        crate::record_accounting::lemma_charges_cons(*acc.limits, acc.counters(), ch, s.skip(k + 1));
    }
    match acc.apply(ch) {
        Ok(()) => Ok(()),
        Err(e) => Err(GraphRecordError::LimitExceeded { limit: e.limit, maximum: e.maximum }),
    }
}

/// Charges and produces the text `t` as the `k`-th value of `s`.
pub(crate) fn text_at(acc: &mut RecordAccounting, t: &str, d: usize, Ghost(s): Ghost<Seq<Charge>>, Ghost(k): Ghost<int>)
    -> (res: Result<Value, GraphRecordError>)
    requires
        0 <= k < s.len(),
        s[k] == (Charge::Text { len: spec_utf8(t@).len() as usize, depth: d }),
    ensures
        final(acc).limits == old(acc).limits,
        res matches Ok(v) ==> spec_is_gtext(v, t@) && spec_charges(*old(acc).limits, old(acc).counters(), s.skip(k))
            == spec_charges(*final(acc).limits, final(acc).counters(), s.skip(k + 1)),
        res matches Err(e) ==> spec_charges(*old(acc).limits, old(acc).counters(), s.skip(k)) matches Err(x)
            && e == (GraphRecordError::LimitExceeded { limit: x.limit, maximum: x.maximum }),
{
    charge_at(acc, Charge::Text { len: t.as_bytes().len(), depth: d }, Ghost(s), Ghost(k))?;
    Ok(Value::Text(String::from_str(t)))
}

/// Charges and produces an endpoint record with one or two names, from the
/// `k`-th value of `s` on.
fn endpoint_at(acc: &mut RecordAccounting, tag: &str, a: &str, b: Option<&str>,
    Ghost(p): Ghost<EndpointModel>, Ghost(s): Ghost<Seq<Charge>>, Ghost(k): Ghost<int>)
    -> (res: Result<Value, GraphRecordError>)
    requires
        p.0 == tag@,
        p.1 == (match b { Some(y) => seq![a@, y@], None => seq![a@] }),
        0 <= k,
        k + spec_endpoint_charges(p, 1).len() <= s.len(),
        s.subrange(k, k + spec_endpoint_charges(p, 1).len()) == spec_endpoint_charges(p, 1),
    ensures
        final(acc).limits == old(acc).limits,
        res matches Ok(v) ==> spec_endpoint_record(v, p) && spec_charges(*old(acc).limits, old(acc).counters(), s.skip(k))
            == spec_charges(*final(acc).limits, final(acc).counters(), s.skip(k + spec_endpoint_charges(p, 1).len())),
        res matches Err(e) ==> spec_charges(*old(acc).limits, old(acc).counters(), s.skip(k)) matches Err(x)
            && e == (GraphRecordError::LimitExceeded { limit: x.limit, maximum: x.maximum }),
{
    let ghost ec = spec_endpoint_charges(p, 1);
    let n: usize = match b { Some(_) => 3, None => 2 };
    proof {
        assert(s[k] == ec[0]);
        assert(s[k + 1] == ec[1]);
        assert(s[k + 2] == ec[2]);
        if b is Some {
            assert(s[k + 3] == ec[3]);
        }
    }
    charge_at(acc, Charge::Collection { len: n, depth: 1 }, Ghost(s), Ghost(k))?;
    let tv = text_at(acc, tag, 2, Ghost(s), Ghost(k + 1))?;
    let av = text_at(acc, a, 2, Ghost(s), Ghost(k + 2))?;
    let mut v: Vec<Value> = Vec::new();
    v.push(tv);
    v.push(av);
    match b {
        Some(y) => {
            let bv = text_at(acc, y, 2, Ghost(s), Ghost(k + 3))?;
            v.push(bv);
        },
        None => {},
    }
    Ok(Value::Array(v))
}

} // verus!

verus! {

use crate::record_accounting::RecordAccounting as Accounting;

/// The guard context of a scope context.
pub open spec fn spec_guard_context(c: ScopeContext) -> ExpressionContext {
    ExpressionContext::Guard { loop_body: c == ScopeContext::LoopBody }
}

/// The names of a source, for building.
fn source_parts(s: &EdgeSource) -> (res: (&'static str, &str, Option<&str>))
    ensures
        spec_source_model(*s) == (res.0@, match res.2 { Some(y) => seq![res.1@, y@], None => seq![res.1@] }),
{
    match s {
        EdgeSource::Input(n) => ("input", n.as_str(), None),
        EdgeSource::Output { node, port } => ("output", node.as_str(), Some(port.as_str())),
        EdgeSource::Carried(n) => ("carried", n.as_str(), None),
    }
}

/// The names of a destination, for building.
fn destination_parts(d: &EdgeDestination) -> (res: (&'static str, &str, Option<&str>))
    ensures
        spec_destination_model(*d) == (res.0@, match res.2 { Some(y) => seq![res.1@, y@], None => seq![res.1@] }),
{
    match d {
        EdgeDestination::Input { node, port } => ("input", node.as_str(), Some(port.as_str())),
        EdgeDestination::Output(n) => ("output", n.as_str(), None),
        EdgeDestination::Next(n) => ("next", n.as_str(), None),
    }
}

/// What building the record of edge `m` in scope context `c` under valid
/// limits gives: the name, endpoints and guard key charged first, then the
/// guard's record built on its own and charged whole.
#[verifier::opaque]
pub open spec fn spec_edge_built(l: crate::cbor::limits::Limits, c: ScopeContext, m: EdgeModel,
    res: Result<Value, GraphRecordError>) -> bool {
    match spec_charges(l, (0, 0, 0), spec_edge_head(m)) {
        Err(e) => res == Err::<Value, GraphRecordError>(GraphRecordError::LimitExceeded { limit: e.limit, maximum: e.maximum }),
        Ok(k) => match crate::expression::model::spec_erun(l, (0, 0, 0),
            crate::expression::model::spec_expr_steps(m.3, spec_guard_context(c), 0)) {
            Err(e) => res == Err::<Value, GraphRecordError>(GraphRecordError::Expression(e)),
            Ok(_) => exists|gv: Value| #[trigger] crate::expression::model::spec_expr_record(gv, m.3)
                && match spec_charges(l, k, spec_value_charges(gv, 1)) {
                    Ok(_) => res matches Ok(v) && spec_edge_record(v, m),
                    Err(e) => res == Err::<Value, GraphRecordError>(
                        GraphRecordError::LimitExceeded { limit: e.limit, maximum: e.maximum }),
                },
        },
    }
}

impl Edge {
    /// Produces the canonical edge record in scope context `context`: the
    /// name, endpoints and guard key are charged first, then the guard's
    /// record is built in the scope's guard context and charged whole.
    #[verifier::rlimit(40)]
    pub fn to_value(&self, context: ScopeContext, limits: &crate::cbor::limits::Limits) -> (res: Result<Value, GraphRecordError>)
        ensures
            !limits.spec_valid() ==> res matches Err(GraphRecordError::Codec(_)),
            limits.spec_valid() ==> spec_edge_built(*limits, context, self.spec_model(), res),
    {
        proof {
            reveal(spec_edge_built);
        }
        let mut acc = match Accounting::new(limits) {
            Ok(a) => a,
            Err(e) => return Err(GraphRecordError::Codec(e)),
        };
        let ghost m = self.spec_model();
        let ghost head = spec_edge_head(m);
        let ghost es = spec_endpoint_charges(m.1, 1);
        let ghost ed = spec_endpoint_charges(m.2, 1);
        let (st, sa, sb) = source_parts(&self.source);
        let (dt, da, db) = destination_parts(&self.destination);
        let ghost k1: int = 4 + es.len() as int;
        let ghost k2: int = k1 + 1 + ed.len() as int;
        proof {
            assert(head.len() == k2 + 1);
            assert(head.subrange(4, 4 + es.len() as int) =~= es);
            assert(head.subrange(k1 + 1, k1 + 1 + ed.len() as int) =~= ed);
            assert(head.skip(0) =~= head);
            assert(head.skip(k2 + 1) =~= Seq::<Charge>::empty());
        }
        charge_at(&mut acc, Charge::Collection { len: 4, depth: 0 }, Ghost(head), Ghost(0))?;
        let idk = text_at(&mut acc, "id", 1, Ghost(head), Ghost(1))?;
        let idv = text_at(&mut acc, self.id.as_str(), 1, Ghost(head), Ghost(2))?;
        let sk = text_at(&mut acc, "source", 1, Ghost(head), Ghost(3))?;
        let sv = endpoint_at(&mut acc, st, sa, sb, Ghost(m.1), Ghost(head), Ghost(4))?;
        let dk = text_at(&mut acc, "destination", 1, Ghost(head), Ghost(k1))?;
        let dv = endpoint_at(&mut acc, dt, da, db, Ghost(m.2), Ghost(head), Ghost(k1 + 1))?;
        let gk = text_at(&mut acc, "guard", 1, Ghost(head), Ghost(k2))?;
        let gv = match self.guard.to_value(context.guard(), limits) {
            Ok(g) => g,
            Err(e) => return Err(GraphRecordError::Expression(e)),
        };
        match acc.value(&gv, 1) {
            Ok(()) => {},
            Err(e) => return Err(GraphRecordError::LimitExceeded { limit: e.limit, maximum: e.maximum }),
        }
        let mut built: Vec<(String, Value)> = Vec::new();
        built.push((String::from_str("id"), idv));
        built.push((String::from_str("source"), sv));
        built.push((String::from_str("destination"), dv));
        built.push((String::from_str("guard"), gv));
        proof {
            reveal_strlit("id");
            reveal_strlit("source");
            reveal_strlit("destination");
            reveal_strlit("guard");
            assert("id"@.len() == 2);
            assert("source"@.len() == 6);
            assert("destination"@.len() == 11);
            assert("guard"@.len() == 5);
            assert forall|i: int, j: int| 0 <= i < j < built@.len() implies spec_utf8(#[trigger] built@[i].0@)
                != spec_utf8(#[trigger] built@[j].0@) by {
                if spec_utf8(built@[i].0@) == spec_utf8(built@[j].0@) {
                    crate::types::model::lemma_utf8_injective(built@[i].0@, built@[j].0@);
                }
            }
        }
        let ghost bv = built@;
        let map = match crate::cbor::value::ValueMap::try_from_entries(built) {
            Ok(x) => x,
            Err(e) => return Err(GraphRecordError::Codec(e)),
        };
        proof {
            assert(bv.to_multiset() == map.entries@.to_multiset());
            assert(spec_edge_entries(bv, m));
        }
        Ok(Value::Object(map))
    }
}

} // verus!

verus! {

impl Edge {
    /// Bounds already decoded edge data under the codec limits, then reads it
    /// in scope context `context`.
    pub fn from_value(v: &Value, context: ScopeContext, limits: &crate::cbor::limits::Limits)
        -> (res: Result<Edge, GraphRecordError>)
        ensures
            !(limits.spec_valid() && crate::cbor::encode::spec_fits(*v, *limits)) ==> res matches Err(GraphRecordError::Codec(_)),
            limits.spec_valid() && crate::cbor::encode::spec_fits(*v, *limits) ==> match spec_parse_edge(*v, context) {
                Ok(m) => res matches Ok(e) && e.spec_model() == m,
                Err(x) => res == Err::<Edge, GraphRecordError>(x),
            },
    {
        if let Err(e) = crate::cbor::encode::encode(v, limits) {
            return Err(GraphRecordError::Codec(e));
        }
        parse_edge(v, context)
    }

    /// Encodes one canonical edge record in scope context `context`.
    pub fn encode(&self, context: ScopeContext, limits: &crate::cbor::limits::Limits) -> (res: Result<Vec<u8>, GraphRecordError>)
        ensures
            !limits.spec_valid() ==> res matches Err(GraphRecordError::Codec(_)),
            limits.spec_valid() ==> exists|r: Result<Value, GraphRecordError>|
                #[trigger] spec_edge_built(*limits, context, self.spec_model(), r) && match r {
                    Err(e) => res == Err::<Vec<u8>, GraphRecordError>(e),
                    Ok(v) => (crate::cbor::encode::spec_fits(v, *limits) <==> res is Ok)
                        && (res matches Ok(b) ==> b@ == crate::cbor::value::spec_encode(v)),
                },
    {
        let r = self.to_value(context, limits);
        let v = match r {
            Ok(v) => v,
            Err(e) => return Err(e),
        };
        match crate::cbor::encode::encode(&v, limits) {
            Ok(b) => Ok(b),
            Err(e) => Err(GraphRecordError::Codec(e)),
        }
    }

    /// Decodes exactly one canonical edge record in scope context `context`.
    pub fn decode(bytes: &[u8], context: ScopeContext, limits: &crate::cbor::limits::Limits) -> (res: Result<Edge, GraphRecordError>)
        ensures
            !limits.spec_valid() ==> res matches Err(GraphRecordError::Codec(_)),
            res matches Ok(e) ==> exists|w: Value| #[trigger] crate::cbor::value::spec_encode(w) == bytes@
                && spec_parse_edge(w, context) == Ok::<EdgeModel, GraphRecordError>(e.spec_model()),
            limits.spec_valid() && (exists|x: Value| #[trigger] crate::cbor::value::spec_encode(x) == bytes@
                && crate::cbor::value::spec_wf(x) && crate::cbor::value::spec_height(x) <= limits.max_depth
                && bytes@.len() <= limits.max_document_bytes) ==> exists|w: Value|
                #[trigger] crate::cbor::value::spec_encode(w) == bytes@ && crate::cbor::value::spec_wf(w)
                && (match spec_parse_edge(w, context) {
                    Ok(m) => res matches Ok(e) && e.spec_model() == m,
                    Err(x) => res == Err::<Edge, GraphRecordError>(x),
                }),
    {
        let v = match crate::cbor::decode::decode(bytes, limits) {
            Ok(v) => v,
            Err(e) => return Err(GraphRecordError::Codec(e)),
        };
        proof { assert(crate::cbor::value::spec_encode(v) == bytes@ && crate::cbor::value::spec_wf(v)); }
        parse_edge(&v, context)
    }
}

} // verus!

verus! {

use crate::cbor::map::{lemma_find, lemma_find_permutation, lemma_sorted_views_distinct, spec_views_distinct};
use crate::identifier::spec_is_identifier;

/// Whether an endpoint reads back as itself: the two-name tag with two
/// names, or one of the one-name tags with one, every name an identifier.
pub open spec fn spec_endpoint_ok(p: EndpointModel, two: Seq<char>, one_a: Seq<char>, one_b: Seq<char>) -> bool {
    &&& (p.0 == two && p.1.len() == 2) || ((p.0 == one_a || p.0 == one_b) && p.0 != two && p.1.len() == 1)
    &&& forall|i: int| 0 <= i < p.1.len() ==> spec_is_identifier(spec_utf8(#[trigger] p.1[i]))
}

/// Whether an edge reads back as itself in scope context `c`.
pub open spec fn spec_edge_ok(m: EdgeModel, c: ScopeContext) -> bool {
    &&& spec_is_identifier(spec_utf8(m.0))
    &&& spec_endpoint_ok(m.1, "output"@, "input"@, "carried"@)
    &&& spec_endpoint_ok(m.2, "input"@, "output"@, "next"@)
    &&& crate::expression::canonical::spec_expr_wf(m.3, spec_guard_context(c))
}

/// An endpoint record reads back as its endpoint.
proof fn lemma_endpoint_roundtrip(v: Value, p: EndpointModel, site: &'static str, tag_site: &'static str, two: Seq<char>,
    one_a: Seq<char>, one_b: Seq<char>)
    requires
        spec_endpoint_ok(p, two, one_a, one_b),
        spec_endpoint_record(v, p),
    ensures
        spec_parse_endpoint(v, site, tag_site, two, one_a, one_b) == Ok::<EndpointModel, GraphRecordError>(p),
{
    let a = v->Array_0@;
    assert(spec_is_gtext(a[1], p.1[0]));
    crate::identifier::lemma_identifier_error_iff(spec_utf8(p.1[0]));
    if p.1.len() == 2 {
        assert(spec_is_gtext(a[2], p.1[1]));
        crate::identifier::lemma_identifier_error_iff(spec_utf8(p.1[1]));
        assert(seq![p.1[0], p.1[1]] =~= p.1);
    } else {
        assert(seq![p.1[0]] =~= p.1);
    }
}

/// Reading back: the record of an edge whose name, endpoints and guard read
/// back reads as exactly that edge in scope context `c`.
pub proof fn lemma_edge_roundtrip(v: Value, m: EdgeModel, c: ScopeContext)
    requires
        spec_edge_ok(m, c),
        spec_edge_record(v, m),
    ensures
        spec_parse_edge(v, c) == Ok::<EdgeModel, GraphRecordError>(m),
{
    reveal_strlit("id");
    reveal_strlit("source");
    reveal_strlit("destination");
    reveal_strlit("guard");
    reveal_strlit("output");
    reveal_strlit("input");
    reveal_strlit("carried");
    reveal_strlit("next");
    assert("id"@.len() == 2 && "source"@.len() == 6 && "destination"@.len() == 11 && "guard"@.len() == 5);
    let map = v->Object_0;
    let entries = map.entries@;
    let built = choose|b: Seq<(String, Value)>| #[trigger] b.to_multiset() == entries.to_multiset() && spec_edge_entries(b, m);
    assert(spec_views_distinct(built));
    lemma_sorted_views_distinct(entries);
    let fields = spec_edge_fields();
    lemma_find(built, "id"@, 0);
    lemma_find(built, "source"@, 1);
    lemma_find(built, "destination"@, 2);
    lemma_find(built, "guard"@, 3);
    lemma_find_permutation(built, entries, "id"@);
    lemma_find_permutation(built, entries, "source"@);
    lemma_find_permutation(built, entries, "destination"@);
    lemma_find_permutation(built, entries, "guard"@);
    entries.to_multiset_ensures();
    built.to_multiset_ensures();
    assert forall|j: int| 0 <= j < entries.len() implies crate::metadata::spec_known_field(fields, (#[trigger] entries[j]).0@) by {
        assert(entries.to_multiset().count(entries[j]) > 0);
        assert(built.contains(entries[j]));
        let k = choose|k: int| 0 <= k < built.len() && built[k] == entries[j];
        if k == 0 {
            assert(fields[2]@ == entries[j].0@);
        } else if k == 1 {
            assert(fields[3]@ == entries[j].0@);
        } else if k == 2 {
            assert(fields[0]@ == entries[j].0@);
        } else {
            assert(fields[1]@ == entries[j].0@);
        }
    }
    reveal_with_fuel(crate::metadata::spec_first_missing, 5);
    assert(crate::metadata::spec_first_missing(entries, fields, 0) is None);
    crate::identifier::lemma_identifier_error_iff(spec_utf8(m.0));
    lemma_endpoint_roundtrip(built[1].1, m.1, "source", "source tag", "output"@, "input"@, "carried"@);
    lemma_endpoint_roundtrip(built[2].1, m.2, "destination", "destination tag", "input"@, "output"@, "next"@);
    crate::expression::canonical::lemma_expr_roundtrip(built[3].1, m.3, spec_guard_context(c), false);
}

} // verus!
