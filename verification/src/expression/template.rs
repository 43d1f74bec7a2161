//! Prompt-template metadata: literal text segments and named slots.

use vstd::prelude::*;
use vstd::string::*;
use vstd::multiset::Multiset;

use super::ExpressionError;
use crate::cbor::error::{spec_plain_error, ErrorKind};
use crate::cbor::limits::Limits;
use crate::cbor::error::LimitKind;
use crate::cbor::map::spec_find;
use crate::cbor::value::{spec_keys_sorted, spec_lex_lt, spec_utf8, Value, ValueMap};
use crate::identifier::spec_identifier_error;
use crate::text::same_text;
use crate::types::reading::spec_parse_port;
use crate::types::TypeContext;
use crate::identifier::Identifier;
use crate::record_accounting::{spec_apply, Charge, Counters, RecordAccounting};
use crate::types::model::{spec_names_distinct, spec_port_model, PortModel, TypeError, TypeModel};
use crate::types::{spec_primitive_name, Port, PrimitiveType, ValueTypeKind};

verus! {

/// One literal text segment or statically named substitution slot.
#[derive(Clone, Debug, PartialEq)]
pub enum TemplatePart {
    /// Exact text, with whitespace and Unicode spelling preserved.
    Text(String),
    /// A parameter's local name. Repeated slots remain in order.
    Slot(Identifier),
}

/// Immutable canonical prompt-template metadata, not an LLM invocation.
///
/// Parameters are exposed in name order. Their names exactly match the
/// distinct slots. This type does not execute or substitute text.
#[derive(Debug, PartialEq)]
pub struct PromptTemplate {
    parameters: Vec<(Identifier, Port)>,
    parts: Vec<TemplatePart>,
}

impl PromptTemplate {
    /// The declared parameters, in name order.
    pub closed spec fn spec_parameters(&self) -> Seq<(Identifier, Port)> {
        self.parameters@
    }

    /// The text and slot parts, in semantic order.
    pub closed spec fn spec_parts(&self) -> Seq<TemplatePart> {
        self.parts@
    }

    /// Borrows parameters in name order.
    pub fn parameters(&self) -> (res: &[(Identifier, Port)])
        ensures
            res@ == self.spec_parameters(),
    {
        self.parameters.as_slice()
    }

    /// Borrows canonical text/slot parts in semantic order.
    pub fn parts(&self) -> (res: &[TemplatePart])
        ensures
            res@ == self.spec_parts(),
    {
        self.parts.as_slice()
    }
}

} // verus!

verus! {

/// A template part as mathematics.
pub enum PartModel {
    /// Literal text.
    Text(Seq<char>),
    /// A named slot.
    Slot(Seq<char>),
}

/// The model of a part.
pub open spec fn spec_part_model(p: TemplatePart) -> PartModel {
    match p {
        TemplatePart::Text(s) => PartModel::Text(s@),
        TemplatePart::Slot(id) => PartModel::Slot(id@),
    }
}

/// The models of parameters: names with their ports.
pub open spec fn spec_params_model(ps: Seq<(Identifier, Port)>) -> Seq<(Seq<char>, PortModel)> {
    ps.map_values(|p: (Identifier, Port)| (p.0@, spec_port_model(p.1)))
}

/// The models of parts.
pub open spec fn spec_parts_model(ps: Seq<TemplatePart>) -> Seq<PartModel> {
    ps.map_values(|p: TemplatePart| spec_part_model(p))
}

/// A parameter type is string, integer, or Boolean.
pub open spec fn spec_parameter_ok(p: PortModel) -> bool {
    match p.ty {
        TypeModel::Primitive(q) => q == PrimitiveType::String || q == PrimitiveType::Integer || q == PrimitiveType::Boolean,
        _ => false,
    }
}

/// The primitive spelling of a parameter type.
pub open spec fn spec_parameter_name(p: PortModel) -> Seq<char> {
    match p.ty {
        TypeModel::Primitive(q) => spec_primitive_name(q),
        _ => Seq::empty(),
    }
}

/// One step of building a template record: a value charged, a parameter
/// type check, or the name check of the parameter map.
pub enum TemplateStep {
    /// A value charged against the codec limits.
    Charge(Charge),
    /// A parameter type that must be string, integer, or Boolean.
    Parameter(bool),
    /// Parameter names that must be distinct.
    Distinct(Seq<Seq<char>>),
}

/// The outcome of one template build step.
pub open spec fn spec_tstep(l: Limits, c: Counters, st: TemplateStep) -> Result<Counters, ExpressionError> {
    match st {
        TemplateStep::Charge(ch) => match spec_apply(l, c, ch) {
            Ok(d) => Ok(d),
            Err(e) => Err(ExpressionError::LimitExceeded { limit: e.limit, maximum: e.maximum }),
        },
        TemplateStep::Parameter(ok) => if ok { Ok(c) } else { Err(ExpressionError::InvalidTemplateParameter) },
        TemplateStep::Distinct(names) => if spec_names_distinct(names) {
            Ok(c)
        } else {
            Err(ExpressionError::Codec(spec_plain_error(ErrorKind::DuplicateMapKey)))
        },
    }
}

/// The outcome of template build steps in order; the first failure is reported.
pub open spec fn spec_trun(l: Limits, c: Counters, s: Seq<TemplateStep>) -> Result<Counters, ExpressionError>
    decreases s.len(),
{
    if s.len() == 0 {
        Ok(c)
    } else {
        match spec_trun(l, c, s.drop_last()) {
            Ok(d) => spec_tstep(l, d, s.last()),
            Err(e) => Err(e),
        }
    }
}

/// Running a concatenation runs its parts in turn.
pub proof fn lemma_trun_append(l: Limits, c: Counters, s: Seq<TemplateStep>, t: Seq<TemplateStep>)
    ensures
        spec_trun(l, c, s + t) == match spec_trun(l, c, s) {
            Ok(d) => spec_trun(l, d, t),
            Err(e) => Err(e),
        },
    decreases t.len(),
{
    if t.len() == 0 {
        assert(s + t =~= s);
    } else {
        lemma_trun_append(l, c, s, t.drop_last());
        assert((s + t).drop_last() =~= s + t.drop_last());
    }
}

/// Taking a first step, then the rest.
pub proof fn lemma_trun_cons(l: Limits, c: Counters, st: TemplateStep, t: Seq<TemplateStep>)
    ensures
        spec_trun(l, c, seq![st] + t) == match spec_tstep(l, c, st) {
            Ok(d) => spec_trun(l, d, t),
            Err(e) => Err(e),
        },
{
    lemma_trun_append(l, c, seq![st], t);
    assert(seq![st].drop_last() =~= Seq::<TemplateStep>::empty());
    assert(spec_trun(l, c, Seq::<TemplateStep>::empty()) == Ok::<Counters, ExpressionError>(c));
    assert(seq![st].last() == st);
}

/// Charging a text of `t` at depth `d`.
pub open spec fn spec_ttext(t: Seq<char>, d: int) -> TemplateStep {
    TemplateStep::Charge(Charge::Text { len: spec_utf8(t).len() as usize, depth: d as usize })
}

/// Charging a collection header of `len` entries at depth `d`.
pub open spec fn spec_tcoll(len: int, d: int) -> TemplateStep {
    TemplateStep::Charge(Charge::Collection { len: len as usize, depth: d as usize })
}

/// The steps of one parameter: its name, its type check, then its
/// `{ type, required }` record.
pub open spec fn spec_param_steps(name: Seq<char>, p: PortModel) -> Seq<TemplateStep> {
    seq![spec_ttext(name, 2), TemplateStep::Parameter(spec_parameter_ok(p)), spec_tcoll(2, 2), spec_ttext("type"@, 3),
        spec_ttext(spec_parameter_name(p), 3), spec_ttext("required"@, 3), TemplateStep::Charge(Charge::Simple { depth: 3 })]
}

/// The steps of the parameters in order.
pub open spec fn spec_params_steps(ps: Seq<(Seq<char>, PortModel)>) -> Seq<TemplateStep>
    decreases ps.len(),
{
    if ps.len() == 0 {
        Seq::empty()
    } else {
        spec_param_steps(ps[0].0, ps[0].1) + spec_params_steps(ps.drop_first())
    }
}

/// The steps of one part: a text, or a slot array with its tag and name.
pub open spec fn spec_part_steps(p: PartModel) -> Seq<TemplateStep> {
    match p {
        PartModel::Text(s) => seq![spec_ttext(s, 2)],
        PartModel::Slot(n) => seq![spec_tcoll(2, 2), spec_ttext("slot"@, 3), spec_ttext(n, 3)],
    }
}

/// The steps of the parts in order.
pub open spec fn spec_parts_steps(ps: Seq<PartModel>) -> Seq<TemplateStep>
    decreases ps.len(),
{
    if ps.len() == 0 {
        Seq::empty()
    } else {
        spec_part_steps(ps[0]) + spec_parts_steps(ps.drop_first())
    }
}

/// Everything building a template record does, in order: the header, the
/// parameter map and its name check, then the parts.
pub open spec fn spec_template_steps(params: Seq<(Seq<char>, PortModel)>, parts: Seq<PartModel>) -> Seq<TemplateStep> {
    seq![spec_tcoll(2, 0), spec_ttext("parameters"@, 1), spec_tcoll(params.len() as int, 1)]
        + spec_params_steps(params)
        + seq![TemplateStep::Distinct(params.map_values(|p: (Seq<char>, PortModel)| p.0))]
        + seq![spec_ttext("parts"@, 1), spec_tcoll(parts.len() as int, 1)]
        + spec_parts_steps(parts)
}

/// `v` is the text `t`.
pub open spec fn spec_text_value(v: Value, t: Seq<char>) -> bool {
    v matches Value::Text(s) && s@ == t
}

/// The record of a parameter: exactly `type` then `required`.
pub open spec fn spec_param_record(v: Value, p: PortModel) -> bool {
    match v {
        Value::Object(m) => {
            &&& m.entries@.len() == 2
            &&& m.entries@[0].0@ == "type"@
            &&& spec_text_value(m.entries@[0].1, spec_parameter_name(p))
            &&& m.entries@[1].0@ == "required"@
            &&& m.entries@[1].1 == Value::Bool(p.required)
        },
        _ => false,
    }
}

/// The record of a part: its text, or a `slot` array with the name.
pub open spec fn spec_part_record(v: Value, p: PartModel) -> bool {
    match p {
        PartModel::Text(s) => spec_text_value(v, s),
        PartModel::Slot(n) => v matches Value::Array(a) && a@.len() == 2 && spec_text_value(a@[0], "slot"@)
            && spec_text_value(a@[1], n),
    }
}

/// Entry `i` of `built` is parameter `i`: its name and its record.
pub open spec fn spec_params_records(built: Seq<(String, Value)>, params: Seq<(Seq<char>, PortModel)>) -> bool {
    built.len() == params.len() && forall|i: int| 0 <= i < params.len()
        ==> (#[trigger] built[i]).0@ == params[i].0 && spec_param_record(built[i].1, params[i].1)
}

/// The canonical template record: `parts` then `parameters`, the parameter
/// map in canonical key order.
pub open spec fn spec_template_record(v: Value, params: Seq<(Seq<char>, PortModel)>, parts: Seq<PartModel>) -> bool {
    match v {
        Value::Object(m) => {
            &&& m.entries@.len() == 2
            &&& m.entries@[0].0@ == "parts"@
            &&& (m.entries@[0].1 matches Value::Array(a) && a@.len() == parts.len()
                && forall|i: int| 0 <= i < parts.len() ==> spec_part_record(#[trigger] a@[i], parts[i]))
            &&& m.entries@[1].0@ == "parameters"@
            &&& (m.entries@[1].1 matches Value::Object(pm) && spec_keys_sorted(pm.entries@)
                && exists|built: Seq<(String, Value)>| #[trigger] built.to_multiset() == pm.entries@.to_multiset()
                    && spec_params_records(built, params))
        },
        _ => false,
    }
}

} // verus!

verus! {

/// A nonempty step sequence runs its first step, then the rest.
pub proof fn lemma_trun_front(l: Limits, c: Counters, s: Seq<TemplateStep>)
    requires
        s.len() > 0,
    ensures
        spec_trun(l, c, s) == match spec_tstep(l, c, s[0]) {
            Ok(d) => spec_trun(l, d, s.drop_first()),
            Err(e) => Err(e),
        },
{
    assert(s =~= seq![s[0]] + s.drop_first());
    lemma_trun_cons(l, c, s[0], s.drop_first());
}

/// Charges one value of a template record.
fn tcharge(acc: &mut RecordAccounting, ch: Charge) -> (res: Result<(), ExpressionError>)
    ensures
        final(acc).limits == old(acc).limits,
        match spec_tstep(*old(acc).limits, old(acc).counters(), TemplateStep::Charge(ch)) {
            Ok(c) => res is Ok && final(acc).counters() == c,
            Err(e) => res == Err::<(), ExpressionError>(e),
        },
{
    match acc.apply(ch) {
        Ok(()) => Ok(()),
        Err(e) => Err(ExpressionError::LimitExceeded { limit: e.limit, maximum: e.maximum }),
    }
}

/// Charges one text of a template record.
fn ttext(acc: &mut RecordAccounting, t: &str, d: usize) -> (res: Result<(), ExpressionError>)
    ensures
        final(acc).limits == old(acc).limits,
        match spec_tstep(*old(acc).limits, old(acc).counters(), spec_ttext(t@, d as int)) {
            Ok(c) => res is Ok && final(acc).counters() == c,
            Err(e) => res == Err::<(), ExpressionError>(e),
        },
{
    let len = t.as_bytes().len();
    assert(len == spec_utf8(t@).len());
    tcharge(acc, Charge::Text { len, depth: d })
}

/// A text value with the contents of `t`.
fn text_of(t: &str) -> (res: Value)
    ensures
        spec_text_value(res, t@),
{
    Value::Text(String::from_str(t))
}

/// Charges and produces the `{ type, required }` record of one parameter.
fn param_value(acc: &mut RecordAccounting, name: &Identifier, port: &Port) -> (res: Result<Value, ExpressionError>)
    ensures
        final(acc).limits == old(acc).limits,
        match spec_trun(*old(acc).limits, old(acc).counters(), spec_param_steps(name@, spec_port_model(*port))) {
            Ok(c) => res matches Ok(v) && final(acc).counters() == c && spec_param_record(v, spec_port_model(*port)),
            Err(e) => res == Err::<Value, ExpressionError>(e),
        },
{
    let ghost l = *acc.limits;
    let ghost pm = spec_port_model(*port);
    let ghost mut rem = spec_param_steps(name@, pm);
    let ghost start = acc.counters();
    proof { lemma_trun_front(l, acc.counters(), rem); }
    ttext(acc, name.as_str(), 2)?;
    proof { rem = rem.drop_first(); lemma_trun_front(l, acc.counters(), rem); }
    let p = match &port.value_type.kind {
        ValueTypeKind::Primitive(p) => match p {
            PrimitiveType::String | PrimitiveType::Integer | PrimitiveType::Boolean => *p,
            _ => return Err(ExpressionError::InvalidTemplateParameter),
        },
        _ => return Err(ExpressionError::InvalidTemplateParameter),
    };
    proof { rem = rem.drop_first(); lemma_trun_front(l, acc.counters(), rem); }
    tcharge(acc, Charge::Collection { len: 2, depth: 2 })?;
    proof { rem = rem.drop_first(); lemma_trun_front(l, acc.counters(), rem); }
    ttext(acc, "type", 3)?;
    let primitive = p.as_str();
    proof { rem = rem.drop_first(); lemma_trun_front(l, acc.counters(), rem); }
    ttext(acc, primitive, 3)?;
    proof { rem = rem.drop_first(); lemma_trun_front(l, acc.counters(), rem); }
    ttext(acc, "required", 3)?;
    proof { rem = rem.drop_first(); lemma_trun_front(l, acc.counters(), rem); }
    tcharge(acc, Charge::Simple { depth: 3 })?;
    proof { rem = rem.drop_first(); assert(rem.len() == 0); }
    let mut entries: Vec<(String, Value)> = Vec::new();
    entries.push((String::from_str("type"), text_of(primitive)));
    entries.push((String::from_str("required"), Value::Bool(port.required)));
    Ok(Value::Object(ValueMap { entries }))
}

} // verus!

verus! {

/// Charges and produces the record of one part.
fn part_value(acc: &mut RecordAccounting, part: &TemplatePart) -> (res: Result<Value, ExpressionError>)
    ensures
        final(acc).limits == old(acc).limits,
        match spec_trun(*old(acc).limits, old(acc).counters(), spec_part_steps(spec_part_model(*part))) {
            Ok(c) => res matches Ok(v) && final(acc).counters() == c && spec_part_record(v, spec_part_model(*part)),
            Err(e) => res == Err::<Value, ExpressionError>(e),
        },
{
    let ghost l = *acc.limits;
    let ghost mut rem = spec_part_steps(spec_part_model(*part));
    match part {
        TemplatePart::Text(s) => {
            proof { lemma_trun_front(l, acc.counters(), rem); }
            ttext(acc, s.as_str(), 2)?;
            proof { rem = rem.drop_first(); assert(rem.len() == 0); }
            Ok(text_of(s.as_str()))
        },
        TemplatePart::Slot(name) => {
            proof { lemma_trun_front(l, acc.counters(), rem); }
            tcharge(acc, Charge::Collection { len: 2, depth: 2 })?;
            proof { rem = rem.drop_first(); lemma_trun_front(l, acc.counters(), rem); }
            ttext(acc, "slot", 3)?;
            proof { rem = rem.drop_first(); lemma_trun_front(l, acc.counters(), rem); }
            ttext(acc, name.as_str(), 3)?;
            proof { rem = rem.drop_first(); assert(rem.len() == 0); }
            let mut items: Vec<Value> = Vec::new();
            items.push(text_of("slot"));
            items.push(text_of(name.as_str()));
            Ok(Value::Array(items))
        },
    }
}

/// Parameter names are distinct exactly when the built entries' keys are.
proof fn lemma_built_keys_distinct(built: Seq<(String, Value)>, params: Seq<(Seq<char>, PortModel)>)
    requires
        spec_params_records(built, params),
    ensures
        crate::cbor::map::spec_keys_distinct(built)
            <==> spec_names_distinct(params.map_values(|p: (Seq<char>, PortModel)| p.0)),
{
    let names = params.map_values(|p: (Seq<char>, PortModel)| p.0);
    assert forall|i: int| 0 <= i < built.len() implies #[trigger] built[i].0@ == names[i] by {
        assert(built[i].0@ == params[i].0);
    }
    if crate::cbor::map::spec_keys_distinct(built) {
        assert forall|i: int, j: int| 0 <= i < j < names.len() implies spec_utf8(#[trigger] names[i]) != spec_utf8(#[trigger] names[j]) by {
            assert(built[i].0@ == names[i]);
            assert(built[j].0@ == names[j]);
        }
    }
    if spec_names_distinct(names) {
        assert forall|i: int, j: int| 0 <= i < j < built.len() implies spec_utf8(#[trigger] built[i].0@) != spec_utf8(#[trigger] built[j].0@) by {
            assert(built[i].0@ == names[i]);
            assert(built[j].0@ == names[j]);
        }
    }
}

impl PromptTemplate {
    /// The parameters as mathematics: names with their ports, in order.
    pub open spec fn spec_params_view(&self) -> Seq<(Seq<char>, PortModel)> {
        spec_params_model(self.spec_parameters())
    }

    /// The parts as mathematics, in order.
    pub open spec fn spec_parts_view(&self) -> Seq<PartModel> {
        spec_parts_model(self.spec_parts())
    }

    /// Produces the canonical template record, bounding every value before
    /// it is produced.
    #[verifier::rlimit(40)]
    pub fn to_value(&self, limits: &Limits) -> (res: Result<Value, ExpressionError>)
        ensures
            !limits.spec_valid() ==> res matches Err(ExpressionError::Codec(_)),
            limits.spec_valid() ==> match spec_trun(*limits, (0, 0, 0), spec_template_steps(self.spec_params_view(), self.spec_parts_view())) {
                Ok(_) => res matches Ok(v) && spec_template_record(v, self.spec_params_view(), self.spec_parts_view()),
                Err(e) => res == Err::<Value, ExpressionError>(e),
            },
    {
        let mut acc = match RecordAccounting::new(limits) {
            Ok(a) => a,
            Err(e) => return Err(ExpressionError::Codec(e)),
        };
        let ghost l = *limits;
        let ghost params = self.spec_params_view();
        let ghost parts = self.spec_parts_view();
        let ghost names = params.map_values(|p: (Seq<char>, PortModel)| p.0);
        let ghost tail = seq![TemplateStep::Distinct(names)] + seq![spec_ttext("parts"@, 1), spec_tcoll(parts.len() as int, 1)]
            + spec_parts_steps(parts);
        let ghost mut rem = spec_template_steps(params, parts);
        proof { lemma_trun_front(l, acc.counters(), rem); }
        tcharge(&mut acc, Charge::Collection { len: 2, depth: 0 })?;
        proof { rem = rem.drop_first(); lemma_trun_front(l, acc.counters(), rem); }
        ttext(&mut acc, "parameters", 1)?;
        proof { rem = rem.drop_first(); lemma_trun_front(l, acc.counters(), rem); }
        tcharge(&mut acc, Charge::Collection { len: self.parameters.len(), depth: 1 })?;
        proof {
            rem = rem.drop_first();
            assert(rem =~= spec_params_steps(params.subrange(0, params.len() as int)) + tail) by {
                assert(params.subrange(0, params.len() as int) =~= params);
            }
        }
        let mut built: Vec<(String, Value)> = Vec::new();
        let mut i: usize = 0;
        while i < self.parameters.len()
            invariant
                acc.limits == limits,
                l == *limits,
                limits.spec_valid(),
                params == self.spec_params_view(),
                parts == self.spec_parts_view(),
                params.len() == self.parameters@.len(),
                i <= params.len(),
                spec_trun(l, (0, 0, 0), spec_template_steps(params, parts)) == spec_trun(l, acc.counters(), rem),
                rem == spec_params_steps(params.subrange(i as int, params.len() as int)) + tail,
                built@.len() == i,
                forall|k: int| 0 <= k < i ==> (#[trigger] built@[k]).0@ == params[k].0 && spec_param_record(built@[k].1, params[k].1),
            decreases params.len() - i,
        {
            let (name, port) = &self.parameters[i];
            proof {
                assert(params[i as int] == (name@, spec_port_model(*port)));
                let sub = params.subrange(i as int, params.len() as int);
                assert(sub[0] == params[i as int]);
                assert(sub.drop_first() =~= params.subrange(i + 1, params.len() as int));
                assert(rem =~= spec_param_steps(params[i as int].0, params[i as int].1)
                    + (spec_params_steps(params.subrange(i + 1, params.len() as int)) + tail));
                lemma_trun_append(l, acc.counters(), spec_param_steps(params[i as int].0, params[i as int].1),
                    spec_params_steps(params.subrange(i + 1, params.len() as int)) + tail);
            }
            let key = String::from_str(name.as_str());
            let v = param_value(&mut acc, name, port)?;
            built.push((key, v));
            proof { rem = spec_params_steps(params.subrange(i + 1, params.len() as int)) + tail; }
            i = i + 1;
        }
        proof {
            assert(params.subrange(params.len() as int, params.len() as int) =~= Seq::<(Seq<char>, PortModel)>::empty());
            assert(rem =~= tail);
            lemma_trun_front(l, acc.counters(), rem);
            assert(spec_params_records(built@, params));
            lemma_built_keys_distinct(built@, params);
        }
        let ghost built_view = built@;
        let pm = match ValueMap::try_from_entries(built) {
            Ok(m) => m,
            Err(e) => return Err(ExpressionError::Codec(e)),
        };
        proof {
            rem = rem.drop_first();
            lemma_trun_front(l, acc.counters(), rem);
        }
        ttext(&mut acc, "parts", 1)?;
        proof { rem = rem.drop_first(); lemma_trun_front(l, acc.counters(), rem); }
        tcharge(&mut acc, Charge::Collection { len: self.parts.len(), depth: 1 })?;
        proof {
            rem = rem.drop_first();
            assert(rem =~= spec_parts_steps(parts.subrange(0, parts.len() as int))) by {
                assert(parts.subrange(0, parts.len() as int) =~= parts);
            }
        }
        let mut items: Vec<Value> = Vec::new();
        let mut j: usize = 0;
        while j < self.parts.len()
            invariant
                acc.limits == limits,
                l == *limits,
                limits.spec_valid(),
                params == self.spec_params_view(),
                parts == self.spec_parts_view(),
                parts.len() == self.parts@.len(),
                j <= parts.len(),
                spec_trun(l, (0, 0, 0), spec_template_steps(params, parts)) == spec_trun(l, acc.counters(), rem),
                rem == spec_parts_steps(parts.subrange(j as int, parts.len() as int)),
                items@.len() == j,
                forall|k: int| 0 <= k < j ==> spec_part_record(#[trigger] items@[k], parts[k]),
            decreases parts.len() - j,
        {
            proof {
                assert(parts[j as int] == spec_part_model(self.parts@[j as int]));
                let sub = parts.subrange(j as int, parts.len() as int);
                assert(sub[0] == parts[j as int]);
                assert(sub.drop_first() =~= parts.subrange(j + 1, parts.len() as int));
                lemma_trun_append(l, acc.counters(), spec_part_steps(parts[j as int]),
                    spec_parts_steps(parts.subrange(j + 1, parts.len() as int)));
            }
            let v = part_value(&mut acc, &self.parts[j])?;
            items.push(v);
            proof { rem = spec_parts_steps(parts.subrange(j + 1, parts.len() as int)); }
            j = j + 1;
        }
        proof {
            assert(parts.subrange(parts.len() as int, parts.len() as int) =~= Seq::<PartModel>::empty());
            assert(rem.len() == 0);
        }
        let mut entries: Vec<(String, Value)> = Vec::new();
        entries.push((String::from_str("parts"), Value::Array(items)));
        entries.push((String::from_str("parameters"), Value::Object(pm)));
        let v = Value::Object(ValueMap { entries });
        proof {
            assert(built_view.to_multiset() == pm.entries@.to_multiset());
        }
        Ok(v)
    }
}

} // verus!

verus! {

/// Reading one parameter entry: an identifier key and a `{ type, required }`
/// record whose type is string, integer, or Boolean.
pub open spec fn spec_parse_param(k: Seq<char>, v: Value, l: Limits) -> Result<(Seq<char>, PortModel), ExpressionError> {
    match spec_identifier_error(spec_utf8(k)) {
        Some(e) => Err(ExpressionError::Identifier(e)),
        None => match spec_parse_port(v, TypeContext::Value, l, false) {
            Err(e) => Err(ExpressionError::Type(e)),
            Ok(p) => if spec_parameter_ok(p) {
                Ok((k, p))
            } else {
                Err(ExpressionError::InvalidTemplateParameter)
            },
        },
    }
}

/// Reading the parameter entries in stored order; the first failure is reported.
pub open spec fn spec_parse_params(e: Seq<(String, Value)>, l: Limits) -> Result<Seq<(Seq<char>, PortModel)>, ExpressionError>
    decreases e.len(),
{
    if e.len() == 0 {
        Ok(Seq::empty())
    } else {
        match spec_parse_params(e.drop_last(), l) {
            Err(x) => Err(x),
            Ok(ps) => match spec_parse_param(e.last().0@, e.last().1, l) {
                Err(x) => Err(x),
                Ok(p) => Ok(ps.push(p)),
            },
        }
    }
}

/// Reading a slot name: a text that is an identifier.
pub open spec fn spec_slot_name(v: Value) -> Result<Seq<char>, ExpressionError> {
    match v {
        Value::Text(t) => match spec_identifier_error(spec_utf8(t@)) {
            None => Ok(t@),
            Some(e) => Err(ExpressionError::Identifier(e)),
        },
        _ => Err(ExpressionError::InvalidShape("identifier")),
    }
}

/// The parts end in a literal text.
pub open spec fn spec_ends_in_text(ps: Seq<PartModel>) -> bool {
    ps.len() > 0 && ps.last() is Text
}

/// Reading one stored part after `ps`. Canonical reading refuses empty and
/// adjacent texts; normalizing reading drops empty texts and joins adjacent
/// ones, within the text-size ceiling.
pub open spec fn spec_part_step(ps: Seq<PartModel>, v: Value, normalize: bool, max_text: usize) -> Result<Seq<PartModel>, ExpressionError> {
    match v {
        Value::Text(s) => if !normalize && (s@.len() == 0 || spec_ends_in_text(ps)) {
            Err(ExpressionError::NonCanonical("template literal segments"))
        } else if s@.len() == 0 {
            Ok(ps)
        } else {
            match ps.last() {
                PartModel::Text(prev) => if ps.len() > 0 {
                    if spec_utf8(prev).len() + spec_utf8(s@).len() > max_text {
                        Err(ExpressionError::LimitExceeded { limit: LimitKind::TextBytes, maximum: max_text })
                    } else {
                        Ok(ps.drop_last().push(PartModel::Text(prev + s@)))
                    }
                } else {
                    Ok(ps.push(PartModel::Text(s@)))
                },
                _ => Ok(ps.push(PartModel::Text(s@))),
            }
        },
        Value::Array(a) => if a@.len() == 2 && spec_text_value(a@[0], "slot"@) {
            match spec_slot_name(a@[1]) {
                Ok(n) => Ok(ps.push(PartModel::Slot(n))),
                Err(e) => Err(e),
            }
        } else {
            Err(ExpressionError::InvalidShape("template part"))
        },
        _ => Err(ExpressionError::InvalidShape("template part")),
    }
}

/// Reading the stored parts in order; the first failure is reported.
pub open spec fn spec_parse_parts(items: Seq<Value>, normalize: bool, max_text: usize) -> Result<Seq<PartModel>, ExpressionError>
    decreases items.len(),
{
    if items.len() == 0 {
        Ok(Seq::empty())
    } else {
        match spec_parse_parts(items.drop_last(), normalize, max_text) {
            Err(e) => Err(e),
            Ok(ps) => spec_part_step(ps, items.last(), normalize, max_text),
        }
    }
}

/// Some part is a slot named `n`.
pub open spec fn spec_has_slot(parts: Seq<PartModel>, n: Seq<char>) -> bool {
    exists|j: int| 0 <= j < parts.len() && parts[j] == PartModel::Slot(n)
}

/// Some parameter is named `n`.
pub open spec fn spec_has_param(ps: Seq<(Seq<char>, PortModel)>, n: Seq<char>) -> bool {
    exists|i: int| 0 <= i < ps.len() && ps[i].0 == n
}

/// The parameter names.
pub open spec fn spec_param_names(ps: Seq<(Seq<char>, PortModel)>) -> Seq<Seq<char>> {
    ps.map_values(|p: (Seq<char>, PortModel)| p.0)
}

/// The parameter names are distinct and exactly the slot names.
pub open spec fn spec_covers(ps: Seq<(Seq<char>, PortModel)>, parts: Seq<PartModel>) -> bool {
    &&& spec_names_distinct(spec_param_names(ps))
    &&& forall|n: Seq<char>| #[trigger] spec_has_param(ps, n) <==> spec_has_slot(parts, n)
}

/// Parameters strictly ordered by the UTF-8 bytes of their names.
pub open spec fn spec_params_sorted(ps: Seq<(Seq<char>, PortModel)>) -> bool {
    forall|i: int, j: int| 0 <= i < j < ps.len() ==> spec_lex_lt(spec_utf8(#[trigger] ps[i].0), spec_utf8(#[trigger] ps[j].0))
}

/// The parameters in name order.
pub open spec fn spec_sort_params(ps: Seq<(Seq<char>, PortModel)>) -> Seq<(Seq<char>, PortModel)> {
    choose|r: Seq<(Seq<char>, PortModel)>| spec_params_sorted(r) && r.to_multiset() == ps.to_multiset()
}

/// Reading a template record: exactly `parameters` and `parts`; parameters
/// in stored order, then parts; slot coverage is checked last, and the
/// parameters come out in name order.
pub open spec fn spec_parse_template(v: Value, l: Limits, normalize: bool)
    -> Result<(Seq<(Seq<char>, PortModel)>, Seq<PartModel>), ExpressionError>
{
    match v {
        Value::Object(m) => {
            let e = m.entries@;
            if e.len() != 2 || spec_find(e, "parameters"@) is None || spec_find(e, "parts"@) is None {
                Err(ExpressionError::InvalidShape("template fields"))
            } else {
                match spec_find(e, "parameters"@) {
                    Some(Value::Object(pm)) => match spec_parse_params(pm.entries@, l) {
                        Err(x) => Err(x),
                        Ok(ps) => match spec_find(e, "parts"@) {
                            Some(Value::Array(a)) => match spec_parse_parts(a@, normalize, l.max_text_bytes) {
                                Err(x) => Err(x),
                                Ok(parts) => if spec_covers(ps, parts) {
                                    Ok((spec_sort_params(ps), parts))
                                } else {
                                    Err(ExpressionError::TemplateParameterMismatch)
                                },
                            },
                            _ => Err(ExpressionError::InvalidShape("template parts")),
                        },
                    },
                    _ => Err(ExpressionError::InvalidShape("template parameters")),
                }
            }
        },
        _ => Err(ExpressionError::InvalidShape("template record")),
    }
}

/// Literal texts are nonempty and never adjacent; slot names are identifiers.
pub open spec fn spec_parts_canonical(parts: Seq<PartModel>) -> bool {
    &&& forall|j: int| 0 <= j < parts.len() ==> match #[trigger] parts[j] {
        PartModel::Text(s) => s.len() > 0,
        PartModel::Slot(n) => spec_identifier_error(spec_utf8(n)) is None,
    }
    &&& forall|j: int| 0 < j < parts.len() ==> !(#[trigger] parts[j] is Text && parts[j - 1] is Text)
}

/// A canonical template: identifier-named string, integer, or Boolean
/// parameters in name order, naming exactly the slots of canonical parts.
pub open spec fn spec_template_wf(ps: Seq<(Seq<char>, PortModel)>, parts: Seq<PartModel>) -> bool {
    &&& spec_params_sorted(ps)
    &&& forall|i: int| 0 <= i < ps.len() ==> spec_parameter_ok((#[trigger] ps[i]).1)
        && spec_identifier_error(spec_utf8(ps[i].0)) is None
    &&& forall|n: Seq<char>| #[trigger] spec_has_param(ps, n) <==> spec_has_slot(parts, n)
    &&& spec_parts_canonical(parts)
}

/// Two name-sorted parameter sequences holding the same entries are equal.
pub proof fn lemma_params_sorted_unique(s: Seq<(Seq<char>, PortModel)>, t: Seq<(Seq<char>, PortModel)>)
    requires
        spec_params_sorted(s),
        spec_params_sorted(t),
        s.to_multiset() == t.to_multiset(),
    ensures
        s == t,
    decreases s.len(),
{
    s.to_multiset_ensures();
    t.to_multiset_ensures();
    if s.len() == 0 {
        assert(t.len() == 0);
        assert(s =~= t);
    } else {
        assert(s.contains(s[0]));
        assert(s.to_multiset().count(s[0]) > 0);
        assert(t.contains(s[0]));
        assert(t.contains(t[0]));
        assert(t.to_multiset().count(t[0]) > 0);
        assert(s.contains(t[0]));
        let k = choose|k: int| 0 <= k < t.len() && t[k] == s[0];
        let m = choose|m: int| 0 <= m < s.len() && s[m] == t[0];
        if k > 0 && m > 0 {
            crate::cbor::keys::lemma_lex_transitive(spec_utf8(t[0].0), spec_utf8(t[k].0), spec_utf8(s[m].0));
            crate::cbor::keys::lemma_lex_irreflexive(spec_utf8(t[0].0));
        }
        if k > 0 && m == 0 {
            assert(s[0] == t[0]);
        }
        assert(s[0] == t[0]);
        vstd::seq_lib::to_multiset_remove(s, 0);
        vstd::seq_lib::to_multiset_remove(t, 0);
        assert(s.remove(0) =~= s.drop_first());
        assert(t.remove(0) =~= t.drop_first());
        lemma_params_sorted_unique(s.drop_first(), t.drop_first());
        assert(s.len() == t.len());
        assert forall|i: int| 0 <= i < s.len() implies s[i] == t[i] by {
            if i > 0 {
                assert(s[i] == s.drop_first()[i - 1]);
                assert(t[i] == t.drop_first()[i - 1]);
            }
        }
        assert(s =~= t);
    }
}

} // verus!

verus! {

/// Orders parameters by the UTF-8 bytes of their names; the names must be
/// distinct.
#[verifier::rlimit(60)]
pub(crate) fn sort_params(entries: Vec<(Identifier, Port)>) -> (res: Vec<(Identifier, Port)>)
    requires
        spec_names_distinct(spec_param_names(spec_params_model(entries@))),
    ensures
        spec_params_model(res@) == spec_sort_params(spec_params_model(entries@)),
        spec_params_sorted(spec_params_model(res@)),
        spec_params_model(res@).to_multiset() == spec_params_model(entries@).to_multiset(),
{
    let ghost unsorted = spec_params_model(entries@);
    let mut input = entries;
    let mut output: Vec<(Identifier, Port)> = Vec::new();
    proof {
        spec_params_model(output@).to_multiset_ensures();
        assert(spec_params_model(output@).to_multiset() =~= Multiset::<(Seq<char>, PortModel)>::empty());
        let names = spec_param_names(unsorted);
        assert forall|a: int, c: int| 0 <= a < c < input@.len() implies spec_utf8((#[trigger] input@[a]).0@)
            != spec_utf8((#[trigger] input@[c]).0@) by {
            assert(names[a] == input@[a].0@);
            assert(names[c] == input@[c].0@);
        }
    }
    while input.len() > 0
        invariant
            unsorted == spec_params_model(entries@),
            spec_params_sorted(spec_params_model(output@)),
            forall|a: int, c: int| 0 <= a < output@.len() && 0 <= c < input@.len() ==> spec_lex_lt(
                spec_utf8((#[trigger] output@[a]).0@), spec_utf8((#[trigger] input@[c]).0@)),
            spec_params_model(output@).to_multiset().add(spec_params_model(input@).to_multiset()) == unsorted.to_multiset(),
            forall|a: int, c: int| 0 <= a < c < input@.len() ==> spec_utf8((#[trigger] input@[a]).0@)
                != spec_utf8((#[trigger] input@[c]).0@),
        decreases input@.len(),
    {
        // Find the smallest remaining name.
        let mut min: usize = 0;
        let mut j: usize = 1;
        while j < input.len()
            invariant
                0 <= min < j <= input@.len(),
                forall|a: int, c: int| 0 <= a < c < input@.len() ==> spec_utf8((#[trigger] input@[a]).0@)
                    != spec_utf8((#[trigger] input@[c]).0@),
                forall|k: int| 0 <= k < j && k != min ==> spec_lex_lt(
                    spec_utf8(input@[min as int].0@), spec_utf8((#[trigger] input@[k]).0@)),
            decreases input@.len() - j,
        {
            let smaller = crate::types::reader::bytes_lt(input[j].0.as_str().as_bytes(), input[min].0.as_str().as_bytes());
            proof {
                crate::cbor::keys::lemma_lex_total(spec_utf8(input@[j as int].0@), spec_utf8(input@[min as int].0@));
            }
            if smaller {
                proof {
                    assert forall|k: int| 0 <= k < j + 1 && k != j implies spec_lex_lt(
                        spec_utf8(input@[j as int].0@), spec_utf8((#[trigger] input@[k]).0@)) by {
                        if k != min {
                            crate::cbor::keys::lemma_lex_transitive(spec_utf8(input@[j as int].0@),
                                spec_utf8(input@[min as int].0@), spec_utf8(input@[k].0@));
                        }
                    }
                }
                min = j;
            }
            j = j + 1;
        }
        let ghost before_in = input@;
        let ghost before_out = output@;
        let entry = input.remove(min);
        output.push(entry);
        proof {
            let mi = spec_params_model(before_in);
            let mo = spec_params_model(before_out);
            assert(spec_params_model(input@) =~= mi.remove(min as int));
            assert(spec_params_model(output@) =~= mo.push(mi[min as int]));
            vstd::seq_lib::to_multiset_remove(mi, min as int);
            vstd::seq_lib::to_multiset_build(mo, mi[min as int]);
            mi.to_multiset_ensures();
            assert(spec_params_model(output@).to_multiset().add(spec_params_model(input@).to_multiset())
                =~= unsorted.to_multiset());
            assert forall|a: int, c: int| 0 <= a < c < output@.len() implies spec_lex_lt(
                spec_utf8(#[trigger] spec_params_model(output@)[a].0), spec_utf8(#[trigger] spec_params_model(output@)[c].0)) by {
                if c == output@.len() - 1 {
                    assert(output@[c] == before_in[min as int]);
                    assert(output@[a] == before_out[a]);
                } else {
                    assert(output@[a] == before_out[a]);
                    assert(output@[c] == before_out[c]);
                }
            }
            assert forall|a: int, c: int| 0 <= a < output@.len() && 0 <= c < input@.len() implies spec_lex_lt(
                spec_utf8((#[trigger] output@[a]).0@), spec_utf8((#[trigger] input@[c]).0@)) by {
                let k = if c < min { c } else { c + 1 };
                assert(input@[c] == before_in[k]);
                if a < before_out.len() {
                    assert(output@[a] == before_out[a]);
                } else {
                    assert(output@[a] == before_in[min as int]);
                }
            }
            assert forall|a: int, c: int| 0 <= a < c < input@.len() implies spec_utf8((#[trigger] input@[a]).0@)
                != spec_utf8((#[trigger] input@[c]).0@) by {
                let ka = if a < min { a } else { a + 1 };
                let kc = if c < min { c } else { c + 1 };
                assert(input@[a] == before_in[ka]);
                assert(input@[c] == before_in[kc]);
            }
        }
    }
    proof {
        let mo = spec_params_model(output@);
        spec_params_model(input@).to_multiset_ensures();
        assert(spec_params_model(input@).to_multiset() =~= Multiset::<(Seq<char>, PortModel)>::empty());
        assert(mo.to_multiset() =~= unsorted.to_multiset());
        lemma_params_sorted_unique(mo, spec_sort_params(unsorted));
    }
    output
}

} // verus!

verus! {

/// A failed prefix of the parameter entries fails every longer prefix alike.
proof fn lemma_params_err_extends(e: Seq<(String, Value)>, l: Limits, i: int, j: int)
    requires
        0 <= i <= j <= e.len(),
        spec_parse_params(e.take(i), l) is Err,
    ensures
        spec_parse_params(e.take(j), l) == spec_parse_params(e.take(i), l),
    decreases j - i,
{
    if i < j {
        lemma_params_err_extends(e, l, i, j - 1);
        assert(e.take(j).drop_last() =~= e.take(j - 1));
    }
}

/// A failed prefix of the stored parts fails every longer prefix alike.
proof fn lemma_parts_err_extends(items: Seq<Value>, normalize: bool, max_text: usize, i: int, j: int)
    requires
        0 <= i <= j <= items.len(),
        spec_parse_parts(items.take(i), normalize, max_text) is Err,
    ensures
        spec_parse_parts(items.take(j), normalize, max_text) == spec_parse_parts(items.take(i), normalize, max_text),
    decreases j - i,
{
    if i < j {
        lemma_parts_err_extends(items, normalize, max_text, i, j - 1);
        assert(items.take(j).drop_last() =~= items.take(j - 1));
    }
}

/// Reads the parameter entries in stored order.
fn parse_params(m: &ValueMap, limits: &Limits) -> (res: Result<Vec<(Identifier, Port)>, ExpressionError>)
    requires
        limits.spec_valid(),
    ensures
        match spec_parse_params(m.entries@, *limits) {
            Ok(ps) => res matches Ok(r) && spec_params_model(r@) == ps,
            Err(e) => res == Err::<Vec<(Identifier, Port)>, ExpressionError>(e),
        },
        res matches Ok(r) ==> forall|i: int| 0 <= i < r@.len() ==> spec_parameter_ok((#[trigger] spec_params_model(r@)[i]).1)
            && spec_identifier_error(spec_utf8(spec_params_model(r@)[i].0)) is None,
{
    let ghost e = m.entries@;
    let mut out: Vec<(Identifier, Port)> = Vec::new();
    let mut i: usize = 0;
    proof {
        assert(e.take(0) =~= Seq::<(String, Value)>::empty());
        assert(spec_params_model(out@) =~= Seq::<(Seq<char>, PortModel)>::empty());
    }
    while i < m.entries.len()
        invariant
            e == m.entries@,
            limits.spec_valid(),
            i <= e.len(),
            spec_parse_params(e.take(i as int), *limits) == Ok::<Seq<(Seq<char>, PortModel)>, ExpressionError>(spec_params_model(out@)),
            forall|k: int| 0 <= k < out@.len() ==> spec_parameter_ok((#[trigger] spec_params_model(out@)[k]).1)
                && spec_identifier_error(spec_utf8(spec_params_model(out@)[k].0)) is None,
        decreases e.len() - i,
    {
        let (k, v) = &m.entries[i];
        proof {
            assert(e.take(i + 1).drop_last() =~= e.take(i as int));
            assert(e.take(i + 1).last() == e[i as int]);
        }
        let id = match Identifier::parse(k.as_str()) {
            Ok(id) => id,
            Err(err) => {
                proof {
                    crate::identifier::lemma_identifier_error_iff(spec_utf8(k@));
                    lemma_params_err_extends(e, *limits, i + 1, e.len() as int);
                    assert(e.take(e.len() as int) =~= e);
                }
                return Err(ExpressionError::Identifier(err));
            },
        };
        proof { crate::identifier::lemma_identifier_error_iff(spec_utf8(k@)); }
        let port = match crate::types::reader::parse_port(v, TypeContext::Value, limits, false) {
            Ok(p) => p,
            Err(err) => {
                proof {
                    lemma_params_err_extends(e, *limits, i + 1, e.len() as int);
                    assert(e.take(e.len() as int) =~= e);
                }
                return Err(ExpressionError::Type(err));
            },
        };
        let ok = match &port.value_type.kind {
            ValueTypeKind::Primitive(p) => match p {
                PrimitiveType::String | PrimitiveType::Integer | PrimitiveType::Boolean => true,
                _ => false,
            },
            _ => false,
        };
        if !ok {
            proof {
                lemma_params_err_extends(e, *limits, i + 1, e.len() as int);
                assert(e.take(e.len() as int) =~= e);
            }
            return Err(ExpressionError::InvalidTemplateParameter);
        }
        let ghost before = out@;
        out.push((id, port));
        proof {
            assert(spec_params_model(out@) =~= spec_params_model(before).push((k@, spec_port_model(port))));
            assert(spec_parameter_ok(spec_port_model(port)));
        }
        i = i + 1;
    }
    proof { assert(e.take(e.len() as int) =~= e); }
    Ok(out)
}

/// Whether a slot named `name` occurs among the parts.
fn has_slot(parts: &Vec<TemplatePart>, name: &str) -> (res: bool)
    ensures
        res == spec_has_slot(spec_parts_model(parts@), name@),
{
    let ghost ms = spec_parts_model(parts@);
    let mut j: usize = 0;
    while j < parts.len()
        invariant
            ms == spec_parts_model(parts@),
            j <= parts@.len(),
            forall|k: int| 0 <= k < j ==> ms[k] != PartModel::Slot(name@),
        decreases parts@.len() - j,
    {
        if let TemplatePart::Slot(id) = &parts[j] {
            if same_text(id.as_str(), name) {
                assert(ms[j as int] == PartModel::Slot(name@));
                return true;
            }
        }
        j = j + 1;
    }
    false
}

/// Whether a parameter named `name` occurs.
fn has_param(params: &Vec<(Identifier, Port)>, name: &str) -> (res: bool)
    ensures
        res == spec_has_param(spec_params_model(params@), name@),
{
    let ghost ms = spec_params_model(params@);
    let mut i: usize = 0;
    while i < params.len()
        invariant
            ms == spec_params_model(params@),
            i <= params@.len(),
            forall|k: int| 0 <= k < i ==> ms[k].0 != name@,
        decreases params@.len() - i,
    {
        if same_text(params[i].0.as_str(), name) {
            assert(ms[i as int].0 == name@);
            return true;
        }
        i = i + 1;
    }
    false
}

/// Whether the parameter names are distinct and exactly the slot names.
fn covers(params: &Vec<(Identifier, Port)>, parts: &Vec<TemplatePart>) -> (res: bool)
    ensures
        res == spec_covers(spec_params_model(params@), spec_parts_model(parts@)),
{
    let ghost ps = spec_params_model(params@);
    let ghost ms = spec_parts_model(parts@);
    let ghost names = spec_param_names(ps);
    // Distinct names.
    let mut a: usize = 0;
    while a < params.len()
        invariant
            ps == spec_params_model(params@),
            names == spec_param_names(ps),
            a <= params@.len(),
            forall|x: int, y: int| 0 <= x < y < params@.len() && x < a ==> spec_utf8(#[trigger] names[x]) != spec_utf8(#[trigger] names[y]),
        decreases params@.len() - a,
    {
        let mut b: usize = a + 1;
        while b < params.len()
            invariant
                ps == spec_params_model(params@),
                names == spec_param_names(ps),
                a < b <= params@.len(),
                forall|x: int, y: int| 0 <= x < y < params@.len() && x < a ==> spec_utf8(#[trigger] names[x]) != spec_utf8(#[trigger] names[y]),
                forall|y: int| a < y < b ==> spec_utf8(names[a as int]) != spec_utf8(#[trigger] names[y]),
            decreases params@.len() - b,
        {
            if same_text(params[a].0.as_str(), params[b].0.as_str()) {
                proof {
                    assert(names[a as int] == params@[a as int].0@);
                    assert(names[b as int] == params@[b as int].0@);
                }
                return false;
            }
            proof {
                assert(names[a as int] == params@[a as int].0@);
                assert(names[b as int] == params@[b as int].0@);
                if spec_utf8(names[a as int]) == spec_utf8(names[b as int]) {
                    crate::types::model::lemma_utf8_injective(names[a as int], names[b as int]);
                }
            }
            b = b + 1;
        }
        a = a + 1;
    }
    // Every parameter is a slot.
    let mut i: usize = 0;
    while i < params.len()
        invariant
            ps == spec_params_model(params@),
            ms == spec_parts_model(parts@),
            i <= params@.len(),
            spec_names_distinct(spec_param_names(ps)),
            forall|k: int| 0 <= k < i ==> spec_has_slot(ms, #[trigger] ps[k].0),
        decreases params@.len() - i,
    {
        if !has_slot(parts, params[i].0.as_str()) {
            proof {
                assert(spec_has_param(ps, ps[i as int].0));
            }
            return false;
        }
        i = i + 1;
    }
    // Every slot is a parameter.
    let mut j: usize = 0;
    while j < parts.len()
        invariant
            ps == spec_params_model(params@),
            ms == spec_parts_model(parts@),
            j <= parts@.len(),
            spec_names_distinct(spec_param_names(ps)),
            forall|k: int| 0 <= k < params@.len() ==> spec_has_slot(ms, #[trigger] ps[k].0),
            forall|k: int| 0 <= k < j ==> (#[trigger] ms[k] matches PartModel::Slot(n) ==> spec_has_param(ps, n)),
        decreases parts@.len() - j,
    {
        if let TemplatePart::Slot(id) = &parts[j] {
            if !has_param(params, id.as_str()) {
                proof {
                    assert(ms[j as int] == PartModel::Slot(id@));
                    assert(spec_has_slot(ms, id@));
                }
                return false;
            }
        }
        j = j + 1;
    }
    proof {
        assert forall|n: Seq<char>| #[trigger] spec_has_param(ps, n) <==> spec_has_slot(ms, n) by {
            if spec_has_param(ps, n) {
                let k = choose|k: int| 0 <= k < ps.len() && ps[k].0 == n;
                assert(spec_has_slot(ms, ps[k].0));
            }
            if spec_has_slot(ms, n) {
                let k = choose|k: int| 0 <= k < ms.len() && ms[k] == PartModel::Slot(n);
                assert(ms[k] matches PartModel::Slot(m) ==> spec_has_param(ps, m));
            }
        }
    }
    true
}

} // verus!

verus! {

/// Whether `v` is the text `t`.
fn is_text(v: &Value, t: &str) -> (res: bool)
    ensures
        res == spec_text_value(*v, t@),
{
    match v {
        Value::Text(s) => same_text(s.as_str(), t),
        _ => false,
    }
}

/// Reads a slot name.
fn slot_name(v: &Value) -> (res: Result<Identifier, ExpressionError>)
    ensures
        match spec_slot_name(*v) {
            Ok(n) => res matches Ok(id) && id@ == n,
            Err(e) => res == Err::<Identifier, ExpressionError>(e),
        },
{
    match v {
        Value::Text(t) => {
            proof { crate::identifier::lemma_identifier_error_iff(spec_utf8(t@)); }
            match Identifier::parse(t.as_str()) {
                Ok(id) => Ok(id),
                Err(e) => Err(ExpressionError::Identifier(e)),
            }
        },
        _ => Err(ExpressionError::InvalidShape("identifier")),
    }
}

/// Reads the stored parts in order, joining or refusing literal texts as
/// `normalize` says.
#[verifier::rlimit(40)]
fn parse_parts(items: &Vec<Value>, limits: &Limits, normalize: bool) -> (res: Result<Vec<TemplatePart>, ExpressionError>)
    ensures
        match spec_parse_parts(items@, normalize, limits.max_text_bytes) {
            Ok(ps) => res matches Ok(r) && spec_parts_model(r@) == ps,
            Err(e) => res == Err::<Vec<TemplatePart>, ExpressionError>(e),
        },
        res matches Ok(r) ==> spec_parts_canonical(spec_parts_model(r@)),
{
    let ghost max = limits.max_text_bytes;
    let mut out: Vec<TemplatePart> = Vec::new();
    let mut i: usize = 0;
    proof {
        assert(items@.take(0) =~= Seq::<Value>::empty());
        assert(spec_parts_model(out@) =~= Seq::<PartModel>::empty());
    }
    while i < items.len()
        invariant
            max == limits.max_text_bytes,
            i <= items@.len(),
            spec_parse_parts(items@.take(i as int), normalize, max) == Ok::<Seq<PartModel>, ExpressionError>(spec_parts_model(out@)),
            spec_parts_canonical(spec_parts_model(out@)),
        decreases items@.len() - i,
    {
        proof {
            assert(items@.take(i + 1).drop_last() =~= items@.take(i as int));
            assert(items@.take(i + 1).last() == items@[i as int]);
        }
        let ghost before = spec_parts_model(out@);
        let ghost stepped = spec_part_step(before, items@[i as int], normalize, max);
        match &items[i] {
            Value::Text(s) => {
                let empty = s.as_str().unicode_len() == 0;
                let ends_text = out.len() > 0 && match &out[out.len() - 1] {
                    TemplatePart::Text(_) => true,
                    _ => false,
                };
                proof {
                    if out@.len() > 0 {
                        assert(before.last() == spec_part_model(out@[out@.len() - 1]));
                    }
                    assert(ends_text == spec_ends_in_text(before));
                }
                if !normalize && (empty || ends_text) {
                    proof {
                        lemma_parts_err_extends(items@, normalize, max, i + 1, items@.len() as int);
                        assert(items@.take(items@.len() as int) =~= items@);
                    }
                    return Err(ExpressionError::NonCanonical("template literal segments"));
                }
                if !empty {
                    if ends_text {
                        let last = out.pop();
                        match last {
                            Some(TemplatePart::Text(prev)) => {
                                let total = prev.as_str().as_bytes().len().checked_add(s.as_str().as_bytes().len());
                                let too_long = match total {
                                    Some(t) => t > limits.max_text_bytes,
                                    None => true,
                                };
                                if too_long {
                                    proof {
                                        lemma_parts_err_extends(items@, normalize, max, i + 1, items@.len() as int);
                                        assert(items@.take(items@.len() as int) =~= items@);
                                    }
                                    return Err(ExpressionError::LimitExceeded { limit: LimitKind::TextBytes, maximum: limits.max_text_bytes });
                                }
                                let mut joined = prev;
                                joined.append(s.as_str());
                                out.push(TemplatePart::Text(joined));
                                proof {
                                    assert(spec_parts_model(out@) =~= before.drop_last().push(PartModel::Text(prev@ + s@)));
                                    let after = spec_parts_model(out@);
                                    assert forall|j: int| 0 < j < after.len() implies !(#[trigger] after[j] is Text && after[j - 1] is Text) by {
                                        if j < after.len() - 1 {
                                            assert(after[j] == before[j]);
                                            assert(after[j - 1] == before[j - 1]);
                                        } else {
                                            assert(after[j - 1] == before[j - 1]);
                                            assert(before[j] is Text);
                                        }
                                    }
                                    assert forall|j: int| 0 <= j < after.len() implies match #[trigger] after[j] {
                                        PartModel::Text(t) => t.len() > 0,
                                        PartModel::Slot(n) => spec_identifier_error(spec_utf8(n)) is None,
                                    } by {
                                        if j < after.len() - 1 {
                                            assert(after[j] == before[j]);
                                        }
                                    }
                                }
                            },
                            _ => {
                                return Err(ExpressionError::InvalidShape("template part"));
                            },
                        }
                    } else {
                        out.push(TemplatePart::Text(String::from_str(s.as_str())));
                        proof {
                            assert(spec_parts_model(out@) =~= before.push(PartModel::Text(s@)));
                            let after = spec_parts_model(out@);
                            assert forall|j: int| 0 < j < after.len() implies !(#[trigger] after[j] is Text && after[j - 1] is Text) by {
                                assert(after[j - 1] == before[j - 1]);
                                if j < after.len() - 1 {
                                    assert(after[j] == before[j]);
                                }
                            }
                            assert forall|j: int| 0 <= j < after.len() implies match #[trigger] after[j] {
                                PartModel::Text(t) => t.len() > 0,
                                PartModel::Slot(n) => spec_identifier_error(spec_utf8(n)) is None,
                            } by {
                                if j < after.len() - 1 {
                                    assert(after[j] == before[j]);
                                }
                            }
                        }
                    }
                }
            },
            Value::Array(a) => {
                if a.len() == 2 && is_text(&a[0], "slot") {
                    let name = match slot_name(&a[1]) {
                        Ok(n) => n,
                        Err(e) => {
                            proof {
                                lemma_parts_err_extends(items@, normalize, max, i + 1, items@.len() as int);
                                assert(items@.take(items@.len() as int) =~= items@);
                            }
                            return Err(e);
                        },
                    };
                    out.push(TemplatePart::Slot(name));
                    proof {
                        assert(spec_parts_model(out@) =~= before.push(PartModel::Slot(a@[1]->Text_0@)));
                        let after = spec_parts_model(out@);
                        assert forall|j: int| 0 < j < after.len() implies !(#[trigger] after[j] is Text && after[j - 1] is Text) by {
                            if j < after.len() - 1 {
                                assert(after[j] == before[j]);
                                assert(after[j - 1] == before[j - 1]);
                            }
                        }
                        assert forall|j: int| 0 <= j < after.len() implies match #[trigger] after[j] {
                            PartModel::Text(t) => t.len() > 0,
                            PartModel::Slot(n) => spec_identifier_error(spec_utf8(n)) is None,
                        } by {
                            if j < after.len() - 1 {
                                assert(after[j] == before[j]);
                            }
                        }
                    }
                } else {
                    proof {
                        lemma_parts_err_extends(items@, normalize, max, i + 1, items@.len() as int);
                        assert(items@.take(items@.len() as int) =~= items@);
                    }
                    return Err(ExpressionError::InvalidShape("template part"));
                }
            },
            _ => {
                proof {
                    lemma_parts_err_extends(items@, normalize, max, i + 1, items@.len() as int);
                    assert(items@.take(items@.len() as int) =~= items@);
                }
                return Err(ExpressionError::InvalidShape("template part"));
            },
        }
        assert(spec_parse_parts(items@.take(i + 1), normalize, max) == Ok::<Seq<PartModel>, ExpressionError>(spec_parts_model(out@)));
        i = i + 1;
    }
    proof { assert(items@.take(items@.len() as int) =~= items@); }
    Ok(out)
}

} // verus!

verus! {

impl PromptTemplate {
    /// The fields as mathematics: parameters, then parts.
    pub open spec fn spec_fields(&self) -> (Seq<(Seq<char>, PortModel)>, Seq<PartModel>) {
        (self.spec_params_view(), self.spec_parts_view())
    }

    /// Reads a template record; canonical reading refuses repairable parts,
    /// normalizing reading repairs them.
    fn parse(v: &Value, limits: &Limits, normalize: bool) -> (res: Result<PromptTemplate, ExpressionError>)
        requires
            limits.spec_valid(),
        ensures
            match spec_parse_template(*v, *limits, normalize) {
                Ok(f) => res matches Ok(t) && t.spec_fields() == f,
                Err(e) => res == Err::<PromptTemplate, ExpressionError>(e),
            },
            res matches Ok(t) ==> spec_template_wf(t.spec_params_view(), t.spec_parts_view()),
    {
        let m = match v {
            Value::Object(m) => m,
            _ => return Err(ExpressionError::InvalidShape("template record")),
        };
        if m.len() != 2 {
            return Err(ExpressionError::InvalidShape("template fields"));
        }
        let pv = match m.get("parameters") {
            Some(x) => x,
            None => return Err(ExpressionError::InvalidShape("template fields")),
        };
        let tv = match m.get("parts") {
            Some(x) => x,
            None => return Err(ExpressionError::InvalidShape("template fields")),
        };
        let pm = match pv {
            Value::Object(pm) => pm,
            _ => return Err(ExpressionError::InvalidShape("template parameters")),
        };
        let params = parse_params(pm, limits)?;
        let items = match tv {
            Value::Array(a) => a,
            _ => return Err(ExpressionError::InvalidShape("template parts")),
        };
        let parts = parse_parts(items, limits, normalize)?;
        if !covers(&params, &parts) {
            return Err(ExpressionError::TemplateParameterMismatch);
        }
        let ghost unsorted = spec_params_model(params@);
        let parameters = sort_params(params);
        proof {
            let sorted = spec_params_model(parameters@);
            unsorted.to_multiset_ensures();
            sorted.to_multiset_ensures();
            assert forall|i: int| 0 <= i < sorted.len() implies spec_parameter_ok((#[trigger] sorted[i]).1)
                && spec_identifier_error(spec_utf8(sorted[i].0)) is None by {
                assert(sorted.contains(sorted[i]));
                assert(sorted.to_multiset().count(sorted[i]) > 0);
                assert(unsorted.contains(sorted[i]));
            }
            assert forall|n: Seq<char>| #[trigger] spec_has_param(sorted, n) <==> spec_has_param(unsorted, n) by {
                if spec_has_param(sorted, n) {
                    let i = choose|i: int| 0 <= i < sorted.len() && sorted[i].0 == n;
                    assert(sorted.contains(sorted[i]));
                    assert(sorted.to_multiset().count(sorted[i]) > 0);
                    assert(unsorted.contains(sorted[i]));
                }
                if spec_has_param(unsorted, n) {
                    let i = choose|i: int| 0 <= i < unsorted.len() && unsorted[i].0 == n;
                    assert(unsorted.contains(unsorted[i]));
                    assert(unsorted.to_multiset().count(unsorted[i]) > 0);
                    assert(sorted.contains(unsorted[i]));
                }
            }
        }
        Ok(PromptTemplate { parameters, parts })
    }

    /// Normalizes authored parts by removing empty texts and joining
    /// adjacent ones, then checks the result as a canonical record.
    pub fn new(parameters: Vec<(Identifier, Port)>, parts: Vec<TemplatePart>, limits: &Limits)
        -> (res: Result<PromptTemplate, ExpressionError>)
        ensures
            !limits.spec_valid() ==> res matches Err(ExpressionError::Codec(_)),
            limits.spec_valid() ==> match spec_trun(*limits, (0, 0, 0),
                spec_template_steps(spec_params_model(parameters@), spec_parts_model(parts@))) {
                Err(e) => res == Err::<PromptTemplate, ExpressionError>(e),
                Ok(_) => exists|v: Value| #[trigger] spec_template_record(v, spec_params_model(parameters@), spec_parts_model(parts@))
                    && match spec_parse_template(v, *limits, true) {
                        Err(e) => res == Err::<PromptTemplate, ExpressionError>(e),
                        Ok(f) => match spec_trun(*limits, (0, 0, 0), spec_template_steps(f.0, f.1)) {
                            Ok(_) => res matches Ok(t) && t.spec_fields() == f,
                            Err(e) => res == Err::<PromptTemplate, ExpressionError>(e),
                        },
                    },
            },
            res matches Ok(t) ==> spec_template_wf(t.spec_params_view(), t.spec_parts_view()),
    {
        let authored = PromptTemplate { parameters, parts };
        let value = authored.to_value(limits)?;
        let result = PromptTemplate::parse(&value, limits, true)?;
        result.to_value(limits)?;
        Ok(result)
    }

    /// Bounds an already decoded record under the codec limits, then reads
    /// it canonically, without repairing parts.
    pub fn from_value(v: &Value, limits: &Limits) -> (res: Result<PromptTemplate, ExpressionError>)
        ensures
            !(limits.spec_valid() && crate::cbor::encode::spec_fits(*v, *limits)) ==> res matches Err(ExpressionError::Codec(_)),
            limits.spec_valid() && crate::cbor::encode::spec_fits(*v, *limits) ==> match spec_parse_template(*v, *limits, false) {
                Ok(f) => res matches Ok(t) && t.spec_fields() == f,
                Err(e) => res == Err::<PromptTemplate, ExpressionError>(e),
            },
            res matches Ok(t) ==> spec_template_wf(t.spec_params_view(), t.spec_parts_view()),
    {
        if let Err(e) = crate::cbor::encode::encode(v, limits) {
            return Err(ExpressionError::Codec(e));
        }
        PromptTemplate::parse(v, limits, false)
    }

    /// Encodes one canonical template record.
    pub fn encode(&self, limits: &Limits) -> (res: Result<Vec<u8>, ExpressionError>)
        ensures
            !limits.spec_valid() ==> res matches Err(ExpressionError::Codec(_)),
            limits.spec_valid() ==> (spec_trun(*limits, (0, 0, 0), spec_template_steps(self.spec_params_view(), self.spec_parts_view()))
                matches Err(e) ==> res == Err::<Vec<u8>, ExpressionError>(e)),
            res matches Ok(b) ==> exists|v: Value| #[trigger] spec_template_record(v, self.spec_params_view(), self.spec_parts_view())
                && b@ == crate::cbor::value::spec_encode(v),
            limits.spec_valid() ==> match spec_trun(*limits, (0, 0, 0), spec_template_steps(self.spec_params_view(), self.spec_parts_view())) {
                Ok(_) => exists|v: crate::cbor::value::Value| (crate::cbor::encode::spec_fits(v, *limits) <==> res is Ok) && (res matches Ok(b) ==> b@ == crate::cbor::value::spec_encode(v)) && spec_template_record(v, self.spec_params_view(), self.spec_parts_view()),
                Err(e) => res == Err::<Vec<u8>, ExpressionError>(e),
            },
    {
        let v = self.to_value(limits)?;
        match crate::cbor::encode::encode(&v, limits) {
            Ok(b) => Ok(b),
            Err(e) => Err(ExpressionError::Codec(e)),
        }
    }

    /// Decodes exactly one canonical template record, rejecting trailing
    /// data and repairable parts.
    pub fn decode(bytes: &[u8], limits: &Limits) -> (res: Result<PromptTemplate, ExpressionError>)
        ensures
            !limits.spec_valid() ==> res matches Err(ExpressionError::Codec(_)),
            res matches Ok(t) ==> exists|w: Value| #[trigger] crate::cbor::value::spec_encode(w) == bytes@
                && spec_parse_template(w, *limits, false) == Ok::<(Seq<(Seq<char>, PortModel)>, Seq<PartModel>), ExpressionError>(t.spec_fields()),
            res matches Ok(t) ==> spec_template_wf(t.spec_params_view(), t.spec_parts_view()),
            limits.spec_valid() && (exists|x: crate::cbor::value::Value| #[trigger] crate::cbor::value::spec_encode(x) == bytes@
                && crate::cbor::value::spec_wf(x) && crate::cbor::value::spec_height(x) <= limits.max_depth
                && bytes@.len() <= limits.max_document_bytes) ==> exists|w: crate::cbor::value::Value|
                #[trigger] crate::cbor::value::spec_encode(w) == bytes@ && crate::cbor::value::spec_wf(w) && (match spec_parse_template(w, *limits, false) {
                Ok(f) => res matches Ok(t) && t.spec_fields() == f,
                Err(e) => res == Err::<PromptTemplate, ExpressionError>(e),
            }),
    {
        let v = match crate::cbor::decode::decode(bytes, limits) {
            Ok(v) => v,
            Err(e) => return Err(ExpressionError::Codec(e)),
        };
        proof { assert(crate::cbor::value::spec_encode(v) == bytes@ && crate::cbor::value::spec_wf(v)); }
        let t = PromptTemplate::parse(&v, limits, false)?;
        assert(crate::cbor::value::spec_encode(v) == bytes@);
        Ok(t)
    }

    /// Computes the `template` record digest: the domain label
    /// `htlk.template/0.1\n` followed by the canonical record bytes.
    pub fn digest(&self, limits: &Limits) -> (res: Result<crate::digest::Digest, ExpressionError>)
        ensures
            !limits.spec_valid() ==> res matches Err(ExpressionError::Codec(_)),
            res matches Ok(d) ==> exists|v: Value| #[trigger] spec_template_record(v, self.spec_params_view(), self.spec_parts_view())
                && d@ == crate::digest::spec_sha256(crate::digest::spec_record_prefix(crate::digest::RecordKind::Template)
                    + crate::cbor::value::spec_encode(v)),
    {
        let v = self.to_value(limits)?;
        match crate::digest::record_digest(crate::digest::RecordKind::Template, &v, limits) {
            Ok(d) => Ok(d),
            Err(e) => Err(ExpressionError::Codec(e)),
        }
    }
}

} // verus!

verus! {

/// Mapping both sides of a permutation gives a permutation.
pub proof fn lemma_map_permutation<A, B>(s: Seq<A>, t: Seq<A>, f: spec_fn(A) -> B)
    requires
        s.to_multiset() == t.to_multiset(),
    ensures
        s.map_values(f).to_multiset() == t.map_values(f).to_multiset(),
    decreases s.len(),
{
    s.to_multiset_ensures();
    t.to_multiset_ensures();
    if s.len() == 0 {
        assert(t.len() == 0);
        assert(s.map_values(f) =~= t.map_values(f));
    } else {
        let x = s[0];
        assert(s.contains(x));
        assert(s.to_multiset().count(x) > 0);
        assert(t.contains(x));
        let k = choose|k: int| 0 <= k < t.len() && t[k] == x;
        vstd::seq_lib::to_multiset_remove(s, 0);
        vstd::seq_lib::to_multiset_remove(t, k);
        lemma_map_permutation(s.remove(0), t.remove(k), f);
        let ms = s.map_values(f);
        let mt = t.map_values(f);
        assert(s.remove(0).map_values(f) =~= ms.remove(0));
        assert(t.remove(k).map_values(f) =~= mt.remove(k));
        vstd::seq_lib::to_multiset_remove(ms, 0);
        vstd::seq_lib::to_multiset_remove(mt, k);
        ms.to_multiset_ensures();
        mt.to_multiset_ensures();
        assert(ms.contains(ms[0]));
        assert(mt.contains(mt[k]));
        assert(ms.to_multiset().count(f(x)) > 0);
        assert(mt.to_multiset().count(f(x)) > 0);
        assert(ms.to_multiset() =~= ms.to_multiset().remove(f(x)).insert(f(x)));
        assert(mt.to_multiset() =~= mt.to_multiset().remove(f(x)).insert(f(x)));
    }
}

/// A parameter record of a string, integer, or Boolean port reads back as
/// that port.
proof fn lemma_param_record_reads(v: Value, p: PortModel, l: Limits)
    requires
        spec_param_record(v, p),
        spec_parameter_ok(p),
    ensures
        spec_parse_port(v, TypeContext::Value, l, false) == Ok::<PortModel, TypeError>(p),
{
    reveal_strlit("type");
    reveal_strlit("required");
    let m = v->Object_0;
    let e = m.entries@;
    assert("type"@.len() == 4);
    assert("required"@.len() == 8);
    assert(e[0].0@ != "required"@);
    assert(crate::types::reading::spec_port_keys(e));
    assert(crate::types::reading::spec_key_index(e, "required"@, 2) == -1);
    assert(crate::types::reading::spec_key_index(e, "required"@, 1) == 1);
    assert(crate::types::reading::spec_key_index(e, "required"@, 0) == 1);
    assert(crate::types::reading::spec_key_index(e, "type"@, 0) == 0);
    match p.ty {
        TypeModel::Primitive(q) => {
            crate::types::lemma_primitive_roundtrip(q);
            assert(spec_primitive_name(q) == spec_parameter_name(p));
            assert(e[0].1 matches Value::Text(t) && t@ == spec_primitive_name(q));
        },
        _ => {},
    }
}

/// The port that a stored parameter entry reads as.
pub open spec fn spec_entry_param(x: (String, Value), l: Limits) -> (Seq<char>, PortModel) {
    match spec_parse_port(x.1, TypeContext::Value, l, false) {
        Ok(p) => (x.0@, p),
        Err(_) => (x.0@, PortModel { ty: TypeModel::Primitive(PrimitiveType::Null), required: false }),
    }
}

/// Entries that each read successfully read as their ports, in order.
proof fn lemma_params_read(e: Seq<(String, Value)>, l: Limits)
    requires
        forall|k: int| 0 <= k < e.len() ==> spec_parse_param((#[trigger] e[k]).0@, e[k].1, l)
            == Ok::<(Seq<char>, PortModel), ExpressionError>(spec_entry_param(e[k], l)),
    ensures
        spec_parse_params(e, l) == Ok::<Seq<(Seq<char>, PortModel)>, ExpressionError>(
            e.map_values(|x: (String, Value)| spec_entry_param(x, l))),
    decreases e.len(),
{
    if e.len() > 0 {
        lemma_params_read(e.drop_last(), l);
        assert(e.drop_last().map_values(|x: (String, Value)| spec_entry_param(x, l)).push(spec_entry_param(e.last(), l))
            =~= e.map_values(|x: (String, Value)| spec_entry_param(x, l)));
    } else {
        assert(e.map_values(|x: (String, Value)| spec_entry_param(x, l)) =~= Seq::<(Seq<char>, PortModel)>::empty());
    }
}

/// The records of canonical parts read back as those parts, in either
/// reading mode.
proof fn lemma_parts_read(items: Seq<Value>, parts: Seq<PartModel>, normalize: bool, max: usize, j: int)
    requires
        items.len() == parts.len(),
        0 <= j <= parts.len(),
        forall|k: int| 0 <= k < parts.len() ==> spec_part_record(#[trigger] items[k], parts[k]),
        spec_parts_canonical(parts),
    ensures
        spec_parse_parts(items.take(j), normalize, max) == Ok::<Seq<PartModel>, ExpressionError>(parts.take(j)),
    decreases j,
{
    if j == 0 {
        assert(items.take(0) =~= Seq::<Value>::empty());
        assert(parts.take(0) =~= Seq::<PartModel>::empty());
    } else {
        lemma_parts_read(items, parts, normalize, max, j - 1);
        assert(items.take(j).drop_last() =~= items.take(j - 1));
        assert(items.take(j).last() == items[j - 1]);
        let before = parts.take(j - 1);
        assert(spec_part_record(items[j - 1], parts[j - 1]));
        match parts[j - 1] {
            PartModel::Text(t) => {
                assert(t.len() > 0);
                if j > 1 {
                    assert(!(parts[j - 1] is Text && parts[j - 2] is Text));
                    assert(before.last() == parts[j - 2]);
                }
                assert(!spec_ends_in_text(before));
                assert(before.push(PartModel::Text(t)) =~= parts.take(j));
            },
            PartModel::Slot(n) => {
                reveal_strlit("slot");
                assert(spec_identifier_error(spec_utf8(n)) is None);
                assert(before.push(PartModel::Slot(n)) =~= parts.take(j));
            },
        }
    }
}

/// The stored parameter entries of a canonical template's record read as a
/// permutation of its parameters that covers its slots and sorts back to them.
proof fn lemma_params_roundtrip(pe: Seq<(String, Value)>, ps: Seq<(Seq<char>, PortModel)>, parts: Seq<PartModel>, l: Limits)
    requires
        spec_template_wf(ps, parts),
        spec_keys_sorted(pe),
        exists|built: Seq<(String, Value)>| #[trigger] built.to_multiset() == pe.to_multiset()
            && spec_params_records(built, ps),
    ensures
        spec_parse_params(pe, l) matches Ok(r) && spec_covers(r, parts) && spec_sort_params(r) == ps,
{
    let built = choose|built: Seq<(String, Value)>| #[trigger] built.to_multiset() == pe.to_multiset()
        && spec_params_records(built, ps);
    let g = |x: (String, Value)| spec_entry_param(x, l);
    assert forall|i: int| 0 <= i < built.len() implies spec_parse_param((#[trigger] built[i]).0@, built[i].1, l)
        == Ok::<(Seq<char>, PortModel), ExpressionError>(ps[i]) && spec_entry_param(built[i], l) == ps[i] by {
        lemma_param_record_reads(built[i].1, ps[i].1, l);
    }
    assert(built.map_values(g) =~= ps);
    built.to_multiset_ensures();
    pe.to_multiset_ensures();
    assert forall|k: int| 0 <= k < pe.len() implies spec_parse_param((#[trigger] pe[k]).0@, pe[k].1, l)
        == Ok::<(Seq<char>, PortModel), ExpressionError>(spec_entry_param(pe[k], l)) by {
        assert(pe.contains(pe[k]));
        assert(pe.to_multiset().count(pe[k]) > 0);
        assert(built.contains(pe[k]));
    }
    lemma_params_read(pe, l);
    let read = pe.map_values(g);
    lemma_map_permutation(pe, built, g);
    assert(read.to_multiset() == ps.to_multiset());
    crate::cbor::map::lemma_sorted_distinct(pe);
    assert forall|x: int, y: int| 0 <= x < y < read.len() implies spec_utf8(#[trigger] spec_param_names(read)[x])
        != spec_utf8(#[trigger] spec_param_names(read)[y]) by {
        assert(spec_param_names(read)[x] == pe[x].0@);
        assert(spec_param_names(read)[y] == pe[y].0@);
    }
    read.to_multiset_ensures();
    ps.to_multiset_ensures();
    assert forall|n: Seq<char>| #[trigger] spec_has_param(read, n) <==> spec_has_slot(parts, n) by {
        if spec_has_param(read, n) {
            let i = choose|i: int| 0 <= i < read.len() && read[i].0 == n;
            assert(read.contains(read[i]));
            assert(read.to_multiset().count(read[i]) > 0);
            assert(ps.contains(read[i]));
            assert(spec_has_param(ps, n));
        }
        if spec_has_slot(parts, n) {
            assert(spec_has_param(ps, n));
            let i = choose|i: int| 0 <= i < ps.len() && ps[i].0 == n;
            assert(ps.contains(ps[i]));
            assert(ps.to_multiset().count(ps[i]) > 0);
            assert(read.contains(ps[i]));
        }
    }
    lemma_params_sorted_unique(spec_sort_params(read), ps);
}

/// Reading back: reading the record of a canonical template, canonically or
/// normalizing, gives back exactly its parameters and parts.
pub proof fn lemma_template_roundtrip(v: Value, ps: Seq<(Seq<char>, PortModel)>, parts: Seq<PartModel>, l: Limits, normalize: bool)
    requires
        spec_template_wf(ps, parts),
        spec_template_record(v, ps, parts),
    ensures
        spec_parse_template(v, l, normalize) == Ok::<(Seq<(Seq<char>, PortModel)>, Seq<PartModel>), ExpressionError>((ps, parts)),
{
    reveal_strlit("parts");
    reveal_strlit("parameters");
    let m = v->Object_0;
    let e = m.entries@;
    assert("parts"@.len() == 5);
    assert("parameters"@.len() == 10);
    assert(e[0].0@ != "parameters"@);
    assert(e.drop_first()[0] == e[1]);
    assert(spec_find(e.drop_first(), "parameters"@) == Some(e[1].1));
    assert(spec_find(e, "parameters"@) == Some(e[1].1));
    assert(spec_find(e, "parts"@) == Some(e[0].1));
    let pm = e[1].1->Object_0;
    lemma_params_roundtrip(pm.entries@, ps, parts, l);
    let a = e[0].1->Array_0;
    lemma_parts_read(a@, parts, normalize, l.max_text_bytes, parts.len() as int);
    assert(a@.take(a@.len() as int) =~= a@);
    assert(parts.take(parts.len() as int) =~= parts);
}

} // verus!

