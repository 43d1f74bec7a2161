//! Expressions as mathematics: their models, the steps of building their
//! canonical records, and the records themselves.

use vstd::prelude::*;

use super::{
    spec_operator_tag, BinaryOperator, CoreFunction, Expression, ExpressionContext, ExpressionError, ExpressionKind,
    FunctionId, PathStep, ScalarLiteral, ValueReference,
};
use crate::cbor::error::{spec_plain_error, ErrorKind};
use crate::cbor::limits::Limits;
use crate::cbor::value::{spec_keys_sorted, spec_utf8, Value};
use crate::digest::spec_digest_text;
use crate::identifier::Identifier;
use crate::record_accounting::{spec_apply, Charge, Counters};
use crate::types::model::spec_names_distinct;

verus! {

/// A scalar literal as mathematics; a float by its bit pattern.
pub enum ScalarModel {
    /// Text.
    String(Seq<char>),
    /// A signed 64-bit integer.
    Integer(i64),
    /// A finite float.
    Float(u64),
    /// A Boolean.
    Boolean(bool),
    /// Explicit null.
    Null,
    /// Opaque bytes.
    Bytes(Seq<u8>),
}

/// A value reference as mathematics.
pub enum RefModel {
    /// An owning input.
    Input(Seq<char>),
    /// A node's output port.
    Output(Seq<char>, Seq<char>),
    /// A proposed scope output.
    ScopeOutput(Seq<char>),
    /// A loop-carried value.
    Carried(Seq<char>),
    /// A proposed next value.
    Next(Seq<char>),
}

/// A path step as mathematics.
pub enum StepModel {
    /// A field name.
    Field(Seq<char>),
    /// An index.
    Index(u64),
}

/// A function identity as mathematics.
pub enum FnModel {
    /// A core function.
    Core(CoreFunction),
    /// A library function: implementation digest bytes and local name.
    Library(Seq<u8>, Seq<char>),
}

/// An expression as mathematics.
pub enum ExprModel {
    /// A scalar constant.
    Literal(ScalarModel),
    /// Pattern and flags.
    Regex(Seq<char>, Seq<char>),
    /// A reference and its path.
    Ref(RefModel, Seq<StepModel>),
    /// A projection of a computed value.
    Get(Box<ExprModel>, Seq<StepModel>),
    /// Elements in order.
    List(Seq<ExprModel>),
    /// Named fields in order.
    Record(Seq<(Seq<char>, ExprModel)>),
    /// A call and its arguments.
    Call(FnModel, Seq<ExprModel>),
    /// A library function reference.
    FunctionRef(Seq<u8>, Seq<char>),
    /// A template digest and its named arguments.
    Render(Seq<u8>, Seq<(Seq<char>, ExprModel)>),
    /// A node status inspection.
    Status(Seq<char>),
    /// A node error inspection.
    Error(Seq<char>),
    /// Negation.
    Not(Box<ExprModel>),
    /// A binary operator and its operands.
    Binary(BinaryOperator, Box<ExprModel>, Box<ExprModel>),
}

/// The model of a scalar literal.
pub open spec fn spec_scalar_model(s: ScalarLiteral) -> ScalarModel {
    match s {
        ScalarLiteral::String(t) => ScalarModel::String(t@),
        ScalarLiteral::Integer(n) => ScalarModel::Integer(n),
        ScalarLiteral::Float(f) => ScalarModel::Float(f.bits),
        ScalarLiteral::Boolean(b) => ScalarModel::Boolean(b),
        ScalarLiteral::Null => ScalarModel::Null,
        ScalarLiteral::Bytes(b) => ScalarModel::Bytes(b@),
    }
}

/// The model of a value reference.
pub open spec fn spec_ref_model(r: ValueReference) -> RefModel {
    match r {
        ValueReference::Input(n) => RefModel::Input(n@),
        ValueReference::Output { node, port } => RefModel::Output(node@, port@),
        ValueReference::ScopeOutput(n) => RefModel::ScopeOutput(n@),
        ValueReference::Carried(n) => RefModel::Carried(n@),
        ValueReference::Next(n) => RefModel::Next(n@),
    }
}

/// The model of a path.
pub open spec fn spec_path_model(p: Seq<PathStep>) -> Seq<StepModel> {
    p.map_values(|s: PathStep| match s {
        PathStep::Field(f) => StepModel::Field(f@),
        PathStep::Index(n) => StepModel::Index(n),
    })
}

/// The model of a function identity.
pub open spec fn spec_fn_model(f: FunctionId) -> FnModel {
    match f {
        FunctionId::Core(c) => FnModel::Core(c),
        FunctionId::Library { library, name } => FnModel::Library(library@, name@),
    }
}

/// The model of an expression shape.
pub open spec fn spec_kind_model(k: ExpressionKind) -> ExprModel
    decreases k,
{
    match k {
        ExpressionKind::Literal(s) => ExprModel::Literal(spec_scalar_model(s)),
        ExpressionKind::Regex { pattern, flags } => ExprModel::Regex(pattern@, flags@),
        ExpressionKind::Ref { source, path } => ExprModel::Ref(spec_ref_model(source), spec_path_model(path@)),
        ExpressionKind::Get { value, path } => ExprModel::Get(Box::new(spec_kind_model(*value.kind)), spec_path_model(path@)),
        ExpressionKind::List(items) => ExprModel::List(spec_exprs_model(items@)),
        ExpressionKind::Record(fields) => ExprModel::Record(spec_efields_model(fields@)),
        ExpressionKind::Call { function, arguments } => ExprModel::Call(spec_fn_model(function), spec_exprs_model(arguments@)),
        ExpressionKind::FunctionRef { library, name } => ExprModel::FunctionRef(library@, name@),
        ExpressionKind::Render { template, arguments } => ExprModel::Render(template@, spec_eargs_model(arguments@)),
        ExpressionKind::Status(n) => ExprModel::Status(n@),
        ExpressionKind::Error(n) => ExprModel::Error(n@),
        ExpressionKind::Not(c) => ExprModel::Not(Box::new(spec_kind_model(*c.kind))),
        ExpressionKind::Binary { operator, left, right } => ExprModel::Binary(operator,
            Box::new(spec_kind_model(*left.kind)), Box::new(spec_kind_model(*right.kind))),
    }
}

/// The models of expressions, in order.
pub open spec fn spec_exprs_model(s: Seq<Expression>) -> Seq<ExprModel>
    decreases s,
{
    if s.len() == 0 {
        Seq::empty()
    } else {
        spec_exprs_model(s.drop_last()).push(spec_kind_model(*s.last().kind))
    }
}

/// The models of named record fields, in order.
pub open spec fn spec_efields_model(s: Seq<(String, Expression)>) -> Seq<(Seq<char>, ExprModel)>
    decreases s,
{
    if s.len() == 0 {
        Seq::empty()
    } else {
        spec_efields_model(s.drop_last()).push((s.last().0@, spec_kind_model(*s.last().1.kind)))
    }
}

/// The models of named arguments, in order.
pub open spec fn spec_eargs_model(s: Seq<(Identifier, Expression)>) -> Seq<(Seq<char>, ExprModel)>
    decreases s,
{
    if s.len() == 0 {
        Seq::empty()
    } else {
        spec_eargs_model(s.drop_last()).push((s.last().0@, spec_kind_model(*s.last().1.kind)))
    }
}

/// The model of an expression.
pub open spec fn spec_expr_model(e: Expression) -> ExprModel {
    spec_kind_model(*e.kind)
}

/// The expression models line up with the expressions.
pub proof fn lemma_exprs_model(s: Seq<Expression>)
    ensures
        spec_exprs_model(s).len() == s.len(),
        forall|i: int| 0 <= i < s.len() ==> #[trigger] spec_exprs_model(s)[i] == spec_kind_model(*s[i].kind),
    decreases s.len(),
{
    if s.len() > 0 {
        lemma_exprs_model(s.drop_last());
        assert forall|i: int| 0 <= i < s.len() implies #[trigger] spec_exprs_model(s)[i] == spec_kind_model(*s[i].kind) by {
            if i < s.len() - 1 {
                assert(s[i] == s.drop_last()[i]);
            }
        }
    }
}

/// The field models line up with the fields.
pub proof fn lemma_efields_model(s: Seq<(String, Expression)>)
    ensures
        spec_efields_model(s).len() == s.len(),
        forall|i: int| 0 <= i < s.len() ==> #[trigger] spec_efields_model(s)[i] == (s[i].0@, spec_kind_model(*s[i].1.kind)),
    decreases s.len(),
{
    if s.len() > 0 {
        lemma_efields_model(s.drop_last());
        assert forall|i: int| 0 <= i < s.len() implies #[trigger] spec_efields_model(s)[i] == (s[i].0@, spec_kind_model(*s[i].1.kind)) by {
            if i < s.len() - 1 {
                assert(s[i] == s.drop_last()[i]);
            }
        }
    }
}

/// The argument models line up with the arguments.
pub proof fn lemma_eargs_model(s: Seq<(Identifier, Expression)>)
    ensures
        spec_eargs_model(s).len() == s.len(),
        forall|i: int| 0 <= i < s.len() ==> #[trigger] spec_eargs_model(s)[i] == (s[i].0@, spec_kind_model(*s[i].1.kind)),
    decreases s.len(),
{
    if s.len() > 0 {
        lemma_eargs_model(s.drop_last());
        assert forall|i: int| 0 <= i < s.len() implies #[trigger] spec_eargs_model(s)[i] == (s[i].0@, spec_kind_model(*s[i].1.kind)) by {
            if i < s.len() - 1 {
                assert(s[i] == s.drop_last()[i]);
            }
        }
    }
}

} // verus!

verus! {

/// One step of building an expression record: a value charged, a check
/// that may fail, or names that must be distinct.
pub enum ExprStep {
    /// A value charged against the codec limits.
    Charge(Charge),
    /// A check, with the failure it reports, if any.
    Check(Option<ExpressionError>),
    /// Names that must be distinct.
    Distinct(Seq<Seq<char>>),
}

/// The outcome of one step.
pub open spec fn spec_estep(l: Limits, c: Counters, st: ExprStep) -> Result<Counters, ExpressionError> {
    match st {
        ExprStep::Charge(ch) => match spec_apply(l, c, ch) {
            Ok(d) => Ok(d),
            Err(e) => Err(ExpressionError::LimitExceeded { limit: e.limit, maximum: e.maximum }),
        },
        ExprStep::Check(f) => match f {
            Some(e) => Err(e),
            None => Ok(c),
        },
        ExprStep::Distinct(names) => if spec_names_distinct(names) {
            Ok(c)
        } else {
            Err(ExpressionError::Codec(spec_plain_error(ErrorKind::DuplicateMapKey)))
        },
    }
}

/// The outcome of steps in order; the first failure is reported.
pub open spec fn spec_erun(l: Limits, c: Counters, s: Seq<ExprStep>) -> Result<Counters, ExpressionError>
    decreases s.len(),
{
    if s.len() == 0 {
        Ok(c)
    } else {
        match spec_erun(l, c, s.drop_last()) {
            Ok(d) => spec_estep(l, d, s.last()),
            Err(e) => Err(e),
        }
    }
}

/// Running a concatenation runs its parts in turn.
pub proof fn lemma_erun_append(l: Limits, c: Counters, s: Seq<ExprStep>, t: Seq<ExprStep>)
    ensures
        spec_erun(l, c, s + t) == match spec_erun(l, c, s) {
            Ok(d) => spec_erun(l, d, t),
            Err(e) => Err(e),
        },
    decreases t.len(),
{
    if t.len() == 0 {
        assert(s + t =~= s);
    } else {
        lemma_erun_append(l, c, s, t.drop_last());
        assert((s + t).drop_last() =~= s + t.drop_last());
    }
}

/// A nonempty step sequence runs its first step, then the rest.
pub proof fn lemma_erun_front(l: Limits, c: Counters, s: Seq<ExprStep>)
    requires
        s.len() > 0,
    ensures
        spec_erun(l, c, s) == match spec_estep(l, c, s[0]) {
            Ok(d) => spec_erun(l, d, s.drop_first()),
            Err(e) => Err(e),
        },
{
    assert(s =~= seq![s[0]] + s.drop_first());
    lemma_erun_append(l, c, seq![s[0]], s.drop_first());
    assert(seq![s[0]].drop_last() =~= Seq::<ExprStep>::empty());
    assert(spec_erun(l, c, Seq::<ExprStep>::empty()) == Ok::<Counters, ExpressionError>(c));
    assert(seq![s[0]].last() == s[0]);
}

/// Charging a text of `t` at depth `d`.
pub open spec fn spec_etext(t: Seq<char>, d: int) -> ExprStep {
    ExprStep::Charge(Charge::Text { len: spec_utf8(t).len() as usize, depth: d as usize })
}

/// Charging a collection header of `len` entries at depth `d`.
pub open spec fn spec_ecoll(len: int, d: int) -> ExprStep {
    ExprStep::Charge(Charge::Collection { len: len as usize, depth: d as usize })
}

/// A tagged constructor array of `len` elements and its tag.
pub open spec fn spec_etagged(tag: Seq<char>, len: int, d: int) -> Seq<ExprStep> {
    seq![spec_ecoll(len, d), spec_etext(tag, d + 1)]
}

/// Whether a reference category may appear in a context, as the failure
/// to report when it may not.
pub open spec fn spec_ref_check(r: RefModel, c: ExpressionContext) -> Option<ExpressionError> {
    match r {
        RefModel::Input(_) => None,
        RefModel::Output(_, _) => if c is Guard || c == ExpressionContext::LoopUntil {
            None
        } else {
            Some(ExpressionError::ForbiddenReference("output"))
        },
        RefModel::ScopeOutput(_) => if c == ExpressionContext::PrimitivePostconditions
            || c == ExpressionContext::ScopePostconditions || c == ExpressionContext::WrapperPostconditions
            || c == ExpressionContext::LoopUntil || c == ExpressionContext::LoopPostconditions {
            None
        } else {
            Some(ExpressionError::ForbiddenReference("scope_output"))
        },
        RefModel::Carried(_) => if c == (ExpressionContext::Guard { loop_body: true }) || c == ExpressionContext::LoopUntil {
            None
        } else {
            Some(ExpressionError::ForbiddenReference("carried"))
        },
        RefModel::Next(_) => if c == ExpressionContext::LoopUntil {
            None
        } else {
            Some(ExpressionError::ForbiddenReference("next"))
        },
    }
}

/// Whether node outcomes may be inspected in a context.
pub open spec fn spec_outcome_check(c: ExpressionContext) -> Option<ExpressionError> {
    if c is Guard || c == ExpressionContext::ScopePostconditions || c == ExpressionContext::LoopUntil {
        None
    } else {
        Some(ExpressionError::ForbiddenReference("node outcome"))
    }
}

/// The steps of a scalar at depth `d`.
pub open spec fn spec_scalar_steps(s: ScalarModel, d: int) -> Seq<ExprStep> {
    match s {
        ScalarModel::String(t) => seq![spec_etext(t, d)],
        ScalarModel::Integer(n) => seq![ExprStep::Charge(Charge::Integer { value: n, depth: d as usize })],
        ScalarModel::Float(bits) => seq![ExprStep::Charge(Charge::Float { bits, depth: d as usize })],
        ScalarModel::Boolean(_) => seq![ExprStep::Charge(Charge::Simple { depth: d as usize })],
        ScalarModel::Null => seq![ExprStep::Charge(Charge::Simple { depth: d as usize })],
        ScalarModel::Bytes(b) => seq![ExprStep::Charge(Charge::Bytes { len: b.len() as usize, depth: d as usize })],
    }
}

/// The steps of one path step at depth `d`; an index must fit a signed
/// 64-bit integer.
pub open spec fn spec_path_item_steps(p: StepModel, d: int) -> Seq<ExprStep> {
    match p {
        StepModel::Field(f) => seq![spec_etext(f, d)],
        StepModel::Index(n) => seq![ExprStep::Check(if n > i64::MAX as u64 { Some(ExpressionError::InvalidIndex) } else { None }),
            ExprStep::Charge(Charge::Integer { value: n as i64, depth: d as usize })],
    }
}

/// The steps of path steps at depth `d`, in order.
pub open spec fn spec_path_items_steps(p: Seq<StepModel>, d: int) -> Seq<ExprStep>
    decreases p.len(),
{
    if p.len() == 0 {
        Seq::empty()
    } else {
        spec_path_item_steps(p[0], d) + spec_path_items_steps(p.drop_first(), d)
    }
}

/// The steps of a path at depth `d`: its header, then each step.
pub open spec fn spec_path_steps(p: Seq<StepModel>, d: int) -> Seq<ExprStep> {
    seq![spec_ecoll(p.len() as int, d)] + spec_path_items_steps(p, d + 1)
}

/// The tag of a single-name reference.
pub open spec fn spec_ref_tag(r: RefModel) -> Seq<char> {
    match r {
        RefModel::Input(_) => "input"@,
        RefModel::Output(_, _) => "output"@,
        RefModel::ScopeOutput(_) => "scope_output"@,
        RefModel::Carried(_) => "carried"@,
        RefModel::Next(_) => "next"@,
    }
}

/// The name of a single-name reference.
pub open spec fn spec_ref_name(r: RefModel) -> Seq<char> {
    match r {
        RefModel::Input(n) => n,
        RefModel::Output(n, _) => n,
        RefModel::ScopeOutput(n) => n,
        RefModel::Carried(n) => n,
        RefModel::Next(n) => n,
    }
}

/// The steps of a reference at depth `d`: its context check, then its record.
pub open spec fn spec_ref_steps(r: RefModel, c: ExpressionContext, d: int) -> Seq<ExprStep> {
    seq![ExprStep::Check(spec_ref_check(r, c))] + (match r {
        RefModel::Output(node, port) => spec_etagged("output"@, 3, d) + seq![spec_etext(node, d + 1), spec_etext(port, d + 1)],
        _ => spec_etagged(spec_ref_tag(r), 2, d) + seq![spec_etext(spec_ref_name(r), d + 1)],
    })
}

/// The spelling of a core function.
pub open spec fn spec_core_name(f: CoreFunction) -> Seq<char> {
    match f {
        CoreFunction::Length => "length"@,
        CoreFunction::Present => "present"@,
    }
}

/// The steps of a function identity at depth `d`.
pub open spec fn spec_fn_steps(f: FnModel, d: int) -> Seq<ExprStep> {
    match f {
        FnModel::Core(c) => spec_etagged("core"@, 2, d) + seq![spec_etext(spec_core_name(c), d + 1)],
        FnModel::Library(b, n) => spec_etagged("library"@, 3, d) + seq![spec_etext(spec_digest_text(b), d + 1), spec_etext(n, d + 1)],
    }
}

/// The steps of building the record of an expression at depth `d` in
/// context `c`: each value before its children, checks where they fall.
pub open spec fn spec_expr_steps(m: ExprModel, c: ExpressionContext, d: int) -> Seq<ExprStep>
    decreases m,
{
    match m {
        ExprModel::Literal(s) => spec_etagged("literal"@, 2, d) + spec_scalar_steps(s, d + 1),
        ExprModel::Regex(p, f) => spec_etagged("regex"@, 3, d) + seq![spec_etext(p, d + 1), spec_etext(f, d + 1)],
        ExprModel::Ref(r, p) => spec_etagged("ref"@, 3, d) + spec_ref_steps(r, c, d + 1) + spec_path_steps(p, d + 1),
        ExprModel::Get(v, p) => seq![ExprStep::Check(if p.len() == 0 {
            Some(ExpressionError::InvalidShape("nonempty get path"))
        } else {
            None
        })] + spec_etagged("get"@, 3, d) + spec_expr_steps(*v, c, d + 1) + spec_path_steps(p, d + 1),
        ExprModel::List(items) => spec_etagged("list"@, 2, d) + seq![spec_ecoll(items.len() as int, d + 1)]
            + spec_exprs_steps(items, c, d + 2),
        ExprModel::Record(fs) => spec_etagged("record"@, 2, d) + seq![spec_ecoll(fs.len() as int, d + 1)]
            + spec_efields_steps(fs, c, d + 2),
        ExprModel::Call(f, args) => seq![ExprStep::Check(if f is Core && args.len() != 1 {
            Some(ExpressionError::InvalidShape("core function arity"))
        } else {
            None
        })] + spec_etagged("call"@, 3, d) + spec_fn_steps(f, d + 1) + seq![spec_ecoll(args.len() as int, d + 1)]
            + spec_exprs_steps(args, c, d + 2),
        ExprModel::FunctionRef(b, n) => spec_etagged("function_ref"@, 3, d)
            + seq![spec_etext(spec_digest_text(b), d + 1), spec_etext(n, d + 1)],
        ExprModel::Render(t, args) => spec_etagged("render"@, 3, d)
            + seq![spec_etext(spec_digest_text(t), d + 1), spec_ecoll(args.len() as int, d + 1)]
            + spec_eargs_steps(args, c, d + 2)
            + seq![ExprStep::Distinct(args.map_values(|a: (Seq<char>, ExprModel)| a.0))],
        ExprModel::Status(n) => seq![ExprStep::Check(spec_outcome_check(c))] + spec_etagged("status"@, 2, d)
            + seq![spec_etext(n, d + 1)],
        ExprModel::Error(n) => seq![ExprStep::Check(spec_outcome_check(c))] + spec_etagged("error"@, 2, d)
            + seq![spec_etext(n, d + 1)],
        ExprModel::Not(x) => spec_etagged("not"@, 2, d) + spec_expr_steps(*x, c, d + 1),
        ExprModel::Binary(op, x, y) => spec_etagged(spec_operator_tag(op), 3, d) + spec_expr_steps(*x, c, d + 1)
            + spec_expr_steps(*y, c, d + 1),
    }
}

/// The steps of expressions at depth `d`, in order.
pub open spec fn spec_exprs_steps(s: Seq<ExprModel>, c: ExpressionContext, d: int) -> Seq<ExprStep>
    decreases s,
{
    if s.len() == 0 {
        Seq::empty()
    } else {
        spec_expr_steps(s[0], c, d) + spec_exprs_steps(s.drop_first(), c, d)
    }
}

/// The steps of record fields whose pairs stand at depth `d`: each pair
/// header and name, then the field's expression.
pub open spec fn spec_efields_steps(s: Seq<(Seq<char>, ExprModel)>, c: ExpressionContext, d: int) -> Seq<ExprStep>
    decreases s,
{
    if s.len() == 0 {
        Seq::empty()
    } else {
        seq![spec_ecoll(2, d), spec_etext(s[0].0, d + 1)] + spec_expr_steps(s[0].1, c, d + 1)
            + spec_efields_steps(s.drop_first(), c, d)
    }
}

/// The steps of named arguments at depth `d`: each name, then its expression.
pub open spec fn spec_eargs_steps(s: Seq<(Seq<char>, ExprModel)>, c: ExpressionContext, d: int) -> Seq<ExprStep>
    decreases s,
{
    if s.len() == 0 {
        Seq::empty()
    } else {
        seq![spec_etext(s[0].0, d)] + spec_expr_steps(s[0].1, c, d) + spec_eargs_steps(s.drop_first(), c, d)
    }
}

} // verus!

verus! {

/// `v` is the text `t`.
pub open spec fn spec_is_etext(v: Value, t: Seq<char>) -> bool {
    v matches Value::Text(s) && s@ == t
}

/// `v` is a tagged constructor array of `len` elements with tag `tag`.
pub open spec fn spec_etagged_value(v: Value, tag: Seq<char>, len: int) -> bool {
    v matches Value::Array(a) && a@.len() == len && spec_is_etext(a@[0], tag)
}

/// The `i`-th element of an array value.
pub open spec fn spec_eelem(v: Value, i: int) -> Value {
    match v {
        Value::Array(a) => a@[i],
        _ => Value::Null,
    }
}

/// `v` is the record of a scalar.
pub open spec fn spec_scalar_record(v: Value, s: ScalarModel) -> bool {
    match s {
        ScalarModel::String(t) => spec_is_etext(v, t),
        ScalarModel::Integer(n) => v == Value::Integer(n),
        ScalarModel::Float(bits) => v matches Value::Float(f) && f.bits == bits,
        ScalarModel::Boolean(b) => v == Value::Bool(b),
        ScalarModel::Null => v is Null,
        ScalarModel::Bytes(b) => v matches Value::Bytes(x) && x@ == b,
    }
}

/// `v` is the record of a path.
pub open spec fn spec_path_record(v: Value, p: Seq<StepModel>) -> bool {
    v matches Value::Array(a) && a@.len() == p.len() && forall|i: int| 0 <= i < p.len() ==> match p[i] {
        StepModel::Field(f) => spec_is_etext(#[trigger] a@[i], f),
        StepModel::Index(n) => a@[i] == Value::Integer(n as i64),
    }
}

/// `v` is the record of a reference.
pub open spec fn spec_ref_record(v: Value, r: RefModel) -> bool {
    match r {
        RefModel::Output(node, port) => spec_etagged_value(v, "output"@, 3) && spec_is_etext(spec_eelem(v, 1), node)
            && spec_is_etext(spec_eelem(v, 2), port),
        _ => spec_etagged_value(v, spec_ref_tag(r), 2) && spec_is_etext(spec_eelem(v, 1), spec_ref_name(r)),
    }
}

/// `v` is the record of a function identity.
pub open spec fn spec_fn_record(v: Value, f: FnModel) -> bool {
    match f {
        FnModel::Core(c) => spec_etagged_value(v, "core"@, 2) && spec_is_etext(spec_eelem(v, 1), spec_core_name(c)),
        FnModel::Library(b, n) => spec_etagged_value(v, "library"@, 3) && spec_is_etext(spec_eelem(v, 1), spec_digest_text(b))
            && spec_is_etext(spec_eelem(v, 2), n),
    }
}

/// `v` is the canonical record of the expression `m`: a tagged array whose
/// elements are the records of its parts; render arguments in canonical
/// key order.
pub open spec fn spec_expr_record(v: Value, m: ExprModel) -> bool
    decreases m,
{
    match m {
        ExprModel::Literal(s) => spec_etagged_value(v, "literal"@, 2) && spec_scalar_record(spec_eelem(v, 1), s),
        ExprModel::Regex(p, f) => spec_etagged_value(v, "regex"@, 3) && spec_is_etext(spec_eelem(v, 1), p)
            && spec_is_etext(spec_eelem(v, 2), f),
        ExprModel::Ref(r, p) => spec_etagged_value(v, "ref"@, 3) && spec_ref_record(spec_eelem(v, 1), r)
            && spec_path_record(spec_eelem(v, 2), p),
        ExprModel::Get(x, p) => spec_etagged_value(v, "get"@, 3) && spec_expr_record(spec_eelem(v, 1), *x)
            && spec_path_record(spec_eelem(v, 2), p),
        ExprModel::List(items) => spec_etagged_value(v, "list"@, 2) && match spec_eelem(v, 1) {
            Value::Array(a) => spec_exprs_records(a@, items),
            _ => false,
        },
        ExprModel::Record(fs) => spec_etagged_value(v, "record"@, 2) && match spec_eelem(v, 1) {
            Value::Array(a) => spec_efields_records(a@, fs),
            _ => false,
        },
        ExprModel::Call(f, args) => spec_etagged_value(v, "call"@, 3) && spec_fn_record(spec_eelem(v, 1), f)
            && match spec_eelem(v, 2) {
                Value::Array(a) => spec_exprs_records(a@, args),
                _ => false,
            },
        ExprModel::FunctionRef(b, n) => spec_etagged_value(v, "function_ref"@, 3)
            && spec_is_etext(spec_eelem(v, 1), spec_digest_text(b)) && spec_is_etext(spec_eelem(v, 2), n),
        ExprModel::Render(t, args) => spec_etagged_value(v, "render"@, 3)
            && spec_is_etext(spec_eelem(v, 1), spec_digest_text(t)) && match spec_eelem(v, 2) {
                Value::Object(map) => spec_keys_sorted(map.entries@) && exists|built: Seq<(String, Value)>|
                    #[trigger] built.to_multiset() == map.entries@.to_multiset() && spec_eargs_records(built, args),
                _ => false,
            },
        ExprModel::Status(n) => spec_etagged_value(v, "status"@, 2) && spec_is_etext(spec_eelem(v, 1), n),
        ExprModel::Error(n) => spec_etagged_value(v, "error"@, 2) && spec_is_etext(spec_eelem(v, 1), n),
        ExprModel::Not(x) => spec_etagged_value(v, "not"@, 2) && spec_expr_record(spec_eelem(v, 1), *x),
        ExprModel::Binary(op, x, y) => spec_etagged_value(v, spec_operator_tag(op), 3)
            && spec_expr_record(spec_eelem(v, 1), *x) && spec_expr_record(spec_eelem(v, 2), *y),
    }
}

/// Element `i` is the record of expression `i`.
pub open spec fn spec_exprs_records(vs: Seq<Value>, ms: Seq<ExprModel>) -> bool
    decreases ms,
{
    vs.len() == ms.len() && (ms.len() == 0 || (
        spec_exprs_records(vs.drop_last(), ms.drop_last()) && spec_expr_record(vs.last(), ms.last())))
}

/// Element `i` is the `[name, record]` pair of field `i`.
pub open spec fn spec_efields_records(vs: Seq<Value>, fs: Seq<(Seq<char>, ExprModel)>) -> bool
    decreases fs,
{
    vs.len() == fs.len() && (fs.len() == 0 || (
        spec_efields_records(vs.drop_last(), fs.drop_last())
        && (vs.last() matches Value::Array(p) && p@.len() == 2 && spec_is_etext(p@[0], fs.last().0))
        && spec_expr_record(spec_eelem(vs.last(), 1), fs.last().1)))
}

/// Entry `i` is argument `i`: its name and its record.
pub open spec fn spec_eargs_records(built: Seq<(String, Value)>, args: Seq<(Seq<char>, ExprModel)>) -> bool
    decreases args,
{
    built.len() == args.len() && (args.len() == 0 || (
        spec_eargs_records(built.drop_last(), args.drop_last())
        && built.last().0@ == args.last().0
        && spec_expr_record(built.last().1, args.last().1)))
}

/// Element `i` of expression records is the record of expression `i`.
pub proof fn lemma_exprs_records_index(vs: Seq<Value>, ms: Seq<ExprModel>)
    requires
        spec_exprs_records(vs, ms),
    ensures
        vs.len() == ms.len(),
        forall|i: int| 0 <= i < ms.len() ==> spec_expr_record(#[trigger] vs[i], ms[i]),
    decreases ms.len(),
{
    if ms.len() > 0 {
        lemma_exprs_records_index(vs.drop_last(), ms.drop_last());
        assert forall|i: int| 0 <= i < ms.len() implies spec_expr_record(#[trigger] vs[i], ms[i]) by {
            if i < ms.len() - 1 {
                assert(vs[i] == vs.drop_last()[i]);
                assert(ms[i] == ms.drop_last()[i]);
            }
        }
    }
}

/// Element `i` of record field records is the `[name, record]` pair of field `i`.
pub proof fn lemma_efields_records_index(vs: Seq<Value>, fs: Seq<(Seq<char>, ExprModel)>)
    requires
        spec_efields_records(vs, fs),
    ensures
        vs.len() == fs.len(),
        forall|i: int| 0 <= i < fs.len() ==> ((#[trigger] vs[i]) matches Value::Array(p) && p@.len() == 2
            && spec_is_etext(p@[0], fs[i].0)) && spec_expr_record(spec_eelem(vs[i], 1), fs[i].1),
    decreases fs.len(),
{
    if fs.len() > 0 {
        lemma_efields_records_index(vs.drop_last(), fs.drop_last());
        assert forall|i: int| 0 <= i < fs.len() implies ((#[trigger] vs[i]) matches Value::Array(p) && p@.len() == 2
            && spec_is_etext(p@[0], fs[i].0)) && spec_expr_record(spec_eelem(vs[i], 1), fs[i].1) by {
            if i < fs.len() - 1 {
                assert(vs[i] == vs.drop_last()[i]);
                assert(fs[i] == fs.drop_last()[i]);
            }
        }
    }
}

/// Entry `i` of built render arguments is argument `i`.
pub proof fn lemma_eargs_records_index(built: Seq<(String, Value)>, args: Seq<(Seq<char>, ExprModel)>)
    requires
        spec_eargs_records(built, args),
    ensures
        built.len() == args.len(),
        forall|i: int| 0 <= i < args.len() ==> (#[trigger] built[i]).0@ == args[i].0 && spec_expr_record(built[i].1, args[i].1),
    decreases args.len(),
{
    if args.len() > 0 {
        lemma_eargs_records_index(built.drop_last(), args.drop_last());
        assert forall|i: int| 0 <= i < args.len() implies (#[trigger] built[i]).0@ == args[i].0 && spec_expr_record(built[i].1, args[i].1) by {
            if i < args.len() - 1 {
                assert(built[i] == built.drop_last()[i]);
                assert(args[i] == args.drop_last()[i]);
            }
        }
    }
}

} // verus!
