//! Building canonical expression records, bounding every value before it is
//! produced.

use vstd::prelude::*;
use vstd::string::*;

use super::model::{
    lemma_efields_model, lemma_eargs_model, lemma_erun_append, lemma_erun_front, lemma_exprs_model, spec_eargs_model,
    spec_eargs_records, spec_eargs_steps, spec_ecoll, spec_efields_model, spec_efields_records, spec_efields_steps,
    spec_erun, spec_estep, spec_etagged, spec_etext, spec_expr_model, spec_expr_record, spec_expr_steps, spec_exprs_model,
    spec_exprs_records, spec_exprs_steps, spec_fn_model, spec_fn_record, spec_fn_steps, spec_core_name, spec_is_etext,
    spec_kind_model, spec_outcome_check, spec_path_item_steps, spec_path_items_steps, spec_path_model, spec_path_record,
    spec_path_steps, spec_ref_check, spec_ref_model, spec_ref_name, spec_ref_record, spec_ref_steps, spec_ref_tag,
    spec_scalar_model, spec_scalar_record, spec_scalar_steps, spec_etagged_value, spec_eelem, ExprModel, ExprStep, StepModel,
    lemma_eargs_records_index,
};
use super::{
    CoreFunction, Expression, ExpressionContext, ExpressionError, ExpressionKind, FunctionId, PathStep, ScalarLiteral,
    ValueReference,
};
use crate::cbor::value::{spec_utf8, Value, ValueMap};
use crate::record_accounting::{Charge, RecordAccounting};

verus! {

/// The depth a charge is made at.
pub open spec fn spec_charge_depth(ch: Charge) -> usize {
    match ch {
        Charge::Collection { depth, .. } => depth,
        Charge::Text { depth, .. } => depth,
        Charge::Integer { depth, .. } => depth,
        Charge::Simple { depth } => depth,
        Charge::Float { depth, .. } => depth,
        Charge::Bytes { depth, .. } => depth,
    }
}

/// Charges one value.
fn echarge(acc: &mut RecordAccounting, ch: Charge) -> (res: Result<(), ExpressionError>)
    ensures
        final(acc).limits == old(acc).limits,
        match spec_estep(*old(acc).limits, old(acc).counters(), ExprStep::Charge(ch)) {
            Ok(c) => res is Ok && final(acc).counters() == c,
            Err(e) => res == Err::<(), ExpressionError>(e),
        },
        res is Ok ==> spec_charge_depth(ch) <= old(acc).limits.max_depth,
{
    match acc.apply(ch) {
        Ok(()) => Ok(()),
        Err(e) => Err(ExpressionError::LimitExceeded { limit: e.limit, maximum: e.maximum }),
    }
}

/// Charges and produces one text value.
fn etext_value(acc: &mut RecordAccounting, t: &str, d: usize) -> (res: Result<Value, ExpressionError>)
    ensures
        final(acc).limits == old(acc).limits,
        match spec_estep(*old(acc).limits, old(acc).counters(), spec_etext(t@, d as int)) {
            Ok(c) => res matches Ok(v) && final(acc).counters() == c && spec_is_etext(v, t@),
            Err(e) => res == Err::<Value, ExpressionError>(e),
        },
        res is Ok ==> d <= old(acc).limits.max_depth,
{
    let len = t.as_bytes().len();
    assert(len == spec_utf8(t@).len());
    echarge(acc, Charge::Text { len, depth: d })?;
    Ok(Value::Text(String::from_str(t)))
}

/// Charges a constructor header and its tag, producing the tag.
fn etagged(acc: &mut RecordAccounting, tag: &str, len: usize, d: usize) -> (res: Result<Value, ExpressionError>)
    requires
        old(acc).limits.spec_valid(),
    ensures
        final(acc).limits == old(acc).limits,
        match spec_erun(*old(acc).limits, old(acc).counters(), spec_etagged(tag@, len as int, d as int)) {
            Ok(c) => res matches Ok(v) && final(acc).counters() == c && spec_is_etext(v, tag@),
            Err(e) => res == Err::<Value, ExpressionError>(e),
        },
        res is Ok ==> d + 1 <= old(acc).limits.max_depth,
{
    let ghost l = *acc.limits;
    let ghost mut rem = spec_etagged(tag@, len as int, d as int);
    proof { lemma_erun_front(l, acc.counters(), rem); }
    echarge(acc, Charge::Collection { len, depth: d })?;
    proof { rem = rem.drop_first(); lemma_erun_front(l, acc.counters(), rem); }
    let v = etext_value(acc, tag, d + 1)?;
    proof { rem = rem.drop_first(); assert(rem.len() == 0); }
    Ok(v)
}

/// Runs a check step.
fn echeck(r: Option<ExpressionError>) -> (res: Result<(), ExpressionError>)
    ensures
        match r {
            Some(e) => res == Err::<(), ExpressionError>(e),
            None => res is Ok,
        },
{
    match r {
        Some(e) => Err(e),
        None => Ok(()),
    }
}

/// Whether a reference category may appear in a context.
pub(crate) fn ref_check(r: &ValueReference, c: ExpressionContext) -> (res: Option<ExpressionError>)
    ensures
        res == spec_ref_check(spec_ref_model(*r), c),
{
    match r {
        ValueReference::Input(_) => None,
        ValueReference::Output { .. } => match c {
            ExpressionContext::Guard { .. } | ExpressionContext::LoopUntil => None,
            _ => Some(ExpressionError::ForbiddenReference("output")),
        },
        ValueReference::ScopeOutput(_) => match c {
            ExpressionContext::PrimitivePostconditions | ExpressionContext::ScopePostconditions
            | ExpressionContext::WrapperPostconditions | ExpressionContext::LoopUntil
            | ExpressionContext::LoopPostconditions => None,
            _ => Some(ExpressionError::ForbiddenReference("scope_output")),
        },
        ValueReference::Carried(_) => match c {
            ExpressionContext::Guard { loop_body: true } | ExpressionContext::LoopUntil => None,
            _ => Some(ExpressionError::ForbiddenReference("carried")),
        },
        ValueReference::Next(_) => match c {
            ExpressionContext::LoopUntil => None,
            _ => Some(ExpressionError::ForbiddenReference("next")),
        },
    }
}

/// Whether node outcomes may be inspected in a context.
pub(crate) fn outcome_check(c: ExpressionContext) -> (res: Option<ExpressionError>)
    ensures
        res == spec_outcome_check(c),
{
    match c {
        ExpressionContext::Guard { .. } | ExpressionContext::ScopePostconditions | ExpressionContext::LoopUntil => None,
        _ => Some(ExpressionError::ForbiddenReference("node outcome")),
    }
}

/// Charges and produces a scalar at depth `d`.
fn build_scalar(acc: &mut RecordAccounting, s: &ScalarLiteral, d: usize) -> (res: Result<Value, ExpressionError>)
    ensures
        final(acc).limits == old(acc).limits,
        match spec_erun(*old(acc).limits, old(acc).counters(), spec_scalar_steps(spec_scalar_model(*s), d as int)) {
            Ok(c) => res matches Ok(v) && final(acc).counters() == c && spec_scalar_record(v, spec_scalar_model(*s)),
            Err(e) => res == Err::<Value, ExpressionError>(e),
        },
{
    let ghost l = *acc.limits;
    proof { lemma_erun_front(l, acc.counters(), spec_scalar_steps(spec_scalar_model(*s), d as int)); }
    match s {
        ScalarLiteral::String(t) => etext_value(acc, t.as_str(), d),
        ScalarLiteral::Integer(n) => {
            echarge(acc, Charge::Integer { value: *n, depth: d })?;
            Ok(Value::Integer(*n))
        },
        ScalarLiteral::Float(f) => {
            echarge(acc, Charge::Float { bits: f.bits, depth: d })?;
            Ok(Value::Float(*f))
        },
        ScalarLiteral::Boolean(b) => {
            echarge(acc, Charge::Simple { depth: d })?;
            Ok(Value::Bool(*b))
        },
        ScalarLiteral::Null => {
            echarge(acc, Charge::Simple { depth: d })?;
            Ok(Value::Null)
        },
        ScalarLiteral::Bytes(b) => {
            echarge(acc, Charge::Bytes { len: b.len(), depth: d })?;
            let mut copy: Vec<u8> = Vec::new();
            let mut i: usize = 0;
            while i < b.len()
                invariant
                    i <= b@.len(),
                    copy@ == b@.take(i as int),
                decreases b@.len() - i,
            {
                copy.push(b[i]);
                proof { assert(b@.take(i + 1) =~= b@.take(i as int).push(b@[i as int])); }
                i = i + 1;
            }
            proof { assert(b@.take(b@.len() as int) =~= b@); }
            Ok(Value::Bytes(copy))
        },
    }
}

/// Charges and produces a path at depth `d`: its header, then each step.
fn build_path(acc: &mut RecordAccounting, p: &Vec<PathStep>, d: usize) -> (res: Result<Value, ExpressionError>)
    requires
        old(acc).limits.spec_valid(),
    ensures
        final(acc).limits == old(acc).limits,
        match spec_erun(*old(acc).limits, old(acc).counters(), spec_path_steps(spec_path_model(p@), d as int)) {
            Ok(c) => res matches Ok(v) && final(acc).counters() == c && spec_path_record(v, spec_path_model(p@)),
            Err(e) => res == Err::<Value, ExpressionError>(e),
        },
{
    let ghost l = *acc.limits;
    let ghost ps = spec_path_model(p@);
    let ghost start = acc.counters();
    proof { lemma_erun_front(l, acc.counters(), spec_path_steps(ps, d as int)); }
    echarge(acc, Charge::Collection { len: p.len(), depth: d })?;
    let ghost mut rem = spec_path_items_steps(ps, d + 1);
    proof {
        assert(spec_path_steps(ps, d as int).drop_first() =~= rem);
        assert(ps.subrange(0, ps.len() as int) =~= ps);
    }
    let mut items: Vec<Value> = Vec::new();
    let mut i: usize = 0;
    while i < p.len()
        invariant
            acc.limits == old(acc).limits,
            l == *acc.limits,
            ps == spec_path_model(p@),
            start == old(acc).counters(),
            i <= p@.len(),
            l.spec_valid(),
            d <= l.max_depth,
            spec_erun(l, start, spec_path_steps(ps, d as int)) == spec_erun(l, acc.counters(), rem),
            rem == spec_path_items_steps(ps.subrange(i as int, ps.len() as int), d + 1),
            items@.len() == i,
            forall|k: int| 0 <= k < i ==> match ps[k] {
                StepModel::Field(f) => spec_is_etext(#[trigger] items@[k], f),
                StepModel::Index(n) => items@[k] == Value::Integer(n as i64),
            },
        decreases p@.len() - i,
    {
        let ghost next = spec_path_items_steps(ps.subrange(i + 1, ps.len() as int), d + 1);
        proof {
            let sub = ps.subrange(i as int, ps.len() as int);
            assert(sub[0] == ps[i as int]);
            assert(sub.drop_first() =~= ps.subrange(i + 1, ps.len() as int));
            assert(rem =~= spec_path_item_steps(ps[i as int], d + 1) + next);
            lemma_erun_front(l, acc.counters(), rem);
        }
        let v = match &p[i] {
            PathStep::Field(f) => {
                proof { assert(rem.drop_first() =~= next); }
                etext_value(acc, f.as_str(), d + 1)?
            },
            PathStep::Index(n) => {
                if *n > i64::MAX as u64 {
                    return Err(ExpressionError::InvalidIndex);
                }
                proof {
                    rem = rem.drop_first();
                    lemma_erun_front(l, acc.counters(), rem);
                    assert(rem.drop_first() =~= next);
                }
                let x = *n as i64;
                echarge(acc, Charge::Integer { value: x, depth: d + 1 })?;
                Value::Integer(x)
            },
        };
        items.push(v);
        proof { rem = next; }
        i = i + 1;
    }
    proof { assert(ps.subrange(ps.len() as int, ps.len() as int) =~= Seq::<StepModel>::empty()); }
    Ok(Value::Array(items))
}

/// Charges and produces a reference at depth `d`, after its context check.
fn build_ref(acc: &mut RecordAccounting, c: ExpressionContext, r: &ValueReference, d: usize) -> (res: Result<Value, ExpressionError>)
    requires
        old(acc).limits.spec_valid(),
    ensures
        final(acc).limits == old(acc).limits,
        match spec_erun(*old(acc).limits, old(acc).counters(), spec_ref_steps(spec_ref_model(*r), c, d as int)) {
            Ok(x) => res matches Ok(v) && final(acc).counters() == x && spec_ref_record(v, spec_ref_model(*r)),
            Err(e) => res == Err::<Value, ExpressionError>(e),
        },
{
    let ghost l = *acc.limits;
    let ghost m = spec_ref_model(*r);
    let ghost mut rem = spec_ref_steps(m, c, d as int);
    proof { lemma_erun_front(l, acc.counters(), rem); }
    echeck(ref_check(r, c))?;
    proof { rem = rem.drop_first(); }
    match r {
        ValueReference::Output { node, port } => {
            proof { assert(rem =~= spec_etagged("output"@, 3, d as int) + seq![spec_etext(node@, d + 1), spec_etext(port@, d + 1)]); }
            build_three(acc, "output", node.as_str(), port.as_str(), d)
        },
        _ => {
            let (tag, name) = match r {
                ValueReference::Input(n) => ("input", n),
                ValueReference::ScopeOutput(n) => ("scope_output", n),
                ValueReference::Carried(n) => ("carried", n),
                ValueReference::Next(n) => ("next", n),
                ValueReference::Output { node, .. } => ("output", node),
            };
            proof {
                assert(tag@ == spec_ref_tag(m));
                assert(name@ == spec_ref_name(m));
                assert(rem =~= spec_etagged(tag@, 2, d as int) + seq![spec_etext(name@, d + 1)]);
            }
            build_two(acc, tag, name.as_str(), d)
        },
    }
}

/// Charges and produces a function identity at depth `d`.
fn build_fn(acc: &mut RecordAccounting, f: &FunctionId, d: usize) -> (res: Result<Value, ExpressionError>)
    requires
        old(acc).limits.spec_valid(),
    ensures
        final(acc).limits == old(acc).limits,
        match spec_erun(*old(acc).limits, old(acc).counters(), spec_fn_steps(spec_fn_model(*f), d as int)) {
            Ok(x) => res matches Ok(v) && final(acc).counters() == x && spec_fn_record(v, spec_fn_model(*f)),
            Err(e) => res == Err::<Value, ExpressionError>(e),
        },
{
    match f {
        FunctionId::Core(cf) => {
            let name = match cf {
                CoreFunction::Length => "length",
                CoreFunction::Present => "present",
            };
            assert(name@ == spec_core_name(*cf));
            build_two(acc, "core", name, d)
        },
        FunctionId::Library { library, name } => {
            let text = library.to_text();
            build_three(acc, "library", text.as_str(), name.as_str(), d)
        },
    }
}

/// Charges and produces `[tag, a]` at depth `d`.
fn build_two(acc: &mut RecordAccounting, tag: &str, a: &str, d: usize) -> (res: Result<Value, ExpressionError>)
    requires
        old(acc).limits.spec_valid(),
    ensures
        final(acc).limits == old(acc).limits,
        match spec_erun(*old(acc).limits, old(acc).counters(), spec_etagged(tag@, 2, d as int) + seq![spec_etext(a@, d + 1)]) {
            Ok(x) => res matches Ok(v) && final(acc).counters() == x && spec_etagged_value(v, tag@, 2)
                && spec_is_etext(spec_eelem(v, 1), a@),
            Err(e) => res == Err::<Value, ExpressionError>(e),
        },
{
    let ghost l = *acc.limits;
    let ghost rest = seq![spec_etext(a@, d + 1)];
    proof { lemma_erun_append(l, acc.counters(), spec_etagged(tag@, 2, d as int), rest); }
    let t = etagged(acc, tag, 2, d)?;
    proof { lemma_erun_front(l, acc.counters(), rest); }
    let x = etext_value(acc, a, d + 1)?;
    let mut v: Vec<Value> = Vec::new();
    v.push(t);
    v.push(x);
    Ok(Value::Array(v))
}

/// Charges and produces `[tag, a, b]` at depth `d`.
fn build_three(acc: &mut RecordAccounting, tag: &str, a: &str, b: &str, d: usize) -> (res: Result<Value, ExpressionError>)
    requires
        old(acc).limits.spec_valid(),
    ensures
        final(acc).limits == old(acc).limits,
        match spec_erun(*old(acc).limits, old(acc).counters(),
            spec_etagged(tag@, 3, d as int) + seq![spec_etext(a@, d + 1), spec_etext(b@, d + 1)]) {
            Ok(x) => res matches Ok(v) && final(acc).counters() == x && spec_etagged_value(v, tag@, 3)
                && spec_is_etext(spec_eelem(v, 1), a@) && spec_is_etext(spec_eelem(v, 2), b@),
            Err(e) => res == Err::<Value, ExpressionError>(e),
        },
{
    let ghost l = *acc.limits;
    let ghost rest = seq![spec_etext(a@, d + 1), spec_etext(b@, d + 1)];
    proof { lemma_erun_append(l, acc.counters(), spec_etagged(tag@, 3, d as int), rest); }
    let t = etagged(acc, tag, 3, d)?;
    proof { lemma_erun_front(l, acc.counters(), rest); }
    let x = etext_value(acc, a, d + 1)?;
    proof { lemma_erun_front(l, acc.counters(), rest.drop_first()); assert(rest.drop_first().drop_first().len() == 0); }
    let y = etext_value(acc, b, d + 1)?;
    let mut v: Vec<Value> = Vec::new();
    v.push(t);
    v.push(x);
    v.push(y);
    Ok(Value::Array(v))
}

} // verus!

verus! {

/// Builds the canonical record of an expression at depth `d` in context `c`.
pub fn build_expr(acc: &mut RecordAccounting, c: ExpressionContext, e: &Expression, d: usize) -> (res: Result<Value, ExpressionError>)
    requires
        old(acc).limits.spec_valid(),
    ensures
        final(acc).limits == old(acc).limits,
        match spec_erun(*old(acc).limits, old(acc).counters(), spec_expr_steps(spec_expr_model(*e), c, d as int)) {
            Ok(x) => res matches Ok(v) && final(acc).counters() == x && spec_expr_record(v, spec_expr_model(*e)),
            Err(err) => res == Err::<Value, ExpressionError>(err),
        },
    decreases e, 1nat,
{
    match &*e.kind {
        ExpressionKind::Literal(s) => build_literal(acc, c, s, d),
        ExpressionKind::Regex { pattern, flags } => build_three(acc, "regex", pattern.as_str(), flags.as_str(), d),
        ExpressionKind::Ref { source, path } => build_ref_expr(acc, c, source, path, d),
        ExpressionKind::Get { .. } => build_get(acc, c, e, d),
        ExpressionKind::List(_) => build_list(acc, c, e, d),
        ExpressionKind::Record(_) => build_record(acc, c, e, d),
        ExpressionKind::Call { .. } => build_call(acc, c, e, d),
        ExpressionKind::FunctionRef { library, name } => {
            let text = library.to_text();
            build_three(acc, "function_ref", text.as_str(), name.as_str(), d)
        },
        ExpressionKind::Render { .. } => build_render(acc, c, e, d),
        ExpressionKind::Status(n) => build_outcome(acc, c, "status", n, d),
        ExpressionKind::Error(n) => build_outcome(acc, c, "error", n, d),
        ExpressionKind::Not(_) => build_not(acc, c, e, d),
        ExpressionKind::Binary { .. } => build_binary(acc, c, e, d),
    }
}

/// Builds a literal constructor.
fn build_literal(acc: &mut RecordAccounting, c: ExpressionContext, s: &ScalarLiteral, d: usize) -> (res: Result<Value, ExpressionError>)
    requires
        old(acc).limits.spec_valid(),
    ensures
        final(acc).limits == old(acc).limits,
        match spec_erun(*old(acc).limits, old(acc).counters(), spec_expr_steps(ExprModel::Literal(spec_scalar_model(*s)), c, d as int)) {
            Ok(x) => res matches Ok(v) && final(acc).counters() == x && spec_expr_record(v, ExprModel::Literal(spec_scalar_model(*s))),
            Err(err) => res == Err::<Value, ExpressionError>(err),
        },
{
    let ghost l = *acc.limits;
    proof { lemma_erun_append(l, acc.counters(), spec_etagged("literal"@, 2, d as int), spec_scalar_steps(spec_scalar_model(*s), d + 1)); }
    let t = etagged(acc, "literal", 2, d)?;
    let x = build_scalar(acc, s, d + 1)?;
    let mut v: Vec<Value> = Vec::new();
    v.push(t);
    v.push(x);
    Ok(Value::Array(v))
}

} // verus!

verus! {

/// Builds a reference constructor: the reference, then its path.
fn build_ref_expr(acc: &mut RecordAccounting, c: ExpressionContext, r: &ValueReference, p: &Vec<PathStep>, d: usize)
    -> (res: Result<Value, ExpressionError>)
    requires
        old(acc).limits.spec_valid(),
    ensures
        final(acc).limits == old(acc).limits,
        match spec_erun(*old(acc).limits, old(acc).counters(),
            spec_expr_steps(ExprModel::Ref(spec_ref_model(*r), spec_path_model(p@)), c, d as int)) {
            Ok(x) => res matches Ok(v) && final(acc).counters() == x
                && spec_expr_record(v, ExprModel::Ref(spec_ref_model(*r), spec_path_model(p@))),
            Err(err) => res == Err::<Value, ExpressionError>(err),
        },
{
    let ghost l = *acc.limits;
    let ghost rs = spec_ref_steps(spec_ref_model(*r), c, d + 1);
    let ghost ps = spec_path_steps(spec_path_model(p@), d + 1);
    proof {
        assert(spec_expr_steps(ExprModel::Ref(spec_ref_model(*r), spec_path_model(p@)), c, d as int)
            =~= spec_etagged("ref"@, 3, d as int) + (rs + ps));
        lemma_erun_append(l, acc.counters(), spec_etagged("ref"@, 3, d as int), rs + ps);
    }
    let t = etagged(acc, "ref", 3, d)?;
    proof { lemma_erun_append(l, acc.counters(), rs, ps); }
    let x = build_ref(acc, c, r, d + 1)?;
    let y = build_path(acc, p, d + 1)?;
    let mut v: Vec<Value> = Vec::new();
    v.push(t);
    v.push(x);
    v.push(y);
    Ok(Value::Array(v))
}

/// Builds a node outcome inspection, after its context check.
fn build_outcome(acc: &mut RecordAccounting, c: ExpressionContext, tag: &str, n: &crate::identifier::Identifier, d: usize)
    -> (res: Result<Value, ExpressionError>)
    requires
        old(acc).limits.spec_valid(),
        tag@ == "status"@ || tag@ == "error"@,
    ensures
        final(acc).limits == old(acc).limits,
        match spec_erun(*old(acc).limits, old(acc).counters(),
            seq![ExprStep::Check(spec_outcome_check(c))] + spec_etagged(tag@, 2, d as int) + seq![spec_etext(n@, d + 1)]) {
            Ok(x) => res matches Ok(v) && final(acc).counters() == x && spec_etagged_value(v, tag@, 2)
                && spec_is_etext(spec_eelem(v, 1), n@),
            Err(err) => res == Err::<Value, ExpressionError>(err),
        },
{
    let ghost l = *acc.limits;
    let ghost all = seq![ExprStep::Check(spec_outcome_check(c))] + spec_etagged(tag@, 2, d as int) + seq![spec_etext(n@, d + 1)];
    proof {
        lemma_erun_front(l, acc.counters(), all);
        assert(all.drop_first() =~= spec_etagged(tag@, 2, d as int) + seq![spec_etext(n@, d + 1)]);
    }
    echeck(outcome_check(c))?;
    build_two(acc, tag, n.as_str(), d)
}

/// Builds a negation.
fn build_not(acc: &mut RecordAccounting, c: ExpressionContext, e: &Expression, d: usize) -> (res: Result<Value, ExpressionError>)
    requires
        old(acc).limits.spec_valid(),
        *e.kind is Not,
    ensures
        final(acc).limits == old(acc).limits,
        match spec_erun(*old(acc).limits, old(acc).counters(), spec_expr_steps(spec_expr_model(*e), c, d as int)) {
            Ok(x) => res matches Ok(v) && final(acc).counters() == x && spec_expr_record(v, spec_expr_model(*e)),
            Err(err) => res == Err::<Value, ExpressionError>(err),
        },
    decreases e, 0nat,
{
    let ghost l = *acc.limits;
    let x = match &*e.kind {
        ExpressionKind::Not(x) => x,
        _ => { proof { assert(false); } return Err(ExpressionError::AllocationFailed); },
    };
    proof { lemma_erun_append(l, acc.counters(), spec_etagged("not"@, 2, d as int), spec_expr_steps(spec_expr_model(**x), c, d + 1)); }
    let t = etagged(acc, "not", 2, d)?;
    let y = build_expr(acc, c, &**x, d + 1)?;
    let mut v: Vec<Value> = Vec::new();
    v.push(t);
    v.push(y);
    Ok(Value::Array(v))
}

/// Builds a binary operator: left operand, then right.
fn build_binary(acc: &mut RecordAccounting, c: ExpressionContext, e: &Expression, d: usize) -> (res: Result<Value, ExpressionError>)
    requires
        old(acc).limits.spec_valid(),
        *e.kind is Binary,
    ensures
        final(acc).limits == old(acc).limits,
        match spec_erun(*old(acc).limits, old(acc).counters(), spec_expr_steps(spec_expr_model(*e), c, d as int)) {
            Ok(x) => res matches Ok(v) && final(acc).counters() == x && spec_expr_record(v, spec_expr_model(*e)),
            Err(err) => res == Err::<Value, ExpressionError>(err),
        },
    decreases e, 0nat,
{
    let ghost l = *acc.limits;
    let (op, x, y) = match &*e.kind {
        ExpressionKind::Binary { operator, left, right } => (*operator, left, right),
        _ => { proof { assert(false); } return Err(ExpressionError::AllocationFailed); },
    };
    let ghost xs = spec_expr_steps(spec_expr_model(**x), c, d + 1);
    let ghost ys = spec_expr_steps(spec_expr_model(**y), c, d + 1);
    proof {
        assert(spec_expr_steps(spec_expr_model(*e), c, d as int) =~= spec_etagged(super::spec_operator_tag(op), 3, d as int) + (xs + ys));
        lemma_erun_append(l, acc.counters(), spec_etagged(super::spec_operator_tag(op), 3, d as int), xs + ys);
    }
    let t = etagged(acc, op.as_str(), 3, d)?;
    proof { lemma_erun_append(l, acc.counters(), xs, ys); }
    let a = build_expr(acc, c, &**x, d + 1)?;
    let b = build_expr(acc, c, &**y, d + 1)?;
    let mut v: Vec<Value> = Vec::new();
    v.push(t);
    v.push(a);
    v.push(b);
    Ok(Value::Array(v))
}

/// Builds a projection of a computed value; the path must be nonempty.
fn build_get(acc: &mut RecordAccounting, c: ExpressionContext, e: &Expression, d: usize) -> (res: Result<Value, ExpressionError>)
    requires
        old(acc).limits.spec_valid(),
        *e.kind is Get,
    ensures
        final(acc).limits == old(acc).limits,
        match spec_erun(*old(acc).limits, old(acc).counters(), spec_expr_steps(spec_expr_model(*e), c, d as int)) {
            Ok(x) => res matches Ok(v) && final(acc).counters() == x && spec_expr_record(v, spec_expr_model(*e)),
            Err(err) => res == Err::<Value, ExpressionError>(err),
        },
    decreases e, 0nat,
{
    let ghost l = *acc.limits;
    let (x, p) = match &*e.kind {
        ExpressionKind::Get { value, path } => (value, path),
        _ => { proof { assert(false); } return Err(ExpressionError::AllocationFailed); },
    };
    let ghost xs = spec_expr_steps(spec_expr_model(**x), c, d + 1);
    let ghost ps = spec_path_steps(spec_path_model(p@), d + 1);
    let ghost check = ExprStep::Check(if spec_path_model(p@).len() == 0 {
        Some(ExpressionError::InvalidShape("nonempty get path"))
    } else {
        None
    });
    proof {
        assert(spec_expr_steps(spec_expr_model(*e), c, d as int) =~= seq![check] + (spec_etagged("get"@, 3, d as int) + (xs + ps)));
        lemma_erun_front(l, acc.counters(), seq![check] + (spec_etagged("get"@, 3, d as int) + (xs + ps)));
        assert((seq![check] + (spec_etagged("get"@, 3, d as int) + (xs + ps))).drop_first() =~= spec_etagged("get"@, 3, d as int) + (xs + ps));
    }
    if p.len() == 0 {
        return Err(ExpressionError::InvalidShape("nonempty get path"));
    }
    proof { lemma_erun_append(l, acc.counters(), spec_etagged("get"@, 3, d as int), xs + ps); }
    let t = etagged(acc, "get", 3, d)?;
    proof { lemma_erun_append(l, acc.counters(), xs, ps); }
    let a = build_expr(acc, c, &**x, d + 1)?;
    let b = build_path(acc, p, d + 1)?;
    let mut v: Vec<Value> = Vec::new();
    v.push(t);
    v.push(a);
    v.push(b);
    Ok(Value::Array(v))
}

} // verus!

verus! {

/// Builds each expression at depth `d`, in order.
fn build_exprs(acc: &mut RecordAccounting, c: ExpressionContext, items: &Vec<Expression>, d: usize)
    -> (res: Result<Vec<Value>, ExpressionError>)
    requires
        old(acc).limits.spec_valid(),
    ensures
        final(acc).limits == old(acc).limits,
        match spec_erun(*old(acc).limits, old(acc).counters(), spec_exprs_steps(spec_exprs_model(items@), c, d as int)) {
            Ok(x) => res matches Ok(vs) && final(acc).counters() == x && spec_exprs_records(vs@, spec_exprs_model(items@)),
            Err(err) => res == Err::<Vec<Value>, ExpressionError>(err),
        },
    decreases items, 0nat,
{
    let ghost l = *acc.limits;
    let ghost ms = spec_exprs_model(items@);
    let ghost start = acc.counters();
    proof {
        lemma_exprs_model(items@);
        assert(ms.skip(0) =~= ms);
        assert(ms.take(0) =~= Seq::<ExprModel>::empty());
    }
    let mut vs: Vec<Value> = Vec::new();
    let mut i: usize = 0;
    while i < items.len()
        invariant
            acc.limits == old(acc).limits,
            l == *acc.limits,
            l.spec_valid(),
            start == old(acc).counters(),
            i <= items@.len(),
            ms == spec_exprs_model(items@),
            ms.len() == items@.len(),
            forall|k: int| 0 <= k < items@.len() ==> #[trigger] ms[k] == spec_kind_model(*items@[k].kind),
            spec_erun(l, start, spec_exprs_steps(ms, c, d as int))
                == spec_erun(l, acc.counters(), spec_exprs_steps(ms.skip(i as int), c, d as int)),
            spec_exprs_records(vs@, ms.take(i as int)),
        decreases items@.len() - i,
    {
        proof {
            assert(ms.skip(i as int).drop_first() =~= ms.skip(i + 1));
            assert(ms.skip(i as int)[0] == ms[i as int]);
            lemma_erun_append(l, acc.counters(), spec_expr_steps(ms[i as int], c, d as int), spec_exprs_steps(ms.skip(i + 1), c, d as int));
        }
        let v = build_expr(acc, c, &items[i], d)?;
        let ghost before = vs@;
        vs.push(v);
        proof {
            assert(ms.take(i + 1).drop_last() =~= ms.take(i as int));
            assert(vs@.drop_last() =~= before);
        }
        i = i + 1;
    }
    proof {
        assert(ms.skip(i as int) =~= Seq::<ExprModel>::empty());
        assert(ms.take(i as int) =~= ms);
    }
    Ok(vs)
}

/// Builds a list constructor: its header, then each element.
fn build_list(acc: &mut RecordAccounting, c: ExpressionContext, e: &Expression, d: usize) -> (res: Result<Value, ExpressionError>)
    requires
        old(acc).limits.spec_valid(),
        *e.kind is List,
    ensures
        final(acc).limits == old(acc).limits,
        match spec_erun(*old(acc).limits, old(acc).counters(), spec_expr_steps(spec_expr_model(*e), c, d as int)) {
            Ok(x) => res matches Ok(v) && final(acc).counters() == x && spec_expr_record(v, spec_expr_model(*e)),
            Err(err) => res == Err::<Value, ExpressionError>(err),
        },
    decreases e, 0nat,
{
    let ghost l = *acc.limits;
    let items = match &*e.kind {
        ExpressionKind::List(items) => items,
        _ => { proof { assert(false); } return Err(ExpressionError::AllocationFailed); },
    };
    let ghost ms = spec_exprs_model(items@);
    let ghost rest = seq![spec_ecoll(ms.len() as int, d + 1)] + spec_exprs_steps(ms, c, d + 2);
    proof {
        lemma_exprs_model(items@);
        assert(spec_expr_steps(spec_expr_model(*e), c, d as int) =~= spec_etagged("list"@, 2, d as int) + rest);
        lemma_erun_append(l, acc.counters(), spec_etagged("list"@, 2, d as int), rest);
    }
    let t = etagged(acc, "list", 2, d)?;
    proof {
        lemma_erun_front(l, acc.counters(), rest);
        assert(rest.drop_first() =~= spec_exprs_steps(ms, c, d + 2));
    }
    echarge(acc, Charge::Collection { len: items.len(), depth: d + 1 })?;
    let vs = build_exprs(acc, c, items, d + 2)?;
    let mut v: Vec<Value> = Vec::new();
    v.push(t);
    v.push(Value::Array(vs));
    Ok(Value::Array(v))
}

/// Builds a call: its arity check, identity, then each argument.
fn build_call(acc: &mut RecordAccounting, c: ExpressionContext, e: &Expression, d: usize) -> (res: Result<Value, ExpressionError>)
    requires
        old(acc).limits.spec_valid(),
        *e.kind is Call,
    ensures
        final(acc).limits == old(acc).limits,
        match spec_erun(*old(acc).limits, old(acc).counters(), spec_expr_steps(spec_expr_model(*e), c, d as int)) {
            Ok(x) => res matches Ok(v) && final(acc).counters() == x && spec_expr_record(v, spec_expr_model(*e)),
            Err(err) => res == Err::<Value, ExpressionError>(err),
        },
    decreases e, 0nat,
{
    let ghost l = *acc.limits;
    let (f, args) = match &*e.kind {
        ExpressionKind::Call { function, arguments } => (function, arguments),
        _ => { proof { assert(false); } return Err(ExpressionError::AllocationFailed); },
    };
    let ghost fm = spec_fn_model(*f);
    let ghost ms = spec_exprs_model(args@);
    let ghost fs = spec_fn_steps(fm, d + 1);
    let ghost tail = seq![spec_ecoll(ms.len() as int, d + 1)] + spec_exprs_steps(ms, c, d + 2);
    let ghost check = ExprStep::Check(if fm is Core && ms.len() != 1 {
        Some(ExpressionError::InvalidShape("core function arity"))
    } else {
        None
    });
    proof {
        lemma_exprs_model(args@);
        assert(spec_expr_steps(spec_expr_model(*e), c, d as int)
            =~= seq![check] + (spec_etagged("call"@, 3, d as int) + (fs + tail)));
        lemma_erun_front(l, acc.counters(), seq![check] + (spec_etagged("call"@, 3, d as int) + (fs + tail)));
        assert((seq![check] + (spec_etagged("call"@, 3, d as int) + (fs + tail))).drop_first()
            =~= spec_etagged("call"@, 3, d as int) + (fs + tail));
    }
    let core = match f {
        FunctionId::Core(_) => true,
        _ => false,
    };
    if core && args.len() != 1 {
        return Err(ExpressionError::InvalidShape("core function arity"));
    }
    proof { lemma_erun_append(l, acc.counters(), spec_etagged("call"@, 3, d as int), fs + tail); }
    let t = etagged(acc, "call", 3, d)?;
    proof { lemma_erun_append(l, acc.counters(), fs, tail); }
    let fv = build_fn(acc, f, d + 1)?;
    proof {
        lemma_erun_front(l, acc.counters(), tail);
        assert(tail.drop_first() =~= spec_exprs_steps(ms, c, d + 2));
    }
    echarge(acc, Charge::Collection { len: args.len(), depth: d + 1 })?;
    let vs = build_exprs(acc, c, args, d + 2)?;
    let mut v: Vec<Value> = Vec::new();
    v.push(t);
    v.push(fv);
    v.push(Value::Array(vs));
    Ok(Value::Array(v))
}

} // verus!

verus! {

/// Builds each record field's `[name, expression]` pair at depth `d`.
fn build_efields(acc: &mut RecordAccounting, c: ExpressionContext, fields: &Vec<(String, Expression)>, d: usize)
    -> (res: Result<Vec<Value>, ExpressionError>)
    requires
        old(acc).limits.spec_valid(),
    ensures
        final(acc).limits == old(acc).limits,
        match spec_erun(*old(acc).limits, old(acc).counters(), spec_efields_steps(spec_efields_model(fields@), c, d as int)) {
            Ok(x) => res matches Ok(vs) && final(acc).counters() == x && spec_efields_records(vs@, spec_efields_model(fields@)),
            Err(err) => res == Err::<Vec<Value>, ExpressionError>(err),
        },
    decreases fields, 0nat,
{
    let ghost l = *acc.limits;
    let ghost ms = spec_efields_model(fields@);
    let ghost start = acc.counters();
    proof {
        lemma_efields_model(fields@);
        assert(ms.skip(0) =~= ms);
        assert(ms.take(0) =~= Seq::<(Seq<char>, ExprModel)>::empty());
    }
    let mut vs: Vec<Value> = Vec::new();
    let mut i: usize = 0;
    while i < fields.len()
        invariant
            acc.limits == old(acc).limits,
            l == *acc.limits,
            l.spec_valid(),
            start == old(acc).counters(),
            i <= fields@.len(),
            ms == spec_efields_model(fields@),
            ms.len() == fields@.len(),
            forall|k: int| 0 <= k < fields@.len() ==> #[trigger] ms[k] == (fields@[k].0@, spec_kind_model(*fields@[k].1.kind)),
            spec_erun(l, start, spec_efields_steps(ms, c, d as int))
                == spec_erun(l, acc.counters(), spec_efields_steps(ms.skip(i as int), c, d as int)),
            spec_efields_records(vs@, ms.take(i as int)),
        decreases fields@.len() - i,
    {
        let ghost mi = ms[i as int];
        let ghost head = seq![spec_ecoll(2, d as int), spec_etext(mi.0, d + 1)];
        proof {
            assert(ms.skip(i as int).drop_first() =~= ms.skip(i + 1));
            assert(ms.skip(i as int)[0] == mi);
            assert(spec_efields_steps(ms.skip(i as int), c, d as int)
                =~= head + (spec_expr_steps(mi.1, c, d + 1) + spec_efields_steps(ms.skip(i + 1), c, d as int)));
            lemma_erun_append(l, acc.counters(), head, spec_expr_steps(mi.1, c, d + 1) + spec_efields_steps(ms.skip(i + 1), c, d as int));
            lemma_erun_front(l, acc.counters(), head);
        }
        echarge(acc, Charge::Collection { len: 2, depth: d })?;
        proof { lemma_erun_front(l, acc.counters(), head.drop_first()); assert(head.drop_first().drop_first().len() == 0); }
        let name = etext_value(acc, fields[i].0.as_str(), d + 1)?;
        proof {
            lemma_erun_append(l, acc.counters(), spec_expr_steps(mi.1, c, d + 1), spec_efields_steps(ms.skip(i + 1), c, d as int));
        }
        let x = build_expr(acc, c, &fields[i].1, d + 1)?;
        let mut pair: Vec<Value> = Vec::new();
        pair.push(name);
        pair.push(x);
        let ghost before = vs@;
        vs.push(Value::Array(pair));
        proof {
            assert(ms.take(i + 1).drop_last() =~= ms.take(i as int));
            assert(vs@.drop_last() =~= before);
        }
        i = i + 1;
    }
    proof {
        assert(ms.skip(i as int) =~= Seq::<(Seq<char>, ExprModel)>::empty());
        assert(ms.take(i as int) =~= ms);
    }
    Ok(vs)
}

/// Builds a record constructor: its header, then each field pair.
fn build_record(acc: &mut RecordAccounting, c: ExpressionContext, e: &Expression, d: usize) -> (res: Result<Value, ExpressionError>)
    requires
        old(acc).limits.spec_valid(),
        *e.kind is Record,
    ensures
        final(acc).limits == old(acc).limits,
        match spec_erun(*old(acc).limits, old(acc).counters(), spec_expr_steps(spec_expr_model(*e), c, d as int)) {
            Ok(x) => res matches Ok(v) && final(acc).counters() == x && spec_expr_record(v, spec_expr_model(*e)),
            Err(err) => res == Err::<Value, ExpressionError>(err),
        },
    decreases e, 0nat,
{
    let ghost l = *acc.limits;
    let fields = match &*e.kind {
        ExpressionKind::Record(fields) => fields,
        _ => { proof { assert(false); } return Err(ExpressionError::AllocationFailed); },
    };
    let ghost ms = spec_efields_model(fields@);
    let ghost rest = seq![spec_ecoll(ms.len() as int, d + 1)] + spec_efields_steps(ms, c, d + 2);
    proof {
        lemma_efields_model(fields@);
        assert(spec_expr_steps(spec_expr_model(*e), c, d as int) =~= spec_etagged("record"@, 2, d as int) + rest);
        lemma_erun_append(l, acc.counters(), spec_etagged("record"@, 2, d as int), rest);
    }
    let t = etagged(acc, "record", 2, d)?;
    proof {
        lemma_erun_front(l, acc.counters(), rest);
        assert(rest.drop_first() =~= spec_efields_steps(ms, c, d + 2));
    }
    echarge(acc, Charge::Collection { len: fields.len(), depth: d + 1 })?;
    let vs = build_efields(acc, c, fields, d + 2)?;
    let mut v: Vec<Value> = Vec::new();
    v.push(t);
    v.push(Value::Array(vs));
    Ok(Value::Array(v))
}

/// Builds each named argument at depth `d`: its name, then its expression.
fn build_eargs(acc: &mut RecordAccounting, c: ExpressionContext, args: &Vec<(crate::identifier::Identifier, Expression)>, d: usize)
    -> (res: Result<Vec<(String, Value)>, ExpressionError>)
    requires
        old(acc).limits.spec_valid(),
    ensures
        final(acc).limits == old(acc).limits,
        match spec_erun(*old(acc).limits, old(acc).counters(), spec_eargs_steps(spec_eargs_model(args@), c, d as int)) {
            Ok(x) => res matches Ok(built) && final(acc).counters() == x && spec_eargs_records(built@, spec_eargs_model(args@)),
            Err(err) => res == Err::<Vec<(String, Value)>, ExpressionError>(err),
        },
    decreases args, 0nat,
{
    let ghost l = *acc.limits;
    let ghost ms = spec_eargs_model(args@);
    let ghost start = acc.counters();
    proof {
        lemma_eargs_model(args@);
        assert(ms.skip(0) =~= ms);
        assert(ms.take(0) =~= Seq::<(Seq<char>, ExprModel)>::empty());
    }
    let mut built: Vec<(String, Value)> = Vec::new();
    let mut i: usize = 0;
    while i < args.len()
        invariant
            acc.limits == old(acc).limits,
            l == *acc.limits,
            l.spec_valid(),
            start == old(acc).counters(),
            i <= args@.len(),
            ms == spec_eargs_model(args@),
            ms.len() == args@.len(),
            forall|k: int| 0 <= k < args@.len() ==> #[trigger] ms[k] == (args@[k].0@, spec_kind_model(*args@[k].1.kind)),
            spec_erun(l, start, spec_eargs_steps(ms, c, d as int))
                == spec_erun(l, acc.counters(), spec_eargs_steps(ms.skip(i as int), c, d as int)),
            spec_eargs_records(built@, ms.take(i as int)),
        decreases args@.len() - i,
    {
        let ghost mi = ms[i as int];
        let ghost rest = spec_expr_steps(mi.1, c, d as int) + spec_eargs_steps(ms.skip(i + 1), c, d as int);
        proof {
            assert(ms.skip(i as int).drop_first() =~= ms.skip(i + 1));
            assert(ms.skip(i as int)[0] == mi);
            assert(spec_eargs_steps(ms.skip(i as int), c, d as int) =~= seq![spec_etext(mi.0, d as int)] + rest);
            lemma_erun_front(l, acc.counters(), seq![spec_etext(mi.0, d as int)] + rest);
            assert((seq![spec_etext(mi.0, d as int)] + rest).drop_first() =~= rest);
        }
        let name = args[i].0.as_str();
        let len = name.as_bytes().len();
        assert(len == spec_utf8(name@).len());
        echarge(acc, Charge::Text { len, depth: d })?;
        proof {
            lemma_erun_append(l, acc.counters(), spec_expr_steps(mi.1, c, d as int), spec_eargs_steps(ms.skip(i + 1), c, d as int));
        }
        let x = build_expr(acc, c, &args[i].1, d)?;
        let ghost before = built@;
        built.push((String::from_str(name), x));
        proof {
            assert(ms.take(i + 1).drop_last() =~= ms.take(i as int));
            assert(built@.drop_last() =~= before);
        }
        i = i + 1;
    }
    proof {
        assert(ms.skip(i as int) =~= Seq::<(Seq<char>, ExprModel)>::empty());
        assert(ms.take(i as int) =~= ms);
    }
    Ok(built)
}

/// Builds a render constructor: the template digest, then each named
/// argument; the names must be distinct.
fn build_render(acc: &mut RecordAccounting, c: ExpressionContext, e: &Expression, d: usize) -> (res: Result<Value, ExpressionError>)
    requires
        old(acc).limits.spec_valid(),
        *e.kind is Render,
    ensures
        final(acc).limits == old(acc).limits,
        match spec_erun(*old(acc).limits, old(acc).counters(), spec_expr_steps(spec_expr_model(*e), c, d as int)) {
            Ok(x) => res matches Ok(v) && final(acc).counters() == x && spec_expr_record(v, spec_expr_model(*e)),
            Err(err) => res == Err::<Value, ExpressionError>(err),
        },
    decreases e, 0nat,
{
    let ghost l = *acc.limits;
    let (template, args) = match &*e.kind {
        ExpressionKind::Render { template, arguments } => (template, arguments),
        _ => { proof { assert(false); } return Err(ExpressionError::AllocationFailed); },
    };
    let ghost ms = spec_eargs_model(args@);
    let text = template.to_text();
    let ghost mid = seq![spec_etext(text@, d + 1), spec_ecoll(ms.len() as int, d + 1)];
    let ghost body = spec_eargs_steps(ms, c, d + 2);
    let ghost last = seq![ExprStep::Distinct(ms.map_values(|a: (Seq<char>, ExprModel)| a.0))];
    proof {
        lemma_eargs_model(args@);
        assert(spec_expr_steps(spec_expr_model(*e), c, d as int) =~= spec_etagged("render"@, 3, d as int) + (mid + (body + last)));
        lemma_erun_append(l, acc.counters(), spec_etagged("render"@, 3, d as int), mid + (body + last));
    }
    let t = etagged(acc, "render", 3, d)?;
    proof {
        lemma_erun_front(l, acc.counters(), mid + (body + last));
        assert((mid + (body + last)).drop_first() =~= seq![spec_ecoll(ms.len() as int, d + 1)] + (body + last));
    }
    let dv = etext_value(acc, text.as_str(), d + 1)?;
    proof {
        lemma_erun_front(l, acc.counters(), seq![spec_ecoll(ms.len() as int, d + 1)] + (body + last));
        assert((seq![spec_ecoll(ms.len() as int, d + 1)] + (body + last)).drop_first() =~= body + last);
    }
    echarge(acc, Charge::Collection { len: args.len(), depth: d + 1 })?;
    proof { lemma_erun_append(l, acc.counters(), body, last); }
    let built = build_eargs(acc, c, args, d + 2)?;
    proof {
        lemma_erun_front(l, acc.counters(), last);
        lemma_eargs_records_index(built@, ms);
        let names = ms.map_values(|a: (Seq<char>, ExprModel)| a.0);
        assert forall|i: int| 0 <= i < built@.len() implies #[trigger] built@[i].0@ == names[i] by {}
        if crate::cbor::map::spec_keys_distinct(built@) {
            assert forall|i: int, j: int| 0 <= i < j < names.len() implies spec_utf8(#[trigger] names[i]) != spec_utf8(#[trigger] names[j]) by {
                assert(built@[i].0@ == names[i]);
                assert(built@[j].0@ == names[j]);
            }
        }
        if crate::types::model::spec_names_distinct(names) {
            assert forall|i: int, j: int| 0 <= i < j < built@.len() implies spec_utf8(#[trigger] built@[i].0@) != spec_utf8(#[trigger] built@[j].0@) by {
                assert(built@[i].0@ == names[i]);
                assert(built@[j].0@ == names[j]);
            }
        }
    }
    let ghost built_view = built@;
    let m = match ValueMap::try_from_entries(built) {
        Ok(m) => m,
        Err(err) => return Err(ExpressionError::Codec(err)),
    };
    proof { assert(built_view.to_multiset() == m.entries@.to_multiset()); }
    let mut v: Vec<Value> = Vec::new();
    v.push(t);
    v.push(dv);
    v.push(Value::Object(m));
    Ok(Value::Array(v))
}

} // verus!

