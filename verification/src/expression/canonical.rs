//! Canonical expressions: the shapes that normalizing produces, and the
//! law that their records read back unchanged.

use vstd::prelude::*;
use vstd::string::*;

use super::model::{
    lemma_eargs_records_index, lemma_efields_records_index, lemma_exprs_records_index, spec_core_name, spec_eelem,
    spec_etagged_value, spec_expr_record, spec_fn_record, spec_is_etext, spec_outcome_check, spec_path_record,
    spec_ref_check, spec_ref_name, spec_ref_record, spec_ref_tag, spec_scalar_record, ExprModel, FnModel, RefModel,
    ScalarModel, StepModel,
};
use super::reader::{
    spec_canonical_flags, spec_expr_arity, spec_flags_mask, spec_read_digest, spec_read_fn, spec_read_name,
    spec_read_path, spec_read_ref, spec_read_scalar, spec_read_steps,
};
use super::{CoreFunction, ExpressionContext, ExpressionError};
use crate::cbor::value::{spec_utf8, Value};
use crate::digest::spec_digest_text;
use crate::identifier::spec_identifier_error;
use crate::metadata::spec_named_sorted;

verus! {

/// A name that is a valid identifier.
pub open spec fn spec_name_ok(n: Seq<char>) -> bool {
    spec_identifier_error(spec_utf8(n)) is None
}

/// A path step whose index fits a signed 64-bit integer.
pub open spec fn spec_step_ok(s: StepModel) -> bool {
    match s {
        StepModel::Field(_) => true,
        StepModel::Index(n) => n <= 0x7fff_ffff_ffff_ffffu64,
    }
}

/// A path whose indexes all fit a signed 64-bit integer.
pub open spec fn spec_path_ok(p: Seq<StepModel>) -> bool {
    forall|i: int| 0 <= i < p.len() ==> spec_step_ok(#[trigger] p[i])
}

/// A reference whose names are identifiers.
pub open spec fn spec_ref_ok(r: RefModel) -> bool {
    match r {
        RefModel::Output(node, port) => spec_name_ok(node) && spec_name_ok(port),
        _ => spec_name_ok(spec_ref_name(r)),
    }
}

/// A function identity with a full digest and an identifier name.
pub open spec fn spec_fn_ok(f: FnModel) -> bool {
    match f {
        FnModel::Core(_) => true,
        FnModel::Library(b, n) => b.len() == 32 && spec_name_ok(n),
    }
}

/// Regex flags that are known, unrepeated and in `ims` order.
pub open spec fn spec_flags_ok(f: Seq<char>) -> bool {
    spec_flags_mask(spec_utf8(f)) matches Some(k) && f == spec_canonical_flags(k)
}

} // verus!

verus! {

/// Reading the text of an identifier gives it back.
proof fn lemma_name_reads(v: Value, n: Seq<char>)
    requires
        spec_is_etext(v, n),
        spec_name_ok(n),
    ensures
        spec_read_name(v) == Ok::<Seq<char>, ExpressionError>(n),
{
}

/// Reading the text of a digest gives back its bytes.
proof fn lemma_digest_reads(v: Value, b: Seq<u8>)
    requires
        spec_is_etext(v, spec_digest_text(b)),
        b.len() == 32,
    ensures
        spec_read_digest(v) == Ok::<Seq<u8>, ExpressionError>(b),
{
    crate::digest::lemma_digest_text_roundtrip(b);
}

/// Reading the record of a scalar gives it back.
proof fn lemma_scalar_reads(v: Value, s: ScalarModel)
    requires
        spec_scalar_record(v, s),
    ensures
        spec_read_scalar(v) == Ok::<ScalarModel, ExpressionError>(s),
{
}

/// Reading a prefix of path step records gives back that prefix of the path.
proof fn lemma_steps_read(a: Seq<Value>, p: Seq<StepModel>, k: int)
    requires
        a.len() == p.len(),
        0 <= k <= p.len(),
        spec_path_ok(p),
        forall|i: int| 0 <= i < p.len() ==> match p[i] {
            StepModel::Field(f) => spec_is_etext(#[trigger] a[i], f),
            StepModel::Index(n) => a[i] == Value::Integer(n as i64),
        },
    ensures
        spec_read_steps(a.take(k)) == Ok::<Seq<StepModel>, ExpressionError>(p.take(k)),
    decreases k,
{
    if k > 0 {
        lemma_steps_read(a, p, k - 1);
        assert(a.take(k).drop_last() =~= a.take(k - 1));
        assert(a.take(k).last() == a[k - 1]);
        assert(spec_step_ok(p[k - 1]));
        match p[k - 1] {
            StepModel::Field(f) => {},
            StepModel::Index(n) => {
                assert(n <= 0x7fff_ffff_ffff_ffffu64);
                assert((n as i64) as int == n as int);
                assert(((n as i64) as u64) == n);
            },
        }
        assert(p.take(k - 1).push(p[k - 1]) =~= p.take(k));
    } else {
        assert(a.take(0) =~= Seq::<Value>::empty());
        assert(p.take(0) =~= Seq::<StepModel>::empty());
    }
}

/// Reading the record of a path gives it back.
proof fn lemma_path_reads(v: Value, p: Seq<StepModel>)
    requires
        spec_path_record(v, p),
        spec_path_ok(p),
    ensures
        spec_read_path(v) == Ok::<Seq<StepModel>, ExpressionError>(p),
{
    let a = v->Array_0@;
    lemma_steps_read(a, p, p.len() as int);
    assert(a.take(p.len() as int) =~= a);
    assert(p.take(p.len() as int) =~= p);
}

/// Reading the record of an allowed reference gives it back.
proof fn lemma_ref_reads(v: Value, r: RefModel, c: ExpressionContext)
    requires
        spec_ref_record(v, r),
        spec_ref_ok(r),
        spec_ref_check(r, c) is None,
    ensures
        spec_read_ref(v, c) == Ok::<RefModel, ExpressionError>(r),
{
    reveal_strlit("input");
    reveal_strlit("output");
    reveal_strlit("scope_output");
    reveal_strlit("carried");
    reveal_strlit("next");
    assert("input"@.len() == 5);
    assert("output"@.len() == 6);
    assert("scope_output"@.len() == 12);
    assert("carried"@.len() == 7);
    assert("next"@.len() == 4);
    let a = v->Array_0@;
    assert(spec_eelem(v, 1) == a[1]);
    match r {
        RefModel::Output(node, port) => {
            assert(spec_eelem(v, 2) == a[2]);
            lemma_name_reads(a[1], node);
            lemma_name_reads(a[2], port);
        },
        _ => {
            let tag = spec_ref_tag(r);
            assert(tag != "output"@);
            lemma_name_reads(a[1], spec_ref_name(r));
        },
    }
}

/// Reading the record of a function identity gives it back.
proof fn lemma_fn_reads(v: Value, f: FnModel)
    requires
        spec_fn_record(v, f),
        spec_fn_ok(f),
    ensures
        spec_read_fn(v) == Ok::<FnModel, ExpressionError>(f),
{
    reveal_strlit("core");
    reveal_strlit("library");
    reveal_strlit("length");
    reveal_strlit("present");
    assert("core"@.len() == 4);
    assert("library"@.len() == 7);
    assert("length"@.len() == 6);
    assert("present"@.len() == 7);
    let a = v->Array_0@;
    assert(spec_eelem(v, 1) == a[1]);
    match f {
        FnModel::Core(k) => {
            assert("core"@ != "library"@);
            assert(spec_core_name(k) == "length"@ || spec_core_name(k) == "present"@);
            assert("length"@ != "present"@);
        },
        FnModel::Library(b, n) => {
            assert(spec_eelem(v, 2) == a[2]);
            assert("core"@ != "library"@);
            lemma_digest_reads(a[1], b);
            lemma_name_reads(a[2], n);
        },
    }
}

} // verus!

verus! {

/// A canonical expression in context `c`: every reference and outcome
/// allowed there, every name an identifier, every digest whole, projections
/// nonempty and never of a reference or projection, record fields and render
/// arguments in strict UTF-8 name order, regex flags in `ims` order, and core
/// calls with one argument.
pub open spec fn spec_expr_wf(m: ExprModel, c: ExpressionContext) -> bool
    decreases m,
{
    match m {
        ExprModel::Literal(_) => true,
        ExprModel::Regex(_, f) => spec_flags_ok(f),
        ExprModel::Ref(r, p) => spec_ref_check(r, c) is None && spec_ref_ok(r) && spec_path_ok(p),
        ExprModel::Get(x, p) => !(*x is Ref) && !(*x is Get) && p.len() > 0 && spec_path_ok(p) && spec_expr_wf(*x, c),
        ExprModel::List(items) => forall|i: int| 0 <= i < items.len() ==> spec_expr_wf(#[trigger] items[i], c),
        ExprModel::Record(fs) => spec_named_sorted(fs)
            && forall|i: int| 0 <= i < fs.len() ==> spec_expr_wf(#[trigger] fs[i].1, c),
        ExprModel::Call(f, args) => spec_fn_ok(f) && (f is Core ==> args.len() == 1)
            && forall|i: int| 0 <= i < args.len() ==> spec_expr_wf(#[trigger] args[i], c),
        ExprModel::FunctionRef(b, n) => b.len() == 32 && spec_name_ok(n),
        ExprModel::Render(t, args) => t.len() == 32 && spec_named_sorted(args)
            && forall|i: int| 0 <= i < args.len() ==> spec_name_ok(#[trigger] args[i].0) && spec_expr_wf(args[i].1, c),
        ExprModel::Status(n) => spec_outcome_check(c) is None && spec_name_ok(n),
        ExprModel::Error(n) => spec_outcome_check(c) is None && spec_name_ok(n),
        ExprModel::Not(x) => spec_expr_wf(*x, c),
        ExprModel::Binary(_, x, y) => spec_expr_wf(*x, c) && spec_expr_wf(*y, c),
    }
}

} // verus!

verus! {

/// The spellings of the expression tags, by length and distinguishing
/// characters.
proof fn lemma_tag_facts()
    ensures
        "literal"@.len() == 7 && "list"@.len() == 4 && "record"@.len() == 6 && "status"@.len() == 6,
        "error"@.len() == 5 && "not"@.len() == 3 && "regex"@.len() == 5 && "ref"@.len() == 3,
        "get"@.len() == 3 && "call"@.len() == 4 && "function_ref"@.len() == 12 && "render"@.len() == 6,
        "and"@.len() == 3 && "or"@.len() == 2 && "eq"@.len() == 2 && "ne"@.len() == 2,
        "lt"@.len() == 2 && "le"@.len() == 2 && "gt"@.len() == 2 && "ge"@.len() == 2,
        "list"@[0] == 'l' && "call"@[0] == 'c',
        "record"@[0] == 'r' && "status"@[0] == 's' && "render"@[0] == 'r' && "record"@[2] == 'c' && "render"@[2] == 'n',
        "error"@[0] == 'e' && "regex"@[0] == 'r',
        "not"@[0] == 'n' && "ref"@[0] == 'r' && "get"@[0] == 'g' && "and"@[0] == 'a',
        "or"@[0] == 'o' && "eq"@[0] == 'e' && "ne"@[0] == 'n' && "lt"@[0] == 'l' && "le"@[0] == 'l',
        "gt"@[0] == 'g' && "ge"@[0] == 'g' && "lt"@[1] == 't' && "le"@[1] == 'e' && "gt"@[1] == 't' && "ge"@[1] == 'e',
{
    reveal_strlit("literal");
    reveal_strlit("list");
    reveal_strlit("record");
    reveal_strlit("status");
    reveal_strlit("error");
    reveal_strlit("not");
    reveal_strlit("regex");
    reveal_strlit("ref");
    reveal_strlit("get");
    reveal_strlit("call");
    reveal_strlit("function_ref");
    reveal_strlit("render");
    reveal_strlit("and");
    reveal_strlit("or");
    reveal_strlit("eq");
    reveal_strlit("ne");
    reveal_strlit("lt");
    reveal_strlit("le");
    reveal_strlit("gt");
    reveal_strlit("ge");
}

/// Reading records each of which reads back gives back the expressions.
proof fn lemma_exprs_read(vs: Seq<Value>, ms: Seq<ExprModel>, c: ExpressionContext, normalize: bool)
    requires
        vs.len() == ms.len(),
        forall|i: int| 0 <= i < ms.len() ==> super::reader::spec_read_expr(#[trigger] vs[i], c, normalize)
            == Ok::<ExprModel, ExpressionError>(ms[i]),
    ensures
        super::reader::spec_read_exprs(vs, c, normalize) == Ok::<Seq<ExprModel>, ExpressionError>(ms),
    decreases ms.len(),
{
    if ms.len() > 0 {
        assert forall|i: int| 0 <= i < ms.len() - 1 implies super::reader::spec_read_expr(#[trigger] vs.drop_last()[i], c, normalize)
            == Ok::<ExprModel, ExpressionError>(ms.drop_last()[i]) by {
            assert(vs.drop_last()[i] == vs[i]);
        }
        lemma_exprs_read(vs.drop_last(), ms.drop_last(), c, normalize);
        assert(vs.last() == vs[ms.len() - 1]);
        assert(ms.drop_last().push(ms.last()) =~= ms);
    } else {
        assert(ms =~= Seq::<ExprModel>::empty());
    }
}

/// Reading field pairs each of which reads back gives back the fields.
proof fn lemma_efields_read(vs: Seq<Value>, fs: Seq<(Seq<char>, ExprModel)>, c: ExpressionContext, normalize: bool)
    requires
        vs.len() == fs.len(),
        forall|i: int| 0 <= i < fs.len() ==> ((#[trigger] vs[i]) matches Value::Array(p) && p@.len() == 2
            && spec_is_etext(p@[0], fs[i].0)
            && super::reader::spec_read_expr(p@[1], c, normalize) == Ok::<ExprModel, ExpressionError>(fs[i].1)),
    ensures
        super::reader::spec_read_efields(vs, c, normalize) == Ok::<Seq<(Seq<char>, ExprModel)>, ExpressionError>(fs),
    decreases fs.len(),
{
    if fs.len() > 0 {
        assert forall|i: int| 0 <= i < fs.len() - 1 implies ((#[trigger] vs.drop_last()[i]) matches Value::Array(p)
            && p@.len() == 2 && spec_is_etext(p@[0], fs.drop_last()[i].0)
            && super::reader::spec_read_expr(p@[1], c, normalize) == Ok::<ExprModel, ExpressionError>(fs.drop_last()[i].1)) by {
            assert(vs.drop_last()[i] == vs[i]);
            assert(fs.drop_last()[i] == fs[i]);
        }
        lemma_efields_read(vs.drop_last(), fs.drop_last(), c, normalize);
        assert(vs.last() == vs[fs.len() - 1]);
        assert(fs.last() == fs[fs.len() - 1]);
        assert(fs.drop_last().push(fs.last()) =~= fs);
    } else {
        assert(fs =~= Seq::<(Seq<char>, ExprModel)>::empty());
    }
}

/// Reading argument entries each of which reads back gives back the arguments.
proof fn lemma_eargs_read(e: Seq<(String, Value)>, r: Seq<(Seq<char>, ExprModel)>, c: ExpressionContext, normalize: bool)
    requires
        e.len() == r.len(),
        forall|k: int| 0 <= k < r.len() ==> spec_name_ok((#[trigger] e[k]).0@) && r[k].0 == e[k].0@
            && super::reader::spec_read_expr(e[k].1, c, normalize) == Ok::<ExprModel, ExpressionError>(r[k].1),
    ensures
        super::reader::spec_read_eargs(e, c, normalize) == Ok::<Seq<(Seq<char>, ExprModel)>, ExpressionError>(r),
    decreases r.len(),
{
    if r.len() > 0 {
        assert forall|k: int| 0 <= k < r.len() - 1 implies spec_name_ok((#[trigger] e.drop_last()[k]).0@)
            && r.drop_last()[k].0 == e.drop_last()[k].0@
            && super::reader::spec_read_expr(e.drop_last()[k].1, c, normalize)
                == Ok::<ExprModel, ExpressionError>(r.drop_last()[k].1) by {
            assert(e.drop_last()[k] == e[k]);
            assert(r.drop_last()[k] == r[k]);
        }
        lemma_eargs_read(e.drop_last(), r.drop_last(), c, normalize);
        assert(e.last() == e[r.len() - 1]);
        assert(r.last() == r[r.len() - 1]);
        assert(r.drop_last().push(r.last()) =~= r);
        assert(r.last() == (e.last().0@, r.last().1));
    } else {
        assert(r =~= Seq::<(Seq<char>, ExprModel)>::empty());
    }
}

/// Fields in strict name order pass the canonical order check from `i` on.
proof fn lemma_sorted_field_order(fs: Seq<(Seq<char>, ExprModel)>, i: int)
    requires
        spec_named_sorted(fs),
        0 <= i,
    ensures
        super::reader::spec_field_order(fs, i) is None,
    decreases fs.len() - i,
{
    if i + 1 < fs.len() {
        assert(crate::cbor::value::spec_lex_lt(spec_utf8(fs[i].0), spec_utf8(fs[i + 1].0)));
        crate::cbor::keys::lemma_lex_asymmetric(spec_utf8(fs[i].0), spec_utf8(fs[i + 1].0));
        crate::cbor::keys::lemma_lex_irreflexive(spec_utf8(fs[i].0));
        lemma_sorted_field_order(fs, i + 1);
    }
}

/// Items in strict name order have distinct names, and sort to themselves.
proof fn lemma_sorted_named_fixed(fs: Seq<(Seq<char>, ExprModel)>)
    requires
        spec_named_sorted(fs),
    ensures
        crate::types::model::spec_names_distinct(super::reader::spec_item_names(fs)),
        super::reader::spec_sort_named(fs) == fs,
{
    let names = super::reader::spec_item_names(fs);
    assert forall|i: int, j: int| 0 <= i < j < names.len() implies spec_utf8(#[trigger] names[i]) != spec_utf8(#[trigger] names[j]) by {
        assert(names[i] == fs[i].0);
        assert(names[j] == fs[j].0);
        crate::cbor::keys::lemma_lex_irreflexive(spec_utf8(fs[i].0));
    }
    let w = super::reader::spec_sort_named(fs);
    assert(spec_named_sorted(fs) && fs.to_multiset() == fs.to_multiset());
    crate::metadata::lemma_named_sorted_unique(w, fs);
}

} // verus!

verus! {

/// A tagged record of known arity reads as its body.
proof fn lemma_read_unfold(v: Value, tag: Seq<char>, len: int, c: ExpressionContext, normalize: bool)
    requires
        spec_etagged_value(v, tag, len),
        spec_expr_arity(tag) == Some(len),
    ensures
        super::reader::spec_read_expr(v, c, normalize) == super::reader::spec_read_body(tag, v->Array_0@, c, normalize),
{
    let a = v->Array_0@;
    assert(a.len() > 0);
    let t = a[0]->Text_0;
    assert(t@ == tag);
}

/// Reading back: the record of a canonical expression in context `c` reads,
/// canonically or normalizing, as exactly that expression.
pub proof fn lemma_expr_roundtrip(v: Value, m: ExprModel, c: ExpressionContext, normalize: bool)
    requires
        spec_expr_wf(m, c),
        spec_expr_record(v, m),
    ensures
        super::reader::spec_read_expr(v, c, normalize) == Ok::<ExprModel, ExpressionError>(m),
    decreases m, 2nat,
{
    match m {
        ExprModel::Literal(_) | ExprModel::Regex(_, _) | ExprModel::Ref(_, _) | ExprModel::FunctionRef(_, _)
        | ExprModel::Status(_) | ExprModel::Error(_) => lemma_leaf_roundtrip(v, m, c, normalize),
        ExprModel::Get(_, _) | ExprModel::Not(_) | ExprModel::Binary(_, _, _) => lemma_inner_roundtrip(v, m, c, normalize),
        _ => lemma_collection_roundtrip(v, m, c, normalize),
    }
}

/// Leaves read back as themselves.
proof fn lemma_leaf_roundtrip(v: Value, m: ExprModel, c: ExpressionContext, normalize: bool)
    requires
        spec_expr_wf(m, c),
        spec_expr_record(v, m),
        m is Literal || m is Regex || m is Ref || m is FunctionRef || m is Status || m is Error,
    ensures
        super::reader::spec_read_expr(v, c, normalize) == Ok::<ExprModel, ExpressionError>(m),
    decreases m, 0nat,
{
    lemma_tag_facts();
    let a = v->Array_0@;
    assert(spec_eelem(v, 1) == a[1]);
    match m {
        ExprModel::Literal(s) => {
            lemma_scalar_reads(a[1], s);
            lemma_read_unfold(v, "literal"@, 2, c, normalize);
        },
        ExprModel::Regex(p, f) => {
            assert(spec_eelem(v, 2) == a[2]);
            let k = spec_flags_mask(spec_utf8(f))->Some_0;
            assert(super::reader::spec_read_flags(f, normalize) == Ok::<Seq<char>, ExpressionError>(f));
            lemma_read_unfold(v, "regex"@, 3, c, normalize);
        },
        ExprModel::Ref(r, p) => {
            assert(spec_eelem(v, 2) == a[2]);
            lemma_ref_reads(a[1], r, c);
            lemma_path_reads(a[2], p);
            lemma_read_unfold(v, "ref"@, 3, c, normalize);
        },
        ExprModel::FunctionRef(b, n) => {
            assert(spec_eelem(v, 2) == a[2]);
            lemma_digest_reads(a[1], b);
            lemma_name_reads(a[2], n);
            lemma_read_unfold(v, "function_ref"@, 3, c, normalize);
        },
        ExprModel::Status(n) => {
            lemma_name_reads(a[1], n);
            lemma_read_unfold(v, "status"@, 2, c, normalize);
        },
        ExprModel::Error(n) => {
            lemma_name_reads(a[1], n);
            lemma_read_unfold(v, "error"@, 2, c, normalize);
        },
        _ => {},
    }
}

/// Projections, negations and binary operators read back as themselves.
proof fn lemma_inner_roundtrip(v: Value, m: ExprModel, c: ExpressionContext, normalize: bool)
    requires
        spec_expr_wf(m, c),
        spec_expr_record(v, m),
        m is Get || m is Not || m is Binary,
    ensures
        super::reader::spec_read_expr(v, c, normalize) == Ok::<ExprModel, ExpressionError>(m),
    decreases m, 0nat,
{
    lemma_tag_facts();
    let a = v->Array_0@;
    assert(spec_eelem(v, 1) == a[1]);
    match m {
        ExprModel::Get(x, p) => {
            assert(spec_eelem(v, 2) == a[2]);
            lemma_expr_roundtrip(a[1], *x, c, normalize);
            lemma_path_reads(a[2], p);
            assert(super::reader::spec_fold_get(*x, p, normalize) == Ok::<ExprModel, ExpressionError>(m));
            lemma_read_unfold(v, "get"@, 3, c, normalize);
        },
        ExprModel::Not(x) => {
            lemma_expr_roundtrip(a[1], *x, c, normalize);
            lemma_read_unfold(v, "not"@, 2, c, normalize);
        },
        ExprModel::Binary(op, x, y) => {
            assert(spec_eelem(v, 2) == a[2]);
            lemma_expr_roundtrip(a[1], *x, c, normalize);
            lemma_expr_roundtrip(a[2], *y, c, normalize);
            let tag = super::spec_operator_tag(op);
            assert(super::spec_operator_tag(op) == tag);
            assert(spec_expr_arity(tag) == Some(3int));
            let w = super::reader::spec_operator_of(tag);
            assert(super::spec_operator_tag(w) == tag);
            super::lemma_operator_tags_distinct(op, w);
            lemma_read_unfold(v, tag, 3, c, normalize);
            assert(super::reader::spec_read_binary_body(tag, a, c, normalize) == Ok::<ExprModel, ExpressionError>(m));
        },
        _ => {},
    }
}

/// Lists, records, calls and renders read back as themselves.
proof fn lemma_collection_roundtrip(v: Value, m: ExprModel, c: ExpressionContext, normalize: bool)
    requires
        spec_expr_wf(m, c),
        spec_expr_record(v, m),
        m is List || m is Record || m is Call || m is Render,
    ensures
        super::reader::spec_read_expr(v, c, normalize) == Ok::<ExprModel, ExpressionError>(m),
    decreases m, 1nat,
{
    match m {
        ExprModel::List(_) => lemma_list_roundtrip(v, m, c, normalize),
        ExprModel::Call(_, _) => lemma_call_roundtrip(v, m, c, normalize),
        ExprModel::Record(fs) => {
            lemma_tag_facts();
            let a = v->Array_0@;
            assert(spec_eelem(v, 1) == a[1]);
            lemma_record_roundtrip(a[1], fs, c, normalize);
            lemma_read_unfold(v, "record"@, 2, c, normalize);
        },
        ExprModel::Render(t, args) => {
            lemma_tag_facts();
            let a = v->Array_0@;
            assert(spec_eelem(v, 1) == a[1]);
            assert(spec_eelem(v, 2) == a[2]);
            lemma_digest_reads(a[1], t);
            lemma_render_args_roundtrip(a[2], args, c, normalize);
            lemma_read_unfold(v, "render"@, 3, c, normalize);
        },
        _ => {},
    }
}

/// A list reads back as itself.
proof fn lemma_list_roundtrip(v: Value, m: ExprModel, c: ExpressionContext, normalize: bool)
    requires
        spec_expr_wf(m, c),
        spec_expr_record(v, m),
        m is List,
    ensures
        super::reader::spec_read_expr(v, c, normalize) == Ok::<ExprModel, ExpressionError>(m),
    decreases m, 0nat,
{
    let items = m->List_0;
    lemma_tag_facts();
    let a = v->Array_0@;
    assert(spec_eelem(v, 1) == a[1]);
    let b = a[1]->Array_0@;
    lemma_exprs_records_index(b, items);
    assert forall|i: int| 0 <= i < items.len() implies super::reader::spec_read_expr(#[trigger] b[i], c, normalize)
        == Ok::<ExprModel, ExpressionError>(items[i]) by {
        lemma_expr_roundtrip(b[i], items[i], c, normalize);
    }
    lemma_exprs_read(b, items, c, normalize);
    lemma_read_unfold(v, "list"@, 2, c, normalize);
}

/// A call reads back as itself.
proof fn lemma_call_roundtrip(v: Value, m: ExprModel, c: ExpressionContext, normalize: bool)
    requires
        spec_expr_wf(m, c),
        spec_expr_record(v, m),
        m is Call,
    ensures
        super::reader::spec_read_expr(v, c, normalize) == Ok::<ExprModel, ExpressionError>(m),
    decreases m, 0nat,
{
    let f = m->Call_0;
    let args = m->Call_1;
    lemma_tag_facts();
    let a = v->Array_0@;
    assert(spec_eelem(v, 1) == a[1]);
    assert(spec_eelem(v, 2) == a[2]);
    lemma_fn_reads(a[1], f);
    let b = a[2]->Array_0@;
    lemma_exprs_records_index(b, args);
    assert forall|i: int| 0 <= i < args.len() implies super::reader::spec_read_expr(#[trigger] b[i], c, normalize)
        == Ok::<ExprModel, ExpressionError>(args[i]) by {
        lemma_expr_roundtrip(b[i], args[i], c, normalize);
    }
    lemma_exprs_read(b, args, c, normalize);
    lemma_read_unfold(v, "call"@, 3, c, normalize);
}

/// The fields of a canonical record read back as themselves.
proof fn lemma_record_roundtrip(x: Value, fs: Seq<(Seq<char>, ExprModel)>, c: ExpressionContext, normalize: bool)
    requires
        spec_named_sorted(fs),
        forall|i: int| 0 <= i < fs.len() ==> spec_expr_wf(#[trigger] fs[i].1, c),
        x matches Value::Array(b) && super::model::spec_efields_records(b@, fs),
    ensures
        super::reader::spec_read_record_body(x, c, normalize) == Ok::<ExprModel, ExpressionError>(ExprModel::Record(fs)),
    decreases fs, 1nat,
{
    let b = x->Array_0@;
    lemma_efields_records_index(b, fs);
    assert forall|i: int| 0 <= i < fs.len() implies ((#[trigger] b[i]) matches Value::Array(p) && p@.len() == 2
        && spec_is_etext(p@[0], fs[i].0)
        && super::reader::spec_read_expr(p@[1], c, normalize) == Ok::<ExprModel, ExpressionError>(fs[i].1)) by {
        let p = b[i]->Array_0@;
        assert(spec_eelem(b[i], 1) == p[1]);
        lemma_expr_roundtrip(p[1], fs[i].1, c, normalize);
    }
    lemma_efields_read(b, fs, c, normalize);
    if normalize {
        lemma_sorted_named_fixed(fs);
    } else {
        lemma_sorted_field_order(fs, 0);
    }
}

/// The argument map of a canonical render reads back as its arguments.
proof fn lemma_render_args_roundtrip(x: Value, args: Seq<(Seq<char>, ExprModel)>, c: ExpressionContext, normalize: bool)
    requires
        spec_named_sorted(args),
        forall|i: int| 0 <= i < args.len() ==> spec_name_ok(#[trigger] args[i].0) && spec_expr_wf(args[i].1, c),
        x matches Value::Object(map) && crate::cbor::value::spec_keys_sorted(map.entries@)
            && exists|built: Seq<(String, Value)>| #[trigger] built.to_multiset() == map.entries@.to_multiset()
                && super::model::spec_eargs_records(built, args),
    ensures
        x matches Value::Object(map) && super::reader::spec_read_eargs(map.entries@, c, normalize)
            matches Ok(r) && super::reader::spec_order_args(r) == Ok::<Seq<(Seq<char>, ExprModel)>, ExpressionError>(args),
    decreases args, 1nat,
{
    let e = x->Object_0.entries@;
    let built = choose|built: Seq<(String, Value)>| #[trigger] built.to_multiset() == e.to_multiset()
        && super::model::spec_eargs_records(built, args);
    lemma_eargs_records_index(built, args);
    let g = |y: (String, Value)| (y.0@, match super::reader::spec_read_expr(y.1, c, normalize) {
        Ok(m) => m,
        Err(_) => ExprModel::Literal(ScalarModel::Null),
    });
    assert forall|i: int| 0 <= i < built.len() implies super::reader::spec_read_expr((#[trigger] built[i]).1, c, normalize)
        == Ok::<ExprModel, ExpressionError>(args[i].1) && g(built[i]) == args[i] by {
        lemma_expr_roundtrip(built[i].1, args[i].1, c, normalize);
    }
    assert(built.map_values(g) =~= args);
    built.to_multiset_ensures();
    e.to_multiset_ensures();
    let r = e.map_values(g);
    assert forall|k: int| 0 <= k < r.len() implies spec_name_ok((#[trigger] e[k]).0@) && r[k].0 == e[k].0@
        && super::reader::spec_read_expr(e[k].1, c, normalize) == Ok::<ExprModel, ExpressionError>(r[k].1) by {
        assert(e.contains(e[k]));
        assert(e.to_multiset().count(e[k]) > 0);
        assert(built.contains(e[k]));
        let i = choose|i: int| 0 <= i < built.len() && built[i] == e[k];
        assert(g(built[i]) == args[i]);
    }
    lemma_eargs_read(e, r, c, normalize);
    super::template::lemma_map_permutation(e, built, g);
    assert(r.to_multiset() == args.to_multiset());
    crate::cbor::map::lemma_sorted_distinct(e);
    let names = super::reader::spec_item_names(r);
    assert forall|i: int, j: int| 0 <= i < j < names.len() implies spec_utf8(#[trigger] names[i]) != spec_utf8(#[trigger] names[j]) by {
        assert(names[i] == e[i].0@);
        assert(names[j] == e[j].0@);
    }
    let w = super::reader::spec_sort_named(r);
    assert(spec_named_sorted(args) && args.to_multiset() == r.to_multiset());
    crate::metadata::lemma_named_sorted_unique(w, args);
}

} // verus!
