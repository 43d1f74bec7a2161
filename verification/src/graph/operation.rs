//! Graph node operations: an evaluation, an MCP call, a nested scope, a
//! bounded loop or a wait, as canonical records.

use vstd::prelude::*;
use vstd::string::*;

use super::edge::{spec_read_gid, spec_read_gtext};
use super::GraphRecordError;
use crate::cbor::value::{spec_utf8, Value};
use crate::digest::Digest;
use crate::expression::model::ExprModel;
use crate::expression::reader::spec_read_expr;
use crate::expression::{Expression, ExpressionContext};
use crate::identifier::{spec_identifier_error, Identifier};
use crate::metadata::spec_named_sorted;
use crate::options::RetryPolicy;
use crate::text::same_text;

verus! {

/// One node operation.
#[derive(Debug)]
pub enum Operation {
    /// Evaluates a pure expression over the node's inputs.
    Eval(Expression),
    /// Calls a pinned MCP binding under a retry policy.
    Mcp {
        /// Binding definition digest.
        binding: Digest,
        /// Retry policy for the call.
        retry: RetryPolicy,
    },
    /// Runs a nested scope definition.
    Scope(Digest),
    /// Runs a loop body scope until its test holds or its bound is reached.
    Loop {
        /// Body scope digest.
        body: Digest,
        /// Carried fields, each initialized from a node input.
        initializers: Vec<(Identifier, Identifier)>,
        /// Termination test.
        until: Expression,
        /// Iteration ceiling, in `1..=i64::MAX`.
        max_iterations: u64,
    },
    /// Waits for an external event on a topic.
    Wait {
        /// Event topic.
        topic: String,
        /// Timeout in milliseconds, in `1..=i64::MAX`.
        timeout_ms: u64,
    },
}

/// An operation as mathematics.
pub enum OperationModel {
    /// An evaluation.
    Eval(ExprModel),
    /// An MCP call: binding digest bytes and the retry policy's fields.
    Mcp(Seq<u8>, (u64, Seq<Seq<char>>, Seq<u64>)),
    /// A nested scope's digest bytes.
    Scope(Seq<u8>),
    /// A loop: body digest bytes, initializers, test and bound.
    Loop(Seq<u8>, Seq<(Seq<char>, Seq<char>)>, ExprModel, u64),
    /// A wait: topic and timeout.
    Wait(Seq<char>, u64),
}

/// The models of loop initializers.
pub open spec fn spec_inits_model(s: Seq<(Identifier, Identifier)>) -> Seq<(Seq<char>, Seq<char>)> {
    s.map_values(|x: (Identifier, Identifier)| (x.0@, x.1@))
}

/// The model of an operation.
pub open spec fn spec_operation_model(o: Operation) -> OperationModel {
    match o {
        Operation::Eval(e) => OperationModel::Eval(crate::expression::model::spec_expr_model(e)),
        Operation::Mcp { binding, retry } => OperationModel::Mcp(binding@,
            (retry.spec_max_attempts(), retry.spec_on(), retry.spec_backoff())),
        Operation::Scope(d) => OperationModel::Scope(d@),
        Operation::Loop { body, initializers, until, max_iterations } => OperationModel::Loop(body@,
            spec_inits_model(initializers@), crate::expression::model::spec_expr_model(until), max_iterations),
        Operation::Wait { topic, timeout_ms } => OperationModel::Wait(topic@, timeout_ms),
    }
}

/// Reading a digest.
pub open spec fn spec_read_gdigest(v: Value) -> Result<Seq<u8>, GraphRecordError> {
    match spec_read_gtext(v, "digest") {
        Err(e) => Err(e),
        Ok(t) => match crate::digest::spec_parse_digest(spec_utf8(t)) {
            Ok(b) => Ok(b),
            Err(e) => Err(GraphRecordError::Digest(e)),
        },
    }
}

/// Reading a positive bound.
pub open spec fn spec_read_bound(v: Value, field: &'static str) -> Result<u64, GraphRecordError> {
    match v {
        Value::Integer(n) => if n > 0 { Ok(n as u64) } else { Err(GraphRecordError::InvalidBound(field)) },
        _ => Err(GraphRecordError::InvalidBound(field)),
    }
}

/// The number of elements of an operation record with a known tag.
pub open spec fn spec_operation_arity(tag: Seq<char>) -> Option<int> {
    if tag == "eval"@ || tag == "scope"@ {
        Some(2)
    } else if tag == "mcp"@ || tag == "wait"@ {
        Some(3)
    } else if tag == "loop"@ {
        Some(5)
    } else {
        None
    }
}

/// Reading loop initializers in stored order: identifier keys and values.
pub open spec fn spec_parse_inits(e: Seq<(String, Value)>) -> Result<Seq<(Seq<char>, Seq<char>)>, GraphRecordError>
    decreases e.len(),
{
    if e.len() == 0 {
        Ok(Seq::empty())
    } else {
        match spec_parse_inits(e.drop_last()) {
            Err(x) => Err(x),
            Ok(s) => match spec_identifier_error(spec_utf8(e.last().0@)) {
                Some(x) => Err(GraphRecordError::Identifier(x)),
                None => match spec_read_gid(e.last().1) {
                    Err(x) => Err(x),
                    Ok(v) => Ok(s.push((e.last().0@, v))),
                },
            },
        }
    }
}

/// Initializers in carried-name order.
pub open spec fn spec_sort_inits(s: Seq<(Seq<char>, Seq<char>)>) -> Seq<(Seq<char>, Seq<char>)> {
    choose|r: Seq<(Seq<char>, Seq<char>)>| spec_named_sorted(r) && r.to_multiset() == s.to_multiset()
}

/// The carried names of initializers.
pub open spec fn spec_init_names(s: Seq<(Seq<char>, Seq<char>)>) -> Seq<Seq<char>> {
    s.map_values(|x: (Seq<char>, Seq<char>)| x.0)
}

/// Reading a loop operation's elements: body digest, initializer map, test
/// and bound.
pub open spec fn spec_parse_loop(a: Seq<Value>) -> Result<OperationModel, GraphRecordError> {
    match spec_read_gdigest(a[1]) {
        Err(e) => Err(e),
        Ok(body) => match a[2] {
            Value::Object(m) => match spec_parse_inits(m.entries@) {
                Err(e) => Err(e),
                Ok(inits) => if !crate::types::model::spec_names_distinct(spec_init_names(inits)) {
                    Err(GraphRecordError::Codec(crate::cbor::error::spec_plain_error(crate::cbor::error::ErrorKind::DuplicateMapKey)))
                } else {
                    match spec_read_expr(a[3], ExpressionContext::LoopUntil, false) {
                        Err(e) => Err(GraphRecordError::Expression(e)),
                        Ok(until) => match spec_read_bound(a[4], "max_iterations") {
                            Err(e) => Err(e),
                            Ok(n) => Ok(OperationModel::Loop(body, spec_sort_inits(inits), until, n)),
                        },
                    }
                },
            },
            _ => Err(GraphRecordError::InvalidShape("loop initializers")),
        },
    }
}

/// Reading an operation record: a tagged array of known arity.
pub open spec fn spec_parse_operation(v: Value) -> Result<OperationModel, GraphRecordError> {
    match v {
        Value::Array(a) => if a@.len() == 0 {
            Err(GraphRecordError::UnknownOperation)
        } else {
            match spec_read_gtext(a@[0], "operation tag") {
                Err(e) => Err(e),
                Ok(tag) => match spec_operation_arity(tag) {
                    None => Err(GraphRecordError::UnknownOperation),
                    Some(n) => if a@.len() != n {
                        Err(GraphRecordError::InvalidShape("constructor arity"))
                    } else if tag == "eval"@ {
                        match spec_read_expr(a@[1], ExpressionContext::Eval, false) {
                            Err(e) => Err(GraphRecordError::Expression(e)),
                            Ok(x) => Ok(OperationModel::Eval(x)),
                        }
                    } else if tag == "mcp"@ {
                        match spec_read_gdigest(a@[1]) {
                            Err(e) => Err(e),
                            Ok(b) => match crate::options::spec_parse_retry(a@[2]) {
                                Err(e) => Err(GraphRecordError::Options(e)),
                                Ok(r) => Ok(OperationModel::Mcp(b, r)),
                            },
                        }
                    } else if tag == "scope"@ {
                        match spec_read_gdigest(a@[1]) {
                            Err(e) => Err(e),
                            Ok(b) => Ok(OperationModel::Scope(b)),
                        }
                    } else if tag == "wait"@ {
                        match spec_read_gtext(a@[1], "wait topic") {
                            Err(e) => Err(e),
                            Ok(t) => match spec_read_bound(a@[2], "timeout_ms") {
                                Err(e) => Err(e),
                                Ok(n) => Ok(OperationModel::Wait(t, n)),
                            },
                        }
                    } else {
                        spec_parse_loop(a@)
                    },
                },
            }
        },
        _ => Err(GraphRecordError::InvalidShape("operation")),
    }
}

} // verus!

verus! {

use super::edge::{read_gid, read_gtext};

/// Reads a digest.
fn read_gdigest(v: &Value) -> (res: Result<Digest, GraphRecordError>)
    ensures
        match spec_read_gdigest(*v) {
            Ok(b) => res matches Ok(d) && d@ == b,
            Err(e) => res == Err::<Digest, GraphRecordError>(e),
        },
{
    let t = read_gtext(v, "digest")?;
    match Digest::parse(t) {
        Ok(d) => Ok(d),
        Err(e) => Err(GraphRecordError::Digest(e)),
    }
}

/// Reads a positive bound.
fn read_bound(v: &Value, field: &'static str) -> (res: Result<u64, GraphRecordError>)
    ensures
        match spec_read_bound(*v, field) {
            Ok(n) => res == Ok::<u64, GraphRecordError>(n),
            Err(e) => res == Err::<u64, GraphRecordError>(e),
        },
{
    match v {
        Value::Integer(n) => if *n > 0 { Ok(*n as u64) } else { Err(GraphRecordError::InvalidBound(field)) },
        _ => Err(GraphRecordError::InvalidBound(field)),
    }
}

/// A failed prefix of initializers fails every longer prefix alike.
proof fn lemma_inits_err_extends(e: Seq<(String, Value)>, i: int, j: int)
    requires
        0 <= i <= j <= e.len(),
        spec_parse_inits(e.take(i)) is Err,
    ensures
        spec_parse_inits(e.take(j)) == spec_parse_inits(e.take(i)),
    decreases j - i,
{
    if i < j {
        lemma_inits_err_extends(e, i, j - 1);
        assert(e.take(j).drop_last() =~= e.take(j - 1));
    }
}

/// Reads loop initializers in stored order.
fn parse_inits(entries: &Vec<(String, Value)>) -> (res: Result<Vec<(Identifier, Identifier)>, GraphRecordError>)
    ensures
        match spec_parse_inits(entries@) {
            Ok(s) => res matches Ok(r) && spec_inits_model(r@) == s,
            Err(e) => res == Err::<Vec<(Identifier, Identifier)>, GraphRecordError>(e),
        },
{
    let ghost e = entries@;
    let mut out: Vec<(Identifier, Identifier)> = Vec::new();
    let mut i: usize = 0;
    proof {
        assert(e.take(0) =~= Seq::<(String, Value)>::empty());
        assert(spec_inits_model(out@) =~= Seq::<(Seq<char>, Seq<char>)>::empty());
    }
    while i < entries.len()
        invariant
            e == entries@,
            i <= e.len(),
            spec_parse_inits(e.take(i as int)) == Ok::<Seq<(Seq<char>, Seq<char>)>, GraphRecordError>(spec_inits_model(out@)),
        decreases e.len() - i,
    {
        let (k, v) = &entries[i];
        proof {
            assert(e.take(i + 1).drop_last() =~= e.take(i as int));
            assert(e.take(i + 1).last() == e[i as int]);
            crate::identifier::lemma_identifier_error_iff(spec_utf8(k@));
        }
        let key = match Identifier::parse(k.as_str()) {
            Ok(x) => x,
            Err(x) => {
                proof {
                    lemma_inits_err_extends(e, i + 1, e.len() as int);
                    assert(e.take(e.len() as int) =~= e);
                }
                return Err(GraphRecordError::Identifier(x));
            },
        };
        let value = match read_gid(v) {
            Ok(x) => x,
            Err(x) => {
                proof {
                    lemma_inits_err_extends(e, i + 1, e.len() as int);
                    assert(e.take(e.len() as int) =~= e);
                }
                return Err(x);
            },
        };
        let ghost before = out@;
        out.push((key, value));
        proof { assert(spec_inits_model(out@) =~= spec_inits_model(before).push((k@, value@))); }
        i = i + 1;
    }
    proof { assert(e.take(e.len() as int) =~= e); }
    Ok(out)
}

/// Whether the carried names are pairwise distinct.
fn init_names_distinct(s: &Vec<(Identifier, Identifier)>) -> (res: bool)
    ensures
        res == crate::types::model::spec_names_distinct(spec_init_names(spec_inits_model(s@))),
{
    let ghost ns = spec_init_names(spec_inits_model(s@));
    let mut a: usize = 0;
    while a < s.len()
        invariant
            ns == spec_init_names(spec_inits_model(s@)),
            a <= s@.len(),
            forall|x: int, y: int| 0 <= x < y < s@.len() && x < a ==> spec_utf8(#[trigger] ns[x]) != spec_utf8(#[trigger] ns[y]),
        decreases s@.len() - a,
    {
        let mut b: usize = a + 1;
        while b < s.len()
            invariant
                ns == spec_init_names(spec_inits_model(s@)),
                a < b <= s@.len(),
                forall|x: int, y: int| 0 <= x < y < s@.len() && x < a ==> spec_utf8(#[trigger] ns[x]) != spec_utf8(#[trigger] ns[y]),
                forall|y: int| a < y < b ==> spec_utf8(ns[a as int]) != spec_utf8(#[trigger] ns[y]),
            decreases s@.len() - b,
        {
            assert(ns[a as int] == s@[a as int].0@);
            assert(ns[b as int] == s@[b as int].0@);
            if same_text(s[a].0.as_str(), s[b].0.as_str()) {
                return false;
            }
            proof {
                if spec_utf8(ns[a as int]) == spec_utf8(ns[b as int]) {
                    crate::types::model::lemma_utf8_injective(ns[a as int], ns[b as int]);
                }
            }
            b = b + 1;
        }
        a = a + 1;
    }
    true
}

/// Orders initializers by the UTF-8 bytes of their carried names; the names
/// must be distinct.
#[verifier::rlimit(60)]
fn sort_inits_vec(entries: Vec<(Identifier, Identifier)>) -> (res: Vec<(Identifier, Identifier)>)
    requires
        crate::types::model::spec_names_distinct(spec_init_names(spec_inits_model(entries@))),
    ensures
        spec_inits_model(res@) == spec_sort_inits(spec_inits_model(entries@)),
{
    let ghost unsorted = spec_inits_model(entries@);
    let mut input = entries;
    let mut output: Vec<(Identifier, Identifier)> = Vec::new();
    proof {
        spec_inits_model(output@).to_multiset_ensures();
        assert(spec_inits_model(output@).to_multiset() =~= vstd::multiset::Multiset::<(Seq<char>, Seq<char>)>::empty());
        let names = spec_init_names(unsorted);
        assert forall|a: int, c: int| 0 <= a < c < input@.len() implies spec_utf8((#[trigger] input@[a]).0@)
            != spec_utf8((#[trigger] input@[c]).0@) by {
            assert(names[a] == input@[a].0@);
            assert(names[c] == input@[c].0@);
        }
    }
    while input.len() > 0
        invariant
            unsorted == spec_inits_model(entries@),
            spec_named_sorted(spec_inits_model(output@)),
            forall|a: int, c: int| 0 <= a < output@.len() && 0 <= c < input@.len() ==> crate::cbor::value::spec_lex_lt(
                spec_utf8((#[trigger] output@[a]).0@), spec_utf8((#[trigger] input@[c]).0@)),
            spec_inits_model(output@).to_multiset().add(spec_inits_model(input@).to_multiset()) == unsorted.to_multiset(),
            forall|a: int, c: int| 0 <= a < c < input@.len() ==> spec_utf8((#[trigger] input@[a]).0@)
                != spec_utf8((#[trigger] input@[c]).0@),
        decreases input@.len(),
    {
        let mut min: usize = 0;
        let mut j: usize = 1;
        while j < input.len()
            invariant
                0 <= min < j <= input@.len(),
                forall|a: int, c: int| 0 <= a < c < input@.len() ==> spec_utf8((#[trigger] input@[a]).0@)
                    != spec_utf8((#[trigger] input@[c]).0@),
                forall|k: int| 0 <= k < j && k != min ==> crate::cbor::value::spec_lex_lt(
                    spec_utf8(input@[min as int].0@), spec_utf8((#[trigger] input@[k]).0@)),
            decreases input@.len() - j,
        {
            let smaller = crate::types::reader::bytes_lt(input[j].0.as_str().as_bytes(), input[min].0.as_str().as_bytes());
            proof {
                crate::cbor::keys::lemma_lex_total(spec_utf8(input@[j as int].0@), spec_utf8(input@[min as int].0@));
            }
            if smaller {
                proof {
                    assert forall|k: int| 0 <= k < j + 1 && k != j implies crate::cbor::value::spec_lex_lt(
                        spec_utf8(input@[j as int].0@), spec_utf8((#[trigger] input@[k]).0@)) by {
                        if k != min {
                            crate::cbor::keys::lemma_lex_transitive(spec_utf8(input@[j as int].0@),
                                spec_utf8(input@[min as int].0@), spec_utf8(input@[k].0@));
                        }
                    }
                }
                min = j;
            }
            j = j + 1;
        }
        let ghost before_in = input@;
        let ghost before_out = output@;
        let entry = input.remove(min);
        output.push(entry);
        proof {
            let mi = spec_inits_model(before_in);
            let mo = spec_inits_model(before_out);
            assert(spec_inits_model(input@) =~= mi.remove(min as int));
            assert(spec_inits_model(output@) =~= mo.push(mi[min as int]));
            vstd::seq_lib::to_multiset_remove(mi, min as int);
            vstd::seq_lib::to_multiset_build(mo, mi[min as int]);
            mi.to_multiset_ensures();
            assert(spec_inits_model(output@).to_multiset().add(spec_inits_model(input@).to_multiset())
                =~= unsorted.to_multiset());
            let no = spec_inits_model(output@);
            assert forall|a: int, c: int| 0 <= a < c < no.len() implies crate::cbor::value::spec_lex_lt(
                spec_utf8((#[trigger] no[a]).0), spec_utf8((#[trigger] no[c]).0)) by {
                if c == no.len() - 1 {
                    assert(no[c] == mi[min as int]);
                    assert(no[a] == mo[a]);
                } else {
                    assert(no[a] == mo[a]);
                    assert(no[c] == mo[c]);
                }
            }
            assert forall|a: int, c: int| 0 <= a < output@.len() && 0 <= c < input@.len() implies crate::cbor::value::spec_lex_lt(
                spec_utf8((#[trigger] output@[a]).0@), spec_utf8((#[trigger] input@[c]).0@)) by {
                let k = if c < min { c } else { c + 1 };
                assert(input@[c] == before_in[k]);
                if a < before_out.len() {
                    assert(output@[a] == before_out[a]);
                } else {
                    assert(output@[a] == before_in[min as int]);
                }
            }
            assert forall|a: int, c: int| 0 <= a < c < input@.len() implies spec_utf8((#[trigger] input@[a]).0@)
                != spec_utf8((#[trigger] input@[c]).0@) by {
                let ka = if a < min { a } else { a + 1 };
                let kc = if c < min { c } else { c + 1 };
                assert(input@[a] == before_in[ka]);
                assert(input@[c] == before_in[kc]);
            }
        }
    }
    proof {
        let mo = spec_inits_model(output@);
        spec_inits_model(input@).to_multiset_ensures();
        assert(spec_inits_model(input@).to_multiset() =~= vstd::multiset::Multiset::<(Seq<char>, Seq<char>)>::empty());
        assert(mo.to_multiset() =~= unsorted.to_multiset());
        let w = spec_sort_inits(unsorted);
        assert(spec_named_sorted(mo) && mo.to_multiset() == unsorted.to_multiset());
        crate::metadata::lemma_named_sorted_unique(mo, w);
    }
    output
}

} // verus!

verus! {

/// Reads a loop operation's elements.
fn parse_loop(a: &Vec<Value>) -> (res: Result<Operation, GraphRecordError>)
    requires
        a@.len() == 5,
    ensures
        match spec_parse_loop(a@) {
            Ok(m) => res matches Ok(o) && spec_operation_model(o) == m,
            Err(e) => res == Err::<Operation, GraphRecordError>(e),
        },
{
    let body = read_gdigest(&a[1])?;
    let m = match &a[2] {
        Value::Object(m) => m,
        _ => return Err(GraphRecordError::InvalidShape("loop initializers")),
    };
    let inits = parse_inits(&m.entries)?;
    if !init_names_distinct(&inits) {
        return Err(GraphRecordError::Codec(crate::cbor::error::Error::new(crate::cbor::error::ErrorKind::DuplicateMapKey)));
    }
    let until = match crate::expression::reader::parse_expr(&a[3], ExpressionContext::LoopUntil, false) {
        Ok(x) => x,
        Err(e) => return Err(GraphRecordError::Expression(e)),
    };
    let max_iterations = read_bound(&a[4], "max_iterations")?;
    let initializers = sort_inits_vec(inits);
    Ok(Operation::Loop { body, initializers, until, max_iterations })
}

/// Reads an operation record.
pub(crate) fn parse_operation(v: &Value) -> (res: Result<Operation, GraphRecordError>)
    ensures
        match spec_parse_operation(*v) {
            Ok(m) => res matches Ok(o) && spec_operation_model(o) == m,
            Err(e) => res == Err::<Operation, GraphRecordError>(e),
        },
{
    let a = match v {
        Value::Array(a) => a,
        _ => return Err(GraphRecordError::InvalidShape("operation")),
    };
    if a.len() == 0 {
        return Err(GraphRecordError::UnknownOperation);
    }
    let tag = read_gtext(&a[0], "operation tag")?;
    proof {
        reveal_strlit("eval");
        reveal_strlit("scope");
        reveal_strlit("mcp");
        reveal_strlit("wait");
        reveal_strlit("loop");
        assert("eval"@.len() == 4 && "eval"@[0] == 'e');
        assert("scope"@.len() == 5);
        assert("mcp"@.len() == 3);
        assert("wait"@.len() == 4 && "wait"@[0] == 'w');
        assert("loop"@.len() == 4 && "loop"@[0] == 'l');
    }
    let n: usize = if same_text(tag, "eval") || same_text(tag, "scope") {
        2
    } else if same_text(tag, "mcp") || same_text(tag, "wait") {
        3
    } else if same_text(tag, "loop") {
        5
    } else {
        return Err(GraphRecordError::UnknownOperation);
    };
    if a.len() != n {
        return Err(GraphRecordError::InvalidShape("constructor arity"));
    }
    if same_text(tag, "eval") {
        match crate::expression::reader::parse_expr(&a[1], ExpressionContext::Eval, false) {
            Ok(x) => Ok(Operation::Eval(x)),
            Err(e) => Err(GraphRecordError::Expression(e)),
        }
    } else if same_text(tag, "mcp") {
        let binding = read_gdigest(&a[1])?;
        match RetryPolicy::parse(&a[2]) {
            Ok(retry) => Ok(Operation::Mcp { binding, retry }),
            Err(e) => Err(GraphRecordError::Options(e)),
        }
    } else if same_text(tag, "scope") {
        Ok(Operation::Scope(read_gdigest(&a[1])?))
    } else if same_text(tag, "wait") {
        let t = read_gtext(&a[1], "wait topic")?;
        let timeout_ms = read_bound(&a[2], "timeout_ms")?;
        Ok(Operation::Wait { topic: String::from_str(t), timeout_ms })
    } else {
        parse_loop(a)
    }
}

impl Operation {
    /// The operation as mathematics.
    pub open spec fn spec_model(&self) -> OperationModel {
        spec_operation_model(*self)
    }

    /// Bounds already decoded operation data under the codec limits, then
    /// reads it.
    pub fn from_value(v: &Value, limits: &crate::cbor::limits::Limits) -> (res: Result<Operation, GraphRecordError>)
        ensures
            !(limits.spec_valid() && crate::cbor::encode::spec_fits(*v, *limits)) ==> res matches Err(GraphRecordError::Codec(_)),
            limits.spec_valid() && crate::cbor::encode::spec_fits(*v, *limits) ==> match spec_parse_operation(*v) {
                Ok(m) => res matches Ok(o) && o.spec_model() == m,
                Err(x) => res == Err::<Operation, GraphRecordError>(x),
            },
    {
        if let Err(e) = crate::cbor::encode::encode(v, limits) {
            return Err(GraphRecordError::Codec(e));
        }
        parse_operation(v)
    }

    /// Decodes exactly one canonical operation record.
    pub fn decode(bytes: &[u8], limits: &crate::cbor::limits::Limits) -> (res: Result<Operation, GraphRecordError>)
        ensures
            !limits.spec_valid() ==> res matches Err(GraphRecordError::Codec(_)),
            res matches Ok(o) ==> exists|w: Value| #[trigger] crate::cbor::value::spec_encode(w) == bytes@
                && spec_parse_operation(w) == Ok::<OperationModel, GraphRecordError>(o.spec_model()),
            limits.spec_valid() && (exists|x: Value| #[trigger] crate::cbor::value::spec_encode(x) == bytes@
                && crate::cbor::value::spec_wf(x) && crate::cbor::value::spec_height(x) <= limits.max_depth
                && bytes@.len() <= limits.max_document_bytes) ==> exists|w: Value|
                #[trigger] crate::cbor::value::spec_encode(w) == bytes@ && crate::cbor::value::spec_wf(w)
                && (match spec_parse_operation(w) {
                    Ok(m) => res matches Ok(o) && o.spec_model() == m,
                    Err(x) => res == Err::<Operation, GraphRecordError>(x),
                }),
    {
        let v = match crate::cbor::decode::decode(bytes, limits) {
            Ok(v) => v,
            Err(e) => return Err(GraphRecordError::Codec(e)),
        };
        proof { assert(crate::cbor::value::spec_encode(v) == bytes@ && crate::cbor::value::spec_wf(v)); }
        parse_operation(&v)
    }
}

} // verus!

verus! {

use super::edge::{charge_at, spec_is_gtext, spec_ktext, text_at};
use crate::cbor::limits::Limits;
use crate::record_accounting::{spec_charges, spec_value_charges, Charge, RecordAccounting};

/// A bound in `1..=i64::MAX`.
pub open spec fn spec_bound_ok(n: u64) -> bool {
    0 < n <= 0x7fff_ffff_ffff_ffffu64
}

/// The values charged for initializers at depth two: each carried name,
/// then its input name.
#[verifier::opaque]
pub open spec fn spec_inits_charges(s: Seq<(Seq<char>, Seq<char>)>) -> Seq<Charge> {
    Seq::new((2 * s.len()) as nat, |j: int| if j % 2 == 0 {
        Charge::Text { len: spec_utf8(s[j / 2].0).len() as usize, depth: 2 }
    } else {
        Charge::Text { len: spec_utf8(s[j / 2].1).len() as usize, depth: 2 }
    })
}

/// Entry `i` of `built` is initializer `i`.
pub open spec fn spec_inits_entries(built: Seq<(String, Value)>, inits: Seq<(Seq<char>, Seq<char>)>) -> bool {
    built.len() == inits.len() && forall|i: int| 0 <= i < inits.len()
        ==> (#[trigger] built[i]).0@ == inits[i].0 && spec_is_gtext(built[i].1, inits[i].1)
}

/// `v` is the canonical record of the operation `m`.
pub open spec fn spec_operation_record(v: Value, m: OperationModel) -> bool {
    v matches Value::Array(a) && match m {
        OperationModel::Eval(x) => a@.len() == 2 && spec_is_gtext(a@[0], "eval"@)
            && crate::expression::model::spec_expr_record(a@[1], x),
        OperationModel::Mcp(b, r) => a@.len() == 3 && spec_is_gtext(a@[0], "mcp"@)
            && spec_is_gtext(a@[1], crate::digest::spec_digest_text(b))
            && crate::options::spec_retry_record(a@[2], r.0, r.1, r.2),
        OperationModel::Scope(b) => a@.len() == 2 && spec_is_gtext(a@[0], "scope"@)
            && spec_is_gtext(a@[1], crate::digest::spec_digest_text(b)),
        OperationModel::Loop(b, inits, u, n) => a@.len() == 5 && spec_is_gtext(a@[0], "loop"@)
            && spec_is_gtext(a@[1], crate::digest::spec_digest_text(b))
            && (a@[2] matches Value::Object(map) && crate::cbor::value::spec_keys_sorted(map.entries@)
                && exists|built: Seq<(String, Value)>| #[trigger] built.to_multiset() == map.entries@.to_multiset()
                    && spec_inits_entries(built, inits))
            && crate::expression::model::spec_expr_record(a@[3], u) && a@[4] == Value::Integer(n as i64),
        OperationModel::Wait(t, n) => a@.len() == 3 && spec_is_gtext(a@[0], "wait"@) && spec_is_gtext(a@[1], t)
            && a@[2] == Value::Integer(n as i64),
    }
}

/// A charge failure, as a graph record failure.
pub open spec fn spec_limit_failure(e: crate::record_accounting::EncodingLimitError) -> GraphRecordError {
    GraphRecordError::LimitExceeded { limit: e.limit, maximum: e.maximum }
}

/// What building the record of `m` under valid limits gives: the header and
/// fixed texts charged first, bounds checked before any value, a nested
/// record built on its own and then charged whole, and, for a loop,
/// repeated carried names refused before its test is built.
pub open spec fn spec_operation_built(l: Limits, m: OperationModel, res: Result<Value, GraphRecordError>) -> bool {
    match m {
        OperationModel::Eval(x) => match spec_charges(l, (0, 0, 0), seq![Charge::Collection { len: 2, depth: 0 }, spec_ktext("eval"@)]) {
            Err(e) => res == Err::<Value, GraphRecordError>(spec_limit_failure(e)),
            Ok(c) => match crate::expression::model::spec_erun(l, (0, 0, 0),
                crate::expression::model::spec_expr_steps(x, ExpressionContext::Eval, 0)) {
                Err(e) => res == Err::<Value, GraphRecordError>(GraphRecordError::Expression(e)),
                Ok(_) => exists|gv: Value| #[trigger] crate::expression::model::spec_expr_record(gv, x)
                    && match spec_charges(l, c, spec_value_charges(gv, 1)) {
                        Ok(_) => res matches Ok(v) && spec_operation_record(v, m),
                        Err(e) => res == Err::<Value, GraphRecordError>(spec_limit_failure(e)),
                    },
            },
        },
        OperationModel::Mcp(b, r) => match spec_charges(l, (0, 0, 0), seq![Charge::Collection { len: 3, depth: 0 },
            spec_ktext("mcp"@), spec_ktext(crate::digest::spec_digest_text(b))]) {
            Err(e) => res == Err::<Value, GraphRecordError>(spec_limit_failure(e)),
            Ok(c) => match crate::options::spec_retry_wire(l, r.0, r.1, r.2) {
                Err(e) => res == Err::<Value, GraphRecordError>(GraphRecordError::Options(e)),
                Ok(()) => exists|rv: Value| #[trigger] crate::options::spec_retry_record(rv, r.0, r.1, r.2)
                    && match spec_charges(l, c, spec_value_charges(rv, 1)) {
                        Ok(_) => res matches Ok(v) && spec_operation_record(v, m),
                        Err(e) => res == Err::<Value, GraphRecordError>(spec_limit_failure(e)),
                    },
            },
        },
        OperationModel::Scope(b) => match spec_charges(l, (0, 0, 0), seq![Charge::Collection { len: 2, depth: 0 },
            spec_ktext("scope"@), spec_ktext(crate::digest::spec_digest_text(b))]) {
            Err(e) => res == Err::<Value, GraphRecordError>(spec_limit_failure(e)),
            Ok(_) => res matches Ok(v) && spec_operation_record(v, m),
        },
        OperationModel::Wait(t, n) => if !spec_bound_ok(n) {
            res == Err::<Value, GraphRecordError>(GraphRecordError::InvalidBound("timeout_ms"))
        } else {
            match spec_charges(l, (0, 0, 0), seq![Charge::Collection { len: 3, depth: 0 }, spec_ktext("wait"@),
                spec_ktext(t), Charge::Integer { value: n as i64, depth: 1 }]) {
                Err(e) => res == Err::<Value, GraphRecordError>(spec_limit_failure(e)),
                Ok(_) => res matches Ok(v) && spec_operation_record(v, m),
            }
        },
        OperationModel::Loop(b, inits, u, n) => if !spec_bound_ok(n) {
            res == Err::<Value, GraphRecordError>(GraphRecordError::InvalidBound("max_iterations"))
        } else {
            match spec_charges(l, (0, 0, 0), seq![Charge::Collection { len: 5, depth: 0 }, spec_ktext("loop"@),
                spec_ktext(crate::digest::spec_digest_text(b)), Charge::Collection { len: inits.len() as usize, depth: 1 }]
                + spec_inits_charges(inits)) {
                Err(e) => res == Err::<Value, GraphRecordError>(spec_limit_failure(e)),
                Ok(c) => if !crate::types::model::spec_names_distinct(spec_init_names(inits)) {
                    res == Err::<Value, GraphRecordError>(GraphRecordError::Codec(
                        crate::cbor::error::spec_plain_error(crate::cbor::error::ErrorKind::DuplicateMapKey)))
                } else {
                    match crate::expression::model::spec_erun(l, (0, 0, 0),
                        crate::expression::model::spec_expr_steps(u, ExpressionContext::LoopUntil, 0)) {
                        Err(e) => res == Err::<Value, GraphRecordError>(GraphRecordError::Expression(e)),
                        Ok(_) => exists|uv: Value| #[trigger] crate::expression::model::spec_expr_record(uv, u)
                            && match spec_charges(l, c, spec_value_charges(uv, 1) + seq![Charge::Integer { value: n as i64, depth: 1 }]) {
                                Ok(_) => res matches Ok(v) && spec_operation_record(v, m),
                                Err(e) => res == Err::<Value, GraphRecordError>(spec_limit_failure(e)),
                            },
                    }
                },
            }
        },
    }
}

} // verus!

verus! {

use crate::expression::model::spec_expr_model;

/// Builds an evaluation record on fresh accounting.
fn build_eval(acc: &mut RecordAccounting, x: &Expression, limits: &Limits) -> (res: Result<Value, GraphRecordError>)
    requires
        old(acc).limits == limits,
        old(acc).counters() == (0int, 0int, 0int),
        limits.spec_valid(),
    ensures
        spec_operation_built(*limits, OperationModel::Eval(spec_expr_model(*x)), res),
{
    let ghost head = seq![Charge::Collection { len: 2, depth: 0 }, spec_ktext("eval"@)];
    proof {
        reveal_strlit("eval");
        assert(head.skip(0) =~= head);
        assert(head.skip(2) =~= Seq::<Charge>::empty());
    }
    charge_at(acc, Charge::Collection { len: 2, depth: 0 }, Ghost(head), Ghost(0))?;
    let tag = text_at(acc, "eval", 1, Ghost(head), Ghost(1))?;
    let xv = match x.to_value(ExpressionContext::Eval, limits) {
        Ok(v) => v,
        Err(e) => return Err(GraphRecordError::Expression(e)),
    };
    match acc.value(&xv, 1) {
        Ok(()) => {},
        Err(e) => return Err(GraphRecordError::LimitExceeded { limit: e.limit, maximum: e.maximum }),
    }
    let mut a: Vec<Value> = Vec::new();
    a.push(tag);
    a.push(xv);
    Ok(Value::Array(a))
}

/// Builds an MCP call record on fresh accounting.
fn build_mcp(acc: &mut RecordAccounting, binding: &Digest, retry: &RetryPolicy, limits: &Limits)
    -> (res: Result<Value, GraphRecordError>)
    requires
        old(acc).limits == limits,
        old(acc).counters() == (0int, 0int, 0int),
        limits.spec_valid(),
    ensures
        spec_operation_built(*limits, OperationModel::Mcp(binding@,
            (retry.spec_max_attempts(), retry.spec_on(), retry.spec_backoff())), res),
{
    let dt = binding.to_text();
    let ghost head = seq![Charge::Collection { len: 3, depth: 0 }, spec_ktext("mcp"@), spec_ktext(dt@)];
    proof {
        reveal_strlit("mcp");
        assert(head.skip(0) =~= head);
        assert(head.skip(3) =~= Seq::<Charge>::empty());
    }
    charge_at(acc, Charge::Collection { len: 3, depth: 0 }, Ghost(head), Ghost(0))?;
    let tag = text_at(acc, "mcp", 1, Ghost(head), Ghost(1))?;
    let dv = text_at(acc, dt.as_str(), 1, Ghost(head), Ghost(2))?;
    let rv = match retry.to_value(limits) {
        Ok(v) => v,
        Err(e) => return Err(GraphRecordError::Options(e)),
    };
    match acc.value(&rv, 1) {
        Ok(()) => {},
        Err(e) => return Err(GraphRecordError::LimitExceeded { limit: e.limit, maximum: e.maximum }),
    }
    let mut a: Vec<Value> = Vec::new();
    a.push(tag);
    a.push(dv);
    a.push(rv);
    Ok(Value::Array(a))
}

/// Builds a nested scope record on fresh accounting.
fn build_scope(acc: &mut RecordAccounting, d: &Digest) -> (res: Result<Value, GraphRecordError>)
    requires
        old(acc).counters() == (0int, 0int, 0int),
    ensures
        spec_operation_built(*old(acc).limits, OperationModel::Scope(d@), res),
{
    let dt = d.to_text();
    let ghost head = seq![Charge::Collection { len: 2, depth: 0 }, spec_ktext("scope"@), spec_ktext(dt@)];
    proof {
        reveal_strlit("scope");
        assert(head.skip(0) =~= head);
        assert(head.skip(3) =~= Seq::<Charge>::empty());
    }
    charge_at(acc, Charge::Collection { len: 2, depth: 0 }, Ghost(head), Ghost(0))?;
    let tag = text_at(acc, "scope", 1, Ghost(head), Ghost(1))?;
    let dv = text_at(acc, dt.as_str(), 1, Ghost(head), Ghost(2))?;
    let mut a: Vec<Value> = Vec::new();
    a.push(tag);
    a.push(dv);
    Ok(Value::Array(a))
}

/// Builds a wait record on fresh accounting.
fn build_wait(acc: &mut RecordAccounting, topic: &String, n: u64) -> (res: Result<Value, GraphRecordError>)
    requires
        old(acc).counters() == (0int, 0int, 0int),
    ensures
        spec_operation_built(*old(acc).limits, OperationModel::Wait(topic@, n), res),
{
    if n == 0 || n > 0x7fff_ffff_ffff_ffffu64 {
        return Err(GraphRecordError::InvalidBound("timeout_ms"));
    }
    let ghost head = seq![Charge::Collection { len: 3, depth: 0 }, spec_ktext("wait"@), spec_ktext(topic@),
        Charge::Integer { value: n as i64, depth: 1 }];
    proof {
        reveal_strlit("wait");
        assert(head.skip(0) =~= head);
        assert(head.skip(4) =~= Seq::<Charge>::empty());
    }
    charge_at(acc, Charge::Collection { len: 3, depth: 0 }, Ghost(head), Ghost(0))?;
    let tag = text_at(acc, "wait", 1, Ghost(head), Ghost(1))?;
    let tv = text_at(acc, topic.as_str(), 1, Ghost(head), Ghost(2))?;
    charge_at(acc, Charge::Integer { value: n as i64, depth: 1 }, Ghost(head), Ghost(3))?;
    let mut a: Vec<Value> = Vec::new();
    a.push(tag);
    a.push(tv);
    a.push(Value::Integer(n as i64));
    Ok(Value::Array(a))
}

} // verus!

verus! {

use crate::expression::model::spec_expr_model as expr_model;

/// The charges of initializer `j`: its carried name, then its input name.
proof fn lemma_inits_charge(im: Seq<(Seq<char>, Seq<char>)>, j: int)
    requires
        0 <= j < im.len(),
    ensures
        spec_inits_charges(im)[2 * j] == (Charge::Text { len: spec_utf8(im[j].0).len() as usize, depth: 2 }),
        spec_inits_charges(im)[2 * j + 1] == (Charge::Text { len: spec_utf8(im[j].1).len() as usize, depth: 2 }),
        spec_inits_charges(im).len() == 2 * im.len(),
{
    reveal(spec_inits_charges);
    assert((2 * j) % 2 == 0 && (2 * j) / 2 == j);
    assert((2 * j + 1) % 2 == 1 && (2 * j + 1) / 2 == j);
}

/// Charges the initializers' names at depth two and collects them as map
/// entries in stored order.
#[verifier::rlimit(100)]
fn charge_inits(acc: &mut RecordAccounting, inits: &Vec<(Identifier, Identifier)>)
    -> (res: Result<Vec<(String, Value)>, GraphRecordError>)
    ensures
        final(acc).limits == old(acc).limits,
        match spec_charges(*old(acc).limits, old(acc).counters(), spec_inits_charges(spec_inits_model(inits@))) {
            Ok(c) => res matches Ok(built) && final(acc).counters() == c
                && spec_inits_entries(built@, spec_inits_model(inits@)),
            Err(x) => res == Err::<Vec<(String, Value)>, GraphRecordError>(spec_limit_failure(x)),
        },
{
    let ghost im = spec_inits_model(inits@);
    let ghost s = spec_inits_charges(im);
    let ghost l = *acc.limits;
    let ghost start = acc.counters();
    proof {
        assert(s.skip(0) =~= s);
        reveal(spec_inits_charges);
        assert forall|j: int| 0 <= j < im.len() implies
            s[2 * j] == (Charge::Text { len: spec_utf8((#[trigger] im[j]).0).len() as usize, depth: 2 })
            && s[2 * j + 1] == (Charge::Text { len: spec_utf8(im[j].1).len() as usize, depth: 2 }) by {
            lemma_inits_charge(im, j);
        }
    }
    let mut built: Vec<(String, Value)> = Vec::new();
    let mut i: usize = 0;
    while i < inits.len()
        invariant
            *acc.limits == l,
            acc.limits == old(acc).limits,
            start == old(acc).counters(),
            l == *old(acc).limits,
            im == spec_inits_model(inits@),
            s == spec_inits_charges(im),
            s.len() == 2 * im.len(),
            forall|j: int| 0 <= j < im.len() ==>
                s[2 * j] == (Charge::Text { len: spec_utf8((#[trigger] im[j]).0).len() as usize, depth: 2 })
                && s[2 * j + 1] == (Charge::Text { len: spec_utf8(im[j].1).len() as usize, depth: 2 }),
            i <= inits@.len(),
            spec_charges(l, start, s) == spec_charges(l, acc.counters(), s.skip(2 * i)),
            built@.len() == i,
            forall|j: int| 0 <= j < i ==> (#[trigger] built@[j]).0@ == im[j].0 && spec_is_gtext(built@[j].1, im[j].1),
        decreases inits@.len() - i,
    {
        proof {
            assert(im[i as int] == (inits@[i as int].0@, inits@[i as int].1@));
        }
        let ghost k: int = 2 * i;
        let kv = text_at(acc, inits[i].0.as_str(), 2, Ghost(s), Ghost(k));
        let kv = match kv {
            Ok(_) => String::from_str(inits[i].0.as_str()),
            Err(e) => return Err(e),
        };
        let vv = text_at(acc, inits[i].1.as_str(), 2, Ghost(s), Ghost(k + 1))?;
        built.push((kv, vv));
        i = i + 1;
    }
    proof {
        assert(s.skip(2 * i) =~= Seq::<Charge>::empty());
    }
    Ok(built)
}

/// Builds a loop record on fresh accounting.
#[verifier::rlimit(100)]
fn build_loop(acc: &mut RecordAccounting, body: &Digest, inits: &Vec<(Identifier, Identifier)>, until: &Expression,
    n: u64, limits: &Limits) -> (res: Result<Value, GraphRecordError>)
    requires
        old(acc).limits == limits,
        old(acc).counters() == (0int, 0int, 0int),
        limits.spec_valid(),
    ensures
        spec_operation_built(*limits, OperationModel::Loop(body@, spec_inits_model(inits@), expr_model(*until), n), res),
{
    if n == 0 || n > 0x7fff_ffff_ffff_ffffu64 {
        return Err(GraphRecordError::InvalidBound("max_iterations"));
    }
    let ghost im = spec_inits_model(inits@);
    let ghost l = *limits;
    let dt = body.to_text();
    let ghost head = seq![Charge::Collection { len: 5, depth: 0 }, spec_ktext("loop"@), spec_ktext(dt@),
        Charge::Collection { len: inits@.len() as usize, depth: 1 }] + spec_inits_charges(im);
    proof {
        reveal_strlit("loop");
        assert(head.skip(0) =~= head);
    }
    charge_at(acc, Charge::Collection { len: 5, depth: 0 }, Ghost(head), Ghost(0))?;
    let tag = text_at(acc, "loop", 1, Ghost(head), Ghost(1))?;
    let dv = text_at(acc, dt.as_str(), 1, Ghost(head), Ghost(2))?;
    let ghost pre = seq![Charge::Collection { len: 5, depth: 0 }, spec_ktext("loop"@), spec_ktext(dt@),
        Charge::Collection { len: inits@.len() as usize, depth: 1 }];
    proof {
        assert(head.skip(4) =~= Seq::<Charge>::empty() + spec_inits_charges(im));
        assert(head.skip(3) =~= seq![Charge::Collection { len: inits@.len() as usize, depth: 1 }] + spec_inits_charges(im));
        crate::record_accounting::lemma_charges_cons(l, acc.counters(), Charge::Collection { len: inits@.len() as usize, depth: 1 },
            spec_inits_charges(im));
    }
    match acc.apply(Charge::Collection { len: inits.len(), depth: 1 }) {
        Ok(()) => {},
        Err(e) => return Err(GraphRecordError::LimitExceeded { limit: e.limit, maximum: e.maximum }),
    }
    let built = charge_inits(acc, inits)?;
    let i = inits.len();
    proof {
        let names = spec_init_names(im);
        assert forall|a: int, b: int| 0 <= a < b < built@.len() implies
            (spec_utf8(#[trigger] built@[a].0@) != spec_utf8(#[trigger] built@[b].0@)
                <==> spec_utf8(names[a]) != spec_utf8(names[b])) by {
            assert(names[a] == im[a].0);
            assert(names[b] == im[b].0);
        }
        if crate::types::model::spec_names_distinct(names) {
            assert forall|a: int, b: int| 0 <= a < b < built@.len() implies
                spec_utf8(#[trigger] built@[a].0@) != spec_utf8(#[trigger] built@[b].0@) by {
                assert(spec_utf8(names[a]) != spec_utf8(names[b]));
            }
        } else {
            let (a, b) = choose|a: int, b: int| 0 <= a < b < names.len()
                && spec_utf8(#[trigger] names[a]) == spec_utf8(#[trigger] names[b]);
            assert(spec_utf8(built@[a].0@) == spec_utf8(built@[b].0@));
        }
    }
    let ghost bv = built@;
    let map = match crate::cbor::value::ValueMap::try_from_entries(built) {
        Ok(x) => x,
        Err(e) => return Err(GraphRecordError::Codec(e)),
    };
    let uv = match until.to_value(ExpressionContext::LoopUntil, limits) {
        Ok(v) => v,
        Err(e) => return Err(GraphRecordError::Expression(e)),
    };
    let ghost c = acc.counters();
    proof {
        crate::record_accounting::lemma_charges_append(l, c, spec_value_charges(uv, 1),
            seq![Charge::Integer { value: n as i64, depth: 1 }]);
    }
    match acc.value(&uv, 1) {
        Ok(()) => {},
        Err(e) => return Err(GraphRecordError::LimitExceeded { limit: e.limit, maximum: e.maximum }),
    }
    let ghost last = seq![Charge::Integer { value: n as i64, depth: 1 }];
    proof {
        assert(last.skip(0) =~= last);
        assert(last.skip(1) =~= Seq::<Charge>::empty());
    }
    charge_at(acc, Charge::Integer { value: n as i64, depth: 1 }, Ghost(last), Ghost(0))?;
    proof {
        assert(bv.to_multiset() == map.entries@.to_multiset());
        assert(spec_inits_entries(bv, im));
    }
    let mut a: Vec<Value> = Vec::new();
    a.push(tag);
    a.push(dv);
    a.push(Value::Object(map));
    a.push(uv);
    a.push(Value::Integer(n as i64));
    Ok(Value::Array(a))
}

impl Operation {
    /// Produces the canonical operation record: header and fixed texts are
    /// charged first, bounds are checked before any value, and a nested
    /// expression or retry record is built on its own and then charged whole.
    pub fn to_value(&self, limits: &Limits) -> (res: Result<Value, GraphRecordError>)
        ensures
            !limits.spec_valid() ==> res matches Err(GraphRecordError::Codec(_)),
            limits.spec_valid() ==> spec_operation_built(*limits, self.spec_model(), res),
    {
        let mut acc = match RecordAccounting::new(limits) {
            Ok(a) => a,
            Err(e) => return Err(GraphRecordError::Codec(e)),
        };
        match self {
            Operation::Eval(x) => build_eval(&mut acc, x, limits),
            Operation::Mcp { binding, retry } => build_mcp(&mut acc, binding, retry, limits),
            Operation::Scope(d) => build_scope(&mut acc, d),
            Operation::Loop { body, initializers, until, max_iterations } =>
                build_loop(&mut acc, body, initializers, until, *max_iterations, limits),
            Operation::Wait { topic, timeout_ms } => build_wait(&mut acc, topic, *timeout_ms),
        }
    }

    /// Encodes one canonical operation record.
    pub fn encode(&self, limits: &Limits) -> (res: Result<Vec<u8>, GraphRecordError>)
        ensures
            !limits.spec_valid() ==> res matches Err(GraphRecordError::Codec(_)),
            limits.spec_valid() ==> exists|r: Result<Value, GraphRecordError>| #[trigger] spec_operation_built(*limits, self.spec_model(), r)
                && match r {
                    Err(e) => res == Err::<Vec<u8>, GraphRecordError>(e),
                    Ok(v) => (crate::cbor::encode::spec_fits(v, *limits) <==> res is Ok)
                        && (res matches Ok(b) ==> b@ == crate::cbor::value::spec_encode(v)),
                },
    {
        let v = self.to_value(limits);
        let v = match v {
            Ok(v) => v,
            Err(e) => return Err(e),
        };
        match crate::cbor::encode::encode(&v, limits) {
            Ok(b) => Ok(b),
            Err(e) => Err(GraphRecordError::Codec(e)),
        }
    }
}

} // verus!

verus! {

/// Whether an evaluation, MCP call, nested scope or wait is one that reads
/// back as itself: canonical expression, 32-byte digests, a valid retry
/// policy, and bounds in `1..=i64::MAX`. Loops are not covered here.
pub open spec fn spec_simple_operation_ok(m: OperationModel) -> bool {
    match m {
        OperationModel::Eval(x) => crate::expression::canonical::spec_expr_wf(x, ExpressionContext::Eval),
        OperationModel::Mcp(b, r) => b.len() == 32 && crate::options::spec_retry_valid(r.0, r.1, r.2),
        OperationModel::Scope(b) => b.len() == 32,
        OperationModel::Wait(_, n) => spec_bound_ok(n),
        OperationModel::Loop(..) => false,
    }
}

/// Reading back: the record of an evaluation, MCP call, nested scope or wait
/// reads as exactly that operation.
pub proof fn lemma_simple_operation_roundtrip(v: Value, m: OperationModel)
    requires
        spec_simple_operation_ok(m),
        spec_operation_record(v, m),
    ensures
        spec_parse_operation(v) == Ok::<OperationModel, GraphRecordError>(m),
{
    reveal_strlit("eval");
    reveal_strlit("scope");
    reveal_strlit("mcp");
    reveal_strlit("wait");
    reveal_strlit("loop");
    assert("eval"@.len() == 4 && "eval"@[0] == 'e');
    assert("scope"@.len() == 5);
    assert("mcp"@.len() == 3);
    assert("wait"@.len() == 4 && "wait"@[0] == 'w');
    assert("loop"@.len() == 4 && "loop"@[0] == 'l');
    let a = v->Array_0@;
    match m {
        OperationModel::Eval(x) => {
            crate::expression::canonical::lemma_expr_roundtrip(a[1], x, ExpressionContext::Eval, false);
        },
        OperationModel::Mcp(b, r) => {
            crate::digest::lemma_digest_text_roundtrip(b);
            crate::options::lemma_retry_roundtrip(r.0, r.1, r.2, a[2]);
        },
        OperationModel::Scope(b) => {
            crate::digest::lemma_digest_text_roundtrip(b);
        },
        OperationModel::Wait(t, n) => {
            assert(((n as i64) as u64) == n);
        },
        OperationModel::Loop(..) => {},
    }
}

} // verus!

verus! {

use crate::identifier::spec_is_identifier;

/// An initializer entry as mathematics: its key and the text it holds.
pub open spec fn spec_init_entry(e: (String, Value)) -> (Seq<char>, Seq<char>) {
    (e.0@, match e.1 { Value::Text(t) => t@, _ => Seq::empty() })
}

/// Whether loop initializers read back: carried names in strictly
/// increasing order, every name an identifier.
pub open spec fn spec_inits_ok(inits: Seq<(Seq<char>, Seq<char>)>) -> bool {
    &&& spec_named_sorted(inits)
    &&& forall|i: int| 0 <= i < inits.len() ==> spec_is_identifier(spec_utf8((#[trigger] inits[i]).0))
        && spec_is_identifier(spec_utf8(inits[i].1))
}

/// Entries holding identifier keys and identifier texts read as themselves.
proof fn lemma_parse_inits_ok(e: Seq<(String, Value)>)
    requires
        forall|i: int| 0 <= i < e.len() ==> spec_is_identifier(spec_utf8((#[trigger] e[i]).0@))
            && (e[i].1 matches Value::Text(t) && spec_is_identifier(spec_utf8(t@))),
    ensures
        spec_parse_inits(e) == Ok::<Seq<(Seq<char>, Seq<char>)>, GraphRecordError>(e.map_values(|x: (String, Value)| spec_init_entry(x))),
    decreases e.len(),
{
    if e.len() > 0 {
        let d = e.drop_last();
        assert forall|i: int| 0 <= i < d.len() implies spec_is_identifier(spec_utf8((#[trigger] d[i]).0@))
            && (d[i].1 matches Value::Text(t) && spec_is_identifier(spec_utf8(t@))) by {
            assert(d[i] == e[i]);
        }
        lemma_parse_inits_ok(d);
        let last = e.last();
        assert(last == e[e.len() - 1]);
        crate::identifier::lemma_identifier_error_iff(spec_utf8(last.0@));
        let t = last.1->Text_0;
        crate::identifier::lemma_identifier_error_iff(spec_utf8(t@));
        assert(e.map_values(|x: (String, Value)| spec_init_entry(x))
            =~= d.map_values(|x: (String, Value)| spec_init_entry(x)).push(spec_init_entry(last)));
        assert(spec_read_gid(last.1) == Ok::<Seq<char>, GraphRecordError>(t@));
    } else {
        assert(e.map_values(|x: (String, Value)| spec_init_entry(x)) =~= Seq::<(Seq<char>, Seq<char>)>::empty());
    }
}

/// Reading back: the record of a loop whose digest has 32 bytes, whose
/// initializers read back, whose test is canonical and whose bound is in
/// `1..=i64::MAX` reads as exactly that loop.
pub proof fn lemma_loop_operation_roundtrip(v: Value, b: Seq<u8>, inits: Seq<(Seq<char>, Seq<char>)>, u: ExprModel, n: u64)
    requires
        b.len() == 32,
        spec_inits_ok(inits),
        crate::expression::canonical::spec_expr_wf(u, ExpressionContext::LoopUntil),
        spec_bound_ok(n),
        spec_operation_record(v, OperationModel::Loop(b, inits, u, n)),
    ensures
        spec_parse_operation(v) == Ok::<OperationModel, GraphRecordError>(OperationModel::Loop(b, inits, u, n)),
{
    reveal_strlit("eval");
    reveal_strlit("scope");
    reveal_strlit("mcp");
    reveal_strlit("wait");
    reveal_strlit("loop");
    assert("eval"@.len() == 4 && "eval"@[0] == 'e');
    assert("scope"@.len() == 5);
    assert("mcp"@.len() == 3);
    assert("wait"@.len() == 4 && "wait"@[0] == 'w');
    assert("loop"@.len() == 4 && "loop"@[0] == 'l');
    let a = v->Array_0@;
    crate::digest::lemma_digest_text_roundtrip(b);
    crate::expression::canonical::lemma_expr_roundtrip(a[3], u, ExpressionContext::LoopUntil, false);
    assert(((n as i64) as u64) == n);
    let map = a[2]->Object_0;
    let entries = map.entries@;
    let built = choose|x: Seq<(String, Value)>| #[trigger] x.to_multiset() == entries.to_multiset() && spec_inits_entries(x, inits);
    let f = |x: (String, Value)| spec_init_entry(x);
    assert(built.map_values(f) =~= inits) by {
        assert forall|i: int| 0 <= i < inits.len() implies #[trigger] built.map_values(f)[i] == inits[i] by {
            assert(built[i].0@ == inits[i].0);
            assert(spec_is_gtext(built[i].1, inits[i].1));
        }
    }
    built.to_multiset_ensures();
    entries.to_multiset_ensures();
    assert forall|j: int| 0 <= j < entries.len() implies spec_is_identifier(spec_utf8((#[trigger] entries[j]).0@))
        && (entries[j].1 matches Value::Text(t) && spec_is_identifier(spec_utf8(t@))) by {
        assert(entries.to_multiset().count(entries[j]) > 0);
        assert(built.contains(entries[j]));
        let k = choose|k: int| 0 <= k < built.len() && built[k] == entries[j];
        assert(built[k].0@ == inits[k].0);
        assert(spec_is_gtext(built[k].1, inits[k].1));
    }
    lemma_parse_inits_ok(entries);
    let parsed = entries.map_values(f);
    crate::expression::template::lemma_map_permutation(entries, built, f);
    assert(parsed.to_multiset() == inits.to_multiset());
    let names = spec_init_names(parsed);
    assert(crate::types::model::spec_names_distinct(names)) by {
        lemma_sorted_views_names(entries, parsed);
    }
    let w = spec_sort_inits(parsed);
    assert(spec_named_sorted(w) && w.to_multiset() == parsed.to_multiset()) by {
        assert(spec_named_sorted(inits) && inits.to_multiset() == parsed.to_multiset());
    }
    crate::metadata::lemma_named_sorted_unique(w, inits);
}

/// Names read from canonically sorted entries are pairwise distinct.
proof fn lemma_sorted_views_names(entries: Seq<(String, Value)>, parsed: Seq<(Seq<char>, Seq<char>)>)
    requires
        crate::cbor::value::spec_keys_sorted(entries),
        parsed == entries.map_values(|x: (String, Value)| spec_init_entry(x)),
    ensures
        crate::types::model::spec_names_distinct(spec_init_names(parsed)),
{
    let names = spec_init_names(parsed);
    crate::cbor::map::lemma_sorted_distinct(entries);
    assert forall|i: int, j: int| 0 <= i < j < names.len() implies spec_utf8(#[trigger] names[i]) != spec_utf8(#[trigger] names[j]) by {
        assert(names[i] == entries[i].0@);
        assert(names[j] == entries[j].0@);
    }
}

} // verus!
