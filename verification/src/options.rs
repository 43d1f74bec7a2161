//! Node/scope execution ceilings and MCP retry metadata.

use vstd::prelude::*;
use vstd::string::*;

use crate::cbor::decode::decode;
use crate::cbor::encode::{encode, spec_fits};
use crate::cbor::error::{Error, ErrorKind, LimitKind};
use crate::cbor::limits::Limits;
use crate::cbor::map::{lemma_find, lemma_find_absent, lemma_find_permutation, lemma_sorted_views_distinct, spec_find, spec_keys_distinct, spec_views_distinct};
use crate::cbor::value::{spec_encode, spec_height, spec_keys_sorted, spec_utf8, spec_wf, Value, ValueMap};
use crate::record_accounting::{
    lemma_charges_append, lemma_charges_cons, lemma_charges_push, spec_apply, spec_charges, Charge, Counters,
    EncodingLimitError, RecordAccounting,
};
use crate::text::same_text;

verus! {

/// The largest integer a record may hold: `i64::MAX`.
pub const MAX_INTEGER: u64 = 0x7fff_ffff_ffff_ffff;

/// A closed execution-option record failed validation or bounded conversion.
/// Errors retain only static schema descriptions/counts and codec causes.
#[derive(Clone, Debug, PartialEq)]
#[non_exhaustive]
pub enum ExecutionOptionsError {
    /// Canonical CBOR configuration/encoding/decoding failure.
    Codec(Error),
    /// The named record was not a map.
    ExpectedRecord(&'static str),
    /// The named record contained an unknown field; its input name is omitted.
    UnknownField(&'static str),
    /// A required retry-policy field is absent.
    MissingField(&'static str),
    /// A field or list item has the wrong native representation.
    InvalidFieldType(&'static str),
    /// A number is outside 0..=i64::MAX.
    OutOfRange(&'static str),
    /// A positive field was explicitly zero.
    ZeroNotAllowed(&'static str),
    /// Delay count differs from max_attempts - 1.
    DelayCountMismatch {
        /// Number of delay entries required by the attempt count.
        expected: u64,
        /// Number of supplied delay entries.
        actual: usize,
    },
    /// Code strings are not strictly increasing in UTF-8 order.
    NonCanonicalCodes,
    /// Conversion would exceed a codec resource ceiling.
    LimitExceeded {
        /// Exhausted resource.
        limit: LimitKind,
        /// Configured ceiling.
        maximum: usize,
    },
    /// A fallible storage reservation failed.
    AllocationFailed,
}

/// The option error for an exhausted conversion ceiling.
pub open spec fn spec_limit_error(e: EncodingLimitError) -> ExecutionOptionsError {
    ExecutionOptionsError::LimitExceeded { limit: e.limit, maximum: e.maximum }
}

fn limit_error<T>(r: Result<T, EncodingLimitError>) -> (res: Result<T, ExecutionOptionsError>)
    ensures
        r matches Ok(x) ==> res == Ok::<T, ExecutionOptionsError>(x),
        r matches Err(e) ==> res == Err::<T, ExecutionOptionsError>(spec_limit_error(e)),
{
    match r {
        Ok(x) => Ok(x),
        Err(e) => Err(ExecutionOptionsError::LimitExceeded { limit: e.limit, maximum: e.maximum }),
    }
}

/// The name of limit field `i`, in UTF-8 order.
pub open spec fn spec_limit_name(i: int) -> &'static str {
    if i == 0 {
        "attempt_timeout_ms"
    } else if i == 1 {
        "max_concurrency"
    } else if i == 2 {
        "max_cost_units"
    } else if i == 3 {
        "max_mcp_calls"
    } else if i == 4 {
        "max_tokens"
    } else {
        "timeout_ms"
    }
}

/// Whether limit field `i` must be positive rather than nonnegative.
pub open spec fn spec_limit_positive(i: int) -> bool {
    i == 0 || i == 1 || i == 5
}

/// The limit field names are distinct.
pub proof fn lemma_limit_names_distinct(i: int, j: int)
    requires
        0 <= i < 6,
        0 <= j < 6,
        i != j,
    ensures
        spec_limit_name(i)@ != spec_limit_name(j)@,
{
    reveal_strlit("attempt_timeout_ms");
    reveal_strlit("max_concurrency");
    reveal_strlit("max_cost_units");
    reveal_strlit("max_mcp_calls");
    reveal_strlit("max_tokens");
    reveal_strlit("timeout_ms");
    assert(spec_limit_name(i)@.len() != spec_limit_name(j)@.len() || spec_limit_name(i)@[0] != spec_limit_name(j)@[0]);
}

fn limit_name(i: usize) -> (res: &'static str)
    requires
        i < 6,
    ensures
        res == spec_limit_name(i as int),
{
    if i == 0 {
        "attempt_timeout_ms"
    } else if i == 1 {
        "max_concurrency"
    } else if i == 2 {
        "max_cost_units"
    } else if i == 3 {
        "max_mcp_calls"
    } else if i == 4 {
        "max_tokens"
    } else {
        "timeout_ms"
    }
}

/// A configured number is within `0..=i64::MAX` and, where required, positive.
pub open spec fn spec_integer_ok(value: u64, positive: bool) -> bool {
    value <= MAX_INTEGER && !(positive && value == 0)
}

/// The error for a number that fails [`spec_integer_ok`].
pub open spec fn spec_integer_error(value: u64, field: &'static str) -> ExecutionOptionsError {
    if value > MAX_INTEGER {
        ExecutionOptionsError::OutOfRange(field)
    } else {
        ExecutionOptionsError::ZeroNotAllowed(field)
    }
}

fn validate_integer(value: u64, field: &'static str, positive: bool) -> (res: Result<(), ExecutionOptionsError>)
    ensures
        res is Ok <==> spec_integer_ok(value, positive),
        res is Err ==> res == Err::<(), ExecutionOptionsError>(spec_integer_error(value, field)),
{
    if value > MAX_INTEGER {
        return Err(ExecutionOptionsError::OutOfRange(field));
    }
    if positive && value == 0 {
        return Err(ExecutionOptionsError::ZeroNotAllowed(field));
    }
    Ok(())
}

/// Reading a record number: it must be a nonnegative integer, and positive
/// where required.
pub open spec fn spec_read_integer(v: Value, field: &'static str, positive: bool) -> Result<u64, ExecutionOptionsError> {
    match v {
        Value::Integer(x) => if x < 0 {
            Err(ExecutionOptionsError::OutOfRange(field))
        } else if positive && x == 0 {
            Err(ExecutionOptionsError::ZeroNotAllowed(field))
        } else {
            Ok(x as u64)
        },
        _ => Err(ExecutionOptionsError::InvalidFieldType(field)),
    }
}

fn read_integer(v: &Value, field: &'static str, positive: bool) -> (res: Result<u64, ExecutionOptionsError>)
    ensures
        res == spec_read_integer(*v, field, positive),
{
    match v {
        Value::Integer(x) => {
            if *x < 0 {
                return Err(ExecutionOptionsError::OutOfRange(field));
            }
            let value = *x as u64;
            validate_integer(value, field, positive)?;
            Ok(value)
        },
        _ => Err(ExecutionOptionsError::InvalidFieldType(field)),
    }
}

/// The record value of an optional field.
pub open spec fn spec_limit_value(o: Option<u64>) -> Option<Value> {
    match o {
        Some(x) => Some(Value::Integer(x as i64)),
        None => None,
    }
}

/// The value a limit field holds when set, by its spelling.
pub open spec fn spec_limit_expected(values: Seq<Option<u64>>, k: Seq<char>) -> Option<Value> {
    if k == spec_limit_name(0)@ {
        match values[0] { Some(x) => Some(Value::Integer(x as i64)), None => None }
    } else if k == spec_limit_name(1)@ {
        match values[1] { Some(x) => Some(Value::Integer(x as i64)), None => None }
    } else if k == spec_limit_name(2)@ {
        match values[2] { Some(x) => Some(Value::Integer(x as i64)), None => None }
    } else if k == spec_limit_name(3)@ {
        match values[3] { Some(x) => Some(Value::Integer(x as i64)), None => None }
    } else if k == spec_limit_name(4)@ {
        match values[4] { Some(x) => Some(Value::Integer(x as i64)), None => None }
    } else if k == spec_limit_name(5)@ {
        match values[5] { Some(x) => Some(Value::Integer(x as i64)), None => None }
    } else {
        None
    }
}

/// A canonical map holding exactly the set limit fields.
pub open spec fn spec_limits_record(v: Value, values: Seq<Option<u64>>) -> bool {
    match v {
        Value::Object(m) => spec_keys_sorted(m.entries@)
            && forall|k: Seq<char>| #[trigger] spec_find(m.entries@, k) == spec_limit_expected(values, k),
        _ => false,
    }
}

/// The number of set fields among the first `n`.
pub open spec fn spec_count_set(values: Seq<Option<u64>>, n: int) -> nat
    decreases n,
{
    if n <= 0 {
        0
    } else {
        spec_count_set(values, n - 1) + if values[n - 1] is Some { 1nat } else { 0nat }
    }
}

/// Everything a limits record charges: its header, then each set field.
pub open spec fn spec_limits_charges(values: Seq<Option<u64>>) -> Seq<Charge> {
    seq![Charge::Collection { len: spec_count_set(values, 6) as usize, depth: 0 }] + spec_field_charges_from(values, 0)
}

/// Reading the fields `i..6` of a limits map with no unknown keys.
pub open spec fn spec_parse_limit_fields(entries: Seq<(String, Value)>, i: int, acc: Seq<Option<u64>>) -> Result<Seq<Option<u64>>, ExecutionOptionsError>
    decreases 6 - i,
{
    if i >= 6 {
        Ok(acc)
    } else {
        match spec_find(entries, spec_limit_name(i)@) {
            None => spec_parse_limit_fields(entries, i + 1, acc.push(None)),
            Some(v) => match spec_read_integer(v, spec_limit_name(i), spec_limit_positive(i)) {
                Ok(x) => spec_parse_limit_fields(entries, i + 1, acc.push(Some(x))),
                Err(e) => Err(e),
            },
        }
    }
}

/// A key is one of the six limit fields.
pub open spec fn spec_known_limit(k: Seq<char>) -> bool {
    exists|i: int| 0 <= i < 6 && spec_limit_name(i)@ == k
}

/// Reading a local-limits record: a map, with known fields only, each a
/// number in range; absent fields inherit.
pub open spec fn spec_parse_limits(v: Value) -> Result<Seq<Option<u64>>, ExecutionOptionsError> {
    match v {
        Value::Object(m) => if exists|j: int| 0 <= j < m.entries@.len() && !spec_known_limit((#[trigger] m.entries@[j]).0@) {
            Err(ExecutionOptionsError::UnknownField("execution limits"))
        } else {
            spec_parse_limit_fields(m.entries@, 0, Seq::empty())
        },
        _ => Err(ExecutionOptionsError::ExpectedRecord("execution limits")),
    }
}

/// The values charged for the set fields `i..6`.
pub open spec fn spec_field_charges_from(values: Seq<Option<u64>>, i: int) -> Seq<Charge>
    decreases 6 - i,
{
    if i >= 6 {
        Seq::empty()
    } else {
        spec_field_step(values, i) + spec_field_charges_from(values, i + 1)
    }
}

/// The values charged for field `i` alone.
pub open spec fn spec_field_step(values: Seq<Option<u64>>, i: int) -> Seq<Charge> {
    match values[i] {
        Some(x) => seq![
            Charge::Text { len: spec_utf8(spec_limit_name(i)@).len() as usize, depth: 1 },
            Charge::Integer { value: x as i64, depth: 1 },
        ],
        None => Seq::empty(),
    }
}

/// Entry `e` is one of the set fields `0..n` with its value.
pub open spec fn spec_entry_from(values: Seq<Option<u64>>, e: (String, Value), n: int) -> bool {
    exists|k: int| 0 <= k < n && e.0@ == spec_limit_name(k)@ && #[trigger] spec_limit_value(values[k]) == Some(e.1)
}

/// Some entry carries the name of field `k`.
pub open spec fn spec_covered(f: Seq<(String, Value)>, k: int) -> bool {
    exists|j: int| 0 <= j < f.len() && (#[trigger] f[j]).0@ == spec_limit_name(k)@
}

proof fn lemma_in_both<A>(s: Seq<A>, t: Seq<A>, x: A)
    requires
        s.to_multiset() == t.to_multiset(),
        s.contains(x),
    ensures
        t.contains(x),
{
    s.to_multiset_ensures();
    t.to_multiset_ensures();
    assert(s.to_multiset().count(x) > 0);
}

proof fn lemma_limits_map(input: Seq<(String, Value)>, entries: Seq<(String, Value)>, values: Seq<Option<u64>>)
    requires
        values.len() == 6,
        spec_keys_sorted(entries),
        entries.to_multiset() == input.to_multiset(),
        forall|j: int| 0 <= j < input.len() ==> spec_entry_from(values, #[trigger] input[j], 6),
        forall|k: int| 0 <= k < 6 && values[k] is Some ==> #[trigger] spec_covered(input, k),
    ensures
        forall|k: Seq<char>| #[trigger] spec_find(entries, k) == spec_limit_expected(values, k),
{
    assert forall|a: int, b: int| 0 <= a < b < entries.len() implies (#[trigger] entries[a]).0@ != (#[trigger] entries[b]).0@ by {
        crate::cbor::keys::lemma_key_order(spec_utf8(entries[a].0@), spec_utf8(entries[b].0@), spec_utf8(entries[b].0@));
    }
    assert forall|j: int| 0 <= j < entries.len() implies spec_entry_from(values, #[trigger] entries[j], 6) by {
        assert(entries.contains(entries[j]));
        lemma_in_both(entries, input, entries[j]);
        let jj = choose|jj: int| 0 <= jj < input.len() && input[jj] == entries[j];
        assert(spec_entry_from(values, input[jj], 6));
    }
    assert forall|f: int| 0 <= f < 6 implies #[trigger] spec_find(entries, spec_limit_name(f)@) == spec_limit_value(values[f]) by {
        if values[f] is Some {
            assert(spec_covered(input, f));
            let jj = choose|jj: int| 0 <= jj < input.len() && (#[trigger] input[jj]).0@ == spec_limit_name(f)@;
            assert(input.contains(input[jj]));
            lemma_in_both(input, entries, input[jj]);
            let j = choose|j: int| 0 <= j < entries.len() && entries[j] == input[jj];
            lemma_find(entries, spec_limit_name(f)@, j);
            assert(spec_entry_from(values, entries[j], 6));
            let kk = choose|kk: int| 0 <= kk < 6 && entries[j].0@ == spec_limit_name(kk)@
                && #[trigger] spec_limit_value(values[kk]) == Some(entries[j].1);
            if kk != f {
                lemma_limit_names_distinct(kk, f);
            }
        } else {
            assert forall|j: int| 0 <= j < entries.len() implies (#[trigger] entries[j]).0@ != spec_limit_name(f)@ by {
                assert(spec_entry_from(values, entries[j], 6));
                let kk = choose|kk: int| 0 <= kk < 6 && entries[j].0@ == spec_limit_name(kk)@
                    && #[trigger] spec_limit_value(values[kk]) == Some(entries[j].1);
                if kk != f {
                    lemma_limit_names_distinct(kk, f);
                }
            }
            lemma_find_absent(entries, spec_limit_name(f)@);
        }
    }
    assert forall|k: Seq<char>| #[trigger] spec_find(entries, k) == spec_limit_expected(values, k) by {
        lemma_limit_names_distinct(0, 1);
        lemma_limit_names_distinct(0, 2);
        lemma_limit_names_distinct(0, 3);
        lemma_limit_names_distinct(0, 4);
        lemma_limit_names_distinct(0, 5);
        lemma_limit_names_distinct(1, 2);
        lemma_limit_names_distinct(1, 3);
        lemma_limit_names_distinct(1, 4);
        lemma_limit_names_distinct(1, 5);
        lemma_limit_names_distinct(2, 3);
        lemma_limit_names_distinct(2, 4);
        lemma_limit_names_distinct(2, 5);
        lemma_limit_names_distinct(3, 4);
        lemma_limit_names_distinct(3, 5);
        lemma_limit_names_distinct(4, 5);
        if k == spec_limit_name(0)@ {
            assert(spec_find(entries, spec_limit_name(0)@) == spec_limit_value(values[0]));
        } else if k == spec_limit_name(1)@ {
            assert(spec_find(entries, spec_limit_name(1)@) == spec_limit_value(values[1]));
        } else if k == spec_limit_name(2)@ {
            assert(spec_find(entries, spec_limit_name(2)@) == spec_limit_value(values[2]));
        } else if k == spec_limit_name(3)@ {
            assert(spec_find(entries, spec_limit_name(3)@) == spec_limit_value(values[3]));
        } else if k == spec_limit_name(4)@ {
            assert(spec_find(entries, spec_limit_name(4)@) == spec_limit_value(values[4]));
        } else if k == spec_limit_name(5)@ {
            assert(spec_find(entries, spec_limit_name(5)@) == spec_limit_value(values[5]));
        } else {
            assert forall|j: int| 0 <= j < entries.len() implies (#[trigger] entries[j]).0@ != k by {
                assert(spec_entry_from(values, entries[j], 6));
            }
            lemma_find_absent(entries, k);
        }
    }
}

fn is_limit_name(text: &str) -> (res: bool)
    ensures
        res <==> spec_known_limit(text@),
{
    let mut i: usize = 0;
    while i < 6
        invariant
            i <= 6,
            forall|k: int| 0 <= k < i ==> spec_limit_name(k)@ != text@,
        decreases 6 - i,
    {
        if same_text(limit_name(i), text) {
            return true;
        }
        i = i + 1;
    }
    proof {
        assert forall|k: int| 0 <= k < 6 implies spec_limit_name(k)@ != text@ by {}
    }
    false
}

/// Reading back the record of valid limits gives the same limits.
pub proof fn lemma_limits_roundtrip(values: Seq<Option<u64>>, v: Value)
    requires
        spec_limits_valid(values),
        spec_limits_record(v, values),
    ensures
        spec_parse_limits(v) == Ok::<Seq<Option<u64>>, ExecutionOptionsError>(values),
{
    let m = v->Object_0;
    let entries = m.entries@;
    assert forall|j: int| 0 <= j < entries.len() implies spec_known_limit((#[trigger] entries[j]).0@) by {
        let k = entries[j].0@;
        assert(spec_find(entries, k) == spec_limit_expected(values, k));
        lemma_find_first(entries, k, j);
        if !spec_known_limit(k) {
            assert(k != spec_limit_name(0)@);
            assert(k != spec_limit_name(1)@);
            assert(k != spec_limit_name(2)@);
            assert(k != spec_limit_name(3)@);
            assert(k != spec_limit_name(4)@);
            assert(k != spec_limit_name(5)@);
        }
    }
    lemma_limit_fields_roundtrip(entries, values, 0);
    assert(values.subrange(0, 0) =~= Seq::<Option<u64>>::empty());
}

proof fn lemma_find_first(entries: Seq<(String, Value)>, k: Seq<char>, j: int)
    requires
        0 <= j < entries.len(),
        entries[j].0@ == k,
    ensures
        spec_find(entries, k) is Some,
    decreases entries.len(),
{
    if j > 0 && entries[0].0@ != k {
        assert(entries.drop_first()[j - 1] == entries[j]);
        lemma_find_first(entries.drop_first(), k, j - 1);
    }
}

proof fn lemma_limit_fields_roundtrip(entries: Seq<(String, Value)>, values: Seq<Option<u64>>, i: int)
    requires
        0 <= i <= 6,
        spec_limits_valid(values),
        forall|k: Seq<char>| #[trigger] spec_find(entries, k) == spec_limit_expected(values, k),
    ensures
        spec_parse_limit_fields(entries, i, values.subrange(0, i)) == Ok::<Seq<Option<u64>>, ExecutionOptionsError>(values),
    decreases 6 - i,
{
    if i == 6 {
        assert(values.subrange(0, 6) =~= values);
    } else {
        lemma_limit_names_distinct(0, 1);
        lemma_limit_names_distinct(0, 2);
        lemma_limit_names_distinct(0, 3);
        lemma_limit_names_distinct(0, 4);
        lemma_limit_names_distinct(0, 5);
        lemma_limit_names_distinct(1, 2);
        lemma_limit_names_distinct(1, 3);
        lemma_limit_names_distinct(1, 4);
        lemma_limit_names_distinct(1, 5);
        lemma_limit_names_distinct(2, 3);
        lemma_limit_names_distinct(2, 4);
        lemma_limit_names_distinct(2, 5);
        lemma_limit_names_distinct(3, 4);
        lemma_limit_names_distinct(3, 5);
        lemma_limit_names_distinct(4, 5);
        assert(spec_find(entries, spec_limit_name(i)@) == spec_limit_value(values[i]));
        assert(values.subrange(0, i + 1) =~= values.subrange(0, i).push(values[i]));
        if values[i] is Some {
            let x = values[i]->0;
            assert(spec_integer_ok(x, spec_limit_positive(i)));
            assert((x as i64) as u64 == x);
        }
        lemma_limit_fields_roundtrip(entries, values, i + 1);
    }
}

/// Optional node/scope execution ceilings, separate from codec limits and usage.
///
/// Empty is an empty canonical map and means inheritance, not unlimited
/// execution or zero capacity. Call/token/cost budgets may be zero; timeouts
/// and concurrency must be positive. Every number fits signed i64.
#[derive(Debug)]
pub struct ExecutionLimits {
    values: [Option<u64>; 6],
}

/// Every set field is a valid number for its position.
pub open spec fn spec_limits_valid(values: Seq<Option<u64>>) -> bool {
    &&& values.len() == 6
    &&& forall|i: int| 0 <= i < 6 ==> (#[trigger] values[i] matches Some(x) ==> spec_integer_ok(x, spec_limit_positive(i)))
}

impl Default for ExecutionLimits {
    /// Empty local limits, the same as [`ExecutionLimits::new`].
    fn default() -> (res: ExecutionLimits)
        ensures
            res.spec_values() == seq![None::<u64>, None, None, None, None, None],
    {
        ExecutionLimits::new()
    }
}

impl PartialEq for ExecutionLimits {
    fn eq(&self, other: &Self) -> (res: bool) {
        let mut i: usize = 0;
        while i < 6
            invariant
                i <= 6,
                self.spec_values().len() == 6,
                other.spec_values().len() == 6,
                forall|k: int| 0 <= k < i ==> self.spec_values()[k] == other.spec_values()[k],
            decreases 6 - i,
        {
            let a = self.get(i);
            let b = other.get(i);
            let same = match (a, b) {
                (Some(x), Some(y)) => x == y,
                (None, None) => true,
                _ => false,
            };
            if !same {
                return false;
            }
            i = i + 1;
        }
        proof { assert(self.spec_values() =~= other.spec_values()); }
        true
    }
}

impl vstd::std_specs::cmp::PartialEqSpecImpl for ExecutionLimits {
    open spec fn obeys_eq_spec() -> bool {
        true
    }

    open spec fn eq_spec(&self, other: &ExecutionLimits) -> bool {
        self.spec_values() == other.spec_values()
    }
}

impl Eq for ExecutionLimits {}

impl ExecutionLimits {
    #[verifier::type_invariant]
    spec fn valid(&self) -> bool {
        spec_limits_valid(self.values@)
    }

    /// The six optional fields, in UTF-8 name order.
    pub closed spec fn spec_values(&self) -> Seq<Option<u64>> {
        self.values@
    }

    /// Creates empty local limits, inheriting all applicable ceilings.
    pub fn new() -> (res: ExecutionLimits)
        ensures
            res.spec_values() == seq![None::<u64>, None, None, None, None, None],
            spec_limits_valid(res.spec_values()),
    {
        let res = ExecutionLimits { values: [None, None, None, None, None, None] };
        assert(res.values@ =~= seq![None::<u64>, None, None, None, None, None]);
        res
    }

    fn get(&self, i: usize) -> (res: Option<u64>)
        requires
            i < 6,
        ensures
            res == self.spec_values()[i as int],
    {
        proof {
            use_type_invariant(self);
        }
        self.values[i]
    }

    fn with_field(self, i: usize, value: u64) -> (res: Result<ExecutionLimits, ExecutionOptionsError>)
        requires
            i < 6,
        ensures
            res is Ok <==> spec_integer_ok(value, spec_limit_positive(i as int)),
            res matches Ok(r) ==> r.spec_values() == self.spec_values().update(i as int, Some(value))
                && spec_limits_valid(r.spec_values()),
            res is Err ==> res == Err::<ExecutionLimits, ExecutionOptionsError>(
                spec_integer_error(value, spec_limit_name(i as int))),
    {
        proof {
            use_type_invariant(&self);
        }
        let positive = i == 0 || i == 1 || i == 5;
        validate_integer(value, limit_name(i), positive)?;
        let mut values = self.values;
        values[i] = Some(value);
        assert(spec_limits_valid(values@));
        Ok(ExecutionLimits { values })
    }

    fn count_set(&self) -> (res: usize)
        ensures
            res == spec_count_set(self.spec_values(), 6),
            res <= 6,
    {
        let mut n: usize = 0;
        let mut i: usize = 0;
        while i < 6
            invariant
                i <= 6,
                n == spec_count_set(self.values@, i as int),
                n <= i,
                self.values@.len() == 6,
            decreases 6 - i,
        {
            if self.values[i].is_some() {
                n = n + 1;
            }
            i = i + 1;
        }
        n
    }

    /// Produces the canonical record, omitting unset fields. Every value is
    /// charged against `limits` before the map is built.
    pub fn to_value(&self, limits: &Limits) -> (res: Result<Value, ExecutionOptionsError>)
        ensures
            !limits.spec_valid() ==> (res matches Err(ExecutionOptionsError::Codec(e)) && e.kind == ErrorKind::InvalidLimits),
            limits.spec_valid() ==> match spec_charges(*limits, (0, 0, 0), spec_limits_charges(self.spec_values())) {
                Ok(_) => res matches Ok(v) && spec_limits_record(v, self.spec_values()),
                Err(e) => res == Err::<Value, ExecutionOptionsError>(spec_limit_error(e)),
            },
    {
        proof {
            use_type_invariant(self);
        }
        let ghost values = self.values@;
        let ghost l = *limits;
        let mut accounting = match RecordAccounting::new(limits) {
            Ok(a) => a,
            Err(e) => return Err(ExecutionOptionsError::Codec(e)),
        };
        let count = self.count_set();
        proof {
            lemma_charges_cons(l, (0, 0, 0), Charge::Collection { len: count, depth: 0 }, spec_field_charges_from(values, 0));
        }
        limit_error(accounting.apply(Charge::Collection { len: count, depth: 0 }))?;
        let mut i: usize = 0;
        while i < 6
            invariant
                i <= 6,
                values == self.values@,
                values.len() == 6,
                spec_limits_valid(values),
                l == *limits,
                l.spec_valid(),
                accounting.limits == limits,
                spec_charges(l, (0, 0, 0), spec_limits_charges(values))
                    == spec_charges(l, accounting.counters(), spec_field_charges_from(values, i as int)),
            decreases 6 - i,
        {
            if let Some(x) = self.values[i] {
                let name = limit_name(i);
                let text = Charge::Text { len: name.as_bytes().len(), depth: 1 };
                let number = Charge::Integer { value: x as i64, depth: 1 };
                proof {
                    assert(spec_field_charges_from(values, i as int)
                        =~= seq![text] + (seq![number] + spec_field_charges_from(values, i + 1)));
                    lemma_charges_cons(l, accounting.counters(), text, seq![number] + spec_field_charges_from(values, i + 1));
                }
                limit_error(accounting.apply(text))?;
                proof {
                    lemma_charges_cons(l, accounting.counters(), number, spec_field_charges_from(values, i + 1));
                }
                limit_error(accounting.apply(number))?;
            } else {
                proof {
                    assert(spec_field_charges_from(values, i as int) =~= spec_field_charges_from(values, i + 1));
                }
            }
            i = i + 1;
        }
        let mut fields: Vec<(String, Value)> = Vec::new();
        let mut i: usize = 0;
        while i < 6
            invariant
                i <= 6,
                values == self.values@,
                values.len() == 6,
                spec_limits_valid(values),
                forall|j: int| 0 <= j < fields@.len() ==> spec_entry_from(values, #[trigger] fields@[j], i as int),
                forall|k: int| 0 <= k < i && values[k] is Some ==> #[trigger] spec_covered(fields@, k),
                forall|a: int, b: int| 0 <= a < b < fields@.len() ==> (#[trigger] fields@[a]).0@ != (#[trigger] fields@[b]).0@,
            decreases 6 - i,
        {
            if let Some(x) = self.values[i] {
                let ghost old_fields = fields@;
                fields.push((String::from_str(limit_name(i)), Value::Integer(x as i64)));
                proof {
                    let n = old_fields.len() as int;
                    assert(fields@[n].0@ == spec_limit_name(i as int)@);
                    assert(spec_limit_value(values[i as int]) == Some(fields@[n].1));
                    assert(spec_entry_from(values, fields@[n], i + 1));
                    assert forall|j: int| 0 <= j < n implies fields@[j].0@ != spec_limit_name(i as int)@ by {
                        assert(fields@[j] == old_fields[j]);
                        assert(spec_entry_from(values, old_fields[j], i as int));
                        let k = choose|k: int| 0 <= k < i && old_fields[j].0@ == spec_limit_name(k)@
                            && #[trigger] spec_limit_value(values[k]) == Some(old_fields[j].1);
                        lemma_limit_names_distinct(k, i as int);
                    }
                    assert forall|j: int| 0 <= j < fields@.len() implies spec_entry_from(values, #[trigger] fields@[j], i + 1) by {
                        if j < n {
                            assert(fields@[j] == old_fields[j]);
                            assert(spec_entry_from(values, old_fields[j], i as int));
                            let k = choose|k: int| 0 <= k < i && old_fields[j].0@ == spec_limit_name(k)@
                                && #[trigger] spec_limit_value(values[k]) == Some(old_fields[j].1);
                            assert(spec_limit_value(values[k]) == Some(fields@[j].1));
                        }
                    }
                    assert forall|k: int| 0 <= k < i + 1 && values[k] is Some implies #[trigger] spec_covered(fields@, k) by {
                        if k == i {
                            assert(fields@[n].0@ == spec_limit_name(k)@);
                        } else {
                            assert(spec_covered(old_fields, k));
                            let j = choose|j: int| 0 <= j < old_fields.len() && (#[trigger] old_fields[j]).0@ == spec_limit_name(k)@;
                            assert(fields@[j] == old_fields[j]);
                        }
                    }
                }
            } else {
                proof {
                    assert forall|j: int| 0 <= j < fields@.len() implies spec_entry_from(values, #[trigger] fields@[j], i + 1) by {
                        assert(spec_entry_from(values, fields@[j], i as int));
                        let k = choose|k: int| 0 <= k < i && fields@[j].0@ == spec_limit_name(k)@
                            && #[trigger] spec_limit_value(values[k]) == Some(fields@[j].1);
                        assert(spec_limit_value(values[k]) == Some(fields@[j].1));
                    }
                }
            }
            i = i + 1;
        }
        proof {
            assert(spec_keys_distinct(fields@)) by {
                assert forall|a: int, b: int| 0 <= a < b < fields@.len() implies spec_utf8(#[trigger] fields@[a].0@) != spec_utf8(#[trigger] fields@[b].0@) by {
                    vstd::utf8::encode_utf8_decode_utf8(fields@[a].0@);
                    vstd::utf8::encode_utf8_decode_utf8(fields@[b].0@);
                }
            }
        }
        let ghost input = fields@;
        let map = match ValueMap::try_from_entries(fields) {
            Ok(m) => m,
            Err(e) => return Err(ExecutionOptionsError::Codec(e)),
        };
        proof {
            lemma_limits_map(input, map.entries@, values);
        }
        Ok(Value::Object(map))
    }

    /// Reads a local-limits record: a map of known fields, each a number in
    /// range. Null is not an omitted field, and nothing is coerced.
    pub fn parse(value: &Value) -> (res: Result<ExecutionLimits, ExecutionOptionsError>)
        ensures
            match spec_parse_limits(*value) {
                Ok(vals) => res matches Ok(r) && r.spec_values() == vals,
                Err(e) => res == Err::<ExecutionLimits, ExecutionOptionsError>(e),
            },
    {
        let m = match value {
            Value::Object(m) => m,
            _ => return Err(ExecutionOptionsError::ExpectedRecord("execution limits")),
        };
        let ghost entries = m.entries@;
        let mut j: usize = 0;
        while j < m.entries.len()
            invariant
                j <= entries.len(),
                entries == m.entries@,
                *value == Value::Object(*m),
                forall|jj: int| 0 <= jj < j ==> spec_known_limit((#[trigger] entries[jj]).0@),
            decreases entries.len() - j,
        {
            if !is_limit_name(m.entries[j].0.as_str()) {
                assert(!spec_known_limit(entries[j as int].0@));
                return Err(ExecutionOptionsError::UnknownField("execution limits"));
            }
            j = j + 1;
        }
        let mut values: [Option<u64>; 6] = [None, None, None, None, None, None];
        assert(values@.subrange(0, 0) =~= Seq::<Option<u64>>::empty());
        assert(spec_parse_limits(*value) == spec_parse_limit_fields(entries, 0, Seq::empty()));
        let mut i: usize = 0;
        while i < 6
            invariant
                i <= 6,
                entries == m.entries@,
                spec_parse_limits(*value) == spec_parse_limit_fields(entries, 0, Seq::empty()),
                values@.len() == 6,
                spec_parse_limit_fields(entries, 0, Seq::empty())
                    == spec_parse_limit_fields(entries, i as int, values@.subrange(0, i as int)),
                forall|k: int| 0 <= k < i ==> (#[trigger] values@[k] matches Some(x) ==> spec_integer_ok(x, spec_limit_positive(k))),
                forall|k: int| i <= k < 6 ==> #[trigger] values@[k] is None,
            decreases 6 - i,
        {
            let name = limit_name(i);
            let positive = i == 0 || i == 1 || i == 5;
            let ghost acc = values@.subrange(0, i as int);
            match m.get(name) {
                None => {
                    assert(values@.subrange(0, i + 1) =~= acc.push(None));
                },
                Some(v) => {
                    let x = read_integer(v, name, positive)?;
                    values[i] = Some(x);
                    assert(values@.subrange(0, i + 1) =~= acc.push(Some(x)));
                },
            }
            i = i + 1;
        }
        assert(values@.subrange(0, 6) =~= values@);
        assert(spec_limits_valid(values@));
        Ok(ExecutionLimits { values })
    }

    /// Validates an already decoded record under the codec limits, then reads it.
    pub fn from_value(value: &Value, limits: &Limits) -> (res: Result<ExecutionLimits, ExecutionOptionsError>)
        ensures
            !(limits.spec_valid() && spec_fits(*value, *limits)) ==> res matches Err(ExecutionOptionsError::Codec(_)),
            limits.spec_valid() && spec_fits(*value, *limits) ==> match spec_parse_limits(*value) {
                Ok(vals) => res matches Ok(r) && r.spec_values() == vals,
                Err(e) => res == Err::<ExecutionLimits, ExecutionOptionsError>(e),
            },
    {
        if let Err(e) = encode(value, limits) {
            return Err(ExecutionOptionsError::Codec(e));
        }
        ExecutionLimits::parse(value)
    }

    /// Encodes one canonical local-limits map.
    pub fn encode(&self, limits: &Limits) -> (res: Result<Vec<u8>, ExecutionOptionsError>)
        ensures
            !limits.spec_valid() ==> res matches Err(ExecutionOptionsError::Codec(_)),
            limits.spec_valid() ==> match spec_charges(*limits, (0, 0, 0), spec_limits_charges(self.spec_values())) {
                Ok(_) => res matches Ok(b) ==> exists|v: Value| spec_limits_record(v, self.spec_values()) && b@ == spec_encode(v),
                Err(e) => res == Err::<Vec<u8>, ExecutionOptionsError>(spec_limit_error(e)),
            },
            limits.spec_valid() ==> match spec_charges(*limits, (0, 0, 0), spec_limits_charges(self.spec_values())) {
                Ok(_) => exists|v: crate::cbor::value::Value| (crate::cbor::encode::spec_fits(v, *limits) <==> res is Ok) && (res matches Ok(b) ==> b@ == crate::cbor::value::spec_encode(v)) && spec_limits_record(v, self.spec_values()),
                Err(e) => res == Err::<Vec<u8>, ExecutionOptionsError>(spec_limit_error(e)),
            },
    {
        let v = self.to_value(limits)?;
        match encode(&v, limits) {
            Ok(b) => Ok(b),
            Err(e) => Err(ExecutionOptionsError::Codec(e)),
        }
    }

    /// Decodes exactly one canonical local-limits map.
    pub fn decode(bytes: &[u8], limits: &Limits) -> (res: Result<ExecutionLimits, ExecutionOptionsError>)
        ensures
            res matches Ok(r) ==> exists|w: Value| #[trigger] spec_encode(w) == bytes@ && spec_wf(w)
                && spec_parse_limits(w) == Ok::<Seq<Option<u64>>, ExecutionOptionsError>(r.spec_values()),
            !limits.spec_valid() ==> res matches Err(ExecutionOptionsError::Codec(_)),
            limits.spec_valid() && (exists|x: crate::cbor::value::Value| #[trigger] crate::cbor::value::spec_encode(x) == bytes@
                && crate::cbor::value::spec_wf(x) && crate::cbor::value::spec_height(x) <= limits.max_depth
                && bytes@.len() <= limits.max_document_bytes) ==> exists|w: crate::cbor::value::Value|
                #[trigger] crate::cbor::value::spec_encode(w) == bytes@ && crate::cbor::value::spec_wf(w) && (match spec_parse_limits(w) {
                Ok(vals) => res matches Ok(r) && r.spec_values() == vals,
                Err(e) => res == Err::<ExecutionLimits, ExecutionOptionsError>(e),
            }),
    {
        let v = match decode(bytes, limits) {
            Ok(v) => v,
            Err(e) => return Err(ExecutionOptionsError::Codec(e)),
        };
        proof { assert(crate::cbor::value::spec_encode(v) == bytes@ && crate::cbor::value::spec_wf(v)); }
        let r = ExecutionLimits::parse(&v)?;
        assert(spec_encode(v) == bytes@);
        Ok(r)
    }

    /// Per-attempt duration ceiling in milliseconds, or inheritance.
    pub fn attempt_timeout_ms(&self) -> (res: Option<u64>)
        ensures
            res == self.spec_values()[0],
    {
        self.get(0)
    }

    /// Concurrent descendant MCP dispatch ceiling, or inheritance.
    pub fn max_concurrency(&self) -> (res: Option<u64>)
        ensures
            res == self.spec_values()[1],
    {
        self.get(1)
    }

    /// Cost-unit budget, including explicit zero, or inheritance.
    pub fn max_cost_units(&self) -> (res: Option<u64>)
        ensures
            res == self.spec_values()[2],
    {
        self.get(2)
    }

    /// MCP dispatch-count budget, including explicit zero, or inheritance.
    pub fn max_mcp_calls(&self) -> (res: Option<u64>)
        ensures
            res == self.spec_values()[3],
    {
        self.get(3)
    }

    /// Token budget, including explicit zero, or inheritance.
    pub fn max_tokens(&self) -> (res: Option<u64>)
        ensures
            res == self.spec_values()[4],
    {
        self.get(4)
    }

    /// Admitted node/scope duration ceiling in milliseconds, or inheritance.
    pub fn timeout_ms(&self) -> (res: Option<u64>)
        ensures
            res == self.spec_values()[5],
    {
        self.get(5)
    }

    /// Sets the per-attempt timeout, which must be positive and fit i64.
    pub fn with_attempt_timeout_ms(self, value: u64) -> (res: Result<ExecutionLimits, ExecutionOptionsError>)
        ensures
            res is Ok <==> spec_integer_ok(value, true),
            res matches Ok(r) ==> r.spec_values() == self.spec_values().update(0, Some(value)),
            res is Err ==> res == Err::<ExecutionLimits, ExecutionOptionsError>(spec_integer_error(value, "attempt_timeout_ms")),
    {
        self.with_field(0, value)
    }

    /// Sets the concurrency ceiling, which must be positive and fit i64.
    pub fn with_max_concurrency(self, value: u64) -> (res: Result<ExecutionLimits, ExecutionOptionsError>)
        ensures
            res is Ok <==> spec_integer_ok(value, true),
            res matches Ok(r) ==> r.spec_values() == self.spec_values().update(1, Some(value)),
            res is Err ==> res == Err::<ExecutionLimits, ExecutionOptionsError>(spec_integer_error(value, "max_concurrency")),
    {
        self.with_field(1, value)
    }

    /// Sets the cost budget, which may be zero and must fit i64.
    pub fn with_max_cost_units(self, value: u64) -> (res: Result<ExecutionLimits, ExecutionOptionsError>)
        ensures
            res is Ok <==> spec_integer_ok(value, false),
            res matches Ok(r) ==> r.spec_values() == self.spec_values().update(2, Some(value)),
            res is Err ==> res == Err::<ExecutionLimits, ExecutionOptionsError>(spec_integer_error(value, "max_cost_units")),
    {
        self.with_field(2, value)
    }

    /// Sets the MCP call budget, which may be zero and must fit i64.
    pub fn with_max_mcp_calls(self, value: u64) -> (res: Result<ExecutionLimits, ExecutionOptionsError>)
        ensures
            res is Ok <==> spec_integer_ok(value, false),
            res matches Ok(r) ==> r.spec_values() == self.spec_values().update(3, Some(value)),
            res is Err ==> res == Err::<ExecutionLimits, ExecutionOptionsError>(spec_integer_error(value, "max_mcp_calls")),
    {
        self.with_field(3, value)
    }

    /// Sets the token budget, which may be zero and must fit i64.
    pub fn with_max_tokens(self, value: u64) -> (res: Result<ExecutionLimits, ExecutionOptionsError>)
        ensures
            res is Ok <==> spec_integer_ok(value, false),
            res matches Ok(r) ==> r.spec_values() == self.spec_values().update(4, Some(value)),
            res is Err ==> res == Err::<ExecutionLimits, ExecutionOptionsError>(spec_integer_error(value, "max_tokens")),
    {
        self.with_field(4, value)
    }

    /// Sets the duration ceiling, which must be positive and fit i64.
    pub fn with_timeout_ms(self, value: u64) -> (res: Result<ExecutionLimits, ExecutionOptionsError>)
        ensures
            res is Ok <==> spec_integer_ok(value, true),
            res matches Ok(r) ==> r.spec_values() == self.spec_values().update(5, Some(value)),
            res is Err ==> res == Err::<ExecutionLimits, ExecutionOptionsError>(spec_integer_error(value, "timeout_ms")),
    {
        self.with_field(5, value)
    }
}

} // verus!

verus! {

/// The text views of a sequence of strings.
pub open spec fn spec_views(s: Seq<String>) -> Seq<Seq<char>> {
    s.map_values(|x: String| x@)
}

/// Codes strictly increase in UTF-8 byte order, so none repeats.
pub open spec fn spec_codes_sorted(codes: Seq<Seq<char>>) -> bool {
    forall|i: int, j: int| 0 <= i < j < codes.len() ==> crate::cbor::value::spec_lex_lt(
        spec_utf8(#[trigger] codes[i]), spec_utf8(#[trigger] codes[j]))
}

/// A canonical retry policy: a positive attempt count, one delay per retry,
/// delays within i64, and strictly sorted codes.
pub open spec fn spec_retry_valid(max_attempts: u64, codes: Seq<Seq<char>>, backoff: Seq<u64>) -> bool {
    &&& spec_integer_ok(max_attempts, true)
    &&& backoff.len() == max_attempts - 1
    &&& forall|k: int| 0 <= k < backoff.len() ==> #[trigger] backoff[k] <= MAX_INTEGER
    &&& spec_codes_sorted(codes)
}

/// The charges for each code, in order.
pub open spec fn spec_code_charges(codes: Seq<Seq<char>>) -> Seq<Charge>
    decreases codes.len(),
{
    if codes.len() == 0 {
        Seq::empty()
    } else {
        seq![Charge::Text { len: spec_utf8(codes[0]).len() as usize, depth: 2 }] + spec_code_charges(codes.drop_first())
    }
}

/// Validating and charging the delays `k..`, in order.
pub open spec fn spec_delays_check(l: Limits, c: Counters, backoff: Seq<u64>, k: int) -> Result<Counters, ExecutionOptionsError>
    decreases backoff.len() - k,
{
    if k >= backoff.len() || k < 0 {
        Ok(c)
    } else if backoff[k] > MAX_INTEGER {
        Err(ExecutionOptionsError::OutOfRange("backoff_ms item"))
    } else {
        match spec_apply(l, c, Charge::Integer { value: backoff[k] as i64, depth: 2 }) {
            Ok(d) => spec_delays_check(l, d, backoff, k + 1),
            Err(e) => Err(spec_limit_error(e)),
        }
    }
}

/// The wire check from the code list on: codes, the delay list, then the
/// attempt count.
pub open spec fn spec_retry_body(l: Limits, c: Counters, codes: Seq<Seq<char>>, backoff: Seq<u64>, max_attempts: u64) -> Result<(), ExecutionOptionsError> {
    match spec_charges(l, c, spec_code_charges(codes) + seq![
        Charge::Text { len: spec_utf8("backoff_ms"@).len() as usize, depth: 1 },
        Charge::Collection { len: backoff.len() as usize, depth: 1 },
    ]) {
        Err(e) => Err(spec_limit_error(e)),
        Ok(d) => match spec_delays_check(l, d, backoff, 0) {
            Err(e) => Err(e),
            Ok(d2) => match spec_charges(l, d2, seq![
                Charge::Text { len: spec_utf8("max_attempts"@).len() as usize, depth: 1 },
                Charge::Integer { value: max_attempts as i64, depth: 1 },
            ]) {
                Err(e) => Err(spec_limit_error(e)),
                Ok(_) => Ok(()),
            },
        },
    }
}

/// Validating and bounding a retry policy's wire form under valid limits: the
/// attempt count, the delay count, then every value charged in record order,
/// each delay checked before it is charged.
pub open spec fn spec_retry_wire(l: Limits, max_attempts: u64, codes: Seq<Seq<char>>, backoff: Seq<u64>) -> Result<(), ExecutionOptionsError> {
    if !spec_integer_ok(max_attempts, true) {
        Err(spec_integer_error(max_attempts, "max_attempts"))
    } else if max_attempts - 1 != backoff.len() {
        Err(ExecutionOptionsError::DelayCountMismatch { expected: (max_attempts - 1) as u64, actual: backoff.len() as usize })
    } else {
        match spec_charges(l, (0, 0, 0), seq![
            Charge::Collection { len: 3, depth: 0 },
            Charge::Text { len: spec_utf8("on"@).len() as usize, depth: 1 },
            Charge::Collection { len: codes.len() as usize, depth: 1 },
        ]) {
            Err(e) => Err(spec_limit_error(e)),
            Ok(c) => spec_retry_body(l, c, codes, backoff, max_attempts),
        }
    }
}

proof fn lemma_retry_body_step(l: Limits, c: Counters, codes: Seq<Seq<char>>, backoff: Seq<u64>, max_attempts: u64)
    requires
        codes.len() > 0,
    ensures
        spec_retry_body(l, c, codes, backoff, max_attempts) == match spec_apply(l, c,
            Charge::Text { len: spec_utf8(codes[0]).len() as usize, depth: 2 }) {
            Ok(d) => spec_retry_body(l, d, codes.drop_first(), backoff, max_attempts),
            Err(e) => Err(spec_limit_error(e)),
        },
{
    let t = seq![
        Charge::Text { len: spec_utf8("backoff_ms"@).len() as usize, depth: 1 },
        Charge::Collection { len: backoff.len() as usize, depth: 1 },
    ];
    let ch = Charge::Text { len: spec_utf8(codes[0]).len() as usize, depth: 2 };
    assert(spec_code_charges(codes) + t =~= seq![ch] + (spec_code_charges(codes.drop_first()) + t));
    lemma_charges_cons(l, c, ch, spec_code_charges(codes.drop_first()) + t);
}

fn delay_count(max_attempts: u64, actual: usize) -> (res: Result<(), ExecutionOptionsError>)
    requires
        max_attempts >= 1,
    ensures
        res is Ok <==> max_attempts - 1 == actual,
        res is Err ==> res == Err::<(), ExecutionOptionsError>(ExecutionOptionsError::DelayCountMismatch {
            expected: (max_attempts - 1) as u64, actual }),
{
    let expected = max_attempts - 1;
    if expected != actual as u64 {
        return Err(ExecutionOptionsError::DelayCountMismatch { expected, actual });
    }
    Ok(())
}

fn text_charge(text: &str, depth: usize) -> (res: Charge)
    ensures
        res == (Charge::Text { len: spec_utf8(text@).len() as usize, depth }),
        spec_utf8(text@).len() <= usize::MAX,
{
    Charge::Text { len: text.as_bytes().len(), depth }
}

/// Charges the codes in order; on success the wire check continues from the delays.
fn charge_codes(accounting: &mut RecordAccounting, on: &[String], Ghost(max_attempts): Ghost<u64>, Ghost(backoff): Ghost<Seq<u64>>) -> (res: Result<(), ExecutionOptionsError>)
    ensures
        final(accounting).limits == old(accounting).limits,
        match spec_retry_body(*old(accounting).limits, old(accounting).counters(), spec_views(on@), backoff, max_attempts) {
            Ok(()) => res is Ok && spec_retry_body(*old(accounting).limits, old(accounting).counters(), spec_views(on@), backoff, max_attempts)
                == spec_retry_body(*old(accounting).limits, final(accounting).counters(), Seq::empty(), backoff, max_attempts),
            Err(e) => res is Err ==> res == Err::<(), ExecutionOptionsError>(e),
        },
        res is Ok ==> spec_retry_body(*old(accounting).limits, old(accounting).counters(), spec_views(on@), backoff, max_attempts)
            == spec_retry_body(*old(accounting).limits, final(accounting).counters(), Seq::empty(), backoff, max_attempts),
        res is Err ==> res == spec_retry_body(*old(accounting).limits, old(accounting).counters(), spec_views(on@), backoff, max_attempts),
{
    let ghost l = *accounting.limits;
    let ghost codes = spec_views(on@);
    let ghost start = accounting.counters();
    let mut k: usize = 0;
    assert(codes.skip(0) =~= codes);
    while k < on.len()
        invariant
            k <= on@.len(),
            codes == spec_views(on@),
            l == *accounting.limits,
            accounting.limits == old(accounting).limits,
            start == old(accounting).counters(),
            spec_retry_body(l, start, codes, backoff, max_attempts)
                == spec_retry_body(l, accounting.counters(), codes.skip(k as int), backoff, max_attempts),
        decreases on@.len() - k,
    {
        let ch = text_charge(on[k].as_str(), 2);
        proof {
            assert(codes.skip(k as int)[0] == on@[k as int]@);
            lemma_retry_body_step(l, accounting.counters(), codes.skip(k as int), backoff, max_attempts);
            assert(codes.skip(k as int).drop_first() =~= codes.skip(k + 1));
        }
        limit_error(accounting.apply(ch))?;
        k = k + 1;
    }
    assert(codes.skip(k as int) =~= Seq::<Seq<char>>::empty());
    Ok(())
}

/// The wire check after the codes: the delay list header, each delay, then the attempt count.
fn check_tail(accounting: &mut RecordAccounting, backoff_ms: &[u64], max_attempts: u64) -> (res: Result<(), ExecutionOptionsError>)
    requires
        old(accounting).limits.spec_valid(),
        spec_integer_ok(max_attempts, true),
    ensures
        res == spec_retry_body(*old(accounting).limits, old(accounting).counters(), Seq::empty(), backoff_ms@, max_attempts),
{
    let ghost l = *accounting.limits;
    let t1 = text_charge("backoff_ms", 1);
    let c1 = Charge::Collection { len: backoff_ms.len(), depth: 1 };
    let ghost mid = seq![t1, c1];
    proof {
        assert(spec_code_charges(Seq::<Seq<char>>::empty()) + mid =~= mid);
        assert(mid =~= seq![t1] + seq![c1]);
        lemma_charges_cons(l, accounting.counters(), t1, seq![c1]);
        lemma_charges_push(l, accounting.counters(), Seq::empty(), t1);
        assert(Seq::<Charge>::empty().push(t1) =~= seq![t1]);
    }
    limit_error(accounting.apply(t1))?;
    proof {
        lemma_charges_push(l, accounting.counters(), Seq::empty(), c1);
        assert(Seq::<Charge>::empty().push(c1) =~= seq![c1]);
    }
    limit_error(accounting.apply(c1))?;
    let t2 = text_charge("max_attempts", 1);
    let n2 = Charge::Integer { value: max_attempts as i64, depth: 1 };
    let ghost tail = seq![t2, n2];
    let mut k: usize = 0;
    while k < backoff_ms.len()
        invariant
            k <= backoff_ms@.len(),
            l == *accounting.limits,
            accounting.limits == old(accounting).limits,
            l.spec_valid(),
            tail == seq![t2, n2],
            spec_retry_body(l, old(accounting).counters(), Seq::empty(), backoff_ms@, max_attempts)
                == match spec_delays_check(l, accounting.counters(), backoff_ms@, k as int) {
                Err(e) => Err(e),
                Ok(d2) => match spec_charges(l, d2, tail) {
                    Err(e) => Err(spec_limit_error(e)),
                    Ok(_) => Ok(()),
                },
            },
        decreases backoff_ms@.len() - k,
    {
        let delay = backoff_ms[k];
        let ghost before = accounting.counters();
        let checked = validate_integer(delay, "backoff_ms item", false);
        if checked.is_err() {
            assert(spec_delays_check(l, before, backoff_ms@, k as int)
                == Err::<Counters, ExecutionOptionsError>(ExecutionOptionsError::OutOfRange("backoff_ms item")));
            return checked;
        }
        let charged = accounting.integer(delay as i64, 2);
        if let Err(e) = charged {
            assert(spec_delays_check(l, before, backoff_ms@, k as int)
                == Err::<Counters, ExecutionOptionsError>(spec_limit_error(e)));
            return Err(ExecutionOptionsError::LimitExceeded { limit: e.limit, maximum: e.maximum });
        }
        assert(spec_delays_check(l, before, backoff_ms@, k as int) == spec_delays_check(l, accounting.counters(), backoff_ms@, k + 1));
        k = k + 1;
    }
    proof {
        assert(tail =~= seq![t2] + seq![n2]);
        lemma_charges_cons(l, accounting.counters(), t2, seq![n2]);
        match spec_apply(l, accounting.counters(), t2) {
            Ok(d) => {
                lemma_charges_push(l, d, Seq::empty(), n2);
                assert(Seq::<Charge>::empty().push(n2) =~= seq![n2]);
            },
            Err(_) => {},
        }
    }
    limit_error(accounting.apply(t2))?;
    limit_error(accounting.apply(n2))?;
    Ok(())
}

/// Checks a retry policy's numbers and bounds its record before anything is copied.
fn check_wire(max_attempts: u64, on: &[String], backoff_ms: &[u64], limits: &Limits) -> (res: Result<(), ExecutionOptionsError>)
    ensures
        !limits.spec_valid() ==> (res matches Err(ExecutionOptionsError::Codec(e)) && e.kind == ErrorKind::InvalidLimits),
        limits.spec_valid() ==> res == spec_retry_wire(*limits, max_attempts, spec_views(on@), backoff_ms@),
{
    let ghost l = *limits;
    let ghost codes = spec_views(on@);
    let mut accounting = match RecordAccounting::new(limits) {
        Ok(a) => a,
        Err(e) => return Err(ExecutionOptionsError::Codec(e)),
    };
    validate_integer(max_attempts, "max_attempts", true)?;
    delay_count(max_attempts, backoff_ms.len())?;
    let h0 = Charge::Collection { len: 3, depth: 0 };
    let h1 = text_charge("on", 1);
    let h2 = Charge::Collection { len: on.len(), depth: 1 };
    proof {
        assert(codes.len() == on@.len());
        lemma_charges_push(l, (0, 0, 0), Seq::empty(), h0);
        lemma_charges_push(l, (0, 0, 0), seq![h0], h1);
        lemma_charges_push(l, (0, 0, 0), seq![h0, h1], h2);
        assert(Seq::<Charge>::empty().push(h0) =~= seq![h0]);
        assert(seq![h0].push(h1) =~= seq![h0, h1]);
        assert(seq![h0, h1].push(h2) =~= seq![h0, h1, h2]);
    }
    limit_error(accounting.apply(h0))?;
    limit_error(accounting.apply(h1))?;
    limit_error(accounting.apply(h2))?;
    charge_codes(&mut accounting, on, Ghost(max_attempts), Ghost(backoff_ms@))?;
    check_tail(&mut accounting, backoff_ms, max_attempts)
}

} // verus!

verus! {

/// The UTF-8 bytes of a string's text.
pub open spec fn spec_str_bytes(s: String) -> Seq<u8> {
    spec_utf8(s@)
}

/// Strings strictly increase in UTF-8 byte order.
pub open spec fn spec_strings_sorted(s: Seq<String>) -> bool {
    forall|i: int, j: int| 0 <= i < j < s.len() ==> crate::cbor::value::spec_lex_lt(
        spec_utf8((#[trigger] s[i])@), spec_utf8((#[trigger] s[j])@))
}

/// The text views of `a` are exactly the elements of `b`, as a set.
pub open spec fn spec_same_texts(a: Seq<String>, b: Seq<String>) -> bool {
    forall|x: Seq<char>| spec_views(a).contains(x) <==> spec_views(b).contains(x)
}

proof fn lemma_views_push(s: Seq<String>, x: String)
    ensures
        spec_views(s.push(x)) == spec_views(s).push(x@),
{
    assert(spec_views(s.push(x)) =~= spec_views(s).push(x@));
}

proof fn lemma_views_remove(s: Seq<String>, i: int)
    requires
        0 <= i < s.len(),
    ensures
        spec_views(s.remove(i)) == spec_views(s).remove(i),
{
    assert(spec_views(s.remove(i)) =~= spec_views(s).remove(i));
}

proof fn lemma_views_sorted(s: Seq<String>)
    requires
        spec_strings_sorted(s),
    ensures
        spec_codes_sorted(spec_views(s)),
{
    assert forall|i: int, j: int| 0 <= i < j < spec_views(s).len() implies crate::cbor::value::spec_lex_lt(
        spec_utf8(#[trigger] spec_views(s)[i]), spec_utf8(#[trigger] spec_views(s)[j])) by {
        assert(spec_views(s)[i] == s[i]@);
        assert(spec_views(s)[j] == s[j]@);
    }
}

fn text_bytes(s: &String) -> (res: &[u8])
    ensures
        res@ == spec_utf8(s@),
{
    s.as_str().as_bytes()
}

/// Sorts codes by UTF-8 bytes and drops repeats; no code is added or lost.
pub(crate) fn sort_codes(on: Vec<String>) -> (res: Vec<String>)
    ensures
        spec_strings_sorted(res@),
        spec_same_texts(res@, on@),
{
    let ghost unsorted = on@;
    let mut input = on;
    let mut out: Vec<String> = Vec::new();
    while input.len() > 0
        invariant
            spec_strings_sorted(out@),
            forall|a: int, b: int| 0 <= a < out@.len() && 0 <= b < input@.len() ==> !crate::cbor::value::spec_lex_lt(
                spec_utf8((#[trigger] input@[b])@), spec_utf8((#[trigger] out@[a])@)),
            forall|x: Seq<char>| (spec_views(out@).contains(x) || spec_views(input@).contains(x)) <==> spec_views(unsorted).contains(x),
        decreases input@.len(),
    {
        let mut m: usize = 0;
        let mut t: usize = 1;
        proof {
            crate::cbor::keys::lemma_lex_irreflexive(spec_utf8(input@[0]@));
        }
        while t < input.len()
            invariant
                1 <= t <= input@.len(),
                m < input@.len(),
                forall|b: int| 0 <= b < t ==> !crate::cbor::value::spec_lex_lt(
                    spec_utf8((#[trigger] input@[b])@), spec_utf8(input@[m as int]@)),
            decreases input@.len() - t,
        {
            if crate::cbor::keys::compare_lex(text_bytes(&input[t]), text_bytes(&input[m])) == crate::cbor::keys::KeyOrder::Less {
                proof {
                    assert forall|b: int| 0 <= b < t + 1 implies !crate::cbor::value::spec_lex_lt(
                        spec_utf8((#[trigger] input@[b])@), spec_utf8(input@[t as int]@)) by {
                        if b < t {
                            let x = spec_utf8(input@[b]@);
                            let y = spec_utf8(input@[m as int]@);
                            let z = spec_utf8(input@[t as int]@);
                            if crate::cbor::value::spec_lex_lt(x, z) {
                                crate::cbor::keys::lemma_lex_transitive(x, z, y);
                            }
                        } else {
                            crate::cbor::keys::lemma_lex_irreflexive(spec_utf8(input@[t as int]@));
                        }
                    }
                }
                m = t;
            }
            t = t + 1;
        }
        let ghost before = input@;
        let ghost out_before = out@;
        let s = input.remove(m);
        proof {
            lemma_views_remove(before, m as int);
            assert(input@ == before.remove(m as int));
            assert forall|b: int| 0 <= b < input@.len() implies !crate::cbor::value::spec_lex_lt(
                spec_utf8((#[trigger] input@[b])@), spec_utf8(s@)) by {
                if b < m {
                    assert(input@[b] == before[b]);
                } else {
                    assert(input@[b] == before[b + 1]);
                }
            }
        }
        let keep = if out.len() == 0 {
            true
        } else {
            crate::cbor::keys::compare_lex(text_bytes(&out[out.len() - 1]), text_bytes(&s)) != crate::cbor::keys::KeyOrder::Equal
        };
        if keep {
            proof {
                if out_before.len() > 0 {
                    let last = out_before[out_before.len() - 1];
                    assert(!crate::cbor::value::spec_lex_lt(spec_utf8(before[m as int]@), spec_utf8(last@)));
                    crate::cbor::keys::lemma_lex_total(spec_utf8(last@), spec_utf8(s@));
                }
            }
            out.push(s);
            proof {
                lemma_views_push(out_before, s);
                assert forall|i: int, j: int| 0 <= i < j < out@.len() implies crate::cbor::value::spec_lex_lt(
                    spec_utf8((#[trigger] out@[i])@), spec_utf8((#[trigger] out@[j])@)) by {
                    if j == out@.len() - 1 && i < j {
                        let last = out_before[out_before.len() - 1];
                        assert(out@[i] == out_before[i]);
                        if i < out_before.len() - 1 {
                            crate::cbor::keys::lemma_lex_transitive(spec_utf8(out@[i]@), spec_utf8(last@), spec_utf8(s@));
                        }
                    } else {
                        assert(out@[i] == out_before[i]);
                        assert(out@[j] == out_before[j]);
                    }
                }
                assert forall|a: int, b: int| 0 <= a < out@.len() && 0 <= b < input@.len() implies !crate::cbor::value::spec_lex_lt(
                    spec_utf8((#[trigger] input@[b])@), spec_utf8((#[trigger] out@[a])@)) by {
                    if a < out_before.len() {
                        assert(out@[a] == out_before[a]);
                        if b < m {
                            assert(input@[b] == before[b]);
                        } else {
                            assert(input@[b] == before[b + 1]);
                        }
                    }
                }
                assert forall|x: Seq<char>| (spec_views(out@).contains(x) || spec_views(input@).contains(x)) <==> spec_views(unsorted).contains(x) by {
                    if spec_views(before).contains(x) && !spec_views(input@).contains(x) {
                        let b = choose|b: int| 0 <= b < before.len() && spec_views(before)[b] == x;
                        if b != m {
                            let bb = if b < m { b } else { b - 1 };
                            assert(spec_views(input@)[bb] == x);
                        }
                        assert(spec_views(out@)[out_before.len() as int] == x);
                    }
                    if spec_views(out@).contains(x) {
                        let a = choose|a: int| 0 <= a < spec_views(out@).len() && spec_views(out@)[a] == x;
                        if a < out_before.len() {
                            assert(spec_views(out_before)[a] == x);
                        } else {
                            assert(spec_views(before)[m as int] == x);
                        }
                    }
                    if spec_views(input@).contains(x) {
                        let b = choose|b: int| 0 <= b < spec_views(input@).len() && spec_views(input@)[b] == x;
                        let bb = if b < m { b } else { b + 1 };
                        assert(spec_views(before)[bb] == x);
                    }
                    if spec_views(out_before).contains(x) {
                        let a = choose|a: int| 0 <= a < out_before.len() && spec_views(out_before)[a] == x;
                        assert(spec_views(out@)[a] == x);
                    }
                }
            }
        } else {
            proof {
                let last = out_before[out_before.len() - 1];
                assert(spec_utf8(last@) == spec_utf8(s@));
                vstd::utf8::encode_utf8_decode_utf8(last@);
                vstd::utf8::encode_utf8_decode_utf8(s@);
                assert(last@ == s@);
                assert forall|x: Seq<char>| (spec_views(out@).contains(x) || spec_views(input@).contains(x)) <==> spec_views(unsorted).contains(x) by {
                    if spec_views(before).contains(x) && !spec_views(input@).contains(x) {
                        let b = choose|b: int| 0 <= b < before.len() && spec_views(before)[b] == x;
                        if b != m {
                            let bb = if b < m { b } else { b - 1 };
                            assert(spec_views(input@)[bb] == x);
                        }
                        assert(spec_views(out@)[out_before.len() - 1] == x);
                    }
                    if spec_views(input@).contains(x) {
                        let b = choose|b: int| 0 <= b < spec_views(input@).len() && spec_views(input@)[b] == x;
                        let bb = if b < m { b } else { b + 1 };
                        assert(spec_views(before)[bb] == x);
                    }
                }
            }
        }
    }
    proof {
        assert forall|x: Seq<char>| spec_views(out@).contains(x) <==> spec_views(unsorted).contains(x) by {
            if spec_views(input@).contains(x) {
                let b = choose|b: int| 0 <= b < spec_views(input@).len() && spec_views(input@)[b] == x;
            }
        }
    }
    out
}

} // verus!

verus! {

/// `v` is the text `c`.
pub open spec fn spec_is_text(v: Value, c: Seq<char>) -> bool {
    match v {
        Value::Text(t) => t@ == c,
        _ => false,
    }
}

/// The values are exactly these texts, in order.
pub open spec fn spec_texts(a: Seq<Value>, codes: Seq<Seq<char>>) -> bool {
    a.len() == codes.len() && forall|i: int| 0 <= i < a.len() ==> spec_is_text(#[trigger] a[i], codes[i])
}

/// The values are exactly these integers, in order.
pub open spec fn spec_integers(a: Seq<Value>, backoff: Seq<u64>) -> bool {
    a.len() == backoff.len() && forall|i: int| 0 <= i < a.len() ==> #[trigger] a[i] == Value::Integer(backoff[i] as i64)
}

/// A key is one of the three retry-policy fields.
pub open spec fn spec_known_retry(k: Seq<char>) -> bool {
    k == "on"@ || k == "backoff_ms"@ || k == "max_attempts"@
}

/// The canonical map of a retry policy: exactly the three fields.
pub open spec fn spec_retry_record(v: Value, max_attempts: u64, codes: Seq<Seq<char>>, backoff: Seq<u64>) -> bool {
    match v {
        Value::Object(m) => {
            &&& spec_keys_sorted(m.entries@)
            &&& forall|j: int| 0 <= j < m.entries@.len() ==> spec_known_retry((#[trigger] m.entries@[j]).0@)
            &&& match spec_find(m.entries@, "on"@) {
                Some(Value::Array(a)) => spec_texts(a@, codes),
                _ => false,
            }
            &&& match spec_find(m.entries@, "backoff_ms"@) {
                Some(Value::Array(a)) => spec_integers(a@, backoff),
                _ => false,
            }
            &&& spec_find(m.entries@, "max_attempts"@) == Some(Value::Integer(max_attempts as i64))
        },
        _ => false,
    }
}

/// The UTF-8 bytes of a text value.
pub open spec fn spec_text_bytes(v: Value) -> Seq<u8> {
    match v {
        Value::Text(t) => spec_utf8(t@),
        _ => Seq::empty(),
    }
}

/// The text of a text value.
pub open spec fn spec_text_of(v: Value) -> Seq<char> {
    match v {
        Value::Text(t) => t@,
        _ => Seq::empty(),
    }
}

/// The number of an integer value.
pub open spec fn spec_integer_of(v: Value) -> i64 {
    match v {
        Value::Integer(x) => x,
        _ => 0,
    }
}

/// Reading the delays `k..`: each a nonnegative integer.
pub open spec fn spec_read_delays(a: Seq<Value>, k: int) -> Result<(), ExecutionOptionsError>
    decreases a.len() - k,
{
    if k < 0 || k >= a.len() {
        Ok(())
    } else {
        match spec_read_integer(a[k], "backoff_ms item", false) {
            Err(e) => Err(e),
            Ok(_) => spec_read_delays(a, k + 1),
        }
    }
}

/// Reading the codes `k..`: each text, strictly above the one before it.
pub open spec fn spec_read_codes(a: Seq<Value>, k: int) -> Result<(), ExecutionOptionsError>
    decreases a.len() - k,
{
    if k < 0 || k >= a.len() {
        Ok(())
    } else {
        match a[k] {
            Value::Text(t) => if k > 0 && !crate::cbor::value::spec_lex_lt(spec_text_bytes(a[k - 1]), spec_utf8(t@)) {
                Err(ExecutionOptionsError::NonCanonicalCodes)
            } else {
                spec_read_codes(a, k + 1)
            },
            _ => Err(ExecutionOptionsError::InvalidFieldType("on item")),
        }
    }
}

/// Reading a retry-policy record: a map of exactly the three fields with
/// their native types, a positive attempt count, one delay per retry, and
/// strictly sorted codes; nothing is repaired or inferred.
pub open spec fn spec_parse_retry(v: Value) -> Result<(u64, Seq<Seq<char>>, Seq<u64>), ExecutionOptionsError> {
    match v {
        Value::Object(m) => {
            let e = m.entries@;
            if exists|j: int| 0 <= j < e.len() && !spec_known_retry((#[trigger] e[j]).0@) {
                Err(ExecutionOptionsError::UnknownField("retry policy"))
            } else if spec_find(e, "backoff_ms"@) is None {
                Err(ExecutionOptionsError::MissingField("backoff_ms"))
            } else if spec_find(e, "max_attempts"@) is None {
                Err(ExecutionOptionsError::MissingField("max_attempts"))
            } else if spec_find(e, "on"@) is None {
                Err(ExecutionOptionsError::MissingField("on"))
            } else if !(spec_find(e, "backoff_ms"@)->0 is Array) {
                Err(ExecutionOptionsError::InvalidFieldType("backoff_ms"))
            } else if !(spec_find(e, "max_attempts"@)->0 is Integer) {
                Err(ExecutionOptionsError::InvalidFieldType("max_attempts"))
            } else if !(spec_find(e, "on"@)->0 is Array) {
                Err(ExecutionOptionsError::InvalidFieldType("on"))
            } else {
                let delays = spec_find(e, "backoff_ms"@)->0->Array_0@;
                let codes = spec_find(e, "on"@)->0->Array_0@;
                match spec_read_integer(spec_find(e, "max_attempts"@)->0, "max_attempts", true) {
                    Err(err) => Err(err),
                    Ok(max) => if max - 1 != delays.len() {
                        Err(ExecutionOptionsError::DelayCountMismatch { expected: (max - 1) as u64, actual: delays.len() as usize })
                    } else {
                        match spec_read_delays(delays, 0) {
                            Err(err) => Err(err),
                            Ok(()) => match spec_read_codes(codes, 0) {
                                Err(err) => Err(err),
                                Ok(()) => Ok((
                                    max,
                                    Seq::new(codes.len(), |i: int| spec_text_of(codes[i])),
                                    Seq::new(delays.len(), |i: int| spec_integer_of(delays[i]) as u64),
                                )),
                            },
                        }
                    },
                }
            }
        },
        _ => Err(ExecutionOptionsError::ExpectedRecord("retry policy")),
    }
}

proof fn lemma_delays_ok(l: Limits, c: Counters, b: Seq<u64>, k: int)
    requires
        0 <= k,
        spec_delays_check(l, c, b, k) is Ok,
    ensures
        forall|j: int| k <= j < b.len() ==> #[trigger] b[j] <= MAX_INTEGER,
    decreases b.len() - k,
{
    if k < b.len() {
        let d = spec_apply(l, c, Charge::Integer { value: b[k] as i64, depth: 2 })->Ok_0;
        lemma_delays_ok(l, d, b, k + 1);
    }
}

proof fn lemma_retry_wire_valid(l: Limits, max_attempts: u64, codes: Seq<Seq<char>>, backoff: Seq<u64>)
    requires
        spec_retry_wire(l, max_attempts, codes, backoff) is Ok,
    ensures
        spec_integer_ok(max_attempts, true),
        backoff.len() == max_attempts - 1,
        forall|k: int| 0 <= k < backoff.len() ==> #[trigger] backoff[k] <= MAX_INTEGER,
{
    let head = seq![
        Charge::Collection { len: 3, depth: 0 },
        Charge::Text { len: spec_utf8("on"@).len() as usize, depth: 1 },
        Charge::Collection { len: codes.len() as usize, depth: 1 },
    ];
    let c = spec_charges(l, (0, 0, 0), head)->Ok_0;
    let mid = spec_code_charges(codes) + seq![
        Charge::Text { len: spec_utf8("backoff_ms"@).len() as usize, depth: 1 },
        Charge::Collection { len: backoff.len() as usize, depth: 1 },
    ];
    let d = spec_charges(l, c, mid)->Ok_0;
    lemma_delays_ok(l, d, backoff, 0);
}

fn read_delays(a: &[Value]) -> (res: Result<(), ExecutionOptionsError>)
    ensures
        res == spec_read_delays(a@, 0),
        res is Ok ==> forall|i: int| 0 <= i < a@.len() ==> (#[trigger] a@[i]) is Integer && spec_integer_of(a@[i]) >= 0,
{
    let mut k: usize = 0;
    while k < a.len()
        invariant
            k <= a@.len(),
            spec_read_delays(a@, 0) == spec_read_delays(a@, k as int),
            forall|i: int| 0 <= i < k ==> (#[trigger] a@[i]) is Integer && spec_integer_of(a@[i]) >= 0,
        decreases a@.len() - k,
    {
        read_integer(&a[k], "backoff_ms item", false)?;
        k = k + 1;
    }
    Ok(())
}

fn read_codes(a: &[Value]) -> (res: Result<(), ExecutionOptionsError>)
    ensures
        res == spec_read_codes(a@, 0),
{
    let mut k: usize = 0;
    while k < a.len()
        invariant
            k <= a@.len(),
            spec_read_codes(a@, 0) == spec_read_codes(a@, k as int),
            forall|i: int| 0 <= i < k ==> (#[trigger] a@[i]) is Text,
        decreases a@.len() - k,
    {
        match &a[k] {
            Value::Text(t) => {
                if k > 0 {
                    let previous = match &a[k - 1] {
                        Value::Text(p) => p,
                        _ => {
                            assert(a@[k - 1] is Text);
                            return Err(ExecutionOptionsError::NonCanonicalCodes);
                        },
                    };
                    if crate::cbor::keys::compare_lex(text_bytes(previous), text_bytes(t)) != crate::cbor::keys::KeyOrder::Less {
                        return Err(ExecutionOptionsError::NonCanonicalCodes);
                    }
                }
            },
            _ => return Err(ExecutionOptionsError::InvalidFieldType("on item")),
        }
        k = k + 1;
    }
    Ok(())
}

proof fn lemma_codes_sorted(a: Seq<Value>)
    requires
        spec_read_codes(a, 0) is Ok,
    ensures
        forall|i: int| 0 <= i < a.len() ==> (#[trigger] a[i]) is Text,
        spec_codes_sorted(Seq::new(a.len(), |i: int| spec_text_of(a[i]))),
{
    lemma_codes_from(a, 0);
    let c = Seq::new(a.len(), |i: int| spec_text_of(a[i]));
    assert forall|i: int, j: int| 0 <= i < j < c.len() implies crate::cbor::value::spec_lex_lt(
        spec_utf8(#[trigger] c[i]), spec_utf8(#[trigger] c[j])) by {
        lemma_codes_chain(a, i, j);
    }
}

proof fn lemma_codes_from(a: Seq<Value>, k: int)
    requires
        0 <= k,
        spec_read_codes(a, k) is Ok,
    ensures
        forall|i: int| k <= i < a.len() ==> (#[trigger] a[i]) is Text,
        forall|i: int| k <= i < a.len() && i > 0 ==> crate::cbor::value::spec_lex_lt(
            spec_text_bytes(a[i - 1]), spec_text_bytes(#[trigger] a[i])),
    decreases a.len() - k,
{
    if k < a.len() {
        lemma_codes_from(a, k + 1);
    }
}

proof fn lemma_codes_chain(a: Seq<Value>, i: int, j: int)
    requires
        0 <= i < j < a.len(),
        spec_read_codes(a, 0) is Ok,
    ensures
        crate::cbor::value::spec_lex_lt(spec_utf8(spec_text_of(a[i])), spec_utf8(spec_text_of(a[j]))),
    decreases j - i,
{
    lemma_codes_from(a, 0);
    assert(a[j] is Text);
    assert(a[j - 1] is Text);
    assert(crate::cbor::value::spec_lex_lt(spec_text_bytes(a[j - 1]), spec_text_bytes(a[j])));
    if i < j - 1 {
        lemma_codes_chain(a, i, j - 1);
        crate::cbor::keys::lemma_lex_transitive(
            spec_utf8(spec_text_of(a[i])), spec_utf8(spec_text_of(a[j - 1])), spec_utf8(spec_text_of(a[j])));
    }
}

/// Canonical MCP retry metadata: total attempts, failure-code set, and delays.
///
/// An attempt count includes the initial dispatch; delay `k - 2` precedes
/// attempt `k` (one-based), so there are exactly `max_attempts - 1` delays.
/// Codes are opaque exact strings, unique and sorted by UTF-8 bytes. A valid
/// policy does not authorize replay.
#[derive(Debug, PartialEq)]
pub struct RetryPolicy {
    max_attempts: u64,
    on: Vec<String>,
    backoff_ms: Vec<u64>,
}

impl RetryPolicy {
    #[verifier::type_invariant]
    spec fn valid(&self) -> bool {
        spec_retry_valid(self.max_attempts, spec_views(self.on@), self.backoff_ms@)
    }

    /// Total attempts, including the initial dispatch.
    pub closed spec fn spec_max_attempts(&self) -> u64 {
        self.max_attempts
    }

    /// The failure codes, in UTF-8 order.
    pub closed spec fn spec_on(&self) -> Seq<Seq<char>> {
        spec_views(self.on@)
    }

    /// The delays in attempt order.
    pub closed spec fn spec_backoff(&self) -> Seq<u64> {
        self.backoff_ms@
    }

    /// Constructs an authored policy, bounding input before sorting and
    /// deduplicating the failure codes. Delay order is never changed.
    pub fn new(max_attempts: u64, on: Vec<String>, backoff_ms: Vec<u64>, limits: &Limits) -> (res: Result<RetryPolicy, ExecutionOptionsError>)
        ensures
            !limits.spec_valid() ==> (res matches Err(ExecutionOptionsError::Codec(e)) && e.kind == ErrorKind::InvalidLimits),
            limits.spec_valid() ==> match spec_retry_wire(*limits, max_attempts, spec_views(on@), backoff_ms@) {
                Err(e) => res == Err::<RetryPolicy, ExecutionOptionsError>(e),
                Ok(()) => res matches Ok(r) && r.spec_max_attempts() == max_attempts && r.spec_backoff() == backoff_ms@
                    && spec_codes_sorted(r.spec_on())
                    && forall|x: Seq<char>| r.spec_on().contains(x) <==> spec_views(on@).contains(x),
            },
            res matches Ok(r) ==> spec_retry_valid(r.spec_max_attempts(), r.spec_on(), r.spec_backoff()),
    {
        check_wire(max_attempts, on.as_slice(), backoff_ms.as_slice(), limits)?;
        proof {
            lemma_retry_wire_valid(*limits, max_attempts, spec_views(on@), backoff_ms@);
        }
        let sorted = sort_codes(on);
        proof {
            lemma_views_sorted(sorted@);
        }
        Ok(RetryPolicy { max_attempts, on: sorted, backoff_ms })
    }

    /// The normalized omitted-policy value: one attempt and empty lists.
    pub fn no_retry() -> (res: RetryPolicy)
        ensures
            res.spec_max_attempts() == 1,
            res.spec_on().len() == 0,
            res.spec_backoff().len() == 0,
            spec_retry_valid(res.spec_max_attempts(), res.spec_on(), res.spec_backoff()),
    {
        let res = RetryPolicy { max_attempts: 1, on: Vec::new(), backoff_ms: Vec::new() };
        assert(spec_views(res.on@) =~= Seq::<Seq<char>>::empty());
        res
    }

    /// Produces exactly the three required canonical policy fields, after
    /// bounding the whole record against `limits`.
    pub fn to_value(&self, limits: &Limits) -> (res: Result<Value, ExecutionOptionsError>)
        ensures
            !limits.spec_valid() ==> (res matches Err(ExecutionOptionsError::Codec(e)) && e.kind == ErrorKind::InvalidLimits),
            limits.spec_valid() ==> match spec_retry_wire(*limits, self.spec_max_attempts(), self.spec_on(), self.spec_backoff()) {
                Err(e) => res == Err::<Value, ExecutionOptionsError>(e),
                Ok(()) => res matches Ok(v) && spec_retry_record(v, self.spec_max_attempts(), self.spec_on(), self.spec_backoff()),
            },
    {
        proof {
            use_type_invariant(self);
        }
        check_wire(self.max_attempts, self.on.as_slice(), self.backoff_ms.as_slice(), limits)?;
        let ghost codes_view = spec_views(self.on@);
        let mut codes: Vec<Value> = Vec::new();
        let mut k: usize = 0;
        while k < self.on.len()
            invariant
                k <= self.on@.len(),
                codes_view == spec_views(self.on@),
                codes@.len() == k,
                forall|i: int| 0 <= i < k ==> spec_is_text(#[trigger] codes@[i], codes_view[i]),
            decreases self.on@.len() - k,
        {
            codes.push(Value::Text(self.on[k].clone()));
            k = k + 1;
        }
        let mut delays: Vec<Value> = Vec::new();
        let mut k: usize = 0;
        while k < self.backoff_ms.len()
            invariant
                k <= self.backoff_ms@.len(),
                delays@.len() == k,
                forall|i: int| 0 <= i < k ==> #[trigger] delays@[i] == Value::Integer(self.backoff_ms@[i] as i64),
            decreases self.backoff_ms@.len() - k,
        {
            delays.push(Value::Integer(self.backoff_ms[k] as i64));
            k = k + 1;
        }
        let ghost codes_seq = codes@;
        let ghost delays_seq = delays@;
        let mut fields: Vec<(String, Value)> = Vec::new();
        fields.push((String::from_str("on"), Value::Array(codes)));
        fields.push((String::from_str("backoff_ms"), Value::Array(delays)));
        fields.push((String::from_str("max_attempts"), Value::Integer(self.max_attempts as i64)));
        let ghost input = fields@;
        proof {
            reveal_strlit("on");
            reveal_strlit("backoff_ms");
            reveal_strlit("max_attempts");
            assert(input[0].0@ == "on"@);
            assert(input[1].0@ == "backoff_ms"@);
            assert(input[2].0@ == "max_attempts"@);
            assert(spec_views_distinct(input));
            assert(spec_keys_distinct(input)) by {
                assert forall|a: int, b: int| 0 <= a < b < input.len() implies spec_utf8(#[trigger] input[a].0@) != spec_utf8(#[trigger] input[b].0@) by {
                    vstd::utf8::encode_utf8_decode_utf8(input[a].0@);
                    vstd::utf8::encode_utf8_decode_utf8(input[b].0@);
                }
            }
            lemma_find(input, "on"@, 0);
            lemma_find(input, "backoff_ms"@, 1);
            lemma_find(input, "max_attempts"@, 2);
            assert(spec_texts(codes_seq, codes_view));
            assert(spec_integers(delays_seq, self.backoff_ms@));
        }
        let map = match ValueMap::try_from_entries(fields) {
            Ok(m) => m,
            Err(e) => return Err(ExecutionOptionsError::Codec(e)),
        };
        proof {
            let e = map.entries@;
            lemma_sorted_views_distinct(e);
            lemma_find_permutation(input, e, "on"@);
            lemma_find_permutation(input, e, "backoff_ms"@);
            lemma_find_permutation(input, e, "max_attempts"@);
            input.to_multiset_ensures();
            e.to_multiset_ensures();
            assert forall|j: int| 0 <= j < e.len() implies spec_known_retry((#[trigger] e[j]).0@) by {
                assert(e.contains(e[j]));
                assert(e.to_multiset().count(e[j]) > 0);
                assert(input.contains(e[j]));
            }
        }
        Ok(Value::Object(map))
    }

    /// Reads canonical policy data without repairing order or inferring fields.
    pub fn parse(value: &Value) -> (res: Result<RetryPolicy, ExecutionOptionsError>)
        ensures
            match spec_parse_retry(*value) {
                Ok((max, codes, delays)) => res matches Ok(r) && r.spec_max_attempts() == max && r.spec_on() == codes
                    && r.spec_backoff() == delays,
                Err(e) => res == Err::<RetryPolicy, ExecutionOptionsError>(e),
            },
    {
        let m = match value {
            Value::Object(m) => m,
            _ => return Err(ExecutionOptionsError::ExpectedRecord("retry policy")),
        };
        let ghost e = m.entries@;
        let mut j: usize = 0;
        while j < m.entries.len()
            invariant
                j <= e.len(),
                e == m.entries@,
                *value == Value::Object(*m),
                forall|jj: int| 0 <= jj < j ==> spec_known_retry((#[trigger] e[jj]).0@),
            decreases e.len() - j,
        {
            let key = m.entries[j].0.as_str();
            if !(same_text(key, "on") || same_text(key, "backoff_ms") || same_text(key, "max_attempts")) {
                assert(!spec_known_retry(e[j as int].0@));
                return Err(ExecutionOptionsError::UnknownField("retry policy"));
            }
            j = j + 1;
        }
        let backoff = match m.get("backoff_ms") {
            Some(v) => v,
            None => return Err(ExecutionOptionsError::MissingField("backoff_ms")),
        };
        let attempts = match m.get("max_attempts") {
            Some(v) => v,
            None => return Err(ExecutionOptionsError::MissingField("max_attempts")),
        };
        let codes = match m.get("on") {
            Some(v) => v,
            None => return Err(ExecutionOptionsError::MissingField("on")),
        };
        let backoff = match backoff {
            Value::Array(a) => a,
            _ => return Err(ExecutionOptionsError::InvalidFieldType("backoff_ms")),
        };
        if !matches!(attempts, Value::Integer(_)) {
            return Err(ExecutionOptionsError::InvalidFieldType("max_attempts"));
        }
        let codes = match codes {
            Value::Array(a) => a,
            _ => return Err(ExecutionOptionsError::InvalidFieldType("on")),
        };
        let max_attempts = read_integer(attempts, "max_attempts", true)?;
        delay_count(max_attempts, backoff.len())?;
        read_delays(backoff.as_slice())?;
        read_codes(codes.as_slice())?;
        proof {
            lemma_codes_sorted(codes@);
        }
        let mut on: Vec<String> = Vec::new();
        let mut k: usize = 0;
        while k < codes.len()
            invariant
                k <= codes@.len(),
                on@.len() == k,
                spec_read_codes(codes@, 0) is Ok,
                forall|i: int| 0 <= i < codes@.len() ==> (#[trigger] codes@[i]) is Text,
                forall|i: int| 0 <= i < k ==> (#[trigger] on@[i])@ == spec_text_of(codes@[i]),
            decreases codes@.len() - k,
        {
            match &codes[k] {
                Value::Text(t) => on.push(t.clone()),
                _ => {
                    assert(false);
                },
            }
            k = k + 1;
        }
        let mut delays: Vec<u64> = Vec::new();
        let mut k: usize = 0;
        while k < backoff.len()
            invariant
                k <= backoff@.len(),
                delays@.len() == k,
                forall|i: int| 0 <= i < backoff@.len() ==> (#[trigger] backoff@[i]) is Integer && spec_integer_of(backoff@[i]) >= 0,
                forall|i: int| 0 <= i < k ==> #[trigger] delays@[i] == spec_integer_of(backoff@[i]) as u64,
            decreases backoff@.len() - k,
        {
            match &backoff[k] {
                Value::Integer(x) => delays.push(*x as u64),
                _ => {
                    assert(false);
                },
            }
            k = k + 1;
        }
        proof {
            assert(spec_views(on@) =~= Seq::new(codes@.len(), |i: int| spec_text_of(codes@[i])));
            assert(delays@ =~= Seq::new(backoff@.len(), |i: int| spec_integer_of(backoff@[i]) as u64));
            lemma_codes_sorted(codes@);
            assert(spec_codes_sorted(spec_views(on@)));
            assert forall|i: int| 0 <= i < delays@.len() implies #[trigger] delays@[i] <= MAX_INTEGER by {}
        }
        Ok(RetryPolicy { max_attempts, on, backoff_ms: delays })
    }

    /// Bounds an already decoded record under the codec limits, then reads it.
    pub fn from_value(value: &Value, limits: &Limits) -> (res: Result<RetryPolicy, ExecutionOptionsError>)
        ensures
            !(limits.spec_valid() && spec_fits(*value, *limits)) ==> res matches Err(ExecutionOptionsError::Codec(_)),
            limits.spec_valid() && spec_fits(*value, *limits) ==> match spec_parse_retry(*value) {
                Ok((max, codes, delays)) => res matches Ok(r) && r.spec_max_attempts() == max && r.spec_on() == codes
                    && r.spec_backoff() == delays,
                Err(e) => res == Err::<RetryPolicy, ExecutionOptionsError>(e),
            },
            res matches Ok(r) ==> spec_retry_valid(r.spec_max_attempts(), r.spec_on(), r.spec_backoff()),
    {
        if let Err(e) = encode(value, limits) {
            return Err(ExecutionOptionsError::Codec(e));
        }
        let r = RetryPolicy::parse(value)?;
        proof { use_type_invariant(&r); }
        Ok(r)
    }

    /// Encodes one canonical policy under the supplied codec limits.
    pub fn encode(&self, limits: &Limits) -> (res: Result<Vec<u8>, ExecutionOptionsError>)
        ensures
            !limits.spec_valid() ==> res matches Err(ExecutionOptionsError::Codec(_)),
            limits.spec_valid() ==> match spec_retry_wire(*limits, self.spec_max_attempts(), self.spec_on(), self.spec_backoff()) {
                Err(e) => res == Err::<Vec<u8>, ExecutionOptionsError>(e),
                Ok(()) => res matches Ok(b) ==> exists|v: Value| spec_retry_record(v, self.spec_max_attempts(), self.spec_on(), self.spec_backoff())
                    && b@ == spec_encode(v),
            },
            limits.spec_valid() ==> match spec_retry_wire(*limits, self.spec_max_attempts(), self.spec_on(), self.spec_backoff()) {
                Err(e) => res == Err::<Vec<u8>, ExecutionOptionsError>(e),
                Ok(()) => exists|v: crate::cbor::value::Value| (crate::cbor::encode::spec_fits(v, *limits) <==> res is Ok) && (res matches Ok(b) ==> b@ == crate::cbor::value::spec_encode(v)) && spec_retry_record(v, self.spec_max_attempts(), self.spec_on(), self.spec_backoff()),
            },
    {
        let v = self.to_value(limits)?;
        match encode(&v, limits) {
            Ok(b) => Ok(b),
            Err(e) => Err(ExecutionOptionsError::Codec(e)),
        }
    }

    /// Decodes exactly one canonical retry-policy map.
    pub fn decode(bytes: &[u8], limits: &Limits) -> (res: Result<RetryPolicy, ExecutionOptionsError>)
        ensures
            res matches Ok(r) ==> exists|w: Value| #[trigger] spec_encode(w) == bytes@ && spec_wf(w)
                && spec_parse_retry(w) == Ok::<(u64, Seq<Seq<char>>, Seq<u64>), ExecutionOptionsError>(
                    (r.spec_max_attempts(), r.spec_on(), r.spec_backoff())),
            !limits.spec_valid() ==> res matches Err(ExecutionOptionsError::Codec(_)),
            limits.spec_valid() && (exists|x: crate::cbor::value::Value| #[trigger] crate::cbor::value::spec_encode(x) == bytes@
                && crate::cbor::value::spec_wf(x) && crate::cbor::value::spec_height(x) <= limits.max_depth
                && bytes@.len() <= limits.max_document_bytes) ==> exists|w: crate::cbor::value::Value|
                #[trigger] crate::cbor::value::spec_encode(w) == bytes@ && crate::cbor::value::spec_wf(w) && (match spec_parse_retry(w) {
                Ok((max, codes, delays)) => res matches Ok(r) && r.spec_max_attempts() == max && r.spec_on() == codes
                    && r.spec_backoff() == delays,
                Err(e) => res == Err::<RetryPolicy, ExecutionOptionsError>(e),
            }),
            res matches Ok(r) ==> spec_retry_valid(r.spec_max_attempts(), r.spec_on(), r.spec_backoff()),
    {
        let v = match decode(bytes, limits) {
            Ok(v) => v,
            Err(e) => return Err(ExecutionOptionsError::Codec(e)),
        };
        proof { assert(crate::cbor::value::spec_encode(v) == bytes@ && crate::cbor::value::spec_wf(v)); }
        let r = RetryPolicy::parse(&v)?;
        assert(spec_encode(v) == bytes@);
        proof { use_type_invariant(&r); }
        Ok(r)
    }

    /// Total allowed attempts, including the initial dispatch.
    pub fn max_attempts(&self) -> (res: u64)
        ensures
            res == self.spec_max_attempts(),
            res >= 1,
    {
        proof {
            use_type_invariant(self);
        }
        self.max_attempts
    }

    /// Borrows the unique UTF-8-sorted failure-code set.
    pub fn on(&self) -> (res: &[String])
        ensures
            spec_views(res@) == self.spec_on(),
            spec_codes_sorted(self.spec_on()),
    {
        proof {
            use_type_invariant(self);
        }
        self.on.as_slice()
    }

    /// Borrows delays in semantic attempt order, including any explicit zeros.
    pub fn backoff_ms(&self) -> (res: &[u64])
        ensures
            res@ == self.spec_backoff(),
            res@.len() == self.spec_max_attempts() - 1,
    {
        proof {
            use_type_invariant(self);
        }
        self.backoff_ms.as_slice()
    }
}

impl Default for RetryPolicy {
    fn default() -> (res: RetryPolicy)
        ensures
            res.spec_max_attempts() == 1,
            res.spec_on().len() == 0,
            res.spec_backoff().len() == 0,
    {
        RetryPolicy::no_retry()
    }
}

} // verus!

verus! {

proof fn lemma_read_delays_ok(a: Seq<Value>, backoff: Seq<u64>, k: int)
    requires
        0 <= k,
        spec_integers(a, backoff),
        forall|i: int| 0 <= i < backoff.len() ==> #[trigger] backoff[i] <= MAX_INTEGER,
    ensures
        spec_read_delays(a, k) == Ok::<(), ExecutionOptionsError>(()),
    decreases a.len() - k,
{
    if k < a.len() {
        assert(a[k] == Value::Integer(backoff[k] as i64));
        assert(backoff[k] <= MAX_INTEGER);
        lemma_read_delays_ok(a, backoff, k + 1);
    }
}

proof fn lemma_read_codes_ok(a: Seq<Value>, codes: Seq<Seq<char>>, k: int)
    requires
        0 <= k,
        spec_texts(a, codes),
        spec_codes_sorted(codes),
    ensures
        spec_read_codes(a, k) == Ok::<(), ExecutionOptionsError>(()),
    decreases a.len() - k,
{
    if k < a.len() {
        assert(spec_is_text(a[k], codes[k]));
        if k > 0 {
            assert(spec_is_text(a[k - 1], codes[k - 1]));
            assert(crate::cbor::value::spec_lex_lt(spec_utf8(codes[k - 1]), spec_utf8(codes[k])));
        }
        lemma_read_codes_ok(a, codes, k + 1);
    }
}

/// Reading back the record of a valid retry policy gives the same policy.
pub proof fn lemma_retry_roundtrip(max_attempts: u64, codes: Seq<Seq<char>>, backoff: Seq<u64>, v: Value)
    requires
        spec_retry_valid(max_attempts, codes, backoff),
        spec_retry_record(v, max_attempts, codes, backoff),
    ensures
        spec_parse_retry(v) == Ok::<(u64, Seq<Seq<char>>, Seq<u64>), ExecutionOptionsError>((max_attempts, codes, backoff)),
{
    let e = v->Object_0.entries@;
    let delays = spec_find(e, "backoff_ms"@)->0->Array_0@;
    let texts = spec_find(e, "on"@)->0->Array_0@;
    assert((max_attempts as i64) as u64 == max_attempts);
    lemma_read_delays_ok(delays, backoff, 0);
    lemma_read_codes_ok(texts, codes, 0);
    assert(Seq::new(texts.len(), |i: int| spec_text_of(texts[i])) =~= codes) by {
        assert forall|i: int| 0 <= i < texts.len() implies spec_text_of(texts[i]) == codes[i] by {
            assert(spec_is_text(texts[i], codes[i]));
        }
    }
    assert(Seq::new(delays.len(), |i: int| spec_integer_of(delays[i]) as u64) =~= backoff) by {
        assert forall|i: int| 0 <= i < delays.len() implies spec_integer_of(delays[i]) as u64 == backoff[i] by {
            assert(delays[i] == Value::Integer(backoff[i] as i64));
            assert(backoff[i] <= MAX_INTEGER);
        }
    }
}

} // verus!
