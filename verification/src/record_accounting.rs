//! Pre-allocation accounting for canonical record conversion.
//!
//! Converting a typed record to a CBOR value first charges each value it
//! will produce against the codec [`Limits`], so that an oversized record
//! fails before any string is copied or collection grown.

use vstd::prelude::*;
use vstd::string::*;

use crate::cbor::error::LimitKind;
use crate::cbor::error::Error;
use crate::cbor::limits::Limits;
use crate::cbor::value::{spec_encode, spec_f16_exact, spec_f32_exact, spec_float_bytes, spec_head, spec_int_arg, spec_utf8, FiniteFloat, Value};

verus! {

/// A conversion ceiling that was exhausted, with its configured maximum.
#[derive(Clone, Copy, Debug, PartialEq, Eq, Structural)]
pub struct EncodingLimitError {
    /// The exhausted resource.
    pub limit: LimitKind,
    /// The configured ceiling.
    pub maximum: usize,
}

/// The byte size of a CBOR header with this argument.
pub open spec fn spec_header_size(argument: nat) -> nat {
    if argument < 24 {
        1
    } else if argument < 256 {
        2
    } else if argument < 65536 {
        3
    } else if argument < 4294967296 {
        5
    } else {
        9
    }
}

/// Counters of one accounting pass: values, payload bytes, document bytes.
pub type Counters = (int, int, int);

/// Charging one value at `depth`: the depth and value-count ceilings are
/// checked first, then an optional per-value size ceiling, then the payload
/// total, then the document bytes. The first exhausted ceiling is reported.
pub open spec fn spec_charge(
    l: Limits,
    c: Counters,
    depth: int,
    single: Option<(int, usize, LimitKind)>,
    payload: Option<int>,
    bytes: int,
) -> Result<Counters, EncodingLimitError> {
    if depth > l.max_depth {
        Err(EncodingLimitError { limit: LimitKind::Depth, maximum: l.max_depth })
    } else if c.0 + 1 > l.max_total_values {
        Err(EncodingLimitError { limit: LimitKind::TotalValues, maximum: l.max_total_values })
    } else if single matches Some((n, max, kind)) && n > max {
        match single {
            Some((_, max, kind)) => Err(EncodingLimitError { limit: kind, maximum: max }),
            None => Err(EncodingLimitError { limit: LimitKind::Depth, maximum: l.max_depth }),
        }
    } else if payload matches Some(p) && c.1 + p > l.max_total_payload_bytes {
        Err(EncodingLimitError { limit: LimitKind::TotalPayloadBytes, maximum: l.max_total_payload_bytes })
    } else if c.2 + bytes > l.max_document_bytes {
        Err(EncodingLimitError { limit: LimitKind::DocumentBytes, maximum: l.max_document_bytes })
    } else {
        Ok((c.0 + 1, c.1 + match payload { Some(p) => p, None => 0 }, c.2 + bytes))
    }
}

/// One value charged by a conversion, with its depth.
#[derive(Clone, Copy, Debug, PartialEq, Eq, Structural)]
pub enum Charge {
    /// An array or map header with this many entries.
    Collection { len: usize, depth: usize },
    /// A text string with this many UTF-8 bytes.
    Text { len: usize, depth: usize },
    /// An integer.
    Integer { value: i64, depth: usize },
    /// A Boolean or null.
    Simple { depth: usize },
    /// A float with this bit pattern.
    Float { bits: u64, depth: usize },
    /// A byte string of this many bytes.
    Bytes { len: usize, depth: usize },
}

/// The outcome of charging `ch` to counters `c` under `l`.
pub open spec fn spec_apply(l: Limits, c: Counters, ch: Charge) -> Result<Counters, EncodingLimitError> {
    match ch {
        Charge::Collection { len, depth } => spec_charge(l, c, depth as int,
            Some((len as int, l.max_collection_entries, LimitKind::CollectionEntries)), None,
            spec_header_size(len as nat) as int),
        Charge::Text { len, depth } => spec_charge(l, c, depth as int,
            Some((len as int, l.max_text_bytes, LimitKind::TextBytes)), Some(len as int),
            (spec_header_size(len as nat) + len) as int),
        Charge::Integer { value, depth } => spec_charge(l, c, depth as int, None, None,
            spec_header_size(spec_int_arg(value)) as int),
        Charge::Simple { depth } => spec_charge(l, c, depth as int, None, None, 1),
        Charge::Float { bits, depth } => spec_charge(l, c, depth as int, None, None,
            spec_float_bytes(bits).len() as int),
        Charge::Bytes { len, depth } => spec_charge(l, c, depth as int,
            Some((len as int, l.max_byte_string_bytes, LimitKind::ByteStringBytes)), Some(len as int),
            (spec_header_size(len as nat) + len) as int),
    }
}

/// The values charged for `v` at `depth`, in document order: each value
/// before its children, and each map key before its value, children one
/// level deeper.
pub open spec fn spec_value_charges(v: Value, depth: int) -> Seq<Charge>
    decreases v,
{
    match v {
        Value::Null => seq![Charge::Simple { depth: depth as usize }],
        Value::Bool(_) => seq![Charge::Simple { depth: depth as usize }],
        Value::Integer(x) => seq![Charge::Integer { value: x, depth: depth as usize }],
        Value::Float(f) => seq![Charge::Float { bits: f.bits, depth: depth as usize }],
        Value::Text(t) => seq![Charge::Text { len: spec_utf8(t@).len() as usize, depth: depth as usize }],
        Value::Bytes(b) => seq![Charge::Bytes { len: b@.len() as usize, depth: depth as usize }],
        Value::Array(a) => seq![Charge::Collection { len: a@.len() as usize, depth: depth as usize }]
            + spec_list_charges(a@, depth + 1),
        Value::Object(m) => seq![Charge::Collection { len: m.entries@.len() as usize, depth: depth as usize }]
            + spec_entries_charges(m.entries@, depth + 1),
    }
}

/// The values charged for each element, in order.
pub open spec fn spec_list_charges(s: Seq<Value>, depth: int) -> Seq<Charge>
    decreases s,
{
    if s.len() == 0 {
        Seq::empty()
    } else {
        spec_list_charges(s.subrange(0, s.len() - 1), depth) + spec_value_charges(s[s.len() - 1], depth)
    }
}

/// The values charged for each entry, key then value, in order.
pub open spec fn spec_entries_charges(s: Seq<(String, Value)>, depth: int) -> Seq<Charge>
    decreases s,
{
    if s.len() == 0 {
        Seq::empty()
    } else {
        spec_entries_charges(s.subrange(0, s.len() - 1), depth)
            + seq![Charge::Text { len: spec_utf8(s[s.len() - 1].0@).len() as usize, depth: depth as usize }]
            + spec_value_charges(s[s.len() - 1].1, depth)
    }
}

/// The outcome of charging a sequence of values in order from `c`; the
/// first exhausted ceiling is reported.
pub open spec fn spec_charges(l: Limits, c: Counters, s: Seq<Charge>) -> Result<Counters, EncodingLimitError>
    decreases s.len(),
{
    if s.len() == 0 {
        Ok(c)
    } else {
        match spec_charges(l, c, s.drop_last()) {
            Ok(d) => spec_apply(l, d, s.last()),
            Err(e) => Err(e),
        }
    }
}

/// Charging one more value continues from the totals reached so far.
pub proof fn lemma_charges_push(l: Limits, c: Counters, s: Seq<Charge>, ch: Charge)
    ensures
        spec_charges(l, c, s.push(ch)) == match spec_charges(l, c, s) {
            Ok(d) => spec_apply(l, d, ch),
            Err(e) => Err(e),
        },
{
    assert(s.push(ch).drop_last() =~= s);
}

/// Charging a concatenation charges its parts in turn.
pub proof fn lemma_charges_append(l: Limits, c: Counters, s: Seq<Charge>, t: Seq<Charge>)
    ensures
        spec_charges(l, c, s + t) == match spec_charges(l, c, s) {
            Ok(d) => spec_charges(l, d, t),
            Err(e) => Err(e),
        },
    decreases t.len(),
{
    if t.len() == 0 {
        assert(s + t =~= s);
    } else {
        lemma_charges_append(l, c, s, t.drop_last());
        assert((s + t).drop_last() =~= s + t.drop_last());
    }
}

/// Charging a first value, then the rest.
pub proof fn lemma_charges_cons(l: Limits, c: Counters, ch: Charge, t: Seq<Charge>)
    ensures
        spec_charges(l, c, seq![ch] + t) == match spec_apply(l, c, ch) {
            Ok(d) => spec_charges(l, d, t),
            Err(e) => Err(e),
        },
{
    lemma_charges_append(l, c, seq![ch], t);
    assert(seq![ch].drop_last() =~= Seq::<Charge>::empty());
    assert(spec_charges(l, c, Seq::<Charge>::empty()) == Ok::<Counters, EncodingLimitError>(c));
    assert(seq![ch].last() == ch);
    assert(spec_charges(l, c, seq![ch]) == spec_apply(l, c, ch));
}

/// Charging one value is applying it.
pub proof fn lemma_charges_single(l: Limits, c: Counters, ch: Charge)
    ensures
        spec_charges(l, c, seq![ch]) == spec_apply(l, c, ch),
{
    assert(seq![ch].drop_last() =~= Seq::<Charge>::empty());
    assert(spec_charges(l, c, Seq::<Charge>::empty()) == Ok::<Counters, EncodingLimitError>(c));
}

/// An element list charges its first element, then the rest.
pub proof fn lemma_list_charges_front(s: Seq<Value>, depth: int)
    requires
        s.len() > 0,
    ensures
        spec_list_charges(s, depth) == spec_value_charges(s[0], depth) + spec_list_charges(s.drop_first(), depth),
    decreases s.len(),
{
    if s.len() == 1 {
        assert(s.subrange(0, 0) =~= Seq::<Value>::empty());
        assert(s.drop_first() =~= Seq::<Value>::empty());
        assert(Seq::<Charge>::empty() + spec_value_charges(s[0], depth) =~= spec_value_charges(s[0], depth) + Seq::<Charge>::empty());
    } else {
        let init = s.subrange(0, s.len() - 1);
        lemma_list_charges_front(init, depth);
        assert(init.drop_first() =~= s.drop_first().subrange(0, s.drop_first().len() - 1));
        assert(init[0] == s[0]);
        assert(s.drop_first()[s.drop_first().len() - 1] == s[s.len() - 1]);
        assert(spec_list_charges(s, depth) =~= spec_value_charges(s[0], depth) + spec_list_charges(s.drop_first(), depth));
    }
}

/// An entry list charges its first entry, key then value, then the rest.
pub proof fn lemma_entries_charges_front(s: Seq<(String, Value)>, depth: int)
    requires
        s.len() > 0,
    ensures
        spec_entries_charges(s, depth) == seq![Charge::Text { len: spec_utf8(s[0].0@).len() as usize, depth: depth as usize }]
            + spec_value_charges(s[0].1, depth) + spec_entries_charges(s.drop_first(), depth),
    decreases s.len(),
{
    if s.len() == 1 {
        assert(s.subrange(0, 0) =~= Seq::<(String, Value)>::empty());
        assert(s.drop_first() =~= Seq::<(String, Value)>::empty());
        assert(spec_entries_charges(s, depth) =~= seq![Charge::Text { len: spec_utf8(s[0].0@).len() as usize, depth: depth as usize }]
            + spec_value_charges(s[0].1, depth) + spec_entries_charges(s.drop_first(), depth));
    } else {
        let init = s.subrange(0, s.len() - 1);
        lemma_entries_charges_front(init, depth);
        assert(init.drop_first() =~= s.drop_first().subrange(0, s.drop_first().len() - 1));
        assert(init[0] == s[0]);
        assert(s.drop_first()[s.drop_first().len() - 1] == s[s.len() - 1]);
        assert(spec_entries_charges(s, depth) =~= seq![Charge::Text { len: spec_utf8(s[0].0@).len() as usize, depth: depth as usize }]
            + spec_value_charges(s[0].1, depth) + spec_entries_charges(s.drop_first(), depth));
    }
}

/// Fails when `value` exceeds `maximum`.
pub fn check(value: usize, maximum: usize, limit: LimitKind) -> (res: Result<(), EncodingLimitError>)
    ensures
        res is Ok <==> value <= maximum,
        res matches Err(e) ==> e == (EncodingLimitError { limit, maximum }),
{
    if value > maximum {
        return Err(EncodingLimitError { limit, maximum });
    }
    Ok(())
}

/// Adds `amount` to `current`, failing when the exact sum exceeds `maximum`;
/// arithmetic overflow is reported as the same limit error.
pub fn add(current: usize, amount: usize, maximum: usize, limit: LimitKind) -> (res: Result<usize, EncodingLimitError>)
    ensures
        res is Ok <==> current + amount <= maximum,
        res matches Ok(total) ==> total == current + amount,
        res matches Err(e) ==> e == (EncodingLimitError { limit, maximum }),
{
    let total = match current.checked_add(amount) {
        Some(t) => t,
        None => return Err(EncodingLimitError { limit, maximum }),
    };
    self::check(total, maximum, limit)?;
    Ok(total)
}

/// The byte size of the shortest CBOR header carrying `argument`.
pub fn header_size(argument: u64) -> (res: usize)
    ensures
        res == spec_header_size(argument as nat),
        res == spec_head(0, argument as nat).len(),
{
    proof {
        reveal_with_fuel(crate::cbor::value::spec_be, 9);
    }
    if argument <= 23 {
        1
    } else if argument <= 255 {
        2
    } else if argument <= 65535 {
        3
    } else if argument <= 0xffff_ffff {
        5
    } else {
        9
    }
}

/// Running totals for one record conversion under fixed limits.
pub struct RecordAccounting<'a> {
    /// The ceilings charged against.
    pub limits: &'a Limits,
    /// Values charged so far, map keys included.
    pub values: usize,
    /// Text and byte-string payload bytes charged so far.
    pub payload: usize,
    /// Encoded document bytes charged so far.
    pub bytes: usize,
}

impl<'a> RecordAccounting<'a> {
    /// The counters as integers.
    pub open spec fn counters(&self) -> Counters {
        (self.values as int, self.payload as int, self.bytes as int)
    }

    /// The outcome of a charge, as this accounting now stands.
    pub open spec fn charged(
        &self,
        after: &Self,
        res: Result<(), EncodingLimitError>,
        outcome: Result<Counters, EncodingLimitError>,
    ) -> bool {
        &&& after.limits == self.limits
        &&& match outcome {
            Ok(c) => res is Ok && after.counters() == c,
            Err(e) => res == Err::<(), EncodingLimitError>(e),
        }
    }

    /// Starts a pass with zero totals; the limits must be valid.
    pub fn new(limits: &'a Limits) -> (res: Result<RecordAccounting<'a>, Error>)
        ensures
            res is Ok <==> limits.spec_valid(),
            res matches Ok(a) ==> a.limits == limits && a.values == 0 && a.payload == 0 && a.bytes == 0,
            res matches Err(e) ==> e.kind == crate::cbor::error::ErrorKind::InvalidLimits,
    {
        limits.validate()?;
        Ok(RecordAccounting { limits, values: 0, payload: 0, bytes: 0 })
    }

    fn enter(&mut self, depth: usize) -> (res: Result<(), EncodingLimitError>)
        ensures
            final(self).limits == old(self).limits,
            final(self).payload == old(self).payload,
            final(self).bytes == old(self).bytes,
            res is Ok <==> depth <= old(self).limits.max_depth && old(self).values + 1 <= old(self).limits.max_total_values,
            res is Ok ==> final(self).values == old(self).values + 1,
            res matches Err(e) ==> e == if depth > old(self).limits.max_depth {
                EncodingLimitError { limit: LimitKind::Depth, maximum: old(self).limits.max_depth }
            } else {
                EncodingLimitError { limit: LimitKind::TotalValues, maximum: old(self).limits.max_total_values }
            },
    {
        self::check(depth, self.limits.max_depth, LimitKind::Depth)?;
        self.values = self::add(self.values, 1, self.limits.max_total_values, LimitKind::TotalValues)?;
        Ok(())
    }

    fn charge_bytes(&mut self, bytes: usize) -> (res: Result<(), EncodingLimitError>)
        ensures
            final(self).limits == old(self).limits,
            final(self).values == old(self).values,
            final(self).payload == old(self).payload,
            res is Ok <==> old(self).bytes + bytes <= old(self).limits.max_document_bytes,
            res is Ok ==> final(self).bytes == old(self).bytes + bytes,
            res matches Err(e) ==> e == (EncodingLimitError { limit: LimitKind::DocumentBytes, maximum: old(self).limits.max_document_bytes }),
    {
        self.bytes = self::add(self.bytes, bytes, self.limits.max_document_bytes, LimitKind::DocumentBytes)?;
        Ok(())
    }

    fn charge_payload(&mut self, amount: usize) -> (res: Result<(), EncodingLimitError>)
        ensures
            final(self).limits == old(self).limits,
            final(self).values == old(self).values,
            final(self).bytes == old(self).bytes,
            res is Ok <==> old(self).payload + amount <= old(self).limits.max_total_payload_bytes,
            res is Ok ==> final(self).payload == old(self).payload + amount,
            res matches Err(e) ==> e == (EncodingLimitError { limit: LimitKind::TotalPayloadBytes, maximum: old(self).limits.max_total_payload_bytes }),
    {
        self.payload = self::add(self.payload, amount, self.limits.max_total_payload_bytes, LimitKind::TotalPayloadBytes)?;
        Ok(())
    }

    /// Charges an array or map header with `len` entries at `depth`.
    pub fn collection(&mut self, len: usize, depth: usize) -> (res: Result<(), EncodingLimitError>)
        ensures
            old(self).charged(final(self), res, spec_charge(*old(self).limits, old(self).counters(), depth as int,
                Some((len as int, old(self).limits.max_collection_entries, LimitKind::CollectionEntries)),
                None, spec_header_size(len as nat) as int)),
    {
        self.enter(depth)?;
        self::check(len, self.limits.max_collection_entries, LimitKind::CollectionEntries)?;
        self.charge_bytes(header_size(len as u64))
    }

    /// Charges one text string at `depth`: its header and UTF-8 bytes.
    pub fn text(&mut self, text: &str, depth: usize) -> (res: Result<(), EncodingLimitError>)
        ensures
            old(self).charged(final(self), res, spec_charge(*old(self).limits, old(self).counters(), depth as int,
                Some((text.spec_bytes().len() as int, old(self).limits.max_text_bytes, LimitKind::TextBytes)),
                Some(text.spec_bytes().len() as int),
                (spec_header_size(text.spec_bytes().len()) + text.spec_bytes().len()) as int)),
    {
        let len = text.as_bytes().len();
        self.enter(depth)?;
        self::check(len, self.limits.max_text_bytes, LimitKind::TextBytes)?;
        self.charge_payload(len)?;
        self.charge_bytes(header_size(len as u64))?;
        self.charge_bytes(len)
    }

    /// Charges one value described by `ch`.
    pub fn apply(&mut self, ch: Charge) -> (res: Result<(), EncodingLimitError>)
        ensures
            old(self).charged(final(self), res, spec_apply(*old(self).limits, old(self).counters(), ch)),
    {
        match ch {
            Charge::Collection { len, depth } => self.collection(len, depth),
            Charge::Text { len, depth } => self.text_len(len, depth),
            Charge::Integer { value, depth } => self.integer(value, depth),
            Charge::Simple { depth } => self.boolean(depth),
            Charge::Float { bits, depth } => self.float_bits(bits, depth),
            Charge::Bytes { len, depth } => self.bytes_len(len, depth),
        }
    }

    /// Charges one text string of `len` UTF-8 bytes at `depth`.
    pub fn text_len(&mut self, len: usize, depth: usize) -> (res: Result<(), EncodingLimitError>)
        ensures
            old(self).charged(final(self), res, spec_apply(*old(self).limits, old(self).counters(),
                Charge::Text { len, depth })),
    {
        self.enter(depth)?;
        self::check(len, self.limits.max_text_bytes, LimitKind::TextBytes)?;
        self.charge_payload(len)?;
        self.charge_bytes(header_size(len as u64))?;
        self.charge_bytes(len)
    }

    /// Charges a float by its bit pattern at `depth`.
    pub fn float_bits(&mut self, bits: u64, depth: usize) -> (res: Result<(), EncodingLimitError>)
        ensures
            old(self).charged(final(self), res, spec_apply(*old(self).limits, old(self).counters(),
                Charge::Float { bits, depth })),
    {
        let size = crate::cbor::header::float_width(bits);
        self.enter(depth)?;
        self.charge_bytes(size)
    }

    /// Charges a byte string of `len` bytes at `depth`.
    pub fn bytes_len(&mut self, len: usize, depth: usize) -> (res: Result<(), EncodingLimitError>)
        ensures
            old(self).charged(final(self), res, spec_apply(*old(self).limits, old(self).counters(),
                Charge::Bytes { len, depth })),
    {
        self.enter(depth)?;
        self::check(len, self.limits.max_byte_string_bytes, LimitKind::ByteStringBytes)?;
        self.charge_payload(len)?;
        self.charge_bytes(header_size(len as u64))?;
        self.charge_bytes(len)
    }

    /// Charges a whole value at `depth`: itself, then its children in order.
    #[verifier::rlimit(60)]
    pub fn value(&mut self, v: &Value, depth: usize) -> (res: Result<(), EncodingLimitError>)
        requires
            old(self).limits.spec_valid(),
        ensures
            final(self).limits == old(self).limits,
            match spec_charges(*old(self).limits, old(self).counters(), spec_value_charges(*v, depth as int)) {
                Ok(c) => res is Ok && final(self).counters() == c,
                Err(e) => res == Err::<(), EncodingLimitError>(e),
            },
        decreases v,
    {
        let ghost l = *self.limits;
        let ghost start = self.counters();
        match v {
            Value::Null | Value::Bool(_) => {
                proof { lemma_charges_single(l, start, Charge::Simple { depth }); }
                self.boolean(depth)
            },
            Value::Integer(x) => {
                proof { lemma_charges_single(l, start, Charge::Integer { value: *x, depth }); }
                self.integer(*x, depth)
            },
            Value::Float(f) => {
                proof { lemma_charges_single(l, start, Charge::Float { bits: f.bits, depth }); }
                self.float_bits(f.bits, depth)
            },
            Value::Text(t) => {
                let ch = Charge::Text { len: t.as_str().as_bytes().len(), depth };
                proof { lemma_charges_single(l, start, ch); }
                self.apply(ch)
            },
            Value::Bytes(b) => {
                proof { lemma_charges_single(l, start, Charge::Bytes { len: b.len(), depth }); }
                self.bytes_len(b.len(), depth)
            },
            Value::Array(a) => {
                let head = Charge::Collection { len: a.len(), depth };
                proof {
                    lemma_charges_cons(l, start, head, spec_list_charges(a@, depth + 1));
                }
                self.apply(head)?;
                let mut i: usize = 0;
                assert(a@.subrange(0, a@.len() as int) =~= a@);
                while i < a.len()
                    invariant
                        i <= a@.len(),
                        *v == Value::Array(*a),
                        start == old(self).counters(),
                        depth <= l.max_depth,
                        l.spec_valid(),
                        l == *self.limits,
                        self.limits == old(self).limits,
                        spec_charges(l, start, spec_value_charges(*v, depth as int))
                            == spec_charges(l, self.counters(), spec_list_charges(a@.subrange(i as int, a@.len() as int), depth + 1)),
                    decreases a@.len() - i,
                {
                    proof {
                        lemma_list_charges_front(a@.subrange(i as int, a@.len() as int), depth + 1);
                        assert(a@.subrange(i as int, a@.len() as int).drop_first() =~= a@.subrange(i + 1, a@.len() as int));
                        lemma_charges_append(l, self.counters(), spec_value_charges(a@[i as int], depth + 1),
                            spec_list_charges(a@.subrange(i + 1, a@.len() as int), depth + 1));
                    }
                    self.value(&a[i], depth + 1)?;
                    i = i + 1;
                }
                proof {
                    assert(a@.subrange(i as int, a@.len() as int) =~= Seq::<Value>::empty());
                }
                Ok(())
            },
            Value::Object(m) => {
                let head = Charge::Collection { len: m.entries.len(), depth };
                proof {
                    lemma_charges_cons(l, start, head, spec_entries_charges(m.entries@, depth + 1));
                }
                self.apply(head)?;
                let mut i: usize = 0;
                assert(m.entries@.subrange(0, m.entries@.len() as int) =~= m.entries@);
                while i < m.entries.len()
                    invariant
                        i <= m.entries@.len(),
                        *v == Value::Object(*m),
                        start == old(self).counters(),
                        depth <= l.max_depth,
                        l.spec_valid(),
                        l == *self.limits,
                        self.limits == old(self).limits,
                        spec_charges(l, start, spec_value_charges(*v, depth as int))
                            == spec_charges(l, self.counters(), spec_entries_charges(m.entries@.subrange(i as int, m.entries@.len() as int), depth + 1)),
                    decreases m.entries@.len() - i,
                {
                    let e = &m.entries[i];
                    let key = Charge::Text { len: e.0.as_str().as_bytes().len(), depth: depth + 1 };
                    proof {
                        let rest = m.entries@.subrange(i as int, m.entries@.len() as int);
                        lemma_entries_charges_front(rest, depth + 1);
                        assert(rest.drop_first() =~= m.entries@.subrange(i + 1, m.entries@.len() as int));
                        assert(rest[0] == m.entries@[i as int]);
                        lemma_charges_cons(l, self.counters(), key,
                            spec_value_charges(m.entries@[i as int].1, depth + 1)
                            + spec_entries_charges(m.entries@.subrange(i + 1, m.entries@.len() as int), depth + 1));
                        assert(seq![key] + (spec_value_charges(m.entries@[i as int].1, depth + 1)
                            + spec_entries_charges(m.entries@.subrange(i + 1, m.entries@.len() as int), depth + 1))
                            =~= spec_entries_charges(rest, depth + 1));
                    }
                    self.apply(key)?;
                    proof {
                        lemma_charges_append(l, self.counters(), spec_value_charges(m.entries@[i as int].1, depth + 1),
                            spec_entries_charges(m.entries@.subrange(i + 1, m.entries@.len() as int), depth + 1));
                    }
                    self.value(&e.1, depth + 1)?;
                    i = i + 1;
                }
                proof {
                    assert(m.entries@.subrange(i as int, m.entries@.len() as int) =~= Seq::<(String, Value)>::empty());
                }
                Ok(())
            },
        }
    }

    /// Charges a Boolean at `depth` (one byte).
    pub fn boolean(&mut self, depth: usize) -> (res: Result<(), EncodingLimitError>)
        ensures
            old(self).charged(final(self), res, spec_charge(*old(self).limits, old(self).counters(), depth as int, None, None, 1)),
    {
        self.enter(depth)?;
        self.charge_bytes(1)
    }

    /// Charges a null at `depth` (one byte).
    pub fn null(&mut self, depth: usize) -> (res: Result<(), EncodingLimitError>)
        ensures
            old(self).charged(final(self), res, spec_charge(*old(self).limits, old(self).counters(), depth as int, None, None, 1)),
    {
        self.boolean(depth)
    }

    /// Charges one byte string at `depth`: its header and bytes.
    pub fn byte_string(&mut self, value: &[u8], depth: usize) -> (res: Result<(), EncodingLimitError>)
        ensures
            old(self).charged(final(self), res, spec_charge(*old(self).limits, old(self).counters(), depth as int,
                Some((value@.len() as int, old(self).limits.max_byte_string_bytes, LimitKind::ByteStringBytes)),
                Some(value@.len() as int),
                (spec_header_size(value@.len()) + value@.len()) as int)),
    {
        let len = value.len();
        self.enter(depth)?;
        self::check(len, self.limits.max_byte_string_bytes, LimitKind::ByteStringBytes)?;
        self.charge_payload(len)?;
        self.charge_bytes(header_size(len as u64))?;
        self.charge_bytes(len)
    }

    /// Charges a float at `depth`: 3, 5 or 9 bytes, the size of its shortest
    /// exact encoding.
    pub fn float(&mut self, value: FiniteFloat, depth: usize) -> (res: Result<(), EncodingLimitError>)
        ensures
            old(self).charged(final(self), res, spec_charge(*old(self).limits, old(self).counters(), depth as int, None, None,
                spec_float_bytes(value.bits).len() as int)),
            spec_float_bytes(value.bits).len() == if spec_f16_exact(value.bits) { 3int }
                else if spec_f32_exact(value.bits) { 5int } else { 9int },
    {
        let size = crate::cbor::header::float_width(value.to_bits());
        self.enter(depth)?;
        self.charge_bytes(size)
    }

    /// Charges an integer at `depth`: exactly the bytes of its encoding.
    pub fn integer(&mut self, value: i64, depth: usize) -> (res: Result<(), EncodingLimitError>)
        ensures
            old(self).charged(final(self), res, spec_charge(*old(self).limits, old(self).counters(), depth as int, None, None,
                spec_header_size(spec_int_arg(value)) as int)),
            spec_header_size(spec_int_arg(value)) == spec_encode(Value::Integer(value)).len(),
    {
        let argument: u64 = if value >= 0 { value as u64 } else { (-1i64 - value) as u64 };
        let size = header_size(argument);
        proof {
            reveal_with_fuel(crate::cbor::value::spec_be, 9);
        }
        self.enter(depth)?;
        self.charge_bytes(size)
    }
}

} // verus!

verus! {

/// Values denoting the same data are charged alike.
pub proof fn lemma_same_charges(a: Value, b: Value, depth: int)
    requires
        crate::cbor::value::spec_same(a, b),
    ensures
        spec_value_charges(a, depth) == spec_value_charges(b, depth),
    decreases a,
{
    match a {
        Value::Array(s) => {
            let t = b->Array_0;
            lemma_same_list_charges(s@, t@, depth + 1);
        },
        Value::Object(m) => {
            let n = b->Object_0;
            lemma_same_entries_charges(m.entries@, n.entries@, depth + 1);
        },
        _ => {},
    }
}

/// Lists of the same data are charged alike.
pub proof fn lemma_same_list_charges(s: Seq<Value>, t: Seq<Value>, depth: int)
    requires
        crate::cbor::value::spec_same_list(s, t),
    ensures
        spec_list_charges(s, depth) == spec_list_charges(t, depth),
    decreases s,
{
    if s.len() > 0 {
        lemma_same_list_charges(s.subrange(0, s.len() - 1), t.subrange(0, t.len() - 1), depth);
        lemma_same_charges(s[s.len() - 1], t[t.len() - 1], depth);
    }
}

/// Entries of the same data are charged alike.
pub proof fn lemma_same_entries_charges(s: Seq<(String, Value)>, t: Seq<(String, Value)>, depth: int)
    requires
        crate::cbor::value::spec_same_entries(s, t),
    ensures
        spec_entries_charges(s, depth) == spec_entries_charges(t, depth),
    decreases s,
{
    if s.len() > 0 {
        lemma_same_entries_charges(s.subrange(0, s.len() - 1), t.subrange(0, t.len() - 1), depth);
        lemma_same_charges(s[s.len() - 1].1, t[t.len() - 1].1, depth);
    }
}

} // verus!

