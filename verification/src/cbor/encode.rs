use vstd::prelude::*;

use super::accounting::check;
use super::error::{Error, ErrorKind, LimitKind};
use super::header::{append_bytes, backend_head, head_bytes, push_float, Head};
use super::limits::Limits;
use super::value::{
    spec_encode, spec_encode_entries, spec_encode_text, spec_encode_list, spec_float_bytes, spec_head, spec_height,
    spec_height_entries, spec_height_list, Value, ValueMap,
};

verus! {

/// `e` reports a ceiling that an encoding of `size` bytes reaching `height`
/// levels below the root really exhausts.
pub open spec fn spec_encode_failure(e: Error, size: int, height: int, limits: Limits) -> bool {
    &&& e.offset_spec() is None
    &&& ((e.kind == ErrorKind::LimitExceeded { limit: LimitKind::DocumentBytes, maximum: limits.max_document_bytes }
            && size > limits.max_document_bytes)
        || (e.kind == ErrorKind::LimitExceeded { limit: LimitKind::Depth, maximum: limits.max_depth }
            && height > limits.max_depth))
}

/// The depth ceiling exhausted.
pub open spec fn spec_depth_exceeded(l: Limits) -> ErrorKind {
    ErrorKind::LimitExceeded { limit: LimitKind::Depth, maximum: l.max_depth }
}

/// The document ceiling exhausted.
pub open spec fn spec_bytes_exceeded(l: Limits) -> ErrorKind {
    ErrorKind::LimitExceeded { limit: LimitKind::DocumentBytes, maximum: l.max_document_bytes }
}

/// Appending `n` bytes to an output of `pos` bytes: the new length, or the
/// document ceiling when it would be exceeded.
pub open spec fn spec_emit(pos: int, n: int, l: Limits) -> Result<int, ErrorKind> {
    if pos + n > l.max_document_bytes {
        Err(spec_bytes_exceeded(l))
    } else {
        Ok(pos + n)
    }
}

/// Streaming the encoding of `v`, a node at `depth`, after `pos` bytes of
/// output: each node's depth is checked on entry, then each header and
/// payload before it is written, children in order. The outcome is the
/// output length reached, or the first ceiling met.
pub open spec fn spec_encode_run(v: Value, pos: int, depth: int, l: Limits) -> Result<int, ErrorKind>
    decreases v, 2nat,
{
    if depth > l.max_depth {
        Err(spec_depth_exceeded(l))
    } else {
        match v {
            Value::Array(a) => spec_array_run(a@, pos, depth, l),
            Value::Object(m) => spec_object_run(m.entries@, pos, depth, l),
            _ => spec_emit(pos, spec_encode(v).len() as int, l),
        }
    }
}

/// Streaming an array's encoding: the children's depth, its header, then
/// its elements.
pub open spec fn spec_array_run(a: Seq<Value>, pos: int, depth: int, l: Limits) -> Result<int, ErrorKind>
    decreases a, 1nat,
{
    if a.len() > 0 && depth + 1 > l.max_depth {
        Err(spec_depth_exceeded(l))
    } else {
        match spec_emit(pos, spec_head(4, a.len()).len() as int, l) {
            Err(e) => Err(e),
            Ok(p) => spec_list_run(a, p, depth + 1, l),
        }
    }
}

/// Streaming a map's encoding: the children's depth, its header, then its
/// entries.
pub open spec fn spec_object_run(e: Seq<(String, Value)>, pos: int, depth: int, l: Limits) -> Result<int, ErrorKind>
    decreases e, 1nat,
{
    if e.len() > 0 && depth + 1 > l.max_depth {
        Err(spec_depth_exceeded(l))
    } else {
        match spec_emit(pos, spec_head(5, e.len()).len() as int, l) {
            Err(x) => Err(x),
            Ok(p) => spec_entries_run(e, p, depth + 1, l),
        }
    }
}

/// Streaming elements in order.
pub open spec fn spec_list_run(s: Seq<Value>, pos: int, depth: int, l: Limits) -> Result<int, ErrorKind>
    decreases s, 0nat,
{
    if s.len() == 0 {
        Ok(pos)
    } else {
        match spec_encode_run(s[0], pos, depth, l) {
            Err(e) => Err(e),
            Ok(p) => spec_list_run(s.subrange(1, s.len() as int), p, depth, l),
        }
    }
}

/// Streaming entries in order: each key, then its value.
pub open spec fn spec_entries_run(s: Seq<(String, Value)>, pos: int, depth: int, l: Limits) -> Result<int, ErrorKind>
    decreases s, 0nat,
{
    if s.len() == 0 {
        Ok(pos)
    } else {
        match spec_emit(pos, spec_encode_text(s[0].0@).len() as int, l) {
            Err(e) => Err(e),
            Ok(p) => match spec_encode_run(s[0].1, p, depth, l) {
                Err(e) => Err(e),
                Ok(q) => spec_entries_run(s.subrange(1, s.len() as int), q, depth, l),
            },
        }
    }
}

/// The ceiling that encoding `v` under valid limits reports, if any.
pub open spec fn spec_encode_error(v: Value, l: Limits) -> Option<ErrorKind> {
    match spec_encode_run(v, 0, 0, l) {
        Err(k) => Some(k),
        Ok(_) => None,
    }
}

/// A value's encoding fits the document ceiling and its height the depth ceiling.
pub open spec fn spec_fits(v: Value, limits: Limits) -> bool {
    spec_encode(v).len() <= limits.max_document_bytes && spec_height(v) <= limits.max_depth
}

proof fn lemma_list_prefix_len(s: Seq<Value>, i: int, j: int)
    requires
        0 <= i <= j <= s.len(),
    ensures
        spec_encode_list(s.subrange(0, i)).len() <= spec_encode_list(s.subrange(0, j)).len(),
    decreases j - i,
{
    if i < j {
        lemma_list_prefix_len(s, i, j - 1);
        assert(s.subrange(0, j).subrange(0, j - 1) =~= s.subrange(0, j - 1));
    }
}

proof fn lemma_entries_prefix_len(s: Seq<(String, Value)>, i: int, j: int)
    requires
        0 <= i <= j <= s.len(),
    ensures
        spec_encode_entries(s.subrange(0, i)).len() <= spec_encode_entries(s.subrange(0, j)).len(),
    decreases j - i,
{
    if i < j {
        lemma_entries_prefix_len(s, i, j - 1);
        assert(s.subrange(0, j).subrange(0, j - 1) =~= s.subrange(0, j - 1));
    }
}

proof fn lemma_height_list_prefix(s: Seq<Value>, i: int, j: int)
    requires
        0 <= i <= j <= s.len(),
    ensures
        spec_height_list(s.subrange(0, i)) <= spec_height_list(s.subrange(0, j)),
        i < j ==> spec_height(s[i]) <= spec_height_list(s.subrange(0, j)),
    decreases j - i,
{
    if i < j {
        lemma_height_list_prefix(s, i, j - 1);
        assert(s.subrange(0, j).subrange(0, j - 1) =~= s.subrange(0, j - 1));
    }
}

proof fn lemma_height_entries_prefix(s: Seq<(String, Value)>, i: int, j: int)
    requires
        0 <= i <= j <= s.len(),
    ensures
        spec_height_entries(s.subrange(0, i)) <= spec_height_entries(s.subrange(0, j)),
        i < j ==> spec_height(s[i].1) <= spec_height_entries(s.subrange(0, j)),
    decreases j - i,
{
    if i < j {
        lemma_height_entries_prefix(s, i, j - 1);
        assert(s.subrange(0, j).subrange(0, j - 1) =~= s.subrange(0, j - 1));
    }
}

/// Encoding state: the output so far and the borrowed ceilings.
pub struct Encoder<'a> {
    /// Bytes produced so far.
    pub output: Vec<u8>,
    /// The ceilings for this operation.
    pub limits: &'a Limits,
}

impl<'a> Encoder<'a> {
    /// Appends a header and a body, all or nothing, within the byte budget.
    pub fn append(&mut self, head: &[u8], body: &[u8]) -> (res: Result<(), Error>)
        ensures
            final(self).limits == old(self).limits,
            res is Ok <==> old(self).output@.len() + head@.len() + body@.len() <= old(self).limits.max_document_bytes,
            res is Ok ==> final(self).output@ == old(self).output@ + head@ + body@,
            res is Err ==> final(self).output@ == old(self).output@,
            res matches Err(e) ==> e.offset_spec() is None && e.kind == (ErrorKind::LimitExceeded {
                limit: LimitKind::DocumentBytes,
                maximum: old(self).limits.max_document_bytes,
            }),
    {
        let maximum = self.limits.max_document_bytes;
        let needed = crate::cbor::accounting::add(self.output.len(), head.len(), maximum, LimitKind::DocumentBytes)?;
        crate::cbor::accounting::add(needed, body.len(), maximum, LimitKind::DocumentBytes)?;
        append_bytes(&mut self.output, head);
        append_bytes(&mut self.output, body);
        assert(self.output@ =~= old(self).output@ + head@ + body@);
        Ok(())
    }

    /// Appends the shortest header for a major type and argument.
    pub fn header(&mut self, major: u8, argument: u64) -> (res: Result<(), Error>)
        requires
            major < 8,
        ensures
            final(self).limits == old(self).limits,
            res is Ok <==> old(self).output@.len() + spec_head(major as nat, argument as nat).len()
                <= old(self).limits.max_document_bytes,
            res is Ok ==> final(self).output@ == old(self).output@ + spec_head(major as nat, argument as nat),
            res matches Err(e) ==> e.offset_spec() is None && e.kind == (ErrorKind::LimitExceeded {
                limit: LimitKind::DocumentBytes,
                maximum: old(self).limits.max_document_bytes,
            }),
    {
        let head = head_bytes(major, argument);
        let empty: Vec<u8> = Vec::new();
        let res = self.append(head.as_slice(), empty.as_slice());
        assert(self.output@ =~= old(self).output@ + spec_head(major as nat, argument as nat) || res is Err);
        res
    }

    /// Appends a text (major 3) or byte (major 2) string; the header and the
    /// full payload are accounted before either is written.
    pub fn string(&mut self, bytes: &[u8], text: bool) -> (res: Result<(), Error>)
        ensures
            final(self).limits == old(self).limits,
            res is Ok <==> old(self).output@.len() + spec_head(if text { 3 } else { 2 }, bytes@.len()).len()
                + bytes@.len() <= old(self).limits.max_document_bytes,
            res is Ok ==> final(self).output@ == old(self).output@ + spec_head(if text { 3 } else { 2 }, bytes@.len())
                + bytes@,
            res is Err ==> final(self).output@ == old(self).output@,
            res matches Err(e) ==> e.offset_spec() is None && e.kind == (ErrorKind::LimitExceeded {
                limit: LimitKind::DocumentBytes,
                maximum: old(self).limits.max_document_bytes,
            }),
    {
        let head = head_bytes(if text { 3 } else { 2 }, bytes.len() as u64);
        self.append(head.as_slice(), bytes)
    }

    /// The depth of children: one more than `depth` when there are any.
    pub fn child_depth(&self, depth: usize, has_children: bool) -> (res: Result<usize, Error>)
        ensures
            has_children ==> (res is Ok <==> depth + 1 <= self.limits.max_depth),
            has_children ==> (res matches Ok(d) ==> d == depth + 1),
            !has_children ==> res == Ok::<usize, Error>(depth),
            res matches Err(e) ==> e.offset_spec() is None && e.kind == (ErrorKind::LimitExceeded {
                limit: LimitKind::Depth,
                maximum: self.limits.max_depth,
            }),
    {
        if has_children {
            crate::cbor::accounting::add(depth, 1, self.limits.max_depth, LimitKind::Depth)
        } else {
            Ok(depth)
        }
    }

    /// Appends the deterministic encoding of `value`, a node at `depth`.
    pub fn value(&mut self, value: &Value, depth: usize) -> (res: Result<(), Error>)
        requires
            old(self).output@.len() <= old(self).limits.max_document_bytes,
        ensures
            final(self).limits == old(self).limits,
            res is Ok ==> final(self).output@ == old(self).output@ + spec_encode(*value),
            res is Ok ==> old(self).output@.len() + spec_encode(*value).len() <= old(self).limits.max_document_bytes,
            res is Ok ==> depth + spec_height(*value) <= old(self).limits.max_depth,
            res matches Err(e) ==> spec_encode_failure(
                e,
                (old(self).output@.len() + spec_encode(*value).len()) as int,
                depth + spec_height(*value),
                *old(self).limits,
            ),
            match spec_encode_run(*value, old(self).output@.len() as int, depth as int, *old(self).limits) {
                Ok(p) => res is Ok && final(self).output@.len() == p,
                Err(k) => res matches Err(e) && e.kind == k,
            },
        decreases value,
    {
        let ghost start = self.output@;
        match check(depth, self.limits.max_depth, LimitKind::Depth) {
            Ok(()) => {},
            Err(e) => return Err(e),
        }
        match value {
            Value::Null => self.scalar(Head::Simple(22)),
            Value::Bool(b) => self.scalar(Head::Simple(if *b { 21 } else { 20 })),
            Value::Integer(i) => {
                if *i < 0 {
                    let argument = (-1 - *i) as u64;
                    self.scalar(Head::Negative(argument))
                } else {
                    self.scalar(Head::Positive(*i as u64))
                }
            },
            Value::Float(f) => {
                let mut bytes: Vec<u8> = Vec::new();
                push_float(&mut bytes, f.bits);
                let empty: Vec<u8> = Vec::new();
                let res = self.append(bytes.as_slice(), empty.as_slice());
                assert(res is Ok ==> self.output@ =~= start + spec_float_bytes(f.bits));
                res
            },
            Value::Text(s) => {
                let bytes = s.as_str().as_bytes();
                self.string(bytes, true)
            },
            Value::Bytes(b) => self.string(b.as_slice(), false),
            Value::Array(values) => self.array(values, depth),
            Value::Object(map) => self.object(map, depth),
        }
    }

    fn scalar(&mut self, head: Head) -> (res: Result<(), Error>)
        requires
            head matches Head::Simple(s) ==> s < 24,
        ensures
            final(self).limits == old(self).limits,
            res is Ok <==> old(self).output@.len() + spec_backend_head_len(head) <= old(self).limits.max_document_bytes,
            res is Ok ==> final(self).output@ == old(self).output@ + super::header::spec_backend_head(head),
            res matches Err(e) ==> e.offset_spec() is None && e.kind == (ErrorKind::LimitExceeded {
                limit: LimitKind::DocumentBytes,
                maximum: old(self).limits.max_document_bytes,
            }),
    {
        let bytes = backend_head(head);
        let empty: Vec<u8> = Vec::new();
        let res = self.append(bytes.as_slice(), empty.as_slice());
        assert(res is Ok ==> self.output@ =~= old(self).output@ + super::header::spec_backend_head(head));
        res
    }

    fn array(&mut self, values: &Vec<Value>, depth: usize) -> (res: Result<(), Error>)
        requires
            old(self).output@.len() <= old(self).limits.max_document_bytes,
            depth <= old(self).limits.max_depth,
        ensures
            final(self).limits == old(self).limits,
            res is Ok ==> final(self).output@ == old(self).output@ + spec_head(4, values@.len()) + spec_encode_list(values@),
            res is Ok ==> old(self).output@.len() + spec_head(4, values@.len()).len() + spec_encode_list(values@).len()
                <= old(self).limits.max_document_bytes,
            res is Ok ==> depth + (if values@.len() == 0 { 0 } else { 1 + spec_height_list(values@) }) <= old(self).limits.max_depth,
            res matches Err(e) ==> spec_encode_failure(
                e,
                (old(self).output@.len() + spec_head(4, values@.len()).len() + spec_encode_list(values@).len()) as int,
                depth + (if values@.len() == 0 { 0 } else { 1 + spec_height_list(values@) }),
                *old(self).limits,
            ),
            match spec_array_run(values@, old(self).output@.len() as int, depth as int, *old(self).limits) {
                Ok(p) => res is Ok && final(self).output@.len() == p,
                Err(k) => res matches Err(e) && e.kind == k,
            },
        decreases values, 0nat,
    {
        let ghost start = self.output@;
        let ghost all = values@;
        let child_depth = self.child_depth(depth, values.len() > 0)?;
        self.header(4, values.len() as u64)?;
        let ghost after_head = self.output@;
        proof { assert(all.subrange(0, all.len() as int) =~= all); }
        let mut i: usize = 0;
        while i < values.len()
            invariant
                i <= values@.len(),
                all == values@,
                self.limits == old(self).limits,
                start == old(self).output@,
                after_head == start + spec_head(4, all.len()),
                self.output@ == after_head + spec_encode_list(all.subrange(0, i as int)),
                self.output@.len() <= self.limits.max_document_bytes,
                all.len() > 0 ==> child_depth == depth + 1,
                all.len() > 0 ==> child_depth <= self.limits.max_depth,
                all.len() > 0 ==> child_depth + spec_height_list(all.subrange(0, i as int)) <= self.limits.max_depth,
                spec_list_run(all, after_head.len() as int, depth + 1, *self.limits)
                    == spec_list_run(all.subrange(i as int, all.len() as int), self.output@.len() as int, depth + 1, *self.limits),
            decreases all.len() - i,
        {
            let ghost before = self.output@;
            proof {
                assert(all.subrange(i as int, all.len() as int)[0] == all[i as int]);
                assert(all.subrange(i as int, all.len() as int).subrange(1, all.len() - i) =~= all.subrange(i + 1, all.len() as int));
            }
            proof {
                assert(all.subrange(0, i + 1).subrange(0, i as int) =~= all.subrange(0, i as int));
                assert(all.subrange(0, all.len() as int) =~= all);
                lemma_list_prefix_len(all, i + 1, all.len() as int);
                lemma_height_list_prefix(all, i as int, all.len() as int);
                assert(spec_encode_list(all.subrange(0, i + 1)) == spec_encode_list(all.subrange(0, i as int))
                    + spec_encode(all[i as int]));
            }
            match self.value(&values[i], child_depth) {
                Ok(()) => {},
                Err(e) => {
                    return Err(e);
                },
            }
            i = i + 1;
            assert(self.output@ =~= after_head + spec_encode_list(all.subrange(0, i as int)));
        }
        assert(all.subrange(0, all.len() as int) =~= all);
        Ok(())
    }

    fn object(&mut self, map: &ValueMap, depth: usize) -> (res: Result<(), Error>)
        requires
            old(self).output@.len() <= old(self).limits.max_document_bytes,
            depth <= old(self).limits.max_depth,
        ensures
            final(self).limits == old(self).limits,
            res is Ok ==> final(self).output@ == old(self).output@ + spec_head(5, map.entries@.len())
                + spec_encode_entries(map.entries@),
            res is Ok ==> old(self).output@.len() + spec_head(5, map.entries@.len()).len()
                + spec_encode_entries(map.entries@).len() <= old(self).limits.max_document_bytes,
            res is Ok ==> depth + (if map.entries@.len() == 0 { 0 } else { 1 + spec_height_entries(map.entries@) })
                <= old(self).limits.max_depth,
            res matches Err(e) ==> spec_encode_failure(
                e,
                (old(self).output@.len() + spec_head(5, map.entries@.len()).len() + spec_encode_entries(map.entries@).len()) as int,
                depth + (if map.entries@.len() == 0 { 0 } else { 1 + spec_height_entries(map.entries@) }),
                *old(self).limits,
            ),
            match spec_object_run(map.entries@, old(self).output@.len() as int, depth as int, *old(self).limits) {
                Ok(p) => res is Ok && final(self).output@.len() == p,
                Err(k) => res matches Err(e) && e.kind == k,
            },
        decreases map, 0nat,
    {
        let ghost start = self.output@;
        let entries = &map.entries;
        let ghost all = entries@;
        let child_depth = self.child_depth(depth, entries.len() > 0)?;
        self.header(5, entries.len() as u64)?;
        let ghost after_head = self.output@;
        proof { assert(all.subrange(0, all.len() as int) =~= all); }
        let mut i: usize = 0;
        while i < entries.len()
            invariant
                i <= all.len(),
                all == entries@,
                entries == &map.entries,
                self.limits == old(self).limits,
                start == old(self).output@,
                after_head == start + spec_head(5, all.len()),
                self.output@ == after_head + spec_encode_entries(all.subrange(0, i as int)),
                self.output@.len() <= self.limits.max_document_bytes,
                all.len() > 0 ==> child_depth == depth + 1,
                all.len() > 0 ==> child_depth <= self.limits.max_depth,
                all.len() > 0 ==> child_depth + spec_height_entries(all.subrange(0, i as int)) <= self.limits.max_depth,
                spec_entries_run(all, after_head.len() as int, depth + 1, *self.limits)
                    == spec_entries_run(all.subrange(i as int, all.len() as int), self.output@.len() as int, depth + 1, *self.limits),
            decreases all.len() - i,
        {
            proof {
                assert(all.subrange(i as int, all.len() as int)[0] == all[i as int]);
                assert(all.subrange(i as int, all.len() as int).subrange(1, all.len() - i) =~= all.subrange(i + 1, all.len() as int));
            }
            proof {
                assert(all.subrange(0, i + 1).subrange(0, i as int) =~= all.subrange(0, i as int));
                assert(all.subrange(0, all.len() as int) =~= all);
                lemma_entries_prefix_len(all, i + 1, all.len() as int);
                lemma_height_entries_prefix(all, i as int, all.len() as int);
                assert(spec_encode_entries(all.subrange(0, i + 1)) == spec_encode_entries(all.subrange(0, i as int))
                    + spec_encode_text(all[i as int].0@) + spec_encode(all[i as int].1));
            }
            let key = &entries[i].0;
            match self.string(key.as_str().as_bytes(), true) {
                Ok(()) => {},
                Err(e) => {
                    return Err(e);
                },
            }
            let ghost after_key = self.output@;
            match self.value(&entries[i].1, child_depth) {
                Ok(()) => {},
                Err(e) => {
                    return Err(e);
                },
            }
            i = i + 1;
            assert(self.output@ =~= after_head + spec_encode_entries(all.subrange(0, i as int)));
        }
        assert(all.subrange(0, all.len() as int) =~= all);
        Ok(())
    }
}

/// Length of the bytes `cbor2` writes for a header.
pub open spec fn spec_backend_head_len(head: Head) -> nat {
    super::header::spec_backend_head(head).len()
}

/// Encodes exactly one value using the HTLK deterministic CBOR profile.
///
/// Maps are written in their stored (canonical) order, floats use the
/// shortest exact width, and integers stay distinct from floats. Headers and
/// map keys count toward the byte budget. No partial output is returned.
pub fn encode(value: &Value, limits: &Limits) -> (res: Result<Vec<u8>, Error>)
    ensures
        res is Ok <==> limits.spec_valid() && spec_fits(*value, *limits),
        res matches Ok(bytes) ==> bytes@ == spec_encode(*value),
        res matches Err(e) ==> if limits.spec_valid() {
            spec_encode_failure(e, spec_encode(*value).len() as int, spec_height(*value) as int, *limits)
        } else {
            e == crate::cbor::error::spec_plain_error(ErrorKind::InvalidLimits)
        },
        limits.spec_valid() ==> match spec_encode_error(*value, *limits) {
            None => res is Ok,
            Some(k) => res matches Err(e) && e.kind == k && e.offset_spec() is None,
        },
{
    limits.validate()?;
    let mut encoder = Encoder { output: Vec::new(), limits };
    assert(encoder.output@ =~= Seq::<u8>::empty());
    encoder.value(value, 0)?;
    assert(encoder.output@ =~= spec_encode(*value));
    Ok(encoder.output)
}

} // verus!
