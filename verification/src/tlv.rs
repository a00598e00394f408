//! TLV (Type-Length-Value) records and streams.
//!
//! A [`Stream`] is an ordered mapping from a 64-bit [`Type`] to an opaque
//! [`RawValue`]; keys are unique and iteration order is ascending type,
//! which is also the mandated wire order. On the wire each record is
//! `varint(type) || varint(length) || bytes`, records follow one another
//! with no header, trailer or count, and an empty stream is omitted
//! entirely.

use vstd::prelude::*;
use vstd::pervasive::VecAdditionalExecFns;
use vstd::slice::{slice_subrange, slice_to_vec};
use crate::bigsize::{
    bigsize_enc, bigsize_encode, bigsize_len, bigsize_parse, bigsize_decode, BigSizeOutcome,
    lemma_bigsize_enc_parse, lemma_bigsize_parse_enc,
};
use crate::errors::{DecodeError, MAX_RECORD_LEN};

verus! {

/// TLV type field value: a totally ordered 64-bit numeric identifier.
///
/// Even values are "must understand": a consumer that does not know them
/// has to reject the whole message. Odd values may be ignored.
#[derive(Clone, Copy, Debug, PartialEq, Eq, PartialOrd, Ord, Hash, Structural)]
pub struct Type(pub u64);

impl View for Type {
    type V = u64;

    open spec fn view(&self) -> u64 {
        self.0
    }
}

impl Type {
    /// Whole numeric value of the type tag.
    pub fn into_inner(self) -> (r: u64)
        ensures
            r == self@,
    {
        self.0
    }

    /// True for "must understand" type tags.
    pub fn is_even(&self) -> (r: bool)
        ensures
            r == (self@ % 2 == 0),
    {
        self.0 % 2 == 0
    }

    /// True for type tags a consumer may safely ignore.
    pub fn is_odd(&self) -> (r: bool)
        ensures
            r == (self@ % 2 == 1),
    {
        self.0 % 2 == 1
    }
}

/// Opaque immutable byte payload of one TLV record.
#[derive(Debug)]
pub struct RawValue {
    bytes: Vec<u8>,
}

impl View for RawValue {
    type V = Seq<u8>;

    closed spec fn view(&self) -> Seq<u8> {
        self.bytes@
    }
}

impl RawValue {
    /// Wraps owned bytes as a record value.
    pub fn new(bytes: Vec<u8>) -> (r: RawValue)
        ensures
            r@ == bytes@,
    {
        RawValue { bytes }
    }

    /// Number of payload bytes.
    pub fn len(&self) -> (r: usize)
        ensures
            r == self@.len(),
    {
        self.bytes.len()
    }

    /// True when the payload has no bytes.
    pub fn is_empty(&self) -> (r: bool)
        ensures
            r == (self@.len() == 0),
    {
        self.bytes.is_empty()
    }

    /// The payload bytes.
    pub fn as_slice(&self) -> (r: &[u8])
        ensures
            r@ == self@,
    {
        self.bytes.as_slice()
    }

    /// Appends this value's wire form — minimal varint of the byte count,
    /// then the bytes — to `out`.
    pub fn encode_to(&self, out: &mut Vec<u8>)
        ensures
            final(out)@ == old(out)@ + bigsize_enc(self@.len() as u64) + self@,
    {
        let l = self.bytes.len();
        bigsize_encode(l as u64, out);
        out.extend_from_slice(self.bytes.as_slice());
        assert(out@ =~= old(out)@ + bigsize_enc(self@.len() as u64) + self@);
    }

    /// Reads one length-prefixed value from `data` starting at `pos`,
    /// returning it with the position just past it. The declared length is
    /// checked against [`MAX_RECORD_LEN`] before the value's buffer is
    /// allocated, then against the bytes that actually remain.
    pub fn decode(data: &[u8], pos: usize) -> (r: Result<(RawValue, usize), DecodeError>)
        requires
            pos <= data@.len(),
        ensures
            match r {
                Ok((rv, end)) => ({
                    let p = bigsize_parse(data@.skip(pos as int));
                    &&& p is Some
                    &&& ({
                        let (l, n) = p->Some_0;
                        &&& l <= MAX_RECORD_LEN
                        &&& end == pos + n + l
                        &&& pos < end <= data@.len()
                        &&& rv@ == data@.subrange(pos + n, end as int)
                    })
                }),
                Err(e) => match bigsize_parse(data@.skip(pos as int)) {
                    None => e == DecodeError::MalformedVarint,
                    Some((l, n)) => {
                        if l > MAX_RECORD_LEN {
                            e == DecodeError::RecordTooLarge
                        } else {
                            e == DecodeError::TruncatedInput && data@.len() - (pos + n) < l
                        }
                    },
                },
            },
    {
        let dlen = data.len();
        match bigsize_decode(data, pos) {
            BigSizeOutcome::Value(l, n) => {
                if l > MAX_RECORD_LEN {
                    return Err(DecodeError::RecordTooLarge);
                }
                let llen = l as usize;
                let start = pos + n;
                if dlen - start < llen {
                    return Err(DecodeError::TruncatedInput);
                }
                let bytes = slice_to_vec(slice_subrange(data, start, start + llen));
                Ok((RawValue::new(bytes), start + llen))
            },
            BigSizeOutcome::End => {
                assert(data@.skip(pos as int) =~= Seq::<u8>::empty());
                Err(DecodeError::MalformedVarint)
            },
            BigSizeOutcome::Malformed => Err(DecodeError::MalformedVarint),
        }
    }
}

impl PartialEq for RawValue {
    fn eq(&self, other: &RawValue) -> (r: bool) {
        let r = self.bytes == other.bytes;
        proof {
            assert(r <==> (self.bytes@ =~= other.bytes@)) by {
                if self.bytes@ =~= other.bytes@ {
                    assert(forall|i: int|
                        #![auto]
                        0 <= i < self.bytes@.len() ==> self.bytes@[i] == other.bytes@[i]);
                }
            }
        }
        r
    }
}

impl vstd::std_specs::cmp::PartialEqSpecImpl for RawValue {
    open spec fn obeys_eq_spec() -> bool {
        true
    }

    open spec fn eq_spec(&self, other: &RawValue) -> bool {
        self@ == other@
    }
}

/// Strict ascending order of keys; implies uniqueness.
pub open spec fn stream_sorted(s: Seq<(u64, Seq<u8>)>) -> bool {
    forall|i: int, j: int| 0 <= i < j < s.len() ==> #[trigger] s[i].0 < #[trigger] s[j].0
}

/// Some record of `s` carries type `ty`.
pub open spec fn stream_has(s: Seq<(u64, Seq<u8>)>, ty: u64) -> bool {
    exists|i: int| 0 <= i < s.len() && (#[trigger] s[i]).0 == ty
}

/// An index at which `s` carries type `ty`.
pub open spec fn stream_index_of(s: Seq<(u64, Seq<u8>)>, ty: u64) -> int {
    choose|i: int| 0 <= i < s.len() && (#[trigger] s[i]).0 == ty
}

/// The value recorded for `ty`, if any.
pub open spec fn stream_lookup(s: Seq<(u64, Seq<u8>)>, ty: u64) -> Option<Seq<u8>> {
    if stream_has(s, ty) {
        Some(s[stream_index_of(s, ty)].1)
    } else {
        None
    }
}

/// In a sorted stream a key determines its index.
pub proof fn lemma_sorted_key_unique(s: Seq<(u64, Seq<u8>)>, i: int, j: int)
    requires
        stream_sorted(s),
        0 <= i < s.len(),
        0 <= j < s.len(),
        s[i].0 == s[j].0,
    ensures
        i == j,
{
    if i < j {
        assert(s[i].0 < s[j].0);
    } else if j < i {
        assert(s[j].0 < s[i].0);
    }
}

/// In a sorted stream the record at any index is what lookup of its key
/// returns.
pub proof fn lemma_lookup_at(s: Seq<(u64, Seq<u8>)>, i: int)
    requires
        stream_sorted(s),
        0 <= i < s.len(),
    ensures
        stream_lookup(s, s[i].0) == Some(s[i].1),
{
    assert(stream_has(s, s[i].0));
    lemma_sorted_key_unique(s, i, stream_index_of(s, s[i].0));
}

/// Wire bytes of one TLV record: the type tag, then the value's byte
/// count, then the value, the two numbers in minimal varint form.
pub open spec fn record_enc(ty: u64, val: Seq<u8>) -> Seq<u8> {
    bigsize_enc(ty) + bigsize_enc(val.len() as u64) + val
}

/// Wire bytes of a whole stream: its records in order, with no header,
/// count or trailer. An empty stream encodes to zero bytes.
pub open spec fn stream_enc(s: Seq<(u64, Seq<u8>)>) -> Seq<u8>
    decreases s.len(),
{
    if s.len() == 0 {
        Seq::empty()
    } else {
        record_enc(s[0].0, s[0].1) + stream_enc(s.skip(1))
    }
}

/// Every value is small enough for the allocation guard.
pub open spec fn stream_bounded(s: Seq<(u64, Seq<u8>)>) -> bool {
    forall|i: int| 0 <= i < s.len() ==> (#[trigger] s[i]).1.len() <= MAX_RECORD_LEN
}

/// What decoding `data` yields when the previously read type was `prev`
/// (`None` before the first record): either all records, or the first
/// failure. End of input exactly at a record boundary is the success
/// terminator; there is no explicit count or trailer.
pub open spec fn stream_dec(data: Seq<u8>, prev: Option<u64>) -> Result<
    Seq<(u64, Seq<u8>)>,
    DecodeError,
>
    decreases data.len(),
{
    if data.len() == 0 {
        Ok(Seq::empty())
    } else {
        match bigsize_parse(data) {
            None => Err(DecodeError::MalformedVarint),
            Some((ty, n1)) => {
                if prev matches Some(p) && ty == p {
                    Err(DecodeError::DuplicateType)
                } else if prev matches Some(p) && ty < p {
                    Err(DecodeError::OutOfOrderType)
                } else {
                    let rem1 = data.skip(n1);
                    match bigsize_parse(rem1) {
                        None => Err(DecodeError::MalformedVarint),
                        Some((len, n2)) => {
                            if len > MAX_RECORD_LEN {
                                Err(DecodeError::RecordTooLarge)
                            } else {
                                let rem2 = rem1.skip(n2);
                                if rem2.len() < len {
                                    Err(DecodeError::TruncatedInput)
                                } else {
                                    match stream_dec(rem2.skip(len as int), Some(ty)) {
                                        Ok(tail) => Ok(seq![(ty, rem2.take(len as int))] + tail),
                                        Err(e) => Err(e),
                                    }
                                }
                            }
                        },
                    }
                }
            },
        }
    }
}

/// View of one stored record.
spec fn entry_view(e: (Type, RawValue)) -> (u64, Seq<u8>) {
    (e.0@, e.1@)
}

/// View of the whole record vector.
spec fn entries_view(es: Seq<(Type, RawValue)>) -> Seq<(u64, Seq<u8>)> {
    es.map_values(|e: (Type, RawValue)| entry_view(e))
}

/// Ordered collection of unique TLV records: the wire-level extension
/// container appended after a message's fixed fields.
#[derive(Debug)]
pub struct Stream {
    entries: Vec<(Type, RawValue)>,
}

impl View for Stream {
    type V = Seq<(u64, Seq<u8>)>;

    closed spec fn view(&self) -> Seq<(u64, Seq<u8>)> {
        entries_view(self.entries@)
    }
}

impl Stream {
    /// At every observable point the records are strictly ascending by
    /// type, so no type occurs twice.
    #[verifier::type_invariant]
    spec fn wf(self) -> bool {
        stream_sorted(self@)
    }

    /// Creates an empty stream.
    pub fn new() -> (r: Stream)
        ensures
            r@ =~= Seq::<(u64, Seq<u8>)>::empty(),
            stream_sorted(r@),
    {
        Stream { entries: Vec::new() }
    }

    /// Number of records.
    pub fn len(&self) -> (r: usize)
        ensures
            r == self@.len(),
    {
        self.entries.len()
    }

    /// True when the stream holds no records.
    pub fn is_empty(&self) -> (r: bool)
        ensures
            r == (self@.len() == 0),
    {
        self.entries.is_empty()
    }

    /// True when a record with type `type_id` is present.
    pub fn contains_key(&self, type_id: &Type) -> (r: bool)
        ensures
            r == stream_has(self@, type_id@),
    {
        proof {
            use_type_invariant(self);
        }
        let ty = type_id.0;
        let n = self.entries.len();
        let mut i: usize = 0;
        while i < n
            invariant
                i <= n,
                n == self@.len(),
                ty == type_id@,
                self@ == entries_view(self.entries@),
                forall|j: int| 0 <= j < i ==> (#[trigger] self@[j]).0 != ty,
            decreases n - i,
        {
            if self.entries[i].0.0 == ty {
                proof {
                    assert(self@[i as int] == entry_view(self.entries@[i as int]));
                    assert(self@[i as int].0 == ty);
                    assert(stream_has(self@, ty));
                }
                return true;
            }
            i = i + 1;
        }
        false
    }

    /// The value stored for `type_id`, if any.
    pub fn get(&self, type_id: &Type) -> (r: Option<&RawValue>)
        ensures
            match r {
                Some(v) => stream_lookup(self@, type_id@) == Some(v@),
                None => stream_lookup(self@, type_id@) is None,
            },
    {
        proof {
            use_type_invariant(self);
        }
        let ty = type_id.0;
        let n = self.entries.len();
        let mut i: usize = 0;
        while i < n
            invariant
                i <= n,
                n == self@.len(),
                ty == type_id@,
                self@ == entries_view(self.entries@),
                stream_sorted(self@),
                forall|j: int| 0 <= j < i ==> (#[trigger] self@[j]).0 != ty,
            decreases n - i,
        {
            if self.entries[i].0.0 == ty {
                proof {
                    assert(self@[i as int] == entry_view(self.entries@[i as int]));
                    assert(self@[i as int].0 == ty);
                    lemma_lookup_at(self@, i as int);
                }
                return Some(&self.entries[i].1);
            }
            i = i + 1;
        }
        None
    }

    /// Records `value` under `type_id`, keeping records in ascending type
    /// order. Returns whether the type was new; `false` reports that an
    /// existing record was replaced, which on this wire format signals an
    /// application bug.
    pub fn insert(&mut self, type_id: Type, value: &[u8]) -> (r: bool)
        ensures
            r == !stream_has(old(self)@, type_id@),
            stream_sorted(final(self)@),
            final(self)@.len() == old(self)@.len() + (if r {
                1int
            } else {
                0int
            }),
            forall|t: u64|
                stream_lookup(final(self)@, t) == (if t == type_id@ {
                    Some(value@)
                } else {
                    stream_lookup(old(self)@, t)
                }),
    {
        proof {
            use_type_invariant(&*self);
        }
        let ghost s0 = self@;
        let ty = type_id.0;
        let raw = RawValue::new(slice_to_vec(value));
        let mut v: Vec<(Type, RawValue)> = Vec::new();
        std::mem::swap(&mut v, &mut self.entries);
        let n = v.len();
        let mut pos: usize = 0;
        while pos < n && v[pos].0.0 < ty
            invariant
                pos <= n,
                n == v@.len(),
                s0 == entries_view(v@),
                forall|j: int| 0 <= j < pos ==> (#[trigger] s0[j]).0 < ty,
            decreases n - pos,
        {
            assert(s0[pos as int].0 == v@[pos as int].0@);
            pos = pos + 1;
        }
        let is_new: bool;
        if pos < n && v[pos].0.0 == ty {
            v.set(pos, (type_id, raw));
            is_new = false;
            proof {
                assert(s0[pos as int].0 == ty);
                assert(stream_has(s0, ty));
                let s1 = entries_view(v@);
                assert(s1 =~= s0.update(pos as int, (ty, value@)));
                assert(stream_sorted(s1)) by {
                    assert(forall|i: int| 0 <= i < s1.len() ==> (#[trigger] s1[i]).0 == s0[i].0);
                }
                assert forall|t: u64|
                    stream_lookup(s1, t) == (if t == ty {
                        Some(value@)
                    } else {
                        stream_lookup(s0, t)
                    }) by {
                    lemma_insert_replace_lookup(s0, s1, pos as int, ty, value@, t);
                }
            }
        } else {
            proof {
                assert(forall|j: int|
                    pos <= j < s0.len() ==> (#[trigger] s0[j]).0 >= s0[pos as int].0 || j
                        == pos) by {
                    assert(forall|j: int|
                        pos < j < s0.len() ==> s0[pos as int].0 < (#[trigger] s0[j]).0);
                }
            }
            v.insert(pos, (type_id, raw));
            is_new = true;
            proof {
                let s1 = entries_view(v@);
                assert(s1 =~= s0.insert(pos as int, (ty, value@))) by {
                    s0.insert_ensures(pos as int, (ty, value@));
                    assert(forall|i: int|
                        0 <= i < s1.len() ==> #[trigger] s1[i] == entry_view(v@[i]));
                }
                s0.insert_ensures(pos as int, (ty, value@));
                assert(!stream_has(s0, ty)) by {
                    assert(forall|j: int|
                        pos <= j < s0.len() ==> (#[trigger] s0[j]).0 > ty || s0[j].0 == ty);
                    assert(forall|j: int| 0 <= j < s0.len() ==> (#[trigger] s0[j]).0 != ty) by {
                        if pos < s0.len() {
                            assert(s0[pos as int].0 != ty);
                            assert(forall|j: int|
                                pos < j < s0.len() ==> s0[pos as int].0 < (#[trigger] s0[j]).0);
                        }
                    }
                }
                assert(stream_sorted(s1)) by {
                    lemma_insert_new_sorted(s0, s1, pos as int, ty, value@);
                }
                assert forall|t: u64|
                    stream_lookup(s1, t) == (if t == ty {
                        Some(value@)
                    } else {
                        stream_lookup(s0, t)
                    }) by {
                    lemma_insert_new_lookup(s0, s1, pos as int, ty, value@, t);
                }
            }
        }
        self.entries = v;
        is_new
    }

    /// Serializes the stream: each record in ascending type order, the
    /// whole thing empty when the stream is empty.
    pub fn encode(&self) -> (out: Vec<u8>)
        ensures
            out@ == stream_enc(self@),
    {
        let mut out: Vec<u8> = Vec::new();
        let n = self.entries.len();
        let mut i: usize = 0;
        proof {
            assert(self@.skip(0) =~= self@);
            assert(out@ + stream_enc(self@) =~= stream_enc(self@));
        }
        while i < n
            invariant
                i <= n,
                n == self@.len(),
                self@ == entries_view(self.entries@),
                out@ + stream_enc(self@.skip(i as int)) == stream_enc(self@),
            decreases n - i,
        {
            let ghost out0 = out@;
            let e = &self.entries[i];
            bigsize_encode(e.0.0, &mut out);
            e.1.encode_to(&mut out);
            proof {
                let s = self@;
                assert(s[i as int] == entry_view(self.entries@[i as int]));
                let tail = s.skip(i as int);
                assert(tail[0] == s[i as int]);
                assert(tail.skip(1) =~= s.skip(i as int + 1));
                assert(out@ =~= out0 + record_enc(s[i as int].0, s[i as int].1));
                assert(stream_enc(tail) == record_enc(tail[0].0, tail[0].1) + stream_enc(
                    tail.skip(1),
                ));
                assert(out@ + stream_enc(s.skip(i as int + 1)) =~= out0 + stream_enc(tail));
            }
            i = i + 1;
        }
        proof {
            assert(self@.skip(n as int) =~= Seq::<(u64, Seq<u8>)>::empty());
            assert(stream_enc(self@.skip(n as int)) == Seq::<u8>::empty());
            assert(out@ + Seq::<u8>::empty() =~= out@);
        }
        out
    }

    /// Decodes a whole byte buffer as a stream: records until end of
    /// input, types strictly increasing, each length guarded. All or
    /// nothing: any failure yields the error and no stream.
    #[verifier::rlimit(100)]
    pub fn decode(data: &[u8]) -> (r: Result<Stream, DecodeError>)
        ensures
            match r {
                Ok(s) => stream_dec(data@, None) == Ok::<Seq<(u64, Seq<u8>)>, DecodeError>(s@)
                    && stream_sorted(s@),
                Err(e) => stream_dec(data@, None) == Err::<Seq<(u64, Seq<u8>)>, DecodeError>(e),
            },
    {
        let dlen = data.len();
        let mut entries: Vec<(Type, RawValue)> = Vec::new();
        let mut pos: usize = 0;
        let mut prev: Option<u64> = None;
        proof {
            assert(data@.skip(0) =~= data@);
            assert(entries_view(entries@) =~= Seq::<(u64, Seq<u8>)>::empty());
            match stream_dec(data@, None) {
                Ok(tail) => {
                    assert(entries_view(entries@) + tail =~= tail);
                },
                Err(e) => {},
            }
        }
        loop
            invariant
                pos <= data@.len() <= usize::MAX,
                stream_sorted(entries_view(entries@)),
                (match prev {
                    None => entries@.len() == 0,
                    Some(p) => entries@.len() > 0 && entries_view(entries@)[entries@.len() - 1].0
                        == p,
                }),
                (match stream_dec(data@.skip(pos as int), prev) {
                    Ok(tail) => stream_dec(data@, None) == Ok::<
                        Seq<(u64, Seq<u8>)>,
                        DecodeError,
                    >(entries_view(entries@) + tail),
                    Err(e) => stream_dec(data@, None) == Err::<
                        Seq<(u64, Seq<u8>)>,
                        DecodeError,
                    >(e),
                }),
            ensures
                stream_sorted(entries_view(entries@)),
                stream_dec(data@, None) == Ok::<Seq<(u64, Seq<u8>)>, DecodeError>(
                    entries_view(entries@),
                ),
            decreases data@.len() - pos,
        {
            let ghost d0 = data@.skip(pos as int);
            match bigsize_decode(data, pos) {
                BigSizeOutcome::End => {
                    proof {
                        assert(d0 =~= Seq::<u8>::empty());
                        assert(stream_dec(d0, prev) == Ok::<Seq<(u64, Seq<u8>)>, DecodeError>(
                            Seq::empty(),
                        ));
                        assert(entries_view(entries@) + Seq::<(u64, Seq<u8>)>::empty()
                            =~= entries_view(entries@));
                    }
                    break;
                },
                BigSizeOutcome::Malformed => {
                    proof {
                        assert(stream_dec(d0, prev) == Err::<Seq<(u64, Seq<u8>)>, DecodeError>(
                            DecodeError::MalformedVarint,
                        ));
                    }
                    return Err(DecodeError::MalformedVarint);
                },
                BigSizeOutcome::Value(ty, n1) => {
                    if let Some(p) = prev {
                        if ty == p {
                            proof {
                                lemma_stream_dec_order_err(data@, pos as int, p, ty, n1 as int);
                            }
                            return Err(DecodeError::DuplicateType);
                        }
                        if ty < p {
                            proof {
                                lemma_stream_dec_order_err(data@, pos as int, p, ty, n1 as int);
                            }
                            return Err(DecodeError::OutOfOrderType);
                        }
                    }
                    let vstart = pos + n1;
                    proof {
                        assert(d0.skip(n1 as int) =~= data@.skip(vstart as int));
                    }
                    match RawValue::decode(data, vstart) {
                        Err(e) => {
                            proof {
                                lemma_stream_dec_step_err(data@, pos as int, prev, ty, n1 as int);
                            }
                            return Err(e);
                        },
                        Ok((rv, end)) => {
                            let ghost es0 = entries@;
                            let ghost ev0 = entries_view(entries@);
                            let ghost prev0 = prev;
                            let ghost l = bigsize_parse(data@.skip(vstart as int))->Some_0.0;
                            let ghost n2 = bigsize_parse(data@.skip(vstart as int))->Some_0.1;
                            let ghost pos0 = pos as int;
                            entries.push((Type(ty), rv));
                            prev = Some(ty);
                            pos = end;
                            proof {
                                lemma_stream_dec_step(data@, pos0, prev0, ty, n1 as int, l, n2);
                                assert(rv@ == data@.subrange(pos0 + n1 + n2, pos0 + n1 + n2 + l));
                                assert(pos == pos0 + n1 + n2 + l);
                                lemma_entries_view_push(es0, (Type(ty), rv));
                                assert(entries_view(entries@) =~= ev0.push((ty, rv@)));
                                lemma_sorted_push(ev0, ty, rv@);
                                assert(ev0.push((ty, rv@)) =~= ev0 + seq![(ty, rv@)]);
                                match stream_dec(data@.skip(pos as int), Some(ty)) {
                                    Ok(tail) => {
                                        assert((ev0 + seq![(ty, rv@)]) + tail =~= ev0 + (seq![
                                            (ty, rv@),
                                        ] + tail));
                                    },
                                    Err(e2) => {},
                                }
                            }
                        },
                    }
                },
            }
        }
        Ok(Stream { entries })
    }
}

/// One successful unfolding of the stream decoder: when a record's type,
/// length and value all read cleanly at `pos`, decoding from `pos` is that
/// record followed by decoding the rest.
#[verifier::rlimit(100)]
proof fn lemma_stream_dec_step(
    data: Seq<u8>,
    pos: int,
    prev: Option<u64>,
    ty: u64,
    n1: int,
    l: u64,
    n2: int,
)
    requires
        0 <= pos <= data.len(),
        bigsize_parse(data.skip(pos)) == Some((ty, n1)),
        match prev {
            Some(p) => ty > p,
            None => true,
        },
        bigsize_parse(data.skip(pos + n1)) == Some((l, n2)),
        l <= MAX_RECORD_LEN,
        n1 >= 1,
        n2 >= 0,
        data.len() - (pos + n1 + n2) >= l,
    ensures
        stream_dec(data.skip(pos), prev) == (match stream_dec(
            data.skip(pos + n1 + n2 + l),
            Some(ty),
        ) {
            Ok(tail) => Ok::<Seq<(u64, Seq<u8>)>, DecodeError>(
                seq![(ty, data.subrange(pos + n1 + n2, pos + n1 + n2 + l))] + tail,
            ),
            Err(e) => Err::<Seq<(u64, Seq<u8>)>, DecodeError>(e),
        }),
{
    let d0 = data.skip(pos);
    assert(d0.len() > 0);
    assert(d0.skip(n1) =~= data.skip(pos + n1));
    let rem1 = data.skip(pos + n1);
    assert(rem1.skip(n2) =~= data.skip(pos + n1 + n2));
    let rem2 = data.skip(pos + n1 + n2);
    assert(rem2.len() >= l);
    assert(rem2.take(l as int) =~= data.subrange(pos + n1 + n2, pos + n1 + n2 + l));
    assert(rem2.skip(l as int) =~= data.skip(pos + n1 + n2 + l));
}

/// One failing unfolding of the stream decoder, for a record whose type
/// read cleanly but whose length or value does not.
proof fn lemma_stream_dec_step_err(data: Seq<u8>, pos: int, prev: Option<u64>, ty: u64, n1: int)
    requires
        0 <= pos <= data.len(),
        bigsize_parse(data.skip(pos)) == Some((ty, n1)),
        match prev {
            Some(p) => ty > p,
            None => true,
        },
        n1 >= 1,
        match bigsize_parse(data.skip(pos + n1)) {
            None => true,
            Some((l, n2)) => l > MAX_RECORD_LEN || data.len() - (pos + n1 + n2) < l,
        },
    ensures
        stream_dec(data.skip(pos), prev) == Err::<Seq<(u64, Seq<u8>)>, DecodeError>(
            match bigsize_parse(data.skip(pos + n1)) {
                None => DecodeError::MalformedVarint,
                Some((l, n2)) => if l > MAX_RECORD_LEN {
                    DecodeError::RecordTooLarge
                } else {
                    DecodeError::TruncatedInput
                },
            },
        ),
{
    let d0 = data.skip(pos);
    assert(d0.len() > 0);
    assert(d0.skip(n1) =~= data.skip(pos + n1));
    let rem1 = data.skip(pos + n1);
    match bigsize_parse(rem1) {
        None => {},
        Some((l, n2)) => {
            assert(rem1.skip(n2) =~= data.skip(pos + n1 + n2));
        },
    }
}

/// One failing unfolding of the stream decoder, for a record whose type
/// violates the strict ascending order.
proof fn lemma_stream_dec_order_err(data: Seq<u8>, pos: int, p: u64, ty: u64, n1: int)
    requires
        0 <= pos <= data.len(),
        bigsize_parse(data.skip(pos)) == Some((ty, n1)),
        ty <= p,
    ensures
        stream_dec(data.skip(pos), Some(p)) == Err::<Seq<(u64, Seq<u8>)>, DecodeError>(
            if ty == p {
                DecodeError::DuplicateType
            } else {
                DecodeError::OutOfOrderType
            },
        ),
{
    assert(data.skip(pos).len() > 0);
}

/// Mapping the record view distributes over appending one record.
proof fn lemma_entries_view_push(es: Seq<(Type, RawValue)>, e: (Type, RawValue))
    ensures
        entries_view(es.push(e)) =~= entries_view(es).push(entry_view(e)),
{
}

/// How the encoding of a nonempty stream begins: the first record's type
/// and length parse back, and the bytes after them are the first value
/// followed by the encoding of the remaining records.
#[verifier::rlimit(100)]
proof fn lemma_stream_enc_head(s: Seq<(u64, Seq<u8>)>)
    requires
        s.len() > 0,
        s[0].1.len() <= MAX_RECORD_LEN,
    ensures
        ({
            let ty = s[0].0;
            let val = s[0].1;
            let l = val.len() as u64;
            let n1 = bigsize_len(ty);
            let n2 = bigsize_len(l);
            let data = stream_enc(s);
            &&& bigsize_parse(data.skip(0)) == Some((ty, n1))
            &&& bigsize_parse(data.skip(0 + n1)) == Some((l, n2))
            &&& data.len() - (0 + n1 + n2) >= l
            &&& data.subrange(0 + n1 + n2, 0 + n1 + n2 + l) =~= val
            &&& data.skip(0 + n1 + n2 + l) =~= stream_enc(s.skip(1))
        }),
{
    let ty = s[0].0;
    let val = s[0].1;
    let l = val.len() as u64;
    let n1 = bigsize_len(ty);
    let n2 = bigsize_len(l);
    let data = stream_enc(s);
    let rest1 = bigsize_enc(l) + (val + stream_enc(s.skip(1)));
    assert(data =~= bigsize_enc(ty) + rest1);
    lemma_bigsize_enc_parse(ty, rest1);
    assert(data.skip(0) =~= data);
    assert(bigsize_enc(ty).len() == n1);
    assert(data.skip(n1) =~= rest1);
    lemma_bigsize_enc_parse(l, val + stream_enc(s.skip(1)));
    assert(bigsize_enc(l).len() == n2);
    assert(data.len() == n1 + n2 + val.len() + stream_enc(s.skip(1)).len());
    assert(data.subrange(0 + n1 + n2, 0 + n1 + n2 + l) =~= val);
    assert(data.skip(0 + n1 + n2 + l) =~= stream_enc(s.skip(1)));
}

/// Decoding after the encoding of `s`, for any allowed previous type: the
/// generalization of the round trip that makes the induction go through.
#[verifier::rlimit(100)]
proof fn lemma_stream_round_trip_rec(s: Seq<(u64, Seq<u8>)>, prev: Option<u64>)
    requires
        stream_sorted(s),
        stream_bounded(s),
        match prev {
            Some(p) => forall|i: int| 0 <= i < s.len() ==> (#[trigger] s[i]).0 > p,
            None => true,
        },
    ensures
        stream_dec(stream_enc(s), prev) == Ok::<Seq<(u64, Seq<u8>)>, DecodeError>(s),
    decreases s.len(),
{
    if s.len() == 0 {
        assert(s =~= Seq::<(u64, Seq<u8>)>::empty());
    } else {
        let ty = s[0].0;
        let val = s[0].1;
        let tail = s.skip(1);
        let l = val.len() as u64;
        let data = stream_enc(s);
        let n1 = bigsize_len(ty);
        let n2 = bigsize_len(l);
        lemma_stream_enc_head(s);
        lemma_stream_dec_step(data, 0, prev, ty, n1, l, n2);
        assert(stream_sorted(tail)) by {
            assert(forall|i: int| 0 <= i < tail.len() ==> #[trigger] tail[i] == s[i + 1]);
        }
        assert(stream_bounded(tail)) by {
            assert(forall|i: int| 0 <= i < tail.len() ==> #[trigger] tail[i] == s[i + 1]);
        }
        assert(forall|i: int| 0 <= i < tail.len() ==> (#[trigger] tail[i]).0 > ty) by {
            assert(forall|i: int| 0 <= i < tail.len() ==> #[trigger] tail[i] == s[i + 1]);
        }
        lemma_stream_round_trip_rec(tail, Some(ty));
        assert(data.skip(0) =~= data);
        assert(stream_dec(data.skip(0), prev) == Ok::<Seq<(u64, Seq<u8>)>, DecodeError>(
            seq![(ty, val)] + tail,
        ));
        assert(seq![(ty, val)] + tail =~= s);
    }
}

/// Round trip: decoding the encoding of any well-ordered stream whose
/// values respect the length guard returns that same stream.
pub proof fn lemma_stream_round_trip(s: Seq<(u64, Seq<u8>)>)
    requires
        stream_sorted(s),
        stream_bounded(s),
    ensures
        stream_dec(stream_enc(s), None) == Ok::<Seq<(u64, Seq<u8>)>, DecodeError>(s),
{
    lemma_stream_round_trip_rec(s, None);
}

/// Well-formedness of every decoded stream: whatever a successful decode
/// returns has strictly increasing types in the order encountered, every
/// value within the length guard, and — when decoding continued after a
/// previous type — only types above it.
#[verifier::rlimit(100)]
pub proof fn lemma_stream_dec_wf(data: Seq<u8>, prev: Option<u64>)
    requires
        stream_dec(data, prev) is Ok,
    ensures
        ({
            let s = stream_dec(data, prev)->Ok_0;
            &&& stream_sorted(s)
            &&& stream_bounded(s)
            &&& match prev {
                Some(p) => forall|i: int| 0 <= i < s.len() ==> (#[trigger] s[i]).0 > p,
                None => true,
            }
        }),
    decreases data.len(),
{
    if data.len() == 0 {
    } else {
        assert(bigsize_parse(data) is Some);
        let (ty, n1) = bigsize_parse(data)->Some_0;
        let rem1 = data.skip(n1);
        assert(bigsize_parse(rem1) is Some);
        let (l, n2) = bigsize_parse(rem1)->Some_0;
        let rem2 = rem1.skip(n2);
        let val = rem2.take(l as int);
        let rest = rem2.skip(l as int);
        assert(stream_dec(rest, Some(ty)) is Ok);
        let tail = stream_dec(rest, Some(ty))->Ok_0;
        let s = stream_dec(data, prev)->Ok_0;
        assert(s == seq![(ty, val)] + tail);
        lemma_stream_dec_wf(rest, Some(ty));
        assert(val.len() == l <= MAX_RECORD_LEN);
        assert forall|i: int, j: int| 0 <= i < j < s.len() implies (#[trigger] s[i]).0 < (
        #[trigger] s[j]).0 by {
            assert(s[j] == tail[j - 1]);
            if i == 0 {
                assert(s[i].0 == ty);
            } else {
                assert(s[i] == tail[i - 1]);
            }
        }
        assert forall|i: int| 0 <= i < s.len() implies (#[trigger] s[i]).1.len()
            <= MAX_RECORD_LEN by {
            if i > 0 {
                assert(s[i] == tail[i - 1]);
            }
        }
        match prev {
            Some(p) => {
                assert(ty > p);
                assert forall|i: int| 0 <= i < s.len() implies (#[trigger] s[i]).0 > p by {
                    if i > 0 {
                        assert(s[i] == tail[i - 1]);
                    }
                }
            },
            None => {},
        }
    }
}

/// Canonical serialization: a buffer that decodes successfully is exactly
/// the encoding of the stream it decodes to. The format admits no second
/// serialization of the same records, which rules out ambiguous
/// reparsing.
#[verifier::rlimit(100)]
pub proof fn lemma_stream_canonical(data: Seq<u8>, prev: Option<u64>)
    requires
        stream_dec(data, prev) is Ok,
    ensures
        stream_enc(stream_dec(data, prev)->Ok_0) == data,
    decreases data.len(),
{
    if data.len() == 0 {
        assert(stream_dec(data, prev)->Ok_0 =~= Seq::<(u64, Seq<u8>)>::empty());
        assert(data =~= Seq::<u8>::empty());
    } else {
        assert(bigsize_parse(data) is Some);
        let (ty, n1) = bigsize_parse(data)->Some_0;
        lemma_bigsize_parse_enc(data);
        let rem1 = data.skip(n1);
        assert(bigsize_parse(rem1) is Some);
        let (l, n2) = bigsize_parse(rem1)->Some_0;
        lemma_bigsize_parse_enc(rem1);
        let rem2 = rem1.skip(n2);
        assert(rem2.len() >= l);
        let val = rem2.take(l as int);
        let rest = rem2.skip(l as int);
        assert(stream_dec(rest, Some(ty)) is Ok);
        let tail = stream_dec(rest, Some(ty))->Ok_0;
        let s = stream_dec(data, prev)->Ok_0;
        assert(s == seq![(ty, val)] + tail);
        lemma_stream_canonical(rest, Some(ty));
        assert(s[0] == (ty, val));
        assert(s.skip(1) =~= tail);
        assert(stream_enc(s) == record_enc(s[0].0, s[0].1) + stream_enc(s.skip(1)));
        assert(val.len() == l);
        assert(record_enc(ty, val) == bigsize_enc(ty) + bigsize_enc((val.len() as u64)) + val);
        assert((val.len() as u64) == l);
        assert(data.subrange(0, n1) == bigsize_enc(ty));
        assert(rem1.subrange(0, n2) == bigsize_enc(l));
        lemma_four_pieces(data, n1, n2, l as int);
        assert(stream_enc(s) =~= data);
    }
}

/// A byte buffer is its first two prefixes, the span after them, and the
/// remainder, stitched back together.
proof fn lemma_four_pieces(data: Seq<u8>, n1: int, n2: int, l: int)
    requires
        0 <= n1,
        0 <= n2,
        0 <= l,
        n1 + n2 + l <= data.len(),
    ensures
        data.subrange(0, n1) + data.skip(n1).subrange(0, n2) + data.skip(n1).skip(n2).take(l)
            + data.skip(n1).skip(n2).skip(l) =~= data,
{
}

/// Empty-stream identity: an empty stream encodes to zero bytes, and zero
/// bytes decode to an empty stream.
pub proof fn lemma_empty_stream_identity()
    ensures
        stream_enc(Seq::<(u64, Seq<u8>)>::empty()) == Seq::<u8>::empty(),
        stream_dec(Seq::<u8>::empty(), None) == Ok::<Seq<(u64, Seq<u8>)>, DecodeError>(
            Seq::empty(),
        ),
{
}

/// Appending a record whose key is above the last one keeps the stream
/// sorted.
proof fn lemma_sorted_push(s: Seq<(u64, Seq<u8>)>, ty: u64, val: Seq<u8>)
    requires
        stream_sorted(s),
        s.len() > 0 ==> s[s.len() - 1].0 < ty,
    ensures
        stream_sorted(s.push((ty, val))),
{
    let s1 = s.push((ty, val));
    assert forall|i: int, j: int| 0 <= i < j < s1.len() implies (#[trigger] s1[i]).0 < (
    #[trigger] s1[j]).0 by {
        if j == s.len() {
            assert(s1[i] == s[i]);
            if i < s.len() - 1 {
                assert(s[i].0 < s[s.len() - 1].0);
            }
        } else {
            assert(s1[i] == s[i] && s1[j] == s[j]);
        }
    }
}

/// Replacing the record at an existing key leaves every other lookup
/// unchanged.
proof fn lemma_insert_replace_lookup(
    s0: Seq<(u64, Seq<u8>)>,
    s1: Seq<(u64, Seq<u8>)>,
    pos: int,
    ty: u64,
    val: Seq<u8>,
    t: u64,
)
    requires
        stream_sorted(s0),
        0 <= pos < s0.len(),
        s0[pos].0 == ty,
        s1 == s0.update(pos, (ty, val)),
    ensures
        stream_lookup(s1, t) == (if t == ty {
            Some(val)
        } else {
            stream_lookup(s0, t)
        }),
{
    assert(forall|i: int| 0 <= i < s1.len() ==> (#[trigger] s1[i]).0 == s0[i].0);
    assert(stream_sorted(s1));
    if t == ty {
        assert(s1[pos].0 == ty);
        assert(stream_has(s1, t));
        lemma_sorted_key_unique(s1, pos, stream_index_of(s1, t));
    } else {
        if stream_has(s0, t) {
            let k = stream_index_of(s0, t);
            assert(0 <= k < s0.len() && s0[k].0 == t);
            assert(k != pos);
            assert(s1[k].0 == t && s1[k].1 == s0[k].1);
            assert(stream_has(s1, t));
            lemma_sorted_key_unique(s1, k, stream_index_of(s1, t));
        } else {
            assert(!stream_has(s1, t)) by {
                if stream_has(s1, t) {
                    let k = stream_index_of(s1, t);
                    assert(s0[k].0 == t);
                }
            }
        }
    }
}

/// Inserting a fresh key at its sorted position keeps the stream sorted.
proof fn lemma_insert_new_sorted(
    s0: Seq<(u64, Seq<u8>)>,
    s1: Seq<(u64, Seq<u8>)>,
    pos: int,
    ty: u64,
    val: Seq<u8>,
)
    requires
        stream_sorted(s0),
        0 <= pos <= s0.len(),
        forall|j: int| 0 <= j < pos ==> (#[trigger] s0[j]).0 < ty,
        forall|j: int| pos <= j < s0.len() ==> (#[trigger] s0[j]).0 > ty,
        s1 == s0.insert(pos, (ty, val)),
    ensures
        stream_sorted(s1),
{
    s0.insert_ensures(pos, (ty, val));
    assert forall|i: int, j: int| 0 <= i < j < s1.len() implies (#[trigger] s1[i]).0 < (
    #[trigger] s1[j]).0 by {
        if i < pos {
            assert(s1[i] == s0[i]);
        } else if i > pos {
            assert(s1[i] == s0[i - 1]);
        }
        if j < pos {
            assert(s1[j] == s0[j]);
        } else if j > pos {
            assert(s1[j] == s0[j - 1]);
        }
    }
}

impl PartialEq for Stream {
    fn eq(&self, other: &Stream) -> (r: bool) {
        let n = self.entries.len();
        if n != other.entries.len() {
            proof {
                assert(self@.len() != other@.len());
            }
            return false;
        }
        let mut i: usize = 0;
        while i < n
            invariant
                i <= n,
                n == self@.len(),
                n == other@.len(),
                self@ == entries_view(self.entries@),
                other@ == entries_view(other.entries@),
                forall|j: int| 0 <= j < i ==> self@[j] == other@[j],
            decreases n - i,
        {
            proof {
                assert(self@[i as int] == entry_view(self.entries@[i as int]));
                assert(other@[i as int] == entry_view(other.entries@[i as int]));
            }
            let a = &self.entries[i];
            let b = &other.entries[i];
            if a.0.0 != b.0.0 {
                proof {
                    assert(self@[i as int].0 != other@[i as int].0);
                }
                return false;
            }
            if !(a.1 == b.1) {
                proof {
                    assert(self@[i as int].1 != other@[i as int].1);
                }
                return false;
            }
            i = i + 1;
        }
        proof {
            assert(self@ =~= other@);
        }
        true
    }
}

impl vstd::std_specs::cmp::PartialEqSpecImpl for Stream {
    open spec fn obeys_eq_spec() -> bool {
        true
    }

    open spec fn eq_spec(&self, other: &Stream) -> bool {
        self@ == other@
    }
}

/// The stream holds a record whose type is even and outside the table of
/// known types — the condition on which the even/odd policy rejects it.
pub open spec fn has_unknown_even(s: Seq<(u64, Seq<u8>)>, known: Seq<u64>) -> bool {
    exists|i: int|
        0 <= i < s.len() && (#[trigger] s[i]).0 % 2 == 0 && !known.contains(s[i].0)
}

/// True when `x` occurs in `v`.
fn contains_u64(v: &Vec<u64>, x: u64) -> (r: bool)
    ensures
        r == v@.contains(x),
{
    let n = v.len();
    let mut i: usize = 0;
    while i < n
        invariant
            i <= n,
            n == v@.len(),
            forall|j: int| 0 <= j < i ==> v@[j] != x,
        decreases n - i,
    {
        if v[i] == x {
            return true;
        }
        i = i + 1;
    }
    false
}

/// Consumer-level decoder: decodes a TLV stream and then applies the
/// mandatory even/odd forward-compatibility rule against its table of
/// known types. A record whose type is absent from the table is rejected
/// when the type is even ("must understand") and retained raw when it is
/// odd.
pub struct Unmarshaller {
    known_types: Vec<u64>,
}

impl View for Unmarshaller {
    type V = Seq<u64>;

    closed spec fn view(&self) -> Seq<u64> {
        self.known_types@
    }
}

impl Unmarshaller {
    /// Creates an unmarshaller that knows no types at all, so that every
    /// even type is rejected and every odd one retained raw.
    pub fn new() -> (r: Unmarshaller)
        ensures
            r@ =~= Seq::<u64>::empty(),
    {
        Unmarshaller { known_types: Vec::new() }
    }

    /// Creates an unmarshaller with the given known-type table.
    pub fn with_known_types(known_types: Vec<u64>) -> (r: Unmarshaller)
        ensures
            r@ == known_types@,
    {
        Unmarshaller { known_types }
    }

    /// Decodes a TLV stream and rejects it whenever it carries an even
    /// type that this unmarshaller does not know; unknown odd types are
    /// kept, with their raw values, for the application to inspect.
    pub fn unmarshall(&self, data: &[u8]) -> (r: Result<Stream, DecodeError>)
        ensures
            match r {
                Ok(s) => stream_dec(data@, None) == Ok::<Seq<(u64, Seq<u8>)>, DecodeError>(s@)
                    && stream_sorted(s@) && !has_unknown_even(s@, self@),
                Err(e) => match stream_dec(data@, None) {
                    Ok(t) => e == DecodeError::UnknownEvenType && has_unknown_even(t, self@),
                    Err(e2) => e == e2,
                },
            },
    {
        let stream = match Stream::decode(data) {
            Ok(s) => s,
            Err(e) => {
                return Err(e);
            },
        };
        let n = stream.entries.len();
        let mut i: usize = 0;
        while i < n
            invariant
                i <= n,
                n == stream@.len(),
                stream@ == entries_view(stream.entries@),
                stream_dec(data@, None) == Ok::<Seq<(u64, Seq<u8>)>, DecodeError>(stream@),
                self@ == self.known_types@,
                forall|j: int|
                    0 <= j < i ==> !((#[trigger] stream@[j]).0 % 2 == 0 && !self@.contains(
                        stream@[j].0,
                    )),
            decreases n - i,
        {
            let ty = stream.entries[i].0.0;
            proof {
                assert(stream@[i as int] == entry_view(stream.entries@[i as int]));
                assert(stream@[i as int].0 == ty);
            }
            if ty % 2 == 0 && !contains_u64(&self.known_types, ty) {
                proof {
                    assert(has_unknown_even(stream@, self@));
                }
                return Err(DecodeError::UnknownEvenType);
            }
            i = i + 1;
        }
        Ok(stream)
    }
}

/// Inserting a fresh key adds exactly that one lookup.
proof fn lemma_insert_new_lookup(
    s0: Seq<(u64, Seq<u8>)>,
    s1: Seq<(u64, Seq<u8>)>,
    pos: int,
    ty: u64,
    val: Seq<u8>,
    t: u64,
)
    requires
        stream_sorted(s0),
        0 <= pos <= s0.len(),
        forall|j: int| 0 <= j < pos ==> (#[trigger] s0[j]).0 < ty,
        forall|j: int| pos <= j < s0.len() ==> (#[trigger] s0[j]).0 > ty,
        s1 == s0.insert(pos, (ty, val)),
    ensures
        stream_lookup(s1, t) == (if t == ty {
            Some(val)
        } else {
            stream_lookup(s0, t)
        }),
{
    s0.insert_ensures(pos, (ty, val));
    lemma_insert_new_sorted(s0, s1, pos, ty, val);
    if t == ty {
        assert(s1[pos].0 == ty);
        assert(stream_has(s1, t));
        lemma_sorted_key_unique(s1, pos, stream_index_of(s1, t));
    } else {
        if stream_has(s0, t) {
            let k = stream_index_of(s0, t);
            assert(0 <= k < s0.len() && s0[k].0 == t);
            let k1 = if k < pos {
                k
            } else {
                k + 1
            };
            assert(s1[k1].0 == t && s1[k1].1 == s0[k].1);
            assert(stream_has(s1, t));
            lemma_sorted_key_unique(s1, k1, stream_index_of(s1, t));
        } else {
            assert(!stream_has(s1, t)) by {
                if stream_has(s1, t) {
                    let k1 = stream_index_of(s1, t);
                    assert(0 <= k1 < s1.len() && s1[k1].0 == t);
                    if k1 < pos {
                        assert(s0[k1].0 == t);
                    } else if k1 > pos {
                        assert(s0[k1 - 1].0 == t);
                    }
                }
            }
        }
    }
}

} // verus!
