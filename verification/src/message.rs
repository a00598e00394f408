//! Registry-based message codec.
//!
//! A message is a closed tagged union; each variant carries a fixed,
//! unique 16-bit type code. On the wire a message is the code in
//! big-endian form followed by the variant's payload, which must be
//! consumed exactly: bytes left over after a fixed-framing payload are an
//! error. Decoding reads the code, resolves the variant — failing with an
//! unknown-message-type error when no variant matches — and hands the
//! remaining bytes to that variant's payload decoder.

use vstd::prelude::*;
use vstd::slice::{slice_subrange, slice_to_vec};
use crate::bigsize::{be16, bigsize_enc, bigsize_encode, bigsize_parse, bigsize_decode,
    BigSizeOutcome};
use crate::errors::{DecodeError, MAX_RECORD_LEN};
use vstd::std_specs::cmp::PartialEqSpec;

verus! {

/// Byte length of one key blob.
pub const PUBKEY_LEN: usize = 33;

/// A compressed-format public key: a 33-byte blob that this layer carries
/// opaquely — nothing here depends on what the bytes mean.
#[derive(Debug)]
pub struct PublicKey {
    data: Vec<u8>,
}

impl View for PublicKey {
    type V = Seq<u8>;

    closed spec fn view(&self) -> Seq<u8> {
        self.data@
    }
}

impl PublicKey {
    /// A key blob is always exactly 33 bytes.
    #[verifier::type_invariant]
    spec fn wf(self) -> bool {
        self@.len() == PUBKEY_LEN
    }

    /// Accepts exactly 33 bytes as a key.
    pub fn from_bytes(data: Vec<u8>) -> (r: Option<PublicKey>)
        ensures
            match r {
                Some(k) => data@.len() == PUBKEY_LEN && k@ == data@,
                None => data@.len() != PUBKEY_LEN,
            },
    {
        if data.len() == PUBKEY_LEN {
            Some(PublicKey { data })
        } else {
            None
        }
    }

    /// The key's bytes.
    pub fn to_bytes(&self) -> (r: Vec<u8>)
        ensures
            r@ == self@,
            r@.len() == PUBKEY_LEN,
    {
        proof {
            use_type_invariant(self);
        }
        slice_to_vec(self.data.as_slice())
    }

    /// The key's bytes, borrowed.
    pub fn as_slice(&self) -> (r: &[u8])
        ensures
            r@ == self@,
            r@.len() == PUBKEY_LEN,
    {
        proof {
            use_type_invariant(self);
        }
        self.data.as_slice()
    }
}

impl PartialEq for PublicKey {
    fn eq(&self, other: &PublicKey) -> (r: bool) {
        let r = self.data == other.data;
        proof {
            assert(r <==> (self.data@ =~= other.data@)) by {
                if self.data@ =~= other.data@ {
                    assert(forall|i: int|
                        #![auto]
                        0 <= i < self.data@.len() ==> self.data@[i] == other.data@[i]);
                }
            }
        }
        r
    }
}

impl vstd::std_specs::cmp::PartialEqSpecImpl for PublicKey {
    open spec fn obeys_eq_spec() -> bool {
        true
    }

    open spec fn eq_spec(&self, other: &PublicKey) -> bool {
        self@ == other@
    }
}

/// A closed set of message kinds, each with its fixed type code:
/// a greeting with a length-prefixed byte-string payload, two payloadless
/// messages, and a key list with a count-prefixed payload.
#[derive(Debug)]
pub enum Request {
    /// Code 0x0001; payload is a minimal varint byte count and the bytes.
    Hello(Vec<u8>),
    /// Code 0x0003; no payload.
    Empty(),
    /// Code 0x0005; no payload.
    NoArgs,
    /// Code 0x0103; payload is a minimal varint key count and that many
    /// 33-byte keys.
    AddKeys(Vec<PublicKey>),
}

/// Mathematical shape of a message: the same variants over sequences.
pub enum RequestView {
    /// Greeting payload bytes.
    Hello(Seq<u8>),
    /// No payload.
    Empty(),
    /// No payload.
    NoArgs,
    /// The keys, each a byte sequence.
    AddKeys(Seq<Seq<u8>>),
}

impl View for Request {
    type V = RequestView;

    open spec fn view(&self) -> RequestView {
        match self {
            Request::Hello(s) => RequestView::Hello(s@),
            Request::Empty() => RequestView::Empty(),
            Request::NoArgs => RequestView::NoArgs,
            Request::AddKeys(ks) => RequestView::AddKeys(ks@.map_values(|k: PublicKey| k@)),
        }
    }
}

impl PartialEq for Request {
    fn eq(&self, other: &Request) -> (r: bool) {
        match (self, other) {
            (Request::Hello(a), Request::Hello(b)) => {
                let r = a == b;
                proof {
                    assert(r <==> (a@ =~= b@)) by {
                        if a@ =~= b@ {
                            assert(forall|i: int|
                                #![auto]
                                0 <= i < a@.len() ==> a@[i] == b@[i]);
                        }
                    }
                }
                r
            },
            (Request::Empty(), Request::Empty()) => true,
            (Request::NoArgs, Request::NoArgs) => true,
            (Request::AddKeys(x), Request::AddKeys(y)) => {
                let r = x == y;
                proof {
                    let xv = x@.map_values(|k: PublicKey| k@);
                    let yv = y@.map_values(|k: PublicKey| k@);
                    assert(r <==> (xv =~= yv)) by {
                        if r {
                            assert(forall|i: int|
                                #![auto]
                                0 <= i < x@.len() ==> x@[i].eq_spec(&y@[i]));
                            assert(forall|i: int| #![auto] 0 <= i < xv.len() ==> xv[i] == yv[i]);
                        } else {
                            if xv =~= yv {
                                assert forall|i: int| 0 <= i < x@.len() implies #[trigger] x@[i]@
                                    == y@[i]@ by {
                                    assert(xv[i] == x@[i]@);
                                    assert(yv[i] == y@[i]@);
                                }
                                assert(x.eq_spec(y));
                            }
                        }
                    }
                }
                r
            },
            _ => false,
        }
    }
}

impl vstd::std_specs::cmp::PartialEqSpecImpl for Request {
    open spec fn obeys_eq_spec() -> bool {
        true
    }

    open spec fn eq_spec(&self, other: &Request) -> bool {
        self@ == other@
    }
}

/// The compile-time-fixed type code of each variant.
pub open spec fn request_code(m: RequestView) -> u64 {
    match m {
        RequestView::Hello(_) => 0x0001,
        RequestView::Empty() => 0x0003,
        RequestView::NoArgs => 0x0005,
        RequestView::AddKeys(_) => 0x0103,
    }
}

/// The registry maps every declared variant exactly once: two variants
/// that share a code are the same variant.
pub proof fn lemma_request_codes_distinct(a: RequestView, b: RequestView)
    requires
        request_code(a) == request_code(b),
    ensures
        (a is Hello) == (b is Hello),
        (a is Empty) == (b is Empty),
        (a is NoArgs) == (b is NoArgs),
        (a is AddKeys) == (b is AddKeys),
{
}

/// Concatenation of the key blobs, in order.
pub open spec fn keys_enc(ks: Seq<Seq<u8>>) -> Seq<u8>
    decreases ks.len(),
{
    if ks.len() == 0 {
        Seq::empty()
    } else {
        ks[0] + keys_enc(ks.skip(1))
    }
}

/// The `cnt` consecutive 33-byte chunks at the start of `b`.
pub open spec fn keys_split(b: Seq<u8>, cnt: int) -> Seq<Seq<u8>> {
    Seq::new(cnt as nat, |k: int| b.subrange(33 * k, 33 * k + 33))
}

/// Wire bytes of a message: its big-endian 16-bit type code, then the
/// variant's payload.
pub open spec fn request_enc(m: RequestView) -> Seq<u8> {
    match m {
        RequestView::Hello(s) => seq![0u8, 1u8] + bigsize_enc(s.len() as u64) + s,
        RequestView::Empty() => seq![0u8, 3u8],
        RequestView::NoArgs => seq![0u8, 5u8],
        RequestView::AddKeys(ks) => seq![1u8, 3u8] + bigsize_enc(ks.len() as u64) + keys_enc(ks),
    }
}

/// What decoding a message buffer yields: the message, or the first
/// failure. Every variant's payload must consume the buffer exactly.
pub open spec fn request_dec(data: Seq<u8>) -> Result<RequestView, DecodeError> {
    if data.len() < 2 {
        Err(DecodeError::TruncatedInput)
    } else {
        let code = be16(data[0], data[1]);
        let body = data.skip(2);
        if code == 0x0001 {
            match bigsize_parse(body) {
                None => Err(DecodeError::MalformedVarint),
                Some((l, n)) => {
                    if l > MAX_RECORD_LEN {
                        Err(DecodeError::RecordTooLarge)
                    } else if body.len() - n < l {
                        Err(DecodeError::TruncatedInput)
                    } else if body.len() - n > l {
                        Err(DecodeError::TrailingBytes)
                    } else {
                        Ok(RequestView::Hello(body.skip(n)))
                    }
                },
            }
        } else if code == 0x0003 {
            if body.len() == 0 {
                Ok(RequestView::Empty())
            } else {
                Err(DecodeError::TrailingBytes)
            }
        } else if code == 0x0005 {
            if body.len() == 0 {
                Ok(RequestView::NoArgs)
            } else {
                Err(DecodeError::TrailingBytes)
            }
        } else if code == 0x0103 {
            match bigsize_parse(body) {
                None => Err(DecodeError::MalformedVarint),
                Some((cnt, n)) => {
                    if cnt * 33 > MAX_RECORD_LEN {
                        Err(DecodeError::RecordTooLarge)
                    } else if body.len() - n < cnt * 33 {
                        Err(DecodeError::TruncatedInput)
                    } else if body.len() - n > cnt * 33 {
                        Err(DecodeError::TrailingBytes)
                    } else {
                        Ok(RequestView::AddKeys(keys_split(body.skip(n), cnt as int)))
                    }
                },
            }
        } else {
            Err(DecodeError::UnknownMessageType)
        }
    }
}

impl Request {
    /// The type code this variant is declared with.
    pub fn type_code(&self) -> (r: u64)
        ensures
            r == request_code(self@),
    {
        match self {
            Request::Hello(_) => 0x0001,
            Request::Empty() => 0x0003,
            Request::NoArgs => 0x0005,
            Request::AddKeys(_) => 0x0103,
        }
    }

    /// Serializes the message: type code, then payload.
    pub fn serialize(&self) -> (out: Vec<u8>)
        ensures
            out@ == request_enc(self@),
    {
        let mut out: Vec<u8> = Vec::new();
        match self {
            Request::Hello(s) => {
                out.push(0);
                out.push(1);
                bigsize_encode(s.len() as u64, &mut out);
                out.extend_from_slice(s.as_slice());
                assert(out@ =~= request_enc(self@));
            },
            Request::Empty() => {
                out.push(0);
                out.push(3);
                assert(out@ =~= request_enc(self@));
            },
            Request::NoArgs => {
                out.push(0);
                out.push(5);
                assert(out@ =~= request_enc(self@));
            },
            Request::AddKeys(ks) => {
                out.push(1);
                out.push(3);
                let cnt = ks.len();
                bigsize_encode(cnt as u64, &mut out);
                let ghost kv = ks@.map_values(|k: PublicKey| k@);
                let ghost head = seq![1u8, 3u8] + bigsize_enc(cnt as u64);
                assert(out@ =~= head);
                assert(kv.skip(0) =~= kv);
                let mut i: usize = 0;
                while i < cnt
                    invariant
                        i <= cnt,
                        cnt == ks@.len(),
                        kv == ks@.map_values(|k: PublicKey| k@),
                        out@ + keys_enc(kv.skip(i as int)) == head + keys_enc(kv),
                    decreases cnt - i,
                {
                    let ghost out0 = out@;
                    out.extend_from_slice(ks[i].as_slice());
                    proof {
                        let tail = kv.skip(i as int);
                        assert(tail[0] == kv[i as int]);
                        assert(kv[i as int] == ks@[i as int]@);
                        assert(tail.skip(1) =~= kv.skip(i as int + 1));
                        assert(keys_enc(tail) == tail[0] + keys_enc(tail.skip(1)));
                        assert(out@ =~= out0 + kv[i as int]);
                        assert(out@ + keys_enc(kv.skip(i as int + 1)) =~= out0 + keys_enc(tail));
                    }
                    i = i + 1;
                }
                proof {
                    assert(kv.skip(cnt as int) =~= Seq::<Seq<u8>>::empty());
                    assert(keys_enc(kv.skip(cnt as int)) =~= Seq::<u8>::empty());
                    assert(out@ + Seq::<u8>::empty() =~= out@);
                    assert(head + keys_enc(kv) =~= request_enc(self@));
                }
            },
        }
        out
    }

    /// Decodes a message buffer: reads the type code, resolves the
    /// variant, and has that variant's decoder consume the remaining
    /// bytes exactly. The code of the returned variant always equals the
    /// code read from the wire.
    pub fn decode(data: &[u8]) -> (r: Result<Request, DecodeError>)
        ensures
            match r {
                Ok(m) => request_dec(data@) == Ok::<RequestView, DecodeError>(m@)
                    && request_code(m@) == be16(data@[0], data@[1]),
                Err(e) => request_dec(data@) == Err::<RequestView, DecodeError>(e),
            },
    {
        let dlen = data.len();
        if dlen < 2 {
            return Err(DecodeError::TruncatedInput);
        }
        let code: u64 = ((data[0] as u64) << 8) | (data[1] as u64);
        assert(code == be16(data@[0], data@[1]));
        if code == 0x0001 {
            match bigsize_decode(data, 2) {
                BigSizeOutcome::Value(l, n) => {
                    if l > MAX_RECORD_LEN {
                        return Err(DecodeError::RecordTooLarge);
                    }
                    let start = 2 + n;
                    let llen = l as usize;
                    if dlen - start < llen {
                        return Err(DecodeError::TruncatedInput);
                    }
                    if dlen - start > llen {
                        return Err(DecodeError::TrailingBytes);
                    }
                    let bytes = slice_to_vec(slice_subrange(data, start, dlen));
                    proof {
                        assert(data@.skip(2).skip(n as int) =~= data@.skip(start as int));
                        assert(data@.subrange(start as int, dlen as int) =~= data@.skip(
                            start as int,
                        ));
                    }
                    Ok(Request::Hello(bytes))
                },
                BigSizeOutcome::End => {
                    proof {
                        assert(data@.skip(2) =~= Seq::<u8>::empty());
                    }
                    Err(DecodeError::MalformedVarint)
                },
                BigSizeOutcome::Malformed => Err(DecodeError::MalformedVarint),
            }
        } else if code == 0x0003 {
            if dlen == 2 {
                Ok(Request::Empty())
            } else {
                Err(DecodeError::TrailingBytes)
            }
        } else if code == 0x0005 {
            if dlen == 2 {
                Ok(Request::NoArgs)
            } else {
                Err(DecodeError::TrailingBytes)
            }
        } else if code == 0x0103 {
            match bigsize_decode(data, 2) {
                BigSizeOutcome::Value(cnt, n) => {
                    if cnt > 0xFFFF {
                        return Err(DecodeError::RecordTooLarge);
                    }
                    let cntu = cnt as usize;
                    let need = cntu * 33;
                    if need > 0xFFFF {
                        return Err(DecodeError::RecordTooLarge);
                    }
                    let start = 2 + n;
                    if dlen - start < need {
                        return Err(DecodeError::TruncatedInput);
                    }
                    if dlen - start > need {
                        return Err(DecodeError::TrailingBytes);
                    }
                    let ghost body_n = data@.skip(start as int);
                    let mut ks: Vec<PublicKey> = Vec::new();
                    proof {
                        assert(ks@.map_values(|kk: PublicKey| kk@) =~= keys_split(body_n, 0));
                    }
                    let mut k: usize = 0;
                    while k < cntu
                        invariant
                            k <= cntu,
                            start + cntu * 33 == dlen,
                            dlen == data@.len(),
                            body_n == data@.skip(start as int),
                            ks@.map_values(|kk: PublicKey| kk@) == keys_split(body_n, k as int),
                        decreases cntu - k,
                    {
                        let ghost ks0 = ks@;
                        let off = start + k * 33;
                        let kb = slice_to_vec(slice_subrange(data, off, off + 33));
                        let pk = PublicKey { data: kb };
                        ks.push(pk);
                        proof {
                            assert(ks0.len() == k as int) by {
                                assert(ks0.map_values(|kk: PublicKey| kk@).len() == ks0.len());
                                assert(keys_split(body_n, k as int).len() == k as int);
                            }
                            assert(data@.subrange(off as int, off + 33) =~= body_n.subrange(
                                33 * (k as int),
                                33 * (k as int) + 33,
                            ));
                            assert(pk@ == body_n.subrange(33 * (k as int), 33 * (k as int) + 33));
                            assert forall|j: int| 0 <= j < k + 1 implies (ks@.map_values(
                                |kk: PublicKey| kk@,
                            ))[j] == #[trigger] keys_split(body_n, k as int + 1)[j] by {
                                assert(ks@ == ks0.push(pk));
                                if j < k as int {
                                    assert(ks@[j] == ks0[j]);
                                    assert((ks0.map_values(|kk: PublicKey| kk@))[j] == keys_split(
                                        body_n,
                                        k as int,
                                    )[j]);
                                } else {
                                    assert(ks@[j] == pk);
                                }
                            }
                            assert(ks@.map_values(|kk: PublicKey| kk@) =~= keys_split(
                                body_n,
                                k as int + 1,
                            ));
                        }
                        k = k + 1;
                    }
                    proof {
                        assert(data@.skip(2).skip(n as int) =~= body_n);
                    }
                    Ok(Request::AddKeys(ks))
                },
                BigSizeOutcome::End => {
                    proof {
                        assert(data@.skip(2) =~= Seq::<u8>::empty());
                    }
                    Err(DecodeError::MalformedVarint)
                },
                BigSizeOutcome::Malformed => Err(DecodeError::MalformedVarint),
            }
        } else {
            Err(DecodeError::UnknownMessageType)
        }
    }
}

/// Every key blob concatenated is 33 bytes per key.
proof fn lemma_keys_enc_len(ks: Seq<Seq<u8>>)
    requires
        forall|i: int| 0 <= i < ks.len() ==> (#[trigger] ks[i]).len() == 33,
    ensures
        keys_enc(ks).len() == 33 * ks.len(),
    decreases ks.len(),
{
    if ks.len() == 0 {
    } else {
        assert(forall|i: int|
            0 <= i < ks.skip(1).len() ==> #[trigger] ks.skip(1)[i] == ks[i + 1]);
        lemma_keys_enc_len(ks.skip(1));
    }
}

/// Cutting the concatenation of 33-byte keys back into 33-byte chunks
/// recovers the keys.
proof fn lemma_keys_split_enc(ks: Seq<Seq<u8>>)
    requires
        forall|i: int| 0 <= i < ks.len() ==> (#[trigger] ks[i]).len() == 33,
    ensures
        keys_split(keys_enc(ks), ks.len() as int) =~= ks,
    decreases ks.len(),
{
    lemma_keys_enc_len(ks);
    if ks.len() == 0 {
    } else {
        let tail = ks.skip(1);
        assert(forall|i: int| 0 <= i < tail.len() ==> #[trigger] tail[i] == ks[i + 1]);
        lemma_keys_enc_len(tail);
        lemma_keys_split_enc(tail);
        let b = keys_enc(ks);
        assert forall|k: int| 0 <= k < ks.len() implies b.subrange(33 * k, 33 * k + 33) =~= ks[k]
        by {
            if k == 0 {
                assert(b.subrange(0, 33) =~= ks[0]);
            } else {
                assert(b.subrange(33 * k, 33 * k + 33) =~= keys_enc(tail).subrange(
                    33 * (k - 1),
                    33 * (k - 1) + 33,
                ));
                assert(keys_split(keys_enc(tail), tail.len() as int)[k - 1] == keys_enc(
                    tail,
                ).subrange(33 * (k - 1), 33 * (k - 1) + 33));
                assert(keys_enc(tail).subrange(33 * (k - 1), 33 * (k - 1) + 33) =~= tail[k - 1]);
            }
        }
    }
}

/// Every message whose payload respects the length guard decodes back
/// from its own encoding to an equal value.
pub proof fn lemma_request_round_trip(m: RequestView)
    requires
        match m {
            RequestView::Hello(s) => s.len() <= MAX_RECORD_LEN,
            RequestView::Empty() => true,
            RequestView::NoArgs => true,
            RequestView::AddKeys(ks) => 33 * ks.len() <= MAX_RECORD_LEN && forall|i: int|
                0 <= i < ks.len() ==> (#[trigger] ks[i]).len() == 33,
        },
    ensures
        request_dec(request_enc(m)) == Ok::<RequestView, DecodeError>(m),
{
    let data = request_enc(m);
    assert(((0u8 as u64) << 8) | (1u8 as u64) == 1) by (bit_vector);
    assert(((0u8 as u64) << 8) | (3u8 as u64) == 3) by (bit_vector);
    assert(((0u8 as u64) << 8) | (5u8 as u64) == 5) by (bit_vector);
    assert(((1u8 as u64) << 8) | (3u8 as u64) == 0x0103) by (bit_vector);
    match m {
        RequestView::Hello(s) => {
            let l = s.len() as u64;
            crate::bigsize::lemma_bigsize_enc_parse(l, s);
            let body = data.skip(2);
            assert(body =~= bigsize_enc(l) + s);
            let n = crate::bigsize::bigsize_len(l);
            assert(bigsize_parse(body) == Some((l, n)));
            assert(bigsize_enc(l).len() == n);
            assert(body.skip(n) =~= s);
        },
        RequestView::Empty() => {
            assert(data.skip(2) =~= Seq::<u8>::empty());
        },
        RequestView::NoArgs => {
            assert(data.skip(2) =~= Seq::<u8>::empty());
        },
        RequestView::AddKeys(ks) => {
            let cnt = ks.len() as u64;
            crate::bigsize::lemma_bigsize_enc_parse(cnt, keys_enc(ks));
            lemma_keys_enc_len(ks);
            lemma_keys_split_enc(ks);
            let body = data.skip(2);
            assert(body =~= bigsize_enc(cnt) + keys_enc(ks));
            let n = crate::bigsize::bigsize_len(cnt);
            assert(bigsize_parse(body) == Some((cnt, n)));
            assert(bigsize_enc(cnt).len() == n);
            assert(body.skip(n) =~= keys_enc(ks));
        },
    }
}

} // verus!
