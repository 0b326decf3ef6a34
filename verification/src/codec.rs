//! The binary wire format of a doughnut.
//!
//! All multi-byte integers travel little-endian.  Byte strings and lists are
//! length-prefixed with a compact length: values below 2^6 take one byte,
//! below 2^14 two bytes and below 2^30 four bytes, the width tagged in the two
//! low bits of the first byte; only the shortest form of a length is accepted
//! back.  A full encoding prepends one more compact length — written as the
//! byte count of the token body — so that a transport which understands
//! length-prefixed byte vectors can carry the token without special-casing
//! it.  That outer prefix belongs to the wire, not to the data model:
//! decoding reads it and discards its value, and the token that comes back
//! never depends on it.
//!
//! The signing payload is the same encoding with the signature field left out
//! and without the outer prefix.

use vstd::prelude::*;

use crate::doughnut::{domains_view, DoughnutData, DoughnutV0};

verus! {

/// The two bytes of `v`, little-endian.
pub open spec fn u16_le(v: u16) -> Seq<u8> {
    seq![(v % 256) as u8, (v / 256) as u8]
}

/// The four bytes of `v`, little-endian.
pub open spec fn u32_le(v: u32) -> Seq<u8> {
    seq![
        (v % 256) as u8,
        ((v / 256) % 256) as u8,
        ((v / 0x10000) % 256) as u8,
        (v / 0x1000000) as u8,
    ]
}

/// The canonical compact form of a length `n < 2^30`.
pub open spec fn compact(n: int) -> Seq<u8> {
    if n < 64 {
        seq![(n * 4) as u8]
    } else if n < 16384 {
        seq![((n * 4 + 1) % 256) as u8, ((n * 4 + 1) / 256) as u8]
    } else {
        seq![
            ((n * 4 + 2) % 256) as u8,
            (((n * 4 + 2) / 256) % 256) as u8,
            (((n * 4 + 2) / 0x10000) % 256) as u8,
            ((n * 4 + 2) / 0x1000000) as u8,
        ]
    }
}

/// A length-prefixed byte string.
pub open spec fn enc_bytes(b: Seq<u8>) -> Seq<u8> {
    compact(b.len() as int) + b
}

/// The encodings of the (name, payload) pairs, in order.
pub open spec fn enc_domain_list(ds: Seq<(Seq<u8>, Seq<u8>)>) -> Seq<u8>
    decreases ds.len(),
{
    if ds.len() == 0 {
        Seq::empty()
    } else {
        enc_bytes(ds[0].0) + enc_bytes(ds[0].1) + enc_domain_list(ds.drop_first())
    }
}

/// The domain section: a count, then each pair as two length-prefixed strings.
pub open spec fn enc_domains(ds: Seq<(Seq<u8>, Seq<u8>)>) -> Seq<u8> {
    compact(ds.len() as int) + enc_domain_list(ds)
}

/// The token body: every field in its fixed order.
pub open spec fn body_enc(d: DoughnutData) -> Seq<u8> {
    d.issuer + d.holder + u32_le(d.not_before) + u32_le(d.expiry) + u16_le(d.payload_version)
        + d.signature + seq![d.signature_version] + enc_domains(d.domains)
}

/// The signing payload: the body with the signature field left out.
pub open spec fn payload_enc(d: DoughnutData) -> Seq<u8> {
    d.issuer + d.holder + u32_le(d.not_before) + u32_le(d.expiry) + u16_le(d.payload_version)
        + seq![d.signature_version] + enc_domains(d.domains)
}

/// The full wire form: the body behind its own compact byte count.
pub open spec fn enc_full(d: DoughnutData) -> Seq<u8> {
    compact(body_enc(d).len() as int) + body_enc(d)
}

/// The fields have their fixed widths and every length fits its compact form.
pub open spec fn encodable(d: DoughnutData) -> bool {
    &&& d.dims_ok()
    &&& d.domains.len() < 0x40000000
    &&& forall|i: int|
        0 <= i < d.domains.len() ==> d.domains[i].0.len() < 0x40000000 && d.domains[i].1.len()
            < 0x40000000
    &&& body_enc(d).len() < 0x40000000
}

/// A well-formed token: encodable and of the one supported payload version.
pub open spec fn wf(d: DoughnutData) -> bool {
    encodable(d) && d.payload_version == 0
}

// ---------------------------------------------------------------------------
// Writing
// ---------------------------------------------------------------------------

/// Append a whole byte string.
pub(crate) fn push_bytes(out: &mut Vec<u8>, b: &Vec<u8>)
    ensures
        final(out)@ == old(out)@ + b@,
{
    let n = b.len();
    let mut i: usize = 0;
    while i < n
        invariant
            n == b@.len(),
            0 <= i <= n,
            out@ == old(out)@ + b@.take(i as int),
        decreases n - i,
    {
        out.push(b[i]);
        assert(b@.take(i as int).push(b@[i as int]) =~= b@.take(i + 1));
        i += 1;
    }
    assert(b@.take(n as int) =~= b@);
}

/// Append `v` little-endian.
fn push_u16_le(out: &mut Vec<u8>, v: u16)
    ensures
        final(out)@ == old(out)@ + u16_le(v),
{
    out.push((v % 256) as u8);
    out.push((v / 256) as u8);
    assert(out@ =~= old(out)@ + u16_le(v));
}

/// Append `v` little-endian.
fn push_u32_le(out: &mut Vec<u8>, v: u32)
    ensures
        final(out)@ == old(out)@ + u32_le(v),
{
    out.push((v % 256) as u8);
    out.push(((v / 256) % 256) as u8);
    out.push(((v / 0x10000) % 256) as u8);
    out.push((v / 0x1000000) as u8);
    assert(out@ =~= old(out)@ + u32_le(v));
}

/// Append the canonical compact form of `n`.
pub(crate) fn push_compact(out: &mut Vec<u8>, n: u32)
    requires
        n < 0x40000000,
    ensures
        final(out)@ == old(out)@ + compact(n as int),
{
    if n < 64 {
        out.push((n * 4) as u8);
    } else if n < 16384 {
        let m = n * 4 + 1;
        out.push((m % 256) as u8);
        out.push((m / 256) as u8);
    } else {
        let m = n * 4 + 2;
        out.push((m % 256) as u8);
        out.push(((m / 256) % 256) as u8);
        out.push(((m / 0x10000) % 256) as u8);
        out.push((m / 0x1000000) as u8);
    }
    assert(out@ =~= old(out)@ + compact(n as int));
}

/// Splitting a pair list splits its encoding.
proof fn lemma_enc_domain_list_concat(a: Seq<(Seq<u8>, Seq<u8>)>, b: Seq<(Seq<u8>, Seq<u8>)>)
    ensures
        enc_domain_list(a + b) == enc_domain_list(a) + enc_domain_list(b),
    decreases a.len(),
{
    if a.len() == 0 {
        assert(a + b =~= b);
        assert(enc_domain_list(a) =~= Seq::empty());
        assert(enc_domain_list(a) + enc_domain_list(b) =~= enc_domain_list(b));
    } else {
        assert((a + b)[0] == a[0]);
        assert((a + b).drop_first() =~= a.drop_first() + b);
        lemma_enc_domain_list_concat(a.drop_first(), b);
        assert(enc_domain_list(a + b) =~= enc_domain_list(a) + enc_domain_list(b));
    }
}

/// The encoding of a one-pair list is just that pair's two strings.
proof fn lemma_enc_domain_list_single(x: (Seq<u8>, Seq<u8>))
    ensures
        enc_domain_list(seq![x]) == enc_bytes(x.0) + enc_bytes(x.1),
{
    let s = seq![x];
    assert(s.drop_first() =~= Seq::<(Seq<u8>, Seq<u8>)>::empty());
    assert(enc_domain_list(Seq::<(Seq<u8>, Seq<u8>)>::empty()) == Seq::<u8>::empty());
    assert(enc_domain_list(s) =~= enc_bytes(x.0) + enc_bytes(x.1));
}

/// Append the domain section of `ds`.
fn push_domains(out: &mut Vec<u8>, ds: &Vec<(Vec<u8>, Vec<u8>)>)
    requires
        ds@.len() < 0x40000000,
        forall|i: int|
            0 <= i < ds@.len() ==> ds@[i].0@.len() < 0x40000000 && ds@[i].1@.len() < 0x40000000,
    ensures
        final(out)@ == old(out)@ + enc_domains(domains_view(ds@)),
{
    let ghost dv = domains_view(ds@);
    let n = ds.len();
    push_compact(out, n as u32);
    let mut i: usize = 0;
    assert(enc_domain_list(dv.take(0)) =~= Seq::empty());
    while i < n
        invariant
            n == ds@.len(),
            dv == domains_view(ds@),
            dv.len() == n,
            0 <= i <= n,
            forall|k: int|
                0 <= k < n ==> ds@[k].0@.len() < 0x40000000 && ds@[k].1@.len() < 0x40000000,
            forall|k: int| 0 <= k < n ==> dv[k] == (ds@[k].0@, ds@[k].1@),
            out@ == old(out)@ + compact(n as int) + enc_domain_list(dv.take(i as int)),
        decreases n - i,
    {
        let pair = &ds[i];
        push_compact(out, pair.0.len() as u32);
        push_bytes(out, &pair.0);
        push_compact(out, pair.1.len() as u32);
        push_bytes(out, &pair.1);
        proof {
            assert(dv.take(i as int).push(dv[i as int]) =~= dv.take(i + 1));
            assert(dv.take(i + 1) =~= dv.take(i as int) + seq![dv[i as int]]);
            lemma_enc_domain_list_concat(dv.take(i as int), seq![dv[i as int]]);
            lemma_enc_domain_list_single(dv[i as int]);
            assert(out@ =~= old(out)@ + compact(n as int) + enc_domain_list(dv.take(i + 1)));
        }
        i += 1;
    }
    assert(dv.take(n as int) =~= dv);
}

/// Length bounds stated of the view hold of the owned pairs behind it.
proof fn lemma_domain_bounds(ds: Seq<(Vec<u8>, Vec<u8>)>, dv: Seq<(Seq<u8>, Seq<u8>)>)
    requires
        dv == domains_view(ds),
        forall|i: int| 0 <= i < dv.len() ==> dv[i].0.len() < 0x40000000 && dv[i].1.len() < 0x40000000,
    ensures
        forall|i: int| 0 <= i < ds.len() ==> ds[i].0@.len() < 0x40000000 && ds[i].1@.len() < 0x40000000,
{
    assert forall|i: int| 0 <= i < ds.len() implies ds[i].0@.len() < 0x40000000 && ds[i].1@.len()
        < 0x40000000 by {
        assert(dv[i] == (ds[i].0@, ds[i].1@));
    }
}

impl DoughnutV0 {
    /// The signing payload: the canonical encoding of every field except the
    /// signature, over which the signature is made and checked.
    pub fn payload(&self) -> (r: Vec<u8>)
        requires
            encodable(self@),
        ensures
            r@ == payload_enc(self@),
    {
        let mut out: Vec<u8> = Vec::new();
        push_bytes(&mut out, &self.issuer);
        push_bytes(&mut out, &self.holder);
        push_u32_le(&mut out, self.not_before);
        push_u32_le(&mut out, self.expiry);
        push_u16_le(&mut out, self.payload_version);
        out.push(self.signature_version);
        proof {
            lemma_domain_bounds(self.domains@, self@.domains);
        }
        push_domains(&mut out, &self.domains);
        assert(out@ =~= payload_enc(self@));
        out
    }

    /// The token body: the canonical encoding of every field.
    pub fn body_bytes(&self) -> (r: Vec<u8>)
        requires
            encodable(self@),
        ensures
            r@ == body_enc(self@),
    {
        let mut out: Vec<u8> = Vec::new();
        push_bytes(&mut out, &self.issuer);
        push_bytes(&mut out, &self.holder);
        push_u32_le(&mut out, self.not_before);
        push_u32_le(&mut out, self.expiry);
        push_u16_le(&mut out, self.payload_version);
        push_bytes(&mut out, &self.signature);
        out.push(self.signature_version);
        proof {
            lemma_domain_bounds(self.domains@, self@.domains);
        }
        push_domains(&mut out, &self.domains);
        assert(out@ =~= body_enc(self@));
        out
    }
}


// ---------------------------------------------------------------------------
// Reading
// ---------------------------------------------------------------------------

/// Malformed or truncated bytes: nothing of a token could be decoded.
#[derive(Clone, Copy, PartialEq, Eq, Debug)]
pub struct DecodeError;

/// The `u32` whose little-endian bytes sit at `pos`.
pub open spec fn u32_of(b: Seq<u8>, pos: int) -> u32 {
    (b[pos] + 256 * b[pos + 1] + 0x10000 * b[pos + 2] + 0x1000000 * b[pos + 3]) as u32
}

/// The `u16` whose little-endian bytes sit at `pos`.
pub open spec fn u16_of(b: Seq<u8>, pos: int) -> u16 {
    (b[pos] + 256 * b[pos + 1]) as u16
}

/// Read one compact length at `pos`: its value and the position after it, or
/// nothing if the bytes there are no canonical compact form below 2^30.
pub open spec fn dec_compact(b: Seq<u8>, pos: int) -> Option<(int, int)> {
    if 0 <= pos < b.len() {
        let b0 = b[pos] as int;
        let tag = b0 % 4;
        if tag == 0 {
            Some((b0 / 4, pos + 1))
        } else if tag == 1 {
            if b.len() - pos >= 2 {
                let m = b0 + 256 * b[pos + 1];
                if m / 4 >= 64 {
                    Some((m / 4, pos + 2))
                } else {
                    None
                }
            } else {
                None
            }
        } else if tag == 2 {
            if b.len() - pos >= 4 {
                let m = b0 + 256 * b[pos + 1] + 0x10000 * b[pos + 2] + 0x1000000 * b[pos + 3];
                if m / 4 >= 16384 {
                    Some((m / 4, pos + 4))
                } else {
                    None
                }
            } else {
                None
            }
        } else {
            None
        }
    } else {
        None
    }
}

/// Read `n` raw bytes at `pos`, if that many remain.
pub open spec fn dec_bytes_at(b: Seq<u8>, pos: int, n: int) -> Option<(Seq<u8>, int)> {
    if 0 <= pos && 0 <= n && pos + n <= b.len() {
        Some((b.subrange(pos, pos + n), pos + n))
    } else {
        None
    }
}

/// Read `count` (name, payload) pairs starting at `pos`, each pair two
/// length-prefixed byte strings.
pub open spec fn dec_domain_list(b: Seq<u8>, pos: int, count: int) -> Option<
    (Seq<(Seq<u8>, Seq<u8>)>, int),
>
    decreases count,
{
    if count <= 0 {
        Some((Seq::empty(), pos))
    } else {
        match dec_compact(b, pos) {
            None => None,
            Some((nlen, p1)) => match dec_bytes_at(b, p1, nlen) {
                None => None,
                Some((name, p2)) => match dec_compact(b, p2) {
                    None => None,
                    Some((plen, p3)) => match dec_bytes_at(b, p3, plen) {
                        None => None,
                        Some((payload, p4)) => match dec_domain_list(b, p4, count - 1) {
                            None => None,
                            Some((rest, p5)) => Some((seq![(name, payload)] + rest, p5)),
                        },
                    },
                },
            },
        }
    }
}

/// Read a whole token body at `p`: the fixed-width fields, then the domain
/// section, which must end exactly at the end of the bytes.  Only payload
/// version zero is known; any other version fails the decode, and so does a
/// body at or beyond 2^30 bytes, the format's length ceiling.
pub open spec fn dec_body(b: Seq<u8>, p: int) -> Option<DoughnutData> {
    if p >= 0 && b.len() - p >= 139 && b.len() - p < 0x40000000 {
        if u16_of(b, p + 72) == 0 {
            match dec_compact(b, p + 139) {
                None => None,
                Some((count, p1)) => match dec_domain_list(b, p1, count) {
                    None => None,
                    Some((ds, p2)) => if p2 == b.len() {
                        Some(
                            DoughnutData {
                                issuer: b.subrange(p, p + 32),
                                holder: b.subrange(p + 32, p + 64),
                                not_before: u32_of(b, p + 64),
                                expiry: u32_of(b, p + 68),
                                payload_version: u16_of(b, p + 72),
                                signature: b.subrange(p + 74, p + 138),
                                signature_version: b[p + 138],
                                domains: ds,
                            },
                        )
                    } else {
                        None
                    },
                },
            }
        } else {
            None
        }
    } else {
        None
    }
}

/// Decode a full wire form: the outer compact prefix, whose value is read
/// and discarded — it is transport framing, not token data — then the token
/// body.
pub open spec fn spec_decode(b: Seq<u8>) -> Option<DoughnutData> {
    match dec_compact(b, 0) {
        None => None,
        Some((_, p0)) => dec_body(b, p0),
    }
}

/// Read one compact length.
fn read_compact(b: &[u8], pos: usize) -> (r: Option<(u32, usize)>)
    ensures
        match r {
            Some(v) => {
                &&& dec_compact(b@, pos as int) == Some((v.0 as int, v.1 as int))
                &&& pos < v.1 <= b@.len()
                &&& v.0 < 0x40000000
            },
            None => dec_compact(b@, pos as int) is None,
        },
{
    if pos >= b.len() {
        return None;
    }
    let b0 = b[pos];
    let tag = b0 % 4;
    if tag == 0 {
        Some(((b0 / 4) as u32, pos + 1))
    } else if tag == 1 {
        if b.len() - pos >= 2 {
            let m: u32 = b0 as u32 + 256 * (b[pos + 1] as u32);
            let n = m / 4;
            if n >= 64 {
                Some((n, pos + 2))
            } else {
                None
            }
        } else {
            None
        }
    } else if tag == 2 {
        if b.len() - pos >= 4 {
            let m: u32 = b0 as u32 + 256 * (b[pos + 1] as u32) + 0x10000 * (b[pos + 2] as u32)
                + 0x1000000 * (b[pos + 3] as u32);
            let n = m / 4;
            if n >= 16384 {
                Some((n, pos + 4))
            } else {
                None
            }
        } else {
            None
        }
    } else {
        None
    }
}

/// Read `n` raw bytes.
#[verifier::loop_isolation(false)]
fn read_bytes_at(b: &[u8], pos: usize, n: usize) -> (r: Option<(Vec<u8>, usize)>)
    ensures
        match r {
            Some(v) => dec_bytes_at(b@, pos as int, n as int) == Some((v.0@, v.1 as int)),
            None => dec_bytes_at(b@, pos as int, n as int) is None,
        },
{
    if pos > b.len() || n > b.len() - pos {
        return None;
    }
    let mut v: Vec<u8> = Vec::new();
    let mut i: usize = 0;
    assert(b@.subrange(pos as int, pos as int) =~= Seq::empty());
    while i < n
        invariant
            pos + n <= b@.len(),
            0 <= i <= n,
            v@ == b@.subrange(pos as int, pos + i),
        decreases n - i,
    {
        v.push(b[pos + i]);
        assert(b@.subrange(pos as int, pos + i).push(b@[pos + i]) =~= b@.subrange(
            pos as int,
            pos + i + 1,
        ));
        i += 1;
    }
    Some((v, pos + n))
}

/// Read a little-endian `u32`.
fn read_u32_at(b: &[u8], pos: usize) -> (r: Option<(u32, usize)>)
    ensures
        match r {
            Some(v) => {
                &&& pos + 4 <= b@.len()
                &&& v.0 == u32_of(b@, pos as int)
                &&& v.1 == pos + 4
            },
            None => pos + 4 > b@.len(),
        },
{
    if pos > b.len() || b.len() - pos < 4 {
        return None;
    }
    let v: u32 = b[pos] as u32 + 256 * (b[pos + 1] as u32) + 0x10000 * (b[pos + 2] as u32)
        + 0x1000000 * (b[pos + 3] as u32);
    Some((v, pos + 4))
}

/// Read a little-endian `u16`.
fn read_u16_at(b: &[u8], pos: usize) -> (r: Option<(u16, usize)>)
    ensures
        match r {
            Some(v) => {
                &&& pos + 2 <= b@.len()
                &&& v.0 == u16_of(b@, pos as int)
                &&& v.1 == pos + 2
            },
            None => pos + 2 > b@.len(),
        },
{
    if pos > b.len() || b.len() - pos < 2 {
        return None;
    }
    let v: u16 = b[pos] as u16 + 256 * (b[pos + 1] as u16);
    Some((v, pos + 2))
}

/// The view of a pair list grows pairwise as the list grows.
proof fn lemma_domains_view_push(ds: Seq<(Vec<u8>, Vec<u8>)>, x: (Vec<u8>, Vec<u8>))
    ensures
        domains_view(ds.push(x)) == domains_view(ds).push((x.0@, x.1@)),
{
    assert(domains_view(ds.push(x)) =~= domains_view(ds).push((x.0@, x.1@)));
}

impl crate::plug::PlugDoughnut {
    /// Encode this doughnut in its full wire form: the body behind a compact
    /// count of its bytes, so that the transport can treat the whole as a
    /// length-prefixed byte vector.
    pub fn encode(&self) -> (r: Vec<u8>)
        requires
            encodable(self@),
        ensures
            r@ == enc_full(self@),
    {
        let body = self.0.body_bytes();
        let mut out: Vec<u8> = Vec::new();
        push_compact(&mut out, body.len() as u32);
        push_bytes(&mut out, &body);
        assert(out@ =~= enc_full(self@));
        out
    }

    /// The decoding pass itself, specified against the byte-level reader.
    #[verifier::loop_isolation(false)]
    fn decode_inner(bytes: &[u8]) -> (r: Result<Self, DecodeError>)
        ensures
            match r {
                Ok(pd) => spec_decode(bytes@) == Some(pd@),
                Err(_) => spec_decode(bytes@) is None,
            },
    {
        let (_, p0) = match read_compact(bytes, 0) {
            Some(t) => t,
            None => {
                return Err(DecodeError);
            },
        };
        if bytes.len() - p0 < 139 {
            return Err(DecodeError);
        }
        if bytes.len() - p0 >= 0x40000000 {
            return Err(DecodeError);
        }
        let (issuer, p) = match read_bytes_at(bytes, p0, 32) {
            Some(t) => t,
            None => {
                return Err(DecodeError);
            },
        };
        let (holder, p) = match read_bytes_at(bytes, p, 32) {
            Some(t) => t,
            None => {
                return Err(DecodeError);
            },
        };
        let (not_before, p) = match read_u32_at(bytes, p) {
            Some(t) => t,
            None => {
                return Err(DecodeError);
            },
        };
        let (expiry, p) = match read_u32_at(bytes, p) {
            Some(t) => t,
            None => {
                return Err(DecodeError);
            },
        };
        let (payload_version, p) = match read_u16_at(bytes, p) {
            Some(t) => t,
            None => {
                return Err(DecodeError);
            },
        };
        if payload_version != 0 {
            return Err(DecodeError);
        }
        let (signature, p) = match read_bytes_at(bytes, p, 64) {
            Some(t) => t,
            None => {
                return Err(DecodeError);
            },
        };
        let signature_version = bytes[p];
        let p = p + 1;
        let (count, p1) = match read_compact(bytes, p) {
            Some(t) => t,
            None => {
                return Err(DecodeError);
            },
        };
        let ghost gp1 = p1 as int;
        let mut domains: Vec<(Vec<u8>, Vec<u8>)> = Vec::new();
        let mut pos: usize = p1;
        let mut i: u32 = 0;
        assert(domains_view(domains@) + Seq::<(Seq<u8>, Seq<u8>)>::empty() =~= domains_view(
            domains@,
        ));
        while i < count
            invariant
                0 <= i <= count,
                pos <= bytes@.len(),
                dec_domain_list(bytes@, gp1, count as int) == (match dec_domain_list(
                    bytes@,
                    pos as int,
                    (count - i) as int,
                ) {
                    None => None::<(Seq<(Seq<u8>, Seq<u8>)>, int)>,
                    Some(t) => Some((domains_view(domains@) + t.0, t.1)),
                }),
            decreases count - i,
        {
            let (nlen, q1) = match read_compact(bytes, pos) {
                Some(t) => t,
                None => {
                    return Err(DecodeError);
                },
            };
            let (name, q2) = match read_bytes_at(bytes, q1, nlen as usize) {
                Some(t) => t,
                None => {
                    return Err(DecodeError);
                },
            };
            let (plen, q3) = match read_compact(bytes, q2) {
                Some(t) => t,
                None => {
                    return Err(DecodeError);
                },
            };
            let (payload, q4) = match read_bytes_at(bytes, q3, plen as usize) {
                Some(t) => t,
                None => {
                    return Err(DecodeError);
                },
            };
            proof {
                lemma_domains_view_push(domains@, (name, payload));
                let tail = match dec_domain_list(bytes@, q4 as int, (count - i - 1) as int) {
                    None => Seq::<(Seq<u8>, Seq<u8>)>::empty(),
                    Some(t) => t.0,
                };
                assert(domains_view(domains@).push((name@, payload@)) + tail =~= domains_view(
                    domains@,
                ) + (seq![(name@, payload@)] + tail));
            }
            domains.push((name, payload));
            pos = q4;
            i += 1;
        }
        if pos != bytes.len() {
            return Err(DecodeError);
        }
        let token = DoughnutV0 {
            issuer,
            holder,
            not_before,
            expiry,
            payload_version,
            signature,
            signature_version,
            domains,
        };
        let r = crate::plug::PlugDoughnut(token);
        proof {
            assert(dec_domain_list(bytes@, pos as int, 0) == Some(
                (Seq::<(Seq<u8>, Seq<u8>)>::empty(), pos as int),
            ));
            assert(domains_view(r.0.domains@) + Seq::<(Seq<u8>, Seq<u8>)>::empty() =~= domains_view(
                r.0.domains@,
            ));
            let spec_d = dec_body(bytes@, p0 as int);
            assert(spec_d is Some);
            assert(r@ =~~= spec_d.unwrap());
        }
        Ok(r)
    }

    /// Decode a full wire form back into a doughnut.  The outer prefix must
    /// be a canonical compact, but its value is read and discarded: it is
    /// transport framing and never influences the decoded token.  Decoding
    /// succeeds exactly when a well-formed token's body fills everything
    /// behind the prefix; truncated input, a malformed prefix, an unknown
    /// payload version, malformed domains and trailing bytes all fail, and
    /// nothing is partially built.
    pub fn decode(bytes: &[u8]) -> (r: Result<Self, DecodeError>)
        ensures
            match r {
                Ok(pd) => {
                    &&& wf(pd@)
                    &&& spec_decode(bytes@) == Some(pd@)
                    &&& dec_compact(bytes@, 0) is Some
                    &&& bytes@ == compact(dec_compact(bytes@, 0).unwrap().0) + body_enc(pd@)
                },
                Err(_) => {
                    &&& spec_decode(bytes@) is None
                    &&& forall|k: int, d: DoughnutData|
                        0 <= k < 0x40000000 && wf(d) ==> bytes@ != compact(k) + body_enc(d)
                },
            },
    {
        let r = Self::decode_inner(bytes);
        proof {
            if r is Ok {
                lemma_decode_sound(bytes@);
            } else {
                assert forall|k: int, d: DoughnutData|
                    0 <= k < 0x40000000 && wf(d) implies bytes@ != compact(k) + body_enc(d) by {
                    if bytes@ == compact(k) + body_enc(d) {
                        lemma_prefix_value_ignored(k, d);
                    }
                }
            }
        }
        r
    }
}

// ---------------------------------------------------------------------------
// The codec laws: reading inverts writing, and writing inverts reading
// ---------------------------------------------------------------------------

/// A value below 2^16 is the sum of its two little-endian base-256 digits.
proof fn lemma_le2_parts(m: int)
    requires
        0 <= m < 0x10000,
    ensures
        0 <= m % 256 < 256,
        0 <= m / 256 < 256,
        256 * (m / 256) + m % 256 == m,
{
    vstd::arithmetic::div_mod::lemma_fundamental_div_mod(m, 256);
    vstd::arithmetic::div_mod::lemma_mod_division_less_than_divisor(m, 256);
    vstd::arithmetic::div_mod::lemma_div_pos_is_pos(m, 256);
    vstd::arithmetic::div_mod::lemma_multiply_divide_lt(m, 256, 256);
}

/// Two base-256 digits build back the value they came from.
proof fn lemma_le2_build(b0: int, b1: int)
    requires
        0 <= b0 < 256,
        0 <= b1 < 256,
    ensures
        ({
            let m = b0 + 256 * b1;
            &&& 0 <= m < 0x10000
            &&& m % 256 == b0
            &&& m / 256 == b1
        }),
{
    let m = b0 + 256 * b1;
    vstd::arithmetic::div_mod::lemma_fundamental_div_mod_converse(m, 256, b1, b0);
}

/// A value below 2^32 is the sum of its four little-endian base-256 digits.
proof fn lemma_le4_parts(m: int)
    requires
        0 <= m < 0x100000000,
    ensures
        0 <= m % 256 < 256,
        0 <= (m / 256) % 256 < 256,
        0 <= (m / 0x10000) % 256 < 256,
        0 <= m / 0x1000000 < 256,
        m % 256 + 256 * ((m / 256) % 256) + 0x10000 * ((m / 0x10000) % 256) + 0x1000000 * (m
            / 0x1000000) == m,
{
    let a1 = m / 256;
    let a2 = m / 0x10000;
    let a3 = m / 0x1000000;
    vstd::arithmetic::div_mod::lemma_fundamental_div_mod(m, 256);
    vstd::arithmetic::div_mod::lemma_mod_division_less_than_divisor(m, 256);
    vstd::arithmetic::div_mod::lemma_div_pos_is_pos(m, 256);
    vstd::arithmetic::div_mod::lemma_fundamental_div_mod(a1, 256);
    vstd::arithmetic::div_mod::lemma_mod_division_less_than_divisor(a1, 256);
    vstd::arithmetic::div_mod::lemma_div_denominator(m, 256, 256);
    vstd::arithmetic::div_mod::lemma_fundamental_div_mod(a2, 256);
    vstd::arithmetic::div_mod::lemma_mod_division_less_than_divisor(a2, 256);
    vstd::arithmetic::div_mod::lemma_div_denominator(m, 0x10000, 256);
    vstd::arithmetic::div_mod::lemma_div_pos_is_pos(m, 0x1000000);
    vstd::arithmetic::div_mod::lemma_multiply_divide_lt(m, 0x1000000, 256);
    assert(a1 == 256 * a2 + (a1 % 256));
    assert(a2 == 256 * a3 + (a2 % 256));
}

/// Four base-256 digits build back the value they came from.
proof fn lemma_le4_build(b0: int, b1: int, b2: int, b3: int)
    requires
        0 <= b0 < 256,
        0 <= b1 < 256,
        0 <= b2 < 256,
        0 <= b3 < 256,
    ensures
        ({
            let m = b0 + 256 * b1 + 0x10000 * b2 + 0x1000000 * b3;
            &&& 0 <= m < 0x100000000
            &&& m % 256 == b0
            &&& (m / 256) % 256 == b1
            &&& (m / 0x10000) % 256 == b2
            &&& m / 0x1000000 == b3
        }),
{
    let m = b0 + 256 * b1 + 0x10000 * b2 + 0x1000000 * b3;
    let q1 = b1 + 256 * b2 + 0x10000 * b3;
    let q2 = b2 + 256 * b3;
    vstd::arithmetic::div_mod::lemma_fundamental_div_mod_converse(m, 256, q1, b0);
    vstd::arithmetic::div_mod::lemma_fundamental_div_mod_converse(q1, 256, q2, b1);
    vstd::arithmetic::div_mod::lemma_div_denominator(m, 256, 256);
    vstd::arithmetic::div_mod::lemma_fundamental_div_mod_converse(q2, 256, b3, b2);
    vstd::arithmetic::div_mod::lemma_div_denominator(m, 0x10000, 256);
}

/// A piece of a matched region matches the same piece of the pattern.
proof fn lemma_subrange_of_subrange(b: Seq<u8>, pos: int, total: Seq<u8>, off1: int, off2: int)
    requires
        0 <= pos,
        pos + total.len() <= b.len(),
        b.subrange(pos, pos + total.len() as int) == total,
        0 <= off1 <= off2 <= total.len(),
    ensures
        b.subrange(pos + off1, pos + off2) == total.subrange(off1, off2),
{
    assert forall|k: int| 0 <= k < off2 - off1 implies b.subrange(pos + off1, pos + off2)[k]
        == total.subrange(off1, off2)[k] by {
        assert(b[pos + off1 + k] == b.subrange(pos, pos + total.len() as int)[off1 + k]);
    }
    assert(b.subrange(pos + off1, pos + off2) =~= total.subrange(off1, off2));
}

/// A canonical compact form placed at `pos` reads back as its value.
proof fn lemma_dec_compact_of_enc(b: Seq<u8>, pos: int, n: int)
    requires
        0 <= n < 0x40000000,
        0 <= pos,
        pos + compact(n).len() <= b.len(),
        b.subrange(pos, pos + compact(n).len() as int) == compact(n),
    ensures
        dec_compact(b, pos) == Some((n, pos + compact(n).len())),
{
    if n < 64 {
        assert(b[pos] == b.subrange(pos, pos + 1)[0]);
        assert(b[pos] as int == 4 * n);
        vstd::arithmetic::div_mod::lemma_fundamental_div_mod_converse(4 * n, 4, n, 0);
    } else if n < 16384 {
        let m = 4 * n + 1;
        lemma_le2_parts(m);
        assert(b[pos] == b.subrange(pos, pos + 2)[0]);
        assert(b[pos + 1] == b.subrange(pos, pos + 2)[1]);
        assert(b[pos] as int == m % 256);
        assert(b[pos + 1] as int == m / 256);
        let b0 = m % 256;
        vstd::arithmetic::div_mod::lemma_fundamental_div_mod(m, 256);
        assert(b0 == 4 * (n - 64 * (m / 256)) + 1);
        vstd::arithmetic::div_mod::lemma_fundamental_div_mod_converse(b0, 4, n - 64 * (m / 256), 1);
        vstd::arithmetic::div_mod::lemma_fundamental_div_mod_converse(m, 4, n, 1);
    } else {
        let m = 4 * n + 2;
        lemma_le4_parts(m);
        assert(b[pos] == b.subrange(pos, pos + 4)[0]);
        assert(b[pos + 1] == b.subrange(pos, pos + 4)[1]);
        assert(b[pos + 2] == b.subrange(pos, pos + 4)[2]);
        assert(b[pos + 3] == b.subrange(pos, pos + 4)[3]);
        assert(b[pos] as int == m % 256);
        assert(b[pos + 1] as int == (m / 256) % 256);
        assert(b[pos + 2] as int == (m / 0x10000) % 256);
        assert(b[pos + 3] as int == m / 0x1000000);
        let b0 = m % 256;
        vstd::arithmetic::div_mod::lemma_fundamental_div_mod(m, 256);
        assert(b0 == 4 * (n - 64 * (m / 256)) + 2);
        vstd::arithmetic::div_mod::lemma_fundamental_div_mod_converse(b0, 4, n - 64 * (m / 256), 2);
        vstd::arithmetic::div_mod::lemma_fundamental_div_mod_converse(m, 4, n, 2);
    }
}

/// Whatever compact form was read sits at `pos` as the canonical bytes of the
/// value that came back.
proof fn lemma_dec_compact_sound(b: Seq<u8>, pos: int)
    requires
        dec_compact(b, pos) is Some,
    ensures
        ({
            let v = dec_compact(b, pos).unwrap();
            &&& 0 <= v.0 < 0x40000000
            &&& 0 <= pos < v.1 <= b.len()
            &&& v.1 - pos == compact(v.0).len()
            &&& b.subrange(pos, v.1) == compact(v.0)
        }),
{
    let b0 = b[pos] as int;
    let tag = b0 % 4;
    vstd::arithmetic::div_mod::lemma_mod_division_less_than_divisor(b0, 4);
    if tag == 0 {
        let n = b0 / 4;
        vstd::arithmetic::div_mod::lemma_fundamental_div_mod(b0, 4);
        vstd::arithmetic::div_mod::lemma_div_pos_is_pos(b0, 4);
        vstd::arithmetic::div_mod::lemma_multiply_divide_lt(b0, 4, 64);
        assert(b[pos] == (4 * n) as u8);
        assert(b.subrange(pos, pos + 1) =~= compact(n));
    } else if tag == 1 {
        let b1 = b[pos + 1] as int;
        let m = b0 + 256 * b1;
        let n = m / 4;
        lemma_le2_build(b0, b1);
        vstd::arithmetic::div_mod::lemma_multiply_divide_lt(m, 4, 16384);
        vstd::arithmetic::div_mod::lemma_fundamental_div_mod(b0, 4);
        vstd::arithmetic::div_mod::lemma_div_pos_is_pos(b0, 4);
        vstd::arithmetic::div_mod::lemma_fundamental_div_mod_converse(
            m,
            4,
            b0 / 4 + 64 * b1,
            1,
        );
        assert(m == 4 * n + 1);
        assert(b.subrange(pos, pos + 2) =~= compact(n));
    } else {
        let b1 = b[pos + 1] as int;
        let b2 = b[pos + 2] as int;
        let b3 = b[pos + 3] as int;
        let m = b0 + 256 * b1 + 0x10000 * b2 + 0x1000000 * b3;
        let n = m / 4;
        lemma_le4_build(b0, b1, b2, b3);
        vstd::arithmetic::div_mod::lemma_multiply_divide_lt(m, 4, 0x40000000);
        vstd::arithmetic::div_mod::lemma_fundamental_div_mod(b0, 4);
        vstd::arithmetic::div_mod::lemma_div_pos_is_pos(b0, 4);
        vstd::arithmetic::div_mod::lemma_fundamental_div_mod_converse(
            m,
            4,
            b0 / 4 + 64 * b1 + 0x4000 * b2 + 0x400000 * b3,
            2,
        );
        assert(m == 4 * n + 2);
        assert(b.subrange(pos, pos + 4) =~= compact(n));
    }
}

/// A `u32` written little-endian at `pos` reads back as itself.
proof fn lemma_u32_le_of(b: Seq<u8>, pos: int, v: u32)
    requires
        0 <= pos,
        pos + 4 <= b.len(),
        b.subrange(pos, pos + 4) == u32_le(v),
    ensures
        u32_of(b, pos) == v,
{
    lemma_le4_parts(v as int);
    assert(b[pos] == b.subrange(pos, pos + 4)[0]);
    assert(b[pos + 1] == b.subrange(pos, pos + 4)[1]);
    assert(b[pos + 2] == b.subrange(pos, pos + 4)[2]);
    assert(b[pos + 3] == b.subrange(pos, pos + 4)[3]);
}

/// The four bytes at `pos` are the little-endian form of the `u32` they hold.
proof fn lemma_u32_le_sound(b: Seq<u8>, pos: int)
    requires
        0 <= pos,
        pos + 4 <= b.len(),
    ensures
        b.subrange(pos, pos + 4) == u32_le(u32_of(b, pos)),
{
    lemma_le4_build(b[pos] as int, b[pos + 1] as int, b[pos + 2] as int, b[pos + 3] as int);
    assert(b.subrange(pos, pos + 4) =~= u32_le(u32_of(b, pos)));
}

/// A `u16` written little-endian at `pos` reads back as itself.
proof fn lemma_u16_le_of(b: Seq<u8>, pos: int, v: u16)
    requires
        0 <= pos,
        pos + 2 <= b.len(),
        b.subrange(pos, pos + 2) == u16_le(v),
    ensures
        u16_of(b, pos) == v,
{
    lemma_le2_parts(v as int);
    assert(b[pos] == b.subrange(pos, pos + 2)[0]);
    assert(b[pos + 1] == b.subrange(pos, pos + 2)[1]);
}

/// The two bytes at `pos` are the little-endian form of the `u16` they hold.
proof fn lemma_u16_le_sound(b: Seq<u8>, pos: int)
    requires
        0 <= pos,
        pos + 2 <= b.len(),
    ensures
        b.subrange(pos, pos + 2) == u16_le(u16_of(b, pos)),
{
    lemma_le2_build(b[pos] as int, b[pos + 1] as int);
    assert(b.subrange(pos, pos + 2) =~= u16_le(u16_of(b, pos)));
}

/// An encoded pair list placed at `pos` reads back as exactly those pairs.
proof fn lemma_dec_domain_list_of_enc(b: Seq<u8>, pos: int, ds: Seq<(Seq<u8>, Seq<u8>)>)
    requires
        0 <= pos,
        forall|i: int|
            0 <= i < ds.len() ==> ds[i].0.len() < 0x40000000 && ds[i].1.len() < 0x40000000,
        pos + enc_domain_list(ds).len() <= b.len(),
        b.subrange(pos, pos + enc_domain_list(ds).len() as int) == enc_domain_list(ds),
    ensures
        dec_domain_list(b, pos, ds.len() as int) == Some((ds, pos + enc_domain_list(ds).len())),
    decreases ds.len(),
{
    if ds.len() == 0 {
        assert(ds =~= Seq::<(Seq<u8>, Seq<u8>)>::empty());
    } else {
        let name = ds[0].0;
        let payload = ds[0].1;
        let rest = ds.drop_first();
        let e = enc_domain_list(ds);
        let c1 = compact(name.len() as int);
        let c2 = compact(payload.len() as int);
        let el = enc_domain_list(rest);
        assert(e =~= c1 + name + (c2 + payload + el));
        let o1 = c1.len() as int;
        let o2 = o1 + name.len() as int;
        let o3 = o2 + c2.len() as int;
        let o4 = o3 + payload.len() as int;
        lemma_subrange_of_subrange(b, pos, e, 0, o1);
        assert(e.subrange(0, o1) =~= c1);
        lemma_dec_compact_of_enc(b, pos, name.len() as int);
        lemma_subrange_of_subrange(b, pos, e, o1, o2);
        assert(e.subrange(o1, o2) =~= name);
        lemma_subrange_of_subrange(b, pos, e, o2, o3);
        assert(e.subrange(o2, o3) =~= c2);
        lemma_dec_compact_of_enc(b, pos + o2, payload.len() as int);
        lemma_subrange_of_subrange(b, pos, e, o3, o4);
        assert(e.subrange(o3, o4) =~= payload);
        lemma_subrange_of_subrange(b, pos, e, o4, e.len() as int);
        assert(e.subrange(o4, e.len() as int) =~= el);
        assert(forall|i: int| 0 <= i < rest.len() ==> rest[i] == ds[i + 1]);
        lemma_dec_domain_list_of_enc(b, pos + o4, rest);
        assert(seq![(name, payload)] + rest =~= ds);
    }
}

/// Whatever pair list was read sits at `pos` as exactly its encoding.
#[verifier::rlimit(100)]
proof fn lemma_dec_domain_list_sound(b: Seq<u8>, pos: int, count: int)
    requires
        0 <= pos <= b.len(),
        0 <= count,
        dec_domain_list(b, pos, count) is Some,
    ensures
        ({
            let v = dec_domain_list(b, pos, count).unwrap();
            &&& v.0.len() == count
            &&& forall|i: int|
                0 <= i < count ==> v.0[i].0.len() < 0x40000000 && v.0[i].1.len() < 0x40000000
            &&& pos <= v.1 <= b.len()
            &&& v.1 - pos == enc_domain_list(v.0).len()
            &&& b.subrange(pos, v.1) == enc_domain_list(v.0)
        }),
    decreases count,
{
    if count == 0 {
        assert(b.subrange(pos, pos) =~= enc_domain_list(Seq::<(Seq<u8>, Seq<u8>)>::empty()));
    } else {
        lemma_dec_compact_sound(b, pos);
        let h1 = dec_compact(b, pos).unwrap();
        let nlen = h1.0;
        let p1 = h1.1;
        let name = b.subrange(p1, p1 + nlen);
        let p2 = p1 + nlen;
        lemma_dec_compact_sound(b, p2);
        let h2 = dec_compact(b, p2).unwrap();
        let plen = h2.0;
        let p3 = h2.1;
        let payload = b.subrange(p3, p3 + plen);
        let p4 = p3 + plen;
        lemma_dec_domain_list_sound(b, p4, count - 1);
        let t = dec_domain_list(b, p4, count - 1).unwrap();
        let rest = t.0;
        let p5 = t.1;
        let ds = seq![(name, payload)] + rest;
        assert(ds[0] == (name, payload));
        assert(ds.drop_first() =~= rest);
        assert(dec_domain_list(b, pos, count).unwrap() == (ds, p5));
        assert(b.subrange(pos, p5) =~= b.subrange(pos, p1) + b.subrange(p1, p2) + b.subrange(
            p2,
            p3,
        ) + b.subrange(p3, p4) + b.subrange(p4, p5));
        assert(enc_domain_list(ds) =~= compact(nlen) + name + compact(plen) + payload
            + enc_domain_list(rest));
        assert(b.subrange(pos, p5) =~= enc_domain_list(ds));
        assert(forall|i: int| 1 <= i < count ==> ds[i] == rest[i - 1]);
    }
}

/// A well-formed token's body placed at `p`, filling the rest of the bytes,
/// reads back as exactly that token.
#[verifier::rlimit(100)]
proof fn lemma_dec_body_of_enc(b: Seq<u8>, p: int, d: DoughnutData)
    requires
        wf(d),
        0 <= p,
        p + body_enc(d).len() == b.len(),
        b.subrange(p, b.len() as int) == body_enc(d),
    ensures
        dec_body(b, p) == Some(d),
{
    let body = body_enc(d);
    let lb = body.len() as int;
    let ds = d.domains;
    let cd = compact(ds.len() as int);
    let cdl = cd.len() as int;
    let el = enc_domain_list(ds);
    assert(body =~= d.issuer + d.holder + u32_le(d.not_before) + u32_le(d.expiry) + u16_le(
        d.payload_version,
    ) + d.signature + seq![d.signature_version] + (cd + el));
    lemma_subrange_of_subrange(b, p, body, 0, 32);
    assert(body.subrange(0, 32) =~= d.issuer);
    lemma_subrange_of_subrange(b, p, body, 32, 64);
    assert(body.subrange(32, 64) =~= d.holder);
    lemma_subrange_of_subrange(b, p, body, 64, 68);
    assert(body.subrange(64, 68) =~= u32_le(d.not_before));
    lemma_u32_le_of(b, p + 64, d.not_before);
    lemma_subrange_of_subrange(b, p, body, 68, 72);
    assert(body.subrange(68, 72) =~= u32_le(d.expiry));
    lemma_u32_le_of(b, p + 68, d.expiry);
    lemma_subrange_of_subrange(b, p, body, 72, 74);
    assert(body.subrange(72, 74) =~= u16_le(d.payload_version));
    lemma_u16_le_of(b, p + 72, d.payload_version);
    lemma_subrange_of_subrange(b, p, body, 74, 138);
    assert(body.subrange(74, 138) =~= d.signature);
    lemma_subrange_of_subrange(b, p, body, 138, 139);
    assert(body.subrange(138, 139) =~= seq![d.signature_version]);
    assert(b[p + 138] == b.subrange(p + 138, p + 139)[0]);
    lemma_subrange_of_subrange(b, p, body, 139, 139 + cdl);
    assert(body.subrange(139, 139 + cdl) =~= cd);
    lemma_dec_compact_of_enc(b, p + 139, ds.len() as int);
    lemma_subrange_of_subrange(b, p, body, 139 + cdl, lb);
    assert(body.subrange(139 + cdl, lb) =~= el);
    lemma_dec_domain_list_of_enc(b, p + 139 + cdl, ds);
    assert(dec_body(b, p).unwrap() =~~= d);
}

/// The outer prefix is wire framing only: any canonical compact ahead of a
/// well-formed token's body decodes to exactly that token, whatever value
/// the prefix names.
pub proof fn lemma_prefix_value_ignored(k: int, d: DoughnutData)
    requires
        0 <= k < 0x40000000,
        wf(d),
    ensures
        spec_decode(compact(k) + body_enc(d)) == Some(d),
{
    let b = compact(k) + body_enc(d);
    let cl = compact(k).len() as int;
    assert(b.subrange(0, cl) =~= compact(k));
    lemma_dec_compact_of_enc(b, 0, k);
    assert(b.subrange(cl, b.len() as int) =~= body_enc(d));
    lemma_dec_body_of_enc(b, cl, d);
}

/// Round trip: the full wire form of any well-formed token decodes back to
/// exactly that token.
pub proof fn lemma_round_trip(d: DoughnutData)
    requires
        wf(d),
    ensures
        spec_decode(enc_full(d)) == Some(d),
{
    lemma_prefix_value_ignored(body_enc(d).len() as int, d);
}

/// Whatever token decoding gives back is well-formed, and the decoded bytes
/// are the token's own body behind the compact prefix they began with.
pub proof fn lemma_decode_sound(b: Seq<u8>)
    requires
        spec_decode(b) is Some,
    ensures
        ({
            let d = spec_decode(b).unwrap();
            &&& wf(d)
            &&& dec_compact(b, 0) is Some
            &&& b == compact(dec_compact(b, 0).unwrap().0) + body_enc(d)
        }),
{
    lemma_dec_compact_sound(b, 0);
    let h = dec_compact(b, 0).unwrap();
    let p0 = h.1;
    let d = spec_decode(b).unwrap();
    lemma_u32_le_sound(b, p0 + 64);
    lemma_u32_le_sound(b, p0 + 68);
    lemma_u16_le_sound(b, p0 + 72);
    lemma_dec_compact_sound(b, p0 + 139);
    let h2 = dec_compact(b, p0 + 139).unwrap();
    let count = h2.0;
    let p1 = h2.1;
    lemma_dec_domain_list_sound(b, p1, count);
    let t = dec_domain_list(b, p1, count).unwrap();
    let ds = t.0;
    let p2 = t.1;
    assert(p2 == b.len());
    assert(d.domains == ds);
    assert(b.subrange(p0, b.len() as int) =~= b.subrange(p0, p0 + 32) + b.subrange(
        p0 + 32,
        p0 + 64,
    ) + b.subrange(p0 + 64, p0 + 68) + b.subrange(p0 + 68, p0 + 72) + b.subrange(p0 + 72, p0 + 74)
        + b.subrange(p0 + 74, p0 + 138) + b.subrange(p0 + 138, p0 + 139) + (b.subrange(
        p0 + 139,
        p1,
    ) + b.subrange(p1, b.len() as int)));
    assert(b.subrange(p0 + 138, p0 + 139) =~= seq![d.signature_version]);
    assert(body_enc(d) == b.subrange(p0, b.len() as int));
    assert(compact(h.0) + body_enc(d) =~= b.subrange(0, p0) + b.subrange(p0, b.len() as int));
    assert(b.subrange(0, p0) + b.subrange(p0, b.len() as int) =~= b);
}

/// The wire form pins the token: two well-formed tokens with the same full
/// encoding are the same token.
pub proof fn lemma_encoding_injective(d1: DoughnutData, d2: DoughnutData)
    requires
        wf(d1),
        wf(d2),
        enc_full(d1) == enc_full(d2),
    ensures
        d1 == d2,
{
    lemma_round_trip(d1);
    lemma_round_trip(d2);
}

} // verus!
