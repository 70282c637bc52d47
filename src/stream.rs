//! Segment headers, checksums and chained streams of segments.

use vstd::prelude::*;

use crate::encode::lemma_split_byte;
use crate::error::DecodeError;
use crate::segment::{
    body_records, decode_body, records_view, Segment, SegmentV, HEADER_SIZE, PROTOCOL_VERSION,
};

verus! {

/// The sum of the bytes of `s`.
pub open spec fn sum_of(s: Seq<u8>) -> nat
    decreases s.len(),
{
    if s.len() == 0 {
        0
    } else {
        sum_of(s.drop_last()) + s.last() as nat
    }
}

/// The checksum of `s`: the sum of its bytes modulo 256.
pub open spec fn checksum_of(s: Seq<u8>) -> u8 {
    (sum_of(s) % 256) as u8
}

/// The body length that a header declares.
pub open spec fn body_len_of(buf: Seq<u8>) -> nat {
    buf[2] as nat + 256 * buf[3] as nat
}

/// One decoded segment, with the bytes it took and the warning it raised.
#[derive(Clone, Debug, PartialEq, Eq)]
pub struct Decoded {
    pub segment: Segment,
    /// Bytes of the buffer that the segment took; the rest follows it.
    pub consumed: usize,
    /// `Some(SegmentChecksumMismatch)` when the trailing checksum is wrong.
    pub warning: Option<DecodeError>,
}

pub struct DecodedV {
    pub segment: SegmentV,
    pub consumed: nat,
    pub warning: Option<DecodeError>,
}

impl View for Decoded {
    type V = DecodedV;

    open spec fn view(&self) -> DecodedV {
        DecodedV { segment: self.segment@, consumed: self.consumed as nat, warning: self.warning }
    }
}

/// Decodes the segment at the start of `buf`.
///
/// The header is its size byte, the protocol version, the body length (two
/// bytes, least significant first) and the checksum of those four bytes.
/// The body follows, then one checksum byte over header and body. A wrong
/// trailing checksum keeps the records and raises a warning.
pub open spec fn decode_step(buf: Seq<u8>) -> Result<DecodedV, DecodeError> {
    if buf.len() < 1 {
        Err(DecodeError::TruncatedStream)
    } else if buf[0] != HEADER_SIZE {
        Err(DecodeError::InvalidHeader)
    } else if buf.len() < HEADER_SIZE {
        Err(DecodeError::TruncatedStream)
    } else if buf[1] != PROTOCOL_VERSION {
        Err(DecodeError::InvalidHeader)
    } else if checksum_of(buf.subrange(0, 4)) != buf[4] {
        Err(DecodeError::HeaderChecksumMismatch)
    } else {
        let n = body_len_of(buf);
        let end = HEADER_SIZE + n;
        if buf.len() < end + 1 {
            Err(DecodeError::TruncatedStream)
        } else {
            match body_records(buf.subrange(HEADER_SIZE as int, end)) {
                Err(e) => Err(e),
                Ok(rs) => Ok(
                    DecodedV {
                        segment: SegmentV { version: buf[1], records: rs },
                        consumed: (end + 1) as nat,
                        warning: if checksum_of(buf.subrange(0, end)) == buf[end] {
                            None
                        } else {
                            Some(DecodeError::SegmentChecksumMismatch)
                        },
                    },
                ),
            }
        }
    }
}

/// The checksum of `b[0..n]`.
pub fn checksum(b: &[u8], n: usize) -> (r: u8)
    requires
        n <= b@.len(),
    ensures
        r == checksum_of(b@.subrange(0, n as int)),
{
    let mut acc: u8 = 0;
    let mut i: usize = 0;
    assert(b@.subrange(0, 0) =~= Seq::<u8>::empty());
    while i < n
        invariant
            i <= n,
            n <= b@.len(),
            acc == checksum_of(b@.subrange(0, i as int)),
        decreases n - i,
    {
        proof {
            let s = b@.subrange(0, i + 1);
            assert(s.drop_last() =~= b@.subrange(0, i as int));
            let x = sum_of(b@.subrange(0, i as int));
            vstd::arithmetic::div_mod::lemma_add_mod_noop(x as int, b@[i as int] as int, 256);
        }
        acc = ((acc as u16 + b[i] as u16) % 256) as u8;
        i = i + 1;
    }
    acc
}

/// Decodes the segment at the start of `buf`; on success the next segment
/// starts `consumed` bytes in. On failure nothing is consumed.
pub fn decode_stream(buf: &[u8]) -> (r: Result<Decoded, DecodeError>)
    ensures
        match r {
            Ok(d) => decode_step(buf@) == Ok::<DecodedV, DecodeError>(d@),
            Err(e) => decode_step(buf@) == Err::<DecodedV, DecodeError>(e),
        },
{
    if buf.len() < 1 {
        return Err(DecodeError::TruncatedStream);
    }
    if buf[0] != HEADER_SIZE {
        return Err(DecodeError::InvalidHeader);
    }
    if buf.len() < HEADER_SIZE as usize {
        return Err(DecodeError::TruncatedStream);
    }
    if buf[1] != PROTOCOL_VERSION {
        return Err(DecodeError::InvalidHeader);
    }
    if checksum(buf, 4) != buf[4] {
        return Err(DecodeError::HeaderChecksumMismatch);
    }
    let n: usize = buf[2] as usize + 256 * (buf[3] as usize);
    let end: usize = HEADER_SIZE as usize + n;
    if buf.len() < end + 1 {
        return Err(DecodeError::TruncatedStream);
    }
    let body = vstd::slice::slice_subrange(buf, HEADER_SIZE as usize, end);
    match decode_body(body) {
        Err(e) => Err(e),
        Ok(rs) => {
            let warning = if checksum(buf, end) == buf[end] {
                None
            } else {
                Some(DecodeError::SegmentChecksumMismatch)
            };
            Ok(Decoded { segment: Segment { version: buf[1], records: rs }, consumed: end + 1, warning })
        },
    }
}


/// Decodes the segments of `buf` from position `pos` on, after the segments
/// `acc`, until no bytes remain.
pub open spec fn chain_run(buf: Seq<u8>, pos: nat, acc: Seq<DecodedV>) -> Result<
    Seq<DecodedV>,
    DecodeError,
>
    decreases buf.len() - pos,
{
    if pos >= buf.len() {
        Ok(acc)
    } else {
        match decode_step(buf.subrange(pos as int, buf.len() as int)) {
            Err(e) => Err(e),
            Ok(d) => if d.consumed == 0 || pos + d.consumed > buf.len() {
                Err(DecodeError::TruncatedStream)
            } else {
                chain_run(buf, pos + d.consumed, acc.push(d))
            },
        }
    }
}

/// Every segment of the chained buffer `buf`, in order.
pub open spec fn chain_of(buf: Seq<u8>) -> Result<Seq<DecodedV>, DecodeError> {
    chain_run(buf, 0, seq![])
}

pub open spec fn decoded_views(ds: Seq<Decoded>) -> Seq<DecodedV> {
    ds.map_values(|d: Decoded| d@)
}

/// Decodes every segment of a chained buffer, in order, until no bytes
/// remain; fails with the first segment's error that fails.
pub fn decode_chain(buf: &[u8]) -> (r: Result<Vec<Decoded>, DecodeError>)
    ensures
        match r {
            Ok(ds) => chain_of(buf@) == Ok::<Seq<DecodedV>, DecodeError>(decoded_views(ds@)),
            Err(e) => chain_of(buf@) == Err::<Seq<DecodedV>, DecodeError>(e),
        },
{
    let mut ds: Vec<Decoded> = Vec::new();
    let mut pos: usize = 0;
    assert(decoded_views(ds@) =~= seq![]);
    while pos < buf.len()
        invariant
            pos <= buf@.len(),
            chain_of(buf@) == chain_run(buf@, pos as nat, decoded_views(ds@)),
        decreases buf@.len() - pos,
    {
        let rest = vstd::slice::slice_subrange(buf, pos, buf.len());
        match decode_stream(rest) {
            Err(e) => {
                return Err(e);
            },
            Ok(d) => {
                if d.consumed == 0 || d.consumed > buf.len() - pos {
                    return Err(DecodeError::TruncatedStream);
                }
                let ghost old_ds = ds@;
                pos = pos + d.consumed;
                ds.push(d);
                assert(decoded_views(ds@) =~= decoded_views(old_ds).push(d@));
            },
        }
    }
    Ok(ds)
}

/// The bytes of the segments `segs`, one after another.
pub open spec fn concat(segs: Seq<Seq<u8>>) -> Seq<u8>
    decreases segs.len(),
{
    if segs.len() == 0 {
        seq![]
    } else {
        segs[0] + concat(segs.drop_first())
    }
}

/// A byte sequence that is exactly one segment that decodes.
pub open spec fn is_whole_segment(s: Seq<u8>) -> bool {
    match decode_step(s) {
        Ok(d) => d.consumed == s.len(),
        Err(_) => false,
    }
}

/// What a byte sequence that is one segment decodes to.
pub open spec fn segment_of(s: Seq<u8>) -> DecodedV {
    match decode_step(s) {
        Ok(d) => d,
        Err(_) => arbitrary(),
    }
}

/// A segment decodes the same whatever bytes follow it.
pub proof fn lemma_step_ignores_tail(s: Seq<u8>, t: Seq<u8>)
    requires
        is_whole_segment(s),
    ensures
        decode_step(s + t) == decode_step(s),
{
    let u = s + t;
    assert(u.subrange(0, 4) =~= s.subrange(0, 4));
    let end = HEADER_SIZE + body_len_of(s);
    assert(u.subrange(HEADER_SIZE as int, end) =~= s.subrange(HEADER_SIZE as int, end));
    assert(u.subrange(0, end) =~= s.subrange(0, end));
    assert(u[end] == s[end]);
}

proof fn lemma_chain_run_concat(pre: Seq<u8>, segs: Seq<Seq<u8>>, acc: Seq<DecodedV>)
    requires
        forall|i: int| 0 <= i < segs.len() ==> is_whole_segment(#[trigger] segs[i]),
    ensures
        chain_run(pre + concat(segs), pre.len(), acc) == Ok::<Seq<DecodedV>, DecodeError>(
            acc + segs.map_values(|s: Seq<u8>| segment_of(s)),
        ),
    decreases segs.len(),
{
    let buf = pre + concat(segs);
    if segs.len() == 0 {
        assert(buf =~= pre);
        assert(acc + segs.map_values(|s: Seq<u8>| segment_of(s)) =~= acc);
    } else {
        let s0 = segs[0];
        let rest = segs.drop_first();
        assert(is_whole_segment(s0));
        assert forall|i: int| 0 <= i < rest.len() implies is_whole_segment(#[trigger] rest[i]) by {
            assert(rest[i] == segs[i + 1]);
        }
        assert(buf.subrange(pre.len() as int, buf.len() as int) =~= s0 + concat(rest));
        lemma_step_ignores_tail(s0, concat(rest));
        let d = segment_of(s0);
        assert(s0.len() > 0);
        let pre2 = pre + s0;
        assert(pre2 + concat(rest) =~= buf);
        lemma_chain_run_concat(pre2, rest, acc.push(d));
        assert(acc.push(d) + rest.map_values(|s: Seq<u8>| segment_of(s)) =~= acc + segs.map_values(
            |s: Seq<u8>| segment_of(s),
        ));
    }
}

/// Segments concatenated one after another with no container decode, by
/// repeated calls, into exactly those segments in their order, with no
/// bytes left over.
pub proof fn lemma_chain_of_concat(segs: Seq<Seq<u8>>)
    requires
        forall|i: int| 0 <= i < segs.len() ==> is_whole_segment(#[trigger] segs[i]),
    ensures
        chain_of(concat(segs)) == Ok::<Seq<DecodedV>, DecodeError>(
            segs.map_values(|s: Seq<u8>| segment_of(s)),
        ),
{
    lemma_chain_run_concat(seq![], segs, seq![]);
    assert(Seq::<u8>::empty() + concat(segs) =~= concat(segs));
    assert(Seq::<DecodedV>::empty() + segs.map_values(|s: Seq<u8>| segment_of(s)) =~= segs.map_values(
        |s: Seq<u8>| segment_of(s),
    ));
}


/// The four header bytes before the header checksum, for a body of `n`
/// bytes.
pub open spec fn header_prefix(version: u8, n: nat) -> Seq<u8> {
    seq![HEADER_SIZE, version, (n % 256) as u8, (n / 256) as u8]
}

/// The bytes of a segment of protocol `version` around the body `body`:
/// header, body and trailing checksum.
pub open spec fn segment_bytes(version: u8, body: Seq<u8>) -> Seq<u8> {
    let h = header_prefix(version, body.len());
    let hb = h.push(checksum_of(h)) + body;
    hb.push(checksum_of(hb))
}

/// Frames `body` as one segment of protocol `version`; `None` when the body
/// is too long for the two-byte length of the header.
pub fn encode_segment(version: u8, body: &[u8]) -> (r: Option<Vec<u8>>)
    ensures
        match r {
            Some(v) => body@.len() < 0x10000 && v@ == segment_bytes(version, body@),
            None => body@.len() >= 0x10000,
        },
{
    if body.len() >= 0x10000 {
        return None;
    }
    let n = body.len();
    let mut v: Vec<u8> = Vec::new();
    v.push(HEADER_SIZE);
    v.push(version);
    v.push((n % 256) as u8);
    v.push((n / 256) as u8);
    assert(v@ =~= header_prefix(version, n as nat));
    let h = checksum(v.as_slice(), 4);
    assert(v@.subrange(0, 4) =~= v@);
    v.push(h);
    let ghost head = v@;
    let mut i: usize = 0;
    while i < n
        invariant
            i <= n,
            n == body@.len(),
            v@ =~= head + body@.subrange(0, i as int),
        decreases n - i,
    {
        v.push(body[i]);
        i = i + 1;
    }
    assert(body@.subrange(0, n as int) =~= body@);
    let len = v.len();
    let c = checksum(v.as_slice(), len);
    assert(v@.subrange(0, len as int) =~= v@);
    v.push(c);
    Some(v)
}

/// A segment that decodes whole, with both checksums right, is exactly the
/// framing of its protocol version around its body: encoding the decoded
/// segment again gives back its bytes.
pub proof fn lemma_segment_bytes_of_decoded(buf: Seq<u8>)
    requires
        decode_step(buf) is Ok,
        decode_step(buf)->Ok_0.consumed == buf.len(),
        decode_step(buf)->Ok_0.warning is None,
    ensures
        segment_bytes(buf[1], buf.subrange(HEADER_SIZE as int, buf.len() - 1)) == buf,
{
    let n = body_len_of(buf);
    let body = buf.subrange(HEADER_SIZE as int, buf.len() - 1);
    assert(body.len() == n);
    lemma_split_byte(buf[2] as int, buf[3] as int);
    assert(header_prefix(buf[1], n) =~= buf.subrange(0, 4));
    let h = header_prefix(buf[1], n);
    assert(h.push(checksum_of(h)) + body =~= buf.subrange(0, HEADER_SIZE + n));
    assert(segment_bytes(buf[1], body) =~= buf);
}

/// Framing a body as a segment of this protocol and decoding it gives the
/// body's records, takes every byte and raises no warning.
pub proof fn lemma_decode_of_segment_bytes(body: Seq<u8>)
    requires
        body.len() < 0x10000,
        body_records(body) is Ok,
    ensures
        decode_step(segment_bytes(PROTOCOL_VERSION, body)) == Ok::<DecodedV, DecodeError>(
            DecodedV {
                segment: SegmentV { version: PROTOCOL_VERSION, records: body_records(body)->Ok_0 },
                consumed: body.len() + 6,
                warning: None,
            },
        ),
{
    let n = body.len();
    let h = header_prefix(PROTOCOL_VERSION, n);
    let hb = h.push(checksum_of(h)) + body;
    let buf = segment_bytes(PROTOCOL_VERSION, body);
    vstd::arithmetic::div_mod::lemma_fundamental_div_mod(n as int, 256);
    assert(body_len_of(buf) == n);
    assert(buf.subrange(0, 4) =~= h);
    assert(buf.subrange(HEADER_SIZE as int, HEADER_SIZE + n) =~= body);
    assert(buf.subrange(0, HEADER_SIZE + n) =~= hb);
}


/// A header that declares more body than the buffer holds fails with
/// `TruncatedStream`, and a failed decode consumes nothing.
pub proof fn lemma_truncated_header(buf: Seq<u8>)
    requires
        buf.len() >= HEADER_SIZE,
        buf[0] == HEADER_SIZE,
        buf[1] == PROTOCOL_VERSION,
        checksum_of(buf.subrange(0, 4)) == buf[4],
        buf.len() < HEADER_SIZE + body_len_of(buf) + 1,
    ensures
        decode_step(buf) == Err::<DecodedV, DecodeError>(DecodeError::TruncatedStream),
        chain_of(buf) == Err::<Seq<DecodedV>, DecodeError>(DecodeError::TruncatedStream),
{
    assert(buf.subrange(0, buf.len() as int) =~= buf);
}

/// A segment whose trailing checksum byte is replaced by a wrong one still
/// decodes to the same records and takes the same bytes, with the warning
/// `SegmentChecksumMismatch`.
pub proof fn lemma_corrupt_checksum_keeps_records(buf: Seq<u8>, x: u8)
    requires
        is_whole_segment(buf),
        x != buf[buf.len() - 1],
        segment_of(buf).warning is None,
    ensures
        decode_step(buf.update(buf.len() - 1, x)) == Ok::<DecodedV, DecodeError>(
            DecodedV {
                segment: segment_of(buf).segment,
                consumed: buf.len(),
                warning: Some(DecodeError::SegmentChecksumMismatch),
            },
        ),
{
    let c = buf.update(buf.len() - 1, x);
    let end = HEADER_SIZE + body_len_of(buf);
    assert(c.subrange(0, 4) =~= buf.subrange(0, 4));
    assert(c.subrange(HEADER_SIZE as int, end) =~= buf.subrange(HEADER_SIZE as int, end));
    assert(c.subrange(0, end) =~= buf.subrange(0, end));
}

} // verus!
