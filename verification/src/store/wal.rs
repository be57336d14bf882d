//! The write-ahead log's formats: CRC-framed records, and the payload that
//! stands for one write.

use crate::store::io::{
    lemma_written_at_end, read_to_end, same_except, write_all, IoErrorKind, SeekFrom, Storage,
};
use crate::text::{lemma_text_of_encoding, string_from_utf8_lossy, text_of};
use vstd::prelude::*;
use vstd::slice::{slice_subrange, slice_to_vec};
use vstd::utf8::encode_utf8;

verus! {

/// The four bytes of a number, the lowest first.
pub open spec fn le32_bytes(x: u32) -> Seq<u8> {
    seq![
        (x % 256) as u8,
        ((x / 256) % 256) as u8,
        ((x / 256 / 256) % 256) as u8,
        (x / 256 / 256 / 256) as u8,
    ]
}

/// The number that four bytes stand for, the lowest first.
pub open spec fn le32_value(s: Seq<u8>) -> u32 {
    (s[0] as int + 256 * (s[1] as int + 256 * (s[2] as int + 256 * (s[3] as int)))) as u32
}

/// The bytes of a number stand for it.
pub proof fn lemma_le32_of_bytes(x: u32)
    ensures
        le32_bytes(x).len() == 4,
        le32_value(le32_bytes(x)) == x,
{
    let q1 = x / 256;
    let q2 = q1 / 256;
    let q3 = q2 / 256;
    assert(x == 256 * q1 + x % 256);
    assert(q1 == 256 * q2 + q1 % 256);
    assert(q2 == 256 * q3 + q2 % 256);
    assert(q3 < 256);
}

/// Four bytes are the bytes of the number that they stand for.
pub proof fn lemma_bytes_of_le32(s: Seq<u8>)
    requires
        s.len() == 4,
    ensures
        le32_bytes(le32_value(s)) == s,
{
    let r2 = s[2] as int + 256 * (s[3] as int);
    let r1 = s[1] as int + 256 * r2;
    let v = s[0] as int + 256 * r1;
    assert(0 <= v <= u32::MAX);
    vstd::arithmetic::div_mod::lemma_fundamental_div_mod_converse(v, 256, r1, s[0] as int);
    vstd::arithmetic::div_mod::lemma_fundamental_div_mod_converse(r1, 256, r2, s[1] as int);
    vstd::arithmetic::div_mod::lemma_fundamental_div_mod_converse(
        r2,
        256,
        s[3] as int,
        s[2] as int,
    );
    let x = le32_value(s);
    assert(x as int == v);
    assert(x % 256 == s[0]);
    assert(x / 256 == r1);
    assert((x / 256) % 256 == s[1]);
    assert(x / 256 / 256 == r2);
    assert((x / 256 / 256) % 256 == s[2]);
    assert(x / 256 / 256 / 256 == s[3]);
    assert(le32_bytes(x) =~= s);
}

/// A number has four bytes, which stand for it, and four bytes are the
/// bytes of the number that they stand for.
pub proof fn lemma_le32()
    ensures
        forall|x: u32|
            {
                &&& #[trigger] le32_bytes(x).len() == 4
                &&& le32_value(le32_bytes(x)) == x
            },
        forall|s: Seq<u8>| s.len() == 4 ==> #[trigger] le32_bytes(le32_value(s)) == s,
{
    assert forall|x: u32|
        {
            &&& #[trigger] le32_bytes(x).len() == 4
            &&& le32_value(le32_bytes(x)) == x
        } by {
        lemma_le32_of_bytes(x);
    }
    assert forall|s: Seq<u8>| s.len() == 4 implies #[trigger] le32_bytes(le32_value(s)) == s by {
        lemma_bytes_of_le32(s);
    }
}

/// Reads a number from its four bytes, the lowest first.
pub fn read_le32(s: &[u8]) -> (x: u32)
    requires
        s@.len() == 4,
    ensures
        x == le32_value(s@),
{
    let a: u32 = s[0] as u32;
    let b: u32 = s[1] as u32;
    let c: u32 = s[2] as u32;
    let d: u32 = s[3] as u32;
    a + 256 * (b + 256 * (c + 256 * d))
}

/// The four bytes of a number, the lowest first.
pub fn write_le32(x: u32) -> (s: Vec<u8>)
    ensures
        s@ == le32_bytes(x),
{
    let mut out: Vec<u8> = Vec::new();
    out.push((x % 256) as u8);
    out.push(((x / 256) % 256) as u8);
    out.push(((x / 256 / 256) % 256) as u8);
    proof {
        lemma_le32_of_bytes(x);
        assert(x / 256 / 256 / 256 < 256);
    }
    out.push((x / 256 / 256 / 256) as u8);
    assert(out@ =~= le32_bytes(x));
    out
}

/// The longest key that a record may carry: 1 MiB.
pub const MAX_KEY_LEN: usize = 1048576;

/// The longest value that a record may carry: 100 MiB.
pub const MAX_VALUE_LEN: usize = 104857600;

/// The CRC-32 (IEEE) checksum of a byte string.
pub uninterp spec fn crc32_of(data: Seq<u8>) -> u32;

/// `crc32fast::hash`: the CRC-32 (IEEE) checksum of `data`.
#[verifier::external_body]
pub(crate) fn crc32(data: &[u8]) -> (r: u32)
    ensures
        r == crc32_of(data@),
{
    crc32fast::hash(data)
}

/// A payload as it stands in the log: its length and its checksum, each as
/// four little-endian bytes, then the payload.
pub open spec fn frame(payload: Seq<u8>) -> Seq<u8> {
    le32_bytes(payload.len() as u32) + le32_bytes(crc32_of(payload)) + payload
}

/// What stands at the head of a log.
pub enum FrameStep {
    /// Fewer than four bytes are left: the log ends here.
    End,
    /// A record begins, and the log ends inside it.
    Truncated,
    /// A whole record of `size` bytes whose checksum does not match.
    Corrupt { size: nat },
    /// A whole record of `size` bytes that carries `data`.
    Payload { data: Seq<u8>, size: nat },
}

/// Reads the head of `log`.
pub open spec fn frame_head(log: Seq<u8>) -> FrameStep {
    if log.len() < 4 {
        FrameStep::End
    } else if log.len() < 8 {
        FrameStep::Truncated
    } else {
        let len = le32_value(log.subrange(0, 4)) as int;
        let crc = le32_value(log.subrange(4, 8));
        if log.len() - 8 < len {
            FrameStep::Truncated
        } else {
            let data = log.subrange(8, 8 + len);
            if crc32_of(data) == crc {
                FrameStep::Payload { data, size: (8 + len) as nat }
            } else {
                FrameStep::Corrupt { size: (8 + len) as nat }
            }
        }
    }
}

/// The payloads that a log yields, in order: records whose checksum does
/// not match are passed over, and reading stops where the log ends or a
/// record is cut short.
pub open spec fn payloads(log: Seq<u8>) -> Seq<Seq<u8>>
    decreases log.len(),
{
    match frame_head(log) {
        FrameStep::End => Seq::empty(),
        FrameStep::Truncated => Seq::empty(),
        FrameStep::Corrupt { size } => payloads(log.skip(size as int)),
        FrameStep::Payload { data, size } => seq![data] + payloads(log.skip(size as int)),
    }
}

/// A log made of whole records only, with nothing left over at its end.
pub open spec fn whole_records(log: Seq<u8>) -> bool
    decreases log.len(),
{
    match frame_head(log) {
        FrameStep::End => log.len() == 0,
        FrameStep::Truncated => false,
        FrameStep::Corrupt { size } => whole_records(log.skip(size as int)),
        FrameStep::Payload { data, size } => whole_records(log.skip(size as int)),
    }
}

/// The frames of `ps`, one after another.
pub open spec fn frames(ps: Seq<Seq<u8>>) -> Seq<u8>
    decreases ps.len(),
{
    if ps.len() == 0 {
        Seq::empty()
    } else {
        frame(ps[0]) + frames(ps.drop_first())
    }
}

/// A frame at the head of a log is read back as its payload.
pub proof fn lemma_frame_head_of_frame(payload: Seq<u8>, rest: Seq<u8>)
    requires
        payload.len() <= u32::MAX,
    ensures
        frame_head(frame(payload) + rest) == (FrameStep::Payload {
            data: payload,
            size: 8 + payload.len(),
        }),
        (frame(payload) + rest).skip(8 + payload.len() as int) == rest,
        frame(payload).len() == 8 + payload.len(),
{
    lemma_le32();
    let a = le32_bytes(payload.len() as u32);
    let b = le32_bytes(crc32_of(payload));
    let log = frame(payload) + rest;
    assert(log.subrange(0, 4) =~= a);
    assert(log.subrange(4, 8) =~= b);
    assert(log.subrange(8, 8 + payload.len() as int) =~= payload);
    assert(log.skip(8 + payload.len() as int) =~= rest);
}

/// Reading a log that was written frame by frame gives back every payload,
/// in the order of writing.
pub proof fn lemma_payloads_of_frames(ps: Seq<Seq<u8>>)
    requires
        forall|i: int| 0 <= i < ps.len() ==> (#[trigger] ps[i]).len() <= u32::MAX,
    ensures
        payloads(frames(ps)) == ps,
        whole_records(frames(ps)),
    decreases ps.len(),
{
    if ps.len() == 0 {
        assert(payloads(frames(ps)) =~= ps);
    } else {
        let rest = ps.drop_first();
        lemma_payloads_of_frames(rest);
        lemma_frame_head_of_frame(ps[0], frames(rest));
        assert(seq![ps[0]] + rest =~= ps);
    }
}

/// A frame appended to a log of whole records is read back after all the
/// payloads that the log held before.
pub proof fn lemma_payloads_append(log: Seq<u8>, payload: Seq<u8>)
    requires
        whole_records(log),
        payload.len() <= u32::MAX,
    ensures
        payloads(log + frame(payload)) == payloads(log).push(payload),
        whole_records(log + frame(payload)),
    decreases log.len(),
{
    let next = log + frame(payload);
    match frame_head(log) {
        FrameStep::End => {
            assert(log =~= Seq::<u8>::empty());
            assert(next =~= frame(payload) + Seq::<u8>::empty());
            lemma_frame_head_of_frame(payload, Seq::<u8>::empty());
            assert(payloads(Seq::<u8>::empty()) =~= Seq::<Seq<u8>>::empty());
            assert(payloads(next) =~= seq![payload] + Seq::<Seq<u8>>::empty());
            assert(payloads(log).push(payload) =~= seq![payload]);
        },
        FrameStep::Truncated => {},
        FrameStep::Corrupt { size } => {
            assert(next.subrange(0, 4) =~= log.subrange(0, 4));
            assert(next.subrange(4, 8) =~= log.subrange(4, 8));
            assert(next.subrange(8, size as int) =~= log.subrange(8, size as int));
            assert(next.skip(size as int) =~= log.skip(size as int) + frame(payload));
            lemma_payloads_append(log.skip(size as int), payload);
        },
        FrameStep::Payload { data, size } => {
            assert(next.subrange(0, 4) =~= log.subrange(0, 4));
            assert(next.subrange(4, 8) =~= log.subrange(4, 8));
            assert(next.subrange(8, size as int) =~= log.subrange(8, size as int));
            assert(next.skip(size as int) =~= log.skip(size as int) + frame(payload));
            lemma_payloads_append(log.skip(size as int), payload);
            assert(seq![data] + payloads(log.skip(size as int)).push(payload) =~= (seq![data]
                + payloads(log.skip(size as int))).push(payload));
        },
    }
}

/// Frames `payload` for the log.
pub fn encode_frame(payload: &[u8]) -> (r: Vec<u8>)
    requires
        payload@.len() <= u32::MAX,
    ensures
        r@ == frame(payload@),
{
    let mut out = write_le32(payload.len() as u32);
    let mut crc = write_le32(crc32(payload));
    out.append(&mut crc);
    out.extend_from_slice(payload);
    out
}

/// Reads a log's records one after another.
pub struct WalIterator {
    log: Vec<u8>,
    pos: usize,
}

impl WalIterator {
    /// What is left to read.
    pub closed spec fn remaining(&self) -> Seq<u8> {
        self.log@.skip(self.pos as int)
    }

    /// The iterator's invariant: its position lies within the log.
    pub closed spec fn wf(&self) -> bool {
        self.pos <= self.log@.len()
    }

    /// An iterator over the records of `log`, from its start.
    pub fn new(log: Vec<u8>) -> (r: Self)
        ensures
            r.wf(),
            r.remaining() == log@,
    {
        let r = WalIterator { log, pos: 0 };
        assert(r.log@.skip(0) =~= r.log@);
        r
    }

    /// Whether nothing is left to read.
    pub fn is_done(&self) -> (r: bool)
        requires
            self.wf(),
        ensures
            r == (self.remaining().len() == 0),
    {
        self.pos >= self.log.len()
    }

    /// The next record: its payload, `InvalidData` where its checksum does
    /// not match, `UnexpectedEof` where the log ends inside it, and `None`
    /// at the end of the log. After `UnexpectedEof` nothing is left.
    pub fn next(&mut self) -> (r: Option<Result<Vec<u8>, IoErrorKind>>)
        requires
            old(self).wf(),
        ensures
            final(self).wf(),
            match frame_head(old(self).remaining()) {
                FrameStep::End => r is None && final(self).remaining() == old(self).remaining(),
                FrameStep::Truncated => r == Some(
                    Err::<Vec<u8>, IoErrorKind>(IoErrorKind::UnexpectedEof),
                ) && final(self).remaining().len() == 0,
                FrameStep::Corrupt { size } => r == Some(
                    Err::<Vec<u8>, IoErrorKind>(IoErrorKind::InvalidData),
                ) && final(self).remaining() == old(self).remaining().skip(size as int),
                FrameStep::Payload { data, size } => r matches Some(Ok(v)) && v@ == data
                    && final(self).remaining() == old(self).remaining().skip(size as int),
            },
    {
        let ghost rem = self.remaining();
        let total = self.log.len();
        let left = total - self.pos;
        if left < 4 {
            return None;
        }
        if left < 8 {
            self.pos = total;
            return Some(Err(IoErrorKind::UnexpectedEof));
        }
        let len_bytes = slice_subrange(self.log.as_slice(), self.pos, self.pos + 4);
        let crc_bytes = slice_subrange(self.log.as_slice(), self.pos + 4, self.pos + 8);
        assert(len_bytes@ =~= rem.subrange(0, 4));
        assert(crc_bytes@ =~= rem.subrange(4, 8));
        let len = read_le32(len_bytes);
        let expected = read_le32(crc_bytes);
        if ((left - 8) as u64) < (len as u64) {
            self.pos = total;
            return Some(Err(IoErrorKind::UnexpectedEof));
        }
        let start = self.pos + 8;
        let end = start + len as usize;
        let data = slice_subrange(self.log.as_slice(), start, end);
        assert(data@ =~= rem.subrange(8, 8 + len as int));
        let ok = crc32(data) == expected;
        let out = slice_to_vec(data);
        self.pos = end;
        assert(self.remaining() =~= rem.skip(8 + len as int));
        if ok {
            Some(Ok(out))
        } else {
            Some(Err(IoErrorKind::InvalidData))
        }
    }
}

/// The kind of write that a record stands for.
#[derive(Clone, Copy, Debug, PartialEq, Eq, Structural)]
pub enum WalOp {
    Put,
    Delete,
}

/// One write as the log records it.
#[derive(Clone, Debug)]
pub struct WalEntry {
    pub op: WalOp,
    pub key: String,
    pub value: Option<Vec<u8>>,
    pub batch_id: Option<String>,
}

/// A log entry as plain values.
pub struct WalEntryModel {
    pub op: WalOp,
    pub key: Seq<char>,
    pub value: Option<Seq<u8>>,
    pub batch_id: Option<Seq<char>>,
}

impl View for WalEntry {
    type V = WalEntryModel;

    open spec fn view(&self) -> WalEntryModel {
        WalEntryModel {
            op: self.op,
            key: self.key@,
            value: match self.value {
                Some(v) => Some(v@),
                None => None,
            },
            batch_id: match self.batch_id {
                Some(b) => Some(b@),
                None => None,
            },
        }
    }
}

impl WalEntry {
    /// The entry for storing `value` under `key`.
    pub fn put(key: String, value: Vec<u8>, batch_id: Option<&str>) -> (r: Self)
        ensures
            r@ == (WalEntryModel {
                op: WalOp::Put,
                key: key@,
                value: Some(value@),
                batch_id: match batch_id {
                    Some(b) => Some(b@),
                    None => None,
                },
            }),
    {
        let batch_id = match batch_id {
            Some(b) => Some(b.to_owned()),
            None => None,
        };
        WalEntry { op: WalOp::Put, key, value: Some(value), batch_id }
    }

    /// The entry for deleting `key`.
    pub fn delete(key: String, batch_id: Option<&str>) -> (r: Self)
        ensures
            r@ == (WalEntryModel {
                op: WalOp::Delete,
                key: key@,
                value: None,
                batch_id: match batch_id {
                    Some(b) => Some(b@),
                    None => None,
                },
            }),
    {
        let batch_id = match batch_id {
            Some(b) => Some(b.to_owned()),
            None => None,
        };
        WalEntry { op: WalOp::Delete, key, value: None, batch_id }
    }
}

/// The byte that stands for a kind of write.
pub open spec fn op_byte(op: WalOp) -> u8 {
    match op {
        WalOp::Put => 0,
        WalOp::Delete => 1,
    }
}

/// A length as four little-endian bytes.
pub open spec fn le32(n: int) -> Seq<u8> {
    le32_bytes(n as u32)
}

/// The value bytes that an entry's record carries: a put's value, and
/// nothing for a delete.
pub open spec fn value_part(e: WalEntryModel) -> Seq<u8> {
    match (e.op, e.value) {
        (WalOp::Put, Some(v)) => v,
        _ => Seq::empty(),
    }
}

/// The trailing part of a record that names the batch, where there is one.
pub open spec fn batch_part(e: WalEntryModel) -> Seq<u8> {
    match e.batch_id {
        Some(b) => le32(encode_utf8(b).len() as int) + encode_utf8(b),
        None => Seq::empty(),
    }
}

/// An entry's payload: the kind of write, the key and the value, each of
/// the two behind its length, and then the batch where there is one.
pub open spec fn record_bytes(e: WalEntryModel) -> Seq<u8> {
    seq![op_byte(e.op)] + le32(encode_utf8(e.key).len() as int) + encode_utf8(e.key) + le32(
        value_part(e).len() as int,
    ) + value_part(e) + batch_part(e)
}

/// Whether an entry's parts are within the bounds that a record allows.
pub open spec fn record_fits(e: WalEntryModel) -> bool {
    &&& encode_utf8(e.key).len() <= MAX_KEY_LEN
    &&& value_part(e).len() <= MAX_VALUE_LEN
    &&& e.batch_id matches Some(b) ==> encode_utf8(b).len() <= MAX_KEY_LEN
}

/// Whether an entry holds a value exactly where it is a put.
pub open spec fn record_shaped(e: WalEntryModel) -> bool {
    e.op == WalOp::Put <==> e.value is Some
}

/// Reads the batch at the end of a record: `None` where nothing complete
/// stands there.
pub open spec fn decode_batch(t: Seq<u8>) -> Option<Seq<char>> {
    if t.len() < 4 {
        None
    } else {
        let n = le32_value(t.subrange(0, 4)) as int;
        if t.len() - 4 < n {
            None
        } else {
            Some(text_of(t.subrange(4, 4 + n)))
        }
    }
}

/// Reads a payload as an entry: `None` where the kind of write is unknown,
/// a length runs past the payload, or a part is longer than allowed.
pub open spec fn decode_record(p: Seq<u8>) -> Option<WalEntryModel> {
    if p.len() < 5 {
        None
    } else {
        let k_len = le32_value(p.subrange(1, 5)) as int;
        if k_len > MAX_KEY_LEN || p.len() - 5 < k_len {
            None
        } else {
            let key = text_of(p.subrange(5, 5 + k_len));
            let rest = p.skip(5 + k_len);
            if p[0] == 0 {
                if rest.len() < 4 {
                    None
                } else {
                    let v_len = le32_value(rest.subrange(0, 4)) as int;
                    if v_len > MAX_VALUE_LEN || rest.len() - 4 < v_len {
                        None
                    } else {
                        Some(
                            WalEntryModel {
                                op: WalOp::Put,
                                key,
                                value: Some(rest.subrange(4, 4 + v_len)),
                                batch_id: decode_batch(rest.skip(4 + v_len)),
                            },
                        )
                    }
                }
            } else if p[0] == 1 {
                Some(
                    WalEntryModel {
                        op: WalOp::Delete,
                        key,
                        value: None,
                        batch_id: if rest.len() < 4 {
                            None
                        } else {
                            let v_len = le32_value(rest.subrange(0, 4)) as int;
                            if rest.len() - 4 < v_len {
                                None
                            } else {
                                decode_batch(rest.skip(4 + v_len))
                            }
                        },
                    },
                )
            } else {
                None
            }
        }
    }
}

/// Reading the batch part of an entry gives back its batch.
pub proof fn lemma_batch_round_trip(e: WalEntryModel)
    requires
        record_fits(e),
    ensures
        decode_batch(batch_part(e)) == e.batch_id,
{
    lemma_le32();
    match e.batch_id {
        Some(b) => {
            let t = batch_part(e);
            let bytes = encode_utf8(b);
            assert(t.subrange(0, 4) =~= le32(bytes.len() as int));
            assert(t.subrange(4, 4 + bytes.len() as int) =~= bytes);
            lemma_text_of_encoding(b);
        },
        None => {},
    }
}

/// Decoding the payload of an entry gives back the entry.
pub proof fn lemma_record_round_trip(e: WalEntryModel)
    requires
        record_fits(e),
        record_shaped(e),
    ensures
        decode_record(record_bytes(e)) == Some(e),
        record_bytes(e).len() <= u32::MAX,
{
    lemma_le32();
    let p = record_bytes(e);
    let kb = encode_utf8(e.key);
    let vb = value_part(e);
    let bb = batch_part(e);
    let k_len = kb.len() as int;
    let v_len = vb.len() as int;
    assert(p[0] == op_byte(e.op));
    assert(p.subrange(1, 5) =~= le32(k_len));
    assert(p.subrange(5, 5 + k_len) =~= kb);
    lemma_text_of_encoding(e.key);
    let rest = p.skip(5 + k_len);
    assert(rest =~= le32(v_len) + vb + bb);
    assert(rest.subrange(0, 4) =~= le32(v_len));
    assert(rest.subrange(4, 4 + v_len) =~= vb);
    assert(rest.skip(4 + v_len) =~= bb);
    lemma_batch_round_trip(e);
    assert(bb.len() <= 4 + MAX_KEY_LEN) by {
        match e.batch_id {
            Some(b) => {},
            None => {},
        }
    }
}

/// The payload of `entry`, or `None` where a part of it is longer than a
/// record allows.
pub fn encode_record(entry: &WalEntry) -> (r: Option<Vec<u8>>)
    ensures
        match r {
            Some(bytes) => record_fits(entry@) && bytes@ == record_bytes(entry@),
            None => !record_fits(entry@),
        },
{
    let key = entry.key.as_str().as_bytes();
    if key.len() > MAX_KEY_LEN {
        return None;
    }
    let mut out: Vec<u8> = Vec::new();
    match entry.op {
        WalOp::Put => out.push(0u8),
        WalOp::Delete => out.push(1u8),
    }
    let mut k_len = write_le32(key.len() as u32);
    out.append(&mut k_len);
    out.extend_from_slice(key);
    let mut stored = false;
    match (entry.op, &entry.value) {
        (WalOp::Put, Some(v)) => {
            if v.len() > MAX_VALUE_LEN {
                return None;
            }
            let mut v_len = write_le32(v.len() as u32);
            out.append(&mut v_len);
            out.extend_from_slice(v.as_slice());
            stored = true;
        },
        _ => {},
    }
    if !stored {
        let mut v_len = write_le32(0u32);
        out.append(&mut v_len);
        assert(value_part(entry@) =~= Seq::<u8>::empty());
    }
    let ghost head = out@;
    assert(head =~= seq![op_byte(entry.op)] + le32(encode_utf8(entry.key@).len() as int)
        + encode_utf8(entry.key@) + le32(value_part(entry@).len() as int) + value_part(entry@));
    match &entry.batch_id {
        Some(b) => {
            let batch = b.as_str().as_bytes();
            if batch.len() > MAX_KEY_LEN {
                return None;
            }
            let mut b_len = write_le32(batch.len() as u32);
            out.append(&mut b_len);
            out.extend_from_slice(batch);
            assert(out@ =~= head + batch_part(entry@));
        },
        None => {
            assert(out@ =~= head + batch_part(entry@));
        },
    }
    Some(out)
}

/// Reads the batch at the end of a record.
fn decode_batch_bytes(t: &[u8]) -> (r: Option<String>)
    ensures
        match r {
            Some(b) => decode_batch(t@) == Some(b@),
            None => decode_batch(t@) is None,
        },
{
    if t.len() < 4 {
        return None;
    }
    let n = read_le32(slice_subrange(t, 0, 4));
    if ((t.len() - 4) as u64) < (n as u64) {
        return None;
    }
    Some(string_from_utf8_lossy(slice_subrange(t, 4, 4 + n as usize)))
}

/// Reads a payload as an entry.
pub fn decode_record_bytes(payload: &[u8]) -> (r: Option<WalEntry>)
    ensures
        match r {
            Some(e) => decode_record(payload@) == Some(e@),
            None => decode_record(payload@) is None,
        },
{
    if payload.len() < 5 {
        return None;
    }
    let k_len = read_le32(slice_subrange(payload, 1, 5));
    if (k_len as u64) > (MAX_KEY_LEN as u64) || ((payload.len() - 5) as u64) < (k_len as u64) {
        return None;
    }
    let after_key = 5 + k_len as usize;
    let key = string_from_utf8_lossy(slice_subrange(payload, 5, after_key));
    let rest = slice_subrange(payload, after_key, payload.len());
    assert(rest@ =~= payload@.skip(5 + k_len as int));
    let op = payload[0];
    if op == 0 {
        if rest.len() < 4 {
            return None;
        }
        let v_len = read_le32(slice_subrange(rest, 0, 4));
        if (v_len as u64) > (MAX_VALUE_LEN as u64) || ((rest.len() - 4) as u64) < (v_len as u64) {
            return None;
        }
        let after_value = 4 + v_len as usize;
        let value = slice_to_vec(slice_subrange(rest, 4, after_value));
        let tail = slice_subrange(rest, after_value, rest.len());
        assert(tail@ =~= rest@.skip(4 + v_len as int));
        let batch_id = decode_batch_bytes(tail);
        Some(WalEntry { op: WalOp::Put, key, value: Some(value), batch_id })
    } else if op == 1 {
        let mut batch_id: Option<String> = None;
        if rest.len() >= 4 {
            let v_len = read_le32(slice_subrange(rest, 0, 4));
            if ((rest.len() - 4) as u64) >= (v_len as u64) {
                let after_value = 4 + v_len as usize;
                let tail = slice_subrange(rest, after_value, rest.len());
                assert(tail@ =~= rest@.skip(4 + v_len as int));
                batch_id = decode_batch_bytes(tail);
            }
        }
        Some(WalEntry { op: WalOp::Delete, key, value: None, batch_id })
    } else {
        None
    }
}

/// The write-ahead log: a file to which records are only ever appended.
pub struct WriteAheadLog<S: Storage> {
    file: S::File,
    path: String,
}

impl<S: Storage> WriteAheadLog<S> {
    /// The path of the log's file.
    pub closed spec fn path(&self) -> Seq<char> {
        self.path@
    }

    /// The log's invariant: its handle is open on its file.
    pub closed spec fn wf(&self) -> bool {
        S::path_of(&self.file) == self.path@
    }

    /// What the log's file holds, or nothing where the file is gone.
    pub open spec fn content(&self, storage: &S) -> Seq<u8> {
        if storage.files().contains_key(self.path()) {
            storage.files()[self.path()].content
        } else {
            Seq::empty()
        }
    }

    /// Opens the log at `path`, creating an empty one where none is there.
    /// A log that is there is opened by every storage that reads reliably;
    /// whether one can be created is the storage's to say.
    pub fn open(storage: &mut S, path: &str) -> (r: Result<Self, IoErrorKind>)
        requires
            old(storage).wf(),
        ensures
            final(storage).wf(),
            final(storage).reliable() == old(storage).reliable(),
            same_except(old(storage).files(), final(storage).files(), path@),
            old(storage).files().contains_key(path@) ==> final(storage).files() == old(storage).files(),
            r matches Ok(log) ==> log.wf() && log.path() == path@ && final(storage).files().contains_key(path@) && (!old(storage).files().contains_key(path@)
                ==> final(storage).files()[path@].content == Seq::<u8>::empty()),
            old(storage).reliable() && old(storage).files().contains_key(path@) && old(storage).files()[path@].content.len() <= u64::MAX ==> r is Ok,
    {
        let opened = if storage.file_exists(path) {
            storage.open(path)
        } else {
            storage.create(path)
        };
        match opened {
            Ok(file) => {
                let mut file = file;
                match storage.seek(&mut file, SeekFrom::End(0)) {
                    Ok(_) => Ok(WriteAheadLog { file, path: path.to_owned() }),
                    Err(e) => Err(e),
                }
            },
            Err(e) => Err(e),
        }
    }

    /// Appends `data` as one record: its length, its checksum, the data.
    /// Returns once the record is durable. Data longer than a length field
    /// can hold is refused with `InvalidInput`, and nothing is written.
    pub fn append(&mut self, storage: &mut S, data: &[u8]) -> (r: Result<(), IoErrorKind>)
        requires
            old(self).wf(),
            old(storage).wf(),
        ensures
            final(self).wf(),
            final(self).path() == old(self).path(),
            final(storage).wf(),
            final(storage).reliable() == old(storage).reliable(),
            same_except(old(storage).files(), final(storage).files(), old(self).path()),
            final(storage).files().contains_key(old(self).path()) == old(storage).files().contains_key(old(self).path()),
            data@.len() > u32::MAX ==> r == Err::<(), IoErrorKind>(IoErrorKind::InvalidInput)
                && final(storage).files() == old(storage).files(),
            r is Ok ==> old(storage).files().contains_key(old(self).path()) && final(self).content(final(storage)) == old(self).content(old(storage)) + frame(data@),
    {
        if data.len() > u32::MAX as usize {
            assert(same_except(old(storage).files(), storage.files(), self.path()));
            return Err(IoErrorKind::InvalidInput);
        }
        let record = encode_frame(data);
        match storage.seek(&mut self.file, SeekFrom::End(0)) {
            Ok(_) => {},
            Err(e) => {
                assert(same_except(old(storage).files(), storage.files(), self.path()));
                return Err(e);
            },
        }
        proof {
            lemma_written_at_end(old(storage).files()[self.path()].content, record@);
            lemma_le32();
        }
        match write_all(storage, &mut self.file, record.as_slice()) {
            Ok(_) => {},
            Err(e) => {
                return Err(e);
            },
        }
        match storage.sync_all(&self.file) {
            Ok(_) => Ok(()),
            Err(e) => Err(e),
        }
    }

    /// An iterator over the records that the log holds now, from its start.
    pub fn iter(&self, storage: &S) -> (r: Result<WalIterator, IoErrorKind>)
        requires
            self.wf(),
            storage.wf(),
        ensures
            r matches Ok(it) ==> it.wf() && storage.files().contains_key(self.path())
                && it.remaining() == self.content(storage),
            storage.reliable() && storage.files().contains_key(self.path()) ==> r is Ok,
    {
        match storage.open(self.path.as_str()) {
            Ok(file) => {
                let mut file = file;
                match read_to_end(storage, &mut file) {
                    Ok(bytes) => {
                        assert(self.content(storage).skip(0) =~= self.content(storage));
                        Ok(WalIterator::new(bytes))
                    },
                    Err(e) => Err(e),
                }
            },
            Err(e) => Err(e),
        }
    }
}

} // verus!
