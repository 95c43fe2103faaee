//! The write-ahead-log record format.
//!
//! Each record is laid out on disk as, in order and big-endian:
//! one operation byte (`0x01` put, `0x02` delete), a four-byte CRC-32
//! checksum, an eight-byte key length, an eight-byte value length, the key
//! bytes (UTF-8), and the value bytes. The checksum covers everything except
//! itself: op, key length, value length, key bytes, value bytes.
//!
//! [`encode_record`] produces exactly this layout; [`recover_records`] walks
//! a whole log image from offset zero and either returns every record or
//! fails on the first corruption, exactly as [`spec_recover`] says.

use vstd::prelude::*;
use vstd::slice::{slice_subrange, slice_to_vec};
use vstd::string::StringSliceAdditionalSpecFns;
use vstd::utf8::{decode_utf8, encode_utf8, valid_utf8};

use crate::endian::{
    lemma_u32_be_round_trip, lemma_u64_be_round_trip, spec_u32_from_be_bytes,
    spec_u32_to_be_bytes, spec_u64_from_be_bytes, spec_u64_to_be_bytes, u32_from_be_bytes,
    u32_to_be_bytes, u64_from_be_bytes, u64_to_be_bytes,
};

verus! {

broadcast use vstd::utf8::group_utf8_lib;

/// Operation byte of a put record.
pub const OP_PUT: u8 = 0x01;

/// Operation byte of a delete record.
pub const OP_DELETE: u8 = 0x02;

/// Offset of the key bytes within an encoded record: one op byte, four
/// checksum bytes, and two eight-byte length fields come first.
pub const RECORD_HEADER_LEN: usize = 21;

/// A single logical entry stored in the log.
#[derive(Debug, Clone)]
pub enum WalRecord {
    Put { key: String, value: Vec<u8> },
    Delete { key: String },
}

/// The mathematical shape of a record: the key as characters, the value as
/// bytes.
#[verifier::ext_equal]
pub enum RecordModel {
    Put { key: Seq<char>, value: Seq<u8> },
    Delete { key: Seq<char> },
}

impl View for WalRecord {
    type V = RecordModel;

    open spec fn view(&self) -> RecordModel {
        match self {
            WalRecord::Put { key, value } => RecordModel::Put { key: key@, value: value@ },
            WalRecord::Delete { key } => RecordModel::Delete { key: key@ },
        }
    }
}

/// The models of a sequence of records.
pub open spec fn models(rs: Seq<WalRecord>) -> Seq<RecordModel> {
    rs.map_values(|r: WalRecord| r@)
}

/// Operation byte of a record.
pub open spec fn rec_op(r: RecordModel) -> u8 {
    match r {
        RecordModel::Put { .. } => OP_PUT,
        RecordModel::Delete { .. } => OP_DELETE,
    }
}

/// Key of a record.
pub open spec fn rec_key(r: RecordModel) -> Seq<char> {
    match r {
        RecordModel::Put { key, .. } => key,
        RecordModel::Delete { key } => key,
    }
}

/// Value carried by a record; a delete carries none.
pub open spec fn rec_value(r: RecordModel) -> Seq<u8> {
    match r {
        RecordModel::Put { value, .. } => value,
        RecordModel::Delete { .. } => Seq::empty(),
    }
}

/// The key of a record as it is stored: UTF-8 bytes.
pub open spec fn rec_key_bytes(r: RecordModel) -> Seq<u8> {
    encode_utf8(rec_key(r))
}

/// A record whose key and value lengths fit their eight-byte fields.
pub open spec fn valid_record(r: RecordModel) -> bool {
    rec_key_bytes(r).len() < 0x1_0000_0000_0000_0000 && rec_value(r).len()
        < 0x1_0000_0000_0000_0000
}

/// Every record of the sequence is valid.
pub open spec fn valid_records(rs: Seq<RecordModel>) -> bool {
    forall|i: int| 0 <= i < rs.len() ==> valid_record(#[trigger] rs[i])
}

/// What crc32fast computes: the CRC-32 checksum of a byte sequence.
pub uninterp spec fn crc32_of(data: Seq<u8>) -> u32;

/// The checksummed bytes for the given parts: op byte, both length fields,
/// key bytes, value bytes — everything of a record except the checksum.
pub open spec fn spec_body_bytes(op: u8, kb: Seq<u8>, vb: Seq<u8>) -> Seq<u8> {
    seq![op] + spec_u64_to_be_bytes(kb.len() as u64) + spec_u64_to_be_bytes(vb.len() as u64) + kb
        + vb
}

/// The full on-disk bytes for the given parts: the checksum follows the op
/// byte and covers [`spec_body_bytes`].
pub open spec fn spec_frame_bytes(op: u8, kb: Seq<u8>, vb: Seq<u8>) -> Seq<u8> {
    seq![op] + spec_u32_to_be_bytes(crc32_of(spec_body_bytes(op, kb, vb)))
        + spec_u64_to_be_bytes(kb.len() as u64) + spec_u64_to_be_bytes(vb.len() as u64) + kb + vb
}

/// The checksummed portion of a record's encoding.
pub open spec fn spec_record_body(r: RecordModel) -> Seq<u8> {
    spec_body_bytes(rec_op(r), rec_key_bytes(r), rec_value(r))
}

/// The full on-disk encoding of one record.
pub open spec fn spec_encode_record(r: RecordModel) -> Seq<u8> {
    spec_frame_bytes(rec_op(r), rec_key_bytes(r), rec_value(r))
}

/// The on-disk encoding of a record sequence: records in order, back to
/// back, with nothing between or after them.
pub open spec fn spec_encode_records(rs: Seq<RecordModel>) -> Seq<u8>
    decreases rs.len(),
{
    if rs.len() == 0 {
        Seq::empty()
    } else {
        spec_encode_record(rs[0]) + spec_encode_records(rs.drop_first())
    }
}

/// Ways reading the log back can fail.
#[derive(Debug, Clone, Copy, PartialEq, Eq, Structural)]
pub enum WalError {
    /// A read fell short: the file ended inside a record.
    Io,
    /// A stored checksum disagrees with the one recomputed over the record.
    ChecksumMismatch { expected: u32, actual: u32 },
    /// The operation byte is neither put nor delete.
    UnknownOperation(u8),
    /// The stored key bytes are not valid UTF-8.
    InvalidKey,
}

/// What recovering a log image yields: every decoded record in file order,
/// or the failure met first. End of input at a record boundary is success;
/// end of input anywhere inside a record is [`WalError::Io`].
pub open spec fn spec_recover(bytes: Seq<u8>) -> Result<Seq<RecordModel>, WalError>
    decreases bytes.len(),
{
    if bytes.len() == 0 {
        Ok(Seq::empty())
    } else {
        let op = bytes[0];
        if op != OP_PUT && op != OP_DELETE {
            Err(WalError::UnknownOperation(op))
        } else if bytes.len() < 21 {
            Err(WalError::Io)
        } else {
            let stored = spec_u32_from_be_bytes(bytes.subrange(1, 5));
            let klen = spec_u64_from_be_bytes(bytes.subrange(5, 13)) as int;
            let vlen = spec_u64_from_be_bytes(bytes.subrange(13, 21)) as int;
            if bytes.len() < 21 + klen + vlen {
                Err(WalError::Io)
            } else {
                let kb = bytes.subrange(21, 21 + klen);
                let vb = bytes.subrange(21 + klen, 21 + klen + vlen);
                let computed = crc32_of(seq![op] + bytes.subrange(5, 21) + kb + vb);
                if stored != computed {
                    Err(WalError::ChecksumMismatch { expected: stored, actual: computed })
                } else if !valid_utf8(kb) {
                    Err(WalError::InvalidKey)
                } else {
                    let rec = if op == OP_PUT {
                        RecordModel::Put { key: decode_utf8(kb), value: vb }
                    } else {
                        RecordModel::Delete { key: decode_utf8(kb) }
                    };
                    match spec_recover(bytes.skip(21 + klen + vlen)) {
                        Ok(rest) => Ok(seq![rec] + rest),
                        Err(e) => Err(e),
                    }
                }
            }
        }
    }
}

/// Relies on crc32fast::hash: the CRC-32 (IEEE) checksum of the input, a
/// pure function of the bytes alone.
#[verifier::external_body]
fn crc32(data: &[u8]) -> (r: u32)
    ensures
        r == crc32_of(data@),
{
    crc32fast::hash(data)
}

/// Relies on String::from_utf8: it succeeds exactly on valid UTF-8 and then
/// returns the decoded characters, per vstd's model of UTF-8.
#[verifier::external_body]
fn string_from_utf8(bytes: Vec<u8>) -> (r: Option<String>)
    ensures
        r is Some <==> valid_utf8(bytes@),
        r matches Some(s) ==> s@ == decode_utf8(bytes@),
{
    String::from_utf8(bytes).ok()
}

/// Encode one record exactly as it is laid out on disk.
pub fn encode_record(record: &WalRecord) -> (r: Vec<u8>)
    ensures
        r@ == spec_encode_record(record@),
        valid_record(record@),
{
    match record {
        WalRecord::Put { key, value } => encode_parts(OP_PUT, key.as_str(), value.as_slice()),
        WalRecord::Delete { key } => {
            let none: Vec<u8> = Vec::new();
            encode_parts(OP_DELETE, key.as_str(), none.as_slice())
        },
    }
}

/// Build the frame for one record from its raw parts.
fn encode_parts(op: u8, key: &str, value: &[u8]) -> (r: Vec<u8>)
    ensures
        r@ == spec_frame_bytes(op, encode_utf8(key@), value@),
        encode_utf8(key@).len() <= usize::MAX,
        value@.len() <= usize::MAX,
{
    let kb = key.as_bytes();
    let klen: u64 = kb.len() as u64;
    let vlen: u64 = value.len() as u64;

    let mut body: Vec<u8> = Vec::new();
    body.push(op);
    let mut f = u64_to_be_bytes(klen);
    body.append(&mut f);
    let mut f = u64_to_be_bytes(vlen);
    body.append(&mut f);
    let mut f = slice_to_vec(kb);
    body.append(&mut f);
    let mut f = slice_to_vec(value);
    body.append(&mut f);
    assert(body@ =~= spec_body_bytes(op, encode_utf8(key@), value@));

    let checksum = crc32(body.as_slice());

    let mut r: Vec<u8> = Vec::new();
    r.push(op);
    let mut f = u32_to_be_bytes(checksum);
    r.append(&mut f);
    let mut f = u64_to_be_bytes(klen);
    r.append(&mut f);
    let mut f = u64_to_be_bytes(vlen);
    r.append(&mut f);
    let mut f = slice_to_vec(kb);
    r.append(&mut f);
    let mut f = slice_to_vec(value);
    r.append(&mut f);
    assert(r@ =~= spec_frame_bytes(op, encode_utf8(key@), value@));
    r
}

/// The records still to be parsed from `rest`, appended to those already
/// accumulated.
spec fn spec_recover_from(rest: Seq<u8>, acc: Seq<RecordModel>) -> Result<
    Seq<RecordModel>,
    WalError,
> {
    match spec_recover(rest) {
        Ok(rs) => Ok(acc + rs),
        Err(e) => Err(e),
    }
}

proof fn lemma_skip_subrange(s: Seq<u8>, off: int, a: int, b: int)
    requires
        0 <= off,
        0 <= a <= b,
        off + b <= s.len(),
    ensures
        s.skip(off).subrange(a, b) == s.subrange(off + a, off + b),
{
    assert(s.skip(off).subrange(a, b) =~= s.subrange(off + a, off + b));
}

proof fn lemma_skip_skip(s: Seq<u8>, a: int, b: int)
    requires
        0 <= a,
        0 <= b,
        a + b <= s.len(),
    ensures
        s.skip(a).skip(b) == s.skip(a + b),
{
    assert(s.skip(a).skip(b) =~= s.skip(a + b));
}

proof fn lemma_cont_step(
    rest: Seq<u8>,
    rest2: Seq<u8>,
    acc: Seq<RecordModel>,
    rec: RecordModel,
)
    requires
        spec_recover(rest) == (match spec_recover(rest2) {
            Ok(q) => Ok::<Seq<RecordModel>, WalError>(seq![rec] + q),
            Err(e) => Err::<Seq<RecordModel>, WalError>(e),
        }),
    ensures
        spec_recover_from(rest, acc) == spec_recover_from(rest2, acc.push(rec)),
{
    match spec_recover(rest2) {
        Ok(q) => {
            assert(acc + (seq![rec] + q) =~= acc.push(rec) + q);
        },
        Err(_) => {},
    }
}

/// Decode a whole log image, starting at offset zero.
///
/// Returns every record when the image ends exactly at a record boundary,
/// and the first failure otherwise: an unknown op byte, a short read inside
/// a record, a checksum mismatch, or an invalid key — exactly as
/// [`spec_recover`] classifies the bytes.
pub fn recover_records(bytes: &[u8]) -> (r: Result<Vec<WalRecord>, WalError>)
    ensures
        match r {
            Ok(recs) => spec_recover(bytes@) == Ok::<Seq<RecordModel>, WalError>(models(recs@)),
            Err(e) => spec_recover(bytes@) == Err::<Seq<RecordModel>, WalError>(e),
        },
{
    let mut records: Vec<WalRecord> = Vec::new();
    let n = bytes.len();
    let mut off: usize = 0;
    proof {
        assert(bytes@.skip(0) =~= bytes@);
        assert(models(records@) =~= Seq::<RecordModel>::empty());
        match spec_recover(bytes@) {
            Ok(rs) => {
                assert(models(records@) + rs =~= rs);
            },
            Err(_) => {},
        }
    }
    while off < n
        invariant
            off <= n,
            n == bytes@.len(),
            spec_recover(bytes@) == spec_recover_from(bytes@.skip(off as int), models(records@)),
        decreases n - off,
    {
        let ghost rest = bytes@.skip(off as int);
        proof {
            assert(rest.len() == n - off);
            assert(rest[0] == bytes@[off as int]);
        }
        let op = bytes[off];
        if op != OP_PUT && op != OP_DELETE {
            proof {
                assert(spec_recover(rest) == Err::<Seq<RecordModel>, WalError>(
                    WalError::UnknownOperation(op),
                ));
            }
            return Err(WalError::UnknownOperation(op));
        }
        if n - off < RECORD_HEADER_LEN {
            proof {
                assert(spec_recover(rest) == Err::<Seq<RecordModel>, WalError>(WalError::Io));
            }
            return Err(WalError::Io);
        }
        let stored = u32_from_be_bytes(slice_subrange(bytes, off + 1, off + 5));
        let klen64 = u64_from_be_bytes(slice_subrange(bytes, off + 5, off + 13));
        let vlen64 = u64_from_be_bytes(slice_subrange(bytes, off + 13, off + 21));
        proof {
            lemma_skip_subrange(bytes@, off as int, 1, 5);
            lemma_skip_subrange(bytes@, off as int, 5, 13);
            lemma_skip_subrange(bytes@, off as int, 13, 21);
            lemma_skip_subrange(bytes@, off as int, 5, 21);
        }
        let ghost sklen = spec_u64_from_be_bytes(rest.subrange(5, 13)) as int;
        let ghost svlen = spec_u64_from_be_bytes(rest.subrange(13, 21)) as int;
        let avail: usize = n - off - RECORD_HEADER_LEN;
        if klen64 > avail as u64 {
            proof {
                assert(rest.len() < 21 + sklen + svlen);
                assert(spec_recover(rest) == Err::<Seq<RecordModel>, WalError>(WalError::Io));
            }
            return Err(WalError::Io);
        }
        let klen: usize = klen64 as usize;
        if vlen64 > (avail - klen) as u64 {
            proof {
                assert(rest.len() < 21 + sklen + svlen);
                assert(spec_recover(rest) == Err::<Seq<RecordModel>, WalError>(WalError::Io));
            }
            return Err(WalError::Io);
        }
        let vlen: usize = vlen64 as usize;
        let key_start = off + RECORD_HEADER_LEN;
        let key_end = key_start + klen;
        let val_end = key_end + vlen;
        proof {
            lemma_skip_subrange(bytes@, off as int, 21, 21 + sklen);
            lemma_skip_subrange(bytes@, off as int, 21 + sklen, 21 + sklen + svlen);
        }
        let kb = slice_to_vec(slice_subrange(bytes, key_start, key_end));
        let vb = slice_to_vec(slice_subrange(bytes, key_end, val_end));

        let mut payload: Vec<u8> = Vec::new();
        payload.push(op);
        let mut f = slice_to_vec(slice_subrange(bytes, off + 5, off + 21));
        payload.append(&mut f);
        let mut f = slice_to_vec(slice_subrange(bytes, key_start, key_end));
        payload.append(&mut f);
        let mut f = slice_to_vec(slice_subrange(bytes, key_end, val_end));
        payload.append(&mut f);
        proof {
            assert(payload@ =~= seq![op] + rest.subrange(5, 21) + rest.subrange(21, 21 + sklen)
                + rest.subrange(21 + sklen, 21 + sklen + svlen));
        }
        let computed = crc32(payload.as_slice());
        if computed != stored {
            proof {
                assert(spec_recover(rest) == Err::<Seq<RecordModel>, WalError>(
                    WalError::ChecksumMismatch { expected: stored, actual: computed },
                ));
            }
            return Err(WalError::ChecksumMismatch { expected: stored, actual: computed });
        }
        let key = match string_from_utf8(kb) {
            Some(s) => s,
            None => {
                proof {
                    assert(spec_recover(rest) == Err::<Seq<RecordModel>, WalError>(
                        WalError::InvalidKey,
                    ));
                }
                return Err(WalError::InvalidKey);
            },
        };
        let record = if op == OP_PUT {
            WalRecord::Put { key, value: vb }
        } else {
            WalRecord::Delete { key }
        };
        let ghost acc0 = models(records@);
        let ghost rest2 = bytes@.skip(val_end as int);
        proof {
            lemma_skip_skip(bytes@, off as int, 21 + sklen + svlen);
            assert(rest.skip(21 + sklen + svlen) == rest2);
            assert(spec_recover(rest) == (match spec_recover(rest2) {
                Ok(q) => Ok::<Seq<RecordModel>, WalError>(seq![record@] + q),
                Err(e) => Err::<Seq<RecordModel>, WalError>(e),
            }));
            lemma_cont_step(rest, rest2, acc0, record@);
        }
        records.push(record);
        proof {
            assert(models(records@) =~= acc0.push(record@));
        }
        off = val_end;
    }
    proof {
        assert(bytes@.skip(off as int) =~= Seq::<u8>::empty());
        assert(spec_recover(Seq::<u8>::empty()) == Ok::<Seq<RecordModel>, WalError>(
            Seq::empty(),
        ));
        assert(models(records@) + Seq::<RecordModel>::empty() =~= models(records@));
    }
    Ok(records)
}

/// Parsing one encoded record ahead of arbitrary further bytes consumes
/// exactly that record and continues with the rest.
proof fn lemma_recover_one(r: RecordModel, rest: Seq<u8>)
    requires
        valid_record(r),
    ensures
        spec_recover(spec_encode_record(r) + rest) == (match spec_recover(rest) {
            Ok(q) => Ok::<Seq<RecordModel>, WalError>(seq![r] + q),
            Err(e) => Err::<Seq<RecordModel>, WalError>(e),
        }),
{
    let enc = spec_encode_record(r);
    let s = enc + rest;
    let op = rec_op(r);
    let kb = rec_key_bytes(r);
    let vb = rec_value(r);
    let klen = kb.len() as int;
    let vlen = vb.len() as int;
    let crc = crc32_of(spec_record_body(r));
    assert(enc.len() == 21 + klen + vlen);
    assert(s[0] == op);
    assert(op == OP_PUT || op == OP_DELETE);
    assert(s.subrange(1, 5) =~= spec_u32_to_be_bytes(crc));
    assert(s.subrange(5, 13) =~= spec_u64_to_be_bytes(kb.len() as u64));
    assert(s.subrange(13, 21) =~= spec_u64_to_be_bytes(vb.len() as u64));
    assert(s.subrange(21, 21 + klen) =~= kb);
    assert(s.subrange(21 + klen, 21 + klen + vlen) =~= vb);
    lemma_u32_be_round_trip(crc);
    lemma_u64_be_round_trip(kb.len() as u64);
    lemma_u64_be_round_trip(vb.len() as u64);
    assert(spec_u64_from_be_bytes(s.subrange(5, 13)) as int == klen);
    assert(spec_u64_from_be_bytes(s.subrange(13, 21)) as int == vlen);
    assert(seq![op] + s.subrange(5, 21) + s.subrange(21, 21 + klen) + s.subrange(
        21 + klen,
        21 + klen + vlen,
    ) =~= spec_record_body(r));
    assert(valid_utf8(kb));
    assert(decode_utf8(kb) == rec_key(r));
    assert(s.skip(21 + klen + vlen) =~= rest);
    let parsed = if op == OP_PUT {
        RecordModel::Put { key: decode_utf8(s.subrange(21, 21 + klen)), value: s.subrange(
            21 + klen,
            21 + klen + vlen,
        ) }
    } else {
        RecordModel::Delete { key: decode_utf8(s.subrange(21, 21 + klen)) }
    };
    assert(parsed == r);
}

/// Parsing the encodings of `rs` ahead of arbitrary further bytes yields
/// `rs` followed by whatever the further bytes yield.
proof fn lemma_recover_encodings_with_tail(rs: Seq<RecordModel>, tail: Seq<u8>)
    requires
        valid_records(rs),
    ensures
        spec_recover(spec_encode_records(rs) + tail) == (match spec_recover(tail) {
            Ok(q) => Ok::<Seq<RecordModel>, WalError>(rs + q),
            Err(e) => Err::<Seq<RecordModel>, WalError>(e),
        }),
    decreases rs.len(),
{
    if rs.len() == 0 {
        assert(spec_encode_records(rs) + tail =~= tail);
        match spec_recover(tail) {
            Ok(q) => {
                assert(rs + q =~= q);
            },
            Err(_) => {},
        }
    } else {
        let r0 = rs[0];
        let rest = rs.drop_first();
        assert(valid_records(rest));
        lemma_recover_encodings_with_tail(rest, tail);
        lemma_recover_one(r0, spec_encode_records(rest) + tail);
        assert(spec_encode_records(rs) + tail =~= spec_encode_record(r0) + (spec_encode_records(
            rest,
        ) + tail));
        match spec_recover(tail) {
            Ok(q) => {
                assert(seq![r0] + (rest + q) =~= rs + q);
            },
            Err(_) => {},
        }
    }
}

/// Clean-shutdown recovery: a log that ends exactly at a record boundary
/// recovers to precisely the records that were appended, in order.
pub proof fn lemma_recover_clean_log(rs: Seq<RecordModel>)
    requires
        valid_records(rs),
    ensures
        spec_recover(spec_encode_records(rs)) == Ok::<Seq<RecordModel>, WalError>(rs),
{
    lemma_recover_encodings_with_tail(rs, Seq::empty());
    assert(spec_encode_records(rs) + Seq::<u8>::empty() =~= spec_encode_records(rs));
    assert(rs + Seq::<RecordModel>::empty() =~= rs);
}

/// Round trip for one record: encoding it and recovering the bytes yields
/// that record and nothing else.
#[verifier::rlimit(50)]
pub proof fn lemma_record_round_trip(r: RecordModel)
    requires
        valid_record(r),
    ensures
        spec_recover(spec_encode_record(r)) == Ok::<Seq<RecordModel>, WalError>(seq![r]),
{
    lemma_recover_clean_log(seq![r]);
    assert(seq![r].drop_first() =~= Seq::<RecordModel>::empty());
    assert(spec_encode_records(seq![r].drop_first()) == Seq::<u8>::empty());
    assert(spec_encode_record(r) + Seq::<u8>::empty() =~= spec_encode_record(r));
    assert(spec_encode_records(seq![r]) == spec_encode_record(r));
}

/// A log truncated inside its last record fails to recover with a short
/// read: recovery never invents or returns a partial record.
pub proof fn lemma_recover_truncated_tail(rs: Seq<RecordModel>, r: RecordModel, cut: int)
    requires
        valid_records(rs),
        valid_record(r),
        0 < cut < spec_encode_record(r).len(),
    ensures
        spec_recover(spec_encode_records(rs) + spec_encode_record(r).take(cut)) == Err::<
            Seq<RecordModel>,
            WalError,
        >(WalError::Io),
{
    let enc = spec_encode_record(r);
    let part = enc.take(cut);
    let op = rec_op(r);
    let kb = rec_key_bytes(r);
    let vb = rec_value(r);
    let klen = kb.len() as int;
    let vlen = vb.len() as int;
    assert(enc.len() == 21 + klen + vlen);
    assert(part[0] == op);
    assert(op == OP_PUT || op == OP_DELETE);
    if cut < 21 {
        assert(spec_recover(part) == Err::<Seq<RecordModel>, WalError>(WalError::Io));
    } else {
        assert(part.subrange(5, 13) =~= enc.subrange(5, 13));
        assert(part.subrange(13, 21) =~= enc.subrange(13, 21));
        assert(enc.subrange(5, 13) =~= spec_u64_to_be_bytes(kb.len() as u64));
        assert(enc.subrange(13, 21) =~= spec_u64_to_be_bytes(vb.len() as u64));
        lemma_u64_be_round_trip(kb.len() as u64);
        lemma_u64_be_round_trip(vb.len() as u64);
        assert(part.len() < 21 + klen + vlen);
        assert(spec_recover(part) == Err::<Seq<RecordModel>, WalError>(WalError::Io));
    }
    lemma_recover_encodings_with_tail(rs, part);
}

} // verus!
