//! The wire format of one log record and of a record location.
//!
//! A record is laid out as
//!
//! ```text
//! | type (1) | key len (varint) | value len (varint) | key | value | crc32 (4, big-endian) |
//! ```
//!
//! where the checksum covers every byte before it.
use vstd::prelude::*;

use super::varint::{
    checksum, crc32_of, lemma_varint_len, length_delimiter_size, put_length_delimiter, put_varint,
    lemma_varint_unique, read_varint, starts_with, varint_bytes,
};
use crate::error::{Errors, Result};
use crate::index::keys::has_prefix;

verus! {

/// Where a record lies: the segment that holds it, its offset there and the
/// number of bytes it takes on disk.
#[derive(Clone, Copy, Debug, PartialEq, Eq, Structural)]
pub struct LogRecordPos {
    pub file_id: u32,
    pub offset: u64,
    pub size: u32,
}

#[derive(Clone, Copy, Debug, PartialEq, Eq, Structural)]
pub enum LogRecordType {
    /// A value written by `put`.
    NORMAL,
    /// A tombstone: the key was deleted.
    DELETED,
    /// The marker that closes a committed batch.
    TXNFINISHED,
}

pub struct LogRecord {
    pub key: Vec<u8>,
    pub value: Vec<u8>,
    pub rec_type: LogRecordType,
}

/// A record as read back from a segment, with the bytes it took there.
pub struct ReadLogRecord {
    pub record: LogRecord,
    pub size: usize,
}

/// A record staged by a batch together with the location it was written to.
pub struct TransactionRecord {
    pub record: LogRecord,
    pub pos: LogRecordPos,
}

impl LogRecordType {
    /// The byte that stands for the type on disk.
    pub open spec fn tag(self) -> u8 {
        match self {
            LogRecordType::NORMAL => 1,
            LogRecordType::DELETED => 2,
            LogRecordType::TXNFINISHED => 3,
        }
    }

    pub fn to_tag(&self) -> (r: u8)
        ensures
            r == self.tag(),
    {
        match self {
            LogRecordType::NORMAL => 1,
            LogRecordType::DELETED => 2,
            LogRecordType::TXNFINISHED => 3,
        }
    }
}

/// Reads a type tag; any byte but 1, 2 and 3 is a corrupt record.
pub fn decode_record_type(tag: u8) -> (r: Result<LogRecordType>)
    ensures
        r matches Ok(t) ==> t.tag() == tag,
        r is Err ==> r == Err::<LogRecordType, Errors>(Errors::CorruptRecord),
        r is Ok <==> 1 <= tag <= 3,
{
    match tag {
        1 => Ok(LogRecordType::NORMAL),
        2 => Ok(LogRecordType::DELETED),
        3 => Ok(LogRecordType::TXNFINISHED),
        _ => Err(Errors::CorruptRecord),
    }
}

/// The four bytes of `x`, most significant first.
pub open spec fn be32(x: u32) -> Seq<u8> {
    seq![
        (x / 0x100_0000) as u8,
        ((x / 0x1_0000) % 256) as u8,
        ((x / 256) % 256) as u8,
        (x % 256) as u8,
    ]
}

/// The bytes of a record that the checksum covers.
pub open spec fn record_body(tag: u8, key: Seq<u8>, value: Seq<u8>) -> Seq<u8> {
    seq![tag] + varint_bytes(key.len()) + varint_bytes(value.len()) + key + value
}

/// The full encoding of a record: its body, then the checksum of the body.
pub open spec fn record_bytes(tag: u8, key: Seq<u8>, value: Seq<u8>) -> Seq<u8> {
    let body = record_body(tag, key, value);
    body + be32(crc32_of(body))
}

/// The encoding of a location: three varints.
pub open spec fn pos_bytes(p: LogRecordPos) -> Seq<u8> {
    varint_bytes(p.file_id as nat) + varint_bytes(p.offset as nat) + varint_bytes(p.size as nat)
}

/// Appends the big-endian bytes of `crc` to an encoded record body.
pub fn append_crc(body: Vec<u8>, crc: u32) -> (r: Vec<u8>)
    requires
        body@.len() + 4 <= isize::MAX,
    ensures
        r@ == body@ + be32(crc),
{
    let mut buf = body;
    buf.push((crc / 0x100_0000) as u8);
    buf.push(((crc / 0x1_0000) % 256) as u8);
    buf.push(((crc / 256) % 256) as u8);
    buf.push((crc % 256) as u8);
    assert(buf@ =~= body@ + be32(crc));
    buf
}

impl LogRecord {
    pub open spec fn body_spec(&self) -> Seq<u8> {
        record_body(self.rec_type.tag(), self.key@, self.value@)
    }

    /// The bytes that `encode` produces.
    pub open spec fn encoding(&self) -> Seq<u8> {
        record_bytes(self.rec_type.tag(), self.key@, self.value@)
    }

    /// The record is small enough for its encoding to fit in memory.
    pub open spec fn encodable(&self) -> bool {
        self.key@.len() + self.value@.len() + 25 <= isize::MAX
    }

    pub fn encode(&self) -> (r: Vec<u8>)
        requires
            self.encodable(),
        ensures
            r@ == self.encoding(),
    {
        let (enc_buf, _) = self.encode_and_get_crc();
        enc_buf
    }

    pub fn get_crc(&self) -> (r: u32)
        requires
            self.encodable(),
        ensures
            r == crc32_of(self.body_spec()),
    {
        let (_, crc_value) = self.encode_and_get_crc();
        crc_value
    }

    fn encode_and_get_crc(&self) -> (r: (Vec<u8>, u32))
        requires
            self.encodable(),
        ensures
            r.0@ == self.encoding(),
            r.1 == crc32_of(self.body_spec()),
    {
        proof {
            lemma_varint_len(self.key@.len());
            lemma_varint_len(self.value@.len());
        }
        let mut buf: Vec<u8> = Vec::with_capacity(self.encoded_length());
        buf.push(self.rec_type.to_tag());
        put_length_delimiter(self.key.len(), &mut buf);
        put_length_delimiter(self.value.len(), &mut buf);
        buf.extend_from_slice(self.key.as_slice());
        buf.extend_from_slice(self.value.as_slice());
        assert(buf@ =~= self.body_spec());
        let crc = checksum(buf.as_slice());
        let enc = append_crc(buf, crc);
        (enc, crc)
    }

    fn encoded_length(&self) -> (r: usize)
        requires
            self.encodable(),
        ensures
            r == self.encoding().len(),
    {
        proof {
            lemma_varint_len(self.key@.len());
            lemma_varint_len(self.value@.len());
        }
        1 + length_delimiter_size(self.key.len()) + length_delimiter_size(self.value.len())
            + self.key.len() + self.value.len() + 4
    }
}

impl LogRecordPos {
    pub fn encode(&self) -> (r: Vec<u8>)
        ensures
            r@ == pos_bytes(*self),
    {
        proof {
            lemma_varint_len(self.file_id as nat);
            lemma_varint_len(self.offset as nat);
        }
        let mut buf: Vec<u8> = Vec::new();
        put_varint(self.file_id as u64, &mut buf);
        put_varint(self.offset, &mut buf);
        put_varint(self.size as u64, &mut buf);
        assert(buf@ =~= pos_bytes(*self));
        buf
    }
}

/// Reads back a location written by `LogRecordPos::encode`; bytes after it
/// are left alone. `None` when the bytes do not begin with the encoding of a
/// location: three varints as the encoder writes them, the first and the
/// last below 2^32.
pub fn decode_log_record_pos(pos: Vec<u8>) -> (r: Option<LogRecordPos>)
    ensures
        r is Some <==> exists|p: LogRecordPos| #[trigger] starts_with(pos@, pos_bytes(p)),
        r matches Some(q) ==> starts_with(pos@, pos_bytes(q)),
        forall|p: LogRecordPos| #[trigger] starts_with(pos@, pos_bytes(p)) ==> r == Some(p),
{
    let (fid, rest1) = match read_varint(pos.as_slice()) {
        Ok(x) => x,
        Err(_) => {
            proof {
                assert forall|q: LogRecordPos| !#[trigger] starts_with(pos@, pos_bytes(q)) by {
                    if starts_with(pos@, pos_bytes(q)) {
                        lemma_pos_split(pos@, q);
                    }
                }
            }
            return None;
        },
    };
    let (offset, rest2) = match read_varint(rest1) {
        Ok(x) => x,
        Err(_) => {
            proof {
                assert forall|q: LogRecordPos| !#[trigger] starts_with(pos@, pos_bytes(q)) by {
                    if starts_with(pos@, pos_bytes(q)) {
                        lemma_pos_split(pos@, q);
                    }
                }
            }
            return None;
        },
    };
    let (size, _) = match read_varint(rest2) {
        Ok(x) => x,
        Err(_) => {
            proof {
                assert forall|q: LogRecordPos| !#[trigger] starts_with(pos@, pos_bytes(q)) by {
                    if starts_with(pos@, pos_bytes(q)) {
                        lemma_pos_split(pos@, q);
                    }
                }
            }
            return None;
        },
    };
    if fid > 0xffff_ffff || size > 0xffff_ffff {
        proof {
            assert forall|q: LogRecordPos| !#[trigger] starts_with(pos@, pos_bytes(q)) by {
                if starts_with(pos@, pos_bytes(q)) {
                    lemma_pos_split(pos@, q);
                }
            }
        }
        return None;
    }
    let p = LogRecordPos { file_id: fid as u32, offset, size: size as u32 };
    let enc = p.encode();
    if has_prefix(pos.as_slice(), enc.as_slice()) {
        proof {
            assert forall|q: LogRecordPos| #[trigger] starts_with(pos@, pos_bytes(q)) implies q
                == p by {
                lemma_pos_split(pos@, q);
            }
        }
        Some(p)
    } else {
        proof {
            assert forall|q: LogRecordPos| !#[trigger] starts_with(pos@, pos_bytes(q)) by {
                if starts_with(pos@, pos_bytes(q)) {
                    lemma_pos_split(pos@, q);
                    assert(p == q);
                }
            }
        }
        None
    }
}

/// The three varints of an encoded location, one after the other, at the
/// start of `s`.
proof fn lemma_pos_split(s: Seq<u8>, q: LogRecordPos)
    requires
        starts_with(s, pos_bytes(q)),
    ensures
        starts_with(s, varint_bytes(q.file_id as u64 as nat)),
        starts_with(
            s.subrange(varint_bytes(q.file_id as nat).len() as int, s.len() as int),
            varint_bytes(q.offset as nat),
        ),
        starts_with(
            s.subrange(varint_bytes(q.file_id as nat).len() as int, s.len() as int).subrange(
                varint_bytes(q.offset as nat).len() as int,
                s.len() - varint_bytes(q.file_id as nat).len(),
            ),
            varint_bytes(q.size as u64 as nat),
        ),
{
    let a = varint_bytes(q.file_id as nat);
    let b = varint_bytes(q.offset as nat);
    let c = varint_bytes(q.size as nat);
    let e = pos_bytes(q);
    assert(e =~= a + b + c);
    assert forall|i: int| 0 <= i < e.len() implies s[i] == e[i] by {
        assert(s.subrange(0, e.len() as int)[i] == e[i]);
    }
    let s1 = s.subrange(a.len() as int, s.len() as int);
    let s2 = s1.subrange(b.len() as int, s.len() - a.len());
    assert(s.subrange(0, a.len() as int) =~= a) by {
        assert forall|i: int| 0 <= i < a.len() implies s[i] == a[i] by {
            assert(e[i] == a[i]);
        }
    }
    assert(s1.subrange(0, b.len() as int) =~= b) by {
        assert forall|i: int| 0 <= i < b.len() implies s[a.len() + i] == b[i] by {
            assert(e[a.len() + i] == b[i]);
        }
    }
    assert(s2.subrange(0, c.len() as int) =~= c) by {
        assert forall|i: int| 0 <= i < c.len() implies s[a.len() + b.len() + i] == c[i] by {
            assert(e[a.len() + b.len() + i] == c[i]);
        }
    }
    assert(q.size as u64 as nat == q.size as nat);
    assert(q.file_id as u64 as nat == q.file_id as nat);
}

/// The pieces of a buffer that begins with an encoded record, where a
/// decoder finds them.
proof fn lemma_record_split(b: Seq<u8>, t: LogRecordType, k: Seq<u8>, v: Seq<u8>)
    requires
        k.len() + v.len() + 25 <= isize::MAX,
        starts_with(b, record_bytes(t.tag(), k, v)),
    ensures
        b.len() > 0,
        b[0] == t.tag(),
        starts_with(b.subrange(1, b.len() as int), varint_bytes(k.len() as u64 as nat)),
        starts_with(
            b.subrange(1 + varint_bytes(k.len()).len() as int, b.len() as int),
            varint_bytes(v.len() as u64 as nat),
        ),
        ({
            let h = 1 + varint_bytes(k.len()).len() + varint_bytes(v.len()).len() as int;
            &&& h + k.len() + v.len() + 4 <= b.len()
            &&& b.subrange(h, h + k.len() as int) == k
            &&& b.subrange(h + k.len() as int, h + k.len() + v.len() as int) == v
        }),
{
    let e = record_bytes(t.tag(), k, v);
    let a = varint_bytes(k.len());
    let c = varint_bytes(v.len());
    let h = 1 + a.len() + c.len() as int;
    let e2 = seq![t.tag()] + a + c + k + v + be32(crc32_of(record_body(t.tag(), k, v)));
    assert(e =~= e2);
    assert forall|i: int| 0 <= i < e.len() implies b[i] == e[i] by {
        assert(b.subrange(0, e.len() as int)[i] == e[i]);
    }
    assert(b[0] == e[0]);
    assert(b.subrange(1, b.len() as int).subrange(0, a.len() as int) =~= a) by {
        assert forall|i: int| 0 <= i < a.len() implies b[1 + i] == a[i] by {
            assert(e2[1 + i] == a[i]);
        }
    }
    assert(b.subrange(1 + a.len() as int, b.len() as int).subrange(0, c.len() as int) =~= c) by {
        assert forall|i: int| 0 <= i < c.len() implies b[1 + a.len() + i] == c[i] by {
            assert(e2[1 + a.len() + i] == c[i]);
        }
    }
    assert(b.subrange(h, h + k.len() as int) =~= k) by {
        assert forall|i: int| 0 <= i < k.len() implies b[h + i] == k[i] by {
            assert(e2[h + i] == k[i]);
        }
    }
    assert(b.subrange(h + k.len() as int, h + k.len() + v.len() as int) =~= v) by {
        assert forall|i: int| 0 <= i < v.len() implies b[h + k.len() + i] == v[i] by {
            assert(e2[h + k.len() + i] == v[i]);
        }
    }
    assert(k.len() as u64 as nat == k.len());
    assert(v.len() as u64 as nat == v.len());
}

/// `b` begins with the encoding of the record `(t, k, v)`, one small enough
/// to be held in memory.
pub open spec fn holds_record(b: Seq<u8>, t: LogRecordType, k: Seq<u8>, v: Seq<u8>) -> bool {
    k.len() + v.len() + 25 <= isize::MAX && starts_with(b, record_bytes(t.tag(), k, v))
}

/// After its type byte, `b` begins with the varints of a key length `kl` and
/// a value length `vl`, as the encoder writes them.
pub open spec fn header_at(b: Seq<u8>, kl: u64, vl: u64) -> bool {
    &&& b.len() > 0
    &&& starts_with(b.subrange(1, b.len() as int), varint_bytes(kl as nat))
    &&& starts_with(
        b.subrange(1 + varint_bytes(kl as nat).len() as int, b.len() as int),
        varint_bytes(vl as nat),
    )
}

/// The bytes that the type and the two lengths take.
pub open spec fn header_len(kl: u64, vl: u64) -> int {
    (1 + varint_bytes(kl as nat).len() + varint_bytes(vl as nat).len()) as int
}

/// The encoding of the record that the header of `b` announces: its type
/// byte, and the key and value at the places the two lengths give.
pub open spec fn spelled_record(b: Seq<u8>, kl: u64, vl: u64) -> Seq<u8> {
    let h = header_len(kl, vl);
    record_bytes(b[0], b.subrange(h, h + kl), b.subrange(h + kl, h + kl + vl))
}

/// `b` has a valid type byte and a header, is long enough for the record the
/// header announces, and begins with that record's encoding.
pub open spec fn spells_record(b: Seq<u8>) -> bool {
    &&& b.len() > 0
    &&& 1 <= b[0] <= 3
    &&& exists|kl: u64, vl: u64|
        #[trigger] header_at(b, kl, vl) && header_len(kl, vl) + kl + vl + 4 <= b.len() && kl + vl
            + 25 <= isize::MAX && starts_with(b, spelled_record(b, kl, vl))
}

/// What a buffer that holds a record shows a decoder.
proof fn lemma_record_header(b: Seq<u8>, t: LogRecordType, k: Seq<u8>, v: Seq<u8>)
    requires
        holds_record(b, t, k, v),
    ensures
        b[0] == t.tag(),
        header_at(b, k.len() as u64, v.len() as u64),
        header_len(k.len() as u64, v.len() as u64) + k.len() + v.len() + 4 <= b.len(),
        spelled_record(b, k.len() as u64, v.len() as u64) == record_bytes(t.tag(), k, v),
        b.subrange(
            header_len(k.len() as u64, v.len() as u64),
            header_len(k.len() as u64, v.len() as u64) + k.len(),
        ) == k,
        b.subrange(
            header_len(k.len() as u64, v.len() as u64) + k.len(),
            header_len(k.len() as u64, v.len() as u64) + k.len() + v.len(),
        ) == v,
        spells_record(b),
{
    lemma_record_split(b, t, k, v);
    let kl = k.len() as u64;
    let vl = v.len() as u64;
    assert(kl as nat == k.len() && vl as nat == v.len());
    assert(header_at(b, kl, vl));
}

/// Records do not run into each other: two that both begin `b` are the same.
pub proof fn lemma_record_unique(
    b: Seq<u8>,
    t1: LogRecordType,
    k1: Seq<u8>,
    v1: Seq<u8>,
    t2: LogRecordType,
    k2: Seq<u8>,
    v2: Seq<u8>,
)
    requires
        holds_record(b, t1, k1, v1),
        holds_record(b, t2, k2, v2),
    ensures
        t1 == t2 && k1 == k2 && v1 == v2,
{
    lemma_record_header(b, t1, k1, v1);
    lemma_record_header(b, t2, k2, v2);
    let body = b.subrange(1, b.len() as int);
    lemma_varint_unique(body, k1.len() as u64 as nat, k2.len() as u64 as nat);
    let rest = b.subrange(1 + varint_bytes(k1.len() as u64 as nat).len() as int, b.len() as int);
    lemma_varint_unique(rest, v1.len() as u64 as nat, v2.len() as u64 as nat);
    assert(k1.len() == k2.len() && v1.len() == v2.len());
}

/// A buffer whose header does not announce a record it then holds holds no
/// record at all.
proof fn lemma_no_record(b: Seq<u8>)
    requires
        !spells_record(b),
    ensures
        forall|t: LogRecordType, k: Seq<u8>, v: Seq<u8>| !#[trigger] holds_record(b, t, k, v),
{
    assert forall|t: LogRecordType, k: Seq<u8>, v: Seq<u8>| !#[trigger] holds_record(
        b,
        t,
        k,
        v,
    ) by {
        if holds_record(b, t, k, v) {
            lemma_record_header(b, t, k, v);
        }
    }
}

/// Reads a length at the start of `b`, written as the encoder writes it:
/// the length and the bytes after it. `None` when `b` does not begin so.
fn read_length(b: &[u8]) -> (r: Option<(u64, &[u8])>)
    ensures
        r is None ==> forall|v: u64| !#[trigger] starts_with(b@, varint_bytes(v as nat)),
        r matches Some((x, rest)) ==> starts_with(b@, varint_bytes(x as nat)) && rest@ == b@.subrange(
            varint_bytes(x as nat).len() as int,
            b@.len() as int,
        ),
        r matches Some((x, _)) ==> forall|v: u64|
            #[trigger] starts_with(b@, varint_bytes(v as nat)) ==> v == x,
{
    let (x, rest) = match read_varint(b) {
        Ok(d) => d,
        Err(_) => {
            return None;
        },
    };
    proof {
        lemma_varint_len(x as nat);
    }
    let mut canon: Vec<u8> = Vec::new();
    put_varint(x, &mut canon);
    assert(canon@ =~= varint_bytes(x as nat));
    if has_prefix(b, canon.as_slice()) {
        Some((x, rest))
    } else {
        None
    }
}

/// Reads the record at the start of `buf` and the number of bytes it takes.
///
/// A buffer that begins with the encoding of a record decodes to that record.
/// An empty buffer, or one whose header announces more bytes than it holds,
/// is the end of the file. A bad type tag, a length not written as the encoder
/// writes it, or bytes that differ from the encoding the header announces (a
/// checksum that does not match) make a corrupt record.
#[verifier::spinoff_prover]
#[verifier::rlimit(100)]
pub fn decode_log_record(buf: &[u8]) -> (r: Result<ReadLogRecord>)
    ensures
        r matches Ok(rr) ==> rr.size == rr.record.encoding().len() && rr.record.encodable()
            && starts_with(buf@, rr.record.encoding()),
        forall|t: LogRecordType, k: Seq<u8>, v: Seq<u8>|
            #[trigger] holds_record(buf@, t, k, v) ==> (r matches Ok(rr) && rr.record.rec_type == t
                && rr.record.key@ == k && rr.record.value@ == v),
        buf@.len() == 0 ==> r == Err::<ReadLogRecord, Errors>(Errors::ReadDataFileEOF),
        buf@.len() > 0 && !(1 <= buf@[0] <= 3) ==> r == Err::<ReadLogRecord, Errors>(
            Errors::CorruptRecord,
        ),
        buf@.len() > 0 && 1 <= buf@[0] <= 3 && (forall|kl: u64|
            !#[trigger] starts_with(buf@.subrange(1, buf@.len() as int), varint_bytes(kl as nat)))
            ==> r == Err::<ReadLogRecord, Errors>(Errors::CorruptRecord),
        forall|kl: u64|
            buf@.len() > 0 && 1 <= buf@[0] <= 3 && #[trigger] starts_with(
                buf@.subrange(1, buf@.len() as int),
                varint_bytes(kl as nat),
            ) && (forall|vl: u64|
                !#[trigger] starts_with(
                    buf@.subrange(1 + varint_bytes(kl as nat).len() as int, buf@.len() as int),
                    varint_bytes(vl as nat),
                )) ==> r == Err::<ReadLogRecord, Errors>(Errors::CorruptRecord),
        forall|kl: u64, vl: u64|
            #[trigger] header_at(buf@, kl, vl) && 1 <= buf@[0] <= 3 && buf@.len() < header_len(
                kl,
                vl,
            ) + kl + vl + 4 ==> r == Err::<ReadLogRecord, Errors>(Errors::ReadDataFileEOF),
        forall|kl: u64, vl: u64|
            #[trigger] header_at(buf@, kl, vl) && 1 <= buf@[0] <= 3 && buf@.len() >= header_len(
                kl,
                vl,
            ) + kl + vl + 4 && !(kl + vl + 25 <= isize::MAX && starts_with(
                buf@,
                spelled_record(buf@, kl, vl),
            )) ==> r == Err::<ReadLogRecord, Errors>(Errors::CorruptRecord),
        r is Err ==> r == Err::<ReadLogRecord, Errors>(Errors::ReadDataFileEOF) || r == Err::<
            ReadLogRecord,
            Errors,
        >(Errors::CorruptRecord),
{
    if buf.len() == 0 {
        return Err(Errors::ReadDataFileEOF);
    }
    let rec_type = match decode_record_type(buf[0]) {
        Ok(t) => t,
        Err(e) => {
            proof {
                lemma_no_record(buf@);
            }
            return Err(e);
        },
    };
    let (_, body) = buf.split_at(1);
    let (klen, rest1) = match read_length(body) {
        Some(x) => x,
        None => {
            proof {
                lemma_no_record(buf@);
            }
            return Err(Errors::CorruptRecord);
        },
    };
    assert(rest1@ =~= buf@.subrange(1 + varint_bytes(klen as nat).len() as int, buf@.len() as int));
    let (vlen, rest2) = match read_length(rest1) {
        Some(x) => x,
        None => {
            proof {
                lemma_no_record(buf@);
            }
            return Err(Errors::CorruptRecord);
        },
    };
    let ghost h = header_len(klen, vlen);
    assert(rest2@ =~= buf@.subrange(h, buf@.len() as int));
    assert(header_at(buf@, klen, vlen));
    let avail = rest2.len() as u64;
    if klen > avail || vlen > avail - klen || 4 > avail - klen - vlen {
        proof {
            lemma_no_record(buf@);
        }
        return Err(Errors::ReadDataFileEOF);
    }
    if klen + vlen > (isize::MAX as u64) - 25 {
        proof {
            lemma_no_record(buf@);
        }
        return Err(Errors::CorruptRecord);
    }
    let (key_s, rest3) = rest2.split_at(klen as usize);
    let (value_s, _) = rest3.split_at(vlen as usize);
    let record = LogRecord {
        key: vstd::slice::slice_to_vec(key_s),
        value: vstd::slice::slice_to_vec(value_s),
        rec_type,
    };
    assert(key_s@ =~= buf@.subrange(h, h + klen));
    assert(value_s@ =~= buf@.subrange(h + klen, h + klen + vlen));
    assert(record.encoding() == spelled_record(buf@, klen, vlen));
    let enc = record.encode();
    if !has_prefix(buf, enc.as_slice()) {
        proof {
            lemma_no_record(buf@);
        }
        return Err(Errors::CorruptRecord);
    }
    let size = enc.len();
    proof {
        assert forall|t: LogRecordType, k: Seq<u8>, v: Seq<u8>|
            #[trigger] holds_record(buf@, t, k, v) implies record.rec_type == t && record.key@ == k
            && record.value@ == v by {
            lemma_record_header(buf@, t, k, v);
            assert(starts_with(body@, varint_bytes((k.len() as u64) as nat)));
            assert(k.len() as u64 == klen);
            assert(starts_with(rest1@, varint_bytes((v.len() as u64) as nat)));
            assert(v.len() as u64 == vlen);
        }
    }
    Ok(ReadLogRecord { record, size })
}

/// The most bytes that a record's type and two lengths can take.
pub fn max_log_record_header_size() -> (r: usize)
    ensures
        r == 11,
{
    proof {
        reveal_with_fuel(varint_bytes, 6);
    }
    1 + length_delimiter_size(0xffff_ffff) + length_delimiter_size(0xffff_ffff)
}

} // verus!
