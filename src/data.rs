//! Log records and their durable byte layout:
//! crc (4 bytes, little-endian) | status (1 byte) | key size | value size | key | value,
//! the two sizes being minimal LEB128 integers and the crc a CRC-32 over all
//! bytes after it.
use crate::errors::Errors;
use crate::varint::{
    get_varint, leb128, leb128_prefix, lemma_leb128_len, lemma_length_field_round_trip,
    lemma_prefix_is_encoding, length_field, put_varint, varint_len, MAX_VARINT_LEN,
};
use vstd::prelude::*;

verus! {

/// The longest header: crc, status and two five-byte length fields.
pub const MAX_HEADER_SIZE: usize = 15;

/// The CRC-32 (IEEE) checksum of a byte sequence.
pub uninterp spec fn crc32_of(bytes: Seq<u8>) -> u32;

/// Relies on crc32fast::hash: the standard CRC-32 of the bytes, which depends
/// on the bytes alone.
#[verifier::external_body]
fn checksum(bytes: &[u8]) -> (r: u32)
    ensures
        r == crc32_of(bytes@),
{
    crc32fast::hash(bytes)
}

#[derive(Clone, Copy, Debug, PartialEq, Eq, Structural)]
pub enum LogRecordStatus {
    Normal,
    Deleted,
}

impl LogRecordStatus {
    /// The status byte written for this status.
    pub open spec fn byte(self) -> u8 {
        match self {
            LogRecordStatus::Normal => 1,
            LogRecordStatus::Deleted => 2,
        }
    }

    pub fn to_byte(self) -> (r: u8)
        ensures
            r == self.byte(),
    {
        match self {
            LogRecordStatus::Normal => 1,
            LogRecordStatus::Deleted => 2,
        }
    }

    /// The status that a status byte stands for; any byte but 1 and 2 is a
    /// format violation.
    pub fn from_byte(b: u8) -> (r: Result<LogRecordStatus, Errors>)
        ensures
            match r {
                Ok(s) => s.byte() == b,
                Err(e) => e == Errors::InvalidLogRecordStatus && b != 1 && b != 2,
            },
    {
        if b == 1 {
            Ok(LogRecordStatus::Normal)
        } else if b == 2 {
            Ok(LogRecordStatus::Deleted)
        } else {
            Err(Errors::InvalidLogRecordStatus)
        }
    }
}

impl Default for LogRecordStatus {
    fn default() -> (r: Self)
        ensures
            r == LogRecordStatus::Normal,
    {
        LogRecordStatus::Normal
    }
}

/// The status that a valid status byte stands for.
pub open spec fn status_of(b: u8) -> LogRecordStatus {
    if b == 1 {
        LogRecordStatus::Normal
    } else {
        LogRecordStatus::Deleted
    }
}

/// Four bytes holding `c`, least significant first.
pub open spec fn le_bytes(c: u32) -> Seq<u8> {
    seq![(c % 256) as u8, (c / 256 % 256) as u8, (c / 65536 % 256) as u8, (c / 16777216) as u8]
}

/// The integer that four bytes hold, least significant first.
pub open spec fn le_value(b: Seq<u8>) -> u32 {
    (b[0] + 256 * b[1] + 65536 * b[2] + 16777216 * b[3]) as u32
}

/// Everything after the crc: status byte, the two sizes, key and value.
pub open spec fn body_bytes(status: LogRecordStatus, key: Seq<u8>, val: Seq<u8>) -> Seq<u8> {
    seq![status.byte()] + leb128(key.len()) + leb128(val.len()) + key + val
}

/// The full encoding of a record: the crc of the body, then the body.
pub open spec fn record_bytes(status: LogRecordStatus, key: Seq<u8>, val: Seq<u8>) -> Seq<u8> {
    le_bytes(crc32_of(body_bytes(status, key, val))) + body_bytes(status, key, val)
}

/// What a header holds: crc, status, key size, value size and the header's
/// own length; or why the bytes are no header.
pub open spec fn header_of(hb: Seq<u8>) -> Result<(u32, LogRecordStatus, nat, nat, nat), Errors> {
    let short = if hb.len() < MAX_HEADER_SIZE {
        Errors::ReadDataFileEOF
    } else {
        Errors::InvalidLogRecordLength
    };
    if hb.len() < 5 {
        Err(Errors::ReadDataFileEOF)
    } else if hb[4] != 1 && hb[4] != 2 {
        Err(Errors::InvalidLogRecordStatus)
    } else {
        match length_field(hb.subrange(5, hb.len() as int)) {
            None => Err(short),
            Some((ks, lk)) => match length_field(hb.subrange(5 + lk as int, hb.len() as int)) {
                None => Err(short),
                Some((vs, lv)) => if ks == 0 || vs == 0 {
                    Err(Errors::ReadDataFileEOF)
                } else {
                    Ok((le_value(hb.subrange(0, 4)), status_of(hb[4]), ks, vs, 5 + lk + lv))
                },
            },
        }
    }
}

/// The header bytes that a reader takes from `s`: at most the longest header.
pub open spec fn header_window(s: Seq<u8>) -> Seq<u8> {
    if s.len() < MAX_HEADER_SIZE {
        s
    } else {
        s.subrange(0, MAX_HEADER_SIZE as int)
    }
}

/// What decoding the bytes `s` (from the record's first byte to the end of
/// the medium) gives: status, key, value and the bytes consumed, or the error.
pub open spec fn decode_spec(s: Seq<u8>) -> Result<(LogRecordStatus, Seq<u8>, Seq<u8>, nat), Errors> {
    match header_of(header_window(s)) {
        Err(e) => Err(e),
        Ok((crc, status, ks, vs, h)) => {
            let (h, ks, vs) = (h as int, ks as int, vs as int);
            if h + ks + vs > s.len() || h + ks + vs > usize::MAX {
            Err(Errors::OutOfBounds)
        } else if crc != crc32_of(s.subrange(4, h + ks + vs)) {
            Err(Errors::InvalidLogRecordCRC)
        } else {
            Ok((status, s.subrange(h, h + ks), s.subrange(h + ks, h + ks + vs), (h + ks + vs) as nat))
        }},
    }
}

/// Where a record's encoding lives: its data file, its offset there and its length.
#[derive(Clone, Copy, Debug, PartialEq, Eq, Structural)]
pub struct LogRecordPos {
    pub file_id: u32,
    pub offset: u32,
    pub data_size: u32,
}

#[derive(Debug)]
pub struct LogRecordHeader {
    pub crc: u32,
    pub status: LogRecordStatus,
    pub key_size: usize,
    pub val_size: usize,
}

#[derive(Clone, Debug, PartialEq, Eq)]
pub struct LogRecord {
    pub key: Vec<u8>,
    pub val: Vec<u8>,
    pub status: LogRecordStatus,
}

/// Appends the bytes of `src` to `out`.
pub(crate) fn append_bytes(out: &mut Vec<u8>, src: &[u8])
    ensures
        final(out)@ == old(out)@ + src@,
{
    let ghost start = out@;
    let mut i: usize = 0;
    while i < src.len()
        invariant
            i <= src@.len(),
            out@ == start + src@.subrange(0, i as int),
        decreases src@.len() - i,
    {
        out.push(src[i]);
        i = i + 1;
        assert(src@.subrange(0, i as int) == src@.subrange(0, i - 1) + seq![src@[i - 1]]);
    }
    assert(src@.subrange(0, src@.len() as int) == src@);
}

/// Appends `c` as four bytes, least significant first.
fn append_le_u32(out: &mut Vec<u8>, c: u32)
    ensures
        final(out)@ == old(out)@ + le_bytes(c),
{
    out.push((c % 256) as u8);
    out.push((c / 256 % 256) as u8);
    out.push((c / 65536 % 256) as u8);
    out.push((c / 16777216) as u8);
}

/// Reads the four bytes of `b` from `pos` as an integer, least significant first.
fn read_le_u32(b: &[u8], pos: usize) -> (r: u32)
    requires
        pos + 4 <= b@.len(),
    ensures
        r == le_value(b@.subrange(pos as int, pos + 4)),
{
    let ghost w = b@.subrange(pos as int, pos + 4);
    assert(w[0] == b@[pos as int] && w[1] == b@[pos + 1] && w[2] == b@[pos + 2] && w[3] == b@[pos + 3]);
    b[pos] as u32 + 256 * (b[pos + 1] as u32) + 65536 * (b[pos + 2] as u32) + 16777216 * (b[pos + 3] as u32)
}

proof fn lemma_le_round_trip(c: u32)
    ensures
        le_value(le_bytes(c)) == c,
{
    let b = le_bytes(c);
    assert(b[0] == c % 256 && b[1] == c / 256 % 256 && b[2] == c / 65536 % 256 && b[3] == c / 16777216);
    assert(c % 256 + 256 * (c / 256 % 256) + 65536 * (c / 65536 % 256) + 16777216 * (c / 16777216) == c)
        by (nonlinear_arith);
}

impl LogRecord {
    /// Both lengths fit in a length field, and the whole encoding in memory.
    pub open spec fn encodable(&self) -> bool {
        &&& self.key@.len() <= u32::MAX
        &&& self.val@.len() <= u32::MAX
        &&& self.encoded().len() <= usize::MAX
    }

    /// A record that can be written and read back: non-empty key and value.
    pub open spec fn valid(&self) -> bool {
        self.encodable() && self.key@.len() > 0 && self.val@.len() > 0
    }

    pub open spec fn encoded(&self) -> Seq<u8> {
        record_bytes(self.status, self.key@, self.val@)
    }

    pub open spec fn body(&self) -> Seq<u8> {
        body_bytes(self.status, self.key@, self.val@)
    }

    pub fn max_log_record_header_size() -> (r: usize)
        ensures
            r == 4 + 1 + 2 * MAX_VARINT_LEN,
    {
        4 + 1 + 2 * MAX_VARINT_LEN
    }

    /// The durable encoding of the record.
    pub fn encode(&self) -> (r: Vec<u8>)
        requires
            self.encodable(),
        ensures
            r@ == self.encoded(),
    {
        self.encode_ret_crc().0
    }

    /// The checksum stored in the record's encoding.
    pub fn crc(&self) -> (r: u32)
        requires
            self.encodable(),
        ensures
            r == crc32_of(self.body()),
    {
        self.encode_ret_crc().1
    }

    fn encode_ret_crc(&self) -> (r: (Vec<u8>, u32))
        requires
            self.encodable(),
        ensures
            r.0@ == self.encoded(),
            r.1 == crc32_of(self.body()),
    {
        let mut body: Vec<u8> = Vec::new();
        body.push(self.status.to_byte());
        put_varint(&mut body, self.key.len() as u32);
        put_varint(&mut body, self.val.len() as u32);
        append_bytes(&mut body, self.key.as_slice());
        append_bytes(&mut body, self.val.as_slice());
        assert(body@ == self.body());
        let crc = checksum(body.as_slice());
        let mut out: Vec<u8> = Vec::new();
        append_le_u32(&mut out, crc);
        append_bytes(&mut out, body.as_slice());
        (out, crc)
    }

    /// The length of the record's encoding.
    pub fn encoded_length(&self) -> (r: usize)
        requires
            self.encodable(),
        ensures
            r == self.encoded().len(),
    {
        4 + 1 + varint_len(self.key.len() as u32) + varint_len(self.val.len() as u32)
            + self.key.len() + self.val.len()
    }

    /// Decodes the record at the front of `bytes`, which run from the record's
    /// first byte to the end of the medium.
    pub fn decode(bytes: &[u8]) -> (r: Result<(LogRecord, usize), Errors>)
        ensures
            match decode_spec(bytes@) {
                Ok((status, key, val, n)) => r matches Ok((rec, m)) && rec.status == status
                    && rec.key@ == key && rec.val@ == val && m == n,
                Err(e) => r == Err::<(LogRecord, usize), Errors>(e),
            },
    {
        let hl: usize = if bytes.len() < MAX_HEADER_SIZE { bytes.len() } else { MAX_HEADER_SIZE };
        let hb = &bytes[0..hl];
        assert(hb@ == header_window(bytes@));
        proof {
            lemma_header_bytes(hb@);
        }
        let (header, h) = match decode_header(hb) {
            Ok(p) => p,
            Err(e) => return Err(e),
        };
        let ks = header.key_size;
        let vs = header.val_size;
        if ks > bytes.len() - h || vs > bytes.len() - h - ks {
            return Err(Errors::OutOfBounds);
        }
        let body = &bytes[h..h + ks + vs];
        proof {
            let s = bytes@;
            assert(s.subrange(4, (h + ks + vs) as int) == hb@.subrange(4, h as int) + body@);
            assert(body@.subrange(0, ks as int) == s.subrange(h as int, h + ks));
            assert(body@.subrange(ks as int, body@.len() as int) == s.subrange(h + ks, h + ks + vs));
            let key = body@.subrange(0, ks as int);
            let val = body@.subrange(ks as int, body@.len() as int);
            assert(body@ == key + val);
            assert(body_bytes(header.status, key, val) == s.subrange(4, (h + ks + vs) as int));
        }
        Self::check_body(&header, h, body)
    }

    /// Builds the record from its key and value bytes and checks it against
    /// the crc of the header.
    pub(crate) fn check_body(header: &LogRecordHeader, h: usize, body: &[u8]) -> (r: Result<(LogRecord, usize), Errors>)
        requires
            body@.len() == header.key_size + header.val_size,
            header.key_size <= u32::MAX,
            header.val_size <= u32::MAX,
            h == 5 + leb128(header.key_size as nat).len() + leb128(header.val_size as nat).len(),
            h + body@.len() <= usize::MAX,
        ensures
            ({
                let key = body@.subrange(0, header.key_size as int);
                let val = body@.subrange(header.key_size as int, body@.len() as int);
                if header.crc == crc32_of(body_bytes(header.status, key, val)) {
                    r matches Ok((rec, m)) && rec.status == header.status && rec.key@ == key
                        && rec.val@ == val && m == h + body@.len()
                } else {
                    r == Err::<(LogRecord, usize), Errors>(Errors::InvalidLogRecordCRC)
                }
            }),
    {
        let ks = header.key_size;
        let mut key: Vec<u8> = Vec::new();
        append_bytes(&mut key, &body[0..ks]);
        let mut val: Vec<u8> = Vec::new();
        append_bytes(&mut val, &body[ks..body.len()]);
        let rec = LogRecord { key, val, status: header.status };
        if header.crc != rec.crc() {
            return Err(Errors::InvalidLogRecordCRC);
        }
        Ok((rec, h + body.len()))
    }
}

/// Parses a header from `hb`: exactly what `header_of` gives.
pub fn decode_header(hb: &[u8]) -> (r: Result<(LogRecordHeader, usize), Errors>)
    ensures
        match header_of(hb@) {
            Ok((crc, status, ks, vs, h)) => r matches Ok((hd, m)) && hd.crc == crc && hd.status == status
                && hd.key_size == ks && hd.val_size == vs && m == h,
            Err(e) => r == Err::<(LogRecordHeader, usize), Errors>(e),
        },
        r matches Ok((hd, m)) ==> hd.key_size <= u32::MAX && hd.val_size <= u32::MAX
            && m == 5 + leb128(hd.key_size as nat).len() + leb128(hd.val_size as nat).len(),
{
    let n = hb.len();
    if n < 5 {
        return Err(Errors::ReadDataFileEOF);
    }
    let status = match LogRecordStatus::from_byte(hb[4]) {
        Ok(st) => st,
        Err(e) => return Err(e),
    };
    let short = if n < MAX_HEADER_SIZE { Errors::ReadDataFileEOF } else { Errors::InvalidLogRecordLength };
    let ghost s1 = hb@.subrange(5, n as int);
    let (ks, lk) = match get_varint(hb, 5) {
        Some(p) => p,
        None => {
            assert(length_field(s1) is None);
            return Err(short);
        },
    };
    assert(length_field(s1) == Some((ks as nat, lk as nat)));
    let ghost s2 = hb@.subrange(5 + lk as int, n as int);
    let (vs, lv) = match get_varint(hb, 5 + lk) {
        Some(p) => p,
        None => {
            assert(length_field(s2) is None);
            return Err(short);
        },
    };
    assert(length_field(s2) == Some((vs as nat, lv as nat)));
    if ks == 0 || vs == 0 {
        return Err(Errors::ReadDataFileEOF);
    }
    let crc = read_le_u32(hb, 0);
    proof {
        lemma_header_bytes(hb@);
    }
    Ok((LogRecordHeader { crc, status, key_size: ks as usize, val_size: vs as usize }, 5 + lk + lv))
}

/// The bytes of the medium `c` from `offset` to its end.
pub open spec fn bytes_from(c: Seq<u8>, offset: int) -> Seq<u8> {
    if 0 <= offset <= c.len() {
        c.subrange(offset, c.len() as int)
    } else {
        Seq::empty()
    }
}

/// The bytes of a parsed header after the crc are the status byte and the two
/// minimal length fields.
pub(crate) proof fn lemma_header_bytes(hb: Seq<u8>)
    ensures
        header_of(hb) matches Ok((crc, status, ks, vs, h)) ==> h <= hb.len()
            && ks <= u32::MAX && vs <= u32::MAX
            && h == 5 + leb128(ks).len() + leb128(vs).len()
            && hb.subrange(4, h as int) == seq![status.byte()] + leb128(ks) + leb128(vs),
{
    if let Ok((crc, status, ks, vs, h)) = header_of(hb) {
        let s1 = hb.subrange(5, hb.len() as int);
        lemma_prefix_is_encoding(s1, MAX_VARINT_LEN as nat);
        let lk = leb128_prefix(s1, MAX_VARINT_LEN as nat).unwrap().1;
        let s2 = hb.subrange(5 + lk as int, hb.len() as int);
        lemma_prefix_is_encoding(s2, MAX_VARINT_LEN as nat);
        let lv = leb128_prefix(s2, MAX_VARINT_LEN as nat).unwrap().1;
        assert(hb.subrange(4, h as int) == seq![hb[4]] + s1.subrange(0, lk as int) + s2.subrange(0, lv as int));
        assert(status.byte() == hb[4]);
    }
}

/// How a header that was written by the encoder reads back, whatever follows it.
proof fn lemma_header_of_written(c4: Seq<u8>, status: LogRecordStatus, ks: nat, vs: nat, rest: Seq<u8>)
    requires
        c4.len() == 4,
        ks <= u32::MAX,
        vs <= u32::MAX,
    ensures
        header_of(header_window(c4 + seq![status.byte()] + leb128(ks) + leb128(vs) + rest)) == if ks == 0
            || vs == 0 {
            Err::<(u32, LogRecordStatus, nat, nat, nat), Errors>(Errors::ReadDataFileEOF)
        } else {
            Ok((le_value(c4), status, ks, vs, 5 + leb128(ks).len() + leb128(vs).len()))
        },
{
    lemma_leb128_len(ks);
    lemma_leb128_len(vs);
    let lk = leb128(ks).len();
    let lv = leb128(vs).len();
    let s = c4 + seq![status.byte()] + leb128(ks) + leb128(vs) + rest;
    let hw = header_window(s);
    assert(hw.len() >= 5 + lk + lv);
    assert(hw[4] == status.byte());
    let tail1 = hw.subrange(5 + lk as int, hw.len() as int);
    assert(hw.subrange(5, hw.len() as int) == leb128(ks) + tail1);
    lemma_length_field_round_trip(ks, tail1);
    let tail2 = hw.subrange(5 + lk + lv as int, hw.len() as int);
    assert(tail1 == leb128(vs) + tail2);
    lemma_length_field_round_trip(vs, tail2);
    assert(hw.subrange(0, 4) == c4);
    assert(status_of(status.byte()) == status);
}

/// Decoding the encoding of a record with a non-empty key and value gives the
/// record back and consumes exactly its encoding, whatever bytes follow it.
pub proof fn lemma_decode_encode(status: LogRecordStatus, key: Seq<u8>, val: Seq<u8>, rest: Seq<u8>)
    requires
        0 < key.len() <= u32::MAX,
        0 < val.len() <= u32::MAX,
        record_bytes(status, key, val).len() <= usize::MAX,
    ensures
        decode_spec(record_bytes(status, key, val) + rest) == Ok::<
            (LogRecordStatus, Seq<u8>, Seq<u8>, nat),
            Errors,
        >((status, key, val, record_bytes(status, key, val).len())),
{
    let body = body_bytes(status, key, val);
    let c4 = le_bytes(crc32_of(body));
    let s = record_bytes(status, key, val) + rest;
    let h = 5 + leb128(key.len()).len() + leb128(val.len()).len();
    let total = h + key.len() + val.len();
    assert(s == c4 + seq![status.byte()] + leb128(key.len()) + leb128(val.len()) + (key + val + rest));
    lemma_header_of_written(c4, status, key.len(), val.len(), key + val + rest);
    lemma_le_round_trip(crc32_of(body));
    assert(s.subrange(4, total as int) == body);
    assert(s.subrange(h as int, h + key.len() as int) == key);
    assert(s.subrange(h + key.len() as int, total as int) == val);
}

/// A decode succeeds only where the checksum stored in the first four bytes
/// equals the CRC-32 of every byte after it up to the record's end.
pub proof fn lemma_decoded_checksum_matches(s: Seq<u8>)
    requires
        decode_spec(s) is Ok,
    ensures
        ({
            let n = decode_spec(s)->Ok_0.3;
            4 <= n <= s.len() && le_value(s.subrange(0, 4)) == crc32_of(s.subrange(4, n as int))
        }),
{
    let hw = header_window(s);
    lemma_header_bytes(hw);
    assert(hw.subrange(0, 4) == s.subrange(0, 4));
}

/// A header that declares an empty key or an empty value marks the end of
/// the log, whatever its checksum and whatever bytes follow it.
pub proof fn lemma_empty_field_ends_log(c4: Seq<u8>, status: LogRecordStatus, key_size: nat, val_size: nat, rest: Seq<u8>)
    requires
        c4.len() == 4,
        key_size <= u32::MAX,
        val_size <= u32::MAX,
        key_size == 0 || val_size == 0,
    ensures
        decode_spec(c4 + seq![status.byte()] + leb128(key_size) + leb128(val_size) + rest)
            == Err::<(LogRecordStatus, Seq<u8>, Seq<u8>, nat), Errors>(Errors::ReadDataFileEOF),
{
    lemma_header_of_written(c4, status, key_size, val_size, rest);
}

} // verus!
