//! One append-only segment of the log: a storage medium and a write cursor.
use crate::data::{
    body_bytes, bytes_from, decode_header, decode_spec, header_window, lemma_decode_encode,
    lemma_header_bytes, LogRecord, LogRecordStatus, MAX_HEADER_SIZE,
};
use crate::errors::Errors;
use crate::io::IoManager;
use vstd::prelude::*;

verus! {

/// The decimal digit `d` as a character.
pub open spec fn digit_char(d: nat) -> char {
    ((d + 48) as u8) as char
}

/// The last `width` decimal digits of `n`, most significant first.
pub open spec fn decimal_digits(n: nat, width: nat) -> Seq<char>
    decreases width,
{
    if width == 0 {
        Seq::empty()
    } else {
        decimal_digits(n / 10, (width - 1) as nat) + seq![digit_char(n % 10)]
    }
}

/// `n` in decimal, padded with zeros to at least nine digits.
pub open spec fn padded_id(n: u32) -> Seq<char> {
    if n < 1_000_000_000 {
        decimal_digits(n as nat, 9)
    } else {
        decimal_digits(n as nat, 10)
    }
}

/// `name` joined under the directory `dir`, with one separator between them.
pub open spec fn join_path(dir: Seq<char>, name: Seq<char>) -> Seq<char> {
    if dir.len() == 0 {
        name
    } else if dir.last() == '/' {
        dir + name
    } else {
        dir + seq!['/'] + name
    }
}

/// The name of the data file with id `file_id` in `dir`.
pub open spec fn data_file_name(dir: Seq<char>, file_id: u32) -> Seq<char> {
    join_path(dir, padded_id(file_id) + seq!['.', 'd', 'a', 't', 'a'])
}

/// Relies on std's `String::push`: appends one character.
#[verifier::external_body]
fn push_char(s: &mut String, c: char)
    ensures
        final(s)@ == old(s)@.push(c),
{
    s.push(c)
}

/// Relies on std's `String::push_str`: appends the characters of `t`.
#[verifier::external_body]
fn push_str(s: &mut String, t: &str)
    ensures
        final(s)@ == old(s)@ + t@,
{
    s.push_str(t)
}

fn push_digits(s: &mut String, n: u32, width: usize)
    ensures
        final(s)@ == old(s)@ + decimal_digits(n as nat, width as nat),
    decreases width,
{
    if width > 0 {
        push_digits(s, n / 10, width - 1);
        let d: u8 = (n % 10) as u8;
        push_char(s, (d + 48) as char);
        assert(s@ == old(s)@ + decimal_digits(n as nat, width as nat));
    }
}

pub struct DataFile<IO: IoManager> {
    pub file_id: u32,
    pub write_offset: u32,
    pub io_manager: IO,
}

impl<IO: IoManager> DataFile<IO> {
    /// A data file over `io_manager`, its cursor at the start.
    pub fn new(file_id: u32, io_manager: IO) -> (r: Self)
        ensures
            r.file_id == file_id,
            r.write_offset == 0,
            r.io_manager == io_manager,
    {
        DataFile { file_id, write_offset: 0, io_manager }
    }

    /// The on-disk name of data file `file_id` in `dir_path`: the id as a
    /// zero-padded nine-digit decimal number, then `.data`.
    pub fn get_file_name(dir_path: &str, file_id: u32) -> (r: String)
        ensures
            r@ == data_file_name(dir_path@, file_id),
    {
        let mut name = String::new();
        push_str(&mut name, dir_path);
        let n = dir_path.unicode_len();
        if n > 0 && dir_path.get_char(n - 1) != '/' {
            push_char(&mut name, '/');
        }
        if file_id < 1_000_000_000 {
            push_digits(&mut name, file_id, 9);
        } else {
            push_digits(&mut name, file_id, 10);
        }
        push_str(&mut name, ".data");
        proof {
            reveal_strlit(".data");
        }
        name
    }

    /// Appends the record's encoding and advances the cursor by its length,
    /// which it returns.
    pub fn write(&mut self, lg: &LogRecord) -> (r: Result<usize, Errors>)
        requires
            lg.encodable(),
            old(self).write_offset + lg.encoded().len() <= u32::MAX,
        ensures
            final(self).file_id == old(self).file_id,
            final(self).io_manager.accepts_writes() == old(self).io_manager.accepts_writes(),
            final(self).io_manager.infallible() == old(self).io_manager.infallible(),
            match r {
                Ok(n) => n == lg.encoded().len() && final(self).write_offset == old(self).write_offset + n
                    && final(self).io_manager.contents() == old(self).io_manager.contents() + lg.encoded(),
                Err(e) => final(self).write_offset == old(self).write_offset && if old(self).io_manager.accepts_writes() {
                    e == Errors::IoFailure && !old(self).io_manager.infallible()
                } else {
                    e == Errors::Unsupported && final(self).io_manager.contents() == old(self).io_manager.contents()
                },
            },
    {
        let bytes = lg.encode();
        let size = match self.io_manager.write(bytes.as_slice()) {
            Ok(n) => n,
            Err(e) => return Err(e),
        };
        self.write_offset = self.write_offset + size as u32;
        Ok(size)
    }

    /// Reads the record that starts at `offset`: the header first (at most
    /// the longest header's bytes, fewer near the end of the medium), then
    /// key and value. Gives what `decode_spec` gives for the bytes from
    /// `offset` on, unless the medium itself fails.
    #[verifier::rlimit(60)]
    pub fn read(&self, offset: u64) -> (r: Result<(LogRecord, usize), Errors>)
        ensures
            r == Err::<(LogRecord, usize), Errors>(Errors::IoFailure) && !self.io_manager.infallible() || match decode_spec(
                bytes_from(self.io_manager.contents(), offset as int),
            ) {
                Ok((status, key, val, n)) => r matches Ok((rec, m)) && rec.status == status
                    && rec.key@ == key && rec.val@ == val && m == n,
                Err(e) => r == Err::<(LogRecord, usize), Errors>(e),
            },
    {
        let ghost s = bytes_from(self.io_manager.contents(), offset as int);
        let size = match self.io_manager.size() {
            Ok(n) => n,
            Err(e) => return Err(e),
        };
        if offset >= size {
            assert(header_window(s).len() == 0);
            return Err(Errors::ReadDataFileEOF);
        }
        let avail: u64 = size - offset;
        let hl: usize = if avail < MAX_HEADER_SIZE as u64 { avail as usize } else { MAX_HEADER_SIZE };
        let mut hb: Vec<u8> = vec![0u8; hl];
        match self.io_manager.read(&mut hb, offset) {
            Ok(_) => {},
            Err(e) => return Err(e),
        }
        assert(s == self.io_manager.contents().subrange(offset as int, size as int));
        assert(hb@ == header_window(s));
        proof {
            lemma_header_bytes(hb@);
        }
        let (header, h) = match decode_header(hb.as_slice()) {
            Ok(p) => p,
            Err(e) => return Err(e),
        };
        let ks = header.key_size;
        let vs = header.val_size;
        if ks as u64 > avail - h as u64 || vs as u64 > avail - h as u64 - ks as u64
            || ks > usize::MAX - h || vs > usize::MAX - h - ks {
            return Err(Errors::OutOfBounds);
        }
        let mut body: Vec<u8> = vec![0u8; ks + vs];
        match self.io_manager.read(&mut body, offset + h as u64) {
            Ok(_) => {},
            Err(e) => return Err(e),
        }
        proof {
            let total = (h + ks + vs) as int;
            assert(s.subrange(4, total) == hb@.subrange(4, h as int) + body@);
            assert(body@.subrange(0, ks as int) == s.subrange(h as int, h + ks));
            assert(body@.subrange(ks as int, body@.len() as int) == s.subrange(h + ks, total));
            let key = body@.subrange(0, ks as int);
            let val = body@.subrange(ks as int, body@.len() as int);
            assert(body@ == key + val);
            assert(body_bytes(header.status, key, val) == s.subrange(4, total));
        }
        LogRecord::check_body(&header, h, body.as_slice())
    }
}

/// Three records written one after another to an empty data file read back
/// whole, each at the offset where its write began and with the length that
/// its write reported.
pub proof fn lemma_sequential_write_read(r1: LogRecord, r2: LogRecord, r3: LogRecord)
    requires
        r1.valid(),
        r2.valid(),
        r3.valid(),
    ensures
        ({
            let contents = r1.encoded() + r2.encoded() + r3.encoded();
            let o2 = r1.encoded().len();
            let o3 = o2 + r2.encoded().len();
            &&& decode_spec(bytes_from(contents, 0)) == Ok::<(LogRecordStatus, Seq<u8>, Seq<u8>, nat), Errors>(
                (r1.status, r1.key@, r1.val@, r1.encoded().len()))
            &&& decode_spec(bytes_from(contents, o2 as int)) == Ok::<(LogRecordStatus, Seq<u8>, Seq<u8>, nat), Errors>(
                (r2.status, r2.key@, r2.val@, r2.encoded().len()))
            &&& decode_spec(bytes_from(contents, o3 as int)) == Ok::<(LogRecordStatus, Seq<u8>, Seq<u8>, nat), Errors>(
                (r3.status, r3.key@, r3.val@, r3.encoded().len()))
        }),
{
    let (e1, e2, e3) = (r1.encoded(), r2.encoded(), r3.encoded());
    let contents = e1 + e2 + e3;
    assert(bytes_from(contents, 0) == e1 + (e2 + e3));
    assert(bytes_from(contents, e1.len() as int) == e2 + e3);
    assert(bytes_from(contents, (e1.len() + e2.len()) as int) == e3 + Seq::<u8>::empty());
    lemma_decode_encode(r1.status, r1.key@, r1.val@, e2 + e3);
    lemma_decode_encode(r2.status, r2.key@, r2.val@, e3);
    lemma_decode_encode(r3.status, r3.key@, r3.val@, Seq::<u8>::empty());
}

} // verus!
