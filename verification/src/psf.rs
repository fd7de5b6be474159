//! Decoder for PSF parameter files: a header, a table of index records, a
//! table of NUL-terminated key names and a table of values.

use crate::chars::string_from_utf8;
use crate::clock::Timestamp;
use vstd::prelude::*;
use vstd::utf8::{decode_utf8, encode_utf8, valid_utf8};

verus! {

/// The first four bytes of every PSF file, read as a big-endian number.
pub const PSF_MAGIC: u32 = 0x00505346;

/// Format version 1.1.
pub const PSF_VERSION_1_1: u32 = 0x00000101;

/// Format version 1.0.
pub const PSF_VERSION_1_0: u32 = 0x00000100;

/// Format tag of a value of raw bytes.
pub const FORMAT_BINARY: u16 = 0x0400;

/// Format tag of a value of NUL-terminated UTF-8 text.
pub const FORMAT_TEXT: u16 = 0x0402;

/// Format tag of a signed 32-bit integer.
pub const FORMAT_INTEGER: u16 = 0x0404;

/// The size of the file header in bytes.
pub const HEADER_LEN: usize = 20;

/// The size of one index record in bytes.
pub const INDEX_ENTRY_LEN: usize = 16;

/// The size of an integer value in bytes.
pub const INTEGER_LEN: usize = 4;

/// The value of one entry.
#[derive(Clone, Debug, PartialEq, Eq)]
pub enum Value {
    Binary(Vec<u8>),
    Text(String),
    Integer(i32),
}

/// A [`Value`] as a mathematical value.
pub enum ValueView {
    Binary(Seq<u8>),
    Text(Seq<char>),
    Integer(i32),
}

impl View for Value {
    type V = ValueView;

    open spec fn view(&self) -> ValueView {
        match self {
            Value::Binary(bytes) => ValueView::Binary(bytes@),
            Value::Text(text) => ValueView::Text(text@),
            Value::Integer(n) => ValueView::Integer(*n),
        }
    }
}

/// Why a file could not be decoded. Each kind carries the raw value that was
/// refused.
#[derive(Clone, Debug, PartialEq, Eq)]
pub enum Error {
    /// The file ends before the bytes that the decoder has to read.
    UnexpectedEof,
    /// The header does not start with [`PSF_MAGIC`]; holds what it starts
    /// with.
    InvalidMagicCode(u32),
    /// The header names a version that is not supported.
    InvalidVersion(u32),
    /// An index record names a format tag that is not known.
    InvalidEntryFormat(u16),
    /// A key or a text value is not valid UTF-8; holds its bytes.
    InvalidTextEntryUtf(Vec<u8>),
    /// An integer entry declares a length other than the size of an integer;
    /// holds the declared length and that size.
    InvalidIntEntry(u32, usize),
}

/// An [`Error`] as a mathematical value.
pub enum ErrorView {
    UnexpectedEof,
    InvalidMagicCode(u32),
    InvalidVersion(u32),
    InvalidEntryFormat(u16),
    InvalidTextEntryUtf(Seq<u8>),
    InvalidIntEntry(u32, usize),
}

impl View for Error {
    type V = ErrorView;

    open spec fn view(&self) -> ErrorView {
        match self {
            Error::UnexpectedEof => ErrorView::UnexpectedEof,
            Error::InvalidMagicCode(magic) => ErrorView::InvalidMagicCode(*magic),
            Error::InvalidVersion(version) => ErrorView::InvalidVersion(*version),
            Error::InvalidEntryFormat(tag) => ErrorView::InvalidEntryFormat(*tag),
            Error::InvalidTextEntryUtf(bytes) => ErrorView::InvalidTextEntryUtf(bytes@),
            Error::InvalidIntEntry(len, size) => ErrorView::InvalidIntEntry(*len, *size),
        }
    }
}

/// The fixed-size header of a file.
#[derive(Clone, Copy, Debug, PartialEq, Eq)]
pub struct FileHeader {
    pub magic: u32,
    pub version: u32,
    pub key_table_offset: u32,
    pub data_table_offset: u32,
    pub index_table_entries: u32,
}

/// One record of the index table.
#[derive(Clone, Copy, Debug, PartialEq, Eq)]
pub struct RawEntry {
    pub key_offset: u16,
    pub param_fmt: u16,
    pub param_len: u32,
    pub param_max_len: u32,
    pub data_offset: u32,
}

/// The two bytes at `at`, least significant first.
pub open spec fn le_u16(b: Seq<u8>, at: int) -> u16 {
    (b[at] + 0x100 * b[at + 1]) as u16
}

/// The two bytes at `at`, most significant first.
pub open spec fn be_u16(b: Seq<u8>, at: int) -> u16 {
    (0x100 * b[at] + b[at + 1]) as u16
}

/// The four bytes at `at`, least significant first.
pub open spec fn le_u32(b: Seq<u8>, at: int) -> u32 {
    (b[at] + 0x100 * b[at + 1] + 0x1_0000 * b[at + 2] + 0x100_0000 * b[at + 3]) as u32
}

/// The four bytes at `at`, most significant first.
pub open spec fn be_u32(b: Seq<u8>, at: int) -> u32 {
    (0x100_0000 * b[at] + 0x1_0000 * b[at + 1] + 0x100 * b[at + 2] + b[at + 3]) as u32
}

/// The four bytes at `at` as a signed number in two's complement, least
/// significant byte first.
pub open spec fn le_i32(b: Seq<u8>, at: int) -> i32 {
    let u = le_u32(b, at);
    if u >= 0x8000_0000 {
        (u - 0x1_0000_0000) as i32
    } else {
        u as i32
    }
}

/// The header that the first [`HEADER_LEN`] bytes hold. The magic number is
/// big-endian, the other fields are little-endian.
pub open spec fn header_of(b: Seq<u8>) -> FileHeader {
    FileHeader {
        magic: be_u32(b, 0),
        version: le_u32(b, 4),
        key_table_offset: le_u32(b, 8),
        data_table_offset: le_u32(b, 12),
        index_table_entries: le_u32(b, 16),
    }
}

/// Where the index record `i` starts.
pub open spec fn index_entry_start(i: int) -> int {
    HEADER_LEN + INDEX_ENTRY_LEN * i
}

/// The index record `i`. The format tag is big-endian, the other fields are
/// little-endian.
pub open spec fn index_entry(b: Seq<u8>, i: int) -> RawEntry {
    let at = index_entry_start(i);
    RawEntry {
        key_offset: le_u16(b, at),
        param_fmt: be_u16(b, at + 2),
        param_len: le_u32(b, at + 4),
        param_max_len: le_u32(b, at + 8),
        data_offset: le_u32(b, at + 12),
    }
}

/// Where the NUL-terminated string that starts at `at` ends: at the first NUL
/// byte from `at` on, or at the end of the file.
pub open spec fn c_string_end(b: Seq<u8>, at: int) -> int
    decreases b.len() - at,
{
    if at < 0 || at >= b.len() || b[at] == 0 {
        at
    } else {
        c_string_end(b, at + 1)
    }
}

/// The bytes of the NUL-terminated string that starts at `at`, without the
/// NUL. A position at or past the end of the file gives the empty string.
pub open spec fn c_string(b: Seq<u8>, at: int) -> Seq<u8> {
    if 0 <= at < b.len() {
        b.subrange(at, c_string_end(b, at))
    } else {
        Seq::empty()
    }
}

/// The text that `bytes` encode in UTF-8.
pub open spec fn text_of(bytes: Seq<u8>) -> Result<Seq<char>, ErrorView> {
    if valid_utf8(bytes) {
        Ok(decode_utf8(bytes))
    } else {
        Err(ErrorView::InvalidTextEntryUtf(bytes))
    }
}

/// The `len` bytes at `at`. Nothing is read for a length of zero, wherever
/// `at` points.
pub open spec fn bytes_at(b: Seq<u8>, at: int, len: int) -> Result<Seq<u8>, ErrorView> {
    if len == 0 {
        Ok(Seq::empty())
    } else if at + len <= b.len() {
        Ok(b.subrange(at, at + len))
    } else {
        Err(ErrorView::UnexpectedEof)
    }
}

/// The value that the record `e` describes, read at its offset in the data
/// table.
pub open spec fn value_of(b: Seq<u8>, h: FileHeader, e: RawEntry) -> Result<ValueView, ErrorView> {
    let at = h.data_table_offset + e.data_offset;
    if e.param_fmt == FORMAT_BINARY {
        match bytes_at(b, at, e.param_len as int) {
            Ok(bytes) => Ok(ValueView::Binary(bytes)),
            Err(err) => Err(err),
        }
    } else if e.param_fmt == FORMAT_TEXT {
        match text_of(c_string(b, at)) {
            Ok(text) => Ok(ValueView::Text(text)),
            Err(err) => Err(err),
        }
    } else if e.param_fmt == FORMAT_INTEGER {
        if e.param_len != INTEGER_LEN {
            Err(ErrorView::InvalidIntEntry(e.param_len, INTEGER_LEN))
        } else if at + INTEGER_LEN <= b.len() {
            Ok(ValueView::Integer(le_i32(b, at)))
        } else {
            Err(ErrorView::UnexpectedEof)
        }
    } else {
        Err(ErrorView::InvalidEntryFormat(e.param_fmt))
    }
}

/// The name and value that the record `e` describes. The name is read first,
/// at the record's offset in the key table, so a name that is not text is
/// reported before anything about the value.
pub open spec fn entry_of(b: Seq<u8>, h: FileHeader, e: RawEntry) -> Result<
    (Seq<char>, ValueView),
    ErrorView,
> {
    match text_of(c_string(b, h.key_table_offset + e.key_offset)) {
        Err(err) => Err(err),
        Ok(key) => match value_of(b, h, e) {
            Err(err) => Err(err),
            Ok(value) => Ok((key, value)),
        },
    }
}

/// The mapping that the first `n` index records give. The first record that
/// cannot be decoded decides the error; of two records with one name, the
/// later one counts.
pub open spec fn collect(b: Seq<u8>, h: FileHeader, n: nat) -> Result<
    Map<Seq<char>, ValueView>,
    ErrorView,
>
    decreases n,
{
    if n == 0 {
        Ok(Map::empty())
    } else {
        match collect(b, h, (n - 1) as nat) {
            Err(err) => Err(err),
            Ok(entries) => match entry_of(b, h, index_entry(b, n - 1)) {
                Err(err) => Err(err),
                Ok((key, value)) => Ok(entries.insert(key, value)),
            },
        }
    }
}

/// What a file decodes to: its mapping from names to values, or the reason
/// why it has none.
pub open spec fn decode(b: Seq<u8>) -> Result<Map<Seq<char>, ValueView>, ErrorView> {
    let h = header_of(b);
    if b.len() < HEADER_LEN {
        Err(ErrorView::UnexpectedEof)
    } else if h.magic != PSF_MAGIC {
        Err(ErrorView::InvalidMagicCode(h.magic))
    } else if h.version != PSF_VERSION_1_0 && h.version != PSF_VERSION_1_1 {
        Err(ErrorView::InvalidVersion(h.version))
    } else if index_entry_start(h.index_table_entries as int) > b.len() {
        Err(ErrorView::UnexpectedEof)
    } else {
        collect(b, h, h.index_table_entries as nat)
    }
}

/// Once a record cannot be decoded, the records after it change nothing.
pub proof fn lemma_collect_error_stays(b: Seq<u8>, h: FileHeader, m: nat, n: nat)
    requires
        collect(b, h, m) is Err,
        m <= n,
    ensures
        collect(b, h, n) == collect(b, h, m),
    decreases n,
{
    if m < n {
        lemma_collect_error_stays(b, h, m, (n - 1) as nat);
    }
}

fn read_le_u16(bytes: &[u8], at: usize) -> (v: u16)
    requires
        at + 2 <= bytes@.len(),
    ensures
        v == le_u16(bytes@, at as int),
{
    let lo: u16 = bytes[at] as u16;
    let hi: u16 = bytes[at + 1] as u16;
    lo + 0x100 * hi
}

fn read_be_u16(bytes: &[u8], at: usize) -> (v: u16)
    requires
        at + 2 <= bytes@.len(),
    ensures
        v == be_u16(bytes@, at as int),
{
    let hi: u16 = bytes[at] as u16;
    let lo: u16 = bytes[at + 1] as u16;
    0x100 * hi + lo
}

fn read_le_u32(bytes: &[u8], at: usize) -> (v: u32)
    requires
        at + 4 <= bytes@.len(),
    ensures
        v == le_u32(bytes@, at as int),
{
    let b0: u32 = bytes[at] as u32;
    let b1: u32 = bytes[at + 1] as u32;
    let b2: u32 = bytes[at + 2] as u32;
    let b3: u32 = bytes[at + 3] as u32;
    b0 + 0x100 * b1 + 0x1_0000 * b2 + 0x100_0000 * b3
}

fn read_be_u32(bytes: &[u8], at: usize) -> (v: u32)
    requires
        at + 4 <= bytes@.len(),
    ensures
        v == be_u32(bytes@, at as int),
{
    let b0: u32 = bytes[at] as u32;
    let b1: u32 = bytes[at + 1] as u32;
    let b2: u32 = bytes[at + 2] as u32;
    let b3: u32 = bytes[at + 3] as u32;
    0x100_0000 * b0 + 0x1_0000 * b1 + 0x100 * b2 + b3
}

fn read_le_i32(bytes: &[u8], at: usize) -> (v: i32)
    requires
        at + 4 <= bytes@.len(),
    ensures
        v == le_i32(bytes@, at as int),
{
    let u: u32 = read_le_u32(bytes, at);
    if u >= 0x8000_0000 {
        let low: i32 = (u - 0x8000_0000) as i32;
        low + i32::MIN
    } else {
        u as i32
    }
}

/// Reads the header of a file that is long enough to hold one.
pub fn read_header(bytes: &[u8]) -> (h: FileHeader)
    requires
        bytes@.len() >= HEADER_LEN,
    ensures
        h == header_of(bytes@),
{
    FileHeader {
        magic: read_be_u32(bytes, 0),
        version: read_le_u32(bytes, 4),
        key_table_offset: read_le_u32(bytes, 8),
        data_table_offset: read_le_u32(bytes, 12),
        index_table_entries: read_le_u32(bytes, 16),
    }
}

/// Reads the index record `i` of a file that is long enough to hold it.
pub fn read_index_entry(bytes: &[u8], i: usize) -> (e: RawEntry)
    requires
        index_entry_start(i + 1) <= bytes@.len(),
    ensures
        e == index_entry(bytes@, i as int),
{
    let n = bytes.len();
    assert(HEADER_LEN + INDEX_ENTRY_LEN * (i + 1) <= n);
    let at: usize = HEADER_LEN + INDEX_ENTRY_LEN * i;
    RawEntry {
        key_offset: read_le_u16(bytes, at),
        param_fmt: read_be_u16(bytes, at + 2),
        param_len: read_le_u32(bytes, at + 4),
        param_max_len: read_le_u32(bytes, at + 8),
        data_offset: read_le_u32(bytes, at + 12),
    }
}

fn copy_bytes(bytes: &[u8], at: usize, len: usize) -> (v: Vec<u8>)
    requires
        at + len <= bytes@.len(),
    ensures
        v@ == bytes@.subrange(at as int, at + len),
{
    let n = bytes.len();
    let mut v: Vec<u8> = Vec::new();
    let mut k: usize = 0;
    while k < len
        invariant
            k <= len,
            at + len <= bytes@.len() == n,
            v@ == bytes@.subrange(at as int, at + k),
        decreases len - k,
    {
        v.push(bytes[at + k]);
        k += 1;
        assert(v@ =~= bytes@.subrange(at as int, at + k));
    }
    v
}

fn read_c_string(bytes: &[u8], at: u64) -> (v: Vec<u8>)
    ensures
        v@ == c_string(bytes@, at as int),
{
    let n = bytes.len();
    let mut v: Vec<u8> = Vec::new();
    if at >= n as u64 {
        return v;
    }
    let start: usize = at as usize;
    let mut k: usize = start;
    while k < n && bytes[k] != 0
        invariant
            start <= k <= n == bytes@.len(),
            v@ == bytes@.subrange(start as int, k as int),
            c_string_end(bytes@, k as int) == c_string_end(bytes@, start as int),
        decreases n - k,
    {
        v.push(bytes[k]);
        k += 1;
        assert(v@ =~= bytes@.subrange(start as int, k as int));
    }
    v
}

fn read_text(bytes: &[u8], at: u64) -> (r: Result<String, Error>)
    ensures
        match text_of(c_string(bytes@, at as int)) {
            Ok(text) => r matches Ok(s) && s@ == text,
            Err(err) => r matches Err(e) && e@ == err,
        },
{
    broadcast use vstd::utf8::encode_utf8_decode_utf8;

    match string_from_utf8(read_c_string(bytes, at)) {
        Ok(text) => Ok(text),
        Err(rejected) => Err(Error::InvalidTextEntryUtf(rejected)),
    }
}

fn read_value(bytes: &[u8], h: &FileHeader, e: &RawEntry) -> (r: Result<Value, Error>)
    ensures
        match value_of(bytes@, *h, *e) {
            Ok(value) => r matches Ok(v) && v@ == value,
            Err(err) => r matches Err(x) && x@ == err,
        },
{
    let n: u64 = bytes.len() as u64;
    let at: u64 = h.data_table_offset as u64 + e.data_offset as u64;
    if e.param_fmt == FORMAT_BINARY {
        let len: u64 = e.param_len as u64;
        if len == 0 {
            let v = Value::Binary(Vec::new());
            assert(v@ == ValueView::Binary(Seq::<u8>::empty()));
            Ok(v)
        } else if at + len <= n {
            Ok(Value::Binary(copy_bytes(bytes, at as usize, len as usize)))
        } else {
            Err(Error::UnexpectedEof)
        }
    } else if e.param_fmt == FORMAT_TEXT {
        match read_text(bytes, at) {
            Ok(text) => Ok(Value::Text(text)),
            Err(err) => Err(err),
        }
    } else if e.param_fmt == FORMAT_INTEGER {
        if e.param_len != 4 {
            Err(Error::InvalidIntEntry(e.param_len, INTEGER_LEN))
        } else if at + 4 <= n {
            Ok(Value::Integer(read_le_i32(bytes, at as usize)))
        } else {
            Err(Error::UnexpectedEof)
        }
    } else {
        Err(Error::InvalidEntryFormat(e.param_fmt))
    }
}

/// Decodes the name and the value that the index record `e` describes.
pub fn read_entry(bytes: &[u8], h: &FileHeader, e: &RawEntry) -> (r: Result<(String, Value), Error>)
    ensures
        match entry_of(bytes@, *h, *e) {
            Ok((key, value)) => r matches Ok(kv) && kv.0@ == key && kv.1@ == value,
            Err(err) => r matches Err(x) && x@ == err,
        },
{
    let key_at: u64 = h.key_table_offset as u64 + e.key_offset as u64;
    match read_text(bytes, key_at) {
        Err(err) => Err(err),
        Ok(key) => match read_value(bytes, h, e) {
            Err(err) => Err(err),
            Ok(value) => Ok((key, value)),
        },
    }
}

/// Whether no two entries of `s` have the same name.
pub open spec fn keys_distinct(s: Seq<(String, Value)>) -> bool {
    forall|i: int, j: int| 0 <= i < j < s.len() ==> (#[trigger] s[i]).0@ != (#[trigger] s[j]).0@
}

/// Whether an entry of `s` has the name `key`.
pub open spec fn holds_key(s: Seq<(String, Value)>, key: Seq<char>) -> bool {
    exists|i: int| 0 <= i < s.len() && (#[trigger] s[i]).0@ == key
}

/// The position of the entry named `key`, in a list that holds one.
pub open spec fn slot_of(s: Seq<(String, Value)>, key: Seq<char>) -> int {
    choose|i: int| 0 <= i < s.len() && (#[trigger] s[i]).0@ == key
}

/// The mapping that a list of entries with distinct names stands for.
pub open spec fn map_of(s: Seq<(String, Value)>) -> Map<Seq<char>, ValueView> {
    Map::new(|key: Seq<char>| holds_key(s, key), |key: Seq<char>| s[slot_of(s, key)].1@)
}

/// A decoded PSF document.
#[derive(Clone, Debug)]
pub struct PSF {
    last_write: Timestamp,
    entries: Vec<(String, Value)>,
}

/// A [`PSF`] document as a mathematical value.
pub struct PsfView {
    /// When the file it was decoded from was last written.
    pub last_write: Timestamp,
    /// Its values by name.
    pub entries: Map<Seq<char>, ValueView>,
}

impl View for PSF {
    type V = PsfView;

    closed spec fn view(&self) -> PsfView {
        PsfView { last_write: self.last_write, entries: map_of(self.entries@) }
    }
}

/// Sets the entry named `key` to `value`, in place if the list has one and at
/// the end if it has none.
fn put(entries: &mut Vec<(String, Value)>, key: String, value: Value)
    requires
        keys_distinct(old(entries)@),
    ensures
        keys_distinct(final(entries)@),
        map_of(final(entries)@) == map_of(old(entries)@).insert(key@, value@),
{
    let ghost before = entries@;
    let n = entries.len();
    let mut k: usize = 0;
    while k < n
        invariant
            k <= n == entries.len(),
            entries@ == before,
            before == old(entries)@,
            keys_distinct(before),
            forall|a: int| 0 <= a < k ==> (#[trigger] before[a]).0@ != key@,
        decreases n - k,
    {
        if entries[k].0 == key {
            entries.set(k, (key, value));
            proof {
                let after = entries@;
                assert forall|name: Seq<char>| holds_key(after, name) == holds_key(
                    before,
                    name,
                ) by {
                    if holds_key(after, name) {
                        let at = slot_of(after, name);
                        assert(before[at].0@ == name);
                    }
                    if holds_key(before, name) {
                        let at = slot_of(before, name);
                        assert(after[at].0@ == name);
                    }
                }
                assert(holds_key(before, key@)) by {
                    assert(before[k as int].0@ == key@);
                }
                assert forall|name: Seq<char>| holds_key(after, name) implies #[trigger] map_of(
                    after,
                )[name] == map_of(before).insert(key@, value@)[name] by {
                    let at = slot_of(after, name);
                    let was = slot_of(before, name);
                    assert(after[was].0@ == name);
                    assert(at == was);
                }
                assert(map_of(after) =~= map_of(before).insert(key@, value@));
            }
            return ;
        }
        k += 1;
    }
    entries.push((key, value));
    proof {
        let after = entries@;
        assert(after[n as int].0@ == key@);
        assert forall|name: Seq<char>| holds_key(after, name) == (holds_key(before, name) || name
            == key@) by {
            if holds_key(after, name) && name != key@ {
                let at = slot_of(after, name);
                assert(before[at].0@ == name);
            }
            if holds_key(before, name) {
                let at = slot_of(before, name);
                assert(after[at].0@ == name);
            }
        }
        assert(!holds_key(before, key@)) by {
            if holds_key(before, key@) {
                let at = slot_of(before, key@);
                assert(before[at].0@ == key@);
            }
        }
        assert forall|name: Seq<char>| holds_key(after, name) implies #[trigger] map_of(after)[name]
            == map_of(before).insert(key@, value@)[name] by {
            let at = slot_of(after, name);
            if name != key@ {
                let was = slot_of(before, name);
                assert(after[was].0@ == name);
                assert(at == was);
            } else {
                assert(at == n);
            }
        }
        assert(map_of(after) =~= map_of(before).insert(key@, value@));
    }
}

/// Decodes the entries that the index table of a file lists, given its header.
fn read_entries(bytes: &[u8], header: &FileHeader) -> (r: Result<Vec<(String, Value)>, Error>)
    requires
        index_entry_start(header.index_table_entries as int) <= bytes@.len(),
    ensures
        match collect(bytes@, *header, header.index_table_entries as nat) {
            Ok(entries) => r matches Ok(list) && keys_distinct(list@) && map_of(list@) == entries,
            Err(err) => r matches Err(e) && e@ == err,
        },
{
    let count: u32 = header.index_table_entries;
    let mut entries: Vec<(String, Value)> = Vec::new();
    assert(map_of(entries@) =~= Map::<Seq<char>, ValueView>::empty());
    let mut i: u32 = 0;
    while i < count
        invariant
            i <= count,
            count == header.index_table_entries,
            index_entry_start(count as int) <= bytes@.len(),
            keys_distinct(entries@),
            collect(bytes@, *header, i as nat) == Ok::<Map<Seq<char>, ValueView>, ErrorView>(
                map_of(entries@),
            ),
        decreases count - i,
    {
        let raw = read_index_entry(bytes, i as usize);
        let ghost so_far = map_of(entries@);
        match read_entry(bytes, header, &raw) {
            Err(err) => {
                proof {
                    assert(collect(bytes@, *header, (i + 1) as nat) == Err::<
                        Map<Seq<char>, ValueView>,
                        ErrorView,
                    >(err@));
                    lemma_collect_error_stays(bytes@, *header, (i + 1) as nat, count as nat);
                }
                return Err(err);
            },
            Ok((key, value)) => {
                put(&mut entries, key, value);
                assert(collect(bytes@, *header, (i + 1) as nat) == Ok::<
                    Map<Seq<char>, ValueView>,
                    ErrorView,
                >(so_far.insert(key@, value@)));
            },
        }
        i += 1;
    }
    Ok(entries)
}

impl PSF {
    /// No two entries have the same name.
    pub closed spec fn wf(&self) -> bool {
        keys_distinct(self.entries@)
    }

    /// An empty document, last written at the epoch.
    pub fn new() -> (psf: PSF)
        ensures
            psf.wf(),
            psf@.entries == Map::<Seq<char>, ValueView>::empty(),
            psf@.last_write == (Timestamp { secs: 0, nanos: 0 }),
    {
        let psf = PSF { last_write: Timestamp::epoch(), entries: Vec::new() };
        assert(psf@.entries =~= Map::<Seq<char>, ValueView>::empty());
        psf
    }

    /// Decodes `bytes`, the whole content of a file, and takes over its
    /// entries. A file that cannot be decoded leaves the document as it was;
    /// the time of the last write is never touched.
    pub fn read(&mut self, bytes: &[u8]) -> (r: Result<(), Error>)
        requires
            old(self).wf(),
        ensures
            final(self).wf(),
            final(self)@.last_write == old(self)@.last_write,
            match decode(bytes@) {
                Ok(entries) => r is Ok && final(self)@.entries == entries,
                Err(err) => r matches Err(e) && e@ == err && final(self)@ == old(self)@,
            },
    {
        let n = bytes.len();
        if n < HEADER_LEN {
            return Err(Error::UnexpectedEof);
        }
        let header = read_header(bytes);
        if header.magic != PSF_MAGIC {
            return Err(Error::InvalidMagicCode(header.magic));
        }
        if header.version != PSF_VERSION_1_0 && header.version != PSF_VERSION_1_1 {
            return Err(Error::InvalidVersion(header.version));
        }
        let count: u32 = header.index_table_entries;
        if HEADER_LEN as u64 + INDEX_ENTRY_LEN as u64 * count as u64 > n as u64 {
            return Err(Error::UnexpectedEof);
        }
        match read_entries(bytes, &header) {
            Err(err) => Err(err),
            Ok(entries) => {
                self.entries = entries;
                Ok(())
            },
        }
    }

    /// When the file was last written.
    pub fn last_write(&self) -> (t: Timestamp)
        ensures
            t == self@.last_write,
    {
        self.last_write
    }

    /// Records when the file was last written.
    pub fn set_last_write(&mut self, t: Timestamp)
        requires
            old(self).wf(),
        ensures
            final(self).wf(),
            final(self)@ == (PsfView { last_write: t, ..old(self)@ }),
    {
        self.last_write = t;
    }

    /// The number of entries.
    pub fn len(&self) -> (n: usize)
        requires
            self.wf(),
        ensures
            n == self@.entries.dom().len(),
            self@.entries.dom().finite(),
    {
        proof {
            lemma_map_of_len(self.entries@);
        }
        self.entries.len()
    }

    /// The value named `key`, if there is one.
    pub fn get(&self, key: &str) -> (value: Option<&Value>)
        requires
            self.wf(),
        ensures
            match value {
                Some(v) => self@.entries.contains_key(key@) && v@ == self@.entries[key@],
                None => !self@.entries.contains_key(key@),
            },
    {
        let n = self.entries.len();
        let wanted = key.to_owned();
        let mut k: usize = 0;
        while k < n
            invariant
                k <= n == self.entries.len(),
                wanted@ == key@,
                self.wf(),
                forall|a: int| 0 <= a < k ==> (#[trigger] self.entries@[a]).0@ != key@,
            decreases n - k,
        {
            if self.entries[k].0 == wanted {
                proof {
                    let at = slot_of(self.entries@, key@);
                    assert(self.entries@[k as int].0@ == key@);
                    assert(at == k);
                }
                return Some(&self.entries[k].1);
            }
            k += 1;
        }
        proof {
            if holds_key(self.entries@, key@) {
                let at = slot_of(self.entries@, key@);
                assert(self.entries@[at].0@ == key@);
            }
        }
        None
    }

    /// The entries, each name once, in the order in which the names first
    /// stood in the index table.
    pub fn entries(&self) -> (list: &Vec<(String, Value)>)
        requires
            self.wf(),
        ensures
            keys_distinct(list@),
            map_of(list@) == self@.entries,
    {
        &self.entries
    }
}

/// A list of entries with distinct names stands for a mapping of as many
/// names.
pub proof fn lemma_map_of_len(s: Seq<(String, Value)>)
    requires
        keys_distinct(s),
    ensures
        map_of(s).dom().finite(),
        map_of(s).dom().len() == s.len(),
    decreases s.len(),
{
    if s.len() == 0 {
        assert(map_of(s).dom() =~= Set::<Seq<char>>::empty());
    } else {
        let init = s.drop_last();
        let key = s.last().0@;
        lemma_map_of_len(init);
        assert(!holds_key(init, key)) by {
            if holds_key(init, key) {
                let at = slot_of(init, key);
                assert(s[at].0@ == key);
            }
        }
        assert(map_of(s).dom() =~= map_of(init).dom().insert(key)) by {
            assert forall|name: Seq<char>| holds_key(s, name) == (holds_key(init, name) || name
                == key) by {
                if holds_key(s, name) && name != key {
                    let at = slot_of(s, name);
                    assert(init[at].0@ == name);
                }
                if holds_key(init, name) {
                    let at = slot_of(init, name);
                    assert(s[at].0@ == name);
                }
                if name == key {
                    assert(s[s.len() - 1].0@ == key);
                }
            }
        }
    }
}

} // verus!
