use vstd::prelude::*;
use vstd::bytes::{
    lemma_auto_spec_u32_to_from_le_bytes, lemma_auto_spec_u64_to_from_le_bytes,
    spec_u32_from_le_bytes, spec_u32_to_le_bytes, spec_u64_from_le_bytes, spec_u64_to_le_bytes,
    u32_from_le_bytes, u32_to_le_bytes, u64_from_le_bytes, u64_to_le_bytes,
};
use vstd::slice::slice_subrange;
use vstd::utf8::{decode_utf8, encode_utf8, encode_utf8_decode_utf8, encode_utf8_valid_utf8, valid_utf8};
use crate::types::{DbError, Metadata, MetadataModel, Metric};

verus! {

/// The format version this library writes and reads.
pub const VERSION: u8 = 1;

/// Bytes taken by the header: magic (4), version (1), metric (1), dimension (4).
pub const HEADER_LEN: usize = 10;

/// The fixed part of a log file. The magic bytes `VDB0` are implied: they
/// are written before every header and checked on every read.
#[derive(Clone, Copy, Debug)]
pub struct Header {
    pub version: u8,
    pub metric: Metric,
    pub dim: u32,
}

/// One record of the log: an entry as added, or a tombstone for an id.
#[derive(Clone, Debug)]
pub struct StoredEntry {
    pub id: usize,
    /// The vector's components, each as the bit pattern of a 32-bit float.
    pub vector: Vec<u32>,
    pub metadata: Metadata,
    pub deleted: bool,
}

/// The mathematical value of a `StoredEntry`.
pub struct EntryModel {
    pub id: usize,
    pub vector: Seq<u32>,
    pub metadata: MetadataModel,
    pub deleted: bool,
}

impl View for StoredEntry {
    type V = EntryModel;

    open spec fn view(&self) -> EntryModel {
        EntryModel {
            id: self.id,
            vector: self.vector@,
            metadata: self.metadata@,
            deleted: self.deleted,
        }
    }
}

pub open spec fn models(s: Seq<StoredEntry>) -> Seq<EntryModel> {
    s.map_values(|e: StoredEntry| e@)
}

impl StoredEntry {
    /// A copy whose contents equal those of `self`.
    pub fn duplicate(&self) -> (r: StoredEntry)
        ensures
            r@ == self@,
    {
        StoredEntry {
            id: self.id,
            vector: copy_words(&self.vector),
            metadata: self.metadata.duplicate(),
            deleted: self.deleted,
        }
    }
}

/// A copy of a vector of words.
pub fn copy_words(v: &Vec<u32>) -> (r: Vec<u32>)
    ensures
        r@ == v@,
{
    let mut r: Vec<u32> = Vec::new();
    let mut i: usize = 0;
    while i < v.len()
        invariant
            i <= v.len(),
            r@ == v@.subrange(0, i as int),
        decreases v.len() - i,
    {
        r.push(v[i]);
        i = i + 1;
        assert(r@ =~= v@.subrange(0, i as int));
    }
    assert(r@ =~= v@);
    r
}

// ---------------------------------------------------------------------------
// The byte layout.

pub open spec fn metric_tag(m: Metric) -> u8 {
    match m {
        Metric::Cosine => 1,
        Metric::Euclidean => 2,
    }
}

pub open spec fn metric_of_tag(t: u8) -> Option<Metric> {
    if t == 1 {
        Some(Metric::Cosine)
    } else if t == 2 {
        Some(Metric::Euclidean)
    } else {
        None
    }
}

pub open spec fn magic() -> Seq<u8> {
    seq![0x56u8, 0x44u8, 0x42u8, 0x30u8]
}

pub open spec fn header_bytes(h: Header) -> Seq<u8> {
    magic() + seq![h.version, metric_tag(h.metric)] + spec_u32_to_le_bytes(h.dim)
}

/// The words of a vector, four little-endian bytes each.
pub open spec fn words_bytes(v: Seq<u32>) -> Seq<u8>
    decreases v.len(),
{
    if v.len() == 0 {
        seq![]
    } else {
        words_bytes(v.drop_last()) + spec_u32_to_le_bytes(v.last())
    }
}

/// A string: its UTF-8 length as a little-endian u64, then its UTF-8 bytes.
pub open spec fn str_bytes(s: Seq<char>) -> Seq<u8> {
    spec_u64_to_le_bytes(encode_utf8(s).len() as u64) + encode_utf8(s)
}

pub open spec fn opt_str_bytes(o: Option<Seq<char>>) -> Seq<u8> {
    match o {
        None => seq![0u8],
        Some(s) => seq![1u8] + str_bytes(s),
    }
}

pub open spec fn flag_byte(b: bool) -> u8 {
    if b {
        1
    } else {
        0
    }
}

/// A record: id (u64), vector length (u32), the words, label, optional
/// description, tombstone flag.
pub open spec fn entry_bytes(e: EntryModel) -> Seq<u8> {
    spec_u64_to_le_bytes(e.id as u64) + spec_u32_to_le_bytes(e.vector.len() as u32) + words_bytes(
        e.vector,
    ) + str_bytes(e.metadata.label) + opt_str_bytes(e.metadata.description) + seq![
        flag_byte(e.deleted),
    ]
}

pub open spec fn records_bytes(es: Seq<EntryModel>) -> Seq<u8>
    decreases es.len(),
{
    if es.len() == 0 {
        seq![]
    } else {
        records_bytes(es.drop_last()) + entry_bytes(es.last())
    }
}

/// A whole log file: the header and then each record in turn.
pub open spec fn log_bytes(h: Header, es: Seq<EntryModel>) -> Seq<u8> {
    header_bytes(h) + records_bytes(es)
}

pub open spec fn str_fits(s: Seq<char>) -> bool {
    encode_utf8(s).len() <= usize::MAX
}

pub open spec fn metadata_fits(m: MetadataModel) -> bool {
    &&& str_fits(m.label)
    &&& match m.description {
        Some(d) => str_fits(d),
        None => true,
    }
}

/// An entry fits the layout: its vector's length fits the u32 length field
/// and its strings fit in memory.
pub open spec fn encodable(e: EntryModel) -> bool {
    &&& e.vector.len() <= u32::MAX
    &&& metadata_fits(e.metadata)
}

/// The strings of a `Metadata` are held in memory, so their UTF-8 lengths
/// fit a `usize`.
pub fn metadata_sizes(m: &Metadata)
    ensures
        metadata_fits(m@),
{
    let _l = m.label.as_str().as_bytes().len();
    match &m.description {
        Some(d) => {
            let _d = d.as_str().as_bytes().len();
        },
        None => {},
    }
}

// ---------------------------------------------------------------------------
// Reading, as a function of the bytes.

/// What reading one item at a position gives: the item and the position
/// after it, the end of the bytes before the item is whole, or a
/// malformed item.
pub enum Step<T> {
    Done(T, int),
    Short,
    Bad,
}

pub open spec fn u32_at(b: Seq<u8>, p: int) -> u32 {
    spec_u32_from_le_bytes(b.subrange(p, p + 4))
}

pub open spec fn u64_at(b: Seq<u8>, p: int) -> u64 {
    spec_u64_from_le_bytes(b.subrange(p, p + 8))
}

pub open spec fn parse_header(b: Seq<u8>) -> Result<Header, DbError> {
    if b.len() < HEADER_LEN {
        Err(DbError::InvalidFormat)
    } else if b.subrange(0, 4) != magic() {
        Err(DbError::InvalidFormat)
    } else if b[4] != VERSION {
        Err(DbError::UnsupportedVersion)
    } else {
        match metric_of_tag(b[5]) {
            None => Err(DbError::InvalidFormat),
            Some(m) => Ok(Header { version: b[4], metric: m, dim: u32_at(b, 6) }),
        }
    }
}

pub open spec fn parse_words(b: Seq<u8>, p: int) -> Step<Seq<u32>> {
    if p + 4 > b.len() {
        Step::Short
    } else {
        let n = u32_at(b, p) as int;
        if p + 4 + 4 * n > b.len() {
            Step::Short
        } else {
            Step::Done(Seq::new(n as nat, |i: int| u32_at(b, p + 4 + 4 * i)), p + 4 + 4 * n)
        }
    }
}

pub open spec fn parse_str(b: Seq<u8>, p: int) -> Step<Seq<char>> {
    if p + 8 > b.len() {
        Step::Short
    } else {
        let n = u64_at(b, p) as int;
        if p + 8 + n > b.len() {
            Step::Short
        } else if valid_utf8(b.subrange(p + 8, p + 8 + n)) {
            Step::Done(decode_utf8(b.subrange(p + 8, p + 8 + n)), p + 8 + n)
        } else {
            Step::Bad
        }
    }
}

pub open spec fn parse_opt_str(b: Seq<u8>, p: int) -> Step<Option<Seq<char>>> {
    if p + 1 > b.len() {
        Step::Short
    } else if b[p] == 0 {
        Step::Done(None, p + 1)
    } else if b[p] == 1 {
        match parse_str(b, p + 1) {
            Step::Done(s, q) => Step::Done(Some(s), q),
            Step::Short => Step::Short,
            Step::Bad => Step::Bad,
        }
    } else {
        Step::Bad
    }
}

pub open spec fn parse_flag(b: Seq<u8>, p: int) -> Step<bool> {
    if p + 1 > b.len() {
        Step::Short
    } else if b[p] == 0 {
        Step::Done(false, p + 1)
    } else if b[p] == 1 {
        Step::Done(true, p + 1)
    } else {
        Step::Bad
    }
}

pub open spec fn parse_entry(b: Seq<u8>, p: int) -> Step<EntryModel> {
    if p + 8 > b.len() {
        Step::Short
    } else {
        match parse_words(b, p + 8) {
            Step::Short => Step::Short,
            Step::Bad => Step::Bad,
            Step::Done(v, q1) => match parse_str(b, q1) {
                Step::Short => Step::Short,
                Step::Bad => Step::Bad,
                Step::Done(l, q2) => match parse_opt_str(b, q2) {
                    Step::Short => Step::Short,
                    Step::Bad => Step::Bad,
                    Step::Done(d, q3) => match parse_flag(b, q3) {
                        Step::Short => Step::Short,
                        Step::Bad => Step::Bad,
                        Step::Done(f, q4) => if u64_at(b, p) > usize::MAX {
                            Step::Bad
                        } else {
                            Step::Done(
                                EntryModel {
                                    id: u64_at(b, p) as usize,
                                    vector: v,
                                    metadata: MetadataModel { label: l, description: d },
                                    deleted: f,
                                },
                                q4,
                            )
                        },
                    },
                },
            },
        }
    }
}

/// The records from position `p` on. A record cut short by the end of the
/// bytes ends the log (a write that did not finish); a malformed one is an
/// error.
pub open spec fn parse_records(b: Seq<u8>, p: int) -> Result<Seq<EntryModel>, DbError>
    decreases b.len() - p,
{
    if p < 0 || p >= b.len() {
        Ok(seq![])
    } else {
        match parse_entry(b, p) {
            Step::Short => Ok(seq![]),
            Step::Bad => Err(DbError::InvalidFormat),
            Step::Done(e, q) => if q <= p || q > b.len() {
                Err(DbError::InvalidFormat)
            } else {
                match parse_records(b, q) {
                    Ok(rest) => Ok(seq![e] + rest),
                    Err(x) => Err(x),
                }
            },
        }
    }
}

pub open spec fn parse_log(b: Seq<u8>) -> Result<(Header, Seq<EntryModel>), DbError> {
    match parse_header(b) {
        Err(x) => Err(x),
        Ok(h) => match parse_records(b, HEADER_LEN as int) {
            Ok(es) => Ok((h, es)),
            Err(x) => Err(x),
        },
    }
}


// ---------------------------------------------------------------------------
// Writing.

fn append_bytes(out: &mut Vec<u8>, src: &[u8])
    ensures
        final(out)@ == old(out)@ + src@,
{
    let ghost start = out@;
    let mut i: usize = 0;
    while i < src.len()
        invariant
            i <= src@.len(),
            out@ == start + src@.subrange(0, i as int),
        decreases src.len() - i,
    {
        out.push(src[i]);
        i = i + 1;
        assert(out@ =~= start + src@.subrange(0, i as int));
    }
    assert(src@.subrange(0, src@.len() as int) =~= src@);
}

fn append_str(out: &mut Vec<u8>, s: &String)
    ensures
        final(out)@ == old(out)@ + str_bytes(s@),
        str_fits(s@),
{
    let bytes = s.as_str().as_bytes();
    let len = u64_to_le_bytes(bytes.len() as u64);
    append_bytes(out, len.as_slice());
    append_bytes(out, bytes);
    assert(out@ =~= old(out)@ + str_bytes(s@));
}

/// The bytes of a header.
pub fn encode_header(h: &Header) -> (r: Vec<u8>)
    ensures
        r@ == header_bytes(*h),
{
    let mut r: Vec<u8> = Vec::new();
    r.push(0x56);
    r.push(0x44);
    r.push(0x42);
    r.push(0x30);
    r.push(h.version);
    let tag: u8 = match h.metric {
        Metric::Cosine => 1,
        Metric::Euclidean => 2,
    };
    r.push(tag);
    let d = u32_to_le_bytes(h.dim);
    append_bytes(&mut r, d.as_slice());
    assert(r@ =~= header_bytes(*h));
    r
}

/// The bytes of one record.
pub fn encode_entry(e: &StoredEntry) -> (r: Vec<u8>)
    requires
        encodable(e@),
    ensures
        r@ == entry_bytes(e@),
{
    let mut r = u64_to_le_bytes(e.id as u64);
    let n = u32_to_le_bytes(e.vector.len() as u32);
    append_bytes(&mut r, n.as_slice());
    let ghost before = r@;
    let mut i: usize = 0;
    while i < e.vector.len()
        invariant
            i <= e.vector@.len(),
            r@ == before + words_bytes(e.vector@.subrange(0, i as int)),
        decreases e.vector.len() - i,
    {
        let w = u32_to_le_bytes(e.vector[i]);
        append_bytes(&mut r, w.as_slice());
        proof {
            let next = e.vector@.subrange(0, i + 1);
            assert(next.drop_last() =~= e.vector@.subrange(0, i as int));
        }
        i = i + 1;
    }
    assert(e.vector@.subrange(0, e.vector@.len() as int) =~= e.vector@);
    append_str(&mut r, &e.metadata.label);
    match &e.metadata.description {
        None => {
            r.push(0);
        },
        Some(d) => {
            r.push(1);
            append_str(&mut r, d);
        },
    }
    r.push(if e.deleted { 1 } else { 0 });
    assert(r@ =~= entry_bytes(e@));
    r
}

/// The bytes of a whole log file holding `h` and then `entries` in order.
pub fn encode_log(h: &Header, entries: &Vec<StoredEntry>) -> (r: Vec<u8>)
    requires
        forall|i: int| 0 <= i < entries@.len() ==> encodable(#[trigger] entries@[i]@),
    ensures
        r@ == log_bytes(*h, models(entries@)),
{
    let mut r = encode_header(h);
    let mut i: usize = 0;
    while i < entries.len()
        invariant
            i <= entries@.len(),
            forall|j: int| 0 <= j < entries@.len() ==> encodable(#[trigger] entries@[j]@),
            r@ == header_bytes(*h) + records_bytes(models(entries@.subrange(0, i as int))),
        decreases entries.len() - i,
    {
        let b = encode_entry(&entries[i]);
        append_bytes(&mut r, b.as_slice());
        proof {
            let next = models(entries@.subrange(0, i + 1));
            assert(next.drop_last() =~= models(entries@.subrange(0, i as int)));
            assert(next.last() == entries@[i as int]@);
        }
        i = i + 1;
    }
    assert(entries@.subrange(0, entries@.len() as int) =~= entries@);
    r
}


// ---------------------------------------------------------------------------
// Reading.

/// What an exec reader returns; see `Step`.
pub enum Decoded<T> {
    Done(T, usize),
    Short,
    Bad,
}

pub open spec fn same_step<T: View>(r: Decoded<T>, s: Step<T::V>) -> bool {
    match (r, s) {
        (Decoded::Done(x, q), Step::Done(m, mq)) => x@ == m && q == mq,
        (Decoded::Short, Step::Short) => true,
        (Decoded::Bad, Step::Bad) => true,
        _ => false,
    }
}

/// Relies on `String::from_utf8`: it gives the string whose UTF-8 encoding is
/// the input, and fails exactly where the input is not UTF-8.
#[verifier::external_body]
fn string_from_utf8(b: &[u8]) -> (r: Option<String>)
    ensures
        match r {
            Some(s) => valid_utf8(b@) && s@ == decode_utf8(b@),
            None => !valid_utf8(b@),
        },
{
    String::from_utf8(b.to_vec()).ok()
}

fn read_u32(b: &[u8], p: usize) -> (r: u32)
    requires
        p + 4 <= b@.len(),
    ensures
        r == u32_at(b@, p as int),
{
    assert(p + 4 <= b.len());
    u32_from_le_bytes(slice_subrange(b, p, p + 4))
}

fn read_u64(b: &[u8], p: usize) -> (r: u64)
    requires
        p + 8 <= b@.len(),
    ensures
        r == u64_at(b@, p as int),
{
    assert(p + 8 <= b.len());
    u64_from_le_bytes(slice_subrange(b, p, p + 8))
}

fn decode_words(b: &[u8], p: usize) -> (r: Decoded<Vec<u32>>)
    ensures
        same_step(r, parse_words(b@, p as int)),
{
    if b.len() < 4 || p > b.len() - 4 {
        return Decoded::Short;
    }
    let n = read_u32(b, p) as usize;
    let avail = b.len() - p - 4;
    if n > avail / 4 {
        assert(4 * (n as int) > avail) by (nonlinear_arith)
            requires
                n > avail / 4,
        ;
        return Decoded::Short;
    }
    assert(4 * (n as int) <= avail) by (nonlinear_arith)
        requires
            n <= avail / 4,
    ;
    let start = p + 4;
    let mut v: Vec<u32> = Vec::new();
    let mut i: usize = 0;
    while i < n
        invariant
            i <= n,
            start == p + 4,
            start + 4 * n <= b@.len() <= usize::MAX,
            v@ == Seq::new(i as nat, |j: int| u32_at(b@, start + 4 * j)),
        decreases n - i,
    {
        assert(4 * i + 4 <= 4 * n) by (nonlinear_arith)
            requires
                i < n,
        ;
        let w = read_u32(b, start + 4 * i);
        v.push(w);
        i = i + 1;
        assert(v@ =~= Seq::new(i as nat, |j: int| u32_at(b@, start + 4 * j)));
    }
    Decoded::Done(v, start + 4 * n)
}

fn decode_str(b: &[u8], p: usize) -> (r: Decoded<String>)
    ensures
        same_step(r, parse_str(b@, p as int)),
{
    if b.len() < 8 || p > b.len() - 8 {
        return Decoded::Short;
    }
    let n = read_u64(b, p);
    let avail = b.len() - p - 8;
    if n > avail as u64 {
        return Decoded::Short;
    }
    let n = n as usize;
    let bytes = slice_subrange(b, p + 8, p + 8 + n);
    match string_from_utf8(bytes) {
        Some(s) => Decoded::Done(s, p + 8 + n),
        None => Decoded::Bad,
    }
}

fn decode_opt_str(b: &[u8], p: usize) -> (r: Decoded<Option<String>>)
    ensures
        match (r, parse_opt_str(b@, p as int)) {
            (Decoded::Done(x, q), Step::Done(m, mq)) => q == mq && match (x, m) {
                (Some(s), Some(t)) => s@ == t,
                (None, None) => true,
                _ => false,
            },
            (Decoded::Short, Step::Short) => true,
            (Decoded::Bad, Step::Bad) => true,
            _ => false,
        },
{
    if p >= b.len() {
        return Decoded::Short;
    }
    if b[p] == 0 {
        Decoded::Done(None, p + 1)
    } else if b[p] == 1 {
        match decode_str(b, p + 1) {
            Decoded::Done(s, q) => Decoded::Done(Some(s), q),
            Decoded::Short => Decoded::Short,
            Decoded::Bad => Decoded::Bad,
        }
    } else {
        Decoded::Bad
    }
}

fn decode_flag(b: &[u8], p: usize) -> (r: Decoded<bool>)
    ensures
        match (r, parse_flag(b@, p as int)) {
            (Decoded::Done(x, q), Step::Done(m, mq)) => x == m && q == mq,
            (Decoded::Short, Step::Short) => true,
            (Decoded::Bad, Step::Bad) => true,
            _ => false,
        },
{
    if p >= b.len() {
        Decoded::Short
    } else if b[p] == 0 {
        Decoded::Done(false, p + 1)
    } else if b[p] == 1 {
        Decoded::Done(true, p + 1)
    } else {
        Decoded::Bad
    }
}

/// Reads the record that starts at `p`.
pub fn decode_entry(b: &[u8], p: usize) -> (r: Decoded<StoredEntry>)
    ensures
        same_step(r, parse_entry(b@, p as int)),
{
    if b.len() < 8 || p > b.len() - 8 {
        return Decoded::Short;
    }
    let id = read_u64(b, p);
    let (vector, q1) = match decode_words(b, p + 8) {
        Decoded::Done(v, q) => (v, q),
        Decoded::Short => return Decoded::Short,
        Decoded::Bad => return Decoded::Bad,
    };
    let (label, q2) = match decode_str(b, q1) {
        Decoded::Done(v, q) => (v, q),
        Decoded::Short => return Decoded::Short,
        Decoded::Bad => return Decoded::Bad,
    };
    let (description, q3) = match decode_opt_str(b, q2) {
        Decoded::Done(v, q) => (v, q),
        Decoded::Short => return Decoded::Short,
        Decoded::Bad => return Decoded::Bad,
    };
    let (deleted, q4) = match decode_flag(b, q3) {
        Decoded::Done(v, q) => (v, q),
        Decoded::Short => return Decoded::Short,
        Decoded::Bad => return Decoded::Bad,
    };
    if id > usize::MAX as u64 {
        return Decoded::Bad;
    }
    let e = StoredEntry { id: id as usize, vector, metadata: Metadata { label, description }, deleted };
    Decoded::Done(e, q4)
}


pub open spec fn prepend(
    a: Seq<EntryModel>,
    r: Result<Seq<EntryModel>, DbError>,
) -> Result<Seq<EntryModel>, DbError> {
    match r {
        Ok(rest) => Ok(a + rest),
        Err(x) => Err(x),
    }
}

/// Reads the header at the start of a log file.
pub fn decode_header(b: &[u8]) -> (r: Result<Header, DbError>)
    ensures
        r == parse_header(b@),
{
    if b.len() < HEADER_LEN {
        return Err(DbError::InvalidFormat);
    }
    if !(b[0] == 0x56 && b[1] == 0x44 && b[2] == 0x42 && b[3] == 0x30) {
        assert(b@.subrange(0, 4)[0] == b@[0]);
        assert(b@.subrange(0, 4)[1] == b@[1]);
        assert(b@.subrange(0, 4)[2] == b@[2]);
        assert(b@.subrange(0, 4)[3] == b@[3]);
        return Err(DbError::InvalidFormat);
    }
    assert(b@.subrange(0, 4) =~= magic());
    if b[4] != VERSION {
        return Err(DbError::UnsupportedVersion);
    }
    let metric = if b[5] == 1 {
        Metric::Cosine
    } else if b[5] == 2 {
        Metric::Euclidean
    } else {
        return Err(DbError::InvalidFormat);
    };
    Ok(Header { version: b[4], metric, dim: read_u32(b, 6) })
}

/// Reads the records from `start` to the end of the bytes.
pub fn decode_records(b: &[u8], start: usize) -> (r: Result<Vec<StoredEntry>, DbError>)
    ensures
        match (r, parse_records(b@, start as int)) {
            (Ok(v), Ok(m)) => models(v@) == m,
            (Err(e), Err(f)) => e == f,
            _ => false,
        },
{
    let mut out: Vec<StoredEntry> = Vec::new();
    let mut pos = start;
    assert(models(out@) =~= seq![]);
    loop
        invariant
            pos <= usize::MAX,
            parse_records(b@, start as int) == prepend(models(out@), parse_records(b@, pos as int)),
        decreases b@.len() - pos,
    {
        if pos >= b.len() {
            assert(models(out@) + seq![] =~= models(out@));
            return Ok(out);
        }
        match decode_entry(b, pos) {
            Decoded::Done(e, q) => {
                if q <= pos || q > b.len() {
                    return Err(DbError::InvalidFormat);
                }
                let ghost em = e@;
                let ghost old_out = models(out@);
                out.push(e);
                proof {
                    assert(models(out@) =~= old_out.push(em));
                    match parse_records(b@, q as int) {
                        Ok(rest) => {
                            assert(old_out + (seq![em] + rest) =~= old_out.push(em) + rest);
                        },
                        Err(_) => {},
                    }
                }
                pos = q;
            },
            Decoded::Short => {
                assert(models(out@) + seq![] =~= models(out@));
                return Ok(out);
            },
            Decoded::Bad => {
                return Err(DbError::InvalidFormat);
            },
        }
    }
}

/// Reads a whole log file: its header, then its records in order.
pub fn decode_log(b: &[u8]) -> (r: Result<(Header, Vec<StoredEntry>), DbError>)
    ensures
        match (r, parse_log(b@)) {
            (Ok((h, v)), Ok((mh, m))) => h == mh && models(v@) == m,
            (Err(e), Err(f)) => e == f,
            _ => false,
        },
{
    let h = decode_header(b)?;
    let entries = decode_records(b, HEADER_LEN)?;
    Ok((h, entries))
}


// ---------------------------------------------------------------------------
// Reading back what was written.

proof fn lemma_window(b: Seq<u8>, p: int, x: Seq<u8>, a: int, c: int)
    requires
        0 <= p,
        p + x.len() <= b.len(),
        b.subrange(p, p + x.len()) == x,
        0 <= a <= c <= x.len(),
    ensures
        b.subrange(p + a, p + c) == x.subrange(a, c),
{
    assert forall|i: int| 0 <= i < c - a implies b.subrange(p + a, p + c)[i] == x.subrange(a, c)[i] by {
        assert(b.subrange(p, p + x.len())[a + i] == b[p + a + i]);
    }
    assert(b.subrange(p + a, p + c) =~= x.subrange(a, c));
}

proof fn lemma_words_bytes(v: Seq<u32>)
    ensures
        words_bytes(v).len() == 4 * v.len(),
        forall|i: int|
            0 <= i < v.len() ==> #[trigger] words_bytes(v).subrange(4 * i, 4 * i + 4)
                == spec_u32_to_le_bytes(v[i]),
    decreases v.len(),
{
    lemma_auto_spec_u32_to_from_le_bytes();
    if v.len() > 0 {
        lemma_words_bytes(v.drop_last());
        let w = words_bytes(v.drop_last());
        assert forall|i: int| 0 <= i < v.len() implies #[trigger] words_bytes(v).subrange(
            4 * i,
            4 * i + 4,
        ) == spec_u32_to_le_bytes(v[i]) by {
            if i < v.len() - 1 {
                assert(words_bytes(v).subrange(4 * i, 4 * i + 4) =~= w.subrange(4 * i, 4 * i + 4));
            } else {
                assert(words_bytes(v).subrange(4 * i, 4 * i + 4) =~= spec_u32_to_le_bytes(
                    v.last(),
                ));
            }
        }
    }
}

proof fn lemma_parse_words(b: Seq<u8>, p: int, v: Seq<u32>)
    requires
        0 <= p,
        v.len() <= u32::MAX,
        p + 4 + 4 * v.len() <= b.len(),
        b.subrange(p, p + 4 + 4 * v.len()) == spec_u32_to_le_bytes(v.len() as u32) + words_bytes(v),
    ensures
        parse_words(b, p) == Step::Done(v, p + 4 + 4 * v.len()),
{
    lemma_auto_spec_u32_to_from_le_bytes();
    lemma_words_bytes(v);
    let x = spec_u32_to_le_bytes(v.len() as u32) + words_bytes(v);
    lemma_window(b, p, x, 0, 4);
    assert(x.subrange(0, 4) =~= spec_u32_to_le_bytes(v.len() as u32));
    assert(u32_at(b, p) == v.len());
    let got = Seq::new(v.len(), |i: int| u32_at(b, p + 4 + 4 * i));
    assert forall|i: int| 0 <= i < v.len() implies got[i] == v[i] by {
        lemma_window(b, p, x, 4 + 4 * i, 8 + 4 * i);
        assert(x.subrange(4 + 4 * i, 8 + 4 * i) =~= words_bytes(v).subrange(4 * i, 4 * i + 4));
    }
    assert(got =~= v);
}

proof fn lemma_parse_str(b: Seq<u8>, p: int, s: Seq<char>)
    requires
        0 <= p,
        str_fits(s),
        p + str_bytes(s).len() <= b.len(),
        b.subrange(p, p + str_bytes(s).len()) == str_bytes(s),
    ensures
        parse_str(b, p) == Step::Done(s, p + str_bytes(s).len()),
{
    broadcast use encode_utf8_valid_utf8, encode_utf8_decode_utf8;

    lemma_auto_spec_u64_to_from_le_bytes();
    let x = str_bytes(s);
    let u = encode_utf8(s);
    lemma_window(b, p, x, 0, 8);
    assert(x.subrange(0, 8) =~= spec_u64_to_le_bytes(u.len() as u64));
    lemma_window(b, p, x, 8, 8 + u.len() as int);
    assert(x.subrange(8, 8 + u.len() as int) =~= u);
}

proof fn lemma_parse_opt_str(b: Seq<u8>, p: int, o: Option<Seq<char>>)
    requires
        0 <= p,
        match o {
            Some(s) => str_fits(s),
            None => true,
        },
        p + opt_str_bytes(o).len() <= b.len(),
        b.subrange(p, p + opt_str_bytes(o).len()) == opt_str_bytes(o),
    ensures
        parse_opt_str(b, p) == Step::Done(o, p + opt_str_bytes(o).len()),
{
    let x = opt_str_bytes(o);
    lemma_window(b, p, x, 0, 1);
    assert(b[p] == b.subrange(p, p + 1)[0]);
    match o {
        None => {},
        Some(s) => {
            lemma_window(b, p, x, 1, x.len() as int);
            assert(x.subrange(1, x.len() as int) =~= str_bytes(s));
            lemma_parse_str(b, p + 1, s);
        },
    }
}

proof fn lemma_parse_entry(b: Seq<u8>, p: int, e: EntryModel)
    requires
        0 <= p,
        encodable(e),
        p + entry_bytes(e).len() <= b.len(),
        b.subrange(p, p + entry_bytes(e).len()) == entry_bytes(e),
    ensures
        parse_entry(b, p) == Step::Done(e, p + entry_bytes(e).len()),
{
    lemma_auto_spec_u32_to_from_le_bytes();
    lemma_auto_spec_u64_to_from_le_bytes();
    lemma_words_bytes(e.vector);
    let x = entry_bytes(e);
    let n = e.vector.len() as int;
    let a = spec_u64_to_le_bytes(e.id as u64);
    let bw = spec_u32_to_le_bytes(e.vector.len() as u32) + words_bytes(e.vector);
    let sb = str_bytes(e.metadata.label);
    let db = opt_str_bytes(e.metadata.description);
    let o2 = 12 + 4 * n;
    let o3 = o2 + sb.len();
    let o4 = o3 + db.len();
    assert(x =~= a + bw + sb + db + seq![flag_byte(e.deleted)]);
    lemma_window(b, p, x, 0, 8);
    assert(x.subrange(0, 8) =~= a);
    lemma_window(b, p, x, 8, o2);
    assert(x.subrange(8, o2) =~= bw);
    lemma_parse_words(b, p + 8, e.vector);
    lemma_window(b, p, x, o2, o3);
    assert(x.subrange(o2, o3) =~= sb);
    lemma_parse_str(b, p + o2, e.metadata.label);
    lemma_window(b, p, x, o3, o4);
    assert(x.subrange(o3, o4) =~= db);
    lemma_parse_opt_str(b, p + o3, e.metadata.description);
    lemma_window(b, p, x, o4, o4 + 1);
    assert(b[p + o4] == b.subrange(p + o4, p + o4 + 1)[0]);
    assert(x[o4] == flag_byte(e.deleted));
}

proof fn lemma_records_bytes_first(es: Seq<EntryModel>)
    requires
        es.len() > 0,
    ensures
        records_bytes(es) == entry_bytes(es[0]) + records_bytes(es.drop_first()),
    decreases es.len(),
{
    if es.len() == 1 {
        assert(es.drop_last() =~= seq![]);
        assert(es.drop_first() =~= seq![]);
        assert(records_bytes(es) =~= entry_bytes(es[0]) + records_bytes(es.drop_first()));
    } else {
        lemma_records_bytes_first(es.drop_last());
        assert(es.drop_last().drop_first() =~= es.drop_first().drop_last());
        assert(es.drop_first().last() == es.last());
        assert(records_bytes(es) =~= entry_bytes(es[0]) + records_bytes(es.drop_first()));
    }
}

proof fn lemma_parse_records(b: Seq<u8>, p: int, es: Seq<EntryModel>)
    requires
        0 <= p <= b.len(),
        forall|i: int| 0 <= i < es.len() ==> encodable(#[trigger] es[i]),
        b.subrange(p, b.len() as int) == records_bytes(es),
    ensures
        parse_records(b, p) == Ok::<Seq<EntryModel>, DbError>(es),
    decreases es.len(),
{
    if es.len() == 0 {
        assert(b.subrange(p, b.len() as int).len() == 0);
        assert(es =~= seq![]);
    } else {
        lemma_records_bytes_first(es);
        let x = entry_bytes(es[0]);
        let r = records_bytes(es.drop_first());
        let all = b.subrange(p, b.len() as int);
        assert(x.len() > 0);
        assert(all.subrange(0, x.len() as int) =~= x);
        assert(all.len() == b.len() - p);
        assert forall|i: int| 0 <= i < x.len() implies b.subrange(p, p + x.len())[i]
            == all.subrange(0, x.len() as int)[i] by {
            assert(all[i] == b[p + i]);
        }
        assert(b.subrange(p, p + x.len()) =~= all.subrange(0, x.len() as int));
        lemma_parse_entry(b, p, es[0]);
        let q = p + x.len();
        assert(b.subrange(q, b.len() as int) =~= all.subrange(x.len() as int, all.len() as int));
        assert(all.subrange(x.len() as int, all.len() as int) =~= r);
        lemma_parse_records(b, q, es.drop_first());
        assert(seq![es[0]] + es.drop_first() =~= es);
    }
}

/// Reading a log file back gives the header and the records it was written
/// from.
pub proof fn lemma_log_round_trip(h: Header, es: Seq<EntryModel>)
    requires
        h.version == VERSION,
        forall|i: int| 0 <= i < es.len() ==> encodable(#[trigger] es[i]),
    ensures
        parse_log(log_bytes(h, es)) == Ok::<(Header, Seq<EntryModel>), DbError>((h, es)),
{
    lemma_auto_spec_u32_to_from_le_bytes();
    let b = log_bytes(h, es);
    let hb = header_bytes(h);
    assert(b.subrange(0, 4) =~= magic());
    assert(b[4] == h.version);
    assert(b[5] == metric_tag(h.metric));
    assert(b.subrange(6, 10) =~= spec_u32_to_le_bytes(h.dim));
    assert(b.subrange(HEADER_LEN as int, b.len() as int) =~= records_bytes(es));
    lemma_parse_records(b, HEADER_LEN as int, es);
}

} // verus!
