//! The cache record: the identity stamp of the search root followed by the
//! entries a scan found.
//!
//! Layout: the device id and the inode number as eight little-endian bytes
//! each, then every entry followed by a NUL byte. A record is only believed
//! for a root whose live stamp equals the stored one.

use vstd::prelude::*;
use byteorder::ByteOrder;
use crate::bytes::names_view;

verus! {

/// The byte that ends each entry of a record.
pub const TERMINATOR: u8 = 0;

/// The number of bytes that the stamp takes at the start of a record.
pub const STAMP_LEN: usize = 16;

/// The filesystem identity of a search root: its device id and inode number.
#[derive(Clone, Copy, PartialEq, Eq, Structural, Debug)]
pub struct Stamp {
    pub dev: u64,
    pub ino: u64,
}

/// The integer that eight bytes spell in little-endian order.
pub open spec fn le_u64(b: Seq<u8>) -> u64
    recommends
        b.len() >= 8,
{
    (b[0] as u64) | ((b[1] as u64) << 8u64) | ((b[2] as u64) << 16u64) | ((b[3] as u64) << 24u64)
        | ((b[4] as u64) << 32u64) | ((b[5] as u64) << 40u64) | ((b[6] as u64) << 48u64) | ((
    b[7] as u64) << 56u64)
}

/// The eight little-endian bytes of `n`.
pub open spec fn le_bytes(n: u64) -> Seq<u8> {
    seq![
        n as u8,
        (n >> 8u64) as u8,
        (n >> 16u64) as u8,
        (n >> 24u64) as u8,
        (n >> 32u64) as u8,
        (n >> 40u64) as u8,
        (n >> 48u64) as u8,
        (n >> 56u64) as u8,
    ]
}

/// Reading back the bytes of an integer gives the integer.
pub proof fn lemma_le_round_trip(n: u64)
    ensures
        le_u64(le_bytes(n)) == n,
{
    let b = le_bytes(n);
    let (b0, b1, b2, b3, b4, b5, b6, b7) = (b[0], b[1], b[2], b[3], b[4], b[5], b[6], b[7]);
    assert(b0 == n as u8 && b1 == (n >> 8u64) as u8 && b2 == (n >> 16u64) as u8 && b3 == (n
        >> 24u64) as u8 && b4 == (n >> 32u64) as u8 && b5 == (n >> 40u64) as u8 && b6 == (n
        >> 48u64) as u8 && b7 == (n >> 56u64) as u8);
    assert((((n as u8) as u64) | ((((n >> 8u64) as u8) as u64) << 8u64) | ((((n >> 16u64) as u8)
        as u64) << 16u64) | ((((n >> 24u64) as u8) as u64) << 24u64) | ((((n >> 32u64) as u8)
        as u64) << 32u64) | ((((n >> 40u64) as u8) as u64) << 40u64) | ((((n >> 48u64) as u8)
        as u64) << 48u64) | ((((n >> 56u64) as u8) as u64) << 56u64)) == n) by (bit_vector);
}

/// Relies on byteorder's `LittleEndian::read_u64`: the first eight bytes of
/// the buffer read as a little-endian integer (it panics on fewer).
#[verifier::external_body]
fn read_le_u64(buf: &[u8]) -> (r: u64)
    requires
        buf@.len() >= 8,
    ensures
        r == le_u64(buf@),
{
    byteorder::LittleEndian::read_u64(buf)
}

/// Relies on byteorder's `LittleEndian::write_u64`: it writes the eight
/// little-endian bytes of `n` into the first eight bytes of the buffer.
#[verifier::external_body]
fn write_le_u64(n: u64) -> (r: Vec<u8>)
    ensures
        r@ == le_bytes(n),
{
    let mut buf = vec![0u8; 8];
    byteorder::LittleEndian::write_u64(&mut buf, n);
    buf
}

/// The bytes of the entries, each followed by the terminator.
pub open spec fn entries_bytes(entries: Seq<Seq<u8>>) -> Seq<u8>
    decreases entries.len(),
{
    if entries.len() == 0 {
        Seq::empty()
    } else {
        entries_bytes(entries.drop_last()) + entries.last().push(TERMINATOR)
    }
}

/// The record written for `stamp` and `entries`.
pub open spec fn record_bytes(stamp: Stamp, entries: Seq<Seq<u8>>) -> Seq<u8> {
    le_bytes(stamp.dev) + le_bytes(stamp.ino) + entries_bytes(entries)
}

/// The stamp stored at the start of a record.
pub open spec fn stored_stamp(data: Seq<u8>) -> Stamp
    recommends
        data.len() >= 16,
{
    Stamp { dev: le_u64(data), ino: le_u64(data.subrange(8, 16)) }
}

/// The end of the entry that starts at `i`: the next terminator at or after
/// `i`, or the end of the data.
pub open spec fn entry_end(data: Seq<u8>, i: int) -> int
    decreases data.len() - i,
{
    if i >= data.len() {
        data.len() as int
    } else if data[i] == TERMINATOR {
        i
    } else {
        entry_end(data, i + 1)
    }
}

/// The entries stored from position `i` on: runs of bytes each ended by a
/// terminator, the last one possibly by the end of the data.
pub open spec fn entries_from(data: Seq<u8>, i: int) -> Seq<Seq<u8>>
    decreases data.len() + 1 - i,
{
    if i < 0 || i >= data.len() {
        Seq::empty()
    } else {
        let e = entry_end(data, i);
        if e < i || e > data.len() {
            Seq::empty()
        } else {
            seq![data.subrange(i, e)] + entries_from(data, e + 1)
        }
    }
}

/// What reading a record for the root with stamp `live` gives: `None` when
/// the stored stamp differs or no entry is stored, else the stored entries.
pub open spec fn read_record(live: Stamp, data: Seq<u8>) -> Option<Seq<Seq<u8>>>
    recommends
        data.len() >= 16,
{
    if stored_stamp(data) != live || entries_from(data, 16).len() == 0 {
        None
    } else {
        Some(entries_from(data, 16))
    }
}

/// Why a record could not be read.
#[derive(Clone, Copy, PartialEq, Eq, Structural, Debug)]
pub enum CacheError {
    /// The data is too short to hold a stamp.
    Truncated,
}

proof fn lemma_entry_end_bounds(data: Seq<u8>, i: int)
    requires
        0 <= i <= data.len(),
    ensures
        i <= entry_end(data, i) <= data.len(),
        entry_end(data, i) < data.len() ==> data[entry_end(data, i)] == TERMINATOR,
        forall|k: int| i <= k < entry_end(data, i) ==> data[k] != TERMINATOR,
    decreases data.len() - i,
{
    if i < data.len() && data[i] != TERMINATOR {
        lemma_entry_end_bounds(data, i + 1);
    }
}

proof fn lemma_entry_end_skip(data: Seq<u8>, i: int, k: int)
    requires
        0 <= i <= k <= data.len(),
        forall|j: int| i <= j < k ==> data[j] != TERMINATOR,
    ensures
        entry_end(data, i) == entry_end(data, k),
    decreases k - i,
{
    if i < k {
        lemma_entry_end_skip(data, i + 1, k);
    }
}

/// Builds the record for the root with stamp `stamp` and the entries of a scan.
pub fn encode_record(stamp: &Stamp, entries: &Vec<Vec<u8>>) -> (r: Vec<u8>)
    ensures
        r@ == record_bytes(*stamp, names_view(entries@)),
{
    let mut r = write_le_u64(stamp.dev);
    let mut ino = write_le_u64(stamp.ino);
    r.append(&mut ino);
    let ghost head = r@;
    assert(head == le_bytes(stamp.dev) + le_bytes(stamp.ino));
    let ghost ev = names_view(entries@);
    let mut i: usize = 0;
    while i < entries.len()
        invariant
            ev == names_view(entries@),
            i <= entries@.len(),
            r@ == head + entries_bytes(ev.subrange(0, i as int)),
        decreases entries@.len() - i,
    {
        let e = &entries[i];
        let ghost before = r@;
        let mut j: usize = 0;
        while j < e.len()
            invariant
                j <= e@.len(),
                r@ == before + e@.subrange(0, j as int),
            decreases e@.len() - j,
        {
            r.push(e[j]);
            j = j + 1;
        }
        r.push(TERMINATOR);
        proof {
            assert(e@.subrange(0, e@.len() as int) =~= e@);
            assert(ev.subrange(0, i + 1).drop_last() =~= ev.subrange(0, i as int));
            assert(ev.subrange(0, i + 1).last() == e@);
            assert(r@ =~= head + entries_bytes(ev.subrange(0, i + 1)));
        }
        i = i + 1;
    }
    assert(ev.subrange(0, ev.len() as int) =~= ev);
    r
}

/// Copies the eight bytes at `at`.
fn eight_at(data: &Vec<u8>, at: usize) -> (r: Vec<u8>)
    requires
        at + 8 <= data@.len(),
    ensures
        r@ == data@.subrange(at as int, at + 8),
{
    let n: usize = data.len();
    let mut r: Vec<u8> = Vec::new();
    let mut k: usize = 0;
    while k < 8
        invariant
            n == data@.len(),
            at + 8 <= data@.len(),
            k <= 8,
            r@ == data@.subrange(at as int, at + k),
        decreases 8 - k,
    {
        r.push(data[at + k]);
        k = k + 1;
    }
    r
}

/// Reads a record for the root whose live stamp is `live`.
///
/// Data too short for a stamp is an error. A stored stamp that differs from
/// `live`, or a record with no entry, gives `None`: the caller rescans.
pub fn decode_record(live: &Stamp, data: &Vec<u8>) -> (r: Result<Option<Vec<Vec<u8>>>, CacheError>)
    ensures
        data@.len() < 16 <==> r == Err::<Option<Vec<Vec<u8>>>, CacheError>(CacheError::Truncated),
        data@.len() >= 16 ==> (r matches Ok(o) && match o {
            Some(v) => read_record(*live, data@) == Some(names_view(v@)),
            None => read_record(*live, data@) is None,
        }),
{
    if data.len() < STAMP_LEN {
        return Err(CacheError::Truncated);
    }
    let dev = read_le_u64(eight_at(data, 0).as_slice());
    let ino = read_le_u64(eight_at(data, 8).as_slice());
    assert(data@.subrange(0, 8) =~= data@.subrange(0, 8));
    proof {
        assert(le_u64(data@.subrange(0, 8)) == le_u64(data@));
    }
    if dev != live.dev || ino != live.ino {
        return Ok(None);
    }
    let ghost d = data@;
    let n: usize = data.len();
    let mut entries: Vec<Vec<u8>> = Vec::new();
    let mut pos: usize = STAMP_LEN;
    while pos < n
        invariant
            d == data@,
            n == d.len(),
            16 <= pos,
            pos <= n + 1,
            entries_from(d, 16) == names_view(entries@) + entries_from(d, pos as int),
        decreases n + 1 - pos,
    {
        let mut entry: Vec<u8> = Vec::new();
        let mut e: usize = pos;
        while e < n && data[e] != TERMINATOR
            invariant
                d == data@,
                n == d.len(),
                pos <= e <= n,
                entry@ == d.subrange(pos as int, e as int),
                forall|k: int| pos <= k < e ==> d[k] != TERMINATOR,
            decreases n - e,
        {
            entry.push(data[e]);
            e = e + 1;
        }
        proof {
            lemma_entry_end_skip(d, pos as int, e as int);
            lemma_entry_end_bounds(d, e as int);
            assert(entry_end(d, pos as int) == e);
            let ghost prev = names_view(entries@);
            assert(entries_from(d, pos as int) == seq![entry@] + entries_from(d, e + 1));
        }
        let ghost prev = names_view(entries@);
        entries.push(entry);
        assert(names_view(entries@) =~= prev.push(entry@));
        assert(names_view(entries@) + entries_from(d, e + 1) =~= prev + (seq![entry@]
            + entries_from(d, e + 1)));
        if e == n {
            pos = n;
        } else {
            pos = e + 1;
        }
    }
    assert(entries_from(d, pos as int) == Seq::<Seq<u8>>::empty());
    assert(names_view(entries@) =~= entries_from(d, 16));
    if entries.len() == 0 {
        Ok(None)
    } else {
        Ok(Some(entries))
    }
}

/// A record is never believed for another root: reading the record written
/// for the root stamped `written` while the live root is stamped `live`,
/// with `live` different, reports no cache, whatever entries were stored.
pub proof fn lemma_other_root_reads_nothing(written: Stamp, live: Stamp, entries: Seq<Seq<u8>>)
    requires
        written != live,
    ensures
        read_record(live, record_bytes(written, entries)) is None,
{
    let data = record_bytes(written, entries);
    lemma_le_round_trip(written.dev);
    lemma_le_round_trip(written.ino);
    assert(data.subrange(0, 8) =~= le_bytes(written.dev));
    assert(data.subrange(8, 16) =~= le_bytes(written.ino));
    assert(le_u64(data) == le_u64(data.subrange(0, 8)));
    assert(stored_stamp(data) == written);
}

proof fn lemma_entries_bytes_front(e: Seq<u8>, rest: Seq<Seq<u8>>)
    ensures
        entries_bytes(seq![e] + rest) == e.push(TERMINATOR) + entries_bytes(rest),
    decreases rest.len(),
{
    let all = seq![e] + rest;
    if rest.len() > 0 {
        lemma_entries_bytes_front(e, rest.drop_last());
        assert(all.drop_last() =~= seq![e] + rest.drop_last());
        assert(all.last() == rest.last());
        assert(entries_bytes(all) == entries_bytes(all.drop_last()) + all.last().push(TERMINATOR));
        assert(entries_bytes(rest) == entries_bytes(rest.drop_last()) + rest.last().push(
            TERMINATOR,
        ));
        assert(e.push(TERMINATOR) + entries_bytes(rest.drop_last()) + rest.last().push(TERMINATOR)
            =~= e.push(TERMINATOR) + (entries_bytes(rest.drop_last()) + rest.last().push(
            TERMINATOR)));
    } else {
        assert(all.drop_last() =~= Seq::<Seq<u8>>::empty());
        assert(all.last() == e);
        assert(entries_bytes(all) == entries_bytes(all.drop_last()) + all.last().push(TERMINATOR));
        assert(entries_bytes(Seq::<Seq<u8>>::empty()) == Seq::<u8>::empty());
        assert(rest =~= Seq::<Seq<u8>>::empty());
        assert(Seq::<u8>::empty() + e.push(TERMINATOR) =~= e.push(TERMINATOR));
        assert(e.push(TERMINATOR) + Seq::<u8>::empty() =~= e.push(TERMINATOR));
    }
}

proof fn lemma_entries_from_bytes(head: Seq<u8>, entries: Seq<Seq<u8>>)
    requires
        forall|k: int| 0 <= k < entries.len() ==> !(#[trigger] entries[k]).contains(TERMINATOR),
    ensures
        entries_from(head + entries_bytes(entries), head.len() as int) == entries,
    decreases entries.len(),
{
    let data = head + entries_bytes(entries);
    if entries.len() == 0 {
        assert(data =~= head);
        assert(entries =~= Seq::<Seq<u8>>::empty());
    } else {
        let e = entries[0];
        let rest = entries.drop_first();
        assert(entries =~= seq![e] + rest);
        lemma_entries_bytes_front(e, rest);
        let head2 = head + e.push(TERMINATOR);
        assert(data =~= head2 + entries_bytes(rest));
        let i = head.len() as int;
        let end = i + e.len();
        assert forall|j: int| i <= j < end implies data[j] != TERMINATOR by {
            assert(data[j] == e[j - i]);
            if e[j - i] == TERMINATOR {
                assert(e.contains(TERMINATOR));
            }
        }
        assert(data[end] == TERMINATOR);
        lemma_entry_end_skip(data, i, end);
        assert(entry_end(data, i) == end);
        assert(data.subrange(i, end) =~= e);
        assert forall|k: int| 0 <= k < rest.len() implies !(#[trigger] rest[k]).contains(
            TERMINATOR,
        ) by {
            assert(rest[k] == entries[k + 1]);
        }
        lemma_entries_from_bytes(head2, rest);
        assert(head2.len() == end + 1);
        assert(entries_from(data, end + 1) == rest);
        assert(entries_from(data, i) == seq![data.subrange(i, end)] + entries_from(data, end + 1));
    }
}

/// Reading a record back for the root it was written for gives the entries
/// that were written, provided none holds the terminator byte; a record with
/// no entry reads as no cache.
pub proof fn lemma_record_round_trip(stamp: Stamp, entries: Seq<Seq<u8>>)
    requires
        forall|k: int| 0 <= k < entries.len() ==> !(#[trigger] entries[k]).contains(TERMINATOR),
    ensures
        read_record(stamp, record_bytes(stamp, entries)) == if entries.len() == 0 {
            None::<Seq<Seq<u8>>>
        } else {
            Some(entries)
        },
{
    let data = record_bytes(stamp, entries);
    lemma_le_round_trip(stamp.dev);
    lemma_le_round_trip(stamp.ino);
    assert(data.subrange(0, 8) =~= le_bytes(stamp.dev));
    assert(data.subrange(8, 16) =~= le_bytes(stamp.ino));
    assert(le_u64(data) == le_u64(data.subrange(0, 8)));
    assert(stored_stamp(data) == stamp);
    let head = le_bytes(stamp.dev) + le_bytes(stamp.ino);
    assert(data =~= head + entries_bytes(entries));
    lemma_entries_from_bytes(head, entries);
}

} // verus!
