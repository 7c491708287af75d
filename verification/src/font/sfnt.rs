//! Minimal OpenType container handling: wrap a bare CFF program (what PDF
//! embeds as `FontFile3`) in an `OTTO` file so that a shaping engine can open
//! it, and take the `CFF ` table back out afterwards.
use std::ops::Range;

use vstd::prelude::*;

use crate::bytes;

verus! {

// ------------------------------------------------------------- directory

/// How many records the directory claims.
pub open spec fn table_count(s: Seq<u8>) -> int {
    bytes::read_be16(s, 4)
}

/// The record `i` of the directory.
pub open spec fn record_at(s: Seq<u8>, i: int) -> Seq<u8> {
    s.subrange(12 + 16 * i, 28 + 16 * i)
}

/// Where the table of a record starts.
pub open spec fn record_start(rec: Seq<u8>) -> int {
    bytes::read_be32(rec, 8)
}

/// Where the table of a record ends.
pub open spec fn record_end(rec: Seq<u8>) -> int {
    bytes::read_be32(rec, 8) + bytes::read_be32(rec, 12)
}

/// The first record from `i` on, of those that the file holds, with this tag.
pub open spec fn find_record(s: Seq<u8>, tag: Seq<u8>, i: int) -> Option<int>
    decreases table_count(s) - i,
{
    if i < 0 || i >= table_count(s) || 28 + 16 * i > s.len() {
        None
    } else if record_at(s, i).take(4) == tag {
        Some(i)
    } else {
        find_record(s, tag, i + 1)
    }
}

/// Where the table with this tag lives: what the first record with the tag
/// says, if that lies inside the file.
pub open spec fn table_at(s: Seq<u8>, tag: Seq<u8>) -> Option<(int, int)> {
    if s.len() < 6 {
        None
    } else {
        match find_record(s, tag, 0) {
            Some(i) => if record_end(record_at(s, i)) <= s.len() {
                Some((record_start(record_at(s, i)), record_end(record_at(s, i))))
            } else {
                None
            },
            None => None,
        }
    }
}

/// Whether `s` starts with the four bytes.
pub open spec fn starts_with(s: Seq<u8>, a: u8, b: u8, c: u8, d: u8) -> bool {
    s.len() >= 4 && s[0] == a && s[1] == b && s[2] == c && s[3] == d
}

/// Whether `s` starts like a collection.
pub open spec fn is_collection(s: Seq<u8>) -> bool {
    starts_with(s, 't' as u8, 't' as u8, 'c' as u8, 'f' as u8)
}

/// Whether `s` starts like an OpenType font.
pub open spec fn looks_like_sfnt(s: Seq<u8>) -> bool {
    ||| starts_with(s, 0, 1, 0, 0)
    ||| starts_with(s, 'O' as u8, 'T' as u8, 'T' as u8, 'O' as u8)
    ||| starts_with(s, 't' as u8, 'r' as u8, 'u' as u8, 'e' as u8)
    ||| is_collection(s)
}

/// Whether the bytes at `at` are the four given ones.
fn four_at(s: &[u8], at: usize, a: u8, b: u8, c: u8, d: u8) -> (r: bool)
    requires
        at + 4 <= s.len(),
    ensures
        r == (s@[at as int] == a && s@[at + 1] == b && s@[at + 2] == c && s@[at + 3] == d),
{
    s[at] == a && s[at + 1] == b && s[at + 2] == c && s[at + 3] == d
}

/// Whether the bytes start like an OpenType font (TrueType, CFF-based
/// OpenType, Mac `true`, or a collection).
pub fn is_sfnt(data: &[u8]) -> (r: bool)
    ensures
        r == looks_like_sfnt(data@),
{
    data.len() >= 4 && (four_at(data, 0, 0, 1, 0, 0) || four_at(
        data,
        0,
        'O' as u8,
        'T' as u8,
        'T' as u8,
        'O' as u8,
    ) || four_at(data, 0, 't' as u8, 'r' as u8, 'u' as u8, 'e' as u8) || starts_collection(data))
}

fn starts_collection(data: &[u8]) -> (r: bool)
    ensures
        r == is_collection(data@),
{
    data.len() >= 4 && four_at(data, 0, 't' as u8, 't' as u8, 'c' as u8, 'f' as u8)
}

/// Where the table `tag` lives, from a scan of the directory.
pub fn table_range(data: &[u8], tag: &[u8; 4]) -> (r: Option<Range<usize>>)
    ensures
        match r {
            Some(range) => table_at(data@, tag@) == Some((range.start as int, range.end as int))
                && range.start <= range.end <= data.len(),
            None => table_at(data@, tag@) is None,
        },
{
    if data.len() < 6 {
        return None;
    }
    let count: usize = bytes::get_be16(data, 4) as usize;
    let mut i: usize = 0;
    while i < count
        invariant
            i <= count <= 0xFFFF,
            count == table_count(data@),
            data.len() >= 6,
            find_record(data@, tag@, 0) == find_record(data@, tag@, i as int),
        decreases count - i,
    {
        let at: usize = 12 + 16 * i;
        if data.len() < at || data.len() - at < 16 {
            return None;
        }
        let ghost rec = record_at(data@, i as int);
        proof {
            let t = rec.take(4);
            if t[0] == tag@[0] && t[1] == tag@[1] && t[2] == tag@[2] && t[3] == tag@[3] {
                assert(t =~= tag@);
            }
            assert(t[0] == data@[at as int] && t[1] == data@[at + 1] && t[2] == data@[at + 2]
                && t[3] == data@[at + 3]);
        }
        if four_at(data, at, tag[0], tag[1], tag[2], tag[3]) {
            let start = bytes::get_be32(data, at + 8) as u64;
            let length = bytes::get_be32(data, at + 12) as u64;
            proof {
                assert(rec[8] == data@[at + 8] && rec[9] == data@[at + 9] && rec[10] == data@[at
                    + 10] && rec[11] == data@[at + 11]);
                assert(rec[12] == data@[at + 12] && rec[13] == data@[at + 13] && rec[14]
                    == data@[at + 14] && rec[15] == data@[at + 15]);
            }
            if start + length <= data.len() as u64 {
                return Some(start as usize..(start + length) as usize);
            }
            return None;
        }
        i += 1;
    }
    None
}

/// The `CFF ` table of an OpenType font, or `None` when there is none.
pub fn unwrap_cff(sfnt: &[u8]) -> (r: Option<Vec<u8>>)
    ensures
        match r {
            Some(cff) => table_at(sfnt@, cff_tag()) is Some && cff@ == sfnt@.subrange(
                (table_at(sfnt@, cff_tag())->0).0,
                (table_at(sfnt@, cff_tag())->0).1,
            ),
            None => table_at(sfnt@, cff_tag()) is None,
        },
{
    let tag: [u8; 4] = ['C' as u8, 'F' as u8, 'F' as u8, ' ' as u8];
    assert(tag@ =~= cff_tag());
    match table_range(sfnt, &tag) {
        Some(range) => Some(bytes::copy_range(sfnt, range.start, range.end)),
        None => None,
    }
}

pub open spec fn cff_tag() -> Seq<u8> {
    seq!['C' as u8, 'F' as u8, 'F' as u8, ' ' as u8]
}

pub open spec fn head_tag() -> Seq<u8> {
    seq!['h' as u8, 'e' as u8, 'a' as u8, 'd' as u8]
}

pub open spec fn maxp_tag() -> Seq<u8> {
    seq!['m' as u8, 'a' as u8, 'x' as u8, 'p' as u8]
}

pub open spec fn loca_tag() -> Seq<u8> {
    seq!['l' as u8, 'o' as u8, 'c' as u8, 'a' as u8]
}

// ------------------------------------------------------------- normalizing

/// Tags in order of their bytes: `a` is not after `b`.
pub open spec fn tag_up_to(a: Seq<u8>, b: Seq<u8>) -> bool {
    bytes::read_be32(a, 0) <= bytes::read_be32(b, 0)
}

/// How many records, counted from the back of the first `n`, have a later tag
/// than `rec`, subtracted from `n`: where `rec` goes among them.
pub open spec fn place_of(sorted: Seq<Seq<u8>>, n: int, rec: Seq<u8>) -> int
    decreases n,
{
    if n <= 0 {
        0
    } else if tag_up_to(sorted[n - 1], rec) {
        n
    } else {
        place_of(sorted, n - 1, rec)
    }
}

/// The first `n` records of the directory that point inside the file, sorted
/// by tag; records with one tag keep their order.
pub open spec fn kept_records(s: Seq<u8>, n: int) -> Seq<Seq<u8>>
    decreases n,
{
    if n <= 0 {
        Seq::empty()
    } else {
        let before = kept_records(s, n - 1);
        let rec = record_at(s, n - 1);
        if record_end(rec) <= s.len() {
            before.insert(place_of(before, before.len() as int, rec), rec)
        } else {
            before
        }
    }
}

/// The first `n` records, one after the other.
pub open spec fn joined(records: Seq<Seq<u8>>, n: int) -> Seq<u8>
    decreases n,
{
    if n <= 0 {
        Seq::empty()
    } else {
        joined(records, n - 1) + records[n - 1]
    }
}

/// The font with the kept records at the front of its directory, and their
/// number in its header.
pub open spec fn sorted_directory(s: Seq<u8>) -> Seq<u8> {
    let kept = kept_records(s, table_count(s));
    s.take(4) + bytes::be16(kept.len() as int) + s.subrange(6, 12) + joined(
        kept,
        kept.len() as int,
    ) + s.skip(12 + 16 * kept.len() as int)
}

/// The font with version 1.0 in its `head` table.
pub open spec fn head_repaired(s: Seq<u8>) -> Seq<u8> {
    match table_at(s, head_tag()) {
        Some((start, end)) => if end - start >= 4 && !(s[start] == 0 && s[start + 1] == 1) {
            s.update(start, 0).update(start + 1, 1).update(start + 2, 0).update(start + 3, 0)
        } else {
            s
        },
        None => s,
    }
}

/// How many glyphs the `loca` table has offsets for, where the font tells.
pub open spec fn glyphs_available(s: Seq<u8>) -> Option<int> {
    match (table_at(s, head_tag()), table_at(s, loca_tag())) {
        (Some((head, head_end)), Some((loca, loca_end))) => if head_end - head < 52 {
            None
        } else {
            let long = !(s[head + 50] == 0 && s[head + 51] == 0);
            let entries = (loca_end - loca) / (if long {
                4int
            } else {
                2
            });
            if 1 <= entries <= 0x1_0000 {
                Some(entries - 1)
            } else {
                None
            }
        },
        _ => None,
    }
}

/// The font with a glyph count in `maxp` that `loca` provides for.
pub open spec fn glyphs_capped(s: Seq<u8>) -> Seq<u8> {
    match (table_at(s, maxp_tag()), glyphs_available(s)) {
        (Some((start, end)), Some(available)) => if end - start >= 6 && bytes::read_be16(
            s,
            start + 4,
        ) > available {
            s.update(start + 4, bytes::be16(available)[0]).update(
                start + 5,
                bytes::be16(available)[1],
            )
        } else {
            s
        },
        _ => s,
    }
}

/// Whether the font is one that can be put in shape: not a collection, and
/// its directory is all there.
pub open spec fn has_directory(s: Seq<u8>) -> bool {
    looks_like_sfnt(s) && !is_collection(s) && s.len() >= 6 && 12 + 16 * table_count(s) <= s.len()
}

/// The font in the shape that readers assume.
pub open spec fn normalized(s: Seq<u8>) -> Seq<u8> {
    if has_directory(s) {
        glyphs_capped(head_repaired(sorted_directory(s)))
    } else {
        s
    }
}

proof fn lemma_place_of(sorted: Seq<Seq<u8>>, n: int, rec: Seq<u8>)
    requires
        0 <= n <= sorted.len(),
    ensures
        0 <= place_of(sorted, n, rec) <= n,
        forall|k: int| place_of(sorted, n, rec) <= k < n ==> !tag_up_to(#[trigger] sorted[k], rec),
        place_of(sorted, n, rec) > 0 ==> tag_up_to(sorted[place_of(sorted, n, rec) - 1], rec),
    decreases n,
{
    if n > 0 && !tag_up_to(sorted[n - 1], rec) {
        lemma_place_of(sorted, n - 1, rec);
    }
}

/// The kept records are sixteen bytes each, no more than were looked at, and
/// in order of their tags.
proof fn lemma_kept(s: Seq<u8>, n: int)
    requires
        0 <= n,
        12 + 16 * n <= s.len(),
    ensures
        kept_records(s, n).len() <= n,
        forall|k: int|
            0 <= k < kept_records(s, n).len() ==> (#[trigger] kept_records(s, n)[k]).len() == 16
                && record_end(kept_records(s, n)[k]) <= s.len(),
        forall|i: int, j: int|
            0 <= i < j < kept_records(s, n).len() ==> tag_up_to(
                #[trigger] kept_records(s, n)[i],
                #[trigger] kept_records(s, n)[j],
            ),
    decreases n,
{
    if n > 0 {
        lemma_kept(s, n - 1);
        let before = kept_records(s, n - 1);
        let rec = record_at(s, n - 1);
        let after = kept_records(s, n);
        if record_end(rec) <= s.len() {
            let p = place_of(before, before.len() as int, rec);
            lemma_place_of(before, before.len() as int, rec);
            assert forall|k: int| 0 <= k < after.len() implies (#[trigger] after[k]).len() == 16
                && record_end(after[k]) <= s.len() by {
                if k < p {
                    assert(after[k] == before[k]);
                } else if k > p {
                    assert(after[k] == before[k - 1]);
                }
            }
            assert forall|i: int, j: int| 0 <= i < j < after.len() implies tag_up_to(
                #[trigger] after[i],
                #[trigger] after[j],
            ) by {
                let a = if i < p {
                    i
                } else {
                    i - 1
                };
                let b = if j < p {
                    j
                } else {
                    j - 1
                };
                if i != p {
                    assert(after[i] == before[a]);
                }
                if j != p {
                    assert(after[j] == before[b]);
                }
                if i != p && j != p {
                    assert(tag_up_to(before[a], before[b]));
                } else if i == p {
                    assert(!tag_up_to(before[b], rec));
                } else {
                    if a < p - 1 {
                        assert(tag_up_to(before[a], before[p - 1]));
                    }
                    assert(tag_up_to(before[p - 1], rec));
                }
            }
        }
    }
}

proof fn lemma_joined(records: Seq<Seq<u8>>, n: int)
    requires
        0 <= n <= records.len(),
        forall|k: int| 0 <= k < records.len() ==> (#[trigger] records[k]).len() == 16,
    ensures
        joined(records, n).len() == 16 * n,
        forall|k: int|
            0 <= k < n ==> joined(records, n).subrange(16 * k, 16 * k + 16) == #[trigger] records[k],
    decreases n,
{
    if n > 0 {
        lemma_joined(records, n - 1);
        assert forall|k: int| 0 <= k < n implies joined(records, n).subrange(16 * k, 16 * k + 16)
            == #[trigger] records[k] by {
            if k < n - 1 {
                assert(joined(records, n).subrange(16 * k, 16 * k + 16) =~= joined(
                    records,
                    n - 1,
                ).subrange(16 * k, 16 * k + 16));
            } else {
                assert(joined(records, n).subrange(16 * k, 16 * k + 16) =~= records[k]);
            }
        }
    }
}

/// The records of the directory that point inside the file, sorted by tag.
fn sort_records(data: &Vec<u8>, count: usize) -> (r: Vec<Vec<u8>>)
    requires
        count <= 0xFFFF,
        12 + 16 * count <= data.len(),
    ensures
        r@.map_values(|v: Vec<u8>| v@) == kept_records(data@, count as int),
        r@.len() <= count,
{
    let mut kept: Vec<Vec<u8>> = Vec::new();
    let mut i: usize = 0;
    assert(kept@.map_values(|v: Vec<u8>| v@) =~= kept_records(data@, 0));
    while i < count
        invariant
            i <= count <= 0xFFFF,
            12 + 16 * count <= data.len(),
            kept@.map_values(|v: Vec<u8>| v@) == kept_records(data@, i as int),
            kept@.len() <= i,
        decreases count - i,
    {
        let at: usize = 12 + 16 * i;
        let rec = bytes::copy_range(data, at, at + 16);
        assert(rec@ == record_at(data@, i as int));
        let end = bytes::get_be32(&rec, 8) as u64 + bytes::get_be32(&rec, 12) as u64;
        if end <= data.len() as u64 {
            let ghost before = kept_records(data@, i as int);
            proof {
                lemma_kept(data@, i as int);
            }
            let tag = bytes::get_be32(&rec, 0);
            let mut p: usize = kept.len();
            while p > 0 && bytes::get_be32(&kept[p - 1], 0) > tag
                invariant
                    p <= kept@.len(),
                    kept@.map_values(|v: Vec<u8>| v@) == before,
                    forall|k: int| 0 <= k < before.len() ==> (#[trigger] before[k]).len() == 16,
                    forall|k: int| 0 <= k < kept@.len() ==> (#[trigger] kept@[k])@ == before[k],
                    tag == bytes::read_be32(rec@, 0),
                    place_of(before, p as int, rec@) == place_of(
                        before,
                        before.len() as int,
                        rec@,
                    ),
                decreases p,
            {
                p -= 1;
            }
            proof {
                if p > 0 {
                    assert(kept@[p - 1]@ == before[p - 1]);
                }
            }
            let ghost old_kept = kept@;
            kept.insert(p, rec);
            assert(kept@.map_values(|v: Vec<u8>| v@) =~= before.insert(p as int, rec@));
        }
        i += 1;
    }
    kept
}

/// Puts a TrueType or OpenType program into the shape the readers assume
/// without changing any table's content: the directory sorted by tag with
/// records that point outside the file dropped, `head` at version 1.0, and
/// `maxp`'s glyph count no larger than `loca` provides for. Collections and
/// truncated directories are left alone.
pub fn normalize(data: &mut Vec<u8>)
    ensures
        final(data)@ == normalized(old(data)@),
        final(data)@.len() == old(data)@.len(),
{
    if !is_sfnt(data) || starts_collection(data) || data.len() < 6 {
        return;
    }
    let count: usize = bytes::get_be16(data, 4) as usize;
    if data.len() < 12 + 16 * count {
        return;
    }
    let ghost before = data@;
    let kept = sort_records(data, count);
    let ghost records = kept_records(before, count as int);
    proof {
        lemma_kept(before, count as int);
        lemma_joined(records, records.len() as int);
    }
    let mut out: Vec<u8> = bytes::copy_range(data, 0, 4);
    bytes::push_be16(&mut out, kept.len() as u16);
    bytes::append_range(&mut out, data, 6, 12);
    let ghost front = out@;
    let mut i: usize = 0;
    assert(front + joined(records, 0) =~= front);
    while i < kept.len()
        invariant
            i <= kept@.len(),
            kept@.map_values(|v: Vec<u8>| v@) == records,
            out@ == front + joined(records, i as int),
        decreases kept@.len() - i,
    {
        assert(records[i as int] == kept@[i as int]@);
        bytes::append(&mut out, &kept[i]);
        assert(out@ =~= front + joined(records, i + 1));
        i += 1;
    }
    let rest: usize = 12 + 16 * kept.len();
    bytes::append_range(&mut out, data, rest, data.len());
    assert(before.subrange(rest as int, before.len() as int) =~= before.skip(rest as int));
    assert(before.subrange(0, 4) =~= before.take(4));
    assert(out@ =~= sorted_directory(before));
    repair_head_version(&mut out);
    cap_glyph_count(&mut out);
    *data = out;
}

/// The `head` table has only ever had version 1.0, and readers refuse
/// any other major version.
fn repair_head_version(data: &mut Vec<u8>)
    ensures
        final(data)@ == head_repaired(old(data)@),
        final(data)@.len() == old(data)@.len(),
{
    let tag: [u8; 4] = ['h' as u8, 'e' as u8, 'a' as u8, 'd' as u8];
    assert(tag@ =~= head_tag());
    if let Some(head) = table_range(data, &tag) {
        let at = head.start;
        if head.end - at >= 4 && !(data[at] == 0 && data[at + 1] == 1) {
            data[at] = 0;
            data[at + 1] = 1;
            data[at + 2] = 0;
            data[at + 3] = 0;
        }
    }
}

/// `maxp` may claim more glyphs than `loca` has offsets for; the extra
/// glyph IDs have no outline either way.
fn cap_glyph_count(data: &mut Vec<u8>)
    ensures
        final(data)@ == glyphs_capped(old(data)@),
        final(data)@.len() == old(data)@.len(),
{
    let maxp_name: [u8; 4] = ['m' as u8, 'a' as u8, 'x' as u8, 'p' as u8];
    let head_name: [u8; 4] = ['h' as u8, 'e' as u8, 'a' as u8, 'd' as u8];
    let loca_name: [u8; 4] = ['l' as u8, 'o' as u8, 'c' as u8, 'a' as u8];
    assert(maxp_name@ =~= maxp_tag() && head_name@ =~= head_tag() && loca_name@ =~= loca_tag());
    let (maxp, head, loca) = match (
        table_range(data, &maxp_name),
        table_range(data, &head_name),
        table_range(data, &loca_name),
    ) {
        (Some(maxp), Some(head), Some(loca)) => (maxp, head, loca),
        _ => {
            return;
        },
    };
    if maxp.end - maxp.start < 6 || head.end - head.start < 52 {
        return;
    }
    let long = !(data[head.start + 50] == 0 && data[head.start + 51] == 0);
    let entries: usize = (loca.end - loca.start) / (if long {
        4usize
    } else {
        2
    });
    let claimed = bytes::get_be16(data, maxp.start + 4);
    if entries >= 1 && entries - 1 <= 0xFFFF {
        let available: u16 = (entries - 1) as u16;
        if claimed > available {
            data[maxp.start + 4] = (available / 256) as u8;
            data[maxp.start + 5] = (available % 256) as u8;
        }
    }
}

// ------------------------------------------------------------- building

/// A table: its tag and its content.
pub struct TableView {
    pub tag: Seq<u8>,
    pub data: Seq<u8>,
}

pub open spec fn tables_view(tables: Seq<(&[u8; 4], &[u8])>) -> Seq<TableView> {
    tables.map_values(|t: (&[u8; 4], &[u8])| TableView { tag: t.0@, data: t.1@ })
}

/// A length rounded up to a multiple of four.
pub open spec fn padded(len: int) -> int {
    (len + 3) / 4 * 4
}

/// The 32-bit word at `at`, with zeros where the data ends.
pub open spec fn word_at(s: Seq<u8>, at: int) -> int {
    byte_or_zero(s, at) * 0x100_0000 + byte_or_zero(s, at + 1) * 0x1_0000 + byte_or_zero(s, at + 2)
        * 256 + byte_or_zero(s, at + 3)
}

pub open spec fn byte_or_zero(s: Seq<u8>, at: int) -> int {
    if 0 <= at < s.len() {
        s[at] as int
    } else {
        0
    }
}

/// The sum of the first `n` words, modulo the range of a word.
pub open spec fn words_sum(s: Seq<u8>, n: int) -> int
    decreases n,
{
    if n <= 0 {
        0
    } else {
        (words_sum(s, n - 1) + word_at(s, 4 * (n - 1))) % 0x1_0000_0000
    }
}

/// The checksum of a table: the sum of its words.
pub open spec fn checksum_of(s: Seq<u8>) -> int {
    words_sum(s, padded(s.len() as int) / 4)
}

/// Where the body of table `i` starts.
pub open spec fn body_at(tables: Seq<TableView>, i: int) -> int
    decreases i,
{
    if i <= 0 {
        12 + 16 * tables.len() as int
    } else {
        body_at(tables, i - 1) + padded(tables[i - 1].data.len() as int)
    }
}

/// The directory record of table `i`.
#[verifier::opaque]
pub open spec fn record_of(tables: Seq<TableView>, i: int) -> Seq<u8> {
    tables[i].tag + bytes::be32(checksum_of(tables[i].data)) + bytes::be32(
        body_at(tables, i) % 0x1_0000_0000,
    ) + bytes::be32(tables[i].data.len() as int % 0x1_0000_0000)
}

/// The directory records of the first `n` tables.
pub open spec fn records_of(tables: Seq<TableView>, n: int) -> Seq<u8>
    decreases n,
{
    if n <= 0 {
        Seq::empty()
    } else {
        records_of(tables, n - 1) + record_of(tables, n - 1)
    }
}

pub open spec fn zeros(n: int) -> Seq<u8> {
    Seq::new(
        if n < 0 {
            0
        } else {
            n as nat
        },
        |i: int| 0u8,
    )
}

/// The bodies of the first `n` tables, each padded to a multiple of four.
pub open spec fn bodies_of(tables: Seq<TableView>, n: int) -> Seq<u8>
    decreases n,
{
    if n <= 0 {
        Seq::empty()
    } else {
        let data = tables[n - 1].data;
        bodies_of(tables, n - 1) + data + zeros(padded(data.len() as int) - data.len())
    }
}

/// The greatest power of two that is not above `n`, by its exponent.
pub open spec fn log2(n: int) -> int
    decreases n,
{
    if n < 2 {
        0
    } else {
        1 + log2(n / 2)
    }
}

pub open spec fn pow2(n: int) -> int
    decreases n,
{
    if n <= 0 {
        1
    } else {
        2 * pow2(n - 1)
    }
}

/// The header of a font with `n` tables.
pub open spec fn header_of(version: int, n: int) -> Seq<u8> {
    let range = 16 * pow2(log2(n));
    bytes::be32(version) + bytes::be16(n) + bytes::be16(range) + bytes::be16(log2(n))
        + bytes::be16(16 * n - range)
}

/// A font made of tables: header, directory, bodies.
pub open spec fn built(version: int, tables: Seq<TableView>) -> Seq<u8> {
    header_of(version, tables.len() as int) + records_of(tables, tables.len() as int) + bodies_of(
        tables,
        tables.len() as int,
    )
}

proof fn lemma_log2(n: int)
    requires
        1 <= n,
    ensures
        0 <= log2(n) < n,
        1 <= pow2(log2(n)) <= n,
    decreases n,
{
    if n >= 2 {
        lemma_log2(n / 2);
    }
}

fn selector(n: u16) -> (r: (u16, u16))
    requires
        1 <= n < 4096,
    ensures
        r.0 == log2(n as int),
        r.1 == 16 * pow2(log2(n as int)),
        r.1 <= 16 * n,
    decreases n,
{
    proof {
        lemma_log2(n as int);
    }
    if n < 2 {
        (0, 16)
    } else {
        let (k, range) = selector(n / 2);
        proof {
            assert(pow2(log2(n as int)) == 2 * pow2(log2(n as int / 2)));
        }
        (k + 1, range * 2)
    }
}

fn checksum(data: &[u8]) -> (r: u32)
    ensures
        r == checksum_of(data@),
{
    let mut sum: u32 = 0;
    let mut i: usize = 0;
    let ghost mut n: int = 0;
    while i < data.len()
        invariant
            sum == words_sum(data@, n),
            i <= data.len(),
            n >= 0,
            i == 4 * n || (i == data.len() && n == padded(data@.len() as int) / 4),
            4 * n <= padded(data@.len() as int),
        decreases data.len() - i,
    {
        let left: usize = data.len() - i;
        let b0 = data[i] as u32;
        let b1: u32 = if left > 1 {
            data[i + 1] as u32
        } else {
            0
        };
        let b2: u32 = if left > 2 {
            data[i + 2] as u32
        } else {
            0
        };
        let b3: u32 = if left > 3 {
            data[i + 3] as u32
        } else {
            0
        };
        let word: u32 = b0 * 0x100_0000 + b1 * 0x1_0000 + b2 * 256 + b3;
        assert(word == word_at(data@, 4 * n));
        sum = sum.wrapping_add(word);
        proof {
            n = n + 1;
        }
        if left > 4 {
            i += 4;
        } else {
            i = data.len();
        }
    }
    sum
}

/// How many bytes the font takes.
pub open spec fn built_len(tables: Seq<TableView>) -> int {
    body_at(tables, tables.len() as int)
}

proof fn lemma_body_at(tables: Seq<TableView>, i: int, j: int)
    requires
        0 <= i <= j <= tables.len(),
    ensures
        12 + 16 * tables.len() <= body_at(tables, i) <= body_at(tables, j),
        i < j ==> body_at(tables, i) + tables[i].data.len() <= body_at(tables, j),
    decreases j - i, i,
{
    if i < j {
        lemma_body_at(tables, i, j - 1);
    } else if i > 0 {
        lemma_body_at(tables, i - 1, i - 1);
    }
}

/// Appends the directory record of a table.
fn push_record(out: &mut Vec<u8>, tag: &[u8; 4], data: &[u8], offset: usize)
    ensures
        final(out)@ == old(out)@ + (tag@ + bytes::be32(checksum_of(data@)) + bytes::be32(
            offset as int % 0x1_0000_0000,
        ) + bytes::be32(data@.len() as int % 0x1_0000_0000)),
{
    let ghost before = out@;
    out.push(tag[0]);
    out.push(tag[1]);
    out.push(tag[2]);
    out.push(tag[3]);
    assert(out@ =~= before + tag@);
    bytes::push_be32(out, checksum(data));
    bytes::push_be32(out, (offset as u64 % 0x1_0000_0000) as u32);
    bytes::push_be32(out, (data.len() as u64 % 0x1_0000_0000) as u32);
    assert(out@ =~= before + (tag@ + bytes::be32(checksum_of(data@)) + bytes::be32(
        offset as int % 0x1_0000_0000,
    ) + bytes::be32(data@.len() as int % 0x1_0000_0000)));
}

/// A font with these tables, in this order.
pub fn build(version: u32, tables: &[(&[u8; 4], &[u8])]) -> (r: Vec<u8>)
    requires
        1 <= tables.len() < 4096,
        built_len(tables_view(tables@)) <= usize::MAX,
    ensures
        r@ == built(version as int, tables_view(tables@)),
{
    let ghost view = tables_view(tables@);
    let n: u16 = tables.len() as u16;
    let (entry_selector, search_range) = selector(n);
    let mut out: Vec<u8> = Vec::new();
    bytes::push_be32(&mut out, version);
    bytes::push_be16(&mut out, n);
    bytes::push_be16(&mut out, search_range);
    bytes::push_be16(&mut out, entry_selector);
    bytes::push_be16(&mut out, n * 16 - search_range);
    let ghost header = header_of(version as int, n as int);
    assert(out@ =~= header);
    let mut offset: usize = 12 + 16 * tables.len();
    let mut i: usize = 0;
    assert(header + records_of(view, 0) =~= header);
    while i < tables.len()
        invariant
            i <= tables.len() < 4096,
            view == tables_view(tables@),
            built_len(view) <= usize::MAX,
            offset == body_at(view, i as int),
            out@ == header + records_of(view, i as int),
        decreases tables.len() - i,
    {
        let (tag, data) = tables[i];
        assert(view[i as int] == (TableView { tag: tag@, data: data@ }));
        let ghost before = out@;
        push_record(&mut out, tag, data, offset);
        assert(out@ == before + record_of(view, i as int)) by {
            reveal(record_of);
        }
        assert(out@ =~= header + records_of(view, i + 1));
        proof {
            lemma_body_at(view, i + 1, view.len() as int);
            assert(padded(data@.len() as int) >= data@.len());
        }
        let spare: usize = (4 - data.len() % 4) % 4;
        assert(padded(data@.len() as int) == data@.len() + spare);
        offset = offset + data.len() + spare;
        i += 1;
    }
    let ghost front = header + records_of(view, view.len() as int);
    let mut j: usize = 0;
    assert(front + bodies_of(view, 0) =~= front);
    while j < tables.len()
        invariant
            j <= tables.len(),
            view == tables_view(tables@),
            out@ == front + bodies_of(view, j as int),
        decreases tables.len() - j,
    {
        let (tag, data) = tables[j];
        assert(view[j as int] == (TableView { tag: tag@, data: data@ }));
        let ghost before = out@;
        bytes::append(&mut out, data);
        let spare: usize = (4 - data.len() % 4) % 4;
        assert(padded(data@.len() as int) == data@.len() + spare);
        let mut k: usize = 0;
        assert(before + data@ + zeros(0) =~= before + data@);
        while k < spare
            invariant
                k <= spare,
                out@ == before + data@ + zeros(k as int),
            decreases spare - k,
        {
            out.push(0);
            k += 1;
            assert(out@ =~= before + data@ + zeros(k as int));
        }
        assert(out@ =~= front + bodies_of(view, j + 1));
        j += 1;
    }
    out
}

// ------------------------------------------------------------- CFF

/// What a CFF program says of itself: its glyph count and its units per em;
/// `None` where it does not parse.
pub uninterp spec fn cff_metrics(cff: Seq<u8>) -> Option<(u32, i32)>;

/// `read_fonts::ps::cff::CffFontRef::new_cff` for the first font of the
/// program, with `num_glyphs` and `upem`. The result is a function of the
/// bytes.
#[verifier::external_body]
fn read_cff_metrics(cff: &[u8]) -> (r: Option<(u32, i32)>)
    ensures
        r == cff_metrics(cff@),
{
    let font = read_fonts::ps::cff::CffFontRef::new_cff(cff, 0, None).ok()?;
    Some((font.num_glyphs(), font.upem()))
}

/// The `head` table of a wrapped program.
pub open spec fn head_of(upem: int) -> Seq<u8> {
    Seq::new(
        54,
        |i: int|
            if i == 1 {
                1u8
            } else if 12 <= i < 16 {
                bytes::be32(0x5F0F_3CF5)[i - 12]
            } else if 18 <= i < 20 {
                bytes::be16(upem)[i - 18]
            } else if i == 47 {
                8
            } else if i == 49 {
                2
            } else {
                0
            },
    )
}

/// The `maxp` table of a wrapped program.
pub open spec fn maxp_of(glyphs: int) -> Seq<u8> {
    seq![0u8, 0, 0x50, 0] + bytes::be16(glyphs)
}

/// The tables of a wrapped program.
pub open spec fn wrapped_tables(cff: Seq<u8>, glyphs: int, upem: int) -> Seq<TableView> {
    seq![
        TableView { tag: cff_tag(), data: cff },
        TableView { tag: head_tag(), data: head_of(upem) },
        TableView { tag: maxp_tag(), data: maxp_of(glyphs) },
    ]
}

/// A program with these metrics as an OpenType font; `None` where a font
/// cannot hold that many glyphs.
pub open spec fn wrapped(cff: Seq<u8>, metrics: (u32, i32)) -> Option<Seq<u8>> {
    if metrics.0 > 0xFFFF {
        None
    } else {
        let upem = if 0 <= metrics.1 <= 0xFFFF {
            metrics.1 as int
        } else {
            1000
        };
        Some(built(0x4F54_544F, wrapped_tables(cff, metrics.0 as int, upem)))
    }
}

fn head_table(upem: u16) -> (r: [u8; 54])
    ensures
        r@ == head_of(upem as int),
{
    let mut head: [u8; 54] = [0u8; 54];
    head[1] = 1;  // version 1.0
    // magic
    head[12] = 0x5F;
    head[13] = 0x0F;
    head[14] = 0x3C;
    head[15] = 0xF5;
    head[18] = (upem / 256) as u8;
    head[19] = (upem % 256) as u8;
    head[47] = 8;  // lowestRecPPEM
    head[49] = 2;  // fontDirectionHint
    assert(head@ =~= head_of(upem as int));
    head
}

/// A CFF program of the given metrics as an OpenType font with the `head` and
/// `maxp` tables that tell glyph count and units per em.
pub fn wrap_with(cff: &[u8], metrics: (u32, i32)) -> (r: Option<Vec<u8>>)
    requires
        cff.len() <= usize::MAX - 200,
    ensures
        match r {
            Some(out) => wrapped(cff@, metrics) == Some(out@),
            None => wrapped(cff@, metrics) is None,
        },
{
    if metrics.0 > 0xFFFF {
        return None;
    }
    let glyphs: u16 = metrics.0 as u16;
    let upem: u16 = if metrics.1 >= 0 && metrics.1 <= 0xFFFF {
        metrics.1 as u16
    } else {
        1000
    };
    let head = head_table(upem);
    let maxp: [u8; 6] = [0, 0, 0x50, 0, (glyphs / 256) as u8, (glyphs % 256) as u8];
    assert(maxp@ =~= maxp_of(glyphs as int));
    let cff_name: [u8; 4] = ['C' as u8, 'F' as u8, 'F' as u8, ' ' as u8];
    let head_name: [u8; 4] = ['h' as u8, 'e' as u8, 'a' as u8, 'd' as u8];
    let maxp_name: [u8; 4] = ['m' as u8, 'a' as u8, 'x' as u8, 'p' as u8];
    assert(cff_name@ =~= cff_tag() && head_name@ =~= head_tag() && maxp_name@ =~= maxp_tag());
    // Table records must be sorted by tag.
    let tables: [(&[u8; 4], &[u8]); 3] = [
        (&cff_name, cff),
        (&head_name, head.as_slice()),
        (&maxp_name, maxp.as_slice()),
    ];
    let ghost view = tables_view(tables@);
    proof {
        assert(view =~= wrapped_tables(cff@, glyphs as int, upem as int));
        reveal_with_fuel(body_at, 4);
    }
    Some(build(0x4F54_544F, tables.as_slice()))
}

/// A bare CFF program as an OpenType font with the `head` and `maxp`
/// tables that a shaping engine consults for glyph count and units per em.
/// `None` when the program does not parse as CFF.
pub fn wrap_cff(cff: &[u8]) -> (r: Option<Vec<u8>>)
    requires
        cff.len() <= usize::MAX - 200,
    ensures
        match r {
            Some(out) => cff_metrics(cff@) is Some && wrapped(cff@, cff_metrics(cff@)->0) == Some(
                out@,
            ),
            None => cff_metrics(cff@) is None || wrapped(cff@, cff_metrics(cff@)->0) is None,
        },
{
    let metrics = read_cff_metrics(cff)?;
    wrap_with(cff, metrics)
}

// ------------------------------------------------------------- laws

proof fn lemma_record_len(tables: Seq<TableView>, i: int)
    requires
        tables[i].tag.len() == 4,
    ensures
        record_of(tables, i).len() == 16,
{
    reveal(record_of);
}

proof fn lemma_records_of(tables: Seq<TableView>, n: int)
    requires
        0 <= n <= tables.len(),
        forall|k: int| 0 <= k < tables.len() ==> (#[trigger] tables[k]).tag.len() == 4,
    ensures
        records_of(tables, n).len() == 16 * n,
        forall|k: int|
            0 <= k < n ==> records_of(tables, n).subrange(16 * k, 16 * k + 16)
                == #[trigger] record_of(tables, k),
    decreases n,
{
    if n > 0 {
        lemma_records_of(tables, n - 1);
        assert(tables[n - 1].tag.len() == 4);
        lemma_record_len(tables, n - 1);
        assert forall|k: int| 0 <= k < n implies records_of(tables, n).subrange(
            16 * k,
            16 * k + 16,
        ) == #[trigger] record_of(tables, k) by {
            if k < n - 1 {
                assert(records_of(tables, n).subrange(16 * k, 16 * k + 16) =~= records_of(
                    tables,
                    n - 1,
                ).subrange(16 * k, 16 * k + 16));
            } else {
                assert(records_of(tables, n).subrange(16 * k, 16 * k + 16) =~= record_of(
                    tables,
                    k,
                ));
            }
        }
    }
}

proof fn lemma_bodies_of(tables: Seq<TableView>, n: int, k: int)
    requires
        0 <= k < n <= tables.len(),
    ensures
        bodies_of(tables, n).len() == body_at(tables, n) - body_at(tables, 0),
        body_at(tables, 0) <= body_at(tables, k),
        body_at(tables, k) + tables[k].data.len() <= body_at(tables, n),
        bodies_of(tables, n).subrange(
            body_at(tables, k) - body_at(tables, 0),
            body_at(tables, k) - body_at(tables, 0) + tables[k].data.len(),
        ) == tables[k].data,
    decreases n,
{
    let data = tables[n - 1].data;
    lemma_body_at(tables, k, n);
    lemma_body_at(tables, 0, k);
    lemma_bodies_len(tables, n - 1);
    lemma_bodies_len(tables, n);
    let from = body_at(tables, k) - body_at(tables, 0);
    let to = from + tables[k].data.len();
    if k < n - 1 {
        lemma_bodies_of(tables, n - 1, k);
        assert(bodies_of(tables, n).subrange(from, to) =~= bodies_of(tables, n - 1).subrange(
            from,
            to,
        ));
    } else {
        assert(bodies_of(tables, n).subrange(from, to) =~= data);
    }
}

proof fn lemma_bodies_len(tables: Seq<TableView>, n: int)
    requires
        0 <= n <= tables.len(),
    ensures
        bodies_of(tables, n).len() == body_at(tables, n) - body_at(tables, 0),
    decreases n,
{
    if n > 0 {
        lemma_bodies_len(tables, n - 1);
        assert(padded(tables[n - 1].data.len() as int) >= tables[n - 1].data.len());
    }
}

proof fn lemma_find_record(s: Seq<u8>, tag: Seq<u8>, from: int, at: int)
    requires
        0 <= from <= at < table_count(s),
        28 + 16 * at <= s.len(),
        record_at(s, at).take(4) == tag,
        forall|k: int| from <= k < at ==> (#[trigger] record_at(s, k)).take(4) != tag,
    ensures
        find_record(s, tag, from) == Some(at),
    decreases at - from,
{
    if from < at {
        assert(record_at(s, from).take(4) != tag);
        lemma_find_record(s, tag, from + 1, at);
    }
}

proof fn lemma_record_fields(tables: Seq<TableView>, i: int)
    requires
        0 <= i < tables.len(),
        tables[i].tag.len() == 4,
        0 <= body_at(tables, i) < 0x1_0000_0000,
        tables[i].data.len() < 0x1_0000_0000,
    ensures
        record_of(tables, i).take(4) == tables[i].tag,
        record_start(record_of(tables, i)) == body_at(tables, i),
        record_end(record_of(tables, i)) == body_at(tables, i) + tables[i].data.len(),
{
    reveal(record_of);
    let start = body_at(tables, i);
    let len = tables[i].data.len() as int;
    let sum = bytes::be32(checksum_of(tables[i].data));
    let a = bytes::be32(start);
    let b = bytes::be32(len);
    assert(start % 0x1_0000_0000 == start && len % 0x1_0000_0000 == len);
    lemma_four_parts(tables[i].tag, sum, a, b);
    bytes::lemma_be32(start);
    bytes::lemma_be32(len);
}

proof fn lemma_four_parts(tag: Seq<u8>, sum: Seq<u8>, a: Seq<u8>, b: Seq<u8>)
    requires
        tag.len() == 4,
        sum.len() == 4,
        a.len() == 4,
        b.len() == 4,
    ensures
        ({
            let rec = tag + sum + a + b;
            rec.take(4) == tag && rec[8] == a[0] && rec[9] == a[1] && rec[10] == a[2] && rec[11]
                == a[3] && rec[12] == b[0] && rec[13] == b[1] && rec[14] == b[2] && rec[15] == b[3]
        }),
{
    assert((tag + sum + a + b).take(4) =~= tag);
}

proof fn lemma_built_count(version: int, tables: Seq<TableView>)
    requires
        tables.len() < 4096,
    ensures
        table_count(built(version, tables)) == tables.len(),
        header_of(version, tables.len() as int).len() == 12,
{
    let n = tables.len() as int;
    let s = built(version, tables);
    let header = header_of(version, n);
    assert(header.len() == 12);
    assert(s[4] == header[4] && s[5] == header[5]);
    bytes::lemma_be16(n);
    assert(header[4] == bytes::be16(n)[0] && header[5] == bytes::be16(n)[1]);
}

/// Every table of a built font is found again under its tag, the first of
/// those that share one, with the content it was given.
pub proof fn built_tables_are_found(version: int, tables: Seq<TableView>, i: int)
    requires
        0 <= version <= u32::MAX,
        0 <= i < tables.len() < 4096,
        forall|k: int| 0 <= k < tables.len() ==> (#[trigger] tables[k]).tag.len() == 4,
        forall|k: int| 0 <= k < i ==> (#[trigger] tables[k]).tag != tables[i].tag,
        built_len(tables) < 0x1_0000_0000,
    ensures
        ({
            let s = built(version, tables);
            &&& table_at(s, tables[i].tag) is Some
            &&& s.subrange(
                (table_at(s, tables[i].tag)->0).0,
                (table_at(s, tables[i].tag)->0).1,
            ) == tables[i].data
        }),
{
    let n = tables.len() as int;
    let s = built(version, tables);
    let header = header_of(version, n);
    let records = records_of(tables, n);
    let bodies = bodies_of(tables, n);
    lemma_records_of(tables, n);
    lemma_bodies_of(tables, n, i);
    lemma_built_count(version, tables);
    assert forall|k: int| 0 <= k <= i implies #[trigger] record_at(s, k) == record_of(tables, k)
        by {
        assert(record_at(s, k) =~= records.subrange(16 * k, 16 * k + 16));
        assert(tables[k].tag.len() == 4);
    }
    let tag = tables[i].tag;
    assert forall|k: int| 0 <= k < i implies (#[trigger] record_at(s, k)).take(4) != tag by {
        lemma_bodies_of(tables, n, k);
        lemma_record_fields(tables, k);
    }
    lemma_record_fields(tables, i);
    lemma_find_record(s, tag, 0, i);
    let start = body_at(tables, i);
    let len = tables[i].data.len() as int;
    assert(s.len() == built_len(tables)) by {
        lemma_bodies_len(tables, n);
    }
    assert(s.subrange(start, start + len) =~= bodies.subrange(
        start - body_at(tables, 0),
        start - body_at(tables, 0) + len,
    ));
}

/// The places of tables are multiples of four.
proof fn lemma_aligned(tables: Seq<TableView>, i: int)
    ensures
        body_at(tables, i) % 4 == 0,
    decreases i,
{
    if i > 0 {
        lemma_aligned(tables, i - 1);
    }
}

/// A wrapped program is taken out again as it was put in. The container is an
/// OpenType font, padded to a multiple of four bytes.
pub proof fn wrapping_loses_nothing(cff: Seq<u8>, metrics: (u32, i32))
    requires
        wrapped(cff, metrics) is Some,
        cff.len() < 0xFFFF_FF00,
    ensures
        ({
            let s = wrapped(cff, metrics)->0;
            &&& table_at(s, cff_tag()) is Some
            &&& s.subrange((table_at(s, cff_tag())->0).0, (table_at(s, cff_tag())->0).1) == cff
            &&& looks_like_sfnt(s)
            &&& s.len() % 4 == 0
        }),
{
    let upem = if 0 <= metrics.1 <= 0xFFFF {
        metrics.1 as int
    } else {
        1000
    };
    let tables = wrapped_tables(cff, metrics.0 as int, upem);
    reveal_with_fuel(body_at, 4);
    assert forall|k: int| 0 <= k < tables.len() implies (#[trigger] tables[k]).tag.len() == 4 by {
    }
    built_tables_are_found(0x4F54_544F, tables, 0);
    let n = tables.len() as int;
    let s = built(0x4F54_544F, tables);
    lemma_records_of(tables, n);
    lemma_bodies_len(tables, n);
    lemma_built_count(0x4F54_544F, tables);
    lemma_aligned(tables, n);
    bytes::lemma_be32(0x4F54_544F);
    assert(s[0] == header_of(0x4F54_544F, n)[0] && s[1] == header_of(0x4F54_544F, n)[1] && s[2]
        == header_of(0x4F54_544F, n)[2] && s[3] == header_of(0x4F54_544F, n)[3]);
}

/// The repairs of a font with a sorted directory stay clear of its header
/// and directory, and of what they read from each other.
pub open spec fn repairs_apart(s: Seq<u8>) -> bool {
    let front = 12 + 16 * table_count(s);
    &&& match table_at(s, head_tag()) {
        Some((head, end)) => end - head >= 4 ==> head >= front,
        None => true,
    }
    &&& match table_at(s, maxp_tag()) {
        Some((maxp, stop)) => stop - maxp >= 6 ==> maxp + 4 >= front && match table_at(
            s,
            head_tag(),
        ) {
            Some((head, end)) => {
                &&& end - head >= 4 ==> maxp + 6 <= head || head + 4 <= maxp + 4
                &&& end - head >= 52 ==> maxp + 6 <= head + 50 || head + 52 <= maxp + 4
            },
            None => true,
        },
        None => true,
    }
}

/// Whether the tables of a font that lie inside it overlap neither its header
/// and directory nor each other.
pub open spec fn tables_apart(s: Seq<u8>) -> bool {
    &&& forall|i: int|
        0 <= i < table_count(s) && record_end(#[trigger] record_at(s, i)) <= s.len() && record_start(
            record_at(s, i),
        ) < record_end(record_at(s, i)) ==> record_start(record_at(s, i)) >= 12 + 16 * table_count(
            s,
        )
    &&& forall|i: int, j: int|
        0 <= i < table_count(s) && 0 <= j < table_count(s) && i != j && record_end(
            #[trigger] record_at(s, i),
        ) <= s.len() && record_end(#[trigger] record_at(s, j)) <= s.len() && record_start(
            record_at(s, i),
        ) < record_end(record_at(s, i)) && record_start(record_at(s, j)) < record_end(
            record_at(s, j),
        ) ==> record_end(record_at(s, i)) <= record_start(record_at(s, j)) || record_end(
            record_at(s, j),
        ) <= record_start(record_at(s, i))
}

proof fn lemma_same_records(a: Seq<u8>, b: Seq<u8>, tag: Seq<u8>, i: int)
    requires
        a.len() == b.len(),
        a.len() >= 12,
        0 <= i <= table_count(a),
        12 + 16 * table_count(a) <= a.len(),
        a.take(12 + 16 * table_count(a)) == b.take(12 + 16 * table_count(a)),
    ensures
        table_count(a) == table_count(b),
        find_record(a, tag, i) == find_record(b, tag, i),
        forall|k: int| 0 <= k < table_count(a) ==> #[trigger] record_at(a, k) == record_at(b, k),
    decreases table_count(a) - i,
{
    let n = table_count(a);
    let front = 12 + 16 * n;
    assert forall|k: int| 0 <= k < front implies a[k] == b[k] by {
        assert(a.take(front)[k] == b.take(front)[k]);
    }
    assert forall|k: int| 0 <= k < n implies #[trigger] record_at(a, k) == record_at(b, k) by {
        assert(record_at(a, k) =~= record_at(b, k));
    }
    if i < n {
        lemma_same_records(a, b, tag, i + 1);
    }
}

proof fn lemma_same_tables(a: Seq<u8>, b: Seq<u8>, tag: Seq<u8>)
    requires
        a.len() == b.len(),
        a.len() >= 12,
        12 + 16 * table_count(a) <= a.len(),
        a.take(12 + 16 * table_count(a)) == b.take(12 + 16 * table_count(a)),
    ensures
        table_at(a, tag) == table_at(b, tag),
{
    lemma_same_records(a, b, tag, 0);
    lemma_find_bounds(a, tag, 0);
}

proof fn lemma_find_bounds(s: Seq<u8>, tag: Seq<u8>, i: int)
    requires
        0 <= i,
    ensures
        match find_record(s, tag, i) {
            Some(k) => i <= k < table_count(s) && 28 + 16 * k <= s.len(),
            None => true,
        },
    decreases table_count(s) - i,
{
    if i < table_count(s) && 28 + 16 * i <= s.len() && record_at(s, i).take(4) != tag {
        lemma_find_bounds(s, tag, i + 1);
    }
}

proof fn lemma_table_bounds(s: Seq<u8>, tag: Seq<u8>)
    ensures
        match table_at(s, tag) {
            Some((start, end)) => 0 <= start <= end <= s.len(),
            None => true,
        },
{
    lemma_find_bounds(s, tag, 0);
}

/// A directory that is sorted already, with every record inside the file, is
/// kept as it is.
proof fn lemma_kept_again(s: Seq<u8>, records: Seq<Seq<u8>>, n: int)
    requires
        0 <= n <= records.len(),
        forall|k: int|
            0 <= k < records.len() ==> record_at(s, k) == #[trigger] records[k] && record_end(
                records[k],
            ) <= s.len(),
        forall|i: int, j: int|
            0 <= i < j < records.len() ==> tag_up_to(
                #[trigger] records[i],
                #[trigger] records[j],
            ),
    ensures
        kept_records(s, n) == records.take(n),
    decreases n,
{
    if n > 0 {
        lemma_kept_again(s, records, n - 1);
        let before = records.take(n - 1);
        let rec = records[n - 1];
        assert(record_at(s, n - 1) == rec);
        if n > 1 {
            assert(before[n - 2] == records[n - 2]);
            assert(tag_up_to(records[n - 2], records[n - 1]));
        }
        assert(place_of(before, n - 1, rec) == n - 1);
        assert(before.insert(n - 1, rec) =~= records.take(n));
    } else {
        assert(records.take(0) =~= Seq::empty());
    }
}

/// The bytes of a font with a new directory.
proof fn lemma_laid_out(s: Seq<u8>, records: Seq<Seq<u8>>)
    requires
        12 + 16 * records.len() <= s.len(),
        forall|k: int| 0 <= k < records.len() ==> (#[trigger] records[k]).len() == 16,
    ensures
        ({
            let k = records.len() as int;
            let front = 12 + 16 * k;
            let d = s.take(4) + bytes::be16(k) + s.subrange(6, 12) + joined(records, k) + s.skip(
                front,
            );
            &&& d.len() == s.len()
            &&& d[4] == bytes::be16(k)[0] && d[5] == bytes::be16(k)[1]
            &&& forall|i: int|
                0 <= i < s.len() && !(4 <= i < 6) && !(12 <= i < front) ==> #[trigger] d[i] == s[i]
            &&& forall|i: int| 12 <= i < front ==> #[trigger] d[i] == joined(records, k)[i - 12]
        }),
{
    lemma_joined(records, records.len() as int);
}

/// A font with a sorted directory has it sorted again unchanged, whatever
/// stands behind the directory.
#[verifier::spinoff_prover]
#[verifier::rlimit(40)]
proof fn lemma_sorted_again(s: Seq<u8>, t: Seq<u8>)
    requires
        has_directory(s),
        t.len() == s.len(),
        t.take(12 + 16 * kept_records(s, table_count(s)).len() as int) == sorted_directory(s).take(
            12 + 16 * kept_records(s, table_count(s)).len() as int,
        ),
    ensures
        sorted_directory(t) == t,
        table_count(t) == kept_records(s, table_count(s)).len(),
        has_directory(t),
        sorted_directory(s).len() == s.len(),
{
    let kept = kept_records(s, table_count(s));
    let k = kept.len() as int;
    let d = sorted_directory(s);
    let front = 12 + 16 * k;
    lemma_kept(s, table_count(s));
    lemma_joined(kept, k);
    lemma_laid_out(s, kept);
    assert forall|i: int| 0 <= i < front implies t[i] == d[i] by {
        assert(t.take(front)[i] == d.take(front)[i]);
    }
    bytes::lemma_be16(k);
    assert(table_count(t) == k);
    assert(t[0] == s[0] && t[1] == s[1] && t[2] == s[2] && t[3] == s[3]);
    assert forall|i: int| 0 <= i < k implies record_at(t, i) == #[trigger] kept[i] && record_end(
        kept[i],
    ) <= t.len() by {
        assert(record_at(t, i) =~= joined(kept, k).subrange(16 * i, 16 * i + 16));
    }
    lemma_kept_again(t, kept, k);
    assert(kept.take(k) =~= kept);
    lemma_laid_out(t, kept);
    assert(sorted_directory(t) =~= t);
}

proof fn lemma_head_step(d: Seq<u8>)
    requires
        d.len() >= 12,
        12 + 16 * table_count(d) <= d.len(),
        repairs_apart(d),
    ensures
        ({
            let h = head_repaired(d);
            &&& h.len() == d.len()
            &&& table_count(h) == table_count(d)
            &&& h.take(12 + 16 * table_count(d)) == d.take(12 + 16 * table_count(d))
            &&& repairs_apart(h)
            &&& head_repaired(h) == h
        }),
{
    let h = head_repaired(d);
    let front = 12 + 16 * table_count(d);
    lemma_table_bounds(d, head_tag());
    assert(h.take(front) =~= d.take(front));
    lemma_same_records(d, h, head_tag(), 0);
    lemma_same_tables(d, h, head_tag());
    lemma_same_tables(d, h, maxp_tag());
}

proof fn lemma_cap_step(h: Seq<u8>)
    requires
        h.len() >= 12,
        12 + 16 * table_count(h) <= h.len(),
        repairs_apart(h),
        head_repaired(h) == h,
    ensures
        ({
            let n = glyphs_capped(h);
            &&& n.len() == h.len()
            &&& n.take(12 + 16 * table_count(h)) == h.take(12 + 16 * table_count(h))
            &&& head_repaired(n) == n
            &&& glyphs_capped(n) == n
        }),
{
    let n = glyphs_capped(h);
    let front = 12 + 16 * table_count(h);
    lemma_table_bounds(h, head_tag());
    lemma_table_bounds(h, maxp_tag());
    assert(n.take(front) =~= h.take(front));
    lemma_same_tables(h, n, head_tag());
    lemma_same_tables(h, n, maxp_tag());
    lemma_same_tables(h, n, loca_tag());
    match (table_at(h, maxp_tag()), glyphs_available(h)) {
        (Some((start, end)), Some(available)) => {
            if end - start >= 6 && bytes::read_be16(h, start + 4) > available {
                let (head, head_end) = table_at(h, head_tag())->0;
                assert(n[head + 50] == h[head + 50] && n[head + 51] == h[head + 51]);
                assert(glyphs_available(n) == Some(available));
                bytes::lemma_be16(available);
                assert(n[start + 4] == bytes::be16(available)[0]);
                assert(n[start + 5] == bytes::be16(available)[1]);
                assert(bytes::read_be16(n, start + 4) == available);
                assert(head_end - head >= 4 ==> n[head] == h[head] && n[head + 1] == h[head + 1]);
            }
        },
        _ => {},
    }
}

/// A normalized font is a fixed point, provided that the tables which are
/// repaired overlap neither the directory nor each other's repaired fields.
pub proof fn normalizing_again_changes_nothing(s: Seq<u8>)
    requires
        repairs_apart(sorted_directory(s)),
    ensures
        normalized(normalized(s)) == normalized(s),
{
    if has_directory(s) {
        let d = sorted_directory(s);
        lemma_kept(s, table_count(s));
        lemma_joined(
            kept_records(s, table_count(s)),
            kept_records(s, table_count(s)).len() as int,
        );
        assert(d.len() == s.len());
        lemma_sorted_again(s, d);
        lemma_head_step(d);
        let h = head_repaired(d);
        lemma_cap_step(h);
        lemma_sorted_again(s, glyphs_capped(h));
    }
}

/// A kept record is a record of the directory.
proof fn lemma_kept_from(s: Seq<u8>, n: int, k: int)
    requires
        0 <= k < kept_records(s, n).len(),
    ensures
        exists|i: int|
            0 <= i < n && #[trigger] record_at(s, i) == kept_records(s, n)[k] && record_end(
                record_at(s, i),
            ) <= s.len(),
    decreases n,
{
    if n > 0 {
        let before = kept_records(s, n - 1);
        let rec = record_at(s, n - 1);
        if record_end(rec) <= s.len() {
            let at = place_of(before, before.len() as int, rec);
            lemma_place_of(before, before.len() as int, rec);
            let after = before.insert(at, rec);
            if k == at {
                assert(record_at(s, n - 1) == after[k]);
            } else {
                let old_k = if k < at {
                    k
                } else {
                    k - 1
                };
                assert(after[k] == before[old_k]);
                lemma_kept_from(s, n - 1, old_k);
                let i = choose|i: int|
                    0 <= i < n - 1 && #[trigger] record_at(s, i) == before[old_k] && record_end(
                        record_at(s, i),
                    ) <= s.len();
                assert(record_at(s, i) == after[k]);
            }
        } else {
            lemma_kept_from(s, n - 1, k);
            let i = choose|i: int|
                0 <= i < n - 1 && #[trigger] record_at(s, i) == before[k] && record_end(
                    record_at(s, i),
                ) <= s.len();
            assert(record_at(s, i) == before[k]);
        }
    }
}

/// A table of the sorted font is that of a record of the font with its tag.
proof fn lemma_table_from(s: Seq<u8>, tag: Seq<u8>) -> (i: int)
    requires
        has_directory(s),
        table_at(sorted_directory(s), tag) is Some,
    ensures
        0 <= i < table_count(s),
        record_at(s, i).take(4) == tag,
        record_end(record_at(s, i)) <= s.len(),
        table_at(sorted_directory(s), tag) == Some(
            (record_start(record_at(s, i)), record_end(record_at(s, i))),
        ),
{
    let d = sorted_directory(s);
    let n = table_count(s);
    let kept = kept_records(s, n);
    lemma_kept(s, n);
    lemma_joined(kept, kept.len() as int);
    lemma_sorted_again(s, d);
    lemma_find_bounds(d, tag, 0);
    let k = find_record(d, tag, 0)->0;
    lemma_find_tag(d, tag, 0);
    assert(record_at(d, k) =~= joined(kept, kept.len() as int).subrange(16 * k, 16 * k + 16));
    assert(record_at(d, k) == kept[k]);
    lemma_kept_from(s, n, k);
    choose|i: int|
        0 <= i < n && #[trigger] record_at(s, i) == kept[k] && record_end(record_at(s, i))
            <= s.len()
}

proof fn lemma_find_tag(s: Seq<u8>, tag: Seq<u8>, i: int)
    requires
        0 <= i,
        find_record(s, tag, i) is Some,
    ensures
        record_at(s, find_record(s, tag, i)->0).take(4) == tag,
    decreases table_count(s) - i,
{
    if record_at(s, i).take(4) != tag {
        lemma_find_tag(s, tag, i + 1);
    }
}

/// The repairs of a font whose tables do not overlap stay clear of each other.
proof fn lemma_apart(s: Seq<u8>)
    requires
        has_directory(s),
        tables_apart(s),
    ensures
        repairs_apart(sorted_directory(s)),
{
    let d = sorted_directory(s);
    lemma_kept(s, table_count(s));
    lemma_joined(kept_records(s, table_count(s)), kept_records(s, table_count(s)).len() as int);
    lemma_sorted_again(s, d);
    assert(table_count(d) <= table_count(s));
    if table_at(d, head_tag()) is Some {
        let i = lemma_table_from(s, head_tag());
        if table_at(d, maxp_tag()) is Some {
            let j = lemma_table_from(s, maxp_tag());
            assert(head_tag() != maxp_tag()) by {
                assert(head_tag()[0] != maxp_tag()[0]);
            }
            assert(i != j);
            assert(record_at(s, i) != record_at(s, j));
        }
    } else if table_at(d, maxp_tag()) is Some {
        let j = lemma_table_from(s, maxp_tag());
    }
}

/// A font whose tables do not overlap is in shape once it was normalized:
/// normalizing it again changes nothing, its `head` table has version 1.0 and
/// its `maxp` table claims no more glyphs than `loca` places.
pub proof fn normalized_fonts_are_in_shape(s: Seq<u8>)
    requires
        has_directory(s),
        tables_apart(s),
    ensures
        normalized(normalized(s)) == normalized(s),
        match table_at(normalized(s), head_tag()) {
            Some((head, end)) => end - head >= 4 ==> normalized(s)[head] == 0 && normalized(s)[head
                + 1] == 1,
            None => true,
        },
        match (table_at(normalized(s), maxp_tag()), glyphs_available(normalized(s))) {
            (Some((maxp, end)), Some(available)) => end - maxp >= 6 ==> bytes::read_be16(
                normalized(s),
                maxp + 4,
            ) <= available,
            _ => true,
        },
{
    let d = sorted_directory(s);
    lemma_apart(s);
    normalizing_again_changes_nothing(s);
    lemma_kept(s, table_count(s));
    lemma_joined(kept_records(s, table_count(s)), kept_records(s, table_count(s)).len() as int);
    lemma_sorted_again(s, d);
    lemma_head_step(d);
    let h = head_repaired(d);
    lemma_cap_step(h);
    let n = glyphs_capped(h);
    assert(n == normalized(s));
    lemma_table_bounds(n, head_tag());
    lemma_table_bounds(n, maxp_tag());
    lemma_in_shape(n);
}

/// What the repairs leave alone is in shape.
proof fn lemma_in_shape(n: Seq<u8>)
    requires
        head_repaired(n) == n,
        glyphs_capped(n) == n,
    ensures
        match table_at(n, head_tag()) {
            Some((head, end)) => end - head >= 4 ==> n[head] == 0 && n[head + 1] == 1,
            None => true,
        },
        match (table_at(n, maxp_tag()), glyphs_available(n)) {
            (Some((maxp, end)), Some(available)) => end - maxp >= 6 ==> bytes::read_be16(
                n,
                maxp + 4,
            ) <= available,
            _ => true,
        },
{
    lemma_table_bounds(n, head_tag());
    lemma_table_bounds(n, maxp_tag());
    if let Some((head, end)) = table_at(n, head_tag()) {
        if end - head >= 4 && !(n[head] == 0 && n[head + 1] == 1) {
            assert(head_repaired(n)[head] == 0);
            assert(head_repaired(n)[head + 1] == 1);
        }
    }
    if let (Some((maxp, end)), Some(available)) = (table_at(n, maxp_tag()), glyphs_available(n)) {
        if end - maxp >= 6 && bytes::read_be16(n, maxp + 4) > available {
            bytes::lemma_be16(available);
            let m = glyphs_capped(n);
            assert(m[maxp + 4] == bytes::be16(available)[0]);
            assert(m[maxp + 5] == bytes::be16(available)[1]);
        }
    }
}

} // verus!
