//! Small operations on byte sequences that the other modules share.
use vstd::prelude::*;

verus! {

/// Whether two byte strings are the same.
pub fn same(a: &[u8], b: &[u8]) -> (r: bool)
    ensures
        r == (a@ == b@),
{
    if a.len() != b.len() {
        return false;
    }
    let mut i: usize = 0;
    while i < a.len()
        invariant
            i <= a.len(),
            a.len() == b.len(),
            forall|k: int| 0 <= k < i ==> a@[k] == b@[k],
        decreases a.len() - i,
    {
        if a[i] != b[i] {
            return false;
        }
        i += 1;
    }
    assert(a@ =~= b@);
    true
}

/// The bytes `from..to` of `src` as a vector of their own.
pub fn copy_range(src: &[u8], from: usize, to: usize) -> (r: Vec<u8>)
    requires
        from <= to <= src.len(),
    ensures
        r@ == src@.subrange(from as int, to as int),
{
    let mut out: Vec<u8> = Vec::with_capacity(to - from);
    append_range(&mut out, src, from, to);
    assert(Seq::<u8>::empty() + src@.subrange(from as int, to as int) =~= src@.subrange(
        from as int,
        to as int,
    ));
    out
}

/// A copy of `src`.
pub fn copy(src: &[u8]) -> (r: Vec<u8>)
    ensures
        r@ == src@,
{
    let r = copy_range(src, 0, src.len());
    assert(src@.subrange(0, src@.len() as int) =~= src@);
    r
}

/// Appends the bytes `from..to` of `src`.
pub fn append_range(out: &mut Vec<u8>, src: &[u8], from: usize, to: usize)
    requires
        from <= to <= src.len(),
    ensures
        final(out)@ == old(out)@ + src@.subrange(from as int, to as int),
{
    let ghost start = out@;
    let mut i: usize = from;
    assert(start + src@.subrange(from as int, from as int) =~= start);
    while i < to
        invariant
            from <= i <= to <= src.len(),
            out@ == start + src@.subrange(from as int, i as int),
        decreases to - i,
    {
        out.push(src[i]);
        assert(src@.subrange(from as int, i as int).push(src@[i as int]) =~= src@.subrange(
            from as int,
            i + 1,
        ));
        assert(out@ =~= start + src@.subrange(from as int, i + 1));
        i += 1;
    }
}

/// Appends all of `more`.
pub fn append(out: &mut Vec<u8>, more: &[u8])
    ensures
        final(out)@ == old(out)@ + more@,
{
    append_range(out, more, 0, more.len());
    assert(more@.subrange(0, more@.len() as int) =~= more@);
}

/// The bytes of a text.
pub open spec fn text(s: Seq<char>) -> Seq<u8> {
    vstd::utf8::encode_utf8(s)
}

/// Different texts have different bytes.
pub proof fn lemma_text_differs(a: Seq<char>, b: Seq<char>)
    requires
        a != b,
    ensures
        text(a) != text(b),
{
    vstd::utf8::encode_utf8_decode_utf8(a);
    vstd::utf8::encode_utf8_decode_utf8(b);
}

/// Different texts have different bytes, whichever they are.
pub proof fn lemma_texts_differ()
    ensures
        forall|a: Seq<char>, b: Seq<char>| #[trigger] text(a) == #[trigger] text(b) ==> a == b,
{
    assert forall|a: Seq<char>, b: Seq<char>| #[trigger] text(a) == #[trigger] text(b) implies a
        == b by {
        if a != b {
            lemma_text_differs(a, b);
        }
    }
}

/// The bytes of a text as a vector of their own.
pub fn of(s: &str) -> (r: Vec<u8>)
    ensures
        r@ == text(s@),
{
    copy(s.as_bytes())
}

/// Whether the bytes are those of a text.
pub fn is_text(bytes: &[u8], s: &str) -> (r: bool)
    ensures
        r == (bytes@ == text(s@)),
{
    same(bytes, s.as_bytes())
}

/// A 16-bit number, high byte first.
pub open spec fn be16(v: int) -> Seq<u8> {
    seq![(v / 256 % 256) as u8, (v % 256) as u8]
}

/// A 32-bit number, high byte first.
pub open spec fn be32(v: int) -> Seq<u8> {
    seq![
        (v / 0x100_0000 % 256) as u8,
        (v / 0x1_0000 % 256) as u8,
        (v / 256 % 256) as u8,
        (v % 256) as u8,
    ]
}

/// The 16-bit number at `at`, high byte first.
pub open spec fn read_be16(s: Seq<u8>, at: int) -> int {
    s[at] * 256 + s[at + 1]
}

/// The 32-bit number at `at`, high byte first.
pub open spec fn read_be32(s: Seq<u8>, at: int) -> int {
    s[at] * 0x100_0000 + s[at + 1] * 0x1_0000 + s[at + 2] * 256 + s[at + 3]
}

/// What is written as a 32-bit number is read as that number.
pub proof fn lemma_be32(v: int)
    requires
        0 <= v <= u32::MAX,
    ensures
        read_be32(be32(v), 0) == v,
{
}

/// What is written as a 16-bit number is read as that number.
pub proof fn lemma_be16(v: int)
    requires
        0 <= v <= u16::MAX,
    ensures
        read_be16(be16(v), 0) == v,
{
}

/// Appends a 16-bit number, high byte first.
pub fn push_be16(out: &mut Vec<u8>, v: u16)
    ensures
        final(out)@ == old(out)@ + be16(v as int),
{
    out.push((v / 256) as u8);
    out.push((v % 256) as u8);
    assert(out@ =~= old(out)@ + be16(v as int));
}

/// Appends a 32-bit number, high byte first.
pub fn push_be32(out: &mut Vec<u8>, v: u32)
    ensures
        final(out)@ == old(out)@ + be32(v as int),
{
    out.push((v / 0x100_0000) as u8);
    out.push((v / 0x1_0000 % 256) as u8);
    out.push((v / 256 % 256) as u8);
    out.push((v % 256) as u8);
    assert(out@ =~= old(out)@ + be32(v as int));
}

/// The 16-bit number at `at`, high byte first.
pub fn get_be16(s: &[u8], at: usize) -> (r: u16)
    requires
        at + 2 <= s.len(),
    ensures
        r == read_be16(s@, at as int),
{
    s[at] as u16 * 256 + s[at + 1] as u16
}

/// The 32-bit number at `at`, high byte first.
pub fn get_be32(s: &[u8], at: usize) -> (r: u32)
    requires
        at + 4 <= s.len(),
    ensures
        r == read_be32(s@, at as int),
{
    s[at] as u32 * 0x100_0000 + s[at + 1] as u32 * 0x1_0000 + s[at + 2] as u32 * 256 + s[at
        + 3] as u32
}

// ------------------------------------------------------------- order

/// Whether one sequence of bytes comes before another, by the first byte in
/// which they differ.
pub open spec fn precedes(a: Seq<u8>, b: Seq<u8>) -> bool
    decreases a.len(),
{
    if b.len() == 0 {
        false
    } else if a.len() == 0 {
        true
    } else if a[0] != b[0] {
        a[0] < b[0]
    } else {
        precedes(a.skip(1), b.skip(1))
    }
}

/// Whether `a` comes before `b`.
pub fn before(a: &[u8], b: &[u8]) -> (r: bool)
    ensures
        r == precedes(a@, b@),
{
    let mut i: usize = 0;
    assert(a@.skip(0) =~= a@);
    assert(b@.skip(0) =~= b@);
    loop
        invariant
            i <= a@.len(),
            i <= b@.len(),
            precedes(a@, b@) == precedes(a@.skip(i as int), b@.skip(i as int)),
        decreases a@.len() - i,
    {
        if i == b.len() {
            return false;
        }
        if i == a.len() {
            return true;
        }
        assert(a@.skip(i as int)[0] == a@[i as int]);
        assert(b@.skip(i as int)[0] == b@[i as int]);
        if a[i] != b[i] {
            return a[i] < b[i];
        }
        assert(a@.skip(i as int).skip(1) =~= a@.skip(i + 1));
        assert(b@.skip(i as int).skip(1) =~= b@.skip(i + 1));
        i += 1;
    }
}

/// Of two different sequences one comes before the other, never both.
pub proof fn lemma_order(a: Seq<u8>, b: Seq<u8>)
    ensures
        precedes(a, b) || precedes(b, a) || a == b,
        !(precedes(a, b) && precedes(b, a)),
        !precedes(a, a),
    decreases a.len(),
{
    if a.len() == 0 && b.len() == 0 {
        assert(a =~= b);
    } else if a.len() > 0 && b.len() > 0 && a[0] == b[0] {
        lemma_order(a.skip(1), b.skip(1));
        if a.skip(1) == b.skip(1) {
            assert forall|i: int| 0 <= i < a.len() implies a[i] == b[i] by {
                if i > 0 {
                    assert(a.skip(1)[i - 1] == a[i]);
                    assert(b.skip(1)[i - 1] == b[i]);
                }
            }
            assert(a.skip(1).len() == b.skip(1).len());
            assert(a =~= b);
        }
    } else if a.len() > 0 {
        lemma_order(a.skip(1), a.skip(1));
    }
}

/// The order carries over.
pub proof fn lemma_order_carries(a: Seq<u8>, b: Seq<u8>, c: Seq<u8>)
    requires
        precedes(a, b),
        precedes(b, c),
    ensures
        precedes(a, c),
    decreases a.len(),
{
    if a.len() > 0 && b.len() > 0 && c.len() > 0 && a[0] == b[0] && b[0] == c[0] {
        lemma_order_carries(a.skip(1), b.skip(1), c.skip(1));
    }
}

} // verus!
