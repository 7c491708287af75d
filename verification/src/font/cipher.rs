//! The cipher of Type 1 fonts.
use vstd::prelude::*;

verus! {

/// The running key after a cipher byte.
pub open spec fn next_key(key: u16, c: u8) -> u16 {
    (((c as int + key as int) * 52845 + 22719) % 0x1_0000) as u16
}

/// The running key after the first `n` cipher bytes.
pub open spec fn key_after(data: Seq<u8>, key: u16, n: int) -> u16
    decreases n,
{
    if n <= 0 {
        key
    } else {
        next_key(key_after(data, key, n - 1), data[n - 1])
    }
}

/// The high byte of a key.
pub open spec fn high_byte(key: u16) -> u8 {
    (key / 256) as u8
}

/// The plaintext: each byte is the cipher byte xor the high byte of the
/// running key; the first `skip` bytes are padding.
pub open spec fn decrypted(data: Seq<u8>, key: u16, skip: int) -> Seq<u8> {
    let all = Seq::new(data.len(), |i: int| data[i] ^ high_byte(key_after(data, key, i)));
    if skip >= all.len() {
        Seq::empty()
    } else {
        all.skip(skip)
    }
}

/// The ciphertext of a plaintext.
pub open spec fn encrypted(plain: Seq<u8>, key: u16) -> Seq<u8>
    decreases plain.len(),
{
    if plain.len() == 0 {
        Seq::empty()
    } else {
        let before = encrypted(plain.drop_last(), key);
        before.push(plain.last() ^ high_byte(key_after(before, key, before.len() as int)))
    }
}

/// The Type 1 cipher: each plaintext byte is the cipher byte xor the high
/// byte of a running key that the cipher byte then advances.
pub fn decrypt(data: &[u8], key: u16, skip: usize) -> (r: Vec<u8>)
    ensures
        r@ == decrypted(data@, key, skip as int),
{
    let mut k: u16 = key;
    let mut out: Vec<u8> = Vec::new();
    let ghost all = Seq::new(
        data@.len(),
        |i: int| data@[i] ^ high_byte(key_after(data@, key, i)),
    );
    let mut i: usize = 0;
    while i < data.len()
        invariant
            i <= data.len(),
            k == key_after(data@, key, i as int),
            all == Seq::new(
                data@.len(),
                |i: int| data@[i] ^ high_byte(key_after(data@, key, i)),
            ),
            out@ == if i <= skip {
                Seq::empty()
            } else {
                all.subrange(skip as int, i as int)
            },
        decreases data.len() - i,
    {
        let c = data[i];
        let p = c ^ ((k / 256) as u8);
        assert(all[i as int] == p);
        k = (((c as u64 + k as u64) * 52845 + 22719) % 0x1_0000) as u16;
        if i >= skip {
            out.push(p);
            assert(out@ =~= all.subrange(skip as int, i + 1));
        }
        i += 1;
    }
    assert(out@ =~= decrypted(data@, key, skip as int));
    out
}

proof fn lemma_key_prefix(a: Seq<u8>, b: Seq<u8>, key: u16, n: int)
    requires
        0 <= n <= a.len(),
        n <= b.len(),
        a.take(n) == b.take(n),
    ensures
        key_after(a, key, n) == key_after(b, key, n),
    decreases n,
{
    if n > 0 {
        assert(a.take(n - 1) =~= a.take(n).take(n - 1));
        assert(b.take(n - 1) =~= b.take(n).take(n - 1));
        lemma_key_prefix(a, b, key, n - 1);
        assert(a[n - 1] == a.take(n)[n - 1]);
        assert(b[n - 1] == b.take(n)[n - 1]);
    }
}

proof fn lemma_encrypted(plain: Seq<u8>, key: u16)
    ensures
        encrypted(plain, key).len() == plain.len(),
        forall|i: int|
            0 <= i < plain.len() ==> #[trigger] encrypted(plain, key)[i] ^ high_byte(
                key_after(encrypted(plain, key), key, i),
            ) == plain[i],
    decreases plain.len(),
{
    if plain.len() > 0 {
        let front = plain.drop_last();
        let before = encrypted(front, key);
        let all = encrypted(plain, key);
        lemma_encrypted(front, key);
        assert forall|i: int| 0 <= i < plain.len() implies #[trigger] all[i] ^ high_byte(
            key_after(all, key, i),
        ) == plain[i] by {
            assert(all.take(i) =~= before.take(i));
            lemma_key_prefix(all, before, key, i);
            if i < front.len() {
                assert(all[i] == before[i]);
                assert(before[i] ^ high_byte(key_after(before, key, i)) == front[i]);
            } else {
                let p = plain.last();
                let h = high_byte(key_after(before, key, i));
                assert(p ^ h ^ h == p) by (bit_vector);
            }
        }
    }
}

/// Decrypting undoes encrypting, padding aside.
pub proof fn cipher_round_trips(plain: Seq<u8>, lead: Seq<u8>, key: u16)
    ensures
        decrypted(encrypted(lead + plain, key), key, lead.len() as int) == plain,
{
    let all = lead + plain;
    lemma_encrypted(all, key);
    let c = encrypted(all, key);
    let d = Seq::new(c.len(), |i: int| c[i] ^ high_byte(key_after(c, key, i)));
    assert(d =~= all);
    if plain.len() > 0 {
        assert(all.skip(lead.len() as int) =~= plain);
    } else {
        assert(plain =~= Seq::empty());
    }
}

} // verus!
