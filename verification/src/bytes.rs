//! Little-endian numbers in byte sequences.

use vstd::prelude::*;

verus! {

/// The 16-bit little-endian number at `at`.
pub open spec fn le16_at(s: Seq<u8>, at: int) -> nat {
    s[at] as nat + 256 * s[at + 1] as nat
}

/// The 32-bit little-endian number at `at`.
pub open spec fn le32_at(s: Seq<u8>, at: int) -> nat {
    le16_at(s, at) + 0x1_0000 * le16_at(s, at + 2)
}

/// The two bytes of `x`, the low one first.
#[verifier::opaque]
pub open spec fn le16_bytes(x: nat) -> Seq<u8> {
    seq![(x % 256) as u8, ((x / 256) % 256) as u8]
}

/// The four bytes of `x`, the lowest one first.
#[verifier::opaque]
pub open spec fn le32_bytes(x: nat) -> Seq<u8> {
    seq![
        (x % 256) as u8,
        ((x / 256) % 256) as u8,
        ((x / 0x1_0000) % 256) as u8,
        ((x / 0x100_0000) % 256) as u8,
    ]
}

/// A 16-bit number has two bytes.
pub broadcast proof fn lemma_le16_len(x: nat)
    ensures
        #[trigger] le16_bytes(x).len() == 2,
{
    reveal(le16_bytes);
}

/// A 32-bit number has four bytes.
pub broadcast proof fn lemma_le32_len(x: nat)
    ensures
        #[trigger] le32_bytes(x).len() == 4,
{
    reveal(le32_bytes);
}

/// Reading back the two bytes of a number.
pub proof fn lemma_le16_back(x: nat, s: Seq<u8>, at: int)
    requires
        x < 0x1_0000,
        0 <= at,
        at + 2 <= s.len(),
        s.subrange(at, at + 2) == le16_bytes(x),
    ensures
        le16_at(s, at) == x,
{
    reveal(le16_bytes);
    let sub = s.subrange(at, at + 2);
    assert(sub[0] == s[at] && sub[1] == s[at + 1]);
}

/// Reading back the four bytes of a number.
pub proof fn lemma_le32_back(x: nat, s: Seq<u8>, at: int)
    requires
        x < 0x1_0000_0000,
        0 <= at,
        at + 4 <= s.len(),
        s.subrange(at, at + 4) == le32_bytes(x),
    ensures
        le32_at(s, at) == x,
{
    reveal(le32_bytes);
    let sub = s.subrange(at, at + 4);
    assert(sub[0] == s[at] && sub[1] == s[at + 1] && sub[2] == s[at + 2] && sub[3] == s[at + 3]);
}

/// Reads the 16-bit number at `at`.
pub fn read_le16(s: &[u8], at: usize) -> (r: u16)
    requires
        at + 2 <= s@.len(),
    ensures
        r == le16_at(s@, at as int),
{
    s[at] as u16 + 256 * (s[at + 1] as u16)
}

/// Reads the 32-bit number at `at`.
pub fn read_le32(s: &[u8], at: usize) -> (r: u32)
    requires
        at + 4 <= s@.len(),
    ensures
        r == le32_at(s@, at as int),
{
    assert(s@.len() == s.len());
    read_le16(s, at) as u32 + 0x1_0000 * (read_le16(s, at + 2) as u32)
}

/// Appends the two bytes of `x`.
pub fn push_le16(out: &mut Vec<u8>, x: u16)
    ensures
        final(out)@ == old(out)@ + le16_bytes(x as nat),
{
    proof {
        reveal(le16_bytes);
    }
    out.push((x % 256) as u8);
    out.push((x / 256) as u8);
    assert(out@ =~= old(out)@ + le16_bytes(x as nat));
}

/// Appends the four bytes of `x`.
pub fn push_le32(out: &mut Vec<u8>, x: u32)
    ensures
        final(out)@ == old(out)@ + le32_bytes(x as nat),
{
    proof {
        reveal(le32_bytes);
    }
    out.push((x % 256) as u8);
    out.push(((x / 256) % 256) as u8);
    out.push(((x / 0x1_0000) % 256) as u8);
    out.push((x / 0x100_0000) as u8);
    assert(out@ =~= old(out)@ + le32_bytes(x as nat));
}

/// Appends the bytes of `s`.
pub fn push_slice(out: &mut Vec<u8>, s: &[u8])
    ensures
        final(out)@ == old(out)@ + s@,
{
    let mut i: usize = 0;
    while i < s.len()
        invariant
            i <= s@.len(),
            out@ == old(out)@ + s@.take(i as int),
        decreases s@.len() - i,
    {
        out.push(s[i]);
        i = i + 1;
        assert(out@ =~= old(out)@ + s@.take(i as int));
    }
    assert(s@.take(i as int) =~= s@);
}

/// A copy of `s[from..to]`.
pub fn copy_range(s: &[u8], from: usize, to: usize) -> (r: Vec<u8>)
    requires
        from <= to <= s@.len(),
    ensures
        r@ == s@.subrange(from as int, to as int),
{
    let mut r: Vec<u8> = Vec::new();
    let mut i: usize = from;
    while i < to
        invariant
            from <= i <= to <= s@.len(),
            r@ == s@.subrange(from as int, i as int),
        decreases to - i,
    {
        r.push(s[i]);
        i = i + 1;
        assert(r@ =~= s@.subrange(from as int, i as int));
    }
    r
}

} // verus!
