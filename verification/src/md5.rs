//! MD5 message digest.

use vstd::prelude::*;

use crate::bytes::{le32_at, le32_bytes, lemma_le32_len, push_le32, read_le32};

verus! {

/// Left rotation of each step.
pub const S: [u32; 64] = [
    7, 12, 17, 22, 7, 12, 17, 22, 7, 12, 17, 22, 7, 12, 17, 22,
    5, 9, 14, 20, 5, 9, 14, 20, 5, 9, 14, 20, 5, 9, 14, 20,
    4, 11, 16, 23, 4, 11, 16, 23, 4, 11, 16, 23, 4, 11, 16, 23,
    6, 10, 15, 21, 6, 10, 15, 21, 6, 10, 15, 21, 6, 10, 15, 21,
];

/// Additive constant of each step.
pub const K: [u32; 64] = [
    0xd76a_a478, 0xe8c7_b756, 0x2420_70db, 0xc1bd_ceee,
    0xf57c_0faf, 0x4787_c62a, 0xa830_4613, 0xfd46_9501,
    0x6980_98d8, 0x8b44_f7af, 0xffff_5bb1, 0x895c_d7be,
    0x6b90_1122, 0xfd98_7193, 0xa679_438e, 0x49b4_0821,
    0xf61e_2562, 0xc040_b340, 0x265e_5a51, 0xe9b6_c7aa,
    0xd62f_105d, 0x0244_1453, 0xd8a1_e681, 0xe7d3_fbc8,
    0x21e1_cde6, 0xc337_07d6, 0xf4d5_0d87, 0x455a_14ed,
    0xa9e3_e905, 0xfcef_a3f8, 0x676f_02d9, 0x8d2a_4c8a,
    0xfffa_3942, 0x8771_f681, 0x6d9d_6122, 0xfde5_380c,
    0xa4be_ea44, 0x4bde_cfa9, 0xf6bb_4b60, 0xbebf_bc70,
    0x289b_7ec6, 0xeaa1_27fa, 0xd4ef_3085, 0x0488_1d05,
    0xd9d4_d039, 0xe6db_99e5, 0x1fa2_7cf8, 0xc4ac_5665,
    0xf429_2244, 0x432a_ff97, 0xab94_23a7, 0xfc93_a039,
    0x655b_59c3, 0x8f0c_cc92, 0xffef_f47d, 0x8584_5dd1,
    0x6fa8_7e4f, 0xfe2c_e6e0, 0xa301_4314, 0x4e08_11a1,
    0xf753_7e82, 0xbd3a_f235, 0x2ad7_d2bb, 0xeb86_d391,
];

/// The four chaining words.
#[derive(Debug, Clone, Copy, PartialEq, Eq)]
pub struct Words {
    pub a: u32,
    pub b: u32,
    pub c: u32,
    pub d: u32,
}

/// The chaining words at the start.
pub open spec fn initial_words() -> Words {
    Words { a: 0x6745_2301, b: 0xefcd_ab89, c: 0x98ba_dcfe, d: 0x1032_5476 }
}

/// `x` rotated left by `s`.
pub open spec fn rotated(x: u32, s: u32) -> u32 {
    (x << s) | (x >> ((32 - s) as u32))
}

/// The mixing function of step `i`.
pub open spec fn mixed(w: Words, i: int) -> u32 {
    if i < 16 {
        (w.b & w.c) | (!w.b & w.d)
    } else if i < 32 {
        (w.d & w.b) | (!w.d & w.c)
    } else if i < 48 {
        w.b ^ w.c ^ w.d
    } else {
        w.c ^ (w.b | !w.d)
    }
}

/// The message word of step `i`.
pub open spec fn word_index(i: int) -> int {
    if i < 16 {
        i
    } else if i < 32 {
        (5 * i + 1) % 16
    } else if i < 48 {
        (3 * i + 5) % 16
    } else {
        (7 * i) % 16
    }
}

/// The words after step `i`.
pub open spec fn stepped(w: Words, block: Seq<u8>, i: int) -> Words {
    let m = le32_at(block, 4 * word_index(i)) as u32;
    let sum = w.a.wrapping_add(mixed(w, i)).wrapping_add(K@[i]).wrapping_add(m);
    Words { a: w.d, b: w.b.wrapping_add(rotated(sum, S@[i])), c: w.b, d: w.c }
}

/// The words after the first `n` steps.
pub open spec fn steps(w: Words, block: Seq<u8>, n: nat) -> Words
    decreases n,
{
    if n == 0 {
        w
    } else {
        stepped(steps(w, block, (n - 1) as nat), block, n - 1)
    }
}

/// The chaining words after a block.
pub open spec fn compressed(w: Words, block: Seq<u8>) -> Words {
    let z = steps(w, block, 64);
    Words {
        a: w.a.wrapping_add(z.a),
        b: w.b.wrapping_add(z.b),
        c: w.c.wrapping_add(z.c),
        d: w.d.wrapping_add(z.d),
    }
}

/// What a [`Md5`] stands for: the chaining words, the bytes of the block
/// that is not complete, and the length so far.
pub ghost struct Md5Model {
    pub words: Words,
    pub pending: Seq<u8>,
    pub total: u64,
}

/// The state before any byte.
pub open spec fn fresh_md5() -> Md5Model {
    Md5Model { words: initial_words(), pending: Seq::empty(), total: 0 }
}

impl Md5Model {
    /// The state after one byte.
    pub open spec fn absorb(self, b: u8) -> Md5Model {
        let block = self.pending.push(b);
        let total = self.total.wrapping_add(1);
        if block.len() == 64 {
            Md5Model { words: compressed(self.words, block), pending: Seq::empty(), total }
        } else {
            Md5Model { pending: block, total, ..self }
        }
    }

    /// The state after the bytes of `data`.
    pub open spec fn absorbed(self, data: Seq<u8>) -> Md5Model
        decreases data.len(),
    {
        if data.len() == 0 {
            self
        } else {
            self.absorbed(data.drop_last()).absorb(data.last())
        }
    }

    /// The digest: the words after the padding.
    pub open spec fn digest(self) -> Seq<u8> {
        let w = self.absorbed(padding(self.total)).words;
        le32_bytes(w.a as nat) + le32_bytes(w.b as nat) + le32_bytes(w.c as nat) + le32_bytes(
            w.d as nat,
        )
    }
}

/// Number of zeros in the padding of a message of `len` bytes.
pub open spec fn padding_zeros(len: u64) -> nat {
    let have = (len % 64 + 1) % 64;
    if have <= 56 {
        (56 - have) as nat
    } else {
        (120 - have) as nat
    }
}

/// The padding of a message of `len` bytes: a one bit, zeros, and the
/// length in bits.
pub open spec fn padding(len: u64) -> Seq<u8> {
    let bits = len.wrapping_mul(8);
    seq![0x80u8] + Seq::new(padding_zeros(len), |k: int| 0u8) + le32_bytes(
        (bits % 0x1_0000_0000) as nat,
    ) + le32_bytes((bits / 0x1_0000_0000) as nat)
}

/// The MD5 digest of `message`.
#[verifier::opaque]
pub open spec fn md5_of(message: Seq<u8>) -> Seq<u8> {
    fresh_md5().absorbed(message).digest()
}

/// Absorbing a message in two pieces is absorbing it at once.
pub proof fn law_md5_streaming(m: Md5Model, first: Seq<u8>, second: Seq<u8>)
    ensures
        m.absorbed(first).absorbed(second) == m.absorbed(first + second),
    decreases second.len(),
{
    if second.len() == 0 {
        assert(first + second =~= first);
    } else {
        law_md5_streaming(m, first, second.drop_last());
        assert((first + second).drop_last() =~= first + second.drop_last());
    }
}

/// Streaming MD5 state.
#[derive(Debug, Clone)]
pub struct Md5 {
    pub words: Words,
    pub pending: Vec<u8>,
    pub total_len: u64,
}

impl View for Md5 {
    type V = Md5Model;

    open spec fn view(&self) -> Md5Model {
        Md5Model { words: self.words, pending: self.pending@, total: self.total_len }
    }
}

impl Default for Md5 {
    fn default() -> (r: Self)
        ensures
            r.wf(),
            r@ == fresh_md5(),
    {
        Self::new()
    }
}

/// `x` rotated left by `s`.
fn rotate_left(x: u32, s: u32) -> (r: u32)
    requires
        0 < s < 32,
    ensures
        r == rotated(x, s),
{
    (x << s) | (x >> (32 - s))
}

impl Md5 {
    /// Less than a block is pending.
    pub open spec fn wf(&self) -> bool {
        self.pending@.len() < 64
    }

    /// Fresh digest state.
    pub fn new() -> (r: Self)
        ensures
            r.wf(),
            r@ == fresh_md5(),
    {
        let r = Md5 {
            words: Words { a: 0x6745_2301, b: 0xefcd_ab89, c: 0x98ba_dcfe, d: 0x1032_5476 },
            pending: Vec::new(),
            total_len: 0,
        };
        assert(r.pending@ =~= Seq::<u8>::empty());
        r
    }

    /// The digest of `data`.
    pub fn digest(data: &[u8]) -> (r: [u8; 16])
        ensures
            r@ == md5_of(data@),
    {
        proof {
            reveal(md5_of);
        }
        let mut h = Self::new();
        h.update(data);
        h.finish()
    }

    /// Absorbs `data`.
    pub fn update(&mut self, data: &[u8])
        requires
            old(self).wf(),
        ensures
            final(self).wf(),
            final(self)@ == old(self)@.absorbed(data@),
    {
        let ghost start = self@;
        let mut i: usize = 0;
        assert(data@.take(0) =~= Seq::<u8>::empty());
        while i < data.len()
            invariant
                i <= data@.len(),
                self.wf(),
                self@ == start.absorbed(data@.take(i as int)),
            decreases data@.len() - i,
        {
            let ghost before = self@;
            self.pending.push(data[i]);
            self.total_len = self.total_len.wrapping_add(1);
            if self.pending.len() == 64 {
                self.words = compress(self.words, self.pending.as_slice());
                self.pending = Vec::new();
                assert(self.pending@ =~= Seq::<u8>::empty());
            }
            assert(self@ == before.absorb(data@[i as int]));
            assert(data@.take(i as int + 1).drop_last() =~= data@.take(i as int));
            i = i + 1;
        }
        assert(data@.take(i as int) =~= data@);
    }

    /// Pads, absorbs the bit length and returns the digest.
    pub fn finish(self) -> (r: [u8; 16])
        requires
            self.wf(),
        ensures
            r@ == self@.digest(),
    {
        let mut h = self;
        let bits: u64 = h.total_len.wrapping_mul(8);
        let have: u64 = (h.total_len % 64 + 1) % 64;
        let zeros: u64 = if have <= 56 {
            56 - have
        } else {
            120 - have
        };
        let mut pad: Vec<u8> = Vec::new();
        pad.push(0x80);
        let mut k: u64 = 0;
        assert(pad@ =~= seq![0x80u8] + Seq::new(0, |j: int| 0u8));
        while k < zeros
            invariant
                k <= zeros,
                pad@ == seq![0x80u8] + Seq::new(k as nat, |j: int| 0u8),
            decreases zeros - k,
        {
            pad.push(0);
            k = k + 1;
            assert(pad@ =~= seq![0x80u8] + Seq::new(k as nat, |j: int| 0u8));
        }
        push_le32(&mut pad, (bits % 0x1_0000_0000) as u32);
        push_le32(&mut pad, (bits / 0x1_0000_0000) as u32);
        assert(pad@ == padding(self.total_len));
        h.update(pad.as_slice());
        let w = h.words;
        let mut out: Vec<u8> = Vec::new();
        push_le32(&mut out, w.a);
        push_le32(&mut out, w.b);
        push_le32(&mut out, w.c);
        push_le32(&mut out, w.d);
        assert(out@ =~= self@.digest());
        proof {
            broadcast use lemma_le32_len;

        }
        let r: [u8; 16] = [
            out[0], out[1], out[2], out[3], out[4], out[5], out[6], out[7],
            out[8], out[9], out[10], out[11], out[12], out[13], out[14], out[15],
        ];
        assert(r@ =~= out@);
        r
    }
}

/// The chaining words after one 64-byte block.
fn compress(w: Words, block: &[u8]) -> (r: Words)
    requires
        block@.len() == 64,
    ensures
        r == compressed(w, block@),
{
    let mut z = w;
    let mut i: usize = 0;
    while i < 64
        invariant
            i <= 64,
            block@.len() == 64,
            z == steps(w, block@, i as nat),
        decreases 64 - i,
    {
        let (f, g): (u32, usize) = if i < 16 {
            ((z.b & z.c) | (!z.b & z.d), i)
        } else if i < 32 {
            ((z.d & z.b) | (!z.d & z.c), (5 * i + 1) % 16)
        } else if i < 48 {
            (z.b ^ z.c ^ z.d, (3 * i + 5) % 16)
        } else {
            (z.c ^ (z.b | !z.d), (7 * i) % 16)
        };
        let m = read_le32(block, 4 * g);
        let sum = z.a.wrapping_add(f).wrapping_add(K[i]).wrapping_add(m);
        let turn: u32 = S[i];
        assert(0 < turn < 32);
        let next = Words {
            a: z.d,
            b: z.b.wrapping_add(rotate_left(sum, turn)),
            c: z.b,
            d: z.c,
        };
        z = next;
        i = i + 1;
    }
    Words {
        a: w.a.wrapping_add(z.a),
        b: w.b.wrapping_add(z.b),
        c: w.c.wrapping_add(z.c),
        d: w.d.wrapping_add(z.d),
    }
}

} // verus!
