//! The weak rolling checksum over a byte window (the Adler-32 sum): a pair
//! of running sums modulo the largest prime below 2^16, combined into one
//! 32-bit value.  The rolling form slides the window one byte at a time in
//! constant time; every operation is proved against the closed formula.

use vstd::prelude::*;
use vstd::arithmetic::div_mod::{
    lemma_add_mod_noop, lemma_add_mod_noop_right, lemma_mod_add_multiples_vanish,
    lemma_mul_mod_noop_left, lemma_small_mod, lemma_sub_mod_noop_right,
};

verus! {

/// Modulus of both running sums: the largest prime below 2^16.
pub const WEAK_MOD: u32 = 65521;

/// Sum of the bytes of `s`.
pub open spec fn sum_bytes(s: Seq<u8>) -> int
    decreases s.len(),
{
    if s.len() == 0 {
        0
    } else {
        s[0] + sum_bytes(s.drop_first())
    }
}

/// Sum of the bytes of `s`, each weighted by its distance from the end of
/// the window (the first byte counts `s.len()` times, the last one once).
pub open spec fn weighted_sum(s: Seq<u8>) -> int
    decreases s.len(),
{
    if s.len() == 0 {
        0
    } else {
        s.len() * s[0] + weighted_sum(s.drop_first())
    }
}

/// The low half of the checksum: one plus the byte sum, reduced.
pub open spec fn weak_a(s: Seq<u8>) -> int {
    (1 + sum_bytes(s)) % (WEAK_MOD as int)
}

/// The high half of the checksum: the window length plus the weighted sum,
/// reduced.
pub open spec fn weak_b(s: Seq<u8>) -> int {
    (s.len() + weighted_sum(s)) % (WEAK_MOD as int)
}

/// The weak checksum of a byte window as a single 32-bit value.
pub open spec fn weak_of(s: Seq<u8>) -> u32 {
    (weak_b(s) * 0x10000 + weak_a(s)) as u32
}

proof fn lemma_sum_push(s: Seq<u8>, y: u8)
    ensures
        sum_bytes(s.push(y)) == sum_bytes(s) + y,
    decreases s.len(),
{
    assert(s.push(y)[0] == if s.len() == 0 { y } else { s[0] });
    if s.len() == 0 {
        assert(s.push(y).drop_first() =~= Seq::<u8>::empty());
        assert(sum_bytes(Seq::<u8>::empty()) == 0);
    } else {
        assert(s.push(y).drop_first() =~= s.drop_first().push(y));
        lemma_sum_push(s.drop_first(), y);
    }
}

proof fn lemma_weighted_push(s: Seq<u8>, y: u8)
    ensures
        weighted_sum(s.push(y)) == weighted_sum(s) + sum_bytes(s) + y,
    decreases s.len(),
{
    assert(s.push(y)[0] == if s.len() == 0 { y } else { s[0] });
    if s.len() == 0 {
        assert(s.push(y).drop_first() =~= Seq::<u8>::empty());
        assert(weighted_sum(Seq::<u8>::empty()) == 0);
    } else {
        assert(s.push(y).drop_first() =~= s.drop_first().push(y));
        lemma_weighted_push(s.drop_first(), y);
        lemma_sum_push(s.drop_first(), y);
        assert((s.len() + 1) * s[0] == s.len() * s[0] + s[0]) by (nonlinear_arith);
    }
}

/// The weak checksum maintained incrementally over a sliding window.  The
/// window itself is tracked only in ghost state; the executable fields are
/// the two running sums and the window length.
pub struct RollingWeak {
    a: u32,
    b: u32,
    len: usize,
    win: Ghost<Seq<u8>>,
}

impl RollingWeak {
    /// The byte window the running sums currently describe.
    pub closed spec fn window(&self) -> Seq<u8> {
        self.win@
    }

    /// The running sums agree with the closed formula over the window.
    pub closed spec fn wf(&self) -> bool {
        &&& self.a == weak_a(self.win@)
        &&& self.b == weak_b(self.win@)
        &&& self.len == self.win@.len()
    }

    /// The checksum of the empty window.
    pub fn new() -> (h: Self)
        ensures
            h.wf(),
            h.window() == Seq::<u8>::empty(),
    {
        RollingWeak { a: 1, b: 0, len: 0, win: Ghost(Seq::empty()) }
    }

    /// Extend the window by one byte at its newer end.
    pub fn push_newest(&mut self, byte: u8)
        requires
            old(self).wf(),
            old(self).window().len() < usize::MAX,
        ensures
            final(self).wf(),
            final(self).window() == old(self).window().push(byte),
    {
        proof {
            let m = WEAK_MOD as int;
            let w = self.win@;
            lemma_sum_push(w, byte);
            lemma_weighted_push(w, byte);
            lemma_small_mod(byte as nat, WEAK_MOD as nat);
            // ((1 + sum(w)) % m + byte) % m == (1 + sum(w) + byte) % m
            lemma_add_mod_noop(1 + sum_bytes(w), byte as int, m);
        }
        self.a = (self.a + byte as u32) % WEAK_MOD;
        proof {
            let m = WEAK_MOD as int;
            let w = self.win@;
            // (b + a') % m == ((w.len() + ws(w)) + (1 + sum(w) + byte)) % m
            lemma_add_mod_noop(w.len() + weighted_sum(w), 1 + sum_bytes(w) + byte, m);
        }
        self.b = (self.b + self.a) % WEAK_MOD;
        self.len = self.len + 1;
        self.win = Ghost(self.win@.push(byte));
    }

    /// Shrink the window by one byte at its older end; the caller passes
    /// that oldest byte back in.
    pub fn remove_oldest(&mut self, byte: u8)
        requires
            old(self).wf(),
            old(self).window().len() >= 1,
            byte == old(self).window()[0],
        ensures
            final(self).wf(),
            final(self).window() == old(self).window().drop_first(),
    {
        let base: u64 = WEAK_MOD as u64;
        let n_mod: u64 = self.len as u64 % base;
        proof {
            vstd::arithmetic::mul::lemma_mul_upper_bound(
                n_mod as int, 65520, byte as int, 255,
            );
        }
        let t: u32 = ((n_mod * byte as u64 + 1) % base) as u32;
        proof {
            let m = WEAK_MOD as int;
            let w = self.win@;
            let n = w.len() as int;
            // sum and weighted_sum of the tail, from the defining equations
            assert(sum_bytes(w.drop_first()) == sum_bytes(w) - byte);
            assert(weighted_sum(w.drop_first()) == weighted_sum(w) - n * byte);
            // a' = (a + m - byte) % m == (1 + sum(w) - byte) % m
            lemma_add_mod_noop_right(m - byte, 1 + sum_bytes(w), m);
            lemma_mod_add_multiples_vanish(1 + sum_bytes(w) - byte, m);
            // t == ((n % m) * byte + 1) % m == (n * byte + 1) % m
            lemma_mul_mod_noop_left(n, byte as int, m);
            lemma_small_mod(1, WEAK_MOD as nat);
            lemma_add_mod_noop((n % m) * byte, 1, m);
            lemma_add_mod_noop(n * byte, 1, m);
            // b' = (b + m - t) % m == (n - 1 + ws(w) - n * byte) % m
            lemma_add_mod_noop_right(m - t, n + weighted_sum(w), m);
            lemma_mod_add_multiples_vanish(n + weighted_sum(w) - t, m);
            lemma_sub_mod_noop_right(n + weighted_sum(w), n * byte + 1, m);
        }
        self.a = (self.a + WEAK_MOD - byte as u32) % WEAK_MOD;
        self.b = (self.b + WEAK_MOD - t) % WEAK_MOD;
        self.len = self.len - 1;
        self.win = Ghost(self.win@.drop_first());
    }

    /// The combined 32-bit checksum of the current window.
    pub fn hash(&self) -> (r: u32)
        requires
            self.wf(),
        ensures
            r == weak_of(self.window()),
    {
        self.b * 0x10000 + self.a
    }

    /// The checksum of a whole buffer, built byte by byte.
    pub fn from_buffer(data: &Vec<u8>) -> (h: Self)
        ensures
            h.wf(),
            h.window() == data@,
    {
        let mut h = RollingWeak::new();
        let mut i: usize = 0;
        while i < data.len()
            invariant
                i <= data.len(),
                h.wf(),
                h.window() == data@.take(i as int),
            decreases data.len() - i,
        {
            h.push_newest(data[i]);
            proof {
                assert(data@.take(i as int).push(data@[i as int]) =~= data@.take(i + 1));
            }
            i = i + 1;
        }
        proof {
            assert(data@.take(data@.len() as int) =~= data@);
        }
        h
    }
}

/// The weak checksum of a buffer as a value of its own, as the chunk index
/// stores it.
#[derive(Clone, Copy, Debug)]
pub struct Adler32Hash(pub u32);

impl Adler32Hash {
    /// The weak checksum of `data`.
    pub fn new(data: &Vec<u8>) -> (h: Self)
        ensures
            h.0 == weak_of(data@),
    {
        Adler32Hash(RollingWeak::from_buffer(data).hash())
    }
}

} // verus!
