use vstd::prelude::*;

verus! {

/// The offset added to each byte before it enters the sums.
pub const CHAR_OFFSET: u32 = 31;

/// Sum of the bytes of `w`, each raised by the character offset.
pub open spec fn byte_sum(w: Seq<u8>) -> int
    decreases w.len(),
{
    if w.len() == 0 {
        0
    } else {
        byte_sum(w.drop_last()) + w.last() + 31
    }
}

/// Sum of the prefix sums of `w`: each (offset) byte weighted by its distance from the end.
pub open spec fn weighted_sum(w: Seq<u8>) -> int
    decreases w.len(),
{
    if w.len() == 0 {
        0
    } else {
        weighted_sum(w.drop_last()) + byte_sum(w)
    }
}

/// The weak checksum of a window: the weighted sum in the high half, the
/// plain sum in the low half, each modulo 2^16.
pub open spec fn weak_sum(w: Seq<u8>) -> u32 {
    ((weighted_sum(w) % 65536) * 65536 + byte_sum(w) % 65536) as u32
}

proof fn lemma_sums_nonneg(w: Seq<u8>)
    ensures
        byte_sum(w) >= 0,
        weighted_sum(w) >= 0,
    decreases w.len(),
{
    if w.len() > 0 {
        lemma_sums_nonneg(w.drop_last());
    }
}

/// Taking the first byte off a window lowers the plain sum by that byte and
/// the weighted sum by that byte times the window length.
pub proof fn lemma_sums_drop_first(w: Seq<u8>)
    requires
        w.len() > 0,
    ensures
        byte_sum(w) == byte_sum(w.drop_first()) + w[0] + 31,
        weighted_sum(w) == weighted_sum(w.drop_first()) + w.len() * (w[0] + 31),
    decreases w.len(),
{
    if w.len() == 1 {
        assert(w.drop_first() =~= Seq::<u8>::empty());
        assert(w.drop_last() =~= Seq::<u8>::empty());
    } else {
        let d = w.drop_last();
        lemma_sums_drop_first(d);
        assert(d.drop_first() =~= w.drop_first().drop_last());
        assert(w.drop_first().last() == w.last());
        let x: int = w[0] + 31;
        assert(d[0] == w[0]);
        assert((w.len() - 1) * x + x == w.len() * x) by (nonlinear_arith);
    }
}

proof fn lemma_push_sums(w: Seq<u8>, b: u8)
    ensures
        byte_sum(w.push(b)) == byte_sum(w) + b + 31,
        weighted_sum(w.push(b)) == weighted_sum(w) + byte_sum(w.push(b)),
{
    assert(w.push(b).drop_last() =~= w);
}

/// Weak checksum of `w`, computed in one pass.
pub fn weak_checksum(w: &[u8]) -> (r: u32)
    ensures
        r == weak_sum(w@),
{
    Rollsum::new(w).digest()
}

proof fn lemma_mod_combine(a: int, aa: int, b: int, bb: int, c: int, cc: int)
    requires
        a == aa % 65536,
        b == bb % 65536,
        c == cc % 65536,
    ensures
        (a + 65536 - b + c) % 65536 == (aa - bb + cc) % 65536,
{
    let m: int = 65536;
    vstd::arithmetic::div_mod::lemma_fundamental_div_mod(aa, m);
    vstd::arithmetic::div_mod::lemma_fundamental_div_mod(bb, m);
    vstd::arithmetic::div_mod::lemma_fundamental_div_mod(cc, m);
    let q = aa / m - bb / m + cc / m;
    assert(aa - bb + cc == m * q + (a - b + c)) by (nonlinear_arith)
        requires
            aa == m * (aa / m) + a,
            bb == m * (bb / m) + b,
            cc == m * (cc / m) + c,
            q == aa / m - bb / m + cc / m,
    ;
    vstd::arithmetic::div_mod::lemma_mod_multiples_vanish(q, a - b + c, m);
    vstd::arithmetic::div_mod::lemma_mod_multiples_vanish(1, a - b + c, m);
}

/// A weak checksum that slides over a window of data.
pub struct Rollsum {
    count: usize,
    s1: u32,
    s2: u32,
    window: Ghost<Seq<u8>>,
}

impl Rollsum {
    /// The window the checksum is over.
    pub closed spec fn view(&self) -> Seq<u8> {
        self.window@
    }

    /// The sums agree with the window.
    pub closed spec fn wf(&self) -> bool {
        &&& self.count == self.window@.len()
        &&& self.s1 == byte_sum(self.window@) % 65536
        &&& self.s2 == weighted_sum(self.window@) % 65536
    }

    /// The checksum over `w`.
    pub fn new(w: &[u8]) -> (r: Rollsum)
        ensures
            r.wf(),
            r@ == w@,
    {
        let mut s1: u32 = 0;
        let mut s2: u32 = 0;
        let mut i: usize = 0;
        while i < w.len()
            invariant
                i <= w.len(),
                s1 == byte_sum(w@.subrange(0, i as int)) % 65536,
                s2 == weighted_sum(w@.subrange(0, i as int)) % 65536,
            decreases w.len() - i,
        {
            let ghost p = w@.subrange(0, i as int);
            proof {
                assert(w@.subrange(0, i + 1) =~= p.push(w@[i as int]));
                lemma_push_sums(p, w@[i as int]);
                lemma_sums_nonneg(p);
                vstd::arithmetic::div_mod::lemma_add_mod_noop(byte_sum(p), w@[i as int] + 31, 65536);
                vstd::arithmetic::div_mod::lemma_add_mod_noop(
                    weighted_sum(p),
                    byte_sum(p.push(w@[i as int])),
                    65536,
                );
            }
            s1 = (s1 + w[i] as u32 + CHAR_OFFSET) % 65536;
            s2 = (s2 + s1) % 65536;
            i += 1;
        }
        assert(w@.subrange(0, w.len() as int) =~= w@);
        Rollsum { count: w.len(), s1, s2, window: Ghost(w@) }
    }

    /// The weak checksum of the window.
    pub fn digest(&self) -> (r: u32)
        requires
            self.wf(),
        ensures
            r == weak_sum(self@),
    {
        self.s2 * 65536 + self.s1
    }

    /// Slides the window by one byte: `out` leaves at the front, `inb` enters at the back.
    pub fn rotate(&mut self, out: u8, inb: u8)
        requires
            old(self).wf(),
            old(self)@.len() > 0,
            old(self)@[0] == out,
        ensures
            final(self).wf(),
            final(self)@ == old(self)@.drop_first().push(inb),
    {
        let ghost w = self.window@;
        let ghost w2 = w.drop_first().push(inb);
        proof {
            lemma_sums_drop_first(w);
            lemma_push_sums(w.drop_first(), inb);
            lemma_sums_nonneg(w);
            lemma_mod_combine(
                self.s1 as int,
                byte_sum(w),
                (out as u32 + CHAR_OFFSET) as int,
                out + 31,
                (inb as u32 + CHAR_OFFSET) as int,
                inb + 31,
            );
        }
        let s1 = (self.s1 + 65536 - (out as u32 + CHAR_OFFSET) + (inb as u32 + CHAR_OFFSET)) % 65536;
        let c = (self.count % 65536) as u64;
        let x = out as u64 + 31;
        assert(c * x <= 65536 * 287) by (nonlinear_arith)
            requires
                c < 65536,
                x < 287,
        ;
        let t = ((c * x) % 65536) as u32;
        proof {
            assert(t == (w.len() * (out + 31)) % 65536) by {
                vstd::arithmetic::div_mod::lemma_mul_mod_noop_left(w.len() as int, out + 31, 65536);
            }
            lemma_mod_combine(
                self.s2 as int,
                weighted_sum(w),
                t as int,
                w.len() * (out + 31),
                s1 as int,
                byte_sum(w2),
            );
        }
        let s2 = (self.s2 + 65536 - t + s1) % 65536;
        self.s1 = s1;
        self.s2 = s2;
        self.window = Ghost(w2);
    }

    /// Shrinks the window by one byte: `out` leaves at the front.
    pub fn rollout(&mut self, out: u8)
        requires
            old(self).wf(),
            old(self)@.len() > 0,
            old(self)@[0] == out,
        ensures
            final(self).wf(),
            final(self)@ == old(self)@.drop_first(),
    {
        let ghost w = self.window@;
        let ghost w2 = w.drop_first();
        proof {
            lemma_sums_drop_first(w);
            lemma_sums_nonneg(w);
            lemma_mod_combine(
                self.s1 as int,
                byte_sum(w),
                (out as u32 + CHAR_OFFSET) as int,
                out + 31,
                0,
                0,
            );
        }
        let s1 = (self.s1 + 65536 - (out as u32 + CHAR_OFFSET)) % 65536;
        let c = (self.count % 65536) as u64;
        let x = out as u64 + 31;
        assert(c * x <= 65536 * 287) by (nonlinear_arith)
            requires
                c < 65536,
                x < 287,
        ;
        let t = ((c * x) % 65536) as u32;
        proof {
            assert(t == (w.len() * (out + 31)) % 65536) by {
                vstd::arithmetic::div_mod::lemma_mul_mod_noop_left(w.len() as int, out + 31, 65536);
            }
            lemma_mod_combine(self.s2 as int, weighted_sum(w), t as int, w.len() * (out + 31), 0, 0);
        }
        let s2 = (self.s2 + 65536 - t) % 65536;
        self.count = self.count - 1;
        self.s1 = s1;
        self.s2 = s2;
        self.window = Ghost(w2);
    }
}

} // verus!
