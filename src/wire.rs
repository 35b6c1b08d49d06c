use vstd::prelude::*;

verus! {

/// Magic number of a signature whose strong sums are MD4.
pub const MD4_SIG_MAGIC: u32 = 0x72730136;
/// Magic number of a signature whose strong sums are BLAKE2b.
pub const BLAKE2_SIG_MAGIC: u32 = 0x72730137;
/// Magic number of a delta.
pub const DELTA_MAGIC: u32 = 0x72730236;

/// Command byte that ends a delta.
pub const OP_END: u8 = 0;
/// First command byte of a literal whose length follows in 1, 2, 4 or 8 bytes.
pub const OP_LITERAL_N1: u8 = 0x41;
/// First command byte of a copy whose offset and length follow.
pub const OP_COPY_N1_N1: u8 = 0x45;
/// Last command byte of a copy.
pub const OP_COPY_N8_N8: u8 = 0x54;

/// 256 to the power `n`.
pub open spec fn pow256(n: nat) -> nat
    decreases n,
{
    if n == 0 {
        1
    } else {
        256 * pow256((n - 1) as nat)
    }
}

/// The `n` low bytes of `v`, most significant first.
pub open spec fn be_bytes(v: nat, n: nat) -> Seq<u8>
    decreases n,
{
    if n == 0 {
        Seq::empty()
    } else {
        be_bytes(v / 256, (n - 1) as nat).push((v % 256) as u8)
    }
}

/// The number that big-endian bytes `s` write.
pub open spec fn be_value(s: Seq<u8>) -> nat
    decreases s.len(),
{
    if s.len() == 0 {
        0
    } else {
        be_value(s.drop_last()) * 256 + s.last() as nat
    }
}

/// The four big-endian bytes of a 32-bit number.
pub open spec fn be32(v: u32) -> Seq<u8> {
    be_bytes(v as nat, 4)
}

/// The width class of a number: 0, 1, 2 or 3 for 1, 2, 4 or 8 bytes, the fewest that hold it.
pub open spec fn width_class(v: nat) -> nat {
    if v < 0x100 {
        0
    } else if v < 0x10000 {
        1
    } else if v < 0x1_0000_0000 {
        2
    } else {
        3
    }
}

/// The byte count of a width class.
pub open spec fn class_width(c: nat) -> nat {
    if c == 0 {
        1
    } else if c == 1 {
        2
    } else if c == 2 {
        4
    } else {
        8
    }
}

/// One instruction of a delta.
pub enum Op {
    /// Copy `len` bytes of the base from `offset`.
    Copy(nat, nat),
    /// Insert these bytes.
    Literal(Seq<u8>),
}

/// How an instruction is written: a command byte that selects the widths,
/// then its numbers in the fewest bytes, then for a literal its bytes.
pub open spec fn encode_op(op: Op) -> Seq<u8> {
    match op {
        Op::Literal(b) => {
            let c = width_class(b.len());
            seq![(0x41 + c) as u8] + be_bytes(b.len(), class_width(c)) + b
        },
        Op::Copy(o, l) => {
            let co = width_class(o);
            let cl = width_class(l);
            seq![(0x45 + 4 * co + cl) as u8] + be_bytes(o, class_width(co)) + be_bytes(
                l,
                class_width(cl),
            )
        },
    }
}

/// The instructions written one after another.
pub open spec fn encode_ops(ops: Seq<Op>) -> Seq<u8>
    decreases ops.len(),
{
    if ops.len() == 0 {
        Seq::empty()
    } else {
        encode_op(ops[0]) + encode_ops(ops.drop_first())
    }
}

/// A whole delta: its magic number, the instructions, and the end command.
pub open spec fn delta_bytes(ops: Seq<Op>) -> Seq<u8> {
    be32(DELTA_MAGIC) + encode_ops(ops) + seq![0u8]
}

/// The instruction at the front of `d`, whose first byte is a command other
/// than the end, with the number of bytes it takes; `None` where the command
/// is unknown or the bytes run out.
pub open spec fn next_op(d: Seq<u8>) -> Option<(Op, nat)> {
    let cmd = d[0] as int;
    if 1 <= cmd <= 0x40 {
        if d.len() >= 1 + cmd {
            Some((Op::Literal(d.subrange(1, 1 + cmd)), (1 + cmd) as nat))
        } else {
            None
        }
    } else if 0x41 <= cmd <= 0x44 {
        let w = class_width((cmd - 0x41) as nat) as int;
        if d.len() >= 1 + w {
            let l = be_value(d.subrange(1, 1 + w)) as int;
            if d.len() >= 1 + w + l {
                Some((Op::Literal(d.subrange(1 + w, 1 + w + l)), (1 + w + l) as nat))
            } else {
                None
            }
        } else {
            None
        }
    } else if 0x45 <= cmd <= 0x54 {
        let c = (cmd - 0x45) as nat;
        let wo = class_width(c / 4) as int;
        let wl = class_width(c % 4) as int;
        if d.len() >= 1 + wo + wl {
            Some(
                (
                    Op::Copy(
                        be_value(d.subrange(1, 1 + wo)),
                        be_value(d.subrange(1 + wo, 1 + wo + wl)),
                    ),
                    (1 + wo + wl) as nat,
                ),
            )
        } else {
            None
        }
    } else {
        None
    }
}

/// Lemma: a number below `pow256(n)` fits in a u64 when `n <= 8`.
pub proof fn lemma_pow256_bounds(n: nat)
    ensures
        pow256(n) >= 1,
        n <= 8 ==> pow256(n) <= 0x1_0000_0000_0000_0000,
    decreases n,
{
    if n > 0 {
        lemma_pow256_bounds((n - 1) as nat);
        if n <= 8 {
            lemma_pow256_le((n - 1) as nat);
        }
    }
}

proof fn lemma_pow256_le(n: nat)
    requires
        n <= 7,
    ensures
        pow256(n) <= 0x100_0000_0000_0000,
    decreases n,
{
    reveal_with_fuel(pow256, 8);
    if n > 0 {
        lemma_pow256_le((n - 1) as nat);
    }
}

/// Lemma: `n` big-endian bytes write a number below `pow256(n)`.
pub proof fn lemma_be_value_bound(s: Seq<u8>)
    ensures
        be_value(s) < pow256(s.len()),
    decreases s.len(),
{
    if s.len() > 0 {
        lemma_be_value_bound(s.drop_last());
        let a = be_value(s.drop_last());
        let p = pow256((s.len() - 1) as nat);
        assert(a * 256 + s.last() < p * 256) by (nonlinear_arith)
            requires
                a < p,
                s.last() < 256,
        ;
    }
}

/// Lemma: reading back the `n` low bytes of a number gives it modulo `pow256(n)`.
pub proof fn lemma_be_round_trip(v: nat, n: nat)
    ensures
        be_bytes(v, n).len() == n,
        be_value(be_bytes(v, n)) == v % pow256(n),
    decreases n,
{
    if n > 0 {
        lemma_be_round_trip(v / 256, (n - 1) as nat);
        let s = be_bytes(v, n);
        assert(s.drop_last() =~= be_bytes(v / 256, (n - 1) as nat));
        let p = pow256((n - 1) as nat);
        lemma_pow256_bounds((n - 1) as nat);
        assert((v / 256) % p * 256 + v % 256 == v % (256 * p)) by {
            vstd::arithmetic::div_mod::lemma_breakdown(v as int, 256, p as int);
        }
    }
}

/// Lemma: writing two runs of instructions writes the one and then the other.
pub proof fn lemma_encode_ops_append(a: Seq<Op>, b: Seq<Op>)
    ensures
        encode_ops(a + b) == encode_ops(a) + encode_ops(b),
    decreases a.len(),
{
    if a.len() == 0 {
        assert(a + b =~= b);
        assert(encode_ops(a) + encode_ops(b) =~= encode_ops(b));
    } else {
        lemma_encode_ops_append(a.drop_first(), b);
        assert((a + b).drop_first() =~= a.drop_first() + b);
        assert((a + b)[0] == a[0]);
        assert(encode_ops(a + b) =~= encode_ops(a) + encode_ops(b));
    }
}

/// Width class of `v`, as the executable encoder picks it.
pub fn width_class_of(v: u64) -> (r: u8)
    ensures
        r as nat == width_class(v as nat),
{
    if v < 0x100 {
        0
    } else if v < 0x10000 {
        1
    } else if v < 0x1_0000_0000 {
        2
    } else {
        3
    }
}

/// Byte count of a width class.
pub fn class_width_of(c: u8) -> (r: usize)
    ensures
        r as nat == class_width(c as nat),
        1 <= r <= 8,
{
    if c == 0 {
        1
    } else if c == 1 {
        2
    } else if c == 2 {
        4
    } else {
        8
    }
}

/// Appends the `n` low bytes of `v`, most significant first.
pub fn push_be(out: &mut Vec<u8>, v: u64, n: usize)
    ensures
        final(out)@ == old(out)@ + be_bytes(v as nat, n as nat),
    decreases n,
{
    if n == 0 {
        assert(old(out)@ + be_bytes(v as nat, 0) =~= old(out)@);
    } else {
        push_be(out, v / 256, n - 1);
        out.push((v % 256) as u8);
        assert(final(out)@ =~= old(out)@ + be_bytes(v as nat, n as nat));
    }
}

/// Appends all of `s`.
pub fn push_all(out: &mut Vec<u8>, s: &[u8])
    ensures
        final(out)@ == old(out)@ + s@,
{
    let ghost start = out@;
    let mut j: usize = 0;
    while j < s.len()
        invariant
            j <= s@.len(),
            out@ == start + s@.take(j as int),
        decreases s.len() - j,
    {
        out.push(s[j]);
        j += 1;
        assert(out@ =~= start + s@.take(j as int));
    }
    assert(s@.take(s@.len() as int) =~= s@);
}

/// Reads the big-endian number in the `n` bytes of `d` from `pos`.
pub fn read_be(d: &[u8], pos: usize, n: usize) -> (r: u64)
    requires
        pos + n <= d@.len(),
        n <= 8,
    ensures
        r as nat == be_value(d@.subrange(pos as int, pos + n)),
{
    let mut r: u64 = 0;
    let mut i: usize = 0;
    while i < n
        invariant
            i <= n <= 8,
            pos + n <= d@.len(),
            r as nat == be_value(d@.subrange(pos as int, pos + i)),
        decreases n - i,
    {
        let ghost s = d@.subrange(pos as int, pos + i + 1);
        proof {
            assert(s.drop_last() =~= d@.subrange(pos as int, pos + i));
            lemma_be_value_bound(s);
            lemma_pow256_bounds(s.len());
        }
        let len = d.len();
        assert(pos + i < len);
        r = r * 256 + d[pos + i] as u64;
        i += 1;
    }
    r
}

} // verus!
