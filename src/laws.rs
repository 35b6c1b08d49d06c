use vstd::prelude::*;
use crate::delta::{
    block_matches, continues, delta_ops, first_match, match_at, next_block, flush, is_first_match, matchable, ops_from, window,
    window_len,
};
use crate::patch::{op_output, patch_result, prefixed, run_ops};
use crate::signature::{
    block_sums, entries_bytes, entry_at, entry_start, kind_of_magic, parse_signature, sig_header,
    sig_magic, signature_bytes, valid_params, SigModel,
};
use crate::rollsum::weak_sum;
use crate::strong::{strong_sum, SignatureType};
use crate::wire::{
    be32, be_bytes, be_value, class_width, delta_bytes, encode_op, encode_ops, lemma_be_round_trip,
    next_op, pow256, width_class, Op, DELTA_MAGIC,
};

verus! {

/// An instruction whose numbers fit in 64 bits, as the wire format requires.
pub open spec fn op_fits(op: Op) -> bool {
    match op {
        Op::Copy(o, l) => o <= u64::MAX && l <= u64::MAX,
        Op::Literal(b) => b.len() <= u64::MAX,
    }
}

/// What a run of instructions writes against a base, one after another.
pub open spec fn apply_ops(base: Seq<u8>, ops: Seq<Op>) -> Option<Seq<u8>>
    decreases ops.len(),
{
    if ops.len() == 0 {
        Some(Seq::empty())
    } else {
        match op_output(base, ops[0]) {
            Some(o) => prefixed(o, apply_ops(base, ops.drop_first())),
            None => None,
        }
    }
}

proof fn lemma_pow256_values()
    ensures
        pow256(1) == 0x100,
        pow256(2) == 0x10000,
        pow256(4) == 0x1_0000_0000,
        pow256(8) == 0x1_0000_0000_0000_0000,
{
    reveal_with_fuel(pow256, 9);
}

/// The fewest bytes that hold a 64-bit number give it back.
proof fn lemma_be_width(v: nat)
    requires
        v <= u64::MAX,
    ensures
        be_bytes(v, class_width(width_class(v))).len() == class_width(width_class(v)),
        be_value(be_bytes(v, class_width(width_class(v)))) == v,
{
    let w = class_width(width_class(v));
    lemma_pow256_values();
    lemma_be_round_trip(v, w);
    assert(v < pow256(w));
    vstd::arithmetic::div_mod::lemma_small_mod(v, pow256(w));
}

/// Lemma: an instruction's own bytes decode back to it.
proof fn lemma_next_op_encode(op: Op, rest: Seq<u8>)
    requires
        op_fits(op),
    ensures
        encode_op(op).len() > 0,
        next_op(encode_op(op) + rest) == Some((op, encode_op(op).len())),
{
    let d = encode_op(op) + rest;
    match op {
        Op::Literal(b) => {
            let c = width_class(b.len());
            let w = class_width(c);
            lemma_be_width(b.len());
            let e = seq![(0x41 + c) as u8] + be_bytes(b.len(), w) + b;
            assert(d.subrange(1, 1 + w as int) =~= be_bytes(b.len(), w));
            assert(d.subrange(1 + w as int, (1 + w + b.len()) as int) =~= b);
            assert(d[0] == (0x41 + c) as u8);
        },
        Op::Copy(o, l) => {
            let co = width_class(o);
            let cl = width_class(l);
            let wo = class_width(co);
            let wl = class_width(cl);
            lemma_be_width(o);
            lemma_be_width(l);
            assert(d.subrange(1, 1 + wo as int) =~= be_bytes(o, wo));
            assert(d.subrange(1 + wo as int, (1 + wo + wl) as int) =~= be_bytes(l, wl));
            assert(d[0] == (0x45 + 4 * co + cl) as u8);
            let c = (4 * co + cl) as nat;
            assert(c / 4 == co && c % 4 == cl);
        },
    }
}

/// Lemma: a written run of instructions, closed by the end command, runs as
/// the instructions apply.
pub proof fn lemma_run_encoded(base: Seq<u8>, ops: Seq<Op>)
    requires
        forall|i: int| 0 <= i < ops.len() ==> op_fits(#[trigger] ops[i]),
    ensures
        run_ops(base, encode_ops(ops) + seq![0u8]) == apply_ops(base, ops),
    decreases ops.len(),
{
    if ops.len() == 0 {
        assert(encode_ops(ops) + seq![0u8] =~= seq![0u8]);
    } else {
        let rest = encode_ops(ops.drop_first()) + seq![0u8];
        let d = encode_ops(ops) + seq![0u8];
        assert(d =~= encode_op(ops[0]) + rest);
        assert(op_fits(ops[0]));
        lemma_next_op_encode(ops[0], rest);
        let k = encode_op(ops[0]).len();
        assert(d.skip(k as int) =~= rest);
        lemma_run_encoded(base, ops.drop_first());
        assert(d[0] != 0) by {
            assert(d[0] == encode_op(ops[0])[0]);
        }
    }
}

/// Lemma: applying two runs of instructions writes what the first writes, then the second.
pub proof fn lemma_apply_append(base: Seq<u8>, a: Seq<Op>, b: Seq<Op>)
    ensures
        apply_ops(base, a + b) == match (apply_ops(base, a), apply_ops(base, b)) {
            (Some(x), Some(y)) => Some(x + y),
            _ => None,
        },
    decreases a.len(),
{
    if a.len() == 0 {
        assert(a + b =~= b);
        match apply_ops(base, b) {
            Some(y) => {
                assert(Seq::<u8>::empty() + y =~= y);
            },
            None => {},
        }
    } else {
        assert((a + b).drop_first() =~= a.drop_first() + b);
        assert((a + b)[0] == a[0]);
        lemma_apply_append(base, a.drop_first(), b);
        match (op_output(base, a[0]), apply_ops(base, a.drop_first()), apply_ops(base, b)) {
            (Some(o), Some(x), Some(y)) => {
                assert(o + (x + y) =~= (o + x) + y);
            },
            _ => {},
        }
    }
}

/// Lemma: a delta written from instructions that fit patches a base as the
/// instructions apply to it.
pub proof fn lemma_patch_of_delta_bytes(base: Seq<u8>, ops: Seq<Op>)
    requires
        forall|i: int| 0 <= i < ops.len() ==> op_fits(#[trigger] ops[i]),
    ensures
        patch_result(base, delta_bytes(ops)) == match apply_ops(base, ops) {
            Some(o) => Ok(o),
            None => Err(crate::error::Error::Syntax),
        },
{
    let d = delta_bytes(ops);
    lemma_pow256_values();
    lemma_be_round_trip(DELTA_MAGIC as nat, 4);
    vstd::arithmetic::div_mod::lemma_small_mod(DELTA_MAGIC as nat, pow256(4));
    assert(d.subrange(0, 4) =~= be32(DELTA_MAGIC));
    assert(d.skip(4) =~= encode_ops(ops) + seq![0u8]);
    lemma_run_encoded(base, ops);
}

proof fn lemma_be32_round_trip(v: u32)
    ensures
        be32(v).len() == 4,
        be_value(be32(v)) == v,
{
    lemma_pow256_values();
    lemma_be_round_trip(v as nat, 4);
    vstd::arithmetic::div_mod::lemma_small_mod(v as nat, pow256(4));
}

/// Lemma: the sums of the blocks lie one after another, each in `4 + strong_len` bytes.
proof fn lemma_entries_layout(sums: Seq<(u32, Seq<u8>)>, sl: nat)
    requires
        forall|i: int| 0 <= i < sums.len() ==> (#[trigger] sums[i]).1.len() == sl,
    ensures
        entries_bytes(sums).len() == sums.len() * (4 + sl),
        forall|i: int|
            0 <= i < sums.len() ==> {
                let s = i * (4 + sl);
                &&& entries_bytes(sums).subrange(s, s + 4) == be32((#[trigger] sums[i]).0)
                &&& entries_bytes(sums).subrange(s + 4, s + 4 + sl) == sums[i].1
            },
    decreases sums.len(),
{
    if sums.len() > 0 {
        let rest = sums.drop_first();
        assert forall|i: int| 0 <= i < rest.len() implies (#[trigger] rest[i]).1.len() == sl by {
            assert(rest[i] == sums[i + 1]);
        }
        lemma_entries_layout(rest, sl);
        let e = entries_bytes(sums);
        let head = be32(sums[0].0) + sums[0].1;
        lemma_be32_round_trip(sums[0].0);
        assert(e == head + entries_bytes(rest));
        let n = sums.len();
        assert(e.len() == n * (4 + sl)) by (nonlinear_arith)
            requires
                e.len() == 4 + sl + (n - 1) * (4 + sl),
        ;
        assert forall|i: int|
            0 <= i < sums.len() implies {
            let s = i * (4 + sl);
            &&& entries_bytes(sums).subrange(s, s + 4) == be32((#[trigger] sums[i]).0)
            &&& entries_bytes(sums).subrange(s + 4, s + 4 + sl) == sums[i].1
        } by {
            let s = i * (4 + sl);
            if i == 0 {
                assert(e.subrange(0, 4) =~= be32(sums[0].0));
                assert(e.subrange(4, (4 + sl) as int) =~= sums[0].1);
            } else {
                let t = (i - 1) * (4 + sl);
                assert(s == 4 + sl + t) by (nonlinear_arith)
                    requires
                        s == i * (4 + sl),
                        t == (i - 1) * (4 + sl),
                ;
                assert(rest[i - 1] == sums[i]);
                assert(0 <= t && t + 4 + sl <= (n - 1) * (4 + sl)) by (nonlinear_arith)
                    requires
                        t == (i - 1) * (4 + sl),
                        1 <= i < n,
                ;
                assert(head.len() == 4 + sl);
                assert(e.subrange(s, s + 4) =~= entries_bytes(rest).subrange(t, t + 4));
                assert(e.subrange(s + 4, s + 4 + sl) =~= entries_bytes(rest).subrange(
                    t + 4,
                    t + 4 + sl,
                ));
            }
        }
    }
}

/// Lemma: every block's strong sum has the signature's strong length.
proof fn lemma_block_sums_shape(kind: SignatureType, base: Seq<u8>, bl: nat, sl: nat)
    requires
        bl >= 1,
    ensures
        forall|i: int|
            0 <= i < block_sums(kind, base, bl, sl).len() ==> (#[trigger] block_sums(
                kind,
                base,
                bl,
                sl,
            )[i]).1.len() == sl,
        block_sums(kind, base, bl, sl).len() * bl < base.len() + bl,
    decreases base.len(),
{
    if base.len() > 0 {
        let n: int = if base.len() < bl {
            base.len() as int
        } else {
            bl as int
        };
        let rest = base.skip(n);
        lemma_block_sums_shape(kind, rest, bl, sl);
        let bs = block_sums(kind, base, bl, sl);
        let rs = block_sums(kind, rest, bl, sl);
        assert forall|i: int| 0 <= i < bs.len() implies (#[trigger] bs[i]).1.len() == sl by {
            if i > 0 {
                assert(bs[i] == rs[i - 1]);
            }
        }
        if base.len() < bl {
            assert(rest.len() == 0);
        }
        assert(bs.len() * bl < base.len() + bl) by (nonlinear_arith)
            requires
                bs.len() == rs.len() + 1,
                rs.len() * bl < rest.len() + bl,
                rest.len() == base.len() - n,
                n == bl || (n == base.len() && rest.len() == 0 && rs.len() == 0),
                base.len() > 0,
        ;
    }
}

/// The model of the signature of `base`.
pub open spec fn sig_model(kind: SignatureType, base: Seq<u8>, bl: nat, sl: nat) -> SigModel {
    SigModel { kind, block_len: bl, strong_len: sl, sums: block_sums(kind, base, bl, sl) }
}

/// Lemma: a computed signature reads back as the model of the base.
pub proof fn lemma_parse_signature_bytes(kind: SignatureType, base: Seq<u8>, bl: nat, sl: nat)
    requires
        valid_params(kind, bl, sl),
    ensures
        parse_signature(signature_bytes(kind, base, bl, sl)) == Ok::<SigModel, crate::error::Error>(
            sig_model(kind, base, bl, sl),
        ),
        sig_model(kind, base, bl, sl).sums.len() * bl < base.len() + bl,
{
    let d = signature_bytes(kind, base, bl, sl);
    let sums = block_sums(kind, base, bl, sl);
    lemma_block_sums_shape(kind, base, bl, sl);
    lemma_entries_layout(sums, sl);
    lemma_be32_round_trip(sig_magic(kind));
    lemma_be32_round_trip(bl as u32);
    lemma_be32_round_trip(sl as u32);
    let e = entries_bytes(sums);
    assert(d == sig_header(kind, bl as u32, sl as u32) + e);
    assert(d.subrange(0, 4) =~= be32(sig_magic(kind)));
    assert(d.subrange(4, 8) =~= be32(bl as u32));
    assert(d.subrange(8, 12) =~= be32(sl as u32));
    assert(kind_of_magic(sig_magic(kind) as nat) == Some(kind));
    let ent = (4 + sl) as int;
    let n = sums.len() as int;
    assert(d.len() - 12 == n * ent);
    vstd::arithmetic::div_mod::lemma_mod_multiples_basic(n, ent);
    vstd::arithmetic::div_mod::lemma_div_multiples_vanish(n, ent);
    let parsed = Seq::new(n as nat, |i: int| entry_at(d, sl, i));
    assert forall|i: int| 0 <= i < n implies parsed[i] == sums[i] by {
        let s = i * ent;
        assert(entry_start(sl, i) == 12 + s);
        assert(0 <= s && s + ent <= n * ent) by (nonlinear_arith)
            requires
                s == i * ent,
                0 <= i < n,
                ent > 0,
        ;
        assert(d.subrange(12 + s, 12 + s + 4) =~= e.subrange(s, s + 4));
        assert(d.subrange(12 + s + 4, 12 + s + 4 + sl) =~= e.subrange(s + 4, s + 4 + sl));
        lemma_be32_round_trip(sums[i].0);
    }
    assert(parsed =~= sums);
}

/// Every window of `new` whose sums match a block of the signature holds the
/// same bytes as the base at that block: no weak and strong sums collide.
pub open spec fn no_false_match(m: SigModel, base: Seq<u8>, new: Seq<u8>) -> bool {
    forall|p: int, j: int|
        0 <= p < new.len() && #[trigger] block_matches(m, window(new, m.block_len, p), j) ==> {
            let wl = window_len(new, m.block_len, p);
            &&& j * m.block_len + wl <= base.len()
            &&& base.subrange(j * m.block_len, j * m.block_len + wl) == window(new, m.block_len, p)
        }
}

/// Where the output of the open copy and the literal run begins.
pub open spec fn copy_start(ls: int, pend: Option<(nat, nat)>) -> int {
    match pend {
        Some((o, l)) => ls - l,
        None => ls,
    }
}

/// The open copy reads from the base what the new data holds just before `ls`.
pub open spec fn pend_ok(base: Seq<u8>, new: Seq<u8>, ls: int, pend: Option<(nat, nat)>) -> bool {
    match pend {
        Some((o, l)) => {
            &&& l <= ls
            &&& o + l <= base.len()
            &&& base.subrange(o as int, (o + l) as int) == new.subrange(ls - l, ls)
        },
        None => true,
    }
}

proof fn lemma_apply_one(base: Seq<u8>, op: Op)
    ensures
        apply_ops(base, seq![op]) == op_output(base, op),
{
    assert(seq![op].drop_first() =~= Seq::<Op>::empty());
    assert(apply_ops(base, seq![op].drop_first()) == Some(Seq::<u8>::empty()));
    assert(seq![op][0] == op);
    match op_output(base, op) {
        Some(o) => {
            assert(o + Seq::<u8>::empty() =~= o);
        },
        None => {},
    }
}

proof fn lemma_flush_apply(
    base: Seq<u8>,
    new: Seq<u8>,
    ls: int,
    p: int,
    pend: Option<(nat, nat)>,
)
    requires
        0 <= ls <= p <= new.len(),
        pend_ok(base, new, ls, pend),
    ensures
        apply_ops(base, flush(new, ls, p, pend)) == Some(
            new.subrange(copy_start(ls, pend), p),
        ),
{
    let c: Seq<Op> = match pend {
        Some((o, l)) => seq![Op::Copy(o, l)],
        None => Seq::empty(),
    };
    match pend {
        Some((o, l)) => {
            lemma_apply_one(base, Op::Copy(o, l));
        },
        None => {},
    }
    assert(apply_ops(base, c) == Some(new.subrange(copy_start(ls, pend), ls)));
    if ls < p {
        let lit = Op::Literal(new.subrange(ls, p));
        lemma_apply_one(base, lit);
        lemma_apply_append(base, c, seq![lit]);
        assert(c.push(lit) =~= c + seq![lit]);
        assert(new.subrange(copy_start(ls, pend), ls) + new.subrange(ls, p) =~= new.subrange(
            copy_start(ls, pend),
            p,
        ));
    } else {
        assert(new.subrange(copy_start(ls, pend), ls) =~= new.subrange(copy_start(ls, pend), p));
    }
}

/// Lemma: without false matches, the matcher's instructions from any state
/// rebuild the new data from where the open copy begins.
proof fn lemma_ops_from_apply(
    m: SigModel,
    base: Seq<u8>,
    new: Seq<u8>,
    p: int,
    ls: int,
    pend: Option<(nat, nat)>,
)
    requires
        0 <= ls <= p <= new.len(),
        m.block_len >= 1,
        no_false_match(m, base, new),
        pend_ok(base, new, ls, pend),
    ensures
        apply_ops(base, ops_from(m, new, p, ls, pend)) == Some(
            new.subrange(copy_start(ls, pend), new.len() as int),
        ),
    decreases new.len() - p,
{
    if p >= new.len() {
        lemma_flush_apply(base, new, ls, new.len() as int, pend);
    } else {
        let bl = m.block_len;
        let w = window(new, bl, p);
        let wl = window_len(new, bl, p);
        let q = p + wl;
        if continues(m, new, p, ls, pend) {
            let (po, pl) = match pend {
                Some(c) => c,
                None => (0nat, 0nat),
            };
            let nb = next_block(m, pend)->Some_0;
            let e: int = (po + pl) as int;
            let b: int = bl as int;
            vstd::arithmetic::div_mod::lemma_fundamental_div_mod(e, b);
            assert(e % b == 0);
            assert(nb == e / b);
            assert(nb * b == e) by (nonlinear_arith)
                requires
                    e == b * (e / b) + e % b,
                    e % b == 0,
                    nb == e / b,
            ;
            assert(block_matches(m, window(new, m.block_len, p), nb));
            let off = po + pl;
            assert(base.subrange(off as int, off + wl) == new.subrange(p, q));
            let np = Some((po, (pl + wl) as nat));
            assert(base.subrange(po as int, po + pl + wl) =~= base.subrange(
                po as int,
                (po + pl) as int,
            ) + base.subrange(off as int, off + wl));
            assert(new.subrange(q - (pl + wl), q) =~= new.subrange(ls - pl, ls) + new.subrange(p, q));
            lemma_ops_from_apply(m, base, new, q, q, np);
        } else {
            match match_at(m, new, p) {
                Some(j) => {
                    if wl > 0 {
                        assert(is_first_match(m, w, j));
                        assert(block_matches(m, window(new, m.block_len, p), j));
                        let off = (j * bl) as nat;
                        assert(base.subrange(off as int, off + wl) == new.subrange(p, q));
                        let np = Some((off, wl as nat));
                        lemma_flush_apply(base, new, ls, p, pend);
                        lemma_ops_from_apply(m, base, new, q, q, np);
                        lemma_apply_append(base, flush(new, ls, p, pend), ops_from(m, new, q, q, np));
                        assert(new.subrange(copy_start(ls, pend), p) + new.subrange(
                            p,
                            new.len() as int,
                        ) =~= new.subrange(copy_start(ls, pend), new.len() as int));
                    } else {
                        lemma_ops_from_apply(m, base, new, p + 1, ls, pend);
                    }
                },
                None => {
                    lemma_ops_from_apply(m, base, new, p + 1, ls, pend);
                },
            }
        }
    }
}

/// Every instruction of `ops` fits the wire format.
pub open spec fn all_fit(ops: Seq<Op>) -> bool {
    forall|i: int| 0 <= i < ops.len() ==> op_fits(#[trigger] ops[i])
}

proof fn lemma_all_fit_append(a: Seq<Op>, b: Seq<Op>)
    requires
        all_fit(a),
        all_fit(b),
    ensures
        all_fit(a + b),
{
    assert forall|i: int| 0 <= i < (a + b).len() implies op_fits(#[trigger] (a + b)[i]) by {
        if i < a.len() {
            assert((a + b)[i] == a[i]);
        } else {
            assert((a + b)[i] == b[i - a.len()]);
        }
    }
}

/// Lemma: the matcher's instructions fit the wire format.
proof fn lemma_ops_from_fit(m: SigModel, new: Seq<u8>, p: int, ls: int, pend: Option<(nat, nat)>)
    requires
        0 <= ls <= p <= new.len(),
        new.len() <= u64::MAX,
        matchable(m),
        pend matches Some((o, l)) ==> o <= u64::MAX && l <= ls,
    ensures
        all_fit(ops_from(m, new, p, ls, pend)),
    decreases new.len() - p,
{
    if p >= new.len() {
        assert(all_fit(flush(new, ls, new.len() as int, pend)));
    } else {
        let bl = m.block_len;
        let w = window(new, bl, p);
        let wl = window_len(new, bl, p);
        let q = p + wl;
        if continues(m, new, p, ls, pend) {
            let (po, pl) = match pend {
                Some(c) => c,
                None => (0nat, 0nat),
            };
            lemma_ops_from_fit(m, new, q, q, Some((po, (pl + wl) as nat)));
        } else {
            match match_at(m, new, p) {
                Some(j) => {
                    if wl > 0 {
                        assert(is_first_match(m, w, j));
                        let off = (j * bl) as nat;
                        assert(j * bl <= m.sums.len() * bl) by (nonlinear_arith)
                            requires
                                0 <= j < m.sums.len(),
                        ;
                        lemma_ops_from_fit(m, new, q, q, Some((off, wl as nat)));
                        assert(all_fit(flush(new, ls, p, pend)));
                        lemma_all_fit_append(
                            flush(new, ls, p, pend),
                            ops_from(m, new, q, q, Some((off, wl as nat))),
                        );
                    } else {
                        lemma_ops_from_fit(m, new, p + 1, ls, pend);
                    }
                },
                None => {
                    lemma_ops_from_fit(m, new, p + 1, ls, pend);
                },
            }
        }
    }
}

/// Round trip: the delta of `new` against the signature of `base` patches
/// `base` into `new`, wherever no window of `new` has the weak and strong
/// sums of a block of `base` without holding its bytes, and the lengths fit
/// in 64 bits.
pub proof fn lemma_round_trip(
    kind: SignatureType,
    base: Seq<u8>,
    new: Seq<u8>,
    block_len: nat,
    strong_len: nat,
)
    requires
        valid_params(kind, block_len, strong_len),
        base.len() + block_len <= u64::MAX,
        new.len() <= u64::MAX,
        no_false_match(sig_model(kind, base, block_len, strong_len), base, new),
    ensures
        parse_signature(signature_bytes(kind, base, block_len, strong_len)) matches Ok(m) && m
            == sig_model(kind, base, block_len, strong_len) && matchable(m) && patch_result(
            base,
            delta_bytes(delta_ops(m, new)),
        ) == Ok::<Seq<u8>, crate::error::Error>(new),
{
    let m = sig_model(kind, base, block_len, strong_len);
    lemma_parse_signature_bytes(kind, base, block_len, strong_len);
    let ops = delta_ops(m, new);
    lemma_ops_from_fit(m, new, 0, 0, None);
    lemma_ops_from_apply(m, base, new, 0, 0, None);
    assert(new.subrange(0, new.len() as int) =~= new);
    lemma_patch_of_delta_bytes(base, ops);
}

/// Determinism: the signature and the delta depend on their inputs alone, so
/// equal inputs give byte-identical outputs.
pub proof fn lemma_deterministic(
    kind: SignatureType,
    base1: Seq<u8>,
    base2: Seq<u8>,
    block_len: nat,
    strong_len: nat,
    m: SigModel,
    new1: Seq<u8>,
    new2: Seq<u8>,
)
    requires
        base1 == base2,
        new1 == new2,
    ensures
        signature_bytes(kind, base1, block_len, strong_len) == signature_bytes(
            kind,
            base2,
            block_len,
            strong_len,
        ),
        delta_bytes(delta_ops(m, new1)) == delta_bytes(delta_ops(m, new2)),
{
}

/// No window of `new` has the sums of any block of the signature.
pub open spec fn shares_no_block(m: SigModel, new: Seq<u8>) -> bool {
    forall|p: int, j: int|
        0 <= p < new.len() ==> !#[trigger] block_matches(m, window(new, m.block_len, p), j)
}

proof fn lemma_no_match_from(m: SigModel, new: Seq<u8>, p: int)
    requires
        0 <= p <= new.len(),
        shares_no_block(m, new) || new.len() < m.block_len,
    ensures
        ops_from(m, new, p, 0, None) == flush(new, 0, new.len() as int, None),
    decreases new.len() - p,
{
    if p < new.len() {
        let w = window(new, m.block_len, p);
        if new.len() >= m.block_len {
            assert forall|j: int| !is_first_match(m, w, j) by {
                assert(!block_matches(m, window(new, m.block_len, p), j));
            }
        }
        lemma_no_match_from(m, new, p + 1);
    }
}

/// No-match fallback: where no window of `new` has the sums of a block of the
/// signature, or `new` is shorter than one block, the delta is one literal
/// holding all of `new` (nothing at all for empty `new`).
pub proof fn lemma_no_match_literal(m: SigModel, new: Seq<u8>)
    requires
        shares_no_block(m, new) || new.len() < m.block_len,
    ensures
        new.len() > 0 ==> delta_ops(m, new) == seq![Op::Literal(new)],
        new.len() == 0 ==> delta_ops(m, new) == Seq::<Op>::empty(),
{
    lemma_no_match_from(m, new, 0);
    assert(new.subrange(0, new.len() as int) =~= new);
    assert(Seq::<Op>::empty().push(Op::Literal(new)) =~= seq![Op::Literal(new)]);
}

/// Lemma: block `k` of the signature holds the sums of the window at `k * block_len`.
pub proof fn lemma_block_sums_index(
    kind: SignatureType,
    base: Seq<u8>,
    bl: nat,
    sl: nat,
    k: int,
)
    requires
        bl >= 1,
        0 <= k,
        k * bl < base.len(),
    ensures
        k < block_sums(kind, base, bl, sl).len(),
        block_sums(kind, base, bl, sl)[k] == (
            weak_sum(window(base, bl, k * bl)),
            strong_sum(kind, window(base, bl, k * bl), sl),
        ),
    decreases k,
{
    let n: int = if base.len() < bl {
        base.len() as int
    } else {
        bl as int
    };
    if k == 0 {
        assert(k * bl == 0) by (nonlinear_arith)
            requires
                k == 0,
        ;
        assert(window(base, bl, 0) =~= base.take(n));
    } else {
        assert(k * bl >= bl) by (nonlinear_arith)
            requires
                k >= 1,
                bl >= 1,
        ;
        assert(n == bl);
        let rest = base.skip(n);
        assert((k - 1) * bl == k * bl - bl) by (nonlinear_arith);
        lemma_block_sums_index(kind, rest, bl, sl, k - 1);
        let bs = block_sums(kind, base, bl, sl);
        assert(bs == seq![(weak_sum(base.take(n)), strong_sum(kind, base.take(n), sl))] + block_sums(kind, rest, bl, sl));
        assert(bs[k] == block_sums(kind, rest, bl, sl)[k - 1]);
        assert(window(rest, bl, (k - 1) * bl) =~= window(base, bl, k * bl));
    }
}

/// Block isolation: changing one byte of the base leaves the sums of every
/// other block, and the number of blocks, as they were.
pub proof fn lemma_block_isolation(
    kind: SignatureType,
    base: Seq<u8>,
    bl: nat,
    sl: nat,
    x: int,
    v: u8,
)
    requires
        bl >= 1,
        0 <= x < base.len(),
    ensures
        block_sums(kind, base.update(x, v), bl, sl).len() == block_sums(kind, base, bl, sl).len(),
        forall|i: int|
            0 <= i < block_sums(kind, base, bl, sl).len() && i != x / (bl as int) ==> #[trigger] block_sums(
                kind,
                base.update(x, v),
                bl,
                sl,
            )[i] == block_sums(kind, base, bl, sl)[i],
    decreases base.len(),
{
    let b2 = base.update(x, v);
    let n: int = if base.len() < bl {
        base.len() as int
    } else {
        bl as int
    };
    let s1 = block_sums(kind, base, bl, sl);
    let s2 = block_sums(kind, b2, bl, sl);
    if x < n {
        assert(b2.skip(n) =~= base.skip(n));
        vstd::arithmetic::div_mod::lemma_basic_div_specific_divisor(bl as int);
        assert(x / (bl as int) == 0);
        assert forall|i: int| 0 < i < s1.len() implies s2[i] == s1[i] by {
            assert(s2[i] == block_sums(kind, b2.skip(n), bl, sl)[i - 1]);
        }
    } else {
        assert(n == bl);
        assert(b2.take(n) =~= base.take(n));
        assert(b2.skip(n) =~= base.skip(n).update(x - n, v));
        lemma_block_isolation(kind, base.skip(n), bl, sl, x - n, v);
        vstd::arithmetic::div_mod::lemma_div_minus_one(x, bl as int);
        assert((x - n) / (bl as int) == x / (bl as int) - 1);
        let r1 = block_sums(kind, base.skip(n), bl, sl);
        let r2 = block_sums(kind, b2.skip(n), bl, sl);
        assert forall|i: int| 0 <= i < s1.len() && i != x / (bl as int) implies #[trigger] s2[i]
            == s1[i] by {
            if i > 0 {
                assert(s2[i] == r2[i - 1]);
                assert(s1[i] == r1[i - 1]);
            }
        }
    }
}

proof fn lemma_identity_from(kind: SignatureType, base: Seq<u8>, bl: nat, sl: nat, k: int)
    requires
        bl >= 1,
        base.len() >= bl,
        1 <= k,
        k * bl <= base.len() || (k - 1) * bl < base.len() <= k * bl,
    ensures
        ({
            let p = if k * bl <= base.len() {
                k * bl
            } else {
                base.len() as int
            };
            ops_from(sig_model(kind, base, bl, sl), base, p, p, Some((0nat, p as nat))) == seq![
                Op::Copy(0, base.len()),
            ]
        }),
    decreases base.len() + bl - k * bl,
{
    let m = sig_model(kind, base, bl, sl);
    let p = if k * bl <= base.len() {
        k * bl
    } else {
        base.len() as int
    };
    assert((k + 1) * bl == k * bl + bl) by (nonlinear_arith);
    if p >= base.len() {
        assert(Seq::<Op>::empty().push(Op::Copy(0, p as nat)) =~= seq![Op::Copy(0, base.len())]);
        assert(flush(base, p, base.len() as int, Some((0nat, p as nat))) =~= seq![
            Op::Copy(0, base.len()),
        ]);
    } else {
        assert(p == k * bl);
        let w = window(base, bl, p);
        lemma_block_sums_index(kind, base, bl, sl, k);
        assert(block_matches(m, w, k));
        vstd::arithmetic::div_mod::lemma_mod_multiples_basic(k, bl as int);
        vstd::arithmetic::div_mod::lemma_div_multiples_vanish(k, bl as int);
        assert(bl * k == k * bl) by (nonlinear_arith);
        assert(next_block(m, Some((0nat, p as nat))) == Some(k));
        assert(continues(m, base, p, p, Some((0nat, p as nat))));
        lemma_identity_from(kind, base, bl, sl, k + 1);
    }
}

/// Identity delta: the delta of a base against its own signature is one copy
/// of the whole base; a base shorter than one block gives one literal
/// instead, and an empty base nothing.
pub proof fn lemma_identity_delta(kind: SignatureType, base: Seq<u8>, bl: nat, sl: nat)
    requires
        bl >= 1,
    ensures
        base.len() >= bl ==> delta_ops(sig_model(kind, base, bl, sl), base) == seq![
            Op::Copy(0, base.len()),
        ],
        0 < base.len() < bl ==> delta_ops(sig_model(kind, base, bl, sl), base) == seq![
            Op::Literal(base),
        ],
        base.len() == 0 ==> delta_ops(sig_model(kind, base, bl, sl), base) == Seq::<Op>::empty(),
{
    let m = sig_model(kind, base, bl, sl);
    if base.len() < bl {
        lemma_no_match_literal(m, base);
    } else {
        let w = window(base, bl, 0);
        lemma_block_sums_index(kind, base, bl, sl, 0);
        assert(is_first_match(m, w, 0));
        assert forall|j: int| is_first_match(m, w, j) implies j == 0 by {
            if j > 0 {
                assert(!block_matches(m, w, 0));
            }
        }
        assert(first_match(m, w) == Some(0int));
        let wl = window_len(base, bl, 0);
        lemma_identity_from(kind, base, bl, sl, 1);
        assert(flush(base, 0, 0, None) =~= Seq::<Op>::empty());
        assert(Seq::<Op>::empty() + ops_from(m, base, wl, wl, Some((0nat, wl as nat))) =~= ops_from(
            m,
            base,
            wl,
            wl,
            Some((0nat, wl as nat)),
        ));
    }
}

/// Block isolation, on the signature's bytes: changing one byte of the base
/// gives a signature of the same length, the same header, and the same
/// record for every block but the one holding the changed byte.
pub proof fn lemma_signature_isolation(
    kind: SignatureType,
    base: Seq<u8>,
    bl: nat,
    sl: nat,
    x: int,
    v: u8,
)
    requires
        valid_params(kind, bl, sl),
        0 <= x < base.len(),
    ensures
        ({
            let s1 = signature_bytes(kind, base, bl, sl);
            let s2 = signature_bytes(kind, base.update(x, v), bl, sl);
            &&& s2.len() == s1.len()
            &&& s2.subrange(0, 12) == s1.subrange(0, 12)
            &&& forall|i: int|
                0 <= i < block_sums(kind, base, bl, sl).len() && i != x / (bl as int) ==> s2.subrange(
                    #[trigger] entry_start(sl, i),
                    entry_start(sl, i + 1),
                ) == s1.subrange(entry_start(sl, i), entry_start(sl, i + 1))
        }),
{
    let b2 = base.update(x, v);
    let s1 = signature_bytes(kind, base, bl, sl);
    let s2 = signature_bytes(kind, b2, bl, sl);
    let u1 = block_sums(kind, base, bl, sl);
    let u2 = block_sums(kind, b2, bl, sl);
    lemma_block_isolation(kind, base, bl, sl, x, v);
    lemma_block_sums_shape(kind, base, bl, sl);
    lemma_block_sums_shape(kind, b2, bl, sl);
    lemma_entries_layout(u1, sl);
    lemma_entries_layout(u2, sl);
    let e1 = entries_bytes(u1);
    let e2 = entries_bytes(u2);
    let h = sig_header(kind, bl as u32, sl as u32);
    lemma_be32_round_trip(sig_magic(kind));
    lemma_be32_round_trip(bl as u32);
    lemma_be32_round_trip(sl as u32);
    assert(h.len() == 12);
    assert(s1.subrange(0, 12) =~= h);
    assert(s2.subrange(0, 12) =~= h);
    assert forall|i: int|
        0 <= i < u1.len() && i != x / (bl as int) implies s2.subrange(
        #[trigger] entry_start(sl, i),
        entry_start(sl, i + 1),
    ) == s1.subrange(entry_start(sl, i), entry_start(sl, i + 1)) by {
        let st = i * (4 + sl);
        assert(entry_start(sl, i + 1) == 12 + st + 4 + sl) by (nonlinear_arith)
            requires
                st == i * (4 + sl),
        ;
        assert(0 <= st && st + 4 + sl <= u1.len() * (4 + sl)) by (nonlinear_arith)
            requires
                st == i * (4 + sl),
                0 <= i < u1.len(),
        ;
        assert(u2[i] == u1[i]);
        assert(s1.subrange(12 + st, 12 + st + 4 + sl) =~= e1.subrange(st, st + 4) + e1.subrange(
            st + 4,
            st + 4 + sl,
        ));
        assert(s2.subrange(12 + st, 12 + st + 4 + sl) =~= e2.subrange(st, st + 4) + e2.subrange(
            st + 4,
            st + 4 + sl,
        ));
    }
}

} // verus!
