use vstd::prelude::*;
use crate::rollsum::{weak_sum, Rollsum};
use crate::index::{block_matches_at, SignatureIndex};
use crate::signature::{SigModel, SignatureSums};
use crate::strong::{max_strong_len, strong_sum};
use crate::wire::{
    be32, class_width_of, encode_op, encode_ops, lemma_encode_ops_append, push_all, push_be,
    width_class_of, Op, DELTA_MAGIC, OP_COPY_N1_N1, OP_END, OP_LITERAL_N1,
};

verus! {

/// The window of new data at `p`: `block_len` bytes, fewer where the data ends.
pub open spec fn window(new: Seq<u8>, block_len: nat, p: int) -> Seq<u8> {
    new.subrange(p, p + window_len(new, block_len, p))
}

/// The length of the window at `p`.
pub open spec fn window_len(new: Seq<u8>, block_len: nat, p: int) -> int {
    if p + block_len <= new.len() {
        block_len as int
    } else {
        new.len() - p
    }
}

/// Block `j` of the signature has the sums of `w`.
pub open spec fn block_matches(m: SigModel, w: Seq<u8>, j: int) -> bool {
    &&& 0 <= j < m.sums.len()
    &&& m.sums[j].0 == weak_sum(w)
    &&& m.sums[j].1 == strong_sum(m.kind, w, m.strong_len)
}

/// Block `j` is the first block of the signature with the sums of `w`.
pub open spec fn is_first_match(m: SigModel, w: Seq<u8>, j: int) -> bool {
    &&& block_matches(m, w, j)
    &&& forall|k: int| 0 <= k < j ==> !block_matches(m, w, k)
}

/// The first block of the signature with the sums of `w`, if any.
pub open spec fn first_match(m: SigModel, w: Seq<u8>) -> Option<int> {
    if exists|j: int| is_first_match(m, w, j) {
        Some(choose|j: int| is_first_match(m, w, j))
    } else {
        None
    }
}

/// What is pending when a match interrupts or the data ends: the copy being
/// grown, then the literal bytes `new[ls..p]`.
pub open spec fn flush(new: Seq<u8>, ls: int, p: int, pend: Option<(nat, nat)>) -> Seq<Op> {
    let c = match pend {
        Some((o, l)) => seq![Op::Copy(o, l)],
        None => Seq::empty(),
    };
    if ls < p {
        c.push(Op::Literal(new.subrange(ls, p)))
    } else {
        c
    }
}

/// The block that starts where the open copy ends, where that is a block boundary.
pub open spec fn next_block(m: SigModel, pend: Option<(nat, nat)>) -> Option<int> {
    match pend {
        Some((o, l)) => if (o + l) % m.block_len == 0 {
            Some(((o + l) / m.block_len) as int)
        } else {
            None
        },
        None => None,
    }
}

/// The open copy goes on at `p`: no literal has come since, and the window
/// at `p` has the sums of the block that follows the copied blocks.
pub open spec fn continues(m: SigModel, new: Seq<u8>, p: int, ls: int, pend: Option<(nat, nat)>) -> bool {
    &&& ls == p
    &&& new.len() >= m.block_len
    &&& window_len(new, m.block_len, p) > 0
    &&& next_block(m, pend) matches Some(nb)
    &&& block_matches(m, window(new, m.block_len, p), nb)
}

/// The instructions that the matcher emits from position `p` on, with the
/// literal run starting at `ls` and a copy `pend` still open. At each
/// position, while a copy is open and no literal has come since, the window
/// is first tried against the block that follows the copied ones: if it
/// matches, the copy grows by the window. Otherwise the window is looked up
/// (unless the data is shorter than one block): the first block with its
/// sums starts a new copy, after the open copy and the literal run. With no
/// match the byte joins the literal run.
pub open spec fn ops_from(m: SigModel, new: Seq<u8>, p: int, ls: int, pend: Option<(nat, nat)>) -> Seq<
    Op,
>
    decreases new.len() - p,
{
    if p >= new.len() {
        flush(new, ls, new.len() as int, pend)
    } else {
        let wl = window_len(new, m.block_len, p);
        let q = p + wl;
        if continues(m, new, p, ls, pend) {
            let (po, pl) = match pend {
                Some(c) => c,
                None => (0nat, 0nat),
            };
            ops_from(m, new, q, q, Some((po, (pl + wl) as nat)))
        } else {
            match match_at(m, new, p) {
                Some(j) if wl > 0 => flush(new, ls, p, pend) + ops_from(
                    m,
                    new,
                    q,
                    q,
                    Some(((j * m.block_len) as nat, wl as nat)),
                ),
                _ => ops_from(m, new, p + 1, ls, pend),
            }
        }
    }
}

/// The block that the window at `p` copies: none where the new data is
/// shorter than one block, else the first block with the window's sums.
pub open spec fn match_at(m: SigModel, new: Seq<u8>, p: int) -> Option<int> {
    if new.len() < m.block_len {
        None
    } else {
        first_match(m, window(new, m.block_len, p))
    }
}

/// The instructions of the delta of `new` against the signature `m`.
pub open spec fn delta_ops(m: SigModel, new: Seq<u8>) -> Seq<Op> {
    ops_from(m, new, 0, 0, None)
}

/// A signature that the matcher can run against: its copies' offsets fit in 64 bits.
pub open spec fn matchable(m: SigModel) -> bool {
    &&& m.block_len >= 1
    &&& m.strong_len <= max_strong_len(m.kind)
    &&& m.sums.len() * m.block_len <= u64::MAX
}

/// Appends a literal instruction carrying `b`.
fn emit_literal(out: &mut Vec<u8>, b: &[u8])
    ensures
        final(out)@ == old(out)@ + encode_op(Op::Literal(b@)),
{
    let len = b.len() as u64;
    let c = width_class_of(len);
    out.push(OP_LITERAL_N1 + c);
    push_be(out, len, class_width_of(c));
    push_all(out, b);
    assert(final(out)@ =~= old(out)@ + encode_op(Op::Literal(b@)));
}

/// Appends a copy instruction.
fn emit_copy(out: &mut Vec<u8>, offset: u64, len: u64)
    ensures
        final(out)@ == old(out)@ + encode_op(Op::Copy(offset as nat, len as nat)),
{
    let co = width_class_of(offset);
    let cl = width_class_of(len);
    out.push(OP_COPY_N1_N1 + 4 * co + cl);
    push_be(out, offset, class_width_of(co));
    push_be(out, len, class_width_of(cl));
    assert(final(out)@ =~= old(out)@ + encode_op(Op::Copy(offset as nat, len as nat)));
}

/// An open copy as the specification sees it.
pub open spec fn pend_view(pend: Option<(u64, u64)>) -> Option<(nat, nat)> {
    match pend {
        Some((o, l)) => Some((o as nat, l as nat)),
        None => None,
    }
}

proof fn lemma_encode_one(a: Op)
    ensures
        encode_ops(seq![a]) == encode_op(a),
{
    assert(seq![a].drop_first() =~= Seq::<Op>::empty());
    assert(encode_op(a) + encode_ops(Seq::<Op>::empty()) =~= encode_op(a));
}

/// Appends the open copy, then the literal run `new[ls..p]`.
fn emit_flush(out: &mut Vec<u8>, new: &[u8], ls: usize, p: usize, pend: Option<(u64, u64)>)
    requires
        ls <= p <= new@.len(),
    ensures
        final(out)@ == old(out)@ + encode_ops(flush(new@, ls as int, p as int, pend_view(pend))),
{
    let ghost c: Seq<Op> = match pend_view(pend) {
        Some((o, l)) => seq![Op::Copy(o, l)],
        None => Seq::empty(),
    };
    match pend {
        Some((o, l)) => {
            emit_copy(out, o, l);
            proof {
                lemma_encode_one(Op::Copy(o as nat, l as nat));
            }
        },
        None => {
            assert(old(out)@ + encode_ops(c) =~= old(out)@);
        },
    }
    assert(out@ == old(out)@ + encode_ops(c));
    if ls < p {
        let ghost mid = out@;
        emit_literal(out, &new[ls..p]);
        proof {
            let lit = Op::Literal(new@.subrange(ls as int, p as int));
            lemma_encode_one(lit);
            lemma_encode_ops_append(c, seq![lit]);
            assert(c.push(lit) =~= c + seq![lit]);
            assert(final(out)@ =~= old(out)@ + encode_ops(c.push(lit)));
        }
    }
}

/// Computes the delta of `new` against a signature: each window of new data
/// whose sums match a block becomes a copy of that block, runs of copies of
/// consecutive blocks merge, and the bytes between them become literals.
pub fn compute_delta(new: &[u8], sig: &SignatureSums) -> (r: Vec<u8>)
    requires
        matchable(sig@),
    ensures
        r@ == crate::wire::delta_bytes(delta_ops(sig@, new@)),
{
    let ghost m = sig@;
    let mut out: Vec<u8> = Vec::new();
    push_be(&mut out, DELTA_MAGIC as u64, 4);
    let ghost target = be32(DELTA_MAGIC) + encode_ops(delta_ops(m, new@));
    let bl = sig.block_len;
    let len = new.len();
    let mut p: usize = 0;
    let mut ls: usize = 0;
    let mut pend: Option<(u64, u64)> = None;
    assert(out@ =~= be32(DELTA_MAGIC));
    let first: usize = if len < bl {
        len
    } else {
        bl
    };
    let mut roll = Rollsum::new(&new[0..first]);
    let index = SignatureIndex::build(sig);
    while p < len
        invariant
            p < len ==> roll.wf() && roll@ == window(new@, m.block_len, p as int),
            m == sig@,
            matchable(m),
            index.indexes(m),
            bl == m.block_len,
            len == new@.len(),
            ls <= p <= len,
            pend matches Some((o, l)) ==> l <= ls,
            out@ + encode_ops(ops_from(m, new@, p as int, ls as int, pend_view(pend))) == target,
        decreases len - p,
    {
        let wl: usize = if len - p < bl {
            len - p
        } else {
            bl
        };
        assert(wl == window_len(new@, m.block_len, p as int));
        let w = &new[p..p + wl];
        assert(w@ == window(new@, m.block_len, p as int));
        let cont = if len >= bl && ls == p {
            match pend {
                Some((po, pl)) => {
                    let e = po as u128 + pl as u128;
                    if e % (bl as u128) == 0 && e / (bl as u128) < sig.blocks.len() as u128 {
                        block_matches_at(sig, w, roll.digest(), (e / (bl as u128)) as usize)
                    } else {
                        false
                    }
                },
                None => false,
            }
        } else {
            false
        };
        let found = if cont || len < bl {
            None
        } else {
            index.find_match(sig, w, roll.digest())
        };
        if cont {
            let (po, pl) = match pend {
                Some(c) => c,
                None => (0, 0),
            };
            pend = Some((po, pl + wl as u64));
            p = p + wl;
            ls = p;
            if p < len {
                let wl2: usize = if len - p < bl {
                    len - p
                } else {
                    bl
                };
                roll = Rollsum::new(&new[p..p + wl2]);
            }
            continue;
        }
        match found {
            Some(j) => {
                proof {
                    assert(j < m.sums.len());
                    assert(j * bl <= m.sums.len() * bl) by (nonlinear_arith)
                        requires
                            j < m.sums.len(),
                    ;
                }
                let off = j as u64 * bl as u64;
                emit_flush(&mut out, new, ls, p, pend);
                proof {
                    lemma_encode_ops_append(
                        flush(new@, ls as int, p as int, pend_view(pend)),
                        ops_from(m, new@, p + wl, p + wl, Some((off as nat, wl as nat))),
                    );
                }
                pend = Some((off, wl as u64));
                p = p + wl;
                ls = p;
                if p < len {
                    let wl2: usize = if len - p < bl {
                        len - p
                    } else {
                        bl
                    };
                    roll = Rollsum::new(&new[p..p + wl2]);
                }
            },
            None => {
                if p + 1 < len {
                    if wl < len - p {
                        roll.rotate(new[p], new[p + wl]);
                        assert(roll@ =~= window(new@, m.block_len, p + 1));
                    } else {
                        roll.rollout(new[p]);
                        assert(roll@ =~= window(new@, m.block_len, p + 1));
                    }
                }
                p = p + 1;
            },
        }
    }
    emit_flush(&mut out, new, ls, len, pend);
    out.push(OP_END);
    proof {
        assert(ops_from(m, new@, p as int, ls as int, pend_view(pend)) == flush(
            new@,
            ls as int,
            len as int,
            pend_view(pend),
        ));
    }
    out
}

} // verus!
