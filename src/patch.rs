use vstd::prelude::*;
use crate::error::Error;
use crate::wire::{
    be_value, class_width_of, next_op,
    push_all, read_be, Op, DELTA_MAGIC, OP_COPY_N1_N1, OP_COPY_N8_N8, OP_END, OP_LITERAL_N1,
};

verus! {

/// What one instruction writes, given the base: `None` for a copy that runs
/// past the end of the base.
pub open spec fn op_output(base: Seq<u8>, op: Op) -> Option<Seq<u8>> {
    match op {
        Op::Literal(b) => Some(b),
        Op::Copy(o, l) => {
            if o + l <= base.len() {
                Some(base.subrange(o as int, (o + l) as int))
            } else {
                None
            }
        },
    }
}

/// `x` with `pre` in front, where `x` is there.
pub open spec fn prefixed(pre: Seq<u8>, x: Option<Seq<u8>>) -> Option<Seq<u8>> {
    match x {
        Some(r) => Some(pre + r),
        None => None,
    }
}

/// Runs the instructions in `d` against the base up to the end command: the
/// bytes they write, or `None` where a command is unknown, the bytes run out
/// before the end command, or a copy leaves the base.
pub open spec fn run_ops(base: Seq<u8>, d: Seq<u8>) -> Option<Seq<u8>>
    decreases d.len(),
{
    if d.len() == 0 {
        None
    } else if d[0] == 0 {
        Some(Seq::empty())
    } else {
        match next_op(d) {
            Some((op, k)) if 0 < k <= d.len() => match op_output(base, op) {
                Some(o) => prefixed(o, run_ops(base, d.skip(k as int))),
                None => None,
            },
            _ => None,
        }
    }
}

/// The result of applying a delta to a base: `BadMagic` where the delta's
/// magic number is wrong, `Syntax` where it is cut short, malformed, or copies
/// from beyond the base.
pub open spec fn patch_result(base: Seq<u8>, delta: Seq<u8>) -> Result<Seq<u8>, Error> {
    if delta.len() < 4 {
        Err(Error::Syntax)
    } else if be_value(delta.subrange(0, 4)) != DELTA_MAGIC {
        Err(Error::BadMagic)
    } else {
        match run_ops(base, delta.skip(4)) {
            Some(o) => Ok(o),
            None => Err(Error::Syntax),
        }
    }
}

/// One decoded instruction: a copy, or a literal lying in the delta at a start and a length.
pub(crate) enum Cmd {
    Copy(u64, u64),
    Literal(usize, usize),
}

/// Decodes the instruction at `pos`, whose command byte is not the end.
pub(crate) fn decode_op(d: &[u8], pos: usize) -> (r: Option<(Cmd, usize)>)
    requires
        pos < d@.len(),
        d@[pos as int] != 0,
    ensures
        match r {
            None => next_op(d@.skip(pos as int)) is None,
            Some((cmd, k)) => {
                &&& next_op(d@.skip(pos as int)) matches Some((op, k2))
                &&& k2 == k
                &&& pos + k <= d@.len()
                &&& match cmd {
                    Cmd::Copy(o, l) => op == Op::Copy(o as nat, l as nat),
                    Cmd::Literal(s, n) => s + n <= d@.len() && op == Op::Literal(
                        d@.subrange(s as int, s + n),
                    ),
                }
            },
        },
{
    let ghost t = d@.skip(pos as int);
    let len = d.len();
    let avail = len - pos;
    let cmd = d[pos];
    if cmd < OP_LITERAL_N1 {
        let n = cmd as usize;
        if avail >= 1 + n {
            assert(t.subrange(1, 1 + n) =~= d@.subrange(pos + 1, pos + 1 + n));
            Some((Cmd::Literal(pos + 1, n), 1 + n))
        } else {
            None
        }
    } else if cmd < OP_COPY_N1_N1 {
        let w = class_width_of(cmd - OP_LITERAL_N1);
        if avail >= 1 + w {
            assert(t.subrange(1, 1 + w) =~= d@.subrange(pos + 1, pos + 1 + w));
            let l = read_be(d, pos + 1, w);
            if (l as u128) <= (avail - 1 - w) as u128 {
                let n = l as usize;
                assert(t.subrange(1 + w, 1 + w + n) =~= d@.subrange(pos + 1 + w, pos + 1 + w + n));
                Some((Cmd::Literal(pos + 1 + w, n), 1 + w + n))
            } else {
                None
            }
        } else {
            None
        }
    } else if cmd <= OP_COPY_N8_N8 {
        let c = cmd - OP_COPY_N1_N1;
        let wo = class_width_of(c / 4);
        let wl = class_width_of(c % 4);
        if avail >= 1 + wo + wl {
            assert(t.subrange(1, 1 + wo) =~= d@.subrange(pos + 1, pos + 1 + wo));
            assert(t.subrange(1 + wo, 1 + wo + wl) =~= d@.subrange(
                pos + 1 + wo,
                pos + 1 + wo + wl,
            ));
            let o = read_be(d, pos + 1, wo);
            let l = read_be(d, pos + 1 + wo, wl);
            Some((Cmd::Copy(o, l), 1 + wo + wl))
        } else {
            None
        }
    } else {
        None
    }
}

/// Applies a delta to a base and returns the bytes it describes.
pub fn apply_delta(base: &[u8], delta: &[u8]) -> (r: Result<Vec<u8>, Error>)
    ensures
        match patch_result(base@, delta@) {
            Ok(o) => r matches Ok(v) && v@ == o,
            Err(e) => r == Err::<Vec<u8>, Error>(e),
        },
{
    if delta.len() < 4 {
        return Err(Error::Syntax);
    }
    if read_be(delta, 0, 4) != DELTA_MAGIC as u64 {
        return Err(Error::BadMagic);
    }
    run_instructions(base, delta, 4)
}

/// Runs the instructions in `delta` from `start` on against the base.
pub fn run_instructions(base: &[u8], delta: &[u8], start: usize) -> (r: Result<Vec<u8>, Error>)
    requires
        start <= delta@.len(),
    ensures
        match run_ops(base@, delta@.skip(start as int)) {
            Some(o) => r matches Ok(v) && v@ == o,
            None => r == Err::<Vec<u8>, Error>(Error::Syntax),
        },
{
    let ghost target = run_ops(base@, delta@.skip(start as int));
    let mut out: Vec<u8> = Vec::new();
    let mut pos: usize = start;
    assert(prefixed(out@, run_ops(base@, delta@.skip(start as int))) =~= target) by {
        match run_ops(base@, delta@.skip(start as int)) {
            Some(x) => {
                assert(out@ + x =~= x);
            },
            None => {},
        }
    }
    while pos < delta.len()
        invariant
            start <= pos <= delta@.len(),
            target == run_ops(base@, delta@.skip(start as int)),
            prefixed(out@, run_ops(base@, delta@.skip(pos as int))) == target,
        decreases delta.len() - pos,
    {
        let ghost t = delta@.skip(pos as int);
        if delta[pos] == OP_END {
            assert(run_ops(base@, t) == Some(Seq::<u8>::empty()));
            assert(out@ + Seq::<u8>::empty() =~= out@);
            return Ok(out);
        }
        match decode_op(delta, pos) {
            None => {
                return Err(Error::Syntax);
            },
            Some((cmd, k)) => {
                let ghost prev = out@;
                let ghost op = next_op(t)->Some_0.0;
                match cmd {
                    Cmd::Literal(s, n) => {
                        push_all(&mut out, &delta[s..s + n]);
                    },
                    Cmd::Copy(o, l) => {
                        let bl = base.len() as u64;
                        if o > bl || l > bl - o {
                            assert(op_output(base@, op) is None);
                            return Err(Error::Syntax);
                        }
                        let ou = o as usize;
                        let lu = l as usize;
                        push_all(&mut out, &base[ou..ou + lu]);
                    },
                }
                proof {
                    assert(t.skip(k as int) =~= delta@.skip(pos + k));
                    assert(op_output(base@, op) == Some(out@.skip(prev.len() as int))) by {
                        assert(out@.skip(prev.len() as int) =~= out@.subrange(
                            prev.len() as int,
                            out@.len() as int,
                        ));
                    }
                    let o2 = out@.skip(prev.len() as int);
                    assert(out@ =~= prev + o2);
                    match run_ops(base@, delta@.skip(pos + k)) {
                        Some(x) => {
                            assert(prev + (o2 + x) =~= out@ + x);
                        },
                        None => {},
                    }
                }
                pos = pos + k;
            },
        }
    }
    assert(run_ops(base@, delta@.skip(pos as int)) is None);
    Err(Error::Syntax)
}

} // verus!
