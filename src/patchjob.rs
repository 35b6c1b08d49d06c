use vstd::prelude::*;
use crate::error::Error;
use crate::patch::{decode_op, op_output, patch_result, prefixed, run_instructions, run_ops, Cmd};
use crate::wire::{be_value, next_op, push_all, read_be, DELTA_MAGIC, OP_END};

verus! {

/// Lemma: an instruction decodes the same from any bytes that agree with
/// its own bytes.
pub proof fn lemma_next_op_prefix(d1: Seq<u8>, d2: Seq<u8>)
    requires
        d1.len() > 0,
        next_op(d1) is Some,
        next_op(d1)->Some_0.1 <= d1.len(),
        next_op(d1)->Some_0.1 <= d2.len(),
        forall|i: int| 0 <= i < next_op(d1)->Some_0.1 ==> d1[i] == d2[i],
    ensures
        next_op(d2) == next_op(d1),
{
    let k = next_op(d1)->Some_0.1 as int;
    assert(d1[0] == d2[0]);
    assert forall|a: int, b: int| 0 <= a <= b <= k implies #[trigger] d1.subrange(a, b) == d2.subrange(
        a,
        b,
    ) by {
        assert(d1.subrange(a, b) =~= d2.subrange(a, b));
    }
}

/// Runs instructions that fill `d` exactly, with no end command: the bytes
/// they write, or `None` where they do not.
pub open spec fn run_segment(base: Seq<u8>, d: Seq<u8>) -> Option<Seq<u8>>
    decreases d.len(),
{
    if d.len() == 0 {
        Some(Seq::empty())
    } else if d[0] == 0 {
        None
    } else {
        match next_op(d) {
            Some((op, k)) if 0 < k <= d.len() => match op_output(base, op) {
                Some(o) => prefixed(o, run_segment(base, d.skip(k as int))),
                None => None,
            },
            _ => None,
        }
    }
}

/// Lemma: whole instructions in front run first, whatever follows them.
pub proof fn lemma_segment_then(base: Seq<u8>, a: Seq<u8>, rest: Seq<u8>)
    requires
        run_segment(base, a) is Some,
    ensures
        run_ops(base, a + rest) == prefixed(run_segment(base, a)->Some_0, run_ops(base, rest)),
    decreases a.len(),
{
    if a.len() == 0 {
        assert(a + rest =~= rest);
        match run_ops(base, rest) {
            Some(x) => {
                assert(Seq::<u8>::empty() + x =~= x);
            },
            None => {},
        }
    } else {
        let (op, k) = next_op(a)->Some_0;
        let d = a + rest;
        lemma_next_op_prefix(a, d);
        assert(d[0] == a[0]);
        assert(d.skip(k as int) =~= a.skip(k as int) + rest);
        lemma_segment_then(base, a.skip(k as int), rest);
        let o = op_output(base, op)->Some_0;
        let o2 = run_segment(base, a.skip(k as int))->Some_0;
        match run_ops(base, rest) {
            Some(x) => {
                assert(o + (o2 + x) =~= (o + o2) + x);
            },
            None => {},
        }
    }
}

/// Lemma: two runs of whole instructions run one after the other.
pub proof fn lemma_segment_append(base: Seq<u8>, a: Seq<u8>, b: Seq<u8>)
    requires
        run_segment(base, a) is Some,
        run_segment(base, b) is Some,
    ensures
        run_segment(base, a + b) == Some(
            run_segment(base, a)->Some_0 + run_segment(base, b)->Some_0,
        ),
    decreases a.len(),
{
    if a.len() == 0 {
        assert(a + b =~= b);
        assert(Seq::<u8>::empty() + run_segment(base, b)->Some_0 =~= run_segment(base, b)->Some_0);
    } else {
        let (op, k) = next_op(a)->Some_0;
        let d = a + b;
        lemma_next_op_prefix(a, d);
        assert(d[0] == a[0]);
        assert(d.skip(k as int) =~= a.skip(k as int) + b);
        lemma_segment_append(base, a.skip(k as int), b);
        let o = op_output(base, op)->Some_0;
        let o2 = run_segment(base, a.skip(k as int))->Some_0;
        let y = run_segment(base, b)->Some_0;
        assert(o + (o2 + y) =~= (o + o2) + y);
    }
}

/// Lemma: the bytes of one decodable instruction run as that instruction.
proof fn lemma_one_op(base: Seq<u8>, d: Seq<u8>)
    requires
        d.len() > 0,
        d[0] != 0,
        next_op(d) is Some,
        next_op(d)->Some_0.1 <= d.len(),
        op_output(base, next_op(d)->Some_0.0) is Some,
    ensures
        run_segment(base, d.take(next_op(d)->Some_0.1 as int)) == op_output(
            base,
            next_op(d)->Some_0.0,
        ),
{
    let (op, k) = next_op(d)->Some_0;
    let t = d.take(k as int);
    lemma_next_op_prefix(d, t);
    assert(t[0] == d[0]);
    assert(t.len() == k);
    assert(t.skip(k as int) =~= Seq::<u8>::empty());
    assert(run_segment(base, t.skip(k as int)) == Some(Seq::<u8>::empty()));
    let o = op_output(base, op)->Some_0;
    assert(o + Seq::<u8>::empty() =~= o);
}

proof fn lemma_step(
    base: Seq<u8>,
    seg0: Seq<u8>,
    b0: Seq<u8>,
    pos: int,
    w0: Seq<u8>,
    prev: Seq<u8>,
    o2: Seq<u8>,
    out0: Seq<u8>,
)
    requires
        0 <= pos < b0.len(),
        b0[pos] != 0,
        next_op(b0.skip(pos)) is Some,
        pos + next_op(b0.skip(pos))->Some_0.1 <= b0.len(),
        op_output(base, next_op(b0.skip(pos))->Some_0.0) == Some(o2),
        run_segment(base, seg0 + b0.subrange(0, pos)) == Some(w0 + prev.skip(out0.len() as int)),
        prev.len() >= out0.len(),
        prev.take(out0.len() as int) == out0,
    ensures
        run_segment(base, seg0 + b0.subrange(0, pos + next_op(b0.skip(pos))->Some_0.1)) == Some(
            w0 + (prev + o2).skip(out0.len() as int),
        ),
        (prev + o2).take(out0.len() as int) == out0,
{
    let d = b0.skip(pos);
    let k = next_op(d)->Some_0.1 as int;
    assert(d[0] == b0[pos]);
    lemma_one_op(base, d);
    let a = seg0 + b0.subrange(0, pos);
    lemma_segment_append(base, a, d.take(k));
    assert(a + d.take(k) =~= seg0 + b0.subrange(0, pos + k));
    assert(w0 + prev.skip(out0.len() as int) + o2 =~= w0 + (prev + o2).skip(out0.len() as int));
    assert((prev + o2).take(out0.len() as int) =~= prev.take(out0.len() as int));
}

/// A patch applied while its delta arrives: each instruction's output goes
/// out as soon as the instruction is whole, and only the undecoded tail of
/// the delta is held.
pub struct PatchJob {
    base: Vec<u8>,
    buf: Vec<u8>,
    started: bool,
    bad: bool,
    seen: Ghost<Seq<u8>>,
    seg: Ghost<Seq<u8>>,
    written: Ghost<Seq<u8>>,
}

impl PatchJob {
    /// The base that copies read from.
    pub closed spec fn base(&self) -> Seq<u8> {
        self.base@
    }

    /// All delta bytes fed so far.
    pub closed spec fn seen(&self) -> Seq<u8> {
        self.seen@
    }

    /// All output written so far.
    pub closed spec fn written(&self) -> Seq<u8> {
        self.written@
    }

    /// The job's state agrees with what was fed and written.
    pub closed spec fn wf(&self) -> bool {
        &&& !self.started && !self.bad ==> self.buf@ == self.seen@ && self.seen@.len() < 4
            && self.written@.len() == 0
        &&& self.bad ==> !self.started && self.seen@.len() >= 4 && be_value(
            self.seen@.subrange(0, 4),
        ) != DELTA_MAGIC && self.written@.len() == 0
        &&& self.started ==> {
            &&& self.seen@.len() >= 4
            &&& be_value(self.seen@.subrange(0, 4)) == DELTA_MAGIC
            &&& self.seen@.skip(4) == self.seg@ + self.buf@
            &&& run_segment(self.base@, self.seg@) == Some(self.written@)
        }
    }

    /// Starts a patch of `base`.
    pub fn new(base: Vec<u8>) -> (r: PatchJob)
        ensures
            r.wf(),
            r.base() == base@,
            r.seen() == Seq::<u8>::empty(),
            r.written() == Seq::<u8>::empty(),
    {
        PatchJob {
            base,
            buf: Vec::new(),
            started: false,
            bad: false,
            seen: Ghost(Seq::empty()),
            seg: Ghost(Seq::empty()),
            written: Ghost(Seq::empty()),
        }
    }

    /// Takes in more of the delta and writes the output of each instruction it completes.
    #[verifier::rlimit(50)]
    pub fn feed(&mut self, chunk: &[u8], out: &mut Vec<u8>)
        requires
            old(self).wf(),
        ensures
            final(self).wf(),
            final(self).base() == old(self).base(),
            final(self).seen() == old(self).seen() + chunk@,
            final(out)@ == old(out)@ + final(self).written().skip(old(self).written().len() as int),
            final(self).written().len() >= old(self).written().len(),
            final(self).written().take(old(self).written().len() as int) == old(self).written(),
    {
        let ghost w0 = self.written@;
        let ghost out0 = out@;
        if self.bad {
            self.seen = Ghost(self.seen@ + chunk@);
            assert(self.seen@.subrange(0, 4) =~= old(self).seen@.subrange(0, 4));
            assert(w0.skip(w0.len() as int) =~= Seq::<u8>::empty());
            assert(out@ =~= out0 + Seq::<u8>::empty());
            assert(w0.take(w0.len() as int) =~= w0);
            return;
        }
        push_all(&mut self.buf, chunk);
        self.seen = Ghost(self.seen@ + chunk@);
        if !self.started {
            if self.buf.len() >= 4 {
                assert(self.buf@ == self.seen@);
                if read_be(self.buf.as_slice(), 0, 4) == DELTA_MAGIC as u64 {
                    let mut rest: Vec<u8> = Vec::new();
                    push_all(&mut rest, &self.buf[4..self.buf.len()]);
                    self.buf = rest;
                    self.started = true;
                    self.seg = Ghost(Seq::empty());
                    assert(self.seen@.skip(4) =~= self.seg@ + self.buf@);
                } else {
                    self.buf = Vec::new();
                    self.bad = true;
                }
            }
        }
        if self.started {
            let ghost seg0 = self.seg@;
            let ghost b0 = self.buf@;
            let blen = self.buf.len();
            let mut pos: usize = 0;
            let mut stop = false;
            assert(seg0 + b0.subrange(0, 0) =~= seg0);
            assert(self.seen@.skip(4) =~= seg0 + b0 && be_value(self.seen@.subrange(0, 4))
                == DELTA_MAGIC) by {
                if old(self).started {
                    assert(self.seen@.subrange(0, 4) =~= old(self).seen@.subrange(0, 4));
                    assert(self.seen@.skip(4) =~= old(self).seen@.skip(4) + chunk@);
                }
            }
            assert(w0 + Seq::<u8>::empty() =~= w0);
            while !stop && pos < blen
                invariant
                    pos <= blen,
                    blen == b0.len(),
                    self.buf@ == b0,
                    self.seen@.skip(4) == seg0 + b0,
                    self.seen@.len() >= 4,
                    be_value(self.seen@.subrange(0, 4)) == DELTA_MAGIC,
                    run_segment(self.base@, seg0 + b0.subrange(0, pos as int)) == Some(
                        w0 + out@.skip(out0.len() as int),
                    ),
                    out@.len() >= out0.len(),
                    out@.take(out0.len() as int) == out0,
                decreases (blen - pos) as int + (if stop {
                    0int
                } else {
                    1int
                }),
            {
                if self.buf[pos] == OP_END {
                    stop = true;
                } else {
                    match decode_op(self.buf.as_slice(), pos) {
                        None => {
                            stop = true;
                        },
                        Some((cmd, k)) => {
                            let ghost d = b0.skip(pos as int);
                            let ghost prev = out@;
                            let mut ok = true;
                            match cmd {
                                Cmd::Literal(s, n) => {
                                    push_all(out, &self.buf[s..s + n]);
                                    proof {
                                        assert(out@.skip(prev.len() as int) =~= self.buf@.subrange(
                                            s as int,
                                            s + n,
                                        ));
                                        assert(op_output(self.base@, next_op(d)->Some_0.0) == Some(
                                            out@.skip(prev.len() as int),
                                        ));
                                    }
                                },
                                Cmd::Copy(o, l) => {
                                    let bl = self.base.len() as u64;
                                    if o > bl || l > bl - o {
                                        ok = false;
                                    } else {
                                        let ou = o as usize;
                                        let lu = l as usize;
                                        push_all(out, &self.base[ou..ou + lu]);
                                        proof {
                                            assert(out@.skip(prev.len() as int)
                                                =~= self.base@.subrange(ou as int, ou + lu));
                                            assert(op_output(self.base@, next_op(d)->Some_0.0)
                                                == Some(out@.skip(prev.len() as int)));
                                        }
                                    }
                                },
                            }
                            if ok {
                                proof {
                                    let o2 = out@.skip(prev.len() as int);
                                    assert(o2 =~= out@.subrange(prev.len() as int, out@.len() as int));
                                    assert(out@ =~= prev + o2);
                                    lemma_step(self.base@, seg0, b0, pos as int, w0, prev, o2, out0);
                                }
                                pos = pos + k;
                            } else {
                                stop = true;
                            }
                        },
                    }
                }
            }
            let mut rest: Vec<u8> = Vec::new();
            push_all(&mut rest, &self.buf[pos..blen]);
            self.buf = rest;
            self.seg = Ghost(seg0 + b0.subrange(0, pos as int));
            self.written = Ghost(w0 + out@.skip(out0.len() as int));
            proof {
                assert(self.seen@.skip(4) =~= self.seg@ + self.buf@);
                assert(self.written@.skip(w0.len() as int) =~= out@.skip(out0.len() as int));
                assert(self.written@.take(w0.len() as int) =~= w0);
                assert(out@ =~= out0 + out@.skip(out0.len() as int));
            }
        } else {
            proof {
                assert(w0.skip(w0.len() as int) =~= Seq::<u8>::empty());
                assert(out@ =~= out0 + Seq::<u8>::empty());
                assert(w0.take(w0.len() as int) =~= w0);
            }
        }
    }

    /// Ends the delta: writes the output of what remains. What the job wrote
    /// then is the whole patch; or nothing more is written and the error is
    /// the one that applying the whole delta gives.
    pub fn finish(self, out: &mut Vec<u8>) -> (r: Result<(), Error>)
        requires
            self.wf(),
        ensures
            match patch_result(self.base(), self.seen()) {
                Ok(o) => r is Ok && self.written() + final(out)@.skip(old(out)@.len() as int) == o
                    && final(out)@.take(old(out)@.len() as int) == old(out)@,
                Err(e) => r == Err::<(), Error>(e) && final(out)@ == old(out)@,
            },
    {
        if self.bad {
            return Err(Error::BadMagic);
        }
        if !self.started {
            return Err(Error::Syntax);
        }
        proof {
            lemma_segment_then(self.base@, self.seg@, self.buf@);
            assert(self.seen@.skip(4) == self.seg@ + self.buf@);
            assert(self.buf@.skip(0) =~= self.buf@);
        }
        match run_instructions(self.base.as_slice(), self.buf.as_slice(), 0) {
            Ok(v) => {
                let ghost o0 = out@;
                push_all(out, v.as_slice());
                assert(out@.skip(o0.len() as int) =~= v@);
                assert(out@.take(o0.len() as int) =~= o0);
                Ok(())
            },
            Err(e) => Err(e),
        }
    }
}

} // verus!
