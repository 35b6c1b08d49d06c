use vstd::prelude::*;
use crate::error::Error;
use crate::rollsum::{weak_checksum, weak_sum};
use crate::signature::{block_record, block_sums, entries_bytes, sig_header, signature_bytes, valid_params};
use crate::strong::{digest_of, strong_sum, SignatureType};
use crate::wire::{be32, push_all, push_be};

verus! {

/// Lemma: the sums of data that starts with whole blocks are the sums of
/// those blocks followed by the sums of the rest.
pub proof fn lemma_block_sums_split(kind: SignatureType, a: Seq<u8>, b: Seq<u8>, bl: nat, sl: nat)
    requires
        bl >= 1,
        (a.len() as int) % (bl as int) == 0,
    ensures
        block_sums(kind, a + b, bl, sl) == block_sums(kind, a, bl, sl) + block_sums(kind, b, bl, sl),
    decreases a.len(),
{
    if a.len() == 0 {
        assert(a + b =~= b);
        assert(block_sums(kind, a, bl, sl) + block_sums(kind, b, bl, sl) =~= block_sums(
            kind,
            b,
            bl,
            sl,
        ));
    } else {
        assert(a.len() >= bl) by {
            vstd::arithmetic::div_mod::lemma_basic_div_specific_divisor(bl as int);
            if a.len() < bl {
                vstd::arithmetic::div_mod::lemma_small_mod(a.len() as nat, bl);
            }
        }
        let n = bl as int;
        assert((a + b).take(n) =~= a.take(n));
        assert((a + b).skip(n) =~= a.skip(n) + b);
        vstd::arithmetic::div_mod::lemma_mod_sub_multiples_vanish(a.len() as int, bl as int);
        lemma_block_sums_split(kind, a.skip(n), b, bl, sl);
        let h = seq![(weak_sum(a.take(n)), strong_sum(kind, a.take(n), sl))];
        assert(h + (block_sums(kind, a.skip(n), bl, sl) + block_sums(kind, b, bl, sl)) =~= (h
            + block_sums(kind, a.skip(n), bl, sl)) + block_sums(kind, b, bl, sl));
    }
}

/// Lemma: the written sums of two runs of blocks are the one written, then the other.
pub proof fn lemma_entries_append(x: Seq<(u32, Seq<u8>)>, y: Seq<(u32, Seq<u8>)>)
    ensures
        entries_bytes(x + y) == entries_bytes(x) + entries_bytes(y),
    decreases x.len(),
{
    if x.len() == 0 {
        assert(x + y =~= y);
        assert(entries_bytes(x) + entries_bytes(y) =~= entries_bytes(y));
    } else {
        assert((x + y).drop_first() =~= x.drop_first() + y);
        assert((x + y)[0] == x[0]);
        lemma_entries_append(x.drop_first(), y);
        assert(entries_bytes(x + y) =~= entries_bytes(x) + entries_bytes(y));
    }
}

/// Lemma: data of at most one block has the sums of that one block.
proof fn lemma_one_block(kind: SignatureType, w: Seq<u8>, bl: nat, sl: nat)
    requires
        1 <= w.len() <= bl,
    ensures
        block_sums(kind, w, bl, sl) == seq![(weak_sum(w), strong_sum(kind, w, sl))],
        entries_bytes(block_sums(kind, w, bl, sl)) == be32(weak_sum(w)) + strong_sum(kind, w, sl),
{
    assert(w.take(w.len() as int) =~= w);
    assert(w.skip(w.len() as int) =~= Seq::<u8>::empty());
    let s = block_sums(kind, w, bl, sl);
    let n: int = if w.len() < bl {
        w.len() as int
    } else {
        bl as int
    };
    assert(n == w.len());
    assert(block_sums(kind, w.skip(n), bl, sl) =~= Seq::<(u32, Seq<u8>)>::empty());
    assert(s == seq![(weak_sum(w.take(n)), strong_sum(kind, w.take(n), sl))] + block_sums(kind, w.skip(n), bl, sl));
    assert(s =~= seq![(weak_sum(w), strong_sum(kind, w, sl))]);
    assert(s.drop_first() =~= Seq::<(u32, Seq<u8>)>::empty());
    assert(entries_bytes(s.drop_first()) == Seq::<u8>::empty());
    assert(entries_bytes(s) =~= be32(weak_sum(w)) + strong_sum(kind, w, sl));
}

/// Writes the sums of one block.
fn emit_block(out: &mut Vec<u8>, kind: SignatureType, block: &[u8], strong_len: usize)
    requires
        strong_len <= crate::strong::max_strong_len(kind),
    ensures
        final(out)@ == old(out)@ + be32(weak_sum(block@)) + strong_sum(
            kind,
            block@,
            strong_len as nat,
        ),
{
    let digest = digest_of(kind, block);
    let rec = block_record(weak_checksum(block), digest.as_slice(), strong_len);
    push_all(out, rec.as_slice());
    assert(digest@.take(strong_len as int) =~= strong_sum(kind, block@, strong_len as nat));
    assert(final(out)@ =~= old(out)@ + be32(weak_sum(block@)) + strong_sum(
        kind,
        block@,
        strong_len as nat,
    ));
}

/// A signature computed while its base arrives: the sums of each block go
/// out as soon as the block is complete, and only a part of one block is held.
pub struct SignatureJob {
    kind: SignatureType,
    block_len: usize,
    strong_len: usize,
    partial: Vec<u8>,
    seen: Ghost<Seq<u8>>,
}

impl SignatureJob {
    /// All base bytes fed so far.
    pub closed spec fn seen(&self) -> Seq<u8> {
        self.seen@
    }

    /// The family, block length and strong length of the signature.
    pub closed spec fn params(&self) -> (SignatureType, nat, nat) {
        (self.kind, self.block_len as nat, self.strong_len as nat)
    }

    /// The bytes of whole blocks fed so far.
    pub closed spec fn whole(&self) -> Seq<u8> {
        self.seen@.take(self.seen@.len() - self.partial@.len())
    }

    /// What the job has written so far: the header and the sums of the whole blocks.
    pub open spec fn emitted(&self) -> Seq<u8> {
        sig_header(self.params().0, self.params().1 as u32, self.params().2 as u32) + entries_bytes(
            block_sums(self.params().0, self.whole(), self.params().1, self.params().2),
        )
    }

    /// The held part of a block is the tail of what was fed, after whole blocks.
    pub closed spec fn wf(&self) -> bool {
        &&& valid_params(self.kind, self.block_len as nat, self.strong_len as nat)
        &&& self.partial@.len() < self.block_len
        &&& self.partial@.len() <= self.seen@.len()
        &&& self.seen@.skip(self.seen@.len() - self.partial@.len()) == self.partial@
        &&& (self.seen@.len() - self.partial@.len()) % (self.block_len as int) == 0
    }

    /// Starts a signature and writes its header; `BadMagic` where the lengths
    /// cannot make a signature of this family.
    pub fn new(block_len: usize, strong_len: usize, kind: SignatureType, out: &mut Vec<u8>) -> (r:
        Result<SignatureJob, Error>)
        ensures
            r is Err <==> !valid_params(kind, block_len as nat, strong_len as nat),
            r is Err ==> r == Err::<SignatureJob, Error>(Error::BadMagic) && final(out)@ == old(out)@,
            r matches Ok(j) ==> {
                &&& j.wf()
                &&& j.seen() == Seq::<u8>::empty()
                &&& j.params() == (kind, block_len as nat, strong_len as nat)
                &&& final(out)@ == old(out)@ + j.emitted()
            },
    {
        if block_len == 0 || block_len > 0xffff_ffff || strong_len == 0 || strong_len
            > kind.max_strong_len() {
            return Err(Error::BadMagic);
        }
        push_be(out, kind.as_raw() as u64, 4);
        push_be(out, block_len as u64, 4);
        push_be(out, strong_len as u64, 4);
        let j = SignatureJob {
            kind,
            block_len,
            strong_len,
            partial: Vec::new(),
            seen: Ghost(Seq::empty()),
        };
        proof {
            assert(j.whole() =~= Seq::<u8>::empty());
            assert(j.seen@.skip(0) =~= j.partial@);
            assert(entries_bytes(block_sums(kind, Seq::<u8>::empty(), block_len as nat, strong_len as nat))
                =~= Seq::<u8>::empty());
            assert(final(out)@ =~= old(out)@ + j.emitted());
        }
        Ok(j)
    }

    /// Takes in more of the base and writes the sums of each block it completes.
    pub fn feed(&mut self, chunk: &[u8], out: &mut Vec<u8>)
        requires
            old(self).wf(),
        ensures
            final(self).wf(),
            final(self).params() == old(self).params(),
            final(self).seen() == old(self).seen() + chunk@,
            final(self).emitted() == old(self).emitted() + (final(out)@.skip(old(out)@.len() as int)),
            final(out)@.len() >= old(out)@.len(),
            final(out)@.take(old(out)@.len() as int) == old(out)@,
    {
        let ghost kind = self.kind;
        let ghost bl = self.block_len as nat;
        let ghost sl = self.strong_len as nat;
        let ghost whole0 = self.whole();
        let mut buf: Vec<u8> = Vec::new();
        push_all(&mut buf, self.partial.as_slice());
        push_all(&mut buf, chunk);
        let bl_ = self.block_len;
        let mut pos: usize = 0;
        let ghost out0 = out@;
        assert(buf@.take(0) =~= Seq::<u8>::empty());
        while buf.len() - pos >= bl_
            invariant
                pos <= buf@.len(),
                bl_ == bl,
                bl >= 1,
                self.strong_len == sl,
                self.kind == kind,
                sl <= crate::strong::max_strong_len(kind),
                (pos as int) % (bl as int) == 0,
                out@ == out0 + entries_bytes(block_sums(kind, buf@.take(pos as int), bl, sl)),
            decreases buf.len() - pos,
        {
            let ghost w = buf@.subrange(pos as int, pos + bl_);
            emit_block(out, self.kind, &buf[pos..pos + bl_], self.strong_len);
            proof {
                lemma_block_sums_split(kind, buf@.take(pos as int), w, bl, sl);
                assert(buf@.take(pos as int) + w =~= buf@.take(pos + bl_));
                lemma_one_block(kind, w, bl, sl);
                lemma_entries_append(
                    block_sums(kind, buf@.take(pos as int), bl, sl),
                    block_sums(kind, w, bl, sl),
                );
                vstd::arithmetic::div_mod::lemma_mod_add_multiples_vanish(pos as int, bl as int);
            }
            pos = pos + bl_;
        }
        let mut rest: Vec<u8> = Vec::new();
        push_all(&mut rest, &buf[pos..buf.len()]);
        let ghost old_seen = self.seen@;
        let ghost old_partial = self.partial@;
        self.partial = rest;
        self.seen = Ghost(old_seen + chunk@);
        proof {
            let s2 = old_seen + chunk@;
            let c0 = old_seen.len() - old_partial.len();
            assert(buf@ =~= old_partial + chunk@);
            assert(s2.take(c0 + pos) =~= whole0 + buf@.take(pos as int));
            assert(s2.len() - self.partial@.len() == c0 + pos);
            assert(self.seen@.skip(c0 + pos) =~= self.partial@);
            vstd::arithmetic::div_mod::lemma_mod_adds(c0, pos as int, bl as int);
            lemma_block_sums_split(kind, whole0, buf@.take(pos as int), bl, sl);
            lemma_entries_append(
                block_sums(kind, whole0, bl, sl),
                block_sums(kind, buf@.take(pos as int), bl, sl),
            );
            assert(out@.skip(out0.len() as int) =~= entries_bytes(
                block_sums(kind, buf@.take(pos as int), bl, sl),
            ));
            assert(out@.take(out0.len() as int) =~= out0);
            assert(self.whole() == whole0 + buf@.take(pos as int));
            assert(self.emitted() =~= old(self).emitted() + out@.skip(out0.len() as int));
        }
    }

    /// Ends the base: writes the sums of the last, short block, if any. All
    /// that the job wrote is then the signature of everything fed.
    pub fn finish(self, out: &mut Vec<u8>)
        requires
            self.wf(),
        ensures
            self.emitted() + final(out)@.skip(old(out)@.len() as int) == signature_bytes(
                self.params().0,
                self.seen(),
                self.params().1,
                self.params().2,
            ),
            final(out)@.len() >= old(out)@.len(),
            final(out)@.take(old(out)@.len() as int) == old(out)@,
    {
        let ghost kind = self.kind;
        let ghost bl = self.block_len as nat;
        let ghost sl = self.strong_len as nat;
        let ghost out0 = out@;
        proof {
            assert(self.seen@ =~= self.whole() + self.partial@);
            lemma_block_sums_split(kind, self.whole(), self.partial@, bl, sl);
            lemma_entries_append(
                block_sums(kind, self.whole(), bl, sl),
                block_sums(kind, self.partial@, bl, sl),
            );
        }
        if self.partial.len() > 0 {
            emit_block(out, self.kind, self.partial.as_slice(), self.strong_len);
            proof {
                lemma_one_block(kind, self.partial@, bl, sl);
                assert(out@.skip(out0.len() as int) =~= entries_bytes(
                    block_sums(kind, self.partial@, bl, sl),
                ));
                assert(out@.take(out0.len() as int) =~= out0);
            }
        } else {
            proof {
                assert(out@.skip(out0.len() as int) =~= Seq::<u8>::empty());
                assert(out@.take(out0.len() as int) =~= out0);
                assert(block_sums(kind, self.partial@, bl, sl) =~= Seq::<(u32, Seq<u8>)>::empty());
            }
        }
        proof {
            assert(self.emitted() + out@.skip(out0.len() as int) =~= signature_bytes(
                kind,
                self.seen@,
                bl,
                sl,
            ));
        }
    }
}

} // verus!
