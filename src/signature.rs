use vstd::prelude::*;
use crate::error::Error;
use crate::sigjob::SignatureJob;
use crate::rollsum::weak_sum;
use crate::strong::{max_strong_len, strong_sum, truncate_digest, SignatureType};
use crate::wire::{be32, be_value, lemma_be_value_bound, pow256, push_all, push_be, read_be, BLAKE2_SIG_MAGIC, MD4_SIG_MAGIC};

verus! {

/// The magic number that announces a signature of the given family.
pub open spec fn sig_magic(kind: SignatureType) -> u32 {
    match kind {
        SignatureType::MD4 => MD4_SIG_MAGIC,
        SignatureType::Blake2 => BLAKE2_SIG_MAGIC,
    }
}

impl SignatureType {
    /// The magic number of a signature of this family.
    pub fn as_raw(&self) -> (r: u32)
        ensures
            r == sig_magic(*self),
    {
        match self {
            SignatureType::MD4 => MD4_SIG_MAGIC,
            SignatureType::Blake2 => BLAKE2_SIG_MAGIC,
        }
    }
}

/// Block length and strong length that a signature can be made with.
pub open spec fn valid_params(kind: SignatureType, block_len: nat, strong_len: nat) -> bool {
    &&& 1 <= block_len <= u32::MAX
    &&& 1 <= strong_len <= max_strong_len(kind)
}

/// The (weak, strong) sums of each block of `base`, in order: blocks of
/// `block_len` bytes, the last one possibly shorter.
pub open spec fn block_sums(kind: SignatureType, base: Seq<u8>, block_len: nat, strong_len: nat) -> Seq<
    (u32, Seq<u8>),
>
    decreases base.len(),
{
    if base.len() == 0 || block_len == 0 {
        Seq::empty()
    } else {
        let n = if base.len() < block_len {
            base.len() as int
        } else {
            block_len as int
        };
        seq![(weak_sum(base.take(n)), strong_sum(kind, base.take(n), strong_len))] + block_sums(
            kind,
            base.skip(n),
            block_len,
            strong_len,
        )
    }
}

/// The sums of the blocks written one after another, each as its weak sum
/// in four big-endian bytes followed by its strong sum.
pub open spec fn entries_bytes(sums: Seq<(u32, Seq<u8>)>) -> Seq<u8>
    decreases sums.len(),
{
    if sums.len() == 0 {
        Seq::empty()
    } else {
        be32(sums[0].0) + sums[0].1 + entries_bytes(sums.drop_first())
    }
}

/// The header of a signature: magic number, block length, strong length.
pub open spec fn sig_header(kind: SignatureType, block_len: u32, strong_len: u32) -> Seq<u8> {
    be32(sig_magic(kind)) + be32(block_len) + be32(strong_len)
}

/// The signature of `base`: its header followed by the sums of its blocks.
pub open spec fn signature_bytes(
    kind: SignatureType,
    base: Seq<u8>,
    block_len: nat,
    strong_len: nat,
) -> Seq<u8> {
    sig_header(kind, block_len as u32, strong_len as u32) + entries_bytes(
        block_sums(kind, base, block_len, strong_len),
    )
}

/// What a signature says: its family, its lengths, and the sums of each block.
pub struct SigModel {
    pub kind: SignatureType,
    pub block_len: nat,
    pub strong_len: nat,
    pub sums: Seq<(u32, Seq<u8>)>,
}

/// Where the sums of block `i` start in a signature.
pub open spec fn entry_start(strong_len: nat, i: int) -> int {
    12 + i * (4 + strong_len)
}

/// The sums of block `i` as a signature's bytes give them.
pub open spec fn entry_at(d: Seq<u8>, strong_len: nat, i: int) -> (u32, Seq<u8>) {
    let s = entry_start(strong_len, i);
    (be_value(d.subrange(s, s + 4)) as u32, d.subrange(s + 4, s + 4 + strong_len))
}

/// The family that a magic number announces.
pub open spec fn kind_of_magic(m: nat) -> Option<SignatureType> {
    if m == MD4_SIG_MAGIC {
        Some(SignatureType::MD4)
    } else if m == BLAKE2_SIG_MAGIC {
        Some(SignatureType::Blake2)
    } else {
        None
    }
}

/// Reads a signature: `BadMagic` for an unknown magic number, `Syntax` where
/// it is cut short, its lengths are out of range, or its blocks do not fill it exactly.
pub open spec fn parse_signature(d: Seq<u8>) -> Result<SigModel, Error> {
    if d.len() < 4 {
        Err(Error::Syntax)
    } else {
        match kind_of_magic(be_value(d.subrange(0, 4))) {
            None => Err(Error::BadMagic),
            Some(kind) => {
                if d.len() < 12 {
                    Err(Error::Syntax)
                } else {
                    let bl = be_value(d.subrange(4, 8));
                    let sl = be_value(d.subrange(8, 12));
                    if !valid_params(kind, bl, sl) || (d.len() - 12) % ((4 + sl) as int) != 0 {
                        Err(Error::Syntax)
                    } else {
                        Ok(
                            SigModel {
                                kind,
                                block_len: bl,
                                strong_len: sl,
                                sums: Seq::new(
                                    ((d.len() - 12) / ((4 + sl) as int)) as nat,
                                    |i: int| entry_at(d, sl, i),
                                ),
                            },
                        )
                    }
                }
            }
        }
    }
}

/// The record of one block in a signature: its weak sum in four big-endian
/// bytes, then the first `strong_len` bytes of its digest.
pub fn block_record(weak: u32, digest: &[u8], strong_len: usize) -> (r: Vec<u8>)
    requires
        strong_len <= digest@.len(),
    ensures
        r@ == be32(weak) + digest@.take(strong_len as int),
{
    let mut r: Vec<u8> = Vec::new();
    push_be(&mut r, weak as u64, 4);
    let strong = truncate_digest(digest, strong_len);
    push_all(&mut r, strong.as_slice());
    assert(r@ =~= be32(weak) + digest@.take(strong_len as int));
    r
}

/// The sums of one block.
pub struct BlockSum {
    pub weak: u32,
    pub strong: Vec<u8>,
}

/// A signature read into memory.
pub struct SignatureSums {
    pub kind: SignatureType,
    pub block_len: usize,
    pub strong_len: usize,
    pub blocks: Vec<BlockSum>,
}

impl SignatureSums {
    /// What this signature says.
    pub open spec fn view(&self) -> SigModel {
        SigModel {
            kind: self.kind,
            block_len: self.block_len as nat,
            strong_len: self.strong_len as nat,
            sums: self.blocks@.map_values(|b: BlockSum| (b.weak, b.strong@)),
        }
    }
}

/// Computes the signature of `base`; `BadMagic` where the block length is 0
/// or does not fit in 32 bits, or the strong length is 0 or longer than the
/// family's digest.
pub fn build_signature(base: &[u8], block_len: usize, strong_len: usize, kind: SignatureType) -> (r:
    Result<Vec<u8>, Error>)
    ensures
        r is Err <==> !valid_params(kind, block_len as nat, strong_len as nat),
        r is Err ==> r == Err::<Vec<u8>, Error>(Error::BadMagic),
        r matches Ok(v) ==> v@ == signature_bytes(kind, base@, block_len as nat, strong_len as nat),
{
    let mut out: Vec<u8> = Vec::new();
    let mut job = match SignatureJob::new(block_len, strong_len, kind, &mut out) {
        Ok(j) => j,
        Err(e) => {
            return Err(e);
        },
    };
    assert(out@ =~= job.emitted());
    job.feed(base, &mut out);
    proof {
        assert(Seq::<u8>::empty() + base@ =~= base@);
        assert(out@ =~= job.emitted());
    }
    let ghost e = job.emitted();
    let ghost n = out@.len();
    job.finish(&mut out);
    assert(out@ =~= e + out@.skip(n as int));
    Ok(out)
}

/// Reads a signature into memory, failing exactly as `parse_signature` says.
pub fn load_signature(d: &[u8]) -> (r: Result<SignatureSums, Error>)
    ensures
        match parse_signature(d@) {
            Ok(m) => r matches Ok(s) && s@ == m,
            Err(e) => r == Err::<SignatureSums, Error>(e),
        },
{
    if d.len() < 4 {
        return Err(Error::Syntax);
    }
    let magic = read_be(d, 0, 4);
    let kind = if magic == MD4_SIG_MAGIC as u64 {
        SignatureType::MD4
    } else if magic == BLAKE2_SIG_MAGIC as u64 {
        SignatureType::Blake2
    } else {
        return Err(Error::BadMagic);
    };
    if d.len() < 12 {
        return Err(Error::Syntax);
    }
    let bl = read_be(d, 4, 4);
    let sl = read_be(d, 8, 4);
    if bl == 0 || bl > 0xffff_ffff || sl == 0 || sl > kind.max_strong_len() as u64 {
        return Err(Error::Syntax);
    }
    let strong_len = sl as usize;
    let entry: usize = 4 + strong_len;
    let rest: usize = d.len() - 12;
    if rest % entry != 0 {
        return Err(Error::Syntax);
    }
    let n: usize = rest / entry;
    let ghost model = parse_signature(d@)->Ok_0;
    let mut blocks: Vec<BlockSum> = Vec::new();
    let mut i: usize = 0;
    let mut pos: usize = 12;
    let dl = d.len();
    while i < n
        invariant
            dl == d@.len(),
            i <= n,
            n == rest / entry,
            rest == d@.len() - 12,
            entry == 4 + strong_len,
            strong_len == sl,
            pos == entry_start(strong_len as nat, i as int),
            model.sums.len() == n,
            forall|k: int| 0 <= k < n ==> model.sums[k] == entry_at(d@, strong_len as nat, k),
            blocks@.len() == i,
            forall|k: int|
                0 <= k < i ==> (#[trigger] blocks@[k]).weak == model.sums[k].0 && blocks@[k].strong@
                    == model.sums[k].1,
        decreases n - i,
    {
        proof {
            assert((i + 1) * entry <= n * entry) by (nonlinear_arith)
                requires
                    i < n,
            ;
            assert(n * entry <= rest) by (nonlinear_arith)
                requires
                    n == rest / entry,
                    entry > 0,
            ;
            assert((i + 1) * entry == i * entry + entry) by (nonlinear_arith);
            lemma_be_value_bound(d@.subrange(pos as int, pos + 4));
            reveal_with_fuel(pow256, 5);
        }
        let weak = read_be(d, pos, 4) as u32;
        let mut strong: Vec<u8> = Vec::new();
        push_all(&mut strong, &d[pos + 4..pos + entry]);
        blocks.push(BlockSum { weak, strong });
        i += 1;
        pos += entry;
    }
    let r = SignatureSums { kind, block_len: bl as usize, strong_len, blocks };
    assert(r@.sums =~= model.sums);
    Ok(r)
}

} // verus!
