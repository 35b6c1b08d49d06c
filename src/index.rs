use vstd::prelude::*;
use std::collections::HashMap;
use crate::delta::{block_matches, first_match, is_first_match};
use crate::rollsum::weak_sum;
use crate::signature::{SigModel, SignatureSums};
use crate::strong::{digest_of, max_strong_len, strong_digest, strong_sum, strong_sum_matches};

verus! {

broadcast use vstd::std_specs::hash::group_hash_axioms;

/// A chain for weak sum `w`: indices of blocks with that weak sum, rising.
pub open spec fn chain_ok(c: Seq<usize>, m: SigModel, w: u32, bound: int) -> bool {
    &&& forall|k: int| 0 <= k < c.len() ==> #[trigger] c[k] < bound && m.sums[c[k] as int].0 == w
    &&& forall|k1: int, k2: int| 0 <= k1 < k2 < c.len() ==> c[k1] < c[k2]
}

/// Whether block `j` of the signature has the sums of `w`, given the weak sum of `w`.
pub fn block_matches_at(sig: &SignatureSums, w: &[u8], weak: u32, j: usize) -> (r: bool)
    requires
        j < sig.blocks@.len(),
        sig.strong_len <= max_strong_len(sig.kind),
        weak == weak_sum(w@),
    ensures
        r == block_matches(sig@, w@, j as int),
{
    if sig.blocks[j].weak != weak {
        return false;
    }
    let d = digest_of(sig.kind, w);
    assert(d@.take(sig.strong_len as int) =~= strong_sum(sig.kind, w@, sig.strong_len as nat));
    strong_sum_matches(sig.blocks[j].strong.as_slice(), sig.strong_len, d.as_slice())
}

/// Blocks of a signature by their weak sums: for each weak sum, the blocks
/// that have it, in the order of the signature.
pub struct SignatureIndex {
    chains: HashMap<u32, Vec<usize>>,
}

impl SignatureIndex {
    /// The index lists, for each weak sum, exactly the first `bound` blocks of `m` with it.
    pub closed spec fn indexes_upto(&self, m: SigModel, bound: int) -> bool {
        &&& bound <= m.sums.len()
        &&& forall|w: u32| #[trigger]
            self.chains@.contains_key(w) ==> chain_ok(self.chains@[w]@, m, w, bound)
        &&& forall|j: int|
            0 <= j < bound ==> self.chains@.contains_key(#[trigger] m.sums[j].0)
                && self.chains@[m.sums[j].0]@.contains(j as usize)
    }

    /// The index covers every block of `m`.
    pub open spec fn indexes(&self, m: SigModel) -> bool {
        self.indexes_upto(m, m.sums.len() as int)
    }

    /// Builds the index of a signature in one pass over its blocks.
    pub fn build(sig: &SignatureSums) -> (r: SignatureIndex)
        ensures
            r.indexes(sig@),
    {
        let ghost m = sig@;
        let mut idx = SignatureIndex { chains: HashMap::new() };
        let mut j: usize = 0;
        while j < sig.blocks.len()
            invariant
                j <= sig.blocks@.len(),
                m == sig@,
                idx.indexes_upto(m, j as int),
            decreases sig.blocks.len() - j,
        {
            let w = sig.blocks[j].weak;
            assert(w == m.sums[j as int].0);
            let ghost old_map = idx.chains@;
            let mut c = match idx.chains.remove(&w) {
                Some(c) => c,
                None => Vec::new(),
            };
            assert(old_map.contains_key(w) ==> c@ == old_map[w]@);
            assert(!old_map.contains_key(w) ==> c@.len() == 0);
            let ghost oc = c@;
            c.push(j);
            assert(chain_ok(c@, m, w, j + 1)) by {
                assert forall|k: int| 0 <= k < c@.len() implies #[trigger] c@[k] < j + 1 && m.sums[c@[k] as int].0 == w by {
                    if k < oc.len() {
                        assert(c@[k] == oc[k]);
                    }
                }
            }
            idx.chains.insert(w, c);
            assert forall|jj: int| 0 <= jj < j + 1 implies idx.chains@.contains_key(#[trigger] m.sums[jj].0)
                && idx.chains@[m.sums[jj].0]@.contains(jj as usize) by {
                if jj == j {
                    assert(idx.chains@[w]@.last() == j);
                } else if m.sums[jj].0 == w {
                    let k = choose|k: int| 0 <= k < oc.len() && oc[k] == jj as usize;
                    assert(idx.chains@[w]@[k] == jj as usize);
                } else {
                    assert(idx.chains@[m.sums[jj].0] == old_map[m.sums[jj].0]);
                }
            }
            assert forall|v: u32| #[trigger] idx.chains@.contains_key(v) implies chain_ok(idx.chains@[v]@, m, v, j + 1) by {
                if v != w {
                    assert(idx.chains@[v] == old_map[v]);
                }
            }
            j += 1;
        }
        idx
    }

    /// The first block of the signature whose sums are those of `w`, given
    /// the weak sum of `w`: only the blocks with that weak sum are tried.
    pub fn find_match(&self, sig: &SignatureSums, w: &[u8], weak: u32) -> (r: Option<usize>)
        requires
            self.indexes(sig@),
            sig.strong_len <= max_strong_len(sig.kind),
            weak == weak_sum(w@),
        ensures
            match r {
                Some(j) => first_match(sig@, w@) == Some(j as int),
                None => first_match(sig@, w@) is None,
            },
    {
        let ghost m = sig@;
        let nb = sig.blocks.len();
        assert(nb == m.sums.len());
        let c = match self.chains.get(&weak) {
            Some(c) => c,
            None => {
                assert forall|j: int| !is_first_match(m, w@, j) by {
                    if block_matches(m, w@, j) {
                        assert(self.chains@.contains_key(m.sums[j].0));
                    }
                }
                return None;
            },
        };
        let mut digest: Option<Vec<u8>> = None;
        let mut k: usize = 0;
        while k < c.len()
            invariant
                k <= c@.len(),
                m == sig@,
                nb == m.sums.len(),
                self.indexes(m),
                self.chains@.contains_key(weak),
                self.chains@[weak] == *c,
                sig.strong_len <= max_strong_len(sig.kind),
                weak == weak_sum(w@),
                digest matches Some(d) ==> d@ == strong_digest(m.kind, w@) && d@.len() == max_strong_len(
                    m.kind,
                ),
                forall|kk: int| 0 <= kk < k ==> !block_matches(m, w@, c@[kk] as int),
            decreases c.len() - k,
        {
            let j = c[k];
            assert(chain_ok(c@, m, weak, m.sums.len() as int));
            if digest.is_none() {
                digest = Some(digest_of(sig.kind, w));
            }
            let d = match &digest {
                Some(d) => d,
                None => {
                    return None;
                },
            };
            assert(d@.take(sig.strong_len as int) =~= strong_sum(m.kind, w@, m.strong_len));
            if strong_sum_matches(sig.blocks[j].strong.as_slice(), sig.strong_len, d.as_slice()) {
                assert(block_matches(m, w@, j as int));
                assert forall|jj: int| 0 <= jj < j implies !block_matches(m, w@, jj) by {
                    if block_matches(m, w@, jj) {
                        let kk = choose|kk: int| 0 <= kk < c@.len() && c@[kk] == jj as usize;
                        if kk >= k {
                            if kk > k {
                                assert(c@[k as int] < c@[kk]);
                            }
                        }
                    }
                }
                assert(is_first_match(m, w@, j as int));
                return Some(j);
            }
            k += 1;
        }
        assert forall|j: int| !is_first_match(m, w@, j) by {
            if block_matches(m, w@, j) {
                assert(m.sums[j].0 == weak);
                assert(j < nb);
                assert(self.chains@.contains_key(m.sums[j].0));
                assert(c@.contains(j as usize));
                let kk = choose|kk: int| 0 <= kk < c@.len() && c@[kk] == j as usize;
                assert(!block_matches(m, w@, c@[kk] as int));
            }
        }
        None
    }
}

} // verus!
