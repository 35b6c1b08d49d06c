//! rsync-style delta compression: block signatures of a base, deltas of new
//! data against a signature, and patches that rebuild the new data.
//!
//! `Signature`, `Delta` and `Patch` each take their inputs, run the engine,
//! and hand the result out as a stream of bytes to be pulled.

mod delta;
mod error;
mod index;
pub mod laws;
mod patch;
mod patchjob;
mod rollsum;
mod signature;
mod sigjob;
mod stream;
mod strong;
mod wire;

pub use delta::{compute_delta, delta_ops, first_match, match_at, matchable, ops_from};
pub use index::SignatureIndex;
pub use error::{error_of_code, Error, IoErrorKind};
pub use patch::{apply_delta, patch_result, run_ops};
pub use rollsum::{weak_checksum, weak_sum, Rollsum};
pub use signature::{
    block_record, block_sums, build_signature, load_signature, parse_signature, signature_bytes, valid_params,
    BlockSum, SigModel, SignatureSums,
};
pub use stream::OutputBuffer;
pub use strong::{
    digest_of, strong_checksum, strong_sum, strong_sum_matches, truncate_digest, SignatureType,
};
pub use wire::{delta_bytes, encode_ops, Op};

use vstd::prelude::*;

verus! {

/// A signature being computed from a base.
pub struct Signature {
    input: Vec<u8>,
    output: OutputBuffer,
}

/// A delta being computed from new data and the signature of a base.
pub struct Delta {
    input: Vec<u8>,
    output: OutputBuffer,
}

/// New data being rebuilt from a base and a delta.
pub struct Patch {
    delta: Vec<u8>,
    output: Result<OutputBuffer, Error>,
}

impl Signature {
    /// The input the signature is computed from.
    pub closed spec fn input(&self) -> Seq<u8> {
        self.input@
    }

    /// The signature bytes not yet read.
    pub closed spec fn pending(&self) -> Seq<u8> {
        self.output.remaining()
    }

    /// Consistency of the output stream.
    pub closed spec fn wf(&self) -> bool {
        self.output.wf()
    }

    /// Starts computing the signature of `input` with blocks of `block_len`
    /// bytes and strong sums of `strong_len` bytes; `BadMagic` where those
    /// lengths cannot make a signature of this family.
    pub fn new(input: Vec<u8>, block_len: usize, strong_len: usize, sig_magic: SignatureType) -> (r:
        Result<Signature, Error>)
        ensures
            r is Err <==> !valid_params(sig_magic, block_len as nat, strong_len as nat),
            r is Err ==> r == Err::<Signature, Error>(Error::BadMagic),
            r matches Ok(s) ==> s.wf() && s.input() == input@ && s.pending() == signature_bytes(
                sig_magic,
                input@,
                block_len as nat,
                strong_len as nat,
            ),
    {
        match build_signature(input.as_slice(), block_len, strong_len, sig_magic) {
            Ok(bytes) => Ok(Signature { input, output: OutputBuffer::new(bytes) }),
            Err(e) => Err(e),
        }
    }

    /// Gives the input back.
    pub fn into_inner(self) -> (r: Vec<u8>)
        ensures
            r@ == self.input(),
    {
        self.input
    }

    /// Reads up to `max` bytes of the signature onto the end of `buf`; 0 at the end.
    pub fn read(&mut self, buf: &mut Vec<u8>, max: usize) -> (n: usize)
        requires
            old(self).wf(),
        ensures
            final(self).wf(),
            final(self).input() == old(self).input(),
            n == if max < old(self).pending().len() {
                max as int
            } else {
                old(self).pending().len() as int
            },
            final(buf)@ == old(buf)@ + old(self).pending().take(n as int),
            final(self).pending() == old(self).pending().skip(n as int),
    {
        self.output.read(buf, max)
    }

    /// Reads the rest of the signature onto the end of `buf`.
    pub fn read_to_end(&mut self, buf: &mut Vec<u8>) -> (n: usize)
        requires
            old(self).wf(),
        ensures
            final(self).wf(),
            final(self).input() == old(self).input(),
            n == old(self).pending().len(),
            final(buf)@ == old(buf)@ + old(self).pending(),
            final(self).pending().len() == 0,
    {
        self.output.read_to_end(buf)
    }
}

impl Delta {
    /// The new data the delta is computed from.
    pub closed spec fn input(&self) -> Seq<u8> {
        self.input@
    }

    /// The delta bytes not yet read.
    pub closed spec fn pending(&self) -> Seq<u8> {
        self.output.remaining()
    }

    /// Consistency of the output stream.
    pub closed spec fn wf(&self) -> bool {
        self.output.wf()
    }

    /// Starts computing the delta of `new` against the signature `base_sig`.
    /// Fails as reading the signature fails, and with an invalid-data error
    /// where the signature's blocks would place copies beyond 64-bit offsets.
    pub fn new(new: Vec<u8>, base_sig: Vec<u8>) -> (r: Result<Delta, Error>)
        ensures
            match parse_signature(base_sig@) {
                Err(e) => r == Err::<Delta, Error>(e),
                Ok(m) => if matchable(m) {
                    r matches Ok(d) && d.wf() && d.input() == new@ && d.pending() == delta_bytes(
                        delta_ops(m, new@),
                    )
                } else {
                    r == Err::<Delta, Error>(Error::Io(IoErrorKind::InvalidData))
                },
            },
    {
        let sums = match load_signature(base_sig.as_slice()) {
            Ok(s) => s,
            Err(e) => {
                return Err(e);
            },
        };
        let nb = sums.blocks.len() as u128;
        let bl = sums.block_len as u128;
        proof {
            assert(nb * bl <= 0x1_0000_0000_0000_0000 * 0x1_0000_0000_0000_0000) by (
            nonlinear_arith)
                requires
                    nb <= 0x1_0000_0000_0000_0000,
                    bl <= 0x1_0000_0000_0000_0000,
            ;
        }
        if bl != 0 && nb > u64::MAX as u128 / bl {
            proof {
                assert(nb * bl > u64::MAX) by (nonlinear_arith)
                    requires
                        bl > 0,
                        nb > u64::MAX as u128 / bl,
                ;
            }
            return Err(Error::Io(IoErrorKind::InvalidData));
        }
        proof {
            if bl != 0 {
                assert(nb * bl <= u64::MAX) by (nonlinear_arith)
                    requires
                        bl > 0,
                        nb <= u64::MAX as u128 / bl,
                ;
            }
        }
        let bytes = compute_delta(new.as_slice(), &sums);
        Ok(Delta { input: new, output: OutputBuffer::new(bytes) })
    }

    /// Gives the new data back.
    pub fn into_inner(self) -> (r: Vec<u8>)
        ensures
            r@ == self.input(),
    {
        self.input
    }

    /// Reads up to `max` bytes of the delta onto the end of `buf`; 0 at the end.
    pub fn read(&mut self, buf: &mut Vec<u8>, max: usize) -> (n: usize)
        requires
            old(self).wf(),
        ensures
            final(self).wf(),
            final(self).input() == old(self).input(),
            n == if max < old(self).pending().len() {
                max as int
            } else {
                old(self).pending().len() as int
            },
            final(buf)@ == old(buf)@ + old(self).pending().take(n as int),
            final(self).pending() == old(self).pending().skip(n as int),
    {
        self.output.read(buf, max)
    }

    /// Reads the rest of the delta onto the end of `buf`.
    pub fn read_to_end(&mut self, buf: &mut Vec<u8>) -> (n: usize)
        requires
            old(self).wf(),
        ensures
            final(self).wf(),
            final(self).input() == old(self).input(),
            n == old(self).pending().len(),
            final(buf)@ == old(buf)@ + old(self).pending(),
            final(self).pending().len() == 0,
    {
        self.output.read_to_end(buf)
    }
}

impl Patch {
    /// The delta being applied.
    pub closed spec fn delta(&self) -> Seq<u8> {
        self.delta@
    }

    /// What reads still give: the rebuilt bytes not yet read, or the error
    /// that every read gives.
    pub closed spec fn state(&self) -> Result<Seq<u8>, Error> {
        match self.output {
            Ok(o) => Ok(o.remaining()),
            Err(e) => Err(e),
        }
    }

    /// Consistency of the output stream.
    pub closed spec fn wf(&self) -> bool {
        self.output matches Ok(o) ==> o.wf()
    }

    /// Starts rebuilding new data from `base` and `delta`. This never fails:
    /// a malformed delta, or one that copies from beyond the base, makes
    /// every read fail as `patch_result` says.
    pub fn new(base: Vec<u8>, delta: Vec<u8>) -> (p: Patch)
        ensures
            p.wf(),
            p.delta() == delta@,
            p.state() == patch_result(base@, delta@),
    {
        let output = match apply_delta(base.as_slice(), delta.as_slice()) {
            Ok(bytes) => Ok(OutputBuffer::new(bytes)),
            Err(e) => Err(e),
        };
        Patch { delta, output }
    }

    /// Gives the delta back.
    pub fn into_delta(self) -> (r: Vec<u8>)
        ensures
            r@ == self.delta(),
    {
        self.delta
    }

    /// Reads up to `max` bytes of the rebuilt data onto the end of `buf`; 0
    /// at the end. Once a read fails, this one and every later one fail with
    /// the same error and change nothing.
    pub fn read(&mut self, buf: &mut Vec<u8>, max: usize) -> (r: Result<usize, Error>)
        requires
            old(self).wf(),
        ensures
            final(self).wf(),
            final(self).delta() == old(self).delta(),
            match old(self).state() {
                Err(e) => r == Err::<usize, Error>(e) && final(self).state() == old(self).state()
                    && final(buf)@ == old(buf)@,
                Ok(rest) => r matches Ok(n) && n == (if max < rest.len() {
                    max as int
                } else {
                    rest.len() as int
                }) && final(buf)@ == old(buf)@ + rest.take(n as int) && final(self).state() == Ok::<
                    Seq<u8>,
                    Error,
                >(rest.skip(n as int)),
            },
    {
        match &mut self.output {
            Ok(o) => Ok(o.read(buf, max)),
            Err(e) => Err(*e),
        }
    }

    /// Reads the rest of the rebuilt data onto the end of `buf`, or fails as `read` does.
    pub fn read_to_end(&mut self, buf: &mut Vec<u8>) -> (r: Result<usize, Error>)
        requires
            old(self).wf(),
        ensures
            final(self).wf(),
            final(self).delta() == old(self).delta(),
            match old(self).state() {
                Err(e) => r == Err::<usize, Error>(e) && final(self).state() == old(self).state()
                    && final(buf)@ == old(buf)@,
                Ok(rest) => r matches Ok(n) && n == rest.len() && final(buf)@ == old(buf)@ + rest
                    && final(self).state() == Ok::<Seq<u8>, Error>(Seq::empty()),
            },
    {
        match &mut self.output {
            Ok(o) => {
                let n = o.read_to_end(buf);
                assert(o.remaining() =~= Seq::<u8>::empty());
                Ok(n)
            },
            Err(e) => Err(*e),
        }
    }
}

} // verus!
pub use sigjob::SignatureJob;
pub use patchjob::PatchJob;
