//! Fiat-Shamir transcript: a duplex sponge driven by an explicit schedule.
//!
//! The schedule is a first-class list of operations shared by prover and
//! verifier; every transcript operation checks that it matches the next
//! scheduled one and fails otherwise. All state transitions are exact
//! functions of the sponge state, so challenges are reproducible: a prover
//! and a verifier that share the label, the schedule and the byte stream
//! derive identical challenges.

use vstd::prelude::*;

use crate::ProofError;
use crate::merkletree::keccak_of;

verus! {

/// One scheduled operation: absorb n bytes, squeeze n bytes, or ratchet.
#[derive(Clone, Copy, Debug, PartialEq, Eq, Structural)]
pub enum Op {
    Absorb(u64),
    Squeeze(u64),
    Ratchet,
}

/// Sponge separation byte for absorbing data.
pub const ABSORB_TAG: u8 = 2;

/// Sponge separation byte for deriving challenge bytes.
pub const SQUEEZE_TAG: u8 = 3;

/// Sponge separation byte for stepping the state after a squeeze.
pub const STEP_TAG: u8 = 4;

/// Sponge separation byte for ratcheting.
pub const RATCHET_TAG: u8 = 5;

/// One sponge transition: hash the state, a separation tag and the data.
pub open spec fn sponge_next(st: Seq<u8>, tag: u8, data: Seq<u8>) -> Seq<u8> {
    keccak_of(st + seq![tag] + data)
}

/// State after absorbing `b`.
pub open spec fn absorb_next_s(st: Seq<u8>, b: Seq<u8>) -> Seq<u8> {
    sponge_next(st, ABSORB_TAG, b)
}

/// The challenge bytes squeezed out of a state.
pub open spec fn squeeze_bytes_s(st: Seq<u8>, n: nat) -> Seq<u8> {
    sponge_next(st, SQUEEZE_TAG, Seq::empty()).take(n as int)
}

/// State after a squeeze.
pub open spec fn squeeze_next_s(st: Seq<u8>) -> Seq<u8> {
    sponge_next(st, STEP_TAG, Seq::empty())
}

/// State after a ratchet.
pub open spec fn ratchet_next_s(st: Seq<u8>) -> Seq<u8> {
    sponge_next(st, RATCHET_TAG, Seq::empty())
}

/// Total number of bytes the schedule absorbs: the length of any proof
/// that follows it.
pub open spec fn absorb_total(s: Seq<Op>) -> int
    decreases s.len(),
{
    if s.len() == 0 {
        0int
    } else {
        absorb_total(s.drop_last()) + (match s.last() {
            Op::Absorb(n) => n as int,
            Op::Squeeze(_) => 0int,
            Op::Ratchet => 0int,
        })
    }
}

/// Prefixes never absorb more than the whole schedule.
pub proof fn lemma_absorb_total_mono(s: Seq<Op>, i: int)
    requires
        0 <= i <= s.len(),
    ensures
        absorb_total(s.take(i)) <= absorb_total(s),
        absorb_total(s.take(i)) >= 0,
    decreases s.len(),
{
    if s.len() == 0 {
        assert(s.take(i) =~= s);
    } else if i == s.len() {
        assert(s.take(i) =~= s);
        lemma_absorb_total_mono(s.drop_last(), s.len() - 1);
        assert(s.drop_last().take(s.len() - 1) =~= s.drop_last());
    } else {
        assert(s.take(i) =~= s.drop_last().take(i));
        lemma_absorb_total_mono(s.drop_last(), i);
    }
}

/// The running sum gains exactly the next operation's absorb width.
pub proof fn lemma_absorb_total_step(s: Seq<Op>, i: int)
    requires
        0 <= i < s.len(),
    ensures
        absorb_total(s.take(i + 1)) == absorb_total(s.take(i)) + (match s[i] {
            Op::Absorb(n) => n as int,
            Op::Squeeze(_) => 0int,
            Op::Ratchet => 0int,
        }),
{
    assert(s.take(i + 1).drop_last() =~= s.take(i));
    assert(s.take(i + 1).last() == s[i]);
}

/// Computes the absorb total of a schedule.
pub fn absorb_total_exec(sched: &Vec<Op>) -> (r: usize)
    requires
        absorb_total(sched@) <= usize::MAX,
    ensures
        r as int == absorb_total(sched@),
{
    let mut acc: usize = 0;
    let mut i: usize = 0;
    proof {
        assert(sched@.take(0) =~= Seq::<Op>::empty());
    }
    while i < sched.len()
        invariant
            i <= sched@.len(),
            acc as int == absorb_total(sched@.take(i as int)),
            absorb_total(sched@) <= usize::MAX,
        decreases sched@.len() - i,
    {
        proof {
            lemma_absorb_total_step(sched@, i as int);
            lemma_absorb_total_mono(sched@, i as int + 1);
        }
        match sched[i] {
            Op::Absorb(n) => {
                proof {
                    lemma_absorb_total_mono(sched@, i as int);
                }
                acc = acc + (n as usize);
            },
            Op::Squeeze(_) => {},
            Op::Ratchet => {},
        }
        i = i + 1;
    }
    proof {
        assert(sched@.take(sched@.len() as int) =~= sched@);
    }
    acc
}

/// One keccak transition of the sponge.
fn sponge_step(state: &Vec<u8>, tag: u8, data: &Vec<u8>) -> (r: Vec<u8>)
    ensures
        r@ == sponge_next(state@, tag, data@),
        r@.len() == 32,
{
    let mut buf: Vec<u8> = Vec::new();
    let mut i: usize = 0;
    while i < state.len()
        invariant
            i <= state@.len(),
            buf@ == state@.take(i as int),
        decreases state@.len() - i,
    {
        buf.push(state[i]);
        proof {
            assert(state@.take(i + 1) =~= state@.take(i as int).push(state@[i as int]));
        }
        i = i + 1;
    }
    proof {
        assert(state@.take(state@.len() as int) =~= state@);
    }
    buf.push(tag);
    let mut j: usize = 0;
    while j < data.len()
        invariant
            j <= data@.len(),
            buf@ == state@.push(tag) + data@.take(j as int),
        decreases data@.len() - j,
    {
        buf.push(data[j]);
        proof {
            assert(state@.push(tag) + data@.take(j + 1) =~= (state@.push(tag) + data@.take(
                j as int,
            )).push(data@[j as int]));
        }
        j = j + 1;
    }
    proof {
        assert(state@.push(tag) + data@.take(data@.len() as int) =~= state@ + seq![tag] + data@);
    }
    crate::merkletree::keccak256(&buf)
}

/// A domain separator: the tagged schedule both parties construct from the
/// protocol configuration before any message flows.
pub struct DomainSeparator {
    label: Vec<u8>,
    ops: Vec<Op>,
}

impl DomainSeparator {
    /// The label bytes.
    pub closed spec fn label_s(&self) -> Seq<u8> {
        self.label@
    }

    /// The scheduled operations.
    pub closed spec fn ops_s(&self) -> Seq<Op> {
        self.ops@
    }

    /// Starts an empty schedule under a protocol label.
    pub fn new_domain_separator(label: Vec<u8>) -> (r: DomainSeparator)
        ensures
            r.label_s() == label@,
            r.ops_s() == Seq::<Op>::empty(),
    {
        DomainSeparator { label, ops: Vec::new() }
    }

    /// Schedules an absorb of `n` bytes.
    pub fn add_bytes(self, n: u64) -> (r: DomainSeparator)
        ensures
            r.label_s() == self.label_s(),
            r.ops_s() == self.ops_s().push(Op::Absorb(n)),
    {
        let mut ops = self.ops;
        ops.push(Op::Absorb(n));
        DomainSeparator { label: self.label, ops }
    }

    /// Schedules a squeeze of `n` challenge bytes.
    pub fn challenge_bytes(self, n: u64) -> (r: DomainSeparator)
        ensures
            r.label_s() == self.label_s(),
            r.ops_s() == self.ops_s().push(Op::Squeeze(n)),
    {
        let mut ops = self.ops;
        ops.push(Op::Squeeze(n));
        DomainSeparator { label: self.label, ops }
    }

    /// Schedules a ratchet.
    pub fn ratchet(self) -> (r: DomainSeparator)
        ensures
            r.label_s() == self.label_s(),
            r.ops_s() == self.ops_s().push(Op::Ratchet),
    {
        let mut ops = self.ops;
        ops.push(Op::Ratchet);
        DomainSeparator { label: self.label, ops }
    }

    /// The initial sponge state: the hash of the label.
    pub open spec fn initial_state_s(&self) -> Seq<u8> {
        keccak_of(self.label_s())
    }

    /// Builds the prover side of the transcript.
    pub fn to_prover_state(&self) -> (r: ProverTranscript)
        ensures
            r.state_s() == self.initial_state_s(),
            r.sched_s() == self.ops_s(),
            r.pos_s() == 0,
            r.out_s() == Seq::<u8>::empty(),
    {
        let st = crate::merkletree::keccak256(&self.label);
        ProverTranscript { state: st, sched: clone_ops(&self.ops), pos: 0, out: Vec::new() }
    }

    /// Builds the verifier side over a proof buffer; refused up front when
    /// the buffer length does not match the schedule's absorb total, so a
    /// mismatched configuration fails before any value is examined.
    pub fn to_verifier_state(&self, proof: Vec<u8>) -> (r: Result<
        VerifierTranscript,
        ProofError,
    >)
        requires
            absorb_total(self.ops_s()) <= usize::MAX,
        ensures
            r is Ok <==> proof@.len() == absorb_total(self.ops_s()),
            r matches Ok(v) ==> v.state_s() == self.initial_state_s() && v.sched_s()
                == self.ops_s() && v.pos_s() == 0 && v.proof_s() == proof@ && v.rd_s() == 0,
            r matches Err(e) ==> e == ProofError::SerializationError,
    {
        let total = absorb_total_exec(&self.ops);
        if proof.len() != total {
            return Err(ProofError::SerializationError);
        }
        let st = crate::merkletree::keccak256(&self.label);
        Ok(VerifierTranscript {
            state: st,
            sched: clone_ops(&self.ops),
            pos: 0,
            proof,
            rd: 0,
        })
    }
}

/// Copies a schedule.
fn clone_ops(ops: &Vec<Op>) -> (r: Vec<Op>)
    ensures
        r@ == ops@,
{
    let mut out: Vec<Op> = Vec::new();
    let mut i: usize = 0;
    while i < ops.len()
        invariant
            i <= ops@.len(),
            out@ == ops@.take(i as int),
        decreases ops@.len() - i,
    {
        out.push(ops[i]);
        proof {
            assert(ops@.take(i + 1) =~= ops@.take(i as int).push(ops@[i as int]));
        }
        i = i + 1;
    }
    proof {
        assert(ops@.take(ops@.len() as int) =~= ops@);
    }
    out
}

/// The prover's transcript: absorbed bytes are appended to the proof
/// buffer; challenges are squeezed from the running sponge state.
pub struct ProverTranscript {
    state: Vec<u8>,
    sched: Vec<Op>,
    pos: usize,
    out: Vec<u8>,
}

impl ProverTranscript {
    /// Current sponge state.
    pub closed spec fn state_s(&self) -> Seq<u8> {
        self.state@
    }

    /// The schedule being followed.
    pub closed spec fn sched_s(&self) -> Seq<Op> {
        self.sched@
    }

    /// Position of the next scheduled operation.
    pub closed spec fn pos_s(&self) -> int {
        self.pos as int
    }

    /// Bytes emitted so far.
    pub closed spec fn out_s(&self) -> Seq<u8> {
        self.out@
    }

    /// Absorbs prover bytes: they advance the sponge and are appended to
    /// the proof buffer. Fails exactly when the schedule does not expect
    /// an absorb of this width.
    pub fn add_bytes(&mut self, b: &Vec<u8>) -> (r: Result<(), ProofError>)
        ensures
            r is Ok <==> (old(self).pos_s() < old(self).sched_s().len() && old(self).sched_s()[old(self).pos_s()] == Op::Absorb(b@.len() as u64)),
            r is Ok ==> final(self).state_s() == absorb_next_s(old(self).state_s(), b@) && final(self).out_s() == old(self).out_s() + b@ && final(self).pos_s() == old(self).pos_s() + 1
                && final(self).sched_s() == old(self).sched_s(),
            r is Err ==> *final(self) == *old(self),
            r matches Err(e) ==> e == ProofError::SerializationError,
    {
        if self.pos >= self.sched.len() {
            return Err(ProofError::SerializationError);
        }
        let ok = match self.sched[self.pos] {
            Op::Absorb(n) => n == b.len() as u64,
            _ => false,
        };
        if !ok {
            return Err(ProofError::SerializationError);
        }
        self.state = sponge_step(&self.state, ABSORB_TAG, b);
        let mut i: usize = 0;
        let ghost out0 = self.out@;
        while i < b.len()
            invariant
                i <= b@.len(),
                self.out@ == out0 + b@.take(i as int),
                self.state@ == absorb_next_s(old(self).state_s(), b@),
                self.sched@ == old(self).sched_s(),
                self.pos == old(self).pos_s(),
            decreases b@.len() - i,
        {
            self.out.push(b[i]);
            proof {
                assert(out0 + b@.take(i + 1) =~= (out0 + b@.take(i as int)).push(b@[i as int]));
            }
            i = i + 1;
        }
        proof {
            assert(out0 + b@.take(b@.len() as int) =~= out0 + b@);
        }
        self.pos = self.pos + 1;
        Ok(())
    }

    /// Squeezes `n` challenge bytes (at most one sponge block) and steps
    /// the state. Fails exactly when the schedule does not expect it.
    pub fn challenge_bytes(&mut self, n: usize) -> (r: Result<Vec<u8>, ProofError>)
        ensures
            r is Ok <==> (old(self).pos_s() < old(self).sched_s().len() && old(self).sched_s()[old(self).pos_s()] == Op::Squeeze(n as u64) && n <= 32),
            r matches Ok(c) ==> c@ == squeeze_bytes_s(old(self).state_s(), n as nat) && c@.len()
                == n && final(self).state_s() == squeeze_next_s(old(self).state_s()) && final(self).pos_s() == old(self).pos_s() + 1 && final(self).sched_s() == old(self).sched_s()
                && final(self).out_s() == old(self).out_s(),
            r is Err ==> *final(self) == *old(self),
            r matches Err(e) ==> e == ProofError::SerializationError,
    {
        if self.pos >= self.sched.len() || n > 32 {
            return Err(ProofError::SerializationError);
        }
        let ok = match self.sched[self.pos] {
            Op::Squeeze(m) => m == n as u64,
            _ => false,
        };
        if !ok {
            return Err(ProofError::SerializationError);
        }
        let empty: Vec<u8> = Vec::new();
        let block = sponge_step(&self.state, SQUEEZE_TAG, &empty);
        let mut c: Vec<u8> = Vec::new();
        let mut i: usize = 0;
        while i < n
            invariant
                i <= n,
                n <= 32,
                block@.len() == 32,
                block@ == sponge_next(old(self).state_s(), SQUEEZE_TAG, Seq::<u8>::empty()),
                c@ == block@.take(i as int),
                self.state@ == old(self).state_s(),
                self.sched@ == old(self).sched_s(),
                self.pos == old(self).pos_s(),
                self.out@ == old(self).out_s(),
            decreases n - i,
        {
            c.push(block[i]);
            proof {
                assert(block@.take(i + 1) =~= block@.take(i as int).push(block@[i as int]));
            }
            i = i + 1;
        }
        self.state = sponge_step(&self.state, STEP_TAG, &empty);
        self.pos = self.pos + 1;
        proof {
            assert(c@ == squeeze_bytes_s(old(self).state_s(), n as nat));
        }
        Ok(c)
    }

    /// Ratchets the sponge. Fails exactly when the schedule does not
    /// expect it.
    pub fn ratchet(&mut self) -> (r: Result<(), ProofError>)
        ensures
            r is Ok <==> (old(self).pos_s() < old(self).sched_s().len() && old(self).sched_s()[old(self).pos_s()] == Op::Ratchet),
            r is Ok ==> final(self).state_s() == ratchet_next_s(old(self).state_s()) && final(self).pos_s() == old(self).pos_s() + 1 && final(self).sched_s() == old(self).sched_s()
                && final(self).out_s() == old(self).out_s(),
            r is Err ==> *final(self) == *old(self),
            r matches Err(e) ==> e == ProofError::SerializationError,
    {
        if self.pos >= self.sched.len() {
            return Err(ProofError::SerializationError);
        }
        let ok = match self.sched[self.pos] {
            Op::Ratchet => true,
            _ => false,
        };
        if !ok {
            return Err(ProofError::SerializationError);
        }
        let empty: Vec<u8> = Vec::new();
        self.state = sponge_step(&self.state, RATCHET_TAG, &empty);
        self.pos = self.pos + 1;
        Ok(())
    }

    /// Closes the transcript and hands out the proof bytes. Fails exactly
    /// when scheduled operations remain.
    pub fn finish(self) -> (r: Result<Vec<u8>, ProofError>)
        ensures
            r is Ok <==> self.pos_s() == self.sched_s().len(),
            r matches Ok(b) ==> b@ == self.out_s(),
            r matches Err(e) ==> e == ProofError::SerializationError,
    {
        if self.pos != self.sched.len() {
            return Err(ProofError::SerializationError);
        }
        Ok(self.out)
    }
}

/// The verifier's transcript: absorbed bytes are read back from the proof
/// buffer; challenges are squeezed exactly as the prover squeezed them.
pub struct VerifierTranscript {
    state: Vec<u8>,
    sched: Vec<Op>,
    pos: usize,
    proof: Vec<u8>,
    rd: usize,
}

impl VerifierTranscript {
    /// Current sponge state.
    pub closed spec fn state_s(&self) -> Seq<u8> {
        self.state@
    }

    /// The schedule being followed.
    pub closed spec fn sched_s(&self) -> Seq<Op> {
        self.sched@
    }

    /// Position of the next scheduled operation.
    pub closed spec fn pos_s(&self) -> int {
        self.pos as int
    }

    /// The proof buffer being consumed.
    pub closed spec fn proof_s(&self) -> Seq<u8> {
        self.proof@
    }

    /// Number of proof bytes consumed so far.
    pub closed spec fn rd_s(&self) -> int {
        self.rd as int
    }

    /// Reads the prover's next absorbed bytes out of the proof buffer and
    /// mirrors the absorption. Fails exactly when the schedule does not
    /// expect an absorb of this width or the buffer is short.
    pub fn next_bytes(&mut self, n: usize) -> (r: Result<Vec<u8>, ProofError>)
        ensures
            r is Ok <==> (old(self).pos_s() < old(self).sched_s().len() && old(self).sched_s()[old(self).pos_s()] == Op::Absorb(n as u64) && old(self).rd_s() + n <= old(self).proof_s().len()),
            r matches Ok(b) ==> b@ == old(self).proof_s().subrange(
                old(self).rd_s(),
                old(self).rd_s() + n,
            ) && b@.len() == n && final(self).state_s() == absorb_next_s(old(self).state_s(), b@)
                && final(self).pos_s() == old(self).pos_s() + 1 && final(self).rd_s() == old(self).rd_s() + n
                && final(self).sched_s() == old(self).sched_s() && final(self).proof_s() == old(self).proof_s(),
            r is Err ==> *final(self) == *old(self),
            r matches Err(e) ==> e == ProofError::SerializationError,
    {
        if self.pos >= self.sched.len() {
            return Err(ProofError::SerializationError);
        }
        let ok = match self.sched[self.pos] {
            Op::Absorb(m) => m == n as u64,
            _ => false,
        };
        if !ok {
            return Err(ProofError::SerializationError);
        }
        if self.rd > self.proof.len() || n > self.proof.len() - self.rd {
            return Err(ProofError::SerializationError);
        }
        let mut b: Vec<u8> = Vec::new();
        let mut i: usize = 0;
        while i < n
            invariant
                i <= n,
                self.proof@.len() <= usize::MAX,
                self.rd + n <= self.proof@.len(),
                b@ == self.proof@.subrange(self.rd as int, self.rd as int + i),
                self == old(self),
            decreases n - i,
        {
            b.push(self.proof[self.rd + i]);
            proof {
                assert(self.proof@.subrange(self.rd as int, self.rd as int + i + 1) =~= self.proof@
                    .subrange(self.rd as int, self.rd as int + i).push(
                    self.proof@[self.rd + i],
                ));
            }
            i = i + 1;
        }
        self.state = sponge_step(&self.state, ABSORB_TAG, &b);
        self.pos = self.pos + 1;
        self.rd = self.rd + n;
        Ok(b)
    }

    /// Squeezes `n` challenge bytes exactly as the prover does.
    pub fn challenge_bytes(&mut self, n: usize) -> (r: Result<Vec<u8>, ProofError>)
        ensures
            r is Ok <==> (old(self).pos_s() < old(self).sched_s().len() && old(self).sched_s()[old(self).pos_s()] == Op::Squeeze(n as u64) && n <= 32),
            r matches Ok(c) ==> c@ == squeeze_bytes_s(old(self).state_s(), n as nat) && c@.len()
                == n && final(self).state_s() == squeeze_next_s(old(self).state_s()) && final(self).pos_s() == old(self).pos_s() + 1 && final(self).sched_s() == old(self).sched_s()
                && final(self).proof_s() == old(self).proof_s() && final(self).rd_s() == old(self).rd_s(),
            r is Err ==> *final(self) == *old(self),
            r matches Err(e) ==> e == ProofError::SerializationError,
    {
        if self.pos >= self.sched.len() || n > 32 {
            return Err(ProofError::SerializationError);
        }
        let ok = match self.sched[self.pos] {
            Op::Squeeze(m) => m == n as u64,
            _ => false,
        };
        if !ok {
            return Err(ProofError::SerializationError);
        }
        let empty: Vec<u8> = Vec::new();
        let block = sponge_step(&self.state, SQUEEZE_TAG, &empty);
        let mut c: Vec<u8> = Vec::new();
        let mut i: usize = 0;
        while i < n
            invariant
                i <= n,
                n <= 32,
                block@.len() == 32,
                block@ == sponge_next(old(self).state_s(), SQUEEZE_TAG, Seq::<u8>::empty()),
                c@ == block@.take(i as int),
                self == old(self),
            decreases n - i,
        {
            c.push(block[i]);
            proof {
                assert(block@.take(i + 1) =~= block@.take(i as int).push(block@[i as int]));
            }
            i = i + 1;
        }
        self.state = sponge_step(&self.state, STEP_TAG, &empty);
        self.pos = self.pos + 1;
        Ok(c)
    }

    /// Ratchets the sponge exactly as the prover does.
    pub fn ratchet(&mut self) -> (r: Result<(), ProofError>)
        ensures
            r is Ok <==> (old(self).pos_s() < old(self).sched_s().len() && old(self).sched_s()[old(self).pos_s()] == Op::Ratchet),
            r is Ok ==> final(self).state_s() == ratchet_next_s(old(self).state_s()) && final(self).pos_s() == old(self).pos_s() + 1 && final(self).sched_s() == old(self).sched_s()
                && final(self).proof_s() == old(self).proof_s() && final(self).rd_s() == old(self).rd_s(),
            r is Err ==> *final(self) == *old(self),
            r matches Err(e) ==> e == ProofError::SerializationError,
    {
        if self.pos >= self.sched.len() {
            return Err(ProofError::SerializationError);
        }
        let ok = match self.sched[self.pos] {
            Op::Ratchet => true,
            _ => false,
        };
        if !ok {
            return Err(ProofError::SerializationError);
        }
        let empty: Vec<u8> = Vec::new();
        self.state = sponge_step(&self.state, RATCHET_TAG, &empty);
        self.pos = self.pos + 1;
        Ok(())
    }
}

} // verus!
