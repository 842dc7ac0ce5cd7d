//! The low-degree proximity proof: prover and verifier.
//!
//! A protocol instance is a round count, a blowup rate and per-round query
//! counts. Both parties derive the same transcript schedule from the
//! instance, so differing instances part ways before any value is checked.

use vstd::prelude::*;
use vstd::arithmetic::power::*;
use vstd::arithmetic::power2::*;
use vstd::arithmetic::div_mod::*;
use vstd::arithmetic::mul::*;

use crate::ProofError;
use crate::fields::FIELD_MODULUS;
use crate::fields::in_field;
use crate::fields::felt_add;
use crate::fields::felt_sub;
use crate::fields::felt_mul;
use crate::fields::felt_pow;
use crate::fields::from_be_bytes_mod_order;
use crate::fields::to_be_bytes;
use crate::fields::u64_be_spec;
use crate::fields::be_val;
use crate::fields::root_of_unity;
use crate::fields::lemma_pow2_unique;
use crate::fields::INV_TWO;
use crate::merkletree::MerkleTree;
use crate::merkletree::bytes_eq;
use crate::merkletree::keccak_of;
use crate::merkletree::felt_leaf_digest;
use crate::merkletree::merkle_root_of;
use crate::merkletree::concat_digests;
use crate::merkletree::path_digests_s;
use crate::merkletree::chunks32;
use crate::merkletree::climb_s;
use crate::merkletree::table_digests;
use crate::merkletree::lemma_levels_determined;
use crate::merkletree::lemma_tree_height;
use crate::merkletree::bytes_to_path;
use crate::merkletree::path_to_bytes;
use crate::merkletree::check_path;
use crate::polynomial::PolynomialCoefficient;
use crate::polynomial::PolynomialPoints;
use crate::polynomial::smooth_int;
use crate::polynomial::eval_int;
use crate::polynomial::omega_of;
use crate::polynomial::all_in_field;
use crate::polynomial::fold_point_s;
use crate::polynomial::lemma_fold_point;
use crate::commitable::Commited;
use crate::commitable::commited_wf;
use crate::transcript::Op;
use crate::transcript::DomainSeparator;
use crate::transcript::absorb_total;
use crate::transcript::absorb_next_s;
use crate::transcript::squeeze_bytes_s;
use crate::transcript::squeeze_next_s;
use crate::transcript::ratchet_next_s;
use crate::transcript::lemma_absorb_total_step;
use crate::transcript::lemma_absorb_total_mono;

verus! {

/// A protocol instance: one query count per folding round, and the blowup
/// rate of the evaluation domain.
pub struct FRIProtocol {
    /// Per-round query counts; the length is the number of folding rounds.
    pub queries: Vec<u32>,
    /// Blowup: the ratio of domain size to coefficient count.
    pub rate: u64,
}

/// The transcript operations of one query: a squeezed index, then value
/// and opening path for the point, its antipode, and the folded point one
/// level up, whose path is one digest shorter.
pub open spec fn query_ops_s(l: int) -> Seq<Op> {
    seq![
        Op::Squeeze(2),
        Op::Absorb(8),
        Op::Absorb((32 * l) as u64),
        Op::Absorb(8),
        Op::Absorb((32 * l) as u64),
        Op::Absorb(8),
        Op::Absorb((32 * (l - 1)) as u64),
    ]
}

/// The operations of `q` queries at path length `l`.
pub open spec fn queries_block_s(l: int, q: int) -> Seq<Op>
    decreases q,
{
    if q <= 0 {
        Seq::empty()
    } else {
        queries_block_s(l, q - 1) + query_ops_s(l)
    }
}

/// The operations of rounds i..d: each squeezes the folding challenge,
/// absorbs the fold commitment and runs its queries.
pub open spec fn rounds_ops_s(d: int, logr: int, queries: Seq<u32>, i: int) -> Seq<Op>
    decreases d - i,
{
    if i >= d {
        Seq::empty()
    } else {
        seq![Op::Squeeze(8), Op::Absorb(32)] + queries_block_s((d - i) + logr, queries[i] as int)
            + rounds_ops_s(d, logr, queries, i + 1)
    }
}

/// The whole schedule: the public commitment and a ratchet, then the
/// rounds.
pub open spec fn fri_ops_s(d: int, logr: int, queries: Seq<u32>) -> Seq<Op> {
    seq![Op::Absorb(32), Op::Ratchet] + rounds_ops_s(d, logr, queries, 0)
}

/// The domain-separation label: a fixed prefix and the exact protocol
/// shape, so that two instances agree on a label only when they agree on
/// every parameter.
pub open spec fn fri_label_s(d: int, rate: u64, queries: Seq<u32>) -> Seq<u8>
    decreases queries.len(),
{
    if queries.len() == 0 {
        seq![70u8, 82u8, 73u8] + crate::fields::u64_be_spec(d as u64)
            + crate::fields::u64_be_spec(rate)
    } else {
        fri_label_s(d, rate, queries.drop_last()) + crate::fields::u64_be_spec(
            queries.last() as u64,
        )
    }
}

/// Totals add over schedule concatenation.
pub proof fn lemma_absorb_total_concat(a: Seq<Op>, b: Seq<Op>)
    ensures
        absorb_total(a + b) == absorb_total(a) + absorb_total(b),
    decreases b.len(),
{
    if b.len() == 0 {
        assert(a + b =~= a);
    } else {
        lemma_absorb_total_concat(a, b.drop_last());
        assert((a + b).drop_last() =~= a + b.drop_last());
        assert((a + b).last() == b.last());
    }
}

/// The absorb total of one query block.
pub proof fn lemma_query_ops_total(l: int)
    requires
        1 <= l <= 52,
    ensures
        absorb_total(query_ops_s(l)) == 96 * l - 8,
{
    reveal_with_fuel(absorb_total, 9);
    assert(0 <= 32 * l <= u64::MAX);
    assert(0 <= 32 * (l - 1) <= u64::MAX);
    let q = query_ops_s(l);
    assert(q.drop_last() =~= seq![
        Op::Squeeze(2),
        Op::Absorb(8),
        Op::Absorb((32 * l) as u64),
        Op::Absorb(8),
        Op::Absorb((32 * l) as u64),
        Op::Absorb(8),
    ]);
    let q6 = q.drop_last();
    assert(q6.drop_last() =~= seq![
        Op::Squeeze(2),
        Op::Absorb(8),
        Op::Absorb((32 * l) as u64),
        Op::Absorb(8),
        Op::Absorb((32 * l) as u64),
    ]);
    let q5 = q6.drop_last();
    assert(q5.drop_last() =~= seq![
        Op::Squeeze(2),
        Op::Absorb(8),
        Op::Absorb((32 * l) as u64),
        Op::Absorb(8),
    ]);
    let q4 = q5.drop_last();
    assert(q4.drop_last() =~= seq![Op::Squeeze(2), Op::Absorb(8), Op::Absorb((32 * l) as u64)]);
    let q3 = q4.drop_last();
    assert(q3.drop_last() =~= seq![Op::Squeeze(2), Op::Absorb(8)]);
    let q2 = q3.drop_last();
    assert(q2.drop_last() =~= seq![Op::Squeeze(2)]);
    let q1 = q2.drop_last();
    assert(q1.drop_last() =~= Seq::<Op>::empty());
}

/// The absorb total of `q` query blocks.
pub proof fn lemma_block_total(l: int, q: int)
    requires
        1 <= l <= 52,
        q >= 0,
    ensures
        absorb_total(queries_block_s(l, q)) == q * (96 * l - 8),
    decreases q,
{
    if q == 0 {
        assert(queries_block_s(l, 0) =~= Seq::<Op>::empty());
    } else {
        lemma_block_total(l, q - 1);
        lemma_absorb_total_concat(queries_block_s(l, q - 1), query_ops_s(l));
        lemma_query_ops_total(l);
        assert(q * (96 * l - 8) == (q - 1) * (96 * l - 8) + (96 * l - 8)) by (nonlinear_arith);
    }
}

/// A bound on the absorb total of the remaining rounds.
pub proof fn lemma_rounds_total_bound(d: int, logr: int, queries: Seq<u32>, i: int)
    requires
        0 <= i <= d,
        d == queries.len(),
        d <= 32,
        0 <= logr <= 20,
        forall|j: int| 0 <= j < queries.len() ==> 1 <= #[trigger] queries[j] <= 1024,
    ensures
        0 <= absorb_total(rounds_ops_s(d, logr, queries, i)) <= (d - i) * 6000000,
    decreases d - i,
{
    if i < d {
        lemma_rounds_total_bound(d, logr, queries, i + 1);
        let l = (d - i) + logr;
        let qi = queries[i] as int;
        lemma_block_total(l, qi);
        lemma_absorb_total_concat(
            seq![Op::Squeeze(8), Op::Absorb(32)] + queries_block_s(l, qi),
            rounds_ops_s(d, logr, queries, i + 1),
        );
        lemma_absorb_total_concat(seq![Op::Squeeze(8), Op::Absorb(32)], queries_block_s(l, qi));
        assert(absorb_total(seq![Op::Squeeze(8), Op::Absorb(32)]) == 32) by {
            reveal_with_fuel(absorb_total, 4);
            let s = seq![Op::Squeeze(8), Op::Absorb(32)];
            assert(s.drop_last() =~= seq![Op::Squeeze(8)]);
            assert(s.drop_last().drop_last() =~= Seq::<Op>::empty());
        }
        assert(qi * (96 * l - 8) <= 1024 * (96 * 52 - 8)) by (nonlinear_arith)
            requires
                1 <= qi <= 1024,
                1 <= l <= 52,
        ;
        assert(qi * (96 * l - 8) >= 0) by (nonlinear_arith)
            requires
                1 <= qi,
                1 <= l,
        ;
        assert((d - i) * 6000000 == (d - i - 1) * 6000000 + 6000000) by (nonlinear_arith);
    }
}

/// The absorb total of the whole schedule is bounded well inside any
/// machine word.
pub proof fn lemma_fri_total_bound(d: int, logr: int, queries: Seq<u32>)
    requires
        1 <= d <= 32,
        d == queries.len(),
        0 <= logr <= 20,
        forall|j: int| 0 <= j < queries.len() ==> 1 <= #[trigger] queries[j] <= 1024,
    ensures
        32 <= absorb_total(fri_ops_s(d, logr, queries)) <= 0x20000000,
{
    lemma_rounds_total_bound(d, logr, queries, 0);
    lemma_absorb_total_concat(
        seq![Op::Absorb(32), Op::Ratchet],
        rounds_ops_s(d, logr, queries, 0),
    );
    assert(absorb_total(seq![Op::Absorb(32), Op::Ratchet]) == 32) by {
        reveal_with_fuel(absorb_total, 4);
        let s = seq![Op::Absorb(32), Op::Ratchet];
        assert(s.drop_last() =~= seq![Op::Absorb(32)]);
        assert(s.drop_last().drop_last() =~= Seq::<Op>::empty());
    }
    assert(32 * 6000000 == 192000000);
}

impl FRIProtocol {
    /// Number of folding rounds.
    pub open spec fn d(&self) -> int {
        self.queries@.len() as int
    }

    /// The log of the rate, defined when the rate is a power of two.
    pub open spec fn logr(&self) -> nat {
        choose|k: nat| self.rate as int == pow2(k)
    }

    /// A workable instance: at least one round, a power-of-two rate of at
    /// least two, positive bounded query counts, and a starting domain
    /// that fits in memory.
    pub open spec fn cfg_ok(&self) -> bool {
        &&& 1 <= self.queries@.len() <= 32
        &&& 2 <= self.rate <= 0x100000
        &&& smooth_int(self.rate as int)
        &&& forall|i: int| 0 <= i < self.queries@.len() ==> 1 <= #[trigger] self.queries@[i] <= 1024
        &&& pow2(self.queries@.len() as nat) * self.rate as int <= 0x80000000
    }

    /// The schedule of this instance.
    pub open spec fn sched_s(&self) -> Seq<Op> {
        fri_ops_s(self.d(), self.logr() as int, self.queries@)
    }

    /// Builds an instance.
    pub fn new(queries: Vec<u32>, rate: u64) -> (r: FRIProtocol)
        ensures
            r.queries@ == queries@,
            r.rate == rate,
    {
        FRIProtocol { queries, rate }
    }

    /// Checks the instance parameters.
    pub fn check_config(&self) -> (r: bool)
        ensures
            r == self.cfg_ok(),
    {
        let d = self.queries.len();
        if d < 1 || d > 32 {
            return false;
        }
        if self.rate < 2 || self.rate > 0x100000 {
            return false;
        }
        // find the exponent of the rate
        let mut k: u64 = 0;
        let mut s: u64 = 1;
        proof {
            lemma2_to64();
        }
        while s < self.rate && k < 20
            invariant
                k <= 20,
                1 <= s <= 0x100000,
                s as int == pow2(k as nat),
                forall|j: nat| j < k ==> pow2(j) < self.rate,
            decreases 20 - k,
        {
            proof {
                lemma_pow2_adds(k as nat, 1);
                lemma2_to64();
                assert forall|j: nat| j < k + 1 implies pow2(j) < self.rate by {
                    if j == k {
                    } else {
                        assert(pow2(j) < self.rate);
                    }
                }
            }
            s = s * 2;
            k = k + 1;
        }
        if s != self.rate {
            proof {
                assert(!smooth_int(self.rate as int)) by {
                    assert forall|j: nat| j <= 32 implies pow2(j) != self.rate as int by {
                        if j >= k {
                            if j > k {
                                lemma_pow2_strictly_increases(k as nat, j);
                            }
                        }
                    }
                }
            }
            return false;
        }
        let mut i: usize = 0;
        while i < self.queries.len()
            invariant
                i <= self.queries@.len(),
                forall|j: int| 0 <= j < i ==> 1 <= #[trigger] self.queries@[j] <= 1024,
            decreases self.queries@.len() - i,
        {
            let q = self.queries[i];
            if q < 1 || q > 1024 {
                return false;
            }
            i = i + 1;
        }
        // the starting domain 2^d * rate must fit
        let mut nd: u64 = 1;
        let mut j: usize = 0;
        proof {
            lemma2_to64();
        }
        while j < d
            invariant
                j <= d,
                d <= 32,
                nd as int == pow2(j as nat),
                nd <= 0x100000000,
            decreases d - j,
        {
            proof {
                lemma_pow2_adds(j as nat, 1);
                lemma2_to64();
                lemma_pow2_strictly_increases(j as nat, 33);
                assert(pow2(33) == 0x200000000) by {
                    lemma2_to64_rest();
                }
            }
            nd = nd * 2;
            j = j + 1;
        }
        proof {
            assert(nd as int * self.rate as int <= 0x100000000int * 0x100000int && nd as int
                * self.rate as int >= 0) by (nonlinear_arith)
                requires
                    0 <= nd <= 0x100000000u64,
                    0 <= self.rate <= 0x100000u64,
            ;
        }
        let total: u128 = (nd as u128) * (self.rate as u128);
        if total > 0x80000000u128 {
            return false;
        }
        true
    }

    /// The exponent of the rate.
    fn log_rate(&self) -> (r: u64)
        requires
            self.cfg_ok(),
        ensures
            r as nat == self.logr(),
            r <= 20,
            self.rate as int == pow2(r as nat),
    {
        let mut k: u64 = 0;
        let mut s: u64 = 1;
        proof {
            lemma2_to64();
        }
        while s < self.rate && k < 20
            invariant
                k <= 20,
                1 <= s <= 0x100000,
                s as int == pow2(k as nat),
                forall|j: nat| j < k ==> pow2(j) < self.rate,
            decreases 20 - k,
        {
            proof {
                lemma_pow2_adds(k as nat, 1);
                lemma2_to64();
                assert forall|j: nat| j < k + 1 implies pow2(j) < self.rate by {
                    if j == k {
                    } else {
                        assert(pow2(j) < self.rate);
                    }
                }
            }
            s = s * 2;
            k = k + 1;
        }
        proof {
            let kk = choose|kk: nat| self.rate as int == pow2(kk);
            assert(kk <= 20) by {
                lemma2_to64();
                if kk > 20 {
                    lemma_pow2_strictly_increases(20, kk);
                }
            }
            if s > self.rate {
                // the rate's exponent was passed, contradicting the scan
                assert(kk < k as nat) by {
                    if kk >= k as nat {
                        if kk > k as nat {
                            lemma_pow2_strictly_increases(k as nat, kk);
                        }
                    }
                }
                assert(pow2(kk) < self.rate);
                assert(false);
            }
            if s < self.rate {
                // only possible once the scan hit its cap
                assert(k == 20);
                assert(kk <= 20 && pow2(kk) == self.rate as int);
                if kk < 20 {
                    assert(pow2(kk) < self.rate);
                }
                assert(false);
            }
            lemma_pow2_unique(kk, k as nat);
        }
        k
    }

    /// Builds the domain separator of this instance: label, statement and
    /// round schedule.
    pub fn new_pp_proof(&self) -> (ds: DomainSeparator)
        requires
            self.cfg_ok(),
        ensures
            ds.label_s() == fri_label_s(self.d(), self.rate, self.queries@),
            ds.ops_s() == self.sched_s(),
    {
        let label = self.build_label();
        let ds = DomainSeparator::new_domain_separator(label);
        let ds = self.add_pp_statement(ds);
        self.add_pp_domsep(ds)
    }

    /// The label bytes of this instance.
    fn build_label(&self) -> (r: Vec<u8>)
        ensures
            r@ == fri_label_s(self.d(), self.rate, self.queries@),
    {
        let mut out: Vec<u8> = Vec::new();
        out.push(70u8);
        out.push(82u8);
        out.push(73u8);
        proof {
            assert(out@ =~= seq![70u8, 82u8, 73u8]);
        }
        let db = to_be_bytes(self.queries.len() as u64);
        let mut i: usize = 0;
        crate::merkletree::extend_bytes(&mut out, &db);
        let rb = to_be_bytes(self.rate);
        crate::merkletree::extend_bytes(&mut out, &rb);
        proof {
            assert(out@ =~= fri_label_s(self.d(), self.rate, self.queries@.take(0)));
        }
        while i < self.queries.len()
            invariant
                i <= self.queries@.len(),
                out@ == fri_label_s(self.d(), self.rate, self.queries@.take(i as int)),
            decreases self.queries@.len() - i,
        {
            let qb = to_be_bytes(self.queries[i] as u64);
            crate::merkletree::extend_bytes(&mut out, &qb);
            proof {
                assert(self.queries@.take(i + 1).drop_last() =~= self.queries@.take(i as int));
                assert(self.queries@.take(i + 1).last() == self.queries@[i as int]);
            }
            i = i + 1;
        }
        proof {
            assert(self.queries@.take(self.queries@.len() as int) =~= self.queries@);
        }
        out
    }

    /// Adds the statement: the public commitment, then a ratchet.
    pub fn add_pp_statement(&self, ds: DomainSeparator) -> (r: DomainSeparator)
        ensures
            r.label_s() == ds.label_s(),
            r.ops_s() == ds.ops_s() + seq![Op::Absorb(32), Op::Ratchet],
    {
        let r = ds.add_bytes(32).ratchet();
        proof {
            assert(r.ops_s() =~= ds.ops_s() + seq![Op::Absorb(32), Op::Ratchet]);
        }
        r
    }

    /// Adds the round schedule.
    pub fn add_pp_domsep(&self, ds: DomainSeparator) -> (r: DomainSeparator)
        requires
            self.cfg_ok(),
        ensures
            r.label_s() == ds.label_s(),
            r.ops_s() == ds.ops_s() + rounds_ops_s(self.d(), self.logr() as int, self.queries@, 0),
    {
        let d = self.queries.len();
        let logr = self.log_rate();
        let ghost base = ds.ops_s();
        let ghost label0 = ds.label_s();
        let mut ds = ds;
        let mut i: usize = 0;
        while i < d
            invariant
                i <= d,
                d == self.queries@.len(),
                self.cfg_ok(),
                logr as nat == self.logr(),
                logr <= 20,
                ds.label_s() == label0,
                base + rounds_ops_s(d as int, logr as int, self.queries@, 0) == ds.ops_s()
                    + rounds_ops_s(d as int, logr as int, self.queries@, i as int),
            decreases d - i,
        {
            let l: u64 = (d - i) as u64 + logr;
            let ghost pre_round = ds.ops_s();
            ds = ds.challenge_bytes(8);
            ds = ds.add_bytes(32);
            proof {
                assert(ds.ops_s() =~= pre_round + seq![Op::Squeeze(8), Op::Absorb(32)]);
            }
            let ghost base_q = ds.ops_s();
            let qn = self.queries[i];
            let mut q: u32 = 0;
            while q < qn
                invariant
                    q <= qn,
                    1 <= l <= 52,
                    ds.label_s() == label0,
                    ds.ops_s() == base_q + queries_block_s(l as int, q as int),
                decreases qn - q,
            {
                let ghost pre_q = ds.ops_s();
                ds = ds.challenge_bytes(2);
                ds = ds.add_bytes(8);
                ds = ds.add_bytes(32 * l);
                ds = ds.add_bytes(8);
                ds = ds.add_bytes(32 * l);
                ds = ds.add_bytes(8);
                ds = ds.add_bytes(32 * (l - 1));
                proof {
                    assert(ds.ops_s() =~= pre_q + query_ops_s(l as int));
                    assert(queries_block_s(l as int, q as int + 1) == queries_block_s(
                        l as int,
                        q as int,
                    ) + query_ops_s(l as int));
                    assert(ds.ops_s() =~= base_q + queries_block_s(l as int, q as int + 1));
                }
                q = q + 1;
            }
            proof {
                // one whole round appended
                assert(rounds_ops_s(d as int, logr as int, self.queries@, i as int) == seq![
                    Op::Squeeze(8),
                    Op::Absorb(32),
                ] + queries_block_s(l as int, qn as int) + rounds_ops_s(
                    d as int,
                    logr as int,
                    self.queries@,
                    i as int + 1,
                ));
                assert(base + rounds_ops_s(d as int, logr as int, self.queries@, 0) =~= ds.ops_s()
                    + rounds_ops_s(d as int, logr as int, self.queries@, i as int + 1));
            }
            i = i + 1;
        }
        proof {
            assert(rounds_ops_s(d as int, logr as int, self.queries@, d as int)
                =~= Seq::<Op>::empty());
            assert(ds.ops_s() + Seq::<Op>::empty() =~= ds.ops_s());
        }
        ds
    }
}



/// The table of values of a coefficient vector on the domain of size `n`.
#[verifier::opaque]
pub open spec fn evals0_s(c: Seq<u64>, n: int) -> Seq<u64> {
    Seq::new(
        n as nat,
        |i: int| (eval_int(c, pow(omega_of(n), i as nat)) % (FIELD_MODULUS as int)) as u64,
    )
}

/// The folded table under a challenge.
#[verifier::opaque]
pub open spec fn fold_evals_s(ev: Seq<u64>, alpha: u64) -> Seq<u64> {
    Seq::new(
        (ev.len() / 2) as nat,
        |i: int| fold_point_s(
            ev[i],
            ev[i + ev.len() / 2],
            omega_of(ev.len() as int),
            i as nat,
            ev.len() as nat,
            alpha,
        ) as u64,
    )
}

/// The folding challenge squeezed from a sponge state.
pub open spec fn alpha_of(st: Seq<u8>) -> u64 {
    (be_val(squeeze_bytes_s(st, 8)) % (FIELD_MODULUS as int)) as u64
}

/// The point index squeezed from a sponge state, for a domain of size `n`.
pub open spec fn qindex_of(st: Seq<u8>, n: int) -> int {
    be_val(squeeze_bytes_s(st, 2)) % n
}

/// The bytes one query appends to the proof: the opened value and path at
/// the squeezed index, at its antipode, and at the folded point one level
/// up, whose path is one digest shorter.
#[verifier::opaque]
pub open spec fn query_out_s(st: Seq<u8>, ev: Seq<u64>, fv: Seq<u64>, h: int) -> Seq<u8> {
    let j0 = qindex_of(st, ev.len() as int);
    let half = ev.len() as int / 2;
    let j1 = if j0 < half {
        j0 + half
    } else {
        j0 - half
    };
    let jf = if j0 < half {
        j0
    } else {
        j0 - half
    };
    u64_be_spec(ev[j0]) + concat_digests(path_digests_s(table_digests(ev), j0, h)) + u64_be_spec(
        ev[j1],
    ) + concat_digests(path_digests_s(table_digests(ev), j1, h)) + u64_be_spec(fv[jf])
        + concat_digests(path_digests_s(table_digests(fv), jf, h - 1))
}

/// The sponge state after one query: the squeeze step and six absorptions.
#[verifier::opaque]
pub open spec fn query_st_s(st: Seq<u8>, ev: Seq<u64>, fv: Seq<u64>, h: int) -> Seq<u8> {
    let j0 = qindex_of(st, ev.len() as int);
    let half = ev.len() as int / 2;
    let j1 = if j0 < half {
        j0 + half
    } else {
        j0 - half
    };
    let jf = if j0 < half {
        j0
    } else {
        j0 - half
    };
    let s1 = squeeze_next_s(st);
    let s2 = absorb_next_s(s1, u64_be_spec(ev[j0]));
    let s3 = absorb_next_s(s2, concat_digests(path_digests_s(table_digests(ev), j0, h)));
    let s4 = absorb_next_s(s3, u64_be_spec(ev[j1]));
    let s5 = absorb_next_s(s4, concat_digests(path_digests_s(table_digests(ev), j1, h)));
    let s6 = absorb_next_s(s5, u64_be_spec(fv[jf]));
    absorb_next_s(s6, concat_digests(path_digests_s(table_digests(fv), jf, h - 1)))
}

/// Sponge state and proof bytes after the first `q` queries of a round.
#[verifier::opaque]
pub open spec fn queries_stout_s(
    st: Seq<u8>,
    out: Seq<u8>,
    ev: Seq<u64>,
    fv: Seq<u64>,
    h: int,
    q: nat,
) -> (Seq<u8>, Seq<u8>)
    decreases q,
{
    if q == 0 {
        (st, out)
    } else {
        let prev = queries_stout_s(st, out, ev, fv, h, (q - 1) as nat);
        (query_st_s(prev.0, ev, fv, h), prev.1 + query_out_s(prev.0, ev, fv, h))
    }
}

/// Sponge state, proof bytes and current table after one round: the
/// folding challenge, the fold, its commitment and the queries.
#[verifier::opaque]
pub open spec fn round_stout_s(st: Seq<u8>, out: Seq<u8>, ev: Seq<u64>, h: int, q: nat) -> (
    Seq<u8>,
    Seq<u8>,
    Seq<u64>,
) {
    let alpha = alpha_of(st);
    let s1 = squeeze_next_s(st);
    let fv = fold_evals_s(ev, alpha);
    let rt = merkle_root_of(fv);
    let s2 = absorb_next_s(s1, rt);
    let o2 = out + rt;
    let so = queries_stout_s(s2, o2, ev, fv, h, q);
    (so.0, so.1, fv)
}

/// Sponge state, proof bytes and table after rounds i..d.
#[verifier::opaque]
pub open spec fn rounds_stout_s(
    st: Seq<u8>,
    out: Seq<u8>,
    ev: Seq<u64>,
    d: int,
    logr: int,
    queries: Seq<u32>,
    i: int,
) -> (Seq<u8>, Seq<u8>, Seq<u64>)
    decreases d - i,
{
    if i >= d {
        (st, out, ev)
    } else {
        let r = round_stout_s(st, out, ev, (d - i) + logr, queries[i] as nat);
        rounds_stout_s(r.0, r.1, r.2, d, logr, queries, i + 1)
    }
}

/// The coefficient vector the prover pads out to the full length.
pub open spec fn padded_coeffs_s(c: Seq<u64>, degree: int, n: int) -> Seq<u64> {
    Seq::new(
        n as nat,
        |i: int| if i <= degree {
            c[i]
        } else {
            0u64
        },
    )
}

/// The exact bytes the prover emits: the transform's commitment, then the
/// rounds driven by the deterministic sponge. Every prover run over the
/// same instance and polynomial produces exactly this string.
#[verifier::opaque]
pub open spec fn prove_bytes_s(d: int, logr: int, rate: u64, queries: Seq<u32>, c: Seq<u64>) -> Seq<
    u8,
> {
    let n0 = pow2(d as nat) as int * rate as int;
    let ev0 = evals0_s(c, n0);
    let rt0 = merkle_root_of(ev0);
    let st0 = keccak_of(fri_label_s(d, rate, queries));
    let st1 = absorb_next_s(st0, rt0);
    let st2 = ratchet_next_s(st1);
    rounds_stout_s(st2, rt0, ev0, d, logr, queries, 0).1
}


/// One verifier query over the mirror state: the squeezed index, the
/// three openings read from the buffer and checked against the running
/// commitments, and the fold equation. An opened value whose eight bytes
/// are not a canonical field encoding is a serialization failure; a
/// failed path or fold equation is an invalid proof.
#[verifier::opaque]
pub open spec fn vquery_s(
    st: Seq<u8>,
    rd: int,
    proof: Seq<u8>,
    com: Seq<u8>,
    ncom: Seq<u8>,
    ni: int,
    hh: int,
    alpha: u64,
    pw: int,
    n0: int,
) -> Result<(Seq<u8>, int, u64), ProofError> {
    let j0 = qindex_of(st, ni);
    let half = ni / 2;
    let j1 = if j0 < half {
        j0 + half
    } else {
        j0 - half
    };
    let jf = if j0 < half {
        j0
    } else {
        j0 - half
    };
    let s1 = squeeze_next_s(st);
    let l0b = proof.subrange(rd, rd + 8);
    let s2 = absorb_next_s(s1, l0b);
    if be_val(l0b) >= FIELD_MODULUS {
        Err(ProofError::SerializationError)
    } else {
        let leaf0 = be_val(l0b) as u64;
        let p0b = proof.subrange(rd + 8, rd + 8 + 32 * hh);
        let s3 = absorb_next_s(s2, p0b);
        if climb_s(felt_leaf_digest(leaf0), j0 as nat, chunks32(p0b)) != com {
            Err(ProofError::InvalidProof)
        } else {
            let rd1 = rd + 8 + 32 * hh;
            let l1b = proof.subrange(rd1, rd1 + 8);
            let s4 = absorb_next_s(s3, l1b);
            if be_val(l1b) >= FIELD_MODULUS {
                Err(ProofError::SerializationError)
            } else {
                let leaf1 = be_val(l1b) as u64;
                let p1b = proof.subrange(rd1 + 8, rd1 + 8 + 32 * hh);
                let s5 = absorb_next_s(s4, p1b);
                if climb_s(felt_leaf_digest(leaf1), j1 as nat, chunks32(p1b)) != com {
                    Err(ProofError::InvalidProof)
                } else {
                    let rd2 = rd1 + 8 + 32 * hh;
                    let fvb = proof.subrange(rd2, rd2 + 8);
                    let s6 = absorb_next_s(s5, fvb);
                    if be_val(fvb) >= FIELD_MODULUS {
                        Err(ProofError::SerializationError)
                    } else {
                        let fv = be_val(fvb) as u64;
                        let pfb = proof.subrange(rd2 + 8, rd2 + 8 + 32 * (hh - 1));
                        let s7 = absorb_next_s(s6, pfb);
                        if climb_s(felt_leaf_digest(fv), jf as nat, chunks32(pfb)) != ncom {
                            Err(ProofError::InvalidProof)
                        } else {
                            if fv as int != fold_point_s(
                                leaf0,
                                leaf1,
                                omega_of(n0),
                                (j0 * pw) as nat,
                                n0 as nat,
                                alpha,
                            ) {
                                Err(ProofError::InvalidProof)
                            } else {
                                Ok((s7, rd2 + 8 + 32 * (hh - 1), fv))
                            }
                        }
                    }
                }
            }
        }
    }
}

/// The first `q` queries of one verifier round; the fold value is
/// threaded through, so with no queries it stays what it was.
#[verifier::opaque]
pub open spec fn vqueries_s(
    st: Seq<u8>,
    rd: int,
    proof: Seq<u8>,
    com: Seq<u8>,
    ncom: Seq<u8>,
    ni: int,
    hh: int,
    alpha: u64,
    pw: int,
    n0: int,
    fv0: u64,
    q: nat,
) -> Result<(Seq<u8>, int, u64), ProofError>
    decreases q,
{
    if q == 0 {
        Ok((st, rd, fv0))
    } else {
        match vqueries_s(st, rd, proof, com, ncom, ni, hh, alpha, pw, n0, fv0, (q - 1) as nat) {
            Result::Err(e) => Result::Err(e),
            Result::Ok(prev) => vquery_s(
                prev.0,
                prev.1,
                proof,
                com,
                ncom,
                ni,
                hh,
                alpha,
                pw,
                n0,
            ),
        }
    }
}

/// One verifier round: the folding challenge, the next commitment read
/// from the buffer, and the round's queries.
#[verifier::opaque]
pub open spec fn vround_s(
    st: Seq<u8>,
    rd: int,
    proof: Seq<u8>,
    com: Seq<u8>,
    ni: int,
    hh: int,
    pw: int,
    n0: int,
    q: nat,
    fv0: u64,
) -> Result<(Seq<u8>, int, Seq<u8>, u64), ProofError> {
    let alpha = alpha_of(st);
    let s1 = squeeze_next_s(st);
    let ncom = proof.subrange(rd, rd + 32);
    let s2 = absorb_next_s(s1, ncom);
    match vqueries_s(s2, rd + 32, proof, com, ncom, ni, hh, alpha, pw, n0, fv0, q) {
        Result::Err(e) => Result::Err(e),
        Result::Ok(nx) => Result::Ok((nx.0, nx.1, ncom, nx.2)),
    }
}

/// Verifier rounds i..d over the mirror state.
#[verifier::opaque]
pub open spec fn vrounds_s(
    st: Seq<u8>,
    rd: int,
    com: Seq<u8>,
    fv: u64,
    proof: Seq<u8>,
    d: int,
    logr: int,
    rate: u64,
    queries: Seq<u32>,
    n0: int,
    i: int,
) -> Result<(Seq<u8>, int, Seq<u8>, u64), ProofError>
    decreases d - i,
{
    if i >= d {
        Ok((st, rd, com, fv))
    } else {
        let ni = pow2((d - i) as nat) as int * rate as int;
        let hh = (d - i) + logr;
        let pw = pow2(i as nat) as int;
        match vround_s(st, rd, proof, com, ni, hh, pw, n0, queries[i] as nat, fv) {
            Result::Err(e) => Result::Err(e),
            Result::Ok(nx) => vrounds_s(
                nx.0,
                nx.1,
                nx.2,
                nx.3,
                proof,
                d,
                logr,
                rate,
                queries,
                n0,
                i + 1,
            ),
        }
    }
}

/// The whole verifier decision on a proof buffer, error kinds included:
/// a buffer of the wrong length is a serialization failure; a statement
/// that does not match the commitment, a failed opening, a failed fold
/// equation or a failed terminal constant check is an invalid proof; a
/// non-canonical opened value is a serialization failure.
#[verifier::opaque]
pub open spec fn verify_res_s(
    d: int,
    logr: int,
    rate: u64,
    queries: Seq<u32>,
    commitment: Seq<u8>,
    proof: Seq<u8>,
) -> Result<(), ProofError> {
    let st0 = keccak_of(fri_label_s(d, rate, queries));
    let c0b = proof.subrange(0, 32);
    let st1 = absorb_next_s(st0, c0b);
    let st2 = ratchet_next_s(st1);
    let n0 = pow2(d as nat) as int * rate as int;
    if proof.len() != absorb_total(fri_ops_s(d, logr, queries)) {
        Err(ProofError::SerializationError)
    } else if c0b != commitment {
        Err(ProofError::InvalidProof)
    } else {
        match vrounds_s(st2, 32, commitment, 0u64, proof, d, logr, rate, queries, n0, 0) {
            Result::Err(e) => Result::Err(e),
            Result::Ok(nx) => if merkle_root_of(evals0_s(seq![nx.3], rate as int)) == nx.2 {
                Ok(())
            } else {
                Err(ProofError::InvalidProof)
            },
        }
    }
}

/// The verifier accepts the buffer: shorthand for the decision being Ok.
pub open spec fn verify_accepts(
    d: int,
    logr: int,
    rate: u64,
    queries: Seq<u32>,
    commitment: Seq<u8>,
    proof: Seq<u8>,
) -> bool {
    verify_res_s(d, logr, rate, queries, commitment, proof) is Ok
}



/// The folding challenge drawn from this sponge state lands in the
/// evaluation domain of size `n`: the one failure an honest prover can
/// meet past configuration checking.
pub open spec fn alpha_in_domain(st: Seq<u8>, n: int) -> bool {
    exists|j: int|
        0 <= j < n && alpha_of(st) as int == #[trigger] pow(omega_of(n), j as nat) % (
        FIELD_MODULUS as int)
}

/// No folding challenge of rounds i..d lands in its round's domain: the
/// condition under which the prover runs to completion.
#[verifier::opaque]
pub open spec fn rounds_ok_s(
    st: Seq<u8>,
    ev: Seq<u64>,
    d: int,
    logr: int,
    queries: Seq<u32>,
    i: int,
) -> bool
    decreases d - i,
{
    if i >= d {
        true
    } else {
        if alpha_in_domain(st, ev.len() as int) {
            false
        } else {
            let r = round_stout_s(st, Seq::empty(), ev, (d - i) + logr, queries[i] as nat);
            rounds_ok_s(r.0, r.2, d, logr, queries, i + 1)
        }
    }
}

/// The prover succeeds on a coefficient vector: the sponge driven from
/// the instance label and the table's commitment never squeezes a
/// challenge inside a round's domain.
pub open spec fn prove_ok_s(d: int, logr: int, rate: u64, queries: Seq<u32>, c: Seq<u64>) -> bool {
    let n0 = pow2(d as nat) as int * rate as int;
    let ev0 = evals0_s(c, n0);
    let st2 = ratchet_next_s(
        absorb_next_s(keccak_of(fri_label_s(d, rate, queries)), merkle_root_of(ev0)),
    );
    rounds_ok_s(st2, ev0, d, logr, queries, 0)
}

/// The sponge state after a block of queries does not depend on the
/// bytes emitted so far.
proof fn lemma_queries_st_indep(
    st: Seq<u8>,
    o1: Seq<u8>,
    o2: Seq<u8>,
    ev: Seq<u64>,
    fv: Seq<u64>,
    h: int,
    q: nat,
)
    ensures
        queries_stout_s(st, o1, ev, fv, h, q).0 == queries_stout_s(st, o2, ev, fv, h, q).0,
    decreases q,
{
    reveal(queries_stout_s);
    if q > 0 {
        lemma_queries_st_indep(st, o1, o2, ev, fv, h, (q - 1) as nat);
    }
}

/// The sponge state and folded table after a round do not depend on the
/// bytes emitted so far.
proof fn lemma_round_st_indep(st: Seq<u8>, o1: Seq<u8>, o2: Seq<u8>, ev: Seq<u64>, h: int, q: nat)
    ensures
        round_stout_s(st, o1, ev, h, q).0 == round_stout_s(st, o2, ev, h, q).0,
        round_stout_s(st, o1, ev, h, q).2 == round_stout_s(st, o2, ev, h, q).2,
{
    reveal(round_stout_s);
    let alpha = alpha_of(st);
    let s1 = squeeze_next_s(st);
    let fvv = fold_evals_s(ev, alpha);
    let rt = merkle_root_of(fvv);
    let s2 = absorb_next_s(s1, rt);
    lemma_queries_st_indep(s2, o1 + rt, o2 + rt, ev, fvv, h, q);
}


/// The label is nineteen bytes of prefix and eight bytes per round.
proof fn lemma_label_len(d: int, rate: u64, qs: Seq<u32>)
    ensures
        fri_label_s(d, rate, qs).len() == 19 + 8 * qs.len(),
    decreases qs.len(),
{
    if qs.len() == 0 {
    } else {
        lemma_label_len(d, rate, qs.drop_last());
    }
}

/// The label opens with the tag, the round count and the rate.
proof fn lemma_label_take(d: int, rate: u64, qs: Seq<u32>)
    ensures
        fri_label_s(d, rate, qs).take(19) == seq![70u8, 82u8, 73u8] + u64_be_spec(d as u64)
            + u64_be_spec(rate),
    decreases qs.len(),
{
    lemma_label_len(d, rate, qs);
    if qs.len() == 0 {
        assert(fri_label_s(d, rate, qs).take(19) =~= fri_label_s(d, rate, qs));
    } else {
        lemma_label_take(d, rate, qs.drop_last());
        lemma_label_len(d, rate, qs.drop_last());
        assert(fri_label_s(d, rate, qs).take(19) =~= fri_label_s(d, rate, qs.drop_last()).take(
            19,
        ));
    }
}

/// Block `i` of the label carries the i-th query count.
proof fn lemma_label_block(d: int, rate: u64, qs: Seq<u32>, i: int)
    requires
        0 <= i < qs.len(),
    ensures
        fri_label_s(d, rate, qs).subrange(19 + 8 * i, 19 + 8 * i + 8) == u64_be_spec(
            qs[i] as u64,
        ),
    decreases qs.len(),
{
    lemma_label_len(d, rate, qs);
    lemma_label_len(d, rate, qs.drop_last());
    crate::fields::lemma_u64_be_inverse(qs[i] as u64);
    if i == qs.len() - 1 {
        assert(fri_label_s(d, rate, qs).subrange(19 + 8 * i, 19 + 8 * i + 8) =~= u64_be_spec(
            qs[i] as u64,
        ));
    } else {
        lemma_label_block(d, rate, qs.drop_last(), i);
        assert(qs.drop_last()[i] == qs[i]);
        assert(fri_label_s(d, rate, qs).subrange(19 + 8 * i, 19 + 8 * i + 8) =~= fri_label_s(
            d,
            rate,
            qs.drop_last(),
        ).subrange(19 + 8 * i, 19 + 8 * i + 8));
    }
}

/// Domain separation: two instances that differ in round count, rate or
/// any query count carry different labels, so their transcripts are
/// separated from the very first sponge state.
pub proof fn lemma_domain_separation(
    d1: int,
    rate1: u64,
    qs1: Seq<u32>,
    d2: int,
    rate2: u64,
    qs2: Seq<u32>,
)
    requires
        d1 == qs1.len(),
        d2 == qs2.len(),
        !(d1 == d2 && rate1 == rate2 && qs1 == qs2),
    ensures
        fri_label_s(d1, rate1, qs1) != fri_label_s(d2, rate2, qs2),
{
    let l1 = fri_label_s(d1, rate1, qs1);
    let l2 = fri_label_s(d2, rate2, qs2);
    lemma_label_len(d1, rate1, qs1);
    lemma_label_len(d2, rate2, qs2);
    if l1 == l2 {
        assert(qs1.len() == qs2.len());
        assert(d1 == d2);
        lemma_label_take(d1, rate1, qs1);
        lemma_label_take(d2, rate2, qs2);
        assert(rate1 == rate2) by {
            let p1 = seq![70u8, 82u8, 73u8] + u64_be_spec(d1 as u64) + u64_be_spec(rate1);
            let p2 = seq![70u8, 82u8, 73u8] + u64_be_spec(d2 as u64) + u64_be_spec(rate2);
            assert(p1 == p2);
            assert(p1.subrange(11, 19) =~= u64_be_spec(rate1));
            assert(p2.subrange(11, 19) =~= u64_be_spec(rate2));
            crate::fields::lemma_u64_be_inverse(rate1);
            crate::fields::lemma_u64_be_inverse(rate2);
        }
        assert(qs1 =~= qs2) by {
            assert forall|i: int| 0 <= i < qs1.len() implies qs1[i] == qs2[i] by {
                lemma_label_block(d1, rate1, qs1, i);
                lemma_label_block(d2, rate2, qs2, i);
                assert(u64_be_spec(qs1[i] as u64) == u64_be_spec(qs2[i] as u64));
                crate::fields::lemma_u64_be_inverse(qs1[i] as u64);
                crate::fields::lemma_u64_be_inverse(qs2[i] as u64);
            }
        }
        assert(false);
    }
}

/// A block of queries starts with one query's operations.
pub proof fn lemma_block_front(l: int, b: int)
    requires
        b >= 1,
    ensures
        queries_block_s(l, b) == query_ops_s(l) + queries_block_s(l, b - 1),
    decreases b,
{
    if b == 1 {
        assert(queries_block_s(l, 0) =~= Seq::<Op>::empty());
        assert(queries_block_s(l, 1) =~= query_ops_s(l) + queries_block_s(l, 0));
    } else {
        lemma_block_front(l, b - 1);
        assert((query_ops_s(l) + queries_block_s(l, b - 2)) + query_ops_s(l) =~= query_ops_s(l) + (
        queries_block_s(l, b - 2) + query_ops_s(l)));
    }
}

/// A schedule suffix that opens with a known head: the head's operations
/// sit at the current position, and past them the suffix is the tail.
proof fn lemma_skip_add(s: Seq<Op>, p: int, head: Seq<Op>, tail: Seq<Op>)
    requires
        0 <= p <= s.len(),
        s.skip(p) == head + tail,
    ensures
        forall|k: int| 0 <= k < head.len() ==> s[p + k] == #[trigger] head[k],
        s.skip(p + head.len()) == tail,
        p + head.len() + tail.len() == s.len(),
{
    assert(s.skip(p).len() == s.len() - p);
    assert forall|k: int| 0 <= k < head.len() implies s[p + k] == #[trigger] head[k] by {
        assert(s.skip(p)[k] == s[p + k]);
        assert((head + tail)[k] == head[k]);
    }
    assert(s.skip(p + head.len()) =~= tail) by {
        assert forall|k: int| 0 <= k < tail.len() implies s.skip(p + head.len())[k] == tail[k] by {
            assert(s.skip(p + head.len())[k] == s[p + head.len() + k]);
            assert(s.skip(p)[head.len() + k] == s[p + head.len() + k]);
            assert((head + tail)[head.len() + k] == tail[k]);
        }
    }
}

/// The absorb total splits at any position.
pub proof fn lemma_total_split(s: Seq<Op>, p: int)
    requires
        0 <= p <= s.len(),
    ensures
        absorb_total(s) == absorb_total(s.take(p)) + absorb_total(s.skip(p)),
{
    lemma_absorb_total_concat(s.take(p), s.skip(p));
    assert(s.take(p) + s.skip(p) =~= s);
}

/// Absorb totals are never negative.
pub proof fn lemma_total_nonneg(s: Seq<Op>)
    ensures
        absorb_total(s) >= 0,
    decreases s.len(),
{
    if s.len() > 0 {
        lemma_total_nonneg(s.drop_last());
    }
}

/// Bookkeeping invariant of a verifier transcript: the bytes consumed so
/// far are exactly the absorb total of the schedule prefix already
/// executed.
pub open spec fn vt_inv(vt: &crate::transcript::VerifierTranscript) -> bool {
    &&& 0 <= vt.pos_s() <= vt.sched_s().len()
    &&& vt.rd_s() == absorb_total(vt.sched_s().take(vt.pos_s()))
}

/// Reads the next scheduled absorb out of the proof buffer; under the
/// bookkeeping invariant and a buffer of exactly the schedule's length,
/// the read cannot fail.
fn vt_read(vt: &mut crate::transcript::VerifierTranscript, n: usize) -> (b: Vec<u8>)
    requires
        vt_inv(old(vt)),
        old(vt).pos_s() < old(vt).sched_s().len(),
        old(vt).sched_s()[old(vt).pos_s()] == Op::Absorb(n as u64),
        old(vt).proof_s().len() == absorb_total(old(vt).sched_s()),
    ensures
        vt_inv(final(vt)),
        final(vt).pos_s() == old(vt).pos_s() + 1,
        final(vt).rd_s() == old(vt).rd_s() + n,
        final(vt).sched_s() == old(vt).sched_s(),
        final(vt).proof_s() == old(vt).proof_s(),
        final(vt).state_s() == absorb_next_s(old(vt).state_s(), b@),
        b@ == old(vt).proof_s().subrange(old(vt).rd_s(), old(vt).rd_s() + n),
        b@.len() == n,
{
    proof {
        let sched = old(vt).sched_s();
        let p = old(vt).pos_s();
        lemma_absorb_total_step(sched, p);
        lemma_absorb_total_mono(sched, p + 1);
        lemma_total_split(sched, p + 1);
        lemma_total_nonneg(sched.skip(p + 1));
    }
    match vt.next_bytes(n) {
        Ok(b) => {
            proof {
                lemma_absorb_total_step(vt.sched_s(), old(vt).pos_s());
            }
            b
        },
        Err(_) => {
            proof {
                assert(false);
            }
            Vec::new()
        },
    }
}

/// Squeezes the next scheduled challenge; under the bookkeeping invariant
/// the squeeze cannot fail.
fn vt_chal(vt: &mut crate::transcript::VerifierTranscript, n: usize) -> (c: Vec<u8>)
    requires
        vt_inv(old(vt)),
        old(vt).pos_s() < old(vt).sched_s().len(),
        old(vt).sched_s()[old(vt).pos_s()] == Op::Squeeze(n as u64),
        n <= 32,
    ensures
        vt_inv(final(vt)),
        final(vt).pos_s() == old(vt).pos_s() + 1,
        final(vt).rd_s() == old(vt).rd_s(),
        final(vt).sched_s() == old(vt).sched_s(),
        final(vt).proof_s() == old(vt).proof_s(),
        final(vt).state_s() == squeeze_next_s(old(vt).state_s()),
        c@ == squeeze_bytes_s(old(vt).state_s(), n as nat),
        c@.len() == n,
{
    match vt.challenge_bytes(n) {
        Ok(c) => {
            proof {
                lemma_absorb_total_step(vt.sched_s(), old(vt).pos_s());
            }
            c
        },
        Err(_) => {
            proof {
                assert(false);
            }
            Vec::new()
        },
    }
}

/// Ratchets at the scheduled position; cannot fail.
fn vt_ratchet(vt: &mut crate::transcript::VerifierTranscript) -> (r: ())
    requires
        vt_inv(old(vt)),
        old(vt).pos_s() < old(vt).sched_s().len(),
        old(vt).sched_s()[old(vt).pos_s()] == Op::Ratchet,
    ensures
        vt_inv(final(vt)),
        final(vt).pos_s() == old(vt).pos_s() + 1,
        final(vt).rd_s() == old(vt).rd_s(),
        final(vt).sched_s() == old(vt).sched_s(),
        final(vt).proof_s() == old(vt).proof_s(),
        final(vt).state_s() == ratchet_next_s(old(vt).state_s()),
{
    match vt.ratchet() {
        Ok(_) => {
            proof {
                lemma_absorb_total_step(vt.sched_s(), old(vt).pos_s());
            }
        },
        Err(_) => {
            proof {
                assert(false);
            }
        },
    }
}

/// Bookkeeping invariant of a prover transcript: the bytes emitted so far
/// are exactly the absorb total of the schedule prefix already executed.
pub open spec fn pt_inv(pt: &crate::transcript::ProverTranscript) -> bool {
    &&& 0 <= pt.pos_s() <= pt.sched_s().len()
    &&& pt.out_s().len() == absorb_total(pt.sched_s().take(pt.pos_s()))
}

/// Absorbs bytes at the scheduled position; under the bookkeeping
/// invariant the absorb cannot fail.
fn pt_add(pt: &mut crate::transcript::ProverTranscript, b: &Vec<u8>) -> (r: ())
    requires
        pt_inv(old(pt)),
        old(pt).pos_s() < old(pt).sched_s().len(),
        old(pt).sched_s()[old(pt).pos_s()] == Op::Absorb(b@.len() as u64),
    ensures
        pt_inv(final(pt)),
        final(pt).pos_s() == old(pt).pos_s() + 1,
        final(pt).sched_s() == old(pt).sched_s(),
        final(pt).state_s() == absorb_next_s(old(pt).state_s(), b@),
        final(pt).out_s() == old(pt).out_s() + b@,
{
    let nb: usize = b.len();
    match pt.add_bytes(b) {
        Ok(_) => {
            proof {
                lemma_absorb_total_step(pt.sched_s(), old(pt).pos_s());
                assert(b@.len() as u64 as int == nb as int);
            }
        },
        Err(_) => {
            proof {
                assert(b@.len() as u64 as int == nb as int);
                assert(false);
            }
        },
    }
}

/// Squeezes challenge bytes at the scheduled position; cannot fail.
fn pt_challenge(pt: &mut crate::transcript::ProverTranscript, n: usize) -> (c: Vec<u8>)
    requires
        pt_inv(old(pt)),
        old(pt).pos_s() < old(pt).sched_s().len(),
        old(pt).sched_s()[old(pt).pos_s()] == Op::Squeeze(n as u64),
        n <= 32,
    ensures
        pt_inv(final(pt)),
        final(pt).pos_s() == old(pt).pos_s() + 1,
        final(pt).sched_s() == old(pt).sched_s(),
        final(pt).state_s() == squeeze_next_s(old(pt).state_s()),
        final(pt).out_s() == old(pt).out_s(),
        c@ == squeeze_bytes_s(old(pt).state_s(), n as nat),
        c@.len() == n,
{
    match pt.challenge_bytes(n) {
        Ok(c) => {
            proof {
                lemma_absorb_total_step(pt.sched_s(), old(pt).pos_s());
            }
            c
        },
        Err(_) => {
            proof {
                assert(false);
            }
            Vec::new()
        },
    }
}

/// Ratchets at the scheduled position; cannot fail.
fn pt_ratchet(pt: &mut crate::transcript::ProverTranscript) -> (r: ())
    requires
        pt_inv(old(pt)),
        old(pt).pos_s() < old(pt).sched_s().len(),
        old(pt).sched_s()[old(pt).pos_s()] == Op::Ratchet,
    ensures
        pt_inv(final(pt)),
        final(pt).pos_s() == old(pt).pos_s() + 1,
        final(pt).sched_s() == old(pt).sched_s(),
        final(pt).state_s() == ratchet_next_s(old(pt).state_s()),
        final(pt).out_s() == old(pt).out_s(),
{
    match pt.ratchet() {
        Ok(_) => {
            proof {
                lemma_absorb_total_step(pt.sched_s(), old(pt).pos_s());
            }
        },
        Err(_) => {
            proof {
                assert(false);
            }
        },
    }
}

/// Transcript determinism: the proof is a function of the instance and
/// the coefficient vector alone, so two successful prover runs over the
/// same input emit byte-identical proofs.
pub proof fn lemma_prover_deterministic(
    b1: Seq<u8>,
    b2: Seq<u8>,
    d: int,
    logr: int,
    rate: u64,
    queries: Seq<u32>,
    c: Seq<u64>,
)
    requires
        b1 == prove_bytes_s(d, logr, rate, queries, c),
        b2 == prove_bytes_s(d, logr, rate, queries, c),
    ensures
        b1 == b2,
{
}

/// Emits one query: squeezes the index, then absorbs value and path for
/// the point, its antipode, and the folded point one level up. Under the
/// bookkeeping invariant and a schedule that expects exactly these seven
/// operations, nothing can fail, and the sponge and the emitted bytes
/// advance by exactly the mirrored transition of one query.
#[verifier::rlimit(100)]
fn emit_query(
    pt: &mut crate::transcript::ProverTranscript,
    cur: &PolynomialPoints,
    cur_tree: &MerkleTree,
    cf: &Commited,
    half_i: usize,
) -> (r: ())
    requires
        pt_inv(old(pt)),
        cur_tree.wf(),
        cur_tree.leaf_count() == cur.evals@.len(),
        forall|x: int|
            0 <= x < cur.evals@.len() ==> cur_tree.levels_s()[0][x] == felt_leaf_digest(
                #[trigger] cur.evals@[x],
            ),
        cur.evals@.len() == 2 * half_i,
        half_i >= 1,
        commited_wf(cf),
        cf.data.evals@.len() == half_i,
        cf.ptree.levels_s().len() == cur_tree.levels_s().len() - 1,
        1 <= cur_tree.levels_s().len() - 1 <= 52,
        old(pt).pos_s() + 7 <= old(pt).sched_s().len(),
        old(pt).sched_s()[old(pt).pos_s()] == Op::Squeeze(2),
        old(pt).sched_s()[old(pt).pos_s() + 1] == Op::Absorb(8),
        old(pt).sched_s()[old(pt).pos_s() + 2] == Op::Absorb(
            (32 * (cur_tree.levels_s().len() - 1)) as u64,
        ),
        old(pt).sched_s()[old(pt).pos_s() + 3] == Op::Absorb(8),
        old(pt).sched_s()[old(pt).pos_s() + 4] == Op::Absorb(
            (32 * (cur_tree.levels_s().len() - 1)) as u64,
        ),
        old(pt).sched_s()[old(pt).pos_s() + 5] == Op::Absorb(8),
        old(pt).sched_s()[old(pt).pos_s() + 6] == Op::Absorb(
            (32 * (cur_tree.levels_s().len() - 2)) as u64,
        ),
    ensures
        pt_inv(final(pt)),
        final(pt).sched_s() == old(pt).sched_s(),
        final(pt).pos_s() == old(pt).pos_s() + 7,
        final(pt).state_s() == query_st_s(
            old(pt).state_s(),
            cur.evals@,
            cf.data.evals@,
            cur_tree.levels_s().len() - 1,
        ),
        final(pt).out_s() == old(pt).out_s() + query_out_s(
            old(pt).state_s(),
            cur.evals@,
            cf.data.evals@,
            cur_tree.levels_s().len() - 1,
        ),
{
    proof {
        reveal(query_st_s);
        reveal(query_out_s);
    }
    let ghost st_q = pt.state_s();
    let ghost out_q = pt.out_s();
    let ghost evg = cur.evals@;
    let ghost fvg = cf.data.evals@;
    let ghost hh = cur_tree.levels_s().len() - 1;
    let n_i: usize = cur.evals.len();
    let hexec: usize = cur_tree.height();
    let qb = pt_challenge(pt, 2);
    proof {
        assert(be_val(qb@) == qb@[0] * 256 + qb@[1]) by {
            reveal_with_fuel(be_val, 3);
            assert(qb@.drop_last() =~= seq![qb@[0]]);
            assert(seq![qb@[0]].drop_last() =~= Seq::<u8>::empty());
            assert(qb@.last() == qb@[1]);
            assert(seq![qb@[0]].last() == qb@[0]);
        }
    }
    let j0u: u64 = ((qb[0] as u64) * 256 + (qb[1] as u64)) % (n_i as u64);
    let j0: usize = j0u as usize;
    proof {
        assert(j0 as int == qindex_of(st_q, evg.len() as int));
    }
    let j1: usize = if j0 < half_i {
        j0 + half_i
    } else {
        j0 - half_i
    };
    let jf: usize = if j0 < half_i {
        j0
    } else {
        j0 - half_i
    };
    let vb0 = to_be_bytes(cur.evals[j0]);
    pt_add(pt, &vb0);
    let path0 = cur_tree.open(j0);
    let pb0 = path_to_bytes(&path0);
    proof {
        crate::merkletree::lemma_path_bytes_roundtrip(crate::merkletree::digests_of(path0@));
        lemma_exec_path_is_spec(cur_tree, evg, path0@, j0 as int);
        assert(pb0@ == concat_digests(path_digests_s(table_digests(evg), j0 as int, hh)));
        assert(pb0@.len() == 32 * hh);
    }
    pt_add(pt, &pb0);
    let vb1 = to_be_bytes(cur.evals[j1]);
    pt_add(pt, &vb1);
    let path1 = cur_tree.open(j1);
    let pb1 = path_to_bytes(&path1);
    proof {
        crate::merkletree::lemma_path_bytes_roundtrip(crate::merkletree::digests_of(path1@));
        lemma_exec_path_is_spec(cur_tree, evg, path1@, j1 as int);
        assert(pb1@ == concat_digests(path_digests_s(table_digests(evg), j1 as int, hh)));
        assert(pb1@.len() == 32 * hh);
    }
    pt_add(pt, &pb1);
    let vbf = to_be_bytes(cf.data.evals[jf]);
    pt_add(pt, &vbf);
    let pathf = cf.ptree.open(jf);
    let pbf = path_to_bytes(&pathf);
    proof {
        crate::merkletree::lemma_path_bytes_roundtrip(crate::merkletree::digests_of(pathf@));
        lemma_exec_path_is_spec(&cf.ptree, fvg, pathf@, jf as int);
        assert(pbf@ == concat_digests(path_digests_s(table_digests(fvg), jf as int, hh - 1)));
        assert(pbf@.len() == 32 * (hh - 1));
    }
    pt_add(pt, &pbf);
    proof {
        assert(pt.state_s() == query_st_s(st_q, evg, fvg, hh));
        assert(pt.out_s() =~= out_q + query_out_s(st_q, evg, fvg, hh));
    }
}

/// Runs one folding round: squeezes the challenge, folds, commits the
/// fold, absorbs its root and emits the round's queries. The round fails
/// exactly when the challenge lands in the current evaluation domain,
/// and then with a configuration error; otherwise the sponge, the
/// emitted bytes and the returned table advance by exactly the mirrored
/// transition of one round, and the schedule suffix becomes the given
/// remainder.
#[verifier::rlimit(100)]
fn emit_round(
    pt: &mut crate::transcript::ProverTranscript,
    cur: PolynomialPoints,
    cur_tree: MerkleTree,
    qn: u32,
    Ghost(rest): Ghost<Seq<Op>>,
) -> (r: Result<(PolynomialPoints, MerkleTree), ProofError>)
    requires
        pt_inv(old(pt)),
        cur.wf(),
        smooth_int(cur.evals@.len() as int),
        cur.evals@.len() >= 4,
        cur.evals@.len() <= 0x80000000,
        cur_tree.wf(),
        cur_tree.leaf_count() == cur.evals@.len(),
        forall|x: int|
            0 <= x < cur.evals@.len() ==> cur_tree.levels_s()[0][x] == felt_leaf_digest(
                #[trigger] cur.evals@[x],
            ),
        1 <= cur_tree.levels_s().len() - 1 <= 52,
        old(pt).sched_s().skip(old(pt).pos_s()) == seq![Op::Squeeze(8), Op::Absorb(32)]
            + queries_block_s(cur_tree.levels_s().len() - 1, qn as int) + rest,
    ensures
        r is Ok <==> !alpha_in_domain(old(pt).state_s(), cur.evals@.len() as int),
        r matches Err(e) ==> e == ProofError::ConfigError,
        r matches Ok(nx) ==> {
            let hh = cur_tree.levels_s().len() - 1;
            let step = round_stout_s(
                old(pt).state_s(),
                old(pt).out_s(),
                cur.evals@,
                hh,
                qn as nat,
            );
            &&& pt_inv(final(pt))
            &&& final(pt).sched_s() == old(pt).sched_s()
            &&& final(pt).sched_s().skip(final(pt).pos_s()) == rest
            &&& final(pt).state_s() == step.0
            &&& final(pt).out_s() == step.1
            &&& nx.0.evals@ == step.2
            &&& nx.0.wf()
            &&& nx.0.evals@.len() == cur.evals@.len() / 2
            &&& smooth_int(nx.0.evals@.len() as int)
            &&& nx.1.wf()
            &&& nx.1.leaf_count() == nx.0.evals@.len()
            &&& nx.1.levels_s().len() == cur_tree.levels_s().len() - 1
            &&& forall|x: int|
                0 <= x < nx.0.evals@.len() ==> nx.1.levels_s()[0][x] == felt_leaf_digest(
                    #[trigger] nx.0.evals@[x],
                )
        },
{
    proof {
        reveal(fold_evals_s);
        reveal(queries_stout_s);
        reveal(round_stout_s);
    }
    let ghost st_r = pt.state_s();
    let ghost out_r = pt.out_s();
    let ghost evg = cur.evals@;
    let ghost hh = cur_tree.levels_s().len() - 1;
    let ghost pos_r = old(pt).pos_s();
    proof {
        let k = choose|k: nat| k <= 32 && cur.evals@.len() as int == pow2(k);
        lemma2_to64();
        if k <= 1 {
            assert(pow2(k) <= 2);
        }
        lemma_pow2_adds((k - 1) as nat, 1);
        assert(cur.evals@.len() as int == 2 * pow2((k - 1) as nat));
        assert(smooth_int(pow2((k - 1) as nat) as int));
        assert(cur.evals@.len() as int / 2 == pow2((k - 1) as nat));
        // the suffix opens with the challenge and the fold commitment
        assert(pt.sched_s().skip(pos_r) =~= seq![Op::Squeeze(8), Op::Absorb(32)] + (
        queries_block_s(hh, qn as int) + rest));
        lemma_skip_add(
            pt.sched_s(),
            pos_r,
            seq![Op::Squeeze(8), Op::Absorb(32)],
            queries_block_s(hh, qn as int) + rest,
        );
        assert(pt.sched_s()[pos_r] == Op::Squeeze(8)) by {
            assert(seq![Op::Squeeze(8), Op::Absorb(32)][0] == Op::Squeeze(8));
        }
        assert(pt.sched_s()[pos_r + 1] == Op::Absorb(32)) by {
            assert(seq![Op::Squeeze(8), Op::Absorb(32)][1] == Op::Absorb(32));
        }
    }
    let ch = pt_challenge(pt, 8);
    let alpha = from_be_bytes_mod_order(&ch);
    proof {
        assert(alpha == alpha_of(st_r));
    }
    let folded = match cur.fold(alpha) {
        Ok(f) => f,
        Err(e) => {
            proof {
                // the rejected challenge is exactly one in the domain
                assert(alpha_in_domain(st_r, evg.len() as int)) by {
                    let j = choose|j: int|
                        0 <= j < evg.len() && alpha as int == #[trigger] pow(
                            omega_of(evg.len() as int),
                            j as nat,
                        ) % (FIELD_MODULUS as int);
                    assert(0 <= j < evg.len() && alpha_of(st_r) as int == pow(
                        omega_of(evg.len() as int),
                        j as nat,
                    ) % (FIELD_MODULUS as int));
                }
            }
            return Err(e);
        },
    };
    proof {
        if alpha_in_domain(st_r, evg.len() as int) {
            let j = choose|j: int|
                0 <= j < evg.len() && alpha_of(st_r) as int == #[trigger] pow(
                    omega_of(evg.len() as int),
                    j as nat,
                ) % (FIELD_MODULUS as int);
            assert(0 <= j < evg.len() && alpha as int == pow(
                omega_of(evg.len() as int),
                j as nat,
            ) % (FIELD_MODULUS as int));
            assert(false);
        }
    }
    let ghost fvg = fold_evals_s(evg, alpha);
    proof {
        assert(folded.evals@ =~= fvg);
    }
    let cf = folded.commit();
    let rooti = cf.ptree.root();
    proof {
        assert(rooti@ == merkle_root_of(fvg));
    }
    pt_add(pt, &rooti);
    let ghost st_q0 = pt.state_s();
    let ghost out_q0 = pt.out_s();
    proof {
        // both trees are exactly as tall as their domains demand
        lemma_tree_height(&cur_tree);
        lemma_tree_height(&cf.ptree);
        let k = choose|k: nat| k <= 32 && cur.evals@.len() as int == pow2(k);
        lemma_pow2_unique((cur_tree.levels_s().len() - 1) as nat, k);
        lemma_pow2_unique((cf.ptree.levels_s().len() - 1) as nat, (k - 1) as nat);
        assert(pt.sched_s().skip(pos_r) =~= seq![Op::Squeeze(8), Op::Absorb(32)] + (
        queries_block_s(hh, qn as int) + rest));
        lemma_skip_add(
            pt.sched_s(),
            pos_r,
            seq![Op::Squeeze(8), Op::Absorb(32)],
            queries_block_s(hh, qn as int) + rest,
        );
        assert(pt.sched_s().skip(pt.pos_s()) == queries_block_s(hh, qn as int) + rest);
    }
    let n_i: usize = cur.evals.len();
    let half_i: usize = n_i / 2;
    let mut q: u32 = 0;
    while q < qn
        invariant
            q <= qn,
            pt_inv(&pt),
            pt.sched_s() == old(pt).sched_s(),
            pt.sched_s().skip(pt.pos_s()) == queries_block_s(hh, (qn - q) as int) + rest,
            cur_tree.wf(),
            cur_tree.leaf_count() == cur.evals@.len(),
            forall|x: int|
                0 <= x < cur.evals@.len() ==> cur_tree.levels_s()[0][x] == felt_leaf_digest(
                    #[trigger] cur.evals@[x],
                ),
            evg == cur.evals@,
            n_i == cur.evals@.len(),
            n_i == 2 * half_i,
            half_i >= 1,
            commited_wf(&cf),
            cf.data.evals@.len() == half_i,
            cf.data.evals@ == fvg,
            cur_tree.levels_s().len() - 1 == hh,
            1 <= hh <= 52,
            cf.ptree.levels_s().len() - 1 == hh - 1,
            queries_stout_s(st_q0, out_q0, evg, fvg, hh, q as nat) == (
                pt.state_s(),
                pt.out_s(),
            ),
        decreases qn - q,
    {
        let ghost pos_q = pt.pos_s();
        proof {
            lemma_block_front(hh, (qn - q) as int);
            assert(pt.sched_s().skip(pos_q) =~= query_ops_s(hh) + (queries_block_s(
                hh,
                (qn - q) as int - 1,
            ) + rest));
            lemma_skip_add(
                pt.sched_s(),
                pos_q,
                query_ops_s(hh),
                queries_block_s(hh, (qn - q) as int - 1) + rest,
            );
            assert(pt.sched_s()[pos_q] == Op::Squeeze(2)) by {
                assert(query_ops_s(hh)[0] == Op::Squeeze(2));
            }
            assert(pt.sched_s()[pos_q + 1] == Op::Absorb(8));
            assert(pt.sched_s()[pos_q + 2] == Op::Absorb((32 * hh) as u64));
            assert(pt.sched_s()[pos_q + 3] == Op::Absorb(8));
            assert(pt.sched_s()[pos_q + 4] == Op::Absorb((32 * hh) as u64));
            assert(pt.sched_s()[pos_q + 5] == Op::Absorb(8));
            assert(pt.sched_s()[pos_q + 6] == Op::Absorb((32 * (hh - 1)) as u64));
        }
        emit_query(pt, &cur, &cur_tree, &cf, half_i);
        proof {
            reveal(queries_stout_s);
            assert(queries_stout_s(st_q0, out_q0, evg, fvg, hh, (q + 1) as nat) == (
                pt.state_s(),
                pt.out_s(),
            ));
            assert(pt.sched_s().skip(pt.pos_s()) == queries_block_s(hh, (qn - q) as int - 1)
                + rest) by {
                lemma_skip_add(
                    pt.sched_s(),
                    pos_q,
                    query_ops_s(hh),
                    queries_block_s(hh, (qn - q) as int - 1) + rest,
                );
            }
        }
        q = q + 1;
    }
    proof {
        reveal(round_stout_s);
        assert(round_stout_s(st_r, out_r, evg, hh, qn as nat) == (
            pt.state_s(),
            pt.out_s(),
            fvg,
        ));
        assert(queries_block_s(hh, 0) =~= Seq::<Op>::empty());
        assert(Seq::<Op>::empty() + rest =~= rest);
    }
    let Commited { data: nd2, ptree: nt2 } = cf;
    Ok((nd2, nt2))
}


/// Size bookkeeping of one prover round: the current domain halves into
/// a smooth domain of at least the rate.
proof fn lemma_round_sizes(d: int, round: int, rate: u64, logr: nat, len: int)
    requires
        0 <= round < d,
        d <= 32,
        2 <= rate,
        rate as int == pow2(logr),
        logr <= 20,
        len == pow2((d - round) as nat) * rate as int,
        len <= 0x80000000,
    ensures
        len == 2 * (pow2((d - round - 1) as nat) * rate as int),
        pow2((d - round - 1) as nat) * rate as int >= 2,
        smooth_int(pow2((d - round - 1) as nat) * rate as int),
        smooth_int(len),
        len >= 4,
{
    lemma2_to64();
    lemma_pow2_adds((d - round - 1) as nat, 1);
    assert(len == 2 * (pow2((d - round - 1) as nat) * rate as int)) by (nonlinear_arith)
        requires
            len == pow2((d - round) as nat) * rate as int,
            pow2((d - round) as nat) == 2 * pow2((d - round - 1) as nat),
    ;
    assert(pow2((d - round - 1) as nat) * rate as int >= 1 * 2) by (nonlinear_arith)
        requires
            pow2((d - round - 1) as nat) >= 1,
            rate >= 2,
    ;
    lemma_pow2_adds((d - round - 1) as nat, logr);
    lemma_pow2_adds((d - round) as nat, logr);
    lemma2_to64_rest();
    assert(pow2(33) == 0x200000000);
    assert(d - round + logr <= 32) by {
        if d - round + logr >= 33 {
            lemma_pow2_strictly_increases(33, (d - round + logr) as nat);
            assert(pow2((d - round + logr) as nat) >= pow2(33));
        }
    }
}

/// The tree over the current table is exactly as tall as the schedule's
/// paths for this round.
proof fn lemma_round_tree_height(t: &MerkleTree, d: int, round: int, rate: u64, logr: nat)
    requires
        t.wf(),
        0 <= round < d,
        d <= 32,
        rate as int == pow2(logr),
        logr <= 20,
        t.leaf_count() == pow2((d - round) as nat) * rate as int,
    ensures
        t.levels_s().len() - 1 == (d - round) + logr,
{
    lemma_tree_height(t);
    lemma_pow2_adds((d - round) as nat, logr);
    lemma_pow2_unique((t.levels_s().len() - 1) as nat, ((d - round) + logr) as nat);
}

/// One executed round advances the mirrored rounds by one.
proof fn lemma_rounds_step(
    st: Seq<u8>,
    out: Seq<u8>,
    ev: Seq<u64>,
    st2: Seq<u8>,
    out2: Seq<u8>,
    ev2: Seq<u64>,
    d: int,
    logr: int,
    queries: Seq<u32>,
    round: int,
)
    requires
        0 <= round < d,
        d == queries.len(),
        round_stout_s(st, out, ev, (d - round) + logr, queries[round] as nat) == (st2, out2, ev2),
    ensures
        rounds_stout_s(st, out, ev, d, logr, queries, round) == rounds_stout_s(
            st2,
            out2,
            ev2,
            d,
            logr,
            queries,
            round + 1,
        ),
{
    reveal(rounds_stout_s);
}

impl FRIProtocol {
    /// Produces a proximity proof for a polynomial of degree below two to
    /// the number of rounds. The proof is the transcript byte stream: on
    /// success it is exactly the byte string `prove_bytes_s` of the padded
    /// coefficients, pinned as a function of the instance and the input
    /// alone, so two runs on the same input emit identical bytes, and its
    /// length is the schedule's absorb total. The prover succeeds exactly
    /// when the instance is valid, the degree fits the round count and no
    /// folding challenge lands in its round's evaluation domain; every
    /// failure is a configuration error.
    #[verifier::rlimit(100)]
    pub fn prove(&self, polynomial: &PolynomialCoefficient) -> (r: Result<Vec<u8>, ProofError>)
        requires
            polynomial.wf(),
        ensures
            r matches Ok(b) ==> b@.len() == absorb_total(self.sched_s()),
            r matches Ok(b) ==> b@ == prove_bytes_s(
                self.d(),
                self.logr() as int,
                self.rate,
                self.queries@,
                padded_coeffs_s(
                    polynomial.coefficients@,
                    polynomial.degree as int,
                    pow2(self.d() as nat) as int,
                ),
            ),
            r is Ok <==> self.cfg_ok() && (polynomial.degree as int) < pow2(self.d() as nat)
                && prove_ok_s(
                self.d(),
                self.logr() as int,
                self.rate,
                self.queries@,
                padded_coeffs_s(
                    polynomial.coefficients@,
                    polynomial.degree as int,
                    pow2(self.d() as nat) as int,
                ),
            ),
            r matches Err(e) ==> e == ProofError::ConfigError,
    {
        let ghost m = FIELD_MODULUS as int;
        if !self.check_config() {
            return Err(ProofError::ConfigError);
        }
        let d = self.queries.len();
        let logr = self.log_rate();
        let mut nd: u64 = 1;
        let mut j: usize = 0;
        proof {
            lemma2_to64();
        }
        while j < d
            invariant
                j <= d,
                d <= 32,
                nd as int == pow2(j as nat),
                nd <= 0x100000000,
            decreases d - j,
        {
            proof {
                lemma_pow2_adds(j as nat, 1);
                lemma2_to64();
                lemma_pow2_strictly_increases(j as nat, 33);
                assert(pow2(33) == 0x200000000) by {
                    lemma2_to64_rest();
                }
            }
            nd = nd * 2;
            j = j + 1;
        }
        if polynomial.degree >= nd {
            return Err(ProofError::ConfigError);
        }
        proof {
            // the domain bound keeps the coefficient count small
            assert(nd as int * 2 <= nd as int * self.rate as int) by (nonlinear_arith)
                requires
                    self.rate >= 2,
                    nd >= 0,
            ;
            assert(pow2(self.queries@.len() as nat) * self.rate as int <= 0x80000000);
            assert(nd <= 0x40000000);
        }
        let ghost c_pad = padded_coeffs_s(
            polynomial.coefficients@,
            polynomial.degree as int,
            nd as int,
        );
        // pad the coefficients out to the full power-of-two length
        let mut coeffs: Vec<u64> = Vec::new();
        let count: usize = (polynomial.degree + 1) as usize;
        let mut i: usize = 0;
        while i < count
            invariant
                i <= count,
                count == polynomial.degree + 1,
                polynomial.wf(),
                coeffs@.len() == i,
                forall|x: int| 0 <= x < i ==> coeffs@[x] == polynomial.coefficients@[x],
                forall|x: int| 0 <= x < i ==> in_field(#[trigger] coeffs@[x]),
            decreases count - i,
        {
            coeffs.push(polynomial.coefficients[i]);
            i = i + 1;
        }
        let ndus: usize = nd as usize;
        while coeffs.len() < ndus
            invariant
                count <= coeffs@.len() <= ndus,
                count == polynomial.degree + 1,
                ndus == nd,
                forall|x: int| 0 <= x < count ==> coeffs@[x] == polynomial.coefficients@[x],
                forall|x: int| count <= x < coeffs@.len() ==> coeffs@[x] == 0u64,
                forall|x: int| 0 <= x < coeffs@.len() ==> in_field(#[trigger] coeffs@[x]),
            decreases ndus - coeffs@.len(),
        {
            coeffs.push(0u64);
        }
        proof {
            assert(coeffs@ =~= c_pad);
        }
        let padded = PolynomialCoefficient::new(nd - 1, coeffs);
        proof {
            // the starting domain is smooth and fits
            lemma_pow2_adds(d as nat, logr as nat);
            assert((nd as int) * (self.rate as int) == pow2((d + logr) as nat));
            assert(pow2(self.queries@.len() as nat) * self.rate as int <= 0x80000000);
            assert(d + logr <= 32) by {
                if d + logr >= 33 {
                    lemma_pow2_strictly_increases(32, (d + logr) as nat);
                    lemma2_to64();
                }
            }
            assert(smooth_int((nd as int) * (self.rate as int)));
        }
        let pp = match padded.fft(self.rate) {
            Ok(pp) => pp,
            Err(_) => {
                proof {
                    assert(false);
                }
                return Err(ProofError::ConfigError);
            },
        };
        let ghost n0 = (nd as int) * (self.rate as int);
        let ghost ev0 = evals0_s(c_pad, n0);
        proof {
            reveal(evals0_s);
            assert(padded.coeffs_s() =~= c_pad);
            assert(pp.evals@ =~= ev0);
        }
        let c0 = pp.commit();
        let root0 = c0.ptree.root();
        proof {
            assert(root0@ == merkle_root_of(ev0));
        }
        let ds = self.new_pp_proof();
        let mut pt = ds.to_prover_state();
        proof {
            assert(pt.sched_s().take(0) =~= Seq::<Op>::empty());
            assert(pt.sched_s().skip(0) =~= pt.sched_s());
            lemma_skip_add(
                pt.sched_s(),
                0,
                seq![Op::Absorb(32), Op::Ratchet],
                rounds_ops_s(d as int, logr as int, self.queries@, 0),
            );
            assert(pt.sched_s()[0] == Op::Absorb(32)) by {
                assert(seq![Op::Absorb(32), Op::Ratchet][0] == Op::Absorb(32));
            }
            assert(pt.sched_s()[1] == Op::Ratchet) by {
                assert(seq![Op::Absorb(32), Op::Ratchet][1] == Op::Ratchet);
            }
        }
        pt_add(&mut pt, &root0);
        pt_ratchet(&mut pt);
        let ghost st_init = pt.state_s();
        let ghost out_init = pt.out_s();
        proof {
            assert(st_init == ratchet_next_s(
                absorb_next_s(
                    keccak_of(fri_label_s(self.d(), self.rate, self.queries@)),
                    merkle_root_of(ev0),
                ),
            ));
            assert(out_init == merkle_root_of(ev0));
            assert(pt.sched_s().skip(pt.pos_s()) == rounds_ops_s(
                d as int,
                logr as int,
                self.queries@,
                0,
            ));
            reveal(rounds_ok_s);
        }
        let Commited { data: mut cur, ptree: mut cur_tree } = c0;
        let mut round: usize = 0;
        while round < d
            invariant
                round <= d,
                d == self.queries@.len(),
                self.cfg_ok(),
                d <= 32,
                logr <= 20,
                logr as nat == self.logr(),
                self.rate as int == pow2(logr as nat),
                nd as int == pow2(d as nat),
                n0 == nd as int * self.rate as int,
                ev0 == evals0_s(c_pad, n0),
                c_pad == padded_coeffs_s(
                    polynomial.coefficients@,
                    polynomial.degree as int,
                    nd as int,
                ),
                polynomial.degree < nd,
                st_init == ratchet_next_s(
                    absorb_next_s(
                        keccak_of(fri_label_s(d as int, self.rate, self.queries@)),
                        merkle_root_of(ev0),
                    ),
                ),
                pt_inv(&pt),
                pt.sched_s() == self.sched_s(),
                pt.sched_s().skip(pt.pos_s()) == rounds_ops_s(
                    d as int,
                    logr as int,
                    self.queries@,
                    round as int,
                ),
                cur.wf(),
                cur.evals@.len() as int == pow2((d - round) as nat) * self.rate as int,
                cur.evals@.len() <= 0x80000000,
                smooth_int(cur.evals@.len() as int),
                cur_tree.wf(),
                cur_tree.leaf_count() == cur.evals@.len(),
                forall|x: int|
                    0 <= x < cur.evals@.len() ==> cur_tree.levels_s()[0][x] == felt_leaf_digest(
                        #[trigger] cur.evals@[x],
                    ),
                rounds_stout_s(
                    st_init,
                    out_init,
                    ev0,
                    d as int,
                    logr as int,
                    self.queries@,
                    0,
                ) == rounds_stout_s(
                    pt.state_s(),
                    pt.out_s(),
                    cur.evals@,
                    d as int,
                    logr as int,
                    self.queries@,
                    round as int,
                ),
                rounds_ok_s(st_init, ev0, d as int, logr as int, self.queries@, 0) == rounds_ok_s(
                    pt.state_s(),
                    cur.evals@,
                    d as int,
                    logr as int,
                    self.queries@,
                    round as int,
                ),
            decreases d - round,
        {
            let ghost st_r = pt.state_s();
            let ghost out_r = pt.out_s();
            let ghost evg = cur.evals@;
            proof {
                lemma_round_sizes(
                    d as int,
                    round as int,
                    self.rate,
                    logr as nat,
                    cur.evals@.len() as int,
                );
                lemma_round_tree_height(&cur_tree, d as int, round as int, self.rate, logr as nat);
                // the suffix opens with this round's operations
                assert(rounds_ops_s(d as int, logr as int, self.queries@, round as int) =~= seq![
                    Op::Squeeze(8),
                    Op::Absorb(32),
                ] + queries_block_s(
                    (d - round) as int + logr as int,
                    self.queries@[round as int] as int,
                ) + rounds_ops_s(d as int, logr as int, self.queries@, round as int + 1));
            }
            let ghost hh = (d - round) as int + logr as int;
            let ghost rest = rounds_ops_s(d as int, logr as int, self.queries@, round as int + 1);
            let qn = self.queries[round];
            proof {
                assert(pt.sched_s().skip(pt.pos_s()) =~= seq![Op::Squeeze(8), Op::Absorb(32)]
                    + queries_block_s(cur_tree.levels_s().len() - 1, qn as int) + rest);
            }
            let nx = match emit_round(&mut pt, cur, cur_tree, qn, Ghost(rest)) {
                Ok(nx) => nx,
                Err(e) => {
                    proof {
                        // the challenge fell in the domain: the run is not
                        // an accepting one
                        reveal(rounds_ok_s);
                        assert(!rounds_ok_s(
                            st_r,
                            evg,
                            d as int,
                            logr as int,
                            self.queries@,
                            round as int,
                        ));
                        assert(!rounds_ok_s(st_init, ev0, d as int, logr as int, self.queries@, 0));
                        assert(pow2(self.d() as nat) as int == nd as int);
                        assert(!prove_ok_s(
                            self.d(),
                            self.logr() as int,
                            self.rate,
                            self.queries@,
                            c_pad,
                        ));
                    }
                    return Err(e);
                },
            };
            cur = nx.0;
            cur_tree = nx.1;
            proof {
                lemma_rounds_step(
                    st_r,
                    out_r,
                    evg,
                    pt.state_s(),
                    pt.out_s(),
                    cur.evals@,
                    d as int,
                    logr as int,
                    self.queries@,
                    round as int,
                );
                lemma_round_sizes(
                    d as int,
                    round as int,
                    self.rate,
                    logr as nat,
                    evg.len() as int,
                );
                // the acceptance predicate steps with the round
                reveal(rounds_ok_s);
                lemma_round_st_indep(st_r, out_r, Seq::empty(), evg, hh, qn as nat);
                assert(rounds_ok_s(st_r, evg, d as int, logr as int, self.queries@, round as int)
                    == rounds_ok_s(
                    pt.state_s(),
                    cur.evals@,
                    d as int,
                    logr as int,
                    self.queries@,
                    round as int + 1,
                ));
            }
            round = round + 1;
        }
        proof {
            reveal(rounds_ok_s);
            assert(rounds_ok_s(st_init, ev0, d as int, logr as int, self.queries@, 0));
            assert(pow2(self.d() as nat) as int == nd as int);
            assert(prove_ok_s(self.d(), self.logr() as int, self.rate, self.queries@, c_pad));
            assert(pt.sched_s().skip(pt.pos_s()) =~= Seq::<Op>::empty());
            assert(pt.sched_s().skip(pt.pos_s()).len() == pt.sched_s().len() - pt.pos_s());
            assert(pt.pos_s() == pt.sched_s().len());
        }
        match pt.finish() {
            Ok(b) => {
                proof {
                    reveal(rounds_stout_s);
                    reveal(prove_bytes_s);
                    assert(pt.sched_s().take(pt.sched_s().len() as int) =~= pt.sched_s());
                    assert(b@ == prove_bytes_s(
                        self.d(),
                        self.logr() as int,
                        self.rate,
                        self.queries@,
                        c_pad,
                    ));
                }
                Ok(b)
            },
            Err(e) => {
                proof {
                    assert(false);
                }
                Err(e)
            },
        }
    }
}

/// The path an opening returns is the mirrored path of the table the tree
/// commits to.
proof fn lemma_exec_path_is_spec(t: &MerkleTree, ev: Seq<u64>, path: Seq<Vec<u8>>, index: int)
    requires
        t.wf(),
        0 <= index < t.leaf_count(),
        t.leaf_count() == ev.len(),
        forall|x: int|
            0 <= x < ev.len() ==> t.levels_s()[0][x] == felt_leaf_digest(#[trigger] ev[x]),
        path.len() == t.levels_s().len() - 1,
        forall|k: int|
            0 <= k < path.len() ==> (#[trigger] path[k])@ == t.levels_s()[k][crate::merkletree::sibling_index(
                index,
                k,
            )],
    ensures
        crate::merkletree::digests_of(path) == path_digests_s(
            table_digests(ev),
            index,
            t.levels_s().len() - 1,
        ),
{
    let h = t.levels_s().len() - 1;
    assert(t.levels_s()[0] =~= table_digests(ev));
    assert forall|k: int|
        0 <= k < h implies crate::merkletree::digests_of(path)[k] == path_digests_s(
        table_digests(ev),
        index,
        h,
    )[k] by {
        lemma_levels_determined(t, k);
        assert(path[k]@ == t.levels_s()[k][crate::merkletree::sibling_index(index, k)]);
        assert(crate::merkletree::level_at(t.levels_s()[0], k) == crate::merkletree::level_at(
            table_digests(ev),
            k,
        ));
    }
    assert(crate::merkletree::digests_of(path) =~= path_digests_s(table_digests(ev), index, h));
}



impl FRIProtocol {
    /// Checks a proximity proof against a commitment. For a valid
    /// instance the result is exactly the mirror's decision on the
    /// buffer: a wrong length is a serialization failure; otherwise the
    /// verifier accepts precisely when the statement matches the
    /// commitment, every opened value is a canonical encoding, every
    /// opening checks against its round's commitment, every query
    /// satisfies the fold equation, and the final commitment is that of
    /// the constant polynomial holding the last fold value.
    #[verifier::rlimit(100)]
    pub fn verify(&self, proof: Vec<u8>, commitment: &Vec<u8>) -> (r: Result<(), ProofError>)
        ensures
            !self.cfg_ok() ==> r == Err::<(), ProofError>(ProofError::ConfigError),
            self.cfg_ok() ==> r == verify_res_s(
                self.d(),
                self.logr() as int,
                self.rate,
                self.queries@,
                commitment@,
                proof@,
            ),
            self.cfg_ok() && proof@.len() != absorb_total(self.sched_s()) ==> r == Err::<
                (),
                ProofError,
            >(ProofError::SerializationError),
            r is Ok <==> self.cfg_ok() && verify_accepts(
                self.d(),
                self.logr() as int,
                self.rate,
                self.queries@,
                commitment@,
                proof@,
            ),
            r is Ok ==> self.cfg_ok() && proof@.len() == absorb_total(self.sched_s()),
    {
        proof {
            reveal(verify_res_s);
        }
        if !self.check_config() {
            return Err(ProofError::ConfigError);
        }
        let d = self.queries.len();
        let logr = self.log_rate();
        let ds = self.new_pp_proof();
        proof {
            lemma_fri_total_bound(d as int, logr as int, self.queries@);
        }
        let mut vt = match ds.to_verifier_state(proof) {
            Ok(v) => v,
            Err(_) => {
                return Err(ProofError::SerializationError);
            },
        };
        // the starting domain and its root
        let mut nd: u64 = 1;
        let mut j: usize = 0;
        proof {
            lemma2_to64();
        }
        while j < d
            invariant
                j <= d,
                d <= 32,
                nd as int == pow2(j as nat),
                nd <= 0x100000000,
            decreases d - j,
        {
            proof {
                lemma_pow2_adds(j as nat, 1);
                lemma2_to64();
                lemma_pow2_strictly_increases(j as nat, 33);
                assert(pow2(33) == 0x200000000) by {
                    lemma2_to64_rest();
                }
            }
            nd = nd * 2;
            j = j + 1;
        }
        proof {
            assert(pow2(self.queries@.len() as nat) * self.rate as int <= 0x80000000);
        }
        let n0u: u64 = nd * self.rate;
        let w = match root_of_unity(n0u) {
            Ok(w) => w,
            Err(_) => {
                proof {
                    lemma_pow2_adds(d as nat, logr as nat);
                    assert(d + logr <= 32) by {
                        if d + logr >= 33 {
                            lemma_pow2_strictly_increases(32, (d + logr) as nat);
                            lemma2_to64();
                        }
                    }
                    assert(crate::fields::is_smooth_order(n0u)) by {
                        assert(n0u as int == pow2((d + logr) as nat));
                    }
                    assert(false);
                }
                return Err(ProofError::ConfigError);
            },
        };
        proof {
            // the schedule opens with the statement and a ratchet
            assert(vt.sched_s().take(0) =~= Seq::<Op>::empty());
            assert(vt.sched_s()[0] == Op::Absorb(32) && vt.sched_s()[1] == Op::Ratchet) by {
                assert(fri_ops_s(d as int, logr as int, self.queries@)[0] == Op::Absorb(32));
                assert(fri_ops_s(d as int, logr as int, self.queries@)[1] == Op::Ratchet);
            }
            lemma_rounds_total_bound(d as int, logr as int, self.queries@, 0);
        }
        let c0 = vt_read(&mut vt, 32);
        if !bytes_eq(&c0, commitment) {
            return Err(ProofError::InvalidProof);
        }
        vt_ratchet(&mut vt);
        let ghost st2g = vt.state_s();
        proof {
            assert(st2g == ratchet_next_s(
                absorb_next_s(
                    keccak_of(fri_label_s(self.d(), self.rate, self.queries@)),
                    proof@.subrange(0, 32),
                ),
            ));
            assert(proof@.subrange(0, 32) == commitment@);
            assert(vt.sched_s().skip(2) =~= rounds_ops_s(d as int, logr as int, self.queries@, 0));
            assert(vt.sched_s().take(2).drop_last() =~= vt.sched_s().take(1));
            assert(vt.sched_s().take(1).drop_last() =~= Seq::<Op>::empty());
            assert(vt.rd_s() == 32);
            reveal(vrounds_s);
        }
        let mut cur_com: Vec<u8> = c0;
        let mut fold_val: u64 = 0;
        let mut ni: u64 = n0u;
        let mut pw: u64 = 1;
        let mut round: usize = 0;
        while round < d
            invariant
                round <= d,
                d == self.queries@.len(),
                self.cfg_ok(),
                d <= 32,
                logr <= 20,
                logr as nat == self.logr(),
                self.rate as int == pow2(logr as nat),
                in_field(w),
                w as int == omega_of(n0u as int),
                in_field(fold_val),
                nd as int == pow2(d as nat),
                n0u == nd * self.rate,
                n0u <= 0x80000000,
                ni <= 0x80000000,
                ni as int == pow2((d - round) as nat) * self.rate as int,
                pw as int == pow2(round as nat),
                ni as int * pw as int == n0u as int,
                proof@.len() == absorb_total(self.sched_s()),
                proof@.len() >= 32,
                proof@.subrange(0, 32) == commitment@,
                st2g == ratchet_next_s(
                    absorb_next_s(
                        keccak_of(fri_label_s(d as int, self.rate, self.queries@)),
                        proof@.subrange(0, 32),
                    ),
                ),
                vt_inv(&vt),
                vt.sched_s() == self.sched_s(),
                vt.sched_s() == fri_ops_s(d as int, logr as int, self.queries@),
                vt.proof_s() == proof@,
                vt.sched_s().skip(vt.pos_s()) == rounds_ops_s(
                    d as int,
                    logr as int,
                    self.queries@,
                    round as int,
                ),
                vrounds_s(
                    st2g,
                    32,
                    commitment@,
                    0u64,
                    proof@,
                    d as int,
                    logr as int,
                    self.rate,
                    self.queries@,
                    n0u as int,
                    0,
                ) == vrounds_s(
                    vt.state_s(),
                    vt.rd_s(),
                    cur_com@,
                    fold_val,
                    proof@,
                    d as int,
                    logr as int,
                    self.rate,
                    self.queries@,
                    n0u as int,
                    round as int,
                ),
            decreases d - round,
        {
            let ghost st_r = vt.state_s();
            let ghost rd_r = vt.rd_s();
            let ghost com_r = cur_com@;
            let ghost fv_r = fold_val;
            let ghost pos_r = vt.pos_s();
            let qn = self.queries[round];
            let l: usize = (d - round) + (logr as usize);
            proof {
                lemma2_to64();
                lemma_pow2_adds((d - round - 1) as nat, 1);
                assert(ni as int == 2 * (pow2((d - round - 1) as nat) * self.rate as int)) by (
                nonlinear_arith)
                    requires
                        ni as int == pow2((d - round) as nat) * self.rate as int,
                        pow2((d - round) as nat) == 2 * pow2((d - round - 1) as nat),
                ;
                assert(pow2((d - round - 1) as nat) * self.rate as int >= 1 * 2) by (
                nonlinear_arith)
                    requires
                        pow2((d - round - 1) as nat) >= 1,
                        self.rate >= 2,
                ;
                // the suffix opens with this round's challenge and commitment
                assert(rounds_ops_s(d as int, logr as int, self.queries@, round as int) == seq![
                    Op::Squeeze(8),
                    Op::Absorb(32),
                ] + queries_block_s(l as int, qn as int) + rounds_ops_s(
                    d as int,
                    logr as int,
                    self.queries@,
                    round as int + 1,
                ));
                assert(vt.sched_s().skip(pos_r) =~= seq![Op::Squeeze(8), Op::Absorb(32)] + (
                queries_block_s(l as int, qn as int) + rounds_ops_s(
                    d as int,
                    logr as int,
                    self.queries@,
                    round as int + 1,
                )));
                lemma_skip_add(
                    vt.sched_s(),
                    pos_r,
                    seq![Op::Squeeze(8), Op::Absorb(32)],
                    queries_block_s(l as int, qn as int) + rounds_ops_s(
                        d as int,
                        logr as int,
                        self.queries@,
                        round as int + 1,
                    ),
                );
                assert(vt.sched_s()[pos_r] == Op::Squeeze(8)) by {
                    assert(seq![Op::Squeeze(8), Op::Absorb(32)][0] == Op::Squeeze(8));
                }
                assert(vt.sched_s()[pos_r + 1] == Op::Absorb(32)) by {
                    assert(seq![Op::Squeeze(8), Op::Absorb(32)][1] == Op::Absorb(32));
                }
            }
            let ch = vt_chal(&mut vt, 8);
            let alpha = from_be_bytes_mod_order(&ch);
            proof {
                assert(alpha == alpha_of(st_r));
            }
            let next_com = vt_read(&mut vt, 32);
            let half: u64 = ni / 2;
            let ghost st_q0 = vt.state_s();
            let ghost rd_q0 = vt.rd_s();
            let ghost fv_q0 = fold_val;
            let ghost rest_r = rounds_ops_s(d as int, logr as int, self.queries@, round as int + 1);
            proof {
                assert(vt.sched_s().skip(vt.pos_s()) == queries_block_s(l as int, qn as int)
                    + rest_r) by {
                    lemma_skip_add(
                        vt.sched_s(),
                        pos_r,
                        seq![Op::Squeeze(8), Op::Absorb(32)],
                        queries_block_s(l as int, qn as int) + rest_r,
                    );
                    assert(vt.sched_s().skip(pos_r) =~= seq![Op::Squeeze(8), Op::Absorb(32)] + (
                    queries_block_s(l as int, qn as int) + rest_r));
                }
                reveal(vqueries_s);
            }
            let mut q: u32 = 0;
            while q < qn
                invariant
                    q <= qn,
                    self.cfg_ok(),
                    in_field(w),
                    w as int == omega_of(n0u as int),
                    in_field(fold_val),
                    in_field(alpha),
                    l <= 52,
                    1 <= l,
                    l == (d - round) + logr,
                    round < d,
                    d == self.queries@.len(),
                    ni == 2 * half,
                    half >= 2,
                    ni <= 0x80000000,
                    pw >= 1,
                    pw as int == pow2(round as nat),
                    ni as int * pw as int == n0u as int,
                    n0u <= 0x80000000,
                    proof@.len() == absorb_total(self.sched_s()),
                    proof@.len() >= 32,
                    proof@.subrange(0, 32) == commitment@,
                    st2g == ratchet_next_s(
                        absorb_next_s(
                            keccak_of(fri_label_s(d as int, self.rate, self.queries@)),
                            proof@.subrange(0, 32),
                        ),
                    ),
                    vt_inv(&vt),
                    vt.sched_s() == self.sched_s(),
                    vt.proof_s() == proof@,
                    vt.sched_s().skip(vt.pos_s()) == queries_block_s(l as int, (qn - q) as int)
                        + rest_r,
                    alpha == alpha_of(st_r),
                    st_q0 == absorb_next_s(squeeze_next_s(st_r), next_com@),
                    next_com@ == proof@.subrange(rd_r, rd_r + 32),
                    rd_q0 == rd_r + 32,
                    fv_q0 == fv_r,
                    in_field(fv_r),
                    ni as int == pow2((d - round) as nat) * self.rate as int,
                    self.rate as int == pow2(logr as nat),
                    logr as nat == self.logr(),
                    logr <= 20,
                    d <= 32,
                    nd as int == pow2(d as nat),
                    n0u == nd * self.rate,
                    qn == self.queries@[round as int],
                    rest_r == rounds_ops_s(d as int, logr as int, self.queries@, round as int + 1),
                    vrounds_s(
                        st2g,
                        32,
                        commitment@,
                        0u64,
                        proof@,
                        d as int,
                        logr as int,
                        self.rate,
                        self.queries@,
                        n0u as int,
                        0,
                    ) == vrounds_s(
                        st_r,
                        rd_r,
                        com_r,
                        fv_r,
                        proof@,
                        d as int,
                        logr as int,
                        self.rate,
                        self.queries@,
                        n0u as int,
                        round as int,
                    ),
                    vqueries_s(
                        st_q0,
                        rd_q0,
                        proof@,
                        com_r,
                        next_com@,
                        ni as int,
                        l as int,
                        alpha,
                        pw as int,
                        n0u as int,
                        fv_q0,
                        q as nat,
                    ) == Ok::<(Seq<u8>, int, u64), ProofError>((vt.state_s(), vt.rd_s(), fold_val)),
                    cur_com@ == com_r,
                decreases qn - q,
            {
                let ghost st_q = vt.state_s();
                let ghost rd_q = vt.rd_s();
                let ghost pos_q = vt.pos_s();
                proof {
                    lemma_block_front(l as int, (qn - q) as int);
                    assert(vt.sched_s().skip(pos_q) =~= query_ops_s(l as int) + (queries_block_s(
                        l as int,
                        (qn - q) as int - 1,
                    ) + rest_r));
                    lemma_skip_add(
                        vt.sched_s(),
                        pos_q,
                        query_ops_s(l as int),
                        queries_block_s(l as int, (qn - q) as int - 1) + rest_r,
                    );
                    assert forall|k: int| 0 <= k < 7 implies #[trigger] vt.sched_s()[pos_q + k]
                        == query_ops_s(l as int)[k] by {
                        assert(query_ops_s(l as int).len() == 7);
                    }
                    assert(vt.sched_s()[pos_q] == Op::Squeeze(2)) by {
                        assert(query_ops_s(l as int)[0] == Op::Squeeze(2));
                    }
                    assert(vt.sched_s()[pos_q + 1] == Op::Absorb(8));
                    assert(vt.sched_s()[pos_q + 2] == Op::Absorb((32 * l) as u64));
                    assert(vt.sched_s()[pos_q + 3] == Op::Absorb(8));
                    assert(vt.sched_s()[pos_q + 4] == Op::Absorb((32 * l) as u64));
                    assert(vt.sched_s()[pos_q + 5] == Op::Absorb(8));
                    assert(vt.sched_s()[pos_q + 6] == Op::Absorb((32 * (l - 1)) as u64));
                }
                let fv = match vcheck_query(&mut vt, &cur_com, &next_com, ni, l, w, pw, n0u, alpha) {
                    Ok(fv) => fv,
                    Err(e) => {
                        proof {
                            // the failure propagates through the mirror
                            reveal(vqueries_s);
                            assert(vqueries_s(
                                st_q0,
                                rd_q0,
                                proof@,
                                com_r,
                                next_com@,
                                ni as int,
                                l as int,
                                alpha,
                                pw as int,
                                n0u as int,
                                fv_q0,
                                (q + 1) as nat,
                            ) == Err::<(Seq<u8>, int, u64), ProofError>(e));
                            lemma_vqueries_err(
                                st_q0,
                                rd_q0,
                                proof@,
                                com_r,
                                next_com@,
                                ni as int,
                                l as int,
                                alpha,
                                pw as int,
                                n0u as int,
                                fv_q0,
                                (q + 1) as nat,
                                qn as nat,
                                e,
                            );
                            reveal(vround_s);
                            assert(vround_s(
                                st_r,
                                rd_r,
                                proof@,
                                com_r,
                                ni as int,
                                l as int,
                                pw as int,
                                n0u as int,
                                qn as nat,
                                fv_r,
                            ) == Err::<(Seq<u8>, int, Seq<u8>, u64), ProofError>(e));
                            reveal(vrounds_s);
                            assert(vrounds_s(
                                st2g,
                                32,
                                commitment@,
                                0u64,
                                proof@,
                                d as int,
                                logr as int,
                                self.rate,
                                self.queries@,
                                n0u as int,
                                0,
                            ) == Err::<(Seq<u8>, int, Seq<u8>, u64), ProofError>(e));
                            reveal(verify_res_s);
                        }
                        return Err(e);
                    },
                };
                fold_val = fv;
                proof {
                    reveal(vqueries_s);
                    assert(vt.sched_s().skip(vt.pos_s()) == queries_block_s(
                        l as int,
                        (qn - q) as int - 1,
                    ) + rest_r) by {
                        lemma_skip_add(
                            vt.sched_s(),
                            pos_q,
                            query_ops_s(l as int),
                            queries_block_s(l as int, (qn - q) as int - 1) + rest_r,
                        );
                    }
                }
                q = q + 1;
            }
            proof {
                // one round checked
                reveal(vround_s);
                assert(vround_s(
                    st_r,
                    rd_r,
                    proof@,
                    com_r,
                    ni as int,
                    l as int,
                    pw as int,
                    n0u as int,
                    qn as nat,
                    fv_r,
                ) == Ok::<(Seq<u8>, int, Seq<u8>, u64), ProofError>(
                    (vt.state_s(), vt.rd_s(), next_com@, fold_val),
                ));
                reveal(vrounds_s);
                lemma2_to64();
                lemma_pow2_adds(round as nat, 1);
                assert((ni as int / 2) * (pw as int * 2) == ni as int * pw as int) by (
                nonlinear_arith)
                    requires
                        ni as int == 2 * (ni as int / 2),
                ;
                assert(queries_block_s(l as int, 0) =~= Seq::<Op>::empty());
                assert(Seq::<Op>::empty() + rest_r =~= rest_r);
            }
            cur_com = next_com;
            ni = ni / 2;
            pw = pw * 2;
            round = round + 1;
        }
        // terminal check: the last commitment must be that of the constant
        // polynomial holding the last fold value
        let mut cvec: Vec<u64> = Vec::new();
        cvec.push(fold_val);
        proof {
            assert(all_in_field(cvec@));
        }
        let cpoly = PolynomialCoefficient::new(0, cvec);
        proof {
            assert((0 + 1) * self.rate as int == self.rate as int) by (nonlinear_arith);
        }
        let cpp = match cpoly.fft(self.rate) {
            Ok(p) => p,
            Err(_) => {
                proof {
                    assert(crate::polynomial::domain_ok(self.rate as int));
                    assert(false);
                }
                return Err(ProofError::ConfigError);
            },
        };
        proof {
            reveal(evals0_s);
            assert(cpp.evals@ =~= evals0_s(seq![fold_val], self.rate as int)) by {
                assert(cpoly.coeffs_s() =~= seq![fold_val]);
            }
        }
        let cc = cpp.commit();
        let croot = cc.ptree.root();
        proof {
            reveal(vrounds_s);
            reveal(verify_res_s);
        }
        if !bytes_eq(&croot, &cur_com) {
            return Err(ProofError::InvalidProof);
        }
        Ok(())
    }

}

/// A rejected query rejects the whole block of queries.
proof fn lemma_vqueries_err(
    st: Seq<u8>,
    rd: int,
    proof: Seq<u8>,
    com: Seq<u8>,
    ncom: Seq<u8>,
    ni: int,
    hh: int,
    alpha: u64,
    pw: int,
    n0: int,
    fv0: u64,
    a: nat,
    b: nat,
    e: ProofError,
)
    requires
        a <= b,
        vqueries_s(st, rd, proof, com, ncom, ni, hh, alpha, pw, n0, fv0, a) == Err::<
            (Seq<u8>, int, u64),
            ProofError,
        >(e),
    ensures
        vqueries_s(st, rd, proof, com, ncom, ni, hh, alpha, pw, n0, fv0, b) == Err::<
            (Seq<u8>, int, u64),
            ProofError,
        >(e),
    decreases b - a,
{
    reveal(vqueries_s);
    if b > a {
        lemma_vqueries_err(st, rd, proof, com, ncom, ni, hh, alpha, pw, n0, fv0, a, (b - 1) as nat, e);
    }
}

/// Checks one query against the running commitments: reads the three
/// openings out of the buffer, refuses a non-canonical value, verifies
/// each path and the fold equation. The result is exactly the mirrored
/// decision of one query, error kind included, and on success the
/// transcript advances by exactly the mirrored transition.
#[verifier::rlimit(100)]
fn vcheck_query(
    vt: &mut crate::transcript::VerifierTranscript,
    com: &Vec<u8>,
    ncom: &Vec<u8>,
    ni: u64,
    l: usize,
    w: u64,
    pw: u64,
    n0u: u64,
    alpha: u64,
) -> (r: Result<u64, ProofError>)
    requires
        in_field(w),
        in_field(alpha),
        w as int == omega_of(n0u as int),
        ni == 2 * (ni / 2),
        ni >= 2,
        ni <= 0x80000000,
        pw >= 1,
        ni as int * pw as int == n0u as int,
        n0u <= 0x80000000,
        1 <= l <= 52,
        vt_inv(old(vt)),
        old(vt).proof_s().len() == absorb_total(old(vt).sched_s()),
        old(vt).pos_s() + 7 <= old(vt).sched_s().len(),
        old(vt).sched_s()[old(vt).pos_s()] == Op::Squeeze(2),
        old(vt).sched_s()[old(vt).pos_s() + 1] == Op::Absorb(8),
        old(vt).sched_s()[old(vt).pos_s() + 2] == Op::Absorb((32 * l) as u64),
        old(vt).sched_s()[old(vt).pos_s() + 3] == Op::Absorb(8),
        old(vt).sched_s()[old(vt).pos_s() + 4] == Op::Absorb((32 * l) as u64),
        old(vt).sched_s()[old(vt).pos_s() + 5] == Op::Absorb(8),
        old(vt).sched_s()[old(vt).pos_s() + 6] == Op::Absorb((32 * (l - 1)) as u64),
    ensures
        r matches Ok(fv) ==> vquery_s(
            old(vt).state_s(),
            old(vt).rd_s(),
            old(vt).proof_s(),
            com@,
            ncom@,
            ni as int,
            l as int,
            alpha,
            pw as int,
            n0u as int,
        ) == Ok::<(Seq<u8>, int, u64), ProofError>(
            (final(vt).state_s(), final(vt).rd_s(), fv),
        ) && vt_inv(final(vt)) && final(vt).pos_s() == old(vt).pos_s() + 7 && final(vt).sched_s()
            == old(vt).sched_s() && final(vt).proof_s() == old(vt).proof_s() && in_field(fv),
        r matches Err(e) ==> vquery_s(
            old(vt).state_s(),
            old(vt).rd_s(),
            old(vt).proof_s(),
            com@,
            ncom@,
            ni as int,
            l as int,
            alpha,
            pw as int,
            n0u as int,
        ) == Err::<(Seq<u8>, int, u64), ProofError>(e) && final(vt).sched_s() == old(
            vt,
        ).sched_s() && final(vt).proof_s() == old(vt).proof_s(),
{
    proof {
        reveal(vquery_s);
    }
    let ghost st_q = vt.state_s();
    let qb = vt_chal(vt, 2);
    proof {
        assert(be_val(qb@) == qb@[0] * 256 + qb@[1]) by {
            reveal_with_fuel(be_val, 3);
            assert(qb@.drop_last() =~= seq![qb@[0]]);
            assert(seq![qb@[0]].drop_last() =~= Seq::<u8>::empty());
            assert(qb@.last() == qb@[1]);
            assert(seq![qb@[0]].last() == qb@[0]);
        }
    }
    let half: u64 = ni / 2;
    let j0u: u64 = ((qb[0] as u64) * 256 + (qb[1] as u64)) % ni;
    proof {
        assert(j0u as int == qindex_of(st_q, ni as int));
    }
    let j1u: u64 = if j0u < half {
        j0u + half
    } else {
        j0u - half
    };
    let jfu: u64 = if j0u < half {
        j0u
    } else {
        j0u - half
    };
    let l0b = vt_read(vt, 8);
    let leaf0 = crate::fields::u64_from_be_bytes(&l0b);
    if leaf0 >= FIELD_MODULUS {
        return Err(ProofError::SerializationError);
    }
    let p0b = vt_read(vt, 32 * l);
    proof {
        assert(p0b@.len() % 32 == 0) by {
            lemma_mod_multiples_basic(l as int, 32);
        }
    }
    let path0 = bytes_to_path(&p0b);
    if !check_path(leaf0, j0u as usize, &path0, com) {
        return Err(ProofError::InvalidProof);
    }
    let l1b = vt_read(vt, 8);
    let leaf1 = crate::fields::u64_from_be_bytes(&l1b);
    if leaf1 >= FIELD_MODULUS {
        return Err(ProofError::SerializationError);
    }
    let p1b = vt_read(vt, 32 * l);
    proof {
        assert(p1b@.len() % 32 == 0) by {
            lemma_mod_multiples_basic(l as int, 32);
        }
    }
    let path1 = bytes_to_path(&p1b);
    if !check_path(leaf1, j1u as usize, &path1, com) {
        return Err(ProofError::InvalidProof);
    }
    let fvb = vt_read(vt, 8);
    let fold_val = crate::fields::u64_from_be_bytes(&fvb);
    if fold_val >= FIELD_MODULUS {
        return Err(ProofError::SerializationError);
    }
    let pfb = vt_read(vt, 32 * (l - 1));
    proof {
        assert(pfb@.len() % 32 == 0) by {
            lemma_mod_multiples_basic(l as int - 1, 32);
        }
    }
    let pathf = bytes_to_path(&pfb);
    if !check_path(fold_val, jfu as usize, &pathf, ncom) {
        return Err(ProofError::InvalidProof);
    }
    proof {
        lemma_pow2_pos(0);
        lemma_mul_strict_inequality(j0u as int, ni as int, pw as int);
        lemma_mul_nonnegative(j0u as int, pw as int);
    }
    let e: u64 = j0u * pw;
    if !check_fold_equation(fold_val, leaf0, leaf1, w, e, n0u, alpha) {
        return Err(ProofError::InvalidProof);
    }
    proof {
        assert(vquery_s(
            st_q,
            old(vt).rd_s(),
            old(vt).proof_s(),
            com@,
            ncom@,
            ni as int,
            l as int,
            alpha,
            pw as int,
            n0u as int,
        ) == Ok::<(Seq<u8>, int, u64), ProofError>((vt.state_s(), vt.rd_s(), fold_val)));
    }
    Ok(fold_val)
}

/// Decides the fold equation for one query: exactly whether the claimed
/// folded value equals the fold formula of the two opened values at the
/// e-th point of the full domain of size n0. This is the rule the
/// verifier enforces on every query, whatever values the proof stream
/// hands it.
pub fn check_fold_equation(
    fold_value: u64,
    leaf0: u64,
    leaf1: u64,
    w: u64,
    e: u64,
    n0: u64,
    alpha: u64,
) -> (r: bool)
    requires
        in_field(fold_value),
        in_field(leaf0),
        in_field(leaf1),
        in_field(w),
        in_field(alpha),
        e <= n0,
    ensures
        r == (fold_value as int == fold_point_s(
            leaf0,
            leaf1,
            w as int,
            e as nat,
            n0 as nat,
            alpha,
        )),
{
    let x = felt_pow(w, e);
    let xinv = felt_pow(w, n0 - e);
    let s0 = felt_add(x, alpha);
    let s1 = felt_sub(x, alpha);
    let t0 = felt_mul(leaf0, s0);
    let t1 = felt_mul(leaf1, s1);
    let num = felt_add(t0, t1);
    proof {
        assert(in_field(INV_TWO));
    }
    let v = felt_mul(num, INV_TWO);
    let rhs = felt_mul(v, xinv);
    proof {
        lemma_fold_point(
            leaf0,
            leaf1,
            w,
            e as nat,
            n0 as nat,
            alpha,
            x as int,
            xinv as int,
            s0 as int,
            s1 as int,
            t0 as int,
            t1 as int,
            num as int,
            v as int,
            rhs as int,
        );
    }
    fold_value == rhs
}

/// A self-contained round trip on a tiny instance: proves a fixed cubic
/// polynomial and checks the proof against its commitment.
pub fn main_test() -> (r: bool) {
    let mut qs: Vec<u32> = Vec::new();
    qs.push(1u32);
    qs.push(1u32);
    let fri = FRIProtocol::new(qs, 2);
    let mut cs: Vec<u64> = Vec::new();
    cs.push(1u64);
    cs.push(2u64);
    cs.push(3u64);
    cs.push(4u64);
    let mut cs2: Vec<u64> = Vec::new();
    cs2.push(1u64);
    cs2.push(2u64);
    cs2.push(3u64);
    cs2.push(4u64);
    proof {
        assert(all_in_field(cs@));
        assert(all_in_field(cs2@));
    }
    let poly = PolynomialCoefficient::new(3, cs);
    let mirror = PolynomialCoefficient::new(3, cs2);
    let evals = match mirror.fft(2) {
        Ok(p) => p,
        Err(_) => {
            return false;
        },
    };
    if evals.evals.len() < 1 {
        return false;
    }
    let root = evals.commit().ptree.root();
    let p = match fri.prove(&poly) {
        Ok(p) => p,
        Err(_) => {
            return false;
        },
    };
    match fri.verify(p, &root) {
        Ok(_) => true,
        Err(_) => false,
    }
}


} // verus!
