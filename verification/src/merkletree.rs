//! Vector commitment: a fan-in-two Merkle tree over hashed field elements.
//!
//! Leaves are the canonical big-endian encodings of field elements; the leaf
//! hash and the two-to-one compressor are both instances of Keccak-256 under
//! distinct domain tags. The tree, the opening paths and the path checker are
//! verified against a recursive model of the root; only the hash call itself
//! is trusted.

use vstd::prelude::*;
use vstd::arithmetic::power2::*;
use vstd::arithmetic::div_mod::*;

use sha3::Digest;

use crate::fields::u64_be_spec;
use crate::fields::to_be_bytes;

verus! {

/// Domain tag prefixed to a leaf before hashing.
pub const LEAF_TAG: u8 = 0;

/// Domain tag prefixed to a pair of child digests before hashing.
pub const NODE_TAG: u8 = 1;

/// Width in bytes of a digest.
pub const DIGEST_BYTES: u64 = 32;

/// The hash domain used for leaves.
pub struct LeafWindow;

/// The hash domain used for inner two-to-one compression.
pub struct TwoToOneWindow;

impl LeafWindow {
    /// The byte that separates leaf hashing from inner hashing.
    pub fn domain_tag() -> (r: u8)
        ensures
            r == LEAF_TAG,
    {
        LEAF_TAG
    }
}

impl TwoToOneWindow {
    /// The byte that separates inner hashing from leaf hashing.
    pub fn domain_tag() -> (r: u8)
        ensures
            r == NODE_TAG,
    {
        NODE_TAG
    }
}

/// Shape parameters of the commitment layer.
pub struct MerkleConfig;

impl MerkleConfig {
    /// Width in bytes of a serialised digest.
    pub fn digest_bytes() -> (r: u64)
        ensures
            r == DIGEST_BYTES,
    {
        DIGEST_BYTES
    }

    /// Checks an opening path against a root; the result is exactly whether
    /// recomputing the branch from the leaf reproduces the root.
    pub fn verify_path(&self, leaf: u64, index: usize, path: &Vec<Vec<u8>>, root: &Vec<u8>) -> (r:
        bool)
        ensures
            r == (climb_s(felt_leaf_digest(leaf), index as nat, digests_of(path@)) == root@),
    {
        check_path(leaf, index, path, root)
    }
}

/// The views of a sequence of byte vectors.
pub open spec fn digests_of(s: Seq<Vec<u8>>) -> Seq<Seq<u8>> {
    Seq::new(s.len(), |i: int| s[i]@)
}

/// The views of a sequence of digest levels.
pub open spec fn levels_of(s: Seq<Vec<Vec<u8>>>) -> Seq<Seq<Seq<u8>>> {
    Seq::new(s.len(), |i: int| digests_of(s[i]@))
}

/// Name for the digest Keccak-256 returns: a function of the input bytes
/// alone, the same in every process.
pub uninterp spec fn keccak_of(bytes: Seq<u8>) -> Seq<u8>;

/// Relies on sha3::Keccak256: a deterministic digest of the input bytes,
/// 32 bytes wide.
#[verifier::external_body]
pub(crate) fn keccak256(bytes: &Vec<u8>) -> (r: Vec<u8>)
    ensures
        r@ == keccak_of(bytes@),
        r@.len() == 32,
{
    sha3::Keccak256::digest(bytes.as_slice()).to_vec()
}

/// Digest of one leaf: Keccak over the leaf tag and the leaf bytes.
pub open spec fn leaf_hash_s(leaf: Seq<u8>) -> Seq<u8> {
    keccak_of(seq![LEAF_TAG] + leaf)
}

/// Digest of an inner node: Keccak over the node tag and both child digests.
pub open spec fn node_hash_s(l: Seq<u8>, r: Seq<u8>) -> Seq<u8> {
    keccak_of(seq![NODE_TAG] + l + r)
}

/// Digest of a field element leaf in canonical encoding.
pub open spec fn felt_leaf_digest(v: u64) -> Seq<u8> {
    leaf_hash_s(u64_be_spec(v))
}

/// Copies `src` onto the end of `dst`.
pub(crate) fn extend_bytes(dst: &mut Vec<u8>, src: &Vec<u8>)
    ensures
        final(dst)@ == old(dst)@ + src@,
{
    let mut i: usize = 0;
    while i < src.len()
        invariant
            i <= src@.len(),
            dst@ == old(dst)@ + src@.take(i as int),
        decreases src@.len() - i,
    {
        dst.push(src[i]);
        proof {
            assert(old(dst)@ + src@.take(i + 1) =~= (old(dst)@ + src@.take(i as int)).push(
                src@[i as int],
            ));
        }
        i = i + 1;
    }
    proof {
        assert(src@.take(src@.len() as int) =~= src@);
    }
}

/// Byte-wise equality of two buffers.
pub fn bytes_eq(a: &Vec<u8>, b: &Vec<u8>) -> (r: bool)
    ensures
        r == (a@ == b@),
{
    if a.len() != b.len() {
        return false;
    }
    let mut i: usize = 0;
    while i < a.len()
        invariant
            i <= a@.len(),
            a@.len() == b@.len(),
            forall|j: int| 0 <= j < i ==> a@[j] == b@[j],
        decreases a@.len() - i,
    {
        if a[i] != b[i] {
            return false;
        }
        i = i + 1;
    }
    proof {
        assert(a@ =~= b@);
    }
    true
}

/// Hashes one leaf.
fn leaf_hash(leaf: &Vec<u8>) -> (r: Vec<u8>)
    ensures
        r@ == leaf_hash_s(leaf@),
        r@.len() == 32,
{
    let mut buf: Vec<u8> = Vec::new();
    buf.push(LeafWindow::domain_tag());
    proof {
        assert(buf@ =~= seq![LEAF_TAG]);
    }
    extend_bytes(&mut buf, leaf);
    keccak256(&buf)
}

/// Compresses two child digests into their parent digest.
fn node_hash(l: &Vec<u8>, r: &Vec<u8>) -> (d: Vec<u8>)
    ensures
        d@ == node_hash_s(l@, r@),
        d@.len() == 32,
{
    let mut buf: Vec<u8> = Vec::new();
    buf.push(TwoToOneWindow::domain_tag());
    proof {
        assert(buf@ =~= seq![NODE_TAG]);
    }
    extend_bytes(&mut buf, l);
    extend_bytes(&mut buf, r);
    keccak256(&buf)
}

/// The level above `level`: adjacent pairs compressed left-to-right.
pub open spec fn next_level_s(level: Seq<Seq<u8>>) -> Seq<Seq<u8>> {
    Seq::new((level.len() / 2) as nat, |i: int| node_hash_s(level[2 * i], level[2 * i + 1]))
}

/// The root obtained by compressing levels until one digest is left.
pub open spec fn root_s(level: Seq<Seq<u8>>) -> Seq<u8>
    decreases level.len(),
{
    if level.len() <= 1 {
        level[0]
    } else {
        root_s(next_level_s(level))
    }
}

/// Root over field-element leaves.
pub open spec fn merkle_root_of(leaves: Seq<u64>) -> Seq<u8> {
    root_s(leaves.map(|i: int, v: u64| felt_leaf_digest(v)))
}

/// The index of the sibling of the ancestor of `index` at level `k`.
pub open spec fn sibling_index(index: int, k: int) -> int {
    let idx = index / pow2(k as nat) as int;
    if idx % 2 == 1 {
        idx - 1
    } else {
        idx + 1
    }
}

/// Recomputation of a branch: starting from a leaf digest, fold in one
/// sibling per level, ordered by the index bit at that level.
pub open spec fn climb_s(d: Seq<u8>, idx: nat, path: Seq<Seq<u8>>) -> Seq<u8>
    decreases path.len(),
{
    if path.len() == 0 {
        d
    } else if idx % 2 == 1 {
        climb_s(node_hash_s(path[0], d), idx / 2, path.drop_first())
    } else {
        climb_s(node_hash_s(d, path[0]), idx / 2, path.drop_first())
    }
}

/// An authenticated Merkle tree: all levels kept, leaf digests first.
pub struct MerkleTree {
    levels: Vec<Vec<Vec<u8>>>,
}

impl MerkleTree {
    /// The digests of the tree, level by level.
    pub closed spec fn levels_s(&self) -> Seq<Seq<Seq<u8>>> {
        levels_of(self.levels@)
    }

    /// Number of committed leaves.
    pub open spec fn leaf_count(&self) -> nat {
        self.levels_s()[0].len()
    }

    /// Structural soundness: each level compresses the one below, the top
    /// level is a single digest, and every digest is 32 bytes.
    pub open spec fn wf(&self) -> bool {
        let ls = self.levels_s();
        &&& ls.len() >= 1
        &&& ls[ls.len() - 1].len() == 1
        &&& forall|k: int|
            0 <= k < ls.len() - 1 ==> ls[k + 1] == next_level_s(#[trigger] ls[k])
        &&& forall|k: int|
            0 <= k < ls.len() - 1 ==> (#[trigger] ls[k]).len() == 2 * ls[k + 1].len()
        &&& forall|k: int, i: int|
            0 <= k < ls.len() && 0 <= i < ls[k].len() ==> (#[trigger] ls[k][i]).len() == 32
    }

    /// The root digest.
    pub fn root(&self) -> (r: Vec<u8>)
        requires
            self.wf(),
        ensures
            r@ == root_s(self.levels_s()[0]),
            r@.len() == 32,
    {
        proof {
            lemma_root_at(self, self.levels_s().len() - 1);
            lemma_level_nonempty(self, self.levels_s().len() - 1);
        }
        let last = self.levels.len() - 1;
        self.levels[last][0].clone()
    }

    /// The number of levels above the leaves.
    pub fn height(&self) -> (r: usize)
        requires
            self.wf(),
        ensures
            r as int == self.levels_s().len() - 1,
    {
        self.levels.len() - 1
    }

    /// Number of committed leaves.
    pub fn len(&self) -> (r: usize)
        requires
            self.wf(),
        ensures
            r as nat == self.leaf_count(),
    {
        self.levels[0].len()
    }

    /// Produces the opening path for one leaf: the sibling digest at every
    /// level. Recomputing the branch from the stored leaf digest provably
    /// gives the root, which is what makes honest openings verify.
    #[verifier::rlimit(100)]
    pub fn open(&self, index: usize) -> (path: Vec<Vec<u8>>)
        requires
            self.wf(),
            index < self.leaf_count(),
        ensures
            path@.len() == self.levels_s().len() - 1,
            forall|i: int| 0 <= i < path@.len() ==> (#[trigger] path@[i])@.len() == 32,
            forall|k: int|
                0 <= k < path@.len() ==> (#[trigger] path@[k])@ == self.levels_s()[k][sibling_index(
                    index as int,
                    k,
                )],
            climb_s(self.levels_s()[0][index as int], index as nat, digests_of(path@)) == root_s(
                self.levels_s()[0],
            ),
    {
        let ghost ls = self.levels_s();
        let height = self.levels.len() - 1;
        let mut path: Vec<Vec<u8>> = Vec::new();
        let mut idx: usize = index;
        let mut k: usize = 0;
        proof {
            lemma2_to64();
            assert(digests_of(path@) =~= Seq::<Seq<u8>>::empty());
        }
        while k < height
            invariant
                self.wf(),
                ls == self.levels_s(),
                k <= height,
                height == ls.len() - 1,
                path@.len() == k,
                forall|i: int| 0 <= i < path@.len() ==> (#[trigger] path@[i])@.len() == 32,
                forall|x: int|
                    0 <= x < path@.len() ==> (#[trigger] path@[x])@ == ls[x][sibling_index(
                        index as int,
                        x,
                    )],
                idx as int == index as int / pow2(k as nat) as int,
                idx < ls[k as int].len(),
                index < ls[0].len(),
                climb_s(ls[0][index as int], index as nat, digests_of(path@)) == ls[k as int][idx as int],
            decreases height - k,
        {
            let ghost pre = digests_of(path@);
            proof {
                lemma2_to64();
                lemma_pow2_pos(k as nat);
                assert(ls[k as int].len() == 2 * ls[k as int + 1].len());
            }
            let sib_i: usize = if idx % 2 == 1 {
                idx - 1
            } else {
                idx + 1
            };
            let sib = self.levels[k][sib_i].clone();
            path.push(sib);
            proof {
                assert(self.levels@[k as int]@[sib_i as int]@ == ls[k as int][sib_i as int]);
                lemma_climb_push(ls[0][index as int], index as nat, pre, ls[k as int][sib_i as int]);
                assert(digests_of(path@) =~= pre.push(ls[k as int][sib_i as int]));
                // the partial climb lands on the parent node at the next level
                assert(ls[k as int + 1] == next_level_s(ls[k as int]));
                assert(next_level_s(ls[k as int])[idx as int / 2] == node_hash_s(
                    ls[k as int][2 * (idx as int / 2)],
                    ls[k as int][2 * (idx as int / 2) + 1],
                ));
                if idx % 2 == 1 {
                    assert(2 * (idx as int / 2) == idx - 1);
                } else {
                    assert(2 * (idx as int / 2) == idx as int);
                }
                lemma_pow2_adds(k as nat, 1);
                lemma_div_denominator(index as int, pow2(k as nat) as int, 2);
                assert(index as int / pow2(k as nat) as int / 2 == index as int / pow2(
                    (k + 1) as nat,
                ) as int);
            }
            idx = idx / 2;
            k = k + 1;
        }
        proof {
            assert(ls[height as int].len() == 1);
            assert(idx == 0);
            lemma_root_at(self, height as int);
        }
        path
    }
}

/// The root of every level equals the root of the leaf level.
proof fn lemma_root_at(t: &MerkleTree, j: int)
    requires
        t.wf(),
        0 <= j < t.levels_s().len(),
    ensures
        root_s(t.levels_s()[j]) == root_s(t.levels_s()[0]),
    decreases j,
{
    if j > 0 {
        let ls = t.levels_s();
        lemma_root_at(t, j - 1);
        lemma_level_nonempty(t, j);
        assert(ls[j - 1].len() == 2 * ls[j].len());
        assert(ls[j - 1].len() >= 2);
        assert(root_s(ls[j - 1]) == root_s(next_level_s(ls[j - 1])));
    }
}

/// Every level of a well-formed tree is non-empty.
proof fn lemma_level_nonempty(t: &MerkleTree, j: int)
    requires
        t.wf(),
        0 <= j < t.levels_s().len(),
    ensures
        t.levels_s()[j].len() >= 1,
    decreases t.levels_s().len() - j,
{
    let ls = t.levels_s();
    if j == ls.len() - 1 {
    } else {
        lemma_level_nonempty(t, j + 1);
        assert(ls[j].len() == 2 * ls[j + 1].len());
    }
}

/// Appending one sibling to a path extends the climb by one compression at
/// the level the path had reached.
proof fn lemma_climb_push(d: Seq<u8>, idx: nat, path: Seq<Seq<u8>>, s: Seq<u8>)
    ensures
        climb_s(d, idx, path.push(s)) == (if (idx / pow2(path.len()) as nat) % 2 == 1 {
            node_hash_s(s, climb_s(d, idx, path))
        } else {
            node_hash_s(climb_s(d, idx, path), s)
        }),
    decreases path.len(),
{
    lemma2_to64();
    if path.len() == 0 {
        assert(path.push(s)[0] == s);
        assert(path.push(s).drop_first() =~= Seq::<Seq<u8>>::empty());
        assert(path.push(s).len() == 1);
        assert(idx / pow2(0) as nat == idx);
        if idx % 2 == 1 {
            assert(climb_s(d, idx, path.push(s)) == climb_s(
                node_hash_s(s, d),
                idx / 2,
                Seq::<Seq<u8>>::empty(),
            ));
        } else {
            assert(climb_s(d, idx, path.push(s)) == climb_s(
                node_hash_s(d, s),
                idx / 2,
                Seq::<Seq<u8>>::empty(),
            ));
        }
    } else {
        assert(path.push(s)[0] == path[0]);
        assert(path.push(s).drop_first() =~= path.drop_first().push(s));
        let d2 = if idx % 2 == 1 {
            node_hash_s(path[0], d)
        } else {
            node_hash_s(d, path[0])
        };
        lemma_climb_push(d2, idx / 2, path.drop_first(), s);
        lemma_pow2_pos((path.len() - 1) as nat);
        lemma_pow2_adds((path.len() - 1) as nat, 1);
        lemma_div_denominator(idx as int, 2, pow2((path.len() - 1) as nat) as int);
        assert(idx as int / 2 / pow2((path.len() - 1) as nat) as int == idx as int / (2 * pow2(
            (path.len() - 1) as nat,
        ) as int));
        assert(2 * pow2((path.len() - 1) as nat) as int == pow2(path.len()) as int);
    }
}

/// Builds the authenticated tree over the canonical encodings of the given
/// field elements; the leaf count must be a power of two.
#[verifier::rlimit(100)]
pub fn new_merkle_tree(leaves: &Vec<u64>) -> (t: MerkleTree)
    requires
        leaves@.len() >= 1,
        exists|k: nat| k <= 32 && leaves@.len() == pow2(k),
    ensures
        t.wf(),
        t.leaf_count() == leaves@.len(),
        forall|i: int|
            0 <= i < leaves@.len() ==> t.levels_s()[0][i] == felt_leaf_digest(#[trigger] leaves@[i]),
{
    let mut level0: Vec<Vec<u8>> = Vec::new();
    let mut i: usize = 0;
    while i < leaves.len()
        invariant
            i <= leaves@.len(),
            level0@.len() == i,
            forall|j: int| 0 <= j < i ==> (#[trigger] level0@[j])@ == felt_leaf_digest(leaves@[j]),
            forall|j: int| 0 <= j < i ==> (#[trigger] level0@[j])@.len() == 32,
        decreases leaves@.len() - i,
    {
        let enc = to_be_bytes(leaves[i]);
        let d = leaf_hash(&enc);
        level0.push(d);
        i = i + 1;
    }
    let mut levels: Vec<Vec<Vec<u8>>> = Vec::new();
    levels.push(level0);
    proof {
        assert(levels_of(levels@)[0] =~= digests_of(levels@[0]@));
    }
    while levels[levels.len() - 1].len() > 1
        invariant
            levels@.len() >= 1,
            levels_of(levels@)[0].len() == leaves@.len(),
            forall|j: int|
                0 <= j < leaves@.len() ==> levels_of(levels@)[0][j] == felt_leaf_digest(
                    #[trigger] leaves@[j],
                ),
            forall|k: int|
                0 <= k < levels@.len() - 1 ==> levels_of(levels@)[k + 1] == next_level_s(
                    #[trigger] levels_of(levels@)[k],
                ),
            forall|k: int|
                0 <= k < levels@.len() - 1 ==> (#[trigger] levels_of(levels@)[k]).len() == 2
                    * levels_of(levels@)[k + 1].len(),
            forall|k: int, i2: int|
                0 <= k < levels@.len() && 0 <= i2 < levels_of(levels@)[k].len() ==> (
                #[trigger] levels_of(levels@)[k][i2]).len() == 32,
            exists|k: nat| k <= 32 && levels_of(levels@)[levels@.len() - 1].len() == pow2(k),
        decreases levels_of(levels@)[levels@.len() - 1].len(),
    {
        let cur_i = levels.len() - 1;
        let ghost cur = levels_of(levels@)[cur_i as int];
        proof {
            assert(cur =~= digests_of(levels@[cur_i as int]@));
            let k = choose|k: nat| k <= 32 && cur.len() == pow2(k);
            lemma2_to64();
            if k == 0 {
                assert(pow2(0) == 1);
                assert(false);
            }
            lemma_pow2_adds((k - 1) as nat, 1);
            assert(cur.len() == 2 * pow2((k - 1) as nat));
        }
        let mut next: Vec<Vec<u8>> = Vec::new();
        let mut j: usize = 0;
        let half = levels[cur_i].len() / 2;
        while j < half
            invariant
                levels@.len() == cur_i + 1,
                cur == levels_of(levels@)[cur_i as int],
                cur == digests_of(levels@[cur_i as int]@),
                cur.len() == 2 * half,
                levels@[cur_i as int]@.len() <= usize::MAX,
                forall|i2: int| 0 <= i2 < cur.len() ==> (#[trigger] cur[i2]).len() == 32,
                j <= half,
                next@.len() == j,
                forall|x: int|
                    0 <= x < j ==> (#[trigger] next@[x])@ == node_hash_s(cur[2 * x], cur[2 * x + 1]),
                forall|x: int| 0 <= x < j ==> (#[trigger] next@[x])@.len() == 32,
            decreases half - j,
        {
            proof {
                assert(levels@[cur_i as int]@.len() == cur.len());
                assert(levels@[cur_i as int]@[2 * j as int]@ == cur[2 * j as int]);
                assert(levels@[cur_i as int]@[2 * j as int + 1]@ == cur[2 * j as int + 1]);
            }
            let d = node_hash(&levels[cur_i][2 * j], &levels[cur_i][2 * j + 1]);
            next.push(d);
            j = j + 1;
        }
        proof {
            assert(digests_of(next@) =~= next_level_s(cur));
            let k = choose|k: nat| k <= 32 && cur.len() == pow2(k);
            lemma_pow2_adds((k - 1) as nat, 1);
            lemma2_to64();
            assert(digests_of(next@).len() == pow2((k - 1) as nat));
        }
        let ghost pre_levels = levels@;
        let ghost nextd = digests_of(next@);
        levels.push(next);
        proof {
            let post = levels_of(levels@);
            let n2 = levels@.len();
            assert forall|k: int| 0 <= k < n2 - 1 implies post[k] == levels_of(pre_levels)[k] by {
                assert(levels@[k] == pre_levels[k]);
                assert(post[k] =~= digests_of(pre_levels[k]@));
            }
            assert(post[n2 - 1] =~= nextd);
            assert(post[n2 - 2] == cur);
            assert(post[n2 - 1] == next_level_s(post[n2 - 2]));
            assert forall|k: int| 0 <= k < n2 - 1 implies post[k + 1] == next_level_s(
                #[trigger] post[k],
            ) by {
                if k < n2 - 2 {
                    assert(levels_of(pre_levels)[k + 1] == next_level_s(levels_of(pre_levels)[k]));
                }
            }
            assert forall|k: int| 0 <= k < n2 - 1 implies (#[trigger] post[k]).len() == 2 * post[
                k + 1
            ].len() by {
                if k < n2 - 2 {
                    assert(levels_of(pre_levels)[k].len() == 2 * levels_of(pre_levels)[k + 1].len());
                } else {
                    assert(post[k] == cur);
                    assert(nextd.len() == cur.len() / 2);
                }
            }
            assert forall|k: int, i2: int|
                0 <= k < n2 && 0 <= i2 < post[k].len() implies (#[trigger] post[k][i2]).len()
                == 32 by {
                if k < n2 - 1 {
                    assert(levels_of(pre_levels)[k][i2].len() == 32);
                } else {
                    assert(post[k][i2] == nextd[i2]);
                    assert(nextd[i2] == next@[i2]@);
                }
            }
        }
    }
    let t = MerkleTree { levels };
    t
}

/// Flattening of a path into the byte stream the transcript carries.
pub open spec fn concat_digests(s: Seq<Seq<u8>>) -> Seq<u8>
    decreases s.len(),
{
    if s.len() == 0 {
        Seq::empty()
    } else {
        s[0] + concat_digests(s.drop_first())
    }
}

/// Serialises an opening path as the concatenation of its digests.
pub fn path_to_bytes(path: &Vec<Vec<u8>>) -> (r: Vec<u8>)
    ensures
        r@ == concat_digests(digests_of(path@)),
{
    let mut out: Vec<u8> = Vec::new();
    let mut i: usize = 0;
    proof {
        assert(digests_of(path@).take(0) =~= Seq::<Seq<u8>>::empty());
    }
    while i < path.len()
        invariant
            i <= path@.len(),
            out@ == concat_digests(digests_of(path@).take(i as int)),
        decreases path@.len() - i,
    {
        let ghost pre = digests_of(path@).take(i as int);
        extend_bytes(&mut out, &path[i]);
        proof {
            lemma_concat_push(pre, digests_of(path@)[i as int]);
            assert(digests_of(path@).take(i + 1) =~= pre.push(digests_of(path@)[i as int]));
            assert(digests_of(path@)[i as int] == path@[i as int]@);
        }
        i = i + 1;
    }
    proof {
        assert(digests_of(path@).take(path@.len() as int) =~= digests_of(path@));
    }
    out
}

/// Concatenation after appending one digest.
proof fn lemma_concat_push(s: Seq<Seq<u8>>, d: Seq<u8>)
    ensures
        concat_digests(s.push(d)) == concat_digests(s) + d,
    decreases s.len(),
{
    if s.len() == 0 {
        assert(s.push(d)[0] == d);
        assert(s.push(d).drop_first() =~= Seq::<Seq<u8>>::empty());
        assert(concat_digests(s.push(d)) == d + concat_digests(Seq::<Seq<u8>>::empty()));
        assert(d + Seq::<u8>::empty() =~= d);
        assert(concat_digests(s) + d =~= d);
    } else {
        assert(s.push(d)[0] == s[0]);
        assert(s.push(d).drop_first() =~= s.drop_first().push(d));
        lemma_concat_push(s.drop_first(), d);
        assert(s[0] + (concat_digests(s.drop_first()) + d) =~= (s[0] + concat_digests(
            s.drop_first(),
        )) + d);
    }
}

/// Splits a byte stream into consecutive 32-byte digests.
pub open spec fn chunks32(b: Seq<u8>) -> Seq<Seq<u8>> {
    Seq::new((b.len() / 32) as nat, |i: int| b.subrange(32 * i, 32 * i + 32))
}

/// Parses a transcript byte blob back into an opening path.
pub fn bytes_to_path(bytes: &Vec<u8>) -> (r: Vec<Vec<u8>>)
    requires
        bytes@.len() % 32 == 0,
    ensures
        digests_of(r@) == chunks32(bytes@),
        r@.len() == bytes@.len() / 32,
        forall|i: int| 0 <= i < r@.len() ==> (#[trigger] r@[i])@.len() == 32,
{
    let n = bytes.len() / 32;
    let mut out: Vec<Vec<u8>> = Vec::new();
    let mut i: usize = 0;
    while i < n
        invariant
            i <= n,
            n == bytes@.len() / 32,
            bytes@.len() % 32 == 0,
            bytes@.len() <= usize::MAX,
            out@.len() == i,
            forall|j: int|
                0 <= j < i ==> (#[trigger] out@[j])@ == bytes@.subrange(32 * j, 32 * j + 32),
            forall|j: int| 0 <= j < i ==> (#[trigger] out@[j])@.len() == 32,
        decreases n - i,
    {
        let mut d: Vec<u8> = Vec::new();
        let mut j: usize = 0;
        proof {
            lemma_fundamental_div_mod(bytes@.len() as int, 32);
        }
        while j < 32
            invariant
                j <= 32,
                i < n,
                n == bytes@.len() / 32,
                bytes@.len() <= usize::MAX,
                32 * i + 32 <= bytes@.len(),
                d@.len() == j,
                forall|x: int| 0 <= x < j ==> d@[x] == bytes@[32 * i + x],
            decreases 32 - j,
        {
            d.push(bytes[32 * i + j]);
            j = j + 1;
        }
        proof {
            assert(d@ =~= bytes@.subrange(32 * i as int, 32 * i as int + 32));
        }
        out.push(d);
        i = i + 1;
    }
    proof {
        assert(digests_of(out@) =~= chunks32(bytes@));
    }
    out
}

/// Chunking undoes concatenation for a path of 32-byte digests.
pub proof fn lemma_path_bytes_roundtrip(p: Seq<Seq<u8>>)
    requires
        forall|i: int| 0 <= i < p.len() ==> (#[trigger] p[i]).len() == 32,
    ensures
        concat_digests(p).len() == 32 * p.len(),
        chunks32(concat_digests(p)) == p,
    decreases p.len(),
{
    if p.len() == 0 {
        assert(chunks32(concat_digests(p)) =~= p);
    } else {
        lemma_path_bytes_roundtrip(p.drop_first());
        let b = concat_digests(p);
        assert(b == p[0] + concat_digests(p.drop_first()));
        assert(b.len() == 32 * p.len());
        assert forall|i: int| 0 <= i < p.len() implies chunks32(b)[i] == p[i] by {
            if i == 0 {
                assert(b.subrange(0, 32) =~= p[0]);
            } else {
                assert(b.subrange(32 * i, 32 * i + 32) =~= concat_digests(p.drop_first()).subrange(
                    32 * (i - 1),
                    32 * (i - 1) + 32,
                ));
                assert(chunks32(concat_digests(p.drop_first()))[i - 1] == p.drop_first()[i - 1]);
            }
        }
        assert(chunks32(b) =~= p);
    }
}

/// Checks an opening path.
pub fn check_path(leaf: u64, index: usize, path: &Vec<Vec<u8>>, root: &Vec<u8>) -> (r: bool)
    ensures
        r == (climb_s(felt_leaf_digest(leaf), index as nat, digests_of(path@)) == root@),
{
    let enc = to_be_bytes(leaf);
    let mut cur = leaf_hash(&enc);
    let mut idx: usize = index;
    let mut k: usize = 0;
    proof {
        assert(digests_of(path@).skip(0) =~= digests_of(path@));
    }
    while k < path.len()
        invariant
            k <= path@.len(),
            climb_s(cur@, idx as nat, digests_of(path@).skip(k as int)) == climb_s(
                felt_leaf_digest(leaf),
                index as nat,
                digests_of(path@),
            ),
        decreases path@.len() - k,
    {
        let ghost rest = digests_of(path@).skip(k as int);
        proof {
            assert(rest[0] == digests_of(path@)[k as int]);
            assert(rest.drop_first() =~= digests_of(path@).skip(k as int + 1));
            assert(digests_of(path@)[k as int] == path@[k as int]@);
        }
        if idx % 2 == 1 {
            cur = node_hash(&path[k], &cur);
        } else {
            cur = node_hash(&cur, &path[k]);
        }
        idx = idx / 2;
        k = k + 1;
    }
    proof {
        assert(digests_of(path@).skip(path@.len() as int) =~= Seq::<Seq<u8>>::empty());
    }
    bytes_eq(&cur, root)
}


/// Honest openings verify: for a leaf the tree actually commits to, the
/// opened path always passes the check against the tree's own root.
pub fn opening_check(t: &MerkleTree, leaf: u64, index: usize) -> (r: bool)
    requires
        t.wf(),
        index < t.leaf_count(),
        t.levels_s()[0][index as int] == felt_leaf_digest(leaf),
    ensures
        r,
{
    let path = t.open(index);
    let root = t.root();
    check_path(leaf, index, &path, &root)
}


/// Level `k` of the tree determined by a sequence of leaf digests.
pub open spec fn level_at(digs: Seq<Seq<u8>>, k: int) -> Seq<Seq<u8>>
    decreases k,
{
    if k <= 0 {
        digs
    } else {
        next_level_s(level_at(digs, k - 1))
    }
}

/// In a well-formed tree every level is determined by the leaf level.
pub proof fn lemma_levels_determined(t: &MerkleTree, k: int)
    requires
        t.wf(),
        0 <= k < t.levels_s().len(),
    ensures
        t.levels_s()[k] == level_at(t.levels_s()[0], k),
    decreases k,
{
    if k > 0 {
        lemma_levels_determined(t, k - 1);
    }
}

/// Level `k` of a well-formed tree holds two to the remaining height
/// digests.
pub proof fn lemma_level_size(t: &MerkleTree, k: int)
    requires
        t.wf(),
        0 <= k < t.levels_s().len(),
    ensures
        t.levels_s()[k].len() == pow2((t.levels_s().len() - 1 - k) as nat),
    decreases t.levels_s().len() - k,
{
    let ls = t.levels_s();
    let h = ls.len() - 1;
    lemma2_to64();
    if k == h {
    } else {
        lemma_level_size(t, k + 1);
        assert(ls[k].len() == 2 * ls[k + 1].len());
        lemma_pow2_adds((h - k - 1) as nat, 1);
    }
}

/// A well-formed tree commits to exactly two to its height leaves.
pub proof fn lemma_tree_height(t: &MerkleTree)
    requires
        t.wf(),
    ensures
        t.leaf_count() == pow2((t.levels_s().len() - 1) as nat),
{
    lemma_level_size(t, 0);
}

/// The sibling digests along the branch of one leaf, bottom-up.
pub open spec fn path_digests_s(digs: Seq<Seq<u8>>, index: int, height: int) -> Seq<Seq<u8>> {
    Seq::new(height as nat, |k: int| level_at(digs, k)[sibling_index(index, k)])
}

/// The leaf digests of an evaluation table.
pub open spec fn table_digests(leaves: Seq<u64>) -> Seq<Seq<u8>> {
    leaves.map(|i: int, v: u64| felt_leaf_digest(v))
}

} // verus!
