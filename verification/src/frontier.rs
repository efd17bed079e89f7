//! The incremental Merkle frontier: the minimal state needed to extend an
//! append-only binary hash tree of depth [`DEPTH`] and recompute its root,
//! together with batch appends that report completion of a subtree of height
//! [`TRACKED_SUBTREE_HEIGHT`].

use vstd::prelude::*;
use vstd::arithmetic::div_mod::lemma_fundamental_div_mod;
use vstd::arithmetic::power2::lemma2_to64;
use vstd::arithmetic::power2::pow2;

use crate::hash::combine_of;
use crate::hash::digest_is_canonical;
use crate::hash::empty_node;
use crate::hash::hash_combine;
use crate::hash::hash_empty_root;
use crate::hash::is_digest;

verus! {

/// Depth of the note commitment tree: the tree holds at most `2^DEPTH` leaves.
pub const DEPTH: u8 = 32;

/// Height of the subtrees whose completion batch appends report.
/// This is also defined by the storage layer that consumes the events.
pub const TRACKED_SUBTREE_HEIGHT: u8 = 16;

/// Number of leaves in a full tree: `2^DEPTH`.
pub const MAX_LEAVES: u64 = 0x1_0000_0000;

/// Number of leaves in a full tracked subtree: `2^TRACKED_SUBTREE_HEIGHT`.
pub const TRACKED_SUBTREE_SIZE: u64 = 0x1_0000;

/// The abstract state of a non-empty frontier: the position of the most
/// recently appended leaf, that leaf's digest, and one ommer digest per set
/// bit of the position, ordered from the lowest tree level upward.
#[verifier::ext_equal]
pub struct FrontierSpec {
    pub position: nat,
    pub leaf: Seq<u8>,
    pub ommers: Seq<Seq<u8>>,
}

/// Number of set bits in the binary representation of `p`.
pub open spec fn ones(p: nat) -> nat
    decreases p,
{
    if p == 0 {
        0
    } else {
        p % 2 + ones(p / 2)
    }
}

/// The digests held in a sequence of executable digest vectors.
pub open spec fn digests_of(v: Seq<Vec<u8>>) -> Seq<Seq<u8>> {
    Seq::new(v.len(), |i: int| v[i]@)
}

/// Well-formedness of an abstract frontier state: the position is within the
/// tree's capacity, all retained digests are 32 bytes, and there is exactly
/// one ommer per set bit of the position.
pub open spec fn wf_state(v: Option<FrontierSpec>) -> bool {
    match v {
        None => true,
        Some(f) => f.position < MAX_LEAVES && is_digest(f.leaf) && f.ommers.len() == ones(
            f.position,
        ) && forall|i: int| 0 <= i < f.ommers.len() ==> is_digest(#[trigger] f.ommers[i]),
    }
}

/// Number of leaves represented by an abstract frontier state.
pub open spec fn size_of(v: Option<FrontierSpec>) -> nat {
    match v {
        None => 0,
        Some(f) => f.position + 1,
    }
}

/// The hash at `depth` on the path from the current node `cur` (at `level`)
/// to the root: at each level the current node is combined with the retained
/// ommer when it is a right child, and with the empty-subtree constant when
/// it is a left child.
pub open spec fn root_from(level: int, depth: int, cur: Seq<u8>, p: nat, oms: Seq<Seq<u8>>) -> Seq<
    u8,
>
    decreases depth - level,
{
    if level >= depth {
        cur
    } else if p % 2 == 1 {
        root_from(level + 1, depth, combine_of(level, oms.first(), cur), p / 2, oms.drop_first())
    } else {
        root_from(level + 1, depth, combine_of(level, cur, empty_node(level)), p / 2, oms)
    }
}

/// The root of the tree of height `depth` that an abstract frontier state
/// represents: the empty-tree constant when no leaf was appended, the upward
/// fold from the rightmost leaf otherwise.
pub open spec fn root_of(v: Option<FrontierSpec>, depth: int) -> Seq<u8> {
    match v {
        None => empty_node(depth),
        Some(f) => root_from(0, depth, f.leaf, f.position, f.ommers),
    }
}

/// The ommers after one append: the previous leaf is carried upward, merging
/// with one retained ommer per trailing set bit of the previous position, and
/// the merged digest becomes the lowest retained ommer.
pub open spec fn merge_ommers(level: int, carry: Seq<u8>, p: nat, oms: Seq<Seq<u8>>) -> Seq<
    Seq<u8>,
>
    decreases p,
{
    if p % 2 == 0 {
        seq![carry] + oms
    } else {
        merge_ommers(level + 1, combine_of(level, oms.first(), carry), p / 2, oms.drop_first())
    }
}

/// The abstract frontier state after appending one leaf digest.
pub open spec fn append_of(v: Option<FrontierSpec>, leaf: Seq<u8>) -> Option<FrontierSpec> {
    match v {
        None => Some(FrontierSpec { position: 0, leaf, ommers: Seq::empty() }),
        Some(f) => Some(
            FrontierSpec {
                position: f.position + 1,
                leaf,
                ommers: merge_ommers(0, f.leaf, f.position, f.ommers),
            },
        ),
    }
}

/// The abstract frontier state after appending a sequence of leaf digests in
/// order.
pub open spec fn append_all(v: Option<FrontierSpec>, leaves: Seq<Seq<u8>>) -> Option<FrontierSpec>
    decreases leaves.len(),
{
    if leaves.len() == 0 {
        v
    } else {
        append_all(append_of(v, leaves.first()), leaves.drop_first())
    }
}

/// Whether the append of leaf number `i` (counting from 0) of a batch that
/// starts at `start_size` appended leaves completes a tracked subtree.
pub open spec fn boundary_crossed_at(start_size: nat, i: int) -> bool {
    (start_size + i + 1) % (TRACKED_SUBTREE_SIZE as int) == 0
}

/// Heap bytes retained by an abstract frontier state beyond the structure's
/// fixed inline footprint: the rightmost leaf digest plus one digest per
/// ommer.
pub open spec fn dynamic_memory_of(v: Option<FrontierSpec>) -> nat {
    match v {
        None => 0,
        Some(f) => 32 * (1 + f.ommers.len()),
    }
}

/// An incremental Merkle frontier over 32-byte digests.
#[derive(Debug)]
pub struct MerkleFrontier {
    /// Whether any leaf has been appended yet.
    pub filled: bool,
    /// Position of the most recently appended leaf; 0 when not `filled`.
    pub position: u64,
    /// Digest of the most recently appended leaf; empty when not `filled`.
    pub leaf: Vec<u8>,
    /// Retained ancestor digests, lowest level first; empty when not `filled`.
    pub ommers: Vec<Vec<u8>>,
}

impl View for MerkleFrontier {
    type V = Option<FrontierSpec>;

    open spec fn view(&self) -> Option<FrontierSpec> {
        if self.filled {
            Some(
                FrontierSpec {
                    position: self.position as nat,
                    leaf: self.leaf@,
                    ommers: digests_of(self.ommers@),
                },
            )
        } else {
            None
        }
    }
}

/// The result of one batch append: whether the batch completed a tracked
/// subtree, and the root of that subtree when it did (all zero otherwise).
#[derive(Debug)]
pub struct SaplingAppendResult {
    pub has_subtree_boundary: bool,
    pub completed_subtree_root: Vec<u8>,
}

/// Why a batch append failed.
#[derive(Clone, Copy, Debug, PartialEq, Eq, Structural)]
pub enum AppendError {
    /// A leaf of the batch is not a well-formed digest; nothing was appended.
    MalformedDigest,
    /// The batch exceeds the tree's remaining capacity; the appends before
    /// the failing one remain committed.
    TreeFull,
}

impl AppendError {
    /// A human-readable description of the failure.
    pub fn description(&self) -> (r: &'static str) {
        match self {
            AppendError::MalformedDigest => "commitment is not a canonical 32-byte digest",
            AppendError::TreeFull => "Sapling note commitment tree is full.",
        }
    }
}

/// Set bits of `p` and of `p + 1`, related through the trailing-ones carry
/// that `merge_ommers` performs.
proof fn lemma_merge_ommers_len(level: int, carry: Seq<u8>, p: nat, oms: Seq<Seq<u8>>)
    requires
        oms.len() == ones(p),
    ensures
        merge_ommers(level, carry, p, oms).len() == ones((p + 1) as nat),
    decreases p,
{
    if p % 2 == 0 {
        assert((p + 1) % 2 == 1 && (p + 1) / 2 == p / 2);
        assert(ones((p + 1) as nat) == 1 + ones(p));
    } else {
        assert(oms.len() > 0);
        lemma_merge_ommers_len(
            level + 1,
            combine_of(level, oms.first(), carry),
            p / 2,
            oms.drop_first(),
        );
        assert((p + 1) % 2 == 0 && (p + 1) / 2 == p / 2 + 1);
        assert(ones((p + 1) as nat) == ones((p / 2 + 1) as nat));
    }
}

/// A position below `pow2(k)` has at most `k` set bits.
proof fn lemma_ones_bound(p: nat, k: nat)
    requires
        p < pow2(k),
    ensures
        ones(p) <= k,
    decreases k,
{
    if k == 0 {
        assert(pow2(0) == 1) by {
            lemma2_to64();
        }
    } else {
        assert(pow2(k) == 2 * pow2((k - 1) as nat)) by {
            vstd::arithmetic::power2::lemma_pow2_unfold(k);
        }
        lemma_ones_bound(p / 2, (k - 1) as nat);
    }
}

/// Appending a batch never completes more than one tracked subtree: within a
/// batch of at most `TRACKED_SUBTREE_SIZE` leaves, at most one append lands
/// on a subtree boundary. This is the single-boundary-per-batch law.
pub proof fn lemma_single_boundary(start_size: nat, batch: int, i: int, j: int)
    requires
        batch <= TRACKED_SUBTREE_SIZE,
        0 <= i < j < batch,
        boundary_crossed_at(start_size, i),
    ensures
        !boundary_crossed_at(start_size, j),
{
    let d = TRACKED_SUBTREE_SIZE as int;
    let a = start_size + i + 1;
    let b = start_size + j + 1;
    if b % d == 0 {
        lemma_fundamental_div_mod(a, d);
        lemma_fundamental_div_mod(b, d);
        assert(b - a == d * (b / d - a / d)) by (nonlinear_arith)
            requires
                a == d * (a / d) + a % d,
                b == d * (b / d) + b % d,
                a % d == 0,
                b % d == 0,
        ;
        assert(false) by (nonlinear_arith)
            requires
                b - a == d * (b / d - a / d),
                0 < b - a < d,
        ;
    }
}

/// A freshly constructed frontier and the `empty_root` constant agree: the
/// root of the empty frontier state is the depth-`d` empty-subtree constant.
/// This is the empty-root equivalence law.
pub proof fn lemma_empty_root_equivalence(d: int)
    ensures
        root_of(None, d) == empty_node(d),
{
}

/// After `n` successful appends the frontier holds exactly `n` more leaves
/// than before; from the empty frontier, exactly `n` leaves. This is the
/// size-monotonicity law.
pub proof fn lemma_size_after_appends(v: Option<FrontierSpec>, leaves: Seq<Seq<u8>>)
    ensures
        size_of(append_all(v, leaves)) == size_of(v) + leaves.len(),
    decreases leaves.len(),
{
    if leaves.len() > 0 {
        lemma_size_after_appends(append_of(v, leaves.first()), leaves.drop_first());
    }
}

/// Appending a prefix of one more leaf appends that leaf to the state reached
/// by the shorter prefix.
pub proof fn lemma_append_all_snoc(v: Option<FrontierSpec>, s: Seq<Seq<u8>>, i: int)
    requires
        0 <= i < s.len(),
    ensures
        append_all(v, s.take(i + 1)) == append_of(append_all(v, s.take(i)), s[i]),
    decreases i,
{
    if i == 0 {
        assert(s.take(1) =~= seq![s[0]]);
        assert(s.take(0) =~= Seq::<Seq<u8>>::empty());
        assert(append_all(v, s.take(0)) == v);
        assert(seq![s[0]].drop_first() =~= Seq::<Seq<u8>>::empty());
        assert(append_all(append_of(v, s[0]), Seq::<Seq<u8>>::empty()) == append_of(v, s[0]));
    } else {
        let w = append_of(v, s.first());
        let sdf = s.drop_first();
        assert(s.take(i + 1).first() == s.first());
        assert(s.take(i + 1).drop_first() =~= sdf.take(i));
        assert(append_all(v, s.take(i + 1)) == append_all(w, sdf.take(i)));
        lemma_append_all_snoc(w, sdf, i - 1);
        assert(s.take(i).first() == s.first());
        assert(s.take(i).drop_first() =~= sdf.take(i - 1));
        assert(append_all(v, s.take(i)) == append_all(w, sdf.take(i - 1)));
        assert(sdf[i - 1] == s[i]);
    }
}

/// Copies a digest byte for byte.
fn copy_digest(src: &Vec<u8>) -> (r: Vec<u8>)
    ensures
        r@ == src@,
{
    let mut out: Vec<u8> = Vec::new();
    let mut i: usize = 0;
    while i < src.len()
        invariant
            i <= src@.len(),
            out@ == src@.take(i as int),
        decreases src@.len() - i,
    {
        out.push(src[i]);
        assert(out@ =~= src@.take(i as int + 1));
        i = i + 1;
    }
    assert(out@ =~= src@);
    out
}

/// An all-zero placeholder of digest width, reported when no subtree boundary
/// was crossed.
fn zero_digest() -> (r: Vec<u8>)
    ensures
        r@.len() == 32,
{
    let mut out: Vec<u8> = Vec::new();
    let mut i: usize = 0;
    while i < 32
        invariant
            i <= 32,
            out@.len() == i,
        decreases 32 - i,
    {
        out.push(0u8);
        i = i + 1;
    }
    out
}

/// A position within the tree's capacity has at most 32 set bits.
pub proof fn lemma_ones_bound_32(p: nat)
    requires
        p < MAX_LEAVES,
    ensures
        ones(p) <= 32,
{
    lemma2_to64();
    lemma_ones_bound(p, 32);
}

/// Number of set bits in `p`.
pub(crate) fn popcount(p: u64) -> (r: u64)
    ensures
        r as nat == ones(p as nat),
{
    proof {
        lemma2_to64();
        vstd::arithmetic::power2::lemma2_to64_rest();
        lemma_ones_bound(p as nat, 64);
    }
    let mut q = p;
    let mut c: u64 = 0;
    while q > 0
        invariant
            c + ones(q as nat) == ones(p as nat),
            ones(p as nat) <= 64,
        decreases q,
    {
        c = c + q % 2;
        q = q / 2;
    }
    c
}

/// The root of an empty tree of the given depth: the empty-subtree constant
/// folded up to that depth.
pub fn empty_root(depth: u8) -> (r: Vec<u8>)
    requires
        depth <= DEPTH,
    ensures
        r@ == empty_node(depth as int),
        is_digest(r@),
{
    hash_empty_root(depth)
}

/// The root of the empty note commitment tree at full depth.
pub fn sapling_empty_root() -> (r: Vec<u8>)
    ensures
        r@ == empty_node(DEPTH as int),
        is_digest(r@),
{
    empty_root(DEPTH)
}

/// Constructs a new empty frontier, boxed as callers embedding it in other
/// structures expect.
pub fn new_sapling() -> (r: Box<MerkleFrontier>)
    ensures
        r@ == Option::<FrontierSpec>::None,
        r.wf(),
{
    Box::new(MerkleFrontier::empty())
}

impl MerkleFrontier {
    /// Well-formedness: the representation invariant of the frontier, plus
    /// bookkeeping tying the unused fields of an empty frontier down.
    pub open spec fn wf(&self) -> bool {
        wf_state(self@) && (!self.filled ==> self.position == 0 && self.leaf@.len() == 0
            && self.ommers@.len() == 0)
    }

    /// Constructs a frontier with no leaves.
    pub fn empty() -> (r: Self)
        ensures
            r@ == Option::<FrontierSpec>::None,
            r.wf(),
    {
        MerkleFrontier { filled: false, position: 0, leaf: Vec::new(), ommers: Vec::new() }
    }

    /// Assembles a frontier from its parts: the position of the most recently
    /// appended leaf, that leaf's digest, and the retained ommers, lowest
    /// level first. Fails, leaving nothing constructed, exactly when the
    /// parts are not a well-formed frontier state.
    pub fn from_parts(position: u64, leaf: Vec<u8>, ommers: Vec<Vec<u8>>) -> (r: Result<
        Self,
        &'static str,
    >)
        ensures
            ({
                let v = Some(
                    FrontierSpec {
                        position: position as nat,
                        leaf: leaf@,
                        ommers: digests_of(ommers@),
                    },
                );
                match r {
                    Ok(f) => f@ == v && f.wf() && wf_state(v),
                    Err(_) => !wf_state(v),
                }
            }),
    {
        if position >= MAX_LEAVES {
            return Err("frontier position exceeds the tree capacity");
        }
        if leaf.len() != 32 {
            return Err("frontier leaf is not a 32-byte digest");
        }
        if !digest_is_canonical(&leaf) {
            return Err("frontier leaf is not a canonical node encoding");
        }
        let expected = popcount(position);
        if ommers.len() as u64 != expected {
            return Err("ommer count does not match the frontier position");
        }
        let mut i: usize = 0;
        while i < ommers.len()
            invariant
                i <= ommers@.len(),
                forall|j: int| 0 <= j < i ==> is_digest(#[trigger] digests_of(ommers@)[j]),
            decreases ommers@.len() - i,
        {
            assert(digests_of(ommers@)[i as int] == ommers@[i as int]@);
            if ommers[i].len() != 32 {
                return Err("frontier ommer is not a 32-byte digest");
            }
            if !digest_is_canonical(&ommers[i]) {
                return Err("frontier ommer is not a canonical node encoding");
            }
            i = i + 1;
        }
        Ok(MerkleFrontier { filled: true, position, leaf, ommers })
    }

    /// Number of leaves appended so far: zero for the empty frontier, the
    /// leaf position plus one otherwise.
    pub fn size(&self) -> (r: u64)
        requires
            self.wf(),
        ensures
            r as nat == size_of(self@),
    {
        if self.filled {
            self.position + 1
        } else {
            0
        }
    }

    /// Heap bytes retained beyond the structure's fixed inline footprint,
    /// for callers doing resource accounting.
    pub fn dynamic_memory_usage(&self) -> (r: usize)
        requires
            self.wf(),
        ensures
            r as nat == dynamic_memory_of(self@),
    {
        if !self.filled {
            return 0;
        }
        proof {
            lemma2_to64();
            lemma_ones_bound(self.position as nat, 32);
        }
        let mut total: usize = 32;
        let mut i: usize = 0;
        while i < self.ommers.len()
            invariant
                self.wf(),
                self.filled,
                i <= self.ommers@.len() <= 32,
                total == 32 * (1 + i),
            decreases self.ommers@.len() - i,
        {
            assert(is_digest(digests_of(self.ommers@)[i as int]));
            total = total + self.ommers[i].len();
            i = i + 1;
        }
        total
    }

    /// Appends one leaf digest. Returns `false`, leaving the frontier
    /// unchanged, exactly when the tree is already full; otherwise advances
    /// the position, carrying the previous leaf upward into the ommers.
    pub fn append(&mut self, leaf: &Vec<u8>) -> (r: bool)
        requires
            old(self).wf(),
            is_digest(leaf@),
        ensures
            final(self).wf(),
            r == (size_of(old(self)@) < MAX_LEAVES),
            r ==> final(self)@ == append_of(old(self)@, leaf@),
            !r ==> final(self)@ == old(self)@,
    {
        if !self.filled {
            self.filled = true;
            self.position = 0;
            self.leaf = copy_digest(leaf);
            assert(digests_of(self.ommers@) =~= Seq::<Seq<u8>>::empty());
            assert(self@ =~= append_of(old(self)@, leaf@));
            return true;
        }
        if self.position >= MAX_LEAVES - 1 {
            return false;
        }
        proof {
            lemma2_to64();
            lemma_ones_bound(self.position as nat, 32);
        }
        let ghost orig = self@->Some_0;
        let mut carry = copy_digest(&self.leaf);
        let mut q = self.position;
        let mut level: u8 = 0;
        while q % 2 == 1
            invariant
                self.filled,
                self.position == old(self).position,
                self.position < MAX_LEAVES - 1,
                self.leaf == old(self).leaf,
                is_digest(carry@),
                level as int + self.ommers@.len() <= 32,
                ones(q as nat) == self.ommers@.len(),
                forall|i: int|
                    0 <= i < self.ommers@.len() ==> is_digest(#[trigger] digests_of(self.ommers@)[i]),
                merge_ommers(level as int, carry@, q as nat, digests_of(self.ommers@))
                    == merge_ommers(0, orig.leaf, orig.position, orig.ommers),
            decreases q,
        {
            assert(self.ommers@.len() > 0);
            assert(is_digest(digests_of(self.ommers@)[0]));
            let ghost before = digests_of(self.ommers@);
            let om = self.ommers.remove(0);
            assert(digests_of(self.ommers@) =~= before.drop_first());
            assert(om@ == before.first());
            carry = hash_combine(level, &om, &carry);
            q = q / 2;
            level = level + 1;
        }
        let ghost before = digests_of(self.ommers@);
        let ghost fcarry = carry@;
        assert(merge_ommers(level as int, fcarry, q as nat, before) == seq![fcarry] + before);
        self.ommers.insert(0, carry);
        assert(digests_of(self.ommers@) =~= seq![fcarry] + before);
        self.position = self.position + 1;
        self.leaf = copy_digest(leaf);
        proof {
            lemma_merge_ommers_len(0, orig.leaf, orig.position, orig.ommers);
            assert(forall|i: int|
                0 <= i < digests_of(self.ommers@).len() ==> is_digest(
                    #[trigger] digests_of(self.ommers@)[i],
                ));
            assert(self@ =~= append_of(old(self)@, leaf@));
        }
        true
    }

    /// The hash at the given level on the path from the rightmost leaf to the
    /// root: the root of the subtree of that height containing the most
    /// recently appended leaf, padded with empty-subtree constants at levels
    /// not yet populated.
    #[verifier::loop_isolation(false)]
    pub fn root_at_level(&self, depth: u8) -> (r: Vec<u8>)
        requires
            self.wf(),
            self@ is Some,
            depth <= DEPTH,
        ensures
            r@ == root_of(self@, depth as int),
            is_digest(r@),
    {
        let ghost f = self@->Some_0;
        proof {
            lemma2_to64();
            lemma_ones_bound(f.position, 32);
        }
        let mut cur = copy_digest(&self.leaf);
        let mut q = self.position;
        let mut idx: usize = 0;
        let mut level: u8 = 0;
        assert(digests_of(self.ommers@).skip(0) =~= digests_of(self.ommers@));
        while level < depth
            invariant
                self.wf(),
                self.filled,
                level <= depth,
                is_digest(cur@),
                idx <= self.ommers@.len(),
                ones(q as nat) == self.ommers@.len() - idx,
                root_from(
                    level as int,
                    depth as int,
                    cur@,
                    q as nat,
                    digests_of(self.ommers@).skip(idx as int),
                ) == root_from(0, depth as int, f.leaf, f.position, f.ommers),
            decreases depth - level,
        {
            let ghost rest = digests_of(self.ommers@).skip(idx as int);
            if q % 2 == 1 {
                assert(ones(q as nat) >= 1);
                assert(rest.first() == digests_of(self.ommers@)[idx as int]);
                assert(is_digest(digests_of(self.ommers@)[idx as int]));
                cur = hash_combine(level, &self.ommers[idx], &cur);
                idx = idx + 1;
                assert(digests_of(self.ommers@).skip(idx as int) =~= rest.drop_first());
            } else {
                let e = hash_empty_root(level);
                cur = hash_combine(level, &cur, &e);
            }
            q = q / 2;
            level = level + 1;
        }
        cur
    }

    /// The current root of the tree: the rightmost-path fold for a non-empty
    /// frontier, the full-depth empty-subtree constant otherwise.
    pub fn root(&self) -> (r: Vec<u8>)
        requires
            self.wf(),
        ensures
            r@ == root_of(self@, DEPTH as int),
            is_digest(r@),
    {
        if self.filled {
            self.root_at_level(DEPTH)
        } else {
            hash_empty_root(DEPTH)
        }
    }

    /// Appends an ordered batch of leaf digests, reporting whether some
    /// append completed a tracked subtree and, when one did, the root of that
    /// subtree. Fails with [`AppendError::MalformedDigest`], before anything
    /// is appended, exactly when some leaf is not a well-formed digest, and
    /// with [`AppendError::TreeFull`] exactly when the batch exceeds the
    /// tree's remaining capacity; in the latter case the appends before the
    /// failing one remain committed.
    #[verifier::loop_isolation(false)]
    pub fn append_bundle(&mut self, leaves: &Vec<Vec<u8>>) -> (r: Result<
        SaplingAppendResult,
        AppendError,
    >)
        requires
            old(self).wf(),
            leaves@.len() <= TRACKED_SUBTREE_SIZE,
        ensures
            final(self).wf(),
            ({
                let n = size_of(old(self)@);
                let k = leaves@.len();
                let ld = digests_of(leaves@);
                let all_valid = forall|i: int| 0 <= i < k ==> is_digest(#[trigger] ld[i]);
                match r {
                    Ok(ev) => all_valid && n + k <= MAX_LEAVES && final(self)@ == append_all(
                        old(self)@,
                        ld,
                    ) && (ev.has_subtree_boundary <==> exists|i: int|
                        0 <= i < k && #[trigger] boundary_crossed_at(n, i)) && (
                    ev.has_subtree_boundary ==> exists|i: int|
                        0 <= i < k && #[trigger] boundary_crossed_at(n, i)
                            && ev.completed_subtree_root@ == root_of(
                            append_all(old(self)@, ld.take(i + 1)),
                            TRACKED_SUBTREE_HEIGHT as int,
                        )),
                    Err(e) => if !all_valid {
                        e == AppendError::MalformedDigest && final(self)@ == old(self)@
                    } else {
                        e == AppendError::TreeFull && n + k > MAX_LEAVES && final(self)@
                            == append_all(old(self)@, ld.take(MAX_LEAVES - n))
                    },
                }
            }),
    {
        let mut v: usize = 0;
        while v < leaves.len()
            invariant
                v <= leaves@.len(),
                forall|j: int| 0 <= j < v ==> is_digest(#[trigger] digests_of(leaves@)[j]),
            decreases leaves@.len() - v,
        {
            assert(digests_of(leaves@)[v as int] == leaves@[v as int]@);
            if !crate::hash::check_digest(&leaves[v]) {
                return Err(AppendError::MalformedDigest);
            }
            v = v + 1;
        }
        let ghost orig = self@;
        let ghost n0 = size_of(self@);
        let ghost ld = digests_of(leaves@);
        let mut has_boundary: bool = false;
        let mut boundary_root: Vec<u8> = zero_digest();
        let ghost mut b_idx: int = 0;
        let mut i: usize = 0;
        assert(ld.take(0) =~= Seq::<Seq<u8>>::empty());
        while i < leaves.len()
            invariant
                self.wf(),
                i <= leaves@.len(),
                self@ == append_all(orig, ld.take(i as int)),
                size_of(self@) == n0 + i,
                n0 + i <= MAX_LEAVES,
                !has_boundary ==> forall|j: int| 0 <= j < i ==> !#[trigger] boundary_crossed_at(
                    n0,
                    j,
                ),
                has_boundary ==> 0 <= b_idx < i && boundary_crossed_at(n0, b_idx) && is_digest(
                    boundary_root@,
                ) && boundary_root@ == root_of(
                    append_all(orig, ld.take(b_idx + 1)),
                    TRACKED_SUBTREE_HEIGHT as int,
                ),
            decreases leaves@.len() - i,
        {
            assert(ld[i as int] == leaves@[i as int]@);
            let ok = self.append(&leaves[i]);
            proof {
                lemma_append_all_snoc(orig, ld, i as int);
            }
            if !ok {
                assert(n0 + i == MAX_LEAVES);
                assert(ld.take(MAX_LEAVES - n0) =~= ld.take(i as int));
                return Err(AppendError::TreeFull);
            }
            if (self.position + 1) % TRACKED_SUBTREE_SIZE == 0 {
                assert(boundary_crossed_at(n0, i as int));
                if has_boundary {
                    proof {
                        lemma_single_boundary(n0, leaves@.len() as int, b_idx, i as int);
                    }
                    assert(false);
                }
                boundary_root = self.root_at_level(TRACKED_SUBTREE_HEIGHT);
                has_boundary = true;
                proof {
                    b_idx = i as int;
                }
            } else {
                assert(!boundary_crossed_at(n0, i as int));
            }
            i = i + 1;
        }
        assert(ld.take(leaves@.len() as int) =~= ld);
        Ok(
            SaplingAppendResult {
                has_subtree_boundary: has_boundary,
                completed_subtree_root: boundary_root,
            },
        )
    }

    /// Returns a boxed copy of the frontier.
    pub fn box_clone(&self) -> (r: Box<Self>)
        ensures
            r@ == self@,
            r.wf() == self.wf(),
    {
        Box::new(self.clone())
    }
}

impl Clone for MerkleFrontier {
    /// An independent copy with the same abstract state.
    fn clone(&self) -> (r: Self)
        ensures
            r@ == self@,
            r.wf() == self.wf(),
    {
        let mut ommers: Vec<Vec<u8>> = Vec::new();
        let mut i: usize = 0;
        while i < self.ommers.len()
            invariant
                i <= self.ommers@.len(),
                digests_of(ommers@) =~= digests_of(self.ommers@).take(i as int),
                ommers@.len() == i,
            decreases self.ommers@.len() - i,
        {
            ommers.push(copy_digest(&self.ommers[i]));
            i = i + 1;
        }
        assert(digests_of(ommers@) =~= digests_of(self.ommers@));
        let r = MerkleFrontier {
            filled: self.filled,
            position: self.position,
            leaf: copy_digest(&self.leaf),
            ommers,
        };
        r
    }
}

} // verus!
