//! The per-round binding commitment structure: a binary combining tree over
//! a leaf sequence.  Building combines adjacent pairs level by level until a
//! single root value remains; an authentication path lists the sibling of
//! the current node at every level, and replaying the combination from a
//! leaf along its path reproduces the root.
use vstd::prelude::*;

verus! {

use vstd::arithmetic::power2::is_pow2;
use crate::field::{Felt, add_p, felt_from_u64, felt_add};
use crate::utils::{seq_values, wf_seq, reconstruct_spec};

/// One level up: adjacent pairs combined, halving the node count.
pub open spec fn next_level_spec(s: Seq<int>) -> Seq<int> {
    Seq::new(s.len() / 2, |j: int| add_p(s[2 * j], s[2 * j + 1]))
}

/// The root value a leaf sequence commits to: the single value left after
/// combining pairs level by level (zero for an empty sequence).
pub open spec fn root_spec(s: Seq<int>) -> int
    decreases s.len(),
{
    if s.len() == 0 {
        0
    } else if s.len() == 1 {
        s[0]
    } else {
        root_spec(next_level_spec(s))
    }
}

/// The position of a node's sibling within its level.
pub open spec fn sibling_index(i: int) -> int {
    if i % 2 == 0 {
        i + 1
    } else {
        i - 1
    }
}

/// The authentication path for leaf `i`: the sibling value at each level,
/// from the leaves up (a level with a single node contributes nothing).
pub open spec fn path_spec(s: Seq<int>, i: int) -> Seq<int>
    decreases s.len(),
{
    if s.len() <= 1 {
        Seq::empty()
    } else {
        seq![s[sibling_index(i)]] + path_spec(next_level_spec(s), i / 2)
    }
}

/// All levels of a tree, leaves first, as value sequences.
pub open spec fn levels_of(leaves: Seq<Felt>, inter: Seq<Vec<Felt>>) -> Seq<Seq<int>> {
    seq![seq_values(leaves)] + inter.map_values(|v: Vec<Felt>| seq_values(v@))
}

/// Level `j` is the pairwise combination of the level below it.
pub open spec fn level_linked(lv: Seq<Seq<int>>, j: int) -> bool {
    lv[j] == next_level_spec(lv[j - 1])
}

pub struct MerkleTree {
    pub leaves: Vec<Felt>,
    pub intermediate_nodes: Vec<Vec<Felt>>,
    pub root: Felt,
}

impl MerkleTree {
    /// The levels of this tree, leaves first.
    pub open spec fn levels(self) -> Seq<Seq<int>> {
        levels_of(self.leaves@, self.intermediate_nodes@)
    }

    /// The stored levels are exactly the pairwise combinations of the
    /// leaves, each level before the last still has nodes to pair, and the
    /// last level is the single root (or the tree is empty with the zero
    /// root).
    pub open spec fn wf(self) -> bool {
        &&& wf_seq(self.leaves@)
        &&& forall|j: int|
            0 <= j < self.intermediate_nodes@.len() ==> wf_seq(
                #[trigger] self.intermediate_nodes@[j]@,
            )
        &&& forall|j: int| 1 <= j < self.levels().len() ==> #[trigger] level_linked(self.levels(), j)
        &&& forall|j: int|
            0 <= j < self.levels().len() - 1 ==> #[trigger] self.levels()[j].len() >= 2
        &&& self.root.wf()
        &&& if self.leaves@.len() == 0 {
            self.intermediate_nodes@.len() == 0 && self.root.value() == 0
        } else {
            self.levels().last().len() == 1 && self.root.value() == self.levels().last()[0]
        }
    }

    /// Builds the tree over a leaf sequence by combining adjacent pairs
    /// level by level; the leaf count must be a power of two (levels must
    /// pair up evenly), or zero, which gives the zero root.
    #[verifier::loop_isolation(false)]
    pub fn new(leaves: Vec<Felt>) -> (r: MerkleTree)
        requires
            wf_seq(leaves@),
            leaves@.len() == 0 || is_pow2(leaves@.len() as int),
        ensures
            r.wf(),
            r.leaves@ == leaves@,
            r.root.value() == root_spec(seq_values(leaves@)),
    {
        let mut intermediate_nodes: Vec<Vec<Felt>> = Vec::new();
        if leaves.len() == 0 {
            let root = felt_from_u64(0);
            return MerkleTree { leaves, intermediate_nodes, root };
        }
        let mut current_len = leaves.len();
        proof {
            assert(levels_of(leaves@, intermediate_nodes@) =~= seq![seq_values(leaves@)]);
        }
        while current_len > 1
            invariant
                forall|j: int|
                    0 <= j < intermediate_nodes@.len() ==> wf_seq(
                        #[trigger] intermediate_nodes@[j]@,
                    ),
                forall|j: int|
                    1 <= j < levels_of(leaves@, intermediate_nodes@).len() ==> #[trigger] level_linked(
                        levels_of(leaves@, intermediate_nodes@),
                        j,
                    ),
                forall|j: int|
                    0 <= j < levels_of(leaves@, intermediate_nodes@).len() - 1
                        ==> #[trigger] levels_of(leaves@, intermediate_nodes@)[j].len() >= 2,
                current_len == levels_of(leaves@, intermediate_nodes@).last().len(),
                is_pow2(current_len as int),
                root_spec(seq_values(leaves@)) == root_spec(
                    levels_of(leaves@, intermediate_nodes@).last(),
                ),
            decreases current_len,
        {
            proof {
                reveal(vstd::arithmetic::power2::is_pow2);
            }
            let next_level = if intermediate_nodes.len() == 0 {
                build_next_level(&leaves)
            } else {
                build_next_level(&intermediate_nodes[intermediate_nodes.len() - 1])
            };
            current_len = next_level.len();
            proof {
                let old_levels = levels_of(leaves@, intermediate_nodes@);
                let new_levels = levels_of(leaves@, intermediate_nodes@.push(next_level));
                assert(new_levels =~= old_levels.push(seq_values(next_level@)));
                assert forall|j: int| 1 <= j < new_levels.len() implies #[trigger] level_linked(
                    new_levels,
                    j,
                ) by {
                    if j < old_levels.len() {
                        assert(level_linked(old_levels, j));
                    }
                };
            }
            intermediate_nodes.push(next_level);
        }
        proof {
            reveal(vstd::arithmetic::power2::is_pow2);
            assert(current_len == 1);
            let lvs = levels_of(leaves@, intermediate_nodes@);
            assert(seq_values(leaves@).len() == leaves@.len());
            if intermediate_nodes@.len() == 0 {
                assert(lvs.last() == seq_values(leaves@));
                assert(seq_values(leaves@)[0] == leaves@[0].value());
            } else {
                let li = intermediate_nodes@.len() - 1;
                assert(lvs.last() == intermediate_nodes@.map_values(
                    |v: Vec<Felt>| seq_values(v@),
                )[li]);
                assert(lvs.last() == seq_values(intermediate_nodes@[li]@));
                assert(seq_values(intermediate_nodes@[li]@).len() == intermediate_nodes@[li]@.len());
                assert(seq_values(intermediate_nodes@[li]@)[0] == intermediate_nodes@[li]@[0].value());
                assert(wf_seq(intermediate_nodes@[li]@));
            }
        }
        let root = if intermediate_nodes.len() == 0 {
            leaves[0]
        } else {
            intermediate_nodes[intermediate_nodes.len() - 1][0]
        };
        MerkleTree { leaves, intermediate_nodes, root }
    }

    /// Walks from the given leaf position to the root, collecting the
    /// sibling of the current node at each level.
    #[verifier::rlimit(100)]
    pub fn get_merkle_path(&self, index: u64) -> (path: Vec<Felt>)
        requires
            self.wf(),
            self.leaves@.len() >= 1,
            is_pow2(self.leaves@.len() as int),
            index < self.leaves@.len(),
        ensures
            wf_seq(path@),
            seq_values(path@) == path_spec(seq_values(self.leaves@), index as int),
    {
        let mut path: Vec<Felt> = Vec::new();
        let mut current_index = index;
        let ghost lv = self.levels();
        proof {
            assert(lv.len() == 1 + self.intermediate_nodes@.len());
            assert(lv[0] == seq_values(self.leaves@));
            assert(forall|j: int|
                1 <= j < lv.len() ==> #[trigger] lv[j] == self.intermediate_nodes@.map_values(
                    |v: Vec<Felt>| seq_values(v@),
                )[j - 1]);
            assert(forall|j: int|
                1 <= j < lv.len() ==> #[trigger] lv[j] == seq_values(
                    self.intermediate_nodes@[j - 1]@,
                ));
            assert(seq_values(self.leaves@).len() == self.leaves@.len());
            assert(Seq::<int>::empty() + path_spec(lv[0], index as int) =~= path_spec(
                lv[0],
                index as int,
            ));
            lemma_path_step(lv, 0, index as int);
        }
        let ghost path_before = path@;
        push_sibling(&self.leaves, current_index, &mut path);
        proof {
            if lv[0].len() > 1 {
                let sib = sibling_index(index as int);
                assert(path@ == path_before.push(self.leaves@[sib]));
                assert(seq_values(path@) =~= seq_values(path_before).push(lv[0][sib]));
                assert(path_spec(lv[0], index as int) =~= seq_values(path@) + path_spec(
                    lv[1],
                    index as int / 2,
                ));
            } else {
                assert(path@ == path_before);
                assert(path_spec(lv[0], index as int) =~= seq_values(path@));
            }
        }
        current_index = current_index / 2;
        let mut t: usize = 0;
        while t < self.intermediate_nodes.len()
            invariant
                t <= self.intermediate_nodes@.len(),
                lv == self.levels(),
                lv.len() == 1 + self.intermediate_nodes@.len(),
                wf_seq(self.leaves@),
                forall|j: int|
                    0 <= j < self.intermediate_nodes@.len() ==> wf_seq(
                        #[trigger] self.intermediate_nodes@[j]@,
                    ),
                forall|j: int|
                    1 <= j < lv.len() ==> #[trigger] lv[j] == seq_values(
                        self.intermediate_nodes@[j - 1]@,
                    ),
                forall|j: int| 1 <= j < lv.len() ==> #[trigger] level_linked(lv, j),
                forall|j: int| 0 <= j < lv.len() - 1 ==> #[trigger] lv[j].len() >= 2,
                lv[lv.len() - 1].len() == 1,
                wf_seq(path@),
                t + 1 < lv.len() ==> current_index < lv[t + 1].len(),
                t + 1 < lv.len() ==> is_pow2(lv[t + 1].len() as int),
                path_spec(lv[0], index as int) == seq_values(path@) + (
                if t + 1 < lv.len() {
                    path_spec(lv[t + 1], current_index as int)
                } else {
                    Seq::<int>::empty()
                }),
            decreases self.intermediate_nodes@.len() - t,
        {
            let ghost u = t + 1 as int;
            let ghost i = current_index as int;
            let ghost before = path@;
            let ghost lt = lv[u];
            proof {
                lemma_path_step(lv, u, i);
            }
            let level: &Vec<Felt> = &self.intermediate_nodes[t];
            proof {
                assert(seq_values(level@) == lt);
                assert(seq_values(level@).len() == level@.len());
            }
            push_sibling(level, current_index, &mut path);
            proof {
                if lt.len() > 1 {
                    let sib = sibling_index(i);
                    assert(path@ == before.push(level@[sib]));
                    assert(seq_values(path@) =~= seq_values(before).push(lt[sib]));
                    assert(seq_values(before) + path_spec(lt, i) =~= seq_values(path@)
                        + path_spec(lv[u + 1], i / 2));
                } else {
                    assert(path@ == before);
                    assert(seq_values(before) + path_spec(lt, i) =~= seq_values(path@)
                        + Seq::<int>::empty());
                }
            }
            current_index = current_index / 2;
            t = t + 1;
        }
        proof {
            assert(seq_values(path@) + Seq::<int>::empty() =~= seq_values(path@));
        }
        path
    }
}

/// At a level with several nodes the sibling exists, the walk continues to
/// the next level, and the path there is the tail of the path here; at the
/// single-node root level the walk is over.
proof fn lemma_path_step(lv: Seq<Seq<int>>, t: int, i: int)
    requires
        0 <= t < lv.len(),
        forall|j: int| 1 <= j < lv.len() ==> #[trigger] level_linked(lv, j),
        forall|j: int| 0 <= j < lv.len() - 1 ==> #[trigger] lv[j].len() >= 2,
        lv[lv.len() - 1].len() == 1,
        is_pow2(lv[t].len() as int),
        0 <= i < lv[t].len(),
    ensures
        lv[t].len() > 1 ==> {
            &&& t + 1 < lv.len()
            &&& lv[t + 1] == next_level_spec(lv[t])
            &&& 0 <= sibling_index(i) < lv[t].len()
            &&& path_spec(lv[t], i) == seq![lv[t][sibling_index(i)]] + path_spec(lv[t + 1], i / 2)
            &&& 0 <= i / 2 < lv[t + 1].len()
            &&& is_pow2(lv[t + 1].len() as int)
        },
        lv[t].len() == 1 ==> {
            &&& t == lv.len() - 1
            &&& path_spec(lv[t], i) == Seq::<int>::empty()
            &&& sibling_index(i) == 1
        },
{
    reveal(vstd::arithmetic::power2::is_pow2);
    let lt = lv[t];
    if lt.len() > 1 {
        if t == lv.len() - 1 {
            assert(false);
        }
        assert(lt.len() % 2 == 0);
        assert(level_linked(lv, t + 1));
        assert(lv[t + 1] == next_level_spec(lt));
        assert(next_level_spec(lt).len() == lt.len() / 2);
        if i % 2 == 0 {
            assert(i + 1 < lt.len());
        }
        assert(path_spec(lt, i) == seq![lt[sibling_index(i)]] + path_spec(next_level_spec(lt), i / 2));
    } else {
        if t < lv.len() - 1 {
            assert(lv[t].len() >= 2);
            assert(false);
        }
        assert(path_spec(lt, i) =~= Seq::<int>::empty());
    }
}

/// Appends the sibling of the node at `current_index` to the path, if that
/// sibling exists within the level.
fn push_sibling(level: &Vec<Felt>, current_index: u64, path: &mut Vec<Felt>)
    requires
        wf_seq(level@),
        wf_seq(old(path)@),
        current_index < level@.len(),
    ensures
        wf_seq(final(path)@),
        ({
            let sib = sibling_index(current_index as int);
            if 0 <= sib < level@.len() {
                final(path)@ == old(path)@.push(level@[sib])
            } else {
                final(path)@ == old(path)@
            }
        }),
{
    let sibling_index = if current_index % 2 == 0 {
        current_index + 1
    } else {
        current_index - 1
    };
    if sibling_index < level.len() as u64 {
        path.push(level[sibling_index as usize]);
    }
}

/// Combines adjacent pairs of one level into the next.
#[verifier::loop_isolation(false)]
fn build_next_level(level: &Vec<Felt>) -> (r: Vec<Felt>)
    requires
        wf_seq(level@),
        level@.len() % 2 == 0,
    ensures
        wf_seq(r@),
        r@.len() == level@.len() / 2,
        seq_values(r@) == next_level_spec(seq_values(level@)),
{
    let half = level.len() / 2;
    let mut next_level: Vec<Felt> = Vec::new();
    let mut j: usize = 0;
    while j < half
        invariant
            j <= half,
            next_level@.len() == j,
            wf_seq(next_level@),
            seq_values(next_level@) =~= next_level_spec(seq_values(level@)).take(j as int),
        decreases half - j,
    {
        let node = felt_add(&level[2 * j], &level[2 * j + 1]);
        next_level.push(node);
        j = j + 1;
    }
    proof {
        assert(seq_values(next_level@) =~= next_level_spec(seq_values(level@)));
    }
    next_level
}

/// THE COMMITMENT ROUND-TRIP LAW: for any leaf-value sequence of
/// power-of-two length and any leaf position, replaying the pairwise
/// combination from that leaf along its authentication path reproduces the
/// root the sequence commits to.
pub proof fn lemma_commitment_round_trip(s: Seq<int>, i: int)
    requires
        is_pow2(s.len() as int),
        0 <= i < s.len(),
    ensures
        reconstruct_spec(s[i], path_spec(s, i)) == root_spec(s),
    decreases s.len(),
{
    reveal(vstd::arithmetic::power2::is_pow2);
    if s.len() == 1 {
        assert(path_spec(s, i) =~= Seq::<int>::empty());
    } else {
        let nl = next_level_spec(s);
        let sib = sibling_index(i);
        let p = path_spec(s, i);
        assert(p == seq![s[sib]] + path_spec(nl, i / 2));
        assert(p[0] == s[sib]);
        assert(p.subrange(1, p.len() as int) =~= path_spec(nl, i / 2));
        assert(add_p(s[i], s[sib]) == nl[i / 2]);
        assert(reconstruct_spec(s[i], p) == reconstruct_spec(nl[i / 2], path_spec(nl, i / 2)));
        lemma_commitment_round_trip(nl, i / 2);
    }
}

} // verus!
