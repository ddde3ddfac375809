//! Union-find with union by rank and path splitting, over indices `0..n`
//! held in a parent array and a rank array.
use vstd::prelude::*;
use crate::components::{count_true, lemma_count_true_le, lemma_count_true_update};

verus! {

/// Parent links and ranks make a forest: every link points into the array
/// and strictly up in rank, and no rank exceeds `n` less the number of roots.
pub open spec fn uf_wf(parent: Seq<usize>, rank: Seq<usize>) -> bool {
    &&& parent.len() == rank.len()
    &&& forall|i: int| 0 <= i < parent.len() ==> (#[trigger] parent[i]) < parent.len()
    &&& forall|i: int|
        0 <= i < parent.len() && parent[i] != i ==> rank[i] < #[trigger] rank[parent[i] as int]
    &&& forall|i: int| 0 <= i < parent.len() ==> #[trigger] rank[i] + root_count(parent) <= parent.len()
}

/// Which indices are roots.
pub open spec fn root_flags(parent: Seq<usize>) -> Seq<bool> {
    Seq::new(parent.len(), |i: int| parent[i] == i)
}

/// Number of roots (of sets).
pub open spec fn root_count(parent: Seq<usize>) -> nat {
    count_true(root_flags(parent))
}

/// The root of `i`: parent links followed up to a root.
pub open spec fn root_of(parent: Seq<usize>, rank: Seq<usize>, i: int) -> int
    decreases parent.len() - rank[i],
{
    if !(0 <= i < parent.len()) || parent[i] == i || !(rank[i] < rank[parent[i] as int] <= parent.len()) {
        i
    } else {
        root_of(parent, rank, parent[i] as int)
    }
}

/// `x` and `y` are in the same set.
pub open spec fn same_set(parent: Seq<usize>, rank: Seq<usize>, x: int, y: int) -> bool {
    root_of(parent, rank, x) == root_of(parent, rank, y)
}

/// A fresh union-find of `n` singletons.
pub open spec fn uf_init(n: nat) -> (Seq<usize>, Seq<usize>) {
    (Seq::new(n, |i: int| i as usize), Seq::new(n, |i: int| 0usize))
}

proof fn lemma_rank_bound(parent: Seq<usize>, rank: Seq<usize>, i: int)
    requires
        uf_wf(parent, rank),
        0 <= i < parent.len(),
    ensures
        rank[i] <= parent.len(),
{
    assert(rank[i] + root_count(parent) <= parent.len());
}

/// Roots are roots of themselves, and every root is a root.
pub proof fn lemma_root_of(parent: Seq<usize>, rank: Seq<usize>, i: int)
    requires
        uf_wf(parent, rank),
        0 <= i < parent.len(),
    ensures
        0 <= root_of(parent, rank, i) < parent.len(),
        parent[root_of(parent, rank, i)] == root_of(parent, rank, i),
        rank[i] <= rank[root_of(parent, rank, i)],
        parent[i] == i ==> root_of(parent, rank, i) == i,
        parent[i] != i ==> root_of(parent, rank, i) == root_of(parent, rank, parent[i] as int),
    decreases parent.len() - rank[i],
{
    if parent[i] != i {
        let p = parent[i] as int;
        lemma_rank_bound(parent, rank, p);
        lemma_root_of(parent, rank, p);
    }
}

/// Replacing a link by the grandparent keeps every root.
proof fn lemma_split_keeps_roots(parent: Seq<usize>, rank: Seq<usize>, i: int, j: int)
    requires
        uf_wf(parent, rank),
        0 <= i < parent.len(),
        0 <= j < parent.len(),
        parent[i] != i,
        uf_wf(parent.update(i, parent[parent[i] as int]), rank),
    ensures
        root_of(parent.update(i, parent[parent[i] as int]), rank, j) == root_of(parent, rank, j),
    decreases parent.len() - rank[j],
{
    let p2 = parent.update(i, parent[parent[i] as int]);
    lemma_root_of(parent, rank, j);
    lemma_root_of(p2, rank, j);
    if parent[j] != j {
        let q = parent[j] as int;
        lemma_rank_bound(parent, rank, q);
        lemma_split_keeps_roots(parent, rank, i, q);
        if j == i {
            let g = parent[q] as int;
            if parent[q] != q {
                lemma_rank_bound(parent, rank, g);
                lemma_split_keeps_roots(parent, rank, i, g);
                lemma_root_of(parent, rank, q);
            }
        }
    }
}

proof fn lemma_count_true_clear(s: Seq<bool>, j: int)
    requires
        0 <= j < s.len(),
        s[j],
    ensures
        count_true(s.update(j, false)) + 1 == count_true(s),
{
    let t = s.update(j, false);
    assert(t.update(j, true) =~= s);
    lemma_count_true_update(t, j);
}

/// Linking root `rb` under root `ra` sends the set of `rb` to `ra`.
proof fn lemma_link_roots(parent: Seq<usize>, rank: Seq<usize>, rank2: Seq<usize>, ra: int, rb: int, j: int)
    requires
        uf_wf(parent, rank),
        0 <= ra < parent.len(),
        0 <= rb < parent.len(),
        ra != rb,
        parent[ra] == ra,
        parent[rb] == rb,
        rank2.len() == rank.len(),
        forall|k: int| 0 <= k < rank.len() && k != ra ==> rank2[k] == rank[k],
        rank[ra] <= rank2[ra],
        uf_wf(parent.update(rb, ra as usize), rank2),
        0 <= j < parent.len(),
    ensures
        root_of(parent.update(rb, ra as usize), rank2, j) == if root_of(parent, rank, j) == rb {
            ra
        } else {
            root_of(parent, rank, j)
        },
    decreases parent.len() - rank[j],
{
    let p2 = parent.update(rb, ra as usize);
    lemma_root_of(parent, rank, j);
    lemma_root_of(p2, rank2, j);
    if j == rb {
        lemma_root_of(p2, rank2, ra);
    } else if parent[j] != j {
        let q = parent[j] as int;
        lemma_rank_bound(parent, rank, q);
        lemma_link_roots(parent, rank, rank2, ra, rb, q);
    }
}

/// A fresh union-find: `n` singletons of rank 0.
pub fn uf_new(n: usize) -> (r: (Vec<usize>, Vec<usize>))
    ensures
        r.0@ == uf_init(n as nat).0,
        r.1@ == uf_init(n as nat).1,
        uf_wf(r.0@, r.1@),
{
    let mut parent: Vec<usize> = Vec::new();
    let mut rank: Vec<usize> = Vec::new();
    let mut i: usize = 0;
    while i < n
        invariant
            0 <= i <= n,
            parent@ =~= Seq::new(i as nat, |k: int| k as usize),
            rank@ =~= Seq::new(i as nat, |k: int| 0usize),
        decreases n - i,
    {
        parent.push(i);
        rank.push(0);
        i += 1;
    }
    proof {
        assert(root_flags(parent@) =~= Seq::new(n as nat, |k: int| true));
        lemma_all_true(n as nat);
    }
    (parent, rank)
}

proof fn lemma_all_true(n: nat)
    ensures
        count_true(Seq::new(n, |k: int| true)) == n,
    decreases n,
{
    if n > 0 {
        assert(Seq::new(n, |k: int| true).drop_last() =~= Seq::new((n - 1) as nat, |k: int| true));
        lemma_all_true((n - 1) as nat);
    }
}

/// The root of `i`'s set, halving the path on the way (each visited node is
/// linked to its grandparent). Every element keeps its root.
pub fn find(parent: &mut [usize], rank: &[usize], i: usize) -> (r: usize)
    requires
        uf_wf(old(parent)@, rank@),
        i < old(parent)@.len(),
    ensures
        r == root_of(old(parent)@, rank@, i as int),
        uf_wf(final(parent)@, rank@),
        root_count(final(parent)@) == root_count(old(parent)@),
        forall|j: int|
            0 <= j < old(parent)@.len() ==> #[trigger] root_of(final(parent)@, rank@, j) == root_of(
                old(parent)@,
                rank@,
                j,
            ),
{
    let ghost p0 = parent@;
    let ghost i0 = i as int;
    let mut i = i;
    proof {
        lemma_root_of(p0, rank@, i as int);
    }
    while parent[i] != i
        invariant
            uf_wf(parent@, rank@),
            parent@.len() == p0.len(),
            i < parent@.len(),
            root_count(parent@) == root_count(p0),
            forall|j: int|
                0 <= j < p0.len() ==> #[trigger] root_of(parent@, rank@, j) == root_of(p0, rank@, j),
            root_of(p0, rank@, i as int) == root_of(p0, rank@, i0),
            0 <= i0 < p0.len(),
        decreases parent@.len() - rank@[i as int],
    {
        let ghost pb = parent@;
        let p = parent[i];
        let g = parent[p];
        proof {
            assert(rank@[i as int] < rank@[p as int]);
            if pb[p as int] != p {
                assert(rank@[p as int] < rank@[g as int]);
            }
            lemma_rank_bound(pb, rank@, g as int);
            assert(root_flags(pb.update(i as int, g)) =~= root_flags(pb));
            lemma_root_of(pb, rank@, i as int);
            lemma_root_of(pb, rank@, p as int);
        }
        parent[i] = g;
        proof {
            assert(parent@ == pb.update(i as int, pb[p as int]));
            assert forall|j: int| 0 <= j < p0.len() implies #[trigger] root_of(parent@, rank@, j)
                == root_of(p0, rank@, j) by {
                lemma_split_keeps_roots(pb, rank@, i as int, j);
            }
        }
        i = g;
    }
    proof {
        lemma_root_of(parent@, rank@, i as int);
    }
    i
}

/// The root that wins a union of roots `ra` and `rb`: the one of higher
/// rank, `ra` on a tie.
pub open spec fn union_winner(rank: Seq<usize>, ra: int, rb: int) -> int {
    if rank[ra] < rank[rb] {
        rb
    } else {
        ra
    }
}

/// Root of `j` after the sets with roots `ra` and `rb` are merged.
pub open spec fn merged_root(parent: Seq<usize>, rank: Seq<usize>, ra: int, rb: int, j: int) -> int {
    let r = root_of(parent, rank, j);
    if ra != rb && (r == ra || r == rb) {
        union_winner(rank, ra, rb)
    } else {
        r
    }
}

proof fn lemma_link_wf(parent: Seq<usize>, rank: Seq<usize>, rank2: Seq<usize>, ra: int, rb: int)
    requires
        uf_wf(parent, rank),
        0 <= ra < parent.len(),
        0 <= rb < parent.len(),
        ra != rb,
        parent[ra] == ra,
        parent[rb] == rb,
        rank[rb] <= rank[ra],
        parent.len() <= usize::MAX,
        rank2 == if rank[rb] == rank[ra] {
            rank.update(ra, (rank[ra] + 1) as usize)
        } else {
            rank
        },
    ensures
        uf_wf(parent.update(rb, ra as usize), rank2),
        root_count(parent.update(rb, ra as usize)) + 1 == root_count(parent),
{
    let p2 = parent.update(rb, ra as usize);
    assert(root_flags(p2) =~= root_flags(parent).update(rb, false));
    lemma_count_true_clear(root_flags(parent), rb);
    assert(rank[ra] + root_count(parent) <= parent.len());
    assert(rank[ra] + 1 <= usize::MAX);
    assert forall|i: int| 0 <= i < p2.len() && p2[i] != i implies rank2[i] < #[trigger] rank2[p2[i] as int] by {
        if i != rb {
            assert(parent[i] != i);
            assert(rank[i] < rank[parent[i] as int]);
        }
    }
    assert forall|i: int| 0 <= i < p2.len() implies #[trigger] rank2[i] + root_count(p2) <= p2.len() by {
        assert(rank[i] + root_count(parent) <= parent.len());
        assert(rank[ra] + root_count(parent) <= parent.len());
    }
}

/// Merges the sets of `a` and `b` (union by rank): the root of lower rank is
/// linked under the other; on a tie, `b`'s root goes under `a`'s, whose rank
/// grows by one.
pub fn union(parent: &mut [usize], rank: &mut [usize], a: usize, b: usize)
    requires
        uf_wf(old(parent)@, old(rank)@),
        a < old(parent)@.len(),
        b < old(parent)@.len(),
    ensures
        uf_wf(final(parent)@, final(rank)@),
        final(parent)@.len() == old(parent)@.len(),
        ({
            let ra = root_of(old(parent)@, old(rank)@, a as int);
            let rb = root_of(old(parent)@, old(rank)@, b as int);
            &&& forall|j: int|
                0 <= j < old(parent)@.len() ==> #[trigger] root_of(final(parent)@, final(rank)@, j)
                    == merged_root(old(parent)@, old(rank)@, ra, rb, j)
            &&& final(rank)@ == if ra != rb && old(rank)@[ra] == old(rank)@[rb] {
                old(rank)@.update(ra, (old(rank)@[ra] + 1) as usize)
            } else {
                old(rank)@
            }
        }),
{
    let ghost p0 = parent@;
    let ghost r0 = rank@;
    let n = parent.len();
    let ra = find(parent, rank, a);
    let rb = find(parent, rank, b);
    let ghost p1 = parent@;
    proof {
        lemma_root_of(p0, r0, a as int);
        lemma_root_of(p0, r0, b as int);
        assert(root_of(p1, r0, ra as int) == root_of(p0, r0, ra as int));
        assert(root_of(p1, r0, rb as int) == root_of(p0, r0, rb as int));
        lemma_root_of(p1, r0, ra as int);
        lemma_root_of(p1, r0, rb as int);
    }
    if ra == rb {
        proof {
            assert forall|j: int| 0 <= j < p0.len() implies #[trigger] root_of(parent@, rank@, j)
                == merged_root(p0, r0, ra as int, rb as int, j) by {
                assert(root_of(p1, r0, j) == root_of(p0, r0, j));
            }
        }
        return;
    }
    if rank[ra] < rank[rb] {
        proof {
            lemma_link_wf(p1, r0, r0, rb as int, ra as int);
            assert forall|j: int| 0 <= j < p0.len() implies #[trigger] root_of(p1.update(ra as int, rb), r0, j)
                == merged_root(p0, r0, ra as int, rb as int, j) by {
                assert(root_of(p1, r0, j) == root_of(p0, r0, j));
                lemma_link_roots(p1, r0, r0, rb as int, ra as int, j);
            }
        }
        parent[ra] = rb;
    } else if rank[ra] > rank[rb] {
        proof {
            lemma_link_wf(p1, r0, r0, ra as int, rb as int);
            assert forall|j: int| 0 <= j < p0.len() implies #[trigger] root_of(p1.update(rb as int, ra), r0, j)
                == merged_root(p0, r0, ra as int, rb as int, j) by {
                assert(root_of(p1, r0, j) == root_of(p0, r0, j));
                lemma_link_roots(p1, r0, r0, ra as int, rb as int, j);
            }
        }
        parent[rb] = ra;
    } else {
        proof {
            assert(root_flags(p1)[ra as int]);
            lemma_count_true_clear(root_flags(p1), ra as int);
            assert(r0[ra as int] + root_count(p1) <= p1.len());
        }
        let ghost r2 = r0.update(ra as int, (r0[ra as int] + 1) as usize);
        proof {
            lemma_link_wf(p1, r0, r2, ra as int, rb as int);
            assert forall|j: int| 0 <= j < p0.len() implies #[trigger] root_of(p1.update(rb as int, ra), r2, j)
                == merged_root(p0, r0, ra as int, rb as int, j) by {
                assert(root_of(p1, r0, j) == root_of(p0, r0, j));
                lemma_link_roots(p1, r0, r2, ra as int, rb as int, j);
            }
        }
        parent[rb] = ra;
        rank[ra] = rank[ra] + 1;
        proof {
            assert(rank@ == r2);
        }
    }
}

/// After a union, `x` and `y` are together exactly when they were, or one
/// was with `a` and the other with `b`.
pub proof fn lemma_union_same_set(
    p0: Seq<usize>,
    r0: Seq<usize>,
    p1: Seq<usize>,
    r1: Seq<usize>,
    a: int,
    b: int,
    x: int,
    y: int,
)
    requires
        uf_wf(p0, r0),
        0 <= a < p0.len(),
        0 <= b < p0.len(),
        0 <= x < p0.len(),
        0 <= y < p0.len(),
        forall|j: int|
            0 <= j < p0.len() ==> #[trigger] root_of(p1, r1, j) == merged_root(
                p0,
                r0,
                root_of(p0, r0, a),
                root_of(p0, r0, b),
                j,
            ),
    ensures
        same_set(p1, r1, x, y) <==> (same_set(p0, r0, x, y) || (same_set(p0, r0, x, a) && same_set(
            p0,
            r0,
            y,
            b,
        )) || (same_set(p0, r0, x, b) && same_set(p0, r0, y, a))),
{
    let ra = root_of(p0, r0, a);
    let rb = root_of(p0, r0, b);
    assert(root_of(p1, r1, x) == merged_root(p0, r0, ra, rb, x));
    assert(root_of(p1, r1, y) == merged_root(p0, r0, ra, rb, y));
}

} // verus!
