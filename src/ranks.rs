use vstd::prelude::*;

use crate::competition::CompetingHead;
use vstd::relations::injective_on;
use vstd::set_lib::{lemma_int_range, lemma_map_size, lemma_subset_equality, set_int_range};

verus! {

/// The distance of an offset from the PP.
pub open spec fn dist(o: nat, p: nat) -> nat {
    if o < p {
        (p - o) as nat
    } else {
        (o - p) as nat
    }
}

/// Candidate `x` lies on the same side of the PP as candidate `i` and comes
/// before it in the ranking: nearer to the PP, or as near and earlier in the
/// list.
pub open spec fn ranked_before(offs: Seq<nat>, p: nat, x: int, i: int) -> bool {
    &&& (offs[x] < p) == (offs[i] < p)
    &&& (dist(offs[x], p) < dist(offs[i], p) || (dist(offs[x], p) == dist(offs[i], p) && x < i))
}

/// The number of candidates among the first `k` that are ranked before `i`.
pub open spec fn count_ranked_before(offs: Seq<nat>, p: nat, i: int, k: nat) -> nat
    decreases k,
{
    if k == 0 {
        0
    } else {
        count_ranked_before(offs, p, i, (k - 1) as nat) + if ranked_before(offs, p, k - 1, i) {
            1nat
        } else {
            0nat
        }
    }
}

/// The rank of candidate `i`: -1, -2, ... before the PP, nearest first, and
/// 1, 2, ... after it, nearest first; candidates at the same offset keep
/// their order.
pub open spec fn rank_of(offs: Seq<nat>, p: nat, i: int) -> int {
    let c = count_ranked_before(offs, p, i, offs.len()) as int;
    if offs[i] < p {
        -(c + 1)
    } else {
        c + 1
    }
}

pub open spec fn offsets(c: Seq<CompetingHead>) -> Seq<nat> {
    c.map_values(|h: CompetingHead| h.node as nat)
}

/// No candidate stands at the offset of the PP.
pub open spec fn rankable(offs: Seq<nat>, p: nat) -> bool {
    forall|i: int| 0 <= i < offs.len() ==> #[trigger] offs[i] != p
}

proof fn lemma_count_bound(offs: Seq<nat>, p: nat, i: int, k: nat)
    ensures
        count_ranked_before(offs, p, i, k) <= k,
    decreases k,
{
    if k > 0 {
        lemma_count_bound(offs, p, i, (k - 1) as nat);
    }
}

/// The signed ranks of the candidates relative to the PP at `p_offset`, in
/// the order of the candidates (the offset of a node is its index); `None`
/// where a candidate stands at the PP's own offset.
pub fn compute_ranks(p_offset: usize, competition: &Vec<CompetingHead>) -> (r: Option<Vec<isize>>)
    requires
        competition@.len() < isize::MAX,
    ensures
        r.is_none() == !rankable(offsets(competition@), p_offset as nat),
        r.is_some() ==> r.unwrap()@.len() == competition@.len() && forall|i: int|
            0 <= i < competition@.len() ==> #[trigger] r.unwrap()@[i] as int == rank_of(
                offsets(competition@),
                p_offset as nat,
                i,
            ),
{
    let ghost offs = offsets(competition@);
    let n = competition.len();
    let mut i: usize = 0;
    while i < n
        invariant
            n == competition@.len(),
            offs == offsets(competition@),
            i <= n,
            forall|j: int| 0 <= j < i ==> #[trigger] offs[j] != p_offset as nat,
        decreases n - i,
    {
        if competition[i].node == p_offset {
            assert(offs[i as int] == p_offset as nat);
            return None;
        }
        i += 1;
    }
    let mut ranks: Vec<isize> = Vec::new();
    let mut i: usize = 0;
    while i < n
        invariant
            n == competition@.len(),
            n < isize::MAX,
            offs == offsets(competition@),
            rankable(offs, p_offset as nat),
            i <= n,
            ranks@.len() == i,
            forall|j: int| 0 <= j < i ==> #[trigger] ranks@[j] as int == rank_of(offs, p_offset as nat, j),
        decreases n - i,
    {
        let oi = competition[i].node;
        let di: usize = if oi < p_offset {
            p_offset - oi
        } else {
            oi - p_offset
        };
        let mut c: usize = 0;
        let mut k: usize = 0;
        while k < n
            invariant
                n == competition@.len(),
                n < isize::MAX,
                offs == offsets(competition@),
                i < n,
                oi as nat == offs[i as int],
                di as nat == dist(oi as nat, p_offset as nat),
                k <= n,
                c as nat == count_ranked_before(offs, p_offset as nat, i as int, k as nat),
            decreases n - k,
        {
            proof {
                lemma_count_bound(offs, p_offset as nat, i as int, k as nat);
            }
            let ok = competition[k].node;
            let dk: usize = if ok < p_offset {
                p_offset - ok
            } else {
                ok - p_offset
            };
            assert(ok as nat == offs[k as int]);
            if (ok < p_offset) == (oi < p_offset) && (dk < di || (dk == di && k < i)) {
                c += 1;
            }
            k += 1;
        }
        proof {
            lemma_count_bound(offs, p_offset as nat, i as int, n as nat);
        }
        let rank: isize = if oi < p_offset {
            -(c as isize + 1)
        } else {
            c as isize + 1
        };
        ranks.push(rank);
        i += 1;
    }
    Some(ranks)
}

proof fn lemma_count_ordered(offs: Seq<nat>, p: nat, i: int, j: int, k: nat)
    requires
        0 <= i < offs.len(),
        0 <= j < offs.len(),
        k <= offs.len(),
        ranked_before(offs, p, i, j),
    ensures
        count_ranked_before(offs, p, j, k) >= count_ranked_before(offs, p, i, k) + if i < k {
            1nat
        } else {
            0nat
        },
    decreases k,
{
    if k > 0 {
        lemma_count_ordered(offs, p, i, j, (k - 1) as nat);
    }
}

/// Ranks are never 0, negative exactly before the PP and positive after it;
/// on each side a candidate nearer to the PP has the rank of smaller
/// magnitude.
pub proof fn lemma_rank_order(offs: Seq<nat>, p: nat, i: int, j: int)
    requires
        rankable(offs, p),
        0 <= i < offs.len(),
        0 <= j < offs.len(),
    ensures
        rank_of(offs, p, i) != 0,
        (rank_of(offs, p, i) < 0) == (offs[i] < p),
        (rank_of(offs, p, i) > 0) == (offs[i] > p),
        offs[j] < offs[i] < p ==> rank_of(offs, p, j) < rank_of(offs, p, i),
        p < offs[i] < offs[j] ==> rank_of(offs, p, i) < rank_of(offs, p, j),
{
    assert(offs[i] != p);
    if offs[j] < offs[i] < p || p < offs[i] < offs[j] {
        lemma_count_ordered(offs, p, i, j, offs.len());
    }
}

/// The ranks are a function of the PP offset and the candidate offsets: two
/// rank lists that both meet the contract of `compute_ranks` for the same
/// input are equal.
pub proof fn lemma_ranks_determined(offs: Seq<nat>, p: nat, r1: Seq<isize>, r2: Seq<isize>)
    requires
        r1.len() == offs.len(),
        r2.len() == offs.len(),
        forall|i: int| 0 <= i < offs.len() ==> #[trigger] r1[i] as int == rank_of(offs, p, i),
        forall|i: int| 0 <= i < offs.len() ==> #[trigger] r2[i] as int == rank_of(offs, p, i),
    ensures
        r1 == r2,
{
    assert(r1 =~= r2);
}

/// Candidate `i` lies before the PP (`before`) or after it.
pub open spec fn on_side(offs: Seq<nat>, p: nat, i: int, before: bool) -> bool {
    if before {
        offs[i] < p
    } else {
        offs[i] > p
    }
}

/// The number of candidates among the first `k` on the given side.
pub open spec fn side_count(offs: Seq<nat>, p: nat, before: bool, k: nat) -> nat
    decreases k,
{
    if k == 0 {
        0
    } else {
        side_count(offs, p, before, (k - 1) as nat) + if on_side(offs, p, k - 1, before) {
            1nat
        } else {
            0nat
        }
    }
}

/// The ranks of the candidates on the given side.
pub open spec fn side_ranks(offs: Seq<nat>, p: nat, before: bool) -> Set<int> {
    Set::new(|r: int| exists|i: int| 0 <= i < offs.len() && on_side(offs, p, i, before) && rank_of(offs, p, i) == r)
}

pub open spec fn side_set(offs: Seq<nat>, p: nat, before: bool, k: nat) -> Set<int> {
    Set::new(|x: int| 0 <= x < k && on_side(offs, p, x, before))
}

proof fn lemma_side_set(offs: Seq<nat>, p: nat, before: bool, k: nat)
    requires
        k <= offs.len(),
    ensures
        side_set(offs, p, before, k).finite(),
        side_set(offs, p, before, k).len() == side_count(offs, p, before, k),
    decreases k,
{
    if k == 0 {
        assert(side_set(offs, p, before, k) =~= Set::<int>::empty());
    } else {
        let k1 = (k - 1) as nat;
        lemma_side_set(offs, p, before, k1);
        let prev = side_set(offs, p, before, k1);
        if on_side(offs, p, k1 as int, before) {
            assert(side_set(offs, p, before, k) =~= prev.insert(k1 as int));
            assert(!prev.contains(k1 as int));
        } else {
            assert(side_set(offs, p, before, k) =~= prev);
        }
    }
}

proof fn lemma_count_within_side(offs: Seq<nat>, p: nat, i: int, before: bool, k: nat)
    requires
        rankable(offs, p),
        0 <= i < offs.len(),
        k <= offs.len(),
        on_side(offs, p, i, before),
    ensures
        count_ranked_before(offs, p, i, k) + (if i < k {
            1nat
        } else {
            0nat
        }) <= side_count(offs, p, before, k),
    decreases k,
{
    if k > 0 {
        lemma_count_within_side(offs, p, i, before, (k - 1) as nat);
        assert(offs[k - 1] != p);
    }
}

/// On each side of the PP the ranks are distinct and fill a range: before
/// the PP they are exactly -1, ..., -b and after it exactly 1, ..., a, where
/// b and a are the numbers of candidates before and after the PP.
pub proof fn lemma_ranks_fill_sides(offs: Seq<nat>, p: nat, before: bool)
    requires
        rankable(offs, p),
    ensures
        ({
            let n = offs.len();
            let c = side_count(offs, p, before, n) as int;
            &&& forall|i: int|
                0 <= i < n && on_side(offs, p, i, before) ==> if before {
                    -c <= #[trigger] rank_of(offs, p, i) <= -1
                } else {
                    1 <= rank_of(offs, p, i) <= c
                }
            &&& forall|i: int, j: int|
                0 <= i < n && 0 <= j < n && i != j && on_side(offs, p, i, before) && on_side(offs, p, j, before)
                    ==> #[trigger] rank_of(offs, p, i) != #[trigger] rank_of(offs, p, j)
            &&& side_ranks(offs, p, before) == if before {
                set_int_range(-c, 0)
            } else {
                set_int_range(1, c + 1)
            }
        }),
{
    let n = offs.len();
    let c = side_count(offs, p, before, n) as int;
    let side = side_set(offs, p, before, n);
    let f = |i: int| count_ranked_before(offs, p, i, n) as int;
    lemma_side_set(offs, p, before, n);
    assert forall|i: int| 0 <= i < n && on_side(offs, p, i, before) implies f(i) < c && if before {
        rank_of(offs, p, i) == -(f(i) + 1)
    } else {
        rank_of(offs, p, i) == f(i) + 1
    } by {
        lemma_count_within_side(offs, p, i, before, n);
    }
    assert forall|i: int, j: int|
        0 <= i < n && 0 <= j < n && i != j && on_side(offs, p, i, before) && on_side(offs, p, j, before)
            implies f(i) != f(j) by {
        assert(offs[i] != p && offs[j] != p);
        if ranked_before(offs, p, i, j) {
            lemma_count_ordered(offs, p, i, j, n);
        } else {
            assert(ranked_before(offs, p, j, i));
            lemma_count_ordered(offs, p, j, i, n);
        }
    }
    let image = side.map(f);
    assert(injective_on(f, side));
    lemma_map_size(side, image, f);
    lemma_int_range(0, c);
    assert(image.subset_of(set_int_range(0, c))) by {
        assert forall|m: int| image.contains(m) implies set_int_range(0, c).contains(m) by {
            let i = choose|i: int| side.contains(i) && m == f(i);
            assert(0 <= i < n && on_side(offs, p, i, before));
            lemma_count_within_side(offs, p, i, before, n);
        }
    }
    lemma_subset_equality(image, set_int_range(0, c));
    let target = if before {
        set_int_range(-c, 0)
    } else {
        set_int_range(1, c + 1)
    };
    assert forall|r: int| side_ranks(offs, p, before).contains(r) <==> target.contains(r) by {
        if side_ranks(offs, p, before).contains(r) {
            let i = choose|i: int| 0 <= i < n && on_side(offs, p, i, before) && rank_of(offs, p, i) == r;
            assert(side.contains(i));
            assert(image.contains(f(i)));
            lemma_count_within_side(offs, p, i, before, n);
        }
        if target.contains(r) {
            let m = if before {
                -r
            } else {
                r
            };
            assert(set_int_range(0, c).contains(m - 1));
            assert(image.contains(m - 1));
            let i = choose|i: int| side.contains(i) && m - 1 == f(i);
            assert(0 <= i < n && on_side(offs, p, i, before) && rank_of(offs, p, i) == r);
        }
    }
    assert(side_ranks(offs, p, before) =~= target);
}

/// No two candidates share an offset.
pub open spec fn distinct_offsets(offs: Seq<nat>) -> bool {
    forall|a: int, b: int| 0 <= a < offs.len() && 0 <= b < offs.len() && a != b ==> #[trigger] offs[a] != #[trigger] offs[b]
}

/// The offsets of `s` on the same side of the PP as `o`, and nearer to it.
pub open spec fn nearer_offsets(s: Set<nat>, p: nat, o: nat) -> Set<nat> {
    s.filter(|x: nat| (x < p) == (o < p) && dist(x, p) < dist(o, p))
}

spec fn ranked_set(offs: Seq<nat>, p: nat, i: int, k: nat) -> Set<int> {
    Set::new(|x: int| 0 <= x < k && ranked_before(offs, p, x, i))
}

proof fn lemma_ranked_set(offs: Seq<nat>, p: nat, i: int, k: nat)
    requires
        k <= offs.len(),
    ensures
        ranked_set(offs, p, i, k).finite(),
        ranked_set(offs, p, i, k).len() == count_ranked_before(offs, p, i, k),
    decreases k,
{
    if k == 0 {
        assert(ranked_set(offs, p, i, k) =~= Set::<int>::empty());
    } else {
        let k1 = (k - 1) as nat;
        lemma_ranked_set(offs, p, i, k1);
        let prev = ranked_set(offs, p, i, k1);
        if ranked_before(offs, p, k1 as int, i) {
            assert(ranked_set(offs, p, i, k) =~= prev.insert(k1 as int));
            assert(!prev.contains(k1 as int));
        } else {
            assert(ranked_set(offs, p, i, k) =~= prev);
        }
    }
}

/// With distinct offsets, a candidate's rank depends only on its own offset
/// and on the set of all offsets, not on the order of the candidates: its
/// magnitude is one more than the number of offsets on its side that are
/// nearer to the PP.
pub proof fn lemma_rank_by_offsets(offs: Seq<nat>, p: nat, i: int)
    requires
        rankable(offs, p),
        distinct_offsets(offs),
        0 <= i < offs.len(),
    ensures
        rank_of(offs, p, i) == if offs[i] < p {
            -(1 + nearer_offsets(offs.to_set(), p, offs[i]).len() as int)
        } else {
            1 + nearer_offsets(offs.to_set(), p, offs[i]).len() as int
        },
{
    let n = offs.len();
    lemma_ranked_set(offs, p, i, n);
    let r = ranked_set(offs, p, i, n);
    let near = nearer_offsets(offs.to_set(), p, offs[i]);
    let g = |x: int| offs[x];
    assert forall|o: nat| r.map(g).contains(o) <==> near.contains(o) by {
        if r.map(g).contains(o) {
            let x = choose|x: int| r.contains(x) && o == g(x);
            assert(offs.contains(o));
            if dist(offs[x], p) == dist(offs[i], p) {
                assert(offs[x] == offs[i]);
                assert(x == i);
            }
        }
        if near.contains(o) {
            assert(offs.to_set().contains(o));
            let x = choose|x: int| 0 <= x < n && offs[x] == o;
            assert(r.contains(x));
            assert(r.map(g).contains(g(x)));
        }
    }
    assert(r.map(g) =~= near);
    assert(injective_on(g, r));
    lemma_map_size(r, near, g);
}

} // verus!
