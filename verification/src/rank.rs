//! The order of the positions of a sample, and the sort that finds it.
use crate::double::Double;
use vstd::prelude::*;
use vstd::relations::injective_on;
use vstd::seq_lib::seq_to_set_is_finite;
use vstd::set_lib::{lemma_int_range, lemma_len_subset, lemma_map_size, lemma_subset_equality, set_int_range};

verus! {

/// Whether position `i` of the sample comes before position `j` once the
/// sample is sorted: the number that precedes the other comes first, and of
/// two numbers of which neither precedes the other, the one that stood first
/// in the sample. Of two different positions exactly one comes before the
/// other.
pub open spec fn ranks_before(s: Seq<Double>, i: int, j: int) -> bool {
    s[i].precedes(s[j]) || (!s[j].precedes(s[i]) && i < j)
}

/// The positions of the sample that come before position `i`.
pub open spec fn positions_before(s: Seq<Double>, i: int) -> Set<int> {
    Set::new(|j: int| 0 <= j < s.len() && ranks_before(s, j, i))
}

/// The rank of position `i`: how many positions come before it, which is the
/// index at which its number stands in the sorted sample.
pub open spec fn rank(s: Seq<Double>, i: int) -> nat {
    positions_before(s, i).len()
}

/// The position whose rank is `k`.
pub open spec fn position_of_rank(s: Seq<Double>, k: int) -> int {
    choose|i: int| 0 <= i < s.len() && rank(s, i) == k
}

/// The sample, sorted: its numbers by the rank of their positions.
pub open spec fn sorted(s: Seq<Double>) -> Seq<Double> {
    Seq::new(s.len(), |k: int| s[position_of_rank(s, k)])
}

/// What comes before something that comes before a third comes before the
/// third.
pub proof fn lemma_ranks_before_transitive(s: Seq<Double>, i: int, j: int, k: int)
    requires
        ranks_before(s, i, j),
        ranks_before(s, j, k),
    ensures
        ranks_before(s, i, k),
{
}

/// The positions before a position are finitely many, and it is not one of
/// them: a rank is below the length of the sample.
pub proof fn lemma_rank_below_len(s: Seq<Double>, i: int)
    requires
        0 <= i < s.len(),
    ensures
        positions_before(s, i).finite(),
        rank(s, i) < s.len(),
{
    let all = set_int_range(0, s.len() as int);
    lemma_int_range(0, s.len() as int);
    lemma_len_subset(positions_before(s, i), all);
    positions_before(s, i).lemma_subset_not_in_lt(all, i);
}

/// What comes before a position has the lower rank.
pub proof fn lemma_rank_increases(s: Seq<Double>, i: int, j: int)
    requires
        0 <= i < s.len(),
        0 <= j < s.len(),
        ranks_before(s, i, j),
    ensures
        rank(s, i) < rank(s, j),
{
    lemma_rank_below_len(s, j);
    assert forall|x: int| positions_before(s, i).contains(x) implies positions_before(
        s,
        j,
    ).contains(x) by {
        lemma_ranks_before_transitive(s, x, i, j);
    }
    positions_before(s, i).lemma_subset_not_in_lt(positions_before(s, j), i);
}

/// Two different positions have different ranks, so a sample has one sorted
/// order.
pub proof fn lemma_rank_injective(s: Seq<Double>, i: int, j: int)
    requires
        0 <= i < s.len(),
        0 <= j < s.len(),
        rank(s, i) == rank(s, j),
    ensures
        i == j,
{
    if ranks_before(s, i, j) {
        lemma_rank_increases(s, i, j);
    } else if i != j {
        lemma_rank_increases(s, j, i);
    }
}

/// Every rank below the length of the sample is the rank of exactly one
/// position.
pub proof fn lemma_position_of_rank(s: Seq<Double>, k: int)
    requires
        0 <= k < s.len(),
    ensures
        0 <= position_of_rank(s, k) < s.len(),
        rank(s, position_of_rank(s, k)) == k,
        forall|i: int| 0 <= i < s.len() && rank(s, i) == k ==> i == position_of_rank(s, k),
{
    let all = set_int_range(0, s.len() as int);
    let rank_of = |i: int| rank(s, i) as int;
    let ranks = all.map(rank_of);
    lemma_int_range(0, s.len() as int);
    assert(injective_on(rank_of, all)) by {
        assert forall|i: int, j: int|
            all.contains(i) && all.contains(j) && #[trigger] rank_of(i) == #[trigger] rank_of(
                j,
            ) implies i == j by {
            lemma_rank_injective(s, i, j);
        }
    }
    lemma_map_size(all, ranks, rank_of);
    assert(ranks.subset_of(all)) by {
        assert forall|r: int| ranks.contains(r) implies all.contains(r) by {
            let i = choose|i: int| all.contains(i) && r == rank_of(i);
            lemma_rank_below_len(s, i);
        }
    }
    lemma_subset_equality(ranks, all);
    // So `k` is among the ranks, and some position has it.
    assert(ranks.contains(k));
    assert forall|j: int| 0 <= j < s.len() && rank(s, j) == k implies j == position_of_rank(
        s,
        k,
    ) by {
        lemma_rank_injective(s, j, position_of_rank(s, k));
    }
}

/// The sorted sample ascends: no number in it precedes one that stands
/// before it.
pub proof fn lemma_sorted_ascends(s: Seq<Double>, a: int, b: int)
    requires
        0 <= a <= b < s.len(),
    ensures
        !sorted(s)[b].precedes(sorted(s)[a]),
{
    let (i, j) = (position_of_rank(s, a), position_of_rank(s, b));
    lemma_position_of_rank(s, a);
    lemma_position_of_rank(s, b);
    if ranks_before(s, j, i) {
        lemma_rank_increases(s, j, i);
    }
}

/// Whether `order` lists the positions from `lo` up to `hi`, each once, so
/// that each comes before those listed after it.
pub open spec fn lists_in_order(s: Seq<Double>, order: Seq<usize>, lo: int, hi: int) -> bool {
    &&& order.len() == hi - lo
    &&& forall|a: int| 0 <= a < order.len() ==> lo <= #[trigger] order[a] < hi
    &&& forall|a: int, b: int|
        0 <= a < b < order.len() ==> ranks_before(s, #[trigger] order[a] as int, #[trigger] order[b] as int)
}

/// In a list of all positions in order, each position stands at its rank.
pub proof fn lemma_rank_in_order(s: Seq<Double>, order: Seq<usize>, k: int)
    requires
        lists_in_order(s, order, 0, s.len() as int),
        0 <= k < s.len(),
    ensures
        rank(s, order[k] as int) == k,
{
    let n = s.len() as int;
    let listed = Seq::new(order.len(), |a: int| order[a] as int);
    let all = set_int_range(0, n);
    // No position is listed twice, since none comes before itself.
    assert(listed.no_duplicates()) by {
        assert forall|a: int, b: int| 0 <= a < b < listed.len() implies listed[a] != listed[b] by {
            assert(ranks_before(s, order[a] as int, order[b] as int));
        }
    }
    // So every position is listed: the list holds as many as there are.
    listed.unique_seq_to_set();
    seq_to_set_is_finite(listed);
    lemma_int_range(0, n);
    assert(listed.to_set().subset_of(all)) by {
        assert forall|x: int| listed.to_set().contains(x) implies all.contains(x) by {
            let a = choose|a: int| 0 <= a < listed.len() && listed[a] == x;
            assert(0 <= order[a] < n);
        }
    }
    lemma_subset_equality(listed.to_set(), all);
    // The positions before the one listed at `k` are those listed before it.
    let head = listed.take(k);
    head.unique_seq_to_set();
    assert(positions_before(s, order[k] as int) =~= head.to_set()) by {
        assert forall|x: int| head.to_set().contains(x) implies positions_before(
            s,
            order[k] as int,
        ).contains(x) by {
            let a = choose|a: int| 0 <= a < head.len() && head[a] == x;
            assert(ranks_before(s, order[a] as int, order[k] as int));
        }
        assert forall|x: int| positions_before(s, order[k] as int).contains(
            x,
        ) implies head.to_set().contains(x) by {
            assert(listed.to_set().contains(x));
            let a = choose|a: int| 0 <= a < listed.len() && listed[a] == x;
            assert(a < k) by {
                if a > k {
                    assert(ranks_before(s, order[k] as int, order[a] as int));
                }
            }
            assert(head[a] == x);
        }
    }
}

/// Merges two lists of positions that are in order, the first of positions
/// below `mid` and the second of the positions from `mid` on, into one. Where
/// neither number precedes the other the position from the first list goes
/// first, which stood first in the sample.
fn merge(
    nums: &[Double],
    left: &Vec<usize>,
    right: &Vec<usize>,
    Ghost(lo): Ghost<int>,
    Ghost(mid): Ghost<int>,
    Ghost(hi): Ghost<int>,
) -> (out: Vec<usize>)
    requires
        0 <= lo <= mid <= hi <= nums@.len(),
        lists_in_order(nums@, left@, lo, mid),
        lists_in_order(nums@, right@, mid, hi),
    ensures
        lists_in_order(nums@, out@, lo, hi),
{
    let mut out: Vec<usize> = Vec::new();
    let mut i: usize = 0;
    let mut j: usize = 0;
    while i < left.len() || j < right.len()
        invariant
            0 <= lo <= mid <= hi <= nums@.len(),
            lists_in_order(nums@, left@, lo, mid),
            lists_in_order(nums@, right@, mid, hi),
            i <= left.len(),
            j <= right.len(),
            out.len() == i + j,
            forall|a: int| 0 <= a < out.len() ==> lo <= #[trigger] out[a] < hi,
            forall|a: int, b: int|
                0 <= a < b < out.len() ==> ranks_before(
                    nums@,
                    #[trigger] out[a] as int,
                    #[trigger] out[b] as int,
                ),
            forall|a: int, b: int|
                0 <= a < out.len() && i <= b < left.len() ==> ranks_before(
                    nums@,
                    #[trigger] out[a] as int,
                    #[trigger] left[b] as int,
                ),
            forall|a: int, b: int|
                0 <= a < out.len() && j <= b < right.len() ==> ranks_before(
                    nums@,
                    #[trigger] out[a] as int,
                    #[trigger] right[b] as int,
                ),
        decreases left.len() - i + right.len() - j,
    {
        let from_right = if i == left.len() {
            true
        } else if j == right.len() {
            false
        } else {
            nums[right[j]].precedes(nums[left[i]])
        };
        if from_right {
            let y = right[j];
            proof {
                assert forall|b: int| i <= b < left.len() implies ranks_before(
                    nums@,
                    y as int,
                    #[trigger] left[b] as int,
                ) by {
                    if b > i {
                        lemma_ranks_before_transitive(nums@, y as int, left[i as int] as int, left[b] as int);
                    }
                }
            }
            out.push(y);
            j += 1;
        } else {
            let x = left[i];
            proof {
                assert forall|b: int| j <= b < right.len() implies ranks_before(
                    nums@,
                    x as int,
                    #[trigger] right[b] as int,
                ) by {
                    if b > j {
                        lemma_ranks_before_transitive(nums@, x as int, right[j as int] as int, right[b] as int);
                    }
                }
            }
            out.push(x);
            i += 1;
        }
    }
    out
}

/// The positions from `lo` up to `hi`, in order, by merge sort.
fn sort_range(nums: &[Double], lo: usize, hi: usize) -> (order: Vec<usize>)
    requires
        lo <= hi <= nums@.len(),
    ensures
        lists_in_order(nums@, order@, lo as int, hi as int),
    decreases hi - lo,
{
    let mut order: Vec<usize> = Vec::new();
    if hi - lo == 1 {
        order.push(lo);
    } else if hi - lo > 1 {
        let mid: usize = lo + (hi - lo) / 2;
        let left = sort_range(nums, lo, mid);
        let right = sort_range(nums, mid, hi);
        order = merge(nums, &left, &right, Ghost(lo as int), Ghost(mid as int), Ghost(hi as int));
    }
    order
}

/// The positions of the sample in sorted order: the position of rank 0
/// first, then that of rank 1, and so on. The sample itself is left as it
/// is.
pub fn sorted_positions(nums: &[Double]) -> (order: Vec<usize>)
    ensures
        order@.len() == nums@.len(),
        forall|k: int|
            0 <= k < order@.len() ==> #[trigger] order@[k] == position_of_rank(nums@, k) && order@[k]
                < nums@.len(),
{
    let order = sort_range(nums, 0, nums.len());
    proof {
        assert forall|k: int| 0 <= k < order@.len() implies #[trigger] order@[k]
            == position_of_rank(nums@, k) && order@[k] < nums@.len() by {
            lemma_rank_in_order(nums@, order@, k);
            lemma_position_of_rank(nums@, k);
        }
    }
    order
}

} // verus!
