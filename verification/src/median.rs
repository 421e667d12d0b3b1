//! The median of a sample.
use crate::double::Double;
use crate::rank::{
    lemma_position_of_rank, lemma_rank_below_len, lemma_sorted_ascends, position_of_rank, positions_before, rank,
    sorted, sorted_positions,
};
use vstd::prelude::*;
use vstd::set_lib::{lemma_int_range, lemma_len_subset, set_int_range};

verus! {

/// The rank at which the median of `n` numbers stands, for `n` above 0: the
/// middle rank where `n` is odd, the lower of the two central ranks where
/// `n` is even.
pub open spec fn median_rank(n: nat) -> int {
    (n - 1) / 2
}

/// The median of a sample: the number at the median rank of the sorted
/// sample, and none for the empty sample. It is a number of the sample, never
/// the mean of two of them.
pub open spec fn median_of(s: Seq<Double>) -> Option<Double> {
    if s.len() == 0 {
        None
    } else {
        Some(sorted(s)[median_rank(s.len())])
    }
}

/// The median of the sample, which is left as it is. Of an even number of
/// numbers it is the lower of the two central ones. A NaN is sorted behind
/// every number.
pub fn median(nums: &[Double]) -> (r: Option<Double>)
    ensures
        r == median_of(nums@),
{
    let n = nums.len();
    if n == 0 {
        return None;
    }
    let order = sorted_positions(nums);
    let middle: usize = (n - 1) / 2;
    Some(nums[order[middle]])
}

/// The median of a sample that is not empty is the number at one of its
/// positions, the one before which `median_rank` positions come.
pub proof fn lemma_median_in_sample(s: Seq<Double>)
    requires
        s.len() > 0,
    ensures
        ({
            let i = position_of_rank(s, median_rank(s.len()));
            &&& 0 <= i < s.len()
            &&& rank(s, i) == median_rank(s.len())
            &&& median_of(s) == Some(s[i])
        }),
{
    lemma_position_of_rank(s, median_rank(s.len()));
}

/// Of an odd number of numbers the median is the middle one of the sorted
/// sample. Of an even number it is the lower of the two central ones: the
/// one at the lower index, which the other does not precede.
pub proof fn lemma_median_is_lower_central(s: Seq<Double>)
    requires
        s.len() > 0,
    ensures
        ({
            let half = (s.len() / 2) as int;
            &&& s.len() % 2 == 1 ==> median_of(s) == Some(sorted(s)[half])
            &&& s.len() % 2 == 0 ==> median_of(s) == Some(sorted(s)[half - 1])
            &&& s.len() % 2 == 0 ==> !sorted(s)[half].precedes(sorted(s)[half - 1])
        }),
{
    let half = (s.len() / 2) as int;
    if s.len() % 2 == 0 {
        lemma_sorted_ascends(s, half - 1, half);
    }
}

/// The median splits the sample, whatever the order in which the sample
/// holds its numbers: at most `median_rank` numbers precede the median, and
/// more than `median_rank` numbers are not preceded by it.
pub proof fn lemma_median_splits_sample(s: Seq<Double>)
    requires
        s.len() > 0,
    ensures
        ({
            let m = median_of(s)->0;
            let below = Set::new(|j: int| 0 <= j < s.len() && s[j].precedes(m));
            let not_above = Set::new(|j: int| 0 <= j < s.len() && !m.precedes(s[j]));
            &&& below.finite()
            &&& not_above.finite()
            &&& below.len() <= median_rank(s.len()) < not_above.len()
        }),
{
    lemma_median_in_sample(s);
    let i = position_of_rank(s, median_rank(s.len()));
    let m = s[i];
    let below = Set::new(|j: int| 0 <= j < s.len() && s[j].precedes(m));
    let not_above = Set::new(|j: int| 0 <= j < s.len() && !m.precedes(s[j]));
    let all = set_int_range(0, s.len() as int);
    lemma_rank_below_len(s, i);
    lemma_int_range(0, s.len() as int);
    lemma_len_subset(below, positions_before(s, i));
    lemma_len_subset(not_above, all);
    lemma_len_subset(positions_before(s, i).insert(i), not_above);
}

} // verus!
