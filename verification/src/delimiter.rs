//! Choosing the field separator of a file from its header line.

use crate::text::{chars_of, count_char, count_of};
use vstd::prelude::*;

verus! {

/// The characters that may separate fields, in order of preference.
pub open spec fn candidates() -> Seq<char> {
    seq![',', ';', '\t', '|', ':']
}

/// How often each candidate occurs in `line`, in the candidates' order.
pub open spec fn candidate_counts(line: Seq<char>) -> Seq<nat> {
    Seq::new(candidates().len(), |k: int| count_of(line, candidates()[k]))
}

/// The position of the first greatest entry of `counts`.
pub open spec fn first_max(counts: Seq<nat>) -> int
    decreases counts.len(),
{
    if counts.len() <= 1 {
        0
    } else {
        let best = first_max(counts.drop_last());
        if counts.last() > counts[best] {
            counts.len() - 1
        } else {
            best
        }
    }
}

/// The separator that a header line calls for: the candidate that occurs
/// most often, and among several that do, the one that comes first in
/// `candidates()`.
pub open spec fn sniffed_delimiter(line: Seq<char>) -> char {
    candidates()[first_max(candidate_counts(line))]
}

/// `first_max` names an entry that no entry exceeds and that every earlier
/// entry falls short of.
pub proof fn lemma_first_max(counts: Seq<nat>)
    requires
        counts.len() > 0,
    ensures
        0 <= first_max(counts) < counts.len(),
        forall|j: int|
            0 <= j < counts.len() ==> #[trigger] counts[j] <= counts[first_max(counts)],
        forall|j: int|
            0 <= j < first_max(counts) ==> #[trigger] counts[j] < counts[first_max(counts)],
    decreases counts.len(),
{
    if counts.len() > 1 {
        let init = counts.drop_last();
        lemma_first_max(init);
        let best = first_max(counts);
        assert forall|j: int| 0 <= j < counts.len() implies #[trigger] counts[j] <= counts[best] by {
            if j < init.len() {
                assert(init[j] == counts[j]);
            }
        }
        assert forall|j: int| 0 <= j < best implies #[trigger] counts[j] < counts[best] by {
            assert(init[j] == counts[j]);
        }
    }
}

/// The chosen separator is a candidate, no candidate occurs more often, and
/// every candidate before it occurs less often. Only one character meets
/// all three.
pub proof fn law_sniffed_delimiter_is_first_most_frequent(line: Seq<char>)
    ensures
        candidates().contains(sniffed_delimiter(line)),
        forall|j: int|
            0 <= j < candidates().len() ==> count_of(line, #[trigger] candidates()[j]) <= count_of(
                line,
                sniffed_delimiter(line),
            ),
        forall|j: int, k: int|
            0 <= j < k < candidates().len() && #[trigger] candidates()[k] == sniffed_delimiter(line)
                ==> count_of(line, #[trigger] candidates()[j]) < count_of(
                line,
                sniffed_delimiter(line),
            ),
{
    let counts = candidate_counts(line);
    lemma_first_max(counts);
    let best = first_max(counts);
    assert(candidates()[best] == sniffed_delimiter(line));
    assert forall|j: int| 0 <= j < candidates().len() implies count_of(
        line,
        #[trigger] candidates()[j],
    ) <= count_of(line, sniffed_delimiter(line)) by {
        assert(counts[j] <= counts[best]);
    }
    assert forall|j: int, k: int|
        0 <= j < k < candidates().len() && #[trigger] candidates()[k] == sniffed_delimiter(
            line,
        ) implies count_of(line, #[trigger] candidates()[j]) < count_of(
        line,
        sniffed_delimiter(line),
    ) by {
        assert(k == best);
        assert(counts[j] < counts[best]);
    }
}

/// A candidate that occurs more often than every other candidate is the
/// separator chosen.
pub proof fn law_clear_majority_wins(line: Seq<char>, k: int)
    requires
        0 <= k < candidates().len(),
        forall|j: int|
            0 <= j < candidates().len() && j != k ==> count_of(line, #[trigger] candidates()[j])
                < count_of(line, candidates()[k]),
    ensures
        sniffed_delimiter(line) == candidates()[k],
{
    let counts = candidate_counts(line);
    lemma_first_max(counts);
    let m = first_max(counts);
    if m != k {
        assert(counts[k] <= counts[m]);
    }
}

/// A line that holds no candidate at all gets the comma.
pub proof fn law_no_candidate_gives_comma(line: Seq<char>)
    requires
        forall|j: int|
            0 <= j < candidates().len() ==> count_of(line, #[trigger] candidates()[j]) == 0,
    ensures
        sniffed_delimiter(line) == ',',
{
    let counts = candidate_counts(line);
    lemma_first_max(counts);
    let m = first_max(counts);
    if m > 0 {
        assert(counts[0] < counts[m]);
    }
}

/// The candidate at position `k`.
fn candidate(k: usize) -> (c: char)
    requires
        k < candidates().len(),
    ensures
        c == candidates()[k as int],
{
    if k == 0 {
        ','
    } else if k == 1 {
        ';'
    } else if k == 2 {
        '\t'
    } else if k == 3 {
        '|'
    } else {
        ':'
    }
}

/// Picks the field separator for a file from its header line: the
/// candidate that occurs most often in the line; of several that do, the
/// first in the order `,` `;` tab `|` `:`; hence the comma where the line
/// holds none of them.
pub fn determine_delimiter(first_line: &String) -> (delimiter: char)
    ensures
        delimiter == sniffed_delimiter(first_line@),
{
    let chars = chars_of(first_line.as_str());
    let ghost counts = candidate_counts(chars@);
    let mut best: usize = 0;
    let mut best_count: usize = count_char(&chars, candidate(0));
    let mut k: usize = 1;
    while k < 5
        invariant
            1 <= k <= 5,
            chars@ == first_line@,
            counts == candidate_counts(chars@),
            best == first_max(counts.take(k as int)),
            best < k,
            best_count == counts[best as int],
        decreases 5 - k,
    {
        let count = count_char(&chars, candidate(k));
        proof {
            assert(counts.take(k + 1).drop_last() == counts.take(k as int));
        }
        if count > best_count {
            best = k;
            best_count = count;
        }
        k += 1;
    }
    proof {
        assert(counts.take(5) == counts);
    }
    candidate(best)
}

} // verus!
