//! Splitting the samples of a histogram into parts that fit into one metric each.
use crate::aggregate::{Count, HistogramValue};
use crate::double::{lemma_rounded_word, rounded, to_double};
use std::collections::HashMap;
use vstd::prelude::*;
use vstd::std_specs::iter::IteratorSpec;

verus! {

/// The most distinct samples that one metric carries.
pub const MAX_HISTOGRAM_VALUES: usize = 150;

/// A distinct sample and how often it occurred, both as doubles.
#[derive(Clone, Copy, Debug, PartialEq, Eq)]
pub struct HistogramDatum {
    pub count: i128,
    pub value: i128,
}

/// Distinct samples and, at the same places, how often each occurred, all as doubles.
#[derive(Debug, PartialEq, Eq)]
pub struct Histogram {
    pub counts: Vec<i128>,
    pub values: Vec<i128>,
}

/// Whether a sequence lists the entries of a histogram, each once, in any order.
pub open spec fn is_walk(walk: Seq<(HistogramValue, Count)>, histogram: Map<HistogramValue, Count>) -> bool {
    &&& forall|i: int|
        0 <= i < walk.len() ==> histogram.contains_key((#[trigger] walk[i]).0) && histogram[walk[i].0] == walk[i].1
    &&& forall|i: int, j: int| 0 <= i < j < walk.len() ==> (#[trigger] walk[i]).0 != (#[trigger] walk[j]).0
    &&& forall|sample: HistogramValue| #[trigger]
        histogram.contains_key(sample) ==> walk.contains((sample, histogram[sample]))
}

/// How many of the entries go into the next part.
pub open spec fn part_len(walk: Seq<(HistogramValue, Count)>) -> int {
    if walk.len() < MAX_HISTOGRAM_VALUES {
        walk.len() as int
    } else {
        MAX_HISTOGRAM_VALUES as int
    }
}

/// The entries, split up from the front into parts that are as long as they can be.
pub open spec fn parts(walk: Seq<(HistogramValue, Count)>) -> Seq<Seq<(HistogramValue, Count)>>
    decreases walk.len(),
{
    if walk.len() == 0 {
        Seq::empty()
    } else {
        seq![walk.take(part_len(walk))] + parts(walk.skip(part_len(walk)))
    }
}

/// The samples of the entries, as doubles.
pub open spec fn values_of(part: Seq<(HistogramValue, Count)>) -> Seq<i128> {
    part.map_values(|entry: (HistogramValue, Count)| rounded(entry.0 as int) as i128)
}

/// The counts of the entries, as doubles.
pub open spec fn counts_of(part: Seq<(HistogramValue, Count)>) -> Seq<i128> {
    part.map_values(|entry: (HistogramValue, Count)| rounded(entry.1 as int) as i128)
}

impl Default for Histogram {
    fn default() -> (histogram: Self)
        ensures
            histogram.counts@ == Seq::<i128>::empty(),
            histogram.values@ == Seq::<i128>::empty(),
    {
        Histogram { counts: Vec::new(), values: Vec::new() }
    }
}

/// The entries of a histogram in the order in which the map is walked, which may be any.
pub fn histogram_walk(histogram: &HashMap<HistogramValue, Count>) -> (walk: Vec<(HistogramValue, Count)>)
    ensures
        is_walk(walk@, histogram@),
{
    let mut walk: Vec<(HistogramValue, Count)> = Vec::new();
    for entry in entries: histogram.iter()
        invariant
            entries.seq() == histogram.iter().remaining(),
            entries.seq().no_duplicates(),
            walk@.len() == entries.index(),
            forall|i: int|
                0 <= i < walk@.len() ==> (#[trigger] walk@[i]).0 == *entries.seq()[i].0 && walk@[i].1
                    == *entries.seq()[i].1,
    {
        walk.push((*entry.0, *entry.1));
    }
    proof {
        let entries = histogram.iter().remaining();
        assert forall|i: int, j: int| 0 <= i < j < walk@.len() implies (#[trigger] walk@[i]).0 != (#[trigger] walk@[j]).0 by {
            assert(entries[i] != entries[j]);
            assert(histogram@[*entries[i].0] == *entries[i].1);
            assert(histogram@[*entries[j].0] == *entries[j].1);
        }
        assert forall|sample: HistogramValue| #[trigger] histogram@.contains_key(sample) implies walk@.contains(
            (sample, histogram@[sample]),
        ) by {
            let i = choose|i: int| 0 <= i < entries.len() && entries[i] == (&sample, &histogram@[sample]);
            assert(walk@[i] == (sample, histogram@[sample]));
        }
    }
    walk
}

/// An entry of a histogram as doubles.
pub fn histogram_datum(entry: (HistogramValue, Count)) -> (datum: HistogramDatum)
    ensures
        datum.value == rounded(entry.0 as int),
        datum.count == rounded(entry.1 as int),
{
    proof {
        lemma_rounded_word(entry.0 as int);
        lemma_rounded_word(entry.1 as int);
    }
    HistogramDatum { value: to_double(entry.0 as i128), count: to_double(entry.1 as i128) }
}

/// The next part of the entries, from `start` on.
fn next_part(walk: &Vec<(HistogramValue, Count)>, start: usize) -> (part: Histogram)
    requires
        start <= walk@.len(),
    ensures
        part.values@ == values_of(walk@.skip(start as int).take(part_len(walk@.skip(start as int)))),
        part.counts@ == counts_of(walk@.skip(start as int).take(part_len(walk@.skip(start as int)))),
{
    let end: usize = walk.len();
    let len: usize = if end - start < MAX_HISTOGRAM_VALUES {
        end - start
    } else {
        MAX_HISTOGRAM_VALUES
    };
    let mut part: Histogram = Default::default();
    let ghost entries = walk@.skip(start as int).take(len as int);
    for i in 0..len
        invariant
            end == walk@.len(),
            start + len <= end,
            entries == walk@.skip(start as int).take(len as int),
            part.values@ == values_of(entries).take(i as int),
            part.counts@ == counts_of(entries).take(i as int),
    {
        let datum = histogram_datum(walk[start + i]);
        part.values.push(datum.value);
        part.counts.push(datum.count);
        assert(values_of(entries).take(i + 1) =~= values_of(entries).take(i as int).push(values_of(entries)[i as int]));
        assert(counts_of(entries).take(i + 1) =~= counts_of(entries).take(i as int).push(counts_of(entries)[i as int]));
    }
    assert(values_of(entries).take(len as int) =~= values_of(entries));
    assert(counts_of(entries).take(len as int) =~= counts_of(entries));
    part
}

/// Splits the entries of a histogram up, in their order, into parts that fit into one metric each.
pub fn histogram_parts(walk: &Vec<(HistogramValue, Count)>) -> (result: Vec<Histogram>)
    ensures
        result@.len() == parts(walk@).len(),
        forall|i: int|
            0 <= i < result@.len() ==> {
                &&& (#[trigger] result@[i]).values@ == values_of(parts(walk@)[i])
                &&& result@[i].counts@ == counts_of(parts(walk@)[i])
            },
{
    let mut result: Vec<Histogram> = Vec::new();
    let mut start: usize = 0;
    let end: usize = walk.len();
    let ghost mut done: Seq<Seq<(HistogramValue, Count)>> = Seq::empty();
    assert(walk@.skip(0) =~= walk@);
    assert(done + parts(walk@) =~= parts(walk@));
    loop
        invariant
            end == walk@.len(),
            start <= end,
            parts(walk@) == done + parts(walk@.skip(start as int)),
            result@.len() == done.len(),
            forall|i: int|
                0 <= i < result@.len() ==> {
                    &&& (#[trigger] result@[i]).values@ == values_of(done[i])
                    &&& result@[i].counts@ == counts_of(done[i])
                },
        ensures
            parts(walk@) == done,
        decreases end - start,
    {
        let ghost rest = walk@.skip(start as int);
        let part = next_part(walk, start);
        if part.values.len() == 0 {
            assert(done + parts(rest) =~= done);
            break;
        }
        start = start + part.values.len();
        result.push(part);
        proof {
            let entries = rest.take(part_len(rest));
            assert(rest.skip(part_len(rest)) =~= walk@.skip(start as int));
            assert(done + parts(rest) =~= done.push(entries) + parts(walk@.skip(start as int)));
            done = done.push(entries);
        }
    }
    result
}

/// The parts, one after another, hold every entry in its place.
pub proof fn law_parts_lose_nothing(walk: Seq<(HistogramValue, Count)>)
    ensures
        parts(walk).flatten() == walk,
    decreases walk.len(),
{
    if walk.len() == 0 {
        assert(parts(walk).flatten() =~= walk);
    } else {
        let rest = walk.skip(part_len(walk));
        law_parts_lose_nothing(rest);
        assert(parts(walk).drop_first() =~= parts(rest));
        assert(parts(walk).flatten() =~= walk);
    }
}

/// No part is empty or longer than a metric may be, and only the last is shorter.
pub proof fn law_parts_are_full(walk: Seq<(HistogramValue, Count)>)
    ensures
        forall|i: int| 0 <= i < parts(walk).len() ==> 0 < (#[trigger] parts(walk)[i]).len() <= MAX_HISTOGRAM_VALUES,
        forall|i: int| 0 <= i < parts(walk).len() - 1 ==> (#[trigger] parts(walk)[i]).len() == MAX_HISTOGRAM_VALUES,
        parts(walk).len() == (walk.len() + MAX_HISTOGRAM_VALUES - 1) / MAX_HISTOGRAM_VALUES as int,
    decreases walk.len(),
{
    if walk.len() > 0 {
        let rest = walk.skip(part_len(walk));
        law_parts_are_full(rest);
        assert forall|i: int| 0 <= i < parts(walk).len() implies {
            &&& 0 < (#[trigger] parts(walk)[i]).len() <= MAX_HISTOGRAM_VALUES
            &&& i < parts(walk).len() - 1 ==> parts(walk)[i].len() == MAX_HISTOGRAM_VALUES
        } by {
            if i > 0 {
                assert(parts(walk)[i] == parts(rest)[i - 1]);
            }
        }
    }
}

/// The parts are runs of 150 entries, the last one of what is left: the entry at a place of a part
/// stands 150 places further on for each part before it.
pub proof fn law_parts_are_runs(walk: Seq<(HistogramValue, Count)>)
    ensures
        150 * parts(walk).len() >= walk.len(),
        parts(walk).len() > 0 ==> 150 * (parts(walk).len() - 1) < walk.len(),
        forall|p: int|
            0 <= p < parts(walk).len() ==> (#[trigger] parts(walk)[p]).len() == if walk.len() - 150 * p < 150 {
                walk.len() - 150 * p
            } else {
                150
            },
        forall|p: int, i: int|
            0 <= p < parts(walk).len() && 0 <= i < parts(walk)[p].len() ==> 150 * p + i < walk.len()
                && #[trigger] parts(walk)[p][i] == walk[150 * p + i],
    decreases walk.len(),
{
    if walk.len() > 0 {
        let rest = walk.skip(part_len(walk));
        law_parts_are_runs(rest);
        assert forall|p: int| 0 <= p < parts(walk).len() implies (#[trigger] parts(walk)[p]).len() == if walk.len()
            - 150 * p < 150 {
            walk.len() - 150 * p
        } else {
            150
        } by {
            if p > 0 {
                assert(parts(walk)[p] == parts(rest)[p - 1]);
            }
        }
        assert forall|p: int, i: int| 0 <= p < parts(walk).len() && 0 <= i < parts(walk)[p].len() implies 150 * p + i
            < walk.len() && #[trigger] parts(walk)[p][i] == walk[150 * p + i] by {
            if p > 0 {
                assert(parts(walk)[p] == parts(rest)[p - 1]);
                assert(parts(rest)[p - 1][i] == rest[150 * (p - 1) + i]);
            }
        }
    }
}

/// Each entry of a part is shown at its own place: the double nearest to the sample among the values,
/// and the double nearest to the number of times it was recorded among the counts.
pub proof fn law_part_shows_samples_and_counts(part: Seq<(HistogramValue, Count)>)
    ensures
        values_of(part).len() == part.len(),
        counts_of(part).len() == part.len(),
        forall|i: int| 0 <= i < part.len() ==> #[trigger] values_of(part)[i] == rounded(part[i].0 as int),
        forall|i: int| 0 <= i < part.len() ==> #[trigger] counts_of(part)[i] == rounded(part[i].1 as int),
{
    assert forall|i: int| 0 <= i < part.len() implies #[trigger] values_of(part)[i] == rounded(part[i].0 as int) by {
        lemma_rounded_word(part[i].0 as int);
    }
    assert forall|i: int| 0 <= i < part.len() implies #[trigger] counts_of(part)[i] == rounded(part[i].1 as int) by {
        lemma_rounded_word(part[i].1 as int);
    }
}

/// A walk passes each entry of the histogram once, and nothing else.
pub proof fn law_walk_passes_each_entry_once(
    walk: Seq<(HistogramValue, Count)>,
    histogram: Map<HistogramValue, Count>,
    sample: HistogramValue,
    count: Count,
)
    requires
        is_walk(walk, histogram),
    ensures
        walk.contains((sample, count)) <==> histogram.contains_key(sample) && histogram[sample] == count,
        walk.no_duplicates(),
{
    if walk.contains((sample, count)) {
        let i = choose|i: int| 0 <= i < walk.len() && walk[i] == (sample, count);
        assert(histogram.contains_key(walk[i].0));
    }
    assert forall|i: int, j: int| 0 <= i < walk.len() && 0 <= j < walk.len() && i != j implies walk[i] != walk[j] by {
        if i < j {
            assert(walk[i].0 != walk[j].0);
        } else {
            assert(walk[j].0 != walk[i].0);
        }
    }
}

} // verus!
