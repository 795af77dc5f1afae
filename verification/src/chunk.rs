//! Splitting a batch of metrics into requests that CloudWatch accepts.
use crate::metric::{metric_views, MetricDatum, MetricDatumView, PairView};
use vstd::prelude::*;

verus! {

/// The number of metrics that every request stays below.
pub const MAX_CW_METRICS_PER_CALL: usize = 20;

/// The most bytes, as estimated by [`metric_size`], that the metrics of one request take.
pub const MAX_CW_METRICS_PUT_SIZE: usize = 40_000;

/// The bytes that each element of a metric is assumed to take in a request. The format has a high
/// overhead, so this is a high estimate, as for
/// `MetricData.member.2.Dimensions.member.2.Value=m1.small`.
pub const BYTES_PER_ELEMENT: usize = 60;

/// The fields of a metric that hold a single element each.
pub const SINGLE_ELEMENT_FIELDS: usize = 6;

/// A request to store metrics.
#[derive(Debug, PartialEq, Eq)]
pub struct PutMetricDataInput {
    pub metric_data: Vec<MetricDatum>,
    pub namespace: String,
}

/// The length of a sequence that may be absent.
pub open spec fn optional_len<T>(elements: Option<Seq<T>>) -> nat {
    match elements {
        Some(elements) => elements.len(),
        None => 0,
    }
}

/// The estimated size of a metric in a request.
pub open spec fn size(metric: MetricDatumView) -> nat {
    BYTES_PER_ELEMENT as nat * (SINGLE_ELEMENT_FIELDS as nat + optional_len(metric.values) + optional_len(
        metric.counts,
    ) + optional_len(metric.dimensions))
}

/// The estimated size of a sequence of metrics in a request.
pub open spec fn total_size(metrics: Seq<MetricDatumView>) -> nat
    decreases metrics.len(),
{
    if metrics.len() == 0 {
        0
    } else {
        total_size(metrics.drop_last()) + size(metrics.last())
    }
}

/// Whether the first `n` of the metrics go into one request.
pub open spec fn fits(metrics: Seq<MetricDatumView>, n: nat) -> bool {
    &&& n <= metrics.len()
    &&& n < MAX_CW_METRICS_PER_CALL
    &&& total_size(metrics.take(n as int)) <= MAX_CW_METRICS_PUT_SIZE
}

/// How many of the metrics go into the first request, given that the first `n` do: as many as fit.
pub open spec fn longest_fit(metrics: Seq<MetricDatumView>, n: nat) -> nat
    decreases metrics.len() - n,
{
    if fits(metrics, n + 1) {
        longest_fit(metrics, n + 1)
    } else {
        n
    }
}

/// The metrics, split up into requests from the front, each as long as it can be. Metrics from the
/// first on that is too large for a request of its own are left out.
pub open spec fn chunks(metrics: Seq<MetricDatumView>) -> Seq<Seq<MetricDatumView>>
    decreases metrics.len(),
{
    let n = longest_fit(metrics, 0);
    proof {
        law_longest_fit(metrics);
    }
    if n == 0 {
        Seq::empty()
    } else {
        seq![metrics.take(n as int)] + chunks(metrics.skip(n as int))
    }
}

proof fn lemma_total_size_grows(metrics: Seq<MetricDatumView>, n: nat, m: nat)
    requires
        n <= m <= metrics.len(),
    ensures
        total_size(metrics.take(n as int)) <= total_size(metrics.take(m as int)),
    decreases m,
{
    if n < m {
        assert(metrics.take(m as int).drop_last() =~= metrics.take(m - 1));
        lemma_total_size_grows(metrics, n, (m - 1) as nat);
    }
}

proof fn lemma_longest_fit(metrics: Seq<MetricDatumView>, n: nat)
    requires
        fits(metrics, n),
    ensures
        n <= longest_fit(metrics, n),
        fits(metrics, longest_fit(metrics, n)),
        !fits(metrics, longest_fit(metrics, n) + 1),
    decreases metrics.len() - n,
{
    if fits(metrics, n + 1) {
        lemma_longest_fit(metrics, n + 1);
    }
}

/// The first request is as long as it can be: the metrics in it fit, and no longer prefix does.
pub proof fn law_longest_fit(metrics: Seq<MetricDatumView>)
    ensures
        fits(metrics, longest_fit(metrics, 0)),
        forall|n: nat| n > longest_fit(metrics, 0) ==> !#[trigger] fits(metrics, n),
{
    assert(metrics.take(0).len() == 0);
    lemma_longest_fit(metrics, 0);
    let longest = longest_fit(metrics, 0);
    assert forall|n: nat| n > longest implies !#[trigger] fits(metrics, n) by {
        if fits(metrics, n) {
            lemma_total_size_grows(metrics, longest + 1, n);
        }
    }
}

/// The number of elements of a vector that may be absent.
pub fn count_option_vec<T>(vs: &Option<Vec<T>>) -> (count: usize)
    ensures
        count == match *vs {
            Some(elements) => elements@.len(),
            None => 0,
        },
{
    match vs {
        Some(elements) => elements.len(),
        None => 0,
    }
}

/// The estimated size of a metric in a request.
pub fn metric_size(metric: &MetricDatum) -> (bytes: usize)
    requires
        size(metric@) <= usize::MAX,
    ensures
        bytes == size(metric@),
{
    BYTES_PER_ELEMENT * (SINGLE_ELEMENT_FIELDS + count_option_vec(&metric.values) + count_option_vec(&metric.counts)
        + count_option_vec(&metric.dimensions))
}

/// The size of the metrics of a request once a metric that has come next is among them, where the
/// request still takes it.
fn size_with(current_len: usize, metric: &MetricDatum) -> (grown: Option<usize>)
    requires
        current_len <= MAX_CW_METRICS_PUT_SIZE,
    ensures
        grown is Some <==> current_len + size(metric@) <= MAX_CW_METRICS_PUT_SIZE,
        grown matches Some(bytes) ==> bytes == current_len + size(metric@),
{
    let values: usize = count_option_vec(&metric.values);
    let counts: usize = count_option_vec(&metric.counts);
    let dimensions: usize = count_option_vec(&metric.dimensions);
    if values > MAX_CW_METRICS_PUT_SIZE || counts > MAX_CW_METRICS_PUT_SIZE || dimensions > MAX_CW_METRICS_PUT_SIZE {
        return None;
    }
    let bytes: usize = current_len + metric_size(metric);
    if bytes > MAX_CW_METRICS_PUT_SIZE {
        None
    } else {
        Some(bytes)
    }
}

/// How many of the metrics from `start` on go into the next request.
fn split_point(metrics: &[MetricDatum], start: usize) -> (split: usize)
    requires
        start <= metrics@.len(),
    ensures
        split == longest_fit(metric_views(metrics@.skip(start as int)), 0),
        start + split <= metrics@.len(),
{
    let ghost rest = metric_views(metrics@.skip(start as int));
    let end: usize = metrics.len();
    let mut split: usize = 0;
    let mut current_len: usize = 0;
    assert(rest.take(0) =~= Seq::empty());
    while split + 1 < MAX_CW_METRICS_PER_CALL && start + split < end
        invariant
            end == metrics@.len(),
            rest == metric_views(metrics@.skip(start as int)),
            start + split <= metrics@.len(),
            fits(rest, split as nat),
            current_len == total_size(rest.take(split as int)),
            longest_fit(rest, 0) == longest_fit(rest, split as nat),
        decreases end - split,
    {
        assert(rest.take(split + 1).drop_last() =~= rest.take(split as int));
        assert(rest.take(split + 1).last() == metrics@[start + split]@);
        match size_with(current_len, &metrics[start + split]) {
            Some(bytes) => {
                current_len = bytes;
                split = split + 1;
            },
            None => {
                return split;
            },
        }
    }
    split
}

/// A copy of the `len` metrics from `start` on.
fn copy_range(metrics: &[MetricDatum], start: usize, len: usize) -> (copy: Vec<MetricDatum>)
    requires
        start + len <= metrics@.len(),
    ensures
        metric_views(copy@) == metric_views(metrics@.skip(start as int)).take(len as int),
{
    let end: usize = metrics.len();
    let mut copy: Vec<MetricDatum> = Vec::new();
    for i in 0..len
        invariant
            end == metrics@.len(),
            start + len <= metrics@.len(),
            copy@.len() == i,
            forall|j: int| 0 <= j < i ==> (#[trigger] copy@[j])@ == metrics@[start + j]@,
    {
        copy.push(metrics[start + i].clone());
    }
    assert(metric_views(copy@) =~= metric_views(metrics@.skip(start as int)).take(len as int));
    copy
}

/// The contents of the requests.
pub open spec fn chunk_views(chunks: Seq<Vec<MetricDatum>>) -> Seq<Seq<MetricDatumView>> {
    chunks.map_values(|chunk: Vec<MetricDatum>| metric_views(chunk@))
}

/// Splits the metrics up into requests from the front, each as long as the limits on the number of
/// metrics and on their estimated size let it be.
pub fn metrics_chunks(metrics: &[MetricDatum]) -> (result: Vec<Vec<MetricDatum>>)
    ensures
        chunk_views(result@) == chunks(metric_views(metrics@)),
{
    let mut result: Vec<Vec<MetricDatum>> = Vec::new();
    let mut start: usize = 0;
    let end: usize = metrics.len();
    let ghost all = metric_views(metrics@);
    assert(metrics@.skip(0) =~= metrics@);
    assert(chunk_views(result@) =~= Seq::empty());
    assert(chunk_views(result@) + chunks(all) =~= chunks(all));
    loop
        invariant
            end == metrics@.len(),
            start <= end,
            all == metric_views(metrics@),
            chunks(all) == chunk_views(result@) + chunks(metric_views(metrics@.skip(start as int))),
        ensures
            chunks(all) == chunk_views(result@),
        decreases end - start,
    {
        let ghost rest = metric_views(metrics@.skip(start as int));
        let ghost before = chunk_views(result@);
        let split: usize = split_point(metrics, start);
        if split == 0 {
            assert(chunk_views(result@) + chunks(rest) =~= chunk_views(result@));
            break;
        }
        let chunk = copy_range(metrics, start, split);
        proof {
            assert(rest.skip(split as int) =~= metric_views(metrics@.skip(start + split)));
            assert(before + chunks(rest) =~= chunk_views(result@.push(chunk)) + chunks(rest.skip(split as int)));
        }
        result.push(chunk);
        start = start + split;
    }
    result
}

/// The requests that send the metrics to a namespace.
pub fn put_requests(metrics: &[MetricDatum], namespace: &String) -> (requests: Vec<PutMetricDataInput>)
    ensures
        requests@.len() == chunks(metric_views(metrics@)).len(),
        forall|i: int|
            0 <= i < requests@.len() ==> {
                &&& metric_views((#[trigger] requests@[i]).metric_data@) == chunks(metric_views(metrics@))[i]
                &&& requests@[i].namespace@ == namespace@
            },
{
    let mut requests: Vec<PutMetricDataInput> = Vec::new();
    let data = metrics_chunks(metrics);
    let ghost all = chunk_views(data@);
    for metric_data in walk: data
        invariant
            walk.seq() == data@,
            all == chunk_views(data@),
            all == chunks(metric_views(metrics@)),
            requests@.len() == walk.index(),
            forall|i: int|
                0 <= i < requests@.len() ==> {
                    &&& metric_views((#[trigger] requests@[i]).metric_data@) == all[i]
                    &&& requests@[i].namespace@ == namespace@
                },
    {
        requests.push(PutMetricDataInput { metric_data, namespace: namespace.clone() });
    }
    requests
}

/// An estimated size is a multiple of that of one element.
proof fn lemma_total_size_is_multiple(metrics: Seq<MetricDatumView>)
    ensures
        total_size(metrics) % (BYTES_PER_ELEMENT as nat) == 0,
    decreases metrics.len(),
{
    if metrics.len() > 0 {
        lemma_total_size_is_multiple(metrics.drop_last());
    }
}

/// Every request carries at least one metric, and both the number of its metrics and their estimated
/// size stay below the limits on them.
pub proof fn law_chunks_fit(metrics: Seq<MetricDatumView>)
    ensures
        forall|i: int|
            0 <= i < chunks(metrics).len() ==> {
                &&& 0 < (#[trigger] chunks(metrics)[i]).len() < MAX_CW_METRICS_PER_CALL
                &&& total_size(chunks(metrics)[i]) < MAX_CW_METRICS_PUT_SIZE
            },
    decreases metrics.len(),
{
    let n = longest_fit(metrics, 0);
    law_longest_fit(metrics);
    if n > 0 {
        let rest = metrics.skip(n as int);
        law_chunks_fit(rest);
        lemma_total_size_is_multiple(metrics.take(n as int));
        assert forall|i: int| 0 <= i < chunks(metrics).len() implies {
            &&& 0 < (#[trigger] chunks(metrics)[i]).len() < MAX_CW_METRICS_PER_CALL
            &&& total_size(chunks(metrics)[i]) < MAX_CW_METRICS_PUT_SIZE
        } by {
            if i > 0 {
                assert(chunks(metrics)[i] == chunks(rest)[i - 1]);
            }
        }
    }
}

/// No request could have taken the first metric of the request after it.
pub proof fn law_chunks_are_longest(metrics: Seq<MetricDatumView>, i: int)
    requires
        0 <= i,
        i + 1 < chunks(metrics).len(),
    ensures
        chunks(metrics)[i + 1].len() > 0,
        chunks(metrics)[i].len() + 1 == MAX_CW_METRICS_PER_CALL || total_size(chunks(metrics)[i]) + size(
            chunks(metrics)[i + 1][0],
        ) > MAX_CW_METRICS_PUT_SIZE,
    decreases metrics.len(),
{
    let n = longest_fit(metrics, 0);
    law_longest_fit(metrics);
    law_chunks_fit(metrics);
    let rest = metrics.skip(n as int);
    assert(chunks(metrics)[i + 1].len() > 0);
    if i == 0 {
        law_longest_fit(rest);
        assert(chunks(metrics)[1] == chunks(rest)[0]);
        assert(chunks(rest)[0] == rest.take(longest_fit(rest, 0) as int));
        assert(!fits(metrics, n + 1));
        assert(metrics.take((n + 1) as int).drop_last() =~= metrics.take(n as int));
        assert(metrics.take((n + 1) as int).last() == rest[0]);
    } else {
        assert(chunks(metrics)[i] == chunks(rest)[i - 1]);
        assert(chunks(metrics)[i + 1] == chunks(rest)[i]);
        law_chunks_are_longest(rest, i - 1);
    }
}

/// The requests, one after another, hold the metrics in their order, up to the first metric that is
/// too large for a request of its own.
pub proof fn law_chunks_keep_the_metrics(metrics: Seq<MetricDatumView>)
    ensures
        chunks(metrics).flatten().len() <= metrics.len(),
        chunks(metrics).flatten() == metrics.take(chunks(metrics).flatten().len() as int),
        chunks(metrics).flatten().len() < metrics.len() ==> size(
            metrics[chunks(metrics).flatten().len() as int],
        ) > MAX_CW_METRICS_PUT_SIZE,
    decreases metrics.len(),
{
    let n = longest_fit(metrics, 0);
    law_longest_fit(metrics);
    let all = chunks(metrics);
    if n == 0 {
        assert(all.flatten() =~= metrics.take(0));
        if metrics.len() > 0 {
            assert(!fits(metrics, 1));
            assert(metrics.take(1).drop_last() =~= Seq::empty());
            assert(metrics.take(1).last() == metrics[0]);
        }
    } else {
        let rest = metrics.skip(n as int);
        law_chunks_keep_the_metrics(rest);
        assert(all.drop_first() =~= chunks(rest));
        assert(all.flatten() == all.first() + chunks(rest).flatten());
        assert(all.flatten() =~= metrics.take(all.flatten().len() as int));
    }
}

/// No metric is lost where each is small enough for a request of its own.
pub proof fn law_chunks_lose_nothing(metrics: Seq<MetricDatumView>)
    requires
        forall|i: int| 0 <= i < metrics.len() ==> size(#[trigger] metrics[i]) <= MAX_CW_METRICS_PUT_SIZE,
    ensures
        chunks(metrics).flatten() == metrics,
{
    law_chunks_keep_the_metrics(metrics);
    assert(metrics.take(metrics.len() as int) =~= metrics);
}

/// The estimated size of a metric is that of six elements where it has no values, counts and
/// dimensions, and each of these adds one element: sixty bytes.
pub proof fn law_size_grows_with_each_element(
    metric: MetricDatumView,
    values: Seq<i128>,
    counts: Seq<i128>,
    dimensions: Seq<PairView>,
    number: i128,
    dimension: PairView,
)
    ensures
        BYTES_PER_ELEMENT == 60 && SINGLE_ELEMENT_FIELDS == 6,
        metric.values is None && metric.counts is None && metric.dimensions is None ==> size(metric)
            == BYTES_PER_ELEMENT * SINGLE_ELEMENT_FIELDS,
        size((MetricDatumView { values: Some(Seq::empty()), ..metric })) == size(
            (MetricDatumView { values: None, ..metric }),
        ),
        size((MetricDatumView { counts: Some(Seq::empty()), ..metric })) == size(
            (MetricDatumView { counts: None, ..metric }),
        ),
        size((MetricDatumView { dimensions: Some(Seq::empty()), ..metric })) == size(
            (MetricDatumView { dimensions: None, ..metric }),
        ),
        size((MetricDatumView { values: Some(values.push(number)), ..metric })) == size(
            (MetricDatumView { values: Some(values), ..metric }),
        ) + BYTES_PER_ELEMENT,
        size((MetricDatumView { counts: Some(counts.push(number)), ..metric })) == size(
            (MetricDatumView { counts: Some(counts), ..metric }),
        ) + BYTES_PER_ELEMENT,
        size((MetricDatumView { dimensions: Some(dimensions.push(dimension)), ..metric })) == size(
            (MetricDatumView { dimensions: Some(dimensions), ..metric }),
        ) + BYTES_PER_ELEMENT,
{
}

/// The estimated size of a metric, from the numbers of its elements: sixty bytes for each of six
/// fields, and for each value, each count and each dimension.
pub proof fn law_size_counts_elements(metric: MetricDatumView)
    ensures
        size(metric) == 60 * (6 + match metric.values {
            Some(values) => values.len() as int,
            None => 0,
        } + match metric.counts {
            Some(counts) => counts.len() as int,
            None => 0,
        } + match metric.dimensions {
            Some(dimensions) => dimensions.len() as int,
            None => 0,
        }),
{
}

/// The estimated size of a sequence of metrics is what those of its metrics add up to.
pub proof fn law_total_size_adds_up(metrics: Seq<MetricDatumView>)
    ensures
        total_size(metrics) == metrics.fold_left(
            0int,
            |sum: int, metric: MetricDatumView|
                sum + 60 * (6 + match metric.values {
                    Some(values) => values.len() as int,
                    None => 0,
                } + match metric.counts {
                    Some(counts) => counts.len() as int,
                    None => 0,
                } + match metric.dimensions {
                    Some(dimensions) => dimensions.len() as int,
                    None => 0,
                }),
        ),
    decreases metrics.len(),
{
    if metrics.len() > 0 {
        law_total_size_adds_up(metrics.drop_last());
        law_size_counts_elements(metrics.last());
    }
}

/// No request is empty or has twenty metrics, nor is its estimated size beyond forty thousand bytes:
/// sixty for each of the six fields of a metric, and for each of its values, counts and dimensions.
pub proof fn law_requests_keep_to_the_limits(metrics: Seq<MetricDatumView>, i: int)
    requires
        0 <= i < chunks(metrics).len(),
    ensures
        0 < chunks(metrics)[i].len() < 20,
        chunks(metrics)[i].fold_left(
            0int,
            |sum: int, metric: MetricDatumView|
                sum + 60 * (6 + match metric.values {
                    Some(values) => values.len() as int,
                    None => 0,
                } + match metric.counts {
                    Some(counts) => counts.len() as int,
                    None => 0,
                } + match metric.dimensions {
                    Some(dimensions) => dimensions.len() as int,
                    None => 0,
                }),
        ) <= 40_000,
        MAX_CW_METRICS_PER_CALL == 20 && MAX_CW_METRICS_PUT_SIZE == 40_000,
{
    law_chunks_fit(metrics);
    law_total_size_adds_up(chunks(metrics)[i]);
}

/// A request ends only where it must: it has nineteen metrics, or together with the first metric of
/// the next request its estimated size would be beyond forty thousand bytes.
pub proof fn law_requests_end_only_at_the_limits(metrics: Seq<MetricDatumView>, i: int)
    requires
        0 <= i,
        i + 1 < chunks(metrics).len(),
    ensures
        chunks(metrics)[i + 1].len() > 0,
        chunks(metrics)[i].len() == 19 || chunks(metrics)[i].push(chunks(metrics)[i + 1][0]).fold_left(
            0int,
            |sum: int, metric: MetricDatumView|
                sum + 60 * (6 + match metric.values {
                    Some(values) => values.len() as int,
                    None => 0,
                } + match metric.counts {
                    Some(counts) => counts.len() as int,
                    None => 0,
                } + match metric.dimensions {
                    Some(dimensions) => dimensions.len() as int,
                    None => 0,
                }),
        ) > 40_000,
{
    let (this, next) = (chunks(metrics)[i], chunks(metrics)[i + 1]);
    law_chunks_are_longest(metrics, i);
    law_total_size_adds_up(this.push(next[0]));
    assert(this.push(next[0]).drop_last() =~= this);
}

/// The requests hold the metrics in their order, each once, from the first on: all of them, or all
/// before the first one whose estimated size alone is beyond forty thousand bytes.
pub proof fn law_requests_hold_the_metrics_in_order(metrics: Seq<MetricDatumView>)
    ensures
        ({
            let sent = chunks(metrics).flatten();
            &&& sent.len() <= metrics.len()
            &&& forall|i: int| 0 <= i < sent.len() ==> #[trigger] sent[i] == metrics[i]
            &&& sent.len() < metrics.len() ==> {
                let metric = metrics[sent.len() as int];
                60 * (6 + match metric.values {
                    Some(values) => values.len() as int,
                    None => 0,
                } + match metric.counts {
                    Some(counts) => counts.len() as int,
                    None => 0,
                } + match metric.dimensions {
                    Some(dimensions) => dimensions.len() as int,
                    None => 0,
                }) > 40_000
            }
        }),
{
    law_chunks_keep_the_metrics(metrics);
    let sent = chunks(metrics).flatten();
    if sent.len() < metrics.len() {
        law_size_counts_elements(metrics[sent.len() as int]);
    }
}

/// Requests are shown metric by metric.
pub proof fn law_requests_show_their_metrics(requests: Seq<Vec<MetricDatum>>)
    ensures
        chunk_views(requests).len() == requests.len(),
        forall|i: int|
            0 <= i < requests.len() ==> (#[trigger] chunk_views(requests)[i]).len() == requests[i]@.len(),
        forall|i: int, j: int|
            0 <= i < requests.len() && 0 <= j < requests[i]@.len() ==> #[trigger] chunk_views(requests)[i][j]
                == requests[i]@[j]@,
{
}

} // verus!
