//! The values that enter the collector and the data that leave it.
use vstd::prelude::*;

verus! {

/// A key/value pair that describes a metric further.
#[derive(Debug, PartialEq, Eq)]
pub struct Label {
    pub key: String,
    pub value: String,
}

/// What a metric is recorded under: its name and its labels, in the order in which they were given.
#[derive(Debug, PartialEq, Eq)]
pub struct Key {
    pub name: String,
    pub labels: Vec<Label>,
}

/// One recorded value.
#[derive(Clone, Copy, Debug, PartialEq, Eq)]
pub enum Value {
    /// An increment of a counter.
    Counter(u64),
    /// A new reading of a gauge.
    Gauge(i64),
    /// A sample for a histogram.
    Histogram(u64),
}

/// One recorded value, with the key that it belongs to.
#[derive(Debug, PartialEq, Eq)]
pub struct Datum {
    pub key: Key,
    pub value: Value,
}

/// A name/value pair that CloudWatch tells metrics of one name apart by.
#[derive(Debug, PartialEq, Eq)]
pub struct Dimension {
    pub name: String,
    pub value: String,
}

/// A summary of a set of samples. Each number is a double, kept as the integer it stands for.
#[derive(Clone, Copy, Debug, PartialEq, Eq)]
pub struct StatisticSet {
    pub sample_count: i128,
    pub sum: i128,
    pub maximum: i128,
    pub minimum: i128,
}

/// A metric as CloudWatch takes it: a single value, a summary, or distinct values with their
/// counts. Each number in `counts`, `value` and `values` is a double, kept as the integer it stands
/// for.
#[derive(Debug, PartialEq, Eq)]
pub struct MetricDatum {
    pub counts: Option<Vec<i128>>,
    pub dimensions: Option<Vec<Dimension>>,
    pub metric_name: String,
    pub statistic_values: Option<StatisticSet>,
    pub storage_resolution: Option<i64>,
    pub timestamp: Option<String>,
    pub unit: Option<String>,
    pub value: Option<i128>,
    pub values: Option<Vec<i128>>,
}

/// The text of a [`Label`] or of a [`Dimension`].
pub struct PairView {
    pub name: Seq<char>,
    pub value: Seq<char>,
}

/// The text of a [`Key`].
pub struct KeyView {
    pub name: Seq<char>,
    pub labels: Seq<PairView>,
}

/// The contents of a [`MetricDatum`].
pub struct MetricDatumView {
    pub counts: Option<Seq<i128>>,
    pub dimensions: Option<Seq<PairView>>,
    pub metric_name: Seq<char>,
    pub statistic_values: Option<StatisticSet>,
    pub storage_resolution: Option<i64>,
    pub timestamp: Option<Seq<char>>,
    pub unit: Option<Seq<char>>,
    pub value: Option<i128>,
    pub values: Option<Seq<i128>>,
}

impl View for Label {
    type V = PairView;

    open spec fn view(&self) -> PairView {
        PairView { name: self.key@, value: self.value@ }
    }
}

impl View for Dimension {
    type V = PairView;

    open spec fn view(&self) -> PairView {
        PairView { name: self.name@, value: self.value@ }
    }
}

/// The texts of a sequence of labels.
pub open spec fn label_views(labels: Seq<Label>) -> Seq<PairView> {
    labels.map_values(|label: Label| label@)
}

/// The texts of a sequence of dimensions.
pub open spec fn dimension_views(dimensions: Seq<Dimension>) -> Seq<PairView> {
    dimensions.map_values(|dimension: Dimension| dimension@)
}

/// The contents of a sequence of metrics.
pub open spec fn metric_views(metrics: Seq<MetricDatum>) -> Seq<MetricDatumView> {
    metrics.map_values(|metric: MetricDatum| metric@)
}

impl View for Key {
    type V = KeyView;

    open spec fn view(&self) -> KeyView {
        KeyView { name: self.name@, labels: label_views(self.labels@) }
    }
}

/// The elements of a vector that may be absent.
pub open spec fn vec_view(numbers: Option<Vec<i128>>) -> Option<Seq<i128>> {
    match numbers {
        Some(numbers) => Some(numbers@),
        None => None,
    }
}

/// The text of a string that may be absent.
pub open spec fn text_view(text: Option<String>) -> Option<Seq<char>> {
    match text {
        Some(text) => Some(text@),
        None => None,
    }
}

impl View for MetricDatum {
    type V = MetricDatumView;

    open spec fn view(&self) -> MetricDatumView {
        MetricDatumView {
            counts: vec_view(self.counts),
            dimensions: match self.dimensions {
                Some(dimensions) => Some(dimension_views(dimensions@)),
                None => None,
            },
            metric_name: self.metric_name@,
            statistic_values: self.statistic_values,
            storage_resolution: self.storage_resolution,
            timestamp: text_view(self.timestamp),
            unit: text_view(self.unit),
            value: self.value,
            values: vec_view(self.values),
        }
    }
}

impl Default for StatisticSet {
    fn default() -> (set: Self)
        ensures
            set == (StatisticSet { sample_count: 0, sum: 0, maximum: 0, minimum: 0 }),
    {
        StatisticSet { sample_count: 0, sum: 0, maximum: 0, minimum: 0 }
    }
}

impl Clone for Dimension {
    fn clone(&self) -> (copy: Self)
        ensures
            copy@ == self@,
    {
        Dimension { name: self.name.clone(), value: self.value.clone() }
    }
}

/// A copy of a sequence of dimensions.
pub(crate) fn copy_dimensions(dimensions: &Vec<Dimension>) -> (copy: Vec<Dimension>)
    ensures
        dimension_views(copy@) == dimension_views(dimensions@),
{
    let copy = dimensions.clone();
    assert(dimension_views(copy@) =~= dimension_views(dimensions@));
    copy
}

fn copy_numbers(numbers: &Option<Vec<i128>>) -> (copy: Option<Vec<i128>>)
    ensures
        vec_view(copy) == vec_view(*numbers),
{
    match numbers {
        Some(numbers) => {
            let copy = numbers.clone();
            assert(copy@ =~= numbers@);
            Some(copy)
        },
        None => None,
    }
}

fn copy_text(text: &Option<String>) -> (copy: Option<String>)
    ensures
        text_view(copy) == text_view(*text),
{
    match text {
        Some(text) => Some(text.clone()),
        None => None,
    }
}

impl Clone for MetricDatum {
    fn clone(&self) -> (copy: Self)
        ensures
            copy@ == self@,
    {
        MetricDatum {
            counts: copy_numbers(&self.counts),
            dimensions: match &self.dimensions {
                Some(dimensions) => Some(copy_dimensions(dimensions)),
                None => None,
            },
            metric_name: self.metric_name.clone(),
            statistic_values: self.statistic_values,
            storage_resolution: self.storage_resolution,
            timestamp: copy_text(&self.timestamp),
            unit: copy_text(&self.unit),
            value: self.value,
            values: copy_numbers(&self.values),
        }
    }
}

impl Datum {
    /// An increment of a counter.
    pub fn increment_counter(key: Key, value: u64) -> (datum: Datum)
        ensures
            datum == (Datum { key, value: Value::Counter(value) }),
    {
        Datum { key, value: Value::Counter(value) }
    }

    /// A new reading of a gauge.
    pub fn update_gauge(key: Key, value: i64) -> (datum: Datum)
        ensures
            datum == (Datum { key, value: Value::Gauge(value) }),
    {
        Datum { key, value: Value::Gauge(value) }
    }

    /// A sample for a histogram.
    pub fn record_histogram(key: Key, value: u64) -> (datum: Datum)
        ensures
            datum == (Datum { key, value: Value::Histogram(value) }),
    {
        Datum { key, value: Value::Histogram(value) }
    }
}

impl Key {
    /// Whether two keys are one: the same name and the same labels in the same order.
    pub fn equals(&self, other: &Key) -> (same: bool)
        ensures
            same == (self@ == other@),
    {
        if self.name != other.name || self.labels.len() != other.labels.len() {
            assert(self@.labels.len() == self.labels.len() && other@.labels.len() == other.labels.len());
            return false;
        }
        for i in 0..self.labels.len()
            invariant
                self.labels.len() == other.labels.len(),
                forall|j: int| 0 <= j < i ==> #[trigger] self@.labels[j] == other@.labels[j],
        {
            if self.labels[i].key != other.labels[i].key || self.labels[i].value != other.labels[i].value {
                assert(self@.labels[i as int] != other@.labels[i as int]);
                return false;
            }
        }
        assert(self@.labels =~= other@.labels);
        true
    }
}

/// The contents of a metric are what its fields hold, field by field.
pub proof fn law_metric_shows_its_fields(metric: MetricDatum)
    ensures
        metric@.metric_name == metric.metric_name@,
        metric@.statistic_values == metric.statistic_values,
        metric@.storage_resolution == metric.storage_resolution,
        metric@.value == metric.value,
        metric@.counts is Some <==> metric.counts is Some,
        metric.counts matches Some(counts) ==> metric@.counts->0 == counts@,
        metric@.values is Some <==> metric.values is Some,
        metric.values matches Some(values) ==> metric@.values->0 == values@,
        metric@.timestamp is Some <==> metric.timestamp is Some,
        metric.timestamp matches Some(timestamp) ==> metric@.timestamp->0 == timestamp@,
        metric@.unit is Some <==> metric.unit is Some,
        metric.unit matches Some(unit) ==> metric@.unit->0 == unit@,
        metric@.dimensions is Some <==> metric.dimensions is Some,
        metric.dimensions matches Some(dimensions) ==> {
            &&& metric@.dimensions->0.len() == dimensions@.len()
            &&& forall|i: int|
                0 <= i < dimensions@.len() ==> (#[trigger] metric@.dimensions->0[i]).name == dimensions@[i].name@
                    && metric@.dimensions->0[i].value == dimensions@[i].value@
        },
{
}

/// The text of a key is its name and the names and values of its labels, in their order; so keys are
/// one if and only if all of these are the same.
pub proof fn law_key_shows_its_labels(key: Key)
    ensures
        key@.name == key.name@,
        key@.labels.len() == key.labels@.len(),
        forall|i: int|
            0 <= i < key.labels@.len() ==> (#[trigger] key@.labels[i]).name == key.labels@[i].key@
                && key@.labels[i].value == key.labels@[i].value@,
{
}

/// Sequences of dimensions and of metrics are shown element by element.
pub proof fn law_sequences_show_their_elements(dimensions: Seq<Dimension>, metrics: Seq<MetricDatum>)
    ensures
        dimension_views(dimensions).len() == dimensions.len(),
        forall|i: int|
            0 <= i < dimensions.len() ==> (#[trigger] dimension_views(dimensions)[i]).name == dimensions[i].name@
                && dimension_views(dimensions)[i].value == dimensions[i].value@,
        metric_views(metrics).len() == metrics.len(),
        forall|i: int| 0 <= i < metrics.len() ==> #[trigger] metric_views(metrics)[i] == metrics[i]@,
{
}

} // verus!
