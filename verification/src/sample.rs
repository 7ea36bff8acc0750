use vstd::prelude::*;
use std::rc::Rc;
use crate::labels::Labels;

verus! {

/// The numeric value of an observation.
pub type SampleValue = i64;

/// A point in time, in ticks of the source's clock.
pub type Timestamp = i64;

/// The name of a metric.
pub type MetricName = String;

/// The reserved label under which a sample carries the name of its metric.
pub open spec fn name_label() -> Seq<char> {
    "__name__"@
}

/// What a sample is: a value observed at a time, under a set of labels.
pub struct SampleView {
    pub value: int,
    pub timestamp: int,
    pub labels: Map<Seq<char>, Seq<char>>,
}

/// A sample names its metric, and its value can change sign: the value and
/// its negation both fit the value type.
pub open spec fn sample_valid(s: SampleView) -> bool {
    &&& i64::MIN < s.value <= i64::MAX
    &&& i64::MIN <= s.timestamp <= i64::MAX
    &&& s.labels.contains_key(name_label())
    &&& s.labels[name_label()].len() > 0
}

/// One timestamped, labelled numeric observation. A sample never changes
/// once built; a transformation makes a new one.
#[derive(Debug)]
pub struct Sample {
    value: SampleValue,
    timestamp: Timestamp,
    labels: Labels,
}

impl View for Sample {
    type V = SampleView;

    closed spec fn view(&self) -> SampleView {
        SampleView {
            value: self.value as int,
            timestamp: self.timestamp as int,
            labels: self.labels@,
        }
    }
}

/// What a list of shared samples holds.
pub open spec fn views(samples: Seq<Rc<Sample>>) -> Seq<SampleView> {
    Seq::new(samples.len(), |i: int| samples[i]@)
}

impl Sample {
    #[verifier::type_invariant]
    pub open spec fn inv(&self) -> bool {
        sample_valid(self@)
    }

    /// The sample of the metric `name`: the given labels with the name filed
    /// under the reserved label.
    pub(crate) fn new(
        name: MetricName,
        value: SampleValue,
        timestamp: Timestamp,
        labels: Labels,
    ) -> (sample: Sample)
        requires
            name@.len() > 0,
            value > i64::MIN,
        ensures
            sample@ == (SampleView {
                value: value as int,
                timestamp: timestamp as int,
                labels: labels@.insert(name_label(), name@),
            }),
    {
        let mut labels = labels;
        labels.insert("__name__".to_owned(), name);
        Sample { value, timestamp, labels }
    }

    /// The sample with the given value and the time and labels of `self`.
    pub(crate) fn with_value(&self, value: SampleValue) -> (sample: Sample)
        requires
            value > i64::MIN,
        ensures
            sample@ == (SampleView { value: value as int, ..self@ }),
    {
        proof {
            use_type_invariant(self);
        }
        Sample { value, timestamp: self.timestamp, labels: self.labels.clone() }
    }

    /// The observed value.
    pub fn value(&self) -> (value: SampleValue)
        ensures
            value == self@.value,
            value > i64::MIN,
    {
        proof {
            use_type_invariant(self);
        }
        self.value
    }

    /// The time of the observation.
    pub fn timestamp(&self) -> (timestamp: Timestamp)
        ensures
            timestamp == self@.timestamp,
    {
        self.timestamp
    }

    /// The labels, the metric name among them.
    pub fn labels(&self) -> (labels: &Labels)
        ensures
            labels@ == self@.labels,
            labels@.contains_key(name_label()),
            labels@[name_label()].len() > 0,
    {
        proof {
            use_type_invariant(self);
        }
        &self.labels
    }

    /// The value of the label `name`, if the sample has one.
    pub fn label(&self, name: &str) -> (value: Option<&MetricName>)
        ensures
            value is Some <==> self@.labels.contains_key(name@),
            value matches Some(v) ==> v@ == self@.labels[name@],
    {
        self.labels.get(name)
    }
}

} // verus!
