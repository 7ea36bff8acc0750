use vstd::prelude::*;
use crate::labels::Labels;
use crate::sample::{name_label, MetricName, SampleValue, SampleView, Timestamp};

verus! {

/// What a record is: one time, one set of labels, and a value for each of
/// one or more metrics, in the order in which the record lists them.
pub struct RecordView {
    pub timestamp: int,
    pub labels: Map<Seq<char>, Seq<char>>,
    pub values: Seq<(Seq<char>, int)>,
}

/// A list of metric values as plain data.
pub open spec fn values_view(values: Seq<(MetricName, SampleValue)>) -> Seq<(Seq<char>, int)> {
    Seq::new(values.len(), |i: int| (values[i].0@, values[i].1 as int))
}

/// Every metric has a name, no metric is listed twice, and every value can
/// change sign within the value type.
pub open spec fn values_valid(values: Seq<(Seq<char>, int)>) -> bool {
    &&& forall|i: int|
        0 <= i < values.len() ==> {
            &&& (#[trigger] values[i]).0.len() > 0
            &&& i64::MIN < values[i].1 <= i64::MAX
        }
    &&& forall|i: int, j: int|
        0 <= i < j < values.len() ==> (#[trigger] values[i]).0 != (#[trigger] values[j]).0
}

/// A record's time fits the time type and its values are valid.
pub open spec fn record_valid(r: RecordView) -> bool {
    &&& i64::MIN <= r.timestamp <= i64::MAX
    &&& values_valid(r.values)
}

/// The sample that the `i`-th metric of a record gives.
pub open spec fn sample_at(r: RecordView, i: int) -> SampleView {
    SampleView {
        value: r.values[i].1,
        timestamp: r.timestamp,
        labels: r.labels.insert(name_label(), r.values[i].0),
    }
}

/// The samples that a record gives: one for each metric, in the record's
/// order, all with the record's time and labels.
pub open spec fn expand(r: RecordView) -> Seq<SampleView> {
    Seq::new(r.values.len(), |i: int| sample_at(r, i))
}

/// One decoded unit of the source.
#[derive(Debug)]
pub struct Record {
    timestamp: Timestamp,
    labels: Labels,
    values: Vec<(MetricName, SampleValue)>,
}

impl View for Record {
    type V = RecordView;

    closed spec fn view(&self) -> RecordView {
        RecordView {
            timestamp: self.timestamp as int,
            labels: self.labels@,
            values: values_view(self.values@),
        }
    }
}

impl Record {
    #[verifier::type_invariant]
    pub open spec fn inv(&self) -> bool {
        record_valid(self@)
    }

    /// Whether the metric at `i` may follow those before it: it has a name
    /// that none of them has, and a value whose negation exists.
    fn admits(values: &Vec<(MetricName, SampleValue)>, i: usize) -> (ok: bool)
        requires
            i < values.len(),
        ensures
            ok <==> {
                &&& values[i as int].0@.len() > 0
                &&& values[i as int].1 > i64::MIN
                &&& forall|j: int| 0 <= j < i ==> (#[trigger] values[j]).0@ != values[i as int].0@
            },
    {
        if values[i].0.as_str().is_empty() || values[i].1 == i64::MIN {
            return false;
        }
        let mut j: usize = 0;
        while j < i
            invariant
                j <= i < values.len(),
                forall|k: int| 0 <= k < j ==> (#[trigger] values[k]).0@ != values[i as int].0@,
            decreases i - j,
        {
            if values[j].0.as_str().eq(values[i].0.as_str()) {
                return false;
            }
            j = j + 1;
        }
        true
    }

    /// The record of the given time, labels and metric values. There is none
    /// where a metric has no name, is listed twice, or has the one value that
    /// cannot change sign.
    pub fn new(
        timestamp: Timestamp,
        labels: Labels,
        values: Vec<(MetricName, SampleValue)>,
    ) -> (record: Option<Record>)
        ensures
            record is Some <==> values_valid(values_view(values@)),
            record matches Some(r) ==> r@ == (RecordView {
                timestamp: timestamp as int,
                labels: labels@,
                values: values_view(values@),
            }),
    {
        let ghost plain = values_view(values@);
        let mut i: usize = 0;
        while i < values.len()
            invariant
                i <= values.len(),
                plain == values_view(values@),
                values_valid(plain.take(i as int)),
            decreases values.len() - i,
        {
            if !Record::admits(&values, i) {
                proof {
                    if values_valid(plain) {
                        assert(plain[i as int].0.len() > 0);
                        assert forall|j: int| 0 <= j < i implies
                            (#[trigger] values[j]).0@ != values[i as int].0@
                        by {
                            assert(plain[j].0 != plain[i as int].0);
                        }
                    }
                }
                return None;
            }
            proof {
                let shorter = plain.take(i as int);
                let longer = plain.take(i + 1);
                assert forall|a: int| 0 <= a < longer.len() implies
                    (#[trigger] longer[a]).0.len() > 0 && i64::MIN < longer[a].1 <= i64::MAX
                by {
                    if a < i {
                        assert(shorter[a] == longer[a]);
                    }
                }
                assert forall|a: int, b: int| 0 <= a < b < longer.len() implies
                    (#[trigger] longer[a]).0 != (#[trigger] longer[b]).0
                by {
                    if b < i {
                        assert(shorter[a] == longer[a]);
                        assert(shorter[b] == longer[b]);
                    } else {
                        assert(values[a].0@ != values[i as int].0@);
                    }
                }
            }
            i = i + 1;
        }
        assert(plain.take(i as int) =~= plain);
        Some(Record { timestamp, labels, values })
    }

    /// The time that all samples of the record share.
    pub fn timestamp(&self) -> (timestamp: Timestamp)
        ensures
            timestamp == self@.timestamp,
    {
        self.timestamp
    }

    /// The labels that all samples of the record share.
    pub fn labels(&self) -> (labels: &Labels)
        ensures
            labels@ == self@.labels,
    {
        &self.labels
    }

    /// The metric values, in the record's order.
    pub fn values(&self) -> (values: &Vec<(MetricName, SampleValue)>)
        ensures
            values_view(values@) == self@.values,
            record_valid(self@),
    {
        proof {
            use_type_invariant(self);
        }
        &self.values
    }
}

} // verus!
