use std::rc::Rc;

use pq::ast::{Expr, LabelMatcher, MatchOp, UnaryOp, VectorSelector, AST};
use pq::engine::Engine;
use pq::input::Input;
use pq::labels::Labels;
use pq::record::Record;
use pq::sample::Sample;
use pq::source::{DecodeError, Decoder, ReadError, Reader};

/// Hands out prepared records, one for each chunk, in order. An empty slot
/// stands for a chunk that does not decode.
struct Prepared {
    records: Vec<Option<Record>>,
    next: usize,
}

impl Decoder for Prepared {
    fn decode(&mut self, _chunk: &Vec<u8>) -> Result<Record, DecodeError> {
        let record = self.records[self.next].take();
        self.next += 1;
        record.ok_or(DecodeError { message: "malformed".to_string() })
    }
}

fn record(timestamp: i64, labels: &[(&str, &str)], values: &[(&str, i64)]) -> Option<Record> {
    let mut set = Labels::new();
    for (name, value) in labels {
        set.insert(name.to_string(), value.to_string());
    }
    Record::new(timestamp, set, values.iter().map(|(n, v)| (n.to_string(), *v)).collect())
}

/// Hands out a one-byte chunk a given number of times, then ends.
struct Ticks {
    left: usize,
}

impl Reader for Ticks {
    fn read(&mut self, buf: &mut Vec<u8>) -> Result<usize, ReadError> {
        if self.left == 0 {
            return Ok(0);
        }
        self.left -= 1;
        buf.push(b'.');
        Ok(1)
    }
}

fn input_of(records: Vec<Option<Record>>) -> Input<Ticks, Prepared> {
    Input::new(Ticks { left: records.len() }, Prepared { records, next: 0 })
}

fn equals(label: &str, value: &str) -> LabelMatcher {
    LabelMatcher::new(label.to_string(), MatchOp::Equal, value.to_string())
}

fn select(matchers: Vec<LabelMatcher>) -> Expr {
    Expr::VectorSelector(VectorSelector::new(matchers))
}

fn negate(inner: Expr) -> Expr {
    Expr::UnaryExpr(UnaryOp::Sub, Box::new(inner))
}

fn outline(samples: &[Rc<Sample>]) -> Vec<(i64, i64)> {
    samples.iter().map(|s| (s.timestamp(), s.value())).collect()
}

fn requests() -> Vec<Option<Record>> {
    vec![
        record(1, &[("method", "GET")], &[("duration", 120)]),
        record(2, &[("method", "POST")], &[("duration", 80)]),
    ]
}

#[test]
fn selector_yields_the_one_matching_sample() {
    let mut input = input_of(requests());
    let query = AST::new(select(vec![equals("__name__", "duration"), equals("method", "GET")]));
    let samples = Engine::new().execute(&query, &mut input);
    assert_eq!(samples.len(), 1);
    assert_eq!(samples[0].value(), 120);
    assert_eq!(samples[0].timestamp(), 1);
    assert_eq!(samples[0].label("__name__").map(|v| v.as_str()), Some("duration"));
    assert_eq!(samples[0].label("method").map(|v| v.as_str()), Some("GET"));
    assert_eq!(samples[0].labels().entries().len(), 2);
}

#[test]
fn negation_flips_the_sign() {
    let mut input = input_of(vec![record(1, &[], &[("duration", 50)])]);
    let query = AST::new(negate(select(vec![equals("__name__", "duration")])));
    let samples = Engine::new().execute(&query, &mut input);
    assert_eq!(outline(&samples), vec![(1, -50)]);
    assert_eq!(samples[0].label("__name__").map(|v| v.as_str()), Some("duration"));
}

#[test]
fn selector_skips_a_mismatch_and_goes_on() {
    let mut input = input_of(vec![
        record(1, &[("method", "POST")], &[("duration", 1)]),
        record(2, &[("method", "GET")], &[("duration", 2)]),
        record(3, &[("method", "POST")], &[("duration", 3)]),
        record(4, &[("method", "GET")], &[("duration", 4), ("size", 9)]),
    ]);
    let query = AST::new(select(vec![equals("method", "GET")]));
    let samples = Engine::new().execute(&query, &mut input);
    assert_eq!(outline(&samples), vec![(2, 2), (4, 4), (4, 9)]);
}

#[test]
fn selector_yields_nothing_where_nothing_matches() {
    let mut input = input_of(requests());
    let query = AST::new(select(vec![equals("method", "PUT")]));
    assert!(Engine::new().execute(&query, &mut input).is_empty());
}

#[test]
fn selector_without_matchers_yields_everything() {
    let mut input = input_of(requests());
    let query = AST::new(select(Vec::new()));
    assert_eq!(outline(&Engine::new().execute(&query, &mut input)), vec![(1, 120), (2, 80)]);
}

#[test]
fn missing_label_is_a_mismatch() {
    let mut input = input_of(vec![
        record(1, &[], &[("duration", 1)]),
        record(2, &[("method", "GET")], &[("duration", 2)]),
    ]);
    let absent = LabelMatcher::new("method".to_string(), MatchOp::NotEqual, "POST".to_string());
    let query = AST::new(select(vec![absent]));
    assert_eq!(outline(&Engine::new().execute(&query, &mut input)), vec![(2, 2)]);
}

#[test]
fn negating_twice_restores_every_sample() {
    let records = || {
        vec![
            record(1, &[("method", "GET")], &[("duration", 120), ("size", -4)]),
            record(2, &[("method", "POST")], &[("duration", 0)]),
            record(3, &[], &[("duration", i64::MAX), ("low", i64::MIN + 1)]),
        ]
    };
    let mut plain_input = input_of(records());
    let plain = Engine::new().execute(&AST::new(select(Vec::new())), &mut plain_input);
    let mut twice_input = input_of(records());
    let twice = Engine::new().execute(&AST::new(negate(negate(select(Vec::new())))), &mut twice_input);
    assert_eq!(outline(&twice), outline(&plain));
    assert_eq!(outline(&twice), vec![(1, 120), (1, -4), (2, 0), (3, i64::MAX), (3, i64::MIN + 1)]);
    for (a, b) in twice.iter().zip(plain.iter()) {
        assert_eq!(a.labels().entries(), b.labels().entries());
    }
}

#[test]
fn identity_sign_keeps_values_and_makes_new_samples() {
    let mut input = input_of(requests());
    let watcher = input.cursor();
    let query = AST::new(Expr::UnaryExpr(UnaryOp::Add, Box::new(select(Vec::new()))));
    let samples = Engine::new().execute(&query, &mut input);
    assert_eq!(outline(&samples), vec![(1, 120), (2, 80)]);
    let read = watcher.read(&mut input).unwrap();
    assert_eq!(read.value(), samples[0].value());
    assert!(!Rc::ptr_eq(&read, &samples[0]));
}

#[test]
fn selector_hands_on_the_shared_sample() {
    let mut input = input_of(requests());
    let watcher = input.cursor();
    let samples = Engine::new().execute(&AST::new(select(Vec::new())), &mut input);
    let read = watcher.read(&mut input).unwrap();
    assert!(Rc::ptr_eq(&read, &samples[0]));
}

#[test]
fn pipeline_is_lazy_and_pulls_on_demand() {
    let mut input = input_of(requests());
    let engine = Engine::new();
    let expr = negate(select(vec![equals("__name__", "duration")]));
    let stage = engine.do_execute(&expr, &mut input);
    // Compiling pulls nothing: no failure and no sample yet.
    assert!(input.diagnostics().is_empty());
    assert_eq!(stage.next(&mut input).map(|s| s.value()), Some(-120));
    assert_eq!(stage.next(&mut input).map(|s| s.value()), Some(-80));
    assert!(stage.next(&mut input).is_none());
    assert!(stage.next(&mut input).is_none());
    let cursor = stage.into_cursor();
    assert!(input.feeds(&cursor));
}

#[test]
fn execute_sees_only_what_is_produced_after_it_starts() {
    let mut input = input_of(requests());
    let early = input.cursor();
    assert!(early.read(&mut input).is_some());
    let samples = Engine::new().execute(&AST::new(select(Vec::new())), &mut input);
    assert!(samples.is_empty());
    assert_eq!(early.read(&mut input).map(|s| s.value()), Some(80));
}

#[test]
fn execute_feeds_the_other_cursors() {
    let mut input = input_of(requests());
    let watcher = input.cursor();
    let query = AST::new(select(vec![equals("method", "POST")]));
    assert_eq!(outline(&Engine::new().execute(&query, &mut input)), vec![(2, 80)]);
    assert_eq!(watcher.read(&mut input).map(|s| s.value()), Some(120));
    assert_eq!(watcher.read(&mut input).map(|s| s.value()), Some(80));
    assert!(watcher.read(&mut input).is_none());
}

#[test]
fn malformed_record_does_not_end_a_query() {
    let mut input = input_of(vec![
        record(1, &[], &[("duration", 1)]),
        None,
        record(3, &[], &[("duration", 3)]),
    ]);
    let samples = Engine::new().execute(&AST::new(negate(select(Vec::new()))), &mut input);
    assert_eq!(outline(&samples), vec![(1, -1), (3, -3)]);
    assert_eq!(input.diagnostics().len(), 1);
}

#[test]
fn input_takes_a_boxed_reader_and_decoder() {
    let records = requests();
    let reader: Box<dyn Reader> = Box::new(Ticks { left: records.len() });
    let decoder: Box<dyn Decoder> = Box::new(Prepared { records, next: 0 });
    let mut input = Input::new(reader, decoder);
    let query = AST::new(negate(select(vec![equals("method", "GET")])));
    assert_eq!(outline(&Engine::new().execute(&query, &mut input)), vec![(1, -120)]);
}
