use pq::ast::{LabelMatcher, MatchOp, UnaryOp};
use pq::labels::Labels;
use pq::record::Record;

fn labels_of(pairs: &[(&str, &str)]) -> Labels {
    let mut labels = Labels::new();
    for (name, value) in pairs {
        labels.insert(name.to_string(), value.to_string());
    }
    labels
}

#[test]
fn labels_start_empty() {
    let labels = Labels::new();
    assert!(labels.get("method").is_none());
    assert!(labels.entries().is_empty());
}

#[test]
fn labels_insert_then_get() {
    let labels = labels_of(&[("method", "GET"), ("host", "a")]);
    assert_eq!(labels.get("method").map(|v| v.as_str()), Some("GET"));
    assert_eq!(labels.get("host").map(|v| v.as_str()), Some("a"));
    assert!(labels.get("path").is_none());
    assert!(labels.get("").is_none());
}

#[test]
fn labels_insert_replaces_the_value_of_a_name() {
    let mut labels = labels_of(&[("method", "GET"), ("host", "a")]);
    labels.insert("method".to_string(), "POST".to_string());
    assert_eq!(labels.get("method").map(|v| v.as_str()), Some("POST"));
    assert_eq!(labels.get("host").map(|v| v.as_str()), Some("a"));
    assert_eq!(labels.entries().len(), 2);
}

#[test]
fn labels_clone_holds_the_same_labels() {
    let labels = labels_of(&[("method", "GET"), ("host", "a")]);
    let mut copy = labels.clone();
    assert_eq!(copy.get("method").map(|v| v.as_str()), Some("GET"));
    assert_eq!(copy.get("host").map(|v| v.as_str()), Some("a"));
    copy.insert("host".to_string(), "b".to_string());
    assert_eq!(labels.get("host").map(|v| v.as_str()), Some("a"));
}

#[test]
fn record_keeps_what_it_was_given() {
    let record = Record::new(
        42,
        labels_of(&[("method", "GET")]),
        vec![("duration".to_string(), 120), ("size".to_string(), -3)],
    )
    .unwrap();
    assert_eq!(record.timestamp(), 42);
    assert_eq!(record.labels().get("method").map(|v| v.as_str()), Some("GET"));
    assert_eq!(record.values(), &vec![("duration".to_string(), 120), ("size".to_string(), -3)]);
}

#[test]
fn record_may_have_no_values() {
    assert!(Record::new(1, Labels::new(), Vec::new()).is_some());
}

#[test]
fn record_refuses_a_metric_without_a_name() {
    assert!(Record::new(1, Labels::new(), vec![("a".to_string(), 1), (String::new(), 2)]).is_none());
}

#[test]
fn record_refuses_a_metric_listed_twice() {
    let values = vec![("a".to_string(), 1), ("b".to_string(), 2), ("a".to_string(), 3)];
    assert!(Record::new(1, Labels::new(), values).is_none());
}

#[test]
fn record_refuses_the_value_without_a_negation() {
    assert!(Record::new(1, Labels::new(), vec![("a".to_string(), i64::MIN)]).is_none());
    assert!(Record::new(1, Labels::new(), vec![("a".to_string(), i64::MIN + 1)]).is_some());
    assert!(Record::new(1, Labels::new(), vec![("a".to_string(), i64::MAX)]).is_some());
}

#[test]
fn equal_matcher_holds_of_the_expected_value_only() {
    let matcher = LabelMatcher::new("method".to_string(), MatchOp::Equal, "GET".to_string());
    assert_eq!(matcher.label(), "method");
    assert!(matcher.matches("GET"));
    assert!(!matcher.matches("POST"));
    assert!(!matcher.matches("get"));
    assert!(!matcher.matches(""));
}

#[test]
fn not_equal_matcher_holds_of_every_other_value() {
    let matcher = LabelMatcher::new("method".to_string(), MatchOp::NotEqual, "GET".to_string());
    assert!(!matcher.matches("GET"));
    assert!(matcher.matches("POST"));
    assert!(matcher.matches(""));
}

#[test]
fn signs_apply_to_values() {
    assert_eq!(UnaryOp::Sub.apply(50), -50);
    assert_eq!(UnaryOp::Sub.apply(-50), 50);
    assert_eq!(UnaryOp::Sub.apply(0), 0);
    assert_eq!(UnaryOp::Sub.apply(i64::MAX), i64::MIN + 1);
    assert_eq!(UnaryOp::Add.apply(50), 50);
    assert_eq!(UnaryOp::Add.apply(-7), -7);
}
