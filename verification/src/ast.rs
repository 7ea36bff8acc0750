use vstd::prelude::*;
use crate::sample::Sample;

verus! {

/// How a matcher compares a label's value with the value it expects.
#[derive(Debug, Clone, Copy, PartialEq, Eq, Structural)]
pub enum MatchOp {
    /// The values are the same.
    Equal,
    /// The values differ.
    NotEqual,
}

/// A predicate over one label: its name, a comparison, and the value that
/// the comparison expects.
#[derive(Debug)]
pub struct LabelMatcher {
    pub label: String,
    pub op: MatchOp,
    pub value: String,
}

impl LabelMatcher {
    /// Whether the matcher holds of a label value.
    pub open spec fn accepts_value(&self, actual: Seq<char>) -> bool {
        match self.op {
            MatchOp::Equal => actual == self.value@,
            MatchOp::NotEqual => actual != self.value@,
        }
    }

    /// Whether the matcher holds of a set of labels: the label is there and
    /// the matcher holds of its value.
    pub open spec fn accepts(&self, labels: Map<Seq<char>, Seq<char>>) -> bool {
        labels.contains_key(self.label@) && self.accepts_value(labels[self.label@])
    }

    /// The matcher that compares the label `label` with `value` by `op`.
    pub fn new(label: String, op: MatchOp, value: String) -> (matcher: LabelMatcher)
        ensures
            matcher == (LabelMatcher { label, op, value }),
    {
        LabelMatcher { label, op, value }
    }

    /// The name of the label that the matcher looks at.
    pub fn label(&self) -> (label: &str)
        ensures
            label@ == self.label@,
    {
        self.label.as_str()
    }

    /// Whether the matcher holds of the label value `actual`.
    pub fn matches(&self, actual: &str) -> (ok: bool)
        ensures
            ok == self.accepts_value(actual@),
    {
        match self.op {
            MatchOp::Equal => self.value.as_str().eq(actual),
            MatchOp::NotEqual => !self.value.as_str().eq(actual),
        }
    }
}

/// A set of matchers that picks the samples an expression is about.
#[derive(Debug)]
pub struct VectorSelector {
    pub matchers: Vec<LabelMatcher>,
}

impl VectorSelector {
    /// Whether every matcher holds of a set of labels.
    pub open spec fn accepts(&self, labels: Map<Seq<char>, Seq<char>>) -> bool {
        forall|i: int| 0 <= i < self.matchers.len() ==> (#[trigger] self.matchers[i]).accepts(labels)
    }

    /// The selector made of `matchers`.
    pub fn new(matchers: Vec<LabelMatcher>) -> (selector: VectorSelector)
        ensures
            selector.matchers == matchers,
    {
        VectorSelector { matchers }
    }

    /// The matchers of the selector.
    pub fn matchers(&self) -> (matchers: &Vec<LabelMatcher>)
        ensures
            *matchers == self.matchers,
    {
        &self.matchers
    }

    /// Whether the selector picks `sample`: each matcher finds its label on
    /// the sample and holds of the label's value.
    pub fn matches(&self, sample: &Sample) -> (ok: bool)
        ensures
            ok == self.accepts(sample@.labels),
    {
        let mut i: usize = 0;
        while i < self.matchers.len()
            invariant
                i <= self.matchers.len(),
                forall|j: int| 0 <= j < i ==> (#[trigger] self.matchers[j]).accepts(sample@.labels),
            decreases self.matchers.len() - i,
        {
            let matcher = &self.matchers[i];
            let ok = match sample.label(matcher.label()) {
                Some(actual) => matcher.matches(actual.as_str()),
                None => false,
            };
            if !ok {
                assert(!self.matchers[i as int].accepts(sample@.labels));
                return false;
            }
            i = i + 1;
        }
        true
    }
}

/// A sign applied to every value of a sequence of samples.
#[derive(Debug, Clone, Copy, PartialEq, Eq, Structural)]
pub enum UnaryOp {
    /// Leaves the value as it is.
    Add,
    /// Flips the sign of the value.
    Sub,
}

impl UnaryOp {
    /// The value that the operator makes of `value`.
    pub open spec fn applied(self, value: int) -> int {
        match self {
            UnaryOp::Add => value,
            UnaryOp::Sub => -value,
        }
    }

    /// The value that the operator makes of `value`.
    pub fn apply(self, value: i64) -> (result: i64)
        requires
            value > i64::MIN,
        ensures
            result == self.applied(value as int),
            result > i64::MIN,
    {
        match self {
            UnaryOp::Add => value,
            UnaryOp::Sub => -value,
        }
    }
}

/// A query expression.
#[derive(Debug)]
pub enum Expr {
    /// The samples that a selector picks.
    VectorSelector(VectorSelector),
    /// The samples of an inner expression, each with a sign applied.
    UnaryExpr(UnaryOp, Box<Expr>),
}

/// A parsed query.
#[derive(Debug)]
pub struct AST {
    pub root: Expr,
}

impl AST {
    /// The query whose outermost expression is `root`.
    pub fn new(root: Expr) -> (ast: AST)
        ensures
            ast.root == root,
    {
        AST { root }
    }
}

} // verus!
