use vstd::prelude::*;
use std::rc::Rc;
use crate::ast::{self, Expr, UnaryOp, AST};
use crate::input::{Cursor, Input, Track};
use crate::sample::{views, Sample, SampleView};
use crate::source::{Decoder, Reader};

verus! {

/// The test that a selector puts to a sample.
pub open spec fn picked_by(selector: ast::VectorSelector) -> spec_fn(SampleView) -> bool {
    |sample: SampleView| selector.accepts(sample.labels)
}

/// The sample with the sign applied to its value, at the same time and under
/// the same labels.
pub open spec fn signed(op: UnaryOp, sample: SampleView) -> SampleView {
    SampleView { value: op.applied(sample.value), ..sample }
}

/// What a sign makes of each sample.
pub open spec fn signed_by(op: UnaryOp) -> spec_fn(SampleView) -> SampleView {
    |sample: SampleView| signed(op, sample)
}

/// What an expression yields over a sequence of source samples. A selector
/// yields the samples it picks, in their order; a sign yields what the inner
/// expression yields, each sample with the sign applied.
pub open spec fn eval(expr: Expr, source: Seq<SampleView>) -> Seq<SampleView>
    decreases expr,
{
    match expr {
        Expr::VectorSelector(selector) => source.filter(picked_by(selector)),
        Expr::UnaryExpr(op, inner) => eval(*inner, source).map_values(signed_by(op)),
    }
}

/// A selector yields exactly the source samples that satisfy all of its
/// matchers, in the order of the source, and nothing where none does.
pub proof fn lemma_selector_yields_matches(selector: ast::VectorSelector, source: Seq<SampleView>)
    ensures
        eval(Expr::VectorSelector(selector), source) == source.filter(picked_by(selector)),
        forall|i: int|
            0 <= i < source.len() && selector.accepts(source[i].labels) ==> eval(
                Expr::VectorSelector(selector),
                source,
            ).contains(#[trigger] source[i]),
        forall|sample: SampleView| #[trigger]
            eval(Expr::VectorSelector(selector), source).contains(sample) ==> source.contains(sample)
                && selector.accepts(sample.labels),
        (forall|i: int| 0 <= i < source.len() ==> !selector.accepts(#[trigger] source[i].labels))
            ==> eval(Expr::VectorSelector(selector), source).len() == 0,
{
    let pick = picked_by(selector);
    let out = source.filter(pick);
    assert forall|i: int| 0 <= i < source.len() && selector.accepts(source[i].labels) implies out.contains(
        #[trigger] source[i],
    ) by {
        assert(pick(source[i]));
        source.lemma_filter_contains(pick, i);
    }
    assert forall|sample: SampleView| #[trigger] out.contains(sample) implies source.contains(sample)
        && selector.accepts(sample.labels) by {
        let k = choose|k: int| 0 <= k < out.len() && out[k] == sample;
        source.lemma_filter_pred(pick, k);
        source.lemma_filter_contains_rev(pick, sample);
    }
    if forall|i: int| 0 <= i < source.len() ==> !selector.accepts(#[trigger] source[i].labels) {
        if out.len() > 0 {
            assert(out.contains(out[0]));
            let k = choose|k: int| 0 <= k < source.len() && source[k] == out[0];
            assert(!selector.accepts(source[k].labels));
        }
    }
}

/// Flipping the sign twice yields what the inner expression yields: the same
/// values, times and labels at every position.
pub proof fn lemma_negate_twice(inner: Expr, source: Seq<SampleView>)
    ensures
        eval(
            Expr::UnaryExpr(UnaryOp::Sub, Box::new(Expr::UnaryExpr(UnaryOp::Sub, Box::new(inner)))),
            source,
        ) == eval(inner, source),
{
    let once = Expr::UnaryExpr(UnaryOp::Sub, Box::new(inner));
    let twice = Expr::UnaryExpr(UnaryOp::Sub, Box::new(once));
    assert(eval(once, source) == eval(inner, source).map_values(signed_by(UnaryOp::Sub)));
    assert(eval(twice, source) == eval(once, source).map_values(signed_by(UnaryOp::Sub)));
    assert(eval(twice, source) =~= eval(inner, source));
}

/// The identity sign yields what the inner expression yields.
pub proof fn lemma_identity_sign(inner: Expr, source: Seq<SampleView>)
    ensures
        eval(Expr::UnaryExpr(UnaryOp::Add, Box::new(inner)), source) == eval(inner, source),
{
    let kept = Expr::UnaryExpr(UnaryOp::Add, Box::new(inner));
    assert(eval(kept, source) == eval(inner, source).map_values(signed_by(UnaryOp::Add)));
    assert(eval(kept, source) =~= eval(inner, source));
}

/// The stage of a selector: it reads from a cursor and lets through the
/// samples that the selector picks.
pub struct VectorSelector<'a> {
    selector: &'a ast::VectorSelector,
    inner: Cursor,
}

/// The stage of a sign: it pulls from an inner stage and applies the sign
/// to each sample.
pub struct UnaryExpr<'a> {
    op: UnaryOp,
    inner: Box<Stage<'a>>,
}

/// A stage of a pipeline: something that yields the next sample on demand,
/// or reports that there is none left.
pub enum Stage<'a> {
    VectorSelector(VectorSelector<'a>),
    UnaryExpr(UnaryExpr<'a>),
}

/// What a pull on a stage that computes `expr` over `cursor` owes: the
/// input has been pulled from through that cursor alone, and what the
/// expression yields over the samples read has grown by the sample returned.
/// No sample comes only once the source is exhausted and read to its end.
pub open spec fn pull_result<R: Reader, D: Decoder>(
    expr: Expr,
    cursor: &Cursor,
    before: &Input<R, D>,
    after: &Input<R, D>,
    sample: Option<Rc<Sample>>,
) -> bool {
    &&& after.pulled_from(before, cursor)
    &&& match sample {
        Some(s) => {
            &&& before.track(cursor).position < after.track(cursor).position
            &&& eval(expr, after.consumed(cursor)) == eval(expr, before.consumed(cursor)).push(s@)
        },
        None => {
            &&& after.halted()
            &&& after.track(cursor).position == after.produced().len()
            &&& eval(expr, after.consumed(cursor)) == eval(expr, before.consumed(cursor))
        },
    }
}

impl<'a> VectorSelector<'a> {
    /// The cursor that the stage reads from.
    pub closed spec fn cursor(&self) -> Cursor {
        self.inner
    }

    /// The expression that the stage computes.
    pub closed spec fn expr(&self) -> Expr {
        Expr::VectorSelector(*self.selector)
    }

    /// The stage that lets through what `selector` picks of the samples of
    /// `inner`.
    pub fn new(selector: &'a ast::VectorSelector, inner: Cursor) -> (stage: Self)
        ensures
            stage.cursor() == inner,
            stage.expr() == Expr::VectorSelector(*selector),
    {
        VectorSelector { selector, inner }
    }

    /// The next sample that the selector picks. A sample that it does not
    /// pick is dropped and the next one tried: the stage ends only where its
    /// source does.
    pub fn next<R: Reader, D: Decoder>(&self, input: &mut Input<R, D>) -> (sample: Option<Rc<Sample>>)
        requires
            old(input).wf(),
            old(input).is_live(&self.cursor()),
        ensures
            pull_result(self.expr(), &self.cursor(), old(input), final(input), sample),
    {
        proof {
            old(input).lemma_track_bounds(&self.inner);
        }
        loop
            invariant
                input.pulled_from(old(input), &self.inner),
                eval(self.expr(), input.consumed(&self.inner)) == eval(
                    self.expr(),
                    old(input).consumed(&self.inner),
                ),
                input.track(&self.inner).position <= input.produced().len(),
            decreases
                (if input.halted() { 0nat } else { 1nat }),
                input.produced().len() - input.track(&self.inner).position,
        {
            let ghost before = *input;
            let read = self.inner.read(input);
            proof {
                input.lemma_pulled_from_chain(&before, old(input), &self.inner);
                input.lemma_track_bounds(&self.inner);
            }
            match read {
                None => {
                    return None;
                },
                Some(sample) => {
                    proof {
                        before.consumed(&self.inner).lemma_filter_push(sample@, picked_by(*self.selector));
                    }
                    if self.selector.matches(&sample) {
                        assert(eval(self.expr(), input.consumed(&self.inner)) =~= eval(
                            self.expr(),
                            old(input).consumed(&self.inner),
                        ).push(sample@));
                        return Some(sample);
                    }
                    assert(eval(self.expr(), input.consumed(&self.inner)) =~= eval(
                        self.expr(),
                        old(input).consumed(&self.inner),
                    ));
                },
            }
        }
    }
}

impl<'a> UnaryExpr<'a> {
    /// The cursor that the stage reads from, through its inner stages.
    pub closed spec fn cursor(&self) -> Cursor
        decreases self,
    {
        self.inner.cursor()
    }

    /// The expression that the stage computes.
    pub closed spec fn expr(&self) -> Expr
        decreases self,
    {
        Expr::UnaryExpr(self.op, Box::new(self.inner.expr()))
    }

    /// The stage that applies `op` to each sample of `inner`.
    pub fn new(op: UnaryOp, inner: Box<Stage<'a>>) -> (stage: Self)
        ensures
            stage.cursor() == inner.cursor(),
            stage.expr() == Expr::UnaryExpr(op, Box::new(inner.expr())),
    {
        UnaryExpr { op, inner }
    }

    /// The next sample of the inner stage as a new sample with the sign
    /// applied to its value, at the same time and under the same labels. The
    /// stage ends where the inner stage does.
    pub fn next<R: Reader, D: Decoder>(&self, input: &mut Input<R, D>) -> (sample: Option<Rc<Sample>>)
        requires
            old(input).wf(),
            old(input).is_live(&self.cursor()),
        ensures
            pull_result(self.expr(), &self.cursor(), old(input), final(input), sample),
        decreases self,
    {
        match self.inner.next(input) {
            Some(sample) => {
                let value = self.op.apply(sample.value());
                let result = Rc::new(sample.with_value(value));
                proof {
                    let cursor = self.cursor();
                    assert(result@ == signed(self.op, sample@));
                    assert(eval(self.expr(), input.consumed(&cursor)) =~= eval(
                        self.expr(),
                        old(input).consumed(&cursor),
                    ).push(result@));
                }
                Some(result)
            },
            None => None,
        }
    }
}

impl<'a> Stage<'a> {
    /// The cursor that the pipeline reads from.
    pub open spec fn cursor(&self) -> Cursor
        decreases self,
    {
        match self {
            Stage::VectorSelector(stage) => stage.cursor(),
            Stage::UnaryExpr(stage) => stage.cursor(),
        }
    }

    /// The expression that the pipeline computes.
    pub open spec fn expr(&self) -> Expr
        decreases self,
    {
        match self {
            Stage::VectorSelector(stage) => stage.expr(),
            Stage::UnaryExpr(stage) => stage.expr(),
        }
    }

    /// The next sample of the pipeline, or `None` once its source is
    /// exhausted.
    pub fn next<R: Reader, D: Decoder>(&self, input: &mut Input<R, D>) -> (sample: Option<Rc<Sample>>)
        requires
            old(input).wf(),
            old(input).is_live(&self.cursor()),
        ensures
            pull_result(self.expr(), &self.cursor(), old(input), final(input), sample),
        decreases self,
    {
        match self {
            Stage::VectorSelector(stage) => stage.next(input),
            Stage::UnaryExpr(stage) => stage.next(input),
        }
    }

    /// Takes the pipeline apart and hands back its cursor.
    pub fn into_cursor(self) -> (cursor: Cursor)
        ensures
            cursor == self.cursor(),
        decreases self,
    {
        match self {
            Stage::VectorSelector(stage) => stage.inner,
            Stage::UnaryExpr(stage) => (*stage.inner).into_cursor(),
        }
    }
}

/// Compiles query expressions into pipelines and runs them.
pub struct Engine {}

impl Engine {
    pub fn new() -> (engine: Self) {
        Engine {  }
    }

    /// Runs `query` over everything that `input` produces from now on, and
    /// returns what it yields. The input is pulled to its end; the cursors
    /// that it feeds are fed and otherwise left alone.
    pub fn execute<R: Reader, D: Decoder>(
        &self,
        query: &AST,
        input: &mut Input<R, D>,
    ) -> (samples: Vec<Rc<Sample>>)
        requires
            old(input).wf(),
        ensures
            final(input).wf(),
            final(input).halted(),
            final(input).same_cursors(old(input)),
            old(input).history().is_prefix_of(final(input).history()),
            old(input).halted() ==> final(input).history() == old(input).history(),
            views(samples@) == eval(
                query.root,
                final(input).produced().skip(old(input).produced().len() as int),
            ),
    {
        let stage = self.do_execute(&query.root, input);
        let ghost cursor = stage.cursor();
        let ghost start = *input;
        let mut samples: Vec<Rc<Sample>> = Vec::new();
        proof {
            input.lemma_track_bounds(&cursor);
            assert(input.consumed(&cursor) =~= Seq::<SampleView>::empty());
            lemma_eval_empty(query.root);
            assert(views(samples@) =~= Seq::<SampleView>::empty());
        }
        loop
            invariant_except_break
                input.pulled_from(&start, &cursor),
                stage.cursor() == cursor,
                stage.expr() == query.root,
                views(samples@) == eval(query.root, input.consumed(&cursor)),
                input.track(&cursor).position <= input.produced().len(),
            ensures
                input.pulled_from(&start, &cursor),
                stage.cursor() == cursor,
                input.halted(),
                input.track(&cursor).position == input.produced().len(),
                views(samples@) == eval(query.root, input.consumed(&cursor)),
            decreases
                (if input.halted() { 0nat } else { 1nat }),
                input.produced().len() - input.track(&cursor).position,
        {
            let ghost before = *input;
            let next = stage.next(input);
            proof {
                input.lemma_pulled_from_chain(&before, &start, &cursor);
                input.lemma_track_bounds(&cursor);
            }
            match next {
                Some(sample) => {
                    let ghost earlier = samples@;
                    samples.push(sample);
                    assert(views(samples@) =~= views(earlier).push(sample@));
                },
                None => {
                    break;
                },
            }
        }
        proof {
            assert(input.consumed(&cursor) =~= input.produced().skip(old(input).produced().len() as int));
        }
        let ghost end = *input;
        input.release(stage.into_cursor());
        proof {
            assert forall|other: Cursor| #[trigger] input.track(&other) == old(input).track(&other) by {
                if other != cursor {
                    assert(end.track(&other) == start.track(&other));
                    assert(start.track(&other) == old(input).track(&other));
                } else {
                    input.lemma_idle_track(&cursor);
                    old(input).lemma_idle_track(&cursor);
                }
            }
        }
        samples
    }

    /// Compiles `expr` into a pipeline over a new cursor of `input`. Nothing
    /// is pulled before the first pull on the pipeline.
    pub fn do_execute<'a, R: Reader, D: Decoder>(
        &self,
        expr: &'a Expr,
        input: &mut Input<R, D>,
    ) -> (stage: Stage<'a>)
        requires
            old(input).wf(),
        ensures
            stage.expr() == *expr,
            final(input).wf(),
            final(input).history() == old(input).history(),
            !old(input).is_live(&stage.cursor()),
            final(input).track(&stage.cursor()) == (Track {
                live: true,
                origin: old(input).produced().len(),
                position: old(input).produced().len(),
            }),
            final(input).same_cursors_but(old(input), &stage.cursor()),
        decreases expr,
    {
        match expr {
            Expr::VectorSelector(selector) => Stage::VectorSelector(
                VectorSelector::new(selector, input.cursor()),
            ),
            Expr::UnaryExpr(op, inner) => Stage::UnaryExpr(
                UnaryExpr::new(*op, Box::new(self.do_execute(inner, input))),
            ),
        }
    }
}

/// No expression yields anything over no samples.
pub proof fn lemma_eval_empty(expr: Expr)
    ensures
        eval(expr, Seq::empty()) == Seq::<SampleView>::empty(),
    decreases expr,
{
    match expr {
        Expr::VectorSelector(selector) => {
            Seq::<SampleView>::empty().lemma_filter_len(picked_by(selector));
            assert(eval(expr, Seq::empty()) =~= Seq::<SampleView>::empty());
        },
        Expr::UnaryExpr(op, inner) => {
            lemma_eval_empty(*inner);
            assert(eval(expr, Seq::empty()) =~= Seq::<SampleView>::empty());
        },
    }
}

} // verus!
