//! Points at which a caller's code takes part in a search.
use vstd::prelude::*;

use crate::database::config::SearchConfig;
use crate::error::{Result, TriviumError};
use crate::json::{Json, JsonView};
use crate::node::{Payload, SearchHit};
use crate::number::{f32_value_key, F32_SIGN};
use crate::ranking::{HitView, Scored};
use crate::sorting::{law_sorted, order_of, sort_items, sorted, views, SortItem};

verus! {

/// A failure that a hook reports, and the stage at which it happened.
#[derive(Debug)]
pub struct HookError {
    pub stage: String,
    pub reason: String,
}

/// What the stages of a search share with the hooks. Times are in nanoseconds.
#[derive(Debug)]
pub struct HookContext {
    /// Data of the caller's own.
    pub custom_data: Json,
    /// How long each stage took, in the order in which they ran.
    pub stage_timings: Vec<(String, u128)>,
    /// How many candidates each stage handed on.
    pub stage_counts: Vec<(String, usize)>,
    /// Further figures about the search.
    pub observations: Vec<(String, u64)>,
    /// A failure that a hook reported.
    pub error: Option<HookError>,
    /// Whether a hook asked to end the search.
    pub abort: bool,
}

/// The stages whose times are noted, in order.
pub open spec fn timed_stages(ctx: HookContext) -> Seq<Seq<char>> {
    ctx.stage_timings@.map_values(|note: (String, u128)| note.0@)
}

/// The numbers of candidates that are noted, in order.
pub open spec fn noted_counts(ctx: HookContext) -> Seq<(Seq<char>, usize)> {
    ctx.stage_counts@.map_values(|note: (String, usize)| (note.0@, note.1))
}

/// The figures that are noted, in order.
pub open spec fn noted_figures(ctx: HookContext) -> Seq<(Seq<char>, u64)> {
    figures_of(ctx.observations@)
}

/// A list of figures as mathematical values.
pub open spec fn figures_of(list: Seq<(String, u64)>) -> Seq<(Seq<char>, u64)> {
    list.map_values(|note: (String, u64)| (note.0@, note.1))
}

/// Whether `after` is `before` with these notes: stages whose times were taken, numbers of
/// candidates, and figures.
pub open spec fn adds_notes(
    before: HookContext,
    timed: Seq<Seq<char>>,
    counts: Seq<(Seq<char>, usize)>,
    figures: Seq<(Seq<char>, u64)>,
    after: HookContext,
) -> bool {
    &&& after.custom_data == before.custom_data
    &&& after.error == before.error
    &&& after.abort == before.abort
    &&& before.stage_timings@.is_prefix_of(after.stage_timings@)
    &&& timed_stages(after) == timed_stages(before) + timed
    &&& noted_counts(after) == noted_counts(before) + counts
    &&& noted_figures(after) == noted_figures(before) + figures
}

/// A context without a failure.
pub open spec fn without_error(ctx: HookContext) -> HookContext {
    HookContext { error: None, ..ctx }
}

/// Nothing is noted.
pub proof fn lemma_no_notes(ctx: HookContext)
    ensures
        adds_notes(ctx, Seq::empty(), Seq::empty(), Seq::empty(), ctx),
{
    assert(timed_stages(ctx) =~= timed_stages(ctx) + Seq::<Seq<char>>::empty());
    assert(noted_counts(ctx) =~= noted_counts(ctx) + Seq::<(Seq<char>, usize)>::empty());
    assert(noted_figures(ctx) =~= noted_figures(ctx) + Seq::<(Seq<char>, u64)>::empty());
    assert(ctx.stage_timings@.is_prefix_of(ctx.stage_timings@)) by {
        assert(ctx.stage_timings@ =~= ctx.stage_timings@.subrange(
            0,
            ctx.stage_timings@.len() as int,
        ));
    }
}

/// Notes after notes.
pub proof fn lemma_more_notes(
    before: HookContext,
    timed: Seq<Seq<char>>,
    counts: Seq<(Seq<char>, usize)>,
    figures: Seq<(Seq<char>, u64)>,
    mid: HookContext,
    more_timed: Seq<Seq<char>>,
    more_counts: Seq<(Seq<char>, usize)>,
    more_figures: Seq<(Seq<char>, u64)>,
    after: HookContext,
)
    requires
        adds_notes(before, timed, counts, figures, mid),
        adds_notes(mid, more_timed, more_counts, more_figures, after),
    ensures
        adds_notes(
            before,
            timed + more_timed,
            counts + more_counts,
            figures + more_figures,
            after,
        ),
{
    assert(timed_stages(after) =~= timed_stages(before) + (timed + more_timed));
    assert(noted_counts(after) =~= noted_counts(before) + (counts + more_counts));
    assert(noted_figures(after) =~= noted_figures(before) + (figures + more_figures));
    let a = before.stage_timings@;
    let b = mid.stage_timings@;
    let c = after.stage_timings@;
    assert(a =~= c.subrange(0, a.len() as int)) by {
        assert(a == b.subrange(0, a.len() as int));
        assert(b == c.subrange(0, b.len() as int));
    }
}

/// A failure that is taken out leaves the notes.
pub proof fn lemma_notes_without_error(
    before: HookContext,
    timed: Seq<Seq<char>>,
    counts: Seq<(Seq<char>, usize)>,
    figures: Seq<(Seq<char>, u64)>,
    after: HookContext,
)
    requires
        adds_notes(before, timed, counts, figures, after),
    ensures
        adds_notes(without_error(before), timed, counts, figures, without_error(after)),
{
}

impl HookContext {
    /// A context without data.
    pub fn new() -> (context: HookContext)
        ensures
            context.custom_data@ == JsonView::Null,
            context.stage_timings@.len() == 0,
            context.stage_counts@.len() == 0,
            context.observations@.len() == 0,
            context.error is None,
            !context.abort,
    {
        HookContext {
            custom_data: Json::Null,
            stage_timings: Vec::new(),
            stage_counts: Vec::new(),
            observations: Vec::new(),
            error: None,
            abort: false,
        }
    }

    /// Notes how long a stage took.
    pub fn record_timing(&mut self, stage: &str, elapsed: u128)
        ensures
            final(self).stage_timings@.len() == old(self).stage_timings@.len() + 1,
            final(self).stage_timings@.drop_last() == old(self).stage_timings@,
            final(self).stage_timings@.last().0@ == stage@,
            final(self).stage_timings@.last().1 == elapsed,
            *final(self) == (HookContext {
                stage_timings: final(self).stage_timings,
                ..*old(self)
            }),
            adds_notes(*old(self), seq![stage@], Seq::empty(), Seq::empty(), *final(self)),
    {
        let ghost start = *self;
        let ghost before = self.stage_timings@;
        self.stage_timings.push((stage.to_owned(), elapsed));
        proof {
            assert(self.stage_timings@.drop_last() =~= before);
            lemma_no_notes(start);
            assert(before =~= self.stage_timings@.subrange(0, before.len() as int));
            assert(timed_stages(*self) =~= timed_stages(start) + seq![stage@]);
        }
    }

    /// Notes how many candidates a stage handed on.
    pub fn record_count(&mut self, stage: &str, count: usize)
        ensures
            final(self).stage_counts@.len() == old(self).stage_counts@.len() + 1,
            final(self).stage_counts@.drop_last() == old(self).stage_counts@,
            final(self).stage_counts@.last().0@ == stage@,
            final(self).stage_counts@.last().1 == count,
            *final(self) == (HookContext { stage_counts: final(self).stage_counts, ..*old(self) }),
            adds_notes(
                *old(self),
                Seq::empty(),
                seq![(stage@, count)],
                Seq::empty(),
                *final(self),
            ),
    {
        let ghost start = *self;
        let ghost before = self.stage_counts@;
        self.stage_counts.push((stage.to_owned(), count));
        proof {
            assert(self.stage_counts@.drop_last() =~= before);
            lemma_no_notes(start);
            assert(noted_counts(*self) =~= noted_counts(start) + seq![(stage@, count)]);
        }
    }

    /// Notes a figure about the search.
    pub fn record_observation(&mut self, name: &str, value: u64)
        ensures
            final(self).observations@.len() == old(self).observations@.len() + 1,
            final(self).observations@.drop_last() == old(self).observations@,
            final(self).observations@.last().0@ == name@,
            final(self).observations@.last().1 == value,
            *final(self) == (HookContext { observations: final(self).observations, ..*old(self) }),
            adds_notes(
                *old(self),
                Seq::empty(),
                Seq::empty(),
                seq![(name@, value)],
                *final(self),
            ),
    {
        let ghost start = *self;
        let ghost before = self.observations@;
        self.observations.push((name.to_owned(), value));
        proof {
            assert(self.observations@.drop_last() =~= before);
            lemma_no_notes(start);
            assert(noted_figures(*self) =~= noted_figures(start) + seq![(name@, value)]);
        }
    }

    /// Fails with the error that a hook reported, if one did, and forgets it.
    pub fn check_error(&mut self) -> (result: Result<()>)
        ensures
            *final(self) == (HookContext { error: None, ..*old(self) }),
            match old(self).error {
                Some(failure) => result == Err::<(), TriviumError>(
                    TriviumError::HookExecutionError {
                        stage: failure.stage,
                        reason: failure.reason,
                    },
                ),
                None => result is Ok,
            },
    {
        match self.error.take() {
            Some(failure) => Err(
                TriviumError::HookExecutionError { stage: failure.stage, reason: failure.reason },
            ),
            None => Ok(()),
        }
    }
}

impl Default for HookContext {
    fn default() -> (context: HookContext)
        ensures
            context.custom_data@ == JsonView::Null,
            context.stage_timings@.len() == 0,
            context.stage_counts@.len() == 0,
            context.observations@.len() == 0,
            context.error is None,
            !context.abort,
    {
        HookContext::new()
    }
}

/// The stages at which a hook may change a list of hits.
pub enum HookStage {
    PostRecall,
    PreGraphExpand,
    PostSearch,
}

/// What a hook works on before the search.
pub struct Preparation {
    pub query: Vec<u32>,
    pub config: SearchConfig,
    pub ctx: HookContext,
}

/// What a hook works on at the other stages.
pub struct Candidates {
    pub hits: Vec<SearchHit>,
    pub ctx: HookContext,
}

/// Code of a caller's own that runs at the stages of a search. A hook that leaves a method out
/// does nothing at that stage.
pub trait SearchHook: Send + Sync {
    /// What the hook may do before the search, besides nothing. A hook that does not say may do
    /// anything.
    open spec fn may_prepare(&self, before: Preparation, after: Preparation) -> bool {
        true
    }

    /// What the hook may answer in place of the search, besides nothing.
    open spec fn may_recall(
        &self,
        query: Seq<u32>,
        config: SearchConfig,
        before: HookContext,
        after: HookContext,
        found: Option<Vec<SearchHit>>,
    ) -> bool {
        true
    }

    /// What the hook may do to hits, besides nothing.
    open spec fn may_change(&self, stage: HookStage, before: Candidates, after: Candidates) -> bool {
        true
    }

    /// What the hook may make of the results, besides nothing.
    open spec fn may_rerank(
        &self,
        before: Candidates,
        after: Candidates,
        ranked: Option<Vec<SearchHit>>,
    ) -> bool {
        true
    }

    /// Runs before the search; may change the query and the settings, or end the search.
    fn on_pre_search(
        &self,
        query_vector: &mut Vec<u32>,
        config: &mut SearchConfig,
        ctx: &mut HookContext,
    )
        ensures
            ({
                let before = Preparation {
                    query: *old(query_vector),
                    config: *old(config),
                    ctx: *old(ctx),
                };
                let after = Preparation {
                    query: *final(query_vector),
                    config: *final(config),
                    ctx: *final(ctx),
                };
                after == before || self.may_prepare(before, after)
            }),
        default_ensures
            *final(query_vector) == *old(query_vector),
            *final(config) == *old(config),
            *final(ctx) == *old(ctx),
    {
    }

    /// Finds candidates in place of the search itself.
    fn on_custom_recall(
        &self,
        query_vector: &[u32],
        config: &SearchConfig,
        ctx: &mut HookContext,
    ) -> (found: Option<Vec<SearchHit>>)
        ensures
            (found is None && *final(ctx) == *old(ctx)) || self.may_recall(
                query_vector@,
                *config,
                *old(ctx),
                *final(ctx),
                found,
            ),
        default_ensures
            found is None,
            *final(ctx) == *old(ctx),
    {
        None
    }

    /// Runs on the candidates.
    fn on_post_recall(&self, hits: &mut Vec<SearchHit>, ctx: &mut HookContext)
        ensures
            ({
                let before = Candidates { hits: *old(hits), ctx: *old(ctx) };
                let after = Candidates { hits: *final(hits), ctx: *final(ctx) };
                after == before || self.may_change(HookStage::PostRecall, before, after)
            }),
        default_ensures
            *final(hits) == *old(hits),
            *final(ctx) == *old(ctx),
    {
    }

    /// Runs on the nodes from which the graph is expanded.
    fn on_pre_graph_expand(&self, seeds: &mut Vec<SearchHit>, ctx: &mut HookContext)
        ensures
            ({
                let before = Candidates { hits: *old(seeds), ctx: *old(ctx) };
                let after = Candidates { hits: *final(seeds), ctx: *final(ctx) };
                after == before || self.may_change(HookStage::PreGraphExpand, before, after)
            }),
        default_ensures
            *final(seeds) == *old(seeds),
            *final(ctx) == *old(ctx),
    {
    }

    /// Ranks the results again.
    fn on_rerank(&self, hits: &mut Vec<SearchHit>, ctx: &mut HookContext) -> (ranked: Option<
        Vec<SearchHit>,
    >)
        ensures
            ({
                let before = Candidates { hits: *old(hits), ctx: *old(ctx) };
                let after = Candidates { hits: *final(hits), ctx: *final(ctx) };
                (ranked is None && after == before) || self.may_rerank(before, after, ranked)
            }),
        default_ensures
            ranked is None,
            *final(hits) == *old(hits),
            *final(ctx) == *old(ctx),
    {
        None
    }

    /// Runs on the results before they are returned.
    fn on_post_search(&self, results: &mut Vec<SearchHit>, ctx: &mut HookContext)
        ensures
            ({
                let before = Candidates { hits: *old(results), ctx: *old(ctx) };
                let after = Candidates { hits: *final(results), ctx: *final(ctx) };
                after == before || self.may_change(HookStage::PostSearch, before, after)
            }),
        default_ensures
            *final(results) == *old(results),
            *final(ctx) == *old(ctx),
    {
    }
}

/// Whether a hook leads from one preparation to another.
pub open spec fn prepares<H: SearchHook + ?Sized>(
    hook: &H,
    before: Preparation,
    after: Preparation,
) -> bool {
    after == before || hook.may_prepare(before, after)
}

/// Whether a hook gives this answer in place of the search.
pub open spec fn recalls<H: SearchHook + ?Sized>(
    hook: &H,
    query: Seq<u32>,
    config: SearchConfig,
    before: HookContext,
    after: HookContext,
    found: Option<Vec<SearchHit>>,
) -> bool {
    (found is None && after == before) || hook.may_recall(query, config, before, after, found)
}

/// Whether a hook leads from hits to others.
pub open spec fn alters<H: SearchHook + ?Sized>(
    hook: &H,
    stage: HookStage,
    before: Candidates,
    after: Candidates,
) -> bool {
    after == before || hook.may_change(stage, before, after)
}

/// Whether a hook gives this ranking.
pub open spec fn reranks<H: SearchHook + ?Sized>(
    hook: &H,
    before: Candidates,
    after: Candidates,
    ranked: Option<Vec<SearchHit>>,
) -> bool {
    (ranked is None && after == before) || hook.may_rerank(before, after, ranked)
}

/// A hook that does nothing at any stage.
pub struct NoopHook;

impl SearchHook for NoopHook {
    open spec fn may_prepare(&self, before: Preparation, after: Preparation) -> bool {
        false
    }

    open spec fn may_recall(
        &self,
        query: Seq<u32>,
        config: SearchConfig,
        before: HookContext,
        after: HookContext,
        found: Option<Vec<SearchHit>>,
    ) -> bool {
        false
    }

    open spec fn may_change(
        &self,
        stage: HookStage,
        before: Candidates,
        after: Candidates,
    ) -> bool {
        false
    }

    open spec fn may_rerank(
        &self,
        before: Candidates,
        after: Candidates,
        ranked: Option<Vec<SearchHit>>,
    ) -> bool {
        false
    }
}

/// One of several hooks, before the search. After a hook that asks to end the search no other
/// runs.
pub open spec fn step_prepares(
    hooks: Seq<Box<dyn SearchHook>>,
    i: int,
    before: Preparation,
    after: Preparation,
) -> bool {
    if i > 0 && before.ctx.abort {
        after == before
    } else {
        prepares::<dyn SearchHook>(&*hooks[i], before, after)
    }
}

/// Several hooks one after the other, before the search.
pub open spec fn all_prepare(
    hooks: Seq<Box<dyn SearchHook>>,
    count: int,
    before: Preparation,
    after: Preparation,
) -> bool
    decreases count,
{
    if count <= 0 {
        after == before
    } else {
        exists|mid: Preparation|
            all_prepare(hooks, count - 1, before, mid) && #[trigger] step_prepares(
                hooks,
                count - 1,
                mid,
                after,
            )
    }
}

/// One of several hooks, in place of the search. After an answer no other runs.
pub open spec fn step_recalls(
    hooks: Seq<Box<dyn SearchHook>>,
    i: int,
    query: Seq<u32>,
    config: SearchConfig,
    before: (HookContext, Option<Vec<SearchHit>>),
    after: (HookContext, Option<Vec<SearchHit>>),
) -> bool {
    if before.1 is Some {
        after == before
    } else {
        recalls::<dyn SearchHook>(&*hooks[i], query, config, before.0, after.0, after.1)
    }
}

/// Several hooks one after the other, in place of the search.
pub open spec fn all_recall(
    hooks: Seq<Box<dyn SearchHook>>,
    count: int,
    query: Seq<u32>,
    config: SearchConfig,
    before: HookContext,
    after: (HookContext, Option<Vec<SearchHit>>),
) -> bool
    decreases count,
{
    if count <= 0 {
        after == (before, None::<Vec<SearchHit>>)
    } else {
        exists|mid: (HookContext, Option<Vec<SearchHit>>)|
            all_recall(hooks, count - 1, query, config, before, mid) && #[trigger] step_recalls(
                hooks,
                count - 1,
                query,
                config,
                mid,
                after,
            )
    }
}

/// One of several hooks, on hits.
pub open spec fn step_changes(
    hooks: Seq<Box<dyn SearchHook>>,
    i: int,
    stage: HookStage,
    before: Candidates,
    after: Candidates,
) -> bool {
    alters::<dyn SearchHook>(&*hooks[i], stage, before, after)
}

/// Several hooks one after the other, on hits.
pub open spec fn all_change(
    hooks: Seq<Box<dyn SearchHook>>,
    count: int,
    stage: HookStage,
    before: Candidates,
    after: Candidates,
) -> bool
    decreases count,
{
    if count <= 0 {
        after == before
    } else {
        exists|mid: Candidates|
            all_change(hooks, count - 1, stage, before, mid) && #[trigger] step_changes(
                hooks,
                count - 1,
                stage,
                mid,
                after,
            )
    }
}

/// One of several hooks, on the results. After a ranking no other runs.
pub open spec fn step_reranks(
    hooks: Seq<Box<dyn SearchHook>>,
    i: int,
    before: (Candidates, Option<Vec<SearchHit>>),
    after: (Candidates, Option<Vec<SearchHit>>),
) -> bool {
    if before.1 is Some {
        after == before
    } else {
        reranks::<dyn SearchHook>(&*hooks[i], before.0, after.0, after.1)
    }
}

/// Several hooks one after the other, on the results.
pub open spec fn all_rerank(
    hooks: Seq<Box<dyn SearchHook>>,
    count: int,
    before: Candidates,
    after: (Candidates, Option<Vec<SearchHit>>),
) -> bool
    decreases count,
{
    if count <= 0 {
        after == (before, None::<Vec<SearchHit>>)
    } else {
        exists|mid: (Candidates, Option<Vec<SearchHit>>)|
            all_rerank(hooks, count - 1, before, mid) && #[trigger] step_reranks(
                hooks,
                count - 1,
                mid,
                after,
            )
    }
}

/// Whether there is a hook at a place.
pub open spec fn is_place(k: int, count: int) -> bool {
    0 <= k < count
}

/// Whether a call of a hook before the search may go like this, on what the references hold before
/// and after it.
#[verifier::inline]
pub open spec fn calls_pre_search<H: SearchHook + ?Sized>(
    hook: &H,
    query: &mut Vec<u32>,
    config: &mut SearchConfig,
    ctx: &mut HookContext,
) -> bool {
    call_ensures(H::on_pre_search, (hook, query, config, ctx), ())
}

/// Whether a call of a hook in place of the search may give this answer.
#[verifier::inline]
pub open spec fn calls_custom_recall<H: SearchHook + ?Sized>(
    hook: &H,
    query: &[u32],
    config: &SearchConfig,
    ctx: &mut HookContext,
    found: Option<Vec<SearchHit>>,
) -> bool {
    call_ensures(H::on_custom_recall, (hook, query, config, ctx), found)
}

/// Whether a call of a hook to rank the results may give this answer.
#[verifier::inline]
pub open spec fn calls_rerank<H: SearchHook + ?Sized>(
    hook: &H,
    hits: &mut Vec<SearchHit>,
    ctx: &mut HookContext,
    ranked: Option<Vec<SearchHit>>,
) -> bool {
    call_ensures(H::on_rerank, (hook, hits, ctx), ranked)
}

/// Whether a call of a hook on the candidates may go like this.
#[verifier::inline]
pub open spec fn calls_post_recall<H: SearchHook + ?Sized>(
    hook: &H,
    hits: &mut Vec<SearchHit>,
    ctx: &mut HookContext,
) -> bool {
    call_ensures(H::on_post_recall, (hook, hits, ctx), ())
}

/// Whether a call of a hook on the nodes from which the graph is expanded may go like this.
#[verifier::inline]
pub open spec fn calls_pre_graph_expand<H: SearchHook + ?Sized>(
    hook: &H,
    seeds: &mut Vec<SearchHit>,
    ctx: &mut HookContext,
) -> bool {
    call_ensures(H::on_pre_graph_expand, (hook, seeds, ctx), ())
}

/// Whether a call of a hook on the results may go like this.
#[verifier::inline]
pub open spec fn calls_post_search<H: SearchHook + ?Sized>(
    hook: &H,
    results: &mut Vec<SearchHit>,
    ctx: &mut HookContext,
) -> bool {
    call_ensures(H::on_post_search, (hook, results, ctx), ())
}

/// Calls a hook before the search.
pub(crate) fn run_pre_search<H: SearchHook + ?Sized>(
    hook: &H,
    query_vector: &mut Vec<u32>,
    config: &mut SearchConfig,
    ctx: &mut HookContext,
)
    ensures
        exists|q: &mut Vec<u32>, s: &mut SearchConfig, c: &mut HookContext| #[trigger]
            calls_pre_search(hook, q, s, c) && *q == *old(query_vector) && *s == *old(config) && *c
                == *old(ctx) && *final(q) == *final(query_vector) && *final(s) == *final(config)
                && *final(c) == *final(ctx),
        ({
            let before = Preparation {
                query: *old(query_vector),
                config: *old(config),
                ctx: *old(ctx),
            };
            let after = Preparation {
                query: *final(query_vector),
                config: *final(config),
                ctx: *final(ctx),
            };
            prepares(hook, before, after)
        }),
{
    hook.on_pre_search(query_vector, config, ctx);
}

/// Calls a hook in place of the search.
pub(crate) fn run_custom_recall<H: SearchHook + ?Sized>(
    hook: &H,
    query_vector: &[u32],
    config: &SearchConfig,
    ctx: &mut HookContext,
) -> (found: Option<Vec<SearchHit>>)
    ensures
        exists|c: &mut HookContext| #[trigger]
            calls_custom_recall(hook, query_vector, config, c, found) && *c == *old(ctx)
                && *final(c) == *final(ctx),
        recalls(hook, query_vector@, *config, *old(ctx), *final(ctx), found),
{
    hook.on_custom_recall(query_vector, config, ctx)
}

/// Calls a hook to rank the results.
pub(crate) fn run_rerank<H: SearchHook + ?Sized>(
    hook: &H,
    hits: &mut Vec<SearchHit>,
    ctx: &mut HookContext,
) -> (ranked: Option<Vec<SearchHit>>)
    ensures
        exists|h: &mut Vec<SearchHit>, c: &mut HookContext| #[trigger]
            calls_rerank(hook, h, c, ranked) && *h == *old(hits) && *c == *old(ctx) && *final(h)
                == *final(hits) && *final(c) == *final(ctx),
        ({
            let before = Candidates { hits: *old(hits), ctx: *old(ctx) };
            let after = Candidates { hits: *final(hits), ctx: *final(ctx) };
            reranks(hook, before, after, ranked)
        }),
{
    hook.on_rerank(hits, ctx)
}

/// Calls a hook on the candidates.
pub(crate) fn run_post_recall<H: SearchHook + ?Sized>(
    hook: &H,
    hits: &mut Vec<SearchHit>,
    ctx: &mut HookContext,
)
    ensures
        exists|h: &mut Vec<SearchHit>, c: &mut HookContext| #[trigger]
            calls_post_recall(hook, h, c) && *h == *old(hits) && *c == *old(ctx) && *final(h)
                == *final(hits) && *final(c) == *final(ctx),
        ({
            let before = Candidates { hits: *old(hits), ctx: *old(ctx) };
            let after = Candidates { hits: *final(hits), ctx: *final(ctx) };
            alters(hook, HookStage::PostRecall, before, after)
        }),
{
    hook.on_post_recall(hits, ctx);
}

/// Calls a hook on the nodes from which the graph is expanded.
pub(crate) fn run_pre_graph_expand<H: SearchHook + ?Sized>(
    hook: &H,
    seeds: &mut Vec<SearchHit>,
    ctx: &mut HookContext,
)
    ensures
        exists|h: &mut Vec<SearchHit>, c: &mut HookContext| #[trigger]
            calls_pre_graph_expand(hook, h, c) && *h == *old(seeds) && *c == *old(ctx) && *final(h)
                == *final(seeds) && *final(c) == *final(ctx),
        ({
            let before = Candidates { hits: *old(seeds), ctx: *old(ctx) };
            let after = Candidates { hits: *final(seeds), ctx: *final(ctx) };
            alters(hook, HookStage::PreGraphExpand, before, after)
        }),
{
    hook.on_pre_graph_expand(seeds, ctx);
}

/// Calls a hook on the results.
pub(crate) fn run_post_search<H: SearchHook + ?Sized>(
    hook: &H,
    results: &mut Vec<SearchHit>,
    ctx: &mut HookContext,
)
    ensures
        exists|h: &mut Vec<SearchHit>, c: &mut HookContext| #[trigger]
            calls_post_search(hook, h, c) && *h == *old(results) && *c == *old(ctx) && *final(h)
                == *final(results) && *final(c) == *final(ctx),
        ({
            let before = Candidates { hits: *old(results), ctx: *old(ctx) };
            let after = Candidates { hits: *final(results), ctx: *final(ctx) };
            alters(hook, HookStage::PostSearch, before, after)
        }),
{
    hook.on_post_search(results, ctx);
}

/// Several hooks that run one after the other, in the order in which they were added. Where a
/// stage can be answered, the first answer counts. Before the search, a hook that asks to end it
/// keeps the later ones from running.
pub struct CompositeHook {
    hooks: Vec<Box<dyn SearchHook>>,
}

impl CompositeHook {
    /// The hooks.
    pub closed spec fn members(&self) -> Seq<Box<dyn SearchHook>> {
        self.hooks@
    }

    /// No hooks.
    pub fn new() -> (hook: CompositeHook)
        ensures
            hook.members().len() == 0,
    {
        CompositeHook { hooks: Vec::new() }
    }

    /// Adds a hook at the end.
    pub fn add(&mut self, hook: Box<dyn SearchHook>)
        ensures
            final(self).members() == old(self).members().push(hook),
            final(self).members().len() == old(self).members().len() + 1,
            forall|i: int|
                0 <= i < old(self).members().len() ==> #[trigger] final(self).members()[i] == old(
                    self,
                ).members()[i],
    {
        let ghost before = self.hooks@;
        self.hooks.push(hook);
        proof {
            vstd::seq::axiom_seq_push_len(before, hook);
            assert forall|i: int| 0 <= i < before.len() implies #[trigger] self.hooks@[i]
                == before[i] by {
                vstd::seq::axiom_seq_push_index_different(before, hook, i);
            }
        }
    }
}

impl Default for CompositeHook {
    fn default() -> (hook: CompositeHook)
        ensures
            hook.members().len() == 0,
    {
        CompositeHook::new()
    }
}

impl SearchHook for CompositeHook {
    open spec fn may_prepare(&self, before: Preparation, after: Preparation) -> bool {
        all_prepare(self.members(), self.members().len() as int, before, after)
    }

    open spec fn may_recall(
        &self,
        query: Seq<u32>,
        config: SearchConfig,
        before: HookContext,
        after: HookContext,
        found: Option<Vec<SearchHit>>,
    ) -> bool {
        all_recall(
            self.members(),
            self.members().len() as int,
            query,
            config,
            before,
            (after, found),
        )
    }

    open spec fn may_change(
        &self,
        stage: HookStage,
        before: Candidates,
        after: Candidates,
    ) -> bool {
        all_change(self.members(), self.members().len() as int, stage, before, after)
    }

    open spec fn may_rerank(
        &self,
        before: Candidates,
        after: Candidates,
        ranked: Option<Vec<SearchHit>>,
    ) -> bool {
        all_rerank(
            self.members(),
            self.members().len() as int,
            before,
            (after, ranked),
        )
    }

    /// Calls the hooks in turn, each on what the one before it left, up to the first that asks to
    /// end the search.
    fn on_pre_search(
        &self,
        query_vector: &mut Vec<u32>,
        config: &mut SearchConfig,
        ctx: &mut HookContext,
    )
        ensures
            exists|states: Seq<Preparation>|
                {
                    let count = #[trigger] states.len() - 1;
                    &&& 0 <= count <= self.members().len()
                    &&& states[0] == (Preparation {
                        query: *old(query_vector),
                        config: *old(config),
                        ctx: *old(ctx),
                    })
                    &&& states.last() == (Preparation {
                        query: *final(query_vector),
                        config: *final(config),
                        ctx: *final(ctx),
                    })
                    &&& forall|k: int| 0 < k < count ==> !(#[trigger] states[k]).ctx.abort
                    &&& count < self.members().len() ==> count > 0 && states.last().ctx.abort
                    &&& forall|k: int| #[trigger]
                        is_place(k, count) ==> exists|
                            q: &mut Vec<u32>,
                            s: &mut SearchConfig,
                            c: &mut HookContext,
                        | #[trigger]
                            calls_pre_search::<dyn SearchHook>(&*self.members()[k], q, s, c) && *q
                                == states[k].query && *s == states[k].config && *c == states[k].ctx
                                && *final(q) == states[k + 1].query
                                && *final(s) == states[k + 1].config
                                && *final(c) == states[k + 1].ctx
                },
    {
        let ghost start = Preparation { query: *query_vector, config: *config, ctx: *ctx };
        let ghost mut states: Seq<Preparation> = seq![start];
        let mut i: usize = 0;
        while i < self.hooks.len()
            invariant
                i <= self.hooks@.len(),
                i > 0 ==> !ctx.abort,
                states.len() == i + 1,
                states[0] == start,
                states.last() == (Preparation {
                    query: *query_vector,
                    config: *config,
                    ctx: *ctx,
                }),
                forall|k: int| 0 < k <= i ==> !(#[trigger] states[k]).ctx.abort,
                forall|k: int| #[trigger]
                    is_place(k, i as int) ==> exists|
                        q: &mut Vec<u32>,
                        s: &mut SearchConfig,
                        c: &mut HookContext,
                    | #[trigger]
                        calls_pre_search::<dyn SearchHook>(&*self.hooks@[k], q, s, c) && *q
                            == states[k].query && *s == states[k].config && *c == states[k].ctx
                            && *final(q) == states[k + 1].query
                            && *final(s) == states[k + 1].config
                            && *final(c) == states[k + 1].ctx,
                start == (Preparation {
                    query: *old(query_vector),
                    config: *old(config),
                    ctx: *old(ctx),
                }),
                all_prepare(
                    self.hooks@,
                    i as int,
                    start,
                    (Preparation { query: *query_vector, config: *config, ctx: *ctx }),
                ),
            decreases self.hooks@.len() - i,
        {
            let ghost mid = Preparation { query: *query_vector, config: *config, ctx: *ctx };
            run_pre_search::<dyn SearchHook>(&*self.hooks[i], query_vector, config, ctx);
            proof {
                let after = Preparation { query: *query_vector, config: *config, ctx: *ctx };
                let before = states;
                states = before.push(after);
                assert forall|k: int| #[trigger]
                    is_place(k, i + 1) implies exists|
                        q: &mut Vec<u32>,
                        s: &mut SearchConfig,
                        c: &mut HookContext,
                    | #[trigger]
                        calls_pre_search::<dyn SearchHook>(&*self.hooks@[k], q, s, c) && *q
                            == states[k].query && *s == states[k].config && *c == states[k].ctx
                            && *final(q) == states[k + 1].query
                            && *final(s) == states[k + 1].config
                            && *final(c) == states[k + 1].ctx by {
                    assert(states[k] == before[k]);
                    if k < i {
                        assert(is_place(k, i as int));
                        assert(states[k + 1] == before[k + 1]);
                    }
                }
                assert forall|k: int| 0 < k <= i implies !(#[trigger] states[k]).ctx.abort by {
                    assert(states[k] == before[k]);
                }
                assert(step_prepares(self.hooks@, i + 1 - 1, mid, after));
                assert(all_prepare(self.hooks@, i + 1, start, after));
            }
            if ctx.abort {
                proof {
                    let after = Preparation { query: *query_vector, config: *config, ctx: *ctx };
                    lemma_ended(self.hooks@, start, after, i + 1, self.hooks@.len() as int);
                    assert(states.len() == i + 2);
                }
                return;
            }
            i += 1;
        }
        assert(states.len() == self.members().len() + 1);
    }

    /// Asks the hooks in turn, each with the context that the one before it left, up to the first
    /// that answers.
    fn on_custom_recall(
        &self,
        query_vector: &[u32],
        config: &SearchConfig,
        ctx: &mut HookContext,
    ) -> (found: Option<Vec<SearchHit>>)
        ensures
            exists|states: Seq<HookContext>|
                {
                    let count = #[trigger] states.len() - 1;
                    &&& 0 <= count <= self.members().len()
                    &&& states[0] == *old(ctx)
                    &&& states.last() == *final(ctx)
                    &&& found is Some ==> count > 0
                    &&& found is None ==> count == self.members().len()
                    &&& forall|k: int| #[trigger]
                        is_place(k, count) ==> exists|
                            c: &mut HookContext,
                            answer: Option<Vec<SearchHit>>,
                        | #[trigger]
                            calls_custom_recall::<dyn SearchHook>(
                                &*self.members()[k],
                                query_vector,
                                config,
                                c,
                                answer,
                            ) && *c == states[k] && *final(c) == states[k + 1]
                                && answer == (if k < count - 1 {
                                None
                            } else {
                                found
                            })
                },
    {
        let ghost start = *ctx;
        let ghost mut states: Seq<HookContext> = seq![start];
        let mut i: usize = 0;
        while i < self.hooks.len()
            invariant
                i <= self.hooks@.len(),
                states.len() == i + 1,
                states[0] == start,
                states.last() == *ctx,
                forall|k: int| #[trigger]
                    is_place(k, i as int) ==> exists|
                        c: &mut HookContext,
                        answer: Option<Vec<SearchHit>>,
                    | #[trigger]
                        calls_custom_recall::<dyn SearchHook>(
                            &*self.hooks@[k],
                            query_vector,
                            config,
                            c,
                            answer,
                        ) && *c == states[k] && *final(c) == states[k + 1] && answer is None,
                start == *old(ctx),
                all_recall(
                    self.hooks@,
                    i as int,
                    query_vector@,
                    *config,
                    start,
                    (*ctx, None),
                ),
            decreases self.hooks@.len() - i,
        {
            let ghost mid = *ctx;
            let found = run_custom_recall::<dyn SearchHook>(
                &*self.hooks[i],
                query_vector,
                config,
                ctx,
            );
            proof {
                let before = states;
                states = before.push(*ctx);
                assert forall|k: int| #[trigger]
                    is_place(k, i + 1) implies exists|
                        c: &mut HookContext,
                        answer: Option<Vec<SearchHit>>,
                    | #[trigger]
                        calls_custom_recall::<dyn SearchHook>(
                            &*self.hooks@[k],
                            query_vector,
                            config,
                            c,
                            answer,
                        ) && *c == states[k] && *final(c) == states[k + 1]
                            && answer == (if k < i {
                            None
                        } else {
                            found
                        }) by {
                    assert(states[k] == before[k]);
                    if k < i {
                        assert(is_place(k, i as int));
                        assert(states[k + 1] == before[k + 1]);
                    }
                }
                let asked = (mid, None::<Vec<SearchHit>>);
                assert(step_recalls(
                    self.hooks@,
                    i + 1 - 1,
                    query_vector@,
                    *config,
                    asked,
                    (*ctx, found),
                ));
                assert(all_recall(
                    self.hooks@,
                    i + 1,
                    query_vector@,
                    *config,
                    start,
                    (*ctx, found),
                ));
            }
            if found.is_some() {
                proof {
                    lemma_answered(
                        self.hooks@,
                        query_vector@,
                        *config,
                        start,
                        *ctx,
                        found,
                        i + 1,
                        self.hooks@.len() as int,
                    );
                    assert(states.len() == i + 2);
                }
                return found;
            }
            i += 1;
        }
        assert(states.len() == self.members().len() + 1);
        None
    }

    /// Calls every hook in turn, each on the candidates that the one before it left.
    fn on_post_recall(&self, hits: &mut Vec<SearchHit>, ctx: &mut HookContext)
        ensures
            exists|states: Seq<Candidates>|
                {
                    &&& #[trigger] states.len() == self.members().len() + 1
                    &&& states[0] == (Candidates { hits: *old(hits), ctx: *old(ctx) })
                    &&& states.last() == (Candidates { hits: *final(hits), ctx: *final(ctx) })
                    &&& forall|k: int| #[trigger]
                        is_place(k, self.members().len() as int) ==> exists|
                            h: &mut Vec<SearchHit>,
                            c: &mut HookContext,
                        | #[trigger]
                            calls_post_recall::<dyn SearchHook>(&*self.members()[k], h, c) && *h
                                == states[k].hits && *c == states[k].ctx
                                && *final(h) == states[k + 1].hits
                                && *final(c) == states[k + 1].ctx
                },
    {
        let ghost start = Candidates { hits: *hits, ctx: *ctx };
        let ghost mut states: Seq<Candidates> = seq![start];
        let mut i: usize = 0;
        while i < self.hooks.len()
            invariant
                i <= self.hooks@.len(),
                start == (Candidates { hits: *old(hits), ctx: *old(ctx) }),
                states.len() == i + 1,
                states[0] == start,
                states.last() == (Candidates { hits: *hits, ctx: *ctx }),
                forall|k: int| #[trigger]
                    is_place(k, i as int) ==> exists|
                        h: &mut Vec<SearchHit>,
                        c: &mut HookContext,
                    | #[trigger]
                        calls_post_recall::<dyn SearchHook>(&*self.hooks@[k], h, c) && *h
                            == states[k].hits && *c == states[k].ctx
                            && *final(h) == states[k + 1].hits
                            && *final(c) == states[k + 1].ctx,
                all_change(
                    self.hooks@,
                    i as int,
                    HookStage::PostRecall,
                    start,
                    (Candidates { hits: *hits, ctx: *ctx }),
                ),
            decreases self.hooks@.len() - i,
        {
            let ghost mid = Candidates { hits: *hits, ctx: *ctx };
            run_post_recall::<dyn SearchHook>(&*self.hooks[i], hits, ctx);
            proof {
                let after = Candidates { hits: *hits, ctx: *ctx };
                let before = states;
                states = before.push(after);
                assert forall|k: int| #[trigger]
                    is_place(k, i + 1) implies exists|
                        h: &mut Vec<SearchHit>,
                        c: &mut HookContext,
                    | #[trigger]
                        calls_post_recall::<dyn SearchHook>(&*self.hooks@[k], h, c) && *h
                            == states[k].hits && *c == states[k].ctx
                            && *final(h) == states[k + 1].hits
                            && *final(c) == states[k + 1].ctx by {
                    assert(states[k] == before[k]);
                    if k < i {
                        assert(is_place(k, i as int));
                        assert(states[k + 1] == before[k + 1]);
                    }
                }
                assert(step_changes(self.hooks@, i as int, HookStage::PostRecall, mid, after));
                lemma_changed(self.hooks@, HookStage::PostRecall, start, mid, after, i as int);
            }
            i += 1;
        }
        assert(states.len() == self.members().len() + 1);
    }

    /// Calls every hook in turn, each on the nodes that the one before it left.
    fn on_pre_graph_expand(&self, seeds: &mut Vec<SearchHit>, ctx: &mut HookContext)
        ensures
            exists|states: Seq<Candidates>|
                {
                    &&& #[trigger] states.len() == self.members().len() + 1
                    &&& states[0] == (Candidates { hits: *old(seeds), ctx: *old(ctx) })
                    &&& states.last() == (Candidates { hits: *final(seeds), ctx: *final(ctx) })
                    &&& forall|k: int| #[trigger]
                        is_place(k, self.members().len() as int) ==> exists|
                            h: &mut Vec<SearchHit>,
                            c: &mut HookContext,
                        | #[trigger]
                            calls_pre_graph_expand::<dyn SearchHook>(&*self.members()[k], h, c) && *h
                                == states[k].hits && *c == states[k].ctx
                                && *final(h) == states[k + 1].hits
                                && *final(c) == states[k + 1].ctx
                },
    {
        let ghost start = Candidates { hits: *seeds, ctx: *ctx };
        let ghost mut states: Seq<Candidates> = seq![start];
        let mut i: usize = 0;
        while i < self.hooks.len()
            invariant
                i <= self.hooks@.len(),
                start == (Candidates { hits: *old(seeds), ctx: *old(ctx) }),
                states.len() == i + 1,
                states[0] == start,
                states.last() == (Candidates { hits: *seeds, ctx: *ctx }),
                forall|k: int| #[trigger]
                    is_place(k, i as int) ==> exists|
                        h: &mut Vec<SearchHit>,
                        c: &mut HookContext,
                    | #[trigger]
                        calls_pre_graph_expand::<dyn SearchHook>(&*self.hooks@[k], h, c) && *h
                            == states[k].hits && *c == states[k].ctx
                            && *final(h) == states[k + 1].hits
                            && *final(c) == states[k + 1].ctx,
                all_change(
                    self.hooks@,
                    i as int,
                    HookStage::PreGraphExpand,
                    start,
                    (Candidates { hits: *seeds, ctx: *ctx }),
                ),
            decreases self.hooks@.len() - i,
        {
            let ghost mid = Candidates { hits: *seeds, ctx: *ctx };
            run_pre_graph_expand::<dyn SearchHook>(&*self.hooks[i], seeds, ctx);
            proof {
                let after = Candidates { hits: *seeds, ctx: *ctx };
                let before = states;
                states = before.push(after);
                assert forall|k: int| #[trigger]
                    is_place(k, i + 1) implies exists|
                        h: &mut Vec<SearchHit>,
                        c: &mut HookContext,
                    | #[trigger]
                        calls_pre_graph_expand::<dyn SearchHook>(&*self.hooks@[k], h, c) && *h
                            == states[k].hits && *c == states[k].ctx
                            && *final(h) == states[k + 1].hits
                            && *final(c) == states[k + 1].ctx by {
                    assert(states[k] == before[k]);
                    if k < i {
                        assert(is_place(k, i as int));
                        assert(states[k + 1] == before[k + 1]);
                    }
                }
                assert(step_changes(self.hooks@, i as int, HookStage::PreGraphExpand, mid, after));
                lemma_changed(self.hooks@, HookStage::PreGraphExpand, start, mid, after, i as int);
            }
            i += 1;
        }
        assert(states.len() == self.members().len() + 1);
    }

    /// Asks the hooks in turn, each with the results that the one before it left, up to the first
    /// that answers.
    fn on_rerank(&self, hits: &mut Vec<SearchHit>, ctx: &mut HookContext) -> (ranked: Option<
        Vec<SearchHit>,
    >)
        ensures
            exists|states: Seq<Candidates>|
                {
                    let count = #[trigger] states.len() - 1;
                    &&& 0 <= count <= self.members().len()
                    &&& states[0] == (Candidates { hits: *old(hits), ctx: *old(ctx) })
                    &&& states.last() == (Candidates { hits: *final(hits), ctx: *final(ctx) })
                    &&& ranked is Some ==> count > 0
                    &&& ranked is None ==> count == self.members().len()
                    &&& forall|k: int| #[trigger]
                        is_place(k, count) ==> exists|
                            h: &mut Vec<SearchHit>,
                            c: &mut HookContext,
                            answer: Option<Vec<SearchHit>>,
                        | #[trigger]
                            calls_rerank::<dyn SearchHook>(
                                &*self.members()[k],
                                h,
                                c,
                                answer,
                            ) && *h == states[k].hits && *c == states[k].ctx
                                && *final(h) == states[k + 1].hits
                                && *final(c) == states[k + 1].ctx && answer == (if k < count - 1 {
                                None
                            } else {
                                ranked
                            })
                },
    {
        let ghost start = Candidates { hits: *hits, ctx: *ctx };
        let ghost mut states: Seq<Candidates> = seq![start];
        let mut i: usize = 0;
        while i < self.hooks.len()
            invariant
                i <= self.hooks@.len(),
                states.len() == i + 1,
                states[0] == start,
                states.last() == (Candidates { hits: *hits, ctx: *ctx }),
                forall|k: int| #[trigger]
                    is_place(k, i as int) ==> exists|
                        h: &mut Vec<SearchHit>,
                        c: &mut HookContext,
                        answer: Option<Vec<SearchHit>>,
                    | #[trigger]
                        calls_rerank::<dyn SearchHook>(
                            &*self.hooks@[k],
                            h,
                            c,
                            answer,
                        ) && *h == states[k].hits && *c == states[k].ctx
                            && *final(h) == states[k + 1].hits
                            && *final(c) == states[k + 1].ctx && answer is None,
                start == (Candidates { hits: *old(hits), ctx: *old(ctx) }),
                all_rerank(
                    self.hooks@,
                    i as int,
                    start,
                    (Candidates { hits: *hits, ctx: *ctx }, None),
                ),
            decreases self.hooks@.len() - i,
        {
            let ghost mid = Candidates { hits: *hits, ctx: *ctx };
            let ranked = run_rerank::<dyn SearchHook>(&*self.hooks[i], hits, ctx);
            proof {
                let after = Candidates { hits: *hits, ctx: *ctx };
                let before = states;
                states = before.push(after);
                assert forall|k: int| #[trigger]
                    is_place(k, i + 1) implies exists|
                        h: &mut Vec<SearchHit>,
                        c: &mut HookContext,
                        answer: Option<Vec<SearchHit>>,
                    | #[trigger]
                        calls_rerank::<dyn SearchHook>(
                            &*self.hooks@[k],
                            h,
                            c,
                            answer,
                        ) && *h == states[k].hits && *c == states[k].ctx
                            && *final(h) == states[k + 1].hits
                            && *final(c) == states[k + 1].ctx && answer == (if k < i {
                            None
                        } else {
                            ranked
                        }) by {
                    assert(states[k] == before[k]);
                    if k < i {
                        assert(is_place(k, i as int));
                        assert(states[k + 1] == before[k + 1]);
                    }
                }
                let asked = (mid, None::<Vec<SearchHit>>);
                assert(step_reranks(self.hooks@, i + 1 - 1, asked, (after, ranked)));
                assert(all_rerank(self.hooks@, i + 1, start, (after, ranked)));
            }
            if ranked.is_some() {
                proof {
                    let after = Candidates { hits: *hits, ctx: *ctx };
                    lemma_ranked(
                        self.hooks@,
                        start,
                        after,
                        ranked,
                        i + 1,
                        self.hooks@.len() as int,
                    );
                    assert(states.len() == i + 2);
                }
                return ranked;
            }
            i += 1;
        }
        assert(states.len() == self.members().len() + 1);
        None
    }

    /// Calls every hook in turn, each on the results that the one before it left.
    fn on_post_search(&self, results: &mut Vec<SearchHit>, ctx: &mut HookContext)
        ensures
            exists|states: Seq<Candidates>|
                {
                    &&& #[trigger] states.len() == self.members().len() + 1
                    &&& states[0] == (Candidates { hits: *old(results), ctx: *old(ctx) })
                    &&& states.last() == (Candidates { hits: *final(results), ctx: *final(ctx) })
                    &&& forall|k: int| #[trigger]
                        is_place(k, self.members().len() as int) ==> exists|
                            h: &mut Vec<SearchHit>,
                            c: &mut HookContext,
                        | #[trigger]
                            calls_post_search::<dyn SearchHook>(&*self.members()[k], h, c) && *h
                                == states[k].hits && *c == states[k].ctx
                                && *final(h) == states[k + 1].hits
                                && *final(c) == states[k + 1].ctx
                },
    {
        let ghost start = Candidates { hits: *results, ctx: *ctx };
        let ghost mut states: Seq<Candidates> = seq![start];
        let mut i: usize = 0;
        while i < self.hooks.len()
            invariant
                i <= self.hooks@.len(),
                start == (Candidates { hits: *old(results), ctx: *old(ctx) }),
                states.len() == i + 1,
                states[0] == start,
                states.last() == (Candidates { hits: *results, ctx: *ctx }),
                forall|k: int| #[trigger]
                    is_place(k, i as int) ==> exists|
                        h: &mut Vec<SearchHit>,
                        c: &mut HookContext,
                    | #[trigger]
                        calls_post_search::<dyn SearchHook>(&*self.hooks@[k], h, c) && *h
                            == states[k].hits && *c == states[k].ctx
                            && *final(h) == states[k + 1].hits
                            && *final(c) == states[k + 1].ctx,
                all_change(
                    self.hooks@,
                    i as int,
                    HookStage::PostSearch,
                    start,
                    (Candidates { hits: *results, ctx: *ctx }),
                ),
            decreases self.hooks@.len() - i,
        {
            let ghost mid = Candidates { hits: *results, ctx: *ctx };
            run_post_search::<dyn SearchHook>(&*self.hooks[i], results, ctx);
            proof {
                let after = Candidates { hits: *results, ctx: *ctx };
                let before = states;
                states = before.push(after);
                assert forall|k: int| #[trigger]
                    is_place(k, i + 1) implies exists|
                        h: &mut Vec<SearchHit>,
                        c: &mut HookContext,
                    | #[trigger]
                        calls_post_search::<dyn SearchHook>(&*self.hooks@[k], h, c) && *h
                            == states[k].hits && *c == states[k].ctx
                            && *final(h) == states[k + 1].hits
                            && *final(c) == states[k + 1].ctx by {
                    assert(states[k] == before[k]);
                    if k < i {
                        assert(is_place(k, i as int));
                        assert(states[k + 1] == before[k + 1]);
                    }
                }
                assert(step_changes(self.hooks@, i as int, HookStage::PostSearch, mid, after));
                lemma_changed(self.hooks@, HookStage::PostSearch, start, mid, after, i as int);
            }
            i += 1;
        }
        assert(states.len() == self.members().len() + 1);
    }
}

/// One more hook on hits.
proof fn lemma_changed(
    hooks: Seq<Box<dyn SearchHook>>,
    stage: HookStage,
    start: Candidates,
    mid: Candidates,
    after: Candidates,
    i: int,
)
    requires
        0 <= i < hooks.len(),
        all_change(hooks, i, stage, start, mid),
        step_changes(hooks, i, stage, mid, after),
    ensures
        all_change(hooks, i + 1, stage, start, after),
{
    assert(step_changes(hooks, i + 1 - 1, stage, mid, after));
}

/// After the search has been ended the other hooks do not run.
proof fn lemma_ended(
    hooks: Seq<Box<dyn SearchHook>>,
    start: Preparation,
    after: Preparation,
    count: int,
    all: int,
)
    requires
        0 < count <= all,
        after.ctx.abort,
        all_prepare(hooks, count, start, after),
    ensures
        all_prepare(hooks, all, start, after),
    decreases all - count,
{
    if count < all {
        assert(step_prepares(hooks, count + 1 - 1, after, after));
        assert(all_prepare(hooks, count + 1, start, after));
        lemma_ended(hooks, start, after, count + 1, all);
    }
}

/// After an answer the other hooks do not run.
proof fn lemma_answered(
    hooks: Seq<Box<dyn SearchHook>>,
    query: Seq<u32>,
    config: SearchConfig,
    start: HookContext,
    after: HookContext,
    found: Option<Vec<SearchHit>>,
    count: int,
    all: int,
)
    requires
        0 < count <= all,
        found is Some,
        all_recall(hooks, count, query, config, start, (after, found)),
    ensures
        all_recall(hooks, all, query, config, start, (after, found)),
    decreases all - count,
{
    if count < all {
        let answer = (after, found);
        assert(step_recalls(hooks, count + 1 - 1, query, config, answer, answer));
        assert(all_recall(hooks, count + 1, query, config, start, answer));
        lemma_answered(hooks, query, config, start, after, found, count + 1, all);
    }
}

/// After a ranking the other hooks do not run.
proof fn lemma_ranked(
    hooks: Seq<Box<dyn SearchHook>>,
    start: Candidates,
    after: Candidates,
    ranked: Option<Vec<SearchHit>>,
    count: int,
    all: int,
)
    requires
        0 < count <= all,
        ranked is Some,
        all_rerank(hooks, count, start, (after, ranked)),
    ensures
        all_rerank(hooks, all, start, (after, ranked)),
    decreases all - count,
{
    if count < all {
        let answer = (after, ranked);
        assert(step_reranks(hooks, count + 1 - 1, answer, answer));
        assert(all_rerank(hooks, count + 1, start, answer));
        lemma_ranked(hooks, start, after, ranked, count + 1, all);
    }
}

/// A hook that does nothing leaves the query, the settings and the context as they are, and answers
/// nothing.
pub proof fn law_noop_prepares_and_recalls(
    before: Preparation,
    after: Preparation,
    found: Option<Vec<SearchHit>>,
)
    ensures
        prepares(&NoopHook, before, after) <==> after == before,
        recalls(&NoopHook, before.query@, before.config, before.ctx, after.ctx, found)
            <==> found is None && after.ctx == before.ctx,
{
}

/// A hook that does nothing leaves hits as they are, and ranks nothing.
pub proof fn law_noop_changes_nothing(
    stage: HookStage,
    before: Candidates,
    after: Candidates,
    ranked: Option<Vec<SearchHit>>,
)
    ensures
        alters(&NoopHook, stage, before, after) <==> after == before,
        reranks(&NoopHook, before, after, ranked) <==> ranked is None && after == before,
{
}

/// Hooks in a row without any hook do nothing.
pub proof fn law_empty_composite_changes_nothing(
    hook: CompositeHook,
    stage: HookStage,
    prepared: (Preparation, Preparation),
    before: Candidates,
    after: Candidates,
    answer: Option<Vec<SearchHit>>,
)
    requires
        hook.members().len() == 0,
    ensures
        prepares(&hook, prepared.0, prepared.1) <==> prepared.1 == prepared.0,
        recalls(
            &hook,
            prepared.0.query@,
            prepared.0.config,
            before.ctx,
            after.ctx,
            answer,
        ) <==> answer is None && after.ctx == before.ctx,
        alters(&hook, stage, before, after) <==> after == before,
        reranks(&hook, before, after, answer) <==> answer is None && after == before,
{
}

/// The hits among the first `count` entries that a loaded library wrote: those with an identifier,
/// without payload.
pub open spec fn foreign_hits(buffer: Seq<Scored>, count: int) -> Seq<HitView>
    decreases count,
{
    if count <= 0 {
        Seq::empty()
    } else {
        let before = foreign_hits(buffer, count - 1);
        let entry = buffer[count - 1];
        if entry.id != 0 {
            before.push(
                HitView { id: entry.id, score: entry.score, payload: Payload::spec_null() },
            )
        } else {
            before
        }
    }
}

/// What a recall function of a loaded library found: nothing where it reports a failure, otherwise
/// the entries that it wrote, as far as the buffer reaches.
pub fn accept_foreign_recall(status: i32, buffer: &Vec<Scored>, count: usize) -> (found: Option<
    Vec<SearchHit>,
>)
    ensures
        found is Some <==> status == 0,
        found matches Some(hits) ==> views(hits@) == foreign_hits(
            buffer@,
            if count <= buffer@.len() {
                count as int
            } else {
                buffer@.len() as int
            },
        ),
{
    if status != 0 {
        return None;
    }
    let limit: usize = if count <= buffer.len() {
        count
    } else {
        buffer.len()
    };
    let mut hits: Vec<SearchHit> = Vec::new();
    assert(views(hits@) =~= Seq::<HitView>::empty());
    let mut i: usize = 0;
    while i < limit
        invariant
            i <= limit <= buffer@.len(),
            views(hits@) == foreign_hits(buffer@, i as int),
        decreases limit - i,
    {
        let entry = buffer[i];
        if entry.id != 0 {
            let ghost before = hits@;
            let hit = SearchHit { id: entry.id, score: entry.score, payload: Payload::null() };
            hits.push(hit);
            assert(views(hits@) =~= views(before).push(hit@));
        }
        i += 1;
    }
    Some(hits)
}

/// A hit that is ranked by the value of its score alone.
#[derive(Debug)]
struct Rescored {
    hit: SearchHit,
}

impl View for Rescored {
    type V = HitView;

    closed spec fn view(&self) -> HitView {
        self.hit@
    }
}

/// Whether a hit has a greater score than another.
pub open spec fn scores_higher(a: HitView, b: HitView) -> bool {
    f32_value_key(a.score) > f32_value_key(b.score)
}

/// The value of a number as an integer that orders numbers.
fn value_rank(bits: u32) -> (rank: i64)
    ensures
        rank == f32_value_key(bits),
{
    if bits < F32_SIGN {
        bits as i64
    } else {
        F32_SIGN as i64 - bits as i64
    }
}

impl SortItem for Rescored {
    closed spec fn goes_before(a: HitView, b: HitView) -> bool {
        scores_higher(a, b)
    }

    proof fn lemma_order(a: HitView, b: HitView, c: HitView) {
    }

    fn is_before(&self, other: &Rescored) -> (result: bool) {
        value_rank(self.hit.score) > value_rank(other.hit.score)
    }
}

/// Hits with other scores.
pub open spec fn rescored(hits: Seq<HitView>, scores: Seq<u32>) -> Seq<HitView> {
    Seq::new(hits.len(), |i: int| HitView { score: scores[i], ..hits[i] })
}

/// What a rerank function of a loaded library made of the hits: nothing where it reports a
/// failure, otherwise the hits with the scores that it wrote, the greatest first. Hits with the
/// same score keep their order.
pub fn accept_foreign_rerank(status: i32, hits: &Vec<SearchHit>, scores: &Vec<u32>) -> (ranked:
    Option<Vec<SearchHit>>)
    requires
        scores@.len() == hits@.len(),
    ensures
        ranked is Some <==> status == 0,
        ranked matches Some(list) ==> views(list@) == sorted(
            rescored(views(hits@), scores@),
            |a: HitView, b: HitView| scores_higher(a, b),
        ),
{
    if status != 0 {
        return None;
    }
    let mut items: Vec<Rescored> = Vec::new();
    let mut i: usize = 0;
    while i < hits.len()
        invariant
            i <= hits@.len(),
            scores@.len() == hits@.len(),
            items@.len() == i,
            forall|k: int|
                0 <= k < i ==> (#[trigger] items@[k])@ == rescored(views(hits@), scores@)[k],
        decreases hits@.len() - i,
    {
        let mut hit = hits[i].duplicate();
        hit.score = scores[i];
        items.push(Rescored { hit });
        i += 1;
    }
    proof {
        assert(views(items@) =~= rescored(views(hits@), scores@));
        assert(order_of::<Rescored>() =~= |a: HitView, b: HitView| scores_higher(a, b));
    }
    let ranked = sort_items(items);
    let ghost expected = views(ranked@);
    let mut list: Vec<SearchHit> = Vec::new();
    for item in iter: ranked
        invariant
            views(iter.seq()) == expected,
            list@.len() == iter.index(),
            forall|k: int| 0 <= k < list@.len() ==> (#[trigger] list@[k])@ == expected[k],
    {
        assert(expected[iter.index()] == item@);
        list.push(item.hit);
    }
    assert(views(list@) =~= expected);
    Some(list)
}

/// After a hook was added, the composite acts as it did before, followed by that hook, the last of
/// its members. Before the search the hook does not run where one before it asked to end the
/// search. Where an earlier hook gave an answer in place of the search, or a ranking, that stands
/// and the hook is not asked.
pub proof fn law_added_hook_comes_last(
    old_hook: CompositeHook,
    new_hook: CompositeHook,
    hook: Box<dyn SearchHook>,
)
    requires
        new_hook.members() == old_hook.members().push(hook),
    ensures
        forall|before: Preparation, after: Preparation| #[trigger]
            new_hook.may_prepare(before, after) <==> exists|mid: Preparation| #[trigger]
                old_hook.may_prepare(before, mid) && if old_hook.members().len() > 0
                    && mid.ctx.abort {
                    after == mid
                } else {
                    prepares::<dyn SearchHook>(
                        &*new_hook.members()[old_hook.members().len() as int],
                        mid,
                        after,
                    )
                },
        forall|
            query: Seq<u32>,
            config: SearchConfig,
            before: HookContext,
            after: HookContext,
            found: Option<Vec<SearchHit>>,
        | #[trigger]
            new_hook.may_recall(query, config, before, after, found) <==> exists|
                mid: HookContext,
                earlier: Option<Vec<SearchHit>>,
            | #[trigger]
                old_hook.may_recall(query, config, before, mid, earlier) && if earlier is Some {
                    after == mid && found == earlier
                } else {
                    recalls::<dyn SearchHook>(
                        &*new_hook.members()[old_hook.members().len() as int],
                        query,
                        config,
                        mid,
                        after,
                        found,
                    )
                },
        forall|stage: HookStage, before: Candidates, after: Candidates| #[trigger]
            new_hook.may_change(stage, before, after) <==> exists|mid: Candidates| #[trigger]
                old_hook.may_change(stage, before, mid) && alters::<dyn SearchHook>(
                    &*new_hook.members()[old_hook.members().len() as int],
                    stage,
                    mid,
                    after,
                ),
        forall|before: Candidates, after: Candidates, ranked: Option<Vec<SearchHit>>| #[trigger]
            new_hook.may_rerank(before, after, ranked) <==> exists|
                mid: Candidates,
                earlier: Option<Vec<SearchHit>>,
            | #[trigger]
                old_hook.may_rerank(before, mid, earlier) && if earlier is Some {
                    after == mid && ranked == earlier
                } else {
                    reranks::<dyn SearchHook>(
                        &*new_hook.members()[old_hook.members().len() as int],
                        mid,
                        after,
                        ranked,
                    )
                },
{
    let few = old_hook.members();
    let more = new_hook.members();
    let n = few.len() as int;
    vstd::seq::axiom_seq_push_len(few, hook);
    assert forall|i: int| 0 <= i < n implies #[trigger] more[i] == few[i] by {
        vstd::seq::axiom_seq_push_index_different(few, hook, i);
    }
    assert forall|before: Preparation, after: Preparation| #[trigger]
        new_hook.may_prepare(before, after) <==> exists|mid: Preparation| #[trigger]
            old_hook.may_prepare(before, mid) && if n > 0 && mid.ctx.abort {
                after == mid
            } else {
                prepares::<dyn SearchHook>(&*more[n], mid, after)
            } by {
        assert forall|mid: Preparation| all_prepare(more, n, before, mid) == all_prepare(
            few,
            n,
            before,
            mid,
        ) by {
            lemma_same_prepare(few, more, n, before, mid);
        }
        if new_hook.may_prepare(before, after) {
            let mid = choose|mid: Preparation|
                all_prepare(more, n, before, mid) && #[trigger] step_prepares(more, n, mid, after);
            assert(old_hook.may_prepare(before, mid));
        }
        if exists|mid: Preparation| #[trigger]
            old_hook.may_prepare(before, mid) && if n > 0 && mid.ctx.abort {
                after == mid
            } else {
                prepares::<dyn SearchHook>(&*more[n], mid, after)
            } {
            let mid = choose|mid: Preparation| #[trigger]
                old_hook.may_prepare(before, mid) && if n > 0 && mid.ctx.abort {
                    after == mid
                } else {
                    prepares::<dyn SearchHook>(&*more[n], mid, after)
                };
            assert(step_prepares(more, n + 1 - 1, mid, after));
            assert(all_prepare(more, n + 1, before, after));
        }
    }
    assert forall|
        query: Seq<u32>,
        config: SearchConfig,
        before: HookContext,
        after: HookContext,
        found: Option<Vec<SearchHit>>,
    | #[trigger]
        new_hook.may_recall(query, config, before, after, found) <==> exists|
            mid: HookContext,
            earlier: Option<Vec<SearchHit>>,
        | #[trigger]
            old_hook.may_recall(query, config, before, mid, earlier) && if earlier is Some {
                after == mid && found == earlier
            } else {
                recalls::<dyn SearchHook>(&*more[n], query, config, mid, after, found)
            } by {
        assert forall|mid: (HookContext, Option<Vec<SearchHit>>)|
            all_recall(more, n, query, config, before, mid) == all_recall(
                few,
                n,
                query,
                config,
                before,
                mid,
            ) by {
            lemma_same_recall(few, more, n, query, config, before, mid);
        }
        if new_hook.may_recall(query, config, before, after, found) {
            let mid = choose|mid: (HookContext, Option<Vec<SearchHit>>)|
                all_recall(more, n, query, config, before, mid) && #[trigger] step_recalls(
                    more,
                    n,
                    query,
                    config,
                    mid,
                    (after, found),
                );
            assert(old_hook.may_recall(query, config, before, mid.0, mid.1));
        }
        if exists|mid: HookContext, earlier: Option<Vec<SearchHit>>| #[trigger]
            old_hook.may_recall(query, config, before, mid, earlier) && if earlier is Some {
                after == mid && found == earlier
            } else {
                recalls::<dyn SearchHook>(&*more[n], query, config, mid, after, found)
            } {
            let (mid, earlier) = choose|mid: HookContext, earlier: Option<Vec<SearchHit>>| #[trigger]
                old_hook.may_recall(query, config, before, mid, earlier) && if earlier is Some {
                    after == mid && found == earlier
                } else {
                    recalls::<dyn SearchHook>(&*more[n], query, config, mid, after, found)
                };
            assert(step_recalls(more, n + 1 - 1, query, config, (mid, earlier), (after, found)));
            assert(all_recall(more, n + 1, query, config, before, (after, found)));
        }
    }
    assert forall|stage: HookStage, before: Candidates, after: Candidates| #[trigger]
        new_hook.may_change(stage, before, after) <==> exists|mid: Candidates| #[trigger]
            old_hook.may_change(stage, before, mid) && alters::<dyn SearchHook>(
                &*more[n],
                stage,
                mid,
                after,
            ) by {
        assert forall|mid: Candidates| all_change(more, n, stage, before, mid) == all_change(
            few,
            n,
            stage,
            before,
            mid,
        ) by {
            lemma_same_change(few, more, n, stage, before, mid);
        }
        if new_hook.may_change(stage, before, after) {
            let mid = choose|mid: Candidates|
                all_change(more, n, stage, before, mid) && #[trigger] step_changes(
                    more,
                    n,
                    stage,
                    mid,
                    after,
                );
            assert(old_hook.may_change(stage, before, mid));
        }
        if exists|mid: Candidates| #[trigger]
            old_hook.may_change(stage, before, mid) && alters::<dyn SearchHook>(
                &*more[n],
                stage,
                mid,
                after,
            ) {
            let mid = choose|mid: Candidates| #[trigger]
                old_hook.may_change(stage, before, mid) && alters::<dyn SearchHook>(
                    &*more[n],
                    stage,
                    mid,
                    after,
                );
            assert(step_changes(more, n + 1 - 1, stage, mid, after));
            assert(all_change(more, n + 1, stage, before, after));
        }
    }
    assert forall|before: Candidates, after: Candidates, ranked: Option<Vec<SearchHit>>| #[trigger]
        new_hook.may_rerank(before, after, ranked) <==> exists|
            mid: Candidates,
            earlier: Option<Vec<SearchHit>>,
        | #[trigger]
            old_hook.may_rerank(before, mid, earlier) && if earlier is Some {
                after == mid && ranked == earlier
            } else {
                reranks::<dyn SearchHook>(&*more[n], mid, after, ranked)
            } by {
        assert forall|mid: (Candidates, Option<Vec<SearchHit>>)|
            all_rerank(more, n, before, mid) == all_rerank(few, n, before, mid) by {
            lemma_same_rerank(few, more, n, before, mid);
        }
        if new_hook.may_rerank(before, after, ranked) {
            let mid = choose|mid: (Candidates, Option<Vec<SearchHit>>)|
                all_rerank(more, n, before, mid) && #[trigger] step_reranks(
                    more,
                    n,
                    mid,
                    (after, ranked),
                );
            assert(old_hook.may_rerank(before, mid.0, mid.1));
        }
        if exists|mid: Candidates, earlier: Option<Vec<SearchHit>>| #[trigger]
            old_hook.may_rerank(before, mid, earlier) && if earlier is Some {
                after == mid && ranked == earlier
            } else {
                reranks::<dyn SearchHook>(&*more[n], mid, after, ranked)
            } {
            let (mid, earlier) = choose|mid: Candidates, earlier: Option<Vec<SearchHit>>| #[trigger]
                old_hook.may_rerank(before, mid, earlier) && if earlier is Some {
                    after == mid && ranked == earlier
                } else {
                    reranks::<dyn SearchHook>(&*more[n], mid, after, ranked)
                };
            assert(step_reranks(more, n + 1 - 1, (mid, earlier), (after, ranked)));
            assert(all_rerank(more, n + 1, before, (after, ranked)));
        }
    }
}

/// The first of several hooks act alike in a longer list, before the search.
proof fn lemma_same_prepare(
    few: Seq<Box<dyn SearchHook>>,
    more: Seq<Box<dyn SearchHook>>,
    count: int,
    before: Preparation,
    after: Preparation,
)
    requires
        count <= few.len() <= more.len(),
        forall|i: int| 0 <= i < few.len() ==> #[trigger] more[i] == few[i],
    ensures
        all_prepare(more, count, before, after) == all_prepare(few, count, before, after),
    decreases count,
{
    if count > 0 {
        assert(more[count - 1] == few[count - 1]);
        if all_prepare(more, count, before, after) {
            let mid = choose|mid: Preparation|
                all_prepare(more, count - 1, before, mid) && #[trigger] step_prepares(
                    more,
                    count - 1,
                    mid,
                    after,
                );
            lemma_same_prepare(few, more, count - 1, before, mid);
            assert(step_prepares(few, count - 1, mid, after));
        }
        if all_prepare(few, count, before, after) {
            let mid = choose|mid: Preparation|
                all_prepare(few, count - 1, before, mid) && #[trigger] step_prepares(
                    few,
                    count - 1,
                    mid,
                    after,
                );
            lemma_same_prepare(few, more, count - 1, before, mid);
            assert(step_prepares(more, count - 1, mid, after));
        }
    }
}

/// The first of several hooks act alike in a longer list, in place of the search.
proof fn lemma_same_recall(
    few: Seq<Box<dyn SearchHook>>,
    more: Seq<Box<dyn SearchHook>>,
    count: int,
    query: Seq<u32>,
    config: SearchConfig,
    before: HookContext,
    after: (HookContext, Option<Vec<SearchHit>>),
)
    requires
        count <= few.len() <= more.len(),
        forall|i: int| 0 <= i < few.len() ==> #[trigger] more[i] == few[i],
    ensures
        all_recall(more, count, query, config, before, after) == all_recall(
            few,
            count,
            query,
            config,
            before,
            after,
        ),
    decreases count,
{
    if count > 0 {
        assert(more[count - 1] == few[count - 1]);
        if all_recall(more, count, query, config, before, after) {
            let mid = choose|mid: (HookContext, Option<Vec<SearchHit>>)|
                all_recall(more, count - 1, query, config, before, mid) && #[trigger] step_recalls(
                    more,
                    count - 1,
                    query,
                    config,
                    mid,
                    after,
                );
            lemma_same_recall(few, more, count - 1, query, config, before, mid);
            assert(step_recalls(few, count - 1, query, config, mid, after));
        }
        if all_recall(few, count, query, config, before, after) {
            let mid = choose|mid: (HookContext, Option<Vec<SearchHit>>)|
                all_recall(few, count - 1, query, config, before, mid) && #[trigger] step_recalls(
                    few,
                    count - 1,
                    query,
                    config,
                    mid,
                    after,
                );
            lemma_same_recall(few, more, count - 1, query, config, before, mid);
            assert(step_recalls(more, count - 1, query, config, mid, after));
        }
    }
}

/// The first of several hooks act alike in a longer list, on hits.
proof fn lemma_same_change(
    few: Seq<Box<dyn SearchHook>>,
    more: Seq<Box<dyn SearchHook>>,
    count: int,
    stage: HookStage,
    before: Candidates,
    after: Candidates,
)
    requires
        count <= few.len() <= more.len(),
        forall|i: int| 0 <= i < few.len() ==> #[trigger] more[i] == few[i],
    ensures
        all_change(more, count, stage, before, after) == all_change(
            few,
            count,
            stage,
            before,
            after,
        ),
    decreases count,
{
    if count > 0 {
        assert(more[count - 1] == few[count - 1]);
        if all_change(more, count, stage, before, after) {
            let mid = choose|mid: Candidates|
                all_change(more, count - 1, stage, before, mid) && #[trigger] step_changes(
                    more,
                    count - 1,
                    stage,
                    mid,
                    after,
                );
            lemma_same_change(few, more, count - 1, stage, before, mid);
            assert(step_changes(few, count - 1, stage, mid, after));
        }
        if all_change(few, count, stage, before, after) {
            let mid = choose|mid: Candidates|
                all_change(few, count - 1, stage, before, mid) && #[trigger] step_changes(
                    few,
                    count - 1,
                    stage,
                    mid,
                    after,
                );
            lemma_same_change(few, more, count - 1, stage, before, mid);
            assert(step_changes(more, count - 1, stage, mid, after));
        }
    }
}

/// The first of several hooks act alike in a longer list, on the results.
proof fn lemma_same_rerank(
    few: Seq<Box<dyn SearchHook>>,
    more: Seq<Box<dyn SearchHook>>,
    count: int,
    before: Candidates,
    after: (Candidates, Option<Vec<SearchHit>>),
)
    requires
        count <= few.len() <= more.len(),
        forall|i: int| 0 <= i < few.len() ==> #[trigger] more[i] == few[i],
    ensures
        all_rerank(more, count, before, after) == all_rerank(few, count, before, after),
    decreases count,
{
    if count > 0 {
        assert(more[count - 1] == few[count - 1]);
        if all_rerank(more, count, before, after) {
            let mid = choose|mid: (Candidates, Option<Vec<SearchHit>>)|
                all_rerank(more, count - 1, before, mid) && #[trigger] step_reranks(
                    more,
                    count - 1,
                    mid,
                    after,
                );
            lemma_same_rerank(few, more, count - 1, before, mid);
            assert(step_reranks(few, count - 1, mid, after));
        }
        if all_rerank(few, count, before, after) {
            let mid = choose|mid: (Candidates, Option<Vec<SearchHit>>)|
                all_rerank(few, count - 1, before, mid) && #[trigger] step_reranks(
                    few,
                    count - 1,
                    mid,
                    after,
                );
            lemma_same_rerank(few, more, count - 1, before, mid);
            assert(step_reranks(more, count - 1, mid, after));
        }
    }
}

/// The hits that a loaded library found are the entries that it wrote under an identifier, with
/// their scores and without payloads; entries without an identifier and those behind the count are
/// none.
pub proof fn law_foreign_hits_are_entries(buffer: Seq<Scored>, count: int, hit: HitView)
    requires
        0 <= count <= buffer.len(),
    ensures
        foreign_hits(buffer, count).contains(hit) <==> hit.payload == Payload::spec_null() && hit.id
            != 0 && exists|i: int|
            0 <= i < count && #[trigger] buffer[i] == (Scored { id: hit.id, score: hit.score }),
    decreases count,
{
    if count > 0 {
        law_foreign_hits_are_entries(buffer, count - 1, hit);
        let before = foreign_hits(buffer, count - 1);
        let entry = buffer[count - 1];
        let last = HitView { id: entry.id, score: entry.score, payload: Payload::spec_null() };
        let wanted = Scored { id: hit.id, score: hit.score };
        crate::collections::lemma_contains_push(before, last, hit);
        if exists|i: int| 0 <= i < count - 1 && #[trigger] buffer[i] == wanted {
            let i = choose|i: int| 0 <= i < count - 1 && #[trigger] buffer[i] == wanted;
            assert(0 <= i < count && buffer[i] == wanted);
        }
        if exists|i: int| 0 <= i < count && #[trigger] buffer[i] == wanted {
            let i = choose|i: int| 0 <= i < count && #[trigger] buffer[i] == wanted;
            if i < count - 1 {
                assert(0 <= i < count - 1 && buffer[i] == wanted);
            }
        }
    }
}

/// What a loaded library ranked: each hit with the score that was written for it, none more and none
/// less, and no hit before one that scores higher.
pub proof fn law_foreign_ranks_descend(
    hits: Seq<HitView>,
    scores: Seq<u32>,
    i: int,
    j: int,
)
    requires
        scores.len() == hits.len(),
        0 <= i < j < hits.len(),
    ensures
        ({
            let ranked = sorted(
                rescored(hits, scores),
                |a: HitView, b: HitView| scores_higher(a, b),
            );
            &&& ranked.len() == hits.len()
            &&& ranked.to_multiset() == rescored(hits, scores).to_multiset()
            &&& f32_value_key(ranked[i].score) >= f32_value_key(ranked[j].score)
            &&& rescored(hits, scores)[i].id == hits[i].id && rescored(hits, scores)[i].payload
                == hits[i].payload && rescored(hits, scores)[i].score == scores[i]
        }),
{
    law_sorted::<Rescored>(rescored(hits, scores));
    assert(order_of::<Rescored>() =~= |a: HitView, b: HitView| scores_higher(a, b));
    let ranked = sorted(rescored(hits, scores), order_of::<Rescored>());
    assert(!(order_of::<Rescored>())(ranked[j], ranked[i]));
}

} // verus!
