//! What a translation is, step by step: the values that the context and its
//! steps stand for, what a step may leave behind, and what follows from that.

use crate::codec::{encodable, euc_kr_text, readable, shift_jis_bytes};
use crate::dict::{
    apply_rules, arranged, dict_in_order, lemma_rebuilt_dict_is_same, DictView, RuleView,
};
use crate::segment::{concat_runs, lemma_runs_concat, runs_of, RunView};
use vstd::prelude::*;

verus! {

/// The mathematical value of a translation in progress.
pub struct JobView {
    /// The text as the caller gave it.
    pub source: Seq<char>,
    /// The runs of the text after the rules that come before the engine.
    pub runs: Seq<RunView>,
    /// The index of the run that waits for the engine.
    pub next: int,
    /// The translations of the runs before `next`, joined.
    pub output: Seq<char>,
}

/// The mathematical value of a context.
pub struct ContextView {
    pub cache: Map<Seq<char>, Seq<char>>,
    pub dict: DictView,
    /// The translation that waits for the engine, if there is one.
    pub job: Option<JobView>,
    /// The bytes prepared for the engine.
    pub engine_input: Seq<u8>,
}

/// What a step asks of the caller, as a mathematical value.
pub enum StepView {
    Done(Seq<char>),
    CallEngine,
    Idle,
}

/// What a run contributes to a translation: its own text where it passes
/// through, and what the cache holds for it where it is translatable.
pub open spec fn render(cache: Map<Seq<char>, Seq<char>>, run: RunView) -> Seq<char> {
    if run.translatable {
        cache[run.text]
    } else {
        run.text
    }
}

/// The contributions of `runs`, joined in order.
pub open spec fn render_runs(cache: Map<Seq<char>, Seq<char>>, runs: Seq<RunView>) -> Seq<char>
    decreases runs.len(),
{
    if runs.len() == 0 {
        Seq::empty()
    } else {
        render_runs(cache, runs.drop_last()) + render(cache, runs.last())
    }
}

/// The cache holds a translation for every translatable run of `runs`.
pub open spec fn all_cached(cache: Map<Seq<char>, Seq<char>>, runs: Seq<RunView>) -> bool {
    forall|j: int|
        0 <= j < runs.len() && (#[trigger] runs[j]).translatable ==> cache.contains_key(
            runs[j].text,
        )
}

/// `after` holds every entry of `before`, unchanged.
pub open spec fn cache_grows(
    before: Map<Seq<char>, Seq<char>>,
    after: Map<Seq<char>, Seq<char>>,
) -> bool {
    forall|k: Seq<char>| #[trigger]
        before.contains_key(k) ==> after.contains_key(k) && after[k] == before[k]
}

/// `after` holds every key of `before`, and under every key but `key` what
/// `before` held under it.
pub open spec fn cache_grows_but(
    before: Map<Seq<char>, Seq<char>>,
    after: Map<Seq<char>, Seq<char>>,
    key: Seq<char>,
) -> bool {
    forall|k: Seq<char>| #[trigger]
        before.contains_key(k) ==> after.contains_key(k) && (k == key || after[k] == before[k])
}

/// The cache holds the empty text as the translation of the empty text.
pub open spec fn seeded(cache: Map<Seq<char>, Seq<char>>) -> bool {
    cache.contains_key(Seq::empty()) && cache[Seq::empty()] == Seq::<char>::empty()
}

/// `key` is the text of a translatable run among `runs[from..to]`.
pub open spec fn is_run_key(runs: Seq<RunView>, from: int, to: int, key: Seq<char>) -> bool {
    exists|j: int| from <= j < to && (#[trigger] runs[j]).translatable && runs[j].text == key
}

/// `after` is `before` and, for each translatable run among `runs[from..to]`
/// that `before` lacks, the run's own text as its translation; and none of
/// these runs could have been handed to the engine.
pub open spec fn passed_through(
    before: Map<Seq<char>, Seq<char>>,
    after: Map<Seq<char>, Seq<char>>,
    runs: Seq<RunView>,
    from: int,
    to: int,
) -> bool {
    &&& cache_grows(before, after)
    &&& forall|k: Seq<char>| #[trigger]
        after.contains_key(k) ==> before.contains_key(k) || (is_run_key(runs, from, to, k)
            && after[k] == k)
    &&& forall|j: int|
        from <= j < to && (#[trigger] runs[j]).translatable ==> after.contains_key(runs[j].text)
            && (before.contains_key(runs[j].text) || !encodable(runs[j].text))
}

/// `before` and, for each translatable run among `runs[from..to]` that
/// `before` lacks, the run's own text as its translation.
pub open spec fn with_passed(
    before: Map<Seq<char>, Seq<char>>,
    runs: Seq<RunView>,
    from: int,
    to: int,
) -> Map<Seq<char>, Seq<char>> {
    Map::new(
        |k: Seq<char>| before.contains_key(k) || is_run_key(runs, from, to, k),
        |k: Seq<char>|
            if before.contains_key(k) {
                before[k]
            } else {
                k
            },
    )
}

/// The translation `job` waits for the engine: its run `next` is translatable,
/// has no translation in the cache, and stands in `input` as Shift_JIS bytes
/// with a terminating zero; the runs before it are done. No run is empty, and
/// the cache holds nothing under the text that is translated, unless that
/// text is also one of the runs that are done.
pub open spec fn waiting(cache: Map<Seq<char>, Seq<char>>, job: JobView, input: Seq<u8>) -> bool {
    &&& 0 <= job.next < job.runs.len()
    &&& job.runs[job.next].translatable
    &&& !cache.contains_key(job.runs[job.next].text)
    &&& encodable(job.runs[job.next].text)
    &&& input == shift_jis_bytes(job.runs[job.next].text)->0.push(0u8)
    &&& all_cached(cache, job.runs.subrange(0, job.next))
    &&& job.output == render_runs(cache, job.runs.subrange(0, job.next))
    &&& forall|j: int| 0 <= j < job.runs.len() ==> (#[trigger] job.runs[j]).text.len() > 0
    &&& cache.contains_key(job.source) ==> is_run_key(job.runs, 0, job.next, job.source)
}

/// The parts of a context fit together. The dictionary is in order, and the
/// cache holds the empty text as the translation of the empty text. Either no
/// translation is in progress and nothing is prepared for the engine, or one
/// waits for the engine.
pub open spec fn context_ok(v: ContextView) -> bool {
    &&& dict_in_order(v.dict)
    &&& seeded(v.cache)
    &&& match v.job {
        None => v.engine_input.len() == 0,
        Some(job) => waiting(v.cache, job, v.engine_input),
    }
}

/// Where a translation of `source` with the runs `runs` stands after it went
/// on from run `from` with the cache `before`, and came to `step`.
///
/// Every run from `from` on that was reached was dealt with in one of three
/// ways. A run that passes through contributed its text. A translatable run
/// with a translation in the cache contributed that translation. A
/// translatable run without one was prepared for the engine, and the
/// translation stopped there to wait; or it cannot be handed to the engine,
/// and then its own text was stored as its translation.
///
/// At the end the finished text is the contributions of all runs, joined in
/// order; it is returned, and it is stored under `source`, in place of what
/// the cache held under `source`.
pub open spec fn settled(
    before: Map<Seq<char>, Seq<char>>,
    source: Seq<char>,
    runs: Seq<RunView>,
    from: int,
    fin: ContextView,
    step: StepView,
) -> bool {
    match step {
        StepView::CallEngine => {
            &&& fin.job matches Some(job)
            &&& job.source == source
            &&& job.runs == runs
            &&& from <= job.next
            &&& waiting(fin.cache, job, fin.engine_input)
            &&& passed_through(before, fin.cache, runs, from, job.next)
        },
        StepView::Done(text) => {
            let all = runs.len() as int;
            let known = with_passed(before, runs, from, all);
            &&& fin.job is None
            &&& fin.engine_input.len() == 0
            &&& passed_through(before, known, runs, from, all)
            &&& text == render_runs(known, runs)
            &&& fin.cache == known.insert(source, text)
        },
        StepView::Idle => false,
    }
}

/// The translation of the run `text` after the engine replied `reply`: the
/// reply, read as EUC-KR and passed through the rules `after`; or `text`
/// itself, where the engine failed or its reply cannot be read.
pub open spec fn reply_translation(
    after: Seq<RuleView>,
    text: Seq<char>,
    reply: Option<Seq<u8>>,
) -> Seq<char> {
    match reply {
        Some(bytes) => if readable(bytes) {
            apply_rules(after, euc_kr_text(bytes)->0)
        } else {
            text
        },
        None => text,
    }
}

/// The bytes of a reply.
pub open spec fn reply_view(reply: Option<&[u8]>) -> Option<Seq<u8>> {
    match reply {
        Some(bytes) => Some(bytes@),
        None => None,
    }
}

/// A cache that grew keeps the contributions of runs that were done.
pub proof fn lemma_render_keeps(
    before: Map<Seq<char>, Seq<char>>,
    after: Map<Seq<char>, Seq<char>>,
    runs: Seq<RunView>,
)
    requires
        cache_grows(before, after),
        all_cached(before, runs),
    ensures
        all_cached(after, runs),
        render_runs(after, runs) == render_runs(before, runs),
    decreases runs.len(),
{
    if runs.len() > 0 {
        let init = runs.drop_last();
        assert(all_cached(before, init)) by {
            assert forall|j: int|
                0 <= j < init.len() && (#[trigger] init[j]).translatable
                implies before.contains_key(init[j].text) by {
                assert(init[j] == runs[j]);
            }
        }
        lemma_render_keeps(before, after, init);
        assert(runs.last() == runs[runs.len() - 1]);
    }
}

/// Runs that are done stay done when one more run is done.
pub proof fn lemma_all_cached_extends(cache: Map<Seq<char>, Seq<char>>, runs: Seq<RunView>, at: int)
    requires
        0 <= at < runs.len(),
        all_cached(cache, runs.subrange(0, at)),
        runs[at].translatable ==> cache.contains_key(runs[at].text),
    ensures
        all_cached(cache, runs.subrange(0, at + 1)),
{
    let done = runs.subrange(0, at);
    let more = runs.subrange(0, at + 1);
    assert forall|j: int|
        0 <= j < more.len() && (#[trigger] more[j]).translatable
        implies cache.contains_key(more[j].text) by {
        if j < at {
            assert(done[j] == more[j]);
        }
    }
}

/// A cache that holds what [`passed_through`] says is the cache that
/// [`with_passed`] gives.
pub proof fn lemma_passed_is_with_passed(
    before: Map<Seq<char>, Seq<char>>,
    after: Map<Seq<char>, Seq<char>>,
    runs: Seq<RunView>,
    from: int,
    to: int,
)
    requires
        passed_through(before, after, runs, from, to),
    ensures
        after == with_passed(before, runs, from, to),
{
    let made = with_passed(before, runs, from, to);
    assert(after =~= made) by {
        assert forall|k: Seq<char>| made.contains_key(k) implies after.contains_key(k) by {
            if !before.contains_key(k) {
                let j = choose|j: int|
                    from <= j < to && (#[trigger] runs[j]).translatable && runs[j].text == k;
                assert(after.contains_key(runs[j].text));
            }
        }
    }
}

/// [`settled`] leaves nothing open: where a translation goes on from a given
/// cache and a given run, there is one step it can come to, and one cache,
/// one translation in progress and one input for the engine that it can
/// leave behind.
pub proof fn lemma_settled_is_unique(
    before: Map<Seq<char>, Seq<char>>,
    source: Seq<char>,
    runs: Seq<RunView>,
    from: int,
    a: ContextView,
    step_a: StepView,
    b: ContextView,
    step_b: StepView,
)
    requires
        0 <= from <= runs.len(),
        settled(before, source, runs, from, a, step_a),
        settled(before, source, runs, from, b, step_b),
    ensures
        step_a == step_b,
        a.cache == b.cache,
        a.job == b.job,
        a.engine_input == b.engine_input,
{
    // The two stop at the same run, or both finish.
    let stop_a = if step_a is CallEngine {
        a.job->0.next
    } else {
        runs.len() as int
    };
    let stop_b = if step_b is CallEngine {
        b.job->0.next
    } else {
        runs.len() as int
    };
    assert(stop_a == stop_b) by {
        if stop_a < stop_b {
            assert(runs[stop_a].translatable);
        }
        if stop_b < stop_a {
            assert(runs[stop_b].translatable);
        }
    }
    if step_a is CallEngine {
        lemma_passed_is_with_passed(before, a.cache, runs, from, stop_a);
        lemma_passed_is_with_passed(before, b.cache, runs, from, stop_a);
    }
}

/// Runs that all pass through contribute the text that they were cut from.
proof fn lemma_render_plain(cache: Map<Seq<char>, Seq<char>>, runs: Seq<RunView>)
    requires
        forall|j: int| 0 <= j < runs.len() ==> !(#[trigger] runs[j]).translatable,
    ensures
        render_runs(cache, runs) == concat_runs(runs),
    decreases runs.len(),
{
    if runs.len() > 0 {
        let init = runs.drop_last();
        assert forall|j: int| 0 <= j < init.len() implies !(#[trigger] init[j]).translatable by {
            assert(init[j] == runs[j]);
        }
        lemma_render_plain(cache, init);
        assert(runs.last() == runs[runs.len() - 1]);
    }
}

/// A text that holds no translatable script after the rules that come before
/// the engine is finished without the engine, and its translation is the text
/// as those rules left it.
pub proof fn lemma_plain_text_needs_no_engine(
    before: Map<Seq<char>, Seq<char>>,
    rules: Seq<RuleView>,
    source: Seq<char>,
    fin: ContextView,
    step: StepView,
)
    requires
        forall|j: int|
            0 <= j < runs_of(apply_rules(rules, source)).len() ==> !(#[trigger] runs_of(
                apply_rules(rules, source),
            )[j]).translatable,
        settled(before, source, runs_of(apply_rules(rules, source)), 0, fin, step),
    ensures
        step == StepView::Done(apply_rules(rules, source)),
        fin.cache == before.insert(source, apply_rules(rules, source)),
{
    let runs = runs_of(apply_rules(rules, source));
    let known = with_passed(before, runs, 0, runs.len() as int);
    lemma_render_plain(known, runs);
    lemma_runs_concat(apply_rules(rules, source));
    assert(known =~= before) by {
        assert forall|k: Seq<char>| !is_run_key(runs, 0, runs.len() as int, k) by {}
    }
}

/// A finished translation is the contributions of all runs of the text,
/// joined in order: each run that passes through as it stands, each
/// translatable run as the cache translates it once the runs that cannot be
/// handed to the engine have been stored as their own translations. This
/// holds also where the text that is translated is itself one of these runs.
pub proof fn lemma_finished_text_is_joined_runs(
    before: Map<Seq<char>, Seq<char>>,
    source: Seq<char>,
    runs: Seq<RunView>,
    from: int,
    fin: ContextView,
    text: Seq<char>,
)
    requires
        settled(before, source, runs, from, fin, StepView::Done(text)),
    ensures
        text == render_runs(with_passed(before, runs, from, runs.len() as int), runs),
        fin.cache == with_passed(before, runs, from, runs.len() as int).insert(source, text),
        cache_grows_but(before, fin.cache, source),
{
    let known = with_passed(before, runs, from, runs.len() as int);
    assert forall|k: Seq<char>| #[trigger] before.contains_key(k) implies fin.cache.contains_key(
        k,
    ) && (k == source || fin.cache[k] == before[k]) by {
        assert(known.contains_key(k));
    }
}

/// A text whose translation was finished is answered from the cache from
/// then on, with the text that was returned for it. The cache holds that text
/// under the text that was translated, and a translation of a text that the
/// cache holds returns what the cache holds without the engine. What is
/// translated later leaves the entry as it is: a translation changes an entry
/// of the cache only under its own text, which the cache did not hold when it
/// began.
pub proof fn lemma_finished_text_stays_cached(
    before: Map<Seq<char>, Seq<char>>,
    source: Seq<char>,
    runs: Seq<RunView>,
    from: int,
    fin: ContextView,
    text: Seq<char>,
    later: Map<Seq<char>, Seq<char>>,
    other: Seq<char>,
)
    requires
        settled(before, source, runs, from, fin, StepView::Done(text)),
        cache_grows_but(fin.cache, later, other),
        other != source,
    ensures
        fin.cache.contains_key(source),
        fin.cache[source] == text,
        later.contains_key(source),
        later[source] == text,
{
    let known = with_passed(before, runs, from, runs.len() as int);
    assert(known.insert(source, text).contains_key(source));
    assert(fin.cache.contains_key(source));
}

/// The engine is asked only for a run that has no translation: none when the
/// step began, and none while the run waits. Since the reply, whatever it is,
/// gives the run a translation, the engine is asked at most once for a run.
pub proof fn lemma_engine_asked_for_unknown_run(
    before: Map<Seq<char>, Seq<char>>,
    source: Seq<char>,
    runs: Seq<RunView>,
    from: int,
    fin: ContextView,
)
    requires
        settled(before, source, runs, from, fin, StepView::CallEngine),
    ensures
        fin.job matches Some(job) && !before.contains_key(job.runs[job.next].text)
            && !fin.cache.contains_key(job.runs[job.next].text),
{
}

/// Where the engine failed, the run's own text is its translation: the text
/// as it stood after the rules that come before the engine, untouched by the
/// rules that come after it.
pub proof fn lemma_failed_run_passes_through(after: Seq<RuleView>, text: Seq<char>)
    ensures
        reply_translation(after, text, None) == text,
{
}

/// A context that is made anew of the cache and the dictionary of a context
/// holds the same cache and the same dictionary: the empty text is in the
/// cache already, and the rules are in order already.
pub proof fn lemma_rebuilt_context_is_same(v: ContextView)
    requires
        context_ok(v),
    ensures
        v.cache.insert(Seq::empty(), Seq::empty()) == v.cache,
        (DictView {
            sort: v.dict.sort,
            before: arranged(v.dict.sort, v.dict.before),
            after: arranged(v.dict.sort, v.dict.after),
        }) == v.dict,
{
    lemma_rebuilt_dict_is_same(v.dict);
    assert(v.cache.insert(Seq::empty(), Seq::empty()) =~= v.cache);
}

} // verus!
