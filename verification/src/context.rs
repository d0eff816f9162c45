//! The context: one dictionary pair, one cache, and the translation in
//! progress.
//!
//! The engine is not called from here. A translation goes step by step: the
//! context works through the text until a run has to be sent to the engine,
//! and says so; whoever holds the engine sends it the bytes that the context
//! prepared and hands the reply back, and the context goes on from there.

use crate::cache::TranslationCache;
use crate::codec::{decode_from_engine, encode_for_engine};
use crate::dict::{apply_rules, arranged, DictView, EzDict, RuleView};
use crate::error::Error;
use crate::progress::{
    all_cached, cache_grows, cache_grows_but, context_ok, is_run_key, lemma_all_cached_extends,
    lemma_passed_is_with_passed, lemma_render_keeps, passed_through, render_runs,
    reply_translation, reply_view, seeded, settled, waiting, ContextView, JobView, StepView,
};
use crate::segment::{lemma_runs_shape, run_views, runs_of, segment, Run, RunView};
use vstd::prelude::*;
use vstd::string::StringExecFns;

verus! {

/// What a step of a translation asks of the caller.
pub enum Step {
    /// The translation is finished: this is its text.
    Done(String),
    /// The engine has to translate the bytes of [`EzContext::engine_input`];
    /// its reply goes to [`EzContext::resume`].
    CallEngine,
    /// No translation is in progress.
    Idle,
}

impl View for Step {
    type V = StepView;

    open spec fn view(&self) -> StepView {
        match self {
            Step::Done(text) => StepView::Done(text@),
            Step::CallEngine => StepView::CallEngine,
            Step::Idle => StepView::Idle,
        }
    }
}

/// The translation in progress.
struct Job {
    source: String,
    runs: Vec<Run>,
    next: usize,
    output: String,
}

impl View for Job {
    type V = JobView;

    closed spec fn view(&self) -> JobView {
        JobView {
            source: self.source@,
            runs: run_views(self.runs@),
            next: self.next as int,
            output: self.output@,
        }
    }
}

/// The value of the place where a translation in progress is kept.
spec fn slot_view(slot: Option<Job>) -> Option<JobView> {
    match slot {
        None => None,
        Some(job) => Some(job@),
    }
}

/// What the translation of a run is once the engine's reply has been read:
/// the reply passed through `rules`, or, where there is no reply that could
/// be read, the run's own text.
pub fn run_translation(rules: &EzDict, text: &str, read: Option<String>) -> (translated: String)
    ensures
        translated@ == match read {
            Some(reply) => apply_rules(rules@.after, reply@),
            None => text@,
        },
{
    match read {
        Some(reply) => {
            let mut reply = reply;
            rules.apply_after(&mut reply);
            reply
        },
        None => text.to_owned(),
    }
}

/// Goes on with `job` from its run `next` until a run has to wait for the
/// engine or the text is finished.
fn proceed(
    cache: &mut TranslationCache,
    buffer: &mut Vec<u8>,
    job: Job,
    Ghost(before): Ghost<Map<Seq<char>, Seq<char>>>,
    Ghost(from): Ghost<int>,
    Ghost(dict): Ghost<DictView>,
) -> (out: (Option<Job>, Step))
    requires
        old(buffer)@.len() == 0,
        0 <= from <= job@.next <= job@.runs.len(),
        seeded(old(cache)@),
        forall|j: int| 0 <= j < job@.runs.len() ==> (#[trigger] job@.runs[j]).text.len() > 0,
        old(cache)@.contains_key(job@.source) ==> is_run_key(
            job@.runs,
            0,
            job@.next,
            job@.source,
        ),
        all_cached(old(cache)@, job@.runs.subrange(0, job@.next)),
        job@.output == render_runs(old(cache)@, job@.runs.subrange(0, job@.next)),
        passed_through(before, old(cache)@, job@.runs, from, job@.next),
    ensures
        seeded(final(cache)@),
        cache_grows_but(old(cache)@, final(cache)@, job@.source),
        out.1@ is CallEngine || !old(cache)@.contains_key(job@.source) ==> cache_grows(
            old(cache)@,
            final(cache)@,
        ),
        settled(
            before,
            job@.source,
            job@.runs,
            from,
            ContextView {
                cache: final(cache)@,
                dict,
                job: slot_view(out.0),
                engine_input: final(buffer)@,
            },
            out.1@,
        ),
{
    let ghost source = job@.source;
    let ghost runs = job@.runs;
    let ghost start = cache@;
    let mut work = job;
    while work.next < work.runs.len()
        invariant
            buffer@.len() == 0,
            source == job@.source,
            runs == job@.runs,
            work@.source == source,
            work@.runs == runs,
            runs == run_views(work.runs@),
            0 <= from <= work@.next <= runs.len(),
            work@.next == work.next,
            seeded(cache@),
            forall|j: int| 0 <= j < runs.len() ==> (#[trigger] runs[j]).text.len() > 0,
            cache@.contains_key(source) ==> is_run_key(runs, 0, work@.next, source),
            all_cached(cache@, runs.subrange(0, work@.next)),
            work@.output == render_runs(cache@, runs.subrange(0, work@.next)),
            passed_through(before, cache@, runs, from, work@.next),
            start == old(cache)@,
            cache_grows(start, cache@),
        decreases runs.len() - work.next,
    {
        let ghost at = work.next as int;
        let ghost done = runs.subrange(0, at);
        let ghost more = runs.subrange(0, at + 1);
        let ghost cache_now = cache@;
        proof {
            assert(more.drop_last() == done);
            assert(more.last() == runs[at]);
            assert(runs[at] == work.runs@[at]@);
            assert(runs[at].text.len() > 0);
        }
        if !work.runs[work.next].translatable {
            work.output.append(work.runs[work.next].text.as_str());
            work.next = work.next + 1;
            proof {
                lemma_all_cached_extends(cache_now, runs, at);
            }
        } else {
            match cache.get(work.runs[work.next].text.as_str()) {
                Some(known) => {
                    work.output.append(known.as_str());
                    work.next = work.next + 1;
                    proof {
                        lemma_all_cached_extends(cache_now, runs, at);
                    }
                },
                None => {
                    let encoded = encode_for_engine(work.runs[work.next].text.as_str(), buffer);
                    match encoded {
                        Ok(()) => {
                            proof {
                                assert(work.runs@[at].text@ == runs[at].text);
                                assert(waiting(cache_now, work@, buffer@));
                            }
                            return (Some(work), Step::CallEngine);
                        },
                        Err(_) => {
                            let key = work.runs[work.next].text.clone();
                            let own = work.runs[work.next].text.clone();
                            work.output.append(work.runs[work.next].text.as_str());
                            cache.insert_if_absent(key, own);
                            work.next = work.next + 1;
                            proof {
                                let text = runs[at].text;
                                assert(cache@ == cache_now.insert(text, text));
                                assert(cache_grows(cache_now, cache@));
                                lemma_render_keeps(cache_now, cache@, done);
                                lemma_all_cached_extends(cache@, runs, at);
                                assert(is_run_key(runs, from, at + 1, text)) by {
                                    assert(runs[at].translatable && runs[at].text == text);
                                }
                                assert(is_run_key(runs, 0, at + 1, text)) by {
                                    assert(runs[at].translatable && runs[at].text == text);
                                }
                            }
                        },
                    }
                },
            }
        }
        proof {
            assert forall|k: Seq<char>| #[trigger]
                cache@.contains_key(k) implies before.contains_key(k) || (is_run_key(
                runs,
                from,
                at + 1,
                k,
            ) && cache@[k] == k) by {
                if !before.contains_key(k) && cache_now.contains_key(k) {
                    assert(is_run_key(runs, from, at, k));
                    let j = choose|j: int|
                        from <= j < at && (#[trigger] runs[j]).translatable && runs[j].text == k;
                    assert(from <= j < at + 1 && runs[j].translatable && runs[j].text == k);
                }
            }
            if cache_now.contains_key(source) {
                let j = choose|j: int|
                    0 <= j < at && (#[trigger] runs[j]).translatable && runs[j].text == source;
                assert(0 <= j < at + 1 && runs[j].translatable && runs[j].text == source);
            }
        }
    }
    let ghost known = cache@;
    proof {
        assert(runs.subrange(0, runs.len() as int) == runs);
        lemma_passed_is_with_passed(before, known, runs, from, runs.len() as int);
        if source.len() == 0 {
            assert(source == Seq::<char>::empty());
            let j = choose|j: int|
                0 <= j < runs.len() && (#[trigger] runs[j]).translatable && runs[j].text
                    == source;
            assert(runs[j].text.len() > 0);
        }
    }
    let text = work.output.clone();
    cache.insert(work.source, work.output);
    (None, Step::Done(text))
}

/// The translation context.
pub struct EzContext {
    cache: TranslationCache,
    dict: EzDict,
    encode_buffer: Vec<u8>,
    job: Option<Job>,
}

impl View for EzContext {
    type V = ContextView;

    closed spec fn view(&self) -> ContextView {
        ContextView {
            cache: self.cache@,
            dict: self.dict@,
            job: slot_view(self.job),
            engine_input: self.encode_buffer@,
        }
    }
}

impl EzContext {
    /// The parts of the context fit together. This holds of every context.
    #[verifier::type_invariant]
    pub open spec fn wf(&self) -> bool {
        context_ok(self@)
    }

    /// A context with nothing in it, to stand in for one that is being worked
    /// on.
    fn blank() -> (ctx: Self)
        ensures
            ctx@.job is None,
            ctx@.engine_input.len() == 0,
    {
        let mut cache = TranslationCache::new();
        cache.seed_empty();
        Self { cache, dict: EzDict::new(false), encode_buffer: Vec::new(), job: None }
    }

    /// Takes the context apart, leaving an empty one in its place.
    fn take_parts(&mut self) -> (parts: (TranslationCache, EzDict, Vec<u8>, Option<Job>))
        ensures
            context_ok(old(self)@),
            old(self)@ == (ContextView {
                cache: parts.0@,
                dict: parts.1@,
                job: slot_view(parts.3),
                engine_input: parts.2@,
            }),
    {
        proof {
            use_type_invariant(&*self);
        }
        let mut taken = Self::blank();
        core::mem::swap(self, &mut taken);
        let EzContext { cache, dict, encode_buffer, job } = taken;
        (cache, dict, encode_buffer, job)
    }

    /// A context with the given cache and dictionary. The cache gets the
    /// empty text as the translation of the empty text.
    pub fn new(cache: TranslationCache, dict: EzDict) -> (ctx: Self)
        ensures
            ctx.wf(),
            ctx@.cache == cache@.insert(Seq::empty(), Seq::empty()),
            ctx@.dict == dict@,
            ctx@.job is None,
            ctx@.engine_input.len() == 0,
    {
        let mut cache = cache;
        cache.seed_empty();
        proof {
            use_type_invariant(&dict);
        }
        Self { cache, dict, encode_buffer: Vec::new(), job: None }
    }

    /// The cache.
    pub fn cache(&self) -> (cache: &TranslationCache)
        ensures
            self.wf(),
            cache@ == self@.cache,
    {
        proof {
            use_type_invariant(self);
        }
        &self.cache
    }

    /// The dictionary pair.
    pub fn dict(&self) -> (dict: &EzDict)
        ensures
            self.wf(),
            dict@ == self@.dict,
    {
        proof {
            use_type_invariant(self);
        }
        &self.dict
    }

    /// The bytes that the engine has to translate: the Shift_JIS bytes of the
    /// run that waits, and a terminating zero. Empty where no run waits.
    pub fn engine_input(&self) -> (input: &[u8])
        ensures
            self.wf(),
            input@ == self@.engine_input,
    {
        proof {
            use_type_invariant(self);
        }
        self.encode_buffer.as_slice()
    }

    /// Adds a rule to those applied before the engine, and sorts them where
    /// sorting is switched on. An empty pattern is refused and changes
    /// nothing.
    pub fn add_before_rule(&mut self, key: String, value: String) -> (added: Result<(), Error>)
        ensures
            old(self).wf(),
            final(self).wf(),
            final(self)@ == (ContextView { dict: final(self)@.dict, ..old(self)@ }),
            key@.len() == 0 ==> added == Err::<(), Error>(Error::InvalidRule) && final(self)@
                == old(self)@,
            key@.len() > 0 ==> added is Ok && final(self)@.dict == (DictView {
                before: arranged(
                    old(self)@.dict.sort,
                    old(self)@.dict.before.push(RuleView { pattern: key@, replacement: value@ }),
                ),
                ..old(self)@.dict
            }),
    {
        let (cache, dict, encode_buffer, job) = self.take_parts();
        let mut dict = dict;
        let added = dict.add_before_rule(key, value);
        *self = EzContext { cache, dict, encode_buffer, job };
        added
    }

    /// Adds a rule to those applied after the engine, and sorts them where
    /// sorting is switched on. An empty pattern is refused and changes
    /// nothing.
    pub fn add_after_rule(&mut self, key: String, value: String) -> (added: Result<(), Error>)
        ensures
            old(self).wf(),
            final(self).wf(),
            final(self)@ == (ContextView { dict: final(self)@.dict, ..old(self)@ }),
            key@.len() == 0 ==> added == Err::<(), Error>(Error::InvalidRule) && final(self)@
                == old(self)@,
            key@.len() > 0 ==> added is Ok && final(self)@.dict == (DictView {
                after: arranged(
                    old(self)@.dict.sort,
                    old(self)@.dict.after.push(RuleView { pattern: key@, replacement: value@ }),
                ),
                ..old(self)@.dict
            }),
    {
        let (cache, dict, encode_buffer, job) = self.take_parts();
        let mut dict = dict;
        let added = dict.add_after_rule(key, value);
        *self = EzContext { cache, dict, encode_buffer, job };
        added
    }

    /// Begins to translate `text`, and goes as far as it can without the
    /// engine. A translation that was in progress is given up.
    ///
    /// A text that the cache holds a translation for is finished at once, with
    /// that translation. For any other text the rules that come before the
    /// engine are applied to the whole of it, the result is split into runs,
    /// and the runs are worked through in order as [`settled`] says: the
    /// finished text is the contributions of all runs, joined in order.
    pub fn translate(&mut self, text: &str) -> (step: Step)
        ensures
            old(self).wf(),
            final(self).wf(),
            final(self)@.dict == old(self)@.dict,
            cache_grows(old(self)@.cache, final(self)@.cache),
            old(self)@.cache.contains_key(text@) ==> step@ == StepView::Done(
                old(self)@.cache[text@],
            ) && final(self)@.cache == old(self)@.cache && final(self)@.job is None
                && final(self)@.engine_input.len() == 0,
            !old(self)@.cache.contains_key(text@) ==> settled(
                old(self)@.cache,
                text@,
                runs_of(apply_rules(old(self)@.dict.before, text@)),
                0,
                final(self)@,
                step@,
            ),
    {
        let (cache, dict, encode_buffer, _given_up) = self.take_parts();
        let mut cache = cache;
        let mut encode_buffer = encode_buffer;
        encode_buffer.clear();
        let known = match cache.get(text) {
            Some(known) => Some(known.clone()),
            None => None,
        };
        proof {
            use_type_invariant(&dict);
        }
        match known {
            Some(out) => {
                *self = EzContext { cache, dict, encode_buffer, job: None };
                Step::Done(out)
            },
            None => {
                let mut work = text.to_owned();
                dict.apply_before(&mut work);
                let runs = segment(work.as_str());
                let job = Job { source: text.to_owned(), runs, next: 0, output: String::new() };
                proof {
                    assert(job@.runs.subrange(0, 0) == Seq::<RunView>::empty());
                    lemma_runs_shape(work@);
                }
                let ghost before = cache@;
                let ghost rules = dict@;
                let (slot, step) = proceed(
                    &mut cache,
                    &mut encode_buffer,
                    job,
                    Ghost(before),
                    Ghost(0),
                    Ghost(rules),
                );
                *self = EzContext { cache, dict, encode_buffer, job: slot };
                step
            },
        }
    }

    /// Takes the engine's reply for the run that waits, `None` where the
    /// engine failed, and goes on with the translation.
    ///
    /// The reply is read as EUC-KR and passed through the rules that come
    /// after the engine; the result is stored as the translation of the run.
    /// Where the engine failed, or its reply cannot be read, the run's own
    /// text is stored instead: the run passes through, and the translation as
    /// a whole still succeeds. The buffer for the engine is emptied, and the
    /// runs that follow are worked through as [`settled`] says.
    ///
    /// The cache keeps what it held. The one entry that may change is the
    /// entry under the text that is translated, where that text was stored as
    /// one of its own runs before the translation was finished: the finished
    /// text takes its place.
    pub fn resume(&mut self, reply: Option<&[u8]>) -> (step: Step)
        ensures
            old(self).wf(),
            final(self).wf(),
            final(self)@.dict == old(self)@.dict,
            old(self)@.job is None ==> step@ == StepView::Idle && final(self)@ == old(self)@,
            old(self)@.job matches Some(job) ==> {
                let text = job.runs[job.next].text;
                let translated = reply_translation(
                    old(self)@.dict.after,
                    text,
                    reply_view(reply),
                );
                &&& settled(
                    old(self)@.cache.insert(text, translated),
                    job.source,
                    job.runs,
                    job.next + 1,
                    final(self)@,
                    step@,
                )
                &&& final(self)@.cache.contains_key(text)
                &&& step@ is CallEngine || text != job.source ==> final(self)@.cache[text]
                    == translated
                &&& cache_grows_but(old(self)@.cache, final(self)@.cache, job.source)
                &&& step@ is CallEngine || !is_run_key(
                    job.runs,
                    0,
                    job.next + 1,
                    job.source,
                ) ==> cache_grows(old(self)@.cache, final(self)@.cache)
            },
    {
        let (cache, dict, encode_buffer, job) = self.take_parts();
        proof {
            use_type_invariant(&dict);
        }
        match job {
            None => {
                *self = EzContext { cache, dict, encode_buffer, job: None };
                Step::Idle
            },
            Some(job) => {
                let mut cache = cache;
                let mut encode_buffer = encode_buffer;
                let mut job = job;
                let ghost at = job.next as int;
                let ghost runs = job@.runs;
                let ghost source = job@.source;
                let ghost text = runs[at].text;
                let ghost cache_old = cache@;
                proof {
                    assert(runs[at] == job.runs@[at]@);
                    assert(at < job.runs@.len());
                    assert(text.len() > 0);
                }
                let read = match reply {
                    None => None,
                    Some(bytes) => match decode_from_engine(bytes) {
                        Ok(read) => Some(read),
                        Err(_) => None,
                    },
                };
                let translated = run_translation(&dict, job.runs[job.next].text.as_str(), read);
                encode_buffer.clear();
                let key = job.runs[job.next].text.clone();
                job.output.append(translated.as_str());
                let ghost made = translated@;
                cache.insert_if_absent(key, translated);
                assert(job.next < job.runs.len());
                job.next = job.next + 1;
                proof {
                    let done = runs.subrange(0, at);
                    let more = runs.subrange(0, at + 1);
                    assert(cache@ == cache_old.insert(text, made));
                    assert(cache_grows(cache_old, cache@));
                    lemma_render_keeps(cache_old, cache@, done);
                    assert(more.drop_last() == done);
                    assert(more.last() == runs[at]);
                    lemma_all_cached_extends(cache@, runs, at);
                    if cache@.contains_key(source) {
                        if source == text {
                            assert(runs[at].translatable && runs[at].text == source);
                        } else {
                            let j = choose|j: int|
                                0 <= j < at && (#[trigger] runs[j]).translatable && runs[j].text
                                    == source;
                            assert(0 <= j < at + 1 && runs[j].translatable && runs[j].text
                                == source);
                        }
                        assert(is_run_key(runs, 0, at + 1, source));
                    }
                }
                let ghost before = cache@;
                let ghost rules = dict@;
                let (slot, step) = proceed(
                    &mut cache,
                    &mut encode_buffer,
                    job,
                    Ghost(before),
                    Ghost(at + 1),
                    Ghost(rules),
                );
                *self = EzContext { cache, dict, encode_buffer, job: slot };
                step
            },
        }
    }
}

} // verus!
