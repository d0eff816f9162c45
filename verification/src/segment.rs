//! Splitting text into runs of translatable and pass-through script.

use vstd::prelude::*;
use vstd::std_specs::iter::IteratorSpec;

verus! {

/// Whether a character belongs to the script that the engine translates: the
/// block U+3000..=U+30FF (CJK punctuation and the two syllabaries) or the
/// block U+4E00..=U+9FAF (ideographs).
pub open spec fn is_translatable_char(c: char) -> bool {
    (0x3000 <= c as u32 && c as u32 <= 0x30FF) || (0x4E00 <= c as u32 && c as u32 <= 0x9FAF)
}

/// Classifies one character.
pub fn is_japanese(ch: char) -> (r: bool)
    ensures
        r == is_translatable_char(ch),
{
    let cp: u32 = ch as u32;
    (cp >= 0x3000 && cp <= 0x30FF) || (cp >= 0x4E00 && cp <= 0x9FAF)
}

/// A maximal stretch of text whose characters are all of one class.
pub struct Run {
    pub text: String,
    pub translatable: bool,
}

/// The mathematical value of a [`Run`].
pub struct RunView {
    pub text: Seq<char>,
    pub translatable: bool,
}

impl View for Run {
    type V = RunView;

    open spec fn view(&self) -> RunView {
        RunView { text: self.text@, translatable: self.translatable }
    }
}

/// The values of a sequence of runs, in order.
pub open spec fn run_views(runs: Seq<Run>) -> Seq<RunView> {
    Seq::new(runs.len(), |i: int| runs[i]@)
}

/// The runs of `s`: the text is read left to right, and each character either
/// lengthens the last run, when it is of that run's class, or opens a new one.
pub open spec fn runs_of(s: Seq<char>) -> Seq<RunView>
    decreases s.len(),
{
    if s.len() == 0 {
        Seq::empty()
    } else {
        extend_runs(runs_of(s.drop_last()), s.last())
    }
}

/// One step of [`runs_of`]: the runs of a text followed by the character `c`.
pub open spec fn extend_runs(runs: Seq<RunView>, c: char) -> Seq<RunView> {
    let class = is_translatable_char(c);
    if runs.len() > 0 && runs.last().translatable == class {
        runs.drop_last().push(RunView { text: runs.last().text.push(c), translatable: class })
    } else {
        runs.push(RunView { text: seq![c], translatable: class })
    }
}

/// The texts of `runs` joined in order.
pub open spec fn concat_runs(runs: Seq<RunView>) -> Seq<char>
    decreases runs.len(),
{
    if runs.len() == 0 {
        Seq::empty()
    } else {
        concat_runs(runs.drop_last()) + runs.last().text
    }
}

/// The number of places in `s` where a character is of another class than the
/// character before it.
pub open spec fn transitions(s: Seq<char>) -> nat
    decreases s.len(),
{
    if s.len() <= 1 {
        0
    } else {
        let changed = is_translatable_char(s[s.len() - 1]) != is_translatable_char(s[s.len() - 2]);
        transitions(s.drop_last()) + if changed { 1nat } else { 0nat }
    }
}

/// Every character of `run` is of the run's class, and there is at least one.
pub open spec fn run_is_uniform(run: RunView) -> bool {
    &&& run.text.len() > 0
    &&& forall|k: int|
        0 <= k < run.text.len() ==> is_translatable_char(#[trigger] run.text[k])
            == run.translatable
}

/// Joining the runs of a text gives the text back: nothing is lost, doubled or
/// reordered.
pub proof fn lemma_runs_concat(s: Seq<char>)
    ensures
        concat_runs(runs_of(s)) == s,
    decreases s.len(),
{
    if s.len() > 0 {
        let init = runs_of(s.drop_last());
        lemma_runs_concat(s.drop_last());
        let c = s.last();
        let class = is_translatable_char(c);
        let out = runs_of(s);
        if init.len() > 0 && init.last().translatable == class {
            assert(out.drop_last() == init.drop_last());
            assert(concat_runs(init) == concat_runs(init.drop_last()) + init.last().text);
            assert(concat_runs(out) == concat_runs(init.drop_last()) + init.last().text.push(c));
            assert(concat_runs(out) == concat_runs(init).push(c));
        } else {
            assert(out.drop_last() == init);
            assert(concat_runs(out) == concat_runs(init) + seq![c]);
        }
        assert(s == s.drop_last().push(c));
    }
}

/// Each run is non-empty and of one class, neighbouring runs are of different
/// classes, and the last run is of the class of the last character. Runs are
/// therefore maximal.
pub proof fn lemma_runs_shape(s: Seq<char>)
    ensures
        forall|i: int| 0 <= i < runs_of(s).len() ==> run_is_uniform(#[trigger] runs_of(s)[i]),
        forall|i: int|
            0 < i < runs_of(s).len() ==> (#[trigger] runs_of(s)[i]).translatable != runs_of(
                s,
            )[i - 1].translatable,
        s.len() > 0 ==> runs_of(s).len() > 0 && runs_of(s).last().translatable
            == is_translatable_char(s.last()),
        s.len() == 0 ==> runs_of(s).len() == 0,
    decreases s.len(),
{
    if s.len() > 0 {
        let init = runs_of(s.drop_last());
        lemma_runs_shape(s.drop_last());
        let c = s.last();
        let class = is_translatable_char(c);
        let out = runs_of(s);
        if init.len() > 0 && init.last().translatable == class {
            let grown = RunView { text: init.last().text.push(c), translatable: class };
            assert(out == init.drop_last().push(grown));
            assert(run_is_uniform(init.last()));
            assert forall|i: int| 0 <= i < out.len() implies run_is_uniform(#[trigger] out[i]) by {
                if i < out.len() - 1 {
                    assert(out[i] == init[i]);
                } else {
                    assert(out[i] == grown);
                    assert forall|k: int| 0 <= k < grown.text.len() implies is_translatable_char(
                        #[trigger] grown.text[k],
                    ) == grown.translatable by {
                        if k < init.last().text.len() {
                            assert(grown.text[k] == init.last().text[k]);
                        }
                    }
                }
            }
            assert forall|i: int| 0 < i < out.len() implies (#[trigger] out[i]).translatable
                != out[i - 1].translatable by {
                assert(out[i - 1] == init[i - 1]);
                if i < out.len() - 1 {
                    assert(out[i] == init[i]);
                } else {
                    assert(init[i].translatable != init[i - 1].translatable);
                }
            }
        } else {
            let fresh = RunView { text: seq![c], translatable: class };
            assert(out == init.push(fresh));
            assert forall|i: int| 0 <= i < out.len() implies run_is_uniform(#[trigger] out[i]) by {
                if i < out.len() - 1 {
                    assert(out[i] == init[i]);
                }
            }
            assert forall|i: int| 0 < i < out.len() implies (#[trigger] out[i]).translatable
                != out[i - 1].translatable by {
                assert(out[i - 1] == init[i - 1]);
                if i < out.len() - 1 {
                    assert(out[i] == init[i]);
                }
            }
        }
    }
}

/// A text that is not empty has one run more than it has changes of class.
pub proof fn lemma_runs_count(s: Seq<char>)
    requires
        s.len() > 0,
    ensures
        runs_of(s).len() == transitions(s) + 1,
    decreases s.len(),
{
    let init = runs_of(s.drop_last());
    lemma_runs_shape(s.drop_last());
    if s.len() == 1 {
        assert(s.drop_last().len() == 0);
    } else {
        lemma_runs_count(s.drop_last());
        assert(s.drop_last().last() == s[s.len() - 2]);
    }
}

/// Splits `text` into its runs.
pub fn segment(text: &str) -> (runs: Vec<Run>)
    ensures
        run_views(runs@) == runs_of(text@),
{
    let mut runs: Vec<Run> = Vec::new();
    let mut current = String::new();
    let mut current_class = false;
    let mut open = false;
    let mut chars = text.chars();
    let ghost mut seen: Seq<char> = Seq::empty();
    loop
        invariant
            seen + chars.remaining() == text@,
            chars.obeys_prophetic_iter_laws(),
            chars.decrease() is Some,
            !open ==> seen.len() == 0 && runs@.len() == 0,
            open ==> runs_of(seen) == run_views(runs@).push(
                RunView { text: current@, translatable: current_class },
            ),
        ensures
            runs_of(text@) == if open {
                run_views(runs@).push(RunView { text: current@, translatable: current_class })
            } else {
                run_views(runs@)
            },
        decreases chars.decrease()->0,
    {
        let ghost before = chars.remaining();
        match chars.next() {
            None => {
                assert(seen == text@);
                break ;
            },
            Some(c) => {
                let ghost next_seen = seen.push(c);
                let ghost prev = runs_of(seen);
                proof {
                    assert(before.len() > 0 && c == before[0]);
                    assert(next_seen + chars.remaining() == text@);
                    assert(next_seen.drop_last() == seen);
                    assert(next_seen.last() == c);
                    assert(runs_of(next_seen) == extend_runs(prev, c));
                }
                let class = is_japanese(c);
                if open && class == current_class {
                    let ghost grown = RunView { text: current@.push(c), translatable: class };
                    proof {
                        assert(prev.drop_last() == run_views(runs@));
                        assert(extend_runs(prev, c) == run_views(runs@).push(grown));
                    }
                    current.push(c);
                } else {
                    let ghost fresh = RunView { text: seq![c], translatable: class };
                    if open {
                        let ghost old_views = run_views(runs@);
                        let done = Run { text: current, translatable: current_class };
                        runs.push(done);
                        assert(run_views(runs@) == old_views.push(done@));
                        assert(run_views(runs@) == prev);
                    } else {
                        assert(run_views(runs@) == prev);
                    }
                    assert(extend_runs(prev, c) == run_views(runs@).push(fresh));
                    current = String::new();
                    current.push(c);
                    current_class = class;
                    open = true;
                    assert(current@ == seq![c]);
                }
                proof {
                    seen = next_seen;
                }
            },
        }
    }
    if open {
        let ghost old_views = run_views(runs@);
        let done = Run { text: current, translatable: current_class };
        runs.push(done);
        assert(run_views(runs@) == old_views.push(done@));
    }
    runs
}

} // verus!
