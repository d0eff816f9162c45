//! Text as sequences of characters: substring search and replacement.

use crate::utf8::{
    first_occurrence, lemma_first_occurrence_in_chars, lemma_match_on_boundaries,
    lemma_no_occurrence_in_chars, no_occurrence, occurs_at,
};
use vstd::prelude::*;
use vstd::string::StringExecFns;
use vstd::utf8::*;

verus! {

/// `String::push` appends one character to the text.
pub assume_specification[ String::push ](s: &mut String, ch: char)
    ensures
        final(s)@ == old(s)@.push(ch),
;

/// `text` with every occurrence of `pat` replaced by `rep`. Occurrences are
/// taken from left to right and do not overlap; what a replacement puts in is
/// not searched again. An empty `pat` occurs nowhere.
pub open spec fn replace_all(text: Seq<char>, pat: Seq<char>, rep: Seq<char>) -> Seq<char>
    decreases text.len(),
{
    if pat.len() == 0 || text.len() < pat.len() {
        text
    } else if text.subrange(0, pat.len() as int) == pat {
        rep + replace_all(text.subrange(pat.len() as int, text.len() as int), pat, rep)
    } else {
        seq![text[0]] + replace_all(text.subrange(1, text.len() as int), pat, rep)
    }
}

/// The number of occurrences of `pat` that [`replace_all`] replaces in `text`.
pub open spec fn count_replaced(text: Seq<char>, pat: Seq<char>) -> nat
    decreases text.len(),
{
    if pat.len() == 0 || text.len() < pat.len() {
        0
    } else if text.subrange(0, pat.len() as int) == pat {
        1 + count_replaced(text.subrange(pat.len() as int, text.len() as int), pat)
    } else {
        count_replaced(text.subrange(1, text.len() as int), pat)
    }
}

/// A text in which the pattern stands nowhere is left as it is.
pub proof fn lemma_replace_without_occurrence(text: Seq<char>, pat: Seq<char>, rep: Seq<char>)
    requires
        no_occurrence(text, pat),
    ensures
        replace_all(text, pat, rep) == text,
    decreases text.len(),
{
    if pat.len() == 0 || text.len() < pat.len() {
    } else {
        assert(!occurs_at(text, pat, 0));
        let rest = text.subrange(1, text.len() as int);
        assert forall|j: int| !occurs_at(rest, pat, j) by {
            if occurs_at(rest, pat, j) {
                assert(text.subrange(j + 1, j + 1 + pat.len()) == rest.subrange(j, j + pat.len()));
                assert(occurs_at(text, pat, j + 1));
            }
        }
        lemma_replace_without_occurrence(rest, pat, rep);
        assert(seq![text[0]] + rest == text);
    }
}

/// Replacement works through the text from occurrence to occurrence: what
/// stands before the first occurrence is kept, the occurrence is replaced, and
/// the replacement goes on behind the occurrence.
pub proof fn lemma_replace_at_first_occurrence(
    text: Seq<char>,
    pat: Seq<char>,
    rep: Seq<char>,
    i: int,
)
    requires
        pat.len() > 0,
        first_occurrence(text, pat, i),
    ensures
        replace_all(text, pat, rep) == text.subrange(0, i) + rep + replace_all(
            text.subrange(i + pat.len(), text.len() as int),
            pat,
            rep,
        ),
        count_replaced(text, pat) == 1 + count_replaced(
            text.subrange(i + pat.len(), text.len() as int),
            pat,
        ),
    decreases i,
{
    if i == 0 {
        assert(text.subrange(0, 0) + rep == rep);
    } else {
        assert(!occurs_at(text, pat, 0));
        let rest = text.subrange(1, text.len() as int);
        assert(rest.subrange(i - 1, i - 1 + pat.len()) == text.subrange(i, i + pat.len()));
        assert forall|j: int| 0 <= j < i - 1 implies !occurs_at(rest, pat, j) by {
            if occurs_at(rest, pat, j) {
                assert(text.subrange(j + 1, j + 1 + pat.len()) == rest.subrange(j, j + pat.len()));
                assert(occurs_at(text, pat, j + 1));
            }
        }
        lemma_replace_at_first_occurrence(rest, pat, rep, i - 1);
        assert(rest.subrange(i - 1 + pat.len(), rest.len() as int) == text.subrange(
            i + pat.len(),
            text.len() as int,
        ));
        assert(seq![text[0]] + rest.subrange(0, i - 1) == text.subrange(0, i));
        assert(seq![text[0]] + (rest.subrange(0, i - 1) + rep + replace_all(
            text.subrange(i + pat.len(), text.len() as int),
            pat,
            rep,
        )) == text.subrange(0, i) + rep + replace_all(
            text.subrange(i + pat.len(), text.len() as int),
            pat,
            rep,
        ));
    }
}

/// Replacing a pattern by itself changes nothing.
pub proof fn lemma_replace_by_itself(text: Seq<char>, pat: Seq<char>)
    ensures
        replace_all(text, pat, pat) == text,
    decreases text.len(),
{
    if pat.len() == 0 || text.len() < pat.len() {
    } else if text.subrange(0, pat.len() as int) == pat {
        let rest = text.subrange(pat.len() as int, text.len() as int);
        lemma_replace_by_itself(rest, pat);
        assert(text.subrange(0, pat.len() as int) + rest == text);
    } else {
        let rest = text.subrange(1, text.len() as int);
        lemma_replace_by_itself(rest, pat);
        assert(seq![text[0]] + rest == text);
    }
}

/// Each occurrence that is replaced is replaced once: the result has the
/// length of the text, less the pattern's length and more the replacement's
/// length for each of them. This holds whatever the replacement contains, the
/// pattern itself included.
pub proof fn lemma_replace_length(text: Seq<char>, pat: Seq<char>, rep: Seq<char>)
    ensures
        replace_all(text, pat, rep).len() + count_replaced(text, pat) * pat.len() == text.len()
            + count_replaced(text, pat) * rep.len(),
        count_replaced(text, pat) * pat.len() <= text.len(),
    decreases text.len(),
{
    let c = count_replaced(text, pat) as int;
    let p = pat.len() as int;
    let r = rep.len() as int;
    if pat.len() == 0 || text.len() < pat.len() {
        assert(c * p == 0 && c * r == 0) by (nonlinear_arith)
            requires
                c == 0,
        ;
    } else if text.subrange(0, pat.len() as int) == pat {
        let rest = text.subrange(pat.len() as int, text.len() as int);
        lemma_replace_length(rest, pat, rep);
        let n = count_replaced(rest, pat) as int;
        assert(c * p == p + n * p && c * r == r + n * r) by (nonlinear_arith)
            requires
                c == 1 + n,
        ;
        assert(replace_all(text, pat, rep).len() == r + replace_all(rest, pat, rep).len());
    } else {
        let rest = text.subrange(1, text.len() as int);
        lemma_replace_length(rest, pat, rep);
        assert(replace_all(text, pat, rep).len() == 1 + replace_all(rest, pat, rep).len());
    }
}

/// `twoway::find_str`: the byte offset at which the UTF-8 encoding of
/// `pattern` first stands in that of `text`, or `None` where it stands
/// nowhere. An empty pattern is found at offset 0.
#[verifier::external_body]
fn find_str(text: &str, pattern: &str) -> (found: Option<usize>)
    ensures
        match found {
            Some(i) => first_occurrence(encode_utf8(text@), encode_utf8(pattern@), i as int),
            None => no_occurrence(encode_utf8(text@), encode_utf8(pattern@)),
        },
{
    twoway::find_str(text, pattern)
}

/// Replaces every occurrence of `pattern` in `text` by `replacement`, from
/// left to right. The search goes on behind each replacement, so a
/// replacement that contains the pattern is not replaced again. An empty
/// pattern occurs nowhere, and leaves the text as it is.
pub fn replace_occurrences(text: &str, pattern: &str, replacement: &str) -> (out: String)
    ensures
        out@ == replace_all(text@, pattern@, replacement@),
{
    if pattern.is_empty() {
        return text.to_owned();
    }
    let mut out = String::new();
    let mut rest: &str = text;
    loop
        invariant_except_break
            out@ + replace_all(rest@, pattern@, replacement@) == replace_all(
                text@,
                pattern@,
                replacement@,
            ),
        invariant
            pattern@.len() > 0,
        ensures
            out@ == replace_all(text@, pattern@, replacement@),
        decreases rest@.len(),
    {
        match find_str(rest, pattern) {
            None => {
                proof {
                    lemma_no_occurrence_in_chars(rest@, pattern@);
                    lemma_replace_without_occurrence(rest@, pattern@, replacement@);
                }
                out.append(rest);
                break ;
            },
            Some(pos) => {
                proof {
                    lemma_match_on_boundaries(rest@, pattern@, pos as int);
                }
                let (head, tail) = rest.split_at(pos);
                let width = pattern.as_bytes().len();
                assert(encode_utf8(tail@) == encode_utf8(rest@).subrange(
                    pos as int,
                    encode_utf8(rest@).len() as int,
                ));
                let (found, after) = tail.split_at(width);
                proof {
                    let bytes = encode_utf8(rest@);
                    let pat_bytes = encode_utf8(pattern@);
                    assert(encode_utf8(found@) == bytes.subrange(pos as int, pos + width));
                    assert(encode_utf8(found@) == pat_bytes);
                    assert(bytes == encode_utf8(head@) + pat_bytes + encode_utf8(after@));
                    lemma_first_occurrence_in_chars(rest@, pattern@, head@, after@);
                    lemma_replace_at_first_occurrence(
                        rest@,
                        pattern@,
                        replacement@,
                        head@.len() as int,
                    );
                    assert(rest@.subrange(0, head@.len() as int) == head@);
                    assert(rest@.subrange((head@.len() + pattern@.len()) as int, rest@.len() as int)
                        == after@);
                }
                out.append(head);
                out.append(replacement);
                rest = after;
            },
        }
    }
    out
}

} // verus!
