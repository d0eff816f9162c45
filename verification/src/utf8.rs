//! Facts about UTF-8 that connect positions in the bytes of a text with
//! positions in its characters.

use vstd::prelude::*;
use vstd::utf8::*;

verus! {

/// `pat` stands in `text` at index `i`.
pub open spec fn occurs_at<T>(text: Seq<T>, pat: Seq<T>, i: int) -> bool {
    0 <= i && i + pat.len() <= text.len() && text.subrange(i, i + pat.len()) == pat
}

/// `pat` stands in `text` at index `i` and at no index before it.
pub open spec fn first_occurrence<T>(text: Seq<T>, pat: Seq<T>, i: int) -> bool {
    occurs_at(text, pat, i) && forall|j: int| 0 <= j < i ==> !occurs_at(text, pat, j)
}

/// `pat` stands nowhere in `text`.
pub open spec fn no_occurrence<T>(text: Seq<T>, pat: Seq<T>) -> bool {
    forall|j: int| !occurs_at(text, pat, j)
}

/// The encoding of a concatenation is the concatenation of the encodings.
pub proof fn lemma_encode_concat(a: Seq<char>, b: Seq<char>)
    ensures
        encode_utf8(a + b) == encode_utf8(a) + encode_utf8(b),
    decreases a.len(),
{
    if a.len() == 0 {
        assert(a + b == b);
        assert(encode_utf8(a) + encode_utf8(b) == encode_utf8(b));
    } else {
        lemma_encode_concat(a.drop_first(), b);
        assert((a + b).drop_first() == a.drop_first() + b);
        assert((a + b)[0] == a[0]);
        assert(encode_utf8(a + b) == encode_scalar(a[0] as u32) + (encode_utf8(a.drop_first())
            + encode_utf8(b)));
    }
}

/// Every character takes at least one byte.
pub proof fn lemma_encode_len(a: Seq<char>)
    ensures
        encode_utf8(a).len() >= a.len(),
    decreases a.len(),
{
    if a.len() > 0 {
        lemma_encode_len(a.drop_first());
    }
}

/// Two texts with the same encoding are the same text.
pub proof fn lemma_encode_injective(a: Seq<char>, b: Seq<char>)
    requires
        encode_utf8(a) == encode_utf8(b),
    ensures
        a == b,
{
    encode_utf8_decode_utf8(a);
    encode_utf8_decode_utf8(b);
}

/// A valid encoding that begins another valid encoding ends on a character
/// boundary of the longer one.
pub proof fn lemma_prefix_ends_on_boundary(whole: Seq<u8>, part: Seq<u8>)
    requires
        valid_utf8(whole),
        valid_utf8(part),
        occurs_at(whole, part, 0),
    ensures
        is_char_boundary(whole, part.len() as int),
    decreases part.len(),
{
    if part.len() > 0 {
        let n = length_of_first_scalar(part);
        assert(part[0] == whole.subrange(0, part.len() as int)[0]);
        assert(length_of_first_scalar(whole) == n);
        assert(n <= part.len());
        let part_rest = pop_first_scalar(part);
        let whole_rest = pop_first_scalar(whole);
        assert(whole_rest.subrange(0, part_rest.len() as int) == part_rest) by {
            assert forall|k: int| 0 <= k < part_rest.len() implies whole_rest[k]
                == part_rest[k] by {
                assert(part[k + n] == whole.subrange(0, part.len() as int)[k + n]);
            }
        }
        lemma_prefix_ends_on_boundary(whole_rest, part_rest);
    }
}

/// Where the encoding of a text that is not empty stands in the encoding of
/// another, it begins on a character boundary, and what follows its beginning
/// ends there on a character boundary too.
pub proof fn lemma_match_on_boundaries(text: Seq<char>, pat: Seq<char>, pos: int)
    requires
        pat.len() > 0,
        occurs_at(encode_utf8(text), encode_utf8(pat), pos),
    ensures
        is_char_boundary(encode_utf8(text), pos),
        valid_utf8(encode_utf8(text).subrange(pos, encode_utf8(text).len() as int)),
        is_char_boundary(
            encode_utf8(text).subrange(pos, encode_utf8(text).len() as int),
            encode_utf8(pat).len() as int,
        ),
{
    let t = encode_utf8(text);
    let p = encode_utf8(pat);
    encode_utf8_valid_utf8(text);
    encode_utf8_valid_utf8(pat);
    lemma_encode_len(pat);
    assert(t[pos] == t.subrange(pos, pos + p.len())[0]);
    assert(valid_first_scalar(p));
    assert(!is_continuation_byte(p[0]));
    is_char_boundary_iff_not_is_continuation_byte(t, pos);
    valid_utf8_split(t, pos);
    let tail = t.subrange(pos, t.len() as int);
    assert(tail.subrange(0, p.len() as int) == t.subrange(pos, pos + p.len()));
    lemma_prefix_ends_on_boundary(tail, p);
}

/// Where `pat` stands in the characters of `text`, its encoding stands in the
/// encoding of `text`, after the encoding of what comes before it.
pub proof fn lemma_occurrence_in_bytes(text: Seq<char>, pat: Seq<char>, i: int)
    requires
        occurs_at(text, pat, i),
    ensures
        occurs_at(
            encode_utf8(text),
            encode_utf8(pat),
            encode_utf8(text.subrange(0, i)).len() as int,
        ),
{
    let head = text.subrange(0, i);
    let tail = text.subrange(i + pat.len(), text.len() as int);
    assert(text == head + pat + tail);
    lemma_encode_concat(head + pat, tail);
    lemma_encode_concat(head, pat);
    let h = encode_utf8(head);
    let p = encode_utf8(pat);
    let t = encode_utf8(text);
    assert(t == h + p + encode_utf8(tail));
    assert(t.subrange(h.len() as int, (h.len() + p.len()) as int) == p);
}

/// Cutting the encoding of `text` around the first place where the encoding of
/// `pat` stands in it cuts `text` around the first place where `pat` stands in
/// it.
pub proof fn lemma_first_occurrence_in_chars(
    text: Seq<char>,
    pat: Seq<char>,
    head: Seq<char>,
    tail: Seq<char>,
)
    requires
        pat.len() > 0,
        first_occurrence(encode_utf8(text), encode_utf8(pat), encode_utf8(head).len() as int),
        encode_utf8(text) == encode_utf8(head) + encode_utf8(pat) + encode_utf8(tail),
    ensures
        text == head + pat + tail,
        first_occurrence(text, pat, head.len() as int),
{
    lemma_encode_concat(head + pat, tail);
    lemma_encode_concat(head, pat);
    lemma_encode_injective(text, head + pat + tail);
    let h = head.len() as int;
    assert(text.subrange(h, h + pat.len()) == pat);
    assert(text.subrange(0, h) == head);
    assert forall|j: int| 0 <= j < h implies !occurs_at(text, pat, j) by {
        if occurs_at(text, pat, j) {
            lemma_occurrence_in_bytes(text, pat, j);
            let before = text.subrange(0, j);
            let between = text.subrange(j, h);
            assert(head == before + between);
            lemma_encode_concat(before, between);
            lemma_encode_len(between);
            assert(encode_utf8(before).len() < encode_utf8(head).len());
        }
    }
}

/// Where the encoding of `pat` stands nowhere in the encoding of `text`, `pat`
/// stands nowhere in `text`.
pub proof fn lemma_no_occurrence_in_chars(text: Seq<char>, pat: Seq<char>)
    requires
        no_occurrence(encode_utf8(text), encode_utf8(pat)),
    ensures
        no_occurrence(text, pat),
{
    assert forall|j: int| !occurs_at(text, pat, j) by {
        if occurs_at(text, pat, j) {
            lemma_occurrence_in_bytes(text, pat, j);
        }
    }
}

} // verus!
