//! Substitution dictionaries: ordered rules that replace one text by another.

use crate::error::Error;
use crate::order::{
    key_le, key_precedes, lemma_lex_le_reflexive, lemma_lex_le_total, lemma_lex_le_transitive,
};
use crate::text::{lemma_replace_by_itself, replace_all, replace_occurrences};
use vstd::prelude::*;
use vstd::std_specs::iter::IteratorSpec;
use vstd::utf8::encode_utf8;

verus! {

/// The mathematical value of a rule.
pub struct RuleView {
    pub pattern: Seq<char>,
    pub replacement: Seq<char>,
}

/// One substitution rule. Its pattern is never empty.
pub struct EzDictItem {
    key: String,
    value: String,
}

impl View for EzDictItem {
    type V = RuleView;

    closed spec fn view(&self) -> RuleView {
        RuleView { pattern: self.key@, replacement: self.value@ }
    }
}

impl EzDictItem {
    #[verifier::type_invariant]
    spec fn has_pattern(self) -> bool {
        self.key@.len() > 0
    }

    /// A rule that replaces `key` by `value`. An empty `key` is refused: no
    /// rule has an empty pattern.
    pub fn new(key: String, value: String) -> (made: Result<Self, Error>)
        ensures
            key@.len() == 0 <==> made is Err,
            made matches Err(e) ==> e == Error::InvalidRule,
            made matches Ok(item) ==> item@ == (RuleView { pattern: key@, replacement: value@ }),
    {
        if key.as_str().is_empty() {
            Err(Error::InvalidRule)
        } else {
            Ok(Self { key, value })
        }
    }

    /// Replaces in `text` every occurrence of the pattern by the replacement,
    /// from left to right, never searching what a replacement put in.
    pub fn apply(&self, text: &mut String)
        ensures
            final(text)@ == replace_all(old(text)@, self@.pattern, self@.replacement),
    {
        proof {
            use_type_invariant(self);
        }
        if self.key == self.value {
            proof {
                lemma_replace_by_itself(text@, self.key@);
            }
        } else {
            let out = replace_occurrences(text.as_str(), self.key.as_str(), self.value.as_str());
            *text = out;
        }
    }

    /// The pattern.
    pub fn key(&self) -> (k: &str)
        ensures
            k@ == self@.pattern,
            k@.len() > 0,
    {
        proof {
            use_type_invariant(self);
        }
        self.key.as_str()
    }

    /// The replacement.
    pub fn value(&self) -> (v: &str)
        ensures
            v@ == self@.replacement,
    {
        self.value.as_str()
    }
}

/// The values of a sequence of rules, in order.
pub open spec fn rule_views(items: Seq<EzDictItem>) -> Seq<RuleView> {
    Seq::new(items.len(), |i: int| items[i]@)
}

/// `text` after each rule of `rules` has been applied to it, one after the
/// other in the order of `rules`.
pub open spec fn apply_rules(rules: Seq<RuleView>, text: Seq<char>) -> Seq<char>
    decreases rules.len(),
{
    if rules.len() == 0 {
        text
    } else {
        let last = rules.last();
        replace_all(apply_rules(rules.drop_last(), text), last.pattern, last.replacement)
    }
}

/// The rule `a` may stand before the rule `b` in a sorted dictionary.
pub open spec fn rule_le(a: RuleView, b: RuleView) -> bool {
    key_le(a.pattern, b.pattern)
}

/// The patterns of `rules` never decrease.
pub open spec fn is_sorted(rules: Seq<RuleView>) -> bool {
    forall|i: int, j: int| 0 <= i <= j < rules.len() ==> rule_le(rules[i], rules[j])
}

/// The number of rules at the head of `rules` that may stand before `x`.
pub open spec fn insert_pos(rules: Seq<RuleView>, x: RuleView) -> int
    decreases rules.len(),
{
    if rules.len() == 0 || !rule_le(rules[0], x) {
        0
    } else {
        1 + insert_pos(rules.drop_first(), x)
    }
}

/// `rules` with `x` put behind the rules at its head that may stand before it.
pub open spec fn insert_sorted(rules: Seq<RuleView>, x: RuleView) -> Seq<RuleView> {
    rules.insert(insert_pos(rules, x), x)
}

/// `rules` sorted by pattern. Rules with the same pattern keep the order in
/// which they stand in `rules`.
pub open spec fn sort_rules(rules: Seq<RuleView>) -> Seq<RuleView>
    decreases rules.len(),
{
    if rules.len() == 0 {
        Seq::empty()
    } else {
        insert_sorted(sort_rules(rules.drop_last()), rules.last())
    }
}

/// Where [`insert_pos`] points: behind rules that may stand before `x`, and
/// before a rule that may not.
pub proof fn lemma_insert_pos(rules: Seq<RuleView>, x: RuleView)
    ensures
        0 <= insert_pos(rules, x) <= rules.len(),
        forall|i: int| 0 <= i < insert_pos(rules, x) ==> rule_le(#[trigger] rules[i], x),
        insert_pos(rules, x) < rules.len() ==> !rule_le(rules[insert_pos(rules, x)], x),
    decreases rules.len(),
{
    if rules.len() == 0 || !rule_le(rules[0], x) {
    } else {
        let rest = rules.drop_first();
        lemma_insert_pos(rest, x);
        assert forall|i: int| 0 <= i < insert_pos(rules, x) implies rule_le(
            #[trigger] rules[i],
            x,
        ) by {
            if i > 0 {
                assert(rules[i] == rest[i - 1]);
            }
        }
        if insert_pos(rules, x) < rules.len() {
            assert(rules[insert_pos(rules, x)] == rest[insert_pos(rest, x)]);
        }
    }
}

/// Putting a rule into a sorted sequence leaves it sorted.
pub proof fn lemma_insert_keeps_sorted(rules: Seq<RuleView>, x: RuleView)
    requires
        is_sorted(rules),
    ensures
        is_sorted(insert_sorted(rules, x)),
{
    let pos = insert_pos(rules, x);
    let out = insert_sorted(rules, x);
    lemma_insert_pos(rules, x);
    assert forall|i: int, j: int| 0 <= i <= j < out.len() implies rule_le(out[i], out[j]) by {
        if i == j {
            lemma_lex_le_reflexive(encode_utf8(out[i].pattern));
        } else if j < pos {
            assert(out[i] == rules[i] && out[j] == rules[j]);
        } else if j == pos {
            assert(out[i] == rules[i]);
        } else if i < pos {
            assert(out[i] == rules[i] && out[j] == rules[j - 1]);
        } else {
            assert(out[j] == rules[j - 1]);
            assert(rule_le(rules[pos], rules[j - 1]));
            lemma_lex_le_total(encode_utf8(rules[pos].pattern), encode_utf8(x.pattern));
            lemma_lex_le_transitive(
                encode_utf8(x.pattern),
                encode_utf8(rules[pos].pattern),
                encode_utf8(rules[j - 1].pattern),
            );
            if i > pos {
                assert(out[i] == rules[i - 1]);
            }
        }
    }
}

/// Sorting gives a sequence whose patterns never decrease.
pub proof fn lemma_sort_is_sorted(rules: Seq<RuleView>)
    ensures
        is_sorted(sort_rules(rules)),
    decreases rules.len(),
{
    if rules.len() > 0 {
        lemma_sort_is_sorted(rules.drop_last());
        lemma_insert_keeps_sorted(sort_rules(rules.drop_last()), rules.last());
    }
}

/// Sorting neither loses nor adds a rule.
pub proof fn lemma_sort_permutes(rules: Seq<RuleView>)
    ensures
        sort_rules(rules).to_multiset() == rules.to_multiset(),
        sort_rules(rules).len() == rules.len(),
    decreases rules.len(),
{
    if rules.len() > 0 {
        let init = rules.drop_last();
        lemma_sort_permutes(init);
        lemma_insert_pos(sort_rules(init), rules.last());
        vstd::seq_lib::to_multiset_insert(
            sort_rules(init),
            insert_pos(sort_rules(init), rules.last()),
            rules.last(),
        );
        vstd::seq_lib::to_multiset_build(init, rules.last());
        assert(init.push(rules.last()) == rules);
    } else {
        assert(sort_rules(rules) == rules);
    }
}

/// Sorting is stable: the rules of any one pattern stand in the result in the
/// order in which they stood before.
pub proof fn lemma_sort_is_stable(rules: Seq<RuleView>, pattern: Seq<char>)
    ensures
        sort_rules(rules).filter(|r: RuleView| r.pattern == pattern) == rules.filter(
            |r: RuleView| r.pattern == pattern,
        ),
    decreases rules.len(),
{
    let same = |r: RuleView| r.pattern == pattern;
    if rules.len() == 0 {
        assert(sort_rules(rules) == rules);
    } else {
        let init = rules.drop_last();
        let x = rules.last();
        let sorted = sort_rules(init);
        let pos = insert_pos(sorted, x);
        lemma_sort_is_stable(init, pattern);
        lemma_sort_is_sorted(init);
        lemma_insert_pos(sorted, x);
        let head = sorted.subrange(0, pos);
        let tail = sorted.subrange(pos, sorted.len() as int);
        assert(sorted == head + tail);
        assert(insert_sorted(sorted, x) == head.push(x) + tail);
        Seq::filter_distributes_over_add(head, tail, same);
        Seq::filter_distributes_over_add(head.push(x), tail, same);
        head.lemma_filter_push(x, same);
        init.lemma_filter_push(x, same);
        assert(init.push(x) == rules);
        if same(x) {
            assert(tail.all(|r: RuleView| !same(r))) by {
                assert forall|k: int| 0 <= k < tail.len() implies !same(#[trigger] tail[k]) by {
                    if same(tail[k]) {
                        assert(tail[k] == sorted[pos + k]);
                        assert(rule_le(sorted[pos], sorted[pos + k]));
                        lemma_lex_le_reflexive(encode_utf8(pattern));
                        lemma_lex_le_transitive(
                            encode_utf8(sorted[pos].pattern),
                            encode_utf8(sorted[pos + k].pattern),
                            encode_utf8(x.pattern),
                        );
                    }
                }
            }
            tail.lemma_all_neg_filter_empty(same);
            assert(tail.filter(same) == Seq::<RuleView>::empty());
            assert(head.filter(same) + tail.filter(same) == head.filter(same));
            assert(head.filter(same).push(x) + tail.filter(same) == head.filter(same).push(x));
        } else {
        }
    }
}

/// Sorting a sorted sequence changes nothing.
pub proof fn lemma_sort_of_sorted(rules: Seq<RuleView>)
    requires
        is_sorted(rules),
    ensures
        sort_rules(rules) == rules,
    decreases rules.len(),
{
    if rules.len() > 0 {
        let init = rules.drop_last();
        let x = rules.last();
        assert(is_sorted(init)) by {
            assert forall|i: int, j: int| 0 <= i <= j < init.len() implies rule_le(
                init[i],
                init[j],
            ) by {
                assert(init[i] == rules[i] && init[j] == rules[j]);
            }
        }
        lemma_sort_of_sorted(init);
        lemma_insert_pos(init, x);
        let pos = insert_pos(init, x);
        if pos < init.len() {
            assert(init[pos] == rules[pos]);
            assert(rule_le(rules[pos], rules[rules.len() - 1]));
        }
        assert(init.insert(init.len() as int, x) == init.push(x));
        assert(init.push(x) == rules);
    } else {
        assert(sort_rules(rules) == rules);
    }
}

/// The place in `sorted` where `item` goes.
fn insertion_point(sorted: &Vec<EzDictItem>, item: &EzDictItem) -> (pos: usize)
    ensures
        pos == insert_pos(rule_views(sorted@), item@),
{
    let ghost views = rule_views(sorted@);
    let mut pos: usize = 0;
    assert(views.subrange(0, views.len() as int) == views);
    while pos < sorted.len() && key_precedes(sorted[pos].key(), item.key())
        invariant
            pos <= sorted@.len(),
            views == rule_views(sorted@),
            insert_pos(views, item@) == pos + insert_pos(
                views.subrange(pos as int, views.len() as int),
                item@,
            ),
        decreases sorted@.len() - pos,
    {
        proof {
            let rest = views.subrange(pos as int, views.len() as int);
            assert(rest[0] == sorted@[pos as int]@);
            assert(rest.drop_first() == views.subrange(pos + 1, views.len() as int));
        }
        pos += 1;
    }
    proof {
        let rest = views.subrange(pos as int, views.len() as int);
        if pos < sorted@.len() {
            assert(rest[0] == sorted@[pos as int]@);
        }
    }
    pos
}

/// Sorts `items` by pattern, keeping rules of one pattern in their order.
fn sort_items(items: &mut Vec<EzDictItem>)
    ensures
        rule_views(final(items)@) == sort_rules(rule_views(old(items)@)),
{
    let ghost all = rule_views(items@);
    let mut sorted: Vec<EzDictItem> = Vec::new();
    let ghost mut moved: int = 0;
    assert(rule_views(sorted@) == sort_rules(all.subrange(0, 0)));
    assert(all.subrange(0, all.len() as int) == all);
    while items.len() > 0
        invariant
            0 <= moved,
            moved + items@.len() == all.len(),
            rule_views(sorted@) == sort_rules(all.subrange(0, moved)),
            rule_views(items@) == all.subrange(moved, all.len() as int),
        decreases items@.len(),
    {
        let ghost before_items = items@;
        let ghost before_sorted = sorted@;
        let item = items.remove(0);
        let pos = insertion_point(&sorted, &item);
        proof {
            lemma_insert_pos(rule_views(sorted@), item@);
            lemma_sort_permutes(all.subrange(0, moved));
        }
        sorted.insert(pos, item);
        proof {
            let taken = all.subrange(0, moved + 1);
            assert(item@ == all[moved]) by {
                assert(rule_views(before_items)[0] == before_items[0]@);
            }
            assert(taken.drop_last() == all.subrange(0, moved));
            assert(taken.last() == item@);
            assert(rule_views(sorted@) == rule_views(before_sorted).insert(pos as int, item@));
            assert(rule_views(items@) == all.subrange(moved + 1, all.len() as int)) by {
                assert forall|k: int| 0 <= k < items@.len() implies rule_views(items@)[k]
                    == all[moved + 1 + k] by {
                    assert(items@[k] == before_items[k + 1]);
                    assert(rule_views(before_items)[k + 1] == before_items[k + 1]@);
                }
            }
        }
        proof {
            moved = moved + 1;
        }
    }
    *items = sorted;
}

/// Applies the rules of `rules` to `text`, one after the other.
fn apply_items(rules: &Vec<EzDictItem>, text: &mut String)
    ensures
        final(text)@ == apply_rules(rule_views(rules@), old(text)@),
{
    let ghost views = rule_views(rules@);
    let mut i: usize = 0;
    assert(views.subrange(0, 0) == Seq::<RuleView>::empty());
    while i < rules.len()
        invariant
            i <= rules@.len(),
            views == rule_views(rules@),
            text@ == apply_rules(views.subrange(0, i as int), old(text)@),
        decreases rules@.len() - i,
    {
        rules[i].apply(text);
        proof {
            let upto = views.subrange(0, i + 1);
            assert(upto.drop_last() == views.subrange(0, i as int));
            assert(upto.last() == rules@[i as int]@);
        }
        i += 1;
    }
    assert(views.subrange(0, i as int) == views);
}

/// The rules that a sequence of pairs of pattern and replacement stands for.
pub open spec fn entry_views(entries: Seq<(String, String)>) -> Seq<RuleView> {
    Seq::new(
        entries.len(),
        |i: int| RuleView { pattern: entries[i].0@, replacement: entries[i].1@ },
    )
}

/// Makes a rule of each pair of pattern and replacement, in order. A pair with
/// an empty pattern is refused, and with it the whole sequence.
pub fn rules_from_entries(entries: Vec<(String, String)>) -> (made: Result<Vec<EzDictItem>, Error>)
    ensures
        made is Ok <==> forall|i: int|
            0 <= i < entries@.len() ==> (#[trigger] entries@[i]).0@.len() > 0,
        made matches Ok(rules) ==> rule_views(rules@) == entry_views(entries@),
        made matches Err(e) ==> e == Error::InvalidRule,
{
    let mut rules: Vec<EzDictItem> = Vec::new();
    let ghost all = entries@;
    for entry in rest: entries
        invariant
            rest.seq() == all,
            rule_views(rules@) == entry_views(all.subrange(0, rest.index())),
            forall|i: int| 0 <= i < rest.index() ==> (#[trigger] all[i]).0@.len() > 0,
    {
        let ghost before_rules = rule_views(rules@);
        let ghost taken = rest.index();
        let (key, value) = entry;
        match EzDictItem::new(key, value) {
            Err(e) => {
                return Err(e);
            },
            Ok(item) => {
                rules.push(item);
                proof {
                    let upto = all.subrange(0, taken + 1);
                    assert(rule_views(rules@) == before_rules.push(item@));
                    assert(entry_views(upto) == entry_views(all.subrange(0, taken)).push(item@))
                        by {
                        assert(upto.drop_last() == all.subrange(0, taken));
                    }
                }
            },
        }
    }
    assert(all.subrange(0, all.len() as int) == all);
    Ok(rules)
}

/// The pairs of pattern and replacement of `rules`, in order.
pub fn entries_of(rules: &Vec<EzDictItem>) -> (entries: Vec<(String, String)>)
    ensures
        entry_views(entries@) == rule_views(rules@),
        forall|i: int| 0 <= i < entries@.len() ==> (#[trigger] entries@[i]).0@.len() > 0,
{
    let mut entries: Vec<(String, String)> = Vec::new();
    let mut i: usize = 0;
    while i < rules.len()
        invariant
            i <= rules@.len(),
            entries@.len() == i,
            forall|k: int|
                0 <= k < i ==> (#[trigger] entries@[k]).0@ == rules@[k]@.pattern && entries@[k].1@
                    == rules@[k]@.replacement && entries@[k].0@.len() > 0,
        decreases rules@.len() - i,
    {
        let key = rules[i].key().to_owned();
        let value = rules[i].value().to_owned();
        entries.push((key, value));
        i += 1;
    }
    assert(entry_views(entries@) =~= rule_views(rules@));
    entries
}

/// The mathematical value of a dictionary pair.
pub struct DictView {
    pub sort: bool,
    pub before: Seq<RuleView>,
    pub after: Seq<RuleView>,
}

/// The rules applied before the engine sees a text and the rules applied to
/// what the engine returns, with the switch that keeps both sorted.
pub struct EzDict {
    sort: bool,
    before_dict: Vec<EzDictItem>,
    after_dict: Vec<EzDictItem>,
}

impl View for EzDict {
    type V = DictView;

    closed spec fn view(&self) -> DictView {
        DictView {
            sort: self.sort,
            before: rule_views(self.before_dict@),
            after: rule_views(self.after_dict@),
        }
    }
}

/// A dictionary that is kept sorted has both rule sequences sorted.
pub open spec fn dict_in_order(d: DictView) -> bool {
    d.sort ==> is_sorted(d.before) && is_sorted(d.after)
}

/// `rules` as a dictionary with the switch `sort` holds them.
pub open spec fn arranged(sort: bool, rules: Seq<RuleView>) -> Seq<RuleView> {
    if sort {
        sort_rules(rules)
    } else {
        rules
    }
}

impl EzDict {
    /// What holds of every dictionary: where it is to be kept sorted, both of
    /// its rule sequences are sorted.
    #[verifier::type_invariant]
    pub open spec fn wf(&self) -> bool {
        dict_in_order(self@)
    }

    /// A dictionary without rules.
    pub fn new(sort: bool) -> (dict: Self)
        ensures
            dict@ == (DictView { sort, before: Seq::empty(), after: Seq::empty() }),
            dict.wf(),
    {
        let before_dict: Vec<EzDictItem> = Vec::new();
        let after_dict: Vec<EzDictItem> = Vec::new();
        assert(rule_views(before_dict@) == Seq::<RuleView>::empty());
        assert(rule_views(after_dict@) == Seq::<RuleView>::empty());
        Self { sort, before_dict, after_dict }
    }

    /// A dictionary of the given rules, sorted where `sort` is set.
    pub fn from_rules(sort: bool, before: Vec<EzDictItem>, after: Vec<EzDictItem>) -> (dict: Self)
        ensures
            dict@ == (DictView {
                sort,
                before: arranged(sort, rule_views(before@)),
                after: arranged(sort, rule_views(after@)),
            }),
            dict.wf(),
    {
        let mut before_dict = before;
        let mut after_dict = after;
        if sort {
            sort_items(&mut before_dict);
            sort_items(&mut after_dict);
            proof {
                lemma_sort_is_sorted(rule_views(before@));
                lemma_sort_is_sorted(rule_views(after@));
            }
        }
        Self { sort, before_dict, after_dict }
    }

    /// A dictionary of the rules that the given pairs of pattern and
    /// replacement stand for, sorted where `sort` is set. A pair with an empty
    /// pattern is refused, and with it the whole dictionary.
    pub fn from_entries(
        sort: bool,
        before: Vec<(String, String)>,
        after: Vec<(String, String)>,
    ) -> (made: Result<Self, Error>)
        ensures
            made is Ok <==> (forall|i: int|
                0 <= i < before@.len() ==> (#[trigger] before@[i]).0@.len() > 0) && (forall|i: int|
                0 <= i < after@.len() ==> (#[trigger] after@[i]).0@.len() > 0),
            made matches Ok(dict) ==> dict@ == (DictView {
                sort,
                before: arranged(sort, entry_views(before@)),
                after: arranged(sort, entry_views(after@)),
            }) && dict.wf(),
            made matches Err(e) ==> e == Error::InvalidRule,
    {
        let before_rules = match rules_from_entries(before) {
            Ok(rules) => rules,
            Err(e) => {
                return Err(e);
            },
        };
        let after_rules = match rules_from_entries(after) {
            Ok(rules) => rules,
            Err(e) => {
                return Err(e);
            },
        };
        Ok(Self::from_rules(sort, before_rules, after_rules))
    }

    /// The rules applied before the engine, as pairs of pattern and
    /// replacement in their order. No pattern among them is empty.
    pub fn before_entries(&self) -> (entries: Vec<(String, String)>)
        ensures
            self.wf(),
            entry_views(entries@) == self@.before,
            forall|i: int| 0 <= i < entries@.len() ==> (#[trigger] entries@[i]).0@.len() > 0,
    {
        proof {
            use_type_invariant(self);
        }
        entries_of(&self.before_dict)
    }

    /// The rules applied after the engine, as pairs of pattern and
    /// replacement in their order. No pattern among them is empty.
    pub fn after_entries(&self) -> (entries: Vec<(String, String)>)
        ensures
            self.wf(),
            entry_views(entries@) == self@.after,
            forall|i: int| 0 <= i < entries@.len() ==> (#[trigger] entries@[i]).0@.len() > 0,
    {
        proof {
            use_type_invariant(self);
        }
        entries_of(&self.after_dict)
    }

    /// Whether the dictionary keeps its rules sorted.
    pub fn sort_enabled(&self) -> (sort: bool)
        ensures
            self.wf(),
            sort == self@.sort,
    {
        proof {
            use_type_invariant(self);
        }
        self.sort
    }

    /// The rules applied before the engine.
    pub fn before_rules(&self) -> (rules: &Vec<EzDictItem>)
        ensures
            self.wf(),
            rule_views(rules@) == self@.before,
    {
        proof {
            use_type_invariant(self);
        }
        &self.before_dict
    }

    /// The rules applied after the engine.
    pub fn after_rules(&self) -> (rules: &Vec<EzDictItem>)
        ensures
            self.wf(),
            rule_views(rules@) == self@.after,
    {
        proof {
            use_type_invariant(self);
        }
        &self.after_dict
    }

    /// Takes the dictionary apart, leaving an empty one in its place.
    fn take_parts(&mut self) -> (parts: (bool, Vec<EzDictItem>, Vec<EzDictItem>))
        ensures
            parts.0 == old(self)@.sort,
            rule_views(parts.1@) == old(self)@.before,
            rule_views(parts.2@) == old(self)@.after,
            dict_in_order(old(self)@),
    {
        proof {
            use_type_invariant(&*self);
        }
        let mut taken = Self::new(false);
        core::mem::swap(self, &mut taken);
        let EzDict { sort, before_dict, after_dict } = taken;
        (sort, before_dict, after_dict)
    }

    /// Sorts the rules applied before the engine, where sorting is switched
    /// on. They are in order already, as the rules of every dictionary are,
    /// so their order stays as it is.
    pub fn sort_before_dict(&mut self)
        ensures
            final(self)@ == (DictView {
                before: arranged(old(self)@.sort, old(self)@.before),
                ..old(self)@
            }),
            final(self)@ == old(self)@,
            final(self).wf(),
    {
        let (sort, before_dict, after_dict) = self.take_parts();
        let mut before_dict = before_dict;
        if sort {
            proof {
                lemma_sort_of_sorted(rule_views(before_dict@));
            }
            sort_items(&mut before_dict);
        }
        *self = EzDict { sort, before_dict, after_dict };
    }

    /// Sorts the rules applied after the engine, where sorting is switched
    /// on. They are in order already, as the rules of every dictionary are,
    /// so their order stays as it is.
    pub fn sort_after_dict(&mut self)
        ensures
            final(self)@ == (DictView {
                after: arranged(old(self)@.sort, old(self)@.after),
                ..old(self)@
            }),
            final(self)@ == old(self)@,
            final(self).wf(),
    {
        let (sort, before_dict, after_dict) = self.take_parts();
        let mut after_dict = after_dict;
        if sort {
            proof {
                lemma_sort_of_sorted(rule_views(after_dict@));
            }
            sort_items(&mut after_dict);
        }
        *self = EzDict { sort, before_dict, after_dict };
    }

    /// Sorts both rule sequences, where sorting is switched on.
    pub fn sort(&mut self)
        ensures
            final(self)@ == (DictView {
                sort: old(self)@.sort,
                before: arranged(old(self)@.sort, old(self)@.before),
                after: arranged(old(self)@.sort, old(self)@.after),
            }),
            final(self)@ == old(self)@,
            final(self).wf(),
    {
        self.sort_after_dict();
        self.sort_before_dict();
    }

    /// Adds a rule to those applied before the engine, and sorts them where
    /// sorting is switched on. An empty pattern is refused and leaves the
    /// dictionary as it was.
    pub fn add_before_rule(&mut self, key: String, value: String) -> (added: Result<(), Error>)
        ensures
            key@.len() == 0 ==> added == Err::<(), Error>(Error::InvalidRule) && final(self)@
                == old(self)@,
            key@.len() > 0 ==> added is Ok && final(self)@ == (DictView {
                before: arranged(
                    old(self)@.sort,
                    old(self)@.before.push(RuleView { pattern: key@, replacement: value@ }),
                ),
                ..old(self)@
            }),
            old(self).wf(),
            final(self).wf(),
    {
        let (sort, before_dict, after_dict) = self.take_parts();
        let mut before_dict = before_dict;
        let added = match EzDictItem::new(key, value) {
            Err(e) => Err(e),
            Ok(item) => {
                let ghost views = rule_views(before_dict@);
                before_dict.push(item);
                assert(rule_views(before_dict@) == views.push(item@));
                if sort {
                    sort_items(&mut before_dict);
                    proof {
                        lemma_sort_is_sorted(views.push(item@));
                    }
                }
                Ok(())
            },
        };
        *self = EzDict { sort, before_dict, after_dict };
        added
    }

    /// Adds a rule to those applied after the engine, and sorts them where
    /// sorting is switched on. An empty pattern is refused and leaves the
    /// dictionary as it was.
    pub fn add_after_rule(&mut self, key: String, value: String) -> (added: Result<(), Error>)
        ensures
            key@.len() == 0 ==> added == Err::<(), Error>(Error::InvalidRule) && final(self)@
                == old(self)@,
            key@.len() > 0 ==> added is Ok && final(self)@ == (DictView {
                after: arranged(
                    old(self)@.sort,
                    old(self)@.after.push(RuleView { pattern: key@, replacement: value@ }),
                ),
                ..old(self)@
            }),
            old(self).wf(),
            final(self).wf(),
    {
        let (sort, before_dict, after_dict) = self.take_parts();
        let mut after_dict = after_dict;
        let added = match EzDictItem::new(key, value) {
            Err(e) => Err(e),
            Ok(item) => {
                let ghost views = rule_views(after_dict@);
                after_dict.push(item);
                assert(rule_views(after_dict@) == views.push(item@));
                if sort {
                    sort_items(&mut after_dict);
                    proof {
                        lemma_sort_is_sorted(views.push(item@));
                    }
                }
                Ok(())
            },
        };
        *self = EzDict { sort, before_dict, after_dict };
        added
    }

    /// Applies to `text` the rules that come before the engine, in their order.
    pub fn apply_before(&self, text: &mut String)
        ensures
            final(text)@ == apply_rules(self@.before, old(text)@),
    {
        apply_items(&self.before_dict, text);
    }

    /// Applies to `text` the rules that come after the engine, in their order.
    pub fn apply_after(&self, text: &mut String)
        ensures
            final(text)@ == apply_rules(self@.after, old(text)@),
    {
        apply_items(&self.after_dict, text);
    }
}

/// A dictionary in order that is taken apart into its switch and its rules and
/// put together again from them is the same dictionary: its rules stand in
/// the same order, sorted or not.
pub proof fn lemma_rebuilt_dict_is_same(d: DictView)
    requires
        dict_in_order(d),
    ensures
        (DictView {
            sort: d.sort,
            before: arranged(d.sort, d.before),
            after: arranged(d.sort, d.after),
        }) == d,
{
    if d.sort {
        lemma_sort_of_sorted(d.before);
        lemma_sort_of_sorted(d.after);
    }
}

} // verus!
