//! The substitution table: for each source character, the ordered list of
//! characters that may stand in its place, the source character first.

use vstd::prelude::*;

verus! {

/// One source character together with its candidate replacements.
pub struct CharClass {
    pub source: char,
    pub candidates: Vec<char>,
}

impl View for CharClass {
    type V = (char, Seq<char>);

    open spec fn view(&self) -> (char, Seq<char>) {
        (self.source, self.candidates@)
    }
}

/// The table's classes as mathematical values.
pub open spec fn classes_view(classes: Seq<CharClass>) -> Seq<(char, Seq<char>)> {
    classes.map_values(|c: CharClass| c@)
}

/// Whether some class of `t` has `k` as its source character.
pub open spec fn has_source(t: Seq<(char, Seq<char>)>, k: char) -> bool {
    exists|j: int| 0 <= j < t.len() && t[j].0 == k
}

/// The position of the class whose source is `k`.
pub open spec fn source_index(t: Seq<(char, Seq<char>)>, k: char) -> int
    recommends
        has_source(t, k),
{
    choose|j: int| 0 <= j < t.len() && t[j].0 == k
}

/// Registers the rule `k -> v`: a new class `[k, v]` for a new source, else
/// `v` appended to the existing candidates unless it is already one of them.
pub open spec fn add_rule(t: Seq<(char, Seq<char>)>, rule: (char, char)) -> Seq<(char, Seq<char>)> {
    let k = rule.0;
    let v = rule.1;
    if has_source(t, k) {
        let j = source_index(t, k);
        if t[j].1.contains(v) {
            t
        } else {
            t.update(j, (k, t[j].1.push(v)))
        }
    } else if v == k {
        t.push((k, seq![k]))
    } else {
        t.push((k, seq![k, v]))
    }
}

/// The table that a list of rules describes, classes in order of first registration.
pub open spec fn table_of(rules: Seq<(char, char)>) -> Seq<(char, Seq<char>)>
    decreases rules.len(),
{
    if rules.len() == 0 {
        Seq::empty()
    } else {
        add_rule(table_of(rules.drop_last()), rules.last())
    }
}

/// Sources are distinct, and each candidate list starts with its source and
/// holds no character twice.
pub open spec fn wf_table(t: Seq<(char, Seq<char>)>) -> bool {
    &&& forall|i: int, j: int| 0 <= i < t.len() && 0 <= j < t.len() && i != j ==> t[i].0 != t[j].0
    &&& forall|i: int|
        0 <= i < t.len() ==> {
            &&& #[trigger] t[i].1.len() >= 1
            &&& t[i].1[0] == t[i].0
            &&& t[i].1.no_duplicates()
        }
}

pub proof fn lemma_add_rule_wf(t: Seq<(char, Seq<char>)>, rule: (char, char))
    requires
        wf_table(t),
    ensures
        wf_table(add_rule(t, rule)),
{
    let k = rule.0;
    let v = rule.1;
    if has_source(t, k) {
        let j = source_index(t, k);
        if !t[j].1.contains(v) {
            let n = add_rule(t, rule);
            assert forall|i: int| 0 <= i < n.len() implies {
                &&& #[trigger] n[i].1.len() >= 1
                &&& n[i].1[0] == n[i].0
                &&& n[i].1.no_duplicates()
            } by {
                if i == j {
                    assert(n[i].1 == t[j].1.push(v));
                    assert(n[i].1[0] == t[j].1[0]);
                }
            }
        }
    }
}

pub proof fn lemma_table_of_wf(rules: Seq<(char, char)>)
    ensures
        wf_table(table_of(rules)),
    decreases rules.len(),
{
    if rules.len() > 0 {
        lemma_table_of_wf(rules.drop_last());
        lemma_add_rule_wf(table_of(rules.drop_last()), rules.last());
    }
}

proof fn lemma_classes_view_push(classes: Seq<CharClass>, c: CharClass)
    ensures
        classes_view(classes.push(c)) == classes_view(classes).push(c@),
{
    assert(classes_view(classes.push(c)) =~= classes_view(classes).push(c@));
}

proof fn lemma_classes_view_update(classes: Seq<CharClass>, j: int, c: CharClass)
    requires
        0 <= j < classes.len(),
    ensures
        classes_view(classes.update(j, c)) == classes_view(classes).update(j, c@),
{
    assert(classes_view(classes.update(j, c)) =~= classes_view(classes).update(j, c@));
}

/// The position of the class of source `k` in `classes`, or `classes.len()` if none.
pub(crate) fn find_class(classes: &Vec<CharClass>, k: char) -> (j: usize)
    ensures
        j <= classes.len(),
        j < classes.len() ==> classes[j as int].source == k,
        forall|x: int| 0 <= x < j ==> classes[x].source != k,
{
    let mut j: usize = 0;
    while j < classes.len() && classes[j].source != k
        invariant
            j <= classes.len(),
            forall|x: int| 0 <= x < j ==> classes[x].source != k,
        decreases classes.len() - j,
    {
        j = j + 1;
    }
    j
}

/// Whether `c` is one of `chars`.
fn contains_char(chars: &Vec<char>, c: char) -> (r: bool)
    ensures
        r == chars@.contains(c),
{
    let mut i: usize = 0;
    while i < chars.len()
        invariant
            i <= chars.len(),
            forall|x: int| 0 <= x < i ==> chars@[x] != c,
        decreases chars.len() - i,
    {
        if chars[i] == c {
            return true;
        }
        i = i + 1;
    }
    false
}

/// A fresh vector holding the same characters.
pub(crate) fn copy_chars(chars: &Vec<char>) -> (r: Vec<char>)
    ensures
        r@ == chars@,
{
    let mut r: Vec<char> = Vec::new();
    let mut i: usize = 0;
    while i < chars.len()
        invariant
            i <= chars.len(),
            r@ == chars@.take(i as int),
        decreases chars.len() - i,
    {
        r.push(chars[i]);
        i = i + 1;
        assert(r@ =~= chars@.take(i as int));
    }
    assert(chars@.take(i as int) =~= chars@);
    r
}

/// Builds the table for a list of rules `source -> replacement`.
pub fn build_table(rules: &Vec<(char, char)>) -> (r: Vec<CharClass>)
    ensures
        classes_view(r@) == table_of(rules@),
        wf_table(classes_view(r@)),
{
    let mut classes: Vec<CharClass> = Vec::new();
    let mut i: usize = 0;
    assert(classes_view(classes@) =~= table_of(rules@.take(0)));
    while i < rules.len()
        invariant
            i <= rules.len(),
            classes_view(classes@) == table_of(rules@.take(i as int)),
        decreases rules.len() - i,
    {
        let (k, v) = rules[i];
        let ghost t = classes_view(classes@);
        proof {
            lemma_table_of_wf(rules@.take(i as int));
            assert(rules@.take(i as int + 1).drop_last() =~= rules@.take(i as int));
        }
        let j = find_class(&classes, k);
        if j < classes.len() {
            assert(t[j as int].0 == k);
            assert(has_source(t, k));
            assert(source_index(t, k) == j);
            if !contains_char(&classes[j].candidates, v) {
                let mut cands = copy_chars(&classes[j].candidates);
                cands.push(v);
                let c = CharClass { source: k, candidates: cands };
                proof {
                    lemma_classes_view_update(classes@, j as int, c);
                }
                classes.set(j, c);
            }
        } else {
            assert(!has_source(t, k));
            let mut cands: Vec<char> = Vec::new();
            cands.push(k);
            if v != k {
                cands.push(v);
            }
            proof {
                if v == k {
                    assert(cands@ =~= seq![k]);
                } else {
                    assert(cands@ =~= seq![k, v]);
                }
            }
            let c = CharClass { source: k, candidates: cands };
            proof {
                lemma_classes_view_push(classes@, c);
            }
            classes.push(c);
        }
        i = i + 1;
    }
    assert(rules@.take(i as int) =~= rules@);
    proof {
        lemma_table_of_wf(rules@);
    }
    classes
}

} // verus!
