//! Expanding words: substitution variants and case variants, merged without
//! duplicates.

use vstd::prelude::*;
use crate::apply::{apply_plan, apply_plan_spec};
use crate::case::{Capitalization, MungeError, case_variants, strings_view};
use crate::plan::{candidates_of, generate_subsequences, is_plan, views};
use crate::table::{CharClass, build_table, classes_view, table_of, wf_table};

verus! {

/// The built-in look-alike rules, `source -> replacement`.
pub open spec fn leet_rules() -> Seq<(char, char)> {
    seq![
        ('e', '3'),
        ('a', '4'),
        ('a', '@'),
        ('o', '0'),
        ('i', '1'),
        ('i', '!'),
        ('l', '1'),
        ('s', '5'),
        ('s', '$'),
    ]
}

/// The built-in rules as a vector.
pub fn leet_rules_vec() -> (r: Vec<(char, char)>)
    ensures
        r@ == leet_rules(),
{
    let r = vec![
        ('e', '3'),
        ('a', '4'),
        ('a', '@'),
        ('o', '0'),
        ('i', '1'),
        ('i', '!'),
        ('l', '1'),
        ('s', '5'),
        ('s', '$'),
    ];
    assert(r@ =~= leet_rules());
    r
}

/// Every string that some plan of table `t` makes of `w`.
pub open spec fn substitutions(t: Seq<(char, Seq<char>)>, w: Seq<char>) -> Set<Seq<char>> {
    Set::new(
        |s: Seq<char>| exists|p: Seq<char>| is_plan(candidates_of(t), p) && s == apply_plan_spec(t, p, w),
    )
}

/// All variants of one word: the word, its substitutions and its case variants.
pub open spec fn word_variants(t: Seq<(char, Seq<char>)>, w: Seq<char>) -> Set<Seq<char>> {
    set![w] + substitutions(t, w) + case_variants(w).to_set()
}

/// All variants of a list of words.
pub open spec fn batch_variants(t: Seq<(char, Seq<char>)>, ws: Seq<Seq<char>>) -> Set<Seq<char>> {
    Set::new(|s: Seq<char>| exists|i: int| 0 <= i < ws.len() && #[trigger] word_variants(t, ws[i]).contains(s))
}

/// Substitution variants: a table and every plan over it, computed once.
pub struct LeetSpeak {
    table: Vec<CharClass>,
    mappings: Vec<Vec<char>>,
}

impl LeetSpeak {
    /// The table, class by class.
    pub closed spec fn table_view(&self) -> Seq<(char, Seq<char>)> {
        classes_view(self.table@)
    }

    /// The table is well formed and `mappings` holds exactly its plans.
    pub closed spec fn wf(&self) -> bool {
        let t = classes_view(self.table@);
        &&& wf_table(t)
        &&& forall|i: int| 0 <= i < self.mappings.len() ==> is_plan(candidates_of(t), #[trigger] self.mappings[i]@)
        &&& forall|p: Seq<char>| is_plan(candidates_of(t), p) ==> #[trigger] views(self.mappings@).contains(p)
    }

    /// The built-in look-alike table.
    pub fn new() -> (r: Self)
        ensures
            r.wf(),
            r.table_view() == table_of(leet_rules()),
    {
        let rules = leet_rules_vec();
        Self::from_rules(&rules)
    }

    /// The table that `rules` describe.
    pub fn from_rules(rules: &Vec<(char, char)>) -> (r: Self)
        ensures
            r.wf(),
            r.table_view() == table_of(rules@),
    {
        let table = build_table(rules);
        let mappings = generate_subsequences(&table);
        LeetSpeak { table, mappings }
    }

    /// One string per plan, in the order of the plans; as a set, exactly the
    /// substitutions of `word`.
    pub fn munge(&self, word: &str) -> (r: Vec<String>)
        requires
            self.wf(),
        ensures
            strings_view(r@).to_set() == substitutions(self.table_view(), word@),
    {
        let ghost t = classes_view(self.table@);
        let mut r: Vec<String> = Vec::new();
        let mut i: usize = 0;
        while i < self.mappings.len()
            invariant
                self.wf(),
                t == classes_view(self.table@),
                i <= self.mappings.len(),
                r.len() == i,
                forall|x: int| 0 <= x < i ==> #[trigger] r[x]@ == apply_plan_spec(t, self.mappings[x]@, word@),
            decreases self.mappings.len() - i,
        {
            proof {
                assert(is_plan(candidates_of(t), self.mappings[i as int]@));
                assert(classes_view(self.table@).len() == self.table.len());
            }
            let s = apply_plan(&self.table, &self.mappings[i], word);
            r.push(s);
            i = i + 1;
        }
        proof {
            let sv = strings_view(r@);
            assert forall|s: Seq<char>| #[trigger] sv.to_set().contains(s) == substitutions(t, word@).contains(s) by {
                if sv.to_set().contains(s) {
                    let x = choose|x: int| 0 <= x < sv.len() && sv[x] == s;
                    assert(sv[x] == r[x]@);
                    assert(is_plan(candidates_of(t), self.mappings[x]@));
                }
                if substitutions(t, word@).contains(s) {
                    let p = choose|p: Seq<char>| is_plan(candidates_of(t), p) && s == apply_plan_spec(t, p, word@);
                    assert(views(self.mappings@).contains(p));
                    let x = choose|x: int| 0 <= x < self.mappings.len() && views(self.mappings@)[x] == p;
                    assert(views(self.mappings@)[x] == self.mappings[x]@);
                    assert(sv[x] == r[x]@);
                }
            }
            assert(sv.to_set() =~= substitutions(t, word@));
        }
        r
    }
}

/// Adds `s` to `out` unless an equal string is already there.
fn insert_unique(out: &mut Vec<String>, s: String)
    requires
        strings_view(old(out)@).no_duplicates(),
    ensures
        strings_view(final(out)@).no_duplicates(),
        strings_view(final(out)@).to_set() == strings_view(old(out)@).to_set().insert(s@),
{
    let ghost before = strings_view(out@);
    let mut i: usize = 0;
    while i < out.len()
        invariant
            before == strings_view(out@),
            before.no_duplicates(),
            i <= out.len(),
            forall|x: int| 0 <= x < i ==> out[x]@ != s@,
        decreases out.len() - i,
    {
        if out[i] == s {
            proof {
                assert(before[i as int] == s@);
                assert(before.to_set().insert(s@) =~= before.to_set());
            }
            return;
        }
        i = i + 1;
    }
    let ghost sv = s@;
    out.push(s);
    proof {
        assert(strings_view(out@) =~= before.push(sv));
        assert forall|x: int| 0 <= x < before.len() implies before[x] != sv by {
            assert(before[x] == out[x]@);
        }
        assert(strings_view(out@).to_set() =~= before.to_set().insert(sv)) by {
            assert forall|e: Seq<char>| strings_view(out@).to_set().contains(e) implies before.to_set().insert(sv).contains(e) by {
                let x = choose|x: int| 0 <= x < strings_view(out@).len() && strings_view(out@)[x] == e;
                if x < before.len() {
                    assert(before[x] == e);
                }
            }
            assert forall|e: Seq<char>| before.to_set().insert(sv).contains(e) implies strings_view(out@).to_set().contains(e) by {
                if e == sv {
                    assert(strings_view(out@)[before.len() as int] == e);
                } else {
                    let x = choose|x: int| 0 <= x < before.len() && before[x] == e;
                    assert(strings_view(out@)[x] == e);
                }
            }
        }
    }
}

/// Adds every string of `items` to `out`, skipping those already there.
fn insert_all(out: &mut Vec<String>, items: Vec<String>)
    requires
        strings_view(old(out)@).no_duplicates(),
    ensures
        strings_view(final(out)@).no_duplicates(),
        strings_view(final(out)@).to_set() == strings_view(old(out)@).to_set() + strings_view(items@).to_set(),
{
    let ghost start = strings_view(out@).to_set();
    let ghost iv = strings_view(items@);
    let mut items = items;
    // Take items from the back, so each step is a pop.
    while items.len() > 0
        invariant
            strings_view(out@).no_duplicates(),
            strings_view(out@).to_set() + strings_view(items@).to_set() == start + iv.to_set(),
        decreases items.len(),
    {
        let ghost before_items = strings_view(items@);
        let s = items.pop().unwrap();
        proof {
            assert(before_items =~= strings_view(items@).push(s@));
            assert(before_items.to_set() =~= strings_view(items@).to_set().insert(s@)) by {
                assert forall|e: Seq<char>| before_items.to_set().contains(e) implies strings_view(items@).to_set().insert(s@).contains(e) by {
                    let x = choose|x: int| 0 <= x < before_items.len() && before_items[x] == e;
                    if x < items.len() {
                        assert(strings_view(items@)[x] == e);
                    }
                }
                assert forall|e: Seq<char>| strings_view(items@).to_set().insert(s@).contains(e) implies before_items.to_set().contains(e) by {
                    if e == s@ {
                        assert(before_items[items.len() as int] == e);
                    } else {
                        let x = choose|x: int| 0 <= x < items.len() && strings_view(items@)[x] == e;
                        assert(before_items[x] == e);
                    }
                }
            }
        }
        insert_unique(out, s);
        proof {
            assert(strings_view(out@).to_set() + strings_view(items@).to_set() =~= start + iv.to_set());
        }
    }
    proof {
        assert(strings_view(items@).to_set() =~= Set::empty());
        assert(strings_view(out@).to_set() =~= start + iv.to_set());
    }
}

/// The whole expansion: a word, its substitutions and its case variants,
/// each distinct string once.
pub struct Munger {
    leet: LeetSpeak,
    caps: Capitalization,
}

impl Munger {
    /// The substitution table in use.
    pub closed spec fn table_view(&self) -> Seq<(char, Seq<char>)> {
        self.leet.table_view()
    }

    pub closed spec fn wf(&self) -> bool {
        self.leet.wf()
    }

    /// An expander with the built-in look-alike table.
    pub fn new() -> (r: Self)
        ensures
            r.wf(),
            r.table_view() == table_of(leet_rules()),
    {
        Munger { leet: LeetSpeak::new(), caps: Capitalization::new() }
    }

    /// An expander with the table that `rules` describe.
    pub fn with_rules(rules: &Vec<(char, char)>) -> (r: Self)
        ensures
            r.wf(),
            r.table_view() == table_of(rules@),
    {
        Munger { leet: LeetSpeak::from_rules(rules), caps: Capitalization::new() }
    }

    /// Every variant of `word`, each once, in no promised order; an empty
    /// word is refused.
    pub fn munge(&self, word: &str) -> (r: Result<Vec<String>, MungeError>)
        requires
            self.wf(),
        ensures
            r is Err <==> word@.len() == 0,
            r is Err ==> r->Err_0 == MungeError::EmptyInput,
            r is Ok ==> strings_view(r->Ok_0@).no_duplicates(),
            r is Ok ==> strings_view(r->Ok_0@).to_set() == word_variants(self.table_view(), word@),
    {
        let cases = match self.caps.munge(word) {
            Ok(v) => v,
            Err(e) => {
                return Err(e);
            },
        };
        let subs = self.leet.munge(word);
        let mut out: Vec<String> = Vec::new();
        let ghost w = word@;
        proof {
            assert(strings_view(out@) =~= Seq::<Seq<char>>::empty());
        }
        insert_unique(&mut out, word.to_owned());
        insert_all(&mut out, subs);
        insert_all(&mut out, cases);
        proof {
            assert(Seq::<Seq<char>>::empty().to_set() =~= Set::<Seq<char>>::empty());
            assert(strings_view(out@).to_set() =~= word_variants(self.table_view(), w));
        }
        Ok(out)
    }

    /// Every variant of every word of `words`, each distinct string once;
    /// an empty word anywhere refuses the whole list.
    pub fn munge_all(&self, words: &Vec<String>) -> (r: Result<Vec<String>, MungeError>)
        requires
            self.wf(),
        ensures
            r is Err <==> exists|i: int| 0 <= i < words.len() && (#[trigger] words[i])@.len() == 0,
            r is Err ==> r->Err_0 == MungeError::EmptyInput,
            r is Ok ==> strings_view(r->Ok_0@).no_duplicates(),
            r is Ok ==> strings_view(r->Ok_0@).to_set() == batch_variants(self.table_view(), strings_view(words@)),
    {
        let ghost t = self.table_view();
        let ghost ws = strings_view(words@);
        let mut out: Vec<String> = Vec::new();
        let mut i: usize = 0;
        proof {
            assert(strings_view(out@).to_set() =~= batch_variants(t, ws.take(0)));
        }
        while i < words.len()
            invariant
                self.wf(),
                t == self.table_view(),
                ws == strings_view(words@),
                i <= words.len(),
                forall|x: int| 0 <= x < i ==> (#[trigger] words[x])@.len() > 0,
                strings_view(out@).no_duplicates(),
                strings_view(out@).to_set() == batch_variants(t, ws.take(i as int)),
            decreases words.len() - i,
        {
            let vs = match self.munge(words[i].as_str()) {
                Ok(v) => v,
                Err(e) => {
                    return Err(e);
                },
            };
            let ghost before = strings_view(out@).to_set();
            insert_all(&mut out, vs);
            proof {
                assert(ws[i as int] == words[i as int]@);
                assert(ws.take(i as int + 1) =~= ws.take(i as int).push(ws[i as int]));
                assert forall|s: Seq<char>| #[trigger] batch_variants(t, ws.take(i as int + 1)).contains(s)
                    == (before.contains(s) || word_variants(t, ws[i as int]).contains(s)) by {
                    let nx = ws.take(i as int + 1);
                    if batch_variants(t, nx).contains(s) {
                        let x = choose|x: int| 0 <= x < nx.len() && #[trigger] word_variants(t, nx[x]).contains(s);
                        if x < i {
                            assert(ws.take(i as int)[x] == nx[x]);
                        }
                    }
                    if before.contains(s) {
                        let x = choose|x: int| 0 <= x < i && #[trigger] word_variants(t, ws.take(i as int)[x]).contains(s);
                        assert(nx[x] == ws.take(i as int)[x]);
                    }
                    if word_variants(t, ws[i as int]).contains(s) {
                        assert(nx[i as int] == ws[i as int]);
                    }
                }
                assert(strings_view(out@).to_set() =~= batch_variants(t, ws.take(i as int + 1)));
            }
            i = i + 1;
        }
        proof {
            assert(ws.take(i as int) =~= ws);
        }
        Ok(out)
    }
}

} // verus!
