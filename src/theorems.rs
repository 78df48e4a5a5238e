//! What holds of every expansion, proved over the spec model.

use vstd::prelude::*;
use crate::apply::{apply_plan_spec, subst_char};
use crate::case::{lower_of, upper_of};
use crate::munger::{batch_variants, substitutions, word_variants};
use crate::plan::{candidates_of, is_plan};
use crate::table::{has_source, source_index, wf_table};

verus! {

/// The plan that keeps every source character as it is.
pub open spec fn identity_plan(t: Seq<(char, Seq<char>)>) -> Seq<char> {
    t.map_values(|e: (char, Seq<char>)| e.0)
}

/// In a well-formed table a source character's class is the one it heads.
pub proof fn lemma_source_index_of_class(t: Seq<(char, Seq<char>)>, j: int)
    requires
        wf_table(t),
        0 <= j < t.len(),
    ensures
        has_source(t, t[j].0),
        source_index(t, t[j].0) == j,
{
    assert(t[j].0 == t[j].0);
}

/// The plan that keeps every source character is a plan, and leaves every
/// word as it is.
pub proof fn lemma_identity_plan(t: Seq<(char, Seq<char>)>, w: Seq<char>)
    requires
        wf_table(t),
    ensures
        is_plan(candidates_of(t), identity_plan(t)),
        apply_plan_spec(t, identity_plan(t), w) == w,
{
    let idp = identity_plan(t);
    let cands = candidates_of(t);
    assert forall|k: int| 0 <= k < idp.len() implies #[trigger] cands[k].contains(idp[k]) by {
        assert(cands[k] == t[k].1);
        assert(t[k].1[0] == t[k].0);
    }
    assert forall|q: int| 0 <= q < w.len() implies subst_char(t, idp, w[q]) == w[q] by {
        if has_source(t, w[q]) {
            let j = source_index(t, w[q]);
            assert(idp[j] == t[j].0);
        }
    }
    assert(apply_plan_spec(t, idp, w) =~= w);
}

/// Every expansion of a non-empty word holds the word itself, its lower-case
/// and upper-case forms, and what the plan that changes nothing makes of it.
pub proof fn lemma_variants_hold_word_and_cases(t: Seq<(char, Seq<char>)>, w: Seq<char>)
    requires
        wf_table(t),
        w.len() > 0,
    ensures
        word_variants(t, w).contains(w),
        word_variants(t, w).contains(lower_of(w)),
        word_variants(t, w).contains(upper_of(w)),
        word_variants(t, w).contains(apply_plan_spec(t, identity_plan(t), w)),
{
    lemma_identity_plan(t, w);
    let cv = crate::case::case_variants(w);
    assert(cv[1] == lower_of(w));
    assert(cv[2] == upper_of(w));
    assert(cv.to_set().contains(lower_of(w)));
    assert(cv.to_set().contains(upper_of(w)));
}

/// The expansion of a word is one set: two results that each hold exactly the
/// variants of the same word under the same table hold the same strings.
pub proof fn lemma_expansion_deterministic(
    t: Seq<(char, Seq<char>)>,
    w: Seq<char>,
    r1: Seq<Seq<char>>,
    r2: Seq<Seq<char>>,
)
    requires
        r1.to_set() == word_variants(t, w),
        r2.to_set() == word_variants(t, w),
    ensures
        r1.to_set() == r2.to_set(),
        forall|s: Seq<char>| r1.contains(s) <==> r2.contains(s),
{
    assert forall|s: Seq<char>| r1.contains(s) <==> r2.contains(s) by {
        assert(r1.to_set().contains(s) == r1.contains(s));
        assert(r2.to_set().contains(s) == r2.contains(s));
    }
}

/// A word in which the source of class `j` occurs once, at `pos`, and no
/// other class's source occurs, has exactly as many distinct substitutions
/// as that class has candidates.
pub proof fn lemma_single_occurrence_count(t: Seq<(char, Seq<char>)>, w: Seq<char>, j: int, pos: int)
    requires
        wf_table(t),
        0 <= j < t.len(),
        0 <= pos < w.len(),
        w[pos] == t[j].0,
        forall|q: int| 0 <= q < w.len() && q != pos ==> !has_source(t, #[trigger] w[q]),
    ensures
        substitutions(t, w).finite(),
        substitutions(t, w).len() == t[j].1.len(),
{
    let cs = t[j].1;
    let cands = candidates_of(t);
    let f = |c: char| w.update(pos, c);
    let outs = cs.map_values(f);
    lemma_source_index_of_class(t, j);
    // A plan rewrites the word at `pos` only, by the candidate it picks for class `j`.
    assert forall|p: Seq<char>| is_plan(cands, p) implies apply_plan_spec(t, p, w) == #[trigger] f(p[j]) by {
        assert forall|q: int| 0 <= q < w.len() implies apply_plan_spec(t, p, w)[q] == f(p[j])[q] by {
            if q != pos {
                assert(!has_source(t, w[q]));
            }
        }
        assert(apply_plan_spec(t, p, w) =~= f(p[j]));
    }
    assert forall|s: Seq<char>| substitutions(t, w).contains(s) == outs.to_set().contains(s) by {
        if substitutions(t, w).contains(s) {
            let p = choose|p: Seq<char>| is_plan(cands, p) && s == apply_plan_spec(t, p, w);
            assert(cands[j] == cs);
            assert(cs.contains(p[j]));
            let a = choose|a: int| 0 <= a < cs.len() && cs[a] == p[j];
            assert(outs[a] == s);
        }
        if outs.to_set().contains(s) {
            let a = choose|a: int| 0 <= a < outs.len() && outs[a] == s;
            let p = identity_plan(t).update(j, cs[a]);
            lemma_identity_plan(t, w);
            assert forall|k: int| 0 <= k < p.len() implies #[trigger] cands[k].contains(p[k]) by {
                if k == j {
                    assert(cands[k] == cs);
                    assert(cs[a] == p[k]);
                } else {
                    assert(identity_plan(t)[k] == p[k]);
                }
            }
            assert(is_plan(cands, p));
            assert(apply_plan_spec(t, p, w) == f(p[j]));
        }
    }
    assert(substitutions(t, w) =~= outs.to_set());
    assert forall|a: int, b: int| 0 <= a < outs.len() && 0 <= b < outs.len() && a != b implies outs[a]
        != outs[b] by {
        assert(outs[a][pos] == cs[a]);
        assert(outs[b][pos] == cs[b]);
    }
    assert(outs.no_duplicates());
    outs.unique_seq_to_set();
}

/// The variants of a list of words depend only on which words it holds: the
/// order of the words, and repeats, change nothing.
pub proof fn lemma_batch_order_irrelevant(t: Seq<(char, Seq<char>)>, ws1: Seq<Seq<char>>, ws2: Seq<Seq<char>>)
    requires
        ws1.to_set() == ws2.to_set(),
    ensures
        batch_variants(t, ws1) == batch_variants(t, ws2),
{
    assert forall|s: Seq<char>| batch_variants(t, ws1).contains(s) implies batch_variants(t, ws2).contains(s) by {
        let i = choose|i: int| 0 <= i < ws1.len() && #[trigger] word_variants(t, ws1[i]).contains(s);
        assert(ws1.to_set().contains(ws1[i]));
        let k = choose|k: int| 0 <= k < ws2.len() && ws2[k] == ws1[i];
        assert(word_variants(t, ws2[k]).contains(s));
    }
    assert forall|s: Seq<char>| batch_variants(t, ws2).contains(s) implies batch_variants(t, ws1).contains(s) by {
        let i = choose|i: int| 0 <= i < ws2.len() && #[trigger] word_variants(t, ws2[i]).contains(s);
        assert(ws2.to_set().contains(ws2[i]));
        let k = choose|k: int| 0 <= k < ws1.len() && ws1[k] == ws2[i];
        assert(word_variants(t, ws1[k]).contains(s));
    }
    assert(batch_variants(t, ws1) =~= batch_variants(t, ws2));
}

} // verus!
