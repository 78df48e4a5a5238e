use std::collections::HashSet;

use munge::apply::apply_plan;
use munge::munger::leet_rules_vec;
use munge::plan::generate_subsequences;
use munge::table::build_table;
use munge::{Capitalization, LeetSpeak, MungeError, Munger};

fn set_of(v: &[String]) -> HashSet<String> {
    v.iter().cloned().collect()
}

fn strings(v: &[&str]) -> HashSet<String> {
    v.iter().map(|s| s.to_string()).collect()
}

fn a_rules() -> Vec<(char, char)> {
    vec![('a', '4'), ('a', '@')]
}

#[test]
fn cat_with_a_rules_gives_five_variants() {
    let m = Munger::with_rules(&a_rules());
    let out = m.munge("cat").unwrap();
    assert_eq!(out.len(), 5);
    assert_eq!(set_of(&out), strings(&["cat", "c4t", "c@t", "CAT", "Cat"]));
}

#[test]
fn cat_substitutions_with_a_rules() {
    let leet = LeetSpeak::from_rules(&a_rules());
    let out = leet.munge("cat");
    assert_eq!(set_of(&out), strings(&["cat", "c4t", "c@t"]));
}

#[test]
fn batch_of_overlapping_words_has_no_duplicates() {
    let m = Munger::with_rules(&a_rules());
    let words = vec!["cat".to_string(), "Cat".to_string()];
    let out = m.munge_all(&words).unwrap();
    let set = set_of(&out);
    assert_eq!(set.len(), out.len());
    let mut expected = set_of(&m.munge("cat").unwrap());
    expected.extend(set_of(&m.munge("Cat").unwrap()));
    assert_eq!(set, expected);
    assert_eq!(set, strings(&["cat", "c4t", "c@t", "CAT", "Cat", "C4t", "C@t"]));
}

#[test]
fn batch_with_an_empty_word_fails() {
    let m = Munger::new();
    let words = vec!["cat".to_string(), String::new(), "dog".to_string()];
    assert_eq!(m.munge_all(&words), Err(MungeError::EmptyInput));
}

#[test]
fn empty_batch_is_empty() {
    let m = Munger::new();
    assert_eq!(m.munge_all(&Vec::new()), Ok(Vec::new()));
}

#[test]
fn single_letter_case_variants() {
    let out = Capitalization::new().munge("a").unwrap();
    assert_eq!(out, vec!["a", "a", "A", "A"]);
    assert_eq!(set_of(&out), strings(&["a", "A"]));
}

#[test]
fn case_variants_keep_the_rest_of_the_word() {
    let out = Capitalization::new().munge("heLLo").unwrap();
    assert_eq!(out, vec!["heLLo", "hello", "HELLO", "HeLLo"]);
}

#[test]
fn case_variants_of_non_ascii_first_letter() {
    let out = Capitalization::new().munge("éa").unwrap();
    assert_eq!(out, vec!["éa", "éa", "ÉA", "Éa"]);
}

#[test]
fn empty_word_is_refused() {
    assert_eq!(Capitalization::new().munge(""), Err(MungeError::EmptyInput));
    assert_eq!(Munger::new().munge(""), Err(MungeError::EmptyInput));
}

#[test]
fn every_expansion_holds_word_and_cases() {
    let m = Munger::new();
    for w in ["Password", "leet", "xyz", "a"] {
        let set = set_of(&m.munge(w).unwrap());
        assert!(set.contains(w));
        assert!(set.contains(&w.to_lowercase()));
        assert!(set.contains(&w.to_uppercase()));
    }
}

#[test]
fn expansion_is_deterministic_and_distinct() {
    let m = Munger::new();
    let a = m.munge("lasso").unwrap();
    let b = m.munge("lasso").unwrap();
    assert_eq!(set_of(&a), set_of(&b));
    assert_eq!(set_of(&a).len(), a.len());
}

#[test]
fn one_occurrence_gives_one_substitution_per_candidate() {
    let leet = LeetSpeak::new();
    // 's' has three candidates and is the only class character here.
    let out = leet.munge("xsx");
    assert_eq!(set_of(&out), strings(&["xsx", "x5x", "x$x"]));
    // 'e' has two.
    let out = leet.munge("hey");
    assert_eq!(set_of(&out).len(), 2);
}

#[test]
fn built_in_table_has_216_plans() {
    let table = build_table(&leet_rules_vec());
    let plans = generate_subsequences(&table);
    assert_eq!(plans.len(), 216);
    assert_eq!(LeetSpeak::new().munge("zzz").len(), 216);
}

#[test]
fn built_in_table_classes_in_registration_order() {
    let table = build_table(&leet_rules_vec());
    let got: Vec<(char, Vec<char>)> = table.iter().map(|c| (c.source, c.candidates.clone())).collect();
    assert_eq!(
        got,
        vec![
            ('e', vec!['e', '3']),
            ('a', vec!['a', '4', '@']),
            ('o', vec!['o', '0']),
            ('i', vec!['i', '1', '!']),
            ('l', vec!['l', '1']),
            ('s', vec!['s', '5', '$']),
        ]
    );
}

#[test]
fn repeated_rules_add_no_duplicate_candidates() {
    let table = build_table(&vec![('a', '4'), ('a', '4'), ('a', 'a'), ('b', 'b')]);
    assert_eq!(table.len(), 2);
    assert_eq!(table[0].candidates, vec!['a', '4']);
    assert_eq!(table[1].candidates, vec!['b']);
}

#[test]
fn empty_rule_list_has_one_plan() {
    let table = build_table(&Vec::new());
    assert!(table.is_empty());
    let plans = generate_subsequences(&table);
    assert_eq!(plans, vec![Vec::<char>::new()]);
    let out = Munger::with_rules(&Vec::new()).munge("ab").unwrap();
    assert_eq!(set_of(&out), strings(&["ab", "AB", "Ab"]));
}

#[test]
fn substitutions_do_not_cascade() {
    let rules = vec![('i', '1'), ('1', 'l')];
    let table = build_table(&rules);
    // The plan i -> 1, 1 -> l.
    assert_eq!(apply_plan(&table, &vec!['1', 'l'], "i1"), "1l");
    let out = LeetSpeak::from_rules(&rules).munge("i");
    assert_eq!(set_of(&out), strings(&["i", "1"]));
}

#[test]
fn apply_plan_replaces_every_occurrence() {
    let table = build_table(&leet_rules_vec());
    // e a o i l s
    let plan = vec!['3', '@', 'o', '!', '1', '$'];
    assert_eq!(apply_plan(&table, &plan, "sassy leaves"), "$@$$y 13@v3$");
}

#[test]
fn batch_order_does_not_matter() {
    let m = Munger::new();
    let a = vec!["sea".to_string(), "Oil".to_string(), "sea".to_string()];
    let b = vec!["Oil".to_string(), "sea".to_string()];
    assert_eq!(set_of(&m.munge_all(&a).unwrap()), set_of(&m.munge_all(&b).unwrap()));
}
