use aho_corasick::{Automaton, Builder};

fn automaton(pats: &[&str]) -> Automaton {
    let mut b = Builder::new();
    for p in pats {
        b = b.add(*p);
    }
    b.build()
}

#[test]
fn scratch() {
    let aut = Builder::new().add("he").add("she").add("his").add("hers").build();
    println!("{}", aut.debug());
    println!("{:?}", aut.find("but she said"));
}

#[test]
fn reports_she_and_he_where_she_ends() {
    let aut = automaton(&["he", "she", "his", "hers"]);
    assert_eq!(aut.find("but she said"), vec![1, 0]);
}

#[test]
fn reports_nothing_where_no_pattern_occurs() {
    let aut = automaton(&["he", "she", "his", "hers"]);
    assert_eq!(aut.find("a bird in a bush"), Vec::<usize>::new());
    assert_eq!(aut.find("h s e r"), Vec::<usize>::new());
}

#[test]
fn reports_nothing_for_the_empty_text() {
    let aut = automaton(&["he", "she"]);
    assert_eq!(aut.find(""), Vec::<usize>::new());
}

#[test]
fn reports_nothing_without_patterns() {
    let aut = Builder::new().build();
    assert_eq!(aut.find(""), Vec::<usize>::new());
    assert_eq!(aut.find("anything"), Vec::<usize>::new());
}

#[test]
fn single_pattern_matches_itself() {
    let aut = automaton(&["needle"]);
    assert_eq!(aut.find("needle"), vec![0]);
}

#[test]
fn single_byte_pattern_matches_itself() {
    let aut = automaton(&["x"]);
    assert_eq!(aut.find("x"), vec![0]);
}

#[test]
fn suffix_is_reported_with_the_longer_pattern() {
    let aut = automaton(&["he", "she"]);
    assert_eq!(aut.find("she"), vec![1, 0]);
    assert_eq!(aut.find("ashe"), vec![1, 0]);
    assert_eq!(aut.find("xx she"), vec![1, 0]);
}

#[test]
fn earlier_match_hides_a_later_one() {
    let aut = automaton(&["he", "she"]);
    assert_eq!(aut.find("he she"), vec![0]);
}

#[test]
fn stops_at_the_first_match() {
    let aut = automaton(&["a", "aa"]);
    assert_eq!(aut.find("aaa"), vec![0]);
    assert_eq!(aut.find("a"), vec![0]);
}

#[test]
fn duplicate_patterns_are_reported_together() {
    let aut = automaton(&["ab", "ab"]);
    assert_eq!(aut.find("ab"), vec![0, 1]);
    assert_eq!(aut.find("xxabxx"), vec![0, 1]);
    assert_eq!(aut.find("ba"), Vec::<usize>::new());
}

#[test]
fn duplicate_patterns_are_inherited_together() {
    let aut = automaton(&["b", "ab", "b"]);
    assert_eq!(aut.find("ab"), vec![1, 0, 2]);
}

#[test]
fn longest_pattern_comes_first() {
    let aut = automaton(&["c", "bc", "abc", "bc"]);
    assert_eq!(aut.find("abc"), vec![2, 1, 3, 0]);
    assert_eq!(aut.find("xbc"), vec![1, 3, 0]);
    assert_eq!(aut.find("xc"), vec![0]);
}

#[test]
fn inner_pattern_is_found_inside_a_longer_one() {
    let aut = automaton(&["abcd", "bc"]);
    assert_eq!(aut.find("abcd"), vec![1]);
    assert_eq!(aut.find("abd"), Vec::<usize>::new());
}

#[test]
fn failure_link_resumes_the_match() {
    let aut = automaton(&["abcx", "bcd"]);
    assert_eq!(aut.find("abcd"), vec![1]);
    assert_eq!(aut.find("ababcx"), vec![0]);
    let aut = automaton(&["aab"]);
    assert_eq!(aut.find("aaaab"), vec![0]);
    assert_eq!(aut.find("aaaa"), Vec::<usize>::new());
}

#[test]
fn empty_pattern_alone() {
    let aut = automaton(&[""]);
    assert_eq!(aut.find(""), Vec::<usize>::new());
    assert_eq!(aut.find("x"), vec![0]);
}

#[test]
fn empty_pattern_is_reported_only_away_from_pattern_starts() {
    let aut = automaton(&["", "ab"]);
    assert_eq!(aut.find("a"), Vec::<usize>::new());
    assert_eq!(aut.find("b"), vec![0]);
    assert_eq!(aut.find("ab"), vec![1, 0]);
    assert_eq!(aut.find("aab"), vec![1, 0]);
    let aut = automaton(&["", "a"]);
    assert_eq!(aut.find("a"), vec![1]);
    assert_eq!(aut.find("ba"), vec![0]);
}

#[test]
fn patterns_are_matched_by_bytes() {
    let aut = automaton(&["\u{e9}"]);
    assert_eq!(aut.find("caf\u{e9}"), vec![0]);
    assert_eq!(aut.find("caf\u{e8}"), Vec::<usize>::new());
    let aut = automaton(&["\u{20ac}", "x"]);
    assert_eq!(aut.find("5 \u{20ac}"), vec![0]);
    assert_eq!(aut.find("\u{20ad} x"), vec![1]);
}

#[test]
fn identifiers_follow_the_order_of_addition() {
    let aut = automaton(&["one", "two", "three"]);
    assert_eq!(aut.find("three"), vec![2]);
    assert_eq!(aut.find("two"), vec![1]);
    assert_eq!(aut.find("one"), vec![0]);
}

#[test]
fn repeated_scans_agree() {
    let aut = automaton(&["he", "she", "his", "hers"]);
    let first = aut.find("but she said");
    let second = aut.find("but she said");
    assert_eq!(first, second);
    assert_eq!(aut.find("his"), vec![2]);
    assert_eq!(aut.find("but she said"), first);
}

#[test]
fn a_clone_scans_alike() {
    let aut = automaton(&["he", "she"]);
    let copy = aut.clone();
    assert_eq!(copy.find("she"), aut.find("she"));
    assert_eq!(copy.find("she"), vec![1, 0]);
}

#[test]
fn builder_takes_slices_and_strings() {
    let aut = Builder::new().add("he").add(String::from("she")).build();
    assert_eq!(aut.find("she"), vec![1, 0]);
    assert_eq!(aut.find("he"), vec![0]);
}

#[test]
fn builder_can_be_cloned_and_extended() {
    let base = Builder::new().add("he");
    let more = base.clone().add("she");
    assert_eq!(base.build().find("she"), vec![0]);
    assert_eq!(more.build().find("she"), vec![1, 0]);
}

#[test]
fn long_text_is_scanned_to_the_match() {
    let aut = automaton(&["needle"]);
    let mut text = String::new();
    for _ in 0..10_000 {
        text.push_str("hay ");
    }
    assert_eq!(aut.find(&text), Vec::<usize>::new());
    text.push_str("needle");
    assert_eq!(aut.find(&text), vec![0]);
}
