use aho_corasick::Builder;

fn rule() -> String {
    let mut s = String::new();
    for _ in 0..79 {
        s.push('-');
    }
    s
}

#[test]
fn dump_of_no_patterns() {
    let aut = Builder::new().build();
    let expected = format!(
        "{}\nPatterns: []\n  1: State {{ out: [], fail: 1, goto: {{}} }}\n{}",
        rule(),
        rule()
    );
    assert_eq!(aut.debug(), expected);
}

#[test]
fn dump_of_one_pattern() {
    let aut = Builder::new().add("a").build();
    let expected = format!(
        "{}\n{}\n{}\n{}\n{}",
        rule(),
        "Patterns: [\"a\"]",
        "  1: State { out: [], fail: 1, goto: {a => 2} }",
        "  2: State { out: [0], fail: 1, goto: {} }",
        rule()
    );
    assert_eq!(aut.debug(), expected);
}

#[test]
fn dump_shows_links_and_merged_outputs() {
    let aut = Builder::new().add("ab").add("b").build();
    let expected = format!(
        "{}\n{}\n{}\n{}\n{}\n{}\n{}",
        rule(),
        "Patterns: [\"ab\", \"b\"]",
        "  1: State { out: [], fail: 1, goto: {a => 2, b => 4} }",
        "  2: State { out: [], fail: 1, goto: {b => 3} }",
        "  3: State { out: [0, 1], fail: 4, goto: {} }",
        "  4: State { out: [1], fail: 1, goto: {} }",
        rule()
    );
    assert_eq!(aut.debug(), expected);
}

#[test]
fn dump_shows_the_empty_pattern_at_the_root() {
    let aut = Builder::new().add("").add("ab").build();
    let expected = format!(
        "{}\n{}\n{}\n{}\n{}\n{}",
        rule(),
        "Patterns: [\"\", \"ab\"]",
        "  1: State { out: [0], fail: 1, goto: {a => 2} }",
        "  2: State { out: [], fail: 1, goto: {b => 3} }",
        "  3: State { out: [1, 0], fail: 1, goto: {} }",
        rule()
    );
    assert_eq!(aut.debug(), expected);
}

#[test]
fn dump_names_bytes_above_ascii_by_their_code() {
    let aut = Builder::new().add("\u{e9}").build();
    let expected = format!(
        "{}\n{}\n{}\n{}\n{}\n{}",
        rule(),
        "Patterns: [\"\u{e9}\"]",
        "  1: State { out: [], fail: 1, goto: {\u{c3} => 2} }",
        "  2: State { out: [], fail: 1, goto: {\u{a9} => 3} }",
        "  3: State { out: [0], fail: 1, goto: {} }",
        rule()
    );
    assert_eq!(aut.debug(), expected);
}
