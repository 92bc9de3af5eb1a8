//! A readable dump of the automaton, for inspection. No part of matching
//! depends on it.
//!
//! The pieces of text come from `format!`; which pieces there are, and in
//! what order, is decided here.

use vstd::prelude::*;
use vstd::string::StringExecFns;
use super::{Automaton, State, StateView, NO_STATE, ROOT};

verus! {

/// The text `format!` gives for one transition: the byte as a character,
/// `" => "`, and the target state.
pub uninterp spec fn goto_entry_text(byte: u8, target: usize) -> Seq<char>;

/// The text `format!` gives for one state: its output, its failure link
/// and the text of its transitions.
pub uninterp spec fn state_text(out: Seq<usize>, fail: usize, goto: Seq<char>) -> Seq<char>;

/// The text `format!` gives for one line of the dump: the index of a
/// state, padded to three columns, a colon, and the text of the state.
pub uninterp spec fn state_line_text(index: usize, state: Seq<char>) -> Seq<char>;

/// The text `format!` gives for the line that lists the patterns.
pub uninterp spec fn patterns_line_text(pats: Seq<Seq<char>>) -> Seq<char>;

/// Calls `format!("{} => {}", ..)` on the character with the code of
/// `byte` and on `target`. Trusted: the result is the text that the name
/// `goto_entry_text` stands for.
#[verifier::external_body]
fn format_goto_entry(byte: u8, target: usize) -> (s: String)
    ensures
        s@ == goto_entry_text(byte, target),
{
    format!("{} => {}", char::from(byte), target)
}

/// Calls `format!` with the layout of one state on the output, the failure
/// link and the text of the transitions. Trusted: the result is the text
/// that the name `state_text` stands for.
#[verifier::external_body]
fn format_state(out: &Vec<usize>, fail: usize, goto: &str) -> (s: String)
    ensures
        s@ == state_text(out@, fail, goto@),
{
    format!("State {{ out: {:?}, fail: {:?}, goto: {{{}}} }}", out, fail, goto)
}

/// Calls `format!("{:3}: {}", ..)` on the index of a state and its text.
/// Trusted: the result is the text that the name `state_line_text` stands
/// for.
#[verifier::external_body]
fn format_state_line(index: usize, state: &str) -> (s: String)
    ensures
        s@ == state_line_text(index, state@),
{
    format!("{:3}: {}", index, state)
}

/// Calls `format!("Patterns: {:?}", ..)` on the patterns. Trusted: the
/// result is the text that the name `patterns_line_text` stands for.
#[verifier::external_body]
fn format_patterns_line(pats: &Vec<String>) -> (s: String)
    ensures
        s@ == patterns_line_text(pats.deep_view()),
{
    format!("Patterns: {:?}", pats)
}

/// Whether the dump shows a transition to `target`: not where there is
/// none, and not the root's loops back to itself.
pub open spec fn is_shown(root: bool, target: usize) -> bool {
    !((!root && target == NO_STATE) || (root && target == ROOT))
}

/// The texts of the transitions that are shown among those on the first
/// `n` bytes, in the order of the bytes.
pub open spec fn shown_entries(goto: Seq<usize>, root: bool, n: nat) -> Seq<Seq<char>>
    decreases n,
{
    if n == 0 {
        Seq::empty()
    } else {
        let before = shown_entries(goto, root, (n - 1) as nat);
        if is_shown(root, goto[n - 1]) {
            before.push(goto_entry_text((n - 1) as u8, goto[n - 1]))
        } else {
            before
        }
    }
}

/// The first `n` of `parts`, one after the other, with `sep` between
/// each two.
pub open spec fn joined(parts: Seq<Seq<char>>, sep: Seq<char>, n: nat) -> Seq<char>
    decreases n,
{
    if n == 0 {
        Seq::empty()
    } else if n == 1 {
        parts[0]
    } else {
        joined(parts, sep, (n - 1) as nat) + sep + parts[n - 1]
    }
}

/// The text of the transitions of a state.
pub open spec fn dense_goto_text(goto: Seq<usize>, root: bool) -> Seq<char> {
    let entries = shown_entries(goto, root, 256);
    joined(entries, ", "@, entries.len())
}

/// A line of `n` dashes.
pub open spec fn rule_text(n: nat) -> Seq<char> {
    Seq::new(n, |i: int| '-')
}

/// `parts`, one after the other, with `sep` between each two.
fn join(parts: &Vec<String>, sep: &str) -> (s: String)
    ensures
        s@ == joined(parts.deep_view(), sep@, parts@.len()),
{
    let mut text = String::new();
    let ghost views = parts.deep_view();
    for i in 0..parts.len()
        invariant
            views == parts.deep_view(),
            text@ == joined(views, sep@, i as nat),
    {
        if i > 0 {
            text.append(sep);
        }
        text.append(parts[i].as_str());
        proof {
            assert(views[i as int] == parts@[i as int]@);
            if i == 0 {
                assert(Seq::<char>::empty() + views[0] =~= views[0]);
            }
        }
    }
    text
}

/// A line of `n` dashes.
fn rule(n: usize) -> (s: String)
    ensures
        s@ == rule_text(n as nat),
{
    let mut text = String::new();
    proof {
        reveal_strlit("-");
        assert(text@ =~= rule_text(0));
    }
    for i in 0..n
        invariant
            "-"@ == seq!['-'],
            text@ == rule_text(i as nat),
    {
        text.append("-");
        assert(text@ =~= rule_text((i + 1) as nat));
    }
    text
}

impl State {
    /// The transitions of the state as text, `", "` between each two. For
    /// the root, pass `true`: its loops back to itself are left out.
    pub(super) fn dense_goto_string(&self, root: bool) -> (s: String)
        requires
            self.goto@.len() == 256,
        ensures
            s@ == dense_goto_text(self.goto@, root),
    {
        let mut goto: Vec<String> = Vec::new();
        for i in 0..256usize
            invariant
                self.goto@.len() == 256,
                goto.deep_view() == shown_entries(self.goto@, root, i as nat),
        {
            let state = self.goto[i];
            if !((!root && state == NO_STATE) || (root && state == ROOT)) {
                let ghost before = goto.deep_view();
                goto.push(format_goto_entry(i as u8, state));
                assert(goto.deep_view() =~= before.push(goto_entry_text(i as u8, state)));
            }
        }
        join(&goto, ", ")
    }

    /// The state as text.
    pub(super) fn debug(&self, root: bool) -> (s: String)
        requires
            self.goto@.len() == 256,
        ensures
            s@ == state_text(self.out@, self.fail, dense_goto_text(self.goto@, root)),
    {
        let goto = self.dense_goto_string(root);
        format_state(&self.out, self.fail, goto.as_str())
    }
}

/// The lines of the dump for the states from the root up to, not
/// including, `n`, each with its line end. Only the root is dumped as a
/// root.
pub open spec fn state_lines(states: Seq<StateView>, n: nat) -> Seq<char>
    decreases n,
{
    if n <= ROOT {
        Seq::empty()
    } else {
        let state = states[n - 1];
        state_lines(states, (n - 1) as nat) + state_line_text(
            (n - 1) as usize,
            state_text(state.out, state.fail, dense_goto_text(state.goto, n - 1 == ROOT)),
        ) + "\n"@
    }
}

impl Automaton {
    /// The dump: a rule, the patterns, one line for each state from the
    /// root on, and a rule.
    pub open spec fn debug_text(&self) -> Seq<char> {
        rule_text(79) + "\n"@ + patterns_line_text(self.patterns()) + "\n"@ + state_lines(
            self.states(),
            self.states().len(),
        ) + rule_text(79)
    }

    /// The automaton as text: its patterns and, for each state, its output,
    /// failure link and transitions.
    pub fn debug(&self) -> (s: String)
        requires
            self.wf(),
        ensures
            s@ == self.debug_text(),
    {
        let mut text = rule(79);
        text.append("\n");
        let patterns = format_patterns_line(&self.pats);
        text.append(patterns.as_str());
        text.append("\n");
        let ghost head = text@;
        let ghost states = self.states();
        proof {
            self.lemma_references_are_valid();
            assert(text@ =~= head + state_lines(states, 1));
        }
        for i in ROOT..self.states.len()
            invariant
                states == self.states(),
                forall|s: int| 0 <= s < states.len() ==> (#[trigger] states[s]).goto.len() == 256,
                text@ == head + state_lines(states, i as nat),
        {
            assert(states[i as int] == self.states@[i as int]@);
            let state = self.states[i].debug(i == ROOT);
            let line = format_state_line(i, state.as_str());
            text.append(line.as_str());
            text.append("\n");
            assert(text@ =~= head + state_lines(states, (i + 1) as nat));
        }
        let end = rule(79);
        text.append(end.as_str());
        text
    }
}

} // verus!
