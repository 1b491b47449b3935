use automata::automaton::DFA;
use automata::builder::DFABuilder;
use automata::state::{Evaluation, State};
use std::collections::HashSet;

fn chars(s: &str) -> Vec<char> {
    s.chars().collect()
}

fn build(start: &str, transitions: &[(&str, char, &str)], accept: &[&str]) -> DFA {
    let mut builder = DFABuilder::new();
    builder.start(State::new(start));
    for (from, via, to) in transitions {
        builder.transition(State::new(from), *via, State::new(to));
    }
    for state in accept {
        builder.accept(State::new(state));
    }
    builder.build()
}

fn build_many(start: &str, transitions: &[(&str, &str, &str)], accept: &[&str]) -> DFA {
    let mut builder = DFABuilder::new();
    builder.start(State::new(start));
    for (from, vias, to) in transitions {
        for via in vias.chars() {
            builder.transition(State::new(from), via, State::new(to));
        }
    }
    for state in accept {
        builder.accept(State::new(state));
    }
    builder.build()
}

fn parity() -> DFA {
    build(
        "q0",
        &[("q0", '0', "q1"), ("q0", '1', "q0"), ("q1", '0', "q0"), ("q1", '1', "q1")],
        &["q1"],
    )
}

fn six_states() -> DFA {
    build(
        "q0",
        &[
            ("q0", '0', "q1"),
            ("q0", '1', "q3"),
            ("q1", '0', "q4"),
            ("q1", '1', "q2"),
            ("q2", '0', "q4"),
            ("q2", '1', "q5"),
            ("q3", '0', "q1"),
            ("q3", '1', "q3"),
            ("q4", '0', "q3"),
            ("q4", '1', "q4"),
            ("q5", '0', "q4"),
            ("q5", '1', "q5"),
        ],
        &["q0", "q3"],
    )
}

#[test]
fn core_it_works() {
    let q0 = State::new("q0");
    let q1 = State::new("q1");
    let dfa = parity();

    assert_eq!(dfa.cursor().run(&chars("010")), Evaluation::Reject(q0.clone()));
    assert_eq!(dfa.cursor().run(&chars("001")), Evaluation::Reject(q0.clone()));
    assert_eq!(dfa.cursor().run(&chars("011")), Evaluation::Accept(q1.clone()));
    assert_eq!(dfa.cursor().run(&chars("01")), Evaluation::Accept(q1.clone()));

    assert_eq!(
        dfa.states().into_iter().collect::<HashSet<_>>(),
        HashSet::from([q0.clone(), q1.clone()])
    )
}

#[test]
fn minimization_it_works() {
    let dfa = build(
        "q1",
        &[
            ("q1", 'b', "q2"),
            ("q1", 'a', "q3"),
            ("q2", 'b', "q2"),
            ("q2", 'a', "q4"),
            ("q3", 'b', "q4"),
            ("q3", 'a', "q5"),
            ("q4", 'b', "q4"),
            ("q4", 'a', "q5"),
        ],
        &["q5"],
    );

    assert_eq!(
        dfa.minimization(),
        build(
            "q1q2",
            &[
                ("q1q2", 'b', "q1q2"),
                ("q1q2", 'a', "q3q4"),
                ("q3q4", 'a', "q5"),
                ("q3q4", 'b', "q3q4"),
            ],
            &["q5"],
        )
    )
}

#[test]
fn complicate() {
    let dfa = six_states();

    assert_eq!(
        dfa.minimization(),
        build(
            "q0q3",
            &[
                ("q1q2q5", '0', "q4"),
                ("q4", '1', "q4"),
                ("q0q3", '1', "q0q3"),
                ("q1q2q5", '1', "q1q2q5"),
                ("q0q3", '0', "q1q2q5"),
                ("q4", '0', "q0q3"),
            ],
            &["q0q3"],
        )
    );
}

#[test]
fn very_complex() {
    let dfa = build_many(
        "start",
        &[
            ("trap", "-0123456789", "trap"),
            ("start", "-", "neg"),
            ("start", "0", "zero"),
            ("start", "123456789", "number"),
            ("number", "0123456789", "number"),
            ("number", "-", "trap"),
            ("zero", "-123456789", "trap"),
            ("neg", "-0", "trap"),
            ("neg", "123456789", "number"),
        ],
        &["number", "zero"],
    );

    assert_eq!(dfa.minimization(), dfa);
}

#[test]
fn step_without_transition_stays() {
    let dfa = parity();
    let q0 = State::new("q0");
    assert_eq!(dfa.step(&q0, 'x'), q0);
    assert_eq!(dfa.step(&q0, '0'), State::new("q1"));
    assert_eq!(dfa.cursor().run(&chars("2")), Evaluation::Reject(q0.clone()));
}

#[test]
fn empty_input_classifies_start() {
    assert_eq!(parity().cursor().run(&[]), Evaluation::Reject(State::new("q0")));
    let accepting = build("q1", &[("q0", '0', "q1")], &["q1"]);
    assert_eq!(accepting.cursor().run(&[]), Evaluation::Accept(State::new("q1")));
}

#[test]
fn stepping_matches_run() {
    let dfa = six_states();
    for word in ["", "0", "01", "0010", "110100", "000111"] {
        let mut cursor = dfa.cursor();
        for c in word.chars() {
            cursor.step(c);
        }
        let stepped = cursor.current.clone();
        let verdict = dfa.cursor().run(&chars(word));
        match verdict {
            Evaluation::Accept(s) => {
                assert_eq!(s, stepped);
                assert!(dfa.accept.contains(&stepped));
            }
            Evaluation::Reject(s) => {
                assert_eq!(s, stepped);
                assert!(!dfa.accept.contains(&stepped));
            }
        }
    }
}

#[test]
fn chained_steps() {
    let dfa = parity();
    let mut cursor = dfa.cursor();
    cursor.step('0').step('1').step('0');
    assert_eq!(cursor.current, State::new("q0"));
}

#[test]
fn builder_last_write_wins() {
    let mut builder = DFABuilder::new();
    builder
        .start(State::new("a"))
        .start(State::new("b"))
        .transition(State::new("b"), 'x', State::new("a"))
        .transition(State::new("b"), 'x', State::new("c"))
        .accept(State::new("c"))
        .accept(State::new("c"));
    let dfa = builder.build();
    assert_eq!(dfa.start, State::new("b"));
    assert_eq!(dfa.transitions.len(), 1);
    assert_eq!(dfa.accept.len(), 1);
    assert_eq!(dfa.cursor().run(&chars("x")), Evaluation::Accept(State::new("c")));
}

#[test]
fn evaluation_verdicts() {
    let accepted = Evaluation::Accept(State::new("q1"));
    let rejected = Evaluation::Reject(State::new("q0"));
    assert!(accepted.is_accept() && !accepted.is_reject());
    assert!(rejected.is_reject() && !rejected.is_accept());
}

#[test]
fn two_state_minimization_unchanged() {
    let dfa = parity();
    assert_eq!(dfa.cursor().run(&chars("010")), Evaluation::Reject(State::new("q0")));
    assert_eq!(dfa.cursor().run(&chars("011")), Evaluation::Accept(State::new("q1")));
    assert_eq!(dfa.minimization(), dfa);
}

#[test]
fn minimization_keeps_verdicts() {
    let dfa = six_states();
    let min = dfa.minimization();
    assert_eq!(min.states().len(), 3);
    for word in ["", "0", "1", "00", "01", "10", "11", "0100", "10110", "000", "111000"] {
        let w = chars(word);
        assert_eq!(dfa.cursor().run(&w).is_accept(), min.cursor().run(&w).is_accept());
    }
}

#[test]
fn minimization_twice() {
    let once = six_states().minimization();
    let twice = once.minimization();
    assert_eq!(once.states().len(), twice.states().len());
    assert_eq!(twice, once);
}

#[test]
fn merged_names_ignore_construction_order() {
    let mut transitions = vec![
        ("q5", '1', "q5"),
        ("q5", '0', "q4"),
        ("q4", '1', "q4"),
        ("q4", '0', "q3"),
        ("q3", '1', "q3"),
        ("q3", '0', "q1"),
        ("q2", '1', "q5"),
        ("q2", '0', "q4"),
        ("q1", '1', "q2"),
        ("q1", '0', "q4"),
        ("q0", '1', "q3"),
        ("q0", '0', "q1"),
    ];
    let reversed = build("q0", &transitions, &["q3", "q0"]).minimization();
    transitions.reverse();
    let forward = build("q0", &transitions, &["q0", "q3"]).minimization();
    assert_eq!(reversed, forward);
    assert_eq!(forward.start, State::new("q0q3"));
    assert!(forward.accept.contains(&State::new("q0q3")));
}

#[test]
fn merged_name_sorts_labels() {
    let dfa = build(
        "b",
        &[("b", '0', "z"), ("a", '0', "z"), ("z", '0', "y"), ("y", '0', "y")],
        &["y"],
    );
    let min = dfa.minimization();
    assert_eq!(min.start, State::new("ab"));
    assert_eq!(min.cursor().run(&chars("00")), Evaluation::Accept(State::new("y")));
}

#[test]
fn dot_it_works() {
    let dfa = parity();
    let mut edges = dfa
        .edges()
        .into_iter()
        .map(|(from, via, to)| (from.name, via.into_iter().collect::<String>(), to.name))
        .collect::<Vec<_>>();
    edges.sort();
    assert_eq!(
        edges,
        vec![
            ("q0".to_string(), "0".to_string(), "q1".to_string()),
            ("q0".to_string(), "1".to_string(), "q0".to_string()),
            ("q1".to_string(), "0".to_string(), "q0".to_string()),
            ("q1".to_string(), "1".to_string(), "q1".to_string()),
        ]
    );
}

#[test]
fn parallel_transitions_share_an_edge() {
    let dfa = build(
        "s",
        &[("s", '9', "t"), ("s", '1', "t"), ("s", '5', "t"), ("t", 'x', "s")],
        &["t"],
    );
    let mut edges = dfa
        .edges()
        .into_iter()
        .map(|(from, via, to)| (from.name, via, to.name))
        .collect::<Vec<_>>();
    edges.sort();
    assert_eq!(
        edges,
        vec![
            ("s".to_string(), vec!['1', '5', '9'], "t".to_string()),
            ("t".to_string(), vec!['x'], "s".to_string()),
        ]
    );
}

#[test]
fn closure_grouping_can_merge_distinguishable_states() {
    let dfa = build(
        "p",
        &[
            ("p", 'a', "A"),
            ("p", 'b', "N"),
            ("q", 'a', "N"),
            ("q", 'b', "A"),
            ("N", 'a', "N"),
            ("N", 'b', "N"),
            ("r1", 'a', "A"),
            ("r2", 'a', "A"),
        ],
        &["A"],
    );
    let min = dfa.minimization();
    assert_eq!(min.start, State::new("Npq"));
    assert_eq!(min.states().len(), 3);
    assert!(dfa.cursor().run(&chars("a")).is_accept());
    assert!(min.cursor().run(&chars("a")).is_reject());
}

#[test]
fn orphan_states_kept_by_minimization() {
    let dfa = build(
        "zz",
        &[
            ("q1", 'b', "q2"),
            ("q1", 'a', "q3"),
            ("q2", 'b', "q2"),
            ("q2", 'a', "q4"),
            ("q3", 'b', "q4"),
            ("q3", 'a', "q5"),
            ("q4", 'b', "q4"),
            ("q4", 'a', "q5"),
        ],
        &["q5", "lone"],
    );
    assert_eq!(dfa.states().len(), 5);
    let min = dfa.minimization();
    assert_eq!(min.start, State::new("zz"));
    assert!(min.accept.contains(&State::new("loneq5")));
    assert_eq!(min.cursor().run(&chars("ab")), Evaluation::Reject(State::new("zz")));
}
