use dfa::state::State;
use dfa::{parse_line, DFABuilder, DFABuilderError};

// Language (ab)*: final state 0, sink state 2.
const AB_STAR: &str = "0\n0 a 1\n0 b 2\n1 a 2\n1 b 0\n2 a 2\n2 b 2\n";

// Language ab*a: final state 2, sink state 4.
const A_BSTAR_A: &str =
    "2\n0 a 1\n0 b 4\n1 a 2\n1 b 3\n2 a 4\n2 b 4\n3 a 2\n3 b 3\n4 a 4\n4 b 4\n";

#[test]
fn scenario_ab_star() {
    let dfa = DFABuilder::from(AB_STAR).unwrap().build().unwrap();

    assert_eq!(true, dfa.is_valid_string(""));
    assert_eq!(true, dfa.is_valid_string("ab"));
    assert_eq!(true, dfa.is_valid_string("abab"));
    assert_eq!(false, dfa.is_valid_string("aba"));
    assert_eq!(false, dfa.is_valid_string("bab"));
}

#[test]
fn scenario_header_not_integral() {
    let builder = DFABuilder::from("0 a 1\n0 b 1\n1 a 0\n1 b 0\n");

    assert_eq!(Err(DFABuilderError::NonIntegralFinalState), builder);
}

#[test]
fn scenario_empty_stream() {
    assert_eq!(
        Err(DFABuilderError::EmptyStream),
        DFABuilder::from("").map(|_| ())
    );
    assert_eq!(
        Err(DFABuilderError::EmptyStream),
        DFABuilder::from("\n   \n\t\n").map(|_| ())
    );
}

#[test]
fn scenario_dangling_target() {
    let builder = DFABuilder::from("0\n0 a 1\n0 b 2\n1 a 2\n1 b 0\n2 a 3\n2 b 3\n");

    assert_eq!(true, builder.is_ok());
    assert_eq!(true, builder.unwrap().build().is_none());
}

#[test]
fn scenario_a_bstar_a() {
    let dfa = DFABuilder::from(A_BSTAR_A).unwrap().build().unwrap();

    assert_eq!(true, dfa.is_valid_string("aa"));
    assert_eq!(true, dfa.is_valid_string("aba"));
    assert_eq!(false, dfa.is_valid_string("aaa"));
    assert_eq!(false, dfa.is_valid_string(""));
}

#[test]
fn empty_string_follows_initial_state_finality() {
    // State 0 final: the empty string is accepted.
    let with_zero = DFABuilder::from(AB_STAR).unwrap().build().unwrap();
    assert_eq!(true, with_zero.is_valid_string(""));

    // State 0 not final: the empty string is rejected.
    let without_zero = DFABuilder::from(A_BSTAR_A).unwrap().build().unwrap();
    assert_eq!(false, without_zero.is_valid_string(""));
}

#[test]
fn symbol_outside_alphabet_rejects() {
    let dfa = DFABuilder::from(AB_STAR).unwrap().build().unwrap();

    // The inferred alphabet is {a, b}; any string with another symbol
    // is rejected, wherever that symbol stands.
    assert_eq!(false, dfa.is_valid_string("z"));
    assert_eq!(false, dfa.is_valid_string("abz"));
    assert_eq!(false, dfa.is_valid_string("zab"));
    assert_eq!(false, dfa.is_valid_string("abzab"));
}

#[test]
fn matching_is_repeatable() {
    let dfa = DFABuilder::from(AB_STAR).unwrap().build().unwrap();

    assert_eq!(dfa.is_valid_string("abab"), dfa.is_valid_string("abab"));
    assert_eq!(true, dfa.is_valid_string("abab"));
    assert_eq!(true, dfa.is_valid_string("abab"));
    assert_eq!(dfa.is_valid_string("aba"), dfa.is_valid_string("aba"));
    assert_eq!(false, dfa.is_valid_string("aba"));
    assert_eq!(false, dfa.is_valid_string("aba"));
}

#[test]
fn malformed_transition_line_fails() {
    assert_eq!(
        Err(DFABuilderError::MalformedLine),
        DFABuilder::from("0\n0 a\n").map(|_| ())
    );
    assert_eq!(
        Err(DFABuilderError::MalformedLine),
        DFABuilder::from("0\n0 a 1 2\n").map(|_| ())
    );
}

#[test]
fn long_symbol_token_fails() {
    assert_eq!(
        Err(DFABuilderError::ExpectedChar),
        DFABuilder::from("0\n0 ab 1\n").map(|_| ())
    );
}

#[test]
fn non_integer_state_id_fails() {
    assert_eq!(
        Err(DFABuilderError::ExpectedInt),
        DFABuilder::from("0\nq a 1\n").map(|_| ())
    );
    assert_eq!(
        Err(DFABuilderError::ExpectedInt),
        DFABuilder::from("0\n0 a q\n").map(|_| ())
    );
    // Out of range for a 32-bit id is not an integer either.
    assert_eq!(
        Err(DFABuilderError::ExpectedInt),
        DFABuilder::from("0\n2147483648 a 1\n").map(|_| ())
    );
}

#[test]
fn header_out_of_range_fails() {
    assert_eq!(
        Err(DFABuilderError::NonIntegralFinalState),
        DFABuilder::from("2147483648\n0 a 0\n").map(|_| ())
    );
}

#[test]
fn extreme_and_signed_ids_parse() {
    // Signed ids, ids with an explicit plus, and the extremes of the
    // 32-bit range are all valid state ids.
    let dfa = DFABuilder::from("-1\n0 a -1\n-1 a 0\n").unwrap().build().unwrap();
    assert_eq!(true, dfa.is_valid_string("a"));
    assert_eq!(false, dfa.is_valid_string(""));
    assert_eq!(false, dfa.is_valid_string("aa"));

    let dfa = DFABuilder::from("+1\n0 a 1\n1 a 0\n").unwrap().build().unwrap();
    assert_eq!(true, dfa.is_valid_string("a"));

    let extremes = DFABuilder::from("2147483647\n0 a 2147483647\n2147483647 a -2147483648\n-2147483648 a 0\n");
    assert_eq!(true, extremes.is_ok());
    let dfa = extremes.unwrap().build().unwrap();
    assert_eq!(true, dfa.is_valid_string("a"));
    assert_eq!(false, dfa.is_valid_string("aa"));
    assert_eq!(false, dfa.is_valid_string("aaa"));
    assert_eq!(true, dfa.is_valid_string("aaaa"));
}

#[test]
fn leading_zeros_parse() {
    let dfa = DFABuilder::from("007\n0 a 7\n7 a 0\n").unwrap().build().unwrap();
    assert_eq!(true, dfa.is_valid_string("a"));
    assert_eq!(false, dfa.is_valid_string(""));
}

#[test]
fn later_transition_overwrites_earlier() {
    // The second line for (0, a) wins: 0 moves to itself on a.
    let dfa = DFABuilder::from("0\n0 a 1\n0 a 0\n1 a 1\n").unwrap().build().unwrap();
    assert_eq!(true, dfa.is_valid_string("a"));
    assert_eq!(true, dfa.is_valid_string("aaaa"));
}

#[test]
fn missing_transition_fails_build() {
    // State 1 has no transition for b, so the table is not total.
    let builder = DFABuilder::from("0\n0 a 1\n0 b 0\n1 a 0\n");
    assert_eq!(true, builder.is_ok());
    assert_eq!(true, builder.unwrap().build().is_none());
}

#[test]
fn missing_initial_state_fails_build() {
    let builder = DFABuilder::from("1\n1 a 1\n");
    assert_eq!(true, builder.is_ok());
    assert_eq!(true, builder.unwrap().build().is_none());
}

#[test]
fn undeclared_final_state_still_builds() {
    // Validation does not ask that a final state id be declared, only
    // that the set is non-empty; such an automaton just accepts nothing.
    let dfa = DFABuilder::from("5\n0 a 0\n").unwrap().build();
    assert_eq!(true, dfa.is_some());
    let dfa = dfa.unwrap();
    assert_eq!(false, dfa.is_valid_string(""));
    assert_eq!(false, dfa.is_valid_string("a"));
}

#[test]
fn added_final_state_changes_acceptance() {
    let builder = DFABuilder::from("5\n0 a 0\n");
    assert_eq!(true, builder.is_ok());
    let mut builder = builder.unwrap();
    builder.add_final_state(0);
    let dfa = builder.build().unwrap();
    assert_eq!(true, dfa.is_valid_string(""));
    assert_eq!(true, dfa.is_valid_string("aaa"));
}

#[test]
fn states_getter_exposes_loaded_states() {
    let builder = DFABuilder::from(AB_STAR).unwrap();
    assert_eq!(3, builder.states().len());
}

#[test]
fn parse_line_decodes_transitions() {
    assert_eq!(Ok((0, 'a', 1)), parse_line("0 a 1"));
    assert_eq!(Ok((-3, 'z', 7)), parse_line("  -3   z   7 "));
    assert_eq!(Err(DFABuilderError::MalformedLine), parse_line("0 a"));
    assert_eq!(Err(DFABuilderError::MalformedLine), parse_line("0 a 1 2"));
    assert_eq!(Err(DFABuilderError::ExpectedChar), parse_line("0 ab 1"));
    assert_eq!(Err(DFABuilderError::ExpectedInt), parse_line("x a 1"));
    assert_eq!(Err(DFABuilderError::ExpectedInt), parse_line("0 a x"));
}

#[test]
fn transition_lookup_and_overwrite() {
    let mut state = State::new();
    state.add_transition('a', 1);
    state.add_transition('b', 2);

    assert_eq!(Some(1), state.transition_for('a'));
    assert_eq!(Some(2), state.transition_for('b'));
    assert_eq!(None, state.transition_for('c'));
    assert_eq!(2, state.num_transitions());

    // A later transition for the same symbol overwrites the earlier one.
    state.add_transition('a', 9);
    assert_eq!(Some(9), state.transition_for('a'));
    assert_eq!(2, state.num_transitions());
}

#[test]
fn one_step_recognition_matches_pipeline() {
    assert_eq!(Some(true), dfa::recognizes(AB_STAR, "abab"));
    assert_eq!(Some(false), dfa::recognizes(AB_STAR, "aba"));
    assert_eq!(Some(true), dfa::recognizes(A_BSTAR_A, "aba"));
    assert_eq!(None, dfa::recognizes("", "ab"));
    assert_eq!(None, dfa::recognizes("0\n0 a 3\n", "a"));
}
