//! Construct a deterministic finite automaton (DFA) from a textual
//! description and decide whether strings belong to its language.
//!
//! The description is line-oriented: the first non-blank line lists the
//! final state ids, and every following non-blank line is one transition,
//! `<from-state> <symbol> <to-state>`. State `0` is always the initial
//! state, and the alphabet is inferred from the transitions. A
//! [`DFABuilder`] accumulates the description and freezes it, after
//! validation, into an immutable [`DFA`] whose only operation is the
//! membership test.

use vstd::prelude::*;

pub mod laws;
pub mod model;
pub mod state;
pub mod text;

use crate::model::{
    accepts, automaton_wf, buildable, frozen, lemma_states_map_at, lemma_states_map_dom,
    lemma_states_map_push, lemma_states_map_update, run_from, states_map, unique_state_ids,
    AutoModel, BuilderModel,
};
use crate::state::State;
use crate::text::{
    chars_of, i32_literal_value, is_i32_literal, lemma_filter_push, lemma_map_values_push,
    lemma_to_set_push, newline_pred, nonempty_pred, parse_int, split_by, split_lines,
    token_views, tokenize, tokens_of, views_of,
};

verus! {

/// An error found while parsing an automaton description.
#[derive(Debug, PartialEq, Eq)]
pub enum DFABuilderError {
    /// A transition line did not split into exactly three tokens.
    MalformedLine,
    /// The header line contained a token that is not an integer.
    NonIntegralFinalState,
    /// The input contained no non-blank line.
    EmptyStream,
    /// The symbol token of a transition line was longer than one character.
    ExpectedChar,
    /// A state-id token did not parse as an integer.
    ExpectedInt,
}

/// How each token of a header line becomes a final state id.
pub open spec fn literal_i32_fn() -> spec_fn(Seq<char>) -> i32 {
    |t: Seq<char>| i32_literal_value(t) as i32
}

/// How a line becomes its tokens.
pub open spec fn tokens_fn() -> spec_fn(Seq<char>) -> Seq<Seq<char>> {
    |l: Seq<char>| tokens_of(l)
}

/// The token lists of the non-blank lines of a stream: lines are split on
/// newlines, each is tokenized, and lines without tokens are dropped.
pub open spec fn spec_token_lines(s: Seq<char>) -> Seq<Seq<Seq<char>>> {
    split_by(s, newline_pred()).map_values(tokens_fn()).filter(nonempty_pred())
}

/// Parse a header line's tokens as the final state ids.
pub open spec fn spec_header(ts: Seq<Seq<char>>) -> Result<Seq<i32>, DFABuilderError> {
    if forall|i: int| 0 <= i < ts.len() ==> is_i32_literal(#[trigger] ts[i]) {
        Ok(ts.map_values(literal_i32_fn()))
    } else {
        Err(DFABuilderError::NonIntegralFinalState)
    }
}

/// Parse a transition line's tokens as (from-state, symbol, to-state).
pub open spec fn spec_transition(ts: Seq<Seq<char>>) -> Result<(i32, char, i32), DFABuilderError> {
    if ts.len() != 3 {
        Err(DFABuilderError::MalformedLine)
    } else if !is_i32_literal(ts[0]) {
        Err(DFABuilderError::ExpectedInt)
    } else if ts[1].len() != 1 {
        Err(DFABuilderError::ExpectedChar)
    } else if !is_i32_literal(ts[2]) {
        Err(DFABuilderError::ExpectedInt)
    } else {
        Ok((i32_literal_value(ts[0]) as i32, ts[1][0], i32_literal_value(ts[2]) as i32))
    }
}

/// One transition recorded into a builder model: the symbol joins the
/// alphabet and the (from-state, symbol) entry is written, creating the
/// source state if this is its first mention.
pub open spec fn spec_record(m: BuilderModel, from: i32, w: char, to: i32) -> BuilderModel {
    BuilderModel {
        finals: m.finals,
        transitions: m.transitions.insert(
            from,
            (if m.transitions.dom().contains(from) {
                m.transitions[from]
            } else {
                Map::empty()
            }).insert(w, to),
        ),
        alphabet: m.alphabet.insert(w),
    }
}

/// Fold transition lines into the model, stopping at the first bad line.
pub open spec fn spec_fold(
    tls: Seq<Seq<Seq<char>>>,
    m: BuilderModel,
) -> Result<BuilderModel, DFABuilderError>
    decreases tls.len(),
{
    if tls.len() == 0 {
        Ok(m)
    } else {
        match spec_transition(tls[0]) {
            Ok(tr) => spec_fold(tls.drop_first(), spec_record(m, tr.0, tr.1, tr.2)),
            Err(e) => Err(e),
        }
    }
}

/// The builder a stream describes: the first non-blank line names the final
/// states, every later non-blank line records one transition.
pub open spec fn spec_from(s: Seq<char>) -> Result<BuilderModel, DFABuilderError> {
    let tls = spec_token_lines(s);
    if tls.len() == 0 {
        Err(DFABuilderError::EmptyStream)
    } else {
        match spec_header(tls[0]) {
            Ok(fs) => spec_fold(
                tls.drop_first(),
                BuilderModel { finals: fs, transitions: Map::empty(), alphabet: Set::empty() },
            ),
            Err(e) => Err(e),
        }
    }
}

/// The position of the entry for state id `q`, if there is one.
fn find_state(v: &Vec<(i32, State)>, q: i32) -> (r: Option<usize>)
    ensures
        r matches Some(j) ==> j < v@.len() && v@[j as int].0 == q,
        r is None ==> forall|j: int| 0 <= j < v@.len() ==> (#[trigger] v@[j]).0 != q,
{
    let mut i: usize = 0;
    while i < v.len()
        invariant
            i <= v@.len(),
            forall|j: int| 0 <= j < i ==> (#[trigger] v@[j]).0 != q,
        decreases v@.len() - i,
    {
        if v[i].0 == q {
            return Some(i);
        }
        i = i + 1;
    }
    None
}

/// Whether the table declares state `q`.
fn contains_state(v: &Vec<(i32, State)>, q: i32) -> (r: bool)
    ensures
        r == states_map(v@).dom().contains(q),
{
    proof {
        lemma_states_map_dom(v@, q);
    }
    match find_state(v, q) {
        Some(_) => true,
        None => false,
    }
}

/// Whether the vector holds the character.
fn contains_char(v: &Vec<char>, c: char) -> (r: bool)
    ensures
        r == v@.contains(c),
{
    let mut i: usize = 0;
    while i < v.len()
        invariant
            i <= v@.len(),
            forall|j: int| 0 <= j < i ==> v@[j] != c,
        decreases v@.len() - i,
    {
        if v[i] == c {
            return true;
        }
        i = i + 1;
    }
    false
}

/// Whether the vector holds the state id.
fn contains_id(v: &Vec<i32>, q: i32) -> (r: bool)
    ensures
        r == v@.contains(q),
{
    let mut i: usize = 0;
    while i < v.len()
        invariant
            i <= v@.len(),
            forall|j: int| 0 <= j < i ==> v@[j] != q,
        decreases v@.len() - i,
    {
        if v[i] == q {
            return true;
        }
        i = i + 1;
    }
    false
}

/// Parse the three tokens of a transition line.
fn parse_transition_tokens(ts: &Vec<Vec<char>>) -> (r: Result<(i32, char, i32), DFABuilderError>)
    ensures
        r == spec_transition(views_of(ts@)),
{
    let ghost vs = views_of(ts@);
    if ts.len() != 3 {
        return Err(DFABuilderError::MalformedLine);
    }
    proof {
        assert(vs[0] == ts@[0]@);
        assert(vs[1] == ts@[1]@);
        assert(vs[2] == ts@[2]@);
    }
    let from = match parse_int(&ts[0]) {
        Some(v) => v,
        None => {
            return Err(DFABuilderError::ExpectedInt);
        },
    };
    if ts[1].len() != 1 {
        return Err(DFABuilderError::ExpectedChar);
    }
    let w = ts[1][0];
    let to = match parse_int(&ts[2]) {
        Some(v) => v,
        None => {
            return Err(DFABuilderError::ExpectedInt);
        },
    };
    Ok((from, w, to))
}

/// Parse one transition line of the description.
///
/// Returns a tuple of the form `(from_state_id, transition_letter, to_state_id)`.
pub fn parse_line(line: &str) -> (r: Result<(i32, char, i32), DFABuilderError>)
    ensures
        r == spec_transition(tokens_of(line@)),
{
    let cs = chars_of(line);
    let ts = tokenize(&cs);
    parse_transition_tokens(&ts)
}

/// Build the automaton a description text specifies and test one string
/// against it in a single step.
///
/// This is the round trip through the whole pipeline: the answer, when
/// there is one, is exactly the simulation of the parsed transition table
/// over the query, and there is an answer exactly when the description
/// parses and validates.
pub fn recognizes(description: &str, query: &str) -> (r: Option<bool>)
    ensures
        r is Some <==> (spec_from(description@) matches Ok(m) && buildable(m)),
        r matches Some(v) ==> (spec_from(description@) matches Ok(m) && v == accepts(
            frozen(m),
            query@,
        )),
{
    match DFABuilder::from(description) {
        Ok(b) => match b.build() {
            Some(d) => Some(d.is_valid_string(query)),
            None => None,
        },
        Err(_) => None,
    }
}

/// DFA represents a deterministic finite automaton. It can only be obtained
/// from [`DFABuilder::build`], so every `DFA` satisfies the structural
/// invariants checked there.
#[derive(Debug)]
pub struct DFA {
    /// The state ids that are final states.
    final_states: Vec<i32>,

    /// All states of this DFA, keyed by their ids.
    states: Vec<(i32, State)>,
}

impl View for DFA {
    type V = AutoModel;

    closed spec fn view(&self) -> AutoModel {
        AutoModel { finals: self.final_states@, transitions: states_map(self.states@) }
    }
}

impl DFA {
    #[verifier::type_invariant]
    spec fn wf(self) -> bool {
        unique_state_ids(self.states@) && automaton_wf(self@)
    }

    /// Whether `q` is one of the final states.
    fn is_final(&self, q: i32) -> (r: bool)
        ensures
            r == self@.finals.contains(q),
    {
        contains_id(&self.final_states, q)
    }

    /// Return the `State` with the specified `state_id`.
    fn get_state(&self, state_id: i32) -> (r: &State)
        requires
            self@.transitions.dom().contains(state_id),
        ensures
            r@ == self@.transitions[state_id],
    {
        proof {
            use_type_invariant(self);
            lemma_states_map_dom(self.states@, state_id);
        }
        match find_state(&self.states, state_id) {
            Some(j) => {
                proof {
                    lemma_states_map_at(self.states@, j as int);
                }
                &self.states[j].1
            },
            None => {
                // Unreachable: the state was required to be declared.
                vstd::pervasive::unreached()
            },
        }
    }

    /// Return `true` if `s` is a valid string in the language represented
    /// by this `DFA`: the run from state `0` consumes every character of
    /// `s` and ends in a final state. A character without a transition
    /// rejects immediately.
    pub fn is_valid_string(&self, s: &str) -> (r: bool)
        ensures
            r == accepts(self@, s@),
    {
        proof {
            use_type_invariant(self);
        }
        if s.is_empty() {
            self.is_final(0)
        } else {
            let cs = chars_of(s);
            let mut cur: i32 = 0;
            let mut i: usize = 0;
            proof {
                assert(s@.skip(0) =~= s@);
            }
            while i < cs.len()
                invariant
                    i <= cs@.len(),
                    cs@ == s@,
                    automaton_wf(self@),
                    self@.transitions.dom().contains(cur),
                    run_from(self@.transitions, 0, s@) == run_from(
                        self@.transitions,
                        cur,
                        s@.skip(i as int),
                    ),
                decreases cs@.len() - i,
            {
                let c = cs[i];
                proof {
                    assert(s@.skip(i as int).len() > 0);
                    assert(s@.skip(i as int)[0] == c);
                    assert(s@.skip(i as int).drop_first() =~= s@.skip(i as int + 1));
                }
                match self.get_state(cur).transition_for(c) {
                    Some(nxt) => {
                        cur = nxt;
                    },
                    None => {
                        return false;
                    },
                }
                i = i + 1;
            }
            proof {
                assert(s@.skip(s@.len() as int) =~= Seq::<char>::empty());
            }
            self.is_final(cur)
        }
    }
}

/// `DFABuilder` accumulates an automaton description and freezes it, with
/// validation, into a [`DFA`].
#[derive(Debug, PartialEq, Eq)]
pub struct DFABuilder {
    /// The state ids declared as final states.
    final_states: Vec<i32>,

    /// The states accumulated so far, keyed by their ids.
    states: Vec<(i32, State)>,

    /// Every symbol observed on a transition so far.
    alphabet: Vec<char>,
}

impl View for DFABuilder {
    type V = BuilderModel;

    closed spec fn view(&self) -> BuilderModel {
        BuilderModel {
            finals: self.final_states@,
            transitions: states_map(self.states@),
            alphabet: self.alphabet@.to_set(),
        }
    }
}

impl DFABuilder {
    #[verifier::type_invariant]
    spec fn wf(self) -> bool {
        &&& unique_state_ids(self.states@)
        &&& forall|i: int, c: char|
            0 <= i < self.states@.len() && (#[trigger] self.states@[i].1@.dom().contains(c))
                ==> self.alphabet@.contains(c)
    }

    /// Add the specified state id as a final state.
    ///
    /// `state_id` the ID of the state that is considered a final state.
    pub fn add_final_state(&mut self, state_id: i32)
        ensures
            final(self)@.finals == old(self)@.finals.push(state_id),
            final(self)@.transitions == old(self)@.transitions,
            final(self)@.alphabet == old(self)@.alphabet,
    {
        proof {
            use_type_invariant(&*self);
        }
        let mut finals: Vec<i32> = Vec::new();
        std::mem::swap(&mut finals, &mut self.final_states);
        finals.push(state_id);
        self.final_states = finals;
    }

    /// The states loaded so far, as (id, state) pairs with unique ids.
    pub fn states(&self) -> (r: &Vec<(i32, State)>)
        ensures
            states_map(r@) == self@.transitions,
            unique_state_ids(r@),
    {
        proof {
            use_type_invariant(self);
        }
        &self.states
    }

    /// Record one parsed transition: the symbol joins the alphabet and the
    /// (from-state, symbol) entry is written, creating the source state if
    /// this is its first mention.
    fn record_transition(&mut self, from: i32, w: char, to: i32)
        ensures
            final(self)@ == spec_record(old(self)@, from, w, to),
    {
        proof {
            use_type_invariant(&*self);
        }
        let mut sts: Vec<(i32, State)> = Vec::new();
        std::mem::swap(&mut sts, &mut self.states);
        let mut alph: Vec<char> = Vec::new();
        std::mem::swap(&mut alph, &mut self.alphabet);
        let ghost pre_sts = sts@;
        let ghost pre_alph = alph@;

        if !contains_char(&alph, w) {
            alph.push(w);
            proof {
                lemma_to_set_push(pre_alph, w);
            }
        } else {
            proof {
                assert(pre_alph.to_set().insert(w) =~= pre_alph.to_set());
            }
        }
        self.alphabet = alph;

        match find_state(&sts, from) {
            Some(j) => {
                proof {
                    lemma_states_map_at(pre_sts, j as int);
                    lemma_states_map_dom(pre_sts, from);
                }
                let (id, mut st) = sts.remove(j);
                proof {
                    assert(unique_state_ids(sts@)) by {
                        assert(forall|x: int| 0 <= x < j ==> sts@[x] == pre_sts[x]);
                        assert(forall|x: int| j <= x < sts@.len() ==> sts@[x] == pre_sts[x + 1]);
                    }
                }
                st.add_transition(w, to);
                sts.insert(j, (id, st));
                proof {
                    assert(sts@ =~= pre_sts.update(j as int, (from, st)));
                    lemma_states_map_update(pre_sts, j as int, st);
                    assert(unique_state_ids(sts@)) by {
                        assert(forall|x: int|
                            0 <= x < sts@.len() && x != j ==> sts@[x] == pre_sts[x]);
                    }
                    assert(self.alphabet@.to_set() == pre_alph.to_set().insert(w));
                    assert forall|x: int, c: char|
                        0 <= x < sts@.len() && (#[trigger] sts@[x].1@.dom().contains(c))
                            implies self.alphabet@.contains(c) by {
                        if x == j as int && c != w {
                            assert(pre_sts[x].1@.dom().contains(c));
                        }
                        if x != j as int {
                            assert(sts@[x] == pre_sts[x]);
                            assert(pre_sts[x].1@.dom().contains(c));
                        }
                        assert(self.alphabet@.to_set().contains(c));
                    }
                }
            },
            None => {
                proof {
                    lemma_states_map_dom(pre_sts, from);
                }
                let mut st = State::new();
                st.add_transition(w, to);
                proof {
                    lemma_states_map_push(pre_sts, (from, st));
                }
                sts.push((from, st));
                proof {
                    assert(sts@ =~= pre_sts.push((from, st)));
                    assert(unique_state_ids(sts@)) by {
                        assert(forall|x: int| 0 <= x < pre_sts.len() ==> sts@[x] == pre_sts[x]);
                    }
                    assert(self.alphabet@.to_set() == pre_alph.to_set().insert(w));
                    assert forall|x: int, c: char|
                        0 <= x < sts@.len() && (#[trigger] sts@[x].1@.dom().contains(c))
                            implies self.alphabet@.contains(c) by {
                        if x < pre_sts.len() {
                            assert(sts@[x] == pre_sts[x]);
                            assert(pre_sts[x].1@.dom().contains(c));
                        } else {
                            assert(c == w);
                        }
                        assert(self.alphabet@.to_set().contains(c));
                    }
                }
            },
        }
        self.states = sts;
        proof {
            assert(final(self)@ =~~= spec_record(old(self)@, from, w, to));
        }
    }

    /// Create a builder from the specified description text.
    ///
    /// The first non-blank line lists the final state ids; every following
    /// non-blank line is one transition. Parsing stops at the first error
    /// and returns it; no partial builder is returned.
    pub fn from(input: &str) -> (r: Result<Self, DFABuilderError>)
        ensures
            r matches Ok(b) ==> spec_from(input@) == Ok::<BuilderModel, DFABuilderError>(b@),
            r matches Err(e) ==> spec_from(input@) == Err::<BuilderModel, DFABuilderError>(e),
    {
        let cs = chars_of(input);
        let raw = split_lines(&cs);
        let ghost lines = views_of(raw@);

        // Tokenize every line, keeping the non-blank ones.
        let mut tls: Vec<Vec<Vec<char>>> = Vec::new();
        let mut i: usize = 0;
        proof {
            assert(lines.take(0) =~= Seq::<Seq<char>>::empty());
            assert(lines.take(0).map_values(tokens_fn()) =~= Seq::<Seq<Seq<char>>>::empty());
            assert(token_views(tls@) =~= lines.take(0).map_values(tokens_fn()).filter(
                nonempty_pred(),
            ));
        }
        while i < raw.len()
            invariant
                i <= raw@.len(),
                lines == views_of(raw@),
                token_views(tls@) == lines.take(i as int).map_values(tokens_fn()).filter(
                    nonempty_pred(),
                ),
            decreases raw@.len() - i,
        {
            let ghost pre_tls = tls@;
            let ts = tokenize(&raw[i]);
            proof {
                assert(lines[i as int] == raw@[i as int]@);
                assert(lines.take(i as int).push(lines[i as int]) =~= lines.take(i as int + 1));
                lemma_map_values_push(lines.take(i as int), lines[i as int], tokens_fn());
                lemma_filter_push(
                    lines.take(i as int).map_values(tokens_fn()),
                    tokens_of(lines[i as int]),
                    nonempty_pred(),
                );
            }
            if ts.len() > 0 {
                tls.push(ts);
                proof {
                    assert(token_views(tls@) =~~= token_views(pre_tls).push(views_of(ts@)));
                }
            }
            i = i + 1;
        }
        proof {
            assert(lines.take(lines.len() as int) =~= lines);
        }
        let ghost tls_v = token_views(tls@);
        proof {
            assert(tls_v == spec_token_lines(input@));
        }

        if tls.len() == 0 {
            return Err(DFABuilderError::EmptyStream);
        }

        let mut b = DFABuilder {
            final_states: Vec::new(),
            states: Vec::new(),
            alphabet: Vec::new(),
        };

        // The first non-blank line is the header: its tokens are the final
        // state ids.
        let ghost hs = tls_v[0];
        let mut j: usize = 0;
        proof {
            assert(hs == views_of(tls@[0]@));
            assert(hs.take(0).map_values(literal_i32_fn()) =~= Seq::<i32>::empty());
            assert(b@.transitions =~= Map::<i32, Map<char, i32>>::empty());
            assert(b@.alphabet =~= Set::<char>::empty());
        }
        loop
            invariant
                0 < tls@.len(),
                j <= tls@[0]@.len(),
                tls_v == token_views(tls@),
                tls_v == spec_token_lines(input@),
                hs == tls_v[0],
                hs == views_of(tls@[0]@),
                forall|x: int| 0 <= x < j ==> is_i32_literal(#[trigger] hs[x]),
                b@.finals == hs.take(j as int).map_values(literal_i32_fn()),
                b@.transitions == Map::<i32, Map<char, i32>>::empty(),
                b@.alphabet == Set::<char>::empty(),
            ensures
                j == tls@[0]@.len(),
                forall|x: int| 0 <= x < hs.len() ==> is_i32_literal(#[trigger] hs[x]),
                b@.finals == hs.take(j as int).map_values(literal_i32_fn()),
                b@.transitions == Map::<i32, Map<char, i32>>::empty(),
                b@.alphabet == Set::<char>::empty(),
            decreases tls@[0]@.len() - j,
        {
            if j == tls[0].len() {
                break;
            }
            proof {
                assert(hs[j as int] == tls@[0]@[j as int]@);
            }
            match parse_int(&tls[0][j]) {
                Some(v) => {
                    b.add_final_state(v);
                    proof {
                        assert(hs.take(j as int).push(hs[j as int]) =~= hs.take(j as int + 1));
                        lemma_map_values_push(hs.take(j as int), hs[j as int], literal_i32_fn());
                    }
                },
                None => {
                    proof {
                        assert(!is_i32_literal(hs[j as int]));
                    }
                    return Err(DFABuilderError::NonIntegralFinalState);
                },
            }
            j = j + 1;
        }
        proof {
            assert(hs.take(hs.len() as int) =~= hs);
            assert(spec_header(hs) == Ok::<Seq<i32>, DFABuilderError>(b@.finals));
        }

        // Every later non-blank line records one transition.
        let ghost m0 = b@;
        proof {
            assert(tls_v.drop_first() =~= tls_v.skip(1));
            assert(m0 =~~= (BuilderModel {
                finals: hs.map_values(literal_i32_fn()),
                transitions: Map::<i32, Map<char, i32>>::empty(),
                alphabet: Set::<char>::empty(),
            }));
            assert(spec_from(input@) == spec_fold(tls_v.drop_first(), m0));
        }
        let mut k: usize = 1;
        while k < tls.len()
            invariant
                1 <= k <= tls@.len(),
                tls_v == token_views(tls@),
                spec_from(input@) == spec_fold(tls_v.drop_first(), m0),
                spec_fold(tls_v.drop_first(), m0) == spec_fold(tls_v.skip(k as int), b@),
            decreases tls@.len() - k,
        {
            proof {
                assert(tls_v.skip(k as int)[0] == tls_v[k as int]);
                assert(tls_v[k as int] == views_of(tls@[k as int]@));
                assert(tls_v.skip(k as int).drop_first() =~= tls_v.skip(k as int + 1));
            }
            match parse_transition_tokens(&tls[k]) {
                Ok((f, w, t)) => {
                    b.record_transition(f, w, t);
                },
                Err(e) => {
                    return Err(e);
                },
            }
            k = k + 1;
        }
        proof {
            assert(tls_v.skip(tls_v.len() as int) =~= Seq::<Seq<Seq<char>>>::empty());
        }
        Ok(b)
    }

    /// Attempt to build the `DFA` specified in this `DFABuilder`.
    ///
    /// The automaton is returned only if state `0` exists, at least one
    /// final state was declared, every state has a transition for every
    /// symbol of the alphabet, and every transition targets a declared
    /// state; otherwise nothing is returned. The builder is consumed either
    /// way.
    pub fn build(self) -> (r: Option<DFA>)
        ensures
            r matches Some(d) ==> buildable(self@) && d@ == frozen(self@),
            r is None ==> !buildable(self@),
    {
        proof {
            use_type_invariant(&self);
            lemma_states_map_dom(self.states@, 0);
        }
        // Ensure there's an initial state.
        if !contains_state(&self.states, 0) {
            return None;
        }

        // Ensure there's at least one final state.
        if self.final_states.len() < 1 {
            return None;
        }

        // Ensure every state has a transition for each symbol of the
        // alphabet, and that each transition's target state exists.
        let ghost tmap = states_map(self.states@);
        let mut i: usize = 0;
        while i < self.states.len()
            invariant
                i <= self.states@.len(),
                unique_state_ids(self.states@),
                tmap == states_map(self.states@),
                forall|x: int, y: int|
                    #![trigger self.states@[x], self.alphabet@[y]]
                    0 <= x < i && 0 <= y < self.alphabet@.len() ==> {
                        &&& tmap[self.states@[x].0].dom().contains(self.alphabet@[y])
                        &&& tmap.dom().contains(tmap[self.states@[x].0][self.alphabet@[y]])
                    },
            decreases self.states@.len() - i,
        {
            proof {
                lemma_states_map_at(self.states@, i as int);
            }
            let mut y: usize = 0;
            while y < self.alphabet.len()
                invariant
                    i < self.states@.len(),
                    y <= self.alphabet@.len(),
                    unique_state_ids(self.states@),
                    tmap == states_map(self.states@),
                    tmap.dom().contains(self.states@[i as int].0),
                    tmap[self.states@[i as int].0] == self.states@[i as int].1@,
                    forall|z: int|
                        #![trigger self.alphabet@[z]]
                        0 <= z < y ==> {
                            &&& tmap[self.states@[i as int].0].dom().contains(self.alphabet@[z])
                            &&& tmap.dom().contains(
                                tmap[self.states@[i as int].0][self.alphabet@[z]],
                            )
                        },
                decreases self.alphabet@.len() - y,
            {
                let w = self.alphabet[y];
                // Get the transition for the current symbol; without one no
                // automaton can be returned.
                match self.states[i].1.transition_for(w) {
                    None => {
                        proof {
                            assert(self@.alphabet.contains(w));
                        }
                        return None;
                    },
                    Some(target) => {
                        // Ensure the state being transitioned to exists.
                        if !contains_state(&self.states, target) {
                            return None;
                        }
                    },
                }
                y = y + 1;
            }
            i = i + 1;
        }

        proof {
            assert forall|q: i32, c: char|
                self@.transitions.dom().contains(q) && self@.alphabet.contains(c) implies (
            #[trigger] self@.transitions[q].dom().contains(c)) by {
                lemma_states_map_dom(self.states@, q);
                let x = choose|x: int|
                    0 <= x < self.states@.len() && (#[trigger] self.states@[x]).0 == q;
                let y = choose|y: int| 0 <= y < self.alphabet@.len() && self.alphabet@[y] == c;
                assert(self.states@[x].0 == q && self.alphabet@[y] == c);
            };
            assert forall|q: i32, c: char|
                self@.transitions.dom().contains(q) && self@.transitions[q].dom().contains(
                    c,
                ) implies self@.transitions.dom().contains(#[trigger] self@.transitions[q][c]) by {
                lemma_states_map_dom(self.states@, q);
                let x = choose|x: int|
                    0 <= x < self.states@.len() && (#[trigger] self.states@[x]).0 == q;
                lemma_states_map_at(self.states@, x);
                assert(self.states@[x].1@.dom().contains(c));
                assert(self.alphabet@.contains(c));
                let y = choose|y: int| 0 <= y < self.alphabet@.len() && self.alphabet@[y] == c;
                assert(self.states@[x].0 == q && self.alphabet@[y] == c);
            };
            assert(buildable(self@));
        }
        let DFABuilder { final_states, states, alphabet: _ } = self;
        let d = DFA { final_states, states };
        proof {
            assert(d@ =~~= frozen(self@));
        }
        Some(d)
    }
}

} // verus!
