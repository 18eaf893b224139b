//! The mathematical model of automata and builders: transition tables as
//! maps, the run of a table over a string, and the conditions under which a
//! builder freezes into a valid automaton.

use vstd::prelude::*;
use crate::state::State;

verus! {

/// The mathematical content of a frozen automaton.
#[verifier::ext_equal]
pub ghost struct AutoModel {
    /// The declared final state ids, in declaration order.
    pub finals: Seq<i32>,
    /// The transition table: per declared state, its outgoing map.
    pub transitions: Map<i32, Map<char, i32>>,
}

/// The mathematical content of a builder in progress.
#[verifier::ext_equal]
pub ghost struct BuilderModel {
    /// The final state ids added so far, in order.
    pub finals: Seq<i32>,
    /// The transition table accumulated so far.
    pub transitions: Map<i32, Map<char, i32>>,
    /// Every symbol observed on a transition so far.
    pub alphabet: Set<char>,
}

/// Run the transition table from state `q` over `s`; `None` as soon as a
/// needed transition is missing.
pub open spec fn run_from(t: Map<i32, Map<char, i32>>, q: i32, s: Seq<char>) -> Option<i32>
    decreases s.len(),
{
    if s.len() == 0 {
        Some(q)
    } else if t.dom().contains(q) && t[q].dom().contains(s[0]) {
        run_from(t, t[q][s[0]], s.drop_first())
    } else {
        None
    }
}

/// Whether the automaton accepts `s`: the run from the initial state `0`
/// consumes all of `s` and ends in a final state.
pub open spec fn accepts(m: AutoModel, s: Seq<char>) -> bool {
    match run_from(m.transitions, 0, s) {
        Some(q) => m.finals.contains(q),
        None => false,
    }
}

/// The inferred alphabet of a table: every symbol on which some state has a
/// transition.
pub open spec fn alphabet_of(t: Map<i32, Map<char, i32>>) -> Set<char> {
    Set::new(
        |c: char| exists|q: i32| t.dom().contains(q) && (#[trigger] t[q]).dom().contains(c),
    )
}

/// The invariants of a frozen automaton: the initial state is declared,
/// some state is final, and every transition targets a declared state.
pub open spec fn automaton_wf(m: AutoModel) -> bool {
    &&& m.transitions.dom().contains(0)
    &&& m.finals.len() > 0
    &&& forall|q: i32, c: char|
        m.transitions.dom().contains(q) && m.transitions[q].dom().contains(c)
            ==> m.transitions.dom().contains(#[trigger] m.transitions[q][c])
}

/// Whether a builder can freeze into an automaton: the initial state `0` is
/// declared, some state is final, every declared state has a transition for
/// every symbol of the builder's alphabet, and every transition targets a
/// declared state.
pub open spec fn buildable(m: BuilderModel) -> bool {
    &&& m.transitions.dom().contains(0)
    &&& m.finals.len() > 0
    &&& forall|q: i32, c: char|
        m.transitions.dom().contains(q) && m.alphabet.contains(c)
            ==> (#[trigger] m.transitions[q].dom().contains(c))
    &&& forall|q: i32, c: char|
        m.transitions.dom().contains(q) && m.transitions[q].dom().contains(c)
            ==> m.transitions.dom().contains(#[trigger] m.transitions[q][c])
}

/// The automaton a buildable builder freezes into.
pub open spec fn frozen(m: BuilderModel) -> AutoModel {
    AutoModel { finals: m.finals, transitions: m.transitions }
}

/// The transition table encoded by an association list of states; a later
/// entry for the same id overwrites an earlier one.
pub open spec fn states_map(s: Seq<(i32, State)>) -> Map<i32, Map<char, i32>>
    decreases s.len(),
{
    if s.len() == 0 {
        Map::empty()
    } else {
        states_map(s.drop_last()).insert(s.last().0, s.last().1@)
    }
}

/// No two entries declare the same state id.
pub open spec fn unique_state_ids(s: Seq<(i32, State)>) -> bool {
    forall|i: int, j: int| 0 <= i < j < s.len() ==> (#[trigger] s[i]).0 != (#[trigger] s[j]).0
}

pub proof fn lemma_states_map_dom(s: Seq<(i32, State)>, q: i32)
    ensures
        states_map(s).dom().contains(q) <==> exists|i: int|
            0 <= i < s.len() && (#[trigger] s[i]).0 == q,
    decreases s.len(),
{
    if s.len() > 0 {
        let t = s.drop_last();
        lemma_states_map_dom(t, q);
        if s.last().0 == q {
            assert((s[s.len() - 1]).0 == q);
        } else if states_map(t).dom().contains(q) {
            let i = choose|i: int| 0 <= i < t.len() && (#[trigger] t[i]).0 == q;
            assert((s[i]).0 == q);
        }
        if exists|i: int| 0 <= i < s.len() && (#[trigger] s[i]).0 == q {
            let i = choose|i: int| 0 <= i < s.len() && (#[trigger] s[i]).0 == q;
            if i < s.len() - 1 {
                assert((t[i]).0 == q);
            }
        }
    }
}

/// With unique ids, the entry at any index gives the table's row there.
pub proof fn lemma_states_map_at(s: Seq<(i32, State)>, i: int)
    requires
        unique_state_ids(s),
        0 <= i < s.len(),
    ensures
        states_map(s).dom().contains(s[i].0),
        states_map(s)[s[i].0] == s[i].1@,
    decreases s.len(),
{
    let t = s.drop_last();
    assert(unique_state_ids(t)) by {
        assert(forall|x: int| 0 <= x < t.len() ==> t[x] == s[x]);
    }
    if i == s.len() - 1 {
    } else {
        assert(t[i] == s[i]);
        lemma_states_map_at(t, i);
        assert(s.last().0 != s[i].0);
    }
}

pub proof fn lemma_states_map_push(s: Seq<(i32, State)>, p: (i32, State))
    ensures
        states_map(s.push(p)) == states_map(s).insert(p.0, p.1@),
{
    assert(s.push(p).drop_last() =~= s);
    assert(s.push(p).last() == p);
}

/// With unique ids, replacing the entry that holds an id updates the table
/// at that id alone.
pub proof fn lemma_states_map_update(s: Seq<(i32, State)>, j: int, st: State)
    requires
        unique_state_ids(s),
        0 <= j < s.len(),
    ensures
        states_map(s.update(j, (s[j].0, st))) == states_map(s).insert(s[j].0, st@),
    decreases s.len(),
{
    let t = s.drop_last();
    let s2 = s.update(j, (s[j].0, st));
    assert(unique_state_ids(t)) by {
        assert(forall|x: int| 0 <= x < t.len() ==> t[x] == s[x]);
    }
    if j == s.len() - 1 {
        assert(s2.drop_last() =~= t);
        assert(states_map(s2) =~= states_map(s).insert(s[j].0, st@));
    } else {
        assert(s2.drop_last() =~= t.update(j, (s[j].0, st)));
        assert(t[j] == s[j]);
        lemma_states_map_update(t, j, st);
        assert(s2.last() == s.last());
        assert(s.last().0 != s[j].0);
        assert(states_map(s2) =~= states_map(s).insert(s[j].0, st@));
    }
}

} // verus!
