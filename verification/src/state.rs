//! Automaton states: each state owns its outgoing transitions, at most one
//! per symbol, modelled as a map from symbol to target state id.

use vstd::prelude::*;

verus! {

/// The map encoded by an association list; a later entry for the same key
/// overwrites an earlier one.
pub open spec fn trans_map(s: Seq<(char, i32)>) -> Map<char, i32>
    decreases s.len(),
{
    if s.len() == 0 {
        Map::empty()
    } else {
        trans_map(s.drop_last()).insert(s.last().0, s.last().1)
    }
}

/// No two entries share a key.
pub open spec fn unique_trans_keys(s: Seq<(char, i32)>) -> bool {
    forall|i: int, j: int| 0 <= i < j < s.len() ==> (#[trigger] s[i]).0 != (#[trigger] s[j]).0
}

pub proof fn lemma_trans_map_dom(s: Seq<(char, i32)>, c: char)
    ensures
        trans_map(s).dom().contains(c) <==> exists|i: int|
            0 <= i < s.len() && (#[trigger] s[i]).0 == c,
    decreases s.len(),
{
    if s.len() > 0 {
        let t = s.drop_last();
        lemma_trans_map_dom(t, c);
        if s.last().0 == c {
            assert((s[s.len() - 1]).0 == c);
        } else if trans_map(t).dom().contains(c) {
            let i = choose|i: int| 0 <= i < t.len() && (#[trigger] t[i]).0 == c;
            assert((s[i]).0 == c);
        }
        if exists|i: int| 0 <= i < s.len() && (#[trigger] s[i]).0 == c {
            let i = choose|i: int| 0 <= i < s.len() && (#[trigger] s[i]).0 == c;
            if i < s.len() - 1 {
                assert((t[i]).0 == c);
            }
        }
    }
}

/// With unique keys, the entry at any index gives the map's value there.
pub proof fn lemma_trans_map_at(s: Seq<(char, i32)>, i: int)
    requires
        unique_trans_keys(s),
        0 <= i < s.len(),
    ensures
        trans_map(s).dom().contains(s[i].0),
        trans_map(s)[s[i].0] == s[i].1,
    decreases s.len(),
{
    let t = s.drop_last();
    assert(unique_trans_keys(t)) by {
        assert(forall|x: int| 0 <= x < t.len() ==> t[x] == s[x]);
    }
    if i == s.len() - 1 {
    } else {
        assert(t[i] == s[i]);
        lemma_trans_map_at(t, i);
        assert(s.last().0 != s[i].0);
    }
}

pub proof fn lemma_trans_map_push(s: Seq<(char, i32)>, p: (char, i32))
    ensures
        trans_map(s.push(p)) == trans_map(s).insert(p.0, p.1),
{
    assert(s.push(p).drop_last() =~= s);
    assert(s.push(p).last() == p);
}

/// With unique keys, overwriting the entry that holds a key updates the map
/// at that key alone.
pub proof fn lemma_trans_map_update(s: Seq<(char, i32)>, j: int, v: i32)
    requires
        unique_trans_keys(s),
        0 <= j < s.len(),
    ensures
        trans_map(s.update(j, (s[j].0, v))) == trans_map(s).insert(s[j].0, v),
    decreases s.len(),
{
    let t = s.drop_last();
    let s2 = s.update(j, (s[j].0, v));
    assert(unique_trans_keys(t)) by {
        assert(forall|x: int| 0 <= x < t.len() ==> t[x] == s[x]);
    }
    if j == s.len() - 1 {
        assert(s2.drop_last() =~= t);
        assert(trans_map(s2) =~= trans_map(s).insert(s[j].0, v));
    } else {
        assert(s2.drop_last() =~= t.update(j, (s[j].0, v)));
        assert(t[j] == s[j]);
        lemma_trans_map_update(t, j, v);
        assert(s2.last() == s.last());
        assert(s.last().0 != s[j].0);
        assert(trans_map(s2) =~= trans_map(s).insert(s[j].0, v));
    }
}

/// With unique keys, the list and the map it encodes have the same size.
pub proof fn lemma_trans_map_len(s: Seq<(char, i32)>)
    requires
        unique_trans_keys(s),
    ensures
        trans_map(s).dom().finite(),
        trans_map(s).dom().len() == s.len(),
    decreases s.len(),
{
    if s.len() == 0 {
        assert(trans_map(s).dom() =~= Set::<char>::empty());
    } else {
        let t = s.drop_last();
        assert(unique_trans_keys(t)) by {
            assert(forall|x: int| 0 <= x < t.len() ==> t[x] == s[x]);
        }
        lemma_trans_map_len(t);
        lemma_trans_map_dom(t, s.last().0);
        assert(!trans_map(t).dom().contains(s.last().0)) by {
            if exists|i: int| 0 <= i < t.len() && (#[trigger] t[i]).0 == s.last().0 {
                let i = choose|i: int| 0 <= i < t.len() && (#[trigger] t[i]).0 == s.last().0;
                assert((s[i]).0 == (s[s.len() - 1]).0);
            }
        }
        assert(trans_map(s).dom() =~= trans_map(t).dom().insert(s.last().0));
    }
}

/// The position of the entry for `w`, if there is one.
fn find_key(v: &Vec<(char, i32)>, w: char) -> (r: Option<usize>)
    ensures
        r matches Some(j) ==> j < v@.len() && v@[j as int].0 == w,
        r is None ==> forall|j: int| 0 <= j < v@.len() ==> (#[trigger] v@[j]).0 != w,
{
    let mut i: usize = 0;
    while i < v.len()
        invariant
            i <= v@.len(),
            forall|j: int| 0 <= j < i ==> (#[trigger] v@[j]).0 != w,
        decreases v@.len() - i,
    {
        if v[i].0 == w {
            return Some(i);
        }
        i = i + 1;
    }
    None
}

/// An automaton state, holding its outgoing transitions.
#[derive(Debug, PartialEq, Eq)]
pub struct State {
    transitions: Vec<(char, i32)>,
}

impl View for State {
    type V = Map<char, i32>;

    closed spec fn view(&self) -> Map<char, i32> {
        trans_map(self.transitions@)
    }
}

impl State {
    #[verifier::type_invariant]
    spec fn wf(self) -> bool {
        unique_trans_keys(self.transitions@)
    }

    /// Construct a new state with no transitions.
    pub fn new() -> (r: Self)
        ensures
            r@ == Map::<char, i32>::empty(),
    {
        State { transitions: Vec::new() }
    }


    /// Add the transition on `w` to `new_state`, replacing any transition
    /// recorded for `w` earlier.
    ///
    /// Whether `new_state` exists is not this state's concern; the check is
    /// made when all states are frozen into an automaton.
    pub fn add_transition(&mut self, w: char, new_state: i32)
        ensures
            final(self)@ == old(self)@.insert(w, new_state),
    {
        proof {
            use_type_invariant(&*self);
        }
        let mut transitions: Vec<(char, i32)> = Vec::new();
        std::mem::swap(&mut transitions, &mut self.transitions);
        let ghost pre = transitions@;
        match find_key(&transitions, w) {
            Some(j) => {
                let _ = transitions.remove(j);
                proof {
                    assert(unique_trans_keys(transitions@)) by {
                        assert(forall|x: int| 0 <= x < j ==> transitions@[x] == pre[x]);
                        assert(forall|x: int|
                            j <= x < transitions@.len() ==> transitions@[x] == pre[x + 1]);
                    }
                }
                transitions.insert(j, (w, new_state));
                proof {
                    assert(transitions@ =~= pre.update(j as int, (w, new_state)));
                    lemma_trans_map_update(pre, j as int, new_state);
                    assert(unique_trans_keys(transitions@)) by {
                        assert(forall|x: int|
                            0 <= x < transitions@.len() && x != j ==> transitions@[x] == pre[x]);
                    }
                }
            },
            None => {
                proof {
                    lemma_trans_map_push(transitions@, (w, new_state));
                }
                transitions.push((w, new_state));
            },
        }
        self.transitions = transitions;
    }

    /// The transition from this state for `w`, if one is defined.
    pub fn transition_for(&self, w: char) -> (r: Option<i32>)
        ensures
            r matches Some(q) ==> self@.dom().contains(w) && self@[w] == q,
            r is None ==> !self@.dom().contains(w),
    {
        proof {
            use_type_invariant(self);
        }
        match find_key(&self.transitions, w) {
            Some(j) => {
                proof {
                    lemma_trans_map_at(self.transitions@, j as int);
                }
                Some(self.transitions[j].1)
            },
            None => {
                proof {
                    lemma_trans_map_dom(self.transitions@, w);
                }
                None
            },
        }
    }

    /// The number of transitions defined from this state.
    pub fn num_transitions(&self) -> (r: usize)
        ensures
            r as nat == self@.dom().len(),
    {
        proof {
            use_type_invariant(self);
            lemma_trans_map_len(self.transitions@);
        }
        self.transitions.len()
    }
}

} // verus!
