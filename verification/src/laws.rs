//! Laws of the automaton semantics, stated over the model and proved once
//! and for all.

use vstd::prelude::*;
use crate::model::{accepts, alphabet_of, buildable, run_from, AutoModel, BuilderModel};
use crate::{spec_fold, spec_from, spec_header, spec_record, spec_token_lines};

verus! {

/// An automaton accepts the empty string exactly when its initial state `0`
/// is one of its final states.
pub proof fn lemma_empty_string_acceptance(m: AutoModel)
    ensures
        accepts(m, Seq::<char>::empty()) <==> m.finals.contains(0),
{
}

proof fn lemma_run_foreign(t: Map<i32, Map<char, i32>>, q: i32, s: Seq<char>, c: char)
    requires
        s.contains(c),
        !alphabet_of(t).contains(c),
    ensures
        run_from(t, q, s) is None,
    decreases s.len(),
{
    let k = choose|k: int| 0 <= k < s.len() && s[k] == c;
    if s[0] == c {
        if t.dom().contains(q) && t[q].dom().contains(c) {
            assert(alphabet_of(t).contains(c));
        }
    } else {
        if t.dom().contains(q) && t[q].dom().contains(s[0]) {
            assert(s.drop_first()[k - 1] == c);
            assert(s.drop_first().contains(c));
            lemma_run_foreign(t, t[q][s[0]], s.drop_first(), c);
        }
    }
}

/// A string containing a symbol outside the automaton's inferred alphabet
/// is never accepted.
pub proof fn lemma_foreign_symbol_rejected(m: AutoModel, s: Seq<char>, c: char)
    requires
        s.contains(c),
        !alphabet_of(m.transitions).contains(c),
    ensures
        !accepts(m, s),
{
    lemma_run_foreign(m.transitions, 0, s, c);
}

/// If some declared state lacks a transition for some symbol of the
/// builder's alphabet, no automaton can be built from the builder.
pub proof fn lemma_incomplete_builder_fails(m: BuilderModel, q: i32, c: char)
    requires
        m.transitions.dom().contains(q),
        m.alphabet.contains(c),
        !m.transitions[q].dom().contains(c),
    ensures
        !buildable(m),
{
}

/// If some recorded transition targets a state id that is never declared,
/// no automaton can be built from the builder.
pub proof fn lemma_dangling_target_fails(m: BuilderModel, q: i32, c: char)
    requires
        m.transitions.dom().contains(q),
        m.transitions[q].dom().contains(c),
        !m.transitions.dom().contains(m.transitions[q][c]),
    ensures
        !buildable(m),
{
}

proof fn lemma_record_keeps_inferred(m: BuilderModel, from: i32, w: char, to: i32)
    requires
        m.alphabet == alphabet_of(m.transitions),
    ensures
        spec_record(m, from, w, to).alphabet == alphabet_of(
            spec_record(m, from, w, to).transitions,
        ),
{
    let t = m.transitions;
    let row = if t.dom().contains(from) {
        t[from]
    } else {
        Map::<char, i32>::empty()
    };
    let t2 = t.insert(from, row.insert(w, to));
    assert forall|c: char| alphabet_of(t2).contains(c) implies m.alphabet.insert(w).contains(
        c,
    ) by {
        let q = choose|q: i32| t2.dom().contains(q) && (#[trigger] t2[q]).dom().contains(c);
        if q == from {
            if c != w {
                assert(row.dom().contains(c));
                assert(t[from].dom().contains(c));
                assert(alphabet_of(t).contains(c));
            }
        } else {
            assert(t.dom().contains(q) && t[q].dom().contains(c));
            assert(alphabet_of(t).contains(c));
        }
    }
    assert forall|c: char| m.alphabet.insert(w).contains(c) implies alphabet_of(t2).contains(
        c,
    ) by {
        if c == w {
            assert(t2.dom().contains(from) && t2[from].dom().contains(w));
        } else {
            assert(alphabet_of(t).contains(c));
            let q = choose|q: i32| t.dom().contains(q) && (#[trigger] t[q]).dom().contains(c);
            if q == from {
                assert(t2.dom().contains(from) && t2[from].dom().contains(c));
            } else {
                assert(t2.dom().contains(q) && t2[q].dom().contains(c));
            }
        }
    }
    assert(spec_record(m, from, w, to).alphabet =~= alphabet_of(t2));
}

proof fn lemma_fold_keeps_inferred(tls: Seq<Seq<Seq<char>>>, m: BuilderModel)
    requires
        m.alphabet == alphabet_of(m.transitions),
    ensures
        spec_fold(tls, m) matches Ok(m2) ==> m2.alphabet == alphabet_of(m2.transitions),
    decreases tls.len(),
{
    if tls.len() > 0 {
        match crate::spec_transition(tls[0]) {
            Ok(tr) => {
                lemma_record_keeps_inferred(m, tr.0, tr.1, tr.2);
                lemma_fold_keeps_inferred(tls.drop_first(), spec_record(m, tr.0, tr.1, tr.2));
            },
            Err(_) => {},
        }
    }
}

/// A builder parsed from text records as its alphabet exactly the inferred
/// alphabet of its transition table, so validating totality against the
/// recorded alphabet is validating it against the inferred one.
pub proof fn lemma_parsed_alphabet_is_inferred(s: Seq<char>)
    requires
        spec_from(s) is Ok,
    ensures
        (spec_from(s)->Ok_0).alphabet == alphabet_of((spec_from(s)->Ok_0).transitions),
{
    let tls = spec_token_lines(s);
    let fs = spec_header(tls[0])->Ok_0;
    let m0 = BuilderModel { finals: fs, transitions: Map::empty(), alphabet: Set::empty() };
    assert(alphabet_of(m0.transitions) =~= Set::<char>::empty());
    lemma_fold_keeps_inferred(tls.drop_first(), m0);
}

} // verus!
