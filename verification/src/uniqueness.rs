use vstd::prelude::*;

use crate::grammar::{AtomV, GrammarItemV};
use crate::automaton::{automaton_of, numbered_in_order, found_at, place_lt, reached_earlier, built_table};
use crate::model::{table_model, table_ends};
use crate::table::{
    LRItemV, TableItemV, row_correct, found_in_row, has_next, next_of, next_atom, is_state, states_ok,
    goto_kernel, closure_set, closure_reached, reached_from, lemma_closure_reach_refl, item_fits,
};
use crate::lookups::{
    table_atoms, names_apart, item_in, lemma_table_atoms, lemma_states_in, lemma_goto_kernel_in,
};
use crate::order::lemma_descending_unique;
use crate::states::lemma_goto_kernel_items;
use crate::laws::lemma_state_independent_of_cache;

verus! {

/// Two states of one kernel under one cache are the same.
proof fn lemma_state_of_kernel_unique(
    g: Map<Seq<char>, Seq<GrammarItemV>>,
    c: Map<Seq<char>, Seq<AtomV>>,
    k: Seq<LRItemV>,
    s1: Seq<LRItemV>,
    s2: Seq<LRItemV>,
)
    requires
        is_state(g, c, s1, k),
        is_state(g, c, s2, k),
    ensures
        s1 == s2,
{
    lemma_descending_unique(s1, s2);
}

/// With no atom after the dot of any item, the kernel reached is empty.
proof fn lemma_goto_kernel_empty(s: Seq<LRItemV>, a: AtomV)
    requires
        !next_atom(s, a),
    ensures
        goto_kernel(s, a).len() == 0,
    decreases s.len(),
{
    if s.len() > 0 {
        let p = s.drop_last();
        if next_atom(p, a) {
            let i = choose|i: int|
                0 <= i < p.len() && p[i].stacktop < p[i].production.len()
                    && #[trigger] p[i].production[p[i].stacktop as int] == a;
            assert(s[i] == p[i]);
        }
        lemma_goto_kernel_empty(p, a);
        let x = s.last();
        if x.stacktop < x.production.len() && x.production[x.stacktop as int] == a {
            assert(s[s.len() - 1] == x);
        }
    }
}

/// The state of a kernel with an item has an item.
proof fn lemma_state_nonempty(
    g: Map<Seq<char>, Seq<GrammarItemV>>,
    c: Map<Seq<char>, Seq<AtomV>>,
    k: Seq<LRItemV>,
    s: Seq<LRItemV>,
)
    requires
        is_state(g, c, s, k),
        k.len() > 0,
    ensures
        s.len() > 0,
{
    lemma_closure_reach_refl(g, c, k[0]);
    assert(closure_reached(g, c, k, k[0]));
    assert(closure_set(g, c, k).contains(k[0]));
    assert(s.to_set().contains(k[0]));
}

/// The target of row `i` over `a` is the state of the kernel reached over `a`.
proof fn lemma_target_index(
    g: Map<Seq<char>, Seq<GrammarItemV>>,
    c: Map<Seq<char>, Seq<AtomV>>,
    states: Seq<Seq<LRItemV>>,
    i: int,
    tm: Map<AtomV, u32>,
    action: Map<Seq<char>, Set<TableItemV>>,
    goto: Map<Seq<char>, u32>,
    a: AtomV,
    j: int,
)
    requires
        states.no_duplicates(),
        0 <= i < states.len(),
        row_correct(g, c, states, i, tm, action, goto),
        tm.dom().contains(a),
        0 <= j < states.len(),
        is_state(g, c, states[j], goto_kernel(states[i], a)),
    ensures
        tm[a] == j,
{
    lemma_state_of_kernel_unique(g, c, goto_kernel(states[i], a), states[tm[a] as int], states[j]);
}

/// The states of an automaton with all its rows, the targets of its rows and
/// the places its states are first found at.
pub open spec fn complete(
    g: Map<Seq<char>, Seq<GrammarItemV>>,
    init: LRItemV,
    states: Seq<Seq<LRItemV>>,
    kernels: Seq<Seq<LRItemV>>,
    c: Map<Seq<char>, Seq<AtomV>>,
    tms: Seq<Map<AtomV, u32>>,
    actions: Seq<Map<Seq<char>, Set<TableItemV>>>,
    gotos: Seq<Map<Seq<char>, u32>>,
    origin: Seq<(int, int)>,
) -> bool {
    &&& automaton_of(g, init, states, kernels, c, tms, actions, gotos)
    &&& actions.len() == states.len()
    &&& numbered_in_order(states, tms, origin)
}

/// A place of a row that targets state `t` is not before the place `t` is first found at.
proof fn lemma_found_first(
    g: Map<Seq<char>, Seq<GrammarItemV>>,
    init: LRItemV,
    states: Seq<Seq<LRItemV>>,
    kernels: Seq<Seq<LRItemV>>,
    c: Map<Seq<char>, Seq<AtomV>>,
    tms: Seq<Map<AtomV, u32>>,
    actions: Seq<Map<Seq<char>, Set<TableItemV>>>,
    gotos: Seq<Map<Seq<char>, u32>>,
    origin: Seq<(int, int)>,
    t: int,
    i: int,
    k: int,
)
    requires
        complete(g, init, states, kernels, c, tms, actions, gotos, origin),
        1 <= t < states.len(),
        0 <= i < states.len(),
        0 <= k < states[i].len(),
        has_next(states[i][k]),
        tms[i].dom().contains(next_of(states[i][k])),
        tms[i][next_of(states[i][k])] == t,
    ensures
        !place_lt((i, k), origin[t]),
{
    assert(found_at(states, tms, t, origin[t].0, origin[t].1));
    if i < origin[t].0 {
        assert(tms[i].dom().contains(next_of(states[i][k])));
    } else if i == origin[t].0 && k < origin[t].1 {
        assert(found_in_row(states[i], tms[i], origin[t].1, t));
        assert(has_next(states[i][k]));
    }
}

/// A state after the first is first found in an earlier row.
proof fn lemma_origin_earlier(
    g: Map<Seq<char>, Seq<GrammarItemV>>,
    init: LRItemV,
    states: Seq<Seq<LRItemV>>,
    kernels: Seq<Seq<LRItemV>>,
    c: Map<Seq<char>, Seq<AtomV>>,
    tms: Seq<Map<AtomV, u32>>,
    actions: Seq<Map<Seq<char>, Set<TableItemV>>>,
    gotos: Seq<Map<Seq<char>, u32>>,
    origin: Seq<(int, int)>,
    t: int,
)
    requires
        complete(g, init, states, kernels, c, tms, actions, gotos, origin),
        1 <= t < states.len(),
    ensures
        0 <= origin[t].0 < t,
{
    assert(found_at(states, tms, t, origin[t].0, origin[t].1));
    let i0 = origin[t].0;
    let k0 = origin[t].1;
    assert(found_in_row(states[i0], tms[i0], k0, t));
    assert(row_correct(g, c, states, i0, tms[i0], actions[i0], gotos[i0]));
    let b = next_of(states[i0][k0]);
    assert(is_state(g, c, states[i0], kernels[i0]));
    assert forall|m: int| 0 <= m < states[i0].len() implies item_fits(#[trigger] states[i0][m]) by {
        assert(states[i0].to_set().contains(states[i0][m]));
    }
    lemma_goto_kernel_items(states[i0], b);
    assert(next_atom(states[i0], b)) by {
        assert(states[i0][k0].production[states[i0][k0].stacktop as int] == b);
    }
    assert(is_state(g, c, states[t], goto_kernel(states[i0], b)));
    lemma_state_nonempty(g, c, goto_kernel(states[i0], b), states[t]);
    assert(reached_earlier(states, kernels, t));
    let i = choose|i: int| 0 <= i < t && #[trigger] reached_from(states, kernels, i, t);
    let a = choose|a: AtomV| kernels[t] == #[trigger] goto_kernel(states[i], a);
    assert(is_state(g, c, states[t], kernels[t]));
    if !next_atom(states[i], a) {
        lemma_goto_kernel_empty(states[i], a);
        assert(closure_set(g, c, kernels[t]) =~= Set::<LRItemV>::empty());
        assert(states[t].to_set().contains(states[t][0]));
    }
    assert(row_correct(g, c, states, i, tms[i], actions[i], gotos[i]));
    assert(tms[i].dom().contains(a));
    lemma_target_index(g, c, states, i, tms[i], actions[i], gotos[i], a, t);
    if i < i0 {
        assert(tms[i].dom().contains(a));
    }
}

/// The state an automaton reaches from one of its rows over an atom is the one
/// another automaton reaches from an equal row over that atom.
proof fn lemma_targets_agree(
    g: Map<Seq<char>, Seq<GrammarItemV>>,
    init: LRItemV,
    states1: Seq<Seq<LRItemV>>,
    kernels1: Seq<Seq<LRItemV>>,
    c1: Map<Seq<char>, Seq<AtomV>>,
    tms1: Seq<Map<AtomV, u32>>,
    actions1: Seq<Map<Seq<char>, Set<TableItemV>>>,
    gotos1: Seq<Map<Seq<char>, u32>>,
    states2: Seq<Seq<LRItemV>>,
    kernels2: Seq<Seq<LRItemV>>,
    c2: Map<Seq<char>, Seq<AtomV>>,
    tms2: Seq<Map<AtomV, u32>>,
    actions2: Seq<Map<Seq<char>, Set<TableItemV>>>,
    gotos2: Seq<Map<Seq<char>, u32>>,
    i1: int,
    i2: int,
    a: AtomV,
)
    requires
        names_apart(table_atoms(g, init)),
        automaton_of(g, init, states1, kernels1, c1, tms1, actions1, gotos1),
        automaton_of(g, init, states2, kernels2, c2, tms2, actions2, gotos2),
        0 <= i1 < actions1.len(),
        0 <= i2 < actions2.len(),
        states1[i1] == states2[i2],
        tms1[i1].dom().contains(a),
    ensures
        tms2[i2].dom().contains(a),
        states1[tms1[i1][a] as int] == states2[tms2[i2][a] as int],
{
    let u = table_atoms(g, init);
    lemma_table_atoms(g, init);
    assert(row_correct(g, c1, states1, i1, tms1[i1], actions1[i1], gotos1[i1]));
    assert(row_correct(g, c2, states2, i2, tms2[i2], actions2[i2], gotos2[i2]));
    assert(next_atom(states1[i1], a));
    assert(next_atom(states2[i2], a));
    assert(tms2[i2].dom().contains(a));
    lemma_states_in(g, c1, u, init, states1, kernels1, i1);
    let k = goto_kernel(states1[i1], a);
    lemma_goto_kernel_in(u, states1[i1], a);
    lemma_state_independent_of_cache(
        g,
        init,
        c1,
        c2,
        k,
        states1[tms1[i1][a] as int],
        states2[tms2[i2][a] as int],
    );
}

/// Two complete automata for the same grammar and initial item agree on the
/// state at `n` when they agree on all states before it.
proof fn lemma_next_state_agrees(
    g: Map<Seq<char>, Seq<GrammarItemV>>,
    init: LRItemV,
    states1: Seq<Seq<LRItemV>>,
    kernels1: Seq<Seq<LRItemV>>,
    c1: Map<Seq<char>, Seq<AtomV>>,
    tms1: Seq<Map<AtomV, u32>>,
    actions1: Seq<Map<Seq<char>, Set<TableItemV>>>,
    gotos1: Seq<Map<Seq<char>, u32>>,
    origin1: Seq<(int, int)>,
    states2: Seq<Seq<LRItemV>>,
    kernels2: Seq<Seq<LRItemV>>,
    c2: Map<Seq<char>, Seq<AtomV>>,
    tms2: Seq<Map<AtomV, u32>>,
    actions2: Seq<Map<Seq<char>, Set<TableItemV>>>,
    gotos2: Seq<Map<Seq<char>, u32>>,
    origin2: Seq<(int, int)>,
    n: int,
)
    requires
        names_apart(table_atoms(g, init)),
        complete(g, init, states1, kernels1, c1, tms1, actions1, gotos1, origin1),
        complete(g, init, states2, kernels2, c2, tms2, actions2, gotos2, origin2),
        1 <= n < states1.len(),
        n < states2.len(),
        forall|j: int| 0 <= j < n ==> states1[j] == states2[j],
    ensures
        states1[n] == states2[n],
{
    lemma_origin_earlier(g, init, states1, kernels1, c1, tms1, actions1, gotos1, origin1, n);
    lemma_origin_earlier(g, init, states2, kernels2, c2, tms2, actions2, gotos2, origin2, n);
    let (i1, k1) = origin1[n];
    let (i2, k2) = origin2[n];
    assert(found_at(states1, tms1, n, i1, k1));
    assert(found_at(states2, tms2, n, i2, k2));
    assert(found_in_row(states1[i1], tms1[i1], k1, n));
    assert(found_in_row(states2[i2], tms2[i2], k2, n));
    assert(states1[i1] == states2[i1]);
    assert(states1[i2] == states2[i2]);
    let a = next_of(states1[i1][k1]);
    let b = next_of(states2[i2][k2]);
    lemma_targets_agree(g, init, states1, kernels1, c1, tms1, actions1, gotos1, states2, kernels2, c2,
        tms2, actions2, gotos2, i1, i1, a);
    lemma_targets_agree(g, init, states2, kernels2, c2, tms2, actions2, gotos2, states1, kernels1, c1,
        tms1, actions1, gotos1, i2, i2, b);
    let t2 = tms2[i1][a] as int;
    let t1 = tms1[i2][b] as int;
    assert(states1[n] == states2[t2]);
    assert(states2[n] == states1[t1]);
    if t2 != n && t1 != n {
        assert(row_correct(g, c2, states2, i1, tms2[i1], actions2[i1], gotos2[i1]));
        assert(row_correct(g, c1, states1, i2, tms1[i2], actions1[i2], gotos1[i2]));
        if t2 < n {
            assert(states2[t2] == states1[t2]);
            assert(states1.no_duplicates());
        }
        if t1 < n {
            assert(states1[t1] == states2[t1]);
            assert(states2.no_duplicates());
        }
        assert(states2[i1][k1] == states1[i1][k1]);
        lemma_found_first(g, init, states2, kernels2, c2, tms2, actions2, gotos2, origin2, t2, i1, k1);
        lemma_found_first(g, init, states1, kernels1, c1, tms1, actions1, gotos1, origin1, t1, i2, k2);
        assert(place_lt(origin2[n], origin2[t2]));
        assert(place_lt(origin1[n], origin1[t1]));
    }
}

proof fn lemma_prefix_agrees(
    g: Map<Seq<char>, Seq<GrammarItemV>>,
    init: LRItemV,
    states1: Seq<Seq<LRItemV>>,
    kernels1: Seq<Seq<LRItemV>>,
    c1: Map<Seq<char>, Seq<AtomV>>,
    tms1: Seq<Map<AtomV, u32>>,
    actions1: Seq<Map<Seq<char>, Set<TableItemV>>>,
    gotos1: Seq<Map<Seq<char>, u32>>,
    origin1: Seq<(int, int)>,
    states2: Seq<Seq<LRItemV>>,
    kernels2: Seq<Seq<LRItemV>>,
    c2: Map<Seq<char>, Seq<AtomV>>,
    tms2: Seq<Map<AtomV, u32>>,
    actions2: Seq<Map<Seq<char>, Set<TableItemV>>>,
    gotos2: Seq<Map<Seq<char>, u32>>,
    origin2: Seq<(int, int)>,
    n: int,
)
    requires
        names_apart(table_atoms(g, init)),
        complete(g, init, states1, kernels1, c1, tms1, actions1, gotos1, origin1),
        complete(g, init, states2, kernels2, c2, tms2, actions2, gotos2, origin2),
        0 <= n <= states1.len(),
        n <= states2.len(),
    ensures
        forall|j: int| 0 <= j < n ==> states1[j] == states2[j],
    decreases n,
{
    if n == 1 {
        crate::laws::lemma_first_state_fixed(g, init, states1, kernels1, c1, tms1, actions1, gotos1,
            states2, kernels2, c2, tms2, actions2, gotos2);
    } else if n > 1 {
        lemma_prefix_agrees(g, init, states1, kernels1, c1, tms1, actions1, gotos1, origin1, states2,
            kernels2, c2, tms2, actions2, gotos2, origin2, n - 1);
        lemma_next_state_agrees(g, init, states1, kernels1, c1, tms1, actions1, gotos1, origin1, states2,
            kernels2, c2, tms2, actions2, gotos2, origin2, n - 1);
    }
}

/// A complete automaton cannot have a state past the end of another one that
/// agrees with it on all of that one's states.
proof fn lemma_no_extra_state(
    g: Map<Seq<char>, Seq<GrammarItemV>>,
    init: LRItemV,
    states1: Seq<Seq<LRItemV>>,
    kernels1: Seq<Seq<LRItemV>>,
    c1: Map<Seq<char>, Seq<AtomV>>,
    tms1: Seq<Map<AtomV, u32>>,
    actions1: Seq<Map<Seq<char>, Set<TableItemV>>>,
    gotos1: Seq<Map<Seq<char>, u32>>,
    origin1: Seq<(int, int)>,
    states2: Seq<Seq<LRItemV>>,
    kernels2: Seq<Seq<LRItemV>>,
    c2: Map<Seq<char>, Seq<AtomV>>,
    tms2: Seq<Map<AtomV, u32>>,
    actions2: Seq<Map<Seq<char>, Set<TableItemV>>>,
    gotos2: Seq<Map<Seq<char>, u32>>,
    origin2: Seq<(int, int)>,
)
    requires
        names_apart(table_atoms(g, init)),
        complete(g, init, states1, kernels1, c1, tms1, actions1, gotos1, origin1),
        complete(g, init, states2, kernels2, c2, tms2, actions2, gotos2, origin2),
        states1.len() <= states2.len(),
        forall|j: int| 0 <= j < states1.len() ==> states1[j] == states2[j],
    ensures
        states1.len() == states2.len(),
{
    if states1.len() < states2.len() {
        lemma_extra_state_found(g, init, states1, kernels1, c1, tms1, actions1, gotos1, origin1, states2,
            kernels2, c2, tms2, actions2, gotos2, origin2);
    }
}

proof fn lemma_extra_state_found(
    g: Map<Seq<char>, Seq<GrammarItemV>>,
    init: LRItemV,
    states1: Seq<Seq<LRItemV>>,
    kernels1: Seq<Seq<LRItemV>>,
    c1: Map<Seq<char>, Seq<AtomV>>,
    tms1: Seq<Map<AtomV, u32>>,
    actions1: Seq<Map<Seq<char>, Set<TableItemV>>>,
    gotos1: Seq<Map<Seq<char>, u32>>,
    origin1: Seq<(int, int)>,
    states2: Seq<Seq<LRItemV>>,
    kernels2: Seq<Seq<LRItemV>>,
    c2: Map<Seq<char>, Seq<AtomV>>,
    tms2: Seq<Map<AtomV, u32>>,
    actions2: Seq<Map<Seq<char>, Set<TableItemV>>>,
    gotos2: Seq<Map<Seq<char>, u32>>,
    origin2: Seq<(int, int)>,
)
    requires
        names_apart(table_atoms(g, init)),
        complete(g, init, states1, kernels1, c1, tms1, actions1, gotos1, origin1),
        complete(g, init, states2, kernels2, c2, tms2, actions2, gotos2, origin2),
        states1.len() < states2.len(),
        forall|j: int| 0 <= j < states1.len() ==> states1[j] == states2[j],
    ensures
        states2[states1.len() as int] != states2[states1.len() as int],
{
    let n = states1.len() as int;
    assert(n >= 1);
    lemma_origin_earlier(g, init, states2, kernels2, c2, tms2, actions2, gotos2, origin2, n);
    let (i2, k2) = origin2[n];
    assert(found_at(states2, tms2, n, i2, k2));
    assert(found_in_row(states2[i2], tms2[i2], k2, n));
    let b = next_of(states2[i2][k2]);
    assert(states1[i2] == states2[i2]);
    lemma_targets_agree(g, init, states2, kernels2, c2, tms2, actions2, gotos2, states1, kernels1, c1,
        tms1, actions1, gotos1, i2, i2, b);
    let t1 = tms1[i2][b] as int;
    assert(row_correct(g, c1, states1, i2, tms1[i2], actions1[i2], gotos1[i2]));
    assert(states2[t1] == states1[t1]);
    assert(states2.no_duplicates());
}

/// When no name of the grammar or of the initial item stands both for a symbol
/// and for a terminal, two automata that the tables can be built from with all
/// their rows are the same: the same states in the same order, the same
/// targets, and so the same action and goto rows. Two builds of the tables
/// from equal inputs give equal tables.
pub proof fn lemma_tables_determined(
    g: Map<Seq<char>, Seq<GrammarItemV>>,
    init: LRItemV,
    states1: Seq<Seq<LRItemV>>,
    kernels1: Seq<Seq<LRItemV>>,
    c1: Map<Seq<char>, Seq<AtomV>>,
    tms1: Seq<Map<AtomV, u32>>,
    actions1: Seq<Map<Seq<char>, Set<TableItemV>>>,
    gotos1: Seq<Map<Seq<char>, u32>>,
    states2: Seq<Seq<LRItemV>>,
    kernels2: Seq<Seq<LRItemV>>,
    c2: Map<Seq<char>, Seq<AtomV>>,
    tms2: Seq<Map<AtomV, u32>>,
    actions2: Seq<Map<Seq<char>, Set<TableItemV>>>,
    gotos2: Seq<Map<Seq<char>, u32>>,
)
    requires
        names_apart(table_atoms(g, init)),
        automaton_of(g, init, states1, kernels1, c1, tms1, actions1, gotos1),
        automaton_of(g, init, states2, kernels2, c2, tms2, actions2, gotos2),
        actions1.len() == states1.len(),
        actions2.len() == states2.len(),
    ensures
        states1 == states2,
        tms1 == tms2,
        actions1 == actions2,
        gotos1 == gotos2,
{
    let origin1 = choose|origin: Seq<(int, int)>| #[trigger] numbered_in_order(states1, tms1, origin);
    let origin2 = choose|origin: Seq<(int, int)>| #[trigger] numbered_in_order(states2, tms2, origin);
    assert(complete(g, init, states1, kernels1, c1, tms1, actions1, gotos1, origin1));
    assert(complete(g, init, states2, kernels2, c2, tms2, actions2, gotos2, origin2));
    if states1.len() < states2.len() {
        lemma_prefix_agrees(g, init, states1, kernels1, c1, tms1, actions1, gotos1, origin1, states2,
            kernels2, c2, tms2, actions2, gotos2, origin2, states1.len() as int);
        lemma_no_extra_state(g, init, states1, kernels1, c1, tms1, actions1, gotos1, origin1, states2,
            kernels2, c2, tms2, actions2, gotos2, origin2);
    } else if states2.len() < states1.len() {
        lemma_prefix_agrees(g, init, states2, kernels2, c2, tms2, actions2, gotos2, origin2, states1,
            kernels1, c1, tms1, actions1, gotos1, origin1, states2.len() as int);
        lemma_no_extra_state(g, init, states2, kernels2, c2, tms2, actions2, gotos2, origin2, states1,
            kernels1, c1, tms1, actions1, gotos1, origin1);
    }
    lemma_prefix_agrees(g, init, states1, kernels1, c1, tms1, actions1, gotos1, origin1, states2,
        kernels2, c2, tms2, actions2, gotos2, origin2, states1.len() as int);
    assert(states1 =~= states2);
    assert forall|i: int| 0 <= i < tms1.len() implies #[trigger] tms1[i] == tms2[i] by {
        assert(row_correct(g, c1, states1, i, tms1[i], actions1[i], gotos1[i]));
        assert(row_correct(g, c2, states2, i, tms2[i], actions2[i], gotos2[i]));
        assert forall|a: AtomV| tms1[i].dom().contains(a) implies tms1[i][a] == tms2[i][a] by {
            lemma_targets_agree(g, init, states1, kernels1, c1, tms1, actions1, gotos1, states2, kernels2,
                c2, tms2, actions2, gotos2, i, i, a);
            assert(states1.no_duplicates());
        }
        assert(tms1[i].dom() =~= tms2[i].dom());
        assert(tms1[i] =~= tms2[i]);
    }
    assert(tms1 =~= tms2);
    assert forall|i: int| 0 <= i < actions1.len() implies #[trigger] actions1[i] == actions2[i] by {
        assert(row_correct(g, c1, states1, i, tms1[i], actions1[i], gotos1[i]));
        assert(row_correct(g, c2, states2, i, tms2[i], actions2[i], gotos2[i]));
    }
    assert forall|i: int| 0 <= i < gotos1.len() implies #[trigger] gotos1[i] == gotos2[i] by {
        assert(row_correct(g, c1, states1, i, tms1[i], actions1[i], gotos1[i]));
        assert(row_correct(g, c2, states2, i, tms2[i], actions2[i], gotos2[i]));
    }
    assert(actions1 =~= actions2);
    assert(gotos1 =~= gotos2);
}

/// The build of the tables for `g` from `init` ends, with a number of states
/// that fits in `u32`.
pub open spec fn table_fits(g: Map<Seq<char>, Seq<GrammarItemV>>, init: LRItemV) -> bool {
    table_ends(g, init) && table_model(g, init).0.len() <= u32::MAX
}

/// Tables built from equal inputs are equal: the same action rows and the same
/// goto rows, on every grammar and initial item whose build ends with states
/// that fit in `u32`.
pub proof fn lemma_create_table_deterministic(
    g: Map<Seq<char>, Seq<GrammarItemV>>,
    init: LRItemV,
    actions1: Seq<Map<Seq<char>, Set<TableItemV>>>,
    gotos1: Seq<Map<Seq<char>, u32>>,
    actions2: Seq<Map<Seq<char>, Set<TableItemV>>>,
    gotos2: Seq<Map<Seq<char>, u32>>,
)
    requires
        table_fits(g, init),
        built_table(g, init, actions1, gotos1),
        built_table(g, init, actions2, gotos2),
    ensures
        actions1 == actions2,
        gotos1 == gotos2,
{
    let (states1, kernels1, c1, tms1) = choose|
        states: Seq<Seq<LRItemV>>,
        kernels: Seq<Seq<LRItemV>>,
        c: Map<Seq<char>, Seq<AtomV>>,
        tms: Seq<Map<AtomV, u32>>,
    |
        #[trigger] automaton_of(g, init, states, kernels, c, tms, actions1, gotos1) && (actions1.len()
            == states.len() ==> states == table_model(g, init).0 && c == table_model(g, init).1) && (
        table_ends(g, init) ==> states.len() <= table_model(g, init).0.len());
    let (states2, kernels2, c2, tms2) = choose|
        states: Seq<Seq<LRItemV>>,
        kernels: Seq<Seq<LRItemV>>,
        c: Map<Seq<char>, Seq<AtomV>>,
        tms: Seq<Map<AtomV, u32>>,
    |
        #[trigger] automaton_of(g, init, states, kernels, c, tms, actions2, gotos2) && (actions2.len()
            == states.len() ==> states == table_model(g, init).0 && c == table_model(g, init).1) && (
        table_ends(g, init) ==> states.len() <= table_model(g, init).0.len());
    assert(actions1.len() == states1.len());
    assert(actions2.len() == states2.len());
    let st = states1;
    let c = c1;
    assert(states2 == st && c2 == c);
    assert forall|i: int| 0 <= i < tms1.len() implies #[trigger] tms1[i] == tms2[i] by {
        assert(row_correct(g, c, st, i, tms1[i], actions1[i], gotos1[i]));
        assert(row_correct(g, c, st, i, tms2[i], actions2[i], gotos2[i]));
        assert forall|a: AtomV| tms1[i].dom().contains(a) implies tms1[i][a] == tms2[i][a] by {
            assert(tms2[i].dom().contains(a));
            lemma_target_index(g, c, st, i, tms2[i], actions2[i], gotos2[i], a, tms1[i][a] as int);
        }
        assert(tms1[i].dom() =~= tms2[i].dom());
        assert(tms1[i] =~= tms2[i]);
    }
    assert forall|i: int| 0 <= i < actions1.len() implies #[trigger] actions1[i] == actions2[i] by {
        assert(row_correct(g, c, st, i, tms1[i], actions1[i], gotos1[i]));
        assert(row_correct(g, c, st, i, tms2[i], actions2[i], gotos2[i]));
    }
    assert forall|i: int| 0 <= i < gotos1.len() implies #[trigger] gotos1[i] == gotos2[i] by {
        assert(row_correct(g, c, st, i, tms1[i], actions1[i], gotos1[i]));
        assert(row_correct(g, c, st, i, tms2[i], actions2[i], gotos2[i]));
    }
    assert(actions1 =~= actions2);
    assert(gotos1 =~= gotos2);
}

} // verus!
