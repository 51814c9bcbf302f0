use vstd::prelude::*;

use crate::grammar::{AtomV, GrammarItemV};
use crate::order::sort_items_descending;
use crate::table::{
    ActionRow, GotoRow, TableItemV, LRItem, LRItemV, GrammarMap, FirstCache, StateCache,
    wf_cache, states_ok, row_correct, reached_from, is_state, goto_kernel,
    item_fits, states_view, lr_view, lr_set, lemma_is_state_stable, get_closure, build_row,
    state_cache_ok, found_in_row, cache_pairs,
};
use crate::reach::reached_rules_fit;
use crate::model::{
    table_model, table_start, table_ends, build_run, row_fold, sorted_of, closure_of, lemma_table_model,
    lemma_build_run_round, lemma_build_run_more_fuel, lemma_build_run_grows, lemma_row_fold_mono,
};
use crate::order::{lemma_descending_unique, strictly_descending};
use crate::lookups::{table_atoms, rules_in, rules_at_most, cache_from, item_in, lemma_table_atoms, lemma_states_in};

verus! {

/// The abstract values of the action rows.
pub open spec fn action_rows_view(v: Seq<ActionRow>) -> Seq<Map<Seq<char>, Set<TableItemV>>> {
    v.map_values(|r: ActionRow| r@)
}

/// The abstract values of the goto rows.
pub open spec fn goto_rows_view(v: Seq<GotoRow>) -> Seq<Map<Seq<char>, u32>> {
    v.map_values(|r: GotoRow| r@)
}

/// The kernel of state `j` is that of a state reached from an earlier state.
pub open spec fn reached_earlier(states: Seq<Seq<LRItemV>>, kernels: Seq<Seq<LRItemV>>, j: int) -> bool {
    exists|i: int| 0 <= i < j && #[trigger] reached_from(states, kernels, i, j)
}

/// State `j` is first found in row `i`, as the target of item `k` of state
/// `i` and of no earlier item, no earlier row having it as a target.
pub open spec fn found_at(states: Seq<Seq<LRItemV>>, tms: Seq<Map<AtomV, u32>>, j: int, i: int, k: int) -> bool {
    &&& 0 <= i < tms.len()
    &&& found_in_row(states[i], tms[i], k, j)
    &&& forall|i2: int, a: AtomV|
        0 <= i2 < i && #[trigger] tms[i2].dom().contains(a) ==> tms[i2][a] != j
}

/// The place `p` (row, item) comes before the place `q`.
pub open spec fn place_lt(p: (int, int), q: (int, int)) -> bool {
    p.0 < q.0 || (p.0 == q.0 && p.1 < q.1)
}

/// The states after the first are numbered in the order they are first found,
/// row by row and item by item; `origin` gives the place each is found at.
pub open spec fn numbered_in_order(states: Seq<Seq<LRItemV>>, tms: Seq<Map<AtomV, u32>>, origin: Seq<(int, int)>) -> bool {
    &&& origin.len() == states.len()
    &&& forall|j: int| 1 <= j < states.len() ==> #[trigger] found_at(states, tms, j, origin[j].0, origin[j].1)
    &&& forall|j1: int, j2: int| 1 <= j1 < j2 < states.len() ==> place_lt(#[trigger] origin[j1], #[trigger] origin[j2])
}

/// The rows `actions` and `gotos` are those of the automaton with the states
/// `states`, each once, whose kernels are `kernels`: state 0 is the closure of
/// the initial item, each later state is reached over some atom from an
/// earlier one, and the row of state `i` is made from its items with the
/// targets `tms[i]`; the lookaheads come from the cache `c`, whose entry under
/// a name holds the first terminals of the atom with that name that was looked
/// up, one of the atoms the build can meet. There is a row for every state,
/// unless the states stopped fitting in `u32`; when there is, the states are
/// numbered in the order the rows find them.
pub open spec fn automaton_of(
    g: Map<Seq<char>, Seq<GrammarItemV>>,
    init: LRItemV,
    states: Seq<Seq<LRItemV>>,
    kernels: Seq<Seq<LRItemV>>,
    c: Map<Seq<char>, Seq<AtomV>>,
    tms: Seq<Map<AtomV, u32>>,
    actions: Seq<Map<Seq<char>, Set<TableItemV>>>,
    gotos: Seq<Map<Seq<char>, u32>>,
) -> bool {
    &&& wf_cache(g, c)
    &&& cache_from(g, c, table_atoms(g, init))
    &&& states_ok(g, c, states, kernels)
    &&& states.no_duplicates()
    &&& states.len() >= 1
    &&& kernels[0] == seq![init]
    &&& forall|j: int| 1 <= j < states.len() ==> #[trigger] reached_earlier(states, kernels, j)
    &&& actions.len() == gotos.len()
    &&& actions.len() == tms.len()
    &&& actions.len() <= states.len()
    &&& forall|i: int|
        0 <= i < actions.len() ==> #[trigger] row_correct(g, c, states, i, tms[i], actions[i], gotos[i])
    &&& actions.len() == states.len() || states.len() > u32::MAX
    &&& actions.len() == states.len() ==> exists|origin: Seq<(int, int)>| #[trigger] numbered_in_order(states, tms, origin)
}

/// `actions` and `gotos` are the rows of some automaton for the grammar `g`
/// whose first state is the closure of `init`.
pub open spec fn table_of(
    g: Map<Seq<char>, Seq<GrammarItemV>>,
    init: LRItemV,
    actions: Seq<Map<Seq<char>, Set<TableItemV>>>,
    gotos: Seq<Map<Seq<char>, u32>>,
) -> bool {
    exists|
        states: Seq<Seq<LRItemV>>,
        kernels: Seq<Seq<LRItemV>>,
        c: Map<Seq<char>, Seq<AtomV>>,
        tms: Seq<Map<AtomV, u32>>,
    | #[trigger] automaton_of(g, init, states, kernels, c, tms, actions, gotos)
}

/// `actions` and `gotos` are the rows of an automaton for `g` whose first state
/// is the closure of `init`; when it has a row for every state, its states and
/// its first-terminal cache are those the build finds, in that order; and it
/// has no more states than the build finds.
pub open spec fn built_table(
    g: Map<Seq<char>, Seq<GrammarItemV>>,
    init: LRItemV,
    actions: Seq<Map<Seq<char>, Set<TableItemV>>>,
    gotos: Seq<Map<Seq<char>, u32>>,
) -> bool {
    exists|
        states: Seq<Seq<LRItemV>>,
        kernels: Seq<Seq<LRItemV>>,
        c: Map<Seq<char>, Seq<AtomV>>,
        tms: Seq<Map<AtomV, u32>>,
    |
        #[trigger] automaton_of(g, init, states, kernels, c, tms, actions, gotos) && (actions.len()
            == states.len() ==> states == table_model(g, init).0 && c == table_model(g, init).1) && (
        table_ends(g, init) ==> states.len() <= table_model(g, init).0.len())
}

proof fn lemma_rows_stable(
    g: Map<Seq<char>, Seq<GrammarItemV>>,
    c: Map<Seq<char>, Seq<AtomV>>,
    c2: Map<Seq<char>, Seq<AtomV>>,
    s: Seq<Seq<LRItemV>>,
    s2: Seq<Seq<LRItemV>>,
    i: int,
    tm: Map<AtomV, u32>,
    action: Map<Seq<char>, Set<TableItemV>>,
    goto: Map<Seq<char>, u32>,
)
    requires
        c.submap_of(c2),
        0 <= i < s.len(),
        s.len() <= s2.len(),
        s2.take(s.len() as int) == s,
        row_correct(g, c, s, i, tm, action, goto),
    ensures
        row_correct(g, c2, s2, i, tm, action, goto),
{
    assert(s2[i] == s[i]);
    assert forall|a: AtomV| #[trigger] tm.dom().contains(a) implies tm[a] < s2.len() && is_state(
        g, c2, s2[tm[a] as int], goto_kernel(s2[i], a)) by {
        assert(s2[tm[a] as int] == s[tm[a] as int]);
        lemma_is_state_stable(g, c, c2, s[tm[a] as int], goto_kernel(s[i], a));
    }
}

/// Builds the action and goto tables of the automaton whose first state is the
/// closure of `initial_item`: states are numbered in the order they are found,
/// each row made from the items of its state. Every rule that the build reaches
/// from `initial_item` has at most 254 atoms.
pub fn create_table(grammars_hashmap: &GrammarMap, initial_item: LRItem) -> (res: (
    Vec<ActionRow>,
    Vec<GotoRow>,
))
    requires
        grammars_hashmap.wf(),
        rules_at_most(grammars_hashmap@, table_atoms(grammars_hashmap@, initial_item@), 254),
        item_fits(initial_item@),
    ensures
        forall|i: int| 0 <= i < res.0@.len() ==> (#[trigger] res.0@[i]).wf(),
        forall|i: int| 0 <= i < res.1@.len() ==> (#[trigger] res.1@[i]).wf(),
        table_of(
            grammars_hashmap@,
            initial_item@,
            action_rows_view(res.0@),
            goto_rows_view(res.1@),
        ),
        built_table(
            grammars_hashmap@,
            initial_item@,
            action_rows_view(res.0@),
            goto_rows_view(res.1@),
        ),
{
    let g = grammars_hashmap;
    let ghost init = initial_item@;
    let mut firsts = FirstCache::new();
    let mut cache = StateCache { entries: Vec::new() };
    let mut start: Vec<LRItem> = Vec::new();
    start.push(initial_item);
    assert(lr_view(start@) =~= seq![init]);
    let ghost u = table_atoms(g@, init);
    proof {
        lemma_table_atoms(g@, init);
        assert forall|i: int| 0 <= i < start@.len() implies item_in(u, #[trigger] lr_view(start@)[i]) by {
            assert(lr_view(start@)[i] == init);
        }
    }
    let cc0 = get_closure(g, start, &mut firsts, Ghost(u));
    let ghost closed0 = lr_view(cc0@);
    let cc0 = sort_items_descending(cc0);
    let ghost mut steps: nat = 0;
    proof {
        let cl = closure_of(g@, Map::empty(), seq![init]);
        assert(closed0 == cl.0);
        let t = sorted_of(cl.0);
        assert(strictly_descending(lr_view(cc0@)) && lr_view(cc0@).to_set() == cl.0.to_set());
        lemma_descending_unique(t, lr_view(cc0@));
    }
    let mut working: Vec<Vec<LRItem>> = Vec::new();
    working.push(cc0);
    let mut pending: Vec<Vec<LRItem>> = Vec::new();
    let mut actions: Vec<ActionRow> = Vec::new();
    let mut gotos: Vec<GotoRow> = Vec::new();
    let ghost mut kernels: Seq<Seq<LRItemV>> = seq![seq![init]];
    let ghost mut tms: Seq<Map<AtomV, u32>> = Seq::empty();
    let ghost mut origin: Seq<(int, int)> = seq![(0int, 0int)];
    proof {
        assert(states_view(working@) =~= seq![lr_view(cc0@)]);
        assert(states_view(pending@) =~= Seq::<Seq<LRItemV>>::empty());
        let s0 = states_view(working@) + states_view(pending@);
        assert(s0 =~= seq![lr_view(cc0@)]);
        assert(lr_view(cc0@).to_set() =~= lr_set(cc0@));
        assert(is_state(g@, firsts@, s0[0], kernels[0]));
        assert(cache_pairs(cache.entries@) =~= Seq::<(Seq<LRItemV>, Seq<LRItemV>)>::empty());
        assert(s0 == table_start(g@, init).0);
        assert(firsts@ == table_start(g@, init).1);
    }
    let mut cc_index: usize = 0;
    loop
        invariant_except_break
            forall|f: nat|
                #[trigger] build_run(
                    g@,
                    firsts@,
                    cache_pairs(cache.entries@),
                    states_view(working@) + states_view(pending@),
                    cc_index as nat,
                    f,
                ) == build_run(g@, table_start(g@, init).1, Seq::empty(), table_start(g@, init).0, 0, f + steps),
            working@.len() + pending@.len() <= u32::MAX + 1,
            origin.len() == (states_view(working@) + states_view(pending@)).len(),
            forall|j: int|
                1 <= j < origin.len() ==> origin[j].0 < cc_index && #[trigger] found_at(
                    states_view(working@) + states_view(pending@),
                    tms,
                    j,
                    origin[j].0,
                    origin[j].1,
                ),
            forall|j1: int, j2: int| 1 <= j1 < j2 < origin.len() ==> place_lt(#[trigger] origin[j1], #[trigger] origin[j2]),
        invariant
            g.wf(),
            u == table_atoms(g@, init),
            rules_at_most(g@, u, 254),
            rules_in(g@, u),
            item_in(u, init),
            firsts.wf(),
            wf_cache(g@, firsts@),
            cache_from(g@, firsts@, u),
            state_cache_ok(g@, firsts@, cache.entries@),
            working@.len() >= 1,
            states_ok(g@, firsts@, states_view(working@) + states_view(pending@), kernels),
            (states_view(working@) + states_view(pending@)).no_duplicates(),
            kernels[0] == seq![init],
            forall|j: int|
                1 <= j < kernels.len() ==> #[trigger] reached_earlier(
                    states_view(working@) + states_view(pending@),
                    kernels,
                    j,
                ),
            actions@.len() == cc_index,
            gotos@.len() == cc_index,
            tms.len() == cc_index,
            cc_index <= working@.len(),
            forall|i: int| 0 <= i < actions@.len() ==> (#[trigger] actions@[i]).wf(),
            forall|i: int| 0 <= i < gotos@.len() ==> (#[trigger] gotos@[i]).wf(),
            forall|i: int|
                0 <= i < cc_index ==> #[trigger] row_correct(
                    g@,
                    firsts@,
                    states_view(working@) + states_view(pending@),
                    i,
                    tms[i],
                    actions@[i]@,
                    gotos@[i]@,
                ),
        ensures
            automaton_of(
                g@,
                init,
                states_view(working@) + states_view(pending@),
                kernels,
                firsts@,
                tms,
                action_rows_view(actions@),
                goto_rows_view(gotos@),
            ),
            actions@.len() == (states_view(working@) + states_view(pending@)).len() ==> states_view(working@)
                + states_view(pending@) == table_model(g@, init).0 && firsts@ == table_model(g@, init).1,
            table_ends(g@, init) ==> (states_view(working@) + states_view(pending@)).len() <= table_model(
                g@,
                init,
            ).0.len(),
        decreases u32::MAX + 1 - cc_index,
    {
        let ghost s_before = states_view(working@) + states_view(pending@);
        working.append(&mut pending);
        proof {
            assert(states_view(working@) =~= s_before);
            assert(states_view(pending@) =~= Seq::<Seq<LRItemV>>::empty());
            assert(states_view(working@) + states_view(pending@) =~= s_before);
        }
        if cc_index >= working.len() {
            proof {
                assert(build_run(g@, firsts@, cache_pairs(cache.entries@), s_before, cc_index as nat, 1) == Some(
                    (s_before, firsts@),
                ));
                lemma_table_model(g@, init, 1 + steps);
                assert(numbered_in_order(s_before, tms, origin));
                assert(action_rows_view(actions@).len() == cc_index);
                assert forall|i: int| 0 <= i < action_rows_view(actions@).len() implies #[trigger] row_correct(
                    g@, firsts@, s_before, i, tms[i], action_rows_view(actions@)[i], goto_rows_view(gotos@)[i]) by {
                    assert(row_correct(g@, firsts@, s_before, i, tms[i], actions@[i]@, gotos@[i]@));
                }
            }
            break;
        }
        let ghost c0 = firsts@;
        let ghost s0 = states_view(working@) + states_view(pending@);
        let ghost pairs0 = cache_pairs(cache.entries@);
        proof {
            lemma_build_run_round(g@, c0, pairs0, s0, cc_index as nat, init, steps);
            assert(s0[cc_index as int].len() == working@[cc_index as int]@.len());
            lemma_states_in(g@, firsts@, u, init, s0, kernels, cc_index as int);
            assert(s0[cc_index as int] == lr_view(working@[cc_index as int]@));
        }
        let (arow, grow, overflow, tm, ks, korig) = build_row(
            g,
            &working,
            cc_index,
            &mut pending,
            &mut firsts,
            &mut cache,
            Ghost(kernels),
            Ghost(u),
        );
        let ghost s1 = states_view(working@) + states_view(pending@);
        proof {
            assert(s0 =~= states_view(working@));
            assert forall|a: int, b: int| 0 <= a < s1.len() && 0 <= b < s1.len() && a != b implies s1[a] != s1[b] by {
                let wl = working@.len() as int;
                if a < wl && b < wl {
                    assert(s1[a] == s0[a]);
                    assert(s1[b] == s0[b]);
                } else if a < wl {
                    assert(s1[a] == states_view(working@)[a]);
                } else if b < wl {
                    assert(s1[b] == states_view(working@)[b]);
                } else if a < b {
                } else {
                }
            }
            assert(s1.no_duplicates());
            assert(s1.take(s0.len() as int) =~= s0) by {
                assert forall|j: int| 0 <= j < s0.len() implies s1[j] == s0[j] by {}
            }
            assert forall|i: int| 0 <= i < cc_index implies #[trigger] row_correct(
                g@, firsts@, s1, i, tms[i], actions@[i]@, gotos@[i]@) by {
                lemma_rows_stable(g@, c0, firsts@, s0, s1, i, tms[i], actions@[i]@, gotos@[i]@);
            }
            let old_k = kernels;
            kernels = ks@;
            assert forall|j: int| 1 <= j < kernels.len() implies #[trigger] reached_earlier(s1, kernels, j) by {
                if j < old_k.len() {
                    assert(reached_earlier(s0, old_k, j));
                    let i = choose|i: int| 0 <= i < j && #[trigger] reached_from(s0, old_k, i, j);
                    let a = choose|a: AtomV| old_k[j] == #[trigger] goto_kernel(s0[i], a);
                    assert(kernels[j] == old_k[j]);
                    assert(s1[i] == s0[i]);
                    assert(reached_from(s1, kernels, i, j));
                } else {
                    assert(reached_from(s1, kernels, cc_index as int, j));
                }
            }
            assert(kernels[0] == old_k[0]);
        }
        if overflow {
            proof {
                assert(states_view(working@) =~= s0);
                if table_ends(g@, init) {
                    let f0 = choose|f: nat| #[trigger] build_run(g@, table_start(g@, init).1, Seq::empty(), table_start(g@, init).0, 0, f) is Some;
                    lemma_build_run_more_fuel(g@, table_start(g@, init).1, Seq::empty(), table_start(g@, init).0, 0, f0, f0 + 1 + steps);
                    lemma_table_model(g@, init, f0 + 1 + steps);
                    let r = row_fold(g@, c0, pairs0, s0, s0[cc_index as int], s0[cc_index as int].len());
                    assert(build_run(g@, r.0, r.1, r.2, (cc_index + 1) as nat, f0) == build_run(
                        g@, table_start(g@, init).1, Seq::empty(), table_start(g@, init).0, 0, f0 + (steps + 1)));
                    lemma_build_run_grows(g@, r.0, r.1, r.2, (cc_index + 1) as nat, f0);
                    let kk = choose|k: nat| k <= working@[cc_index as int]@.len() && (firsts@, cache_pairs(cache.entries@), states_view(
                        working@) + states_view(pending@)) == #[trigger] row_fold(g@, c0, pairs0, s0 + Seq::<Seq<LRItemV>>::empty(), s0[cc_index as int], k);
                    assert(s0 + Seq::<Seq<LRItemV>>::empty() =~= s0);
                    lemma_row_fold_mono(g@, c0, pairs0, s0, s0[cc_index as int], kk, s0[cc_index as int].len());
                }
                assert forall|i: int| 0 <= i < action_rows_view(actions@).len() implies #[trigger] row_correct(
                    g@, firsts@, s1, i, tms[i], action_rows_view(actions@)[i], goto_rows_view(gotos@)[i]) by {
                    assert(row_correct(g@, firsts@, s1, i, tms[i], actions@[i]@, gotos@[i]@));
                }
            }
            break;
        }
        actions.push(arow);
        gotos.push(grow);
        proof {
            steps = steps + 1;
            let old_tms = tms;
            let old_origin = origin;
            let n0 = s0.len() as int;
            tms = tms.push(tm@);
            origin = old_origin + Seq::new(korig@.len(), |t: int| (cc_index as int, korig@[t]));
            assert(s1[cc_index as int] == states_view(working@)[cc_index as int]);
            assert forall|j: int| 1 <= j < origin.len() implies origin[j].0 < cc_index + 1 && #[trigger] found_at(
                states_view(working@) + states_view(pending@), tms, j, origin[j].0, origin[j].1) by {
                assert(s1 == states_view(working@) + states_view(pending@));
                if j < n0 {
                    assert(origin[j] == old_origin[j]);
                    assert(found_at(s0, old_tms, j, old_origin[j].0, old_origin[j].1));
                    let i = origin[j].0;
                    assert(s1[i] == s0[i]);
                    assert(tms[i] == old_tms[i]);
                    assert forall|i2: int, a: AtomV| 0 <= i2 < i && #[trigger] tms[i2].dom().contains(a) implies tms[i2][a] != j by {
                        assert(tms[i2] == old_tms[i2]);
                    }
                } else {
                    let t = j - n0;
                    assert(origin[j] == (cc_index as int, korig@[t]));
                    assert(found_in_row(states_view(working@)[cc_index as int], tm@, korig@[t], n0 + t));
                    assert forall|i2: int, a: AtomV| 0 <= i2 < cc_index && #[trigger] tms[i2].dom().contains(a) implies tms[i2][a] != j by {
                        assert(tms[i2] == old_tms[i2]);
                        assert(row_correct(g@, c0, s0, i2, old_tms[i2], actions@[i2]@, gotos@[i2]@));
                    }
                    assert(tms[cc_index as int] == tm@);
                    assert(found_in_row(s1[cc_index as int], tms[cc_index as int], origin[j].1, j));
                    assert(found_at(s1, tms, j, origin[j].0, origin[j].1));
                }
            }
            assert forall|j: int| 1 <= j < origin.len() implies (#[trigger] origin[j]).0 <= cc_index by {
                if j < n0 {
                    assert(origin[j] == old_origin[j]);
                    assert(found_at(s0, old_tms, j, old_origin[j].0, old_origin[j].1));
                }
            }
            assert forall|j1: int, j2: int| 1 <= j1 < j2 < origin.len() implies place_lt(#[trigger] origin[j1], #[trigger] origin[j2]) by {
                if j2 < n0 {
                    assert(origin[j1] == old_origin[j1]);
                    assert(origin[j2] == old_origin[j2]);
                } else if j1 < n0 {
                    assert(origin[j1] == old_origin[j1]);
                    assert(found_at(s0, old_tms, j1, old_origin[j1].0, old_origin[j1].1));
                } else {
                }
            }
        }
        cc_index += 1;
    }
    proof {
        let s = states_view(working@) + states_view(pending@);
        assert(automaton_of(g@, init, s, kernels, firsts@, tms, action_rows_view(actions@), goto_rows_view(gotos@)));
        assert(table_of(g@, init, action_rows_view(actions@), goto_rows_view(gotos@)));
        assert(built_table(g@, init, action_rows_view(actions@), goto_rows_view(gotos@)));
    }
    (actions, gotos)
}

/// The tables that `create_table` builds, when every rule that building them
/// reaches has at most 254 atoms and the initial item fits; `None` otherwise.
pub fn try_create_table(grammars_hashmap: &GrammarMap, initial_item: LRItem) -> (res: Option<
    (Vec<ActionRow>, Vec<GotoRow>),
>)
    requires
        grammars_hashmap.wf(),
    ensures
        res is Some <==> rules_at_most(grammars_hashmap@, table_atoms(grammars_hashmap@, initial_item@), 254)
            && item_fits(initial_item@),
        res matches Some(t) ==> table_of(
            grammars_hashmap@,
            initial_item@,
            action_rows_view(t.0@),
            goto_rows_view(t.1@),
        ) && (forall|i: int| 0 <= i < t.0@.len() ==> (#[trigger] t.0@[i]).wf()) && (forall|i: int|
            0 <= i < t.1@.len() ==> (#[trigger] t.1@[i]).wf()),
{
    if initial_item.stacktop > 254 || initial_item.production.len() > 254 {
        return None;
    }
    if !reached_rules_fit(grammars_hashmap, &initial_item) {
        return None;
    }
    Some(create_table(grammars_hashmap, initial_item))
}

} // verus!
