use vstd::prelude::*;

use crate::grammar::{AtomV, GrammarItemV};
use crate::automaton::{automaton_of, table_of};
use crate::table::{
    LRItemV, RowV, TableItemV, row_of, row_step, next_atom, is_state, goto_kernel, reduce_entry,
    shift_entry, add_action, closure_set, closure_reached, closure_reach, closure_path, closure_edge,
    closure_rule, real_productions, advance, reached_from, states_ok,
};
use crate::automaton::reached_earlier;
use crate::table::{state_lookup, goto_cached, goto_result};
use crate::lookups::{table_atoms, names_apart, cache_from, item_in, lemma_table_atoms, lemma_closure_same, lemma_cache_exact};
use crate::table::first_set;
use crate::grammar::atom_name;
use crate::order::{lemma_descending_unique, strictly_descending};

verus! {

/// The item `x` is complete: its dot stands at the end.
pub open spec fn complete(x: LRItemV) -> bool {
    x.stacktop >= x.production.len()
}

/// The entry `e` for the terminal `t` comes from an item of `s`: a shift to
/// the target of `t` when some item has its dot before `t`, or the reduction
/// by a complete item whose lookahead is `t`.
pub open spec fn entry_justified(s: Seq<LRItemV>, tm: Map<AtomV, u32>, t: Seq<char>, e: TableItemV) -> bool {
    ||| (e == shift_entry(tm[AtomV::Terminal(t)]) && next_atom(s, AtomV::Terminal(t)))
    ||| exists|k: int|
        0 <= k < s.len() && complete(s[k]) && s[k].terminal == AtomV::Terminal(t) && e == reduce_entry(
            #[trigger] s[k],
        )
}

/// What the row made from the items `s` holds: every entry comes from an item,
/// every goto goes to the target of its symbol, and every item gets its entry.
pub open spec fn row_sound(s: Seq<LRItemV>, tm: Map<AtomV, u32>, r: RowV) -> bool {
    &&& forall|t: Seq<char>, e: TableItemV|
        r.action.dom().contains(t) && #[trigger] r.action[t].contains(e) ==> entry_justified(s, tm, t, e)
    &&& forall|n: Seq<char>|
        #[trigger] r.goto.dom().contains(n) ==> r.goto[n] == tm[AtomV::Symbol(n)] && next_atom(
            s,
            AtomV::Symbol(n),
        )
    &&& forall|k: int|
        0 <= k < s.len() ==> #[trigger] item_served(s[k], tm, r)
}

/// The row holds what the item `x` calls for: a complete item with a terminal
/// lookahead a reduction on it (or, with an empty production, some entry); an
/// item with its dot before a terminal a shift to its target; one with its dot
/// before a symbol a goto to its target.
pub open spec fn item_served(x: LRItemV, tm: Map<AtomV, u32>, r: RowV) -> bool {
    if complete(x) {
        match x.terminal {
            AtomV::Terminal(t) => r.action.dom().contains(t) && (x.production.len() > 0 ==> r.action[t].contains(
                reduce_entry(x),
            )),
            AtomV::Symbol(_) => true,
        }
    } else {
        match x.production[x.stacktop as int] {
            AtomV::Terminal(t) => r.action.dom().contains(t) && r.action[t].contains(
                shift_entry(tm[AtomV::Terminal(t)]),
            ),
            AtomV::Symbol(n) => r.goto.dom().contains(n) && r.goto[n] == tm[AtomV::Symbol(n)],
        }
    }
}

proof fn lemma_next_atom_prefix(s: Seq<LRItemV>, a: AtomV)
    requires
        s.len() > 0,
        next_atom(s.drop_last(), a),
    ensures
        next_atom(s, a),
{
    let p = s.drop_last();
    let i = choose|i: int|
        0 <= i < p.len() && p[i].stacktop < p[i].production.len() && #[trigger] p[i].production[p[i].stacktop as int] == a;
    assert(s[i] == p[i]);
}

proof fn lemma_served_step(x: LRItemV, y: LRItemV, tm: Map<AtomV, u32>, r: RowV)
    requires
        item_served(x, tm, r),
        forall|n: Seq<char>| #[trigger] r.goto.dom().contains(n) ==> r.goto[n] == tm[AtomV::Symbol(n)],
        forall|a: AtomV| #[trigger] r.seen.contains(a) ==> match a {
            AtomV::Terminal(t) => r.action.dom().contains(t) && r.action[t].contains(shift_entry(tm[a])),
            AtomV::Symbol(n) => r.goto.dom().contains(n),
        },
    ensures
        item_served(x, tm, row_step(r, y, tm)),
{
}

proof fn lemma_row_sound(s: Seq<LRItemV>, tm: Map<AtomV, u32>)
    ensures
        row_sound(s, tm, row_of(s, tm)),
        forall|a: AtomV| #[trigger] row_of(s, tm).seen.contains(a) ==> match a {
            AtomV::Terminal(t) => row_of(s, tm).action.dom().contains(t) && row_of(s, tm).action[t].contains(
                shift_entry(tm[a]),
            ),
            AtomV::Symbol(n) => row_of(s, tm).goto.dom().contains(n),
        },
    decreases s.len(),
{
    if s.len() > 0 {
        let p = s.drop_last();
        let x = s.last();
        lemma_row_sound(p, tm);
        let r0 = row_of(p, tm);
        let r = row_of(s, tm);
        assert(r == row_step(r0, x, tm));
        assert(s[s.len() - 1] == x);
        // entries of the new row
        assert forall|t: Seq<char>, e: TableItemV|
            r.action.dom().contains(t) && #[trigger] r.action[t].contains(e) implies entry_justified(s, tm, t, e) by {
            if r0.action.dom().contains(t) && r0.action[t].contains(e) {
                if e == shift_entry(tm[AtomV::Terminal(t)]) && next_atom(p, AtomV::Terminal(t)) {
                    lemma_next_atom_prefix(s, AtomV::Terminal(t));
                } else {
                    let k = choose|k: int|
                        0 <= k < p.len() && complete(p[k]) && p[k].terminal == AtomV::Terminal(t) && e
                            == reduce_entry(#[trigger] p[k]);
                    assert(s[k] == p[k]);
                }
            } else {
                if complete(x) {
                    assert(complete(s[s.len() - 1]));
                } else {
                    assert(next_atom(s, x.production[x.stacktop as int]));
                }
            }
        }
        assert forall|n: Seq<char>| #[trigger] r.goto.dom().contains(n) implies r.goto[n] == tm[AtomV::Symbol(n)]
            && next_atom(s, AtomV::Symbol(n)) by {
            if r0.goto.dom().contains(n) {
                lemma_next_atom_prefix(s, AtomV::Symbol(n));
            } else {
                assert(next_atom(s, x.production[x.stacktop as int]));
            }
        }
        assert forall|k: int| 0 <= k < s.len() implies #[trigger] item_served(s[k], tm, r) by {
            if k < p.len() {
                assert(s[k] == p[k]);
                assert(item_served(p[k], tm, r0));
                lemma_served_step(p[k], x, tm, r0);
            }
        }
    }
}

/// Every entry of an automaton's tables comes from an item of its state, and
/// every item of a state gets the entries it calls for: shifts and gotos lead
/// to the state reached over their atom, reductions are by complete items on
/// their lookahead.
pub proof fn lemma_table_entries(
    g: Map<Seq<char>, Seq<GrammarItemV>>,
    init: LRItemV,
    states: Seq<Seq<LRItemV>>,
    kernels: Seq<Seq<LRItemV>>,
    c: Map<Seq<char>, Seq<AtomV>>,
    tms: Seq<Map<AtomV, u32>>,
    actions: Seq<Map<Seq<char>, Set<TableItemV>>>,
    gotos: Seq<Map<Seq<char>, u32>>,
    i: int,
)
    requires
        automaton_of(g, init, states, kernels, c, tms, actions, gotos),
        0 <= i < actions.len(),
    ensures
        row_sound(states[i], tms[i], RowV { action: actions[i], goto: gotos[i], seen: row_of(states[i], tms[i]).seen }),
        forall|a: AtomV|
            next_atom(states[i], a) ==> #[trigger] tms[i].dom().contains(a) && tms[i][a] < states.len()
                && is_state(g, c, states[tms[i][a] as int], goto_kernel(states[i], a)),
{
    assert(crate::table::row_correct(g, c, states, i, tms[i], actions[i], gotos[i]));
    lemma_row_sound(states[i], tms[i]);
}


/// The rule `symbol -> production` is the rule of the initial item, or one of
/// the productions that a rule of the grammar stands for.
pub open spec fn rule_of_grammar(
    g: Map<Seq<char>, Seq<GrammarItemV>>,
    init: LRItemV,
    symbol: AtomV,
    production: Seq<AtomV>,
) -> bool {
    ||| (symbol == init.symbol && production == init.production)
    ||| exists|k: Seq<char>, i: int|
        g.dom().contains(k) && 0 <= i < g[k].len() && (#[trigger] g[k][i]).symbol == symbol && real_productions(
            g,
            g[k][i].production,
        ).contains(production)
}

/// The item `x` has the rule of the initial item or of the grammar.
pub open spec fn item_of_grammar(g: Map<Seq<char>, Seq<GrammarItemV>>, init: LRItemV, x: LRItemV) -> bool {
    rule_of_grammar(g, init, x.symbol, x.production)
}

proof fn lemma_closure_of_grammar(
    g: Map<Seq<char>, Seq<GrammarItemV>>,
    c: Map<Seq<char>, Seq<AtomV>>,
    init: LRItemV,
    k: Seq<LRItemV>,
    y: LRItemV,
)
    requires
        forall|i: int| 0 <= i < k.len() ==> item_of_grammar(g, init, #[trigger] k[i]),
        closure_set(g, c, k).contains(y),
    ensures
        item_of_grammar(g, init, y),
{
    assert(closure_reached(g, c, k, y));
    let i = choose|i: int| 0 <= i < k.len() && closure_reach(g, c, #[trigger] k[i], y);
    let p = choose|p: Seq<LRItemV>| #[trigger] closure_path(g, c, p) && p[0] == k[i] && p.last() == y;
    if p.len() > 1 {
        let x = p[p.len() - 2];
        assert(closure_edge(g, c, x, p[p.len() - 2 + 1]));
        let name = crate::grammar::atom_name(x.production[x.stacktop as int]);
        let r = choose|r: int| 0 <= r < g[name].len() && #[trigger] closure_rule(g, g[name][r], y);
        assert(g[name][r].symbol == y.symbol);
    }
}

proof fn lemma_goto_kernel_of_grammar(
    g: Map<Seq<char>, Seq<GrammarItemV>>,
    init: LRItemV,
    s: Seq<LRItemV>,
    a: AtomV,
)
    requires
        forall|i: int| 0 <= i < s.len() ==> item_of_grammar(g, init, #[trigger] s[i]),
    ensures
        forall|i: int| 0 <= i < goto_kernel(s, a).len() ==> item_of_grammar(g, init, #[trigger] goto_kernel(s, a)[i]),
    decreases s.len(),
{
    if s.len() > 0 {
        let p = s.drop_last();
        assert forall|i: int| 0 <= i < p.len() implies item_of_grammar(g, init, #[trigger] p[i]) by {
            assert(p[i] == s[i]);
        }
        lemma_goto_kernel_of_grammar(g, init, p, a);
        let x = s.last();
        assert(item_of_grammar(g, init, s[s.len() - 1]));
        let gk = goto_kernel(s, a);
        let prev = goto_kernel(p, a);
        assert forall|i: int| 0 <= i < gk.len() implies item_of_grammar(g, init, #[trigger] gk[i]) by {
            if i < prev.len() {
                assert(gk[i] == prev[i]);
            } else {
                assert(gk[i] == advance(x));
            }
        }
    }
}

/// Every item of every state of an automaton has the rule of the initial
/// item or a rule of the grammar.
pub proof fn lemma_items_of_grammar(
    g: Map<Seq<char>, Seq<GrammarItemV>>,
    init: LRItemV,
    states: Seq<Seq<LRItemV>>,
    kernels: Seq<Seq<LRItemV>>,
    c: Map<Seq<char>, Seq<AtomV>>,
    tms: Seq<Map<AtomV, u32>>,
    actions: Seq<Map<Seq<char>, Set<TableItemV>>>,
    gotos: Seq<Map<Seq<char>, u32>>,
    j: int,
)
    requires
        automaton_of(g, init, states, kernels, c, tms, actions, gotos),
        0 <= j < states.len(),
    ensures
        forall|x: int| 0 <= x < states[j].len() ==> item_of_grammar(g, init, #[trigger] states[j][x]),
    decreases j,
{
    assert(is_state(g, c, states[j], kernels[j]));
    if j == 0 {
        assert forall|i: int| 0 <= i < kernels[0].len() implies item_of_grammar(g, init, #[trigger] kernels[0][i]) by {
            assert(kernels[0][i] == init);
        }
    } else {
        assert(reached_earlier(states, kernels, j));
        let i = choose|i: int| 0 <= i < j && #[trigger] reached_from(states, kernels, i, j);
        let a = choose|a: AtomV| kernels[j] == #[trigger] goto_kernel(states[i], a);
        lemma_items_of_grammar(g, init, states, kernels, c, tms, actions, gotos, i);
        lemma_goto_kernel_of_grammar(g, init, states[i], a);
    }
    assert forall|x: int| 0 <= x < states[j].len() implies item_of_grammar(g, init, #[trigger] states[j][x]) by {
        assert(states[j].to_set().contains(states[j][x]));
        lemma_closure_of_grammar(g, c, init, kernels[j], states[j][x]);
    }
}

/// Every reduction of an automaton's action table is by the rule of the
/// initial item or by a rule of the grammar.
pub proof fn lemma_reductions_of_grammar(
    g: Map<Seq<char>, Seq<GrammarItemV>>,
    init: LRItemV,
    states: Seq<Seq<LRItemV>>,
    kernels: Seq<Seq<LRItemV>>,
    c: Map<Seq<char>, Seq<AtomV>>,
    tms: Seq<Map<AtomV, u32>>,
    actions: Seq<Map<Seq<char>, Set<TableItemV>>>,
    gotos: Seq<Map<Seq<char>, u32>>,
    i: int,
    t: Seq<char>,
    e: TableItemV,
)
    requires
        automaton_of(g, init, states, kernels, c, tms, actions, gotos),
        0 <= i < actions.len(),
        actions[i].dom().contains(t),
        actions[i][t].contains(e),
        e.lr_item is Some,
    ensures
        rule_of_grammar(g, init, e.lr_item->0.symbol, e.lr_item->0.production),
{
    lemma_table_entries(g, init, states, kernels, c, tms, actions, gotos, i);
    lemma_items_of_grammar(g, init, states, kernels, c, tms, actions, gotos, i);
    let r = RowV { action: actions[i], goto: gotos[i], seen: row_of(states[i], tms[i]).seen };
    assert(r.action == actions[i]);
    assert(r.action[t].contains(e));
    assert(entry_justified(states[i], tms[i], t, e));
    if !(e == shift_entry(tms[i][AtomV::Terminal(t)]) && next_atom(states[i], AtomV::Terminal(t))) {
        let k = choose|k: int|
            0 <= k < states[i].len() && complete(states[i][k]) && states[i][k].terminal == AtomV::Terminal(t)
                && e == reduce_entry(#[trigger] states[i][k]);
        assert(item_of_grammar(g, init, states[i][k]));
    }
}

/// Every reduction in the tables that `create_table` builds is by the rule of
/// the initial item or by a rule of the grammar.
pub proof fn lemma_table_reductions(
    g: Map<Seq<char>, Seq<GrammarItemV>>,
    init: LRItemV,
    actions: Seq<Map<Seq<char>, Set<TableItemV>>>,
    gotos: Seq<Map<Seq<char>, u32>>,
    i: int,
    t: Seq<char>,
    e: TableItemV,
)
    requires
        table_of(g, init, actions, gotos),
        0 <= i < actions.len(),
        actions[i].dom().contains(t),
        actions[i][t].contains(e),
        e.lr_item is Some,
    ensures
        rule_of_grammar(g, init, e.lr_item->0.symbol, e.lr_item->0.production),
{
    let (states, kernels, c, tms) = choose|
        states: Seq<Seq<LRItemV>>,
        kernels: Seq<Seq<LRItemV>>,
        c: Map<Seq<char>, Seq<AtomV>>,
        tms: Seq<Map<AtomV, u32>>,
    | #[trigger] automaton_of(g, init, states, kernels, c, tms, actions, gotos);
    lemma_reductions_of_grammar(g, init, states, kernels, c, tms, actions, gotos, i, t, e);
}

/// Once a kernel is cached, looking it up after more states were cached still
/// finds the state cached first.
proof fn lemma_state_lookup_push(
    pairs: Seq<(Seq<LRItemV>, Seq<LRItemV>)>,
    kernel: Seq<LRItemV>,
    p: (Seq<LRItemV>, Seq<LRItemV>),
)
    ensures
        state_lookup(pairs.push(p), kernel) == (if state_lookup(pairs, kernel) is Some {
            state_lookup(pairs, kernel)
        } else if p.0 == kernel {
            Some(p.1)
        } else {
            None
        }),
    decreases pairs.len(),
{
    if pairs.len() > 0 {
        assert(pairs.push(p).drop_first() =~= pairs.drop_first().push(p));
        assert(pairs.push(p)[0] == pairs[0]);
        lemma_state_lookup_push(pairs.drop_first(), kernel, p);
    } else {
        let q = pairs.push(p);
        assert(q.drop_first() =~= Seq::<(Seq<LRItemV>, Seq<LRItemV>)>::empty());
        assert(state_lookup(q.drop_first(), kernel) is None);
        assert(q[0] == p);
    }
}

/// After a goto the cache holds the state it answered under its kernel.
pub proof fn lemma_goto_caches_result(
    before: Seq<(Seq<LRItemV>, Seq<LRItemV>)>,
    kernel: Seq<LRItemV>,
    res: Seq<LRItemV>,
    after: Seq<(Seq<LRItemV>, Seq<LRItemV>)>,
)
    requires
        goto_cached(before, kernel, res, after),
    ensures
        state_lookup(after, kernel) == Some(res),
{
    if state_lookup(before, kernel) is None {
        lemma_state_lookup_push(before, kernel, (kernel, res));
    }
}

/// A goto repeated at once with the same state and atom answers what the
/// first one answered and changes neither the first-terminal cache nor the
/// state cache.
pub proof fn lemma_goto_repeated(
    g: Map<Seq<char>, Seq<GrammarItemV>>,
    cc: Seq<LRItemV>,
    a: AtomV,
    c0: Map<Seq<char>, Seq<AtomV>>,
    p0: Seq<(Seq<LRItemV>, Seq<LRItemV>)>,
    r1: Seq<LRItemV>,
    c1: Map<Seq<char>, Seq<AtomV>>,
    p1: Seq<(Seq<LRItemV>, Seq<LRItemV>)>,
    r2: Seq<LRItemV>,
    c2: Map<Seq<char>, Seq<AtomV>>,
    p2: Seq<(Seq<LRItemV>, Seq<LRItemV>)>,
)
    requires
        goto_result(g, c0, p0, cc, a, r1, c1, p1),
        goto_result(g, c1, p1, cc, a, r2, c2, p2),
    ensures
        r2 == r1,
        c2 == c1,
        p2 == p1,
{
    lemma_goto_caches_result(p0, goto_kernel(cc, a), r1, p1);
}

/// When no name of the grammar or of the initial item stands both for a
/// symbol and for a terminal, the state of a kernel is the same whichever cache
/// of first terminals a table build could have used.
pub proof fn lemma_state_independent_of_cache(
    g: Map<Seq<char>, Seq<GrammarItemV>>,
    init: LRItemV,
    c1: Map<Seq<char>, Seq<AtomV>>,
    c2: Map<Seq<char>, Seq<AtomV>>,
    k: Seq<LRItemV>,
    s1: Seq<LRItemV>,
    s2: Seq<LRItemV>,
)
    requires
        names_apart(table_atoms(g, init)),
        cache_from(g, c1, table_atoms(g, init)),
        cache_from(g, c2, table_atoms(g, init)),
        forall|j: int| 0 <= j < k.len() ==> item_in(table_atoms(g, init), #[trigger] k[j]),
        is_state(g, c1, s1, k),
        is_state(g, c2, s2, k),
    ensures
        s1 == s2,
{
    let u = table_atoms(g, init);
    lemma_table_atoms(g, init);
    assert forall|y: LRItemV| #[trigger] closure_set(g, c1, k).contains(y) implies crate::table::defined(g, c1, y) by {
        assert(s1.to_set().contains(y));
    }
    assert forall|y: LRItemV| #[trigger] closure_set(g, c2, k).contains(y) implies crate::table::defined(g, c2, y) by {
        assert(s2.to_set().contains(y));
    }
    lemma_closure_same(g, u, c1, c2, k);
    lemma_descending_unique(s1, s2);
}

/// When no name stands both for a symbol and for a terminal, every automaton
/// that the tables can be built from starts with the same state: the closure
/// of the initial item, sorted from last to first.
pub proof fn lemma_first_state_fixed(
    g: Map<Seq<char>, Seq<GrammarItemV>>,
    init: LRItemV,
    states1: Seq<Seq<LRItemV>>,
    kernels1: Seq<Seq<LRItemV>>,
    c1: Map<Seq<char>, Seq<AtomV>>,
    tms1: Seq<Map<AtomV, u32>>,
    actions1: Seq<Map<Seq<char>, Set<TableItemV>>>,
    gotos1: Seq<Map<Seq<char>, u32>>,
    states2: Seq<Seq<LRItemV>>,
    kernels2: Seq<Seq<LRItemV>>,
    c2: Map<Seq<char>, Seq<AtomV>>,
    tms2: Seq<Map<AtomV, u32>>,
    actions2: Seq<Map<Seq<char>, Set<TableItemV>>>,
    gotos2: Seq<Map<Seq<char>, u32>>,
)
    requires
        names_apart(table_atoms(g, init)),
        automaton_of(g, init, states1, kernels1, c1, tms1, actions1, gotos1),
        automaton_of(g, init, states2, kernels2, c2, tms2, actions2, gotos2),
    ensures
        states1[0] == states2[0],
{
    lemma_table_atoms(g, init);
    let k = seq![init];
    assert(is_state(g, c1, states1[0], kernels1[0]));
    assert(is_state(g, c2, states2[0], kernels2[0]));
    assert forall|j: int| 0 <= j < k.len() implies item_in(table_atoms(g, init), #[trigger] k[j]) by {
        assert(k[j] == init);
    }
    lemma_state_independent_of_cache(g, init, c1, c2, k, states1[0], states2[0]);
}

/// When no name stands both for a symbol and for a terminal, the lookaheads of
/// an automaton the tables are built from are true first terminals: its cache
/// holds, under the name of an atom of the grammar or of the initial item, the
/// first terminals of that atom.
pub proof fn lemma_lookups_exact(
    g: Map<Seq<char>, Seq<GrammarItemV>>,
    init: LRItemV,
    states: Seq<Seq<LRItemV>>,
    kernels: Seq<Seq<LRItemV>>,
    c: Map<Seq<char>, Seq<AtomV>>,
    tms: Seq<Map<AtomV, u32>>,
    actions: Seq<Map<Seq<char>, Set<TableItemV>>>,
    gotos: Seq<Map<Seq<char>, u32>>,
    a: AtomV,
)
    requires
        names_apart(table_atoms(g, init)),
        automaton_of(g, init, states, kernels, c, tms, actions, gotos),
        table_atoms(g, init).contains(a),
        c.dom().contains(atom_name(a)),
    ensures
        c[atom_name(a)].to_set() == first_set(g, a),
{
    lemma_cache_exact(g, c, table_atoms(g, init), a);
}

/// A state found by the lookup is one of the cached states.
proof fn lemma_state_lookup_found(pairs: Seq<(Seq<LRItemV>, Seq<LRItemV>)>, kernel: Seq<LRItemV>)
    requires
        state_lookup(pairs, kernel) is Some,
    ensures
        exists|i: int| 0 <= i < pairs.len() && #[trigger] pairs[i] == (kernel, state_lookup(pairs, kernel)->0),
    decreases pairs.len(),
{
    if pairs[0].0 != kernel {
        let rest = pairs.drop_first();
        lemma_state_lookup_found(rest, kernel);
        let i = choose|i: int| 0 <= i < rest.len() && #[trigger] rest[i] == (kernel, state_lookup(rest, kernel)->0);
        assert(pairs[i + 1] == rest[i]);
    } else {
        assert(pairs[0] == (kernel, state_lookup(pairs, kernel)->0));
    }
}

/// When every state the state cache holds is sorted from last to first, the
/// state a goto answers is too, and so is every state the cache holds after it.
pub proof fn lemma_goto_keeps_sorted(
    g: Map<Seq<char>, Seq<GrammarItemV>>,
    cc: Seq<LRItemV>,
    a: AtomV,
    c: Map<Seq<char>, Seq<AtomV>>,
    before: Seq<(Seq<LRItemV>, Seq<LRItemV>)>,
    res: Seq<LRItemV>,
    c2: Map<Seq<char>, Seq<AtomV>>,
    after: Seq<(Seq<LRItemV>, Seq<LRItemV>)>,
)
    requires
        goto_result(g, c, before, cc, a, res, c2, after),
        forall|i: int| 0 <= i < before.len() ==> strictly_descending(#[trigger] before[i].1),
    ensures
        strictly_descending(res),
        forall|i: int| 0 <= i < after.len() ==> strictly_descending(#[trigger] after[i].1),
{
    let kernel = goto_kernel(cc, a);
    if state_lookup(before, kernel) is Some {
        lemma_state_lookup_found(before, kernel);
        let i = choose|i: int| 0 <= i < before.len() && #[trigger] before[i] == (kernel, state_lookup(before, kernel)->0);
        assert(strictly_descending(before[i].1));
    } else {
        assert forall|i: int| 0 <= i < after.len() implies strictly_descending(#[trigger] after[i].1) by {
            if i < before.len() {
                assert(after[i] == before[i]);
            } else {
                assert(after[i] == (kernel, res));
            }
        }
    }
}

} // verus!
