use vstd::prelude::*;

use crate::grammar::{AtomV, GrammarItemV, atom_name};
use crate::automaton::reached_earlier;
use crate::table::{
    LRItemV, first_set, first_edge, first_offset, lookahead, lookahead_at, defined, is_state, lemma_closure_reach_refl,
    lemma_closure_reach_step, real_productions, closure_rule, closure_edge, closure_set, closure_reached,
    closure_reach, closure_path, goto_kernel, advance, states_ok, reached_from,
};

verus! {

/// `k2` is the name of an atom of a rule of `k1`.
pub open spec fn name_step(g: Map<Seq<char>, Seq<GrammarItemV>>, k1: Seq<char>, k2: Seq<char>) -> bool {
    &&& g.dom().contains(k1)
    &&& exists|i: int, j: int|
        0 <= i < g[k1].len() && 0 <= j < g[k1][i].production.len() && atom_name(
            #[trigger] g[k1][i].production[j],
        ) == k2
}

/// A chain of names, each one of the rules of the one before.
pub open spec fn name_path(g: Map<Seq<char>, Seq<GrammarItemV>>, p: Seq<Seq<char>>) -> bool {
    &&& p.len() >= 1
    &&& forall|m: int| 0 <= m < p.len() - 1 ==> #[trigger] name_step(g, p[m], p[m + 1])
}

/// `k` is the name of an atom of the production of `init`.
pub open spec fn init_name(init: LRItemV, k: Seq<char>) -> bool {
    exists|j: int| 0 <= j < init.production.len() && atom_name(#[trigger] init.production[j]) == k
}

/// The names that building the table for `g` from `init` reaches: those of
/// the production of `init`, and those of the rules of a name reached.
pub open spec fn reach_names(g: Map<Seq<char>, Seq<GrammarItemV>>, init: LRItemV) -> Set<Seq<char>> {
    Set::new(
        |k: Seq<char>| exists|p: Seq<Seq<char>>| #[trigger] name_path(g, p) && init_name(init, p[0]) && p.last() == k,
    )
}

/// The atoms that building the table for `g` from `init` can look up: those of
/// the production of `init` and those of the rules of the names reached.
pub open spec fn table_atoms(g: Map<Seq<char>, Seq<GrammarItemV>>, init: LRItemV) -> Set<AtomV> {
    Set::new(
        |a: AtomV|
            init.production.contains(a) || exists|k: Seq<char>, i: int|
                reach_names(g, init).contains(k) && g.dom().contains(k) && 0 <= i < g[k].len()
                    && #[trigger] g[k][i].production.contains(a),
    )
}

/// The atoms of the rules of the name of an atom of `u` are in `u`.
pub open spec fn rules_in(g: Map<Seq<char>, Seq<GrammarItemV>>, u: Set<AtomV>) -> bool {
    forall|a: AtomV, i: int, j: int|
        u.contains(a) && g.dom().contains(atom_name(a)) && 0 <= i < g[atom_name(a)].len() && 0 <= j
            < g[atom_name(a)][i].production.len() ==> u.contains(#[trigger] g[atom_name(a)][i].production[j])
}

/// The rules of the name of an atom of `u` have at most `n` atoms.
pub open spec fn rules_at_most(g: Map<Seq<char>, Seq<GrammarItemV>>, u: Set<AtomV>, n: nat) -> bool {
    forall|a: AtomV, i: int|
        u.contains(a) && g.dom().contains(atom_name(a)) && 0 <= i < g[atom_name(a)].len() ==> (
        #[trigger] g[atom_name(a)][i]).production.len() <= n
}

/// First steps from an atom of `u` stay in `u`.
pub proof fn lemma_rules_first_closed(g: Map<Seq<char>, Seq<GrammarItemV>>, u: Set<AtomV>)
    requires
        rules_in(g, u),
    ensures
        forall|x: AtomV, y: AtomV| u.contains(x) && #[trigger] first_edge(g, x, y) ==> u.contains(y),
{
    assert forall|x: AtomV, y: AtomV| u.contains(x) && #[trigger] first_edge(g, x, y) implies u.contains(y) by {
        let (i, o) = choose|i: int, o: int|
            0 <= i < g[atom_name(x)].len() && first_offset(g, g[atom_name(x)][i].production, o)
                && #[trigger] g[atom_name(x)][i].production[o] == y;
    }
}

/// Every atom of the production of `x` is in `u`.
pub open spec fn item_in(u: Set<AtomV>, x: LRItemV) -> bool {
    forall|j: int| 0 <= j < x.production.len() ==> u.contains(#[trigger] x.production[j])
}

/// The entry of `c` under the name `k` holds the first terminals of `a`, whose name is `k`.
pub open spec fn cached_as(
    g: Map<Seq<char>, Seq<GrammarItemV>>,
    c: Map<Seq<char>, Seq<AtomV>>,
    k: Seq<char>,
    a: AtomV,
) -> bool {
    atom_name(a) == k && c[k].to_set() == first_set(g, a)
}

/// Each entry of the cache holds the first terminals of an atom of `u` that
/// has the entry's name: the atom that was looked up under that name.
pub open spec fn cache_from(
    g: Map<Seq<char>, Seq<GrammarItemV>>,
    c: Map<Seq<char>, Seq<AtomV>>,
    u: Set<AtomV>,
) -> bool {
    forall|k: Seq<char>|
        #[trigger] c.dom().contains(k) ==> exists|a: AtomV| u.contains(a) && #[trigger] cached_as(g, c, k, a)
}

/// `k` names an atom that stands in `x` after the atom right after its dot.
pub open spec fn looks_up(x: LRItemV, k: Seq<char>) -> bool {
    exists|o: int|
        1 <= o && x.stacktop + o < x.production.len() && atom_name(#[trigger] x.production[x.stacktop + o]) == k
}

/// No name of `u` stands both for a symbol and for a terminal.
pub open spec fn names_apart(u: Set<AtomV>) -> bool {
    forall|k: Seq<char>| !(#[trigger] u.contains(AtomV::Symbol(k)) && u.contains(AtomV::Terminal(k)))
}

pub proof fn lemma_cache_insert(
    g: Map<Seq<char>, Seq<GrammarItemV>>,
    c: Map<Seq<char>, Seq<AtomV>>,
    u: Set<AtomV>,
    a: AtomV,
    v: Seq<AtomV>,
)
    requires
        cache_from(g, c, u),
        u.contains(a),
        v.to_set() == first_set(g, a),
    ensures
        cache_from(g, c.insert(atom_name(a), v), u),
{
    let c2 = c.insert(atom_name(a), v);
    assert forall|k: Seq<char>| #[trigger] c2.dom().contains(k) implies exists|b: AtomV|
        u.contains(b) && #[trigger] cached_as(g, c2, k, b) by {
        if k == atom_name(a) {
            assert(cached_as(g, c2, k, a));
        } else {
            let b = choose|b: AtomV| u.contains(b) && #[trigger] cached_as(g, c, k, b);
            assert(cached_as(g, c2, k, b));
        }
    }
}

/// When no name is used both ways, an entry under the name of an atom of `u`
/// holds the first terminals of that very atom.
pub proof fn lemma_cache_exact(
    g: Map<Seq<char>, Seq<GrammarItemV>>,
    c: Map<Seq<char>, Seq<AtomV>>,
    u: Set<AtomV>,
    a: AtomV,
)
    requires
        cache_from(g, c, u),
        names_apart(u),
        u.contains(a),
        c.dom().contains(atom_name(a)),
    ensures
        c[atom_name(a)].to_set() == first_set(g, a),
{
    let k = atom_name(a);
    let b = choose|b: AtomV| u.contains(b) && #[trigger] cached_as(g, c, k, b);
    if b != a {
        match a {
            AtomV::Symbol(s) => {
                assert(b == AtomV::Terminal(s));
                assert(!(u.contains(AtomV::Symbol(s)) && u.contains(AtomV::Terminal(s))));
            },
            AtomV::Terminal(s) => {
                assert(b == AtomV::Symbol(s));
                assert(!(u.contains(AtomV::Symbol(s)) && u.contains(AtomV::Terminal(s))));
            },
        }
    }
}

pub(crate) proof fn lemma_name_path_push(g: Map<Seq<char>, Seq<GrammarItemV>>, p: Seq<Seq<char>>, k: Seq<char>)
    requires
        name_path(g, p),
        name_step(g, p.last(), k),
    ensures
        name_path(g, p.push(k)),
{
    let q = p.push(k);
    assert forall|m: int| 0 <= m < q.len() - 1 implies #[trigger] name_step(g, q[m], q[m + 1]) by {
        if m < p.len() - 1 {
            assert(q[m] == p[m] && q[m + 1] == p[m + 1]);
        } else {
            assert(q[m] == p.last() && q[m + 1] == k);
        }
    }
}

/// The name of an atom that building the table can look up is reached.
pub(crate) proof fn lemma_table_atom_name(g: Map<Seq<char>, Seq<GrammarItemV>>, init: LRItemV, a: AtomV)
    requires
        table_atoms(g, init).contains(a),
    ensures
        reach_names(g, init).contains(atom_name(a)),
{
    if init.production.contains(a) {
        let j = choose|j: int| 0 <= j < init.production.len() && init.production[j] == a;
        let p = seq![atom_name(a)];
        assert(init_name(init, p[0]));
        assert(name_path(g, p));
    } else {
        let (k, i) = choose|k: Seq<char>, i: int|
            reach_names(g, init).contains(k) && g.dom().contains(k) && 0 <= i < g[k].len()
                && #[trigger] g[k][i].production.contains(a);
        let p = choose|p: Seq<Seq<char>>| #[trigger] name_path(g, p) && init_name(init, p[0]) && p.last() == k;
        let j = choose|j: int| 0 <= j < g[k][i].production.len() && g[k][i].production[j] == a;
        assert(name_step(g, k, atom_name(a))) by {
            assert(atom_name(g[k][i].production[j]) == atom_name(a));
        }
        lemma_name_path_push(g, p, atom_name(a));
        assert(p.push(atom_name(a))[0] == p[0]);
    }
}

pub proof fn lemma_table_atoms(g: Map<Seq<char>, Seq<GrammarItemV>>, init: LRItemV)
    ensures
        rules_in(g, table_atoms(g, init)),
        item_in(table_atoms(g, init), init),
{
    let u = table_atoms(g, init);
    assert forall|a: AtomV, i: int, j: int|
        u.contains(a) && g.dom().contains(atom_name(a)) && 0 <= i < g[atom_name(a)].len() && 0 <= j
            < g[atom_name(a)][i].production.len() implies u.contains(#[trigger] g[atom_name(a)][i].production[j]) by {
        lemma_table_atom_name(g, init, a);
        let k = atom_name(a);
        assert(g[k][i].production.contains(g[k][i].production[j]));
    }
    assert forall|j: int| 0 <= j < init.production.len() implies u.contains(#[trigger] init.production[j]) by {
        assert(init.production.contains(init.production[j]));
    }
}

/// Every atom of a production that `p` stands for is an atom of `p`.
pub proof fn lemma_real_productions_atoms(g: Map<Seq<char>, Seq<GrammarItemV>>, p: Seq<AtomV>)
    ensures
        forall|i: int, j: int|
            0 <= i < real_productions(g, p).len() && 0 <= j < real_productions(g, p)[i].len() ==> p.contains(
                #[trigger] real_productions(g, p)[i][j],
            ),
    decreases p.len(),
{
    if p.len() > 0 {
        let q = p.drop_last();
        lemma_real_productions_atoms(g, q);
        let prev = real_productions(g, q);
        let a = p.last();
        let ext = prev.map_values(|r: Seq<AtomV>| r.push(a));
        let rp = real_productions(g, p);
        assert forall|i: int, j: int| 0 <= i < rp.len() && 0 <= j < rp[i].len() implies p.contains(
            #[trigger] rp[i][j]) by {
            if i < ext.len() {
                assert(ext[i] == prev[i].push(a));
                if j < prev[i].len() {
                    assert(rp[i][j] == prev[i][j]);
                    assert(q.contains(prev[i][j]));
                    let m = choose|m: int| 0 <= m < q.len() && q[m] == prev[i][j];
                    assert(p[m] == q[m]);
                } else {
                    assert(rp[i][j] == a);
                    assert(p[p.len() - 1] == a);
                }
            } else {
                assert(rp[i] == prev[i - ext.len()]);
                let x = prev[i - ext.len()][j];
                assert(q.contains(x));
                let m = choose|m: int| 0 <= m < q.len() && q[m] == x;
                assert(p[m] == q[m]);
            }
        }
    }
}

/// An item that the rules of the name of an atom of `u` bring into a closure
/// has its atoms in `u`.
pub proof fn lemma_rule_item_in(
    g: Map<Seq<char>, Seq<GrammarItemV>>,
    u: Set<AtomV>,
    a: AtomV,
    i: int,
    y: LRItemV,
)
    requires
        rules_in(g, u),
        u.contains(a),
        g.dom().contains(atom_name(a)),
        0 <= i < g[atom_name(a)].len(),
        closure_rule(g, g[atom_name(a)][i], y),
    ensures
        item_in(u, y),
{
    let nm = atom_name(a);
    let p = g[nm][i].production;
    lemma_real_productions_atoms(g, p);
    let rp = real_productions(g, p);
    let q = choose|q: int| 0 <= q < rp.len() && rp[q] == y.production;
    assert forall|j: int| 0 <= j < y.production.len() implies u.contains(#[trigger] y.production[j]) by {
        assert(rp[q][j] == y.production[j]);
        assert(p.contains(y.production[j]));
        let m = choose|m: int| 0 <= m < p.len() && p[m] == y.production[j];
        assert(u.contains(g[atom_name(a)][i].production[m]));
    }
}

/// Along a chain of closure steps from an item whose atoms are in `u`, every
/// item has its atoms in `u`.
proof fn lemma_closure_path_in(
    g: Map<Seq<char>, Seq<GrammarItemV>>,
    c: Map<Seq<char>, Seq<AtomV>>,
    u: Set<AtomV>,
    p: Seq<LRItemV>,
    m: int,
)
    requires
        rules_in(g, u),
        closure_path(g, c, p),
        item_in(u, p[0]),
        0 <= m < p.len(),
    ensures
        item_in(u, p[m]),
    decreases m,
{
    if m > 0 {
        lemma_closure_path_in(g, c, u, p, m - 1);
        let x = p[m - 1];
        assert(closure_edge(g, c, p[m - 1], p[m - 1 + 1]));
        let a = x.production[x.stacktop as int];
        let nm = atom_name(a);
        let r = choose|r: int| 0 <= r < g[nm].len() && #[trigger] closure_rule(g, g[nm][r], p[m]);
        lemma_rule_item_in(g, u, a, r, p[m]);
    }
}

/// The closure of items whose atoms are in `u` has its atoms in `u`.
pub proof fn lemma_closure_in(
    g: Map<Seq<char>, Seq<GrammarItemV>>,
    c: Map<Seq<char>, Seq<AtomV>>,
    u: Set<AtomV>,
    k: Seq<LRItemV>,
)
    requires
        rules_in(g, u),
        forall|i: int| 0 <= i < k.len() ==> item_in(u, #[trigger] k[i]),
    ensures
        forall|y: LRItemV| #[trigger] closure_set(g, c, k).contains(y) ==> item_in(u, y),
{
    assert forall|y: LRItemV| #[trigger] closure_set(g, c, k).contains(y) implies item_in(u, y) by {
        assert(closure_reached(g, c, k, y));
        let i = choose|i: int| 0 <= i < k.len() && closure_reach(g, c, #[trigger] k[i], y);
        let p = choose|p: Seq<LRItemV>| #[trigger] closure_path(g, c, p) && p[0] == k[i] && p.last() == y;
        lemma_closure_path_in(g, c, u, p, p.len() - 1);
    }
}

/// The kernel reached from items whose atoms are in `u` has its atoms in `u`.
pub proof fn lemma_goto_kernel_in(u: Set<AtomV>, s: Seq<LRItemV>, a: AtomV)
    requires
        forall|i: int| 0 <= i < s.len() ==> item_in(u, #[trigger] s[i]),
    ensures
        forall|j: int| 0 <= j < goto_kernel(s, a).len() ==> item_in(u, #[trigger] goto_kernel(s, a)[j]),
    decreases s.len(),
{
    if s.len() > 0 {
        let p = s.drop_last();
        assert forall|i: int| 0 <= i < p.len() implies item_in(u, #[trigger] p[i]) by {
            assert(p[i] == s[i]);
        }
        lemma_goto_kernel_in(u, p, a);
        let x = s.last();
        assert(item_in(u, s[s.len() - 1]));
        assert(item_in(u, advance(x)));
        let gk = goto_kernel(s, a);
        let gp = goto_kernel(p, a);
        assert forall|j: int| 0 <= j < gk.len() implies item_in(u, #[trigger] gk[j]) by {
            if j < gp.len() {
                assert(gk[j] == gp[j]);
            } else {
                assert(gk[j] == advance(x));
            }
        }
    }
}

/// Every state of an automaton built from `init` has its atoms in `u`.
pub proof fn lemma_states_in(
    g: Map<Seq<char>, Seq<GrammarItemV>>,
    c: Map<Seq<char>, Seq<AtomV>>,
    u: Set<AtomV>,
    init: LRItemV,
    states: Seq<Seq<LRItemV>>,
    kernels: Seq<Seq<LRItemV>>,
    j: int,
)
    requires
        rules_in(g, u),
        item_in(u, init),
        states_ok(g, c, states, kernels),
        kernels.len() >= 1,
        kernels[0] == seq![init],
        forall|m: int| 1 <= m < kernels.len() ==> #[trigger] reached_earlier(states, kernels, m),
        0 <= j < states.len(),
    ensures
        forall|i: int| 0 <= i < states[j].len() ==> item_in(u, #[trigger] states[j][i]),
    decreases j,
{
    let kj = kernels[j];
    if j == 0 {
        assert forall|i: int| 0 <= i < kj.len() implies item_in(u, #[trigger] kj[i]) by {
            assert(kj[i] == init);
        }
    } else {
        assert(reached_earlier(states, kernels, j));
        let i0 = choose|i: int| 0 <= i < j && #[trigger] reached_from(states, kernels, i, j);
        lemma_states_in(g, c, u, init, states, kernels, i0);
        let a = choose|a: AtomV| kernels[j] == #[trigger] goto_kernel(states[i0], a);
        lemma_goto_kernel_in(u, states[i0], a);
    }
    lemma_closure_in(g, c, u, kj);
    assert(crate::table::is_state(g, c, states[j], kernels[j]));
    assert forall|i: int| 0 <= i < states[j].len() implies item_in(u, #[trigger] states[j][i]) by {
        assert(states[j].to_set().contains(states[j][i]));
        assert(closure_set(g, c, kj).contains(states[j][i]));
    }
}

/// With no name used both ways, an item of `u` whose lookups both caches
/// hold gets the same lookaheads from either.
pub proof fn lemma_lookahead_same(
    g: Map<Seq<char>, Seq<GrammarItemV>>,
    u: Set<AtomV>,
    c1: Map<Seq<char>, Seq<AtomV>>,
    c2: Map<Seq<char>, Seq<AtomV>>,
    x: LRItemV,
)
    requires
        names_apart(u),
        cache_from(g, c1, u),
        cache_from(g, c2, u),
        item_in(u, x),
        defined(g, c1, x),
        defined(g, c2, x),
    ensures
        forall|t: AtomV| lookahead(g, c1, x, t) <==> #[trigger] lookahead(g, c2, x, t),
{
    let run = crate::table::solid_run(g, x.production, (x.stacktop + 1) as nat);
    assert forall|o: int, t: AtomV| 1 <= o <= run + 1 implies (#[trigger] lookahead_at(g, c1, x, o, t)
        <==> lookahead_at(g, c2, x, o, t)) by {
        if x.stacktop + o < x.production.len() {
            let a = x.production[x.stacktop + o];
            assert(c1.dom().contains(atom_name(a)));
            assert(c2.dom().contains(atom_name(a)));
            lemma_cache_exact(g, c1, u, a);
            lemma_cache_exact(g, c2, u, a);
            assert(c1[atom_name(a)].to_set().contains(t) == c1[atom_name(a)].contains(t));
            assert(c2[atom_name(a)].to_set().contains(t) == c2[atom_name(a)].contains(t));
        }
    }
    assert forall|t: AtomV| lookahead(g, c1, x, t) <==> #[trigger] lookahead(g, c2, x, t) by {
        if lookahead(g, c1, x, t) {
            let o = choose|o: int| 1 <= o <= run + 1 && #[trigger] lookahead_at(g, c1, x, o, t);
            assert(lookahead_at(g, c2, x, o, t));
        }
        if lookahead(g, c2, x, t) {
            let o = choose|o: int| 1 <= o <= run + 1 && #[trigger] lookahead_at(g, c2, x, o, t);
            assert(lookahead_at(g, c1, x, o, t));
        }
    }
}

proof fn lemma_path_reached_both(
    g: Map<Seq<char>, Seq<GrammarItemV>>,
    u: Set<AtomV>,
    c1: Map<Seq<char>, Seq<AtomV>>,
    c2: Map<Seq<char>, Seq<AtomV>>,
    k: Seq<LRItemV>,
    i: int,
    p: Seq<LRItemV>,
    m: int,
)
    requires
        rules_in(g, u),
        names_apart(u),
        cache_from(g, c1, u),
        cache_from(g, c2, u),
        forall|j: int| 0 <= j < k.len() ==> item_in(u, #[trigger] k[j]),
        forall|y: LRItemV| #[trigger] closure_set(g, c1, k).contains(y) ==> defined(g, c1, y),
        forall|y: LRItemV| #[trigger] closure_set(g, c2, k).contains(y) ==> defined(g, c2, y),
        0 <= i < k.len(),
        closure_path(g, c1, p),
        p[0] == k[i],
        0 <= m < p.len(),
    ensures
        closure_reached(g, c1, k, p[m]),
        closure_reached(g, c2, k, p[m]),
    decreases m,
{
    if m == 0 {
        lemma_closure_reach_refl(g, c1, k[i]);
        lemma_closure_reach_refl(g, c2, k[i]);
    } else {
        lemma_path_reached_both(g, u, c1, c2, k, i, p, m - 1);
        let x = p[m - 1];
        let y = p[m];
        assert(closure_edge(g, c1, p[m - 1], p[m - 1 + 1]));
        let i1 = choose|j: int| 0 <= j < k.len() && closure_reach(g, c1, #[trigger] k[j], x);
        lemma_closure_reach_step(g, c1, k[i1], x, y);
        let i2 = choose|j: int| 0 <= j < k.len() && closure_reach(g, c2, #[trigger] k[j], x);
        assert(closure_set(g, c1, k).contains(x));
        assert(closure_set(g, c2, k).contains(x));
        lemma_closure_in(g, c1, u, k);
        lemma_lookahead_same(g, u, c1, c2, x);
        assert(lookahead(g, c2, x, y.terminal));
        assert(closure_edge(g, c2, x, y));
        lemma_closure_reach_step(g, c2, k[i2], x, y);
    }
}

/// With no name used both ways, a closure taken under either of two caches
/// that hold its lookups is the same.
pub proof fn lemma_closure_same(
    g: Map<Seq<char>, Seq<GrammarItemV>>,
    u: Set<AtomV>,
    c1: Map<Seq<char>, Seq<AtomV>>,
    c2: Map<Seq<char>, Seq<AtomV>>,
    k: Seq<LRItemV>,
)
    requires
        rules_in(g, u),
        names_apart(u),
        cache_from(g, c1, u),
        cache_from(g, c2, u),
        forall|j: int| 0 <= j < k.len() ==> item_in(u, #[trigger] k[j]),
        forall|y: LRItemV| #[trigger] closure_set(g, c1, k).contains(y) ==> defined(g, c1, y),
        forall|y: LRItemV| #[trigger] closure_set(g, c2, k).contains(y) ==> defined(g, c2, y),
    ensures
        closure_set(g, c1, k) == closure_set(g, c2, k),
{
    assert forall|y: LRItemV| closure_set(g, c1, k).contains(y) implies closure_set(g, c2, k).contains(y) by {
        assert(closure_reached(g, c1, k, y));
        let i = choose|i: int| 0 <= i < k.len() && closure_reach(g, c1, #[trigger] k[i], y);
        let p = choose|p: Seq<LRItemV>| #[trigger] closure_path(g, c1, p) && p[0] == k[i] && p.last() == y;
        lemma_path_reached_both(g, u, c1, c2, k, i, p, p.len() - 1);
    }
    assert forall|y: LRItemV| closure_set(g, c2, k).contains(y) implies closure_set(g, c1, k).contains(y) by {
        assert(closure_reached(g, c2, k, y));
        let i = choose|i: int| 0 <= i < k.len() && closure_reach(g, c2, #[trigger] k[i], y);
        let p = choose|p: Seq<LRItemV>| #[trigger] closure_path(g, c2, p) && p[0] == k[i] && p.last() == y;
        lemma_path_reached_both(g, u, c2, c1, k, i, p, p.len() - 1);
    }
    assert(closure_set(g, c1, k) =~= closure_set(g, c2, k));
}

} // verus!
