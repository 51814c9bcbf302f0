use vstd::prelude::*;

use crate::grammar::{AtomV, GrammarItemV, atom_name};
use crate::table::{
    solid_run, real_productions, LRItemV, goto_kernel, state_lookup, goto_cached, goto_result, has_next, next_of,
    next_atom,
};
use crate::order::{strictly_descending, lemma_descending_unique};

verus! {

// ---------------------------------------------------------------------------
// The first terminals of an atom, in the order they are found
// ---------------------------------------------------------------------------

/// `e` with `x` added at its end, unless it holds `x` already.
pub open spec fn add_new(e: Seq<AtomV>, x: AtomV) -> Seq<AtomV> {
    if e.contains(x) {
        e
    } else {
        e.push(x)
    }
}

/// `e` with the atoms of `pv` at the first `n` offsets added, each once.
pub open spec fn add_offsets(pv: Seq<AtomV>, e: Seq<AtomV>, n: nat) -> Seq<AtomV>
    decreases n,
{
    if n == 0 {
        e
    } else {
        let e1 = add_offsets(pv, e, (n - 1) as nat);
        if n - 1 < pv.len() {
            add_new(e1, pv[n - 1])
        } else {
            e1
        }
    }
}

/// `e` with the first steps of the rules `rs` added, rule by rule, each once:
/// the atoms at the start of each production and past the nullable atoms that
/// follow it.
pub open spec fn add_rules(g: Map<Seq<char>, Seq<GrammarItemV>>, rs: Seq<GrammarItemV>, e: Seq<AtomV>) -> Seq<
    AtomV,
>
    decreases rs.len(),
{
    if rs.len() == 0 {
        e
    } else {
        let pv = rs.last().production;
        add_offsets(pv, add_rules(g, rs.drop_last(), e), (solid_run(g, pv, 1) + 2) as nat)
    }
}

/// The search for first terminals with at most `fuel` rounds: the atoms still
/// to look at `s` (the last one next), the atoms seen `e` and the terminals
/// found `r`.
pub open spec fn first_run(
    g: Map<Seq<char>, Seq<GrammarItemV>>,
    s: Seq<AtomV>,
    e: Seq<AtomV>,
    r: Seq<AtomV>,
    fuel: nat,
) -> Option<Seq<AtomV>>
    decreases fuel,
{
    if fuel == 0 {
        None
    } else if s.len() == 0 {
        Some(r)
    } else {
        let x = s.last();
        let s1 = s.drop_last();
        match x {
            AtomV::Symbol(n) => if g.dom().contains(n) {
                let e2 = add_rules(g, g[n], e);
                first_run(g, s1 + e2.skip(e.len() as int), e2, r, (fuel - 1) as nat)
            } else {
                first_run(g, s1, e, r, (fuel - 1) as nat)
            },
            AtomV::Terminal(_) => first_run(g, s1, e, r.push(x), (fuel - 1) as nat),
        }
    }
}

/// The search for the first terminals of `a` ends.
pub open spec fn first_ends(g: Map<Seq<char>, Seq<GrammarItemV>>, a: AtomV) -> bool {
    exists|f: nat| #[trigger] first_run(g, seq![a], Seq::empty(), Seq::empty(), f) is Some
}

/// The first terminals of `a`, in the order the search finds them.
pub open spec fn first_list(g: Map<Seq<char>, Seq<GrammarItemV>>, a: AtomV) -> Seq<AtomV> {
    first_run(
        g,
        seq![a],
        Seq::empty(),
        Seq::empty(),
        choose|f: nat| #[trigger] first_run(g, seq![a], Seq::empty(), Seq::empty(), f) is Some,
    )->0
}

pub proof fn lemma_first_run_more_fuel(
    g: Map<Seq<char>, Seq<GrammarItemV>>,
    s: Seq<AtomV>,
    e: Seq<AtomV>,
    r: Seq<AtomV>,
    f: nat,
    f2: nat,
)
    requires
        f <= f2,
        first_run(g, s, e, r, f) is Some,
    ensures
        first_run(g, s, e, r, f2) == first_run(g, s, e, r, f),
    decreases f,
{
    if s.len() > 0 {
        let x = s.last();
        let s1 = s.drop_last();
        match x {
            AtomV::Symbol(n) => if g.dom().contains(n) {
                let e2 = add_rules(g, g[n], e);
                lemma_first_run_more_fuel(g, s1 + e2.skip(e.len() as int), e2, r, (f - 1) as nat, (f2 - 1) as nat);
            } else {
                lemma_first_run_more_fuel(g, s1, e, r, (f - 1) as nat, (f2 - 1) as nat);
            },
            AtomV::Terminal(_) => {
                lemma_first_run_more_fuel(g, s1, e, r.push(x), (f - 1) as nat, (f2 - 1) as nat);
            },
        }
    }
}

/// A search that ends gives the first terminals in their order.
pub proof fn lemma_first_list(g: Map<Seq<char>, Seq<GrammarItemV>>, a: AtomV, f: nat)
    requires
        first_run(g, seq![a], Seq::empty(), Seq::empty(), f) is Some,
    ensures
        first_ends(g, a),
        first_list(g, a) == first_run(g, seq![a], Seq::empty(), Seq::empty(), f)->0,
{
    let f2 = choose|f: nat| #[trigger] first_run(g, seq![a], Seq::empty(), Seq::empty(), f) is Some;
    if f <= f2 {
        lemma_first_run_more_fuel(g, seq![a], Seq::empty(), Seq::empty(), f, f2);
    } else {
        lemma_first_run_more_fuel(g, seq![a], Seq::empty(), Seq::empty(), f2, f);
    }
}

// ---------------------------------------------------------------------------
// Lookaheads through the first-terminal cache
// ---------------------------------------------------------------------------

/// The cache with the first terminals of `a` added under the name of `a`,
/// unless that name has an entry already.
pub open spec fn cache_lookup(
    g: Map<Seq<char>, Seq<GrammarItemV>>,
    c: Map<Seq<char>, Seq<AtomV>>,
    a: AtomV,
) -> Map<Seq<char>, Seq<AtomV>> {
    if c.dom().contains(atom_name(a)) {
        c
    } else {
        c.insert(atom_name(a), first_list(g, a))
    }
}

/// The cache after looking up the atoms at the first `k` offsets past the atom
/// after the dot of `x`.
pub open spec fn lookups_upto(
    g: Map<Seq<char>, Seq<GrammarItemV>>,
    c: Map<Seq<char>, Seq<AtomV>>,
    x: LRItemV,
    k: nat,
) -> Map<Seq<char>, Seq<AtomV>>
    decreases k,
{
    if k == 0 {
        c
    } else {
        let c1 = lookups_upto(g, c, x, (k - 1) as nat);
        if x.stacktop + k < x.production.len() {
            cache_lookup(g, c1, x.production[x.stacktop + k])
        } else {
            c1
        }
    }
}

/// The lookaheads that the first `k` offsets past the atom after the dot of
/// `x` give, in order: the cached first terminals of the atom there, or the
/// lookahead of `x` past the end.
pub open spec fn lookaheads_upto(
    g: Map<Seq<char>, Seq<GrammarItemV>>,
    c: Map<Seq<char>, Seq<AtomV>>,
    x: LRItemV,
    k: nat,
) -> Seq<AtomV>
    decreases k,
{
    if k == 0 {
        Seq::empty()
    } else {
        lookaheads_upto(g, c, x, (k - 1) as nat) + if x.stacktop + k < x.production.len() {
            lookups_upto(g, c, x, k)[atom_name(x.production[x.stacktop + k])]
        } else {
            seq![x.terminal]
        }
    }
}

/// How many offsets past the dot of `x` give lookaheads: the one right after
/// the atom after the dot, and one more past each nullable atom that follows.
pub open spec fn lookahead_count(g: Map<Seq<char>, Seq<GrammarItemV>>, x: LRItemV) -> nat {
    (solid_run(g, x.production, (x.stacktop + 1) as nat) + 1) as nat
}

/// The cache after the lookups of `x`.
pub open spec fn cache_after(
    g: Map<Seq<char>, Seq<GrammarItemV>>,
    c: Map<Seq<char>, Seq<AtomV>>,
    x: LRItemV,
) -> Map<Seq<char>, Seq<AtomV>> {
    lookups_upto(g, c, x, lookahead_count(g, x))
}

/// The lookaheads of the items that `x` brings in, in order.
pub open spec fn lookahead_list(
    g: Map<Seq<char>, Seq<GrammarItemV>>,
    c: Map<Seq<char>, Seq<AtomV>>,
    x: LRItemV,
) -> Seq<AtomV> {
    lookaheads_upto(g, c, x, lookahead_count(g, x))
}

// ---------------------------------------------------------------------------
// The items that an item brings into a closure, in the order they are pushed
// ---------------------------------------------------------------------------

/// The item of `sym -> q` with the dot at the start and the lookahead `t`.
pub open spec fn fresh_item(sym: AtomV, q: Seq<AtomV>, t: AtomV) -> LRItemV {
    LRItemV { stacktop: 0, terminal: t, symbol: sym, production: q }
}

/// The items of `sym -> q`, one per lookahead of `ts` in order, that `ret`
/// does not hold.
pub open spec fn kids_t(sym: AtomV, q: Seq<AtomV>, ts: Seq<AtomV>, ret: Seq<LRItemV>) -> Seq<LRItemV>
    decreases ts.len(),
{
    if ts.len() == 0 {
        Seq::empty()
    } else {
        let y = fresh_item(sym, q, ts.last());
        kids_t(sym, q, ts.drop_last(), ret) + if ret.contains(y) {
            Seq::<LRItemV>::empty()
        } else {
            seq![y]
        }
    }
}

/// The items of `sym` for each production of `ps` in order.
pub open spec fn kids_p(sym: AtomV, ps: Seq<Seq<AtomV>>, ts: Seq<AtomV>, ret: Seq<LRItemV>) -> Seq<LRItemV>
    decreases ps.len(),
{
    if ps.len() == 0 {
        Seq::empty()
    } else {
        kids_p(sym, ps.drop_last(), ts, ret) + kids_t(sym, ps.last(), ts, ret)
    }
}

/// The items of the rules `rs` in order, each for the productions it stands for.
pub open spec fn kids_r(
    g: Map<Seq<char>, Seq<GrammarItemV>>,
    rs: Seq<GrammarItemV>,
    ts: Seq<AtomV>,
    ret: Seq<LRItemV>,
) -> Seq<LRItemV>
    decreases rs.len(),
{
    if rs.len() == 0 {
        Seq::empty()
    } else {
        kids_r(g, rs.drop_last(), ts, ret) + kids_p(
            rs.last().symbol,
            real_productions(g, rs.last().production),
            ts,
            ret,
        )
    }
}

// ---------------------------------------------------------------------------
// The closure, in the order its items are taken
// ---------------------------------------------------------------------------

/// One round of the closure: the last item still to do is taken off and kept
/// if it is new; its lookups go into the cache; and the items it brings in that
/// are not kept are put to do, after the others.
pub open spec fn closure_step(
    g: Map<Seq<char>, Seq<GrammarItemV>>,
    c: Map<Seq<char>, Seq<AtomV>>,
    ret: Seq<LRItemV>,
    w: Seq<LRItemV>,
) -> (Map<Seq<char>, Seq<AtomV>>, Seq<LRItemV>, Seq<LRItemV>) {
    let x = w.last();
    let w0 = w.drop_last();
    let ret2 = if ret.contains(x) {
        ret
    } else {
        ret.push(x)
    };
    let w2 = if x.stacktop < x.production.len() && g.dom().contains(atom_name(x.production[x.stacktop as int])) {
        w0 + kids_r(g, g[atom_name(x.production[x.stacktop as int])], lookahead_list(g, c, x), ret2)
    } else {
        w0
    };
    (cache_after(g, c, x), ret2, w2)
}

/// The closure with at most `fuel` rounds: the items kept, in the order they
/// are first taken, and the cache at the end.
pub open spec fn closure_run(
    g: Map<Seq<char>, Seq<GrammarItemV>>,
    c: Map<Seq<char>, Seq<AtomV>>,
    ret: Seq<LRItemV>,
    w: Seq<LRItemV>,
    fuel: nat,
) -> Option<(Seq<LRItemV>, Map<Seq<char>, Seq<AtomV>>)>
    decreases fuel,
{
    if fuel == 0 {
        None
    } else if w.len() == 0 {
        Some((ret, c))
    } else {
        let (c2, ret2, w2) = closure_step(g, c, ret, w);
        closure_run(g, c2, ret2, w2, (fuel - 1) as nat)
    }
}

/// The closure of the items `k` (the last one taken first) from the cache `c`:
/// its items in the order they are taken, and the cache after it.
pub open spec fn closure_of(
    g: Map<Seq<char>, Seq<GrammarItemV>>,
    c: Map<Seq<char>, Seq<AtomV>>,
    k: Seq<LRItemV>,
) -> (Seq<LRItemV>, Map<Seq<char>, Seq<AtomV>>) {
    closure_run(g, c, Seq::empty(), k, choose|f: nat| #[trigger] closure_run(g, c, Seq::empty(), k, f) is Some)->0
}

pub proof fn lemma_closure_run_more_fuel(
    g: Map<Seq<char>, Seq<GrammarItemV>>,
    c: Map<Seq<char>, Seq<AtomV>>,
    ret: Seq<LRItemV>,
    w: Seq<LRItemV>,
    f: nat,
    f2: nat,
)
    requires
        f <= f2,
        closure_run(g, c, ret, w, f) is Some,
    ensures
        closure_run(g, c, ret, w, f2) == closure_run(g, c, ret, w, f),
    decreases f,
{
    if w.len() > 0 {
        let (c2, ret2, w2) = closure_step(g, c, ret, w);
        lemma_closure_run_more_fuel(g, c2, ret2, w2, (f - 1) as nat, (f2 - 1) as nat);
    }
}

/// A closure run that ends gives the closure.
pub proof fn lemma_closure_of(
    g: Map<Seq<char>, Seq<GrammarItemV>>,
    c: Map<Seq<char>, Seq<AtomV>>,
    k: Seq<LRItemV>,
    f: nat,
)
    requires
        closure_run(g, c, Seq::empty(), k, f) is Some,
    ensures
        closure_of(g, c, k) == closure_run(g, c, Seq::empty(), k, f)->0,
{
    let f2 = choose|f: nat| #[trigger] closure_run(g, c, Seq::empty(), k, f) is Some;
    if f <= f2 {
        lemma_closure_run_more_fuel(g, c, Seq::empty(), k, f, f2);
    } else {
        lemma_closure_run_more_fuel(g, c, Seq::empty(), k, f2, f);
    }
}

/// A round taken off the front of a closure run leaves the rest of the run.
pub proof fn lemma_closure_run_round(
    g: Map<Seq<char>, Seq<GrammarItemV>>,
    c: Map<Seq<char>, Seq<AtomV>>,
    ret: Seq<LRItemV>,
    w: Seq<LRItemV>,
    c0: Map<Seq<char>, Seq<AtomV>>,
    k0: Seq<LRItemV>,
    steps: nat,
)
    requires
        w.len() > 0,
        forall|f: nat| #[trigger] closure_run(g, c, ret, w, f) == closure_run(g, c0, Seq::empty(), k0, f + steps),
    ensures
        forall|f: nat|
            #[trigger] closure_run(g, closure_step(g, c, ret, w).0, closure_step(g, c, ret, w).1, closure_step(g, c, ret, w).2, f)
                == closure_run(g, c0, Seq::empty(), k0, f + (steps + 1)),
{
    assert forall|f: nat|
        #[trigger] closure_run(g, closure_step(g, c, ret, w).0, closure_step(g, c, ret, w).1, closure_step(g, c, ret, w).2, f)
            == closure_run(g, c0, Seq::empty(), k0, f + (steps + 1)) by {
        assert(closure_run(g, c, ret, w, f + 1) == closure_run(g, c0, Seq::empty(), k0, (f + 1) + steps));
    }
}

// ---------------------------------------------------------------------------
// The whole build of the tables, step by step
// ---------------------------------------------------------------------------

/// The items of `s` sorted from last to first.
pub open spec fn sorted_of(s: Seq<LRItemV>) -> Seq<LRItemV> {
    choose|t: Seq<LRItemV>| strictly_descending(t) && t.to_set() == s.to_set()
}

/// A goto from the state `cc` over `a`, from the first-terminal cache `c` and
/// the cached states `p`: the state, and the two caches after it.
pub open spec fn goto_fn(
    g: Map<Seq<char>, Seq<GrammarItemV>>,
    c: Map<Seq<char>, Seq<AtomV>>,
    p: Seq<(Seq<LRItemV>, Seq<LRItemV>)>,
    cc: Seq<LRItemV>,
    a: AtomV,
) -> (Seq<LRItemV>, Map<Seq<char>, Seq<AtomV>>, Seq<(Seq<LRItemV>, Seq<LRItemV>)>) {
    let kernel = goto_kernel(cc, a);
    match state_lookup(p, kernel) {
        Some(s) => (s, c, p),
        None => {
            let r = sorted_of(closure_of(g, c, kernel).0);
            (r, closure_of(g, c, kernel).1, p.push((kernel, r)))
        },
    }
}

/// What a goto gives is what `goto_fn` gives.
pub proof fn lemma_goto_fn(
    g: Map<Seq<char>, Seq<GrammarItemV>>,
    c: Map<Seq<char>, Seq<AtomV>>,
    p: Seq<(Seq<LRItemV>, Seq<LRItemV>)>,
    cc: Seq<LRItemV>,
    a: AtomV,
    res: Seq<LRItemV>,
    c2: Map<Seq<char>, Seq<AtomV>>,
    p2: Seq<(Seq<LRItemV>, Seq<LRItemV>)>,
)
    requires
        goto_result(g, c, p, cc, a, res, c2, p2),
    ensures
        (res, c2, p2) == goto_fn(g, c, p, cc, a),
{
    let kernel = goto_kernel(cc, a);
    if state_lookup(p, kernel) is None {
        let t = sorted_of(closure_of(g, c, kernel).0);
        assert(strictly_descending(res) && res.to_set() == closure_of(g, c, kernel).0.to_set());
        assert(strictly_descending(t) && t.to_set() == closure_of(g, c, kernel).0.to_set());
        lemma_descending_unique(t, res);
    }
}

/// The states known and the caches after the gotos of the row made from the
/// first `k` items of the state `cc`: one goto for each atom after a dot, the
/// first time it comes; a state not known yet is added at the end.
pub open spec fn row_fold(
    g: Map<Seq<char>, Seq<GrammarItemV>>,
    c: Map<Seq<char>, Seq<AtomV>>,
    p: Seq<(Seq<LRItemV>, Seq<LRItemV>)>,
    states: Seq<Seq<LRItemV>>,
    cc: Seq<LRItemV>,
    k: nat,
) -> (Map<Seq<char>, Seq<AtomV>>, Seq<(Seq<LRItemV>, Seq<LRItemV>)>, Seq<Seq<LRItemV>>)
    decreases k,
{
    if k == 0 {
        (c, p, states)
    } else {
        let (c1, p1, s1) = row_fold(g, c, p, states, cc, (k - 1) as nat);
        let x = cc[k - 1];
        if has_next(x) && !next_atom(cc.take(k - 1), next_of(x)) {
            let (r, c2, p2) = goto_fn(g, c1, p1, cc, next_of(x));
            (
                c2,
                p2,
                if s1.contains(r) {
                    s1
                } else {
                    s1.push(r)
                },
            )
        } else {
            (c1, p1, s1)
        }
    }
}

/// The build with at most `fuel` rows more, from row `idx` on: the states in
/// the order they are found, and the first-terminal cache at the end.
pub open spec fn build_run(
    g: Map<Seq<char>, Seq<GrammarItemV>>,
    c: Map<Seq<char>, Seq<AtomV>>,
    p: Seq<(Seq<LRItemV>, Seq<LRItemV>)>,
    states: Seq<Seq<LRItemV>>,
    idx: nat,
    fuel: nat,
) -> Option<(Seq<Seq<LRItemV>>, Map<Seq<char>, Seq<AtomV>>)>
    decreases fuel,
{
    if fuel == 0 {
        None
    } else if idx >= states.len() {
        Some((states, c))
    } else {
        let (c2, p2, s2) = row_fold(g, c, p, states, states[idx as int], states[idx as int].len());
        build_run(g, c2, p2, s2, idx + 1, (fuel - 1) as nat)
    }
}

/// The first state of the build (the closure of `init`, sorted from last to
/// first) and the first-terminal cache after it.
pub open spec fn table_start(g: Map<Seq<char>, Seq<GrammarItemV>>, init: LRItemV) -> (
    Seq<Seq<LRItemV>>,
    Map<Seq<char>, Seq<AtomV>>,
) {
    let cl = closure_of(g, Map::empty(), seq![init]);
    (seq![sorted_of(cl.0)], cl.1)
}

/// The build of the tables for `g` from `init` ends.
pub open spec fn table_ends(g: Map<Seq<char>, Seq<GrammarItemV>>, init: LRItemV) -> bool {
    exists|f: nat|
        #[trigger] build_run(g, table_start(g, init).1, Seq::empty(), table_start(g, init).0, 0, f) is Some
}

/// The states the build of the tables finds, in order, and the first-terminal
/// cache at its end.
pub open spec fn table_model(g: Map<Seq<char>, Seq<GrammarItemV>>, init: LRItemV) -> (
    Seq<Seq<LRItemV>>,
    Map<Seq<char>, Seq<AtomV>>,
) {
    build_run(
        g,
        table_start(g, init).1,
        Seq::empty(),
        table_start(g, init).0,
        0,
        choose|f: nat| #[trigger] build_run(g, table_start(g, init).1, Seq::empty(), table_start(g, init).0, 0, f) is Some,
    )->0
}

pub proof fn lemma_build_run_more_fuel(
    g: Map<Seq<char>, Seq<GrammarItemV>>,
    c: Map<Seq<char>, Seq<AtomV>>,
    p: Seq<(Seq<LRItemV>, Seq<LRItemV>)>,
    states: Seq<Seq<LRItemV>>,
    idx: nat,
    f: nat,
    f2: nat,
)
    requires
        f <= f2,
        build_run(g, c, p, states, idx, f) is Some,
    ensures
        build_run(g, c, p, states, idx, f2) == build_run(g, c, p, states, idx, f),
    decreases f,
{
    if idx < states.len() {
        let (c2, p2, s2) = row_fold(g, c, p, states, states[idx as int], states[idx as int].len());
        lemma_build_run_more_fuel(g, c2, p2, s2, idx + 1, (f - 1) as nat, (f2 - 1) as nat);
    }
}

proof fn lemma_row_fold_grows(
    g: Map<Seq<char>, Seq<GrammarItemV>>,
    c: Map<Seq<char>, Seq<AtomV>>,
    p: Seq<(Seq<LRItemV>, Seq<LRItemV>)>,
    states: Seq<Seq<LRItemV>>,
    cc: Seq<LRItemV>,
    k: nat,
)
    ensures
        states.len() <= row_fold(g, c, p, states, cc, k).2.len(),
    decreases k,
{
    if k > 0 {
        lemma_row_fold_grows(g, c, p, states, cc, (k - 1) as nat);
    }
}

/// The build only adds states.
pub proof fn lemma_build_run_grows(
    g: Map<Seq<char>, Seq<GrammarItemV>>,
    c: Map<Seq<char>, Seq<AtomV>>,
    p: Seq<(Seq<LRItemV>, Seq<LRItemV>)>,
    states: Seq<Seq<LRItemV>>,
    idx: nat,
    f: nat,
)
    requires
        build_run(g, c, p, states, idx, f) is Some,
    ensures
        states.len() <= (build_run(g, c, p, states, idx, f)->0).0.len(),
    decreases f,
{
    if idx < states.len() {
        let (c2, p2, s2) = row_fold(g, c, p, states, states[idx as int], states[idx as int].len());
        lemma_row_fold_grows(g, c, p, states, states[idx as int], states[idx as int].len());
        lemma_build_run_grows(g, c2, p2, s2, idx + 1, (f - 1) as nat);
    }
}

/// A build run from the start that ends gives the model.
pub proof fn lemma_table_model(g: Map<Seq<char>, Seq<GrammarItemV>>, init: LRItemV, f: nat)
    requires
        build_run(g, table_start(g, init).1, Seq::empty(), table_start(g, init).0, 0, f) is Some,
    ensures
        table_ends(g, init),
        table_model(g, init) == build_run(g, table_start(g, init).1, Seq::empty(), table_start(g, init).0, 0, f)->0,
{
    let f2 = choose|f: nat| #[trigger] build_run(g, table_start(g, init).1, Seq::empty(), table_start(g, init).0, 0, f) is Some;
    if f <= f2 {
        lemma_build_run_more_fuel(g, table_start(g, init).1, Seq::empty(), table_start(g, init).0, 0, f, f2);
    } else {
        lemma_build_run_more_fuel(g, table_start(g, init).1, Seq::empty(), table_start(g, init).0, 0, f2, f);
    }
}

/// Fewer items of a row give no more states.
pub proof fn lemma_row_fold_mono(
    g: Map<Seq<char>, Seq<GrammarItemV>>,
    c: Map<Seq<char>, Seq<AtomV>>,
    p: Seq<(Seq<LRItemV>, Seq<LRItemV>)>,
    states: Seq<Seq<LRItemV>>,
    cc: Seq<LRItemV>,
    k1: nat,
    k2: nat,
)
    requires
        k1 <= k2,
    ensures
        row_fold(g, c, p, states, cc, k1).2.len() <= row_fold(g, c, p, states, cc, k2).2.len(),
    decreases k2,
{
    if k1 < k2 {
        lemma_row_fold_mono(g, c, p, states, cc, k1, (k2 - 1) as nat);
    }
}

/// A row taken off the front of a build run leaves the rest of the run.
pub proof fn lemma_build_run_round(
    g: Map<Seq<char>, Seq<GrammarItemV>>,
    c: Map<Seq<char>, Seq<AtomV>>,
    p: Seq<(Seq<LRItemV>, Seq<LRItemV>)>,
    states: Seq<Seq<LRItemV>>,
    idx: nat,
    init: LRItemV,
    steps: nat,
)
    requires
        idx < states.len(),
        forall|f: nat|
            #[trigger] build_run(g, c, p, states, idx, f) == build_run(
                g,
                table_start(g, init).1,
                Seq::empty(),
                table_start(g, init).0,
                0,
                f + steps,
            ),
    ensures
        forall|f: nat|
            #[trigger] build_run(
                g,
                row_fold(g, c, p, states, states[idx as int], states[idx as int].len()).0,
                row_fold(g, c, p, states, states[idx as int], states[idx as int].len()).1,
                row_fold(g, c, p, states, states[idx as int], states[idx as int].len()).2,
                idx + 1,
                f,
            ) == build_run(g, table_start(g, init).1, Seq::empty(), table_start(g, init).0, 0, f + (steps + 1)),
{
    let r = row_fold(g, c, p, states, states[idx as int], states[idx as int].len());
    assert forall|f: nat| #[trigger] build_run(g, r.0, r.1, r.2, idx + 1, f) == build_run(
        g, table_start(g, init).1, Seq::empty(), table_start(g, init).0, 0, f + (steps + 1)) by {
        assert(build_run(g, c, p, states, idx, f + 1) == build_run(
            g, table_start(g, init).1, Seq::empty(), table_start(g, init).0, 0, (f + 1) + steps));
    }
}

} // verus!
