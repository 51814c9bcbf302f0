use vstd::prelude::*;

use crate::grammar::{AtomV, GrammarItemV};
use crate::table::{
    LRItemV, closure_set, closure_reached, closure_reach, closure_path, closure_edge, goto_kernel,
    advance, is_state, item_fits, next_atom,
};

verus! {

/// An item that a closure holds with its dot past the start was one of the
/// items the closure was taken of.
pub(crate) proof fn lemma_closure_moved_in_kernel(
    g: Map<Seq<char>, Seq<GrammarItemV>>,
    c: Map<Seq<char>, Seq<AtomV>>,
    k: Seq<LRItemV>,
    y: LRItemV,
)
    requires
        closure_set(g, c, k).contains(y),
        y.stacktop > 0,
    ensures
        k.contains(y),
{
    assert(closure_reached(g, c, k, y));
    let i = choose|i: int| 0 <= i < k.len() && closure_reach(g, c, #[trigger] k[i], y);
    let p = choose|p: Seq<LRItemV>| #[trigger] closure_path(g, c, p) && p[0] == k[i] && p.last() == y;
    if p.len() > 1 {
        assert(closure_edge(g, c, p[p.len() - 2], p[p.len() - 2 + 1]));
        assert(p[p.len() - 2 + 1] == y);
    }
    assert(k[i] == y);
}

/// The items of a goto kernel over `a` have `a` just before their dot.
pub(crate) proof fn lemma_goto_kernel_items(cc: Seq<LRItemV>, a: AtomV)
    requires
        forall|i: int| 0 <= i < cc.len() ==> item_fits(#[trigger] cc[i]),
    ensures
        forall|j: int|
            0 <= j < goto_kernel(cc, a).len() ==> (#[trigger] goto_kernel(cc, a)[j]).stacktop > 0
                && goto_kernel(cc, a)[j].stacktop <= goto_kernel(cc, a)[j].production.len()
                && goto_kernel(cc, a)[j].production[goto_kernel(cc, a)[j].stacktop - 1] == a,
        next_atom(cc, a) ==> goto_kernel(cc, a).len() > 0,
    decreases cc.len(),
{
    if cc.len() > 0 {
        let p = cc.drop_last();
        assert forall|i: int| 0 <= i < p.len() implies item_fits(#[trigger] p[i]) by {
            assert(p[i] == cc[i]);
        }
        lemma_goto_kernel_items(p, a);
        let x = cc.last();
        assert(item_fits(cc[cc.len() - 1]));
        if next_atom(cc, a) {
            let i = choose|i: int|
                0 <= i < cc.len() && cc[i].stacktop < cc[i].production.len()
                    && #[trigger] cc[i].production[cc[i].stacktop as int] == a;
            if i < p.len() {
                assert(p[i] == cc[i]);
                assert(next_atom(p, a));
            }
        }
        let gk = goto_kernel(cc, a);
        if x.stacktop < x.production.len() && x.production[x.stacktop as int] == a {
            assert(gk[gk.len() - 1] == advance(x));
        }
    }
}

/// The states reached over two different atoms, one of which some item has
/// after its dot, are different.
pub(crate) proof fn lemma_goto_states_differ(
    g: Map<Seq<char>, Seq<GrammarItemV>>,
    c: Map<Seq<char>, Seq<AtomV>>,
    cc: Seq<LRItemV>,
    a: AtomV,
    b: AtomV,
    s1: Seq<LRItemV>,
    s2: Seq<LRItemV>,
)
    requires
        forall|i: int| 0 <= i < cc.len() ==> item_fits(#[trigger] cc[i]),
        is_state(g, c, s1, goto_kernel(cc, a)),
        is_state(g, c, s2, goto_kernel(cc, b)),
        next_atom(cc, a),
        a != b,
    ensures
        s1 != s2,
{
    lemma_goto_kernel_items(cc, a);
    lemma_goto_kernel_items(cc, b);
    let ka = goto_kernel(cc, a);
    let kb = goto_kernel(cc, b);
    let y = ka[0];
    crate::table::lemma_closure_reach_refl(g, c, y);
    assert(closure_reached(g, c, ka, y));
    assert(closure_set(g, c, ka).contains(y));
    if s1 == s2 {
        assert(s1.to_set().contains(y));
        assert(closure_set(g, c, kb).contains(y));
        lemma_closure_moved_in_kernel(g, c, kb, y);
        let j = choose|j: int| 0 <= j < kb.len() && kb[j] == y;
        assert(kb[j].production[kb[j].stacktop - 1] == b);
    }
}

} // verus!
