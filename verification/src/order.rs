use vstd::prelude::*;

use crate::grammar::{Atom, AtomV, atoms_view};
use crate::strings::{
    chars_lt,
    compare_strings,
    lemma_chars_lt_irrefl,
    lemma_chars_lt_trans,
    lemma_chars_lt_total,
};
use crate::table::{LRItem, LRItemV, lr_view};

verus! {

/// The order of atoms: every symbol before every terminal, then by name.
pub open spec fn atom_lt(a: AtomV, b: AtomV) -> bool {
    match (a, b) {
        (AtomV::Symbol(x), AtomV::Symbol(y)) => chars_lt(x, y),
        (AtomV::Terminal(x), AtomV::Terminal(y)) => chars_lt(x, y),
        (AtomV::Symbol(_), AtomV::Terminal(_)) => true,
        (AtomV::Terminal(_), AtomV::Symbol(_)) => false,
    }
}

/// The lexicographic order of sequences of atoms.
pub open spec fn atoms_lt(a: Seq<AtomV>, b: Seq<AtomV>) -> bool
    decreases a.len(),
{
    if a.len() == 0 {
        b.len() > 0
    } else if b.len() == 0 {
        false
    } else if a[0] != b[0] {
        atom_lt(a[0], b[0])
    } else {
        atoms_lt(a.drop_first(), b.drop_first())
    }
}

/// The order of items: by dot position, then lookahead, then symbol, then production.
pub open spec fn item_lt(x: LRItemV, y: LRItemV) -> bool {
    if x.stacktop != y.stacktop {
        x.stacktop < y.stacktop
    } else if x.terminal != y.terminal {
        atom_lt(x.terminal, y.terminal)
    } else if x.symbol != y.symbol {
        atom_lt(x.symbol, y.symbol)
    } else {
        atoms_lt(x.production, y.production)
    }
}

/// Each item comes after the ones that follow it.
pub open spec fn strictly_descending(s: Seq<LRItemV>) -> bool {
    forall|i: int, j: int| 0 <= i < j < s.len() ==> item_lt(#[trigger] s[j], #[trigger] s[i])
}

/// The order of atoms is a strict total order.
pub proof fn lemma_atom_lt_order(a: AtomV, b: AtomV, c: AtomV)
    ensures
        !atom_lt(a, a),
        atom_lt(a, b) && atom_lt(b, c) ==> atom_lt(a, c),
        a == b || atom_lt(a, b) || atom_lt(b, a),
{
    lemma_chars_lt_irrefl(crate::grammar::atom_name(a));
    if atom_lt(a, b) && atom_lt(b, c) && (a is Symbol == b is Symbol) && (b is Symbol == c is Symbol) {
        lemma_chars_lt_trans(
            crate::grammar::atom_name(a),
            crate::grammar::atom_name(b),
            crate::grammar::atom_name(c),
        );
    }
    lemma_chars_lt_total(crate::grammar::atom_name(a), crate::grammar::atom_name(b));
}

/// No sequence of atoms comes before itself.
pub proof fn lemma_atoms_lt_irrefl(a: Seq<AtomV>)
    ensures
        !atoms_lt(a, a),
    decreases a.len(),
{
    if a.len() > 0 {
        lemma_atoms_lt_irrefl(a.drop_first());
    }
}

/// The order of sequences of atoms is transitive.
pub proof fn lemma_atoms_lt_trans(a: Seq<AtomV>, b: Seq<AtomV>, c: Seq<AtomV>)
    requires
        atoms_lt(a, b),
        atoms_lt(b, c),
    ensures
        atoms_lt(a, c),
    decreases a.len(),
{
    if a.len() > 0 && b.len() > 0 && c.len() > 0 {
        lemma_atom_lt_order(a[0], b[0], c[0]);
        lemma_atom_lt_order(a[0], c[0], b[0]);
        lemma_atom_lt_order(c[0], a[0], b[0]);
        lemma_atom_lt_order(b[0], c[0], a[0]);
        if a[0] == b[0] && b[0] == c[0] {
            lemma_atoms_lt_trans(a.drop_first(), b.drop_first(), c.drop_first());
        }
    }
}

/// Any two different sequences of atoms are ordered one way or the other.
pub proof fn lemma_atoms_lt_total(a: Seq<AtomV>, b: Seq<AtomV>)
    ensures
        a == b || atoms_lt(a, b) || atoms_lt(b, a),
    decreases a.len(),
{
    if a.len() > 0 && b.len() > 0 {
        lemma_atom_lt_order(a[0], b[0], b[0]);
        if a[0] == b[0] {
            lemma_atoms_lt_total(a.drop_first(), b.drop_first());
            if a.drop_first() == b.drop_first() {
                assert(a =~= seq![a[0]] + a.drop_first());
                assert(b =~= seq![b[0]] + b.drop_first());
            }
        }
    } else if a.len() == 0 && b.len() == 0 {
        assert(a =~= b);
    }
}

/// The order of items is a strict total order.
pub proof fn lemma_item_lt_order(x: LRItemV, y: LRItemV, z: LRItemV)
    ensures
        !item_lt(x, x),
        item_lt(x, y) && item_lt(y, z) ==> item_lt(x, z),
        x == y || item_lt(x, y) || item_lt(y, x),
{
    lemma_atom_lt_order(x.terminal, x.terminal, x.terminal);
    lemma_atom_lt_order(x.symbol, x.symbol, x.symbol);
    lemma_atoms_lt_irrefl(x.production);
    lemma_atom_lt_order(x.terminal, y.terminal, z.terminal);
    lemma_atom_lt_order(x.symbol, y.symbol, z.symbol);
    lemma_atom_lt_order(x.terminal, z.terminal, y.terminal);
    lemma_atom_lt_order(x.symbol, z.symbol, y.symbol);
    lemma_atom_lt_order(y.terminal, x.terminal, z.terminal);
    lemma_atom_lt_order(y.symbol, x.symbol, z.symbol);
    if item_lt(x, y) && item_lt(y, z) && x.stacktop == y.stacktop && y.stacktop == z.stacktop
        && x.terminal == y.terminal && y.terminal == z.terminal && x.symbol == y.symbol && y.symbol
        == z.symbol {
        lemma_atoms_lt_trans(x.production, y.production, z.production);
    }
    lemma_atoms_lt_total(x.production, y.production);
}

/// A set of items has one strictly descending order.
pub proof fn lemma_descending_unique(s1: Seq<LRItemV>, s2: Seq<LRItemV>)
    requires
        strictly_descending(s1),
        strictly_descending(s2),
        s1.to_set() == s2.to_set(),
    ensures
        s1 == s2,
    decreases s1.len(),
{
    if s1.len() == 0 {
        if s2.len() > 0 {
            assert(s2.to_set().contains(s2[0]));
        }
        assert(s1 =~= s2);
    } else if s2.len() == 0 {
        assert(s1.to_set().contains(s1[0]));
    } else {
        let x = s1[0];
        let y = s2[0];
        assert(s1.to_set().contains(x));
        assert(s2.to_set().contains(x));
        let j = choose|j: int| 0 <= j < s2.len() && s2[j] == x;
        assert(s1.to_set().contains(y));
        let i = choose|i: int| 0 <= i < s1.len() && s1[i] == y;
        lemma_item_lt_order(x, y, x);
        lemma_item_lt_order(y, x, y);
        if i > 0 {
            assert(item_lt(s1[i], s1[0]));
        }
        if j > 0 {
            assert(item_lt(s2[j], s2[0]));
        }
        assert(x == y);
        let t1 = s1.drop_first();
        let t2 = s2.drop_first();
        assert forall|a: int, b: int| 0 <= a < b < t1.len() implies item_lt(#[trigger] t1[b], #[trigger] t1[a]) by {
            assert(t1[a] == s1[a + 1] && t1[b] == s1[b + 1]);
        }
        assert forall|a: int, b: int| 0 <= a < b < t2.len() implies item_lt(#[trigger] t2[b], #[trigger] t2[a]) by {
            assert(t2[a] == s2[a + 1] && t2[b] == s2[b + 1]);
        }
        assert forall|z: LRItemV| t1.to_set().contains(z) implies t2.to_set().contains(z) by {
            let a = choose|a: int| 0 <= a < t1.len() && t1[a] == z;
            assert(item_lt(s1[a + 1], s1[0]));
            lemma_item_lt_order(z, z, z);
            assert(s1.to_set().contains(s1[a + 1]));
            assert(s2.to_set().contains(z));
            let b = choose|b: int| 0 <= b < s2.len() && s2[b] == z;
            assert(b != 0);
            assert(t2[b - 1] == z);
        }
        assert forall|z: LRItemV| t2.to_set().contains(z) implies t1.to_set().contains(z) by {
            let a = choose|a: int| 0 <= a < t2.len() && t2[a] == z;
            assert(item_lt(s2[a + 1], s2[0]));
            lemma_item_lt_order(z, z, z);
            assert(s2.to_set().contains(s2[a + 1]));
            assert(s1.to_set().contains(z));
            let b = choose|b: int| 0 <= b < s1.len() && s1[b] == z;
            assert(b != 0);
            assert(t1[b - 1] == z);
        }
        assert(t1.to_set() =~= t2.to_set());
        lemma_descending_unique(t1, t2);
        assert(s1 =~= seq![x] + t1);
        assert(s2 =~= seq![y] + t2);
    }
}

/// Compares two atoms: `-1` when `a` comes first, `0` when they are equal, `1` when `b` comes first.
pub fn compare_atoms(a: &Atom, b: &Atom) -> (res: i8)
    ensures
        res == -1 <==> atom_lt(a@, b@),
        res == 0 <==> a@ == b@,
        res == 1 <==> atom_lt(b@, a@),
{
    proof {
        lemma_atom_lt_order(a@, b@, b@);
        lemma_atom_lt_order(b@, a@, a@);
        lemma_chars_lt_irrefl(crate::grammar::atom_name(a@));
    }
    match (a, b) {
        (Atom::Symbol(x), Atom::Symbol(y)) => compare_strings(x, y),
        (Atom::Terminal(x), Atom::Terminal(y)) => compare_strings(x, y),
        (Atom::Symbol(_), Atom::Terminal(_)) => -1,
        (Atom::Terminal(_), Atom::Symbol(_)) => 1,
    }
}

/// Compares two sequences of atoms lexicographically.
pub fn compare_atom_seqs(a: &Vec<Atom>, b: &Vec<Atom>) -> (res: i8)
    ensures
        res == -1 <==> atoms_lt(atoms_view(a@), atoms_view(b@)),
        res == 0 <==> atoms_view(a@) == atoms_view(b@),
        res == 1 <==> atoms_lt(atoms_view(b@), atoms_view(a@)),
{
    let ghost av = atoms_view(a@);
    let ghost bv = atoms_view(b@);
    proof {
        lemma_atoms_lt_irrefl(av);
        lemma_atoms_lt_total(av, bv);
        lemma_atoms_lt_irrefl(bv);
        if atoms_lt(av, bv) && atoms_lt(bv, av) {
            lemma_atoms_lt_trans(av, bv, av);
        }
    }
    assert(av.skip(0) =~= av);
    assert(bv.skip(0) =~= bv);
    let mut i: usize = 0;
    while i < a.len() && i < b.len()
        invariant
            av == atoms_view(a@),
            bv == atoms_view(b@),
            i <= a@.len(),
            i <= b@.len(),
            av.take(i as int) == bv.take(i as int),
            atoms_lt(av, bv) == atoms_lt(av.skip(i as int), bv.skip(i as int)),
            atoms_lt(bv, av) == atoms_lt(bv.skip(i as int), av.skip(i as int)),
        decreases a.len() - i,
    {
        let c = compare_atoms(&a[i], &b[i]);
        assert(av.skip(i as int)[0] == a@[i as int]@);
        assert(bv.skip(i as int)[0] == b@[i as int]@);
        if c != 0 {
            assert(av.skip(i as int)[0] != bv.skip(i as int)[0]);
            assert(av != bv) by {
                assert(av[i as int] != bv[i as int]);
            }
            return c;
        }
        assert(av.skip(i as int).drop_first() =~= av.skip(i + 1));
        assert(bv.skip(i as int).drop_first() =~= bv.skip(i + 1));
        i += 1;
        assert(av.take(i as int) =~= av.take(i - 1).push(av[i - 1]));
        assert(bv.take(i as int) =~= bv.take(i - 1).push(bv[i - 1]));
    }
    if a.len() < b.len() {
        assert(av.skip(i as int).len() == 0);
        assert(av != bv);
        -1
    } else if b.len() < a.len() {
        assert(bv.skip(i as int).len() == 0);
        assert(av != bv);
        1
    } else {
        assert(av =~= av.take(i as int));
        assert(bv =~= bv.take(i as int));
        0
    }
}

/// Compares two items: `-1` when `x` comes first, `0` when they are equal, `1` when `y` comes first.
pub fn compare_items(x: &LRItem, y: &LRItem) -> (res: i8)
    ensures
        res == -1 <==> item_lt(x@, y@),
        res == 0 <==> x@ == y@,
        res == 1 <==> item_lt(y@, x@),
{
    proof {
        lemma_item_lt_order(x@, y@, x@);
        lemma_item_lt_order(y@, x@, y@);
    }
    if x.stacktop < y.stacktop {
        return -1;
    }
    if x.stacktop > y.stacktop {
        return 1;
    }
    let c = compare_atoms(&x.terminal, &y.terminal);
    if c != 0 {
        return c;
    }
    let c = compare_atoms(&x.symbol, &y.symbol);
    if c != 0 {
        return c;
    }
    compare_atom_seqs(&x.production, &y.production)
}

/// Sorts distinct items from last to first in the order of items.
pub fn sort_items_descending(v: Vec<LRItem>) -> (res: Vec<LRItem>)
    requires
        lr_view(v@).no_duplicates(),
    ensures
        lr_view(res@).no_duplicates(),
        lr_view(res@).to_set() == lr_view(v@).to_set(),
        strictly_descending(lr_view(res@)),
{
    let mut res: Vec<LRItem> = Vec::new();
    let mut i: usize = 0;
    while i < v.len()
        invariant
            i <= v@.len(),
            lr_view(v@).no_duplicates(),
            lr_view(res@).no_duplicates(),
            lr_view(res@).to_set() == lr_view(v@).take(i as int).to_set(),
            strictly_descending(lr_view(res@)),
        decreases v.len() - i,
    {
        let x = v[i].clone();
        let ghost xv = x@;
        let ghost rv = lr_view(res@);
        assert(!rv.to_set().contains(xv)) by {
            if rv.to_set().contains(xv) {
                let j = choose|j: int| 0 <= j < i && lr_view(v@).take(i as int)[j] == xv;
                assert(lr_view(v@)[j] == lr_view(v@)[i as int]);
            }
        }
        let mut p: usize = 0;
        loop
            invariant
                rv == lr_view(res@),
                xv == x@,
                p <= res@.len(),
                forall|q: int| 0 <= q < p ==> !item_lt(#[trigger] rv[q], xv),
            ensures
                p <= res@.len(),
                forall|q: int| 0 <= q < p ==> !item_lt(#[trigger] rv[q], xv),
                p < res@.len() ==> item_lt(rv[p as int], xv),
            decreases res.len() - p,
        {
            if p >= res.len() {
                break ;
            }
            if compare_items(&res[p], &x) == -1 {
                break ;
            }
            p += 1;
        }
        res.insert(p, x);
        proof {
            let rv2 = lr_view(res@);
            assert(rv2 =~= rv.insert(p as int, xv));
            assert forall|a: int, b: int| 0 <= a < b < rv2.len() implies item_lt(#[trigger] rv2[b], #[trigger] rv2[a]) by {
                if b < p {
                    assert(rv2[a] == rv[a] && rv2[b] == rv[b]);
                } else if b == p {
                    assert(rv2[a] == rv[a]);
                    assert(!item_lt(rv[a], xv));
                    lemma_item_lt_order(rv[a], xv, rv[a]);
                } else if a == p {
                    assert(rv2[b] == rv[b - 1]);
                    assert(item_lt(rv[p as int], xv));
                    if b - 1 > p {
                        assert(item_lt(rv[b - 1], rv[p as int]));
                    }
                    lemma_item_lt_order(rv[b - 1], rv[p as int], xv);
                } else if a < p {
                    assert(rv2[a] == rv[a] && rv2[b] == rv[b - 1]);
                } else {
                    assert(rv2[a] == rv[a - 1] && rv2[b] == rv[b - 1]);
                }
            }
            assert forall|a: int, b: int| 0 <= a < b < rv2.len() implies rv2[a] != rv2[b] by {
                lemma_item_lt_order(rv2[b], rv2[a], rv2[a]);
            }
            assert(lr_view(v@).take(i + 1) =~= lr_view(v@).take(i as int).push(xv));
            assert forall|z: LRItemV| rv2.to_set().contains(z) == rv.to_set().insert(xv).contains(z) by {
                if rv2.to_set().contains(z) {
                    let j = choose|j: int| 0 <= j < rv2.len() && rv2[j] == z;
                    if j < p {
                        assert(rv[j] == z);
                    } else if j > p {
                        assert(rv[j - 1] == z);
                    }
                }
                if rv.to_set().contains(z) {
                    let j = choose|j: int| 0 <= j < rv.len() && rv[j] == z;
                    if j < p {
                        assert(rv2[j] == z);
                    } else {
                        assert(rv2[j + 1] == z);
                    }
                }
                if z == xv {
                    assert(rv2[p as int] == z);
                }
            }
            assert(rv2.to_set() =~= rv.to_set().insert(xv));
            lr_view(v@).take(i as int).lemma_push_to_set_commute(xv);
        }
        i += 1;
    }
    assert(lr_view(v@).take(v@.len() as int) =~= lr_view(v@));
    res
}

} // verus!
