use vstd::prelude::*;

use crate::grammar::{AtomV, GrammarItemV, atom_name, atoms_view, items_view, get_atom_string};
use crate::table::{GrammarMap, LRItem, LRItemV};
use crate::lookups::{
    name_step, name_path, init_name, reach_names, table_atoms, rules_at_most, lemma_name_path_push,
    lemma_table_atom_name,
};

verus! {

/// The entry of `g` for the name `k` is marked.
pub open spec fn marked_name(g: GrammarMap, m: Seq<bool>, k: Seq<char>) -> bool {
    g@.dom().contains(k) && m[g.key_index(k)]
}

/// Every name of an atom of a rule of a marked name, that has rules, is marked.
pub open spec fn marks_closed(g: GrammarMap, m: Seq<bool>) -> bool {
    forall|k: Seq<char>, ri: int, aj: int|
        marked_name(g, m, k) && 0 <= ri < g@[k].len() && 0 <= aj < g@[k][ri].production.len()
            && g@.dom().contains(atom_name(#[trigger] g@[k][ri].production[aj])) ==> marked_name(
            g,
            m,
            atom_name(g@[k][ri].production[aj]),
        )
}

/// Every marked name is reached.
pub open spec fn marks_sound(g: GrammarMap, m: Seq<bool>, r: Set<Seq<char>>) -> bool {
    forall|i: int| 0 <= i < m.len() && #[trigger] m[i] ==> r.contains(g.entries@[i].name@)
}

/// The number of marks.
pub open spec fn num_marked(m: Seq<bool>) -> nat
    decreases m.len(),
{
    if m.len() == 0 {
        0
    } else {
        num_marked(m.drop_last()) + if m.last() { 1nat } else { 0nat }
    }
}

proof fn lemma_num_marked_le(m: Seq<bool>)
    ensures
        num_marked(m) <= m.len(),
    decreases m.len(),
{
    if m.len() > 0 {
        lemma_num_marked_le(m.drop_last());
    }
}

proof fn lemma_num_marked_set(m: Seq<bool>, i: int)
    requires
        0 <= i < m.len(),
        !m[i],
    ensures
        num_marked(m.update(i, true)) == num_marked(m) + 1,
    decreases m.len(),
{
    let m2 = m.update(i, true);
    if i == m.len() - 1 {
        assert(m2.drop_last() =~= m.drop_last());
    } else {
        assert(m2.drop_last() =~= m.drop_last().update(i, true));
        lemma_num_marked_set(m.drop_last(), i);
    }
}

/// The entry at `i` is the one for its name.
proof fn lemma_entry_key(g: GrammarMap, i: int)
    requires
        g.wf(),
        0 <= i < g.entries@.len(),
    ensures
        g@.dom().contains(g.entries@[i].name@),
        g.key_index(g.entries@[i].name@) == i,
        g@[g.entries@[i].name@] == items_view(g.entries@[i].items@),
{
    let k = g.entries@[i].name@;
    assert(g.has_key(k));
    let j = g.key_index(k);
    assert(g.entries@[j].name@ == k);
}

/// The position of the entry for `name`, if any.
fn find_entry(g: &GrammarMap, name: &String) -> (res: Option<usize>)
    requires
        g.wf(),
    ensures
        match res {
            Some(i) => i < g.entries@.len() && g.entries@[i as int].name@ == name@ && g@.dom().contains(name@)
                && g.key_index(name@) == i,
            None => !g@.dom().contains(name@),
        },
{
    let mut i: usize = 0;
    while i < g.entries.len()
        invariant
            i <= g.entries@.len(),
            g.wf(),
            forall|j: int| 0 <= j < i ==> g.entries@[j].name@ != name@,
        decreases g.entries.len() - i,
    {
        if g.entries[i].name.eq(name) {
            proof {
                lemma_entry_key(*g, i as int);
            }
            return Some(i);
        }
        i += 1;
    }
    None
}

/// A name that is reached is the name of an atom that building the table can look up.
proof fn lemma_reach_atom(g: Map<Seq<char>, Seq<GrammarItemV>>, init: LRItemV, k: Seq<char>)
    requires
        reach_names(g, init).contains(k),
    ensures
        exists|a: AtomV| table_atoms(g, init).contains(a) && #[trigger] atom_name(a) == k,
{
    let p = choose|p: Seq<Seq<char>>| #[trigger] name_path(g, p) && init_name(init, p[0]) && p.last() == k;
    if p.len() == 1 {
        let j = choose|j: int| 0 <= j < init.production.len() && atom_name(#[trigger] init.production[j]) == p[0];
        assert(init.production.contains(init.production[j]));
        assert(table_atoms(g, init).contains(init.production[j]));
    } else {
        let q = p.drop_last();
        assert(name_step(g, p[p.len() - 2], p[p.len() - 2 + 1]));
        let k1 = p[p.len() - 2];
        let (i, j) = choose|i: int, j: int|
            0 <= i < g[k1].len() && 0 <= j < g[k1][i].production.len() && atom_name(
                #[trigger] g[k1][i].production[j],
            ) == p[p.len() - 2 + 1];
        assert(name_path(g, q)) by {
            assert forall|m: int| 0 <= m < q.len() - 1 implies #[trigger] name_step(g, q[m], q[m + 1]) by {
                assert(q[m] == p[m] && q[m + 1] == p[m + 1]);
            }
        }
        assert(q[0] == p[0]);
        assert(reach_names(g, init).contains(k1));
        let a = g[k1][i].production[j];
        assert(g[k1][i].production.contains(a));
        assert(table_atoms(g, init).contains(a));
    }
}

/// Every reached name with rules is marked, when the marks hold the names of
/// the production of `init` and are closed.
proof fn lemma_marks_complete(g: GrammarMap, m: Seq<bool>, init: LRItemV, k: Seq<char>)
    requires
        marks_closed(g, m),
        forall|j: int|
            0 <= j < init.production.len() && g@.dom().contains(atom_name(#[trigger] init.production[j]))
                ==> marked_name(g, m, atom_name(init.production[j])),
        reach_names(g@, init).contains(k),
        g@.dom().contains(k),
    ensures
        marked_name(g, m, k),
{
    let p = choose|p: Seq<Seq<char>>| #[trigger] name_path(g@, p) && init_name(init, p[0]) && p.last() == k;
    lemma_path_marked(g, m, init, p, p.len() - 1);
}

proof fn lemma_path_marked(g: GrammarMap, m: Seq<bool>, init: LRItemV, p: Seq<Seq<char>>, t: int)
    requires
        marks_closed(g, m),
        forall|j: int|
            0 <= j < init.production.len() && g@.dom().contains(atom_name(#[trigger] init.production[j]))
                ==> marked_name(g, m, atom_name(init.production[j])),
        name_path(g@, p),
        init_name(init, p[0]),
        0 <= t < p.len(),
        g@.dom().contains(p[t]),
    ensures
        marked_name(g, m, p[t]),
    decreases t,
{
    if t == 0 {
        let j = choose|j: int| 0 <= j < init.production.len() && atom_name(#[trigger] init.production[j]) == p[0];
    } else {
        assert(name_step(g@, p[t - 1], p[t - 1 + 1]));
        lemma_path_marked(g, m, init, p, t - 1);
        let k1 = p[t - 1];
        let (ri, aj) = choose|ri: int, aj: int|
            0 <= ri < g@[k1].len() && 0 <= aj < g@[k1][ri].production.len() && atom_name(
                #[trigger] g@[k1][ri].production[aj],
            ) == p[t - 1 + 1];
    }
}

/// Whether every rule that building the tables from `init` reaches has at
/// most 254 atoms: the rules of the names of the production of `init`, and
/// of the names of the atoms of the rules reached.
pub fn reached_rules_fit(g: &GrammarMap, init: &LRItem) -> (res: bool)
    requires
        g.wf(),
    ensures
        res == rules_at_most(g@, table_atoms(g@, init@), 254),
{
    let ghost r = reach_names(g@, init@);
    let ghost iv = init@;
    let n = g.entries.len();
    let mut marked: Vec<bool> = Vec::new();
    while marked.len() < n
        invariant
            marked@.len() <= n,
            n == g.entries@.len(),
            forall|i: int| 0 <= i < marked@.len() ==> !#[trigger] marked@[i],
        decreases n - marked.len(),
    {
        marked.push(false);
    }
    let mut j: usize = 0;
    while j < init.production.len()
        invariant
            g.wf(),
            iv == init@,
            r == reach_names(g@, iv),
            n == g.entries@.len(),
            marked@.len() == n,
            j <= init.production@.len(),
            marks_sound(*g, marked@, r),
            forall|j2: int|
                0 <= j2 < j && g@.dom().contains(atom_name(#[trigger] iv.production[j2])) ==> marked_name(
                    *g,
                    marked@,
                    atom_name(iv.production[j2]),
                ),
        decreases init.production.len() - j,
    {
        let name = get_atom_string(&init.production[j]);
        assert(iv.production[j as int] == init.production@[j as int]@);
        match find_entry(g, &name) {
            Some(e) => {
                let ghost m0 = marked@;
                marked.set(e, true);
                proof {
                    let p = seq![name@];
                    assert(init_name(iv, p[0]));
                    assert(name_path(g@, p));
                    assert(r.contains(name@));
                    assert forall|i: int| 0 <= i < marked@.len() && #[trigger] marked@[i] implies r.contains(
                        g.entries@[i].name@) by {
                        if i != e {
                            assert(m0[i]);
                        }
                    }
                    assert forall|j2: int|
                        0 <= j2 < j + 1 && g@.dom().contains(atom_name(#[trigger] iv.production[j2])) implies marked_name(
                        *g, marked@, atom_name(iv.production[j2])) by {
                        if j2 < j {
                            assert(marked_name(*g, m0, atom_name(iv.production[j2])));
                        }
                    }
                }
            },
            None => {},
        }
        j += 1;
    }
    loop
        invariant
            g.wf(),
            iv == init@,
            r == reach_names(g@, iv),
            n == g.entries@.len(),
            marked@.len() == n,
            marks_sound(*g, marked@, r),
            forall|j2: int|
                0 <= j2 < iv.production.len() && g@.dom().contains(atom_name(#[trigger] iv.production[j2]))
                    ==> marked_name(*g, marked@, atom_name(iv.production[j2])),
        ensures
            marks_closed(*g, marked@),
        decreases n - num_marked(marked@),
    {
        let ghost m0 = marked@;
        let mut changed = false;
        let mut i: usize = 0;
        while i < n
            invariant
                g.wf(),
                iv == init@,
                r == reach_names(g@, iv),
                n == g.entries@.len(),
                marked@.len() == n,
                i <= n,
                marks_sound(*g, marked@, r),
                forall|i2: int| 0 <= i2 < n && #[trigger] m0[i2] ==> marked@[i2],
                m0.len() == n,
                changed ==> num_marked(marked@) > num_marked(m0),
                !changed ==> marked@ == m0,
                !changed ==> forall|k: Seq<char>, ri: int, aj: int|
                    marked_name(*g, marked@, k) && g.key_index(k) < i && 0 <= ri < g@[k].len() && 0 <= aj
                        < g@[k][ri].production.len() && g@.dom().contains(
                        atom_name(#[trigger] g@[k][ri].production[aj]),
                    ) ==> marked_name(*g, marked@, atom_name(g@[k][ri].production[aj])),
            decreases n - i,
        {
            proof {
                lemma_entry_key(*g, i as int);
            }
            if marked[i] {
                let items = &g.entries[i].items;
                let ghost k = g.entries@[i as int].name@;
                assert(r.contains(k));
                let mut ri: usize = 0;
                while ri < items.len()
                    invariant
                        g.wf(),
                        iv == init@,
                        r == reach_names(g@, iv),
                        n == g.entries@.len(),
                        marked@.len() == n,
                        i < n,
                        k == g.entries@[i as int].name@,
                        items == &g.entries@[i as int].items,
                        g@.dom().contains(k),
                        g.key_index(k) == i,
                        g@[k] == items_view(items@),
                        r.contains(k),
                        marked@[i as int],
                        ri <= items@.len(),
                        marks_sound(*g, marked@, r),
                        forall|i2: int| 0 <= i2 < n && #[trigger] m0[i2] ==> marked@[i2],
                        m0.len() == n,
                        changed ==> num_marked(marked@) > num_marked(m0),
                        !changed ==> marked@ == m0,
                        !changed ==> forall|k2: Seq<char>, ri2: int, aj: int|
                            marked_name(*g, marked@, k2) && g.key_index(k2) < i && 0 <= ri2 < g@[k2].len() && 0
                                <= aj < g@[k2][ri2].production.len() && g@.dom().contains(
                                atom_name(#[trigger] g@[k2][ri2].production[aj]),
                            ) ==> marked_name(*g, marked@, atom_name(g@[k2][ri2].production[aj])),
                        forall|ri2: int, aj: int|
                            0 <= ri2 < ri && 0 <= aj < g@[k][ri2].production.len() && g@.dom().contains(
                                atom_name(#[trigger] g@[k][ri2].production[aj]),
                            ) ==> marked_name(*g, marked@, atom_name(g@[k][ri2].production[aj])),
                    decreases items.len() - ri,
                {
                    let prod = &items[ri].production;
                    assert(g@[k][ri as int] == items@[ri as int]@);
                    let mut aj: usize = 0;
                    while aj < prod.len()
                        invariant
                            g.wf(),
                            iv == init@,
                            r == reach_names(g@, iv),
                            n == g.entries@.len(),
                            marked@.len() == n,
                            i < n,
                            k == g.entries@[i as int].name@,
                            items == &g.entries@[i as int].items,
                            g@.dom().contains(k),
                            g.key_index(k) == i,
                            g@[k] == items_view(items@),
                            r.contains(k),
                            marked@[i as int],
                            ri < items@.len(),
                            prod == &items@[ri as int].production,
                            g@[k][ri as int].production == atoms_view(prod@),
                            aj <= prod@.len(),
                            marks_sound(*g, marked@, r),
                            forall|i2: int| 0 <= i2 < n && #[trigger] m0[i2] ==> marked@[i2],
                            m0.len() == n,
                            changed ==> num_marked(marked@) > num_marked(m0),
                            !changed ==> marked@ == m0,
                            !changed ==> forall|k2: Seq<char>, ri2: int, aj2: int|
                                marked_name(*g, marked@, k2) && g.key_index(k2) < i && 0 <= ri2 < g@[k2].len()
                                    && 0 <= aj2 < g@[k2][ri2].production.len() && g@.dom().contains(
                                    atom_name(#[trigger] g@[k2][ri2].production[aj2]),
                                ) ==> marked_name(*g, marked@, atom_name(g@[k2][ri2].production[aj2])),
                            forall|ri2: int, aj2: int|
                                0 <= ri2 < ri && 0 <= aj2 < g@[k][ri2].production.len() && g@.dom().contains(
                                    atom_name(#[trigger] g@[k][ri2].production[aj2]),
                                ) ==> marked_name(*g, marked@, atom_name(g@[k][ri2].production[aj2])),
                            forall|aj2: int|
                                0 <= aj2 < aj && g@.dom().contains(
                                    atom_name(#[trigger] g@[k][ri as int].production[aj2]),
                                ) ==> marked_name(*g, marked@, atom_name(g@[k][ri as int].production[aj2])),
                        decreases prod.len() - aj,
                    {
                        let name = get_atom_string(&prod[aj]);
                        assert(atoms_view(prod@)[aj as int] == prod@[aj as int]@);
                        assert(name@ == atom_name(g@[k][ri as int].production[aj as int]));
                        match find_entry(g, &name) {
                            Some(e) => {
                                if !marked[e] {
                                    let ghost m1 = marked@;
                                    marked.set(e, true);
                                    proof {
                                        lemma_num_marked_set(m1, e as int);
                                        assert(marked@ == m1.update(e as int, true));
                                        if !changed {
                                            assert(m1 == m0);
                                        }
                                        let p = choose|p: Seq<Seq<char>>|
                                            #[trigger] name_path(g@, p) && init_name(iv, p[0]) && p.last() == k;
                                        assert(name_step(g@, k, name@));
                                        lemma_name_path_push(g@, p, name@);
                                        assert(p.push(name@)[0] == p[0]);
                                        assert(r.contains(name@));
                                        assert forall|i2: int| 0 <= i2 < marked@.len() && #[trigger] marked@[i2] implies r.contains(
                                            g.entries@[i2].name@) by {
                                            if i2 != e {
                                                assert(m1[i2]);
                                            }
                                        }
                                        assert forall|k2: Seq<char>| #[trigger] marked_name(*g, m1, k2) implies marked_name(*g, marked@, k2) by {
                                            if g.key_index(k2) != e {
                                                assert(marked@[g.key_index(k2)] == m1[g.key_index(k2)]);
                                            }
                                        }
                                    }
                                    changed = true;
                                }
                            },
                            None => {},
                        }
                        aj += 1;
                    }
                    ri += 1;
                }
            } else if !changed {
                proof {
                    assert forall|k2: Seq<char>, ri2: int, aj: int|
                        marked_name(*g, marked@, k2) && g.key_index(k2) < i + 1 && 0 <= ri2 < g@[k2].len() && 0 <= aj
                            < g@[k2][ri2].production.len() && g@.dom().contains(
                            atom_name(#[trigger] g@[k2][ri2].production[aj]),
                        ) implies marked_name(*g, marked@, atom_name(g@[k2][ri2].production[aj])) by {
                        if g.key_index(k2) == i {
                            assert(marked@[i as int]);
                        }
                    }
                }
            }
            i += 1;
        }
        proof {
            lemma_num_marked_le(marked@);
        }
        if !changed {
            proof {
                assert forall|k: Seq<char>, ri: int, aj: int|
                    marked_name(*g, marked@, k) && 0 <= ri < g@[k].len() && 0 <= aj < g@[k][ri].production.len()
                        && g@.dom().contains(atom_name(#[trigger] g@[k][ri].production[aj])) implies marked_name(
                        *g, marked@, atom_name(g@[k][ri].production[aj])) by {
                    let e = g.key_index(k);
                    assert(g.has_key(k));
                    assert(0 <= e < n);
                }
            }
            break;
        }
    }
    let mut i: usize = 0;
    while i < n
        invariant
            g.wf(),
            iv == init@,
            r == reach_names(g@, iv),
            n == g.entries@.len(),
            marked@.len() == n,
            i <= n,
            marks_sound(*g, marked@, r),
            forall|i2: int, ri: int|
                0 <= i2 < i && marked@[i2] && 0 <= ri < g@[g.entries@[i2].name@].len() ==> (
                #[trigger] g@[g.entries@[i2].name@][ri]).production.len() <= 254,
        decreases n - i,
    {
        proof {
            lemma_entry_key(*g, i as int);
        }
        if marked[i] {
            let items = &g.entries[i].items;
            let mut ri: usize = 0;
            while ri < items.len()
                invariant
                    i < n,
                    n == g.entries@.len(),
                    iv == init@,
                    r == reach_names(g@, iv),
                    marked@.len() == n,
                    marks_sound(*g, marked@, r),
                    marked@[i as int],
                    g@.dom().contains(g.entries@[i as int].name@),
                    items == &g.entries@[i as int].items,
                    g@[g.entries@[i as int].name@] == items_view(items@),
                    ri <= items@.len(),
                    forall|ri2: int| 0 <= ri2 < ri ==> (#[trigger] g@[g.entries@[i as int].name@][ri2]).production.len() <= 254,
                decreases items.len() - ri,
            {
                assert(g@[g.entries@[i as int].name@][ri as int] == items@[ri as int]@);
                if items[ri].production.len() > 254 {
                    proof {
                        let k = g.entries@[i as int].name@;
                        assert(r.contains(k));
                        lemma_reach_atom(g@, iv, k);
                        let a = choose|a: AtomV| table_atoms(g@, iv).contains(a) && #[trigger] atom_name(a) == k;
                        assert(g@[atom_name(a)][ri as int].production.len() > 254);
                    }
                    return false;
                }
                ri += 1;
            }
        }
        i += 1;
    }
    proof {
        let u = table_atoms(g@, iv);
        assert forall|a: AtomV, ri: int|
            u.contains(a) && g@.dom().contains(atom_name(a)) && 0 <= ri < g@[atom_name(a)].len() implies (
            #[trigger] g@[atom_name(a)][ri]).production.len() <= 254 by {
            lemma_table_atom_name(g@, iv, a);
            lemma_marks_complete(*g, marked@, iv, atom_name(a));
            let e = g.key_index(atom_name(a));
            assert(g.has_key(atom_name(a)));
            lemma_entry_key(*g, e);
        }
    }
    true
}

} // verus!
