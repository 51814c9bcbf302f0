use vstd::prelude::*;

use crate::grammar::{Atom, AtomV, GrammarItem, GrammarItemV, atom_name, atoms_view, items_view, get_atom_string, atom_eq, atoms_eq, copy_atoms};
use crate::strings::{str_contains_char};
use crate::order::{strictly_descending, sort_items_descending};
use crate::model::{
    add_new, add_offsets, add_rules, first_run, first_list, lemma_first_list, cache_lookup, lookups_upto,
    lookaheads_upto, lookahead_count, cache_after, lookahead_list, fresh_item, kids_t, kids_p, kids_r, closure_step, closure_run, closure_of,
    lemma_closure_of, lemma_closure_run_round, goto_fn, lemma_goto_fn, row_fold,
};
use crate::lookups::{item_in, rules_in, rules_at_most, cache_from, looks_up, lemma_cache_insert, lemma_rule_item_in, lemma_rules_first_closed};

verus! {

broadcast use vstd::seq_lib::group_seq_properties;

// ---------------------------------------------------------------------------
// The grammar, grouped by symbol name
// ---------------------------------------------------------------------------

/// The rules of `gs` whose left-hand symbol has the name `k`, in order.
pub open spec fn rules_of(gs: Seq<GrammarItemV>, k: Seq<char>) -> Seq<GrammarItemV> {
    gs.filter(|g: GrammarItemV| atom_name(g.symbol) == k)
}

/// All rules whose left-hand symbol has a given name.
pub struct GrammarEntry {
    pub name: String,
    pub items: Vec<GrammarItem>,
}

/// The rules of a grammar grouped by the name of their left-hand symbol.
pub struct GrammarMap {
    pub entries: Vec<GrammarEntry>,
}

impl GrammarMap {
    /// No name has two entries.
    pub open spec fn wf(&self) -> bool {
        forall|i: int, j: int|
            0 <= i < j < self.entries@.len() ==> self.entries@[i].name@ != self.entries@[j].name@
    }

    /// Some entry has the key `k`.
    pub open spec fn has_key(&self, k: Seq<char>) -> bool {
        exists|i: int| 0 <= i < self.entries@.len() && self.entries@[i].name@ == k
    }

    /// The position of an entry with the key `k`.
    pub open spec fn key_index(&self, k: Seq<char>) -> int {
        choose|i: int| 0 <= i < self.entries@.len() && self.entries@[i].name@ == k
    }

    /// The rules stored under a name, if any.
    pub fn get(&self, name: &String) -> (res: Option<&Vec<GrammarItem>>)
        requires
            self.wf(),
        ensures
            match res {
                Some(v) => self@.dom().contains(name@) && items_view(v@) == self@[name@],
                None => !self@.dom().contains(name@),
            },
    {
        let mut i: usize = 0;
        while i < self.entries.len()
            invariant
                i <= self.entries@.len(),
                self.wf(),
                forall|j: int| 0 <= j < i ==> self.entries@[j].name@ != name@,
            decreases self.entries.len() - i,
        {
            if self.entries[i].name.eq(name) {
                assert(self.has_key(name@));
                assert(self.key_index(name@) == i);
                return Some(&self.entries[i].items);
            }
            i += 1;
        }
        None
    }
}

impl View for GrammarMap {
    type V = Map<Seq<char>, Seq<GrammarItemV>>;

    open spec fn view(&self) -> Map<Seq<char>, Seq<GrammarItemV>> {
        Map::new(
            |k: Seq<char>| self.has_key(k),
            |k: Seq<char>| items_view(self.entries@[self.key_index(k)].items@),
        )
    }
}

/// Whether some string of `v` has the contents `k`.
pub open spec fn string_in(v: Seq<String>, k: Seq<char>) -> bool {
    exists|i: int| 0 <= i < v.len() && v[i]@ == k
}

/// Whether some string of `v` has the contents `k`.
pub(crate) fn contains_string(v: &Vec<String>, k: &String) -> (res: bool)
    ensures
        res == string_in(v@, k@),
{
    let mut i: usize = 0;
    while i < v.len()
        invariant
            i <= v@.len(),
            forall|j: int| 0 <= j < i ==> v@[j]@ != k@,
        decreases v.len() - i,
    {
        if v[i].eq(k) {
            return true;
        }
        i += 1;
    }
    false
}

/// Groups the rules of a grammar by the name of their left-hand symbol.
///
/// Every name that some rule has on its left gets exactly the rules with that
/// name, in the order they come in.
#[verifier::spinoff_prover]
pub fn create_grammars_hashmap(grammars: Vec<GrammarItem>) -> (res: GrammarMap)
    ensures
        res.wf(),
        forall|k: Seq<char>|
            res@.dom().contains(k) <==> exists|i: int|
                0 <= i < grammars@.len() && atom_name(grammars@[i]@.symbol) == k,
        forall|k: Seq<char>|
            #[trigger] res@.dom().contains(k) ==> res@[k] == rules_of(items_view(grammars@), k),
{
    // the names in order of first appearance
    let mut names: Vec<String> = Vec::new();
    let mut i: usize = 0;
    while i < grammars.len()
        invariant
            i <= grammars@.len(),
            forall|a: int, b: int| 0 <= a < b < names@.len() ==> names@[a]@ != names@[b]@,
            forall|k: Seq<char>|
                #[trigger] string_in(names@, k) <==> exists|j: int|
                    0 <= j < i && atom_name(grammars@[j]@.symbol) == k,
        decreases grammars.len() - i,
    {
        let name = get_atom_string(&grammars[i].symbol);
        let ghost old_names = names@;
        if !contains_string(&names, &name) {
            names.push(name);
            assert(names@[names@.len() - 1]@ == atom_name(grammars@[i as int]@.symbol));
        }
        proof {
            assert forall|k: Seq<char>|
                #[trigger] string_in(names@, k) <==> exists|j: int|
                    0 <= j < i + 1 && atom_name(grammars@[j]@.symbol) == k by {
                if string_in(names@, k) {
                    let a = choose|a: int| 0 <= a < names@.len() && names@[a]@ == k;
                    if a < old_names.len() {
                        assert(string_in(old_names, k));
                    } else {
                        assert(atom_name(grammars@[i as int]@.symbol) == k);
                    }
                }
                if exists|j: int| 0 <= j < i + 1 && atom_name(grammars@[j]@.symbol) == k {
                    let j = choose|j: int| 0 <= j < i + 1 && atom_name(grammars@[j]@.symbol) == k;
                    if j < i {
                        assert(string_in(old_names, k));
                        let a = choose|a: int| 0 <= a < old_names.len() && old_names[a]@ == k;
                        assert(names@[a]@ == k);
                    } else if string_in(old_names, k) {
                        let a = choose|a: int| 0 <= a < old_names.len() && old_names[a]@ == k;
                        assert(names@[a]@ == k);
                    } else {
                        assert(names@[names@.len() - 1]@ == k);
                    }
                }
            }
        }
        i += 1;
    }
    let ghost gv = items_view(grammars@);
    let mut entries: Vec<GrammarEntry> = Vec::new();
    let mut n: usize = 0;
    while n < names.len()
        invariant
            n <= names@.len(),
            gv == items_view(grammars@),
            entries@.len() == n,
            forall|a: int| 0 <= a < n ==> #[trigger] entries@[a].name@ == names@[a]@,
            forall|a: int|
                0 <= a < n ==> items_view(#[trigger] entries@[a].items@) == rules_of(
                    gv,
                    names@[a]@,
                ),
        decreases names.len() - n,
    {
        let mut items: Vec<GrammarItem> = Vec::new();
        let mut j: usize = 0;
        while j < grammars.len()
            invariant
                j <= grammars@.len(),
                n < names@.len(),
                gv == items_view(grammars@),
                items_view(items@) == rules_of(gv.take(j as int), names@[n as int]@),
            decreases grammars.len() - j,
        {
            let nm = get_atom_string(&grammars[j].symbol);
            let ghost before = items_view(items@);
            proof {
                assert(gv.take(j + 1) =~= gv.take(j as int).push(gv[j as int]));
                gv.take(j as int).lemma_filter_push(
                    gv[j as int],
                    |g: GrammarItemV| atom_name(g.symbol) == names@[n as int]@,
                );
            }
            if nm.eq(&names[n]) {
                items.push(grammars[j].clone());
                assert(items_view(items@) =~= before.push(gv[j as int]));
            }
            j += 1;
        }
        assert(gv.take(grammars@.len() as int) =~= gv);
        let ghost old_entries = entries@;
        let nm_n = names[n].clone();
        assert(nm_n@ == names@[n as int]@);
        entries.push(GrammarEntry { name: nm_n, items });
        assert(entries@[n as int].name@ == names@[n as int]@);
        assert(items_view(entries@[n as int].items@) == rules_of(gv, names@[n as int]@));
        assert forall|a: int| 0 <= a < n + 1 implies items_view(#[trigger] entries@[a].items@) == rules_of(gv, names@[a]@) by {
            if a < n {
                assert(entries@[a] == old_entries[a]);
            }
        }
        assert forall|a: int| 0 <= a < n + 1 implies #[trigger] entries@[a].name@ == names@[a]@ by {
            if a < n {
                assert(entries@[a] == old_entries[a]);
            }
        }
        n += 1;
    }
    let res = GrammarMap { entries };
    assert forall|k: Seq<char>|
        res@.dom().contains(k) <==> exists|i: int|
            0 <= i < grammars@.len() && atom_name(grammars@[i]@.symbol) == k by {
        if res@.dom().contains(k) {
            let a = res.key_index(k);
            assert(names@[a]@ == k);
            assert(string_in(names@, k));
        }
        if exists|i: int| 0 <= i < grammars@.len() && atom_name(grammars@[i]@.symbol) == k {
            assert(string_in(names@, k));
            let a = choose|a: int| 0 <= a < names@.len() && names@[a]@ == k;
            assert(res.entries@[a].name@ == k);
        }
    }
    res
}

} // verus!

verus! {

// ---------------------------------------------------------------------------
// Nullable symbols and runs of them
// ---------------------------------------------------------------------------

/// `a` is a symbol with a rule whose production is empty.
pub open spec fn nullable(g: Map<Seq<char>, Seq<GrammarItemV>>, a: AtomV) -> bool {
    &&& a is Symbol
    &&& g.dom().contains(atom_name(a))
    &&& exists|i: int|
        0 <= i < g[atom_name(a)].len() && (#[trigger] g[atom_name(a)][i]).production.len() == 0
}

/// The number of consecutive nullable atoms of `p` from position `i` on.
pub open spec fn solid_run(g: Map<Seq<char>, Seq<GrammarItemV>>, p: Seq<AtomV>, i: nat) -> nat
    decreases p.len() - i,
{
    if i < p.len() && nullable(g, p[i as int]) {
        1 + solid_run(g, p, i + 1)
    } else {
        0
    }
}

proof fn lemma_solid_run_bound(g: Map<Seq<char>, Seq<GrammarItemV>>, p: Seq<AtomV>, i: nat)
    ensures
        i <= p.len() ==> solid_run(g, p, i) <= p.len() - i,
        i >= p.len() ==> solid_run(g, p, i) == 0,
    decreases p.len() - i,
{
    if i < p.len() {
        lemma_solid_run_bound(g, p, i + 1);
    }
}

/// Whether `a` is a symbol with a rule whose production is empty.
fn is_nullable(g: &GrammarMap, a: &Atom) -> (res: bool)
    requires
        g.wf(),
    ensures
        res == nullable(g@, a@),
{
    match a {
        Atom::Symbol(x) => {
            match g.get(x) {
                Some(items) => {
                    let mut i: usize = 0;
                    while i < items.len()
                        invariant
                            i <= items@.len(),
                            g@.dom().contains(x@),
                            a@ == AtomV::Symbol(x@),
                            items_view(items@) == g@[x@],
                            forall|j: int| 0 <= j < i ==> items@[j].production@.len() != 0,
                        decreases items.len() - i,
                    {
                        if items[i].production.len() == 0 {
                            assert(g@[x@][i as int] == items@[i as int]@);
                            assert(g@[x@][i as int].production.len() == 0);
                            return true;
                        }
                        i += 1;
                    }
                    assert forall|j: int|
                        0 <= j < g@[x@].len() implies (#[trigger] g@[x@][j]).production.len()
                        != 0 by {
                        assert(g@[x@][j] == items@[j]@);
                    }
                    false
                },
                None => false,
            }
        },
        Atom::Terminal(_) => false,
    }
}

/// The first element of a list of offsets, or zero.
pub open spec fn first_or_zero(s: Seq<u8>) -> int {
    if s.len() > 0 {
        s[0] as int
    } else {
        0
    }
}

/// The offsets obtained by extending `initial_offset` with one more offset for each nullable
/// atom of `production` that follows, without a gap, the position
/// `start_index + initial_offset.len()`.
///
/// The added offsets count up from `initial_offset[0] + initial_offset.len()`.
fn find_solid_indexes(
    g: &GrammarMap,
    production: &Vec<Atom>,
    start_index: u8,
    initial_offset: Vec<u8>,
) -> (res: Vec<u8>)
    requires
        g.wf(),
        production@.len() <= 255,
        start_index + initial_offset@.len() <= 255,
        first_or_zero(initial_offset@) + production@.len() <= 255,
    ensures
        res@ == initial_offset@ + Seq::new(
            solid_run(g@, atoms_view(production@), (start_index + initial_offset@.len()) as nat),
            |j: int| (first_or_zero(initial_offset@) + initial_offset@.len() + j) as u8,
        ),
{
    let ghost pv = atoms_view(production@);
    let ghost l0 = initial_offset@.len();
    let ghost il = first_or_zero(initial_offset@);
    let initial_len: u8 = if initial_offset.len() > 0 {
        initial_offset[0]
    } else {
        0
    };
    let mut offsets = initial_offset;
    loop
        invariant
            g.wf(),
            pv == atoms_view(production@),
            production@.len() <= 255,
            initial_len == il,
            il + production@.len() <= 255,
            l0 <= offsets@.len() <= 255,
            start_index + l0 <= 255,
            start_index + offsets@.len() <= 255,
            offsets@.len() > l0 ==> start_index + offsets@.len() <= production@.len(),
            offsets@ == initial_offset@ + Seq::new(
                (offsets@.len() - l0) as nat,
                |j: int| (il + l0 + j) as u8,
            ),
            solid_run(g@, pv, (start_index + l0) as nat) == (offsets@.len() - l0) + solid_run(
                g@,
                pv,
                (start_index + offsets@.len()) as nat,
            ),
        ensures
            offsets@ == initial_offset@ + Seq::new(
                solid_run(g@, pv, (start_index + l0) as nat),
                |j: int| (il + l0 + j) as u8,
            ),
        decreases 256 - offsets@.len(),
    {
        let idx: u8 = start_index + offsets.len() as u8;
        let mut break_loop = true;
        if (idx as usize) < production.len() {
            if is_nullable(g, &production[idx as usize]) {
                let len = offsets.len();
                let ghost old_offsets = offsets@;
                offsets.push(len as u8 + initial_len);
                assert(offsets@ =~= initial_offset@ + Seq::new(
                    (offsets@.len() - l0) as nat,
                    |j: int| (il + l0 + j) as u8,
                ));
                break_loop = false;
            }
        }
        if break_loop {
            assert(solid_run(g@, pv, (start_index + offsets@.len()) as nat) == 0);
            break ;
        }
    }
    offsets
}

// ---------------------------------------------------------------------------
// Productions with optional parts expanded
// ---------------------------------------------------------------------------

/// An atom at which a production splits in two: a symbol whose name holds `~`
/// (a name made for `?`, `*` or a group) and that has an empty production.
pub open spec fn split_point(g: Map<Seq<char>, Seq<GrammarItemV>>, a: AtomV) -> bool {
    a is Symbol && atom_name(a).contains('~') && nullable(g, a)
}

/// Every way of keeping or leaving out each split point of `p`: the productions
/// that keep the last split point come before those that leave it out.
pub open spec fn real_productions(g: Map<Seq<char>, Seq<GrammarItemV>>, p: Seq<AtomV>) -> Seq<
    Seq<AtomV>,
>
    decreases p.len(),
{
    if p.len() == 0 {
        seq![Seq::<AtomV>::empty()]
    } else {
        let prev = real_productions(g, p.drop_last());
        let a = p.last();
        let ext = prev.map_values(|r: Seq<AtomV>| r.push(a));
        if split_point(g, a) {
            ext + prev
        } else {
            ext
        }
    }
}

/// The abstract values of a sequence of productions.
pub open spec fn prods_view(s: Seq<Vec<Atom>>) -> Seq<Seq<AtomV>> {
    s.map_values(|v: Vec<Atom>| atoms_view(v@))
}

/// Whether `a` is a split point of a production.
fn is_split_point(g: &GrammarMap, a: &Atom) -> (res: bool)
    requires
        g.wf(),
    ensures
        res == split_point(g@, a@),
{
    match a {
        Atom::Symbol(x) => str_contains_char(x.as_str(), '~') && is_nullable(g, a),
        Atom::Terminal(_) => false,
    }
}

/// The productions that a production stands for when each of its split points
/// may be kept or left out.
fn get_real_productions(g: &GrammarMap, production: &Vec<Atom>) -> (res: Vec<Vec<Atom>>)
    requires
        g.wf(),
    ensures
        prods_view(res@) == real_productions(g@, atoms_view(production@)),
{
    let ghost pv = atoms_view(production@);
    let mut ret: Vec<Vec<Atom>> = Vec::new();
    ret.push(Vec::new());
    proof {
        assert(pv.take(0) =~= Seq::<AtomV>::empty());
        assert(atoms_view(ret@[0]@) =~= Seq::<AtomV>::empty());
        assert(prods_view(ret@) =~= real_productions(g@, pv.take(0)));
    }
    let mut i: usize = 0;
    while i < production.len()
        invariant
            g.wf(),
            i <= production@.len(),
            pv == atoms_view(production@),
            prods_view(ret@) == real_productions(g@, pv.take(i as int)),
        decreases production.len() - i,
    {
        let item = &production[i];
        let split = is_split_point(g, item);
        let mut ext: Vec<Vec<Atom>> = Vec::new();
        let mut k: usize = 0;
        while k < ret.len()
            invariant
                k <= ret@.len(),
                i < production@.len(),
                item@ == atoms_view(production@)[i as int],
                ext@.len() == k,
                forall|j: int|
                    0 <= j < k ==> atoms_view((#[trigger] ext@[j])@) == atoms_view(
                        ret@[j]@,
                    ).push(item@),
            decreases ret.len() - k,
        {
            let mut r = copy_atoms(&ret[k]);
            r.push(item.clone());
            assert(atoms_view(r@) =~= atoms_view(ret@[k as int]@).push(item@));
            ext.push(r);
            k += 1;
        }
        proof {
            let prev = real_productions(g@, pv.take(i as int));
            assert(pv.take(i + 1).drop_last() =~= pv.take(i as int));
            assert(pv.take(i + 1).last() == item@);
            assert(prods_view(ext@) =~= prev.map_values(|r: Seq<AtomV>| r.push(item@)));
        }
        if split {
            ext.append(&mut ret);
        }
        ret = ext;
        i += 1;
    }
    assert(pv.take(production@.len() as int) =~= pv);
    ret
}

} // verus!

verus! {

// ---------------------------------------------------------------------------
// First terminals of an atom
// ---------------------------------------------------------------------------

/// `o` is a position of `p` at which a first terminal may be looked for: the
/// first position, or one reached past the nullable atoms that follow it.
pub open spec fn first_offset(g: Map<Seq<char>, Seq<GrammarItemV>>, p: Seq<AtomV>, o: int) -> bool {
    0 <= o < p.len() && o <= solid_run(g, p, 1) + 1
}

/// `b` is one step from `a` when looking for first terminals: `a` is a symbol
/// and `b` stands at a first offset of one of its productions.
pub open spec fn first_edge(g: Map<Seq<char>, Seq<GrammarItemV>>, a: AtomV, b: AtomV) -> bool {
    &&& a is Symbol
    &&& g.dom().contains(atom_name(a))
    &&& exists|i: int, o: int|
        0 <= i < g[atom_name(a)].len() && first_offset(g, g[atom_name(a)][i].production, o)
            && #[trigger] g[atom_name(a)][i].production[o] == b
}

/// A chain of first steps.
pub open spec fn first_path(g: Map<Seq<char>, Seq<GrammarItemV>>, p: Seq<AtomV>) -> bool {
    &&& p.len() >= 1
    &&& forall|k: int| 0 <= k < p.len() - 1 ==> #[trigger] first_edge(g, p[k], p[k + 1])
}

/// `b` is reached from `a` by first steps.
pub open spec fn first_reach(g: Map<Seq<char>, Seq<GrammarItemV>>, a: AtomV, b: AtomV) -> bool {
    exists|p: Seq<AtomV>| #[trigger] first_path(g, p) && p[0] == a && p.last() == b
}

/// The terminals that `a` may begin with.
pub open spec fn first_set(g: Map<Seq<char>, Seq<GrammarItemV>>, a: AtomV) -> Set<AtomV> {
    Set::new(|t: AtomV| t is Terminal && first_reach(g, a, t))
}

proof fn lemma_first_reach_refl(g: Map<Seq<char>, Seq<GrammarItemV>>, a: AtomV)
    ensures
        first_reach(g, a, a),
{
    let p = seq![a];
    assert(first_path(g, p));
}

proof fn lemma_first_reach_step(g: Map<Seq<char>, Seq<GrammarItemV>>, a: AtomV, x: AtomV, y: AtomV)
    requires
        first_reach(g, a, x),
        first_edge(g, x, y),
    ensures
        first_reach(g, a, y),
{
    let p = choose|p: Seq<AtomV>| #[trigger] first_path(g, p) && p[0] == a && p.last() == x;
    let q = p.push(y);
    assert forall|k: int| 0 <= k < q.len() - 1 implies #[trigger] first_edge(g, q[k], q[k + 1]) by {
        if k < p.len() - 1 {
            assert(q[k] == p[k] && q[k + 1] == p[k + 1]);
        } else {
            assert(q[k] == x && q[k + 1] == y);
        }
    }
    assert(first_path(g, q));
}

/// Along a chain of first steps that starts in a closed set, every atom is in the set.
proof fn lemma_first_path_in(g: Map<Seq<char>, Seq<GrammarItemV>>, e: Set<AtomV>, p: Seq<AtomV>, k: int)
    requires
        first_path(g, p),
        e.contains(p[0]),
        forall|x: AtomV, y: AtomV| e.contains(x) && #[trigger] first_edge(g, x, y) ==> e.contains(y),
        0 <= k < p.len(),
    ensures
        e.contains(p[k]),
    decreases k,
{
    if k > 0 {
        lemma_first_path_in(g, e, p, k - 1);
        let j = k - 1;
        assert(first_edge(g, p[j], p[j + 1]));
    }
}

/// A set that holds `a` and is closed under first steps holds all that `a` reaches.
proof fn lemma_first_closed(g: Map<Seq<char>, Seq<GrammarItemV>>, e: Set<AtomV>, a: AtomV, b: AtomV)
    requires
        e.contains(a),
        forall|x: AtomV, y: AtomV| e.contains(x) && #[trigger] first_edge(g, x, y) ==> e.contains(y),
        first_reach(g, a, b),
    ensures
        e.contains(b),
{
    let p = choose|p: Seq<AtomV>| #[trigger] first_path(g, p) && p[0] == a && p.last() == b;
    lemma_first_path_in(g, e, p, p.len() - 1);
}

/// The abstract values of a set of atoms held in a vector.
pub open spec fn atom_set(v: Seq<Atom>) -> Set<AtomV> {
    atoms_view(v).to_set()
}

/// Whether some atom of `v` equals `a`.
fn contains_atom(v: &Vec<Atom>, a: &Atom) -> (res: bool)
    ensures
        res == atom_set(v@).contains(a@),
{
    let mut i: usize = 0;
    while i < v.len()
        invariant
            i <= v@.len(),
            forall|j: int| 0 <= j < i ==> v@[j]@ != a@,
        decreases v.len() - i,
    {
        if atom_eq(&v[i], a) {
            assert(atoms_view(v@)[i as int] == a@);
            return true;
        }
        i += 1;
    }
    assert forall|j: int| 0 <= j < atoms_view(v@).len() implies atoms_view(v@)[j] != a@ by {
        assert(atoms_view(v@)[j] == v@[j]@);
    }
    false
}

/// Pushes `a` on both `symbols` and `expanded` unless `expanded` holds it already.
fn push_unseen(symbols: &mut Vec<Atom>, expanded: &mut Vec<Atom>, a: &Atom)
    ensures
        atom_set(old(expanded)@).contains(a@) ==> final(symbols)@ == old(symbols)@
            && final(expanded)@ == old(expanded)@,
        !atom_set(old(expanded)@).contains(a@) ==> atoms_view(final(symbols)@) == atoms_view(old(symbols)@).push(a@)
            && atoms_view(final(expanded)@) == atoms_view(old(expanded)@).push(a@),
{
    if !contains_atom(expanded, a) {
        symbols.push(a.clone());
        expanded.push(a.clone());
        assert(atoms_view(symbols@) =~= atoms_view(old(symbols)@).push(a@));
        assert(atoms_view(expanded@) =~= atoms_view(old(expanded)@).push(a@));
    }
}

/// The atoms that `ev` holds beyond its prefix `e0` are first steps of `a`,
/// none of them in `e0`, and no two of them equal.
pub open spec fn fresh_steps(
    g: Map<Seq<char>, Seq<GrammarItemV>>,
    a: AtomV,
    e0: Seq<AtomV>,
    ev: Seq<AtomV>,
) -> bool {
    &&& forall|j: int| e0.len() <= j < ev.len() ==> first_edge(g, a, #[trigger] ev[j])
    &&& forall|j: int| e0.len() <= j < ev.len() ==> !e0.contains(#[trigger] ev[j])
    &&& forall|i: int, j: int| e0.len() <= i < j < ev.len() ==> ev[i] != ev[j]
}

/// Pushes each first step of the symbol `a` that `expanded` does not hold yet
/// on both `symbols` and `expanded`.
fn expand_first_steps(
    g: &GrammarMap,
    items: &Vec<GrammarItem>,
    a: &Atom,
    symbols: &mut Vec<Atom>,
    expanded: &mut Vec<Atom>,
)
    requires
        g.wf(),
        a@ is Symbol,
        g@.dom().contains(atom_name(a@)),
        items_view(items@) == g@[atom_name(a@)],
        forall|i: int| 0 <= i < g@[atom_name(a@)].len() ==> (#[trigger] g@[atom_name(a@)][i]).production.len() <= 255,
    ensures
        atoms_view(final(expanded)@).take(old(expanded)@.len() as int) == atoms_view(old(expanded)@),
        old(expanded)@.len() <= final(expanded)@.len(),
        atoms_view(final(symbols)@) == atoms_view(old(symbols)@) + atoms_view(final(expanded)@).skip(old(expanded)@.len() as int),
        fresh_steps(g@, a@, atoms_view(old(expanded)@), atoms_view(final(expanded)@)),
        forall|y: AtomV| first_edge(g@, a@, y) ==> #[trigger] atom_set(final(expanded)@).contains(y),
        atoms_view(final(expanded)@) == add_rules(g@, g@[atom_name(a@)], atoms_view(old(expanded)@)),
{
    let ghost e0 = atoms_view(expanded@);
    let ghost s0 = atoms_view(symbols@);
    let ghost gk = g@[atom_name(a@)];
    assert(atoms_view(expanded@).take(e0.len() as int) =~= e0);
    assert(atoms_view(expanded@).skip(e0.len() as int) =~= Seq::<AtomV>::empty());
    assert(atoms_view(symbols@) =~= s0 + atoms_view(expanded@).skip(e0.len() as int));
    assert(gk.take(0) =~= Seq::<GrammarItemV>::empty());
    let mut gi: usize = 0;
    while gi < items.len()
        invariant
            g.wf(),
            gk == g@[atom_name(a@)],
            forall|i: int| 0 <= i < gk.len() ==> (#[trigger] gk[i]).production.len() <= 255,
            a@ is Symbol,
            g@.dom().contains(atom_name(a@)),
            items_view(items@) == gk,
            gi <= items@.len(),
            atoms_view(expanded@).take(e0.len() as int) == e0,
            e0.len() <= expanded@.len(),
            atoms_view(symbols@) == s0 + atoms_view(expanded@).skip(e0.len() as int),
            fresh_steps(g@, a@, e0, atoms_view(expanded@)),
            forall|i: int, o: int|
                0 <= i < gi && first_offset(g@, gk[i].production, o) ==> atom_set(
                    expanded@,
                ).contains(#[trigger] gk[i].production[o]),
            atoms_view(expanded@) == add_rules(g@, gk.take(gi as int), e0),
        decreases items.len() - gi,
    {
        let prod = &items[gi].production;
        let ghost pv = atoms_view(prod@);
        assert(gk[gi as int] == items@[gi as int]@);
        assert(pv.len() <= 255);
        let mut offsets = find_solid_indexes(g, prod, 0, vec![0u8]);
        proof {
            lemma_solid_run_bound(g@, pv, 1);
        }
        let offsets_len = offsets.len();
        offsets.push(offsets_len as u8);
        let ghost run = solid_run(g@, pv, 1);
        proof {
            lemma_solid_run_bound(g@, pv, 1);
        }
        assert(offsets@.len() == run + 2);
        assert forall|k: int| 0 <= k < offsets@.len() implies offsets@[k] == k by {
            if k == 0 {
            } else if k <= run {
                assert(offsets@[k] == (0 + 1 + (k - 1)) as u8);
            } else {
            }
        }
        let mut k: usize = 0;
        while k < offsets.len()
            invariant
                g.wf(),
                gk == g@[atom_name(a@)],
                a@ is Symbol,
                g@.dom().contains(atom_name(a@)),
                items_view(items@) == gk,
                gi < items@.len(),
                pv == atoms_view(prod@),
                gk[gi as int].production == pv,
                prod == &items@[gi as int].production,
                run == solid_run(g@, pv, 1),
                offsets@.len() == run + 2,
                forall|j: int| 0 <= j < offsets@.len() ==> offsets@[j] == j,
                k <= offsets@.len(),
                atoms_view(expanded@).take(e0.len() as int) == e0,
                e0.len() <= expanded@.len(),
                atoms_view(symbols@) == s0 + atoms_view(expanded@).skip(e0.len() as int),
                fresh_steps(g@, a@, e0, atoms_view(expanded@)),
                forall|i: int, o: int|
                    0 <= i < gi && first_offset(g@, gk[i].production, o) ==> atom_set(
                        expanded@,
                    ).contains(#[trigger] gk[i].production[o]),
                forall|o: int|
                    0 <= o < k && first_offset(g@, pv, o) ==> atom_set(expanded@).contains(
                        #[trigger] pv[o],
                    ),
                atoms_view(expanded@) == add_offsets(pv, add_rules(g@, gk.take(gi as int), e0), k as nat),
            decreases offsets.len() - k,
        {
            let offset = offsets[k];
            if (offset as usize) < prod.len() {
                let x = &prod[offset as usize];
                let ghost ev = atoms_view(expanded@);
                let ghost sv = atoms_view(symbols@);
                assert(x@ == pv[offset as int]);
                assert(first_offset(g@, pv, offset as int));
                assert(first_edge(g@, a@, x@));
                push_unseen(symbols, expanded, x);
                proof {
                    let ev2 = atoms_view(expanded@);
                    assert(atom_set(expanded@).contains(x@) == ev.contains(x@) || true);
                    assert(ev2 == add_new(ev, x@)) by {
                        if ev.contains(x@) {
                            let m = choose|m: int| 0 <= m < ev.len() && ev[m] == x@;
                            assert(ev.to_set().contains(x@));
                        }
                    }
                    assert(add_offsets(pv, add_rules(g@, gk.take(gi as int), e0), (k + 1) as nat) == add_new(
                        ev, pv[k as int]));
                    if ev2 != ev {
                        assert(ev2 == ev.push(x@));
                        assert(ev2.take(e0.len() as int) =~= ev.take(e0.len() as int));
                        assert(ev2.skip(e0.len() as int) =~= ev.skip(e0.len() as int).push(
                            x@,
                        ));
                        assert(atoms_view(symbols@) =~= s0 + ev2.skip(e0.len() as int));
                        assert(!ev.contains(x@));
                        assert forall|y: AtomV| ev.to_set().contains(y) implies ev2.to_set().contains(y) by {
                            let j = choose|j: int| 0 <= j < ev.len() && ev[j] == y;
                            assert(ev2[j] == y);
                        }
                        assert(ev2[ev.len() as int] == x@);
                        assert forall|j: int| e0.len() <= j < ev2.len() implies !e0.contains(#[trigger] ev2[j]) by {
                            if j < ev.len() {
                                assert(ev2[j] == ev[j]);
                            } else {
                                if e0.contains(x@) {
                                    let m = choose|m: int| 0 <= m < e0.len() && e0[m] == x@;
                                    assert(ev[m] == x@);
                                }
                            }
                        }
                        assert forall|j: int| e0.len() <= j < ev2.len() implies first_edge(g@, a@, #[trigger] ev2[j]) by {
                            if j < ev.len() {
                                assert(ev2[j] == ev[j]);
                            }
                        }
                        assert forall|i: int, j: int| e0.len() <= i < j < ev2.len() implies ev2[i] != ev2[j] by {
                            if j == ev.len() {
                                assert(ev2[i] == ev[i]);
                            } else {
                                assert(ev2[i] == ev[i] && ev2[j] == ev[j]);
                            }
                        }
                    }
                    assert(atom_set(expanded@).contains(x@)) by {
                        if ev2 == ev {
                        } else {
                            assert(ev2[ev.len() as int] == x@);
                        }
                    }
                    assert forall|i: int, o: int|
                        0 <= i < gi && first_offset(g@, gk[i].production, o) implies atom_set(
                        expanded@,
                    ).contains(#[trigger] gk[i].production[o]) by {
                        let y = gk[i].production[o];
                        assert(ev.to_set().contains(y));
                        let j = choose|j: int| 0 <= j < ev.len() && ev[j] == y;
                        assert(ev2[j] == y);
                    }
                    assert forall|o: int|
                        0 <= o < k + 1 && first_offset(g@, pv, o) implies atom_set(
                        expanded@,
                    ).contains(#[trigger] pv[o]) by {
                        if o < k {
                            let y = pv[o];
                            assert(ev.to_set().contains(y));
                            let j = choose|j: int| 0 <= j < ev.len() && ev[j] == y;
                            assert(ev2[j] == y);
                        } else {
                            assert(o == offset);
                        }
                    }
                }
            } else {
                assert forall|o: int|
                    0 <= o < k + 1 && first_offset(g@, pv, o) implies atom_set(
                    expanded@,
                ).contains(#[trigger] pv[o]) by {
                    if o == k {
                        assert(o == offset);
                    }
                }
                assert(add_offsets(pv, add_rules(g@, gk.take(gi as int), e0), (k + 1) as nat) == add_offsets(
                    pv, add_rules(g@, gk.take(gi as int), e0), k as nat));
            }
            k += 1;
        }
        gi += 1;
        proof {
            assert(gk.take(gi as int).drop_last() =~= gk.take(gi - 1));
            assert(gk.take(gi as int).last() == gk[gi - 1]);
            assert(atoms_view(expanded@) == add_rules(g@, gk.take(gi as int), e0));
            assert forall|i: int, o: int|
                0 <= i < gi && first_offset(g@, gk[i].production, o) implies atom_set(
                expanded@,
            ).contains(#[trigger] gk[i].production[o]) by {
                if i == gi - 1 {
                    assert(gk[i].production == pv);
                    assert(first_offset(g@, pv, o));
                    assert(o <= run + 1);
                }
            }
        }
    }
    assert(gk.take(gk.len() as int) =~= gk);
    assert forall|y: AtomV| first_edge(g@, a@, y) implies #[trigger] atom_set(expanded@).contains(y) by {
        let (i, o) = choose|i: int, o: int|
            0 <= i < gk.len() && first_offset(g@, gk[i].production, o)
                && #[trigger] gk[i].production[o] == y;
        assert(atom_set(expanded@).contains(gk[i].production[o]));
    }
}

} // verus!

verus! {

/// `x` has been dealt with while gathering first terminals: a terminal is among
/// the results, and every first step of a symbol is among the atoms seen.
pub open spec fn first_processed(
    g: Map<Seq<char>, Seq<GrammarItemV>>,
    x: AtomV,
    seen: Set<AtomV>,
    found: Seq<AtomV>,
) -> bool {
    &&& x is Terminal ==> found.contains(x)
    &&& x is Symbol ==> forall|y: AtomV| #[trigger] first_edge(g, x, y) ==> seen.contains(y)
}

/// `x` is `a` or among the atoms seen.
pub open spec fn first_tracked(seen: Set<AtomV>, a: AtomV, x: AtomV) -> bool {
    seen.contains(x) || x == a
}

/// The terminals that `symbol` may begin with, each once.
fn get_first(g: &GrammarMap, symbol: &Atom, u: Ghost<Set<AtomV>>) -> (res: Vec<Atom>)
    requires
        g.wf(),
        rules_in(g@, u@),
        rules_at_most(g@, u@, 255),
        u@.contains(symbol@),
    ensures
        atoms_view(res@).no_duplicates(),
        atom_set(res@) == first_set(g@, symbol@),
        atoms_view(res@) == first_list(g@, symbol@),
{
    let ghost a = symbol@;
    let ghost mut steps: nat = 0;
    let mut ret: Vec<Atom> = Vec::new();
    let mut symbols: Vec<Atom> = Vec::new();
    symbols.push(symbol.clone());
    let mut expanded: Vec<Atom> = Vec::new();
    proof {
        lemma_first_reach_refl(g@, a);
        assert(atoms_view(symbols@) =~= seq![a]);
    }
    loop
        invariant
            g.wf(),
            rules_in(g@, u@),
            rules_at_most(g@, u@, 255),
            u@.contains(a),
            a == symbol@,
            forall|f: nat|
                #[trigger] first_run(g@, atoms_view(symbols@), atoms_view(expanded@), atoms_view(ret@), f)
                    == first_run(g@, seq![a], Seq::empty(), Seq::empty(), f + steps),
            forall|i: int|
                0 <= i < symbols@.len() ==> first_reach(g@, a, #[trigger] atoms_view(symbols@)[i]),
            forall|i: int|
                0 <= i < expanded@.len() ==> first_reach(g@, a, #[trigger] atoms_view(expanded@)[i]),
            forall|i: int|
                0 <= i < ret@.len() ==> (#[trigger] atoms_view(ret@)[i]) is Terminal && first_reach(
                    g@,
                    a,
                    atoms_view(ret@)[i],
                ),
            atoms_view(ret@).no_duplicates(),
            forall|x: AtomV|
                #[trigger] first_tracked(atom_set(expanded@), a, x) ==> atom_set(
                    symbols@,
                ).contains(x) || first_processed(g@, x, atom_set(expanded@), atoms_view(ret@)),
            forall|i: int|
                0 <= i < symbols@.len() ==> #[trigger] atoms_view(symbols@)[i] == a || atom_set(
                    expanded@,
                ).contains(atoms_view(symbols@)[i]),
            forall|i: int|
                0 <= i < ret@.len() ==> #[trigger] atoms_view(ret@)[i] == a || atom_set(
                    expanded@,
                ).contains(atoms_view(ret@)[i]),
            forall|i: int|
                0 <= i < symbols@.len() && (#[trigger] atoms_view(symbols@)[i]) is Terminal
                    ==> !atoms_view(ret@).contains(atoms_view(symbols@)[i]),
            forall|i: int, j: int|
                0 <= i < j < symbols@.len() && #[trigger] atoms_view(symbols@)[i]
                    == #[trigger] atoms_view(symbols@)[j] ==> atoms_view(symbols@)[i] is Symbol,
            a is Terminal ==> expanded@.len() == 0,
        ensures
            symbols@.len() == 0,
        decreases usize::MAX - expanded@.len(), symbols@.len(),
    {
        let ghost s_old = atoms_view(symbols@);
        let ghost e_old = atoms_view(expanded@);
        let ghost r_old = atoms_view(ret@);
        let current = match symbols.pop() {
            Some(x) => x,
            None => break ,
        };
        let ghost x = current@;
        let ghost s_rest = atoms_view(symbols@);
        assert(s_rest =~= s_old.drop_last());
        assert(s_old[s_old.len() - 1] == x);
        assert(first_reach(g@, a, x));
        match &current {
            Atom::Symbol(name) => {
                match g.get(name) {
                    Some(items) => {
                        proof {
                            lemma_rules_first_closed(g@, u@);
                            lemma_first_closed(g@, u@, a, x);
                            assert forall|i: int| 0 <= i < g@[atom_name(x)].len() implies (#[trigger] g@[atom_name(x)][i]).production.len() <= 255 by {
                                assert(u@.contains(x));
                            }
                        }
                        expand_first_steps(g, items, &current, &mut symbols, &mut expanded);
                        assert(forall|y: AtomV|
                            first_edge(g@, x, y) ==> #[trigger] atom_set(expanded@).contains(y));
                    },
                    None => {
                        assert(!g@.dom().contains(atom_name(x)));
                        assert(forall|y: AtomV| !#[trigger] first_edge(g@, x, y));
                    },
                }
            },
            Atom::Terminal(_) => {
                ret.push(current.clone());
                assert(atoms_view(ret@) =~= r_old.push(x));
            },
        }
        let _ = expanded.len();
        proof {
            let s_new = atoms_view(symbols@);
            let e_new = atoms_view(expanded@);
            let r_new = atoms_view(ret@);
            let added = e_new.skip(e_old.len() as int);
            // the symbols left are the old ones without the last, then the added atoms
            assert(s_new == s_rest + added);
            assert(e_new.take(e_old.len() as int) == e_old);
            assert forall|y: AtomV| e_old.to_set().contains(y) implies e_new.to_set().contains(y) by {
                let j = choose|j: int| 0 <= j < e_old.len() && e_old[j] == y;
                assert(e_new[j] == y);
            }
            assert forall|i: int| 0 <= i < added.len() implies #[trigger] added[i] == e_new[e_old.len() + i] by {}
            if x is Terminal {
                assert(e_new == e_old);
                assert(added.len() == 0);
            }
            if x is Symbol {
                assert(r_new == r_old);
            }
            // reachability
            assert forall|i: int| 0 <= i < e_new.len() implies first_reach(g@, a, #[trigger] e_new[i]) by {
                if i < e_old.len() {
                    assert(e_new[i] == e_old[i]);
                } else {
                    lemma_first_reach_step(g@, a, x, e_new[i]);
                }
            }
            assert forall|i: int| 0 <= i < s_new.len() implies first_reach(g@, a, #[trigger] s_new[i]) by {
                if i < s_rest.len() {
                    assert(s_new[i] == s_old[i]);
                } else {
                    assert(s_new[i] == e_new[e_old.len() + (i - s_rest.len())]);
                }
            }
            // the atoms on the stack are `a` or seen
            assert forall|i: int| 0 <= i < s_new.len() implies #[trigger] s_new[i] == a || e_new.to_set().contains(s_new[i]) by {
                if i < s_rest.len() {
                    assert(s_new[i] == s_old[i]);
                } else {
                    let j = e_old.len() + (i - s_rest.len());
                    assert(s_new[i] == e_new[j]);
                }
            }
            assert forall|i: int| 0 <= i < r_new.len() implies #[trigger] r_new[i] == a || e_new.to_set().contains(r_new[i]) by {
                if i < r_old.len() {
                    assert(r_new[i] == r_old[i]);
                } else {
                    assert(r_new[i] == x);
                    assert(x == a || e_old.to_set().contains(x));
                }
            }
            // terminals on the stack are not among the results
            assert forall|i: int| 0 <= i < s_new.len() && (#[trigger] s_new[i]) is Terminal implies !r_new.contains(s_new[i]) by {
                if i < s_rest.len() {
                    assert(s_new[i] == s_old[i]);
                    if x is Terminal && s_new[i] == x {
                        assert(s_old[i] == s_old[s_old.len() - 1]);
                    }
                    if r_new.contains(s_new[i]) {
                        let j = choose|j: int| 0 <= j < r_new.len() && r_new[j] == s_new[i];
                        if j < r_old.len() {
                            assert(r_old[j] == s_new[i]);
                        }
                    }
                } else {
                    let j = e_old.len() + (i - s_rest.len());
                    assert(s_new[i] == e_new[j]);
                    assert(!e_old.contains(e_new[j]));
                    assert(x is Symbol);
                    if r_new.contains(s_new[i]) {
                        let m = choose|m: int| 0 <= m < r_new.len() && r_new[m] == s_new[i];
                        assert(r_old[m] == a || e_old.to_set().contains(r_old[m]));
                        assert(a is Symbol);
                    }
                }
            }
            // terminals occur once on the stack
            assert forall|i: int, j: int| 0 <= i < j < s_new.len() && #[trigger] s_new[i] == #[trigger] s_new[j] implies s_new[i] is Symbol by {
                if j < s_rest.len() {
                    assert(s_new[i] == s_old[i] && s_new[j] == s_old[j]);
                } else if i < s_rest.len() {
                    let jj = e_old.len() + (j - s_rest.len());
                    assert(s_new[j] == e_new[jj]);
                    assert(!e_old.contains(e_new[jj]));
                    assert(s_new[i] == s_old[i]);
                    if s_new[i] is Terminal {
                        assert(s_old[i] == a || e_old.to_set().contains(s_old[i]));
                        assert(a is Symbol);
                    }
                } else {
                    let ii = e_old.len() + (i - s_rest.len());
                    let jj = e_old.len() + (j - s_rest.len());
                    assert(s_new[i] == e_new[ii] && s_new[j] == e_new[jj]);
                }
            }
            assert(r_new.no_duplicates()) by {
                if x is Terminal {
                    assert(!r_old.contains(x));
                    assert forall|i: int, j: int| 0 <= i < j < r_new.len() implies r_new[i] != r_new[j] by {
                        if j == r_old.len() {
                            assert(r_new[i] == r_old[i]);
                        } else {
                            assert(r_new[i] == r_old[i] && r_new[j] == r_old[j]);
                        }
                    }
                }
            }
            // every atom seen is on the stack or dealt with
            assert forall|z: AtomV| #[trigger] first_tracked(e_new.to_set(), a, z) implies s_new.to_set().contains(z)
                || first_processed(g@, z, e_new.to_set(), r_new) by {
                if z == x {
                    if x is Terminal {
                        assert(r_new[r_new.len() - 1] == x);
                        assert(first_processed(g@, z, e_new.to_set(), r_new));
                    } else {
                        assert forall|y: AtomV| #[trigger] first_edge(g@, z, y) implies e_new.to_set().contains(y) by {
                            assert(atom_set(expanded@).contains(y));
                        }
                        assert(first_processed(g@, z, e_new.to_set(), r_new));
                    }
                } else if e_old.to_set().contains(z) || z == a {
                    assert(first_tracked(e_old.to_set(), a, z));
                    if s_old.to_set().contains(z) {
                        let j = choose|j: int| 0 <= j < s_old.len() && s_old[j] == z;
                        assert(j < s_rest.len());
                        assert(s_new[j] == z);
                    } else {
                        assert(first_processed(g@, z, e_old.to_set(), r_old));
                        if z is Terminal {
                            let j = choose|j: int| 0 <= j < r_old.len() && r_old[j] == z;
                            assert(r_new[j] == z);
                        } else {
                            assert forall|y: AtomV| #[trigger] first_edge(g@, z, y) implies e_new.to_set().contains(y) by {
                                assert(e_old.to_set().contains(y));
                            }
                        }
                        assert(first_processed(g@, z, e_new.to_set(), r_new));
                    }
                } else {
                    let j = choose|j: int| 0 <= j < e_new.len() && e_new[j] == z;
                    if j < e_old.len() {
                        assert(e_old[j] == z);
                    }
                    let i = s_rest.len() + (j - e_old.len());
                    assert(s_new[i] == z);
                    assert(s_new.to_set().contains(z));
                }
            }
            if a is Terminal {
                assert(x == a);
            }
        }
        proof {
            let s_new = atoms_view(symbols@);
            let e_new = atoms_view(expanded@);
            let r_new = atoms_view(ret@);
            assert(s_old.last() == x);
            assert(s_old.drop_last() == s_rest);
            assert forall|f: nat| #[trigger] first_run(g@, s_new, e_new, r_new, f) == first_run(
                g@, seq![a], Seq::empty(), Seq::empty(), f + (steps + 1)) by {
                assert(first_run(g@, s_old, e_old, r_old, f + 1) == first_run(
                    g@, seq![a], Seq::empty(), Seq::empty(), (f + 1) + steps));
                match x {
                    AtomV::Symbol(n) => {
                        if g@.dom().contains(n) {
                            assert(e_new == add_rules(g@, g@[n], e_old));
                            assert(s_new == s_rest + e_new.skip(e_old.len() as int));
                        } else {
                            assert(s_new == s_rest);
                            assert(e_new == e_old);
                        }
                    },
                    AtomV::Terminal(_) => {},
                }
            }
            steps = steps + 1;
        }
    }
    proof {
        assert(first_run(g@, atoms_view(symbols@), atoms_view(expanded@), atoms_view(ret@), 1) == Some(
            atoms_view(ret@),
        ));
        lemma_first_list(g@, a, 1 + steps);
        let e = atoms_view(expanded@).to_set().insert(a);
        let r = atoms_view(ret@);
        assert forall|x: AtomV, y: AtomV| e.contains(x) && #[trigger] first_edge(g@, x, y) implies e.contains(y) by {
            assert(first_tracked(atom_set(expanded@), a, x));
            assert(first_processed(g@, x, atom_set(expanded@), r));
        }
        assert forall|t: AtomV| first_set(g@, a).contains(t) implies atom_set(ret@).contains(t) by {
            lemma_first_closed(g@, e, a, t);
            assert(first_tracked(atom_set(expanded@), a, t));
            assert(first_processed(g@, t, atom_set(expanded@), r));
        }
        assert forall|t: AtomV| atom_set(ret@).contains(t) implies first_set(g@, a).contains(t) by {
            let j = choose|j: int| 0 <= j < r.len() && r[j] == t;
        }
        assert(atom_set(ret@) =~= first_set(g@, a));
    }
    ret
}

} // verus!

verus! {

// ---------------------------------------------------------------------------
// LR(1) items and their closure
// ---------------------------------------------------------------------------

/// The abstract value of an LR(1) item.
pub struct LRItemV {
    pub stacktop: u8,
    pub terminal: AtomV,
    pub symbol: AtomV,
    pub production: Seq<AtomV>,
}

/// An LR(1) item: the rule `symbol -> production` with the dot before position
/// `stacktop`, and the lookahead `terminal`.
#[derive(Debug, PartialEq, Eq, Hash, PartialOrd, Ord)]
pub struct LRItem {
    pub stacktop: u8,
    pub terminal: Atom,
    pub symbol: Atom,
    pub production: Vec<Atom>,
}

impl View for LRItem {
    type V = LRItemV;

    open spec fn view(&self) -> LRItemV {
        LRItemV {
            stacktop: self.stacktop,
            terminal: self.terminal@,
            symbol: self.symbol@,
            production: atoms_view(self.production@),
        }
    }
}

impl Clone for LRItem {
    fn clone(&self) -> (res: Self)
        ensures
            res@ == self@,
    {
        LRItem {
            stacktop: self.stacktop,
            terminal: self.terminal.clone(),
            symbol: self.symbol.clone(),
            production: copy_atoms(&self.production),
        }
    }
}

/// The abstract values of a sequence of items.
pub open spec fn lr_view(s: Seq<LRItem>) -> Seq<LRItemV> {
    s.map_values(|x: LRItem| x@)
}

/// The abstract values of the items held in a vector, as a set.
pub open spec fn lr_set(s: Seq<LRItem>) -> Set<LRItemV> {
    lr_view(s).to_set()
}

/// Whether two items are equal.
pub fn lr_item_eq(a: &LRItem, b: &LRItem) -> (res: bool)
    ensures
        res == (a@ == b@),
{
    a.stacktop == b.stacktop && atom_eq(&a.terminal, &b.terminal) && atom_eq(&a.symbol, &b.symbol)
        && atoms_eq(&a.production, &b.production)
}

/// Whether some item of `v` equals `x`.
fn contains_item(v: &Vec<LRItem>, x: &LRItem) -> (res: bool)
    ensures
        res == lr_set(v@).contains(x@),
{
    let mut i: usize = 0;
    while i < v.len()
        invariant
            i <= v@.len(),
            forall|j: int| 0 <= j < i ==> v@[j]@ != x@,
        decreases v.len() - i,
    {
        if lr_item_eq(&v[i], x) {
            assert(lr_view(v@)[i as int] == x@);
            return true;
        }
        i += 1;
    }
    assert forall|j: int| 0 <= j < lr_view(v@).len() implies lr_view(v@)[j] != x@ by {
        assert(lr_view(v@)[j] == v@[j]@);
    }
    false
}

/// The item fits the `u8` positions used for it: its dot and its production
/// stay below 255.
pub open spec fn item_fits(x: LRItemV) -> bool {
    x.stacktop <= 254 && x.production.len() <= 254
}

/// The cached first terminals are those of the symbol or of the terminal with
/// the cached name.
pub open spec fn wf_cache(g: Map<Seq<char>, Seq<GrammarItemV>>, c: Map<Seq<char>, Seq<AtomV>>) -> bool {
    forall|k: Seq<char>|
        #[trigger] c.dom().contains(k) ==> c[k].to_set() == first_set(g, AtomV::Symbol(k))
            || c[k].to_set() == first_set(g, AtomV::Terminal(k))
}

/// `t` is a lookahead of the items that the item `x` brings in: the first
/// terminals, as cached under its name, of an atom at or past the nullable atoms
/// right after the symbol after the dot, or the lookahead of `x` itself when
/// these reach the end of the production.
pub open spec fn lookahead(
    g: Map<Seq<char>, Seq<GrammarItemV>>,
    c: Map<Seq<char>, Seq<AtomV>>,
    x: LRItemV,
    t: AtomV,
) -> bool {
    exists|o: int|
        1 <= o <= solid_run(g, x.production, (x.stacktop + 1) as nat) + 1 && #[trigger] lookahead_at(
            g,
            c,
            x,
            o,
            t,
        )
}

/// `t` is a lookahead that the offset `o` past the dot of `x` gives.
pub open spec fn lookahead_at(
    g: Map<Seq<char>, Seq<GrammarItemV>>,
    c: Map<Seq<char>, Seq<AtomV>>,
    x: LRItemV,
    o: int,
    t: AtomV,
) -> bool {
    if x.stacktop + o < x.production.len() {
        c.dom().contains(atom_name(x.production[x.stacktop + o])) && c[atom_name(
            x.production[x.stacktop + o],
        )].contains(t)
    } else {
        t == x.terminal
    }
}

/// The cache holds every name that the lookaheads of `x` are looked up under.
pub open spec fn defined(
    g: Map<Seq<char>, Seq<GrammarItemV>>,
    c: Map<Seq<char>, Seq<AtomV>>,
    x: LRItemV,
) -> bool {
    forall|o: int|
        1 <= o <= solid_run(g, x.production, (x.stacktop + 1) as nat) + 1 && x.stacktop + o
            < x.production.len() ==> c.dom().contains(
            atom_name(#[trigger] x.production[x.stacktop + o]),
        )
}

/// `y` is brought into a closure by `x`: the atom after the dot of `x` names a
/// symbol of the grammar, and `y` is one of its rules, with a split point kept
/// or left out, the dot at the start, and a lookahead given by `x`.
pub open spec fn closure_edge(
    g: Map<Seq<char>, Seq<GrammarItemV>>,
    c: Map<Seq<char>, Seq<AtomV>>,
    x: LRItemV,
    y: LRItemV,
) -> bool {
    &&& x.stacktop < x.production.len()
    &&& g.dom().contains(atom_name(x.production[x.stacktop as int]))
    &&& y.stacktop == 0
    &&& lookahead(g, c, x, y.terminal)
    &&& exists|i: int|
        0 <= i < g[atom_name(x.production[x.stacktop as int])].len() && #[trigger] closure_rule(
            g,
            g[atom_name(x.production[x.stacktop as int])][i],
            y,
        )
}

/// `y` has the symbol of rule `r` and one of the productions it stands for.
pub open spec fn closure_rule(g: Map<Seq<char>, Seq<GrammarItemV>>, r: GrammarItemV, y: LRItemV) -> bool {
    y.symbol == r.symbol && real_productions(g, r.production).contains(y.production)
}

/// A chain of closure steps.
pub open spec fn closure_path(
    g: Map<Seq<char>, Seq<GrammarItemV>>,
    c: Map<Seq<char>, Seq<AtomV>>,
    p: Seq<LRItemV>,
) -> bool {
    &&& p.len() >= 1
    &&& forall|k: int| 0 <= k < p.len() - 1 ==> #[trigger] closure_edge(g, c, p[k], p[k + 1])
}

/// `y` is reached from `x` by closure steps.
pub open spec fn closure_reach(
    g: Map<Seq<char>, Seq<GrammarItemV>>,
    c: Map<Seq<char>, Seq<AtomV>>,
    x: LRItemV,
    y: LRItemV,
) -> bool {
    exists|p: Seq<LRItemV>| #[trigger] closure_path(g, c, p) && p[0] == x && p.last() == y
}

/// `y` is reached from some item of `k`.
pub open spec fn closure_reached(
    g: Map<Seq<char>, Seq<GrammarItemV>>,
    c: Map<Seq<char>, Seq<AtomV>>,
    k: Seq<LRItemV>,
    y: LRItemV,
) -> bool {
    exists|i: int| 0 <= i < k.len() && closure_reach(g, c, #[trigger] k[i], y)
}

/// The closure of the items `k`: all items reached from them.
pub open spec fn closure_set(
    g: Map<Seq<char>, Seq<GrammarItemV>>,
    c: Map<Seq<char>, Seq<AtomV>>,
    k: Seq<LRItemV>,
) -> Set<LRItemV> {
    Set::new(|y: LRItemV| closure_reached(g, c, k, y))
}

pub(crate) proof fn lemma_closure_reach_refl(
    g: Map<Seq<char>, Seq<GrammarItemV>>,
    c: Map<Seq<char>, Seq<AtomV>>,
    x: LRItemV,
)
    ensures
        closure_reach(g, c, x, x),
{
    assert(closure_path(g, c, seq![x]));
}

pub(crate) proof fn lemma_closure_reach_step(
    g: Map<Seq<char>, Seq<GrammarItemV>>,
    c: Map<Seq<char>, Seq<AtomV>>,
    a: LRItemV,
    x: LRItemV,
    y: LRItemV,
)
    requires
        closure_reach(g, c, a, x),
        closure_edge(g, c, x, y),
    ensures
        closure_reach(g, c, a, y),
{
    let p = choose|p: Seq<LRItemV>| #[trigger] closure_path(g, c, p) && p[0] == a && p.last() == x;
    let q = p.push(y);
    assert forall|k: int| 0 <= k < q.len() - 1 implies #[trigger] closure_edge(g, c, q[k], q[k + 1]) by {
        if k < p.len() - 1 {
            assert(q[k] == p[k] && q[k + 1] == p[k + 1]);
        } else {
            assert(q[k] == x && q[k + 1] == y);
        }
    }
    assert(closure_path(g, c, q));
}

/// A bigger cache keeps every closure step.
proof fn lemma_closure_edge_mono(
    g: Map<Seq<char>, Seq<GrammarItemV>>,
    c: Map<Seq<char>, Seq<AtomV>>,
    c2: Map<Seq<char>, Seq<AtomV>>,
    x: LRItemV,
    y: LRItemV,
)
    requires
        c.submap_of(c2),
        closure_edge(g, c, x, y),
    ensures
        closure_edge(g, c2, x, y),
{
    let o = choose|o: int|
        1 <= o <= solid_run(g, x.production, (x.stacktop + 1) as nat) + 1 && #[trigger] lookahead_at(
            g,
            c,
            x,
            o,
            y.terminal,
        );
    if x.stacktop + o < x.production.len() {
        let k = atom_name(x.production[x.stacktop + o]);
        assert(c2.dom().contains(k) && c2[k] == c[k]);
    }
    assert(lookahead_at(g, c2, x, o, y.terminal));
}

/// For an item whose lookups the cache holds, a bigger cache adds no closure step.
proof fn lemma_closure_edge_stable(
    g: Map<Seq<char>, Seq<GrammarItemV>>,
    c: Map<Seq<char>, Seq<AtomV>>,
    c2: Map<Seq<char>, Seq<AtomV>>,
    x: LRItemV,
    y: LRItemV,
)
    requires
        c.submap_of(c2),
        defined(g, c, x),
        closure_edge(g, c2, x, y),
    ensures
        closure_edge(g, c, x, y),
{
    let o = choose|o: int|
        1 <= o <= solid_run(g, x.production, (x.stacktop + 1) as nat) + 1 && #[trigger] lookahead_at(
            g,
            c2,
            x,
            o,
            y.terminal,
        );
    if x.stacktop + o < x.production.len() {
        let k = atom_name(x.production[x.stacktop + o]);
        assert(c.dom().contains(k));
        assert(c2[k] == c[k]);
    }
    assert(lookahead_at(g, c, x, o, y.terminal));
}

proof fn lemma_closure_reach_mono(
    g: Map<Seq<char>, Seq<GrammarItemV>>,
    c: Map<Seq<char>, Seq<AtomV>>,
    c2: Map<Seq<char>, Seq<AtomV>>,
    x: LRItemV,
    y: LRItemV,
)
    requires
        c.submap_of(c2),
        closure_reach(g, c, x, y),
    ensures
        closure_reach(g, c2, x, y),
{
    let p = choose|p: Seq<LRItemV>| #[trigger] closure_path(g, c, p) && p[0] == x && p.last() == y;
    assert forall|k: int| 0 <= k < p.len() - 1 implies #[trigger] closure_edge(g, c2, p[k], p[k + 1]) by {
        assert(closure_edge(g, c, p[k], p[k + 1]));
        lemma_closure_edge_mono(g, c, c2, p[k], p[k + 1]);
    }
    assert(closure_path(g, c2, p));
}

/// Along a chain of closure steps that starts in a closed set, every item is in the set.
proof fn lemma_closure_path_in(
    g: Map<Seq<char>, Seq<GrammarItemV>>,
    c: Map<Seq<char>, Seq<AtomV>>,
    e: Set<LRItemV>,
    p: Seq<LRItemV>,
    k: int,
)
    requires
        closure_path(g, c, p),
        e.contains(p[0]),
        forall|x: LRItemV, y: LRItemV| e.contains(x) && #[trigger] closure_edge(g, c, x, y) ==> e.contains(y),
        0 <= k < p.len(),
    ensures
        e.contains(p[k]),
    decreases k,
{
    if k > 0 {
        lemma_closure_path_in(g, c, e, p, k - 1);
        let j = k - 1;
        assert(closure_edge(g, c, p[j], p[j + 1]));
    }
}

/// A set that holds `k` and is closed under closure steps holds the closure of `k`.
proof fn lemma_closure_closed(
    g: Map<Seq<char>, Seq<GrammarItemV>>,
    c: Map<Seq<char>, Seq<AtomV>>,
    e: Set<LRItemV>,
    k: Seq<LRItemV>,
)
    requires
        forall|i: int| 0 <= i < k.len() ==> e.contains(#[trigger] k[i]),
        forall|x: LRItemV, y: LRItemV| e.contains(x) && #[trigger] closure_edge(g, c, x, y) ==> e.contains(y),
    ensures
        closure_set(g, c, k).subset_of(e),
{
    assert forall|y: LRItemV| closure_set(g, c, k).contains(y) implies e.contains(y) by {
        let i = choose|i: int| 0 <= i < k.len() && closure_reach(g, c, #[trigger] k[i], y);
        let p = choose|p: Seq<LRItemV>| #[trigger] closure_path(g, c, p) && p[0] == k[i] && p.last() == y;
        lemma_closure_path_in(g, c, e, p, p.len() - 1);
    }
}

proof fn lemma_defined_mono(
    g: Map<Seq<char>, Seq<GrammarItemV>>,
    c: Map<Seq<char>, Seq<AtomV>>,
    c2: Map<Seq<char>, Seq<AtomV>>,
    x: LRItemV,
)
    requires
        c.submap_of(c2),
        defined(g, c, x),
    ensures
        defined(g, c2, x),
{
}

/// The closure under a cache is held in the closure under a bigger cache.
proof fn lemma_closure_set_mono(
    g: Map<Seq<char>, Seq<GrammarItemV>>,
    c: Map<Seq<char>, Seq<AtomV>>,
    c2: Map<Seq<char>, Seq<AtomV>>,
    k: Seq<LRItemV>,
)
    requires
        c.submap_of(c2),
    ensures
        closure_set(g, c, k).subset_of(closure_set(g, c2, k)),
{
    assert forall|y: LRItemV| closure_set(g, c, k).contains(y) implies closure_set(g, c2, k).contains(y) by {
        let i = choose|i: int| 0 <= i < k.len() && closure_reach(g, c, #[trigger] k[i], y);
        lemma_closure_reach_mono(g, c, c2, k[i], y);
    }
}

/// The closure of `k` holds `k` and is closed under closure steps.
proof fn lemma_closure_set_closed(
    g: Map<Seq<char>, Seq<GrammarItemV>>,
    c: Map<Seq<char>, Seq<AtomV>>,
    k: Seq<LRItemV>,
)
    ensures
        forall|i: int| 0 <= i < k.len() ==> closure_set(g, c, k).contains(#[trigger] k[i]),
        forall|x: LRItemV, y: LRItemV|
            closure_set(g, c, k).contains(x) && #[trigger] closure_edge(g, c, x, y) ==> closure_set(
                g,
                c,
                k,
            ).contains(y),
{
    assert forall|i: int| 0 <= i < k.len() implies closure_set(g, c, k).contains(#[trigger] k[i]) by {
        lemma_closure_reach_refl(g, c, k[i]);
    }
    assert forall|x: LRItemV, y: LRItemV|
        closure_set(g, c, k).contains(x) && #[trigger] closure_edge(g, c, x, y) implies closure_set(
        g,
        c,
        k,
    ).contains(y) by {
        let i = choose|i: int| 0 <= i < k.len() && closure_reach(g, c, #[trigger] k[i], x);
        lemma_closure_reach_step(g, c, k[i], x, y);
    }
}

/// A closure whose lookups the cache holds stays the closure under a bigger cache.
proof fn lemma_closure_stable(
    g: Map<Seq<char>, Seq<GrammarItemV>>,
    c: Map<Seq<char>, Seq<AtomV>>,
    c2: Map<Seq<char>, Seq<AtomV>>,
    k: Seq<LRItemV>,
)
    requires
        c.submap_of(c2),
        forall|x: LRItemV| #[trigger] closure_set(g, c, k).contains(x) ==> defined(g, c, x),
    ensures
        closure_set(g, c2, k) == closure_set(g, c, k),
        forall|x: LRItemV| #[trigger] closure_set(g, c2, k).contains(x) ==> defined(g, c2, x),
{
    let e = closure_set(g, c, k);
    lemma_closure_set_mono(g, c, c2, k);
    lemma_closure_set_closed(g, c, k);
    assert forall|x: LRItemV, y: LRItemV| e.contains(x) && #[trigger] closure_edge(g, c2, x, y) implies e.contains(y) by {
        lemma_closure_edge_stable(g, c, c2, x, y);
    }
    lemma_closure_closed(g, c2, e, k);
    assert(closure_set(g, c2, k) =~= e);
    assert forall|x: LRItemV| #[trigger] closure_set(g, c2, k).contains(x) implies defined(g, c2, x) by {
        lemma_defined_mono(g, c, c2, x);
    }
}

} // verus!

verus! {

/// First terminals already computed, stored under the name of the atom they
/// were computed for.
pub struct FirstEntry {
    pub name: String,
    pub firsts: Vec<Atom>,
}

/// A cache of first terminals, keyed by atom name.
pub struct FirstCache {
    pub entries: Vec<FirstEntry>,
}

impl FirstCache {
    /// No name has two entries.
    pub open spec fn wf(&self) -> bool {
        forall|i: int, j: int|
            0 <= i < j < self.entries@.len() ==> self.entries@[i].name@ != self.entries@[j].name@
    }

    /// Some entry has the key `k`.
    pub open spec fn has_key(&self, k: Seq<char>) -> bool {
        exists|i: int| 0 <= i < self.entries@.len() && self.entries@[i].name@ == k
    }

    /// The position of an entry with the key `k`.
    pub open spec fn key_index(&self, k: Seq<char>) -> int {
        choose|i: int| 0 <= i < self.entries@.len() && self.entries@[i].name@ == k
    }

    /// An empty cache.
    pub fn new() -> (res: FirstCache)
        ensures
            res.wf(),
            res@ == Map::<Seq<char>, Seq<AtomV>>::empty(),
    {
        let res = FirstCache { entries: Vec::new() };
        assert(res@ =~= Map::<Seq<char>, Seq<AtomV>>::empty());
        res
    }

    /// The first terminals cached under `name`; when there are none, those of
    /// `atom`, computed and cached under `name`.
    pub fn get_or_compute(&mut self, g: &GrammarMap, name: &String, atom: &Atom, u: Ghost<Set<AtomV>>) -> (res: Vec<Atom>)
        requires
            old(self).wf(),
            g.wf(),
            rules_in(g@, u@),
            rules_at_most(g@, u@, 255),
            u@.contains(atom@),
            atom_name(atom@) == name@,
        ensures
            final(self).wf(),
            old(self)@.submap_of(final(self)@),
            final(self)@.dom().contains(name@),
            atoms_view(res@) == final(self)@[name@],
            old(self)@.dom().contains(name@) ==> final(self)@ == old(self)@,
            !old(self)@.dom().contains(name@) ==> final(self)@ == old(self)@.insert(name@, atoms_view(res@))
                && atom_set(res@) == first_set(g@, atom@),
            final(self)@ == cache_lookup(g@, old(self)@, atom@),
    {
        let mut i: usize = 0;
        while i < self.entries.len()
            invariant
                i <= self.entries@.len(),
                self.wf(),
                *self == *old(self),
                atom_name(atom@) == name@,
                forall|j: int| 0 <= j < i ==> self.entries@[j].name@ != name@,
            decreases self.entries.len() - i,
        {
            if self.entries[i].name.eq(name) {
                assert(self.has_key(name@));
                assert(self.key_index(name@) == i);
                assert(self@.dom().contains(atom_name(atom@)));
                return copy_atoms(&self.entries[i].firsts);
            }
            i += 1;
        }
        assert(!self.has_key(name@));
        let firsts = get_first(g, atom, u);
        let ghost old_self = *self;
        self.entries.push(FirstEntry { name: name.clone(), firsts: copy_atoms(&firsts) });
        proof {
            let n = old_self.entries@.len();
            assert(self.entries@[n as int].name@ == name@);
            assert forall|k: Seq<char>| self.has_key(k) == (old_self.has_key(k) || k == name@) by {
                if self.has_key(k) {
                    let j = choose|j: int| 0 <= j < self.entries@.len() && self.entries@[j].name@ == k;
                    if j < n {
                        assert(old_self.entries@[j].name@ == k);
                    }
                }
                if old_self.has_key(k) {
                    let j = choose|j: int| 0 <= j < old_self.entries@.len() && old_self.entries@[j].name@ == k;
                    assert(self.entries@[j].name@ == k);
                }
            }
            assert forall|k: Seq<char>| old_self.has_key(k) implies self.key_index(k) == old_self.key_index(k) by {
                let j = old_self.key_index(k);
                assert(self.entries@[j].name@ == k);
                let j2 = self.key_index(k);
                if j2 == n {
                    assert(k == name@);
                }
            }
            assert(self.key_index(name@) == n);
            assert(self@ =~= old_self@.insert(name@, atoms_view(firsts@)));
        }
        firsts
    }
}

impl View for FirstCache {
    type V = Map<Seq<char>, Seq<AtomV>>;

    open spec fn view(&self) -> Map<Seq<char>, Seq<AtomV>> {
        Map::new(
            |k: Seq<char>| self.has_key(k),
            |k: Seq<char>| atoms_view(self.entries@[self.key_index(k)].firsts@),
        )
    }
}

/// The lookaheads of the items that `x` brings into a closure, computed
/// through the cache.
fn lookaheads_of(g: &GrammarMap, x: &LRItem, firsts: &mut FirstCache, u: Ghost<Set<AtomV>>) -> (res: Vec<Atom>)
    requires
        g.wf(),
        rules_in(g@, u@),
        rules_at_most(g@, u@, 255),
        item_fits(x@),
        item_in(u@, x@),
        old(firsts).wf(),
        wf_cache(g@, old(firsts)@),
        cache_from(g@, old(firsts)@, u@),
    ensures
        final(firsts).wf(),
        wf_cache(g@, final(firsts)@),
        cache_from(g@, final(firsts)@, u@),
        old(firsts)@.submap_of(final(firsts)@),
        forall|k: Seq<char>|
            #[trigger] final(firsts)@.dom().contains(k) ==> old(firsts)@.dom().contains(k) || looks_up(x@, k),
        final(firsts)@ == cache_after(g@, old(firsts)@, x@),
        atoms_view(res@) == lookahead_list(g@, old(firsts)@, x@),
        defined(g@, final(firsts)@, x@),
        forall|t: AtomV| #[trigger] atom_set(res@).contains(t) <==> lookahead(g@, final(firsts)@, x@, t),
{
    let ghost xv = x@;
    let ghost pv = xv.production;
    let ghost st = xv.stacktop as int;
    let offsets = find_solid_indexes(g, &x.production, x.stacktop, vec![1u8]);
    let ghost run = solid_run(g@, pv, (st + 1) as nat);
    proof {
        lemma_solid_run_bound(g@, pv, (st + 1) as nat);
        assert(offsets@.len() == run + 1);
        assert forall|k: int| 0 <= k < offsets@.len() implies offsets@[k] == k + 1 by {
            if k > 0 {
                assert(offsets@[k] == (1 + 1 + (k - 1)) as u8);
            }
        }
    }
    let mut terminals: Vec<Atom> = Vec::new();
    let mut k: usize = 0;
    while k < offsets.len()
        invariant
            g.wf(),
            rules_in(g@, u@),
            rules_at_most(g@, u@, 255),
            xv == x@,
            pv == xv.production,
            st == xv.stacktop,
            item_fits(xv),
            run == solid_run(g@, pv, (st + 1) as nat),
            st + 1 <= pv.len() ==> run <= pv.len() - (st + 1),
            st + 1 >= pv.len() ==> run == 0,
            offsets@.len() == run + 1,
            forall|j: int| 0 <= j < offsets@.len() ==> offsets@[j] == j + 1,
            k <= offsets@.len(),
            firsts.wf(),
            wf_cache(g@, firsts@),
            item_in(u@, xv),
            cache_from(g@, firsts@, u@),
            forall|kk: Seq<char>|
                #[trigger] firsts@.dom().contains(kk) ==> old(firsts)@.dom().contains(kk) || looks_up(xv, kk),
            old(firsts)@.submap_of(firsts@),
            firsts@ == lookups_upto(g@, old(firsts)@, xv, k as nat),
            atoms_view(terminals@) == lookaheads_upto(g@, old(firsts)@, xv, k as nat),
            forall|o: int|
                1 <= o <= k && st + o < pv.len() ==> firsts@.dom().contains(
                    atom_name(#[trigger] pv[st + o]),
                ),
            forall|t: AtomV|
                #[trigger] atom_set(terminals@).contains(t) <==> exists|o: int|
                    1 <= o <= k && #[trigger] lookahead_at(g@, firsts@, xv, o, t),
        decreases offsets.len() - k,
    {
        let offset = offsets[k];
        let pos: u8 = x.stacktop + offset;
        let ghost c_old = firsts@;
        let ghost t_old = atoms_view(terminals@);
        let ghost terms_old = terminals@;
        assert(forall|t: AtomV| #[trigger] atom_set(terms_old).contains(t) <==> exists|o: int|
            1 <= o <= k && #[trigger] lookahead_at(g@, c_old, xv, o, t));
        if (pos as usize) < x.production.len() {
            let atom = &x.production[pos as usize];
            let name = get_atom_string(atom);
            proof {
                assert(atom@ == pv[st + (k + 1)]);
                assert(u@.contains(pv[st + (k + 1)]));
            }
            let fs = firsts.get_or_compute(g, &name, atom, u);
            let ghost fsv = atoms_view(fs@);
            proof {
                assert(atom@ == pv[st + (k + 1)]);
                assert(u@.contains(pv[st + (k + 1)]));
                if !c_old.dom().contains(name@) {
                    lemma_cache_insert(g@, c_old, u@, atom@, fsv);
                }
                assert forall|kk: Seq<char>| #[trigger] firsts@.dom().contains(kk) implies old(firsts)@.dom().contains(kk)
                    || looks_up(xv, kk) by {
                    if kk == name@ && !c_old.dom().contains(kk) {
                        assert(atom_name(pv[st + (k + 1)]) == kk);
                    } else {
                        assert(c_old.dom().contains(kk));
                    }
                }
            }
            let mut fs2 = fs;
            terminals.append(&mut fs2);
            proof {
                assert(c_old == lookups_upto(g@, old(firsts)@, xv, k as nat));
                assert(xv.stacktop + (k + 1) < xv.production.len());
                assert(firsts@ == lookups_upto(g@, old(firsts)@, xv, (k + 1) as nat));
                assert(atoms_view(terminals@) =~= t_old + fsv);
                assert(atoms_view(terminals@) == lookaheads_upto(g@, old(firsts)@, xv, (k + 1) as nat));
            }
            proof {
                let c = firsts@;
                assert(atoms_view(terminals@) =~= t_old + fsv);
                assert forall|o: int, t: AtomV| 1 <= o <= k && #[trigger] lookahead_at(g@, c_old, xv, o, t) implies lookahead_at(g@, c, xv, o, t) by {
                    if st + o < pv.len() {
                        let kk = atom_name(pv[st + o]);
                        assert(c[kk] == c_old[kk]);
                    }
                }
                assert forall|o: int, t: AtomV| 1 <= o <= k && #[trigger] lookahead_at(g@, c, xv, o, t) implies lookahead_at(g@, c_old, xv, o, t) by {
                    if st + o < pv.len() {
                        let kk = atom_name(pv[st + o]);
                        assert(c_old.dom().contains(kk));
                        assert(c[kk] == c_old[kk]);
                    }
                }
                assert(atom == &x.production@[pos as int]);
                assert(atom@ == pv[st + (k + 1)]);
                assert forall|t: AtomV| #[trigger] atom_set(terminals@).contains(t) <==> exists|o: int|
                    1 <= o <= k + 1 && #[trigger] lookahead_at(g@, c, xv, o, t) by {
                    let tv = atoms_view(terminals@);
                    if atom_set(terminals@).contains(t) {
                        let j = choose|j: int| 0 <= j < tv.len() && tv[j] == t;
                        if j < t_old.len() {
                            assert(t_old[j] == t);
                            assert(atom_set(terms_old).contains(t));
                            let o = choose|o: int| 1 <= o <= k && #[trigger] lookahead_at(g@, c_old, xv, o, t);
                            assert(lookahead_at(g@, c, xv, o, t));
                        } else {
                            assert(fsv[j - t_old.len()] == t);
                            assert(lookahead_at(g@, c, xv, k + 1, t));
                        }
                    }
                    if exists|o: int| 1 <= o <= k + 1 && #[trigger] lookahead_at(g@, c, xv, o, t) {
                        let o = choose|o: int| 1 <= o <= k + 1 && #[trigger] lookahead_at(g@, c, xv, o, t);
                        if o <= k {
                            assert(lookahead_at(g@, c_old, xv, o, t));
                            assert(atom_set(terms_old).contains(t));
                            let j = choose|j: int| 0 <= j < t_old.len() && t_old[j] == t;
                            assert(tv[j] == t);
                        } else {
                            assert(fsv.contains(t));
                            let j = choose|j: int| 0 <= j < fsv.len() && fsv[j] == t;
                            assert(tv[t_old.len() + j] == t);
                        }
                    }
                }
                assert forall|o: int| 1 <= o <= k + 1 && st + o < pv.len() implies firsts@.dom().contains(
                    atom_name(#[trigger] pv[st + o])) by {
                    if o <= k {
                        assert(c_old.dom().contains(atom_name(pv[st + o])));
                    }
                }
            }
        } else {
            terminals.push(x.terminal.clone());
            proof {
                let c = firsts@;
                assert(atoms_view(terminals@) =~= t_old.push(xv.terminal));
                assert(!(xv.stacktop + (k + 1) < xv.production.len()));
                assert(firsts@ == lookups_upto(g@, old(firsts)@, xv, (k + 1) as nat));
                assert(atoms_view(terminals@) =~= t_old + seq![xv.terminal]);
                assert(atoms_view(terminals@) == lookaheads_upto(g@, old(firsts)@, xv, (k + 1) as nat));
                assert forall|t: AtomV| #[trigger] atom_set(terminals@).contains(t) <==> exists|o: int|
                    1 <= o <= k + 1 && #[trigger] lookahead_at(g@, c, xv, o, t) by {
                    let tv = atoms_view(terminals@);
                    if atom_set(terminals@).contains(t) {
                        let j = choose|j: int| 0 <= j < tv.len() && tv[j] == t;
                        if j < t_old.len() {
                            assert(t_old[j] == t);
                            assert(atom_set(terms_old).contains(t));
                        } else {
                            assert(lookahead_at(g@, c, xv, k + 1, t));
                        }
                    }
                    if exists|o: int| 1 <= o <= k + 1 && #[trigger] lookahead_at(g@, c, xv, o, t) {
                        let o = choose|o: int| 1 <= o <= k + 1 && #[trigger] lookahead_at(g@, c, xv, o, t);
                        if o <= k {
                            assert(atom_set(terms_old).contains(t));
                            let j = choose|j: int| 0 <= j < t_old.len() && t_old[j] == t;
                            assert(tv[j] == t);
                        } else {
                            assert(tv[t_old.len() as int] == t);
                        }
                    }
                }
            }
        }
        k += 1;
    }
    proof {
        assert forall|t: AtomV| #[trigger] atom_set(terminals@).contains(t) <==> lookahead(g@, firsts@, xv, t) by {
            if atom_set(terminals@).contains(t) {
                let o = choose|o: int| 1 <= o <= k && #[trigger] lookahead_at(g@, firsts@, xv, o, t);
            }
            if lookahead(g@, firsts@, xv, t) {
                let o = choose|o: int| 1 <= o <= run + 1 && #[trigger] lookahead_at(g@, firsts@, xv, o, t);
            }
        }
    }
    terminals
}

} // verus!

verus! {

proof fn lemma_real_productions_len(g: Map<Seq<char>, Seq<GrammarItemV>>, p: Seq<AtomV>)
    ensures
        forall|i: int|
            0 <= i < real_productions(g, p).len() ==> (#[trigger] real_productions(g, p)[i]).len()
                <= p.len(),
    decreases p.len(),
{
    if p.len() > 0 {
        lemma_real_productions_len(g, p.drop_last());
        let prev = real_productions(g, p.drop_last());
        let a = p.last();
        let ext = prev.map_values(|r: Seq<AtomV>| r.push(a));
        assert forall|i: int| 0 <= i < real_productions(g, p).len() implies (#[trigger] real_productions(g, p)[i]).len() <= p.len() by {
            if i < ext.len() {
                assert(ext[i] == prev[i].push(a));
            } else {
                assert(real_productions(g, p)[i] == prev[i - ext.len()]);
            }
        }
    }
}

/// Pushes on `working` each item that `x` brings into a closure with one of
/// `terminals` as lookahead and that `ret` does not hold: for each rule, each
/// production it stands for, and each terminal, in that order.
fn push_children(
    g: &GrammarMap,
    items: &Vec<GrammarItem>,
    terminals: &Vec<Atom>,
    ret: &Vec<LRItem>,
    working: &mut Vec<LRItem>,
    name: Ghost<Seq<char>>,
)
    requires
        g.wf(),
        g@.dom().contains(name@),
        forall|i: int| 0 <= i < g@[name@].len() ==> (#[trigger] g@[name@][i]).production.len() <= 254,
        items_view(items@) == g@[name@],
    ensures
        lr_view(final(working)@).take(old(working)@.len() as int) == lr_view(old(working)@),
        old(working)@.len() <= final(working)@.len(),
        forall|j: int|
            old(working)@.len() <= j < final(working)@.len() ==> {
                let y = #[trigger] lr_view(final(working)@)[j];
                &&& y.stacktop == 0
                &&& atom_set(terminals@).contains(y.terminal)
                &&& exists|i: int| 0 <= i < g@[name@].len() && #[trigger] closure_rule(g@, g@[name@][i], y)
                &&& !lr_set(ret@).contains(y)
                &&& item_fits(y)
            },
        forall|y: LRItemV|
            y.stacktop == 0 && #[trigger] atom_set(terminals@).contains(y.terminal) && (exists|i: int|
                0 <= i < g@[name@].len() && #[trigger] closure_rule(g@, g@[name@][i], y)) ==> lr_set(
                ret@,
            ).contains(y) || lr_set(final(working)@).contains(y),
        lr_view(final(working)@) == lr_view(old(working)@) + kids_r(
            g@,
            g@[name@],
            atoms_view(terminals@),
            lr_view(ret@),
        ),
{
    let ghost ts = atoms_view(terminals@);
    let ghost rv = lr_view(ret@);
    let ghost w0 = lr_view(working@);
    let ghost gk = g@[name@];
    assert(gk.take(0) =~= Seq::<GrammarItemV>::empty());
    assert(w0 + kids_r(g@, gk.take(0), ts, rv) =~= w0);
    let mut gi: usize = 0;
    while gi < items.len()
        invariant
            g.wf(),
            g@.dom().contains(name@),
            gk == g@[name@],
            forall|i: int| 0 <= i < gk.len() ==> (#[trigger] gk[i]).production.len() <= 254,
            items_view(items@) == gk,
            gi <= items@.len(),
            w0.len() <= working@.len(),
            lr_view(working@).take(w0.len() as int) == w0,
            ts == atoms_view(terminals@),
            rv == lr_view(ret@),
            lr_view(working@) == w0 + kids_r(g@, gk.take(gi as int), ts, rv),
            forall|j: int|
                w0.len() <= j < working@.len() ==> {
                    let y = #[trigger] lr_view(working@)[j];
                    &&& y.stacktop == 0
                    &&& atom_set(terminals@).contains(y.terminal)
                    &&& exists|i: int| 0 <= i < gk.len() && #[trigger] closure_rule(g@, gk[i], y)
                    &&& !lr_set(ret@).contains(y)
                    &&& item_fits(y)
                },
            forall|y: LRItemV|
                y.stacktop == 0 && #[trigger] atom_set(terminals@).contains(y.terminal) && (exists|
                    i: int,
                | 0 <= i < gi && #[trigger] closure_rule(g@, gk[i], y)) ==> lr_set(ret@).contains(y)
                    || lr_set(working@).contains(y),
        decreases items.len() - gi,
    {
        let rule = &items[gi];
        assert(gk[gi as int] == rule@);
        let prods = get_real_productions(g, &rule.production);
        proof {
            lemma_real_productions_len(g@, rule@.production);
        }
        let ghost rp = real_productions(g@, rule@.production);
        assert(rp.take(0) =~= Seq::<Seq<AtomV>>::empty());
        assert(lr_view(working@) =~= w0 + kids_r(g@, gk.take(gi as int), ts, rv) + kids_p(
            rule@.symbol, rp.take(0), ts, rv));
        let mut pi: usize = 0;
        while pi < prods.len()
            invariant
                g.wf(),
                g@.dom().contains(name@),
                gk == g@[name@],
                forall|i: int| 0 <= i < gk.len() ==> (#[trigger] gk[i]).production.len() <= 254,
                items_view(items@) == gk,
                gi < items@.len(),
                gk[gi as int] == rule@,
                rp == real_productions(g@, rule@.production),
                prods_view(prods@) == rp,
                forall|i: int| 0 <= i < rp.len() ==> (#[trigger] rp[i]).len() <= rule@.production.len(),
                rule@.production.len() <= 254,
                pi <= prods@.len(),
                w0.len() <= working@.len(),
                lr_view(working@).take(w0.len() as int) == w0,
                ts == atoms_view(terminals@),
                rv == lr_view(ret@),
                lr_view(working@) == w0 + kids_r(g@, gk.take(gi as int), ts, rv) + kids_p(
                    rule@.symbol,
                    rp.take(pi as int),
                    ts,
                    rv,
                ),
                forall|j: int|
                    w0.len() <= j < working@.len() ==> {
                        let y = #[trigger] lr_view(working@)[j];
                        &&& y.stacktop == 0
                        &&& atom_set(terminals@).contains(y.terminal)
                        &&& exists|i: int| 0 <= i < gk.len() && #[trigger] closure_rule(g@, gk[i], y)
                        &&& !lr_set(ret@).contains(y)
                        &&& item_fits(y)
                    },
                forall|y: LRItemV|
                    y.stacktop == 0 && #[trigger] atom_set(terminals@).contains(y.terminal) && ((exists|
                        i: int,
                    | 0 <= i < gi && #[trigger] closure_rule(g@, gk[i], y)) || (y.symbol == rule@.symbol
                        && exists|q: int| 0 <= q < pi && rp[q] == y.production)) ==> lr_set(
                        ret@,
                    ).contains(y) || lr_set(working@).contains(y),
            decreases prods.len() - pi,
        {
            assert(atoms_view(prods@[pi as int]@) == rp[pi as int]);
            assert(ts.take(0) =~= Seq::<AtomV>::empty());
            assert(lr_view(working@) =~= w0 + kids_r(g@, gk.take(gi as int), ts, rv) + kids_p(
                rule@.symbol, rp.take(pi as int), ts, rv) + kids_t(rule@.symbol, rp[pi as int], ts.take(0), rv));
            let mut ti: usize = 0;
            while ti < terminals.len()
                invariant
                    g.wf(),
                    g@.dom().contains(name@),
                    gk == g@[name@],
                    items_view(items@) == gk,
                    gi < items@.len(),
                    gk[gi as int] == rule@,
                    rp == real_productions(g@, rule@.production),
                    prods_view(prods@) == rp,
                    pi < prods@.len(),
                    atoms_view(prods@[pi as int]@) == rp[pi as int],
                    rp[pi as int].len() <= 254,
                    ti <= terminals@.len(),
                    w0.len() <= working@.len(),
                    lr_view(working@).take(w0.len() as int) == w0,
                    ts == atoms_view(terminals@),
                    rv == lr_view(ret@),
                    lr_view(working@) == w0 + kids_r(g@, gk.take(gi as int), ts, rv) + kids_p(
                        rule@.symbol,
                        rp.take(pi as int),
                        ts,
                        rv,
                    ) + kids_t(rule@.symbol, rp[pi as int], ts.take(ti as int), rv),
                    forall|j: int|
                        w0.len() <= j < working@.len() ==> {
                            let y = #[trigger] lr_view(working@)[j];
                            &&& y.stacktop == 0
                            &&& atom_set(terminals@).contains(y.terminal)
                            &&& exists|i: int| 0 <= i < gk.len() && #[trigger] closure_rule(g@, gk[i], y)
                            &&& !lr_set(ret@).contains(y)
                            &&& item_fits(y)
                        },
                    forall|y: LRItemV|
                        y.stacktop == 0 && #[trigger] atom_set(terminals@).contains(y.terminal) && ((exists|
                            i: int,
                        | 0 <= i < gi && #[trigger] closure_rule(g@, gk[i], y)) || (y.symbol
                            == rule@.symbol && exists|q: int| 0 <= q < pi && rp[q] == y.production) || (
                        y.symbol == rule@.symbol && y.production == rp[pi as int] && exists|m: int|
                            0 <= m < ti && terminals@[m]@ == y.terminal)) ==> lr_set(ret@).contains(y)
                            || lr_set(working@).contains(y),
                decreases terminals.len() - ti,
            {
                let lr_item = LRItem {
                    stacktop: 0,
                    terminal: terminals[ti].clone(),
                    symbol: rule.symbol.clone(),
                    production: copy_atoms(&prods[pi]),
                };
                let ghost y = lr_item@;
                assert(rp.contains(y.production));
                assert(closure_rule(g@, gk[gi as int], y));
                assert(atoms_view(terminals@)[ti as int] == y.terminal);
                let ghost wv = lr_view(working@);
                let ghost pre = w0 + kids_r(g@, gk.take(gi as int), ts, rv) + kids_p(rule@.symbol, rp.take(pi as int), ts, rv);
                proof {
                    assert(ts.take(ti + 1).drop_last() =~= ts.take(ti as int));
                    assert(ts.take(ti + 1).last() == ts[ti as int]);
                    assert(y == fresh_item(rule@.symbol, rp[pi as int], ts[ti as int]));
                    assert(lr_set(ret@).contains(y) == rv.contains(y));
                }
                if !contains_item(ret, &lr_item) {
                    working.push(lr_item);
                    proof {
                        let wv2 = lr_view(working@);
                        assert(wv2 =~= wv.push(y));
                        assert(wv2.take(w0.len() as int) =~= wv.take(w0.len() as int));
                        assert(wv2[wv.len() as int] == y);
                        assert(atom_set(terminals@).contains(y.terminal));
                        assert(item_fits(y));
                        assert forall|j: int| w0.len() <= j < working@.len() implies {
                            let z = #[trigger] lr_view(working@)[j];
                            &&& z.stacktop == 0
                            &&& atom_set(terminals@).contains(z.terminal)
                            &&& exists|i: int| 0 <= i < gk.len() && #[trigger] closure_rule(g@, gk[i], z)
                            &&& !lr_set(ret@).contains(z)
                            &&& item_fits(z)
                        } by {
                            if j < wv.len() {
                                assert(wv2[j] == wv[j]);
                            } else {
                                assert(wv2[j] == y);
                                assert(closure_rule(g@, gk[gi as int], y));
                            }
                        }
                        assert forall|z: LRItemV| lr_set(working@).contains(z) <== wv.to_set().contains(z) by {
                            if wv.to_set().contains(z) {
                                let j = choose|j: int| 0 <= j < wv.len() && wv[j] == z;
                                assert(wv2[j] == z);
                            }
                        }
                    }
                }
                proof {
                    let kt = kids_t(rule@.symbol, rp[pi as int], ts.take(ti + 1), rv);
                    let kt0 = kids_t(rule@.symbol, rp[pi as int], ts.take(ti as int), rv);
                    if rv.contains(y) {
                        assert(kt =~= kt0 + Seq::<LRItemV>::empty());
                        assert(lr_view(working@) =~= pre + kt);
                    } else {
                        assert(kt == kt0 + seq![y]);
                        assert(lr_view(working@) =~= pre + kt);
                    }
                }
                ti += 1;
            }
            proof {
                assert(ts.take(ti as int) =~= ts);
                assert(rp.take(pi + 1).drop_last() =~= rp.take(pi as int));
                assert(rp.take(pi + 1).last() == rp[pi as int]);
                assert(lr_view(working@) =~= w0 + kids_r(g@, gk.take(gi as int), ts, rv) + kids_p(
                    rule@.symbol, rp.take(pi + 1), ts, rv));
            }
            pi += 1;
        }
        proof {
            assert(rp.take(pi as int) =~= rp);
            assert(gk.take(gi + 1).drop_last() =~= gk.take(gi as int));
            assert(gk.take(gi + 1).last() == rule@);
            assert(lr_view(working@) =~= w0 + kids_r(g@, gk.take(gi + 1), ts, rv));
        }
        gi += 1;
        proof {
            assert forall|y: LRItemV|
                y.stacktop == 0 && #[trigger] atom_set(terminals@).contains(y.terminal) && (exists|i: int|
                    0 <= i < gi && #[trigger] closure_rule(g@, gk[i], y)) implies lr_set(ret@).contains(y)
                    || lr_set(working@).contains(y) by {
                let i = choose|i: int| 0 <= i < gi && #[trigger] closure_rule(g@, gk[i], y);
                if i == gi - 1 {
                    assert(rp.contains(y.production));
                    let q = choose|q: int| 0 <= q < rp.len() && rp[q] == y.production;
                    let tv = atoms_view(terminals@);
                    let m = choose|m: int| 0 <= m < tv.len() && tv[m] == y.terminal;
                    assert(terminals@[m]@ == y.terminal);
                }
            }
        }
    }
    assert(gk.take(gi as int) =~= gk);
}

} // verus!

verus! {

/// The state of a closure computation: the items kept (`r`, each once) and
/// those still to do (`w`) all come from `k`; the kept ones have their lookups
/// in the cache and their steps among `r` and `w`; `k` is among `r` and `w`.
#[verifier::opaque]
pub open spec fn closure_inv(
    g: Map<Seq<char>, Seq<GrammarItemV>>,
    c: Map<Seq<char>, Seq<AtomV>>,
    k: Seq<LRItemV>,
    r: Seq<LRItemV>,
    w: Seq<LRItemV>,
) -> bool {
    &&& r.no_duplicates()
    &&& forall|i: int|
        0 <= i < r.len() ==> closure_reached(g, c, k, #[trigger] r[i]) && defined(g, c, r[i])
            && item_fits(r[i])
    &&& forall|i: int| 0 <= i < w.len() ==> closure_reached(g, c, k, #[trigger] w[i]) && item_fits(w[i])
    &&& forall|x: LRItemV, y: LRItemV|
        r.contains(x) && #[trigger] closure_edge(g, c, x, y) ==> r.contains(y) || w.contains(y)
    &&& forall|i: int| 0 <= i < k.len() ==> r.contains(#[trigger] k[i]) || w.contains(k[i])
}

/// The items that `x` brings in when its lookaheads are `ts`.
pub open spec fn child_of(
    g: Map<Seq<char>, Seq<GrammarItemV>>,
    x: LRItemV,
    ts: Set<AtomV>,
    y: LRItemV,
) -> bool {
    &&& x.stacktop < x.production.len()
    &&& g.dom().contains(atom_name(x.production[x.stacktop as int]))
    &&& y.stacktop == 0
    &&& ts.contains(y.terminal)
    &&& exists|i: int|
        0 <= i < g[atom_name(x.production[x.stacktop as int])].len() && #[trigger] closure_rule(
            g,
            g[atom_name(x.production[x.stacktop as int])][i],
            y,
        )
}

proof fn lemma_closure_start(
    g: Map<Seq<char>, Seq<GrammarItemV>>,
    c: Map<Seq<char>, Seq<AtomV>>,
    k: Seq<LRItemV>,
)
    requires
        forall|i: int| 0 <= i < k.len() ==> item_fits(#[trigger] k[i]),
    ensures
        closure_inv(g, c, k, Seq::empty(), k),
{
    reveal(closure_inv);
    assert forall|i: int| 0 <= i < k.len() implies closure_reached(g, c, k, #[trigger] k[i]) by {
        lemma_closure_reach_refl(g, c, k[i]);
    }
    assert forall|i: int| 0 <= i < k.len() implies Seq::<LRItemV>::empty().contains(#[trigger] k[i]) || k.contains(k[i]) by {
        assert(k[i] == k[i]);
    }
}

proof fn lemma_closure_done(
    g: Map<Seq<char>, Seq<GrammarItemV>>,
    c: Map<Seq<char>, Seq<AtomV>>,
    k: Seq<LRItemV>,
    r: Seq<LRItemV>,
)
    requires
        closure_inv(g, c, k, r, Seq::empty()),
    ensures
        r.no_duplicates(),
        r.to_set() == closure_set(g, c, k),
        forall|x: LRItemV| #[trigger] r.to_set().contains(x) ==> defined(g, c, x) && item_fits(x),
{
    reveal(closure_inv);
    let e = r.to_set();
    assert forall|x: LRItemV, y: LRItemV| e.contains(x) && #[trigger] closure_edge(g, c, x, y) implies e.contains(y) by {
        assert(r.contains(x));
    }
    assert forall|i: int| 0 <= i < k.len() implies e.contains(#[trigger] k[i]) by {
        assert(r.contains(k[i]));
    }
    lemma_closure_closed(g, c, e, k);
    assert forall|y: LRItemV| e.contains(y) implies closure_set(g, c, k).contains(y) by {
        let j = choose|j: int| 0 <= j < r.len() && r[j] == y;
        assert(closure_reached(g, c, k, r[j]));
    }
    assert(e =~= closure_set(g, c, k));
    assert forall|x: LRItemV| #[trigger] r.to_set().contains(x) implies defined(g, c, x) && item_fits(x) by {
        let j = choose|j: int| 0 <= j < r.len() && r[j] == x;
        assert(defined(g, c, r[j]));
    }
}

/// One round of the closure computation keeps its state.
proof fn lemma_closure_step(
    g: Map<Seq<char>, Seq<GrammarItemV>>,
    c_old: Map<Seq<char>, Seq<AtomV>>,
    c: Map<Seq<char>, Seq<AtomV>>,
    k: Seq<LRItemV>,
    r_old: Seq<LRItemV>,
    w_old: Seq<LRItemV>,
    r_new: Seq<LRItemV>,
    w_new: Seq<LRItemV>,
    ts: Set<AtomV>,
)
    requires
        closure_inv(g, c_old, k, r_old, w_old),
        w_old.len() > 0,
        r_new == (if r_old.contains(w_old.last()) {
            r_old
        } else {
            r_old.push(w_old.last())
        }),
        c_old.submap_of(c),
        defined(g, c, w_old.last()),
        forall|t: AtomV| #[trigger] ts.contains(t) <==> lookahead(g, c, w_old.last(), t),
        w_old.len() - 1 <= w_new.len(),
        w_new.take(w_old.len() - 1) == w_old.drop_last(),
        forall|j: int|
            w_old.len() - 1 <= j < w_new.len() ==> child_of(g, w_old.last(), ts, #[trigger] w_new[j])
                && !r_new.contains(w_new[j]) && item_fits(w_new[j]),
        forall|y: LRItemV|
            #[trigger] child_of(g, w_old.last(), ts, y) ==> r_new.contains(y) || w_new.contains(y),
    ensures
        closure_inv(g, c, k, r_new, w_new),
        w_new.len() > w_old.len() - 1 ==> !r_new.contains(w_new.last()),
{
    reveal(closure_inv);
    let x = w_old.last();
    let w_pop = w_old.drop_last();
    assert(closure_reached(g, c_old, k, w_old[w_old.len() - 1]));
    assert(item_fits(w_old[w_old.len() - 1]));
    assert(r_new.contains(x)) by {
        if !r_old.contains(x) {
            assert(r_new[r_old.len() as int] == x);
        }
    }
    assert forall|a: LRItemV| r_old.contains(a) implies r_new.contains(a) by {
        let j = choose|j: int| 0 <= j < r_old.len() && r_old[j] == a;
        assert(r_new[j] == a);
    }
    assert forall|a: LRItemV| w_pop.contains(a) implies w_new.contains(a) by {
        let j = choose|j: int| 0 <= j < w_pop.len() && w_pop[j] == a;
        assert(w_new.take(w_pop.len() as int)[j] == a);
        assert(w_new[j] == a);
    }
    assert forall|a: LRItemV| w_old.contains(a) implies r_new.contains(a) || w_new.contains(a) by {
        let j = choose|j: int| 0 <= j < w_old.len() && w_old[j] == a;
        if j < w_pop.len() {
            assert(w_pop[j] == a);
        }
    }
    // steps of `x` are its children
    assert forall|y: LRItemV| #[trigger] closure_edge(g, c, x, y) implies r_new.contains(y) || w_new.contains(y) by {
        let nm = atom_name(x.production[x.stacktop as int]);
        let i = choose|i: int| 0 <= i < g[nm].len() && #[trigger] closure_rule(g, g[nm][i], y);
        assert(child_of(g, x, ts, y));
    }
    // reachability
    let jx = choose|j: int| 0 <= j < k.len() && closure_reach(g, c_old, #[trigger] k[j], x);
    lemma_closure_reach_mono(g, c_old, c, k[jx], x);
    assert forall|i: int| 0 <= i < w_new.len() implies closure_reached(g, c, k, #[trigger] w_new[i])
        && item_fits(w_new[i]) by {
        let y = w_new[i];
        if i < w_pop.len() {
            assert(w_new.take(w_pop.len() as int)[i] == y);
            assert(w_old[i] == y);
            let j = choose|j: int| 0 <= j < k.len() && closure_reach(g, c_old, #[trigger] k[j], y);
            lemma_closure_reach_mono(g, c_old, c, k[j], y);
        } else {
            assert(child_of(g, x, ts, y));
            let nm = atom_name(x.production[x.stacktop as int]);
            let ri = choose|ri: int| 0 <= ri < g[nm].len() && #[trigger] closure_rule(g, g[nm][ri], y);
            assert(lookahead(g, c, x, y.terminal));
            assert(closure_edge(g, c, x, y));
            lemma_closure_reach_step(g, c, k[jx], x, y);
        }
    }
    assert forall|i: int| 0 <= i < r_new.len() implies closure_reached(g, c, k, #[trigger] r_new[i])
        && defined(g, c, r_new[i]) && item_fits(r_new[i]) by {
        let y = r_new[i];
        if i < r_old.len() {
            assert(r_new[i] == r_old[i]);
            let j = choose|j: int| 0 <= j < k.len() && closure_reach(g, c_old, #[trigger] k[j], y);
            lemma_closure_reach_mono(g, c_old, c, k[j], y);
            lemma_defined_mono(g, c_old, c, y);
        } else {
            assert(y == x);
        }
    }
    // the kept items stay closed
    assert forall|a: LRItemV, y: LRItemV| r_new.contains(a) && #[trigger] closure_edge(g, c, a, y) implies r_new.contains(y)
        || w_new.contains(y) by {
        if a != x {
            let j = choose|j: int| 0 <= j < r_new.len() && r_new[j] == a;
            if j >= r_old.len() {
                assert(r_new[j] == x);
            }
            assert(r_new[j] == r_old[j]);
            assert(r_old.contains(a));
            assert(defined(g, c_old, r_old[j]));
            lemma_closure_edge_stable(g, c_old, c, a, y);
            assert(r_old.contains(y) || w_old.contains(y));
        }
    }
    assert forall|i: int| 0 <= i < k.len() implies r_new.contains(#[trigger] k[i]) || w_new.contains(k[i]) by {
        assert(r_old.contains(k[i]) || w_old.contains(k[i]));
    }
    assert(r_new.no_duplicates()) by {
        if !r_old.contains(x) {
            assert forall|i: int, j: int| 0 <= i < j < r_new.len() implies r_new[i] != r_new[j] by {
                if j == r_old.len() {
                    assert(r_new[i] == r_old[i]);
                } else {
                    assert(r_new[i] == r_old[i] && r_new[j] == r_old[j]);
                }
            }
        }
    }
}

/// The closure of `initial_items`: every item they bring in, directly or not,
/// each once, in the order the worklist first takes them (the last initial
/// item first), with the lookaheads taken through the first-terminal cache, as
/// `closure_of` describes. The cache grows by the names that the items of
/// the closure look up past their dot, each with the first terminals of the
/// atom of `u` looked up under it; `u` holds the atoms of the initial items and
/// of the rules that their names lead to.
#[verifier::spinoff_prover]
#[verifier::rlimit(40)]
pub(crate) fn get_closure(
    g: &GrammarMap,
    initial_items: Vec<LRItem>,
    firsts: &mut FirstCache,
    u: Ghost<Set<AtomV>>,
) -> (res: Vec<LRItem>)
    requires
        g.wf(),
        rules_at_most(g@, u@, 254),
        rules_in(g@, u@),
        old(firsts).wf(),
        wf_cache(g@, old(firsts)@),
        cache_from(g@, old(firsts)@, u@),
        forall|i: int| 0 <= i < initial_items@.len() ==> item_fits(#[trigger] lr_view(initial_items@)[i]),
        forall|i: int| 0 <= i < initial_items@.len() ==> item_in(u@, #[trigger] lr_view(initial_items@)[i]),
    ensures
        final(firsts).wf(),
        wf_cache(g@, final(firsts)@),
        cache_from(g@, final(firsts)@, u@),
        old(firsts)@.submap_of(final(firsts)@),
        forall|k: Seq<char>|
            #[trigger] final(firsts)@.dom().contains(k) ==> old(firsts)@.dom().contains(k) || exists|x: LRItemV|
                lr_view(res@).contains(x) && #[trigger] looks_up(x, k),
        initial_items@.len() > 0 ==> res@.len() > 0 && res@[0]@ == lr_view(initial_items@).last(),
        lr_view(res@) == closure_of(g@, old(firsts)@, lr_view(initial_items@)).0,
        final(firsts)@ == closure_of(g@, old(firsts)@, lr_view(initial_items@)).1,
        lr_view(res@).no_duplicates(),
        lr_set(res@) == closure_set(g@, final(firsts)@, lr_view(initial_items@)),
        forall|x: LRItemV|
            #[trigger] lr_set(res@).contains(x) ==> defined(g@, final(firsts)@, x) && item_fits(x),
{
    let ghost k0 = lr_view(initial_items@);
    assert(rules_at_most(g@, u@, 255));
    let mut ret: Vec<LRItem> = Vec::new();
    let mut working = initial_items;
    let ghost mut steps: nat = 0;
    proof {
        lemma_closure_start(g@, firsts@, k0);
        assert(lr_view(ret@) =~= Seq::<LRItemV>::empty());
    }
    loop
        invariant
            g.wf(),
            rules_at_most(g@, u@, 254),
            rules_at_most(g@, u@, 255),
            k0 == lr_view(initial_items@),
            rules_in(g@, u@),
            firsts.wf(),
            wf_cache(g@, firsts@),
            cache_from(g@, firsts@, u@),
            old(firsts)@.submap_of(firsts@),
            closure_inv(g@, firsts@, k0, lr_view(ret@), lr_view(working@)),
            forall|i: int| 0 <= i < working@.len() ==> item_in(u@, #[trigger] lr_view(working@)[i]),
            forall|kk: Seq<char>|
                #[trigger] firsts@.dom().contains(kk) ==> old(firsts)@.dom().contains(kk) || exists|y: LRItemV|
                    lr_view(ret@).contains(y) && #[trigger] looks_up(y, kk),
            ret@.len() == 0 ==> lr_view(working@) == k0,
            ret@.len() > 0 && k0.len() > 0 ==> ret@[0]@ == k0.last(),
            forall|f: nat|
                #[trigger] closure_run(g@, firsts@, lr_view(ret@), lr_view(working@), f) == closure_run(
                    g@,
                    old(firsts)@,
                    Seq::empty(),
                    k0,
                    f + steps,
                ),
        ensures
            working@.len() == 0,
        decreases
            usize::MAX - ret@.len(),
            (if working@.len() > 0 && !lr_view(ret@).contains(lr_view(working@).last()) {
                0int
            } else {
                1int
            }),
            working@.len(),
    {
        let ghost c_old = firsts@;
        let ghost r_old = lr_view(ret@);
        let ghost w_old = lr_view(working@);
        let loop_item = match working.pop() {
            Some(x) => x,
            None => break ,
        };
        let ghost x = loop_item@;
        assert(lr_view(working@) =~= w_old.drop_last());
        assert(w_old.last() == x);
        assert(item_fits(x)) by {
            reveal(closure_inv);
            assert(item_fits(w_old[w_old.len() - 1]));
        }
        assert(item_in(u@, w_old[w_old.len() - 1]));
        assert forall|i: int| 0 <= i < working@.len() implies item_in(u@, #[trigger] lr_view(working@)[i]) by {
            assert(lr_view(working@)[i] == w_old[i]);
        }
        if !contains_item(&ret, &loop_item) {
            ret.push(loop_item.clone());
            assert(lr_view(ret@) =~= r_old.push(x));
            assert(lr_view(ret@)[r_old.len() as int] == x);
            proof {
                if r_old.len() > 0 {
                    assert(lr_view(ret@)[0] == r_old[0]);
                } else {
                    assert(x == k0.last());
                }
            }
        } else {
            assert(lr_set(ret@).contains(x));
        }
        assert(lr_view(ret@).contains(x));
        assert forall|y: LRItemV| r_old.contains(y) implies lr_view(ret@).contains(y) by {
            let j = choose|j: int| 0 <= j < r_old.len() && r_old[j] == y;
            assert(lr_view(ret@)[j] == y);
        }
        let terminals = lookaheads_of(g, &loop_item, firsts, u);
        proof {
            assert forall|kk: Seq<char>| #[trigger] firsts@.dom().contains(kk) implies old(firsts)@.dom().contains(kk)
                || exists|y: LRItemV| lr_view(ret@).contains(y) && #[trigger] looks_up(y, kk) by {
                if !c_old.dom().contains(kk) {
                    assert(looks_up(x, kk));
                } else if !old(firsts)@.dom().contains(kk) {
                    let y = choose|y: LRItemV| r_old.contains(y) && #[trigger] looks_up(y, kk);
                    assert(lr_view(ret@).contains(y));
                }
            }
        }
        let ghost w_pop = lr_view(working@);
        let ghost ts = atom_set(terminals@);
        if (loop_item.stacktop as usize) < loop_item.production.len() {
            let expand_symbol = &loop_item.production[loop_item.stacktop as usize];
            let symbol_name = get_atom_string(expand_symbol);
            assert(symbol_name@ == atom_name(x.production[x.stacktop as int]));
            match g.get(&symbol_name) {
                Some(items) => {
                    proof {
                        assert(u@.contains(x.production[x.stacktop as int]));
                        assert forall|i: int| 0 <= i < g@[symbol_name@].len() implies (#[trigger] g@[symbol_name@][i]).production.len() <= 254 by {
                            assert(g@[atom_name(x.production[x.stacktop as int])][i] == g@[symbol_name@][i]);
                        }
                    }
                    push_children(g, items, &terminals, &ret, &mut working, Ghost(symbol_name@));
                    proof {
                        let w_new = lr_view(working@);
                        let nm = symbol_name@;
                        assert forall|j: int| w_pop.len() <= j < w_new.len() implies child_of(g@, x, ts, #[trigger] w_new[j])
                            && !lr_view(ret@).contains(w_new[j]) && item_fits(w_new[j]) by {
                            let y = w_new[j];
                            assert(exists|i: int| 0 <= i < g@[nm].len() && #[trigger] closure_rule(g@, g@[nm][i], y));
                        }
                        assert forall|y: LRItemV| #[trigger] child_of(g@, x, ts, y) implies lr_view(ret@).contains(y)
                            || w_new.contains(y) by {
                            let i = choose|i: int| 0 <= i < g@[nm].len() && #[trigger] closure_rule(g@, g@[nm][i], y);
                            assert(lr_set(ret@).contains(y) || lr_set(working@).contains(y));
                        }
                        assert forall|j: int| 0 <= j < working@.len() implies item_in(u@, #[trigger] lr_view(working@)[j]) by {
                            let y = w_new[j];
                            if j < w_pop.len() {
                                assert(w_new.take(w_pop.len() as int)[j] == y);
                                assert(w_pop[j] == w_old[j]);
                            } else {
                                let i = choose|i: int| 0 <= i < g@[nm].len() && #[trigger] closure_rule(g@, g@[nm][i], y);
                                lemma_rule_item_in(g@, u@, x.production[x.stacktop as int], i, y);
                            }
                        }
                    }
                },
                None => {
                    assert(forall|y: LRItemV| !#[trigger] child_of(g@, x, ts, y));
                },
            }
        } else {
            assert(forall|y: LRItemV| !#[trigger] child_of(g@, x, ts, y));
        }
        let _ = ret.len();
        proof {
            let w_new = lr_view(working@);
            assert(w_new.take(w_pop.len() as int) == w_pop);
            assert(old(firsts)@.submap_of(firsts@)) by {
                assert forall|k: Seq<char>| #[trigger] old(firsts)@.dom().contains(k) implies firsts@.dom().contains(k)
                    && old(firsts)@[k] == firsts@[k] by {
                    assert(c_old.dom().contains(k));
                }
            }
            lemma_closure_step(g@, c_old, firsts@, k0, r_old, w_old, lr_view(ret@), w_new, ts);
            assert(closure_step(g@, c_old, r_old, w_old) == (firsts@, lr_view(ret@), w_new)) by {
                assert(w_old.last() == x && w_old.drop_last() == w_pop);
            }
            lemma_closure_run_round(g@, c_old, r_old, w_old, old(firsts)@, k0, steps);
            steps = steps + 1;
        }
    }
    proof {
        assert(lr_view(working@) =~= Seq::<LRItemV>::empty());
        lemma_closure_done(g@, firsts@, k0, lr_view(ret@));
        assert(closure_run(g@, firsts@, lr_view(ret@), lr_view(working@), 1) == Some((lr_view(ret@), firsts@)));
        lemma_closure_of(g@, old(firsts)@, k0, 1 + steps);
    }
    ret
}

} // verus!

verus! {

// ---------------------------------------------------------------------------
// States and transitions
// ---------------------------------------------------------------------------

/// The item with its dot moved one atom on.
pub open spec fn advance(x: LRItemV) -> LRItemV {
    LRItemV {
        stacktop: (x.stacktop + 1) as u8,
        terminal: x.terminal,
        symbol: x.symbol,
        production: x.production,
    }
}

/// The items of `s` whose dot stands before `a`, with the dot moved past it, in order.
pub open spec fn goto_kernel(s: Seq<LRItemV>, a: AtomV) -> Seq<LRItemV>
    decreases s.len(),
{
    if s.len() == 0 {
        Seq::empty()
    } else {
        let prev = goto_kernel(s.drop_last(), a);
        let x = s.last();
        if x.stacktop < x.production.len() && x.production[x.stacktop as int] == a {
            prev.push(advance(x))
        } else {
            prev
        }
    }
}

/// `s` is the state whose kernel is `k`: the closure of `k`, each item once,
/// from last to first in the order of items.
pub open spec fn is_state(
    g: Map<Seq<char>, Seq<GrammarItemV>>,
    c: Map<Seq<char>, Seq<AtomV>>,
    s: Seq<LRItemV>,
    k: Seq<LRItemV>,
) -> bool {
    &&& s.no_duplicates()
    &&& strictly_descending(s)
    &&& s.to_set() == closure_set(g, c, k)
    &&& forall|x: LRItemV| #[trigger] s.to_set().contains(x) ==> defined(g, c, x) && item_fits(x)
}

pub(crate) proof fn lemma_is_state_stable(
    g: Map<Seq<char>, Seq<GrammarItemV>>,
    c: Map<Seq<char>, Seq<AtomV>>,
    c2: Map<Seq<char>, Seq<AtomV>>,
    s: Seq<LRItemV>,
    k: Seq<LRItemV>,
)
    requires
        c.submap_of(c2),
        is_state(g, c, s, k),
    ensures
        is_state(g, c2, s, k),
{
    assert forall|x: LRItemV| #[trigger] closure_set(g, c, k).contains(x) implies defined(g, c, x) by {
        assert(s.to_set().contains(x));
    }
    lemma_closure_stable(g, c, c2, k);
    assert forall|x: LRItemV| #[trigger] s.to_set().contains(x) implies defined(g, c2, x) && item_fits(x) by {
        lemma_defined_mono(g, c, c2, x);
    }
}

/// A copy of a sequence of items.
fn copy_lr_items(v: &Vec<LRItem>) -> (res: Vec<LRItem>)
    ensures
        lr_view(res@) == lr_view(v@),
{
    let mut res: Vec<LRItem> = Vec::new();
    let mut i: usize = 0;
    while i < v.len()
        invariant
            i <= v.len(),
            res@.len() == i,
            forall|k: int| 0 <= k < i ==> #[trigger] res@[k]@ == v@[k]@,
        decreases v.len() - i,
    {
        res.push(v[i].clone());
        i += 1;
    }
    assert(lr_view(res@) =~= lr_view(v@));
    res
}

/// Whether two sequences of items are equal.
fn lr_items_eq(a: &Vec<LRItem>, b: &Vec<LRItem>) -> (res: bool)
    ensures
        res == (lr_view(a@) == lr_view(b@)),
{
    if a.len() != b.len() {
        assert(lr_view(a@).len() != lr_view(b@).len());
        return false;
    }
    let mut i: usize = 0;
    while i < a.len()
        invariant
            i <= a.len(),
            a.len() == b.len(),
            forall|k: int| 0 <= k < i ==> #[trigger] a@[k]@ == b@[k]@,
        decreases a.len() - i,
    {
        if !lr_item_eq(&a[i], &b[i]) {
            assert(lr_view(a@)[i as int] != lr_view(b@)[i as int]);
            return false;
        }
        i += 1;
    }
    assert(lr_view(a@) =~= lr_view(b@));
    true
}

/// A state computed for a kernel.
pub struct StateEntry {
    pub kernel: Vec<LRItem>,
    pub state: Vec<LRItem>,
}

/// The states already computed, with their kernels.
pub struct StateCache {
    pub entries: Vec<StateEntry>,
}

/// The kernels of a state cache with their states, in order.
pub open spec fn cache_pairs(gc: Seq<StateEntry>) -> Seq<(Seq<LRItemV>, Seq<LRItemV>)> {
    gc.map_values(|e: StateEntry| (lr_view(e.kernel@), lr_view(e.state@)))
}

/// The state of the first pair whose kernel is `kernel`, if any.
pub open spec fn state_lookup(
    pairs: Seq<(Seq<LRItemV>, Seq<LRItemV>)>,
    kernel: Seq<LRItemV>,
) -> Option<Seq<LRItemV>>
    decreases pairs.len(),
{
    if pairs.len() == 0 {
        None
    } else if pairs[0].0 == kernel {
        Some(pairs[0].1)
    } else {
        state_lookup(pairs.drop_first(), kernel)
    }
}

/// The lookup finds the first pair with the kernel.
pub proof fn lemma_state_lookup_at(pairs: Seq<(Seq<LRItemV>, Seq<LRItemV>)>, kernel: Seq<LRItemV>, k: int)
    requires
        0 <= k <= pairs.len(),
        forall|j: int| 0 <= j < k ==> (#[trigger] pairs[j]).0 != kernel,
    ensures
        k < pairs.len() && pairs[k].0 == kernel ==> state_lookup(pairs, kernel) == Some(pairs[k].1),
        k == pairs.len() ==> state_lookup(pairs, kernel) is None,
    decreases k,
{
    if k > 0 {
        let rest = pairs.drop_first();
        assert forall|j: int| 0 <= j < k - 1 implies (#[trigger] rest[j]).0 != kernel by {
            assert(rest[j] == pairs[j + 1]);
        }
        lemma_state_lookup_at(rest, kernel, k - 1);
        assert(pairs[0].0 != kernel);
        if k < pairs.len() {
            assert(rest[k - 1] == pairs[k]);
        }
    }
}

/// A goto for `kernel` that found the pairs `before` answered `res` and left
/// `after`: the state cached for the kernel and the pairs unchanged when there
/// is one, else the pairs with `(kernel, res)` added.
pub open spec fn goto_cached(
    before: Seq<(Seq<LRItemV>, Seq<LRItemV>)>,
    kernel: Seq<LRItemV>,
    res: Seq<LRItemV>,
    after: Seq<(Seq<LRItemV>, Seq<LRItemV>)>,
) -> bool {
    match state_lookup(before, kernel) {
        Some(s) => res == s && after == before,
        None => after == before.push((kernel, res)),
    }
}

/// What a goto from the state `cc` over the atom `a` gives, from the
/// first-terminal cache `c` and the cached states `p`: the state `res` and the
/// caches `c2` and `p2` after it. A kernel already cached gives its state and
/// leaves both caches; a new one gives its closure sorted from last to first,
/// the cache after that closure, and the pairs with the new one added.
pub open spec fn goto_result(
    g: Map<Seq<char>, Seq<GrammarItemV>>,
    c: Map<Seq<char>, Seq<AtomV>>,
    p: Seq<(Seq<LRItemV>, Seq<LRItemV>)>,
    cc: Seq<LRItemV>,
    a: AtomV,
    res: Seq<LRItemV>,
    c2: Map<Seq<char>, Seq<AtomV>>,
    p2: Seq<(Seq<LRItemV>, Seq<LRItemV>)>,
) -> bool {
    let kernel = goto_kernel(cc, a);
    &&& goto_cached(p, kernel, res, p2)
    &&& state_lookup(p, kernel) is Some ==> c2 == c
    &&& state_lookup(p, kernel) is None ==> {
        &&& c2 == closure_of(g, c, kernel).1
        &&& res.to_set() == closure_of(g, c, kernel).0.to_set()
        &&& strictly_descending(res)
    }
}

/// Every cached state is the state of its kernel.
pub open spec fn state_cache_ok(
    g: Map<Seq<char>, Seq<GrammarItemV>>,
    c: Map<Seq<char>, Seq<AtomV>>,
    gc: Seq<StateEntry>,
) -> bool {
    forall|i: int|
        0 <= i < gc.len() ==> is_state(
            g,
            c,
            lr_view((#[trigger] gc[i]).state@),
            lr_view(gc[i].kernel@),
        )
}

proof fn lemma_state_cache_stable(
    g: Map<Seq<char>, Seq<GrammarItemV>>,
    c: Map<Seq<char>, Seq<AtomV>>,
    c2: Map<Seq<char>, Seq<AtomV>>,
    gc: Seq<StateEntry>,
)
    requires
        c.submap_of(c2),
        state_cache_ok(g, c, gc),
    ensures
        state_cache_ok(g, c2, gc),
{
    assert forall|i: int| 0 <= i < gc.len() implies is_state(g, c2, lr_view((#[trigger] gc[i]).state@), lr_view(gc[i].kernel@)) by {
        lemma_is_state_stable(g, c, c2, lr_view(gc[i].state@), lr_view(gc[i].kernel@));
    }
}

/// The state reached from the state `cc` over the atom `goto_atom`: the closure
/// of the items of `cc` whose dot stands before it, with the dot moved past it,
/// sorted from last to first; computed once per kernel. A kernel already in
/// `goto_cache` gives its cached state and leaves both caches as they were; a
/// new one is added with its state.
pub(crate) fn goto(
    g: &GrammarMap,
    cc: &Vec<LRItem>,
    goto_atom: &Atom,
    firsts: &mut FirstCache,
    goto_cache: &mut StateCache,
    u: Ghost<Set<AtomV>>,
) -> (res: Vec<LRItem>)
    requires
        g.wf(),
        rules_at_most(g@, u@, 254),
        rules_in(g@, u@),
        old(firsts).wf(),
        wf_cache(g@, old(firsts)@),
        cache_from(g@, old(firsts)@, u@),
        state_cache_ok(g@, old(firsts)@, old(goto_cache).entries@),
        forall|i: int| 0 <= i < cc@.len() ==> item_fits(#[trigger] lr_view(cc@)[i]),
        forall|i: int| 0 <= i < cc@.len() ==> item_in(u@, #[trigger] lr_view(cc@)[i]),
    ensures
        final(firsts).wf(),
        wf_cache(g@, final(firsts)@),
        cache_from(g@, final(firsts)@, u@),
        old(firsts)@.submap_of(final(firsts)@),
        state_cache_ok(g@, final(firsts)@, final(goto_cache).entries@),
        is_state(g@, final(firsts)@, lr_view(res@), goto_kernel(lr_view(cc@), goto_atom@)),
        goto_cached(
            cache_pairs(old(goto_cache).entries@),
            goto_kernel(lr_view(cc@), goto_atom@),
            lr_view(res@),
            cache_pairs(final(goto_cache).entries@),
        ),
        state_lookup(cache_pairs(old(goto_cache).entries@), goto_kernel(lr_view(cc@), goto_atom@)) is Some
            ==> final(goto_cache).entries@ == old(goto_cache).entries@ && final(firsts)@ == old(firsts)@,
        goto_result(
            g@,
            old(firsts)@,
            cache_pairs(old(goto_cache).entries@),
            lr_view(cc@),
            goto_atom@,
            lr_view(res@),
            final(firsts)@,
            cache_pairs(final(goto_cache).entries@),
        ),
        forall|k: Seq<char>|
            #[trigger] final(firsts)@.dom().contains(k) ==> old(firsts)@.dom().contains(k) || exists|x: LRItemV|
                lr_view(res@).contains(x) && #[trigger] looks_up(x, k),
{
    let ghost cv = lr_view(cc@);
    let ghost a = goto_atom@;
    let mut ret: Vec<LRItem> = Vec::new();
    let mut i: usize = 0;
    while i < cc.len()
        invariant
            i <= cc@.len(),
            cv == lr_view(cc@),
            a == goto_atom@,
            forall|j: int| 0 <= j < cc@.len() ==> item_fits(#[trigger] lr_view(cc@)[j]),
            lr_view(ret@) == goto_kernel(cv.take(i as int), a),
            forall|j: int| 0 <= j < ret@.len() ==> item_fits(#[trigger] lr_view(ret@)[j]),
            forall|j: int| 0 <= j < cc@.len() ==> item_in(u@, #[trigger] lr_view(cc@)[j]),
            forall|j: int| 0 <= j < ret@.len() ==> item_in(u@, #[trigger] lr_view(ret@)[j]),
        decreases cc.len() - i,
    {
        let item = &cc[i];
        assert(cv.take(i + 1).drop_last() =~= cv.take(i as int));
        assert(cv.take(i + 1).last() == item@);
        assert(item_fits(cv[i as int]));
        if (item.stacktop as usize) < item.production.len() {
            if atom_eq(&item.production[item.stacktop as usize], goto_atom) {
                let ghost before = lr_view(ret@);
                ret.push(
                    LRItem {
                        stacktop: item.stacktop + 1u8,
                        symbol: item.symbol.clone(),
                        terminal: item.terminal.clone(),
                        production: copy_atoms(&item.production),
                    },
                );
                assert(lr_view(ret@) =~= before.push(advance(item@)));
                assert(item_in(u@, cv[i as int]));
                assert forall|j: int| 0 <= j < ret@.len() implies item_in(u@, #[trigger] lr_view(ret@)[j]) by {
                    if j < before.len() {
                        assert(lr_view(ret@)[j] == before[j]);
                    } else {
                        assert(lr_view(ret@)[j] == advance(item@));
                    }
                }
            }
        }
        i += 1;
    }
    assert(cv.take(cc@.len() as int) =~= cv);
    let ghost kernel = lr_view(ret@);
    let mut k: usize = 0;
    while k < goto_cache.entries.len()
        invariant
            k <= goto_cache.entries@.len(),
            state_cache_ok(g@, firsts@, goto_cache.entries@),
            kernel == lr_view(ret@),
            kernel == goto_kernel(cv, a),
            cv == lr_view(cc@),
            a == goto_atom@,
            firsts.wf(),
            wf_cache(g@, firsts@),
            firsts@ == old(firsts)@,
            cache_from(g@, firsts@, u@),
            goto_cache.entries@ == old(goto_cache).entries@,
            forall|j: int| 0 <= j < k ==> (#[trigger] cache_pairs(goto_cache.entries@)[j]).0 != kernel,
        decreases goto_cache.entries.len() - k,
    {
        if lr_items_eq(&goto_cache.entries[k].kernel, &ret) {
            let res = copy_lr_items(&goto_cache.entries[k].state);
            proof {
                lemma_state_lookup_at(cache_pairs(goto_cache.entries@), kernel, k as int);
            }
            assert(is_state(g@, firsts@, lr_view(goto_cache.entries@[k as int].state@), lr_view(goto_cache.entries@[k as int].kernel@)));
            assert(lr_view(goto_cache.entries@[k as int].kernel@) == kernel);
            assert(lr_view(res@) == lr_view(goto_cache.entries@[k as int].state@));
            return res;
        }
        assert(cache_pairs(goto_cache.entries@)[k as int].0 != kernel);
        k += 1;
    }
    proof {
        lemma_state_lookup_at(cache_pairs(goto_cache.entries@), kernel, k as int);
    }
    let ghost c0 = firsts@;
    let kernel_copy = copy_lr_items(&ret);
    let closed = get_closure(g, ret, firsts, u);
    let sorted = sort_items_descending(closed);
    proof {
        lemma_state_cache_stable(g@, c0, firsts@, goto_cache.entries@);
    }
    let ghost old_gc = goto_cache.entries@;
    goto_cache.entries.push(StateEntry { kernel: kernel_copy, state: copy_lr_items(&sorted) });
    proof {
        let s = lr_view(sorted@);
        assert forall|x: LRItemV| #[trigger] s.to_set().contains(x) implies defined(g@, firsts@, x) && item_fits(x) by {
            assert(lr_set(closed@).contains(x));
        }
        assert(is_state(g@, firsts@, s, kernel));
        assert forall|j: int| 0 <= j < goto_cache.entries@.len() implies is_state(g@, firsts@, lr_view((#[trigger] goto_cache.entries@[j]).state@), lr_view(goto_cache.entries@[j].kernel@)) by {
            if j < old_gc.len() {
                assert(goto_cache.entries@[j] == old_gc[j]);
            }
        }
        assert(cache_pairs(goto_cache.entries@) =~= cache_pairs(old_gc).push((kernel, s)));
        assert forall|kk: Seq<char>| #[trigger] firsts@.dom().contains(kk) implies old(firsts)@.dom().contains(kk)
            || exists|x: LRItemV| lr_view(sorted@).contains(x) && #[trigger] looks_up(x, kk) by {
            if !old(firsts)@.dom().contains(kk) {
                let x = choose|x: LRItemV| lr_view(closed@).contains(x) && #[trigger] looks_up(x, kk);
                assert(lr_view(closed@).to_set().contains(x));
                assert(lr_view(sorted@).to_set().contains(x));
            }
        }
    }
    sorted
}

} // verus!

verus! {

// ---------------------------------------------------------------------------
// Parse tables
// ---------------------------------------------------------------------------

/// What a parser does on a table entry.
#[derive(Debug, Clone, Copy, PartialEq, Eq, Structural, Hash, PartialOrd, Ord)]
pub enum Action {
    Reduce,
    Shift,
}

/// The abstract value of a table entry.
pub struct TableItemV {
    pub state: u32,
    pub lr_item: Option<GrammarItemV>,
    pub action: Action,
}

/// A table entry: shift to `state`, or reduce by the rule `lr_item`.
#[derive(Debug, PartialEq, Eq, Hash, PartialOrd, Ord)]
pub struct TableItem {
    pub state: u32,
    pub lr_item: Option<GrammarItem>,
    pub action: Action,
}

impl View for TableItem {
    type V = TableItemV;

    open spec fn view(&self) -> TableItemV {
        TableItemV {
            state: self.state,
            lr_item: match self.lr_item {
                Some(r) => Some(r@),
                None => None,
            },
            action: self.action,
        }
    }
}

impl Clone for TableItem {
    fn clone(&self) -> (res: Self)
        ensures
            res@ == self@,
    {
        TableItem {
            state: self.state,
            lr_item: match &self.lr_item {
                Some(r) => Some(r.clone()),
                None => None,
            },
            action: self.action,
        }
    }
}

/// Whether two table entries are equal.
pub fn table_item_eq(a: &TableItem, b: &TableItem) -> (res: bool)
    ensures
        res == (a@ == b@),
{
    if a.state != b.state || a.action != b.action {
        return false;
    }
    match (&a.lr_item, &b.lr_item) {
        (Some(x), Some(y)) => crate::grammar::grammar_item_eq(x, y),
        (None, None) => true,
        _ => false,
    }
}

/// The abstract values of a sequence of table entries, as a set.
pub open spec fn table_items_set(s: Seq<TableItem>) -> Set<TableItemV> {
    table_items_view(s).to_set()
}

/// The abstract values of a sequence of table entries.
pub open spec fn table_items_view(s: Seq<TableItem>) -> Seq<TableItemV> {
    s.map_values(|t: TableItem| t@)
}

/// The entries of an action row for one terminal.
pub struct ActionEntry {
    pub terminal: String,
    pub items: Vec<TableItem>,
}

/// The actions of one state, by terminal name.
pub struct ActionRow {
    pub entries: Vec<ActionEntry>,
}

impl ActionRow {
    /// No terminal has two entries.
    pub open spec fn wf(&self) -> bool {
        forall|i: int, j: int|
            0 <= i < j < self.entries@.len() ==> self.entries@[i].terminal@ != self.entries@[j].terminal@
    }

    /// Some entry has the key `k`.
    pub open spec fn has_key(&self, k: Seq<char>) -> bool {
        exists|i: int| 0 <= i < self.entries@.len() && self.entries@[i].terminal@ == k
    }

    /// The position of an entry with the key `k`.
    pub open spec fn key_index(&self, k: Seq<char>) -> int {
        choose|i: int| 0 <= i < self.entries@.len() && self.entries@[i].terminal@ == k
    }

    /// The position of the entries for `t`, if any.
    pub fn find(&self, t: &String) -> (res: Option<usize>)
        requires
            self.wf(),
        ensures
            match res {
                Some(i) => i < self.entries@.len() && self.entries@[i as int].terminal@ == t@
                    && self@.dom().contains(t@) && self.key_index(t@) == i,
                None => !self@.dom().contains(t@),
            },
    {
        let mut i: usize = 0;
        while i < self.entries.len()
            invariant
                i <= self.entries@.len(),
                self.wf(),
                forall|j: int| 0 <= j < i ==> self.entries@[j].terminal@ != t@,
            decreases self.entries.len() - i,
        {
            if self.entries[i].terminal.eq(t) {
                assert(self.has_key(t@));
                assert(self.key_index(t@) == i);
                return Some(i);
            }
            i += 1;
        }
        None
    }

    /// Adds `ti` to the entries of `t`.
    fn add(&mut self, t: &String, ti: TableItem)
        requires
            old(self).wf(),
        ensures
            final(self).wf(),
            final(self)@ == add_action(old(self)@, t@, ti@),
    {
        let ghost old_self = *self;
        let ghost tiv = ti@;
        match self.find(t) {
            Some(i) => {
                let mut items = copy_table_items(&self.entries[i].items);
                let ghost old_set = table_items_set(items@);
                if !contains_table_item(&items, &ti) {
                    items.push(ti);
assert(table_items_view(items@) =~= table_items_view(old_self.entries@[i as int].items@).push(tiv));
                }
                let name = self.entries[i].terminal.clone();
                self.entries.set(i, ActionEntry { terminal: name, items });
                proof {
                    assert(table_items_set(items@) =~= old_set.insert(tiv)) by {
table_items_view(old_self.entries@[i as int].items@).lemma_push_to_set_commute(tiv);
                    }
                    assert forall|k: Seq<char>| self.has_key(k) == old_self.has_key(k) by {
                        if self.has_key(k) {
                            let j = choose|j: int| 0 <= j < self.entries@.len() && self.entries@[j].terminal@ == k;
                            assert(old_self.entries@[j].terminal@ == k);
                        }
                        if old_self.has_key(k) {
                            let j = choose|j: int| 0 <= j < old_self.entries@.len() && old_self.entries@[j].terminal@ == k;
                            assert(self.entries@[j].terminal@ == k);
                        }
                    }
                    assert forall|k: Seq<char>| old_self.has_key(k) implies self.key_index(k) == old_self.key_index(k) by {
                        let j = old_self.key_index(k);
                        assert(self.entries@[j].terminal@ == k);
                    }
                    assert(self@ =~= add_action(old_self@, t@, tiv));
                }
            },
            None => {
                let mut items: Vec<TableItem> = Vec::new();
                items.push(ti);
                self.entries.push(ActionEntry { terminal: t.clone(), items });
                proof {
                    let n = old_self.entries@.len();
                    assert(self.entries@[n as int].terminal@ == t@);
                    assert(table_items_set(self.entries@[n as int].items@) =~= Set::empty().insert(tiv)) by {
assert(table_items_view(self.entries@[n as int].items@) =~= seq![tiv]);
                    }
                    assert forall|k: Seq<char>| self.has_key(k) == (old_self.has_key(k) || k == t@) by {
                        if self.has_key(k) {
                            let j = choose|j: int| 0 <= j < self.entries@.len() && self.entries@[j].terminal@ == k;
                            if j < n {
                                assert(old_self.entries@[j].terminal@ == k);
                            }
                        }
                        if old_self.has_key(k) {
                            let j = choose|j: int| 0 <= j < old_self.entries@.len() && old_self.entries@[j].terminal@ == k;
                            assert(self.entries@[j].terminal@ == k);
                        }
                    }
                    assert forall|k: Seq<char>| old_self.has_key(k) implies self.key_index(k) == old_self.key_index(k) by {
                        let j = old_self.key_index(k);
                        assert(self.entries@[j].terminal@ == k);
                        let j2 = self.key_index(k);
                        if j2 == n {
                            assert(k == t@);
                        }
                    }
                    assert(self.key_index(t@) == n);
                    assert(self@ =~= add_action(old_self@, t@, tiv));
                }
            },
        }
    }
}

impl View for ActionRow {
    type V = Map<Seq<char>, Set<TableItemV>>;

    open spec fn view(&self) -> Map<Seq<char>, Set<TableItemV>> {
        Map::new(
            |k: Seq<char>| self.has_key(k),
            |k: Seq<char>| table_items_set(self.entries@[self.key_index(k)].items@),
        )
    }
}

/// The action map with `ti` added to the entries of `t`.
pub open spec fn add_action(
    m: Map<Seq<char>, Set<TableItemV>>,
    t: Seq<char>,
    ti: TableItemV,
) -> Map<Seq<char>, Set<TableItemV>> {
    if m.dom().contains(t) {
        m.insert(t, m[t].insert(ti))
    } else {
        m.insert(t, Set::empty().insert(ti))
    }
}

/// A copy of a sequence of table entries.
pub(crate) fn copy_table_items(v: &Vec<TableItem>) -> (res: Vec<TableItem>)
    ensures
table_items_view(res@) == table_items_view(v@),
{
    let mut res: Vec<TableItem> = Vec::new();
    let mut i: usize = 0;
    while i < v.len()
        invariant
            i <= v.len(),
            res@.len() == i,
            forall|k: int| 0 <= k < i ==> #[trigger] res@[k]@ == v@[k]@,
        decreases v.len() - i,
    {
        res.push(v[i].clone());
        i += 1;
    }
assert(table_items_view(res@) =~= table_items_view(v@));
    res
}

/// Whether some entry of `v` equals `t`.
fn contains_table_item(v: &Vec<TableItem>, t: &TableItem) -> (res: bool)
    ensures
        res == table_items_set(v@).contains(t@),
{
    let mut i: usize = 0;
    while i < v.len()
        invariant
            i <= v@.len(),
            forall|j: int| 0 <= j < i ==> v@[j]@ != t@,
        decreases v.len() - i,
    {
        if table_item_eq(&v[i], t) {
assert(table_items_view(v@)[i as int] == t@);
            return true;
        }
        i += 1;
    }
    assert forall|j: int| 0 <= j < v@.len() implies #[trigger] table_items_view(v@)[j] != t@ by {}
    false
}

/// The state to go to on a symbol name.
pub struct GotoEntry {
    pub symbol: String,
    pub state: u32,
}

/// The gotos of one state, by symbol name.
pub struct GotoRow {
    pub entries: Vec<GotoEntry>,
}

impl GotoRow {
    /// No symbol has two entries.
    pub open spec fn wf(&self) -> bool {
        forall|i: int, j: int|
            0 <= i < j < self.entries@.len() ==> self.entries@[i].symbol@ != self.entries@[j].symbol@
    }

    /// Some entry has the key `k`.
    pub open spec fn has_key(&self, k: Seq<char>) -> bool {
        exists|i: int| 0 <= i < self.entries@.len() && self.entries@[i].symbol@ == k
    }

    /// The position of an entry with the key `k`.
    pub open spec fn key_index(&self, k: Seq<char>) -> int {
        choose|i: int| 0 <= i < self.entries@.len() && self.entries@[i].symbol@ == k
    }

    /// The state to go to on `n`, if any.
    pub fn get(&self, n: &String) -> (res: Option<u32>)
        requires
            self.wf(),
        ensures
            match res {
                Some(s) => self@.dom().contains(n@) && self@[n@] == s,
                None => !self@.dom().contains(n@),
            },
    {
        let mut i: usize = 0;
        while i < self.entries.len()
            invariant
                i <= self.entries@.len(),
                self.wf(),
                forall|j: int| 0 <= j < i ==> self.entries@[j].symbol@ != n@,
            decreases self.entries.len() - i,
        {
            if self.entries[i].symbol.eq(n) {
                assert(self.has_key(n@));
                assert(self.key_index(n@) == i);
                return Some(self.entries[i].state);
            }
            i += 1;
        }
        None
    }

    /// Sets the state to go to on `n`.
    fn insert(&mut self, n: &String, state: u32)
        requires
            old(self).wf(),
        ensures
            final(self).wf(),
            final(self)@ == old(self)@.insert(n@, state),
    {
        let ghost old_self = *self;
        let mut i: usize = 0;
        while i < self.entries.len()
            invariant
                i <= self.entries@.len(),
                self.wf(),
                *self == old_self,
                old_self == *old(self),
                forall|j: int| 0 <= j < i ==> self.entries@[j].symbol@ != n@,
            decreases self.entries.len() - i,
        {
            if self.entries[i].symbol.eq(n) {
                self.entries.set(i, GotoEntry { symbol: n.clone(), state });
                proof {
                    assert forall|j: int| 0 <= j < self.entries@.len() implies #[trigger] self.entries@[j].symbol@ == old_self.entries@[j].symbol@ by {}
                    assert(self.wf());
                    assert(self.entries@[i as int].symbol@ == n@);
                    assert(self.has_key(n@));
                    assert forall|j: int| 0 <= j < self.entries@.len() && j != i implies #[trigger] self.entries@[j] == old_self.entries@[j] by {}
                    assert forall|k: Seq<char>| self.has_key(k) == old_self.has_key(k) by {
                        if self.has_key(k) {
                            let j = choose|j: int| 0 <= j < self.entries@.len() && self.entries@[j].symbol@ == k;
                            assert(old_self.entries@[j].symbol@ == k);
                        }
                        if old_self.has_key(k) {
                            let j = choose|j: int| 0 <= j < old_self.entries@.len() && old_self.entries@[j].symbol@ == k;
                            assert(self.entries@[j].symbol@ == k);
                        }
                    }
                    assert forall|k: Seq<char>| old_self.has_key(k) implies self.key_index(k) == old_self.key_index(k) by {
                        let j = old_self.key_index(k);
                        assert(self.entries@[j].symbol@ == k);
                    }
                    assert(self.key_index(n@) == i);
                    assert(self@ =~= old_self@.insert(n@, state));
                }
                return;
            }
            i += 1;
        }
        self.entries.push(GotoEntry { symbol: n.clone(), state });
        proof {
            let m = old_self.entries@.len();
            assert(self.entries@[m as int].symbol@ == n@);
            assert forall|k: Seq<char>| self.has_key(k) == (old_self.has_key(k) || k == n@) by {
                if self.has_key(k) {
                    let j = choose|j: int| 0 <= j < self.entries@.len() && self.entries@[j].symbol@ == k;
                    if j < m {
                        assert(old_self.entries@[j].symbol@ == k);
                    }
                }
                if old_self.has_key(k) {
                    let j = choose|j: int| 0 <= j < old_self.entries@.len() && old_self.entries@[j].symbol@ == k;
                    assert(self.entries@[j].symbol@ == k);
                }
            }
            assert forall|k: Seq<char>| old_self.has_key(k) implies self.key_index(k) == old_self.key_index(k) by {
                let j = old_self.key_index(k);
                assert(self.entries@[j].symbol@ == k);
                let j2 = self.key_index(k);
                if j2 == m {
                    assert(k == n@);
                }
            }
            assert(self.key_index(n@) == m);
            assert(self@ =~= old_self@.insert(n@, state));
        }
    }
}

impl View for GotoRow {
    type V = Map<Seq<char>, u32>;

    open spec fn view(&self) -> Map<Seq<char>, u32> {
        Map::new(|k: Seq<char>| self.has_key(k), |k: Seq<char>| self.entries@[self.key_index(k)].state)
    }
}

} // verus!

verus! {

/// The abstract value of one row of the tables, with the atoms already handled.
pub struct RowV {
    pub action: Map<Seq<char>, Set<TableItemV>>,
    pub goto: Map<Seq<char>, u32>,
    pub seen: Set<AtomV>,
}

/// The entry that reduces by the rule of the item `x`.
pub open spec fn reduce_entry(x: LRItemV) -> TableItemV {
    TableItemV {
        state: 0,
        lr_item: Some(GrammarItemV { symbol: x.symbol, production: x.production }),
        action: Action::Reduce,
    }
}

/// The entry that shifts to state `j`.
pub open spec fn shift_entry(j: u32) -> TableItemV {
    TableItemV { state: j, lr_item: None, action: Action::Shift }
}

/// The row after handling the item `x`, with `tgt` giving the state reached
/// over each atom. A complete item adds a reduction on its lookahead terminal,
/// unless its production is empty and that terminal has entries already; the
/// first item with the dot before a given atom adds a goto (symbol) or a shift
/// (terminal) to the state reached over it.
pub open spec fn row_step(r: RowV, x: LRItemV, tgt: Map<AtomV, u32>) -> RowV {
    if x.stacktop >= x.production.len() {
        match x.terminal {
            AtomV::Terminal(t) => if r.action.dom().contains(t) && x.production.len() == 0 {
                r
            } else {
                RowV { action: add_action(r.action, t, reduce_entry(x)), goto: r.goto, seen: r.seen }
            },
            AtomV::Symbol(_) => r,
        }
    } else {
        let a = x.production[x.stacktop as int];
        if r.seen.contains(a) {
            r
        } else {
            match a {
                AtomV::Symbol(n) => RowV {
                    action: r.action,
                    goto: r.goto.insert(n, tgt[a]),
                    seen: r.seen.insert(a),
                },
                AtomV::Terminal(t) => RowV {
                    action: add_action(r.action, t, shift_entry(tgt[a])),
                    goto: r.goto,
                    seen: r.seen.insert(a),
                },
            }
        }
    }
}

/// The row made from the items of `s`, in order.
pub open spec fn row_of(s: Seq<LRItemV>, tgt: Map<AtomV, u32>) -> RowV
    decreases s.len(),
{
    if s.len() == 0 {
        RowV { action: Map::empty(), goto: Map::empty(), seen: Set::empty() }
    } else {
        row_step(row_of(s.drop_last(), tgt), s.last(), tgt)
    }
}

/// Some item of `s` has its dot before `a`.
pub open spec fn next_atom(s: Seq<LRItemV>, a: AtomV) -> bool {
    exists|i: int|
        0 <= i < s.len() && s[i].stacktop < s[i].production.len()
            && #[trigger] s[i].production[s[i].stacktop as int] == a
}

proof fn lemma_row_of_seen(s: Seq<LRItemV>, tgt: Map<AtomV, u32>)
    ensures
        forall|a: AtomV| #[trigger] row_of(s, tgt).seen.contains(a) <==> next_atom(s, a),
    decreases s.len(),
{
    if s.len() > 0 {
        let p = s.drop_last();
        lemma_row_of_seen(p, tgt);
        let r = row_of(p, tgt);
        let x = s.last();
        assert(s[s.len() - 1] == x);
        if x.stacktop < x.production.len() {
            let b = x.production[x.stacktop as int];
            assert(row_of(s, tgt).seen =~= r.seen.insert(b));
            assert(next_atom(s, b));
        } else {
            assert(row_of(s, tgt).seen =~= r.seen);
        }
        assert forall|a: AtomV| #[trigger] row_of(s, tgt).seen.contains(a) <==> next_atom(s, a) by {
            if next_atom(p, a) {
                let i = choose|i: int|
                    0 <= i < p.len() && p[i].stacktop < p[i].production.len()
                        && #[trigger] p[i].production[p[i].stacktop as int] == a;
                assert(s[i] == p[i]);
            }
            if next_atom(s, a) {
                let i = choose|i: int|
                    0 <= i < s.len() && s[i].stacktop < s[i].production.len()
                        && #[trigger] s[i].production[s[i].stacktop as int] == a;
                if i < p.len() {
                    assert(s[i] == p[i]);
                }
            }
        }
    }
}

proof fn lemma_row_of_agree(s: Seq<LRItemV>, m1: Map<AtomV, u32>, m2: Map<AtomV, u32>)
    requires
        m1.submap_of(m2),
        forall|a: AtomV| next_atom(s, a) ==> #[trigger] m1.dom().contains(a),
    ensures
        row_of(s, m1) == row_of(s, m2),
    decreases s.len(),
{
    if s.len() > 0 {
        let p = s.drop_last();
        assert forall|a: AtomV| next_atom(p, a) implies #[trigger] m1.dom().contains(a) by {
            let i = choose|i: int|
                0 <= i < p.len() && p[i].stacktop < p[i].production.len()
                    && #[trigger] p[i].production[p[i].stacktop as int] == a;
            assert(s[i] == p[i]);
        }
        lemma_row_of_agree(p, m1, m2);
        let x = s.last();
        if x.stacktop < x.production.len() {
            let a = x.production[x.stacktop as int];
            assert(s[s.len() - 1] == x);
            assert(next_atom(s, a));
            assert(m1.dom().contains(a));
            assert(m2.dom().contains(a));
            assert(m1[a] == m2[a]);
        }
    }
}

/// The row of state `i` is made from its items with the targets `tm`, which
/// give, for each atom after a dot in the state, a state that is the state
/// reached over it.
pub open spec fn row_correct(
    g: Map<Seq<char>, Seq<GrammarItemV>>,
    c: Map<Seq<char>, Seq<AtomV>>,
    states: Seq<Seq<LRItemV>>,
    i: int,
    tm: Map<AtomV, u32>,
    action: Map<Seq<char>, Set<TableItemV>>,
    goto: Map<Seq<char>, u32>,
) -> bool {
    &&& action == row_of(states[i], tm).action
    &&& goto == row_of(states[i], tm).goto
    &&& forall|a: AtomV| #[trigger] tm.dom().contains(a) <==> next_atom(states[i], a)
    &&& forall|a: AtomV|
        #[trigger] tm.dom().contains(a) ==> tm[a] < states.len() && is_state(
            g,
            c,
            states[tm[a] as int],
            goto_kernel(states[i], a),
        )
}

/// Every state is the state of its kernel.
pub open spec fn states_ok(
    g: Map<Seq<char>, Seq<GrammarItemV>>,
    c: Map<Seq<char>, Seq<AtomV>>,
    states: Seq<Seq<LRItemV>>,
    kernels: Seq<Seq<LRItemV>>,
) -> bool {
    &&& states.len() == kernels.len()
    &&& forall|j: int| 0 <= j < states.len() ==> #[trigger] is_state(g, c, states[j], kernels[j])
}

/// The kernel of state `j` is that of a state reached over some atom from state `i`.
pub open spec fn reached_from(
    states: Seq<Seq<LRItemV>>,
    kernels: Seq<Seq<LRItemV>>,
    i: int,
    j: int,
) -> bool {
    exists|a: AtomV| kernels[j] == #[trigger] goto_kernel(states[i], a)
}

/// The abstract values of a sequence of states.
pub open spec fn states_view(w: Seq<Vec<LRItem>>) -> Seq<Seq<LRItemV>> {
    w.map_values(|v: Vec<LRItem>| lr_view(v@))
}

proof fn lemma_states_stable(
    g: Map<Seq<char>, Seq<GrammarItemV>>,
    c: Map<Seq<char>, Seq<AtomV>>,
    c2: Map<Seq<char>, Seq<AtomV>>,
    states: Seq<Seq<LRItemV>>,
    kernels: Seq<Seq<LRItemV>>,
)
    requires
        c.submap_of(c2),
        states_ok(g, c, states, kernels),
    ensures
        states_ok(g, c2, states, kernels),
{
    assert forall|j: int| 0 <= j < states.len() implies #[trigger] is_state(g, c2, states[j], kernels[j]) by {
        lemma_is_state_stable(g, c, c2, states[j], kernels[j]);
    }
}

/// The position of the last state equal to `s`, if any.
fn find_state(working: &Vec<Vec<LRItem>>, s: &Vec<LRItem>) -> (res: Option<usize>)
    ensures
        match res {
            Some(i) => i < working@.len() && states_view(working@)[i as int] == lr_view(s@),
            None => forall|j: int| 0 <= j < working@.len() ==> states_view(working@)[j] != lr_view(s@),
        },
{
    let mut i = working.len();
    while i > 0
        invariant
            i <= working@.len(),
            forall|j: int| i <= j < working@.len() ==> states_view(working@)[j] != lr_view(s@),
        decreases i,
    {
        i -= 1;
        if lr_items_eq(&working[i], s) {
            return Some(i);
        }
    }
    None
}

} // verus!

verus! {

proof fn lemma_next_atom_step(s: Seq<LRItemV>, k: int)
    requires
        0 <= k < s.len(),
    ensures
        forall|a: AtomV|
            #[trigger] next_atom(s.take(k + 1), a) <==> next_atom(s.take(k), a) || (s[k].stacktop
                < s[k].production.len() && a == s[k].production[s[k].stacktop as int]),
{
    let s1 = s.take(k + 1);
    let pre = s.take(k);
    assert forall|a: AtomV| #[trigger] next_atom(s1, a) <==> next_atom(pre, a) || (s[k].stacktop
        < s[k].production.len() && a == s[k].production[s[k].stacktop as int]) by {
        if next_atom(s1, a) {
            let i = choose|i: int| 0 <= i < s1.len() && s1[i].stacktop < s1[i].production.len()
                && #[trigger] s1[i].production[s1[i].stacktop as int] == a;
            if i < k {
                assert(pre[i] == s1[i]);
            }
        }
        if next_atom(pre, a) {
            let i = choose|i: int| 0 <= i < pre.len() && pre[i].stacktop < pre[i].production.len()
                && #[trigger] pre[i].production[pre[i].stacktop as int] == a;
            assert(s1[i] == pre[i]);
        }
        if s[k].stacktop < s[k].production.len() && a == s[k].production[s[k].stacktop as int] {
            assert(s1[k] == s[k]);
        }
    }
}

/// The item `x` has an atom after its dot.
pub open spec fn has_next(x: LRItemV) -> bool {
    x.stacktop < x.production.len()
}

/// The atom after the dot of `x`.
pub open spec fn next_of(x: LRItemV) -> AtomV {
    x.production[x.stacktop as int]
}

/// State `j` is the target, in the row made from the items `s` with the
/// targets `tm`, of the atom after the dot of item `k`, and of no earlier item.
pub open spec fn found_in_row(s: Seq<LRItemV>, tm: Map<AtomV, u32>, k: int, j: int) -> bool {
    &&& 0 <= k < s.len()
    &&& has_next(s[k])
    &&& tm.dom().contains(next_of(s[k]))
    &&& tm[next_of(s[k])] == j
    &&& forall|k2: int|
        0 <= k2 < k && has_next(#[trigger] s[k2]) ==> tm.dom().contains(next_of(s[k2])) && tm[next_of(s[k2])]
            != j
}

/// The kernel `j` is that of the state reached from `cc` over an atom that
/// `tm` has a target for.
pub open spec fn new_from_seen(ks: Seq<Seq<LRItemV>>, tm: Map<AtomV, u32>, cc: Seq<LRItemV>, j: int) -> bool {
    exists|a: AtomV| tm.dom().contains(a) && ks[j] == #[trigger] goto_kernel(cc, a)
}

/// Builds the action and goto rows of state `idx`, discovering the states it
/// reaches that `working` does not hold yet and queueing them on `pending`.
///
/// Gives the rows, whether the number of states stopped fitting in `u32` (the
/// rows are then unfinished), the targets used for each atom, and the kernels
/// of all states known.
pub(crate) fn build_row(
    g: &GrammarMap,
    working: &Vec<Vec<LRItem>>,
    idx: usize,
    pending: &mut Vec<Vec<LRItem>>,
    firsts: &mut FirstCache,
    cache: &mut StateCache,
    kernels: Ghost<Seq<Seq<LRItemV>>>,
    u: Ghost<Set<AtomV>>,
) -> (res: (ActionRow, GotoRow, bool, Ghost<Map<AtomV, u32>>, Ghost<Seq<Seq<LRItemV>>>, Ghost<Seq<int>>))
    requires
        g.wf(),
        rules_at_most(g@, u@, 254),
        rules_in(g@, u@),
        old(firsts).wf(),
        wf_cache(g@, old(firsts)@),
        cache_from(g@, old(firsts)@, u@),
        state_cache_ok(g@, old(firsts)@, old(cache).entries@),
        idx < working@.len(),
        old(pending)@.len() == 0,
        forall|i: int| 0 <= i < working@[idx as int]@.len() ==> item_in(u@, #[trigger] lr_view(working@[idx as int]@)[i]),
        states_ok(g@, old(firsts)@, states_view(working@) + states_view(old(pending)@), kernels@),
        working@.len() + old(pending)@.len() <= u32::MAX + 1,
    ensures
        final(firsts).wf(),
        wf_cache(g@, final(firsts)@),
        cache_from(g@, final(firsts)@, u@),
        old(firsts)@.submap_of(final(firsts)@),
        state_cache_ok(g@, final(firsts)@, final(cache).entries@),
        old(pending)@.len() <= final(pending)@.len(),
        states_view(final(pending)@).take(old(pending)@.len() as int) == states_view(old(pending)@),
        states_ok(g@, final(firsts)@, states_view(working@) + states_view(final(pending)@), res.4@),
        res.4@.take(kernels@.len() as int) == kernels@,
        forall|j: int|
            kernels@.len() <= j < res.4@.len() ==> #[trigger] reached_from(
                states_view(working@) + states_view(final(pending)@),
                res.4@,
                idx as int,
                j,
            ),
        forall|j1: int, j2: int|
            kernels@.len() <= j1 < j2 < res.4@.len() ==> (states_view(working@) + states_view(
                final(pending)@,
            ))[j1] != (states_view(working@) + states_view(final(pending)@))[j2],
        forall|j: int, w: int|
            kernels@.len() <= j < res.4@.len() && 0 <= w < working@.len() ==> (states_view(working@)
                + states_view(final(pending)@))[j] != states_view(working@)[w],
        res.5@.len() == res.4@.len() - kernels@.len(),
        forall|t: int|
            0 <= t < res.5@.len() ==> #[trigger] found_in_row(
                states_view(working@)[idx as int],
                res.3@,
                res.5@[t],
                kernels@.len() + t,
            ),
        forall|t1: int, t2: int| 0 <= t1 < t2 < res.5@.len() ==> res.5@[t1] < res.5@[t2],
        res.0.wf(),
        res.1.wf(),
        !res.2 ==> row_correct(
            g@,
            final(firsts)@,
            states_view(working@) + states_view(final(pending)@),
            idx as int,
            res.3@,
            res.0@,
            res.1@,
        ) && working@.len() + final(pending)@.len() <= u32::MAX + 1,
        res.2 ==> working@.len() + final(pending)@.len() > u32::MAX,
        res.2 ==> exists|k: nat|
            k <= working@[idx as int]@.len() && (final(firsts)@, cache_pairs(final(cache).entries@), states_view(
                working@,
            ) + states_view(final(pending)@)) == #[trigger] row_fold(
                g@,
                old(firsts)@,
                cache_pairs(old(cache).entries@),
                states_view(working@) + states_view(old(pending)@),
                states_view(working@)[idx as int],
                k,
            ),
        !res.2 ==> (final(firsts)@, cache_pairs(final(cache).entries@), states_view(working@) + states_view(
            final(pending)@,
        )) == row_fold(
            g@,
            old(firsts)@,
            cache_pairs(old(cache).entries@),
            states_view(working@) + states_view(old(pending)@),
            states_view(working@)[idx as int],
            working@[idx as int]@.len() as nat,
        ),
{
    let cc = &working[idx];
    let ghost ccv = lr_view(cc@);
    let ghost wv = states_view(working@);
    assert(wv[idx as int] == ccv);
    let mut action_row = ActionRow { entries: Vec::new() };
    let mut goto_row = GotoRow { entries: Vec::new() };
    let mut next_cache: Vec<Atom> = Vec::new();
    let ghost mut tm: Map<AtomV, u32> = Map::empty();
    let ghost mut ks = kernels@;
    let ghost mut korig: Seq<int> = Seq::empty();
    proof {
        let s0 = wv + states_view(pending@);
        assert(is_state(g@, firsts@, s0[idx as int], ks[idx as int]));
        assert forall|i: int| 0 <= i < cc@.len() implies item_fits(#[trigger] lr_view(cc@)[i]) by {
            assert(ccv.to_set().contains(ccv[i]));
        }
        assert(ccv.take(0) =~= Seq::<LRItemV>::empty());
        assert(action_row@ =~= Map::<Seq<char>, Set<TableItemV>>::empty());
        assert(goto_row@ =~= Map::<Seq<char>, u32>::empty());
        assert(ks.take(kernels@.len() as int) =~= kernels@);
    }
    let ghost s_start = states_view(working@) + states_view(old(pending)@);
    let ghost pairs_start = cache_pairs(cache.entries@);
    proof {
        assert(states_view(pending@) =~= Seq::<Seq<LRItemV>>::empty());
        assert(wv + states_view(pending@) =~= wv);
    }
    let mut k: usize = 0;
    while k < cc.len()
        invariant
            old(pending)@.len() == 0,
            s_start == states_view(working@) + states_view(old(pending)@),
            s_start == wv,
            pairs_start == cache_pairs(old(cache).entries@),
            kernels@.len() == wv.len(),
            (firsts@, cache_pairs(cache.entries@), wv + states_view(pending@)) == row_fold(
                g@,
                old(firsts)@,
                pairs_start,
                s_start,
                ccv,
                k as nat,
            ),
            g.wf(),
            rules_at_most(g@, u@, 254),
            idx < working@.len(),
            cc == &working@[idx as int],
            ccv == lr_view(cc@),
            wv == states_view(working@),
            wv[idx as int] == ccv,
            forall|i: int| 0 <= i < cc@.len() ==> item_fits(#[trigger] lr_view(cc@)[i]),
            forall|i: int| 0 <= i < cc@.len() ==> item_in(u@, #[trigger] lr_view(cc@)[i]),
            rules_in(g@, u@),
            firsts.wf(),
            wf_cache(g@, firsts@),
            cache_from(g@, firsts@, u@),
            old(firsts)@.submap_of(firsts@),
            state_cache_ok(g@, firsts@, cache.entries@),
            old(pending)@.len() <= pending@.len(),
            states_view(pending@).take(old(pending)@.len() as int) == states_view(old(pending)@),
            states_ok(g@, firsts@, wv + states_view(pending@), ks),
            ks.take(kernels@.len() as int) == kernels@,
            kernels@.len() <= ks.len(),
            forall|j: int|
                kernels@.len() <= j < ks.len() ==> #[trigger] reached_from(
                    wv + states_view(pending@),
                    ks,
                    idx as int,
                    j,
                ),
            forall|j1: int, j2: int|
                kernels@.len() <= j1 < j2 < ks.len() ==> (wv + states_view(pending@))[j1] != (wv
                    + states_view(pending@))[j2],
            forall|j: int, w: int|
                kernels@.len() <= j < ks.len() && 0 <= w < wv.len() ==> (wv + states_view(pending@))[j]
                    != wv[w],
            forall|j: int| kernels@.len() <= j < ks.len() ==> #[trigger] new_from_seen(ks, tm, ccv, j),
            korig.len() == ks.len() - kernels@.len(),
            forall|t: int| 0 <= t < korig.len() ==> korig[t] < k,
            forall|t1: int, t2: int| 0 <= t1 < t2 < korig.len() ==> korig[t1] < korig[t2],
            forall|t: int| 0 <= t < korig.len() ==> #[trigger] found_in_row(ccv, tm, korig[t], kernels@.len() + t),
            action_row.wf(),
            goto_row.wf(),
            k <= cc@.len(),
            action_row@ == row_of(ccv.take(k as int), tm).action,
            goto_row@ == row_of(ccv.take(k as int), tm).goto,
            forall|a: AtomV| #[trigger] tm.dom().contains(a) <==> atom_set(next_cache@).contains(a),
            forall|a: AtomV| #[trigger] tm.dom().contains(a) <==> next_atom(ccv.take(k as int), a),
            forall|a: AtomV|
                #[trigger] tm.dom().contains(a) ==> tm[a] < (wv + states_view(pending@)).len()
                    && is_state(
                    g@,
                    firsts@,
                    (wv + states_view(pending@))[tm[a] as int],
                    goto_kernel(ccv, a),
                ),
            working@.len() + pending@.len() <= u32::MAX + 1,
        decreases cc.len() - k,
    {
        if working.len() > u32::MAX as usize || pending.len() > u32::MAX as usize - working.len() {
            proof {
                assert(row_fold(g@, old(firsts)@, pairs_start, s_start, ccv, k as nat) == row_fold(
                    g@, old(firsts)@, cache_pairs(old(cache).entries@), states_view(working@) + states_view(old(pending)@),
                    states_view(working@)[idx as int], k as nat));
            }
            return (action_row, goto_row, true, Ghost(tm), Ghost(ks), Ghost(korig));
        }
        let state: u32 = (working.len() + pending.len()) as u32;
        let item = &cc[k];
        let ghost xv = item@;
        let ghost pre = ccv.take(k as int);
        proof {
            assert(ccv.take(k + 1).drop_last() =~= pre);
            assert(ccv.take(k + 1).last() == xv);
            lemma_row_of_seen(pre, tm);
        }
        if (item.stacktop as usize) >= item.production.len() {
            match &item.terminal {
                Atom::Terminal(t) => {
                    if item.production.len() > 0 || action_row.find(t).is_none() {
                        action_row.add(
                            t,
                            TableItem {
                                state: 0,
                                action: Action::Reduce,
                                lr_item: Some(
                                    GrammarItem {
                                        symbol: item.symbol.clone(),
                                        production: copy_atoms(&item.production),
                                    },
                                ),
                            },
                        );
                    }
                },
                Atom::Symbol(_) => {},
            }
            proof {
                lemma_next_atom_step(ccv, k as int);
                assert(ccv[k as int] == xv);
                assert(!has_next(xv));
                assert(row_fold(g@, old(firsts)@, pairs_start, s_start, ccv, (k + 1) as nat) == row_fold(
                    g@, old(firsts)@, pairs_start, s_start, ccv, k as nat));
            }
        } else {
            let x = &item.production[item.stacktop as usize];
            let ghost av = x@;
            assert(av == xv.production[xv.stacktop as int]);
            proof {
                lemma_next_atom_step(ccv, k as int);
            }
            if !contains_atom(&next_cache, x) {
                assert(!tm.dom().contains(av));
                assert(!next_atom(pre, av));
                let ghost nc0 = atoms_view(next_cache@);
                next_cache.push(x.clone());
                assert(atoms_view(next_cache@) =~= nc0.push(av));
                let ghost c0 = firsts@;
                let ghost p0 = states_view(pending@);
                let ghost pairs0 = cache_pairs(cache.entries@);
                let new_cc = goto(g, cc, x, firsts, cache, u);
                let ghost ncv0 = lr_view(new_cc@);
                proof {
                    lemma_states_stable(g@, c0, firsts@, wv + p0, ks);
                    assert forall|key| #[trigger] old(firsts)@.dom().contains(key) implies firsts@.dom().contains(key)
                        && old(firsts)@[key] == firsts@[key] by {
                        assert(c0.dom().contains(key));
                    }
                    assert(old(firsts)@.submap_of(firsts@));
                    assert forall|a: AtomV| #[trigger] tm.dom().contains(a) implies tm[a] < (wv + p0).len() && is_state(
                        g@, firsts@, (wv + p0)[tm[a] as int], goto_kernel(ccv, a)) by {
                        lemma_is_state_stable(g@, c0, firsts@, (wv + p0)[tm[a] as int], goto_kernel(ccv, a));
                    }
                }
                let ghost ks_before = ks;
                let ghost korig_before = korig;
                let ghost s_before = wv + p0;
                let target: u32;
                match find_state(working, &new_cc) {
                    Some(index) => {
                        target = index as u32;
                        proof {
                            assert((wv + p0)[index as int] == wv[index as int]);
                            assert((wv + p0).contains(ncv0));
                        }
                    },
                    None => {
                        let ghost ncv = lr_view(new_cc@);
                        pending.push(new_cc);
                        target = state;
                        proof {
                            let s_old = wv + p0;
                            let ks_old = ks;
                            assert(states_view(pending@) =~= p0.push(ncv));
                            assert(wv + states_view(pending@) =~= s_old.push(ncv));
                            ks = ks.push(goto_kernel(ccv, av));
                            korig = korig.push(k as int);
                            assert(ks.take(kernels@.len() as int) =~= ks_old.take(kernels@.len() as int));
                            assert(states_view(pending@).take(old(pending)@.len() as int) =~= p0.take(old(pending)@.len() as int));
                            let s_new = wv + states_view(pending@);
                            assert forall|j: int| 0 <= j < s_new.len() implies #[trigger] is_state(g@, firsts@, s_new[j], ks[j]) by {
                                if j < s_old.len() {
                                    assert(s_new[j] == s_old[j]);
                                    assert(ks[j] == ks_old[j]);
                                    assert(is_state(g@, firsts@, s_old[j], ks_old[j]));
                                }
                            }
                            assert forall|j: int| kernels@.len() <= j < ks.len() implies #[trigger] reached_from(s_new, ks, idx as int, j) by {
                                assert(s_new[idx as int] == ccv);
                                if j < ks_old.len() {
                                    assert(reached_from(s_old, ks_old, idx as int, j));
                                    let a2 = choose|a2: AtomV| ks_old[j] == #[trigger] goto_kernel(s_old[idx as int], a2);
                                    assert(ks[j] == goto_kernel(s_new[idx as int], a2));
                                } else {
                                    assert(ks[j] == goto_kernel(s_new[idx as int], av));
                                }
                            }
                            assert forall|a: AtomV| #[trigger] tm.dom().contains(a) implies tm[a] < s_new.len() && is_state(
                                g@, firsts@, s_new[tm[a] as int], goto_kernel(ccv, a)) by {
                                assert(s_new[tm[a] as int] == s_old[tm[a] as int]);
                            }
                            let jn = s_old.len() as int;
                            assert(s_new[jn] == ncv);
                            assert(next_atom(ccv, av)) by {
                                assert(ccv[k as int] == xv);
                            }
                            assert forall|j1: int, j2: int|
                                kernels@.len() <= j1 < j2 < ks.len() implies s_new[j1] != s_new[j2] by {
                                if j2 < jn {
                                    assert(s_new[j1] == s_old[j1]);
                                    assert(s_new[j2] == s_old[j2]);
                                } else {
                                    assert(s_new[j1] == s_old[j1]);
                                    assert(new_from_seen(ks_old, tm, ccv, j1));
                                    let a1 = choose|a1: AtomV| tm.dom().contains(a1) && ks_old[j1] == #[trigger] goto_kernel(ccv, a1);
                                    assert(is_state(g@, firsts@, s_old[j1], ks_old[j1]));
                                    crate::states::lemma_goto_states_differ(g@, firsts@, ccv, av, a1, ncv, s_old[j1]);
                                }
                            }
                            assert forall|j: int, w: int|
                                kernels@.len() <= j < ks.len() && 0 <= w < wv.len() implies s_new[j] != wv[w] by {
                                if j < jn {
                                    assert(s_new[j] == s_old[j]);
                                }
                            }
                            assert(!s_old.contains(ncv0)) by {
                                if s_old.contains(ncv0) {
                                    let j = choose|j: int| 0 <= j < s_old.len() && s_old[j] == ncv0;
                                    if j < wv.len() {
                                        assert(wv[j] == states_view(working@)[j]);
                                    } else {
                                        assert(s_new[j] == s_old[j]);
                                        assert(s_new[j] != s_new[jn]);
                                    }
                                }
                            }
                        }
                    },
                }
                proof {
                    lemma_goto_fn(g@, c0, pairs0, ccv, av, ncv0, firsts@, cache_pairs(cache.entries@));
                    assert(ccv[k as int] == xv);
                    assert(has_next(xv) && next_of(xv) == av);
                    let s_prev = wv + p0;
                    if s_prev.contains(ncv0) {
                        assert(wv + states_view(pending@) == s_prev);
                    } else {
                        assert(wv + states_view(pending@) =~= s_prev.push(ncv0));
                    }
                    assert((firsts@, cache_pairs(cache.entries@), wv + states_view(pending@)) == row_fold(
                        g@, old(firsts)@, pairs_start, s_start, ccv, (k + 1) as nat));
                }
                match x {
                    Atom::Symbol(n) => {
                        goto_row.insert(n, target);
                    },
                    Atom::Terminal(t) => {
                        action_row.add(t, TableItem { state: target, lr_item: None, action: Action::Shift });
                    },
                }
                proof {
                    let old_tm = tm;
                    tm = tm.insert(av, target);
                    assert forall|t: int| 0 <= t < korig.len() implies #[trigger] found_in_row(ccv, tm, korig[t], kernels@.len() + t) by {
                        if t < korig_before.len() {
                            assert(korig[t] == korig_before[t]);
                            assert(found_in_row(ccv, old_tm, korig_before[t], kernels@.len() + t));
                            assert(next_of(ccv[korig[t]]) != av);
                            assert forall|k2: int| 0 <= k2 < korig[t] && has_next(#[trigger] ccv[k2]) implies tm.dom().contains(next_of(ccv[k2]))
                                && tm[next_of(ccv[k2])] != kernels@.len() + t by {
                                assert(old_tm.dom().contains(next_of(ccv[k2])));
                            }
                        } else {
                            assert(korig[t] == k);
                            assert(ccv[k as int] == xv);
                            assert(target == kernels@.len() + t);
                            assert forall|k2: int| 0 <= k2 < korig[t] && has_next(#[trigger] ccv[k2]) implies tm.dom().contains(next_of(ccv[k2]))
                                && tm[next_of(ccv[k2])] != kernels@.len() + t by {
                                assert(ccv.take(k as int)[k2] == ccv[k2]);
                                assert(next_atom(ccv.take(k as int), next_of(ccv[k2])));
                                assert(old_tm.dom().contains(next_of(ccv[k2])));
                            }
                        }
                    }
                    assert forall|j: int| kernels@.len() <= j < ks.len() implies #[trigger] new_from_seen(ks, tm, ccv, j) by {
                        if j < ks_before.len() {
                            assert(new_from_seen(ks_before, old_tm, ccv, j));
                            let a1 = choose|a1: AtomV| old_tm.dom().contains(a1) && ks_before[j] == #[trigger] goto_kernel(ccv, a1);
                            assert(ks[j] == ks_before[j]);
                            assert(tm.dom().contains(a1));
                        } else {
                            assert(ks[j] == goto_kernel(ccv, av));
                        }
                    }
                    assert forall|a: AtomV| next_atom(pre, a) implies #[trigger] old_tm.dom().contains(a) by {}
                    lemma_row_of_agree(pre, old_tm, tm);
                    let s_cur = wv + states_view(pending@);
                    assert(s_cur[target as int] == lr_view(new_cc@)) by {
                        if target as int >= wv.len() {
                            assert(s_cur[target as int] == states_view(pending@)[target - wv.len()]);
                        }
                    }
                    assert forall|a: AtomV| #[trigger] tm.dom().contains(a) <==> atom_set(next_cache@).contains(a) by {
                        let nv = atoms_view(next_cache@);
                        if a == av {
                            assert(nv[nv.len() - 1] == av);
                        } else {
                            if atom_set(next_cache@).contains(a) {
                                let j = choose|j: int| 0 <= j < nv.len() && nv[j] == a;
                                assert(nc0[j] == a);
                                assert(nc0.to_set().contains(a));
                            }
                            if nc0.to_set().contains(a) {
                                let j = choose|j: int| 0 <= j < nc0.len() && nc0[j] == a;
                                assert(nv[j] == a);
                            }
                        }
                    }
                    assert(!row_of(pre, old_tm).seen.contains(av));
                    assert(row_of(ccv.take(k + 1), tm) == row_step(row_of(pre, tm), xv, tm));
                }
            } else {
                proof {
                    assert(tm.dom().contains(av));
                    assert(next_atom(pre, av));
                    assert(ccv[k as int] == xv);
                    assert(row_fold(g@, old(firsts)@, pairs_start, s_start, ccv, (k + 1) as nat) == row_fold(
                        g@, old(firsts)@, pairs_start, s_start, ccv, k as nat));
                    assert(row_of(pre, tm).seen.contains(av));
                    assert(row_of(ccv.take(k + 1), tm) == row_step(row_of(pre, tm), xv, tm));
                }
            }
        }
        k += 1;
    }
    proof {
        assert(ccv.take(cc@.len() as int) =~= ccv);
    }
    (action_row, goto_row, false, Ghost(tm), Ghost(ks), Ghost(korig))
}


} // verus!
