use vstd::prelude::*;

use crate::grammar::{
    Atom, AtomV, GrammarItem, GrammarItemV, atoms_view, items_view, atom_eq, atoms_eq, copy_atoms,
    grammar_item_eq,
};
use crate::notation::{decimal, decimal_exec, string_of, extend_chars};

verus! {

broadcast use vstd::seq_lib::group_seq_properties;

// ---------------------------------------------------------------------------
// Counts of adjacent pairs
// ---------------------------------------------------------------------------

/// The count kept for the pair of atoms `first`, `second`.
pub struct PairCount {
    pub first: Atom,
    pub second: Atom,
    pub count: u16,
}

/// Counts kept for pairs of atoms.
pub struct PairCounter {
    pub entries: Vec<PairCount>,
}

impl PairCounter {
    /// No pair has two entries.
    pub open spec fn wf(&self) -> bool {
        forall|i: int, j: int|
            0 <= i < j < self.entries@.len() ==> (self.entries@[i].first@, self.entries@[i].second@) != (
                self.entries@[j].first@,
                self.entries@[j].second@,
            )
    }

    /// Some entry has the key `k`.
    pub open spec fn has_key(&self, k: (AtomV, AtomV)) -> bool {
        exists|i: int| 0 <= i < self.entries@.len() && (self.entries@[i].first@, self.entries@[i].second@) == k
    }

    /// The position of an entry with the key `k`.
    pub open spec fn key_index(&self, k: (AtomV, AtomV)) -> int {
        choose|i: int| 0 <= i < self.entries@.len() && (self.entries@[i].first@, self.entries@[i].second@) == k
    }

    /// An empty counter.
    pub fn new() -> (res: PairCounter)
        ensures
            res.wf(),
            res@ == Map::<(AtomV, AtomV), u16>::empty(),
    {
        let res = PairCounter { entries: Vec::new() };
        assert(res@ =~= Map::<(AtomV, AtomV), u16>::empty());
        res
    }

    /// The position of the entry for the pair `a`, `b`, if any.
    fn find(&self, a: &Atom, b: &Atom) -> (res: Option<usize>)
        requires
            self.wf(),
        ensures
            match res {
                Some(i) => i < self.entries@.len() && self.has_key((a@, b@)) && self.key_index((a@, b@)) == i,
                None => !self.has_key((a@, b@)),
            },
    {
        let mut i: usize = 0;
        while i < self.entries.len()
            invariant
                i <= self.entries@.len(),
                self.wf(),
                forall|j: int| 0 <= j < i ==> (self.entries@[j].first@, self.entries@[j].second@) != (a@, b@),
            decreases self.entries.len() - i,
        {
            if atom_eq(&self.entries[i].first, a) && atom_eq(&self.entries[i].second, b) {
                assert(self.has_key((a@, b@)));
                assert(self.key_index((a@, b@)) == i);
                return Some(i);
            }
            i += 1;
        }
        None
    }

    /// The count of the pair `a`, `b`, if it has one.
    pub fn get(&self, a: &Atom, b: &Atom) -> (res: Option<u16>)
        requires
            self.wf(),
        ensures
            match res {
                Some(c) => self@.dom().contains((a@, b@)) && self@[(a@, b@)] == c,
                None => !self@.dom().contains((a@, b@)),
            },
    {
        match self.find(a, b) {
            Some(i) => Some(self.entries[i].count),
            None => None,
        }
    }

    /// Sets the count of the pair `a`, `b`.
    pub fn set(&mut self, a: &Atom, b: &Atom, count: u16)
        requires
            old(self).wf(),
        ensures
            final(self).wf(),
            final(self)@ == old(self)@.insert((a@, b@), count),
    {
        let ghost old_self = *self;
        let ghost k = (a@, b@);
        match self.find(a, b) {
            Some(i) => {
                self.entries.set(i, PairCount { first: a.clone(), second: b.clone(), count });
                proof {
                    assert forall|j: int| 0 <= j < self.entries@.len() implies (self.entries@[j].first@, self.entries@[j].second@)
                        == (old_self.entries@[j].first@, old_self.entries@[j].second@) by {}
                    assert(self.wf());
                    assert forall|j: int| 0 <= j < self.entries@.len() && j != i implies #[trigger] self.entries@[j] == old_self.entries@[j] by {}
                    assert forall|q: (AtomV, AtomV)| self.has_key(q) == old_self.has_key(q) by {
                        if self.has_key(q) {
                            let j = choose|j: int| 0 <= j < self.entries@.len() && (self.entries@[j].first@, self.entries@[j].second@) == q;
                            assert((old_self.entries@[j].first@, old_self.entries@[j].second@) == q);
                        }
                        if old_self.has_key(q) {
                            let j = choose|j: int| 0 <= j < old_self.entries@.len() && (old_self.entries@[j].first@, old_self.entries@[j].second@) == q;
                            assert((self.entries@[j].first@, self.entries@[j].second@) == q);
                        }
                    }
                    assert forall|q: (AtomV, AtomV)| old_self.has_key(q) implies self.key_index(q) == old_self.key_index(q) by {
                        let j = old_self.key_index(q);
                        assert((self.entries@[j].first@, self.entries@[j].second@) == q);
                    }
                    assert(self@ =~= old_self@.insert(k, count));
                }
            },
            None => {
                self.entries.push(PairCount { first: a.clone(), second: b.clone(), count });
                proof {
                    let m = old_self.entries@.len();
                    assert((self.entries@[m as int].first@, self.entries@[m as int].second@) == k);
                    assert forall|j: int| 0 <= j < m implies #[trigger] self.entries@[j] == old_self.entries@[j] by {}
                    assert(self.wf()) by {
                        assert forall|x: int, y: int| 0 <= x < y < self.entries@.len() implies (self.entries@[x].first@, self.entries@[x].second@) != (
                            self.entries@[y].first@, self.entries@[y].second@) by {
                            if y == m {
                                assert((old_self.entries@[x].first@, old_self.entries@[x].second@) != k);
                            }
                        }
                    }
                    assert forall|q: (AtomV, AtomV)| self.has_key(q) == (old_self.has_key(q) || q == k) by {
                        if self.has_key(q) {
                            let j = choose|j: int| 0 <= j < self.entries@.len() && (self.entries@[j].first@, self.entries@[j].second@) == q;
                            if j < m {
                                assert((old_self.entries@[j].first@, old_self.entries@[j].second@) == q);
                            }
                        }
                        if old_self.has_key(q) {
                            let j = choose|j: int| 0 <= j < old_self.entries@.len() && (old_self.entries@[j].first@, old_self.entries@[j].second@) == q;
                            assert((self.entries@[j].first@, self.entries@[j].second@) == q);
                        }
                    }
                    assert forall|q: (AtomV, AtomV)| old_self.has_key(q) implies self.key_index(q) == old_self.key_index(q) by {
                        let j = old_self.key_index(q);
                        assert((self.entries@[j].first@, self.entries@[j].second@) == q);
                        let j2 = self.key_index(q);
                        if j2 == m {
                            assert(q == k);
                        } else {
                            assert(j2 < m);
                            assert((old_self.entries@[j2].first@, old_self.entries@[j2].second@) == q);
                        }
                    }
                    assert(self.key_index(k) == m);
                    assert(self@ =~= old_self@.insert(k, count));
                }
            },
        }
    }

    /// Removes the count of the pair `a`, `b`.
    pub fn remove(&mut self, a: &Atom, b: &Atom)
        requires
            old(self).wf(),
        ensures
            final(self).wf(),
            final(self)@ == old(self)@.remove((a@, b@)),
    {
        let ghost old_self = *self;
        let ghost k = (a@, b@);
        match self.find(a, b) {
            Some(i) => {
                self.entries.remove(i);
                proof {
                    let m = old_self.entries@.len();
                    assert forall|j: int| 0 <= j < self.entries@.len() implies #[trigger] self.entries@[j] == (if j < i {
                        old_self.entries@[j]
                    } else {
                        old_self.entries@[j + 1]
                    }) by {}
                    assert(self.wf()) by {
                        assert forall|x: int, y: int| 0 <= x < y < self.entries@.len() implies (self.entries@[x].first@, self.entries@[x].second@) != (
                            self.entries@[y].first@, self.entries@[y].second@) by {
                            let ox = if x < i { x } else { x + 1 };
                            let oy = if y < i { y } else { y + 1 };
                            assert(self.entries@[x] == old_self.entries@[ox]);
                            assert(self.entries@[y] == old_self.entries@[oy]);
                        }
                    }
                    assert forall|q: (AtomV, AtomV)| self.has_key(q) == (old_self.has_key(q) && q != k) by {
                        if self.has_key(q) {
                            let j = choose|j: int| 0 <= j < self.entries@.len() && (self.entries@[j].first@, self.entries@[j].second@) == q;
                            let oj = if j < i { j } else { j + 1 };
                            assert(self.entries@[j] == old_self.entries@[oj]);
                            assert(oj != i);
                        }
                        if old_self.has_key(q) && q != k {
                            let j = choose|j: int| 0 <= j < old_self.entries@.len() && (old_self.entries@[j].first@, old_self.entries@[j].second@) == q;
                            assert(j != i);
                            let nj = if j < i { j } else { j - 1 };
                            assert(self.entries@[nj] == old_self.entries@[j]);
                        }
                    }
                    assert forall|q: (AtomV, AtomV)| self.has_key(q) implies self.entries@[self.key_index(q)].count == old_self.entries@[old_self.key_index(q)].count by {
                        let j = self.key_index(q);
                        let oj = if j < i { j } else { j + 1 };
                        assert(self.entries@[j] == old_self.entries@[oj]);
                        let o = old_self.key_index(q);
                        if o != oj {
                            assert(old_self.wf());
                        }
                    }
                    assert(self@ =~= old_self@.remove(k));
                }
            },
            None => {
                assert(self@ =~= old_self@.remove(k));
            },
        }
    }
}

impl View for PairCounter {
    type V = Map<(AtomV, AtomV), u16>;

    open spec fn view(&self) -> Map<(AtomV, AtomV), u16> {
        Map::new(
            |k: (AtomV, AtomV)| self.has_key(k),
            |k: (AtomV, AtomV)| self.entries@[self.key_index(k)].count,
        )
    }
}


// ---------------------------------------------------------------------------
// Finding repeated pairs
// ---------------------------------------------------------------------------

/// The symbol `N<n>` of a rule made for a repeated pair.
pub open spec fn n_symbol(n: nat) -> AtomV {
    AtomV::Symbol(seq!['N'] + decimal(n))
}

/// The state of the counting pass: the counts, the last number given to a
/// rule, and the rules made.
pub struct CountState {
    pub counter: Map<(AtomV, AtomV), u16>,
    pub n: u16,
    pub rules: Seq<GrammarItemV>,
}

/// Counts the pairs of `prod` that start before `upto`: a pair seen before
/// (of two different atoms) gets the next number and a rule `N<number>` for
/// it; a new pair gets the count 1. `None` when the numbers run out of `u16`.
pub open spec fn count_pairs(prod: Seq<AtomV>, counter: Map<(AtomV, AtomV), u16>, n: u16, upto: int) -> Option<
    CountState,
>
    decreases upto,
{
    if upto <= 0 {
        Some(CountState { counter, n, rules: Seq::empty() })
    } else {
        match count_pairs(prod, counter, n, upto - 1) {
            None => None,
            Some(st) => {
                let p1 = prod[upto - 1];
                let p2 = prod[upto];
                if st.counter.dom().contains((p1, p2)) {
                    if p1 == p2 {
                        Some(st)
                    } else if st.n == 65535 {
                        None
                    } else {
                        let n2 = (st.n + 1) as u16;
                        Some(
                            CountState {
                                counter: st.counter.insert((p1, p2), n2),
                                n: n2,
                                rules: st.rules.push(
                                    GrammarItemV { symbol: n_symbol(n2 as nat), production: seq![p1, p2] },
                                ),
                            },
                        )
                    }
                } else {
                    Some(CountState { counter: st.counter.insert((p1, p2), 1), ..st })
                }
            },
        }
    }
}

/// The state of the rewriting pass: the atoms written, whether the next pair
/// is skipped, and the pairs whose counts are dropped.
pub struct RewriteState {
    pub out: Seq<AtomV>,
    pub pass: bool,
    pub removed: Seq<(AtomV, AtomV)>,
}

/// Rewrites the pairs of `prod` that start before `upto`: a pair counted once
/// keeps its first atom (both at the last pair) and loses its count; a pair
/// with a larger count is written as the symbol `N<count>`, and the next
/// pair is skipped.
pub open spec fn rewrite_pairs(prod: Seq<AtomV>, counter: Map<(AtomV, AtomV), u16>, upto: int) -> RewriteState
    decreases upto,
{
    if upto <= 0 {
        RewriteState { out: Seq::empty(), pass: false, removed: Seq::empty() }
    } else {
        let st = rewrite_pairs(prod, counter, upto - 1);
        let i = upto - 1;
        if st.pass {
            RewriteState { pass: false, ..st }
        } else {
            let p1 = prod[i];
            let p2 = prod[i + 1];
            if counter.dom().contains((p1, p2)) {
                let c = counter[(p1, p2)];
                if c <= 1 {
                    RewriteState {
                        out: if i == prod.len() - 2 {
                            st.out.push(p1).push(p2)
                        } else {
                            st.out.push(p1)
                        },
                        pass: false,
                        removed: st.removed.push((p1, p2)),
                    }
                } else {
                    RewriteState { out: st.out.push(n_symbol(c as nat)), pass: true, removed: st.removed }
                }
            } else {
                st
            }
        }
    }
}

/// Rewriting never lengthens a production, and writes the same atoms when it
/// keeps its length.
pub proof fn lemma_rewrite_bound(prod: Seq<AtomV>, counter: Map<(AtomV, AtomV), u16>, upto: int)
    requires
        prod.len() >= 2,
        0 <= upto <= prod.len() - 1,
    ensures
        ({
            let st = rewrite_pairs(prod, counter, upto);
            let bound = upto + (if st.pass { 1int } else { 0 }) + (if upto == prod.len() - 1 && !st.pass {
                1int
            } else {
                0
            });
            &&& st.out.len() <= bound
            &&& st.out.len() == bound ==> !st.pass && st.out == prod.take(bound)
        }),
    decreases upto,
{
    if upto > 0 {
        lemma_rewrite_bound(prod, counter, upto - 1);
        let st = rewrite_pairs(prod, counter, upto - 1);
        let i = upto - 1;
        if !st.pass && counter.dom().contains((prod[i], prod[i + 1])) && counter[(prod[i], prod[i + 1])] <= 1 {
            if i == prod.len() - 2 {
                assert(prod.take(i).push(prod[i]).push(prod[i + 1]) =~= prod.take(upto + 1));
            } else {
                assert(prod.take(i).push(prod[i]) =~= prod.take(upto));
            }
        }
    } else {
        assert(prod.take(0) =~= Seq::<AtomV>::empty());
    }
}

/// Replaces repeated pairs of `prod` by symbols of new rules, again and again
/// until nothing changes: the production, the rules made, the counts and the
/// last number. `None` when the numbers run out of `u16`.
pub open spec fn gen_grammars(prod: Seq<AtomV>, counter: Map<(AtomV, AtomV), u16>, n: u16) -> Option<
    (Seq<AtomV>, Seq<GrammarItemV>, Map<(AtomV, AtomV), u16>, u16),
>
    decreases prod.len(),
{
    if prod.len() < 2 {
        Some((prod, Seq::empty(), counter, n))
    } else {
        match count_pairs(prod, counter, n, prod.len() - 1) {
            None => None,
            Some(cs) => {
                let rw = rewrite_pairs(prod, cs.counter, prod.len() - 1);
                let c2 = cs.counter.remove_keys(rw.removed.to_set());
                if rw.out == prod {
                    Some((rw.out, cs.rules, c2, cs.n))
                } else {
                    proof {
                        lemma_rewrite_bound(prod, cs.counter, prod.len() - 1);
                        assert(prod.take(prod.len() as int) =~= prod);
                    }
                    match gen_grammars(rw.out, c2, cs.n) {
                        None => None,
                        Some(r) => Some((r.0, cs.rules + r.1, r.2, r.3)),
                    }
                }
            },
        }
    }
}

/// The state after reading some atoms: the rules (the first being `N1`, the
/// whole input rewritten), the counts and the last number.
pub struct SeqState {
    pub ret: Seq<GrammarItemV>,
    pub counter: Map<(AtomV, AtomV), u16>,
    pub n: u16,
}

/// Reads the atoms of `input` one by one: each is appended to the rule `N1`,
/// whose production is then rewritten, and the rules made are added.
pub open spec fn sequitur_fold(input: Seq<AtomV>) -> Option<SeqState>
    decreases input.len(),
{
    if input.len() == 0 {
        Some(SeqState { ret: Seq::empty(), counter: Map::empty(), n: 1 })
    } else {
        match sequitur_fold(input.drop_last()) {
            None => None,
            Some(st) => {
                let item = input.last();
                let prod = if st.ret.len() == 0 {
                    seq![item]
                } else {
                    st.ret[0].production.push(item)
                };
                let sym = if st.ret.len() == 0 {
                    n_symbol(1)
                } else {
                    st.ret[0].symbol
                };
                let ret0 = if st.ret.len() == 0 {
                    seq![GrammarItemV { symbol: sym, production: prod }]
                } else {
                    st.ret
                };
                match gen_grammars(prod, st.counter, st.n) {
                    None => None,
                    Some(r) => Some(
                        SeqState {
                            ret: ret0.update(0, GrammarItemV { symbol: sym, production: r.0 }) + r.1,
                            counter: r.2,
                            n: r.3,
                        },
                    ),
                }
            },
        }
    }
}

/// `s` without runs of equal consecutive rules (the first of each run stays).
pub open spec fn dedup(s: Seq<GrammarItemV>) -> Seq<GrammarItemV>
    decreases s.len(),
{
    if s.len() == 0 {
        s
    } else {
        let d = dedup(s.drop_last());
        if d.len() > 0 && d.last() == s.last() {
            d
        } else {
            d.push(s.last())
        }
    }
}


proof fn lemma_count_prefix(prod: Seq<AtomV>, counter: Map<(AtomV, AtomV), u16>, n: u16, upto: int, j: int)
    requires
        count_pairs(prod, counter, n, upto) is Some,
        0 <= j <= upto,
    ensures
        count_pairs(prod, counter, n, j) is Some,
    decreases upto - j,
{
    if j < upto {
        lemma_count_prefix(prod, counter, n, upto - 1, j);
    }
}

proof fn lemma_fold_prefix(input: Seq<AtomV>, j: int)
    requires
        sequitur_fold(input) is Some,
        0 <= j <= input.len(),
    ensures
        sequitur_fold(input.take(j)) is Some,
    decreases input.len() - j,
{
    if j == input.len() {
        assert(input.take(j) =~= input);
    } else {
        lemma_fold_prefix(input, j + 1);
        assert(input.take(j + 1).drop_last() =~= input.take(j));
    }
}

/// The name `N<n>`.
fn n_name(n: u16) -> (res: String)
    ensures
        AtomV::Symbol(res@) == n_symbol(n as nat),
{
    let mut v: Vec<char> = Vec::new();
    v.push('N');
    let d = decimal_exec(n as usize);
    extend_chars(&mut v, &d);
    assert(v@ =~= seq!['N'] + decimal(n as nat));
    string_of(&v)
}

spec fn pairs_view(s: Seq<(Atom, Atom)>) -> Seq<(AtomV, AtomV)> {
    s.map_values(|p: (Atom, Atom)| (p.0@, p.1@))
}

/// Replaces repeated pairs of `prod` by symbols of new rules until nothing
/// changes; gives the production and the rules made, updating the counts and
/// the last number.
fn gen_grammars_exec(prod: Vec<Atom>, counter: &mut PairCounter, n: &mut u16) -> (res: (Vec<Atom>, Vec<GrammarItem>))
    requires
        old(counter).wf(),
        gen_grammars(atoms_view(prod@), old(counter)@, *old(n)) is Some,
    ensures
        final(counter).wf(),
        (atoms_view(res.0@), items_view(res.1@), final(counter)@, *final(n)) == gen_grammars(
            atoms_view(prod@),
            old(counter)@,
            *old(n),
        )->0,
    decreases prod@.len(),
{
    let ghost pv = atoms_view(prod@);
    let ghost c0 = counter@;
    let ghost n0 = *n;
    if prod.len() < 2 {
        let r: Vec<GrammarItem> = Vec::new();
        assert(items_view(r@) =~= Seq::<GrammarItemV>::empty());
        return (prod, r);
    }
    let last = prod.len() - 1;
    let mut rules: Vec<GrammarItem> = Vec::new();
    let mut i: usize = 0;
    assert(items_view(rules@) =~= Seq::<GrammarItemV>::empty());
    while i < last
        invariant
            last == prod@.len() - 1,
            pv == atoms_view(prod@),
            i <= last,
            counter.wf(),
            count_pairs(pv, c0, n0, last as int) is Some,
            count_pairs(pv, c0, n0, i as int) == Some(CountState { counter: counter@, n: *n, rules: items_view(rules@) }),
        decreases last - i,
    {
        proof {
            lemma_count_prefix(pv, c0, n0, last as int, i + 1);
        }
        let p1 = &prod[i];
        let p2 = &prod[i + 1];
        assert(pv[i as int] == p1@ && pv[i + 1] == p2@);
        match counter.get(p1, p2) {
            Some(_) => {
                if !atom_eq(p1, p2) {
                    *n = *n + 1;
                    counter.set(p1, p2, *n);
                    let rule = GrammarItem {
                        symbol: Atom::Symbol(n_name(*n)),
                        production: vec![p1.clone(), p2.clone()],
                    };
                    let ghost rb = rules@;
                    rules.push(rule);
                    assert(rule@.production =~= seq![p1@, p2@]);
                    assert(items_view(rules@) =~= items_view(rb).push(rule@));
                }
            },
            None => {
                counter.set(p1, p2, 1);
            },
        }
        i += 1;
    }
    let ghost cs = count_pairs(pv, c0, n0, last as int)->0;
    let ghost cc = counter@;
    let mut out: Vec<Atom> = Vec::new();
    let mut pass = false;
    let mut removed: Vec<(Atom, Atom)> = Vec::new();
    let mut j: usize = 0;
    assert(atoms_view(out@) =~= Seq::<AtomV>::empty());
    assert(pairs_view(removed@) =~= Seq::<(AtomV, AtomV)>::empty());
    while j < last
        invariant
            last == prod@.len() - 1,
            pv == atoms_view(prod@),
            j <= last,
            counter.wf(),
            counter@ == cc,
            rewrite_pairs(pv, cc, j as int) == (RewriteState { out: atoms_view(out@), pass, removed: pairs_view(removed@) }),
        decreases last - j,
    {
        if pass {
            pass = false;
        } else {
            let p1 = &prod[j];
            let p2 = &prod[j + 1];
            assert(pv[j as int] == p1@ && pv[j + 1] == p2@);
            match counter.get(p1, p2) {
                Some(c) => {
                    let ghost ob = out@;
                    let ghost remb = removed@;
                    if c <= 1 {
                        out.push(p1.clone());
                        if j == last - 1 {
                            out.push(p2.clone());
                            assert(atoms_view(out@) =~= atoms_view(ob).push(p1@).push(p2@));
                        } else {
                            assert(atoms_view(out@) =~= atoms_view(ob).push(p1@));
                        }
                        removed.push((p1.clone(), p2.clone()));
                        assert(pairs_view(removed@) =~= pairs_view(remb).push((p1@, p2@)));
                    } else {
                        out.push(Atom::Symbol(n_name(c)));
                        assert(atoms_view(out@) =~= atoms_view(ob).push(n_symbol(c as nat)));
                        pass = true;
                    }
                },
                None => {},
            }
        }
        j += 1;
    }
    let ghost rv = pairs_view(removed@);
    let mut r: usize = 0;
    assert(rv.take(0).to_set() =~= Set::<(AtomV, AtomV)>::empty());
    assert(cc.remove_keys(rv.take(0).to_set()) =~= cc);
    while r < removed.len()
        invariant
            r <= removed@.len(),
            rv == pairs_view(removed@),
            counter.wf(),
            counter@ == cc.remove_keys(rv.take(r as int).to_set()),
        decreases removed@.len() - r,
    {
        let ghost before = counter@;
        counter.remove(&removed[r].0, &removed[r].1);
        assert(rv[r as int] == (removed@[r as int].0@, removed@[r as int].1@));
        assert(rv.take(r + 1).to_set() =~= rv.take(r as int).to_set().insert(rv[r as int])) by {
            assert(rv.take(r + 1) =~= rv.take(r as int).push(rv[r as int]));
        }
        assert(counter@ =~= cc.remove_keys(rv.take(r + 1).to_set()));
        r += 1;
    }
    assert(rv.take(removed@.len() as int) =~= rv);
    proof {
        lemma_rewrite_bound(pv, cc, last as int);
        assert(pv.take(pv.len() as int) =~= pv);
    }
    if atoms_eq(&out, &prod) {
        (out, rules)
    } else {
        let (p2, more) = gen_grammars_exec(out, counter, n);
        let ghost rb = rules@;
        let mut more = more;
        let ghost mb = more@;
        rules.append(&mut more);
        assert(items_view(rules@) =~= items_view(rb) + items_view(mb));
        (p2, rules)
    }
}

/// `s` without runs of equal consecutive rules.
fn dedup_exec(s: &Vec<GrammarItem>) -> (res: Vec<GrammarItem>)
    ensures
        items_view(res@) == dedup(items_view(s@)),
{
    let ghost sv = items_view(s@);
    let mut res: Vec<GrammarItem> = Vec::new();
    let mut i: usize = 0;
    assert(sv.take(0) =~= Seq::<GrammarItemV>::empty());
    assert(items_view(res@) =~= Seq::<GrammarItemV>::empty());
    while i < s.len()
        invariant
            i <= s@.len(),
            sv == items_view(s@),
            items_view(res@) == dedup(sv.take(i as int)),
        decreases s@.len() - i,
    {
        assert(sv.take(i + 1).drop_last() =~= sv.take(i as int));
        assert(sv.take(i + 1).last() == s@[i as int]@);
        let ghost rb = res@;
        if res.len() > 0 && grammar_item_eq(&res[res.len() - 1], &s[i]) {
        } else {
            res.push(s[i].clone());
            assert(items_view(res@) =~= items_view(rb).push(s@[i as int]@));
        }
        i += 1;
    }
    assert(sv.take(s@.len() as int) =~= sv);
    res
}

/// Finds repeated pairs in `input`: the rule `N1` derives the input with each
/// pair that occurs again replaced by the symbol of a rule `N<k>` made for
/// it, repeatedly; gives `N1` and the rules made, without consecutive
/// repetitions.
pub fn sequitur(input: Vec<Atom>) -> (res: Vec<GrammarItem>)
    requires
        sequitur_fold(atoms_view(input@)) is Some,
    ensures
        items_view(res@) == dedup(sequitur_fold(atoms_view(input@))->0.ret),
{
    let ghost iv = atoms_view(input@);
    let mut n: u16 = 1;
    let mut ret: Vec<GrammarItem> = Vec::new();
    let mut counter = PairCounter::new();
    let mut i: usize = 0;
    assert(iv.take(0) =~= Seq::<AtomV>::empty());
    assert(items_view(ret@) =~= Seq::<GrammarItemV>::empty());
    while i < input.len()
        invariant
            i <= input@.len(),
            iv == atoms_view(input@),
            sequitur_fold(iv) is Some,
            counter.wf(),
            sequitur_fold(iv.take(i as int)) == Some(SeqState { ret: items_view(ret@), counter: counter@, n }),
        decreases input@.len() - i,
    {
        proof {
            lemma_fold_prefix(iv, i + 1);
            assert(iv.take(i + 1).drop_last() =~= iv.take(i as int));
            assert(iv.take(i + 1).last() == input@[i as int]@);
        }
        let item = &input[i];
        let prod: Vec<Atom>;
        let sym: Atom;
        if ret.len() == 0 {
            prod = vec![item.clone()];
            sym = Atom::Symbol(n_name(1));
            let first = GrammarItem { symbol: sym.clone(), production: vec![item.clone()] };
            assert(first@.production =~= seq![item@]);
            assert(first@.symbol == sym@);
            ret.push(first);
            assert(atoms_view(prod@) =~= seq![item@]);
            assert(items_view(ret@) =~= seq![GrammarItemV { symbol: sym@, production: seq![item@] }]);
        } else {
            let mut first = ret[0].clone();
            first.production.push(item.clone());
            prod = copy_atoms(&first.production);
            sym = first.symbol.clone();
            assert(atoms_view(first.production@) =~= items_view(ret@)[0].production.push(item@));
        }
        let ghost ret0 = items_view(ret@);
        let (np, rules) = gen_grammars_exec(prod, &mut counter, &mut n);
        let ghost rb = ret@;
        ret.set(0, GrammarItem { symbol: sym, production: np });
        let mut rules = rules;
        let ghost rlb = rules@;
        ret.append(&mut rules);
        assert(items_view(ret@) =~= ret0.update(0, GrammarItemV { symbol: sym@, production: atoms_view(np@) }) + items_view(rlb));
        i += 1;
    }
    assert(iv.take(input@.len() as int) =~= iv);
    dedup_exec(&ret)
}

} // verus!
