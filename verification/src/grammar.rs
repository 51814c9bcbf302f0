use vstd::prelude::*;

verus! {

/// The abstract value of a grammar atom: either a nonterminal symbol or a
/// terminal, each carrying its name.
pub enum AtomV {
    Symbol(Seq<char>),
    Terminal(Seq<char>),
}

/// A grammar atom: a nonterminal symbol or a terminal, with its name.
#[derive(Debug, PartialEq, Eq, Hash, PartialOrd, Ord)]
pub enum Atom {
    Symbol(String),
    Terminal(String),
}

impl View for Atom {
    type V = AtomV;

    open spec fn view(&self) -> AtomV {
        match self {
            Atom::Symbol(s) => AtomV::Symbol(s@),
            Atom::Terminal(s) => AtomV::Terminal(s@),
        }
    }
}

impl Clone for Atom {
    fn clone(&self) -> (res: Self)
        ensures
            res@ == self@,
    {
        match self {
            Atom::Symbol(s) => Atom::Symbol(s.clone()),
            Atom::Terminal(s) => Atom::Terminal(s.clone()),
        }
    }
}

/// The name carried by an atom, whatever its kind.
pub open spec fn atom_name(a: AtomV) -> Seq<char> {
    match a {
        AtomV::Symbol(s) => s,
        AtomV::Terminal(s) => s,
    }
}

/// The abstract values of a sequence of atoms.
pub open spec fn atoms_view(s: Seq<Atom>) -> Seq<AtomV> {
    s.map_values(|a: Atom| a@)
}

/// The name of an atom as a fresh string.
pub fn get_atom_string(atom: &Atom) -> (res: String)
    ensures
        res@ == atom_name(atom@),
{
    match atom {
        Atom::Symbol(s) => s.clone(),
        Atom::Terminal(s) => s.clone(),
    }
}

/// Whether two atoms are the same atom (same kind, same name).
pub fn atom_eq(a: &Atom, b: &Atom) -> (res: bool)
    ensures
        res == (a@ == b@),
{
    match (a, b) {
        (Atom::Symbol(x), Atom::Symbol(y)) => x.eq(y),
        (Atom::Terminal(x), Atom::Terminal(y)) => x.eq(y),
        _ => false,
    }
}

/// A copy of a sequence of atoms.
pub fn copy_atoms(v: &Vec<Atom>) -> (res: Vec<Atom>)
    ensures
        atoms_view(res@) == atoms_view(v@),
{
    let mut res: Vec<Atom> = Vec::new();
    let mut i: usize = 0;
    while i < v.len()
        invariant
            i <= v.len(),
            res@.len() == i,
            forall|k: int| 0 <= k < i ==> #[trigger] res@[k]@ == v@[k]@,
        decreases v.len() - i,
    {
        res.push(v[i].clone());
        i += 1;
    }
    assert(atoms_view(res@) =~= atoms_view(v@));
    res
}

/// Whether two sequences of atoms are equal.
pub fn atoms_eq(a: &Vec<Atom>, b: &Vec<Atom>) -> (res: bool)
    ensures
        res == (atoms_view(a@) == atoms_view(b@)),
{
    if a.len() != b.len() {
        assert(atoms_view(a@).len() != atoms_view(b@).len());
        return false;
    }
    let mut i: usize = 0;
    while i < a.len()
        invariant
            i <= a.len(),
            a.len() == b.len(),
            atoms_view(a@).take(i as int) == atoms_view(b@).take(i as int),
        decreases a.len() - i,
    {
        if !atom_eq(&a[i], &b[i]) {
            assert(atoms_view(a@)[i as int] != atoms_view(b@)[i as int]);
            return false;
        }
        i += 1;
        assert(atoms_view(a@).take(i as int) =~= atoms_view(b@).take(i as int));
    }
    assert(atoms_view(a@).take(a.len() as int) =~= atoms_view(a@));
    assert(atoms_view(b@).take(b.len() as int) =~= atoms_view(b@));
    true
}

/// The abstract value of a grammar rule: a symbol and one of its productions.
pub struct GrammarItemV {
    pub symbol: AtomV,
    pub production: Seq<AtomV>,
}

/// A grammar rule: `symbol` derives the sequence `production`.
#[derive(Debug, PartialEq, Eq, Hash, PartialOrd, Ord)]
pub struct GrammarItem {
    pub symbol: Atom,
    pub production: Vec<Atom>,
}

impl View for GrammarItem {
    type V = GrammarItemV;

    open spec fn view(&self) -> GrammarItemV {
        GrammarItemV { symbol: self.symbol@, production: atoms_view(self.production@) }
    }
}

impl Clone for GrammarItem {
    fn clone(&self) -> (res: Self)
        ensures
            res@ == self@,
    {
        GrammarItem { symbol: self.symbol.clone(), production: copy_atoms(&self.production) }
    }
}

/// The abstract values of a sequence of grammar rules.
pub open spec fn items_view(s: Seq<GrammarItem>) -> Seq<GrammarItemV> {
    s.map_values(|g: GrammarItem| g@)
}

/// Whether two grammar rules are equal.
pub fn grammar_item_eq(a: &GrammarItem, b: &GrammarItem) -> (res: bool)
    ensures
        res == (a@ == b@),
{
    atom_eq(&a.symbol, &b.symbol) && atoms_eq(&a.production, &b.production)
}

} // verus!
