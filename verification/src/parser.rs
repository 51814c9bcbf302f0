use vstd::prelude::*;
use std::collections::VecDeque;
use vstd::std_specs::vecdeque::VecDequeAdditionalSpecFns;

use crate::grammar::{Atom, AtomV, GrammarItem, GrammarItemV, atom_name, atoms_view, get_atom_string};
use crate::lex::{Lex, LexV, opt_str, lexes_view};
use crate::strings::str_contains_char;
use crate::table::{ActionRow, GotoRow, TableItem, TableItemV, Action, table_items_view, copy_table_items};

verus! {

broadcast use vstd::std_specs::vecdeque::group_vec_dequeue_axioms;

// ---------------------------------------------------------------------------
// Syntax trees
// ---------------------------------------------------------------------------

/// The abstract value of a syntax tree node.
pub struct TreeV {
    pub value: Option<Seq<char>>,
    pub symbol: Seq<char>,
    pub children: Option<Seq<TreeV>>,
}

/// A node of a syntax tree: a token (with the text it matched, if any) or a
/// reduced symbol with its children.
#[derive(Debug)]
pub struct SyntaxTreeNode {
    pub value: Option<String>,
    pub symbol: String,
    pub children: Option<VecDeque<Box<SyntaxTreeNode>>>,
}

impl SyntaxTreeNode {
    /// The abstract value of the tree rooted here.
    pub open spec fn tree(self) -> TreeV
        decreases self,
    {
        TreeV {
            value: opt_str(self.value),
            symbol: self.symbol@,
            children: match self.children {
                Some(c) => Some(
                    Seq::new(
                        c@.len(),
                        |i: int|
                            if 0 <= i < c@.len() {
                                proof {
                                    broadcast use vstd::std_specs::vecdeque::group_vec_dequeue_axioms;
                                }
                                (*c[i]).tree()
                            } else {
                                TreeV { value: None, symbol: Seq::empty(), children: None }
                            },
                    ),
                ),
                None => None,
            },
        }
    }
}

/// The abstract values of a sequence of trees.
pub open spec fn trees_view(s: Seq<Box<SyntaxTreeNode>>) -> Seq<TreeV> {
    s.map_values(|b: Box<SyntaxTreeNode>| (*b).tree())
}

/// The abstract values of a sequence of tree stacks.
pub open spec fn forest_view(s: Seq<VecDeque<Box<SyntaxTreeNode>>>) -> Seq<Seq<TreeV>> {
    s.map_values(|d: VecDeque<Box<SyntaxTreeNode>>| trees_view(d@))
}

// ---------------------------------------------------------------------------
// What the parser does, step by step
// ---------------------------------------------------------------------------

/// The abstract state of one parse: the tree stack, the state stack, the
/// position of the next token, the current token's name and text, the counts
/// of trees held by pending `~` symbols, and the table entries to apply next.
pub struct ConfigV {
    pub trees: Seq<TreeV>,
    pub states: Seq<u32>,
    pub index: int,
    pub word: Seq<char>,
    pub value: Option<Seq<char>>,
    pub cuts: Seq<u32>,
    pub pending: Option<Seq<TableItemV>>,
}

/// The outcome of one step: go on from a new state, stop with a tree stack,
/// split into one parse per table entry, or fail as the parser would panic.
pub enum StepV {
    Next(ConfigV),
    Done(Seq<TreeV>),
    Split(Seq<ConfigV>),
    Panic,
}

/// A symbol whose name holds `~` is folded into its parent: it makes no node
/// of its own.
pub open spec fn is_cut_atom(a: AtomV) -> bool {
    match a {
        AtomV::Symbol(x) => x.contains('~'),
        AtomV::Terminal(_) => false,
    }
}

/// Reducing by a production, the number of trees that the new node takes and
/// the counts left: each atom takes one tree, but a folded symbol takes the
/// count it left behind, if any.
pub open spec fn cut_of(prod: Seq<AtomV>, cuts: Seq<u32>) -> (int, Seq<u32>)
    decreases prod.len(),
{
    if prod.len() == 0 {
        (0, cuts)
    } else {
        let (n, cs) = cut_of(prod.drop_last(), cuts);
        if is_cut_atom(prod.last()) {
            if cs.len() > 0 {
                (n + cs.last(), cs.drop_last())
            } else {
                (n, cs)
            }
        } else {
            (n + 1, cs)
        }
    }
}

/// The entries of the action table for state `st` and the terminal `word`,
/// in their order, if there are any.
pub open spec fn action_items(actions: Seq<ActionRow>, st: u32, word: Seq<char>) -> Option<
    Seq<TableItemV>,
> {
    if st < actions.len() && actions[st as int]@.dom().contains(word) {
        let row = actions[st as int];
        Some(table_items_view(row.entries@[row.key_index(word)].items@))
    } else {
        None
    }
}

/// The state the goto table gives for state `st` and the symbol `name`, or 0.
pub open spec fn goto_target(gotos: Seq<GotoRow>, st: u32, name: Seq<char>) -> u32 {
    if st < gotos.len() && gotos[st as int]@.dom().contains(name) {
        gotos[st as int]@[name]
    } else {
        0
    }
}

/// Looks up the entries for the state on top of the stack and the current token.
pub open spec fn lookup(actions: Seq<ActionRow>, c: ConfigV) -> StepV {
    if c.states.len() == 0 {
        StepV::Panic
    } else {
        match action_items(actions, c.states.last(), c.word) {
            Some(items) => StepV::Next(ConfigV { pending: Some(items), ..c }),
            None => StepV::Done(c.trees),
        }
    }
}

/// The stack without its top `k` entries (empty when it has fewer).
pub open spec fn pop_n(s: Seq<u32>, k: int) -> Seq<u32> {
    if k <= s.len() {
        s.take(s.len() - k)
    } else {
        Seq::empty()
    }
}

/// Reduces by the rule `r`.
pub open spec fn reduce(actions: Seq<ActionRow>, gotos: Seq<GotoRow>, c: ConfigV, r: GrammarItemV) -> StepV {
    let (n, cuts) = cut_of(r.production, c.cuts);
    let states = pop_n(c.states, r.production.len() as int);
    let name = atom_name(r.symbol);
    if n > u32::MAX || states.len() == 0 {
        StepV::Panic
    } else {
        let trees = if name.contains('~') {
            c.trees
        } else {
            let m = if n <= c.trees.len() { n } else { c.trees.len() as int };
            let k = c.trees.len() - m;
            c.trees.take(k).push(TreeV { value: None, symbol: name, children: Some(c.trees.skip(k)) })
        };
        let cuts2 = if name.contains('~') { cuts.push(n as u32) } else { cuts };
        let st = states.last();
        lookup(
            actions,
            ConfigV { trees, states: states.push(goto_target(gotos, st, name)), cuts: cuts2, ..c },
        )
    }
}

/// Shifts the current token, moving to state `target`.
pub open spec fn shift(actions: Seq<ActionRow>, words: Seq<LexV>, c: ConfigV, target: u32) -> StepV {
    let trees = c.trees.push(TreeV { value: c.value, symbol: c.word, children: None });
    let states = c.states.push(target);
    if 0 <= c.index < words.len() {
        let w = words[c.index];
        lookup(
            actions,
            ConfigV {
                trees,
                states,
                index: c.index + 1,
                word: atom_name(w.atom),
                value: w.value,
                ..c
            },
        )
    } else {
        StepV::Done(trees)
    }
}

/// One step of the parser. With several entries pending it splits, one parse
/// per entry; with one it applies it; then it looks up the next entries.
pub open spec fn step(actions: Seq<ActionRow>, gotos: Seq<GotoRow>, words: Seq<LexV>, c: ConfigV) -> StepV {
    match c.pending {
        None => lookup(actions, c),
        Some(items) => if items.len() > 1 {
            StepV::Split(items.map_values(|t: TableItemV| ConfigV { pending: Some(seq![t]), ..c }))
        } else if items.len() == 0 {
            lookup(actions, c)
        } else {
            let t = items[0];
            match t.action {
                Action::Reduce => match t.lr_item {
                    Some(r) => reduce(actions, gotos, c, r),
                    None => lookup(actions, c),
                },
                Action::Shift => shift(actions, words, c, t.state),
            }
        },
    }
}

/// The tree stacks a parse gives with at most `fuel` steps along any branch:
/// its own stack when it stops or splits, followed by those of its branches in
/// the order of their entries; `None` when it needs more steps or panics.
pub open spec fn run(
    actions: Seq<ActionRow>,
    gotos: Seq<GotoRow>,
    words: Seq<LexV>,
    c: ConfigV,
    fuel: nat,
) -> Option<Seq<Seq<TreeV>>>
    decreases fuel, 0nat,
{
    if fuel == 0 {
        None
    } else {
        match step(actions, gotos, words, c) {
            StepV::Next(c2) => run(actions, gotos, words, c2, (fuel - 1) as nat),
            StepV::Done(t) => Some(seq![t]),
            StepV::Split(cs) => match run_all(actions, gotos, words, cs, (fuel - 1) as nat) {
                Some(r) => Some(seq![c.trees] + r),
                None => None,
            },
            StepV::Panic => None,
        }
    }
}

/// The tree stacks of several parses, one after the other.
pub open spec fn run_all(
    actions: Seq<ActionRow>,
    gotos: Seq<GotoRow>,
    words: Seq<LexV>,
    cs: Seq<ConfigV>,
    fuel: nat,
) -> Option<Seq<Seq<TreeV>>>
    decreases fuel, cs.len(),
{
    if cs.len() == 0 {
        Some(Seq::empty())
    } else {
        match run_all(actions, gotos, words, cs.drop_last(), fuel) {
            Some(a) => match run(actions, gotos, words, cs.last(), fuel) {
                Some(b) => Some(a + b),
                None => None,
            },
            None => None,
        }
    }
}

/// The state a parse of `words` starts from.
pub open spec fn initial_config(words: Seq<LexV>) -> ConfigV {
    ConfigV {
        trees: Seq::empty(),
        states: seq![0u32],
        index: 1,
        word: if words.len() > 0 { atom_name(words[0].atom) } else { Seq::empty() },
        value: if words.len() > 0 { words[0].value } else { None },
        cuts: Seq::empty(),
        pending: None,
    }
}

/// Parsing `words` gives the tree stacks `r` after finitely many steps.
pub open spec fn parses_to(
    actions: Seq<ActionRow>,
    gotos: Seq<GotoRow>,
    words: Seq<LexV>,
    r: Seq<Seq<TreeV>>,
) -> bool {
    exists|fuel: nat| run(actions, gotos, words, initial_config(words), fuel) == Some(r)
}

/// Parsing `words` stops, without a panic, on every branch.
pub open spec fn parse_halts(actions: Seq<ActionRow>, gotos: Seq<GotoRow>, words: Seq<LexV>) -> bool {
    exists|fuel: nat| #[trigger] run(actions, gotos, words, initial_config(words), fuel) is Some
}


proof fn lemma_run_more_fuel(
    actions: Seq<ActionRow>,
    gotos: Seq<GotoRow>,
    words: Seq<LexV>,
    c: ConfigV,
    f: nat,
    f2: nat,
)
    requires
        f <= f2,
        run(actions, gotos, words, c, f) is Some,
    ensures
        run(actions, gotos, words, c, f2) == run(actions, gotos, words, c, f),
    decreases f, 0nat,
{
    match step(actions, gotos, words, c) {
        StepV::Next(c2) => {
            lemma_run_more_fuel(actions, gotos, words, c2, (f - 1) as nat, (f2 - 1) as nat);
        },
        StepV::Split(cs) => {
            lemma_run_all_more_fuel(actions, gotos, words, cs, (f - 1) as nat, (f2 - 1) as nat);
        },
        _ => {},
    }
}

proof fn lemma_run_all_more_fuel(
    actions: Seq<ActionRow>,
    gotos: Seq<GotoRow>,
    words: Seq<LexV>,
    cs: Seq<ConfigV>,
    f: nat,
    f2: nat,
)
    requires
        f <= f2,
        run_all(actions, gotos, words, cs, f) is Some,
    ensures
        run_all(actions, gotos, words, cs, f2) == run_all(actions, gotos, words, cs, f),
    decreases f, cs.len(),
{
    if cs.len() > 0 {
        lemma_run_all_more_fuel(actions, gotos, words, cs.drop_last(), f, f2);
        lemma_run_more_fuel(actions, gotos, words, cs.last(), f, f2);
    }
}

/// A parse gives one result: the tree stacks do not depend on how many steps
/// are allowed, once they are enough.
pub proof fn lemma_parse_unique(
    actions: Seq<ActionRow>,
    gotos: Seq<GotoRow>,
    words: Seq<LexV>,
    r1: Seq<Seq<TreeV>>,
    r2: Seq<Seq<TreeV>>,
)
    requires
        parses_to(actions, gotos, words, r1),
        parses_to(actions, gotos, words, r2),
    ensures
        r1 == r2,
{
    let c = initial_config(words);
    let f1 = choose|fuel: nat| run(actions, gotos, words, c, fuel) == Some(r1);
    let f2 = choose|fuel: nat| run(actions, gotos, words, c, fuel) == Some(r2);
    if f1 <= f2 {
        lemma_run_more_fuel(actions, gotos, words, c, f1, f2);
    } else {
        lemma_run_more_fuel(actions, gotos, words, c, f2, f1);
    }
}


// ---------------------------------------------------------------------------
// Copies of trees
// ---------------------------------------------------------------------------

fn copy_opt_string(v: &Option<String>) -> (res: Option<String>)
    ensures
        opt_str(res) == opt_str(*v),
{
    match v {
        Some(s) => Some(s.clone()),
        None => None,
    }
}

/// A copy of the tree rooted at `t`.
fn copy_node(t: &SyntaxTreeNode) -> (res: SyntaxTreeNode)
    ensures
        res.tree() == t.tree(),
    decreases t,
{
    let children = match &t.children {
        Some(c) => {
            let mut d: VecDeque<Box<SyntaxTreeNode>> = VecDeque::new();
            let mut i: usize = 0;
            while i < c.len()
                invariant
                    i <= c@.len(),
                    t.children == Some(*c),
                    d@.len() == i,
                    forall|j: int| 0 <= j < i ==> (*d@[j]).tree() == (*c@[j]).tree(),
                decreases c@.len() - i,
            {
                proof {
                    let cc = t.children->0;
                    assert(decreases_to!(*t => t.children));
                    assert(decreases_to!(t.children => cc));
                    assert(decreases_to!(cc => cc[i as int]));
                }
                let n = copy_node(&c[i]);
                d.push_back(Box::new(n));
                i += 1;
            }
            Some(d)
        },
        None => None,
    };
    let res = SyntaxTreeNode {
        value: copy_opt_string(&t.value),
        symbol: t.symbol.clone(),
        children,
    };
    proof {
        if t.children is Some {
            let c = t.children->0;
            let d = res.children->0;
            assert(res.tree().children->0 =~= t.tree().children->0) by {
                assert forall|j: int| 0 <= j < c@.len() implies d[j].tree() == c[j].tree() by {
                    assert(d[j] == d@[j]);
                    assert(c[j] == c@[j]);
                }
            }
        }
    }
    res
}

impl Clone for SyntaxTreeNode {
    fn clone(&self) -> (res: Self)
        ensures
            res.tree() == self.tree(),
    {
        copy_node(self)
    }
}

/// A copy of a stack of trees.
fn copy_trees(s: &VecDeque<Box<SyntaxTreeNode>>) -> (res: VecDeque<Box<SyntaxTreeNode>>)
    ensures
        trees_view(res@) == trees_view(s@),
{
    let mut d: VecDeque<Box<SyntaxTreeNode>> = VecDeque::new();
    let mut i: usize = 0;
    while i < s.len()
        invariant
            i <= s@.len(),
            d@.len() == i,
            trees_view(d@) == trees_view(s@).take(i as int),
        decreases s@.len() - i,
    {
        let n = copy_node(&s[i]);
        assert(n.tree() == (*s@[i as int]).tree());
        let ghost before = d@;
        d.push_back(Box::new(n));
        assert(trees_view(d@) =~= trees_view(s@).take(i + 1)) by {
            assert(d@ == before.push(Box::new(n)));
            assert forall|j: int| 0 <= j <= i implies trees_view(d@)[j] == trees_view(s@)[j] by {
                if j < i {
                    assert(trees_view(d@)[j] == trees_view(before)[j]);
                }
            }
        }
        i += 1;
    }
    assert(trees_view(s@).take(s@.len() as int) =~= trees_view(s@));
    d
}


// ---------------------------------------------------------------------------
// The parser
// ---------------------------------------------------------------------------

/// The state of one parse.
struct Config {
    trees: VecDeque<Box<SyntaxTreeNode>>,
    states: Vec<u32>,
    index: usize,
    word: String,
    value: Option<String>,
    cuts: Vec<u32>,
    pending: Option<Vec<TableItem>>,
}

impl View for Config {
    type V = ConfigV;

    closed spec fn view(&self) -> ConfigV {
        ConfigV {
            trees: trees_view(self.trees@),
            states: self.states@,
            index: self.index as int,
            word: self.word@,
            value: opt_str(self.value),
            cuts: self.cuts@,
            pending: match self.pending {
                Some(v) => Some(table_items_view(v@)),
                None => None,
            },
        }
    }
}

/// The outcome of one step; a split also gives the tree stack it split from.
enum Step {
    Next(Config),
    Done(VecDeque<Box<SyntaxTreeNode>>),
    Split(VecDeque<Box<SyntaxTreeNode>>, VecDeque<Config>),
    Panic,
}

spec fn configs_view(s: Seq<Config>) -> Seq<ConfigV> {
    s.map_values(|c: Config| c@)
}

spec fn step_view(s: Step) -> StepV {
    match s {
        Step::Next(c) => StepV::Next(c@),
        Step::Done(t) => StepV::Done(trees_view(t@)),
        Step::Split(_, cs) => StepV::Split(configs_view(cs@)),
        Step::Panic => StepV::Panic,
    }
}

spec fn rows_ok(actions: Seq<ActionRow>, gotos: Seq<GotoRow>) -> bool {
    &&& forall|i: int| 0 <= i < actions.len() ==> (#[trigger] actions[i]).wf()
    &&& forall|i: int| 0 <= i < gotos.len() ==> (#[trigger] gotos[i]).wf()
}

fn copy_u32s(v: &Vec<u32>) -> (res: Vec<u32>)
    ensures
        res@ == v@,
{
    let mut r: Vec<u32> = Vec::new();
    let mut i: usize = 0;
    while i < v.len()
        invariant
            i <= v@.len(),
            r@ == v@.take(i as int),
        decreases v@.len() - i,
    {
        r.push(v[i]);
        assert(r@ =~= v@.take(i + 1));
        i += 1;
    }
    assert(v@.take(v@.len() as int) =~= v@);
    r
}

fn lookup_exec(actions: &Vec<ActionRow>, c: Config) -> (res: Step)
    requires
        forall|i: int| 0 <= i < actions@.len() ==> (#[trigger] actions@[i]).wf(),
    ensures
        step_view(res) == lookup(actions@, c@),
{
    let mut c = c;
    if c.states.len() == 0 {
        return Step::Panic;
    }
    let st = c.states[c.states.len() - 1];
    if (st as usize) < actions.len() {
        let row = &actions[st as usize];
        match row.find(&c.word) {
            Some(i) => {
                let items = copy_table_items(&row.entries[i].items);
                c.pending = Some(items);
                Step::Next(c)
            },
            None => Step::Done(c.trees),
        }
    } else {
        Step::Done(c.trees)
    }
}

proof fn lemma_cut_mono(prod: Seq<AtomV>, cuts: Seq<u32>, j: int, k: int)
    requires
        0 <= j <= k <= prod.len(),
    ensures
        cut_of(prod.take(j), cuts).0 <= cut_of(prod.take(k), cuts).0,
    decreases k - j,
{
    if j < k {
        lemma_cut_mono(prod, cuts, j, k - 1);
        assert(prod.take(k).drop_last() =~= prod.take(k - 1));
    }
}

fn reduce_exec(actions: &Vec<ActionRow>, gotos: &Vec<GotoRow>, c: Config, r: &GrammarItem) -> (res: Step)
    requires
        rows_ok(actions@, gotos@),
    ensures
        step_view(res) == reduce(actions@, gotos@, c@, r@),
{
    let ghost c0 = c@;
    let ghost prod = atoms_view(r.production@);
    let Config { mut trees, mut states, index, word, value, mut cuts, pending: _ } = c;
    let mut n: u32 = 0;
    let mut i: usize = 0;
    assert(prod.take(0) =~= Seq::<AtomV>::empty());
    assert(pop_n(c0.states, 0) =~= c0.states);
    while i < r.production.len()
        invariant
            i <= r.production@.len(),
            prod == atoms_view(r.production@),
            prod == r@.production,
            c0 == c@,
            (n as int, cuts@) == cut_of(prod.take(i as int), c0.cuts),
            states@ == pop_n(c0.states, i as int),
        decreases r.production@.len() - i,
    {
        states.pop();
        let ghost p1 = prod.take(i + 1);
        proof {
            assert(p1.drop_last() =~= prod.take(i as int));
            assert(p1.last() == prod[i as int]);
            lemma_cut_mono(prod, c0.cuts, i + 1, prod.len() as int);
            assert(prod.take(prod.len() as int) =~= prod);
            let old_states = pop_n(c0.states, i as int);
            if i + 1 <= c0.states.len() {
                assert(pop_n(c0.states, i + 1) =~= old_states.subrange(0, old_states.len() - 1));
            } else {
                assert(pop_n(c0.states, i + 1) =~= Seq::<u32>::empty());
            }
        }
        let is_cut = match &r.production[i] {
            Atom::Symbol(x) => str_contains_char(x, '~'),
            Atom::Terminal(_) => false,
        };
        assert(is_cut == is_cut_atom(prod[i as int]));
        if is_cut {
            match cuts.pop() {
                Some(x) => {
                    if n > u32::MAX - x {
                        assert(cut_of(p1, c0.cuts).0 > u32::MAX);
                        assert(cut_of(prod, c0.cuts).0 > u32::MAX);
                        return Step::Panic;
                    }
                    n = n + x;
                },
                None => {},
            }
        } else {
            if n == u32::MAX {
                assert(cut_of(p1, c0.cuts).0 > u32::MAX);
                assert(cut_of(prod, c0.cuts).0 > u32::MAX);
                return Step::Panic;
            }
            n = n + 1;
        }
        i += 1;
    }
    assert(prod.take(prod.len() as int) =~= prod);
    let name = get_atom_string(&r.symbol);
    let ghost t0 = c0.trees;
    if str_contains_char(&name, '~') {
        cuts.push(n);
    } else {
        let mut children: VecDeque<Box<SyntaxTreeNode>> = VecDeque::new();
        let mut k: u32 = 0;
        assert(t0.take(t0.len() as int) =~= t0);
        assert(t0.skip(t0.len() as int) =~= Seq::<TreeV>::empty());
        while k < n
            invariant
                k <= n,
                trees@.len() == if k <= t0.len() { t0.len() - k } else { 0 },
                trees_view(trees@) == t0.take(trees@.len() as int),
                trees_view(children@) == t0.skip(trees@.len() as int),
                children@.len() == t0.len() - trees@.len(),
            decreases n - k,
        {
            let ghost before_t = trees@;
            let ghost before_c = children@;
            match trees.pop_back() {
                Some(x) => {
                    children.push_front(x);
                    proof {
                        let l = before_t.len() - 1;
                        assert(trees_view(trees@) =~= t0.take(l)) by {
                            assert forall|j: int| 0 <= j < l implies trees_view(trees@)[j] == t0[j] by {
                                assert(trees@[j] == before_t[j]);
                                assert(trees_view(before_t)[j] == t0.take(before_t.len() as int)[j]);
                            }
                        }
                        assert(trees_view(children@) =~= t0.skip(l)) by {
                            assert(children@ == seq![x] + before_c);
                            assert((*x).tree() == trees_view(before_t)[l]);
                            assert forall|j: int| 0 <= j < children@.len() implies trees_view(children@)[j] == t0.skip(l)[j] by {
                                if j > 0 {
                                    assert(children@[j] == before_c[j - 1]);
                                    assert(trees_view(before_c)[j - 1] == t0.skip(before_t.len() as int)[j - 1]);
                                }
                            }
                        }
                    }
                },
                None => {},
            }
            k += 1;
        }
        let ghost m = if n <= t0.len() { n as int } else { t0.len() as int };
        assert(trees@.len() == t0.len() - m);
        let node = SyntaxTreeNode { value: None, symbol: name.clone(), children: Some(children) };
        proof {
            let kk = t0.len() - m;
            assert(node.tree().children->0 =~= t0.skip(kk)) by {
                let ch = node.children->0;
                assert forall|j: int| 0 <= j < ch@.len() implies node.tree().children->0[j] == t0.skip(kk)[j] by {
                    assert(ch[j] == ch@[j]);
                    assert(trees_view(ch@)[j] == (*ch@[j]).tree());
                }
            }
        }
        let ghost tb = trees@;
        trees.push_back(Box::new(node));
        proof {
            let kk = t0.len() - m;
            assert(trees_view(trees@) =~= t0.take(kk).push(
                TreeV { value: None, symbol: name@, children: Some(t0.skip(kk)) },
            )) by {
                assert(trees@ == tb.push(Box::new(node)));
                assert forall|j: int| 0 <= j < kk implies trees_view(trees@)[j] == t0.take(kk)[j] by {
                    assert(trees@[j] == tb[j]);
                    assert(trees_view(tb)[j] == t0.take(kk)[j]);
                }
            }
        }
    }
    if states.len() == 0 {
        return Step::Panic;
    }
    let st = states[states.len() - 1];
    let target: u32 = if (st as usize) < gotos.len() {
        match gotos[st as usize].get(&name) {
            Some(x) => x,
            None => 0,
        }
    } else {
        0
    };
    states.push(target);
    lookup_exec(actions, Config { trees, states, index, word, value, cuts, pending: None })
}

fn shift_exec(actions: &Vec<ActionRow>, words: &Vec<Lex>, c: Config, target: u32) -> (res: Step)
    requires
        forall|i: int| 0 <= i < actions@.len() ==> (#[trigger] actions@[i]).wf(),
    ensures
        step_view(res) == shift(actions@, lexes_view(words@), c@, target),
{
    let ghost c0 = c@;
    let Config { mut trees, mut states, index, word, value, cuts, pending: _ } = c;
    let leaf = SyntaxTreeNode { value, symbol: word, children: None };
    let ghost tb = trees@;
    trees.push_back(Box::new(leaf));
    assert(trees_view(trees@) =~= c0.trees.push(TreeV { value: c0.value, symbol: c0.word, children: None })) by {
        assert(trees@ == tb.push(Box::new(leaf)));
        assert forall|j: int| 0 <= j < tb.len() implies trees_view(trees@)[j] == c0.trees[j] by {
            assert(trees@[j] == tb[j]);
        }
    }
    states.push(target);
    if index < words.len() {
        let w = &words[index];
        let nw = get_atom_string(&w.atom);
        let nv = copy_opt_string(&w.value);
        assert(lexes_view(words@)[index as int] == w@);
        lookup_exec(
            actions,
            Config { trees, states, index: index + 1, word: nw, value: nv, cuts, pending: None },
        )
    } else {
        Step::Done(trees)
    }
}


fn step_exec(actions: &Vec<ActionRow>, gotos: &Vec<GotoRow>, words: &Vec<Lex>, c: Config) -> (res: Step)
    requires
        rows_ok(actions@, gotos@),
    ensures
        step_view(res) == step(actions@, gotos@, lexes_view(words@), c@),
        res matches Step::Split(t, _) ==> trees_view(t@) == c@.trees,
{
    let ghost c0 = c@;
    let mut c = c;
    match c.pending.take() {
        None => lookup_exec(actions, c),
        Some(items) => {
            let ghost iv = table_items_view(items@);
            assert(c0.pending == Some(iv));
            if items.len() > 1 {
                let mut forks: VecDeque<Config> = VecDeque::new();
                let mut j: usize = 0;
                while j < items.len()
                    invariant
                        j <= items@.len(),
                        iv == table_items_view(items@),
                        c@ == (ConfigV { pending: None, ..c0 }),
                        forks@.len() == j,
                        forall|q: int| 0 <= q < j ==> #[trigger] configs_view(forks@)[q] == (ConfigV {
                            pending: Some(seq![iv[q]]),
                            ..c0
                        }),
                    decreases items@.len() - j,
                {
                    let one = vec![items[j].clone()];
                    let f = Config {
                        trees: copy_trees(&c.trees),
                        states: copy_u32s(&c.states),
                        index: c.index,
                        word: c.word.clone(),
                        value: copy_opt_string(&c.value),
                        cuts: copy_u32s(&c.cuts),
                        pending: Some(one),
                    };
                    assert(table_items_view(one@) =~= seq![iv[j as int]]);
                    assert(f@ == ConfigV { pending: Some(seq![iv[j as int]]), ..c0 });
                    let ghost fb = forks@;
                    forks.push_back(f);
                    assert forall|q: int| 0 <= q < j + 1 implies #[trigger] configs_view(forks@)[q] == (ConfigV {
                        pending: Some(seq![iv[q]]),
                        ..c0
                    }) by {
                        assert(forks@ == fb.push(f));
                        if q < j {
                            assert(forks@[q] == fb[q]);
                            assert(configs_view(fb)[q] == (ConfigV { pending: Some(seq![iv[q]]), ..c0 }));
                        } else {
                            assert(forks@[q] == f);
                        }
                    }
                    j += 1;
                }
                proof {
                    let expected = match step(actions@, gotos@, lexes_view(words@), c0) {
                        StepV::Split(cs) => cs,
                        _ => Seq::empty(),
                    };
                    assert(expected =~= configs_view(forks@));
                }
                Step::Split(c.trees, forks)
            } else if items.len() == 0 {
                lookup_exec(actions, c)
            } else {
                let t = &items[0];
                assert(iv[0] == t@);
                match t.action {
                    Action::Reduce => match &t.lr_item {
                        Some(r) => reduce_exec(actions, gotos, c, r),
                        None => lookup_exec(actions, c),
                    },
                    Action::Shift => shift_exec(actions, words, c, t.state),
                }
            }
        },
    }
}

proof fn lemma_run_all_prefix(
    actions: Seq<ActionRow>,
    gotos: Seq<GotoRow>,
    words: Seq<LexV>,
    cs: Seq<ConfigV>,
    f: nat,
    j: int,
)
    requires
        run_all(actions, gotos, words, cs, f) is Some,
        0 <= j <= cs.len(),
    ensures
        run_all(actions, gotos, words, cs.take(j), f) is Some,
    decreases cs.len() - j,
{
    if j == cs.len() {
        assert(cs.take(j) =~= cs);
    } else {
        lemma_run_all_prefix(actions, gotos, words, cs, f, j + 1);
        assert(cs.take(j + 1).drop_last() =~= cs.take(j));
    }
}

/// Runs one parse to its end, and its branches after it, in order.
fn run_parser(
    actions: &Vec<ActionRow>,
    gotos: &Vec<GotoRow>,
    words: &Vec<Lex>,
    c: Config,
    Ghost(fuel): Ghost<nat>,
) -> (res: Vec<VecDeque<Box<SyntaxTreeNode>>>)
    requires
        rows_ok(actions@, gotos@),
        run(actions@, gotos@, lexes_view(words@), c@, fuel) is Some,
    ensures
        Some(forest_view(res@)) == run(actions@, gotos@, lexes_view(words@), c@, fuel),
    decreases fuel,
{
    let ghost wv = lexes_view(words@);
    let ghost goal = run(actions@, gotos@, wv, c@, fuel);
    let mut cur = c;
    let ghost mut f: nat = fuel;
    loop
        invariant
            rows_ok(actions@, gotos@),
            wv == lexes_view(words@),
            f <= fuel,
            run(actions@, gotos@, wv, cur@, f) == goal,
            goal == run(actions@, gotos@, lexes_view(words@), c@, fuel),
            goal is Some,
        decreases f,
    {
        let ghost cv = cur@;
        let s = step_exec(actions, gotos, words, cur);
        match s {
            Step::Next(c2) => {
                cur = c2;
                proof {
                    f = (f - 1) as nat;
                }
            },
            Step::Done(t) => {
                let mut res: Vec<VecDeque<Box<SyntaxTreeNode>>> = Vec::new();
                res.push(t);
                assert(forest_view(res@) =~= seq![trees_view(t@)]);
                return res;
            },
            Step::Split(t, forks) => {
                let ghost fv = configs_view(forks@);
                let ghost f1: nat = (f - 1) as nat;
                let mut forks = forks;
                let mut res: Vec<VecDeque<Box<SyntaxTreeNode>>> = Vec::new();
                res.push(t);
                let ghost mut j: int = 0;
                assert(forest_view(res@) =~= seq![cv.trees]);
                assert(fv.take(0) =~= Seq::<ConfigV>::empty());
                while forks.len() > 0
                    invariant
                        rows_ok(actions@, gotos@),
                        wv == lexes_view(words@),
                        f1 < fuel,
                        run_all(actions@, gotos@, wv, fv, f1) is Some,
                        goal == Some(seq![cv.trees] + run_all(actions@, gotos@, wv, fv, f1)->0),
                        0 <= j <= fv.len(),
                        configs_view(forks@) == fv.skip(j),
                        forks@.len() == fv.len() - j,
                        goal == run(actions@, gotos@, lexes_view(words@), c@, fuel),
                        Some(forest_view(res@)) == match run_all(actions@, gotos@, wv, fv.take(j), f1) {
                            Some(r) => Some(seq![cv.trees] + r),
                            None => None,
                        },
                    decreases fv.len() - j,
                {
                    let ghost fb = forks@;
                    let child = forks.pop_front().unwrap();
                    proof {
                        assert(configs_view(forks@) =~= fv.skip(j + 1)) by {
                            assert forall|q: int| 0 <= q < forks@.len() implies configs_view(forks@)[q] == fv.skip(j + 1)[q] by {
                                assert(forks@[q] == fb[q + 1]);
                                assert(configs_view(fb)[q + 1] == fv.skip(j)[q + 1]);
                            }
                        }
                        assert(child@ == fv[j]) by {
                            assert(child == fb[0]);
                            assert(configs_view(fb)[0] == fv.skip(j)[0]);
                        }
                        lemma_run_all_prefix(actions@, gotos@, wv, fv, f1, j + 1);
                        assert(fv.take(j + 1).drop_last() =~= fv.take(j));
                        assert(fv.take(j + 1).last() == fv[j]);
                    }
                    let sub = run_parser(actions, gotos, words, child, Ghost(f1));
                    let mut sub = sub;
                    let ghost rb = res@;
                    let ghost sv = sub@;
                    res.append(&mut sub);
                    proof {
                        assert(forest_view(res@) =~= forest_view(rb) + forest_view(sv));
                        let prev = run_all(actions@, gotos@, wv, fv.take(j), f1)->0;
                        assert(seq![cv.trees] + prev + forest_view(sv) =~= seq![cv.trees] + (prev + forest_view(sv)));
                        j = j + 1;
                    }
                }
                assert(fv.take(j) =~= fv);
                return res;
            },
            Step::Panic => {
                assert(false);
                return Vec::new();
            },
        }
    }
}

/// Runs one parse, and its branches after it, in order, with at most `bound`
/// steps along any branch; `None` when that is not enough or a branch panics.
fn run_bounded(
    actions: &Vec<ActionRow>,
    gotos: &Vec<GotoRow>,
    words: &Vec<Lex>,
    c: Config,
    bound: u64,
) -> (res: Option<Vec<VecDeque<Box<SyntaxTreeNode>>>>)
    requires
        rows_ok(actions@, gotos@),
    ensures
        match res {
            Some(r) => run(actions@, gotos@, lexes_view(words@), c@, bound as nat) == Some(forest_view(r@)),
            None => run(actions@, gotos@, lexes_view(words@), c@, bound as nat) is None,
        },
    decreases bound,
{
    let ghost fuel = bound as nat;
    let ghost wv = lexes_view(words@);
    let ghost goal = run(actions@, gotos@, wv, c@, fuel);
    let mut cur = c;
    let mut f: u64 = bound;
    loop
        invariant
            rows_ok(actions@, gotos@),
            wv == lexes_view(words@),
            f <= bound,
            fuel == bound as nat,
            run(actions@, gotos@, wv, cur@, f as nat) == goal,
            goal == run(actions@, gotos@, lexes_view(words@), c@, fuel),
        decreases f,
    {
        if f == 0 {
            return None;
        }
        let ghost cv = cur@;
        let s = step_exec(actions, gotos, words, cur);
        match s {
            Step::Next(c2) => {
                cur = c2;
                f = f - 1;
            },
            Step::Done(t) => {
                let mut res: Vec<VecDeque<Box<SyntaxTreeNode>>> = Vec::new();
                res.push(t);
                assert(forest_view(res@) =~= seq![trees_view(t@)]);
                return Some(res);
            },
            Step::Split(t, forks) => {
                let ghost fv = configs_view(forks@);
                let f1: u64 = f - 1;
                let mut forks = forks;
                let mut res: Vec<VecDeque<Box<SyntaxTreeNode>>> = Vec::new();
                res.push(t);
                let ghost mut j: int = 0;
                assert(forest_view(res@) =~= seq![cv.trees]);
                assert(fv.take(0) =~= Seq::<ConfigV>::empty());
                while forks.len() > 0
                    invariant
                        rows_ok(actions@, gotos@),
                        wv == lexes_view(words@),
                        f1 < bound,
                        fuel == bound as nat,
                        goal == match run_all(actions@, gotos@, wv, fv, f1 as nat) {
                            Some(r) => Some(seq![cv.trees] + r),
                            None => None,
                        },
                        run_all(actions@, gotos@, wv, fv.take(j), f1 as nat) is Some,
                        0 <= j <= fv.len(),
                        configs_view(forks@) == fv.skip(j),
                        forks@.len() == fv.len() - j,
                        goal == run(actions@, gotos@, lexes_view(words@), c@, fuel),
                        Some(forest_view(res@)) == Some(seq![cv.trees] + run_all(actions@, gotos@, wv, fv.take(j), f1 as nat)->0),
                    decreases fv.len() - j,
                {
                    let ghost fb = forks@;
                    let child = forks.pop_front().unwrap();
                    proof {
                        assert(configs_view(forks@) =~= fv.skip(j + 1)) by {
                            assert forall|q: int| 0 <= q < forks@.len() implies configs_view(forks@)[q] == fv.skip(j + 1)[q] by {
                                assert(forks@[q] == fb[q + 1]);
                                assert(configs_view(fb)[q + 1] == fv.skip(j)[q + 1]);
                            }
                        }
                        assert(child@ == fv[j]) by {
                            assert(child == fb[0]);
                            assert(configs_view(fb)[0] == fv.skip(j)[0]);
                        }
                        assert(fv.take(j + 1).drop_last() =~= fv.take(j));
                        assert(fv.take(j + 1).last() == fv[j]);
                    }
                    let mut sub = match run_bounded(actions, gotos, words, child, f1) {
                        Some(r) => r,
                        None => {
                            proof {
                                if run_all(actions@, gotos@, wv, fv, f1 as nat) is Some {
                                    lemma_run_all_prefix(actions@, gotos@, wv, fv, f1 as nat, j + 1);
                                }
                            }
                            return None;
                        },
                    };
                    let ghost rb = res@;
                    let ghost sv = sub@;
                    res.append(&mut sub);
                    proof {
                        assert(forest_view(res@) =~= forest_view(rb) + forest_view(sv));
                        let prev = run_all(actions@, gotos@, wv, fv.take(j), f1 as nat)->0;
                        assert(seq![cv.trees] + prev + forest_view(sv) =~= seq![cv.trees] + (prev + forest_view(sv)));
                        j = j + 1;
                    }
                }
                assert(fv.take(j) =~= fv);
                return Some(res);
            },
            Step::Panic => {
                return None;
            },
        }
    }
}

/// The state a parse of `words` starts from.
fn start_config(words: &Vec<Lex>) -> (c: Config)
    ensures
        c@ == initial_config(lexes_view(words@)),
{
    let ghost wv = lexes_view(words@);
    let (word, value) = if words.len() > 0 {
        (get_atom_string(&words[0].atom), copy_opt_string(&words[0].value))
    } else {
        (String::new(), None)
    };
    let mut states: Vec<u32> = Vec::new();
    states.push(0);
    let c = Config { trees: VecDeque::new(), states, index: 1, word, value, cuts: Vec::new(), pending: None };
    proof {
        assert(c@.trees =~= Seq::<TreeV>::empty());
        assert(c@.states =~= seq![0u32]);
        assert(c@.cuts =~= Seq::<u32>::empty());
        if words@.len() > 0 {
            assert(wv[0] == words@[0]@);
        }
        assert(c@ == initial_config(wv));
    }
    c
}

/// Parses the tokens `words` with the tables `action` and `goto`.
///
/// Where several entries apply the parse splits; the result holds, for each
/// parse, the tree stack it ended with (or split from), the splitting parse
/// before its branches and the branches in the order of their entries.
pub fn parse(words: Vec<Lex>, action: Vec<ActionRow>, goto: Vec<GotoRow>) -> (res: Vec<
    VecDeque<Box<SyntaxTreeNode>>,
>)
    requires
        forall|i: int| 0 <= i < action@.len() ==> (#[trigger] action@[i]).wf(),
        forall|i: int| 0 <= i < goto@.len() ==> (#[trigger] goto@[i]).wf(),
        parse_halts(action@, goto@, lexes_view(words@)),
    ensures
        parses_to(action@, goto@, lexes_view(words@), forest_view(res@)),
{
    let ghost wv = lexes_view(words@);
    let ghost fuel = choose|f: nat| #[trigger] run(action@, goto@, wv, initial_config(wv), f) is Some;
    let c = start_config(&words);
    let res = run_parser(&action, &goto, &words, c, Ghost(fuel));
    proof {
        assert(run(action@, goto@, wv, initial_config(wv), fuel) == Some(forest_view(res@)));
    }
    res
}

/// Parses the tokens `words` as `parse` does, with at most `bound` steps
/// along any branch: `None` when a branch panics or needs more steps.
pub fn parse_bounded(words: Vec<Lex>, action: Vec<ActionRow>, goto: Vec<GotoRow>, bound: u64) -> (res: Option<
    Vec<VecDeque<Box<SyntaxTreeNode>>>,
>)
    requires
        forall|i: int| 0 <= i < action@.len() ==> (#[trigger] action@[i]).wf(),
        forall|i: int| 0 <= i < goto@.len() ==> (#[trigger] goto@[i]).wf(),
    ensures
        res is Some <==> run(action@, goto@, lexes_view(words@), initial_config(lexes_view(words@)), bound as nat) is Some,
        res matches Some(r) ==> parses_to(action@, goto@, lexes_view(words@), forest_view(r@)),
{
    let ghost wv = lexes_view(words@);
    let c = start_config(&words);
    let res = run_bounded(&action, &goto, &words, c, bound);
    proof {
        if res is Some {
            assert(run(action@, goto@, wv, initial_config(wv), bound as nat) == Some(forest_view(res->0@)));
        }
    }
    res
}

} // verus!
