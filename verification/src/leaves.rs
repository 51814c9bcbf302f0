use vstd::prelude::*;

use crate::grammar::atom_name;
use crate::lex::LexV;
use crate::table::{ActionRow, GotoRow, TableItemV, Action};
use crate::parser::{
    TreeV, ConfigV, StepV, step, lookup, reduce, shift, run, run_all, parses_to, initial_config, cut_of,
    pop_n,
};

verus! {

/// The tokens under a tree, left to right: the name and text of each node
/// without children.
pub open spec fn tree_leaves(t: TreeV) -> Seq<(Seq<char>, Option<Seq<char>>)>
    decreases t,
{
    match t.children {
        None => seq![(t.symbol, t.value)],
        Some(cs) => stack_leaves(cs),
    }
}

/// The tokens under the trees of a stack, left to right.
pub open spec fn stack_leaves(s: Seq<TreeV>) -> Seq<(Seq<char>, Option<Seq<char>>)>
    decreases s,
{
    if s.len() == 0 {
        Seq::empty()
    } else {
        stack_leaves(s.subrange(0, s.len() - 1)) + tree_leaves(s[s.len() - 1])
    }
}

/// The name and text of each token.
pub open spec fn word_leaves(words: Seq<LexV>) -> Seq<(Seq<char>, Option<Seq<char>>)> {
    words.map_values(|w: LexV| (atom_name(w.atom), w.value))
}

/// The tokens under the trees of `t` are the first tokens of `words`, in order.
pub open spec fn leaves_prefix(words: Seq<LexV>, t: Seq<TreeV>) -> bool {
    exists|m: int| 0 <= m <= words.len() && stack_leaves(t) == #[trigger] word_leaves(words.take(m))
}

/// A parse state whose trees hold the tokens before the current one.
pub open spec fn config_leaves(words: Seq<LexV>, c: ConfigV) -> bool {
    &&& 1 <= c.index <= words.len()
    &&& c.word == atom_name(words[c.index - 1].atom)
    &&& c.value == words[c.index - 1].value
    &&& stack_leaves(c.trees) == word_leaves(words.take(c.index - 1))
}

/// What one step from such a state leads to keeps the tokens in order.
pub open spec fn step_leaves(words: Seq<LexV>, s: StepV) -> bool {
    match s {
        StepV::Next(c) => config_leaves(words, c),
        StepV::Done(t) => leaves_prefix(words, t),
        StepV::Split(cs) => forall|i: int| 0 <= i < cs.len() ==> config_leaves(words, #[trigger] cs[i]),
        StepV::Panic => true,
    }
}

proof fn lemma_stack_leaves_concat(a: Seq<TreeV>, b: Seq<TreeV>)
    ensures
        stack_leaves(a + b) == stack_leaves(a) + stack_leaves(b),
    decreases b.len(),
{
    if b.len() == 0 {
        assert(a + b =~= a);
        assert(stack_leaves(b) =~= Seq::empty());
        assert(stack_leaves(a) + stack_leaves(b) =~= stack_leaves(a));
    } else {
        let b0 = b.subrange(0, b.len() - 1);
        lemma_stack_leaves_concat(a, b0);
        let s = a + b;
        assert(s.subrange(0, s.len() - 1) =~= a + b0);
        assert(s[s.len() - 1] == b[b.len() - 1]);
        assert(stack_leaves(s) == stack_leaves(a + b0) + tree_leaves(b[b.len() - 1]));
        assert(stack_leaves(a) + stack_leaves(b) =~= stack_leaves(a) + stack_leaves(b0) + tree_leaves(
            b[b.len() - 1],
        ));
    }
}

/// Grouping the top trees of a stack under a new node keeps its tokens.
proof fn lemma_group_leaves(s: Seq<TreeV>, k: int, name: Seq<char>)
    requires
        0 <= k <= s.len(),
    ensures
        stack_leaves(s.take(k).push(TreeV { value: None, symbol: name, children: Some(s.skip(k)) }))
            == stack_leaves(s),
{
    let node = TreeV { value: None, symbol: name, children: Some(s.skip(k)) };
    let t = s.take(k).push(node);
    assert(t.subrange(0, t.len() - 1) =~= s.take(k));
    assert(t[t.len() - 1] == node);
    assert(tree_leaves(node) == stack_leaves(s.skip(k)));
    lemma_stack_leaves_concat(s.take(k), s.skip(k));
    assert(s.take(k) + s.skip(k) =~= s);
}

proof fn lemma_cut_nonneg(prod: Seq<crate::grammar::AtomV>, cuts: Seq<u32>)
    ensures
        cut_of(prod, cuts).0 >= 0,
    decreases prod.len(),
{
    if prod.len() > 0 {
        lemma_cut_nonneg(prod.drop_last(), cuts);
    }
}

proof fn lemma_lookup_leaves(actions: Seq<ActionRow>, words: Seq<LexV>, c: ConfigV)
    requires
        config_leaves(words, c),
    ensures
        step_leaves(words, lookup(actions, c)),
{
    match lookup(actions, c) {
        StepV::Next(c2) => {
            assert(c2.trees == c.trees && c2.index == c.index && c2.word == c.word && c2.value == c.value);
        },
        StepV::Done(t) => {
            assert(t == c.trees);
            assert(leaves_prefix(words, t)) by {
                assert(stack_leaves(t) == word_leaves(words.take(c.index - 1)));
            }
        },
        _ => {},
    }
}

proof fn lemma_word_leaves_take(words: Seq<LexV>, i: int)
    requires
        0 <= i < words.len(),
    ensures
        word_leaves(words.take(i + 1)) == word_leaves(words.take(i)).push(
            (atom_name(words[i].atom), words[i].value),
        ),
{
    assert(words.take(i + 1) =~= words.take(i).push(words[i]));
    assert(word_leaves(words.take(i + 1)) =~= word_leaves(words.take(i)).push(
        (atom_name(words[i].atom), words[i].value),
    ));
}

proof fn lemma_step_leaves(actions: Seq<ActionRow>, gotos: Seq<GotoRow>, words: Seq<LexV>, c: ConfigV)
    requires
        config_leaves(words, c),
    ensures
        step_leaves(words, step(actions, gotos, words, c)),
{
    match c.pending {
        None => {
            lemma_lookup_leaves(actions, words, c);
        },
        Some(items) => {
            if items.len() > 1 {
                let cs = items.map_values(|t: TableItemV| ConfigV { pending: Some(seq![t]), ..c });
                assert forall|i: int| 0 <= i < cs.len() implies config_leaves(words, #[trigger] cs[i]) by {
                    assert(cs[i].trees == c.trees && cs[i].index == c.index);
                }
            } else if items.len() == 0 {
                lemma_lookup_leaves(actions, words, c);
            } else {
                let t = items[0];
                match t.action {
                    Action::Reduce => match t.lr_item {
                        Some(r) => {
                            lemma_cut_nonneg(r.production, c.cuts);
                            let (n, cuts) = cut_of(r.production, c.cuts);
                            let states = pop_n(c.states, r.production.len() as int);
                            let name = atom_name(r.symbol);
                            if !(n > u32::MAX || states.len() == 0) {
                                let trees = if name.contains('~') {
                                    c.trees
                                } else {
                                    let m = if n <= c.trees.len() { n } else { c.trees.len() as int };
                                    let k = c.trees.len() - m;
                                    lemma_group_leaves(c.trees, k, name);
                                    c.trees.take(k).push(
                                        TreeV { value: None, symbol: name, children: Some(c.trees.skip(k)) },
                                    )
                                };
                                assert(stack_leaves(trees) == stack_leaves(c.trees));
                                let cuts2 = if name.contains('~') { cuts.push(n as u32) } else { cuts };
                                let st = states.last();
                                let c2 = ConfigV {
                                    trees,
                                    states: states.push(crate::parser::goto_target(gotos, st, name)),
                                    cuts: cuts2,
                                    ..c
                                };
                                lemma_lookup_leaves(actions, words, c2);
                                assert(reduce(actions, gotos, c, r) == lookup(actions, c2));
                            }
                        },
                        None => {
                            lemma_lookup_leaves(actions, words, c);
                        },
                    },
                    Action::Shift => {
                        let trees = c.trees.push(TreeV { value: c.value, symbol: c.word, children: None });
                        let leaf = TreeV { value: c.value, symbol: c.word, children: None };
                        assert(trees.subrange(0, trees.len() - 1) =~= c.trees);
                        assert(trees[trees.len() - 1] == leaf);
                        assert(tree_leaves(leaf) == seq![(c.word, c.value)]);
                        assert(stack_leaves(trees) == stack_leaves(c.trees) + tree_leaves(leaf));
                        lemma_word_leaves_take(words, c.index - 1);
                        assert(stack_leaves(trees) =~= word_leaves(words.take(c.index)));
                        if 0 <= c.index < words.len() {
                            let w = words[c.index];
                            let c2 = ConfigV {
                                trees,
                                states: c.states.push(t.state),
                                index: c.index + 1,
                                word: atom_name(w.atom),
                                value: w.value,
                                ..c
                            };
                            lemma_lookup_leaves(actions, words, c2);
                            assert(shift(actions, words, c, t.state) == lookup(actions, c2));
                        } else {
                            assert(leaves_prefix(words, trees)) by {
                                assert(stack_leaves(trees) == word_leaves(words.take(c.index)));
                            }
                        }
                    },
                }
            }
        },
    }
}

proof fn lemma_run_leaves(
    actions: Seq<ActionRow>,
    gotos: Seq<GotoRow>,
    words: Seq<LexV>,
    c: ConfigV,
    fuel: nat,
)
    requires
        config_leaves(words, c),
        run(actions, gotos, words, c, fuel) is Some,
    ensures
        forall|i: int|
            0 <= i < run(actions, gotos, words, c, fuel)->0.len() ==> leaves_prefix(
                words,
                #[trigger] run(actions, gotos, words, c, fuel)->0[i],
            ),
    decreases fuel, 0nat,
{
    lemma_step_leaves(actions, gotos, words, c);
    let r = run(actions, gotos, words, c, fuel)->0;
    match step(actions, gotos, words, c) {
        StepV::Next(c2) => {
            lemma_run_leaves(actions, gotos, words, c2, (fuel - 1) as nat);
        },
        StepV::Split(cs) => {
            lemma_run_all_leaves(actions, gotos, words, cs, (fuel - 1) as nat);
            let rest = run_all(actions, gotos, words, cs, (fuel - 1) as nat)->0;
            assert(r == seq![c.trees] + rest);
            assert forall|i: int| 0 <= i < r.len() implies leaves_prefix(words, #[trigger] r[i]) by {
                if i == 0 {
                    assert(r[0] == c.trees);
                    assert(stack_leaves(c.trees) == word_leaves(words.take(c.index - 1)));
                } else {
                    assert(r[i] == rest[i - 1]);
                }
            }
        },
        _ => {},
    }
}

proof fn lemma_run_all_leaves(
    actions: Seq<ActionRow>,
    gotos: Seq<GotoRow>,
    words: Seq<LexV>,
    cs: Seq<ConfigV>,
    fuel: nat,
)
    requires
        forall|i: int| 0 <= i < cs.len() ==> config_leaves(words, #[trigger] cs[i]),
        run_all(actions, gotos, words, cs, fuel) is Some,
    ensures
        forall|i: int|
            0 <= i < run_all(actions, gotos, words, cs, fuel)->0.len() ==> leaves_prefix(
                words,
                #[trigger] run_all(actions, gotos, words, cs, fuel)->0[i],
            ),
    decreases fuel, cs.len(),
{
    if cs.len() > 0 {
        let init = cs.drop_last();
        assert forall|i: int| 0 <= i < init.len() implies config_leaves(words, #[trigger] init[i]) by {
            assert(init[i] == cs[i]);
        }
        lemma_run_all_leaves(actions, gotos, words, init, fuel);
        assert(config_leaves(words, cs[cs.len() - 1]));
        lemma_run_leaves(actions, gotos, words, cs.last(), fuel);
        let a = run_all(actions, gotos, words, init, fuel)->0;
        let b = run(actions, gotos, words, cs.last(), fuel)->0;
        let r = run_all(actions, gotos, words, cs, fuel)->0;
        assert(r == a + b);
        assert forall|i: int| 0 <= i < r.len() implies leaves_prefix(words, #[trigger] r[i]) by {
            if i < a.len() {
                assert(r[i] == a[i]);
            } else {
                assert(r[i] == b[i - a.len()]);
            }
        }
    }
}

/// Parsing a nonempty sequence of tokens gives tree stacks whose tokens, read
/// left to right, are the first tokens of the input in their order: reductions
/// only group neighbouring trees, and `~` symbols add no node of their own.
pub proof fn lemma_parse_leaves(
    actions: Seq<ActionRow>,
    gotos: Seq<GotoRow>,
    words: Seq<LexV>,
    r: Seq<Seq<TreeV>>,
)
    requires
        words.len() > 0,
        parses_to(actions, gotos, words, r),
    ensures
        forall|i: int| 0 <= i < r.len() ==> leaves_prefix(words, #[trigger] r[i]),
{
    let fuel = choose|fuel: nat| run(actions, gotos, words, initial_config(words), fuel) == Some(r);
    let c = initial_config(words);
    assert(words.take(0) =~= Seq::<LexV>::empty());
    assert(word_leaves(words.take(0)) =~= Seq::empty());
    assert(stack_leaves(c.trees) =~= Seq::empty());
    assert(config_leaves(words, c));
    lemma_run_leaves(actions, gotos, words, c, fuel);
    assert(run(actions, gotos, words, c, fuel)->0 == r);
}

// ---------------------------------------------------------------------------
// Symbols whose name holds `~` make no node
// ---------------------------------------------------------------------------

/// No node of `t` that has children carries a symbol whose name holds `~`.
pub open spec fn tree_folded(t: TreeV) -> bool
    decreases t,
{
    match t.children {
        None => true,
        Some(cs) => !t.symbol.contains('~') && stack_folded(cs),
    }
}

/// No tree of `s` has a node with children whose symbol's name holds `~`.
pub open spec fn stack_folded(s: Seq<TreeV>) -> bool
    decreases s,
{
    if s.len() == 0 {
        true
    } else {
        stack_folded(s.subrange(0, s.len() - 1)) && tree_folded(s[s.len() - 1])
    }
}

proof fn lemma_stack_folded_all(s: Seq<TreeV>)
    ensures
        stack_folded(s) <==> forall|i: int| 0 <= i < s.len() ==> #[trigger] tree_folded(s[i]),
    decreases s.len(),
{
    if s.len() > 0 {
        let p = s.subrange(0, s.len() - 1);
        lemma_stack_folded_all(p);
        assert(stack_folded(s) == (stack_folded(p) && tree_folded(s[s.len() - 1])));
        assert forall|i: int| 0 <= i < p.len() implies p[i] == s[i] by {}
        if forall|i: int| 0 <= i < s.len() ==> #[trigger] tree_folded(s[i]) {
            assert forall|i: int| 0 <= i < p.len() implies #[trigger] tree_folded(p[i]) by {
                assert(p[i] == s[i]);
            }
        }
        if stack_folded(s) {
            assert forall|i: int| 0 <= i < s.len() implies #[trigger] tree_folded(s[i]) by {
                if i < p.len() {
                    assert(p[i] == s[i]);
                }
            }
        }
    }
}

/// A parse state whose trees have no node for a symbol holding `~`.
pub open spec fn step_folded(s: StepV) -> bool {
    match s {
        StepV::Next(c) => stack_folded(c.trees),
        StepV::Done(t) => stack_folded(t),
        StepV::Split(cs) => forall|i: int| 0 <= i < cs.len() ==> stack_folded(#[trigger] cs[i].trees),
        StepV::Panic => true,
    }
}

proof fn lemma_lookup_folded(actions: Seq<ActionRow>, c: ConfigV)
    requires
        stack_folded(c.trees),
    ensures
        step_folded(lookup(actions, c)),
{
}

proof fn lemma_step_folded(actions: Seq<ActionRow>, gotos: Seq<GotoRow>, words: Seq<LexV>, c: ConfigV)
    requires
        stack_folded(c.trees),
    ensures
        step_folded(step(actions, gotos, words, c)),
{
    lemma_stack_folded_all(c.trees);
    match c.pending {
        None => {
            lemma_lookup_folded(actions, c);
        },
        Some(items) => {
            if items.len() > 1 {
                let cs = items.map_values(|t: TableItemV| ConfigV { pending: Some(seq![t]), ..c });
                assert forall|i: int| 0 <= i < cs.len() implies stack_folded(#[trigger] cs[i].trees) by {
                    assert(cs[i].trees == c.trees);
                }
            } else if items.len() == 0 {
                lemma_lookup_folded(actions, c);
            } else {
                let t = items[0];
                match t.action {
                    Action::Reduce => match t.lr_item {
                        Some(r) => {
                            let (n, cuts) = cut_of(r.production, c.cuts);
                            let states = pop_n(c.states, r.production.len() as int);
                            let name = atom_name(r.symbol);
                            if !(n > u32::MAX || states.len() == 0) {
                                let folds = name.contains('~');
                                let trees = if folds {
                                    c.trees
                                } else {
                                    let m = if n <= c.trees.len() { n } else { c.trees.len() as int };
                                    let k = c.trees.len() - m;
                                    let kids = c.trees.skip(k);
                                    let node = TreeV { value: None, symbol: name, children: Some(kids) };
                                    assert(0 <= k <= c.trees.len()) by {
                                        lemma_cut_nonneg(r.production, c.cuts);
                                    }
                                    lemma_stack_folded_all(kids);
                                    assert forall|i: int| 0 <= i < kids.len() implies #[trigger] tree_folded(kids[i]) by {
                                        assert(kids[i] == c.trees[k + i]);
                                    }
                                    assert(tree_folded(node));
                                    let t2 = c.trees.take(k).push(node);
                                    lemma_stack_folded_all(t2);
                                    assert forall|i: int| 0 <= i < t2.len() implies #[trigger] tree_folded(t2[i]) by {
                                        if i < k {
                                            assert(t2[i] == c.trees[i]);
                                        } else {
                                            assert(t2[i] == node);
                                        }
                                    }
                                    t2
                                };
                                assert(stack_folded(trees));
                                let cuts2 = if folds { cuts.push(n as u32) } else { cuts };
                                let st = states.last();
                                let c2 = ConfigV {
                                    trees,
                                    states: states.push(crate::parser::goto_target(gotos, st, name)),
                                    cuts: cuts2,
                                    ..c
                                };
                                lemma_lookup_folded(actions, c2);
                                assert(reduce(actions, gotos, c, r) == lookup(actions, c2));
                            }
                        },
                        None => {
                            lemma_lookup_folded(actions, c);
                        },
                    },
                    Action::Shift => {
                        let leaf = TreeV { value: c.value, symbol: c.word, children: None };
                        let trees = c.trees.push(leaf);
                        lemma_stack_folded_all(trees);
                        assert forall|i: int| 0 <= i < trees.len() implies #[trigger] tree_folded(trees[i]) by {
                            if i < c.trees.len() {
                                assert(trees[i] == c.trees[i]);
                            } else {
                                assert(trees[i] == leaf);
                            }
                        }
                        if 0 <= c.index < words.len() {
                            let w = words[c.index];
                            let c2 = ConfigV {
                                trees,
                                states: c.states.push(t.state),
                                index: c.index + 1,
                                word: atom_name(w.atom),
                                value: w.value,
                                ..c
                            };
                            lemma_lookup_folded(actions, c2);
                            assert(shift(actions, words, c, t.state) == lookup(actions, c2));
                        }
                    },
                }
            }
        },
    }
}

proof fn lemma_run_folded(
    actions: Seq<ActionRow>,
    gotos: Seq<GotoRow>,
    words: Seq<LexV>,
    c: ConfigV,
    fuel: nat,
)
    requires
        stack_folded(c.trees),
        run(actions, gotos, words, c, fuel) is Some,
    ensures
        forall|i: int|
            0 <= i < run(actions, gotos, words, c, fuel)->0.len() ==> stack_folded(
                #[trigger] run(actions, gotos, words, c, fuel)->0[i],
            ),
    decreases fuel, 0nat,
{
    lemma_step_folded(actions, gotos, words, c);
    let r = run(actions, gotos, words, c, fuel)->0;
    match step(actions, gotos, words, c) {
        StepV::Next(c2) => {
            lemma_run_folded(actions, gotos, words, c2, (fuel - 1) as nat);
        },
        StepV::Split(cs) => {
            lemma_run_all_folded(actions, gotos, words, cs, (fuel - 1) as nat);
            let rest = run_all(actions, gotos, words, cs, (fuel - 1) as nat)->0;
            assert(r == seq![c.trees] + rest);
            assert forall|i: int| 0 <= i < r.len() implies stack_folded(#[trigger] r[i]) by {
                if i == 0 {
                    assert(r[0] == c.trees);
                } else {
                    assert(r[i] == rest[i - 1]);
                }
            }
        },
        _ => {},
    }
}

proof fn lemma_run_all_folded(
    actions: Seq<ActionRow>,
    gotos: Seq<GotoRow>,
    words: Seq<LexV>,
    cs: Seq<ConfigV>,
    fuel: nat,
)
    requires
        forall|i: int| 0 <= i < cs.len() ==> stack_folded(#[trigger] cs[i].trees),
        run_all(actions, gotos, words, cs, fuel) is Some,
    ensures
        forall|i: int|
            0 <= i < run_all(actions, gotos, words, cs, fuel)->0.len() ==> stack_folded(
                #[trigger] run_all(actions, gotos, words, cs, fuel)->0[i],
            ),
    decreases fuel, cs.len(),
{
    if cs.len() > 0 {
        let init = cs.drop_last();
        assert forall|i: int| 0 <= i < init.len() implies stack_folded(#[trigger] init[i].trees) by {
            assert(init[i] == cs[i]);
        }
        lemma_run_all_folded(actions, gotos, words, init, fuel);
        assert(stack_folded(cs[cs.len() - 1].trees));
        lemma_run_folded(actions, gotos, words, cs.last(), fuel);
        let a = run_all(actions, gotos, words, init, fuel)->0;
        let b = run(actions, gotos, words, cs.last(), fuel)->0;
        let r = run_all(actions, gotos, words, cs, fuel)->0;
        assert(r == a + b);
        assert forall|i: int| 0 <= i < r.len() implies stack_folded(#[trigger] r[i]) by {
            if i < a.len() {
                assert(r[i] == a[i]);
            } else {
                assert(r[i] == b[i - a.len()]);
            }
        }
    }
}

/// A parse makes no node for a symbol whose name holds `~`, wherever the `~`
/// stands (the repetition symbols `~1A` and the group symbols `A1~` alike):
/// in every tree stack it gives, every node with children carries a symbol
/// whose name holds no `~`; the trees of such a symbol go to its parent.
pub proof fn lemma_parse_folds_tilde(
    actions: Seq<ActionRow>,
    gotos: Seq<GotoRow>,
    words: Seq<LexV>,
    r: Seq<Seq<TreeV>>,
)
    requires
        parses_to(actions, gotos, words, r),
    ensures
        forall|i: int, j: int| 0 <= i < r.len() && 0 <= j < r[i].len() ==> tree_folded(#[trigger] r[i][j]),
        forall|i: int, j: int|
            0 <= i < r.len() && 0 <= j < r[i].len() && (#[trigger] r[i][j]).children is Some ==> !r[i][j].symbol.contains(
                '~',
            ),
{
    let fuel = choose|fuel: nat| run(actions, gotos, words, initial_config(words), fuel) == Some(r);
    let c = initial_config(words);
    assert(stack_folded(c.trees));
    lemma_run_folded(actions, gotos, words, c, fuel);
    assert(run(actions, gotos, words, c, fuel)->0 == r);
    assert forall|i: int, j: int| 0 <= i < r.len() && 0 <= j < r[i].len() implies tree_folded(#[trigger] r[i][j]) by {
        assert(stack_folded(r[i]));
        lemma_stack_folded_all(r[i]);
    }
}

} // verus!
