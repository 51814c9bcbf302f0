use vstd::prelude::*;

use crate::grammar::{Atom, AtomV, GrammarItem, GrammarItemV, atom_name, atoms_view, items_view, get_atom_string, copy_atoms};
use crate::strings::string_push;
use crate::table::{string_in, contains_string};

verus! {

broadcast use vstd::seq_lib::group_seq_properties;

// ---------------------------------------------------------------------------
// Characters and numbers
// ---------------------------------------------------------------------------

/// The characters of a string.
pub(crate) fn chars_of(s: &str) -> (res: Vec<char>)
    ensures
        res@ == s@,
{
    broadcast use vstd::string::axiom_spec_iter;
    let mut v: Vec<char> = Vec::new();
    for c in it: s.chars()
        invariant
            v@ == it.seq().take(it.index() as int),
    {
        v.push(c);
    }
    v
}

/// A string with the given characters.
pub(crate) fn string_of(v: &Vec<char>) -> (res: String)
    ensures
        res@ == v@,
{
    let mut s = String::new();
    let mut i: usize = 0;
    while i < v.len()
        invariant
            i <= v@.len(),
            s@ == v@.take(i as int),
        decreases v@.len() - i,
    {
        string_push(&mut s, v[i]);
        assert(s@ =~= v@.take(i + 1));
        i += 1;
    }
    assert(v@.take(v@.len() as int) =~= v@);
    s
}

/// The decimal digit for `d`.
pub open spec fn digit_char(d: nat) -> char {
    (d + 48) as char
}

/// The decimal notation of `n`, without leading zeros.
pub open spec fn decimal(n: nat) -> Seq<char>
    decreases n,
{
    if n < 10 {
        seq![digit_char(n)]
    } else {
        decimal(n / 10).push(digit_char(n % 10))
    }
}

/// The decimal notation of `n`.
pub(crate) fn decimal_exec(n: usize) -> (res: Vec<char>)
    ensures
        res@ == decimal(n as nat),
    decreases n,
{
    let d: u8 = (n % 10) as u8;
    let c: char = (d + 48) as char;
    assert(c == digit_char((n % 10) as nat));
    if n < 10 {
        let mut v: Vec<char> = Vec::new();
        v.push(c);
        assert(v@ =~= seq![digit_char(n as nat)]);
        v
    } else {
        let mut v = decimal_exec(n / 10);
        v.push(c);
        v
    }
}


// ---------------------------------------------------------------------------
// Reading grammar rules, character by character
// ---------------------------------------------------------------------------

/// Where the reader stands: before a rule's name, among the atoms of a
/// production, inside a quoted terminal, or inside parentheses.
#[derive(Clone, Copy, PartialEq, Eq, Structural)]
pub enum GenMode {
    InGroup,
    InString,
    Collect,
    Expect,
}

/// The reader's state: the rules read so far (the last one open), the word
/// being read, the mode, and the depth of parentheses.
pub struct GenState {
    pub ret: Seq<GrammarItemV>,
    pub word: Seq<char>,
    pub mode: GenMode,
    pub pl: u8,
}

/// The state the reader starts in.
pub open spec fn gen_start() -> GenState {
    GenState { ret: Seq::empty(), word: Seq::empty(), mode: GenMode::Expect, pl: 0 }
}

/// A whitespace character that ends a word.
pub open spec fn is_blank(c: char) -> bool {
    c == ' ' || c == '\r' || c == '\n' || c == '\t'
}

/// The atom a word stands for: a terminal if it is one of the token names, a
/// symbol otherwise.
pub open spec fn word_atom(word: Seq<char>, tokens: Seq<String>) -> AtomV {
    if string_in(tokens, word) {
        AtomV::Terminal(word)
    } else {
        AtomV::Symbol(word)
    }
}

/// The rules with `a` appended to the production of the last one, if any.
pub open spec fn append_to_last(ret: Seq<GrammarItemV>, a: AtomV) -> Seq<GrammarItemV> {
    if ret.len() > 0 {
        let x = ret.last();
        ret.drop_last().push(GrammarItemV { symbol: x.symbol, production: x.production.push(a) })
    } else {
        ret
    }
}

/// Ends the word being read: a nonempty word is appended to the last rule.
pub open spec fn flush_word(st: GenState, tokens: Seq<String>) -> GenState {
    if st.word.len() > 0 {
        GenState { ret: append_to_last(st.ret, word_atom(st.word, tokens)), word: Seq::empty(), ..st }
    } else {
        st
    }
}

/// The name given to the rules of a parenthesised group in the rule `x`.
pub open spec fn group_name(x: GrammarItemV) -> Seq<char> {
    atom_name(x.symbol) + decimal(x.production.len()) + seq!['~']
}

/// The name given to the rules of a repetition in the rule `x`.
pub open spec fn repeat_name(x: GrammarItemV) -> Seq<char> {
    seq!['~'] + decimal(x.production.len()) + atom_name(x.symbol)
}

/// The rules after a repetition mark `c` (`?`, `*` or `+`) closes the last rule
/// `x`: the repeated atom (the word, else the last atom of `x`) gets a symbol
/// of its own, with a rule for one occurrence, one for none (`?`, `*`) and one
/// for more (`+`, `*`); `x` takes that symbol in place of the atom.
pub open spec fn repeat_items(ret: Seq<GrammarItemV>, word: Seq<char>, tokens: Seq<String>, c: char) -> Seq<
    GrammarItemV,
> {
    let x = ret.last();
    let sym = AtomV::Symbol(repeat_name(x));
    let a = if word.len() > 0 {
        word_atom(word, tokens)
    } else if x.production.len() > 0 {
        x.production.last()
    } else {
        AtomV::Terminal(Seq::empty())
    };
    let prod = if word.len() == 0 && x.production.len() > 0 {
        x.production.drop_last()
    } else {
        x.production
    };
    let one = seq![GrammarItemV { symbol: sym, production: seq![a] }];
    let none = if c == '?' || c == '*' {
        seq![GrammarItemV { symbol: sym, production: Seq::empty() }]
    } else {
        Seq::empty()
    };
    let more = if c == '+' || c == '*' {
        seq![GrammarItemV { symbol: sym, production: seq![sym, a] }]
    } else {
        Seq::empty()
    };
    ret.drop_last() + one + none + more + seq![GrammarItemV { symbol: x.symbol, production: prod.push(sym) }]
}

/// The text read for a parenthesised group of the rule `x` whose contents are `word`.
pub open spec fn group_text(x: GrammarItemV, word: Seq<char>) -> Seq<char> {
    group_name(x) + seq![' ', '=', ' '] + word + seq!['\n']
}

/// The state after reading the character `c`; `None` where the reader would
/// panic (parentheses nested too deep or closed too often) or needs more
/// than `fuel` levels of groups.
pub open spec fn gen_step(st: GenState, c: char, tokens: Seq<String>, fuel: nat) -> Option<GenState>
    decreases fuel, 0nat,
{
    if st.mode == GenMode::InGroup && c == '(' {
        if st.pl == 255 {
            None
        } else {
            Some(GenState { word: st.word.push('('), pl: (st.pl + 1) as u8, ..st })
        }
    } else if st.mode == GenMode::InGroup && c == ')' {
        if st.pl == 0 {
            None
        } else {
            let pl = (st.pl - 1) as u8;
            if pl != 0 {
                Some(GenState { word: st.word.push(')'), pl, ..st })
            } else if st.ret.len() == 0 {
                Some(GenState { pl, ..st })
            } else if fuel == 0 {
                None
            } else {
                let x = st.ret.last();
                match gen_chars(group_text(x, st.word), tokens, gen_start(), (fuel - 1) as nat) {
                    Some(inner) => Some(
                        GenState {
                            ret: st.ret.drop_last() + inner.ret + seq![x],
                            word: group_name(x),
                            mode: GenMode::Collect,
                            pl,
                        },
                    ),
                    None => None,
                }
            }
        }
    } else if st.mode == GenMode::InString && c == '\'' {
        if st.word.len() > 0 {
            Some(
                GenState {
                    ret: append_to_last(st.ret, AtomV::Terminal(st.word)),
                    word: Seq::empty(),
                    mode: GenMode::Collect,
                    ..st
                },
            )
        } else {
            Some(GenState { mode: GenMode::Collect, ..st })
        }
    } else if st.mode == GenMode::Collect && is_blank(c) {
        let s2 = flush_word(st, tokens);
        if c == '\r' || c == '\n' {
            Some(GenState { mode: GenMode::Expect, ..s2 })
        } else {
            Some(s2)
        }
    } else if st.mode == GenMode::Collect && c == '(' {
        if st.pl == 255 {
            None
        } else {
            Some(GenState { pl: (st.pl + 1) as u8, mode: GenMode::InGroup, ..st })
        }
    } else if (st.mode == GenMode::Collect || st.mode == GenMode::Expect) && c == '|' {
        let s2 = flush_word(st, tokens);
        let ret = if s2.ret.len() > 0 {
            s2.ret.push(GrammarItemV { symbol: s2.ret.last().symbol, production: Seq::empty() })
        } else {
            s2.ret
        };
        Some(GenState { ret, mode: GenMode::Collect, ..s2 })
    } else if st.mode == GenMode::Collect && c == '\'' {
        Some(GenState { mode: GenMode::InString, ..st })
    } else if st.mode == GenMode::Collect && (c == '+' || c == '*' || c == '?') {
        if st.ret.len() > 0 {
            Some(GenState { ret: repeat_items(st.ret, st.word, tokens, c), word: Seq::empty(), ..st })
        } else {
            Some(st)
        }
    } else if st.mode == GenMode::Expect && c == '=' {
        Some(
            GenState {
                ret: st.ret.push(GrammarItemV { symbol: AtomV::Symbol(st.word), production: Seq::empty() }),
                word: Seq::empty(),
                mode: GenMode::Collect,
                ..st
            },
        )
    } else if st.mode == GenMode::Expect && is_blank(c) {
        Some(st)
    } else {
        Some(GenState { word: st.word.push(c), ..st })
    }
}

/// The state after reading `chars` from `init`.
pub open spec fn gen_chars(chars: Seq<char>, tokens: Seq<String>, init: GenState, fuel: nat) -> Option<
    GenState,
>
    decreases fuel, chars.len(),
{
    if chars.len() == 0 {
        Some(init)
    } else {
        match gen_chars(chars.drop_last(), tokens, init, fuel) {
            Some(st) => gen_step(st, chars.last(), tokens, fuel),
            None => None,
        }
    }
}

/// The rules read from `text` (a final newline added), with at most `fuel`
/// levels of groups.
pub open spec fn gen_text(text: Seq<char>, tokens: Seq<String>, fuel: nat) -> Option<Seq<GrammarItemV>> {
    match gen_chars(text.push('\n'), tokens, gen_start(), fuel) {
        Some(st) => Some(st.ret),
        None => None,
    }
}

/// Reading `text` ends without a panic.
pub open spec fn gen_halts(text: Seq<char>, tokens: Seq<String>) -> bool {
    exists|fuel: nat| #[trigger] gen_text(text, tokens, fuel) is Some
}

/// Reading `text` gives the rules `r`.
pub open spec fn gen_gives(text: Seq<char>, tokens: Seq<String>, r: Seq<GrammarItemV>) -> bool {
    exists|fuel: nat| gen_text(text, tokens, fuel) == Some(r)
}


/// Reading `x` then `y` is reading `y` from where `x` left the reader.
proof fn lemma_gen_chars_concat(x: Seq<char>, y: Seq<char>, tokens: Seq<String>, init: GenState, f: nat)
    ensures
        gen_chars(x + y, tokens, init, f) == match gen_chars(x, tokens, init, f) {
            Some(s) => gen_chars(y, tokens, s, f),
            None => None,
        },
    decreases y.len(),
{
    if y.len() == 0 {
        assert(x + y =~= x);
    } else {
        lemma_gen_chars_concat(x, y.drop_last(), tokens, init, f);
        assert((x + y).drop_last() =~= x + y.drop_last());
        assert((x + y).last() == y.last());
    }
}

/// A text without parentheses or quotes leaves the reader outside any group
/// or quoted terminal: reading a rule name or the atoms of a production.
proof fn lemma_plain_text_mode(a: Seq<char>, tokens: Seq<String>, f: nat)
    requires
        forall|i: int| 0 <= i < a.len() ==> a[i] != '(' && a[i] != '\'',
    ensures
        gen_chars(a, tokens, gen_start(), f) is Some,
        gen_chars(a, tokens, gen_start(), f)->0.mode == GenMode::Collect || gen_chars(a, tokens, gen_start(), f)->0.mode
            == GenMode::Expect,
    decreases a.len(),
{
    if a.len() > 0 {
        let p = a.drop_last();
        assert forall|i: int| 0 <= i < p.len() implies p[i] != '(' && p[i] != '\'' by {
            assert(p[i] == a[i]);
        }
        lemma_plain_text_mode(p, tokens, f);
        let c = a.last();
        assert(a[a.len() - 1] == c);
        let st = gen_chars(p, tokens, gen_start(), f)->0;
        assert(gen_chars(a, tokens, gen_start(), f) == match gen_chars(a.drop_last(), tokens, gen_start(), f) {
            Some(x) => gen_step(x, a.last(), tokens, f),
            None => None,
        });
        assert(gen_chars(a, tokens, gen_start(), f) == gen_step(st, c, tokens, f));
        assert(c != '(' && c != '\'');
        let n = gen_step(st, c, tokens, f);
        assert(n is Some && (n->0.mode == GenMode::Collect || n->0.mode == GenMode::Expect));
    } else {
        assert(gen_chars(a, tokens, gen_start(), f) == Some(gen_start()));
    }
}

/// Blanks read while the reader expects a rule name change nothing.
proof fn lemma_spaces_expect(sp: Seq<char>, tokens: Seq<String>, st: GenState, f: nat)
    requires
        st.mode == GenMode::Expect,
        forall|i: int| 0 <= i < sp.len() ==> sp[i] == ' ',
    ensures
        gen_chars(sp, tokens, st, f) == Some(st),
    decreases sp.len(),
{
    if sp.len() > 0 {
        let p = sp.drop_last();
        assert forall|i: int| 0 <= i < p.len() implies p[i] == ' ' by {
            assert(p[i] == sp[i]);
        }
        lemma_spaces_expect(p, tokens, st, f);
        assert(sp[sp.len() - 1] == ' ');
        assert(gen_chars(sp, tokens, st, f) == match gen_chars(sp.drop_last(), tokens, st, f) {
            Some(x) => gen_step(x, sp.last(), tokens, f),
            None => None,
        });
        assert(gen_step(st, ' ', tokens, f) == Some(st));
    } else {
        assert(gen_chars(sp, tokens, st, f) == Some(st));
    }
}

proof fn lemma_one_char(c: char, tokens: Seq<String>, st: GenState, f: nat)
    ensures
        gen_chars(seq![c], tokens, st, f) == gen_step(st, c, tokens, f),
{
    let s = seq![c];
    assert(s.drop_last() =~= Seq::<char>::empty());
    assert(gen_chars(Seq::<char>::empty(), tokens, st, f) == Some(st));
    assert(s.last() == c);
    assert(gen_chars(s, tokens, st, f) == match gen_chars(s.drop_last(), tokens, st, f) {
        Some(x) => gen_step(x, s.last(), tokens, f),
        None => None,
    });
}

/// An alternative written on a line of its own is read as one written after
/// the atoms on the same line: where the text before holds no parentheses and
/// no quotes, a `|` that starts a new line (after any spaces) ends the
/// production and opens a new, empty alternative of the same rule, just as a
/// `|` after a space does. So both texts give the same rules, or both fail.
pub proof fn lemma_bar_on_new_line(a: Seq<char>, sp: Seq<char>, b: Seq<char>, tokens: Seq<String>)
    requires
        forall|i: int| 0 <= i < a.len() ==> a[i] != '(' && a[i] != '\'',
        forall|i: int| 0 <= i < sp.len() ==> sp[i] == ' ',
    ensures
        forall|fuel: nat|
            #[trigger] gen_text(a + seq!['\n'] + sp + seq!['|'] + b, tokens, fuel) == gen_text(
                a + seq![' ', '|'] + b,
                tokens,
                fuel,
            ),
        forall|r: Seq<GrammarItemV>|
            gen_gives(a + seq!['\n'] + sp + seq!['|'] + b, tokens, r) <==> gen_gives(
                a + seq![' ', '|'] + b,
                tokens,
                r,
            ),
{
    let t1 = a + seq!['\n'] + sp + seq!['|'] + b;
    let t2 = a + seq![' ', '|'] + b;
    assert forall|fuel: nat| #[trigger] gen_text(t1, tokens, fuel) == gen_text(t2, tokens, fuel) by {
        lemma_bar_text(a, sp, b, tokens, fuel);
    }
    assert forall|r: Seq<GrammarItemV>| gen_gives(t1, tokens, r) <==> gen_gives(t2, tokens, r) by {
        if gen_gives(t1, tokens, r) {
            let f = choose|fuel: nat| gen_text(t1, tokens, fuel) == Some(r);
            assert(gen_text(t2, tokens, f) == Some(r));
        }
        if gen_gives(t2, tokens, r) {
            let f = choose|fuel: nat| gen_text(t2, tokens, fuel) == Some(r);
            assert(gen_text(t1, tokens, f) == Some(r));
        }
    }
}

proof fn lemma_bar_text(
    a: Seq<char>,
    sp: Seq<char>,
    b: Seq<char>,
    tokens: Seq<String>,
    fuel: nat,
)
    requires
        forall|i: int| 0 <= i < a.len() ==> a[i] != '(' && a[i] != '\'',
        forall|i: int| 0 <= i < sp.len() ==> sp[i] == ' ',
    ensures
        gen_text(a + seq!['\n'] + sp + seq!['|'] + b, tokens, fuel) == gen_text(a + seq![' ', '|'] + b, tokens, fuel),
{
    let f = fuel;
    let bb = b.push('\n');
    let x1 = seq!['\n'] + sp + seq!['|'];
    let x2 = seq![' ', '|'];
    assert((a + seq!['\n'] + sp + seq!['|'] + b).push('\n') =~= a + x1 + bb);
    assert((a + seq![' ', '|'] + b).push('\n') =~= a + x2 + bb);
    lemma_plain_text_mode(a, tokens, f);
    let st = gen_chars(a, tokens, gen_start(), f)->0;
    lemma_gen_chars_concat(a + x1, bb, tokens, gen_start(), f);
    lemma_gen_chars_concat(a, x1, tokens, gen_start(), f);
    lemma_gen_chars_concat(a + x2, bb, tokens, gen_start(), f);
    lemma_gen_chars_concat(a, x2, tokens, gen_start(), f);
    // the first text: a newline, the spaces, then the bar
    lemma_gen_chars_concat(seq!['\n'] + sp, seq!['|'], tokens, st, f);
    lemma_gen_chars_concat(seq!['\n'], sp, tokens, st, f);
    lemma_one_char('\n', tokens, st, f);
    let s1 = gen_step(st, '\n', tokens, f)->0;
    assert(s1.mode == GenMode::Expect);
    lemma_spaces_expect(sp, tokens, s1, f);
    lemma_one_char('|', tokens, s1, f);
    // the second text: a space, then the bar
    lemma_gen_chars_concat(seq![' '], seq!['|'], tokens, st, f);
    assert(seq![' '] + seq!['|'] =~= x2);
    lemma_one_char(' ', tokens, st, f);
    let s2 = gen_step(st, ' ', tokens, f)->0;
    lemma_one_char('|', tokens, s2, f);
    assert(flush_word(flush_word(st, tokens), tokens) == flush_word(st, tokens));
    assert(gen_chars(x1, tokens, st, f) == gen_chars(x2, tokens, st, f));
    assert(gen_text(a + seq!['\n'] + sp + seq!['|'] + b, tokens, fuel) == gen_text(
        a + seq![' ', '|'] + b, tokens, fuel));
}

/// A character that a word of a rule may hold: no blank and none of the
/// marks `(`, `'`, `|`, `+`, `*`, `?` and `=`.
pub open spec fn word_char(c: char) -> bool {
    !is_blank(c) && c != '(' && c != '\'' && c != '|' && c != '+' && c != '*' && c != '?' && c != '='
}

/// A nonempty word of word characters.
pub open spec fn plain_word(w: Seq<char>) -> bool {
    w.len() > 0 && forall|i: int| 0 <= i < w.len() ==> word_char(w[i])
}

/// The words `ws`, each after a space.
pub open spec fn spaced(ws: Seq<Seq<char>>) -> Seq<char>
    decreases ws.len(),
{
    if ws.len() == 0 {
        Seq::empty()
    } else {
        spaced(ws.drop_last()) + seq![' '] + ws.last()
    }
}

/// The atoms the words `ws` stand for: a word that is one of the token names
/// is a terminal, any other word a symbol.
pub open spec fn words_atoms(ws: Seq<Seq<char>>, tokens: Seq<String>) -> Seq<AtomV> {
    Seq::new(
        ws.len(),
        |i: int|
            if string_in(tokens, ws[i]) {
                AtomV::Terminal(ws[i])
            } else {
                AtomV::Symbol(ws[i])
            },
    )
}

/// Word characters read outside groups and quotes are added to the word.
proof fn lemma_read_word(w: Seq<char>, tokens: Seq<String>, st: GenState, f: nat)
    requires
        st.mode == GenMode::Collect || st.mode == GenMode::Expect,
        forall|i: int| 0 <= i < w.len() ==> word_char(w[i]),
    ensures
        gen_chars(w, tokens, st, f) == Some(GenState { word: st.word + w, ..st }),
    decreases w.len(),
{
    if w.len() == 0 {
        assert(st.word + w =~= st.word);
        assert(gen_chars(w, tokens, st, f) == Some(st));
    } else {
        let p = w.drop_last();
        assert forall|i: int| 0 <= i < p.len() implies word_char(p[i]) by {
            assert(p[i] == w[i]);
        }
        lemma_read_word(p, tokens, st, f);
        let c = w.last();
        assert(word_char(w[w.len() - 1]));
        assert(gen_chars(w, tokens, st, f) == match gen_chars(w.drop_last(), tokens, st, f) {
            Some(x) => gen_step(x, w.last(), tokens, f),
            None => None,
        });
        assert((st.word + p).push(c) =~= st.word + w);
    }
}

/// The rule `name` with the atoms of the words `ws`.
pub open spec fn line_rule(name: Seq<char>, ws: Seq<Seq<char>>, tokens: Seq<String>) -> GrammarItemV {
    GrammarItemV { symbol: AtomV::Symbol(name), production: words_atoms(ws, tokens) }
}

proof fn lemma_read_spaced(name: Seq<char>, ws: Seq<Seq<char>>, tokens: Seq<String>, f: nat, k: int)
    requires
        forall|i: int| 0 <= i < ws.len() ==> plain_word(#[trigger] ws[i]),
        0 <= k <= ws.len(),
    ensures
        gen_chars(
            spaced(ws.take(k)),
            tokens,
            GenState { ret: seq![line_rule(name, Seq::empty(), tokens)], word: Seq::empty(), mode: GenMode::Collect, pl: 0 },
            f,
        ) == Some(
            if k == 0 {
                GenState { ret: seq![line_rule(name, Seq::empty(), tokens)], word: Seq::empty(), mode: GenMode::Collect, pl: 0 }
            } else {
                GenState { ret: seq![line_rule(name, ws.take(k - 1), tokens)], word: ws[k - 1], mode: GenMode::Collect, pl: 0 }
            },
        ),
    decreases k,
{
    let st1 = GenState { ret: seq![line_rule(name, Seq::empty(), tokens)], word: Seq::empty(), mode: GenMode::Collect, pl: 0 };
    if k == 0 {
        assert(ws.take(0) =~= Seq::<Seq<char>>::empty());
        assert(spaced(ws.take(0)) =~= Seq::<char>::empty());
        assert(gen_chars(Seq::<char>::empty(), tokens, st1, f) == Some(st1));
    } else {
        lemma_read_spaced(name, ws, tokens, f, k - 1);
        let prev = if k - 1 == 0 {
            st1
        } else {
            GenState { ret: seq![line_rule(name, ws.take(k - 2), tokens)], word: ws[k - 2], mode: GenMode::Collect, pl: 0 }
        };
        assert(ws.take(k).drop_last() =~= ws.take(k - 1));
        assert(ws.take(k).last() == ws[k - 1]);
        assert(spaced(ws.take(k)) == spaced(ws.take(k - 1)) + seq![' '] + ws[k - 1]);
        lemma_gen_chars_concat(spaced(ws.take(k - 1)) + seq![' '], ws[k - 1], tokens, st1, f);
        lemma_gen_chars_concat(spaced(ws.take(k - 1)), seq![' '], tokens, st1, f);
        lemma_one_char(' ', tokens, prev, f);
        let after = flush_word(prev, tokens);
        assert(gen_step(prev, ' ', tokens, f) == Some(after));
        let mid = GenState { ret: seq![line_rule(name, ws.take(k - 1), tokens)], word: Seq::empty(), mode: GenMode::Collect, pl: 0 };
        if k - 1 == 0 {
            assert(ws.take(0) =~= Seq::<Seq<char>>::empty());
            assert(after == mid);
        } else {
            assert(ws.take(k - 1).drop_last() =~= ws.take(k - 2));
            assert(words_atoms(ws.take(k - 1), tokens) =~= words_atoms(ws.take(k - 2), tokens).push(
                word_atom(ws[k - 2], tokens),
            ));
            assert(after.ret =~= mid.ret);
            assert(after == mid);
        }
        assert(plain_word(ws[k - 1]));
        lemma_read_word(ws[k - 1], tokens, mid, f);
        assert(Seq::<char>::empty() + ws[k - 1] =~= ws[k - 1]);
    }
}

/// A line `name = w1 w2 ... wn` of plain words gives one rule: `name` with the
/// atoms of the words in order, a word that is a token name a terminal and any
/// other word a symbol.
pub proof fn lemma_rule_line(name: Seq<char>, ws: Seq<Seq<char>>, tokens: Seq<String>)
    requires
        plain_word(name),
        forall|i: int| 0 <= i < ws.len() ==> plain_word(#[trigger] ws[i]),
    ensures
        gen_gives(name + seq![' ', '='] + spaced(ws), tokens, seq![line_rule(name, ws, tokens)]),
{
    let f: nat = 0;
    let st1 = GenState { ret: seq![line_rule(name, Seq::empty(), tokens)], word: Seq::empty(), mode: GenMode::Collect, pl: 0 };
    let text = (name + seq![' ', '='] + spaced(ws)).push('\n');
    assert(text =~= name + (seq![' '] + seq!['=']) + (spaced(ws) + seq!['\n']));
    lemma_gen_chars_concat(name + (seq![' '] + seq!['=']), spaced(ws) + seq!['\n'], tokens, gen_start(), f);
    lemma_gen_chars_concat(name, seq![' '] + seq!['='], tokens, gen_start(), f);
    lemma_read_word(name, tokens, gen_start(), f);
    let s0 = GenState { word: Seq::<char>::empty() + name, ..gen_start() };
    assert(Seq::<char>::empty() + name =~= name);
    lemma_gen_chars_concat(seq![' '], seq!['='], tokens, s0, f);
    lemma_one_char(' ', tokens, s0, f);
    assert(gen_step(s0, ' ', tokens, f) == Some(s0));
    lemma_one_char('=', tokens, s0, f);
    assert(words_atoms(Seq::empty(), tokens) =~= Seq::<AtomV>::empty());
    assert(gen_step(s0, '=', tokens, f) == Some(st1));
    lemma_gen_chars_concat(spaced(ws), seq!['\n'], tokens, st1, f);
    lemma_read_spaced(name, ws, tokens, f, ws.len() as int);
    assert(ws.take(ws.len() as int) =~= ws);
    let last = if ws.len() == 0 {
        st1
    } else {
        GenState { ret: seq![line_rule(name, ws.take(ws.len() - 1), tokens)], word: ws[ws.len() - 1], mode: GenMode::Collect, pl: 0 }
    };
    lemma_one_char('\n', tokens, last, f);
    let fin = GenState { mode: GenMode::Expect, ..flush_word(last, tokens) };
    assert(gen_step(last, '\n', tokens, f) == Some(fin));
    if ws.len() > 0 {
        assert(ws.take(ws.len() - 1).len() == ws.len() - 1);
        assert(words_atoms(ws, tokens) =~= words_atoms(ws.take(ws.len() - 1), tokens).push(
            word_atom(ws[ws.len() - 1], tokens),
        ));
        assert(fin.ret =~= seq![line_rule(name, ws, tokens)]);
    } else {
        assert(ws =~= Seq::<Seq<char>>::empty());
        assert(fin.ret =~= seq![line_rule(name, ws, tokens)]);
    }
    assert(gen_text(name + seq![' ', '='] + spaced(ws), tokens, f) == Some(seq![line_rule(name, ws, tokens)]));
}

proof fn lemma_gen_step_more_fuel(st: GenState, c: char, tokens: Seq<String>, f: nat, f2: nat)
    requires
        f <= f2,
        gen_step(st, c, tokens, f) is Some,
    ensures
        gen_step(st, c, tokens, f2) == gen_step(st, c, tokens, f),
    decreases f, 0nat,
{
    if st.mode == GenMode::InGroup && c == ')' && st.pl == 1 && st.ret.len() > 0 && f > 0 {
        let x = st.ret.last();
        lemma_gen_chars_more_fuel(group_text(x, st.word), tokens, gen_start(), (f - 1) as nat, (f2 - 1) as nat);
    }
}

proof fn lemma_gen_chars_more_fuel(chars: Seq<char>, tokens: Seq<String>, init: GenState, f: nat, f2: nat)
    requires
        f <= f2,
        gen_chars(chars, tokens, init, f) is Some,
    ensures
        gen_chars(chars, tokens, init, f2) == gen_chars(chars, tokens, init, f),
    decreases f, chars.len(),
{
    if chars.len() > 0 {
        lemma_gen_chars_more_fuel(chars.drop_last(), tokens, init, f, f2);
        let st = gen_chars(chars.drop_last(), tokens, init, f)->0;
        lemma_gen_step_more_fuel(st, chars.last(), tokens, f, f2);
    }
}

/// Reading a text gives one list of rules: it does not depend on how many
/// levels of groups are allowed, once they are enough.
pub proof fn lemma_gen_unique(text: Seq<char>, tokens: Seq<String>, r1: Seq<GrammarItemV>, r2: Seq<GrammarItemV>)
    requires
        gen_gives(text, tokens, r1),
        gen_gives(text, tokens, r2),
    ensures
        r1 == r2,
{
    let f1 = choose|fuel: nat| gen_text(text, tokens, fuel) == Some(r1);
    let f2 = choose|fuel: nat| gen_text(text, tokens, fuel) == Some(r2);
    if f1 <= f2 {
        lemma_gen_chars_more_fuel(text.push('\n'), tokens, gen_start(), f1, f2);
    } else {
        lemma_gen_chars_more_fuel(text.push('\n'), tokens, gen_start(), f2, f1);
    }
}

proof fn lemma_gen_prefix(chars: Seq<char>, tokens: Seq<String>, init: GenState, f: nat, j: int)
    requires
        gen_chars(chars, tokens, init, f) is Some,
        0 <= j <= chars.len(),
    ensures
        gen_chars(chars.take(j), tokens, init, f) is Some,
    decreases chars.len() - j,
{
    if j == chars.len() {
        assert(chars.take(j) =~= chars);
    } else {
        lemma_gen_prefix(chars, tokens, init, f, j + 1);
        assert(chars.take(j + 1).drop_last() =~= chars.take(j));
    }
}

// ---------------------------------------------------------------------------
// The reader
// ---------------------------------------------------------------------------

pub(crate) fn extend_chars(dst: &mut Vec<char>, src: &Vec<char>)
    ensures
        final(dst)@ == old(dst)@ + src@,
{
    let mut i: usize = 0;
    while i < src.len()
        invariant
            i <= src@.len(),
            dst@ == old(dst)@ + src@.take(i as int),
        decreases src@.len() - i,
    {
        dst.push(src[i]);
        assert(dst@ =~= old(dst)@ + src@.take(i + 1));
        i += 1;
    }
    assert(src@.take(src@.len() as int) =~= src@);
}

fn group_name_exec(x: &GrammarItem) -> (res: Vec<char>)
    ensures
        res@ == group_name(x@),
{
    let mut v = chars_of(get_atom_string(&x.symbol).as_str());
    let d = decimal_exec(x.production.len());
    extend_chars(&mut v, &d);
    v.push('~');
    v
}

fn repeat_name_exec(x: &GrammarItem) -> (res: Vec<char>)
    ensures
        res@ == repeat_name(x@),
{
    let mut v: Vec<char> = Vec::new();
    v.push('~');
    let d = decimal_exec(x.production.len());
    extend_chars(&mut v, &d);
    let n = chars_of(get_atom_string(&x.symbol).as_str());
    extend_chars(&mut v, &n);
    assert(v@ =~= repeat_name(x@));
    v
}

fn word_atom_exec(word: &Vec<char>, tokens: &Vec<String>) -> (res: Atom)
    ensures
        res@ == word_atom(word@, tokens@),
{
    let w = string_of(word);
    if contains_string(tokens, &w) {
        Atom::Terminal(w)
    } else {
        Atom::Symbol(w)
    }
}

fn append_last(ret: &mut Vec<GrammarItem>, a: Atom)
    ensures
        items_view(final(ret)@) == append_to_last(items_view(old(ret)@), a@),
{
    if ret.len() > 0 {
        let ghost r0 = ret@;
        let mut x = ret.pop().unwrap();
        let ghost xv = x@;
        x.production.push(a);
        assert(x@.production =~= xv.production.push(a@));
        ret.push(x);
        assert(items_view(ret@) =~= append_to_last(items_view(r0), a@)) by {
            assert(items_view(r0).last() == xv);
        }
    }
}

fn flush_word_exec(ret: &mut Vec<GrammarItem>, word: &mut Vec<char>, tokens: &Vec<String>, mode: GenMode, pl: u8)
    ensures
        (GenState { ret: items_view(final(ret)@), word: final(word)@, mode, pl }) == flush_word(
            GenState { ret: items_view(old(ret)@), word: old(word)@, mode, pl },
            tokens@,
        ),
{
    if word.len() > 0 {
        let a = word_atom_exec(word, tokens);
        append_last(ret, a);
        *word = Vec::new();
    }
}

fn repeat_exec(ret: &mut Vec<GrammarItem>, word: &Vec<char>, tokens: &Vec<String>, c: char)
    requires
        old(ret)@.len() > 0,
    ensures
        items_view(final(ret)@) == repeat_items(items_view(old(ret)@), word@, tokens@, c),
{
    let ghost r0 = items_view(ret@);
    let x = ret.pop().unwrap();
    let ghost xv = x@;
    assert(r0.last() == xv);
    assert(items_view(ret@) =~= r0.drop_last());
    let sym_name = string_of(&repeat_name_exec(&x));
    let GrammarItem { symbol: xs, production: xp } = x;
    let mut prod = xp;
    let a: Atom;
    if word.len() > 0 {
        a = word_atom_exec(word, tokens);
    } else if prod.len() > 0 {
        a = prod.pop().unwrap();
    } else {
        a = Atom::Terminal(String::new());
    }
    let ghost sym = AtomV::Symbol(repeat_name(xv));
    let mut tail: Vec<GrammarItem> = Vec::new();
    tail.push(GrammarItem { symbol: Atom::Symbol(sym_name.clone()), production: vec![a.clone()] });
    if c == '?' || c == '*' {
        tail.push(GrammarItem { symbol: Atom::Symbol(sym_name.clone()), production: Vec::new() });
    }
    if c == '+' || c == '*' {
        tail.push(
            GrammarItem {
                symbol: Atom::Symbol(sym_name.clone()),
                production: vec![Atom::Symbol(sym_name.clone()), a.clone()],
            },
        );
    }
    prod.push(Atom::Symbol(sym_name));
    tail.push(GrammarItem { symbol: xs, production: prod });
    proof {
        let one = seq![GrammarItemV { symbol: sym, production: seq![a@] }];
        let none = if c == '?' || c == '*' {
            seq![GrammarItemV { symbol: sym, production: Seq::empty() }]
        } else {
            Seq::<GrammarItemV>::empty()
        };
        let more = if c == '+' || c == '*' {
            seq![GrammarItemV { symbol: sym, production: seq![sym, a@] }]
        } else {
            Seq::<GrammarItemV>::empty()
        };
        let want = one + none + more + seq![
            GrammarItemV {
                symbol: xv.symbol,
                production: (if word@.len() == 0 && xv.production.len() > 0 {
                    xv.production.drop_last()
                } else {
                    xv.production
                }).push(sym),
            },
        ];
        assert(items_view(tail@) =~= want) by {
            assert forall|k: int| 0 <= k < tail@.len() implies tail@[k]@ == want[k] by {
                assert(tail@[k]@.production =~= want[k].production);
            }
        }
        assert(repeat_items(r0, word@, tokens@, c) =~= r0.drop_last() + want);
    }
    let ghost rb = ret@;
    let ghost tb = tail@;
    ret.append(&mut tail);
    assert(items_view(ret@) =~= items_view(rb) + items_view(tb));
}


/// Reads `chars` from the start state.
fn gen_exec(chars: &Vec<char>, tokens: &Vec<String>, Ghost(fuel): Ghost<nat>) -> (res: Vec<GrammarItem>)
    requires
        gen_chars(chars@, tokens@, gen_start(), fuel) is Some,
    ensures
        items_view(res@) == gen_chars(chars@, tokens@, gen_start(), fuel)->0.ret,
    decreases fuel,
{
    let mut ret: Vec<GrammarItem> = Vec::new();
    let mut word: Vec<char> = Vec::new();
    let mut mode = GenMode::Expect;
    let mut pl: u8 = 0;
    let mut i: usize = 0;
    proof {
        assert(chars@.take(0) =~= Seq::<char>::empty());
        assert(items_view(ret@) =~= Seq::<GrammarItemV>::empty());
    }
    while i < chars.len()
        invariant
            i <= chars@.len(),
            gen_chars(chars@, tokens@, gen_start(), fuel) is Some,
            gen_chars(chars@.take(i as int), tokens@, gen_start(), fuel) == Some(
                GenState { ret: items_view(ret@), word: word@, mode, pl },
            ),
        decreases chars@.len() - i,
    {
        let c = chars[i];
        let ghost st = GenState { ret: items_view(ret@), word: word@, mode, pl };
        proof {
            lemma_gen_prefix(chars@, tokens@, gen_start(), fuel, i + 1);
            assert(chars@.take(i + 1).drop_last() =~= chars@.take(i as int));
            assert(chars@.take(i + 1).last() == c);
        }
        let ghost next = gen_step(st, c, tokens@, fuel)->0;
        if mode == GenMode::InGroup && c == '(' {
            word.push('(');
            pl = pl + 1;
        } else if mode == GenMode::InGroup && c == ')' {
            pl = pl - 1;
            if pl != 0 {
                word.push(')');
            } else if ret.len() == 0 {
            } else {
                let ghost r0 = ret@;
                let x = ret.pop().unwrap();
                proof {
                    assert(items_view(r0).last() == x@);
                    assert(items_view(ret@) =~= items_view(r0).drop_last());
                }
                let name = group_name_exec(&x);
                let mut text: Vec<char> = Vec::new();
                extend_chars(&mut text, &name);
                text.push(' ');
                text.push('=');
                text.push(' ');
                extend_chars(&mut text, &word);
                text.push('\n');
                assert(text@ =~= group_text(x@, word@));
                let mut inner = gen_exec(&text, tokens, Ghost((fuel - 1) as nat));
                let ghost rb = ret@;
                let ghost ib = inner@;
                ret.append(&mut inner);
                ret.push(x);
                assert(items_view(ret@) =~= items_view(rb) + items_view(ib) + seq![x@]);
                word = name;
                mode = GenMode::Collect;
            }
        } else if mode == GenMode::InString && c == '\'' {
            if word.len() > 0 {
                let w = string_of(&word);
                append_last(&mut ret, Atom::Terminal(w));
                word = Vec::new();
            }
            mode = GenMode::Collect;
        } else if mode == GenMode::Collect && (c == ' ' || c == '\r' || c == '\n' || c == '\t') {
            flush_word_exec(&mut ret, &mut word, tokens, mode, pl);
            if c == '\r' || c == '\n' {
                mode = GenMode::Expect;
            }
        } else if mode == GenMode::Collect && c == '(' {
            pl = pl + 1;
            mode = GenMode::InGroup;
        } else if (mode == GenMode::Collect || mode == GenMode::Expect) && c == '|' {
            flush_word_exec(&mut ret, &mut word, tokens, mode, pl);
            if ret.len() > 0 {
                let last = ret.len() - 1;
                let y = GrammarItem { symbol: ret[last].symbol.clone(), production: Vec::new() };
                let ghost rb = ret@;
                ret.push(y);
                assert(items_view(ret@) =~= items_view(rb).push(
                    GrammarItemV { symbol: items_view(rb).last().symbol, production: Seq::empty() },
                )) by {
                    assert(y@.production =~= Seq::<AtomV>::empty());
                }
            }
            mode = GenMode::Collect;
        } else if mode == GenMode::Collect && c == '\'' {
            mode = GenMode::InString;
        } else if mode == GenMode::Collect && (c == '+' || c == '*' || c == '?') {
            if ret.len() > 0 {
                repeat_exec(&mut ret, &word, tokens, c);
                word = Vec::new();
            }
        } else if mode == GenMode::Expect && c == '=' {
            let w = string_of(&word);
            let y = GrammarItem { symbol: Atom::Symbol(w), production: Vec::new() };
            let ghost rb = ret@;
            ret.push(y);
            assert(items_view(ret@) =~= items_view(rb).push(
                GrammarItemV { symbol: AtomV::Symbol(word@), production: Seq::empty() },
            )) by {
                assert(y@.production =~= Seq::<AtomV>::empty());
            }
            word = Vec::new();
            mode = GenMode::Collect;
        } else if mode == GenMode::Expect && (c == ' ' || c == '\r' || c == '\n' || c == '\t') {
        } else {
            word.push(c);
        }
        proof {
            assert(word@ == next.word);
            assert(items_view(ret@) == next.ret);
        }
        i += 1;
    }
    assert(chars@.take(chars@.len() as int) =~= chars@);
    ret
}

/// Reads `chars` from the start state with at most `depth` levels of groups
/// inside groups; `None` when the reading panics or needs more levels.
fn gen_try(chars: &Vec<char>, tokens: &Vec<String>, depth: u64) -> (res: Option<Vec<GrammarItem>>)
    ensures
        res is Some <==> gen_chars(chars@, tokens@, gen_start(), depth as nat) is Some,
        res is Some ==> items_view(res->0@) == gen_chars(chars@, tokens@, gen_start(), depth as nat)->0.ret,
    decreases depth,
{
    let ghost fuel = depth as nat;
    let mut ret: Vec<GrammarItem> = Vec::new();
    let mut word: Vec<char> = Vec::new();
    let mut mode = GenMode::Expect;
    let mut pl: u8 = 0;
    let mut i: usize = 0;
    proof {
        assert(chars@.take(0) =~= Seq::<char>::empty());
        assert(items_view(ret@) =~= Seq::<GrammarItemV>::empty());
    }
    while i < chars.len()
        invariant
            i <= chars@.len(),
            fuel == depth as nat,
            gen_chars(chars@.take(i as int), tokens@, gen_start(), fuel) == Some(
                GenState { ret: items_view(ret@), word: word@, mode, pl },
            ),
        decreases chars@.len() - i,
    {
        let c = chars[i];
        let ghost st = GenState { ret: items_view(ret@), word: word@, mode, pl };
        proof {
            assert(chars@.take(i + 1).drop_last() =~= chars@.take(i as int));
            assert(chars@.take(i + 1).last() == c);
            if gen_chars(chars@, tokens@, gen_start(), fuel) is Some {
                lemma_gen_prefix(chars@, tokens@, gen_start(), fuel, i + 1);
            }
        }
        let ghost next = gen_step(st, c, tokens@, fuel)->0;
        if mode == GenMode::InGroup && c == '(' {
            if pl == 255 {
                return None;
            }
            word.push('(');
            pl = pl + 1;
        } else if mode == GenMode::InGroup && c == ')' {
            if pl == 0 {
                return None;
            }
            pl = pl - 1;
            if pl != 0 {
                word.push(')');
            } else if ret.len() == 0 {
            } else if depth == 0 {
                return None;
            } else {
                let ghost r0 = ret@;
                let x = ret.pop().unwrap();
                proof {
                    assert(items_view(r0).last() == x@);
                    assert(items_view(ret@) =~= items_view(r0).drop_last());
                }
                let name = group_name_exec(&x);
                let mut text: Vec<char> = Vec::new();
                extend_chars(&mut text, &name);
                text.push(' ');
                text.push('=');
                text.push(' ');
                extend_chars(&mut text, &word);
                text.push('\n');
                assert(text@ =~= group_text(x@, word@));
                let mut inner = match gen_try(&text, tokens, depth - 1) {
                    Some(v) => v,
                    None => {
                        return None;
                    },
                };
                let ghost rb = ret@;
                let ghost ib = inner@;
                ret.append(&mut inner);
                ret.push(x);
                assert(items_view(ret@) =~= items_view(rb) + items_view(ib) + seq![x@]);
                word = name;
                mode = GenMode::Collect;
            }
        } else if mode == GenMode::InString && c == '\'' {
            if word.len() > 0 {
                let w = string_of(&word);
                append_last(&mut ret, Atom::Terminal(w));
                word = Vec::new();
            }
            mode = GenMode::Collect;
        } else if mode == GenMode::Collect && (c == ' ' || c == '\r' || c == '\n' || c == '\t') {
            flush_word_exec(&mut ret, &mut word, tokens, mode, pl);
            if c == '\r' || c == '\n' {
                mode = GenMode::Expect;
            }
        } else if mode == GenMode::Collect && c == '(' {
            if pl == 255 {
                return None;
            }
            pl = pl + 1;
            mode = GenMode::InGroup;
        } else if (mode == GenMode::Collect || mode == GenMode::Expect) && c == '|' {
            flush_word_exec(&mut ret, &mut word, tokens, mode, pl);
            if ret.len() > 0 {
                let last = ret.len() - 1;
                let y = GrammarItem { symbol: ret[last].symbol.clone(), production: Vec::new() };
                let ghost rb = ret@;
                ret.push(y);
                assert(items_view(ret@) =~= items_view(rb).push(
                    GrammarItemV { symbol: items_view(rb).last().symbol, production: Seq::empty() },
                )) by {
                    assert(y@.production =~= Seq::<AtomV>::empty());
                }
            }
            mode = GenMode::Collect;
        } else if mode == GenMode::Collect && c == '\'' {
            mode = GenMode::InString;
        } else if mode == GenMode::Collect && (c == '+' || c == '*' || c == '?') {
            if ret.len() > 0 {
                repeat_exec(&mut ret, &word, tokens, c);
                word = Vec::new();
            }
        } else if mode == GenMode::Expect && c == '=' {
            let w = string_of(&word);
            let y = GrammarItem { symbol: Atom::Symbol(w), production: Vec::new() };
            let ghost rb = ret@;
            ret.push(y);
            assert(items_view(ret@) =~= items_view(rb).push(
                GrammarItemV { symbol: AtomV::Symbol(word@), production: Seq::empty() },
            )) by {
                assert(y@.production =~= Seq::<AtomV>::empty());
            }
            word = Vec::new();
            mode = GenMode::Collect;
        } else if mode == GenMode::Expect && (c == ' ' || c == '\r' || c == '\n' || c == '\t') {
        } else {
            word.push(c);
        }
        proof {
            assert(word@ == next.word);
            assert(items_view(ret@) == next.ret);
        }
        i += 1;
    }
    assert(chars@.take(chars@.len() as int) =~= chars@);
    Some(ret)
}

/// Reads grammar rules from `grammar_str`: lines `name = atoms | atoms ...`,
/// where a quoted text is a terminal, a word that is one of
/// `terminal_tokens` is a terminal and any other word a symbol, `?`, `*` and
/// `+` repeat the atom before them and parentheses group atoms.
pub fn grammar_gen(grammar_str: &str, terminal_tokens: &Vec<String>) -> (res: Vec<GrammarItem>)
    requires
        gen_halts(grammar_str@, terminal_tokens@),
    ensures
        gen_gives(grammar_str@, terminal_tokens@, items_view(res@)),
{
    let ghost fuel = choose|f: nat| #[trigger] gen_text(grammar_str@, terminal_tokens@, f) is Some;
    let mut chars = chars_of(grammar_str);
    chars.push('\n');
    let res = gen_exec(&chars, terminal_tokens, Ghost(fuel));
    assert(gen_text(grammar_str@, terminal_tokens@, fuel) == Some(items_view(res@)));
    res
}

/// Reads grammar rules as `grammar_gen` does, allowing at most `depth` levels
/// of groups inside groups: `None` when reading `grammar_str` panics or needs
/// more levels than that.
pub fn try_grammar_gen(grammar_str: &str, terminal_tokens: &Vec<String>, depth: u64) -> (res: Option<
    Vec<GrammarItem>,
>)
    ensures
        res is Some <==> gen_text(grammar_str@, terminal_tokens@, depth as nat) is Some,
        res is Some ==> gen_gives(grammar_str@, terminal_tokens@, items_view(res->0@)),
{
    let mut chars = chars_of(grammar_str);
    chars.push('\n');
    gen_try(&chars, terminal_tokens, depth)
}

} // verus!
