use vstd::prelude::*;

use crate::grammar::{Atom, AtomV};
use crate::notation::{chars_of, string_of};
use crate::regexes::{
    Pattern, regex_compiles, regex_captures, regex_is_match, regex_replace_all, captures_view,
    compile_pattern, captures_all, pattern_is_match, pattern_replace_all,
};
use crate::strings::{white_space, char_is_whitespace};

verus! {

/// The abstract value of a token: its terminal, and the text it matched when
/// the terminal is a named token class.
pub struct LexV {
    pub atom: AtomV,
    pub value: Option<Seq<char>>,
}

/// A token of the program text.
#[derive(Debug, PartialEq, Eq, Hash, PartialOrd, Ord)]
pub struct Lex {
    pub atom: Atom,
    pub value: Option<String>,
}

/// The abstract value of an optional string.
pub open spec fn opt_str(v: Option<String>) -> Option<Seq<char>> {
    match v {
        Some(s) => Some(s@),
        None => None,
    }
}

impl View for Lex {
    type V = LexV;

    open spec fn view(&self) -> LexV {
        LexV { atom: self.atom@, value: opt_str(self.value) }
    }
}

impl Clone for Lex {
    fn clone(&self) -> (res: Self)
        ensures
            res@ == self@,
    {
        Lex {
            atom: self.atom.clone(),
            value: match &self.value {
                Some(v) => Some(v.clone()),
                None => None,
            },
        }
    }
}

/// The abstract values of a sequence of tokens.
pub open spec fn lexes_view(s: Seq<Lex>) -> Seq<LexV> {
    s.map_values(|l: Lex| l@)
}


// ---------------------------------------------------------------------------
// Splitting and trimming text
// ---------------------------------------------------------------------------

/// The pieces of `s` between the occurrences of `sep` (as `str::split` gives
/// them: empty pieces included, one piece for an empty text).
pub open spec fn split_on(s: Seq<char>, sep: char) -> Seq<Seq<char>>
    decreases s.len(),
{
    if s.len() == 0 {
        seq![Seq::empty()]
    } else {
        let r = split_on(s.drop_last(), sep);
        if s.last() == sep {
            r.push(Seq::empty())
        } else {
            r.update(r.len() - 1, r.last().push(s.last()))
        }
    }
}

proof fn lemma_split_nonempty(s: Seq<char>, sep: char)
    ensures
        split_on(s, sep).len() >= 1,
    decreases s.len(),
{
    if s.len() > 0 {
        lemma_split_nonempty(s.drop_last(), sep);
    }
}

/// `s` without its leading white space.
pub open spec fn trim_start(s: Seq<char>) -> Seq<char>
    decreases s.len(),
{
    if s.len() > 0 && white_space(s[0]) {
        trim_start(s.drop_first())
    } else {
        s
    }
}

/// `s` without its trailing white space.
pub open spec fn trim_end(s: Seq<char>) -> Seq<char>
    decreases s.len(),
{
    if s.len() > 0 && white_space(s.last()) {
        trim_end(s.drop_last())
    } else {
        s
    }
}

/// `s` without leading and trailing white space (as `str::trim` gives it).
pub open spec fn trim(s: Seq<char>) -> Seq<char> {
    trim_end(trim_start(s))
}

/// `s` without its quote characters.
pub open spec fn remove_quotes(s: Seq<char>) -> Seq<char>
    decreases s.len(),
{
    if s.len() == 0 {
        s
    } else if s.last() == '\'' {
        remove_quotes(s.drop_last())
    } else {
        remove_quotes(s.drop_last()).push(s.last())
    }
}

/// The abstract values of a sequence of strings.
pub open spec fn strings_view(v: Seq<String>) -> Seq<Seq<char>> {
    v.map_values(|s: String| s@)
}

fn split_chars(s: &Vec<char>, sep: char) -> (res: Vec<Vec<char>>)
    ensures
        res@.map_values(|v: Vec<char>| v@) == split_on(s@, sep),
{
    let mut res: Vec<Vec<char>> = Vec::new();
    let mut cur: Vec<char> = Vec::new();
    let mut i: usize = 0;
    assert(s@.take(0) =~= Seq::<char>::empty());
    assert(res@.map_values(|v: Vec<char>| v@).push(cur@) =~= seq![Seq::<char>::empty()]);
    while i < s.len()
        invariant
            i <= s@.len(),
            res@.map_values(|v: Vec<char>| v@).push(cur@) == split_on(s@.take(i as int), sep),
        decreases s@.len() - i,
    {
        let c = s[i];
        let ghost r0 = res@.map_values(|v: Vec<char>| v@);
        let ghost c0 = cur@;
        proof {
            assert(s@.take(i + 1).drop_last() =~= s@.take(i as int));
            assert(s@.take(i + 1).last() == c);
        }
        if c == sep {
            let done = cur;
            res.push(done);
            cur = Vec::new();
            assert(res@.map_values(|v: Vec<char>| v@) =~= r0.push(c0));
            assert(res@.map_values(|v: Vec<char>| v@).push(cur@) =~= r0.push(c0).push(Seq::<char>::empty()));
        } else {
            cur.push(c);
            assert(res@.map_values(|v: Vec<char>| v@).push(cur@) =~= r0.push(c0).update(
                r0.len() as int,
                c0.push(c),
            ));
        }
        i += 1;
    }
    assert(s@.take(s@.len() as int) =~= s@);
    let ghost r0 = res@.map_values(|v: Vec<char>| v@);
    let last = cur;
    res.push(last);
    assert(res@.map_values(|v: Vec<char>| v@) =~= r0.push(last@));
    res
}

fn trim_chars(s: &Vec<char>) -> (res: Vec<char>)
    ensures
        res@ == trim(s@),
{
    let mut i: usize = 0;
    assert(s@.skip(0) =~= s@);
    while i < s.len() && char_is_whitespace(s[i])
        invariant
            i <= s@.len(),
            trim_start(s@) == trim_start(s@.skip(i as int)),
        decreases s@.len() - i,
    {
        assert(s@.skip(i as int).drop_first() =~= s@.skip(i + 1));
        i += 1;
    }
    let ghost t = s@.skip(i as int);
    assert(trim_start(t) == t);
    let mut j: usize = s.len();
    assert(t.take(t.len() as int) =~= t);
    while j > i && char_is_whitespace(s[j - 1])
        invariant
            i <= j <= s@.len(),
            t == s@.skip(i as int),
            trim_end(t) == trim_end(t.take(j - i)),
        decreases j,
    {
        assert(t.take(j - i).drop_last() =~= t.take(j - i - 1));
        assert(t.take(j - i).last() == s@[j - 1]);
        j -= 1;
    }
    let mut res: Vec<char> = Vec::new();
    let mut k: usize = i;
    while k < j
        invariant
            i <= k <= j <= s@.len(),
            res@ == s@.subrange(i as int, k as int),
        decreases j - k,
    {
        res.push(s[k]);
        assert(res@ =~= s@.subrange(i as int, k + 1));
        k += 1;
    }
    assert(res@ =~= t.take(j - i));
    res
}

fn remove_quotes_exec(s: &Vec<char>) -> (res: Vec<char>)
    ensures
        res@ == remove_quotes(s@),
{
    let mut res: Vec<char> = Vec::new();
    let mut i: usize = 0;
    assert(s@.take(0) =~= Seq::<char>::empty());
    while i < s.len()
        invariant
            i <= s@.len(),
            res@ == remove_quotes(s@.take(i as int)),
        decreases s@.len() - i,
    {
        assert(s@.take(i + 1).drop_last() =~= s@.take(i as int));
        if s[i] != '\'' {
            res.push(s[i]);
        }
        i += 1;
    }
    assert(s@.take(s@.len() as int) =~= s@);
    res
}


// ---------------------------------------------------------------------------
// The token regex
// ---------------------------------------------------------------------------

/// The pattern that finds the characters that are special in a regex.
pub open spec fn escape_pattern() -> Seq<char> {
    r"(?P<c>[\\\.\+\*\?\(\)\|\[\]\{\}\^\$])"@
}

/// The template that puts a backslash before the character found.
pub open spec fn escape_template() -> Seq<char> {
    "\\$c"@
}

/// The pattern of a text made of word characters only.
pub open spec fn word_pattern() -> Seq<char> {
    r"^\w+$"@
}

/// The pattern of a quoted text in a grammar.
pub open spec fn quote_pattern() -> Seq<char> {
    "'[^']+'"@
}

/// `raw` with a backslash before each character that is special in a regex.
pub fn escape_re_string(raw: String) -> (res: String)
    requires
        regex_compiles(escape_pattern()),
    ensures
        res@ == regex_replace_all(escape_pattern(), raw@, escape_template()),
{
    match compile_pattern(r"(?P<c>[\\\.\+\*\?\(\)\|\[\]\{\}\^\$])") {
        Ok(p) => pattern_replace_all(&p, raw.as_str(), "\\$c"),
        Err(_) => {
            assert(false);
            raw
        },
    }
}

/// The alternatives for the quoted texts of a grammar, each once, in order of
/// first occurrence: a text made of word characters must end at a word boundary.
pub open spec fn grammar_alt(items: Seq<Seq<char>>) -> Seq<char>
    decreases items.len(),
{
    if items.len() == 0 {
        Seq::empty()
    } else {
        let prev = grammar_alt(items.drop_last());
        let it = items.last();
        if items.drop_last().contains(it) {
            prev
        } else {
            let sep = if prev.len() > 0 { seq!['|'] } else { Seq::empty() };
            let b = if regex_is_match(word_pattern(), it) { seq!['\\', 'b'] } else { Seq::empty() };
            prev + sep + it + b
        }
    }
}

/// The regex of a token line: its pieces after the first, trimmed, joined by `=`.
pub open spec fn line_reg(pieces: Seq<Seq<char>>) -> Seq<char>
    decreases pieces.len(),
{
    if pieces.len() == 0 {
        Seq::empty()
    } else if pieces.len() == 1 {
        trim(pieces[0])
    } else {
        line_reg(pieces.drop_last()) + seq!['='] + trim(pieces.last())
    }
}

/// The token names of the nonblank lines: each line's text before its first `=`, trimmed.
pub open spec fn lex_tokens(lines: Seq<Seq<char>>) -> Seq<Seq<char>>
    decreases lines.len(),
{
    if lines.len() == 0 {
        Seq::empty()
    } else {
        let t = lex_tokens(lines.drop_last());
        let l = lines.last();
        if trim(l).len() == 0 {
            t
        } else {
            t.push(trim(split_on(l, '=')[0]))
        }
    }
}

/// The alternatives for the nonblank lines: each line's regex, as a group.
pub open spec fn lex_alt(lines: Seq<Seq<char>>) -> Seq<char>
    decreases lines.len(),
{
    if lines.len() == 0 {
        Seq::empty()
    } else {
        let r = lex_alt(lines.drop_last());
        let l = lines.last();
        if trim(l).len() == 0 {
            r
        } else {
            r + seq!['|', '('] + line_reg(split_on(l, '=').drop_first()) + seq![')']
        }
    }
}

/// No nonblank line has more pieces than a `u16` counts.
pub open spec fn lines_ok(lines: Seq<Seq<char>>) -> bool {
    forall|i: int|
        0 <= i < lines.len() && trim(lines[i]).len() > 0 ==> #[trigger] split_on(lines[i], '=').len()
            <= 65535
}

fn join_line_reg(pieces: &Vec<Vec<char>>) -> (res: Vec<char>)
    requires
        pieces@.len() >= 1,
    ensures
        res@ == line_reg(pieces@.map_values(|v: Vec<char>| v@).drop_first()),
{
    let ghost pv = pieces@.map_values(|v: Vec<char>| v@);
    let mut reg: Vec<char> = Vec::new();
    let mut k: usize = 1;
    assert(pv.drop_first().take(0) =~= Seq::<Seq<char>>::empty());
    while k < pieces.len()
        invariant
            1 <= k <= pieces@.len(),
            pv == pieces@.map_values(|v: Vec<char>| v@),
            reg@ == line_reg(pv.drop_first().take(k - 1)),
        decreases pieces@.len() - k,
    {
        let ghost q = pv.drop_first().take(k as int);
        assert(q.drop_last() =~= pv.drop_first().take(k - 1));
        assert(q.last() == pieces@[k as int]@);
        if k > 1 {
            reg.push('=');
        }
        let t = trim_chars(&pieces[k]);
        let ghost rb = reg@;
        let mut t2 = t;
        reg.append(&mut t2);
        proof {
            if k > 1 {
                assert(reg@ =~= line_reg(q.drop_last()) + seq!['='] + trim(q.last()));
            } else {
                assert(q.len() == 1);
                assert(reg@ =~= trim(q[0]));
            }
        }
        k += 1;
    }
    assert(pv.drop_first().take(pieces@.len() - 1) =~= pv.drop_first());
    reg
}

/// The token names and the token regex of a lexer description: the quoted
/// texts of the grammar `grammar_strings`, each once, then for each nonblank
/// line `name = regex` of `lex_re_string` a group with the regex; the names
/// are those of the lines, in order.
pub fn gen_re(lex_re_string: String, grammar_strings: Vec<String>) -> (res: (Vec<String>, String))
    requires
        regex_compiles(word_pattern()),
        lines_ok(split_on(lex_re_string@, '\n')),
    ensures
        strings_view(res.0@) == lex_tokens(split_on(lex_re_string@, '\n')),
        res.1@ == grammar_alt(strings_view(grammar_strings@)) + lex_alt(split_on(lex_re_string@, '\n')),
{
    let test_w = match compile_pattern(r"^\w+$") {
        Ok(p) => p,
        Err(_) => {
            assert(false);
            return (Vec::new(), String::new());
        },
    };
    let ghost gs = strings_view(grammar_strings@);
    let mut re: Vec<char> = Vec::new();
    let mut added: Vec<String> = Vec::new();
    let mut i: usize = 0;
    assert(gs.take(0) =~= Seq::<Seq<char>>::empty());
    while i < grammar_strings.len()
        invariant
            i <= grammar_strings@.len(),
            gs == strings_view(grammar_strings@),
            test_w.source() == word_pattern(),
            re@ == grammar_alt(gs.take(i as int)),
            forall|k: Seq<char>| #[trigger] gs.take(i as int).contains(k) <==> crate::table::string_in(added@, k),
        decreases grammar_strings@.len() - i,
    {
        let item = &grammar_strings[i];
        let ghost q = gs.take(i + 1);
        assert(q.drop_last() =~= gs.take(i as int));
        assert(q.last() == item@);
        if !crate::table::contains_string(&added, item) {
            if re.len() > 0 {
                re.push('|');
            }
            let mut ic = chars_of(item.as_str());
            re.append(&mut ic);
            if pattern_is_match(&test_w, item.as_str()) {
                re.push('\\');
                re.push('b');
            }
            let ghost ab = added@;
            added.push(item.clone());
            assert forall|k: Seq<char>| #[trigger] q.contains(k) <==> crate::table::string_in(added@, k) by {
                if q.contains(k) {
                    let j = choose|j: int| 0 <= j < q.len() && q[j] == k;
                    if j < i {
                        assert(gs.take(i as int)[j] == k);
                        assert(gs.take(i as int).contains(k));
                        let a = choose|a: int| 0 <= a < ab.len() && ab[a]@ == k;
                        assert(added@[a]@ == k);
                    } else {
                        assert(added@[ab.len() as int]@ == k);
                    }
                }
                if crate::table::string_in(added@, k) {
                    let a = choose|a: int| 0 <= a < added@.len() && added@[a]@ == k;
                    if a < ab.len() {
                        assert(crate::table::string_in(ab, k));
                        assert(gs.take(i as int).contains(k));
                        let j = choose|j: int| 0 <= j < gs.take(i as int).len() && gs.take(i as int)[j] == k;
                        assert(q[j] == k);
                    } else {
                        assert(q[i as int] == k);
                    }
                }
            }
        } else {
            assert forall|k: Seq<char>| #[trigger] q.contains(k) <==> crate::table::string_in(added@, k) by {
                if q.contains(k) {
                    let j = choose|j: int| 0 <= j < q.len() && q[j] == k;
                    if j < i {
                        assert(gs.take(i as int)[j] == k);
                    }
                }
                if gs.take(i as int).contains(k) {
                    let j = choose|j: int| 0 <= j < gs.take(i as int).len() && gs.take(i as int)[j] == k;
                    assert(q[j] == k);
                }
            }
        }
        i += 1;
    }
    assert(gs.take(grammar_strings@.len() as int) =~= gs);
    let lex_chars = chars_of(lex_re_string.as_str());
    let lines = split_chars(&lex_chars, '\n');
    let ghost lv = lines@.map_values(|v: Vec<char>| v@);
    let ghost g_alt = re@;
    let mut tokens: Vec<String> = Vec::new();
    let mut n: usize = 0;
    assert(lv.take(0) =~= Seq::<Seq<char>>::empty());
    assert(re@ =~= g_alt + lex_alt(lv.take(0)));
    while n < lines.len()
        invariant
            n <= lines@.len(),
            lv == lines@.map_values(|v: Vec<char>| v@),
            lv == split_on(lex_re_string@, '\n'),
            lines_ok(lv),
            strings_view(tokens@) == lex_tokens(lv.take(n as int)),
            re@ == g_alt + lex_alt(lv.take(n as int)),
        decreases lines@.len() - n,
    {
        let ghost q = lv.take(n + 1);
        assert(q.drop_last() =~= lv.take(n as int));
        assert(q.last() == lines@[n as int]@);
        let line = &lines[n];
        let tl = trim_chars(line);
        if tl.len() > 0 {
            let pieces = split_chars(line, '=');
            proof {
                lemma_split_nonempty(line@, '=');
                assert(pieces@.len() >= 1);
                assert(trim(lv[n as int]).len() > 0);
            }
            let name = trim_chars(&pieces[0]);
            let ghost tb = tokens@;
            tokens.push(string_of(&name));
            assert(strings_view(tokens@) =~= strings_view(tb).push(name@));
            let mut reg = join_line_reg(&pieces);
            let ghost rb = re@;
            re.push('|');
            re.push('(');
            re.append(&mut reg);
            re.push(')');
            assert(re@ =~= rb + seq!['|', '('] + line_reg(split_on(line@, '=').drop_first()) + seq![')']);
        }
        n += 1;
    }
    assert(lv.take(lines@.len() as int) =~= lv);
    (tokens, string_of(&re))
}


// ---------------------------------------------------------------------------
// Tokens from matches
// ---------------------------------------------------------------------------

/// The first group at or after `k` that took part in the match, else the
/// number of groups.
pub open spec fn first_group(c: Seq<Option<Seq<char>>>, k: int) -> int
    decreases c.len() - k,
{
    if k >= c.len() {
        c.len() as int
    } else if c[k] is Some {
        k
    } else {
        first_group(c, k + 1)
    }
}

/// Which token a match is: the first group after the whole match that took
/// part in it (token `k - 1`), or the number of groups when none did (a
/// quoted text of the grammar).
pub open spec fn lex_index(c: Seq<Option<Seq<char>>>) -> int {
    if c.len() == 0 {
        0
    } else {
        first_group(c, 1)
    }
}

/// The token a match gives: a quoted text stands for itself; a token class
/// gives its name with the text matched; a group with no name gives none.
pub open spec fn lex_of(c: Seq<Option<Seq<char>>>, tokens: Seq<Seq<char>>) -> Option<LexV> {
    let k = lex_index(c);
    if k == c.len() {
        Some(LexV { atom: AtomV::Terminal(c[0]->0), value: None })
    } else if k - 1 < tokens.len() {
        Some(LexV { atom: AtomV::Terminal(tokens[k - 1]), value: Some(c[k]->0) })
    } else {
        None
    }
}

/// The tokens the matches give, in order.
pub open spec fn lexes_of(caps: Seq<Seq<Option<Seq<char>>>>, tokens: Seq<Seq<char>>) -> Seq<LexV>
    decreases caps.len(),
{
    if caps.len() == 0 {
        Seq::empty()
    } else {
        let r = lexes_of(caps.drop_last(), tokens);
        match lex_of(caps.last(), tokens) {
            Some(l) => r.push(l),
            None => r,
        }
    }
}

/// Reading a match neither counts past `u16` nor looks for a whole match that is missing.
pub open spec fn capture_ok(c: Seq<Option<Seq<char>>>) -> bool {
    &&& lex_index(c) <= 65535
    &&& lex_index(c) == c.len() ==> c.len() > 0 && c[0] is Some
}

fn lex_of_exec(c: &Vec<Option<String>>, tokens: &Vec<String>) -> (res: Option<Lex>)
    requires
        capture_ok(crate::regexes::groups_view(c@)),
    ensures
        match res {
            Some(l) => lex_of(crate::regexes::groups_view(c@), strings_view(tokens@)) == Some(l@),
            None => lex_of(crate::regexes::groups_view(c@), strings_view(tokens@)) is None,
        },
{
    let ghost cv = crate::regexes::groups_view(c@);
    let mut index: usize = 0;
    if c.len() > 0 {
        index = 1;
        while index < c.len() && c[index].is_none()
            invariant
                1 <= index <= c@.len(),
                cv == crate::regexes::groups_view(c@),
                first_group(cv, 1) == first_group(cv, index as int),
            decreases c@.len() - index,
        {
            index += 1;
        }
    }
    if index == c.len() {
        match &c[0] {
            Some(w) => Some(Lex { atom: Atom::Terminal(w.clone()), value: None }),
            None => {
                assert(false);
                None
            },
        }
    } else if index - 1 < tokens.len() {
        match &c[index] {
            Some(v) => Some(Lex { atom: Atom::Terminal(tokens[index - 1].clone()), value: Some(v.clone()) }),
            None => {
                assert(false);
                None
            },
        }
    } else {
        None
    }
}

/// The tokens that the matches `caps` of the token regex give, with the
/// token names `tokens`.
pub fn lexes_from_captures(caps: &Vec<Vec<Option<String>>>, tokens: &Vec<String>) -> (res: Vec<Lex>)
    requires
        forall|i: int| 0 <= i < caps@.len() ==> capture_ok(#[trigger] captures_view(caps@)[i]),
    ensures
        lexes_view(res@) == lexes_of(captures_view(caps@), strings_view(tokens@)),
{
    let ghost cv = captures_view(caps@);
    let mut res: Vec<Lex> = Vec::new();
    let mut i: usize = 0;
    assert(cv.take(0) =~= Seq::<Seq<Option<Seq<char>>>>::empty());
    assert(lexes_view(res@) =~= Seq::<LexV>::empty());
    while i < caps.len()
        invariant
            i <= caps@.len(),
            cv == captures_view(caps@),
            forall|j: int| 0 <= j < caps@.len() ==> capture_ok(#[trigger] captures_view(caps@)[j]),
            lexes_view(res@) == lexes_of(cv.take(i as int), strings_view(tokens@)),
        decreases caps@.len() - i,
    {
        let ghost q = cv.take(i + 1);
        assert(q.drop_last() =~= cv.take(i as int));
        assert(q.last() == cv[i as int]);
        assert(cv[i as int] == crate::regexes::groups_view(caps@[i as int]@));
        let ghost rb = res@;
        match lex_of_exec(&caps[i], tokens) {
            Some(l) => {
                res.push(l);
                assert(lexes_view(res@) =~= lexes_view(rb).push(l@));
            },
            None => {},
        }
        i += 1;
    }
    assert(cv.take(caps@.len() as int) =~= cv);
    res
}

/// The grammar texts the groups of one match give, escaped.
pub open spec fn group_literals(c: Seq<Option<Seq<char>>>) -> Seq<Seq<char>>
    decreases c.len(),
{
    if c.len() == 0 {
        Seq::empty()
    } else {
        group_literals(c.drop_last()).push(
            regex_replace_all(escape_pattern(), remove_quotes(c.last()->0), escape_template()),
        )
    }
}

/// The grammar texts the matches of the quote pattern give: each group's
/// text without its quotes, escaped for a regex.
pub open spec fn literals_of(caps: Seq<Seq<Option<Seq<char>>>>) -> Seq<Seq<char>>
    decreases caps.len(),
{
    if caps.len() == 0 {
        Seq::empty()
    } else {
        literals_of(caps.drop_last()) + group_literals(caps.last())
    }
}

/// Every group of every match took part in it.
pub open spec fn all_groups_present(caps: Seq<Seq<Option<Seq<char>>>>) -> bool {
    forall|i: int, j: int| 0 <= i < caps.len() && 0 <= j < caps[i].len() ==> (#[trigger] caps[i][j]) is Some
}

/// The quoted texts of a grammar found by the matches `caps`, escaped.
pub fn literals_from_captures(caps: &Vec<Vec<Option<String>>>) -> (res: Vec<String>)
    requires
        regex_compiles(escape_pattern()),
        all_groups_present(captures_view(caps@)),
    ensures
        strings_view(res@) == literals_of(captures_view(caps@)),
{
    let ghost cv = captures_view(caps@);
    let mut res: Vec<String> = Vec::new();
    let mut i: usize = 0;
    assert(cv.take(0) =~= Seq::<Seq<Option<Seq<char>>>>::empty());
    assert(strings_view(res@) =~= Seq::<Seq<char>>::empty());
    while i < caps.len()
        invariant
            i <= caps@.len(),
            cv == captures_view(caps@),
            regex_compiles(escape_pattern()),
            all_groups_present(cv),
            strings_view(res@) == literals_of(cv.take(i as int)),
        decreases caps@.len() - i,
    {
        let ghost q = cv.take(i + 1);
        assert(q.drop_last() =~= cv.take(i as int));
        let c = &caps[i];
        let ghost gv = crate::regexes::groups_view(c@);
        assert(cv[i as int] == gv);
        let ghost r0 = strings_view(res@);
        let mut j: usize = 0;
        assert(gv.take(0) =~= Seq::<Option<Seq<char>>>::empty());
        assert(r0 =~= r0 + group_literals(gv.take(0)));
        while j < c.len()
            invariant
                j <= c@.len(),
                gv == crate::regexes::groups_view(c@),
                cv[i as int] == gv,
                i < cv.len(),
                regex_compiles(escape_pattern()),
                all_groups_present(cv),
                strings_view(res@) == r0 + group_literals(gv.take(j as int)),
            decreases c@.len() - j,
        {
            assert(gv.take(j + 1).drop_last() =~= gv.take(j as int));
            assert(cv[i as int][j as int] is Some);
            match &c[j] {
                Some(v) => {
                    let unq = remove_quotes_exec(&chars_of(v.as_str()));
                    let e = escape_re_string(string_of(&unq));
                    let ghost rb = strings_view(res@);
                    res.push(e);
                    assert(strings_view(res@) =~= rb.push(e@));
                    assert(strings_view(res@) =~= r0 + group_literals(gv.take(j + 1)));
                },
                None => {
                    assert(false);
                },
            }
            j += 1;
        }
        assert(gv.take(c@.len() as int) =~= gv);
        assert(strings_view(res@) =~= literals_of(q));
        i += 1;
    }
    assert(cv.take(caps@.len() as int) =~= cv);
    res
}


// ---------------------------------------------------------------------------
// The lexer
// ---------------------------------------------------------------------------

/// The token regex built from a lexer description and a grammar.
pub open spec fn lex_regex(raw_lex: Seq<char>, raw_grammar: Seq<char>) -> Seq<char> {
    grammar_alt(literals_of(regex_captures(quote_pattern(), raw_grammar))) + lex_alt(split_on(raw_lex, '\n'))
}

/// Lexing `program` with the description `raw_lex` and the grammar
/// `raw_grammar` neither panics nor fails to build its regex.
pub open spec fn lex_inputs_ok(program: Seq<char>, raw_lex: Seq<char>, raw_grammar: Seq<char>) -> bool {
    &&& regex_compiles(escape_pattern())
    &&& regex_compiles(word_pattern())
    &&& regex_compiles(quote_pattern())
    &&& all_groups_present(regex_captures(quote_pattern(), raw_grammar))
    &&& lines_ok(split_on(raw_lex, '\n'))
    &&& regex_compiles(lex_regex(raw_lex, raw_grammar))
    &&& forall|i: int|
        0 <= i < regex_captures(lex_regex(raw_lex, raw_grammar), program).len() ==> capture_ok(
            #[trigger] regex_captures(lex_regex(raw_lex, raw_grammar), program)[i],
        )
}

/// The tokens of `program_raw` and the token names: the token regex is made
/// of the quoted texts of `raw_grammar_string` and of the token classes of
/// `raw_lex_string` (lines `name = regex`); each match of it is a token.
pub fn gen_lex(program_raw: String, raw_lex_string: String, raw_grammar_string: String) -> (res: (
    Vec<Lex>,
    Vec<String>,
))
    requires
        lex_inputs_ok(program_raw@, raw_lex_string@, raw_grammar_string@),
    ensures
        strings_view(res.1@) == lex_tokens(split_on(raw_lex_string@, '\n')),
        lexes_view(res.0@) == lexes_of(
            regex_captures(lex_regex(raw_lex_string@, raw_grammar_string@), program_raw@),
            lex_tokens(split_on(raw_lex_string@, '\n')),
        ),
{
    let qp = match compile_pattern("'[^']+'") {
        Ok(p) => p,
        Err(_) => {
            assert(false);
            return (Vec::new(), Vec::new());
        },
    };
    let gcaps = captures_all(&qp, raw_grammar_string.as_str());
    let lits = literals_from_captures(&gcaps);
    let ghost rl = raw_lex_string@;
    let (tokens, re_string) = gen_re(raw_lex_string, lits);
    let rp = match compile_pattern(re_string.as_str()) {
        Ok(p) => p,
        Err(_) => {
            assert(false);
            return (Vec::new(), Vec::new());
        },
    };
    let caps = captures_all(&rp, program_raw.as_str());
    proof {
        let cv = captures_view(caps@);
        assert forall|i: int| 0 <= i < caps@.len() implies capture_ok(#[trigger] captures_view(caps@)[i]) by {
            assert(cv[i] == regex_captures(lex_regex(rl, raw_grammar_string@), program_raw@)[i]);
        }
    }
    let lexes = lexes_from_captures(&caps, &tokens);
    (lexes, tokens)
}

fn groups_present(caps: &Vec<Vec<Option<String>>>) -> (res: bool)
    ensures
        res == all_groups_present(captures_view(caps@)),
{
    let ghost cv = captures_view(caps@);
    let mut i: usize = 0;
    while i < caps.len()
        invariant
            i <= caps@.len(),
            cv == captures_view(caps@),
            forall|a: int, b: int| 0 <= a < i && 0 <= b < cv[a].len() ==> (#[trigger] cv[a][b]) is Some,
        decreases caps@.len() - i,
    {
        let c = &caps[i];
        assert(cv[i as int] == crate::regexes::groups_view(c@));
        let mut j: usize = 0;
        while j < c.len()
            invariant
                i < caps@.len(),
                j <= c@.len(),
                cv == captures_view(caps@),
                cv[i as int] == crate::regexes::groups_view(c@),
                forall|b: int| 0 <= b < j ==> (#[trigger] cv[i as int][b]) is Some,
            decreases c@.len() - j,
        {
            if c[j].is_none() {
                assert(!(cv[i as int][j as int] is Some));
                return false;
            }
            j += 1;
        }
        i += 1;
    }
    true
}

fn capture_ok_exec(c: &Vec<Option<String>>) -> (res: bool)
    ensures
        res == capture_ok(crate::regexes::groups_view(c@)),
{
    let ghost cv = crate::regexes::groups_view(c@);
    let mut index: usize = 0;
    if c.len() > 0 {
        index = 1;
        while index < c.len() && c[index].is_none()
            invariant
                1 <= index <= c@.len(),
                cv == crate::regexes::groups_view(c@),
                first_group(cv, 1) == first_group(cv, index as int),
            decreases c@.len() - index,
        {
            index += 1;
        }
    }
    if index > 65535 {
        return false;
    }
    if index == c.len() {
        c.len() > 0 && c[0].is_some()
    } else {
        true
    }
}

/// The tokens and the token names, as `gen_lex` gives them, where lexing
/// neither panics nor fails to build its regex; `None` otherwise.
pub fn try_gen_lex(program_raw: String, raw_lex_string: String, raw_grammar_string: String) -> (res: Option<
    (Vec<Lex>, Vec<String>),
>)
    ensures
        res is Some <==> lex_inputs_ok(program_raw@, raw_lex_string@, raw_grammar_string@),
        res matches Some(r) ==> {
            &&& strings_view(r.1@) == lex_tokens(split_on(raw_lex_string@, '\n'))
            &&& lexes_view(r.0@) == lexes_of(
                regex_captures(lex_regex(raw_lex_string@, raw_grammar_string@), program_raw@),
                lex_tokens(split_on(raw_lex_string@, '\n')),
            )
        },
{
    if compile_pattern(r"(?P<c>[\\\.\+\*\?\(\)\|\[\]\{\}\^\$])").is_err() {
        return None;
    }
    if compile_pattern(r"^\w+$").is_err() {
        return None;
    }
    let qp = match compile_pattern("'[^']+'") {
        Ok(p) => p,
        Err(_) => {
            return None;
        },
    };
    let gcaps = captures_all(&qp, raw_grammar_string.as_str());
    if !groups_present(&gcaps) {
        return None;
    }
    let lex_chars = chars_of(raw_lex_string.as_str());
    let lines = split_chars(&lex_chars, '\n');
    let ghost lv = lines@.map_values(|v: Vec<char>| v@);
    let mut n: usize = 0;
    while n < lines.len()
        invariant
            n <= lines@.len(),
            lv == lines@.map_values(|v: Vec<char>| v@),
            lv == split_on(raw_lex_string@, '\n'),
            forall|i: int|
                0 <= i < n && trim(lv[i]).len() > 0 ==> #[trigger] split_on(lv[i], '=').len() <= 65535,
        decreases lines@.len() - n,
    {
        let tl = trim_chars(&lines[n]);
        if tl.len() > 0 {
            let pieces = split_chars(&lines[n], '=');
            assert(pieces@.map_values(|v: Vec<char>| v@).len() == pieces@.len());
            if pieces.len() > 65535 {
                assert(lv[n as int] == lines@[n as int]@);
                return None;
            }
        }
        n += 1;
    }
    assert(lines_ok(split_on(raw_lex_string@, '\n')));
    let lits = literals_from_captures(&gcaps);
    let (_tokens, re_string) = gen_re(raw_lex_string.clone(), lits);
    assert(captures_view(gcaps@) == regex_captures(quote_pattern(), raw_grammar_string@));
    assert(re_string@ == lex_regex(raw_lex_string@, raw_grammar_string@));
    let rp = match compile_pattern(re_string.as_str()) {
        Ok(p) => p,
        Err(_) => {
            return None;
        },
    };
    let caps = captures_all(&rp, program_raw.as_str());
    let ghost cv = captures_view(caps@);
    let mut i: usize = 0;
    while i < caps.len()
        invariant
            i <= caps@.len(),
            cv == captures_view(caps@),
            cv == regex_captures(lex_regex(raw_lex_string@, raw_grammar_string@), program_raw@),
            forall|j: int| 0 <= j < i ==> capture_ok(#[trigger] cv[j]),
        decreases caps@.len() - i,
    {
        assert(cv[i as int] == crate::regexes::groups_view(caps@[i as int]@));
        if !capture_ok_exec(&caps[i]) {
            return None;
        }
        i += 1;
    }
    Some(gen_lex(program_raw, raw_lex_string, raw_grammar_string))
}

} // verus!
