//! Reading a grammar from text: one rule `head -> body | ... | body` per line.
use crate::cfg::cfg::CFG;
use crate::cfg::construct::{body_variables, name_numbers, production_terminals, production_variables, productions_grammar, with_name};
use crate::language::word_of;
use crate::cfg::production::{Production, Symbol};
use crate::cfg::terminal::Terminal;
use crate::cfg::variable::Variable;
use crate::input_symbol::{epsilon_names, is_epsilon_name};
use vstd::prelude::*;

verus! {

/// Whether `c` is white space, as `char::is_whitespace` says.
pub uninterp spec fn is_white(c: char) -> bool;

/// Whether `c` is an upper-case letter, as `char::is_uppercase` says.
pub uninterp spec fn is_upper(c: char) -> bool;

/// `char::is_whitespace`.
#[verifier::external_body]
fn char_is_whitespace(c: char) -> (r: bool)
    ensures
        r == is_white(c),
{
    c.is_whitespace()
}

/// `char::is_uppercase`.
#[verifier::external_body]
fn char_is_uppercase(c: char) -> (r: bool)
    ensures
        r == is_upper(c),
{
    c.is_uppercase()
}

/// The pieces of `s` between the separators `sep` (one more piece than
/// separators, empty pieces included), as `str::split` gives them.
pub open spec fn split_on(s: Seq<char>, sep: char) -> Seq<Seq<char>>
    decreases s.len(),
{
    if s.len() == 0 {
        seq![Seq::empty()]
    } else {
        let prev = split_on(s.drop_last(), sep);
        if s.last() == sep {
            prev.push(Seq::empty())
        } else {
            prev.update(prev.len() - 1, prev.last().push(s.last()))
        }
    }
}

/// `s` without its leading white space.
pub open spec fn trim_start(s: Seq<char>) -> Seq<char>
    decreases s.len(),
{
    if s.len() > 0 && is_white(s[0]) {
        trim_start(s.drop_first())
    } else {
        s
    }
}

/// `s` without its trailing white space.
pub open spec fn trim_end(s: Seq<char>) -> Seq<char>
    decreases s.len(),
{
    if s.len() > 0 && is_white(s.last()) {
        trim_end(s.drop_last())
    } else {
        s
    }
}

/// `s` without leading and trailing white space, as `str::trim` gives it.
pub open spec fn trim(s: Seq<char>) -> Seq<char> {
    trim_end(trim_start(s))
}

/// The words of `s`: its maximal runs of characters that are not white
/// space, as `str::split_whitespace` gives them.
pub open spec fn words(s: Seq<char>) -> Seq<Seq<char>>
    decreases s.len(),
{
    if s.len() == 0 {
        Seq::empty()
    } else {
        let prev = words(s.drop_last());
        let c = s.last();
        if is_white(c) {
            prev
        } else if s.len() >= 2 && !is_white(s[s.len() - 2]) {
            prev.update(prev.len() - 1, prev.last().push(c))
        } else {
            prev.push(seq![c])
        }
    }
}

/// The lines of `s`, as `str::lines` cuts them: at each new line, a
/// carriage return before it dropped (a last empty line is not counted,
/// which changes nothing where empty lines are passed over).
pub open spec fn text_lines(s: Seq<char>) -> Seq<Seq<char>> {
    let pieces = split_on(s, '\n');
    Seq::new(
        pieces.len(),
        |i: int| if i < pieces.len() - 1 && pieces[i].len() > 0 && pieces[i].last() == '\r' { pieces[i].drop_last() } else { pieces[i] },
    )
}

/// The characters of `s`.
fn chars_of(s: &str) -> (v: Vec<char>)
    ensures
        v@ == s@,
{
    let n = s.unicode_len();
    let mut v: Vec<char> = Vec::new();
    let mut i: usize = 0;
    while i < n
        invariant
            n == s@.len(),
            i <= n,
            v@ == s@.take(i as int),
        decreases n - i,
    {
        v.push(s.get_char(i));
        proof {
            assert(s@.take(i + 1) =~= s@.take(i as int).push(s@[i as int]));
        }
        i = i + 1;
    }
    proof {
        assert(s@.take(i as int) =~= s@);
    }
    v
}

/// The characters `v[x..y]` as a string.
fn string_of(v: &Vec<char>, x: usize, y: usize) -> (s: String)
    requires
        x <= y <= v@.len(),
    ensures
        s@ == v@.subrange(x as int, y as int),
{
    let mut s = String::from_str("");
    proof {
        reveal_strlit("");
    }
    let mut i: usize = x;
    while i < y
        invariant
            x <= i <= y <= v@.len(),
            s@ == v@.subrange(x as int, i as int),
        decreases y - i,
    {
        crate::text::push_char(&mut s, v[i]);
        proof {
            assert(v@.subrange(x as int, i + 1) =~= v@.subrange(x as int, i as int).push(v@[i as int]));
        }
        i = i + 1;
    }
    s
}

/// The bounds of `v[lo..hi]` without leading and trailing white space.
fn trim_bounds(v: &Vec<char>, lo: usize, hi: usize) -> (r: (usize, usize))
    requires
        lo <= hi <= v@.len(),
    ensures
        lo <= r.0 <= r.1 <= hi,
        v@.subrange(r.0 as int, r.1 as int) == trim(v@.subrange(lo as int, hi as int)),
{
    let mut a = lo;
    while a < hi && char_is_whitespace(v[a])
        invariant
            lo <= a <= hi <= v@.len(),
            trim_start(v@.subrange(lo as int, hi as int)) == trim_start(v@.subrange(a as int, hi as int)),
        decreases hi - a,
    {
        proof {
            assert(v@.subrange(a as int, hi as int).drop_first() =~= v@.subrange(a + 1, hi as int));
        }
        a = a + 1;
    }
    let mut b = hi;
    while b > a && char_is_whitespace(v[b - 1])
        invariant
            lo <= a <= b <= hi <= v@.len(),
            trim_end(v@.subrange(a as int, hi as int)) == trim_end(v@.subrange(a as int, b as int)),
        decreases b - a,
    {
        proof {
            assert(v@.subrange(a as int, b as int).drop_last() =~= v@.subrange(a as int, b - 1));
        }
        b = b - 1;
    }
    (a, b)
}

/// The bounds of the pieces of `v[lo..hi]` between the separators `sep`.
fn piece_bounds(v: &Vec<char>, lo: usize, hi: usize, sep: char) -> (r: Vec<(usize, usize)>)
    requires
        lo <= hi <= v@.len(),
    ensures
        r@.len() == split_on(v@.subrange(lo as int, hi as int), sep).len(),
        forall|i: int| 0 <= i < r@.len() ==> lo <= (#[trigger] r@[i]).0 <= r@[i].1 <= hi
            && v@.subrange(r@[i].0 as int, r@[i].1 as int) == split_on(v@.subrange(lo as int, hi as int), sep)[i],
{
    let mut r: Vec<(usize, usize)> = Vec::new();
    r.push((lo, lo));
    let mut k = lo;
    proof {
        assert(v@.subrange(lo as int, lo as int) =~= Seq::<char>::empty());
    }
    while k < hi
        invariant
            lo <= k <= hi <= v@.len(),
            r@.len() >= 1,
            r@.last().1 == k,
            r@.len() == split_on(v@.subrange(lo as int, k as int), sep).len(),
            forall|i: int| 0 <= i < r@.len() ==> lo <= (#[trigger] r@[i]).0 <= r@[i].1 <= k
                && v@.subrange(r@[i].0 as int, r@[i].1 as int) == split_on(v@.subrange(lo as int, k as int), sep)[i],
        decreases hi - k,
    {
        let ghost old_r = r@;
        let ghost prev = split_on(v@.subrange(lo as int, k as int), sep);
        proof {
            assert(v@.subrange(lo as int, k + 1).drop_last() =~= v@.subrange(lo as int, k as int));
        }
        if v[k] == sep {
            r.push((k + 1, k + 1));
            proof {
                assert(v@.subrange(k + 1, k + 1) =~= Seq::<char>::empty());
            }
        } else {
            let last = r.len() - 1;
            let start = r[last].0;
            r.set(last, (start, k + 1));
            proof {
                assert(v@.subrange(start as int, k + 1) =~= v@.subrange(start as int, k as int).push(v@[k as int]));
                assert(prev.last() == prev[prev.len() - 1]);
            }
        }
        k = k + 1;
    }
    r
}

/// The bounds of the words of `v[lo..hi]`.
fn word_bounds(v: &Vec<char>, lo: usize, hi: usize) -> (r: Vec<(usize, usize)>)
    requires
        lo <= hi <= v@.len(),
    ensures
        r@.len() == words(v@.subrange(lo as int, hi as int)).len(),
        forall|i: int| 0 <= i < r@.len() ==> lo <= (#[trigger] r@[i]).0 < r@[i].1 <= hi
            && v@.subrange(r@[i].0 as int, r@[i].1 as int) == words(v@.subrange(lo as int, hi as int))[i],
{
    let mut r: Vec<(usize, usize)> = Vec::new();
    let mut k = lo;
    let mut prev_white = true;
    proof {
        assert(v@.subrange(lo as int, lo as int) =~= Seq::<char>::empty());
    }
    while k < hi
        invariant
            lo <= k <= hi <= v@.len(),
            prev_white == (k == lo || is_white(v@[k - 1])),
            !prev_white ==> r@.len() >= 1 && r@.last().1 == k,
            r@.len() == words(v@.subrange(lo as int, k as int)).len(),
            forall|i: int| 0 <= i < r@.len() ==> lo <= (#[trigger] r@[i]).0 < r@[i].1 <= k
                && v@.subrange(r@[i].0 as int, r@[i].1 as int) == words(v@.subrange(lo as int, k as int))[i],
        decreases hi - k,
    {
        let ghost prev = words(v@.subrange(lo as int, k as int));
        let c = v[k];
        let white = char_is_whitespace(c);
        proof {
            let sub = v@.subrange(lo as int, k + 1);
            assert(sub.drop_last() =~= v@.subrange(lo as int, k as int));
            assert(sub.last() == c);
            if k > lo {
                assert(sub[sub.len() - 2] == v@[k - 1]);
            }
        }
        if !white {
            if prev_white {
                r.push((k, k + 1));
                proof {
                    assert(v@.subrange(k as int, k + 1) =~= seq![c]);
                }
            } else {
                let last = r.len() - 1;
                let start = r[last].0;
                r.set(last, (start, k + 1));
                proof {
                    assert(v@.subrange(start as int, k + 1) =~= v@.subrange(start as int, k as int).push(c));
                    assert(prev.last() == prev[prev.len() - 1]);
                }
            }
        }
        prev_white = white;
        k = k + 1;
    }
    r
}

/// The prefix of a token that names a variable: `"VAR:`.
pub open spec fn var_prefix() -> Seq<char> {
    seq!['"', 'V', 'A', 'R', ':']
}

/// The prefix of a token that names a terminal: `"TER:`.
pub open spec fn ter_prefix() -> Seq<char> {
    seq!['"', 'T', 'E', 'R', ':']
}

/// Whether `s` starts with `p`.
pub open spec fn starts_with(s: Seq<char>, p: Seq<char>) -> bool {
    p.len() <= s.len() && s.take(p.len() as int) == p
}

/// Whether a quoted token ends with a quote after its prefix.
pub open spec fn quote_closed(t: Seq<char>) -> bool {
    t.len() >= 6 && t.last() == '"'
}

/// A quoted token without its prefix and its closing quote.
pub open spec fn unquoted(t: Seq<char>) -> Seq<char> {
    t.subrange(5, t.len() - 1)
}

/// The variable name that the head text `h` gives.
pub open spec fn head_of(h: Seq<char>) -> Seq<char> {
    if starts_with(h, var_prefix()) {
        unquoted(h)
    } else {
        h
    }
}

/// Whether the head text `h` is well formed.
pub open spec fn head_ok(h: Seq<char>) -> bool {
    starts_with(h, var_prefix()) ==> quote_closed(h)
}

/// What a token of a body stands for: whether it is a variable, and its
/// name. A quoted token says which it is; otherwise a token that starts
/// with an upper-case letter is a variable.
pub open spec fn token_rule(t: Seq<char>) -> (bool, Seq<char>) {
    if starts_with(t, var_prefix()) {
        (true, unquoted(t))
    } else if starts_with(t, ter_prefix()) {
        (false, unquoted(t))
    } else {
        (is_upper(t[0]), t)
    }
}

/// Whether a token of a body is well formed.
pub open spec fn token_ok(t: Seq<char>) -> bool {
    (starts_with(t, var_prefix()) || starts_with(t, ter_prefix())) ==> quote_closed(t)
}

/// The symbols that the words `ws` of a body stand for, those named like
/// epsilon passed over.
pub open spec fn body_rule(ws: Seq<Seq<char>>) -> Seq<(bool, Seq<char>)>
    decreases ws.len(),
{
    if ws.len() == 0 {
        Seq::empty()
    } else if epsilon_names().contains(ws.last()) {
        body_rule(ws.drop_last())
    } else {
        body_rule(ws.drop_last()).push(token_rule(ws.last()))
    }
}

/// Whether the words of a body are well formed.
pub open spec fn body_ok(ws: Seq<Seq<char>>) -> bool {
    forall|i: int| 0 <= i < ws.len() && !epsilon_names().contains(#[trigger] ws[i]) ==> token_ok(ws[i])
}

/// Where `->` first occurs in `l`.
pub open spec fn find_arrow(l: Seq<char>) -> Option<int>
    decreases l.len(),
{
    if l.len() < 2 {
        None
    } else {
        match find_arrow(l.drop_last()) {
            Some(i) => Some(i),
            None => if l[l.len() - 2] == '-' && l.last() == '>' {
                Some(l.len() - 2)
            } else {
                None
            },
        }
    }
}

/// Whether a rule line is well formed: it has `->`, a well-formed head and
/// well-formed bodies.
pub open spec fn line_ok(l: Seq<char>) -> bool {
    match find_arrow(l) {
        Some(k) => head_ok(trim(l.take(k))) && forall|j: int| 0 <= j < split_on(l.skip(k + 2), '|').len()
            ==> body_ok(words(#[trigger] split_on(l.skip(k + 2), '|')[j])),
        None => false,
    }
}

/// The rules of a line `head -> body | ... | body`: one per body, each the
/// head's name and the body's symbols.
pub open spec fn line_rules(l: Seq<char>) -> Seq<(Seq<char>, Seq<(bool, Seq<char>)>)> {
    let k = find_arrow(l)->0;
    let pieces = split_on(l.skip(k + 2), '|');
    Seq::new(pieces.len(), |j: int| (head_of(trim(l.take(k))), body_rule(words(pieces[j]))))
}

/// The rules of the lines `lines`, empty lines passed over.
pub open spec fn lines_rules(lines: Seq<Seq<char>>) -> Seq<(Seq<char>, Seq<(bool, Seq<char>)>)>
    decreases lines.len(),
{
    if lines.len() == 0 {
        Seq::empty()
    } else if trim(lines.last()).len() == 0 {
        lines_rules(lines.drop_last())
    } else {
        lines_rules(lines.drop_last()) + line_rules(trim(lines.last()))
    }
}

/// The rules that the text `t` writes.
pub open spec fn text_rules(t: Seq<char>) -> Seq<(Seq<char>, Seq<(bool, Seq<char>)>)> {
    lines_rules(text_lines(t))
}

/// Whether every line of the text that is not empty is a well-formed rule.
pub open spec fn text_ok(t: Seq<char>) -> bool {
    forall|i: int| 0 <= i < text_lines(t).len() && trim(#[trigger] text_lines(t)[i]).len() > 0 ==> line_ok(trim(text_lines(t)[i]))
}

/// What a symbol of a production stands for: whether it is a variable, and its name.
pub open spec fn symbol_rule(s: Symbol) -> (bool, Seq<char>) {
    match s {
        Symbol::V(v) => (true, v@),
        Symbol::T(t) => (false, t@),
    }
}

/// The rule that a production writes: its head's name and its body's symbols.
pub open spec fn rule_of(p: Production) -> (Seq<char>, Seq<(bool, Seq<char>)>) {
    (p.head@, p.body@.map_values(|s: Symbol| symbol_rule(s)))
}

/// The rules that the productions `ps` write.
pub open spec fn rules_of(ps: Seq<Production>) -> Seq<(Seq<char>, Seq<(bool, Seq<char>)>)> {
    ps.map_values(|p: Production| rule_of(p))
}

/// Where a prefix has `->`, the whole has it at the same place.
pub proof fn lemma_find_arrow_prefix(s: Seq<char>, m: int)
    requires
        0 <= m <= s.len(),
        find_arrow(s.take(m)) is Some,
    ensures
        find_arrow(s) == find_arrow(s.take(m)),
    decreases s.len() - m,
{
    if m < s.len() {
        assert(s.drop_last().take(m) =~= s.take(m));
        lemma_find_arrow_prefix(s.drop_last(), m);
    } else {
        assert(s.take(m) =~= s);
    }
}

/// Where `->` first occurs in `v[lo..hi]`, counted from `lo`.
fn find_arrow_in(v: &Vec<char>, lo: usize, hi: usize) -> (r: Option<usize>)
    requires
        lo <= hi <= v@.len(),
    ensures
        r matches Some(k) ==> lo <= k && k + 2 <= hi && find_arrow(v@.subrange(lo as int, hi as int)) == Some(k - lo),
        r is None ==> find_arrow(v@.subrange(lo as int, hi as int)) is None,
{
    if hi - lo < 2 {
        proof {
            assert(v@.subrange(lo as int, hi as int).len() < 2);
        }
        return None;
    }
    let mut k = lo;
    proof {
        assert(find_arrow(v@.subrange(lo as int, lo + 1)) is None);
    }
    while k + 1 < hi
        invariant
            lo <= k,
            k + 1 <= hi,
            hi <= v@.len(),
            find_arrow(v@.subrange(lo as int, k + 1)) is None,
        decreases hi - k,
    {
        let ghost sub = v@.subrange(lo as int, k + 2);
        proof {
            assert(sub.drop_last() =~= v@.subrange(lo as int, k + 1));
            assert(sub[sub.len() - 2] == v@[k as int]);
            assert(sub.last() == v@[k + 1]);
        }
        if v[k] == '-' && v[k + 1] == '>' {
            proof {
                assert(find_arrow(sub) == Some(k - lo));
                assert(v@.subrange(lo as int, hi as int).take(k + 2 - lo) =~= sub);
                lemma_find_arrow_prefix(v@.subrange(lo as int, hi as int), k + 2 - lo);
            }
            return Some(k);
        }
        k = k + 1;
    }
    None
}

/// Whether `v[x..y]` starts with `"VAR:`.
fn has_var_prefix(v: &Vec<char>, x: usize, y: usize) -> (r: bool)
    requires
        x <= y <= v@.len(),
    ensures
        r == starts_with(v@.subrange(x as int, y as int), var_prefix()),
{
    let r = y - x >= 5 && v[x] == '"' && v[x + 1] == 'V' && v[x + 2] == 'A' && v[x + 3] == 'R' && v[x + 4] == ':';
    proof {
        let t = v@.subrange(x as int, y as int);
        if t.len() >= 5 {
            if r {
                assert(t.take(5) =~= var_prefix());
            }
            if t.take(5) == var_prefix() {
                assert(t.take(5)[0] == '"' && t.take(5)[1] == 'V' && t.take(5)[2] == 'A' && t.take(5)[3] == 'R' && t.take(5)[4] == ':');
            }
        }
    }
    r
}

/// Whether `v[x..y]` starts with `"TER:`.
fn has_ter_prefix(v: &Vec<char>, x: usize, y: usize) -> (r: bool)
    requires
        x <= y <= v@.len(),
    ensures
        r == starts_with(v@.subrange(x as int, y as int), ter_prefix()),
{
    let r = y - x >= 5 && v[x] == '"' && v[x + 1] == 'T' && v[x + 2] == 'E' && v[x + 3] == 'R' && v[x + 4] == ':';
    proof {
        let t = v@.subrange(x as int, y as int);
        if t.len() >= 5 {
            if r {
                assert(t.take(5) =~= ter_prefix());
            }
            if t.take(5) == ter_prefix() {
                assert(t.take(5)[0] == '"' && t.take(5)[1] == 'T' && t.take(5)[2] == 'E' && t.take(5)[3] == 'R' && t.take(5)[4] == ':');
            }
        }
    }
    r
}

/// The symbol that the token `v[x..y]` stands for (see `token_rule`).
fn token_symbol(v: &Vec<char>, x: usize, y: usize) -> (s: Symbol)
    requires
        x < y <= v@.len(),
        token_ok(v@.subrange(x as int, y as int)),
    ensures
        symbol_rule(s) == token_rule(v@.subrange(x as int, y as int)),
{
    let ghost t = v@.subrange(x as int, y as int);
    if has_var_prefix(v, x, y) {
        proof {
            assert(t.subrange(5, t.len() - 1) =~= v@.subrange(x + 5, y - 1));
        }
        Symbol::V(Variable::from_string(string_of(v, x + 5, y - 1)))
    } else if has_ter_prefix(v, x, y) {
        proof {
            assert(t.subrange(5, t.len() - 1) =~= v@.subrange(x + 5, y - 1));
        }
        Symbol::T(Terminal::from_string(string_of(v, x + 5, y - 1)))
    } else {
        proof {
            assert(t[0] == v@[x as int]);
        }
        if char_is_uppercase(v[x]) {
            Symbol::V(Variable::from_string(string_of(v, x, y)))
        } else {
            Symbol::T(Terminal::from_string(string_of(v, x, y)))
        }
    }
}

/// Reads the rule line `v[lo..hi]`, `head -> body | ... | body`, adding
/// one production per body.
fn read_line(v: &Vec<char>, lo: usize, hi: usize, productions: &mut Vec<Production>)
    requires
        lo <= hi <= v@.len(),
        line_ok(v@.subrange(lo as int, hi as int)),
    ensures
        rules_of(final(productions)@) == rules_of(old(productions)@) + line_rules(v@.subrange(lo as int, hi as int)),
{
    let ghost l = v@.subrange(lo as int, hi as int);
    let found = find_arrow_in(v, lo, hi);
    let k = found.unwrap();
    let ghost kk = k - lo;
    proof {
        assert(l.take(kk) =~= v@.subrange(lo as int, k as int));
        assert(l.skip(kk + 2) =~= v@.subrange(k + 2, hi as int));
    }
    let (ha, hb) = trim_bounds(v, lo, k);
    let head = if has_var_prefix(v, ha, hb) {
        proof {
            let h = v@.subrange(ha as int, hb as int);
            assert(h.subrange(5, h.len() - 1) =~= v@.subrange(ha + 5, hb - 1));
        }
        Variable::from_string(string_of(v, ha + 5, hb - 1))
    } else {
        Variable::from_string(string_of(v, ha, hb))
    };
    let ghost pieces_spec = split_on(l.skip(kk + 2), '|');
    let pieces = piece_bounds(v, k + 2, hi, '|');
    let ghost p0 = productions@;
    let mut j: usize = 0;
    while j < pieces.len()
        invariant
            lo <= k && k + 2 <= hi <= v@.len(),
            l == v@.subrange(lo as int, hi as int),
            kk == k - lo,
            find_arrow(l) == Some(kk),
            line_ok(l),
            pieces_spec == split_on(l.skip(kk + 2), '|'),
            l.skip(kk + 2) == v@.subrange(k + 2, hi as int),
            head@ == head_of(trim(l.take(kk))),
            pieces@.len() == pieces_spec.len(),
            forall|i: int| 0 <= i < pieces@.len() ==> k + 2 <= (#[trigger] pieces@[i]).0 <= pieces@[i].1 <= hi
                && v@.subrange(pieces@[i].0 as int, pieces@[i].1 as int) == pieces_spec[i],
            j <= pieces@.len(),
            rules_of(productions@) == rules_of(p0) + line_rules(l).take(j as int),
        decreases pieces@.len() - j,
    {
        let (pa, pb) = pieces[j];
        let ghost ws_spec = words(pieces_spec[j as int]);
        let ws = word_bounds(v, pa, pb);
        proof {
            assert(body_ok(words(pieces_spec[j as int])));
        }
        let mut body: Vec<Symbol> = Vec::new();
        let mut w: usize = 0;
        while w < ws.len()
            invariant
                pa <= pb <= v@.len(),
                v@.subrange(pa as int, pb as int) == pieces_spec[j as int],
                ws_spec == words(pieces_spec[j as int]),
                body_ok(ws_spec),
                ws@.len() == ws_spec.len(),
                forall|i: int| 0 <= i < ws@.len() ==> pa <= (#[trigger] ws@[i]).0 < ws@[i].1 <= pb
                    && v@.subrange(ws@[i].0 as int, ws@[i].1 as int) == ws_spec[i],
                w <= ws@.len(),
                body@.map_values(|s: Symbol| symbol_rule(s)) == body_rule(ws_spec.take(w as int)),
            decreases ws@.len() - w,
        {
            let (x, y) = ws[w];
            let tok = string_of(v, x, y);
            proof {
                assert(ws_spec.take(w + 1).drop_last() =~= ws_spec.take(w as int));
                assert(ws_spec.take(w + 1).last() == ws_spec[w as int]);
            }
            let ghost b0 = body@;
            if !is_epsilon_name(tok.as_str()) {
                proof {
                    assert(!epsilon_names().contains(ws_spec[w as int]));
                    assert(token_ok(ws_spec[w as int]));
                }
                let sym = token_symbol(v, x, y);
                body.push(sym);
                proof {
                    assert(body@.map_values(|s: Symbol| symbol_rule(s)) =~= b0.map_values(|s: Symbol| symbol_rule(s)).push(symbol_rule(sym)));
                }
            }
            w = w + 1;
        }
        proof {
            assert(ws_spec.take(w as int) =~= ws_spec);
        }
        let p = Production::new(head.clone(), body);
        let ghost before = productions@;
        productions.push(p);
        proof {
            assert(rule_of(p) == line_rules(l)[j as int]);
            assert(line_rules(l).take(j + 1) =~= line_rules(l).take(j as int).push(line_rules(l)[j as int]));
            assert(rules_of(productions@) =~= rules_of(before).push(rule_of(p)));
            assert(rules_of(productions@) =~= rules_of(p0) + line_rules(l).take(j + 1));
        }
        j = j + 1;
    }
    proof {
        assert(line_rules(l).take(j as int) =~= line_rules(l));
    }
}

/// The variable names after meeting, in order, the variables of the rule body `body`.
pub open spec fn rule_body_variables(names: Seq<Seq<char>>, body: Seq<(bool, Seq<char>)>) -> Seq<Seq<char>>
    decreases body.len(),
{
    if body.len() == 0 {
        names
    } else {
        let prev = rule_body_variables(names, body.drop_last());
        if body.last().0 {
            with_name(prev, body.last().1)
        } else {
            prev
        }
    }
}

/// The variables of the rules `rs` in the order in which they first occur,
/// the head of each rule before its body.
pub open spec fn rule_variables(rs: Seq<(Seq<char>, Seq<(bool, Seq<char>)>)>) -> Seq<Seq<char>>
    decreases rs.len(),
{
    if rs.len() == 0 {
        Seq::empty()
    } else {
        rule_body_variables(with_name(rule_variables(rs.drop_last()), rs.last().0), rs.last().1)
    }
}

/// The variables of a body are those of its rule.
proof fn lemma_rule_body_variables(names: Seq<Seq<char>>, body: Seq<Symbol>)
    ensures
        body_variables(names, body) == rule_body_variables(names, body.map_values(|s: Symbol| symbol_rule(s))),
    decreases body.len(),
{
    if body.len() > 0 {
        assert(body.map_values(|s: Symbol| symbol_rule(s)).drop_last() =~= body.drop_last().map_values(|s: Symbol| symbol_rule(s)));
        lemma_rule_body_variables(names, body.drop_last());
    }
}

/// The variables of productions are those of their rules.
pub proof fn lemma_rule_variables(ps: Seq<Production>)
    ensures
        production_variables(ps) == rule_variables(rules_of(ps)),
    decreases ps.len(),
{
    if ps.len() > 0 {
        assert(rules_of(ps).drop_last() =~= rules_of(ps.drop_last()));
        lemma_rule_variables(ps.drop_last());
        lemma_rule_body_variables(with_name(production_variables(ps.drop_last()), ps.last().head@), ps.last().body@);
    }
}

impl CFG {
    /// Reads a grammar from text: one rule `head -> body | ... | body` per
    /// line (empty lines passed over). A token of a body that starts with an
    /// upper-case letter is a variable, any other a terminal; `"VAR:name"`
    /// and `"TER:name"` say which it is; the names of epsilon stand for
    /// nothing. The grammar is then built as `from_start_and_productions`
    /// builds it from these rules.
    pub fn from_text(text: &str, start_symbol: Variable) -> (r: CFG)
        requires
            text_ok(text@),
            rule_variables(text_rules(text@)).contains(start_symbol@),
        ensures
            r.wf(),
            r._is_cleaned is None,
            r._in_normal_form is None,
            exists|ps: Seq<Production>| #[trigger] rules_of(ps) == text_rules(text@) && r.g() == productions_grammar(ps)
                && word_of(r.terminals@) == production_terminals(ps) && r.terminal_map@ == name_numbers(production_terminals(ps))
                && r.start_symbol == production_variables(ps).index_of(start_symbol@),
    {
        let v = chars_of(text);
        let n = v.len();
        let lines = piece_bounds(&v, 0, n, '\n');
        let ghost all = text_lines(text@);
        proof {
            assert(v@.subrange(0, n as int) =~= text@);
        }
        let mut productions: Vec<Production> = Vec::new();
        proof {
            assert(all.take(0) =~= Seq::<Seq<char>>::empty());
            assert(rules_of(productions@) =~= Seq::<(Seq<char>, Seq<(bool, Seq<char>)>)>::empty());
        }
        let mut i: usize = 0;
        while i < lines.len()
            invariant
                n == v@.len(),
                v@ == text@,
                all == text_lines(text@),
                text_ok(text@),
                lines@.len() == split_on(text@, '\n').len(),
                forall|k: int| 0 <= k < lines@.len() ==> 0 <= (#[trigger] lines@[k]).0 <= lines@[k].1 <= n
                    && v@.subrange(lines@[k].0 as int, lines@[k].1 as int) == split_on(v@.subrange(0, n as int), '\n')[k],
                v@.subrange(0, n as int) == text@,
                i <= lines@.len(),
                rules_of(productions@) == lines_rules(all.take(i as int)),
            decreases lines@.len() - i,
        {
            let (a, b0) = lines[i];
            let mut b = b0;
            if i + 1 < lines.len() && b > a && v[b - 1] == '\r' {
                b = b - 1;
            }
            proof {
                let piece = split_on(text@, '\n')[i as int];
                assert(v@.subrange(a as int, b0 as int) == piece);
                if b < b0 {
                    assert(v@.subrange(a as int, b as int) =~= piece.drop_last());
                }
                assert(v@.subrange(a as int, b as int) == all[i as int]);
                assert(all.take(i + 1).drop_last() =~= all.take(i as int));
                assert(all.take(i + 1).last() == all[i as int]);
            }
            let (ta, tb) = trim_bounds(&v, a, b);
            if tb > ta {
                proof {
                    assert(trim(all[i as int]).len() > 0);
                    assert(line_ok(trim(all[i as int])));
                }
                read_line(&v, ta, tb, &mut productions);
            }
            i = i + 1;
        }
        proof {
            assert(all.take(i as int) =~= all);
            lemma_rule_variables(productions@);
        }
        let ghost ps = productions@;
        let r = CFG::from_start_and_productions(start_symbol, productions);
        proof {
            assert(rules_of(ps) == text_rules(text@));
        }
        r
    }
}

} // verus!
