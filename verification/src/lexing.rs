//! Lexing a word of bytes into the tokens of a lexer: every token has four
//! automata over bytes, for its whole words, their prefixes, their suffixes
//! and the prefixes of their suffixes. A word may start inside a token
//! (unless it is the first word) and may end inside one; strip characters
//! between tokens are skipped.
use crate::fa::dfa::DFA;
use crate::input_symbol::{bytes_word, InputSymbol};
use vstd::prelude::*;

verus! {

/// The longest of the first `k + 1` prefixes of `w` that the automaton
/// accepts, by its length.
pub open spec fn longest_from(dfa: DFA, w: Seq<Seq<char>>, k: int) -> Option<int>
    decreases k + 1,
{
    if k < 0 {
        None
    } else if dfa.accepts_word(w.take(k)) {
        Some(k)
    } else {
        longest_from(dfa, w, k - 1)
    }
}

/// The length of the longest prefix of the bytes that the automaton
/// accepts, if it accepts one.
pub open spec fn longest_match(dfa: DFA, bytes: Seq<u8>) -> Option<int> {
    longest_from(dfa, bytes_word(bytes), bytes.len() as int)
}

/// A longest accepted prefix, characterized from above, is the one found by
/// the search from the longest prefix down.
proof fn lemma_longest_from(dfa: DFA, w: Seq<Seq<char>>, k: int, r: Option<usize>)
    requires
        -1 <= k <= w.len(),
        forall|m: int| k < m <= w.len() ==> !#[trigger] dfa.accepts_word(w.take(m)),
        r matches Some(j) ==> j <= w.len() && dfa.accepts_word(w.take(j as int))
            && forall|m: int| j < m <= w.len() ==> !#[trigger] dfa.accepts_word(w.take(m)),
        r is None ==> forall|m: int| 0 <= m <= w.len() ==> !#[trigger] dfa.accepts_word(w.take(m)),
    ensures
        longest_from(dfa, w, k) == match r {
            Some(j) => Some(j as int),
            None => None::<int>,
        },
    decreases k + 1,
{
    if k >= 0 {
        if dfa.accepts_word(w.take(k)) {
            if let Some(j) = r {
                if (j as int) < k {
                    assert(!dfa.accepts_word(w.take(k)));
                }
            }
        } else {
            lemma_longest_from(dfa, w, k - 1, r);
        }
    } else {
        if let Some(j) = r {
            assert(dfa.accepts_word(w.take(j as int)));
        }
    }
}

/// `accept_prefix_bytes` of the automaton on `bytes`: the length of the
/// longest accepted prefix.
fn longest_prefix(dfa: &DFA, bytes: &Vec<u8>) -> (r: Option<usize>)
    requires
        dfa.wf(),
    ensures
        longest_match(*dfa, bytes@) == match r {
            Some(j) => Some(j as int),
            None => None::<int>,
        },
        r matches Some(j) ==> j <= bytes@.len(),
{
    let r = dfa.accept_prefix_bytes(bytes.as_slice());
    proof {
        let w = bytes_word(bytes@);
        lemma_longest_from(*dfa, w, w.len() as int, r);
    }
    r
}

/// The first position from `pos` on that holds no strip character (or the
/// end of the word).
pub open spec fn skip_strip(w: Seq<u8>, strip: Seq<u8>, pos: int) -> int
    decreases w.len() - pos,
{
    if 0 <= pos < w.len() && strip.contains(w[pos]) {
        skip_strip(w, strip, pos + 1)
    } else {
        pos
    }
}

/// Skipping strip characters never moves back, nor past the end of the word.
pub proof fn lemma_skip_strip(w: Seq<u8>, strip: Seq<u8>, pos: int)
    ensures
        skip_strip(w, strip, pos) >= pos,
        0 <= pos <= w.len() ==> skip_strip(w, strip, pos) <= w.len(),
    decreases w.len() - pos,
{
    if 0 <= pos < w.len() && strip.contains(w[pos]) {
        lemma_skip_strip(w, strip, pos + 1);
    }
}

/// The tokens of a lexer: each a name with the automata of its words, of
/// their prefixes, of their suffixes and of the prefixes of their suffixes.
pub type Lexer = Seq<(InputSymbol, DFA, DFA, DFA, DFA)>;

/// A lexing by token numbers, with the partial first and last token.
pub type LexingIndices = (Seq<usize>, Option<Seq<u8>>, Option<Seq<u8>>);

/// Whether `x` is a lexing reached from the tokens `toks` read up to `pos`,
/// with the partial first token `first` and last token `last` so far.
pub open spec fn lexes_from(
    w: Seq<u8>,
    lex: Lexer,
    strip: Seq<u8>,
    toks: Seq<usize>,
    pos: int,
    first: Option<Seq<u8>>,
    last: Option<Seq<u8>>,
    x: LexingIndices,
) -> bool
    decreases w.len() - pos, lex.len() + 1,
{
    let p = skip_strip(w, strip, pos);
    if pos < 0 || pos >= w.len() || p >= w.len() {
        x == (toks, first, last)
    } else {
        proof {
            lemma_skip_strip(w, strip, pos);
        }
        lexes_tokens(w, lex, strip, toks, p, first, last, x, 0)
    }
}

/// Whether `x` is a lexing reached by reading, at position `p`, one of the
/// tokens numbered from `t` on: a prefix of it covering the rest of the
/// word, or a non-empty longest word of it.
pub open spec fn lexes_tokens(
    w: Seq<u8>,
    lex: Lexer,
    strip: Seq<u8>,
    toks: Seq<usize>,
    p: int,
    first: Option<Seq<u8>>,
    last: Option<Seq<u8>>,
    x: LexingIndices,
    t: int,
) -> bool
    decreases w.len() - p, lex.len() - t,
{
    if t < 0 || t >= lex.len() || p < 0 || p >= w.len() {
        false
    } else {
        let rest = w.subrange(p, w.len() as int);
        ||| longest_match(lex[t].2, rest) == Some(rest.len() as int)
            && lexes_from(w, lex, strip, toks.push(t as usize), w.len() as int, first, Some(rest), x)
        ||| (match longest_match(lex[t].1, rest) {
            Some(m) => 0 < m <= rest.len() && lexes_from(w, lex, strip, toks.push(t as usize), p + m, first, None, x),
            None => false,
        })
        ||| lexes_tokens(w, lex, strip, toks, p, first, last, x, t + 1)
    }
}

/// Whether `x` is a lexing that starts inside token `t`: the whole word is
/// a prefix of one of its suffixes, or a non-empty longest prefix of the
/// word is one of its suffixes.
pub open spec fn lexes_seeded(w: Seq<u8>, lex: Lexer, strip: Seq<u8>, t: int, x: LexingIndices) -> bool {
    ||| longest_match(lex[t].4, w) == Some(w.len() as int)
        && lexes_from(w, lex, strip, seq![t as usize], w.len() as int, Some(w), Some(w), x)
    ||| (match longest_match(lex[t].3, w) {
        Some(m) => 0 < m <= w.len() && lexes_from(w, lex, strip, seq![t as usize], m, Some(w.subrange(0, m)), None, x),
        None => false,
    })
}

/// Whether `x` is a lexing of the word: from its start, or, where the word
/// is not the first and not empty, from inside a token.
pub open spec fn is_lexing(w: Seq<u8>, lex: Lexer, is_first: bool, strip: Seq<u8>, x: LexingIndices) -> bool {
    ||| lexes_from(w, lex, strip, Seq::empty(), 0, None, None, x)
    ||| !is_first && w.len() > 0 && exists|t: int| 0 <= t < lex.len() && #[trigger] lexes_seeded(w, lex, strip, t, x)
}

/// Skipping strip characters in a word with bytes put in front skips the same
/// characters, shifted.
proof fn lemma_skip_shift(u: Seq<u8>, w: Seq<u8>, strip: Seq<u8>, pos: int)
    requires
        0 <= pos,
    ensures
        skip_strip(u + w, strip, pos + u.len()) == skip_strip(w, strip, pos) + u.len(),
    decreases w.len() - pos,
{
    let v = u + w;
    if pos < w.len() {
        assert(v[pos + u.len()] == w[pos]);
        if strip.contains(w[pos]) {
            lemma_skip_shift(u, w, strip, pos + 1);
        }
    }
}

/// The lexings reached from a position of a word are those reached from the
/// same position, shifted, of the word with bytes put in front.
proof fn lemma_shift_from(
    u: Seq<u8>,
    w: Seq<u8>,
    lex: Lexer,
    strip: Seq<u8>,
    toks: Seq<usize>,
    pos: int,
    first: Option<Seq<u8>>,
    last: Option<Seq<u8>>,
    x: LexingIndices,
)
    requires
        0 <= pos,
    ensures
        lexes_from(u + w, lex, strip, toks, pos + u.len(), first, last, x) == lexes_from(w, lex, strip, toks, pos, first, last, x),
    decreases w.len() - pos, lex.len() + 1,
{
    lemma_skip_shift(u, w, strip, pos);
    lemma_skip_strip(w, strip, pos);
    let p = skip_strip(w, strip, pos);
    if pos < w.len() && p < w.len() {
        lemma_shift_tokens(u, w, lex, strip, toks, p, first, last, x, 0);
    }
}

/// Reading tokens at a position of a word gives the lexings that reading
/// them at the same position, shifted, of the word with bytes put in front gives.
proof fn lemma_shift_tokens(
    u: Seq<u8>,
    w: Seq<u8>,
    lex: Lexer,
    strip: Seq<u8>,
    toks: Seq<usize>,
    p: int,
    first: Option<Seq<u8>>,
    last: Option<Seq<u8>>,
    x: LexingIndices,
    t: int,
)
    requires
        0 <= p < w.len(),
    ensures
        lexes_tokens(u + w, lex, strip, toks, p + u.len(), first, last, x, t) == lexes_tokens(w, lex, strip, toks, p, first, last, x, t),
    decreases w.len() - p, lex.len() - t,
{
    if 0 <= t < lex.len() {
        let v = u + w;
        let rest = w.subrange(p, w.len() as int);
        assert(v.subrange(p + u.len(), v.len() as int) =~= rest);
        lemma_shift_from(u, w, lex, strip, toks.push(t as usize), w.len() as int, first, Some(rest), x);
        match longest_match(lex[t].1, rest) {
            Some(m) => {
                if 0 < m <= rest.len() {
                    lemma_shift_from(u, w, lex, strip, toks.push(t as usize), p + m, first, None, x);
                }
            },
            None => {},
        }
        lemma_shift_tokens(u, w, lex, strip, toks, p, first, last, x, t + 1);
    }
}

/// Strip characters in front of a first word are skipped: with a strip
/// character put in front, the word has the same lexings.
pub proof fn lemma_leading_strip_skipped(w: Seq<u8>, lex: Lexer, strip: Seq<u8>, s: u8, x: LexingIndices)
    requires
        strip.contains(s),
    ensures
        is_lexing(seq![s] + w, lex, true, strip, x) == is_lexing(w, lex, true, strip, x),
{
    let v = seq![s] + w;
    let e = Seq::<usize>::empty();
    assert(v[0] == s);
    assert(skip_strip(v, strip, 0) == skip_strip(v, strip, 1));
    lemma_skip_strip(v, strip, 1);
    lemma_shift_from(seq![s], w, lex, strip, e, 0, None, None, x);
    assert(lexes_from(v, lex, strip, e, 0, None, None, x) == lexes_from(v, lex, strip, e, 1, None, None, x));
}

/// Whether every automaton of the lexer is well formed.
pub open spec fn lexer_ok(lex: Lexer) -> bool {
    forall|i: int| 0 <= i < lex.len() ==> (#[trigger] lex[i]).1.wf() && lex[i].2.wf() && lex[i].3.wf() && lex[i].4.wf()
}

/// A byte string as a mathematical value.
pub open spec fn bytes_view(b: Option<Vec<u8>>) -> Option<Seq<u8>> {
    match b {
        Some(v) => Some(v@),
        None => None,
    }
}

/// A lexing by token numbers as a mathematical value.
pub open spec fn lexing_view(e: (Vec<usize>, Option<Vec<u8>>, Option<Vec<u8>>)) -> LexingIndices {
    (e.0@, bytes_view(e.1), bytes_view(e.2))
}

/// Whether the lexings from position `from` of `out` are those reached as `lexes_from` says.
pub open spec fn found_from(
    out: Seq<(Vec<usize>, Option<Vec<u8>>, Option<Vec<u8>>)>,
    from: int,
    x: LexingIndices,
) -> bool {
    exists|i: int| from <= i < out.len() && #[trigger] lexing_view(out[i]) == x
}

/// The bytes from `from` to `to`, copied.
fn copy_range(w: &Vec<u8>, from: usize, to: usize) -> (r: Vec<u8>)
    requires
        from <= to <= w@.len(),
    ensures
        r@ == w@.subrange(from as int, to as int),
{
    let mut r: Vec<u8> = Vec::new();
    let mut i = from;
    while i < to
        invariant
            from <= i <= to <= w@.len(),
            r@ == w@.subrange(from as int, i as int),
        decreases to - i,
    {
        r.push(w[i]);
        proof {
            assert(w@.subrange(from as int, i + 1) =~= w@.subrange(from as int, i as int).push(w@[i as int]));
        }
        i = i + 1;
    }
    r
}

/// The token numbers with one more appended.
fn tokens_then(toks: &Vec<usize>, t: usize) -> (r: Vec<usize>)
    ensures
        r@ == toks@.push(t),
{
    let mut r: Vec<usize> = Vec::new();
    let mut i: usize = 0;
    while i < toks.len()
        invariant
            i <= toks@.len(),
            r@ == toks@.take(i as int),
        decreases toks@.len() - i,
    {
        r.push(toks[i]);
        proof {
            assert(toks@.take(i + 1) =~= toks@.take(i as int).push(toks@[i as int]));
        }
        i = i + 1;
    }
    proof {
        assert(toks@.take(i as int) =~= toks@);
    }
    r.push(t);
    r
}

/// A byte string, copied.
fn copy_bytes(b: &Option<Vec<u8>>) -> (r: Option<Vec<u8>>)
    ensures
        bytes_view(r) == bytes_view(*b),
{
    match b {
        Some(v) => Some(copy_range(v, 0, v.len())),
        None => None,
    }
}

/// The first position from `pos` on that holds no strip character.
fn skip_strip_at(w: &Vec<u8>, strip: &Vec<u8>, pos: usize) -> (r: usize)
    requires
        pos <= w@.len(),
    ensures
        r as int == skip_strip(w@, strip@, pos as int),
{
    let mut p = pos;
    while p < w.len() && contains_byte(strip, w[p])
        invariant
            pos <= p <= w@.len(),
            skip_strip(w@, strip@, p as int) == skip_strip(w@, strip@, pos as int),
        decreases w@.len() - p,
    {
        p = p + 1;
    }
    p
}

/// Whether `b` is among the bytes `bs`.
fn contains_byte(bs: &Vec<u8>, b: u8) -> (r: bool)
    ensures
        r == bs@.contains(b),
{
    let mut i: usize = 0;
    while i < bs.len()
        invariant
            i <= bs@.len(),
            forall|k: int| 0 <= k < i ==> bs@[k] != b,
        decreases bs@.len() - i,
    {
        if bs[i] == b {
            return true;
        }
        i = i + 1;
    }
    false
}

/// What is found from the tokens numbered `t` on is what is found from 0 on.
proof fn lemma_tokens_down(
    w: Seq<u8>,
    lex: Lexer,
    strip: Seq<u8>,
    toks: Seq<usize>,
    p: int,
    first: Option<Seq<u8>>,
    last: Option<Seq<u8>>,
    x: LexingIndices,
    t: int,
)
    requires
        0 <= t,
        lexes_tokens(w, lex, strip, toks, p, first, last, x, t),
    ensures
        lexes_tokens(w, lex, strip, toks, p, first, last, x, 0),
    decreases t,
{
    if t > 0 {
        assert(lexes_tokens(w, lex, strip, toks, p, first, last, x, t - 1));
        lemma_tokens_down(w, lex, strip, toks, p, first, last, x, t - 1);
    }
}

/// Appends to `out` every lexing reached from the tokens `toks` read up to `pos`.
fn lex_rest(
    w: &Vec<u8>,
    lex_map: &Vec<(InputSymbol, DFA, DFA, DFA, DFA)>,
    strip: &Vec<u8>,
    toks: Vec<usize>,
    pos: usize,
    first: Option<Vec<u8>>,
    last: Option<Vec<u8>>,
    out: &mut Vec<(Vec<usize>, Option<Vec<u8>>, Option<Vec<u8>>)>,
)
    requires
        lexer_ok(lex_map@),
        pos <= w@.len(),
        forall|k: int| 0 <= k < toks@.len() ==> #[trigger] toks@[k] < lex_map@.len(),
    ensures
        final(out)@.len() >= old(out)@.len(),
        forall|i: int, k: int| old(out)@.len() <= i < final(out)@.len() && 0 <= k < final(out)@[i].0@.len()
            ==> #[trigger] final(out)@[i].0@[k] < lex_map@.len(),
        forall|i: int| 0 <= i < old(out)@.len() ==> #[trigger] final(out)@[i] == old(out)@[i],
        forall|i: int| old(out)@.len() <= i < final(out)@.len()
            ==> lexes_from(w@, lex_map@, strip@, toks@, pos as int, bytes_view(first), bytes_view(last), #[trigger] lexing_view(final(out)@[i])),
        forall|x: LexingIndices| lexes_from(w@, lex_map@, strip@, toks@, pos as int, bytes_view(first), bytes_view(last), x)
            ==> #[trigger] found_from(final(out)@, old(out)@.len() as int, x),
    decreases w@.len() - pos,
{
    let ghost out0 = out@;
    let ghost ws = w@;
    let ghost lex = lex_map@;
    let ghost tk = toks@;
    let ghost fv = bytes_view(first);
    let ghost lv = bytes_view(last);
    let p = skip_strip_at(w, strip, pos);
    proof {
        lemma_skip_strip(ws, strip@, pos as int);
    }
    if pos >= w.len() || p >= w.len() {
        out.push((toks, first, last));
        proof {
            let i = out0.len() as int;
            assert(out@[i] == (toks, first, last));
            assert forall|x: LexingIndices| lexes_from(ws, lex, strip@, tk, pos as int, fv, lv, x)
                implies #[trigger] found_from(out@, out0.len() as int, x) by {
                assert(lexing_view(out@[i]) == x);
            }
        }
        return;
    }
    let rest = copy_range(w, p, w.len());
    let mut t: usize = 0;
    while t < lex_map.len()
        invariant
            lexer_ok(lex_map@),
            lex == lex_map@,
            ws == w@,
            tk == toks@,
            fv == bytes_view(first),
            lv == bytes_view(last),
            pos <= p < w@.len(),
            p as int == skip_strip(ws, strip@, pos as int),
            rest@ == ws.subrange(p as int, ws.len() as int),
            t <= lex.len(),
            out@.len() >= out0.len(),
            forall|k: int| 0 <= k < tk.len() ==> #[trigger] tk[k] < lex.len(),
            forall|i: int, k: int| out0.len() <= i < out@.len() && 0 <= k < out@[i].0@.len() ==> #[trigger] out@[i].0@[k] < lex.len(),
            forall|i: int| 0 <= i < out0.len() ==> #[trigger] out@[i] == out0[i],
            forall|i: int| out0.len() <= i < out@.len()
                ==> lexes_tokens(ws, lex, strip@, tk, p as int, fv, lv, #[trigger] lexing_view(out@[i]), 0),
            forall|x: LexingIndices| lexes_tokens(ws, lex, strip@, tk, p as int, fv, lv, x, 0)
                ==> lexes_tokens(ws, lex, strip@, tk, p as int, fv, lv, x, t as int) || #[trigger] found_from(out@, out0.len() as int, x),
        decreases lex_map@.len() - t,
    {
        let ghost out1 = out@;
        let ghost ti = t as int;
        let ghost nt_v = tk.push(t);
        let partial = longest_prefix(&lex_map[t].2, &rest);
        if partial == Some(rest.len()) {
            let nt = tokens_then(&toks, t);
            lex_rest(w, lex_map, strip, nt, w.len(), copy_bytes(&first), Some(copy_range(w, p, w.len())), out);
            proof {
                assert forall|i: int| out1.len() <= i < out@.len()
                    implies lexes_tokens(ws, lex, strip@, tk, p as int, fv, lv, #[trigger] lexing_view(out@[i]), 0) by {
                    assert(lexes_tokens(ws, lex, strip@, tk, p as int, fv, lv, lexing_view(out@[i]), ti));
                    lemma_tokens_down(ws, lex, strip@, tk, p as int, fv, lv, lexing_view(out@[i]), ti);
                }
                assert forall|x: LexingIndices| lexes_from(ws, lex, strip@, nt_v, ws.len() as int, fv, Some(rest@), x)
                    implies #[trigger] found_from(out@, out0.len() as int, x) by {
                    assert(found_from(out@, out1.len() as int, x));
                    let i = choose|i: int| out1.len() <= i < out@.len() && #[trigger] lexing_view(out@[i]) == x;
                }
            }
        }
        proof {
            assert forall|x: LexingIndices|
                longest_match(lex[ti].2, rest@) == Some(rest@.len() as int) && lexes_from(ws, lex, strip@, nt_v, ws.len() as int, fv, Some(rest@), x)
                implies #[trigger] found_from(out@, out0.len() as int, x) by {
            }
            assert forall|x: LexingIndices| #[trigger] found_from(out1, out0.len() as int, x) implies found_from(out@, out0.len() as int, x) by {
                let i = choose|i: int| out0.len() <= i < out1.len() && #[trigger] lexing_view(out1[i]) == x;
                assert(out@[i] == out1[i]);
            }
        }
        let ghost out2 = out@;
        let full = longest_prefix(&lex_map[t].1, &rest);
        match full {
            Some(m) => {
                if m > 0 {
                    let nt = tokens_then(&toks, t);
                    let wl = w.len();
                    assert(p + m <= wl);
                    lex_rest(w, lex_map, strip, nt, p + m, copy_bytes(&first), None, out);
                    proof {
                        assert forall|i: int| out2.len() <= i < out@.len()
                            implies lexes_tokens(ws, lex, strip@, tk, p as int, fv, lv, #[trigger] lexing_view(out@[i]), 0) by {
                            assert(lexes_tokens(ws, lex, strip@, tk, p as int, fv, lv, lexing_view(out@[i]), ti));
                            lemma_tokens_down(ws, lex, strip@, tk, p as int, fv, lv, lexing_view(out@[i]), ti);
                        }
                        assert forall|x: LexingIndices| lexes_from(ws, lex, strip@, nt_v, p + m, fv, None, x)
                            implies #[trigger] found_from(out@, out0.len() as int, x) by {
                            assert(found_from(out@, out2.len() as int, x));
                            let i = choose|i: int| out2.len() <= i < out@.len() && #[trigger] lexing_view(out@[i]) == x;
                        }
                    }
                }
            },
            None => {},
        }
        proof {
            assert forall|x: LexingIndices| #[trigger] found_from(out2, out0.len() as int, x) implies found_from(out@, out0.len() as int, x) by {
                let i = choose|i: int| out0.len() <= i < out2.len() && #[trigger] lexing_view(out2[i]) == x;
                assert(out@[i] == out2[i]);
            }
            assert forall|x: LexingIndices|
                (match longest_match(lex[ti].1, rest@) {
                    Some(m) => 0 < m <= rest@.len() && lexes_from(ws, lex, strip@, nt_v, p + m, fv, None, x),
                    None => false,
                })
                implies #[trigger] found_from(out@, out0.len() as int, x) by {
            }
            assert forall|x: LexingIndices| lexes_tokens(ws, lex, strip@, tk, p as int, fv, lv, x, 0)
                implies lexes_tokens(ws, lex, strip@, tk, p as int, fv, lv, x, ti + 1) || #[trigger] found_from(out@, out0.len() as int, x) by {
                if !lexes_tokens(ws, lex, strip@, tk, p as int, fv, lv, x, ti + 1) && !found_from(out1, out0.len() as int, x) {
                    assert(lexes_tokens(ws, lex, strip@, tk, p as int, fv, lv, x, ti));
                    if longest_match(lex[ti].2, rest@) == Some(rest@.len() as int) && lexes_from(ws, lex, strip@, nt_v, ws.len() as int, fv, Some(rest@), x) {
                        assert(found_from(out2, out0.len() as int, x));
                    }
                }
                if found_from(out1, out0.len() as int, x) {
                    assert(found_from(out2, out0.len() as int, x));
                }
            }
            assert forall|i: int| 0 <= i < out0.len() implies #[trigger] out@[i] == out0[i] by {
                assert(out@[i] == out2[i]);
                assert(out2[i] == out1[i]);
            }
            assert forall|i: int, k: int| out0.len() <= i < out@.len() && 0 <= k < out@[i].0@.len() implies #[trigger] out@[i].0@[k] < lex.len() by {
                if i < out2.len() {
                    assert(out@[i] == out2[i]);
                    if i < out1.len() {
                        assert(out2[i] == out1[i]);
                    }
                }
            }
            assert forall|i: int| out0.len() <= i < out@.len()
                implies lexes_tokens(ws, lex, strip@, tk, p as int, fv, lv, #[trigger] lexing_view(out@[i]), 0) by {
                if i < out2.len() {
                    assert(out@[i] == out2[i]);
                    if i >= out1.len() {
                    } else {
                        assert(out2[i] == out1[i]);
                    }
                }
            }
        }
        t = t + 1;
    }
    proof {
        assert forall|i: int| out0.len() <= i < out@.len()
            implies lexes_from(ws, lex, strip@, tk, pos as int, fv, lv, #[trigger] lexing_view(out@[i])) by {
            assert(lexes_tokens(ws, lex, strip@, tk, p as int, fv, lv, lexing_view(out@[i]), 0));
        }
        assert forall|x: LexingIndices| lexes_from(ws, lex, strip@, tk, pos as int, fv, lv, x)
            implies #[trigger] found_from(out@, out0.len() as int, x) by {
            assert(lexes_tokens(ws, lex, strip@, tk, p as int, fv, lv, x, 0));
            assert(!lexes_tokens(ws, lex, strip@, tk, p as int, fv, lv, x, lex.len() as int));
        }
    }
}

/// Appends to `out` every lexing that starts inside token `t`.
fn lex_seed(
    w: &Vec<u8>,
    lex_map: &Vec<(InputSymbol, DFA, DFA, DFA, DFA)>,
    strip: &Vec<u8>,
    t: usize,
    out: &mut Vec<(Vec<usize>, Option<Vec<u8>>, Option<Vec<u8>>)>,
)
    requires
        lexer_ok(lex_map@),
        t < lex_map@.len(),
    ensures
        final(out)@.len() >= old(out)@.len(),
        forall|i: int| 0 <= i < old(out)@.len() ==> #[trigger] final(out)@[i] == old(out)@[i],
        forall|i: int| old(out)@.len() <= i < final(out)@.len()
            ==> lexes_seeded(w@, lex_map@, strip@, t as int, #[trigger] lexing_view(final(out)@[i])),
        forall|i: int, k: int| old(out)@.len() <= i < final(out)@.len() && 0 <= k < final(out)@[i].0@.len()
            ==> #[trigger] final(out)@[i].0@[k] < lex_map@.len(),
        forall|x: LexingIndices| lexes_seeded(w@, lex_map@, strip@, t as int, x) ==> #[trigger] found_from(final(out)@, old(out)@.len() as int, x),
{
    let ghost out0 = out@;
    let ghost ws = w@;
    let ghost lex = lex_map@;
    let ghost ti = t as int;
    let mut one: Vec<usize> = Vec::new();
    one.push(t);
    let ghost one_v = one@;
    assert(one_v == seq![t]);
    let partial = longest_prefix(&lex_map[t].4, w);
    if partial == Some(w.len()) {
        lex_rest(w, lex_map, strip, one, w.len(), Some(copy_range(w, 0, w.len())), Some(copy_range(w, 0, w.len())), out);
        proof {
            assert(ws.subrange(0, ws.len() as int) =~= ws);
        }
    }
    proof {
        assert(ws.subrange(0, ws.len() as int) =~= ws);
        assert forall|x: LexingIndices|
            longest_match(lex[ti].4, ws) == Some(ws.len() as int) && lexes_from(ws, lex, strip@, seq![t], ws.len() as int, Some(ws), Some(ws), x)
            implies #[trigger] found_from(out@, out0.len() as int, x) by {
            assert(found_from(out@, out0.len() as int, x));
        }
    }
    let ghost out1 = out@;
    let full = longest_prefix(&lex_map[t].3, w);
    match full {
        Some(m) => {
            if m > 0 {
                let mut one2: Vec<usize> = Vec::new();
                one2.push(t);
                assert(one2@ == seq![t]);
                lex_rest(w, lex_map, strip, one2, m, Some(copy_range(w, 0, m)), None, out);
            }
        },
        None => {},
    }
    proof {
        assert forall|x: LexingIndices| #[trigger] found_from(out1, out0.len() as int, x) implies found_from(out@, out0.len() as int, x) by {
            let i = choose|i: int| out0.len() <= i < out1.len() && #[trigger] lexing_view(out1[i]) == x;
            assert(out@[i] == out1[i]);
        }
        assert forall|x: LexingIndices|
            (match longest_match(lex[ti].3, ws) {
                Some(m) => 0 < m <= ws.len() && lexes_from(ws, lex, strip@, seq![t], m, Some(ws.subrange(0, m)), None, x),
                None => false,
            })
            implies #[trigger] found_from(out@, out0.len() as int, x) by {
            assert(found_from(out@, out1.len() as int, x));
            let i = choose|i: int| out1.len() <= i < out@.len() && #[trigger] lexing_view(out@[i]) == x;
        }
        assert forall|x: LexingIndices| lexes_seeded(ws, lex, strip@, ti, x) implies #[trigger] found_from(out@, out0.len() as int, x) by {
            if longest_match(lex[ti].4, ws) == Some(ws.len() as int) && lexes_from(ws, lex, strip@, seq![t], ws.len() as int, Some(ws), Some(ws), x) {
                assert(found_from(out1, out0.len() as int, x));
            }
        }
        assert forall|i: int| 0 <= i < out0.len() implies #[trigger] out@[i] == out0[i] by {
            assert(out@[i] == out1[i]);
        }
        assert forall|i: int| out0.len() <= i < out@.len()
            implies lexes_seeded(ws, lex, strip@, ti, #[trigger] lexing_view(out@[i])) by {
            if i < out1.len() {
                assert(out@[i] == out1[i]);
            }
        }
        assert forall|i: int, k: int| out0.len() <= i < out@.len() && 0 <= k < out@[i].0@.len() implies #[trigger] out@[i].0@[k] < lex.len() by {
            if i < out1.len() {
                assert(out@[i] == out1[i]);
            }
        }
    }
}

/// Whether `x` is a lexing that starts inside a token numbered below `t`.
pub open spec fn seeded_below(w: Seq<u8>, lex: Lexer, strip: Seq<u8>, t: int, x: LexingIndices) -> bool {
    exists|t2: int| 0 <= t2 < t && #[trigger] lexes_seeded(w, lex, strip, t2, x)
}

/// Whether `e` names some lexing of the word `w`.
pub open spec fn names_some_lexing(
    e: (Vec<InputSymbol>, Option<Vec<u8>>, Option<Vec<u8>>),
    w: Seq<u8>,
    lex: Lexer,
    is_first: bool,
    strip: Seq<u8>,
) -> bool {
    exists|x: LexingIndices| is_lexing(w, lex, is_first, strip, x) && #[trigger] names_lexing(e, lex, x)
}

/// Whether `e` names, token by token, the lexing `x` by token numbers.
pub open spec fn names_lexing(e: (Vec<InputSymbol>, Option<Vec<u8>>, Option<Vec<u8>>), lex: Lexer, x: LexingIndices) -> bool {
    &&& e.0@.len() == x.0.len()
    &&& forall|k: int| 0 <= k < x.0.len() ==> x.0[k] < lex.len() && #[trigger] e.0@[k] == lex[x.0[k] as int].0
    &&& bytes_view(e.1) == x.1
    &&& bytes_view(e.2) == x.2
}

/// The lexings of the word `word`: the ways to read it as a sequence of
/// tokens of the lexer, each token a longest match of the rest of the word
/// or, as the last one, a prefix of a token covering the rest; strip
/// characters between tokens are skipped. Unless the word is the first, it
/// may also start inside a token (the whole word a prefix of a suffix of it,
/// or a longest non-empty prefix of the word a suffix of it). Each lexing
/// comes with the bytes of its partial first and last token, where there are
/// such. Each lexing is listed at least once.
pub fn lex(
    word: &[u8],
    lex_map: &Vec<(InputSymbol, DFA, DFA, DFA, DFA)>,
    is_first: bool,
    strip_chars: &Vec<u8>,
) -> (r: Vec<(Vec<InputSymbol>, Option<Vec<u8>>, Option<Vec<u8>>)>)
    requires
        lexer_ok(lex_map@),
    ensures
        forall|i: int| 0 <= i < r@.len() ==> #[trigger] names_some_lexing(r@[i], word@, lex_map@, is_first, strip_chars@),
        forall|x: LexingIndices| #[trigger] is_lexing(word@, lex_map@, is_first, strip_chars@, x)
            ==> exists|i: int| 0 <= i < r@.len() && #[trigger] names_lexing(r@[i], lex_map@, x),
{
    let mut w: Vec<u8> = Vec::new();
    let mut i: usize = 0;
    while i < word.len()
        invariant
            i <= word@.len(),
            w@ == word@.take(i as int),
        decreases word@.len() - i,
    {
        w.push(word[i]);
        proof {
            assert(word@.take(i + 1) =~= word@.take(i as int).push(word@[i as int]));
        }
        i = i + 1;
    }
    proof {
        assert(word@.take(i as int) =~= word@);
    }
    let ghost ws = w@;
    let ghost lex = lex_map@;
    let ghost strip = strip_chars@;
    let mut out: Vec<(Vec<usize>, Option<Vec<u8>>, Option<Vec<u8>>)> = Vec::new();
    let none: Vec<usize> = Vec::new();
    lex_rest(&w, lex_map, strip_chars, none, 0, None, None, &mut out);
    proof {
        assert(none@ =~= Seq::<usize>::empty());
    }
    let ghost n0 = out@.len();
    if !is_first && w.len() > 0 {
        let mut t: usize = 0;
        while t < lex_map.len()
            invariant
                lexer_ok(lex_map@),
                lex == lex_map@,
                ws == w@,
                strip == strip_chars@,
                ws == word@,
                !is_first && ws.len() > 0,
                t <= lex.len(),
                out@.len() >= n0,
                forall|i: int| 0 <= i < n0 ==> lexes_from(ws, lex, strip, Seq::empty(), 0, None, None, #[trigger] lexing_view(out@[i])),
                forall|i: int| n0 <= i < out@.len() ==> #[trigger] seeded_below(ws, lex, strip, t as int, lexing_view(out@[i])),
                forall|i: int, k: int| 0 <= i < out@.len() && 0 <= k < out@[i].0@.len() ==> #[trigger] out@[i].0@[k] < lex.len(),
                forall|x: LexingIndices| lexes_from(ws, lex, strip, Seq::empty(), 0, None, None, x) ==> #[trigger] found_from(out@, 0, x),
                forall|x: LexingIndices, t2: int| 0 <= t2 < t && #[trigger] lexes_seeded(ws, lex, strip, t2, x) ==> found_from(out@, 0, x),
            decreases lex_map@.len() - t,
        {
            let ghost out1 = out@;
            lex_seed(&w, lex_map, strip_chars, t, &mut out);
            proof {
                assert forall|x: LexingIndices| #[trigger] found_from(out1, 0, x) implies found_from(out@, 0, x) by {
                    let i = choose|i: int| 0 <= i < out1.len() && #[trigger] lexing_view(out1[i]) == x;
                    assert(out@[i] == out1[i]);
                }
                assert forall|x: LexingIndices, t2: int| 0 <= t2 < t + 1 && #[trigger] lexes_seeded(ws, lex, strip, t2, x) implies found_from(out@, 0, x) by {
                    if t2 < t {
                        assert(found_from(out1, 0, x));
                    } else {
                        assert(found_from(out@, out1.len() as int, x));
                        let i = choose|i: int| out1.len() <= i < out@.len() && #[trigger] lexing_view(out@[i]) == x;
                    }
                }
                assert forall|i: int| n0 <= i < out@.len() implies #[trigger] seeded_below(ws, lex, strip, t + 1, lexing_view(out@[i])) by {
                    if i < out1.len() {
                        assert(out@[i] == out1[i]);
                        assert(seeded_below(ws, lex, strip, t as int, lexing_view(out1[i])));
                        let t2 = choose|t2: int| 0 <= t2 < t && #[trigger] lexes_seeded(ws, lex, strip, t2, lexing_view(out1[i]));
                        assert(lexes_seeded(ws, lex, strip, t2, lexing_view(out@[i])));
                    } else {
                        assert(lexes_seeded(ws, lex, strip, t as int, lexing_view(out@[i])));
                    }
                }
                assert forall|x: LexingIndices| lexes_from(ws, lex, strip, Seq::empty(), 0, None, None, x) implies #[trigger] found_from(out@, 0, x) by {
                    assert(found_from(out1, 0, x));
                }
                assert forall|i: int| 0 <= i < n0 implies lexes_from(ws, lex, strip, Seq::empty(), 0, None, None, #[trigger] lexing_view(out@[i])) by {
                    assert(out@[i] == out1[i]);
                }
                assert forall|i: int, k: int| 0 <= i < out@.len() && 0 <= k < out@[i].0@.len() implies #[trigger] out@[i].0@[k] < lex.len() by {
                    if i < out1.len() {
                        assert(out@[i] == out1[i]);
                    }
                }
            }
            t = t + 1;
        }
    }
    // name the tokens
    let mut r: Vec<(Vec<InputSymbol>, Option<Vec<u8>>, Option<Vec<u8>>)> = Vec::new();
    let mut j: usize = 0;
    while j < out.len()
        invariant
            j <= out@.len(),
            r@.len() == j,
            lex == lex_map@,
            forall|i: int, k: int| 0 <= i < out@.len() && 0 <= k < out@[i].0@.len() ==> #[trigger] out@[i].0@[k] < lex.len(),
            forall|i: int| 0 <= i < j ==> #[trigger] names_lexing(r@[i], lex, lexing_view(out@[i])),
        decreases out@.len() - j,
    {
        let toks = &out[j].0;
        let mut names: Vec<InputSymbol> = Vec::new();
        let mut k: usize = 0;
        while k < toks.len()
            invariant
                k <= toks@.len(),
                names@.len() == k,
                toks == out@[j as int].0,
                j < out@.len(),
                lex == lex_map@,
                forall|i: int, k2: int| 0 <= i < out@.len() && 0 <= k2 < out@[i].0@.len() ==> #[trigger] out@[i].0@[k2] < lex.len(),
                forall|k2: int| 0 <= k2 < k ==> #[trigger] names@[k2] == lex[toks@[k2] as int].0,
            decreases toks@.len() - k,
        {
            assert(out@[j as int].0@[k as int] < lex.len());
            names.push(lex_map[toks[k]].0.clone());
            k = k + 1;
        }
        r.push((names, copy_bytes(&out[j].1), copy_bytes(&out[j].2)));
        proof {
            assert(names_lexing(r@[j as int], lex, lexing_view(out@[j as int])));
        }
        j = j + 1;
    }
    proof {
        assert forall|i: int| 0 <= i < r@.len() implies #[trigger] names_some_lexing(r@[i], word@, lex_map@, is_first, strip_chars@) by {
            let x = lexing_view(out@[i]);
            assert(names_lexing(r@[i], lex, x));
            if i >= n0 {
                assert(seeded_below(ws, lex, strip, lex.len() as int, lexing_view(out@[i])));
                let t2 = choose|t2: int| 0 <= t2 < lex.len() && #[trigger] lexes_seeded(ws, lex, strip, t2, lexing_view(out@[i]));
                assert(lexes_seeded(ws, lex, strip, t2, x));
            } else {
                assert(lexes_from(ws, lex, strip, Seq::empty(), 0, None, None, x));
            }
            assert(is_lexing(word@, lex_map@, is_first, strip_chars@, x));
            assert(names_lexing(r@[i], lex_map@, x));
        }
        assert forall|x: LexingIndices| #[trigger] is_lexing(word@, lex_map@, is_first, strip_chars@, x)
            implies exists|i: int| 0 <= i < r@.len() && #[trigger] names_lexing(r@[i], lex_map@, x) by {
            if lexes_from(ws, lex, strip, Seq::empty(), 0, None, None, x) {
                assert(found_from(out@, 0, x));
            } else {
                let t2 = choose|t2: int| 0 <= t2 < lex.len() && #[trigger] lexes_seeded(ws, lex, strip, t2, x);
                assert(found_from(out@, 0, x));
            }
            let i = choose|i: int| 0 <= i < out@.len() && #[trigger] lexing_view(out@[i]) == x;
            assert(names_lexing(r@[i], lex, lexing_view(out@[i])));
        }
    }
    r
}

} // verus!
