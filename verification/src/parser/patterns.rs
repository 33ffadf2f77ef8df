//! Tokenizing a statement, and matching token streams against the fixed
//! statement patterns of the command grammar.

use vstd::prelude::*;

use crate::text::{chars_to_string, is_kw};

verus! {

/// The kind of one lexeme.
#[derive(Debug, Clone, Copy, PartialEq, Eq, Structural)]
pub enum TokKind {
    Word,
    Quoted,
    Op,
    LParen,
    RParen,
    Comma,
    Star,
    Semi,
}

/// One lexeme: its kind and its raw text (quotes included for `Quoted`).
#[derive(Debug)]
pub struct Tok {
    pub kind: TokKind,
    pub text: Vec<char>,
}

impl View for Tok {
    type V = (TokKind, Seq<char>);

    open spec fn view(&self) -> (TokKind, Seq<char>) {
        (self.kind, self.text@)
    }
}

/// The deep view of a token vector.
pub open spec fn toks_view(v: Seq<Tok>) -> Seq<(TokKind, Seq<char>)> {
    Seq::new(v.len(), |i: int| v[i]@)
}

pub open spec fn is_space(c: char) -> bool {
    c == ' ' || c == '\t' || c == '\n' || c == '\r'
}

pub open spec fn is_digit(c: char) -> bool {
    '0' <= c && c <= '9'
}

/// Identifier characters: ASCII letters, digits, and the underscore.
pub open spec fn is_word_char(c: char) -> bool {
    is_digit(c) || ('a' <= c && c <= 'z') || ('A' <= c && c <= 'Z') || c == '_'
}

/// Length of the identifier prefix of `s`.
pub open spec fn word_len(s: Seq<char>) -> nat
    decreases s.len(),
{
    if s.len() == 0 || !is_word_char(s[0]) {
        0
    } else {
        1 + word_len(s.drop_first())
    }
}

proof fn lemma_word_len_bound(s: Seq<char>)
    ensures
        word_len(s) <= s.len(),
    decreases s.len(),
{
    if s.len() > 0 && is_word_char(s[0]) {
        lemma_word_len_bound(s.drop_first());
    }
}

/// Index of the closing quote `q` in `s`, or -1 if there is none.
pub open spec fn close_quote(s: Seq<char>, q: char) -> int
    decreases s.len(),
{
    if s.len() == 0 {
        -1
    } else if s[0] == q {
        0
    } else {
        let r = close_quote(s.drop_first(), q);
        if r == -1 {
            -1
        } else {
            r + 1
        }
    }
}

proof fn lemma_close_quote_bound(s: Seq<char>, q: char)
    ensures
        close_quote(s, q) == -1 || (0 <= close_quote(s, q) < s.len()),
    decreases s.len(),
{
    if s.len() > 0 && s[0] != q {
        lemma_close_quote_bound(s.drop_first(), q);
    }
}

/// Prepends a token to a tokenization outcome; failure passes through.
pub open spec fn cons_tok(
    t: (TokKind, Seq<char>),
    rest: Option<Seq<(TokKind, Seq<char>)>>,
) -> Option<Seq<(TokKind, Seq<char>)>> {
    match rest {
        Some(ts) => Some(seq![t] + ts),
        None => None,
    }
}

/// The lexemes of a statement: words, quoted text, comparison operators,
/// and the punctuation the grammar knows.  Any other character makes the
/// statement unreadable.
pub open spec fn spec_tokenize(s: Seq<char>) -> Option<Seq<(TokKind, Seq<char>)>>
    decreases s.len(),
    via spec_tokenize_dec
{
    if s.len() == 0 {
        Some(Seq::empty())
    } else {
        let c = s[0];
        if is_space(c) {
            spec_tokenize(s.drop_first())
        } else if is_word_char(c) {
            let n = word_len(s) as int;
            cons_tok((TokKind::Word, s.take(n)), spec_tokenize(s.skip(n)))
        } else if c == '\'' || c == '"' {
            let r = close_quote(s.drop_first(), c);
            if r == -1 {
                None
            } else {
                cons_tok((TokKind::Quoted, s.take(r + 2)), spec_tokenize(s.skip(r + 2)))
            }
        } else if c == '(' {
            cons_tok((TokKind::LParen, s.take(1)), spec_tokenize(s.drop_first()))
        } else if c == ')' {
            cons_tok((TokKind::RParen, s.take(1)), spec_tokenize(s.drop_first()))
        } else if c == ',' {
            cons_tok((TokKind::Comma, s.take(1)), spec_tokenize(s.drop_first()))
        } else if c == '*' {
            cons_tok((TokKind::Star, s.take(1)), spec_tokenize(s.drop_first()))
        } else if c == ';' {
            cons_tok((TokKind::Semi, s.take(1)), spec_tokenize(s.drop_first()))
        } else if c == '=' {
            cons_tok((TokKind::Op, s.take(1)), spec_tokenize(s.drop_first()))
        } else if c == '<' {
            if s.len() >= 2 && (s[1] == '=' || s[1] == '>') {
                cons_tok((TokKind::Op, s.take(2)), spec_tokenize(s.skip(2)))
            } else {
                cons_tok((TokKind::Op, s.take(1)), spec_tokenize(s.drop_first()))
            }
        } else if c == '>' {
            if s.len() >= 2 && s[1] == '=' {
                cons_tok((TokKind::Op, s.take(2)), spec_tokenize(s.skip(2)))
            } else {
                cons_tok((TokKind::Op, s.take(1)), spec_tokenize(s.drop_first()))
            }
        } else if c == '!' {
            if s.len() >= 2 && s[1] == '=' {
                cons_tok((TokKind::Op, s.take(2)), spec_tokenize(s.skip(2)))
            } else {
                None
            }
        } else {
            None
        }
    }
}

#[via_fn]
proof fn spec_tokenize_dec(s: Seq<char>) {
    if s.len() > 0 {
        if is_word_char(s[0]) {
            lemma_word_len_bound(s);
            assert(word_len(s) == 1 + word_len(s.drop_first()));
        }
        let c = s[0];
        if c == '\'' || c == '"' {
            lemma_close_quote_bound(s.drop_first(), c);
        }
    }
}

fn is_word_char_exec(c: char) -> (r: bool)
    ensures
        r == is_word_char(c),
{
    ('0' <= c && c <= '9') || ('a' <= c && c <= 'z') || ('A' <= c && c <= 'Z') || c == '_'
}

/// The end of the identifier that starts at `start`.
fn scan_word(cs: &Vec<char>, start: usize) -> (j: usize)
    requires
        start <= cs@.len(),
    ensures
        start <= j <= cs@.len(),
        word_len(cs@.skip(start as int)) == j - start,
    decreases cs@.len() - start,
{
    proof {
        if start < cs@.len() {
            assert(cs@.skip(start as int)[0] == cs@[start as int]);
            assert(cs@.skip(start as int).drop_first() =~= cs@.skip(start + 1));
        } else {
            assert(cs@.skip(start as int) =~= Seq::<char>::empty());
        }
    }
    if start < cs.len() && is_word_char_exec(cs[start]) {
        scan_word(cs, start + 1)
    } else {
        start
    }
}

/// The position of the closing quote `q` at or after `start`, if any.
fn scan_quote(cs: &Vec<char>, start: usize, q: char) -> (r: Option<usize>)
    requires
        start <= cs@.len(),
    ensures
        match r {
            Some(j) => start <= j < cs@.len() && close_quote(cs@.skip(start as int), q) == j
                - start,
            None => close_quote(cs@.skip(start as int), q) == -1,
        },
    decreases cs@.len() - start,
{
    proof {
        if start < cs@.len() {
            assert(cs@.skip(start as int)[0] == cs@[start as int]);
            assert(cs@.skip(start as int).drop_first() =~= cs@.skip(start + 1));
        } else {
            assert(cs@.skip(start as int) =~= Seq::<char>::empty());
        }
    }
    if start == cs.len() {
        None
    } else if cs[start] == q {
        Some(start)
    } else {
        match scan_quote(cs, start + 1, q) {
            Some(j) => Some(j),
            None => None,
        }
    }
}

/// A copy of the characters in positions `a` to `b`.
fn copy_range(cs: &Vec<char>, a: usize, b: usize) -> (v: Vec<char>)
    requires
        a <= b <= cs@.len(),
    ensures
        v@ == cs@.subrange(a as int, b as int),
{
    let mut v: Vec<char> = Vec::new();
    let mut i: usize = a;
    while i < b
        invariant
            a <= i <= b <= cs@.len(),
            v@ == cs@.subrange(a as int, i as int),
        decreases b - i,
    {
        v.push(cs[i]);
        proof {
            assert(cs@.subrange(a as int, i + 1) =~= cs@.subrange(a as int, i as int).push(
                cs@[i as int],
            ));
        }
        i = i + 1;
    }
    v
}

/// Splits the statement into lexemes; nothing if some character cannot
/// start one.
pub fn tokenize(cs: &Vec<char>) -> (r: Option<Vec<Tok>>)
    ensures
        match r {
            Some(ts) => spec_tokenize(cs@) == Some(toks_view(ts@)),
            None => spec_tokenize(cs@) is None,
        },
{
    let n = cs.len();
    let mut out: Vec<Tok> = Vec::new();
    let mut i: usize = 0;
    proof {
        assert(cs@.skip(0) =~= cs@);
        assert(toks_view(out@) =~= Seq::<(TokKind, Seq<char>)>::empty());
    }
    while i < n
        invariant
            i <= n,
            n == cs@.len(),
            forall|ts: Seq<(TokKind, Seq<char>)>|
                spec_tokenize(cs@.skip(i as int)) == Some(ts) ==> spec_tokenize(cs@) == Some(
                    toks_view(out@) + ts,
                ),
            spec_tokenize(cs@.skip(i as int)) is None ==> spec_tokenize(cs@) is None,
        decreases n - i,
    {
        let ghost rem = cs@.skip(i as int);
        let ghost done = toks_view(out@);
        proof {
            assert(rem[0] == cs@[i as int]);
            assert(rem.drop_first() =~= cs@.skip(i + 1));
        }
        let c = cs[i];
        if c == ' ' || c == '\t' || c == '\n' || c == '\r' {
            proof {
                assert(spec_tokenize(rem) == spec_tokenize(cs@.skip(i + 1)));
            }
            i = i + 1;
        } else if is_word_char_exec(c) {
            let j = scan_word(cs, i);
            proof {
                assert(word_len(rem) == j - i);
                assert(rem.take(j - i) =~= cs@.subrange(i as int, j as int));
                assert(rem.skip(j - i) =~= cs@.skip(j as int));
            }
            let text = copy_range(cs, i, j);
            out.push(Tok { kind: TokKind::Word, text });
            proof {
                assert(toks_view(out@) =~= done.push((TokKind::Word, rem.take(j - i))));
                lemma_step(cs@, i as int, j as int, done, (TokKind::Word, rem.take(j - i)));
            }
            i = j;
        } else if c == '\'' || c == '"' {
            let found = scan_quote(cs, i + 1, c);
            match found {
                None => {
                    proof {
                        assert(spec_tokenize(rem) is None);
                    }
                    return None;
                },
                Some(j) => {
                    proof {
                        assert(close_quote(rem.drop_first(), c) == j - (i + 1));
                        assert(rem.take(j - i + 1) =~= cs@.subrange(i as int, j + 1));
                        assert(rem.skip(j - i + 1) =~= cs@.skip(j + 1));
                    }
                    let text = copy_range(cs, i, j + 1);
                    out.push(Tok { kind: TokKind::Quoted, text });
                    proof {
                        assert(toks_view(out@) =~= done.push(
                            (TokKind::Quoted, rem.take(j - i + 1)),
                        ));
                        lemma_step(
                            cs@,
                            i as int,
                            j + 1,
                            done,
                            (TokKind::Quoted, rem.take(j - i + 1)),
                        );
                    }
                    i = j + 1;
                },
            }
        } else if c == '(' || c == ')' || c == ',' || c == '*' || c == ';' || c == '=' {
            let kind = if c == '(' {
                TokKind::LParen
            } else if c == ')' {
                TokKind::RParen
            } else if c == ',' {
                TokKind::Comma
            } else if c == '*' {
                TokKind::Star
            } else if c == ';' {
                TokKind::Semi
            } else {
                TokKind::Op
            };
            proof {
                assert(rem.take(1) =~= cs@.subrange(i as int, i + 1));
                assert(rem.skip(1) =~= cs@.skip(i + 1));
            }
            let text = copy_range(cs, i, i + 1);
            out.push(Tok { kind, text });
            proof {
                assert(toks_view(out@) =~= done.push((kind, rem.take(1))));
                lemma_step(cs@, i as int, i + 1, done, (kind, rem.take(1)));
            }
            i = i + 1;
        } else if c == '<' || c == '>' || c == '!' {
            let two = i + 1 < n && (cs[i + 1] == '=' || (c == '<' && cs[i + 1] == '>'));
            if c == '!' && !two {
                proof {
                    assert(spec_tokenize(rem) is None);
                }
                return None;
            }
            let j = if two {
                i + 2
            } else {
                i + 1
            };
            proof {
                assert(rem.take(j - i) =~= cs@.subrange(i as int, j as int));
                assert(rem.skip(j - i) =~= cs@.skip(j as int));
            }
            let text = copy_range(cs, i, j);
            out.push(Tok { kind: TokKind::Op, text });
            proof {
                assert(toks_view(out@) =~= done.push((TokKind::Op, rem.take(j - i))));
                lemma_step(cs@, i as int, j as int, done, (TokKind::Op, rem.take(j - i)));
            }
            i = j;
        } else {
            proof {
                assert(spec_tokenize(rem) is None);
            }
            return None;
        }
    }
    proof {
        assert(cs@.skip(n as int) =~= Seq::<char>::empty());
        assert(toks_view(out@) + Seq::<(TokKind, Seq<char>)>::empty() =~= toks_view(out@));
    }
    Some(out)
}

/// One tokenizer step: if the remainder at `i` starts with the token `t`
/// and continues at `j`, the tokens of the whole input extend accordingly.
proof fn lemma_step(
    cs: Seq<char>,
    i: int,
    j: int,
    done: Seq<(TokKind, Seq<char>)>,
    t: (TokKind, Seq<char>),
)
    requires
        0 <= i < j <= cs.len(),
        spec_tokenize(cs.skip(i)) == cons_tok(t, spec_tokenize(cs.skip(j))),
        forall|ts: Seq<(TokKind, Seq<char>)>|
            spec_tokenize(cs.skip(i)) == Some(ts) ==> spec_tokenize(cs) == Some(done + ts),
        spec_tokenize(cs.skip(i)) is None ==> spec_tokenize(cs) is None,
    ensures
        forall|ts: Seq<(TokKind, Seq<char>)>|
            spec_tokenize(cs.skip(j)) == Some(ts) ==> spec_tokenize(cs) == Some(done.push(t) + ts),
        spec_tokenize(cs.skip(j)) is None ==> spec_tokenize(cs) is None,
{
    match spec_tokenize(cs.skip(j)) {
        Some(ts) => {
            assert(spec_tokenize(cs.skip(i)) == Some(seq![t] + ts));
            assert(done + (seq![t] + ts) =~= done.push(t) + ts);
        },
        None => {},
    }
}

/// Reads a statement into lexemes, dropping one trailing semicolon.
pub fn lex_command(input: &str) -> (r: Option<Vec<Tok>>)
    ensures
        match r {
            Some(ts) => spec_lex(input@) == Some(toks_view(ts@)),
            None => spec_lex(input@) is None,
        },
{
    let cs = crate::text::chars_of(input);
    let toks = tokenize(&cs);
    match toks {
        None => None,
        Some(mut ts) => {
            let n = ts.len();
            if n > 0 && matches!(ts[n - 1].kind, TokKind::Semi) {
                ts.pop();
                proof {
                    assert(toks_view(ts@) =~= strip_semi(
                        spec_tokenize(input@).unwrap(),
                    ));
                }
                Some(ts)
            } else {
                proof {
                    assert(toks_view(ts@) =~= strip_semi(spec_tokenize(input@).unwrap()));
                }
                Some(ts)
            }
        },
    }
}

/// Drops one trailing semicolon lexeme.
pub open spec fn strip_semi(ts: Seq<(TokKind, Seq<char>)>) -> Seq<(TokKind, Seq<char>)> {
    if ts.len() > 0 && ts.last().0 == TokKind::Semi {
        ts.drop_last()
    } else {
        ts
    }
}

/// The lexemes of a statement, one trailing semicolon dropped.
pub open spec fn spec_lex(s: Seq<char>) -> Option<Seq<(TokKind, Seq<char>)>> {
    match spec_tokenize(s) {
        Some(ts) => Some(strip_semi(ts)),
        None => None,
    }
}

/// The deep view of a capture list.
pub open spec fn strs_view(v: Seq<String>) -> Seq<Seq<char>> {
    Seq::new(v.len(), |i: int| v[i]@)
}

/// An identifier slot: a bare word, or quoted text of either kind.
pub open spec fn is_si_tok(t: (TokKind, Seq<char>)) -> bool {
    t.0 == TokKind::Word || t.0 == TokKind::Quoted
}

pub open spec fn all_digits(s: Seq<char>) -> bool {
    s.len() > 0 && forall|i: int| 0 <= i < s.len() ==> is_digit(#[trigger] s[i])
}

/// A keyword slot: a bare word that, lowered, spells `w`.
pub open spec fn is_kw_tok(t: (TokKind, Seq<char>), w: Seq<char>) -> bool {
    t.0 == TokKind::Word && crate::text::lower_chars_spec(t.1) == w
}

/// A value slot: an integer, the word `NULL`, or quoted text.
pub open spec fn is_value_tok(t: (TokKind, Seq<char>)) -> bool {
    t.0 == TokKind::Quoted || (t.0 == TokKind::Word && (all_digits(t.1) || is_kw_tok(t, "null"@)))
}

/// A column type slot, lowered.
pub open spec fn is_type_word(s: Seq<char>) -> bool {
    let l = crate::text::lower_chars_spec(s);
    ||| l == "int"@
    ||| l == "integer"@
    ||| l == "string"@
    ||| l == "text"@
    ||| l == "varchar"@
    ||| l == "data"@
    ||| l == "blob"@
}

/// A comma-separated list of identifier slots, with one trailing comma
/// tolerated; yields the raw texts and the unread rest.
pub open spec fn sp_col_list(ts: Seq<(TokKind, Seq<char>)>) -> Option<
    (Seq<Seq<char>>, Seq<(TokKind, Seq<char>)>),
>
    decreases ts.len(),
{
    if ts.len() == 0 || !is_si_tok(ts[0]) {
        None
    } else {
        let first = ts[0].1;
        let rest = ts.drop_first();
        if rest.len() > 0 && rest[0].0 == TokKind::Comma {
            let rest2 = rest.drop_first();
            match sp_col_list(rest2) {
                Some((more, r)) => Some((seq![first] + more, r)),
                None => Some((seq![first], rest2)),
            }
        } else {
            Some((seq![first], rest))
        }
    }
}

/// A comma-separated list of value slots, like `sp_col_list`.
pub open spec fn sp_val_list(ts: Seq<(TokKind, Seq<char>)>) -> Option<
    (Seq<Seq<char>>, Seq<(TokKind, Seq<char>)>),
>
    decreases ts.len(),
{
    if ts.len() == 0 || !is_value_tok(ts[0]) {
        None
    } else {
        let first = ts[0].1;
        let rest = ts.drop_first();
        if rest.len() > 0 && rest[0].0 == TokKind::Comma {
            let rest2 = rest.drop_first();
            match sp_val_list(rest2) {
                Some((more, r)) => Some((seq![first] + more, r)),
                None => Some((seq![first], rest2)),
            }
        } else {
            Some((seq![first], rest))
        }
    }
}

/// One column definition: a name slot and a type, the type's words joined
/// by single spaces; yields the two raw texts and how many lexemes it took.
pub open spec fn sp_attr_def(ts: Seq<(TokKind, Seq<char>)>) -> Option<(Seq<char>, Seq<char>, int)> {
    if ts.len() >= 2 && is_si_tok(ts[0]) && ts[1].0 == TokKind::Word && is_type_word(ts[1].1) {
        if ts.len() >= 4 && is_kw_tok(ts[2], "primary"@) && is_kw_tok(ts[3], "key"@) {
            Some((ts[0].1, ts[1].1 + seq![' '] + ts[2].1 + seq![' '] + ts[3].1, 4))
        } else {
            Some((ts[0].1, ts[1].1, 2))
        }
    } else {
        None
    }
}

/// A comma-separated list of column definitions, one trailing comma
/// tolerated; yields name and type texts alternating, and the unread rest.
pub open spec fn sp_attr_list(ts: Seq<(TokKind, Seq<char>)>) -> Option<
    (Seq<Seq<char>>, Seq<(TokKind, Seq<char>)>),
>
    decreases ts.len(),
{
    match sp_attr_def(ts) {
        None => None,
        Some((name, tdesc, k)) => {
            let rest = ts.skip(k);
            if rest.len() > 0 && rest[0].0 == TokKind::Comma {
                let rest2 = rest.drop_first();
                match sp_attr_list(rest2) {
                    Some((more, r)) => Some((seq![name, tdesc] + more, r)),
                    None => Some((seq![name, tdesc], rest2)),
                }
            } else {
                Some((seq![name, tdesc], rest))
            }
        },
    }
}

/// A full `WHERE` clause: the keyword, a term, an operator, a term,
/// and nothing after it.
pub open spec fn sp_where(ts: Seq<(TokKind, Seq<char>)>) -> Option<Seq<Seq<char>>> {
    if ts.len() == 4 && is_kw_tok(ts[0], "where"@) && is_si_tok(ts[1]) && ts[2].0 == TokKind::Op
        && is_si_tok(ts[3]) {
        Some(seq![ts[0].1, ts[1].1, ts[2].1, ts[3].1])
    } else {
        None
    }
}

/// The `SELECT` pattern: its captures are the keywords, the column slots
/// (or the star), the table slot, and the `WHERE` parts if present.
pub open spec fn sp_select(ts: Seq<(TokKind, Seq<char>)>) -> Option<Seq<Seq<char>>> {
    if ts.len() < 1 || !is_kw_tok(ts[0], "select"@) {
        None
    } else {
        let after = if ts.len() >= 2 && ts[1].0 == TokKind::Star {
            Some((seq![ts[1].1], ts.skip(2)))
        } else {
            sp_col_list(ts.skip(1))
        };
        match after {
            None => None,
            Some((cols, rest)) => {
                if rest.len() >= 2 && is_kw_tok(rest[0], "from"@) && is_si_tok(rest[1]) {
                    let head = seq![ts[0].1] + cols + seq![rest[0].1, rest[1].1];
                    if rest.len() == 2 {
                        Some(head)
                    } else {
                        match sp_where(rest.skip(2)) {
                            Some(w) => Some(head + w),
                            None => None,
                        }
                    }
                } else {
                    None
                }
            },
        }
    }
}

/// The `CREATE TABLE` pattern: keywords, table slot, and the column
/// definitions between parentheses.
pub open spec fn sp_create_table(ts: Seq<(TokKind, Seq<char>)>) -> Option<Seq<Seq<char>>> {
    if ts.len() >= 4 && is_kw_tok(ts[0], "create"@) && is_kw_tok(ts[1], "table"@) && is_si_tok(
        ts[2],
    ) && ts[3].0 == TokKind::LParen {
        match sp_attr_list(ts.skip(4)) {
            Some((caps, rest)) => {
                if rest.len() == 1 && rest[0].0 == TokKind::RParen {
                    Some(seq![ts[0].1, ts[1].1, ts[2].1] + caps)
                } else {
                    None
                }
            },
            None => None,
        }
    } else {
        None
    }
}

/// The unnamed `CREATE INDEX` pattern.
pub open spec fn sp_create_index(ts: Seq<(TokKind, Seq<char>)>) -> Option<Seq<Seq<char>>> {
    if ts.len() >= 5 && is_kw_tok(ts[0], "create"@) && is_kw_tok(ts[1], "index"@) && is_kw_tok(
        ts[2],
        "on"@,
    ) && is_si_tok(ts[3]) && ts[4].0 == TokKind::LParen {
        match sp_col_list(ts.skip(5)) {
            Some((cols, rest)) => {
                if rest.len() == 1 && rest[0].0 == TokKind::RParen {
                    Some(seq![ts[0].1, ts[1].1, ts[2].1, ts[3].1] + cols)
                } else {
                    None
                }
            },
            None => None,
        }
    } else {
        None
    }
}

/// The named `CREATE INDEX` pattern.
pub open spec fn sp_create_named_index(ts: Seq<(TokKind, Seq<char>)>) -> Option<Seq<Seq<char>>> {
    if ts.len() >= 6 && is_kw_tok(ts[0], "create"@) && is_kw_tok(ts[1], "index"@) && is_si_tok(
        ts[2],
    ) && is_kw_tok(ts[3], "on"@) && is_si_tok(ts[4]) && ts[5].0 == TokKind::LParen {
        match sp_col_list(ts.skip(6)) {
            Some((cols, rest)) => {
                if rest.len() == 1 && rest[0].0 == TokKind::RParen {
                    Some(seq![ts[0].1, ts[1].1, ts[2].1, ts[3].1, ts[4].1] + cols)
                } else {
                    None
                }
            },
            None => None,
        }
    } else {
        None
    }
}

/// The `INSERT` pattern: keywords, table slot, and the value slots between
/// parentheses.
pub open spec fn sp_insert(ts: Seq<(TokKind, Seq<char>)>) -> Option<Seq<Seq<char>>> {
    if ts.len() >= 5 && is_kw_tok(ts[0], "insert"@) && is_kw_tok(ts[1], "into"@) && is_si_tok(
        ts[2],
    ) && is_kw_tok(ts[3], "values"@) && ts[4].0 == TokKind::LParen {
        match sp_val_list(ts.skip(5)) {
            Some((vals, rest)) => {
                if rest.len() == 1 && rest[0].0 == TokKind::RParen {
                    Some(seq![ts[0].1, ts[1].1, ts[2].1, ts[3].1] + vals)
                } else {
                    None
                }
            },
            None => None,
        }
    } else {
        None
    }
}

/// The `DELETE` pattern: the keywords, the table slot, and the `WHERE`
/// parts if present.
pub open spec fn sp_delete(ts: Seq<(TokKind, Seq<char>)>) -> Option<Seq<Seq<char>>> {
    if ts.len() >= 3 && is_kw_tok(ts[0], "delete"@) && is_kw_tok(ts[1], "from"@) && is_si_tok(
        ts[2],
    ) {
        let head = seq![ts[0].1, ts[1].1, ts[2].1];
        if ts.len() == 3 {
            Some(head)
        } else {
            match sp_where(ts.skip(3)) {
                Some(w) => Some(head + w),
                None => None,
            }
        }
    } else {
        None
    }
}

/// The `DROP TABLE` pattern.
pub open spec fn sp_drop(ts: Seq<(TokKind, Seq<char>)>) -> Option<Seq<Seq<char>>> {
    if ts.len() == 3 && is_kw_tok(ts[0], "drop"@) && is_kw_tok(ts[1], "table"@) && is_si_tok(
        ts[2],
    ) {
        Some(seq![ts[0].1, ts[1].1, ts[2].1])
    } else {
        None
    }
}

fn tok_is_si(t: &Tok) -> (r: bool)
    ensures
        r == is_si_tok(t@),
{
    match t.kind {
        TokKind::Word => true,
        TokKind::Quoted => true,
        _ => false,
    }
}

fn is_digits(v: &Vec<char>) -> (r: bool)
    ensures
        r == all_digits(v@),
{
    if v.len() == 0 {
        return false;
    }
    let mut i: usize = 0;
    while i < v.len()
        invariant
            i <= v@.len(),
            forall|j: int| 0 <= j < i ==> is_digit(#[trigger] v@[j]),
        decreases v@.len() - i,
    {
        let c = v[i];
        if !('0' <= c && c <= '9') {
            return false;
        }
        i = i + 1;
    }
    true
}

fn tok_is_value(t: &Tok) -> (r: bool)
    ensures
        r == is_value_tok(t@),
{
    match t.kind {
        TokKind::Quoted => true,
        TokKind::Word => is_digits(&t.text) || is_kw(&t.text, "null"),
        _ => false,
    }
}

fn tok_is_kw(t: &Tok, w: &str) -> (r: bool)
    ensures
        r == is_kw_tok(t@, w@),
{
    match t.kind {
        TokKind::Word => is_kw(&t.text, w),
        _ => false,
    }
}

fn tok_text(t: &Tok) -> (s: String)
    ensures
        s@ == t@.1,
{
    chars_to_string(&t.text)
}

fn tok_is_type(t: &Tok) -> (r: bool)
    ensures
        r == (t@.0 == TokKind::Word && is_type_word(t@.1)),
{
    match t.kind {
        TokKind::Word => is_kw(&t.text, "int") || is_kw(&t.text, "integer") || is_kw(
            &t.text,
            "string",
        ) || is_kw(&t.text, "text") || is_kw(&t.text, "varchar") || is_kw(&t.text, "data")
            || is_kw(&t.text, "blob"),
        _ => false,
    }
}

/// The type description of a column definition, its words joined by one
/// space each.
fn join3(a: &Vec<char>, b: &Vec<char>, c: &Vec<char>) -> (s: String)
    ensures
        s@ == a@ + seq![' '] + b@ + seq![' '] + c@,
{
    let mut v: Vec<char> = Vec::new();
    push_chars(&mut v, a);
    v.push(' ');
    push_chars(&mut v, b);
    v.push(' ');
    push_chars(&mut v, c);
    proof {
        assert(v@ =~= a@ + seq![' '] + b@ + seq![' '] + c@);
    }
    chars_to_string(&v)
}

fn push_chars(dst: &mut Vec<char>, src: &Vec<char>)
    ensures
        final(dst)@ == old(dst)@ + src@,
{
    let mut i: usize = 0;
    while i < src.len()
        invariant
            i <= src@.len(),
            dst@ == old(dst)@ + src@.take(i as int),
        decreases src@.len() - i,
    {
        dst.push(src[i]);
        proof {
            assert(old(dst)@ + src@.take(i + 1) =~= (old(dst)@ + src@.take(i as int)).push(
                src@[i as int],
            ));
        }
        i = i + 1;
    }
    proof {
        assert(old(dst)@ + src@.take(src@.len() as int) =~= old(dst)@ + src@);
    }
}

fn x_col_list(toks: &Vec<Tok>, i: usize) -> (r: Option<(Vec<String>, usize)>)
    requires
        i <= toks@.len(),
    ensures
        match r {
            Some(p) => p.1 <= toks@.len() && sp_col_list(toks_view(toks@).skip(i as int)) == Some(
                (strs_view(p.0@), toks_view(toks@).skip(p.1 as int)),
            ),
            None => sp_col_list(toks_view(toks@).skip(i as int)) is None,
        },
    decreases toks@.len() - i,
{
    let ghost tv = toks_view(toks@);
    proof {
        if i < toks@.len() {
            assert(tv.skip(i as int)[0] == tv[i as int]);
            assert(tv[i as int] == toks@[i as int]@);
            assert(tv.skip(i as int).drop_first() =~= tv.skip(i + 1));
        } else {
            assert(tv.skip(i as int) =~= Seq::<(TokKind, Seq<char>)>::empty());
        }
    }
    if i == toks.len() {
        return None;
    }
    if !tok_is_si(&toks[i]) {
        return None;
    }
    let first = tok_text(&toks[i]);
    if i + 1 < toks.len() && matches!(toks[i + 1].kind, TokKind::Comma) {
        proof {
            assert(tv.skip(i + 1)[0] == tv[i + 1]);
            assert(tv[i + 1] == toks@[i + 1]@);
            assert(tv.skip(i + 1).drop_first() =~= tv.skip(i + 2));
        }
        match x_col_list(toks, i + 2) {
            Some((more, j)) => {
                let ghost mv = more@;
                let mut caps: Vec<String> = Vec::new();
                caps.push(first);
                let mut more = more;
                caps.append(&mut more);
                proof {
                    assert(strs_view(caps@) =~= seq![tv[i as int].1] + strs_view(mv));
                }
                Some((caps, j))
            },
            None => {
                let mut caps: Vec<String> = Vec::new();
                caps.push(first);
                proof {
                    assert(strs_view(caps@) =~= seq![tv[i as int].1]);
                }
                Some((caps, i + 2))
            },
        }
    } else {
        let mut caps: Vec<String> = Vec::new();
        caps.push(first);
        proof {
            assert(strs_view(caps@) =~= seq![tv[i as int].1]);
            if i + 1 < toks@.len() {
                assert(tv.skip(i as int).drop_first()[0] == tv[i + 1]);
                assert(tv[i + 1] == toks@[i + 1]@);
            }
        }
        Some((caps, i + 1))
    }
}

fn x_val_list(toks: &Vec<Tok>, i: usize) -> (r: Option<(Vec<String>, usize)>)
    requires
        i <= toks@.len(),
    ensures
        match r {
            Some(p) => p.1 <= toks@.len() && sp_val_list(toks_view(toks@).skip(i as int)) == Some(
                (strs_view(p.0@), toks_view(toks@).skip(p.1 as int)),
            ),
            None => sp_val_list(toks_view(toks@).skip(i as int)) is None,
        },
    decreases toks@.len() - i,
{
    let ghost tv = toks_view(toks@);
    proof {
        if i < toks@.len() {
            assert(tv.skip(i as int)[0] == tv[i as int]);
            assert(tv[i as int] == toks@[i as int]@);
            assert(tv.skip(i as int).drop_first() =~= tv.skip(i + 1));
        } else {
            assert(tv.skip(i as int) =~= Seq::<(TokKind, Seq<char>)>::empty());
        }
    }
    if i == toks.len() {
        return None;
    }
    if !tok_is_value(&toks[i]) {
        return None;
    }
    let first = tok_text(&toks[i]);
    if i + 1 < toks.len() && matches!(toks[i + 1].kind, TokKind::Comma) {
        proof {
            assert(tv.skip(i + 1)[0] == tv[i + 1]);
            assert(tv[i + 1] == toks@[i + 1]@);
            assert(tv.skip(i + 1).drop_first() =~= tv.skip(i + 2));
        }
        match x_val_list(toks, i + 2) {
            Some((more, j)) => {
                let ghost mv = more@;
                let mut caps: Vec<String> = Vec::new();
                caps.push(first);
                let mut more = more;
                caps.append(&mut more);
                proof {
                    assert(strs_view(caps@) =~= seq![tv[i as int].1] + strs_view(mv));
                }
                Some((caps, j))
            },
            None => {
                let mut caps: Vec<String> = Vec::new();
                caps.push(first);
                proof {
                    assert(strs_view(caps@) =~= seq![tv[i as int].1]);
                }
                Some((caps, i + 2))
            },
        }
    } else {
        let mut caps: Vec<String> = Vec::new();
        caps.push(first);
        proof {
            assert(strs_view(caps@) =~= seq![tv[i as int].1]);
            if i + 1 < toks@.len() {
                assert(tv.skip(i as int).drop_first()[0] == tv[i + 1]);
                assert(tv[i + 1] == toks@[i + 1]@);
            }
        }
        Some((caps, i + 1))
    }
}

fn x_attr_list(toks: &Vec<Tok>, i: usize) -> (r: Option<(Vec<String>, usize)>)
    requires
        i <= toks@.len(),
    ensures
        match r {
            Some(p) => p.1 <= toks@.len() && sp_attr_list(toks_view(toks@).skip(i as int)) == Some(
                (strs_view(p.0@), toks_view(toks@).skip(p.1 as int)),
            ),
            None => sp_attr_list(toks_view(toks@).skip(i as int)) is None,
        },
    decreases toks@.len() - i,
{
    let ghost tv = toks_view(toks@);
    let n = toks.len();
    proof {
        assert forall|k: int| 0 <= k && i + k < tv.len() implies tv.skip(i as int)[k] == toks@[
            i + k
        ]@ by {
            assert(tv.skip(i as int)[k] == tv[i + k]);
        }
        if i < toks@.len() {
            assert(tv.skip(i as int).drop_first() =~= tv.skip(i + 1));
        } else {
            assert(tv.skip(i as int) =~= Seq::<(TokKind, Seq<char>)>::empty());
        }
    }
    if n - i < 2 {
        proof {
            assert(sp_attr_def(tv.skip(i as int)) is None);
        }
        return None;
    }
    if !(tok_is_si(&toks[i]) && tok_is_type(&toks[i + 1])) {
        return None;
    }
    let name = tok_text(&toks[i]);
    let pk = n - i >= 4 && tok_is_kw(&toks[i + 2], "primary") && tok_is_kw(&toks[i + 3], "key");
    let tdesc = if pk {
        join3(&toks[i + 1].text, &toks[i + 2].text, &toks[i + 3].text)
    } else {
        tok_text(&toks[i + 1])
    };
    let k = if pk {
        4
    } else {
        2
    };
    proof {
        assert(sp_attr_def(tv.skip(i as int)) == Some((tv[i as int].1, tdesc@, k as int)));
        assert(tv.skip(i as int).skip(k as int) =~= tv.skip(i + k));
    }
    let next = i + k;
    if next < n && matches!(toks[next].kind, TokKind::Comma) {
        proof {
            assert(tv.skip(next as int)[0] == tv[next as int]);
            assert(tv[next as int] == toks@[next as int]@);
            assert(tv.skip(next as int).drop_first() =~= tv.skip(next + 1));
        }
        match x_attr_list(toks, next + 1) {
            Some((more, j)) => {
                let ghost mv = more@;
                let mut caps: Vec<String> = Vec::new();
                caps.push(name);
                caps.push(tdesc);
                let mut more = more;
                caps.append(&mut more);
                proof {
                    assert(strs_view(caps@) =~= seq![tv[i as int].1, tdesc@] + strs_view(mv));
                }
                Some((caps, j))
            },
            None => {
                let mut caps: Vec<String> = Vec::new();
                caps.push(name);
                caps.push(tdesc);
                proof {
                    assert(strs_view(caps@) =~= seq![tv[i as int].1, tdesc@]);
                }
                Some((caps, next + 1))
            },
        }
    } else {
        let mut caps: Vec<String> = Vec::new();
        caps.push(name);
        caps.push(tdesc);
        proof {
            assert(strs_view(caps@) =~= seq![tv[i as int].1, tdesc@]);
            if next < toks@.len() {
                assert(tv.skip(i + k)[0] == tv[next as int]);
                assert(tv[next as int] == toks@[next as int]@);
            }
        }
        Some((caps, next))
    }
}

fn x_where(toks: &Vec<Tok>, i: usize) -> (r: Option<Vec<String>>)
    requires
        i <= toks@.len(),
    ensures
        match r {
            Some(c) => sp_where(toks_view(toks@).skip(i as int)) == Some(strs_view(c@)),
            None => sp_where(toks_view(toks@).skip(i as int)) is None,
        },
{
    let ghost tv = toks_view(toks@);
    let n = toks.len();
    proof {
        assert forall|k: int| 0 <= k && i + k < tv.len() implies tv.skip(i as int)[k] == toks@[
            i + k
        ]@ by {
            assert(tv.skip(i as int)[k] == tv[i + k]);
        }
    }
    if n - i != 4 {
        return None;
    }
    if tok_is_kw(&toks[i], "where") && tok_is_si(&toks[i + 1]) && matches!(
        toks[i + 2].kind,
        TokKind::Op,
    ) && tok_is_si(&toks[i + 3]) {
        let mut caps: Vec<String> = Vec::new();
        caps.push(tok_text(&toks[i]));
        caps.push(tok_text(&toks[i + 1]));
        caps.push(tok_text(&toks[i + 2]));
        caps.push(tok_text(&toks[i + 3]));
        proof {
            assert(strs_view(caps@) =~= seq![
                tv[i as int].1,
                tv[i + 1].1,
                tv[i + 2].1,
                tv[i + 3].1,
            ]);
        }
        Some(caps)
    } else {
        None
    }
}

fn x_select(toks: &Vec<Tok>) -> (r: Option<Vec<String>>)
    ensures
        match r {
            Some(c) => sp_select(toks_view(toks@)) == Some(strs_view(c@)),
            None => sp_select(toks_view(toks@)) is None,
        },
{
    let ghost tv = toks_view(toks@);
    let n = toks.len();
    proof {
        assert forall|k: int| 0 <= k < tv.len() implies tv[k] == toks@[k]@ by {}
    }
    if n < 1 || !tok_is_kw(&toks[0], "select") {
        return None;
    }
    let star = n >= 2 && matches!(toks[1].kind, TokKind::Star);
    let after: Option<(Vec<String>, usize)> = if star {
        let mut v: Vec<String> = Vec::new();
        v.push(tok_text(&toks[1]));
        proof {
            assert(strs_view(v@) =~= seq![tv[1].1]);
        }
        Some((v, 2))
    } else {
        x_col_list(toks, 1)
    };
    match after {
        None => None,
        Some((cols, j)) => {
            proof {
                assert forall|k: int| 0 <= k && j + k < tv.len() implies tv.skip(j as int)[k]
                    == toks@[j + k]@ by {
                    assert(tv.skip(j as int)[k] == tv[j + k]);
                }
            }
            if n - j >= 2 && tok_is_kw(&toks[j], "from") && tok_is_si(&toks[j + 1]) {
                let ghost cv = strs_view(cols@);
                let mut caps: Vec<String> = Vec::new();
                caps.push(tok_text(&toks[0]));
                let mut cols = cols;
                caps.append(&mut cols);
                caps.push(tok_text(&toks[j]));
                caps.push(tok_text(&toks[j + 1]));
                let ghost head = seq![tv[0].1] + cv + seq![tv[j as int].1, tv[j + 1].1];
                proof {
                    assert(strs_view(caps@) =~= head);
                    assert(tv.skip(j as int).skip(2) =~= tv.skip(j + 2));
                }
                if j + 2 == n {
                    Some(caps)
                } else {
                    match x_where(toks, j + 2) {
                        Some(w) => {
                            let ghost wv = strs_view(w@);
                            let mut w = w;
                            caps.append(&mut w);
                            proof {
                                assert(strs_view(caps@) =~= head + wv);
                            }
                            Some(caps)
                        },
                        None => None,
                    }
                }
            } else {
                None
            }
        },
    }
}

fn x_create_table(toks: &Vec<Tok>) -> (r: Option<Vec<String>>)
    ensures
        match r {
            Some(c) => sp_create_table(toks_view(toks@)) == Some(strs_view(c@)),
            None => sp_create_table(toks_view(toks@)) is None,
        },
{
    let ghost tv = toks_view(toks@);
    let n = toks.len();
    proof {
        assert forall|k: int| 0 <= k < tv.len() implies tv[k] == toks@[k]@ by {}
    }
    if n < 4 || !(tok_is_kw(&toks[0], "create") && tok_is_kw(&toks[1], "table") && tok_is_si(
        &toks[2],
    ) && matches!(toks[3].kind, TokKind::LParen)) {
        return None;
    }
    match x_attr_list(toks, 4) {
        None => None,
        Some((attrs, j)) => {
            proof {
                if j < tv.len() {
                    assert(tv.skip(j as int)[0] == tv[j as int]);
                }
            }
            if n - j == 1 && matches!(toks[j].kind, TokKind::RParen) {
                let ghost av = strs_view(attrs@);
                let mut caps: Vec<String> = Vec::new();
                caps.push(tok_text(&toks[0]));
                caps.push(tok_text(&toks[1]));
                caps.push(tok_text(&toks[2]));
                let mut attrs = attrs;
                caps.append(&mut attrs);
                proof {
                    assert(strs_view(caps@) =~= seq![tv[0].1, tv[1].1, tv[2].1] + av);
                }
                Some(caps)
            } else {
                None
            }
        },
    }
}

fn x_create_index(toks: &Vec<Tok>) -> (r: Option<Vec<String>>)
    ensures
        match r {
            Some(c) => sp_create_index(toks_view(toks@)) == Some(strs_view(c@)),
            None => sp_create_index(toks_view(toks@)) is None,
        },
{
    let ghost tv = toks_view(toks@);
    let n = toks.len();
    proof {
        assert forall|k: int| 0 <= k < tv.len() implies tv[k] == toks@[k]@ by {}
    }
    if n < 5 || !(tok_is_kw(&toks[0], "create") && tok_is_kw(&toks[1], "index") && tok_is_kw(
        &toks[2],
        "on",
    ) && tok_is_si(&toks[3]) && matches!(toks[4].kind, TokKind::LParen)) {
        return None;
    }
    match x_col_list(toks, 5) {
        None => None,
        Some((cols, j)) => {
            proof {
                if j < tv.len() {
                    assert(tv.skip(j as int)[0] == tv[j as int]);
                }
            }
            if n - j == 1 && matches!(toks[j].kind, TokKind::RParen) {
                let ghost cv = strs_view(cols@);
                let mut caps: Vec<String> = Vec::new();
                caps.push(tok_text(&toks[0]));
                caps.push(tok_text(&toks[1]));
                caps.push(tok_text(&toks[2]));
                caps.push(tok_text(&toks[3]));
                let mut cols = cols;
                caps.append(&mut cols);
                proof {
                    assert(strs_view(caps@) =~= seq![tv[0].1, tv[1].1, tv[2].1, tv[3].1] + cv);
                }
                Some(caps)
            } else {
                None
            }
        },
    }
}

fn x_create_named_index(toks: &Vec<Tok>) -> (r: Option<Vec<String>>)
    ensures
        match r {
            Some(c) => sp_create_named_index(toks_view(toks@)) == Some(strs_view(c@)),
            None => sp_create_named_index(toks_view(toks@)) is None,
        },
{
    let ghost tv = toks_view(toks@);
    let n = toks.len();
    proof {
        assert forall|k: int| 0 <= k < tv.len() implies tv[k] == toks@[k]@ by {}
    }
    if n < 6 || !(tok_is_kw(&toks[0], "create") && tok_is_kw(&toks[1], "index") && tok_is_si(
        &toks[2],
    ) && tok_is_kw(&toks[3], "on") && tok_is_si(&toks[4]) && matches!(
        toks[5].kind,
        TokKind::LParen,
    )) {
        return None;
    }
    match x_col_list(toks, 6) {
        None => None,
        Some((cols, j)) => {
            proof {
                if j < tv.len() {
                    assert(tv.skip(j as int)[0] == tv[j as int]);
                }
            }
            if n - j == 1 && matches!(toks[j].kind, TokKind::RParen) {
                let ghost cv = strs_view(cols@);
                let mut caps: Vec<String> = Vec::new();
                caps.push(tok_text(&toks[0]));
                caps.push(tok_text(&toks[1]));
                caps.push(tok_text(&toks[2]));
                caps.push(tok_text(&toks[3]));
                caps.push(tok_text(&toks[4]));
                let mut cols = cols;
                caps.append(&mut cols);
                proof {
                    assert(strs_view(caps@) =~= seq![tv[0].1, tv[1].1, tv[2].1, tv[3].1, tv[4].1]
                        + cv);
                }
                Some(caps)
            } else {
                None
            }
        },
    }
}

fn x_insert(toks: &Vec<Tok>) -> (r: Option<Vec<String>>)
    ensures
        match r {
            Some(c) => sp_insert(toks_view(toks@)) == Some(strs_view(c@)),
            None => sp_insert(toks_view(toks@)) is None,
        },
{
    let ghost tv = toks_view(toks@);
    let n = toks.len();
    proof {
        assert forall|k: int| 0 <= k < tv.len() implies tv[k] == toks@[k]@ by {}
    }
    if n < 5 || !(tok_is_kw(&toks[0], "insert") && tok_is_kw(&toks[1], "into") && tok_is_si(
        &toks[2],
    ) && tok_is_kw(&toks[3], "values") && matches!(toks[4].kind, TokKind::LParen)) {
        return None;
    }
    match x_val_list(toks, 5) {
        None => None,
        Some((vals, j)) => {
            proof {
                if j < tv.len() {
                    assert(tv.skip(j as int)[0] == tv[j as int]);
                }
            }
            if n - j == 1 && matches!(toks[j].kind, TokKind::RParen) {
                let ghost vv = strs_view(vals@);
                let mut caps: Vec<String> = Vec::new();
                caps.push(tok_text(&toks[0]));
                caps.push(tok_text(&toks[1]));
                caps.push(tok_text(&toks[2]));
                caps.push(tok_text(&toks[3]));
                let mut vals = vals;
                caps.append(&mut vals);
                proof {
                    assert(strs_view(caps@) =~= seq![tv[0].1, tv[1].1, tv[2].1, tv[3].1] + vv);
                }
                Some(caps)
            } else {
                None
            }
        },
    }
}

fn x_delete(toks: &Vec<Tok>) -> (r: Option<Vec<String>>)
    ensures
        match r {
            Some(c) => sp_delete(toks_view(toks@)) == Some(strs_view(c@)),
            None => sp_delete(toks_view(toks@)) is None,
        },
{
    let ghost tv = toks_view(toks@);
    let n = toks.len();
    proof {
        assert forall|k: int| 0 <= k < tv.len() implies tv[k] == toks@[k]@ by {}
    }
    if n < 3 || !(tok_is_kw(&toks[0], "delete") && tok_is_kw(&toks[1], "from") && tok_is_si(
        &toks[2],
    )) {
        return None;
    }
    let mut caps: Vec<String> = Vec::new();
    caps.push(tok_text(&toks[0]));
    caps.push(tok_text(&toks[1]));
    caps.push(tok_text(&toks[2]));
    let ghost head = seq![tv[0].1, tv[1].1, tv[2].1];
    proof {
        assert(strs_view(caps@) =~= head);
        assert(tv.skip(3) =~= tv.skip(3));
    }
    if n == 3 {
        Some(caps)
    } else {
        match x_where(toks, 3) {
            Some(w) => {
                let ghost wv = strs_view(w@);
                let mut w = w;
                caps.append(&mut w);
                proof {
                    assert(strs_view(caps@) =~= head + wv);
                }
                Some(caps)
            },
            None => None,
        }
    }
}

fn x_drop(toks: &Vec<Tok>) -> (r: Option<Vec<String>>)
    ensures
        match r {
            Some(c) => sp_drop(toks_view(toks@)) == Some(strs_view(c@)),
            None => sp_drop(toks_view(toks@)) is None,
        },
{
    let ghost tv = toks_view(toks@);
    let n = toks.len();
    proof {
        assert forall|k: int| 0 <= k < tv.len() implies tv[k] == toks@[k]@ by {}
    }
    if n == 3 && tok_is_kw(&toks[0], "drop") && tok_is_kw(&toks[1], "table") && tok_is_si(
        &toks[2],
    ) {
        let mut caps: Vec<String> = Vec::new();
        caps.push(tok_text(&toks[0]));
        caps.push(tok_text(&toks[1]));
        caps.push(tok_text(&toks[2]));
        proof {
            assert(strs_view(caps@) =~= seq![tv[0].1, tv[1].1, tv[2].1]);
        }
        Some(caps)
    } else {
        None
    }
}

/// The captures of the `SELECT` pattern on this statement, if it matches.
pub fn capture_select(input: &str) -> (r: Option<Vec<String>>)
    ensures
        ({
            let l = spec_lex(input@);
            match r {
                Some(c) => l is Some && sp_select(l.unwrap()) == Some(strs_view(c@)),
                None => l is None || sp_select(l.unwrap()) is None,
            }
        }),
{
    match lex_command(input) {
        None => None,
        Some(toks) => x_select(&toks),
    }
}

/// The captures of the `CREATE TABLE` pattern on this statement, if it
/// matches.
pub fn capture_create_table(input: &str) -> (r: Option<Vec<String>>)
    ensures
        ({
            let l = spec_lex(input@);
            match r {
                Some(c) => l is Some && sp_create_table(l.unwrap()) == Some(strs_view(c@)),
                None => l is None || sp_create_table(l.unwrap()) is None,
            }
        }),
{
    match lex_command(input) {
        None => None,
        Some(toks) => x_create_table(&toks),
    }
}

/// The captures of the unnamed `CREATE INDEX` pattern on this statement,
/// if it matches.
pub fn capture_create_index(input: &str) -> (r: Option<Vec<String>>)
    ensures
        ({
            let l = spec_lex(input@);
            match r {
                Some(c) => l is Some && sp_create_index(l.unwrap()) == Some(strs_view(c@)),
                None => l is None || sp_create_index(l.unwrap()) is None,
            }
        }),
{
    match lex_command(input) {
        None => None,
        Some(toks) => x_create_index(&toks),
    }
}

/// The captures of the named `CREATE INDEX` pattern on this statement, if
/// it matches.
pub fn capture_create_named_index(input: &str) -> (r: Option<Vec<String>>)
    ensures
        ({
            let l = spec_lex(input@);
            match r {
                Some(c) => l is Some && sp_create_named_index(l.unwrap()) == Some(strs_view(c@)),
                None => l is None || sp_create_named_index(l.unwrap()) is None,
            }
        }),
{
    match lex_command(input) {
        None => None,
        Some(toks) => x_create_named_index(&toks),
    }
}

/// The captures of the `INSERT` pattern on this statement, if it matches.
pub fn capture_insert(input: &str) -> (r: Option<Vec<String>>)
    ensures
        ({
            let l = spec_lex(input@);
            match r {
                Some(c) => l is Some && sp_insert(l.unwrap()) == Some(strs_view(c@)),
                None => l is None || sp_insert(l.unwrap()) is None,
            }
        }),
{
    match lex_command(input) {
        None => None,
        Some(toks) => x_insert(&toks),
    }
}

/// The captures of the `DELETE` pattern on this statement, if it matches.
pub fn capture_delete(input: &str) -> (r: Option<Vec<String>>)
    ensures
        ({
            let l = spec_lex(input@);
            match r {
                Some(c) => l is Some && sp_delete(l.unwrap()) == Some(strs_view(c@)),
                None => l is None || sp_delete(l.unwrap()) is None,
            }
        }),
{
    match lex_command(input) {
        None => None,
        Some(toks) => x_delete(&toks),
    }
}

/// The captures of the `DROP TABLE` pattern on this statement, if it
/// matches.
pub fn capture_drop(input: &str) -> (r: Option<Vec<String>>)
    ensures
        ({
            let l = spec_lex(input@);
            match r {
                Some(c) => l is Some && sp_drop(l.unwrap()) == Some(strs_view(c@)),
                None => l is None || sp_drop(l.unwrap()) is None,
            }
        }),
{
    match lex_command(input) {
        None => None,
        Some(toks) => x_drop(&toks),
    }
}

/// Matches the statement against every pattern, in the grammar's order,
/// and answers the captures of the first that fits; empty if none does.
pub fn capture_command(input: &str) -> (r: Vec<String>)
    ensures
        strs_view(r@) == spec_capture_command(input@),
{
    match lex_command(input) {
        None => Vec::new(),
        Some(toks) => {
            if let Some(c) = x_create_table(&toks) {
                c
            } else if let Some(c) = x_create_index(&toks) {
                c
            } else if let Some(c) = x_create_named_index(&toks) {
                c
            } else if let Some(c) = x_select(&toks) {
                c
            } else if let Some(c) = x_insert(&toks) {
                c
            } else if let Some(c) = x_delete(&toks) {
                c
            } else if let Some(c) = x_drop(&toks) {
                c
            } else {
                Vec::new()
            }
        },
    }
}

/// Lower-casing outside quotes: a scan that keeps quoted text (of either
/// quote kind) as it stands, honours backslash escapes, and lowers the
/// rest.  `q` is the open quote, `esc` whether the last character escaped
/// this one.
pub open spec fn lower_unquoted_spec(s: Seq<char>, q: Option<char>, esc: bool) -> Seq<char>
    decreases s.len(),
{
    if s.len() == 0 {
        Seq::empty()
    } else {
        let c = s[0];
        let out = if q is Some {
            c
        } else {
            crate::text::lower_char_spec(c)
        };
        let q2 = if esc {
            q
        } else if c == '\\' {
            q
        } else if q == Some(c) {
            None
        } else if (c == '"' || c == '\'') && q is None {
            Some(c)
        } else {
            q
        };
        let esc2 = if esc {
            false
        } else {
            c == '\\'
        };
        seq![out] + lower_unquoted_spec(s.drop_first(), q2, esc2)
    }
}

/// Lowers a statement's characters outside its quoted stretches.
pub fn lowercase_unquoted(input: &str) -> (r: String)
    ensures
        r@ == lower_unquoted_spec(input@, None, false),
{
    let cs = crate::text::chars_of(input);
    let n = cs.len();
    let mut out: Vec<char> = Vec::new();
    let mut q: Option<char> = None;
    let mut esc = false;
    let mut i: usize = 0;
    proof {
        assert(cs@.skip(0) =~= cs@);
        assert(out@ + lower_unquoted_spec(cs@.skip(0), q, esc) =~= lower_unquoted_spec(
            cs@,
            None,
            false,
        ));
    }
    while i < n
        invariant
            i <= n,
            n == cs@.len(),
            out@ + lower_unquoted_spec(cs@.skip(i as int), q, esc) == lower_unquoted_spec(
                cs@,
                None,
                false,
            ),
        decreases n - i,
    {
        let ghost pre_out = out@;
        let ghost pre_q = q;
        let ghost pre_esc = esc;
        proof {
            assert(cs@.skip(i as int)[0] == cs@[i as int]);
            assert(cs@.skip(i as int).drop_first() =~= cs@.skip(i + 1));
        }
        let c = cs[i];
        let out_c = if q.is_some() {
            c
        } else {
            crate::text::lower_char(c)
        };
        out.push(out_c);
        if esc {
            esc = false;
        } else if c == '\\' {
            esc = true;
        } else if (match q {
            Some(x) => x == c,
            None => false,
        }) {
            q = None;
        } else if (c == '"' || c == '\'') && q.is_none() {
            q = Some(c);
        }
        proof {
            assert(out@ + lower_unquoted_spec(cs@.skip(i + 1), q, esc) =~= pre_out
                + lower_unquoted_spec(cs@.skip(i as int), pre_q, pre_esc));
        }
        i = i + 1;
    }
    proof {
        assert(cs@.skip(n as int) =~= Seq::<char>::empty());
        assert(out@ + lower_unquoted_spec(cs@.skip(n as int), q, esc) =~= out@);
    }
    chars_to_string(&out)
}

/// The captures of the first statement pattern that matches the whole
/// statement, tried in a fixed order; empty if none does.
pub open spec fn spec_capture_command(s: Seq<char>) -> Seq<Seq<char>> {
    match spec_lex(s) {
        None => Seq::empty(),
        Some(ts) => {
            if sp_create_table(ts) is Some {
                sp_create_table(ts).unwrap()
            } else if sp_create_index(ts) is Some {
                sp_create_index(ts).unwrap()
            } else if sp_create_named_index(ts) is Some {
                sp_create_named_index(ts).unwrap()
            } else if sp_select(ts) is Some {
                sp_select(ts).unwrap()
            } else if sp_insert(ts) is Some {
                sp_insert(ts).unwrap()
            } else if sp_delete(ts) is Some {
                sp_delete(ts).unwrap()
            } else if sp_drop(ts) is Some {
                sp_drop(ts).unwrap()
            } else {
                Seq::empty()
            }
        },
    }
}

} // verus!
