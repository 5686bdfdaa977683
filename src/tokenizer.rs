//! Tokenizer with source coordinates, a cursor over its tokens, and caret
//! diagnostics.
use vstd::prelude::*;

use crate::libc::{lemma_digit_run_len, strtol, strtol_spec, value_of};

verus! {

/// A token of the source, with its text and its `(row, column)`.
#[derive(PartialOrd, PartialEq, Debug)]
pub enum Tokenkind {
    TkReserved { str: String, coord: (usize, usize) },
    TkNum { str: String, coord: (usize, usize), val: i64 },
    TkUnk { str: String, coord: (usize, usize) },
    TkEof,
}

/// The mathematical content of a [`Tokenkind`].
pub enum TokenView {
    Reserved { text: Seq<char>, row: nat, col: nat },
    Num { text: Seq<char>, row: nat, col: nat, val: int },
    Unk { text: Seq<char>, row: nat, col: nat },
    Eof,
}

impl View for Tokenkind {
    type V = TokenView;

    open spec fn view(&self) -> TokenView {
        match self {
            Tokenkind::TkReserved { str, coord } => TokenView::Reserved {
                text: str@,
                row: coord.0 as nat,
                col: coord.1 as nat,
            },
            Tokenkind::TkNum { str, coord, val } => TokenView::Num {
                text: str@,
                row: coord.0 as nat,
                col: coord.1 as nat,
                val: *val as int,
            },
            Tokenkind::TkUnk { str, coord } => TokenView::Unk {
                text: str@,
                row: coord.0 as nat,
                col: coord.1 as nat,
            },
            Tokenkind::TkEof => TokenView::Eof,
        }
    }
}

/// The views of a sequence of tokens.
pub open spec fn views(ts: Seq<Tokenkind>) -> Seq<TokenView> {
    ts.map_values(|t: Tokenkind| t@)
}

/// The text of a token; empty for the end marker.
pub open spec fn token_text(t: TokenView) -> Seq<char> {
    match t {
        TokenView::Reserved { text, .. } => text,
        TokenView::Num { text, .. } => text,
        TokenView::Unk { text, .. } => text,
        TokenView::Eof => Seq::empty(),
    }
}

/// The column of a token; none for the end marker.
pub open spec fn token_col(t: TokenView) -> Option<nat> {
    match t {
        TokenView::Reserved { col, .. } => Some(col),
        TokenView::Num { col, .. } => Some(col),
        TokenView::Unk { col, .. } => Some(col),
        TokenView::Eof => None,
    }
}

/// The tokens of `s` from character `i` on. Spaces are skipped, `+` and `-`
/// are operators, a run of decimal digits is a number; anything else ends
/// the scan with one unknown token holding the whole rest. The column of a
/// token is its character offset, the row is always 0, and an end marker
/// closes the sequence.
pub open spec fn scan_at(s: Seq<char>, i: nat) -> Seq<TokenView>
    decreases s.len() - i,
    via scan_at_decreases
{
    if i >= s.len() {
        seq![TokenView::Eof]
    } else if s[i as int] == ' ' {
        scan_at(s, i + 1)
    } else if s[i as int] == '+' || s[i as int] == '-' {
        seq![TokenView::Reserved { text: s.subrange(i as int, i + 1int), row: 0, col: i }] + scan_at(
            s,
            i + 1,
        )
    } else {
        match strtol_spec(s.skip(i as int), 10) {
            Ok((v, rest)) => {
                let n = (s.len() - i - rest.len()) as nat;
                seq![
                    TokenView::Num { text: s.subrange(i as int, (i + n) as int), row: 0, col: i, val: v },
                ] + scan_at(s, i + n)
            },
            Err(_) => seq![TokenView::Unk { text: s.skip(i as int), row: 0, col: i }, TokenView::Eof],
        }
    }
}

#[via_fn]
proof fn scan_at_decreases(s: Seq<char>, i: nat) {
    lemma_digit_run_len(s.skip(i as int), 10);
}

/// The tokens of the whole source `s`.
pub open spec fn scan(s: Seq<char>) -> Seq<TokenView> {
    scan_at(s, 0)
}

/// A scan ends with its only end marker.
pub proof fn lemma_scan_at_shape(s: Seq<char>, i: nat)
    ensures
        scan_at(s, i).len() >= 1,
        scan_at(s, i).last() is Eof,
        forall|k: int| 0 <= k < scan_at(s, i).len() - 1 ==> !(#[trigger] scan_at(s, i)[k] is Eof),
    decreases s.len() - i,
{
    if i >= s.len() {
    } else if s[i as int] == ' ' {
        lemma_scan_at_shape(s, i + 1);
    } else if s[i as int] == '+' || s[i as int] == '-' {
        lemma_scan_at_shape(s, i + 1);
        lemma_push_front_shape(
            TokenView::Reserved { text: s.subrange(i as int, i + 1int), row: 0, col: i },
            scan_at(s, i + 1),
        );
    } else {
        lemma_digit_run_len(s.skip(i as int), 10);
        match strtol_spec(s.skip(i as int), 10) {
            Ok((v, rest)) => {
                let n = (s.len() - i - rest.len()) as nat;
                lemma_scan_at_shape(s, i + n);
                lemma_push_front_shape(
                    TokenView::Num { text: s.subrange(i as int, (i + n) as int), row: 0, col: i, val: v },
                    scan_at(s, i + n),
                );
            },
            Err(_) => {},
        }
    }
}

proof fn lemma_push_front_shape(t: TokenView, ts: Seq<TokenView>)
    requires
        !(t is Eof),
        ts.len() >= 1,
        ts.last() is Eof,
        forall|k: int| 0 <= k < ts.len() - 1 ==> !(#[trigger] ts[k] is Eof),
    ensures
        (seq![t] + ts).len() >= 1,
        (seq![t] + ts).last() is Eof,
        forall|k: int| 0 <= k < (seq![t] + ts).len() - 1 ==> !(#[trigger] (seq![t] + ts)[k] is Eof),
{
    assert forall|k: int| 0 <= k < (seq![t] + ts).len() - 1 implies !(#[trigger] (seq![
        t,
    ] + ts)[k] is Eof) by {
        if k > 0 {
            assert((seq![t] + ts)[k] == ts[k - 1]);
        }
    }
}

/// Pushing a token pushes its view.
proof fn lemma_views_push(ts: Seq<Tokenkind>, t: Tokenkind)
    ensures
        views(ts.push(t)) == views(ts).push(t@),
{
    assert(views(ts.push(t)) =~= views(ts).push(t@));
}

/// `n` spaces.
pub open spec fn spaces(n: int) -> Seq<char> {
    Seq::new(n as nat, |_j: int| ' ')
}

/// The column that a diagnostic on token `ind` of `toks` points at: the
/// index is clamped to the last token, and the end marker stands after
/// the whole source `src`.
pub open spec fn caret_col(src: Seq<char>, toks: Seq<TokenView>, ind: int) -> nat {
    let i = if ind <= toks.len() - 1 { ind } else { toks.len() - 1 };
    match token_col(toks[i]) {
        Some(c) => c,
        None => src.len(),
    }
}

/// A two-line diagnostic: the source, then spaces up to the caret column,
/// `^`, a space and the message.
pub open spec fn render(src: Seq<char>, toks: Seq<TokenView>, ind: int, msg: Seq<char>) -> Seq<
    char,
> {
    src + seq!['\n'] + spaces(caret_col(src, toks, ind) as int) + seq!['^', ' '] + msg
}

/// The source text that `toks` were scanned from, up to the first unknown
/// token: each token's text, preceded by the spaces between the end of the
/// previous token (`pos`) and its column; after the last token, spaces up to
/// `end`.
pub open spec fn rebuild(toks: Seq<TokenView>, pos: int, end: int) -> Seq<char>
    decreases toks.len(),
{
    if toks.len() == 0 {
        Seq::empty()
    } else {
        match toks[0] {
            TokenView::Reserved { text, col, .. } => spaces(col - pos) + text + rebuild(
                toks.drop_first(),
                (col + text.len()) as int,
                end,
            ),
            TokenView::Num { text, col, .. } => spaces(col - pos) + text + rebuild(
                toks.drop_first(),
                (col + text.len()) as int,
                end,
            ),
            TokenView::Unk { col, .. } => spaces(col - pos),
            TokenView::Eof => spaces(end - pos),
        }
    }
}

/// The text of the first unknown token of `toks`, or nothing.
pub open spec fn unknown_tail(toks: Seq<TokenView>) -> Seq<char>
    decreases toks.len(),
{
    if toks.len() == 0 {
        Seq::empty()
    } else {
        match toks[0] {
            TokenView::Unk { text, .. } => text,
            TokenView::Eof => Seq::empty(),
            _ => unknown_tail(toks.drop_first()),
        }
    }
}

/// The texts of the operator and number tokens, with the runs of spaces
/// skipped between them, give back the source up to where the scan stopped;
/// the unknown token, if any, holds exactly the rest.
pub proof fn lemma_scan_reproduces_source(s: Seq<char>)
    ensures
        rebuild(scan(s), 0, s.len() as int) + unknown_tail(scan(s)) == s,
{
    assert(s.subrange(0, 0) =~= spaces(0));
    lemma_scan_at_reproduces(s, 0, 0);
    assert(s.subrange(0, s.len() as int) =~= s);
}

proof fn lemma_scan_at_reproduces(s: Seq<char>, p: nat, i: nat)
    requires
        p <= i <= s.len(),
        s.subrange(p as int, i as int) == spaces(i - p),
    ensures
        rebuild(scan_at(s, i), p as int, s.len() as int) + unknown_tail(scan_at(s, i)) == s.subrange(
            p as int,
            s.len() as int,
        ),
    decreases s.len() - i,
{
    let toks = scan_at(s, i);
    if i >= s.len() {
        assert(toks.drop_first().len() == 0);
        assert(rebuild(toks, p as int, s.len() as int) == spaces(s.len() - p));
        assert(unknown_tail(toks) =~= Seq::<char>::empty());
        assert(spaces(s.len() - p) + Seq::<char>::empty() =~= spaces(s.len() - p));
    } else if s[i as int] == ' ' {
        assert(s.subrange(p as int, i + 1int) =~= spaces(i + 1 - p));
        lemma_scan_at_reproduces(s, p, i + 1);
    } else if s[i as int] == '+' || s[i as int] == '-' {
        assert(s.subrange(i + 1int, i + 1int) =~= spaces(0));
        lemma_scan_at_reproduces(s, i + 1, i + 1);
        assert(s.subrange(p as int, s.len() as int) =~= s.subrange(p as int, i as int) + s.subrange(
            i as int,
            i + 1int,
        ) + s.subrange(i + 1int, s.len() as int));
        let t = TokenView::Reserved { text: s.subrange(i as int, i + 1int), row: 0, col: i };
        assert(toks[0] == t);
        assert(toks.drop_first() =~= scan_at(s, i + 1));
        let r = rebuild(scan_at(s, i + 1), i + 1int, s.len() as int);
        let u = unknown_tail(scan_at(s, i + 1));
        assert(rebuild(toks, p as int, s.len() as int) == spaces(i - p) + s.subrange(
            i as int,
            i + 1int,
        ) + r);
        assert(unknown_tail(toks) == u);
        assert(spaces(i - p) + s.subrange(i as int, i + 1int) + r + u =~= s.subrange(
            p as int,
            s.len() as int,
        ));
    } else {
        lemma_digit_run_len(s.skip(i as int), 10);
        match strtol_spec(s.skip(i as int), 10) {
            Ok((v, rest)) => {
                let n = (s.len() - i - rest.len()) as nat;
                assert(s.subrange((i + n) as int, (i + n) as int) =~= spaces(0));
                lemma_scan_at_reproduces(s, i + n, i + n);
                assert(s.subrange(p as int, s.len() as int) =~= s.subrange(p as int, i as int)
                    + s.subrange(i as int, (i + n) as int) + s.subrange((i + n) as int, s.len() as int));
                let t = TokenView::Num {
                    text: s.subrange(i as int, (i + n) as int),
                    row: 0,
                    col: i,
                    val: v,
                };
                assert(toks[0] == t);
                assert(toks.drop_first() =~= scan_at(s, i + n));
                let r = rebuild(scan_at(s, i + n), (i + n) as int, s.len() as int);
                let u = unknown_tail(scan_at(s, i + n));
                assert(rebuild(toks, p as int, s.len() as int) == spaces(i - p) + s.subrange(
                    i as int,
                    (i + n) as int,
                ) + r);
                assert(unknown_tail(toks) == u);
                assert(spaces(i - p) + s.subrange(i as int, (i + n) as int) + r + u =~= s.subrange(
                    p as int,
                    s.len() as int,
                ));
            },
            Err(_) => {
                assert(rebuild(toks, p as int, s.len() as int) == spaces(i - p));
                assert(unknown_tail(toks) == s.skip(i as int));
                assert(s.subrange(p as int, s.len() as int) =~= s.subrange(p as int, i as int)
                    + s.skip(i as int));
            },
        }
    }
}

/// Token `t` lies in `s` at its coordinate: row 0, a non-empty text equal to
/// the characters of `s` at its column, an operator of one character, a
/// number whose value is that of its decimal text, and an unknown token
/// that holds the whole rest of `s`.
pub open spec fn token_fits(s: Seq<char>, t: TokenView) -> bool {
    match t {
        TokenView::Reserved { text, row, col } => {
            &&& row == 0
            &&& col + 1 <= s.len()
            &&& text == s.subrange(col as int, col + 1int)
            &&& (text[0] == '+' || text[0] == '-')
        },
        TokenView::Num { text, row, col, val } => {
            &&& row == 0
            &&& text.len() > 0
            &&& col + text.len() <= s.len()
            &&& text == s.subrange(col as int, (col + text.len()) as int)
            &&& val == value_of(text, 10)
        },
        TokenView::Unk { text, row, col } => {
            &&& row == 0
            &&& col < s.len()
            &&& text == s.skip(col as int)
        },
        TokenView::Eof => true,
    }
}

/// The column just after the text of `t`.
pub open spec fn token_end(t: TokenView) -> nat {
    match token_col(t) {
        Some(c) => c + token_text(t).len(),
        None => 0,
    }
}

/// Every token of a scan lies in the source at its coordinate, and each
/// token ends at or before the column where the next one starts.
pub proof fn lemma_scan_tokens_fit(s: Seq<char>)
    ensures
        forall|k: int| 0 <= k < scan(s).len() ==> token_fits(s, #[trigger] scan(s)[k]),
        forall|k: int|
            0 <= k < scan(s).len() - 2 ==> token_end(#[trigger] scan(s)[k]) <= token_col(
                scan(s)[k + 1],
            )->Some_0,
{
    lemma_scan_at_fit(s, 0);
}

proof fn lemma_scan_at_fit(s: Seq<char>, i: nat)
    ensures
        forall|k: int| 0 <= k < scan_at(s, i).len() ==> token_fits(s, #[trigger] scan_at(s, i)[k]),
        forall|k: int|
            0 <= k < scan_at(s, i).len() - 1 ==> token_col(#[trigger] scan_at(s, i)[k]) is Some
                && i <= token_col(scan_at(s, i)[k])->Some_0,
        forall|k: int|
            0 <= k < scan_at(s, i).len() - 2 ==> token_end(#[trigger] scan_at(s, i)[k]) <= token_col(
                scan_at(s, i)[k + 1],
            )->Some_0,
    decreases s.len() - i,
{
    lemma_scan_at_shape(s, i);
    let toks = scan_at(s, i);
    if i >= s.len() {
    } else if s[i as int] == ' ' {
        lemma_scan_at_fit(s, i + 1);
    } else if s[i as int] == '+' || s[i as int] == '-' {
        lemma_scan_at_fit(s, i + 1);
        lemma_scan_at_shape(s, i + 1);
        let rest = scan_at(s, i + 1);
        let t = TokenView::Reserved { text: s.subrange(i as int, i + 1int), row: 0, col: i };
        assert(toks == seq![t] + rest);
        lemma_cons_fit(s, t, rest, i, i + 1);
    } else {
        lemma_digit_run_len(s.skip(i as int), 10);
        match strtol_spec(s.skip(i as int), 10) {
            Ok((v, r)) => {
                let n = (s.len() - i - r.len()) as nat;
                lemma_scan_at_fit(s, i + n);
                lemma_scan_at_shape(s, i + n);
                let rest = scan_at(s, i + n);
                let t = TokenView::Num {
                    text: s.subrange(i as int, (i + n) as int),
                    row: 0,
                    col: i,
                    val: v,
                };
                assert(s.skip(i as int).take(n as int) =~= s.subrange(i as int, (i + n) as int));
                assert(toks == seq![t] + rest);
                lemma_cons_fit(s, t, rest, i, i + n);
            },
            Err(_) => {
                assert(token_fits(s, toks[0]));
                assert(token_fits(s, toks[1]));
            },
        }
    }
}

proof fn lemma_cons_fit(s: Seq<char>, t: TokenView, rest: Seq<TokenView>, i: nat, j: nat)
    requires
        token_fits(s, t),
        !(t is Eof),
        token_col(t) == Some(i),
        token_end(t) == j,
        rest.len() >= 1,
        forall|k: int| 0 <= k < rest.len() ==> token_fits(s, #[trigger] rest[k]),
        forall|k: int|
            0 <= k < rest.len() - 1 ==> token_col(#[trigger] rest[k]) is Some && j <= token_col(
                rest[k],
            )->Some_0,
        forall|k: int|
            0 <= k < rest.len() - 2 ==> token_end(#[trigger] rest[k]) <= token_col(
                rest[k + 1],
            )->Some_0,
    ensures
        forall|k: int|
            0 <= k < (seq![t] + rest).len() ==> token_fits(s, #[trigger] (seq![t] + rest)[k]),
        forall|k: int|
            0 <= k < (seq![t] + rest).len() - 1 ==> token_col(#[trigger] (seq![t] + rest)[k]) is Some
                && i <= token_col((seq![t] + rest)[k])->Some_0,
        forall|k: int|
            0 <= k < (seq![t] + rest).len() - 2 ==> token_end(#[trigger] (seq![t] + rest)[k])
                <= token_col((seq![t] + rest)[k + 1])->Some_0,
{
    let all = seq![t] + rest;
    assert forall|k: int| 0 <= k < all.len() implies token_fits(s, #[trigger] all[k]) by {
        if k > 0 {
            assert(all[k] == rest[k - 1]);
        }
    }
    assert forall|k: int| 0 <= k < all.len() - 1 implies token_col(#[trigger] all[k]) is Some && i
        <= token_col(all[k])->Some_0 by {
        if k > 0 {
            assert(all[k] == rest[k - 1]);
        }
    }
    assert forall|k: int| 0 <= k < all.len() - 2 implies token_end(#[trigger] all[k]) <= token_col(
        all[k + 1],
    )->Some_0 by {
        assert(all[k + 1] == rest[k]);
        if k > 0 {
            assert(all[k] == rest[k - 1]);
        }
    }
}

/// `a` and `b` hold the same characters.
fn str_eq(a: &str, b: &str) -> (r: bool)
    ensures
        r == (a@ == b@),
{
    let n = a.unicode_len();
    if n != b.unicode_len() {
        return false;
    }
    let mut i: usize = 0;
    while i < n
        invariant
            n == a@.len(),
            n == b@.len(),
            i <= n,
            forall|j: int| 0 <= j < i ==> a@[j] == b@[j],
        decreases n - i,
    {
        if a.get_char(i) != b.get_char(i) {
            return false;
        }
        i = i + 1;
    }
    assert(a@ =~= b@);
    true
}

/// A cursor over the tokens of one source string.
pub struct Tokenizer {
    program: String,
    tokens: Vec<Tokenkind>,
    index: usize,
}

impl Tokenizer {
    /// The source text.
    pub closed spec fn source(&self) -> Seq<char> {
        self.program@
    }

    /// The tokens of the source.
    pub closed spec fn tokens(&self) -> Seq<TokenView> {
        views(self.tokens@)
    }

    /// The index of the current token.
    pub closed spec fn pos(&self) -> nat {
        self.index as nat
    }

    /// The tokens are the scan of the source, and the cursor is on one of them.
    pub open spec fn wf(&self) -> bool {
        &&& self.tokens() == scan(self.source())
        &&& self.pos() < self.tokens().len()
    }

    /// The current token.
    pub open spec fn current(&self) -> TokenView {
        self.tokens()[self.pos() as int]
    }

    /// Scans `s` and puts the cursor on its first token.
    pub fn new(s: &String) -> (r: Tokenizer)
        ensures
            r.wf(),
            r.source() == s@,
            r.pos() == 0,
    {
        let tokens = Tokenizer::parse(s);
        proof {
            lemma_scan_at_shape(s@, 0);
        }
        Tokenizer { program: s.clone(), tokens, index: 0 }
    }

    /// Scans the whole of `s` into tokens, ended by `TkEof`.
    pub fn parse(s: &String) -> (r: Vec<Tokenkind>)
        ensures
            views(r@) == scan(s@),
    {
        let len = s.as_str().unicode_len();
        let mut col: usize = 0;
        let mut rest: String = s.clone();
        let mut ans: Vec<Tokenkind> = Vec::new();
        assert(s@.skip(0) =~= s@);
        assert(views(ans@) + scan_at(s@, 0) =~= scan(s@));
        while col < len
            invariant
                len == s@.len(),
                col <= len,
                rest@ == s@.skip(col as int),
                views(ans@) + scan_at(s@, col as nat) == scan(s@),
            decreases len - col,
        {
            let c = rest.as_str().get_char(0);
            assert(c == s@[col as int]);
            if c == ' ' {
                rest = String::from_str(rest.as_str().substring_char(1, len - col));
                assert(rest@ =~= s@.skip(col + 1));
                col = col + 1;
            } else if c == '+' || c == '-' {
                let token = String::from_str(rest.as_str().substring_char(0, 1));
                rest = String::from_str(rest.as_str().substring_char(1, len - col));
                let t = Tokenkind::TkReserved { str: token, coord: (0, col) };
                proof {
                    assert(token@ =~= s@.subrange(col as int, col + 1int));
                    assert(rest@ =~= s@.skip(col + 1));
                    lemma_views_push(ans@, t);
                    assert(views(ans@.push(t)) + scan_at(s@, (col + 1) as nat) =~= views(ans@)
                        + scan_at(s@, col as nat));
                }
                ans.push(t);
                col = col + 1;
            } else {
                proof {
                    lemma_digit_run_len(s@.skip(col as int), 10);
                }
                match strtol(&rest, 10) {
                    Ok((val, parsed_rest)) => {
                        let consumed = (len - col) - parsed_rest.as_str().unicode_len();
                        let token = String::from_str(rest.as_str().substring_char(0, consumed));
                        let t = Tokenkind::TkNum { str: token, coord: (0, col), val };
                        proof {
                            assert(token@ =~= s@.subrange(col as int, col + consumed));
                            assert(parsed_rest@ =~= s@.skip(col + consumed));
                            lemma_views_push(ans@, t);
                            assert(views(ans@.push(t)) + scan_at(s@, (col + consumed) as nat)
                                =~= views(ans@) + scan_at(s@, col as nat));
                        }
                        ans.push(t);
                        rest = parsed_rest;
                        col = col + consumed;
                    },
                    Err(_) => {
                        let t = Tokenkind::TkUnk { str: rest, coord: (0, col) };
                        proof {
                            lemma_views_push(ans@, t);
                            lemma_views_push(ans@.push(t), Tokenkind::TkEof);
                        }
                        ans.push(t);
                        ans.push(Tokenkind::TkEof);
                        assert(views(ans@) =~= scan(s@));
                        return ans;
                    },
                }
            }
        }
        proof {
            lemma_views_push(ans@, Tokenkind::TkEof);
        }
        ans.push(Tokenkind::TkEof);
        assert(views(ans@) =~= scan(s@));
        ans
    }

    fn cur(&self) -> (r: &Tokenkind)
        requires
            self.wf(),
        ensures
            r@ == self.current(),
    {
        &self.tokens[self.index]
    }

    /// The text of the current token; empty at the end of input.
    pub fn cur_str(&self) -> (r: &str)
        requires
            self.wf(),
        ensures
            r@ == token_text(self.current()),
    {
        proof {
            reveal_strlit("");
        }
        match self.cur() {
            Tokenkind::TkReserved { str: s, coord: _ }
            | Tokenkind::TkNum { str: s, coord: _, val: _ }
            | Tokenkind::TkUnk { str: s, coord: _ } => s.as_str(),
            Tokenkind::TkEof => "",
        }
    }

    /// Consumes the current token if its text is `arg`; the end marker is
    /// never consumed.
    pub fn expect_op(&mut self, arg: &str) -> (r: bool)
        requires
            old(self).wf(),
        ensures
            final(self).wf(),
            final(self).source() == old(self).source(),
            final(self).tokens() == old(self).tokens(),
            r == (!(old(self).current() is Eof) && token_text(old(self).current()) == arg@),
            final(self).pos() == old(self).pos() + if r { 1nat } else { 0nat },
    {
        proof {
            lemma_scan_at_shape(self.source(), 0);
            reveal_strlit("");
        }
        if self.expect_eof() {
            return false;
        }
        if str_eq(self.cur_str(), arg) {
            let n = self.tokens.len();
            assert(self.index < n - 1);
            self.index = self.index + 1;
            return true;
        }
        false
    }

    /// Consumes the current token if it is a number, and returns its value.
    pub fn expect_number(&mut self) -> (r: Option<i64>)
        requires
            old(self).wf(),
        ensures
            final(self).wf(),
            final(self).source() == old(self).source(),
            final(self).tokens() == old(self).tokens(),
            match old(self).current() {
                TokenView::Num { val, .. } => r == Some(val as i64) && val == r->Some_0 as int
                    && final(self).pos() == old(self).pos() + 1,
                _ => r is None && final(self).pos() == old(self).pos(),
            },
    {
        proof {
            lemma_scan_at_shape(self.source(), 0);
        }
        match self.cur() {
            Tokenkind::TkNum { str: _, coord: _, val: num } => {
                let v = *num;
                let n = self.tokens.len();
                assert(self.index < n - 1);
                self.index = self.index + 1;
                Some(v)
            },
            _ => None,
        }
    }

    /// The current token is the end marker.
    pub fn expect_eof(&self) -> (r: bool)
        requires
            self.wf(),
        ensures
            r == (self.current() is Eof),
    {
        match self.cur() {
            Tokenkind::TkEof => true,
            _ => false,
        }
    }

    /// The coordinate of `token`; none for the end marker.
    pub fn get_coord(&self, token: &Tokenkind) -> (r: Option<(usize, usize)>)
        ensures
            match token {
                Tokenkind::TkReserved { coord, .. } => r == Some(*coord),
                Tokenkind::TkNum { coord, .. } => r == Some(*coord),
                Tokenkind::TkUnk { coord, .. } => r == Some(*coord),
                Tokenkind::TkEof => r is None,
            },
    {
        match *token {
            Tokenkind::TkReserved { str: _, coord: c }
            | Tokenkind::TkNum { str: _, coord: c, val: _ }
            | Tokenkind::TkUnk { str: _, coord: c } => Some(c),
            Tokenkind::TkEof => None,
        }
    }

    fn error_at(&self, token_ind: usize, msg: &str) -> (r: String)
        requires
            self.wf(),
        ensures
            r@ == render(self.source(), self.tokens(), token_ind as int, msg@),
    {
        let coord_row: usize = 0;
        let last = self.tokens.len() - 1;
        let ind = if token_ind <= last {
            token_ind
        } else {
            last
        };
        let coord = match self.get_coord(&self.tokens[ind]) {
            Some(c) => c,
            None => (coord_row, self.program.as_str().unicode_len()),
        };
        let mut out = self.program.clone();
        proof {
            reveal_strlit("\n");
            reveal_strlit(" ");
            reveal_strlit("^ ");
        }
        out.append("\n");
        let mut k: usize = 0;
        while k < coord.1
            invariant
                k <= coord.1,
                out@ == self.program@ + seq!['\n'] + spaces(k as int),
            decreases coord.1 - k,
        {
            proof {
                reveal_strlit(" ");
            }
            out.append(" ");
            assert(spaces(k + 1) =~= spaces(k as int) + seq![' ']);
            k = k + 1;
        }
        out.append("^ ");
        out.append(msg);
        proof {
            let col = caret_col(self.source(), self.tokens(), token_ind as int);
            assert(col == coord.1);
        }
        out
    }

    /// The diagnostic for the current token: the source, then a caret under
    /// the token's column followed by `msg`.
    pub fn error_at_cur(&self, msg: &str) -> (r: String)
        requires
            self.wf(),
        ensures
            r@ == render(self.source(), self.tokens(), self.pos() as int, msg@),
    {
        self.error_at(self.index, msg)
    }
}

} // verus!
