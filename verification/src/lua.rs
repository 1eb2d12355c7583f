//! A reader for the strict subset of Lua that Lightroom `.lrtemplate` files use: nested tables,
//! quoted and long-bracket strings, numbers and booleans (no functions, metatables or expressions).
//!
//! The grammar is given as spec functions over the input bytes (`value_at`, `table_body`, …); the
//! executable [`Parser`] is proved to follow it exactly, including which error a malformed input
//! yields.

use vstd::prelude::*;
use vstd::string::StringSliceAdditionalSpecFns;

use crate::text::{chars_of, is_float_literal, is_float_literal_chars, lossy_string, lossy_text};

verus! {

/// Maximum table nesting. Real `.lrtemplate` files nest about five levels; the bound keeps a
/// hostile input of nested `{` from exhausting the stack.
pub const MAX_DEPTH: usize = 64;

/// A parsed Lua value. Numbers keep their literal text, which is a well-formed decimal literal;
/// strings are decoded lossily from UTF-8.
#[derive(Debug)]
pub enum Lua {
    Num(String),
    Str(String),
    Bool(bool),
    Table(LuaTable),
}

/// A Lua table: its keyed entries (keys distinct, in first-insertion order) and its positional
/// items.
#[derive(Debug)]
pub struct LuaTable {
    pub map: Vec<(String, Lua)>,
    pub arr: Vec<Lua>,
}

/// The mathematical value of a [`Lua`]: a table is a finite map from keys to values plus the
/// sequence of positional items.
pub enum LuaTree {
    Num(Seq<char>),
    Str(Seq<char>),
    Bool(bool),
    Table(Map<Seq<char>, LuaTree>, Seq<LuaTree>),
}

impl Lua {
    pub open spec fn tree(self) -> LuaTree
        decreases self,
    {
        match self {
            Lua::Num(t) => LuaTree::Num(t@),
            Lua::Str(t) => LuaTree::Str(t@),
            Lua::Bool(b) => LuaTree::Bool(b),
            Lua::Table(t) => LuaTree::Table(entries_tree(t.map@), items_tree(t.arr@)),
        }
    }

    /// Every table inside holds each key once.
    pub open spec fn wf(self) -> bool
        decreases self,
    {
        match self {
            Lua::Table(t) => keys_unique(t.map@) && entries_wf(t.map@) && items_wf(t.arr@),
            _ => true,
        }
    }
}

/// The map of a table's keyed entries; a later entry for a key overrides an earlier one.
pub open spec fn entries_tree(e: Seq<(String, Lua)>) -> Map<Seq<char>, LuaTree>
    decreases e,
{
    if e.len() == 0 {
        Map::empty()
    } else {
        entries_tree(e.drop_last()).insert(e.last().0@, e.last().1.tree())
    }
}

pub open spec fn items_tree(v: Seq<Lua>) -> Seq<LuaTree>
    decreases v,
{
    if v.len() == 0 {
        Seq::empty()
    } else {
        items_tree(v.drop_last()).push(v.last().tree())
    }
}

pub open spec fn entries_wf(e: Seq<(String, Lua)>) -> bool
    decreases e,
{
    if e.len() == 0 {
        true
    } else {
        entries_wf(e.drop_last()) && e.last().1.wf()
    }
}

pub open spec fn items_wf(v: Seq<Lua>) -> bool
    decreases v,
{
    if v.len() == 0 {
        true
    } else {
        items_wf(v.drop_last()) && v.last().wf()
    }
}

pub open spec fn keys_unique(e: Seq<(String, Lua)>) -> bool {
    forall|i: int, j: int| 0 <= i < j < e.len() ==> #[trigger] e[i].0@ != #[trigger] e[j].0@
}

/// Why a Lua text was rejected.
#[derive(Debug)]
pub enum LuaError {
    TooDeep,
    UnexpectedEnd,
    UnterminatedString,
    BadLongBracket,
    UnterminatedLongString,
    BadNumber(String),
    UnexpectedToken,
    UnterminatedTable,
}

/// The mathematical value of a [`LuaError`].
pub enum LuaFault {
    TooDeep,
    UnexpectedEnd,
    UnterminatedString,
    BadLongBracket,
    UnterminatedLongString,
    BadNumber(Seq<char>),
    UnexpectedToken,
    UnterminatedTable,
}

impl LuaError {
    pub open spec fn fault(self) -> LuaFault {
        match self {
            LuaError::TooDeep => LuaFault::TooDeep,
            LuaError::UnexpectedEnd => LuaFault::UnexpectedEnd,
            LuaError::UnterminatedString => LuaFault::UnterminatedString,
            LuaError::BadLongBracket => LuaFault::BadLongBracket,
            LuaError::UnterminatedLongString => LuaFault::UnterminatedLongString,
            LuaError::BadNumber(t) => LuaFault::BadNumber(t@),
            LuaError::UnexpectedToken => LuaFault::UnexpectedToken,
            LuaError::UnterminatedTable => LuaFault::UnterminatedTable,
        }
    }
}

/// The text that describes a fault.
pub open spec fn fault_message(f: LuaFault) -> Seq<char> {
    match f {
        LuaFault::TooDeep => "table nesting too deep"@,
        LuaFault::UnexpectedEnd => "unexpected end of input"@,
        LuaFault::UnterminatedString => "unterminated string"@,
        LuaFault::BadLongBracket => "bad long-bracket opener"@,
        LuaFault::UnterminatedLongString => "unterminated long string"@,
        LuaFault::BadNumber(t) => "bad number '"@ + t + "'"@,
        LuaFault::UnexpectedToken => "unexpected token"@,
        LuaFault::UnterminatedTable => "unterminated table"@,
    }
}

impl LuaError {
    /// The text that describes this error.
    pub fn message(&self) -> (r: String)
        ensures
            r@ == fault_message(self.fault()),
    {
        match self {
            LuaError::TooDeep => "table nesting too deep".to_owned(),
            LuaError::UnexpectedEnd => "unexpected end of input".to_owned(),
            LuaError::UnterminatedString => "unterminated string".to_owned(),
            LuaError::BadLongBracket => "bad long-bracket opener".to_owned(),
            LuaError::UnterminatedLongString => "unterminated long string".to_owned(),
            LuaError::BadNumber(t) => {
                let mut m = "bad number '".to_owned();
                m.append(t.as_str());
                m.append("'");
                m
            },
            LuaError::UnexpectedToken => "unexpected token".to_owned(),
            LuaError::UnterminatedTable => "unterminated table".to_owned(),
        }
    }
}

/// The outcome of reading one item at a position: the item and the position after it, or a fault.
pub enum Step<T> {
    Done(T, int),
    Fail(LuaFault),
}

// ── Lexical classes ───────────────────────────────────────────────────────────────────────────

/// ASCII whitespace as `u8::is_ascii_whitespace` defines it (no vertical tab).
pub open spec fn is_space(c: u8) -> bool {
    c == 32 || c == 9 || c == 10 || c == 12 || c == 13
}

/// Letters, digits and `_`.
pub open spec fn is_word_byte(c: u8) -> bool {
    (48 <= c <= 57) || (65 <= c <= 90) || (97 <= c <= 122) || c == 95
}

/// Digits, `.`, `-`, `+`, `e`, `E`.
pub open spec fn is_num_byte(c: u8) -> bool {
    (48 <= c <= 57) || c == 46 || c == 45 || c == 43 || c == 101 || c == 69
}

/// Position after the whitespace and `--` line comments that start at `i`.
pub open spec fn ws_end(s: Seq<u8>, i: int) -> int
    decreases s.len() - i, 1int,
{
    if 0 <= i < s.len() && is_space(s[i]) {
        ws_end(s, i + 1)
    } else if 0 <= i && i + 1 < s.len() && s[i] == 45 && s[i + 1] == 45 {
        comment_end(s, i + 2)
    } else {
        i
    }
}

/// Inside a line comment: position after the comment's newline and the whitespace that follows.
pub open spec fn comment_end(s: Seq<u8>, i: int) -> int
    decreases s.len() - i, 0int,
{
    if 0 <= i < s.len() {
        if s[i] == 10 {
            ws_end(s, i + 1)
        } else {
            comment_end(s, i + 1)
        }
    } else {
        i
    }
}

/// End of the run of bytes satisfying `p` that starts at `i`.
pub open spec fn run_end(s: Seq<u8>, i: int, p: spec_fn(u8) -> bool) -> int
    decreases s.len() - i,
{
    if 0 <= i < s.len() && p(s[i]) {
        run_end(s, i + 1, p)
    } else {
        i
    }
}

pub open spec fn eq_run_end(s: Seq<u8>, i: int) -> int {
    run_end(s, i, |c: u8| c == 61)
}

pub open spec fn word_end(s: Seq<u8>, i: int) -> int {
    run_end(s, i, |c: u8| is_word_byte(c))
}

pub open spec fn num_end(s: Seq<u8>, i: int) -> int {
    run_end(s, i, |c: u8| is_num_byte(c))
}

/// A long-bracket opener at `i`: `[`, any number of `=`, `[`.
pub open spec fn long_bracket_at(s: Seq<u8>, i: int) -> bool {
    &&& 0 <= i < s.len()
    &&& s[i] == 91
    &&& eq_run_end(s, i + 1) < s.len()
    &&& s[eq_run_end(s, i + 1)] == 91
}

// ── Strings ───────────────────────────────────────────────────────────────────────────────────

/// The escape `\c` stands for newline (`n`), tab (`t`) or `c` itself.
pub open spec fn unescape(c: u8) -> u8 {
    if c == 110 {
        10
    } else if c == 116 {
        9
    } else {
        c
    }
}

/// Scans a quoted string body from `j` up to the closing `q`, resolving escapes into `acc`.
pub open spec fn quoted_scan(s: Seq<u8>, j: int, q: u8, acc: Seq<u8>) -> Option<(Seq<u8>, int)>
    decreases s.len() - j,
{
    if j < 0 || j >= s.len() {
        None
    } else if s[j] == q {
        Some((acc, j + 1))
    } else if s[j] == 92 {
        if j + 1 < s.len() {
            quoted_scan(s, j + 2, q, acc.push(unescape(s[j + 1])))
        } else {
            None
        }
    } else {
        quoted_scan(s, j + 1, q, acc.push(s[j]))
    }
}

/// A string quoted by whatever byte stands at `i`: its resolved bytes and the position after the
/// closing quote, or `None` when it does not close.
pub open spec fn quoted_at(s: Seq<u8>, i: int) -> Option<(Seq<u8>, int)> {
    if 0 <= i < s.len() {
        quoted_scan(s, i + 1, s[i], Seq::empty())
    } else {
        None
    }
}

/// A run of bytes that are neither the quote nor a backslash is taken over as it is.
proof fn lemma_plain_run(s: Seq<u8>, j: int, k: int, q: u8, acc: Seq<u8>)
    requires
        0 <= j <= k <= s.len(),
        forall|t: int| j <= t < k ==> #[trigger] s[t] != q && s[t] != 92,
    ensures
        quoted_scan(s, j, q, acc) == quoted_scan(s, k, q, acc + s.subrange(j, k)),
    decreases k - j,
{
    if j < k {
        assert(s[j] != q && s[j] != 92);
        lemma_plain_run(s, j + 1, k, q, acc.push(s[j]));
        assert(acc.push(s[j]) + s.subrange(j + 1, k) =~= acc + s.subrange(j, k));
    } else {
        assert(acc + s.subrange(j, k) =~= acc);
    }
}

/// In a quoted string a backslash escape is resolved: `\n` gives the newline byte 10, `\t` the
/// tab byte 9, and a backslash before any other byte gives that byte; scanning then goes on after
/// the two bytes of the escape.
pub proof fn law_escape_step(s: Seq<u8>, j: int, q: u8, acc: Seq<u8>)
    requires
        0 <= j,
        j + 1 < s.len(),
        s[j] == 92,
        q != 92,
    ensures
        s[j + 1] == 110 ==> quoted_scan(s, j, q, acc) == quoted_scan(s, j + 2, q, acc.push(10u8)),
        s[j + 1] == 116 ==> quoted_scan(s, j, q, acc) == quoted_scan(s, j + 2, q, acc.push(9u8)),
        s[j + 1] != 110 && s[j + 1] != 116 ==> quoted_scan(s, j, q, acc) == quoted_scan(s, j + 2, q, acc.push(s[j + 1])),
{
}

/// A quoted string `q a \n b q` (or `q a \t b q`), with `a` and `b` free of the quote and of
/// backslashes, reads as `a`, then the newline byte 10 (the tab byte 9), then `b`; whatever follows
/// the closing quote is not read.
pub proof fn law_quoted_escape(q: u8, a: Seq<u8>, e: u8, b: Seq<u8>, rest: Seq<u8>)
    requires
        q != 92,
        e == 110 || e == 116,
        forall|t: int| 0 <= t < a.len() ==> #[trigger] a[t] != q && a[t] != 92,
        forall|t: int| 0 <= t < b.len() ==> #[trigger] b[t] != q && b[t] != 92,
    ensures
        quoted_at(seq![q] + a + seq![92u8, e] + b + seq![q] + rest, 0) == Some((
            a.push(if e == 110 { 10u8 } else { 9u8 }) + b,
            (a.len() + b.len() + 4) as int,
        )),
{
    let s = seq![q] + a + seq![92u8, e] + b + seq![q] + rest;
    let la = a.len() as int;
    let lb = b.len() as int;
    assert(s[0] == q);
    assert forall|t: int| 1 <= t < 1 + la implies #[trigger] s[t] != q && s[t] != 92 by {
        assert(s[t] == a[t - 1]);
    }
    lemma_plain_run(s, 1, 1 + la, q, Seq::empty());
    assert(s.subrange(1, 1 + la) =~= a);
    assert(Seq::<u8>::empty() + a =~= a);
    assert(s[1 + la] == 92 && s[2 + la] == e);
    let c = if e == 110 { 10u8 } else { 9u8 };
    law_escape_step(s, 1 + la, q, a);
    assert forall|t: int| 3 + la <= t < 3 + la + lb implies #[trigger] s[t] != q && s[t] != 92 by {
        assert(s[t] == b[t - 3 - la]);
    }
    lemma_plain_run(s, 3 + la, 3 + la + lb, q, a.push(c));
    assert(s.subrange(3 + la, 3 + la + lb) =~= b);
    assert(s[3 + la + lb] == q);
}

/// From `j`, the first `]`, `level` times `=`, `]`: the positions of its first byte and after it.
pub open spec fn long_close_scan(s: Seq<u8>, j: int, level: int) -> Option<(int, int)>
    decreases s.len() - j,
{
    if j < 0 || j >= s.len() {
        None
    } else if s[j] == 93 && eq_run_end(s, j + 1) - (j + 1) == level && eq_run_end(s, j + 1)
        < s.len() && s[eq_run_end(s, j + 1)] == 93 {
        Some((j, eq_run_end(s, j + 1) + 1))
    } else {
        long_close_scan(s, j + 1, level)
    }
}

/// A long-bracket string whose opener starts at `i` (the byte at `i` is taken as its `[`). One
/// newline (`\n` or `\r\n`) right after the opener is not part of the text.
pub open spec fn long_string_at(s: Seq<u8>, i: int) -> Step<Seq<u8>> {
    let p0 = if 0 <= i < s.len() {
        i + 1
    } else {
        i
    };
    let k = eq_run_end(s, p0);
    if !(0 <= k < s.len() && s[k] == 91) {
        Step::Fail(LuaFault::BadLongBracket)
    } else {
        let p1 = k + 1;
        let p2 = if p1 < s.len() && s[p1] == 13 {
            p1 + 1
        } else {
            p1
        };
        let p3 = if p2 < s.len() && s[p2] == 10 {
            p2 + 1
        } else {
            p2
        };
        match long_close_scan(s, p3, k - p0) {
            None => Step::Fail(LuaFault::UnterminatedLongString),
            Some((close, end)) => Step::Done(s.subrange(p3, close), end),
        }
    }
}

// ── Numbers and words ─────────────────────────────────────────────────────────────────────────

/// A number token at `i`: the maximal run of number bytes, which must form a decimal literal.
pub open spec fn number_at(s: Seq<u8>, i: int) -> Step<LuaTree> {
    let e = num_end(s, i);
    let tok = lossy_text(s.subrange(i, e));
    if is_float_literal(tok) {
        Step::Done(LuaTree::Num(tok), e)
    } else {
        Step::Fail(LuaFault::BadNumber(tok))
    }
}

/// A bare word at `i`: `true`, `false`, or any other identifier read as a string.
pub open spec fn word_at(s: Seq<u8>, i: int) -> Step<LuaTree> {
    let e = word_end(s, i);
    let w = s.subrange(i, e);
    if e == i {
        Step::Fail(LuaFault::UnexpectedToken)
    } else if w == seq![116u8, 114, 117, 101] {
        Step::Done(LuaTree::Bool(true), e)
    } else if w == seq![102u8, 97, 108, 115, 101] {
        Step::Done(LuaTree::Bool(false), e)
    } else {
        Step::Done(LuaTree::Str(lossy_text(w)), e)
    }
}

/// A key `identifier =` (not `==`) at `j`: the identifier and the position after `=`.
pub open spec fn key_at(s: Seq<u8>, j: int) -> Option<(Seq<char>, int)> {
    let st = ws_end(s, j);
    let e = word_end(s, st);
    let k = ws_end(s, e);
    if e != st && k < s.len() && s[k] == 61 && !(k + 1 < s.len() && s[k + 1] == 61) {
        Some((lossy_text(s.subrange(st, e)), k + 1))
    } else {
        None
    }
}

/// Position after optional whitespace and one optional byte `c`.
pub open spec fn skip_opt(s: Seq<u8>, i: int, c: u8) -> int {
    let j = ws_end(s, i);
    if j < s.len() && s[j] == c {
        j + 1
    } else {
        j
    }
}

// ── Values and tables ─────────────────────────────────────────────────────────────────────────

/// The value that starts (after whitespace) at `i`, read at table depth `d`.
pub open spec fn value_at(s: Seq<u8>, i: int, d: int) -> Step<LuaTree>
    decreases s.len() - i, 1int,
{
    let j = ws_end(s, i);
    if !(0 <= i <= s.len()) || j >= s.len() {
        Step::Fail(LuaFault::UnexpectedEnd)
    } else {
        let c = s[j];
        proof {
            lemma_ws_end(s, i);
        }
        if c == 123 {
            if d + 1 > MAX_DEPTH {
                Step::Fail(LuaFault::TooDeep)
            } else {
                table_body(s, j + 1, d + 1, Map::empty(), Seq::empty())
            }
        } else if c == 34 || c == 39 {
            match quoted_at(s, j) {
                None => Step::Fail(LuaFault::UnterminatedString),
                Some((b, e)) => Step::Done(LuaTree::Str(lossy_text(b)), e),
            }
        } else if c == 91 && long_bracket_at(s, j) {
            match long_string_at(s, j) {
                Step::Fail(f) => Step::Fail(f),
                Step::Done(b, e) => Step::Done(LuaTree::Str(lossy_text(b)), e),
            }
        } else if c == 45 || c == 43 || c == 46 || (48 <= c <= 57) {
            number_at(s, j)
        } else {
            word_at(s, j)
        }
    }
}

/// The key part `[ "key" ] =` of a bracketed entry whose `[` is at `j`: the key's bytes and the
/// position where its value starts. The `]` and `=` may be missing.
pub open spec fn bracket_key_at(s: Seq<u8>, j: int) -> Option<(Seq<u8>, int)> {
    match quoted_at(s, ws_end(s, j + 1)) {
        None => None,
        Some((key, e)) => Some((key, skip_opt(s, skip_opt(s, e, 93), 61))),
    }
}

/// One entry of a table body at `j`: the key it names (none for a positional item), its value,
/// and the position after it.
pub open spec fn entry_at(s: Seq<u8>, j: int, d: int) -> Step<(Option<Seq<char>>, LuaTree)>
    decreases s.len() - j, 2int,
{
    if !(0 <= j <= s.len()) {
        Step::Fail(LuaFault::UnexpectedEnd)
    } else if j < s.len() && s[j] == 91 && !long_bracket_at(s, j) {
        match bracket_key_at(s, j) {
            None => Step::Fail(LuaFault::UnterminatedString),
            Some((key, q)) => {
                proof {
                    lemma_bracket_key_at(s, j);
                }
                match value_at(s, q, d) {
                    Step::Fail(f) => Step::Fail(f),
                    Step::Done(v, e) => Step::Done((Some(lossy_text(key)), v), e),
                }
            },
        }
    } else {
        match key_at(s, j) {
            Some((key, p)) => {
                proof {
                    lemma_key_at(s, j);
                }
                match value_at(s, p, d) {
                    Step::Fail(f) => Step::Fail(f),
                    Step::Done(v, e) => Step::Done((Some(key), v), e),
                }
            },
            None => match value_at(s, j, d) {
                Step::Fail(f) => Step::Fail(f),
                Step::Done(v, e) => Step::Done((None, v), e),
            },
        }
    }
}

/// The rest of a table body from `i`, with the entries `m` and items `a` read so far; the
/// table's own values are read at depth `d`. A repeated key keeps its last value.
pub open spec fn table_body(
    s: Seq<u8>,
    i: int,
    d: int,
    m: Map<Seq<char>, LuaTree>,
    a: Seq<LuaTree>,
) -> Step<LuaTree>
    decreases s.len() - i, 3int,
{
    let j = ws_end(s, i);
    if !(0 <= i <= s.len()) || j >= s.len() {
        Step::Fail(LuaFault::UnterminatedTable)
    } else {
        proof {
            lemma_ws_end(s, i);
        }
        if s[j] == 125 {
            Step::Done(LuaTree::Table(m, a), j + 1)
        } else if s[j] == 44 || s[j] == 59 {
            table_body(s, j + 1, d, m, a)
        } else {
            match entry_at(s, j, d) {
                Step::Fail(f) => Step::Fail(f),
                Step::Done((k, v), e) => if j < e <= s.len() {
                    match k {
                        Some(k) => table_body(s, e, d, m.insert(k, v), a),
                        None => table_body(s, e, d, m, a.push(v)),
                    }
                } else {
                    Step::Fail(LuaFault::UnexpectedEnd)
                },
            }
        }
    }
}

// ── Facts about the lexical scanners ──────────────────────────────────────────────────────────

pub proof fn lemma_ws_end(s: Seq<u8>, i: int)
    requires
        0 <= i <= s.len(),
    ensures
        i <= ws_end(s, i) <= s.len(),
    decreases s.len() - i, 1int,
{
    if i < s.len() && is_space(s[i]) {
        lemma_ws_end(s, i + 1);
    } else if i + 1 < s.len() && s[i] == 45 && s[i + 1] == 45 {
        lemma_comment_end(s, i + 2);
    }
}

pub proof fn lemma_comment_end(s: Seq<u8>, i: int)
    requires
        0 <= i <= s.len(),
    ensures
        i <= comment_end(s, i) <= s.len(),
    decreases s.len() - i, 0int,
{
    if i < s.len() {
        if s[i] == 10 {
            lemma_ws_end(s, i + 1);
        } else {
            lemma_comment_end(s, i + 1);
        }
    }
}

pub proof fn lemma_run_end(s: Seq<u8>, i: int, p: spec_fn(u8) -> bool)
    requires
        0 <= i <= s.len(),
    ensures
        i <= run_end(s, i, p) <= s.len(),
        forall|k: int| i <= k < run_end(s, i, p) ==> p(#[trigger] s[k]),
        run_end(s, i, p) < s.len() ==> !p(s[run_end(s, i, p)]),
    decreases s.len() - i,
{
    if i < s.len() && p(s[i]) {
        lemma_run_end(s, i + 1, p);
    }
}

proof fn lemma_quoted_scan(s: Seq<u8>, j: int, q: u8, acc: Seq<u8>)
    requires
        0 <= j,
    ensures
        quoted_scan(s, j, q, acc) matches Some((_, e)) ==> j < e <= s.len(),
    decreases s.len() - j,
{
    if 0 <= j < s.len() && s[j] != q {
        if s[j] == 92 {
            if j + 1 < s.len() {
                lemma_quoted_scan(s, j + 2, q, acc.push(unescape(s[j + 1])));
            }
        } else {
            lemma_quoted_scan(s, j + 1, q, acc.push(s[j]));
        }
    }
}

pub proof fn lemma_quoted_at(s: Seq<u8>, i: int)
    requires
        0 <= i,
    ensures
        quoted_at(s, i) matches Some((_, e)) ==> i < e <= s.len(),
{
    if 0 <= i < s.len() {
        lemma_quoted_scan(s, i + 1, s[i], Seq::empty());
    }
}

pub proof fn lemma_key_at(s: Seq<u8>, j: int)
    requires
        0 <= j <= s.len(),
    ensures
        key_at(s, j) matches Some((_, p)) ==> j < p <= s.len(),
{
    lemma_ws_end(s, j);
    let st = ws_end(s, j);
    lemma_run_end(s, st, |c: u8| is_word_byte(c));
    lemma_ws_end(s, word_end(s, st));
}


proof fn lemma_long_close_scan(s: Seq<u8>, j: int, level: int)
    requires
        0 <= j,
    ensures
        long_close_scan(s, j, level) matches Some((c, e)) ==> j <= c < e <= s.len(),
    decreases s.len() - j,
{
    if 0 <= j < s.len() {
        lemma_run_end(s, j + 1, |c: u8| c == 61);
        lemma_long_close_scan(s, j + 1, level);
    }
}

pub proof fn lemma_long_string_at(s: Seq<u8>, i: int)
    requires
        0 <= i <= s.len(),
    ensures
        long_string_at(s, i) matches Step::Done(b, e) ==> i < e <= s.len(),
{
    let p0 = if 0 <= i < s.len() {
        i + 1
    } else {
        i
    };
    lemma_run_end(s, p0, |c: u8| c == 61);
    let k = eq_run_end(s, p0);
    if 0 <= k < s.len() && s[k] == 91 {
        let p1 = k + 1;
        let p2 = if p1 < s.len() && s[p1] == 13 {
            p1 + 1
        } else {
            p1
        };
        let p3 = if p2 < s.len() && s[p2] == 10 {
            p2 + 1
        } else {
            p2
        };
        lemma_long_close_scan(s, p3, k - p0);
    }
}

/// A value that is read ends after its first non-blank byte and within the input.
pub proof fn lemma_value_end(s: Seq<u8>, i: int, d: int)
    requires
        0 <= i <= s.len(),
    ensures
        value_at(s, i, d) matches Step::Done(_, e) ==> ws_end(s, i) < e <= s.len(),
    decreases s.len() - i, 1int,
{
    lemma_ws_end(s, i);
    let j = ws_end(s, i);
    if j < s.len() {
        let c = s[j];
        if c == 123 {
            if d + 1 <= MAX_DEPTH {
                lemma_table_end(s, j + 1, d + 1, Map::empty(), Seq::empty());
            }
        } else if c == 34 || c == 39 {
            lemma_quoted_at(s, j);
        } else if c == 91 && long_bracket_at(s, j) {
            lemma_long_string_at(s, j);
        } else if c == 45 || c == 43 || c == 46 || (48 <= c <= 57) {
            lemma_run_end(s, j, |c: u8| is_num_byte(c));
            lemma_run_end(s, j + 1, |c: u8| is_num_byte(c));
        } else {
            lemma_run_end(s, j, |c: u8| is_word_byte(c));
        }
    }
}

pub proof fn lemma_bracket_key_at(s: Seq<u8>, j: int)
    requires
        0 <= j < s.len(),
    ensures
        bracket_key_at(s, j) matches Some((_, q)) ==> j < q <= s.len(),
{
    lemma_ws_end(s, j + 1);
    let k = ws_end(s, j + 1);
    lemma_quoted_at(s, k);
    if let Some((key, e)) = quoted_at(s, k) {
        lemma_ws_end(s, e);
        lemma_ws_end(s, skip_opt(s, e, 93));
    }
}

/// An entry that is read ends after its start and within the input.
pub proof fn lemma_entry_end(s: Seq<u8>, j: int, d: int)
    requires
        0 <= j <= s.len(),
    ensures
        entry_at(s, j, d) matches Step::Done(_, e) ==> j < e <= s.len(),
    decreases s.len() - j, 2int,
{
    if j < s.len() && s[j] == 91 && !long_bracket_at(s, j) {
        lemma_bracket_key_at(s, j);
        if let Some((key, q)) = bracket_key_at(s, j) {
            lemma_value_end(s, q, d);
            lemma_ws_end(s, q);
        }
    } else {
        lemma_key_at(s, j);
        match key_at(s, j) {
            Some((key, p)) => {
                lemma_value_end(s, p, d);
                lemma_ws_end(s, p);
            },
            None => {
                lemma_value_end(s, j, d);
                lemma_ws_end(s, j);
            },
        }
    }
}

/// A table body that is read ends after `i` and within the input.
pub proof fn lemma_table_end(
    s: Seq<u8>,
    i: int,
    d: int,
    m: Map<Seq<char>, LuaTree>,
    a: Seq<LuaTree>,
)
    requires
        0 <= i <= s.len(),
    ensures
        table_body(s, i, d, m, a) matches Step::Done(_, e) ==> i < e <= s.len(),
    decreases s.len() - i, 3int,
{
    lemma_ws_end(s, i);
    let j = ws_end(s, i);
    if j < s.len() {
        if s[j] == 125 {
        } else if s[j] == 44 || s[j] == 59 {
            lemma_table_end(s, j + 1, d, m, a);
        } else {
            if let Step::Done((k, v), e) = entry_at(s, j, d) {
                if j < e <= s.len() {
                    match k {
                        Some(k) => lemma_table_end(s, e, d, m.insert(k, v), a),
                        None => lemma_table_end(s, e, d, m, a.push(v)),
                    }
                }
            }
        }
    }
}

// ── Nesting depth ─────────────────────────────────────────────────────────────────────────────

/// `t` nests at most `k` tables deep.
pub open spec fn depth_within(t: LuaTree, k: int) -> bool
    decreases k,
{
    if k < 0 {
        false
    } else {
        match t {
            LuaTree::Table(m, a) => k >= 1 && (forall|key: Seq<char>| #[trigger] m.dom().contains(key)
                ==> depth_within(m[key], k - 1)) && (forall|i: int| 0 <= i < a.len() ==> depth_within(
                #[trigger] a[i],
                k - 1,
            )),
            _ => true,
        }
    }
}

/// A table's entries and items read so far all nest at most `k` deep.
pub open spec fn parts_within(m: Map<Seq<char>, LuaTree>, a: Seq<LuaTree>, k: int) -> bool {
    &&& forall|key: Seq<char>| #[trigger] m.dom().contains(key) ==> depth_within(m[key], k)
    &&& forall|i: int| 0 <= i < a.len() ==> depth_within(#[trigger] a[i], k)
}

/// The reader never returns tables nested deeper than [`MAX_DEPTH`]: a value read at depth `d`
/// nests at most `MAX_DEPTH - d` tables deep.
pub proof fn law_value_depth_bounded(s: Seq<u8>, i: int, d: int)
    requires
        0 <= i <= s.len(),
        0 <= d <= MAX_DEPTH,
    ensures
        value_at(s, i, d) matches Step::Done(t, _) ==> depth_within(t, MAX_DEPTH - d),
    decreases s.len() - i, 1int,
{
    lemma_ws_end(s, i);
    let j = ws_end(s, i);
    if j < s.len() && s[j] == 123 && d + 1 <= MAX_DEPTH {
        lemma_table_depth(s, j + 1, d + 1, Map::empty(), Seq::empty());
    }
}

proof fn lemma_entry_depth(s: Seq<u8>, j: int, d: int)
    requires
        0 <= j <= s.len(),
        0 <= d <= MAX_DEPTH,
    ensures
        entry_at(s, j, d) matches Step::Done((_, v), _) ==> depth_within(v, MAX_DEPTH - d),
    decreases s.len() - j, 2int,
{
    if j < s.len() && s[j] == 91 && !long_bracket_at(s, j) {
        lemma_bracket_key_at(s, j);
        if let Some((key, q)) = bracket_key_at(s, j) {
            law_value_depth_bounded(s, q, d);
        }
    } else {
        lemma_key_at(s, j);
        match key_at(s, j) {
            Some((key, p)) => law_value_depth_bounded(s, p, d),
            None => law_value_depth_bounded(s, j, d),
        }
    }
}

proof fn lemma_table_depth(
    s: Seq<u8>,
    i: int,
    d: int,
    m: Map<Seq<char>, LuaTree>,
    a: Seq<LuaTree>,
)
    requires
        0 <= i <= s.len(),
        1 <= d <= MAX_DEPTH,
        parts_within(m, a, MAX_DEPTH - d),
    ensures
        table_body(s, i, d, m, a) matches Step::Done(t, _) ==> depth_within(t, MAX_DEPTH - d + 1),
    decreases s.len() - i, 3int,
{
    lemma_ws_end(s, i);
    let j = ws_end(s, i);
    if j < s.len() {
        if s[j] == 125 {
            let t = LuaTree::Table(m, a);
            assert(depth_within(t, MAX_DEPTH - d + 1));
        } else if s[j] == 44 || s[j] == 59 {
            lemma_table_depth(s, j + 1, d, m, a);
        } else {
            lemma_entry_depth(s, j, d);
            if let Step::Done((k, v), e) = entry_at(s, j, d) {
                if j < e <= s.len() {
                    match k {
                        Some(k) => {
                            assert(parts_within(m.insert(k, v), a, MAX_DEPTH - d));
                            lemma_table_depth(s, e, d, m.insert(k, v), a);
                        },
                        None => {
                            assert(parts_within(m, a.push(v), MAX_DEPTH - d)) by {
                                assert forall|q: int| 0 <= q < a.push(v).len() implies depth_within(
                                    #[trigger] a.push(v)[q],
                                    MAX_DEPTH - d,
                                ) by {
                                    if q < a.len() {
                                        assert(a.push(v)[q] == a[q]);
                                    }
                                }
                            }
                            lemma_table_depth(s, e, d, m, a.push(v));
                        },
                    }
                }
            }
        }
    }
}

// ── Entry maps ────────────────────────────────────────────────────────────────────────────────

proof fn lemma_entries_push(e: Seq<(String, Lua)>, p: (String, Lua))
    ensures
        entries_tree(e.push(p)) == entries_tree(e).insert(p.0@, p.1.tree()),
        entries_wf(e.push(p)) == (entries_wf(e) && p.1.wf()),
{
    assert(e.push(p).drop_last() =~= e);
}

proof fn lemma_items_push(v: Seq<Lua>, x: Lua)
    ensures
        items_tree(v.push(x)) == items_tree(v).push(x.tree()),
        items_wf(v.push(x)) == (items_wf(v) && x.wf()),
{
    assert(v.push(x).drop_last() =~= v);
}

/// Replacing the value of an existing key (keys distinct) updates the map at that key.
proof fn lemma_entries_update(e: Seq<(String, Lua)>, k: int, p: (String, Lua))
    requires
        keys_unique(e),
        0 <= k < e.len(),
        e[k].0@ == p.0@,
    ensures
        entries_tree(e.update(k, p)) == entries_tree(e).insert(p.0@, p.1.tree()),
        entries_wf(e) && p.1.wf() ==> entries_wf(e.update(k, p)),
        keys_unique(e.update(k, p)),
    decreases e.len(),
{
    let u = e.update(k, p);
    let last = e.len() - 1;
    if k == last {
        assert(u.drop_last() =~= e.drop_last());
        assert(entries_tree(u) =~= entries_tree(e).insert(p.0@, p.1.tree()));
    } else {
        assert(u.drop_last() =~= e.drop_last().update(k, p));
        assert(keys_unique(e.drop_last()));
        lemma_entries_update(e.drop_last(), k, p);
        assert(e[last].0@ != p.0@);
        assert(entries_tree(u) =~= entries_tree(e).insert(p.0@, p.1.tree()));
    }
    assert forall|i: int, j: int| 0 <= i < j < u.len() implies #[trigger] u[i].0@ != #[trigger] u[j].0@ by {
        assert(e[i].0@ != e[j].0@);
    }
}

/// With distinct keys, each entry is what the map holds for its key.
pub proof fn lemma_entries_lookup(e: Seq<(String, Lua)>, k: int)
    requires
        keys_unique(e),
        0 <= k < e.len(),
    ensures
        entries_tree(e).dom().contains(e[k].0@),
        entries_tree(e)[e[k].0@] == e[k].1.tree(),
    decreases e.len(),
{
    if k < e.len() - 1 {
        assert(keys_unique(e.drop_last()));
        assert(e.drop_last()[k] == e[k]);
        lemma_entries_lookup(e.drop_last(), k);
        assert(e[e.len() - 1].0@ != e[k].0@);
    }
}

/// A key that no entry holds is not in the map.
pub proof fn lemma_entries_absent(e: Seq<(String, Lua)>, key: Seq<char>)
    requires
        forall|k: int| 0 <= k < e.len() ==> #[trigger] e[k].0@ != key,
    ensures
        !entries_tree(e).dom().contains(key),
    decreases e.len(),
{
    if e.len() > 0 {
        assert forall|k: int| 0 <= k < e.drop_last().len() implies #[trigger] e.drop_last()[k].0@
            != key by {
            assert(e.drop_last()[k] == e[k]);
        }
        lemma_entries_absent(e.drop_last(), key);
        assert(e[e.len() - 1].0@ != key);
    }
}

pub proof fn lemma_entries_wf_at(e: Seq<(String, Lua)>, k: int)
    requires
        entries_wf(e),
        0 <= k < e.len(),
    ensures
        e[k].1.wf(),
    decreases e.len(),
{
    if k < e.len() - 1 {
        assert(e.drop_last()[k] == e[k]);
        lemma_entries_wf_at(e.drop_last(), k);
    }
}

pub proof fn lemma_items_at(v: Seq<Lua>, k: int)
    requires
        0 <= k < v.len(),
    ensures
        items_tree(v).len() == v.len(),
        items_tree(v)[k] == v[k].tree(),
        items_wf(v) ==> v[k].wf(),
    decreases v.len(),
{
    lemma_items_len(v);
    if k < v.len() - 1 {
        assert(v.drop_last()[k] == v[k]);
        lemma_items_at(v.drop_last(), k);
    }
}

pub proof fn lemma_items_len(v: Seq<Lua>)
    ensures
        items_tree(v).len() == v.len(),
    decreases v.len(),
{
    if v.len() > 0 {
        lemma_items_len(v.drop_last());
    }
}

impl LuaTable {
    /// The value stored under `key`, if any.
    pub fn get(&self, key: &str) -> (r: Option<&Lua>)
        requires
            keys_unique(self.map@),
            entries_wf(self.map@),
        ensures
            match r {
                Some(v) => entries_tree(self.map@).dom().contains(key@) && v.tree() == entries_tree(
                    self.map@,
                )[key@] && v.wf(),
                None => !entries_tree(self.map@).dom().contains(key@),
            },
    {
        let wanted = key.to_owned();
        let mut k: usize = 0;
        while k < self.map.len()
            invariant
                keys_unique(self.map@),
                entries_wf(self.map@),
                wanted@ == key@,
                k <= self.map@.len(),
                forall|j: int| 0 <= j < k ==> #[trigger] self.map@[j].0@ != key@,
            decreases self.map@.len() - k,
        {
            if self.map[k].0 == wanted {
                proof {
                    lemma_entries_lookup(self.map@, k as int);
                    lemma_entries_wf_at(self.map@, k as int);
                }
                return Some(&self.map[k].1);
            }
            k = k + 1;
        }
        proof {
            lemma_entries_absent(self.map@, key@);
        }
        None
    }
}

/// Inserts `key ↦ v`, replacing the value of an equal key in place or appending a new entry.
fn insert_entry(map: &mut Vec<(String, Lua)>, key: String, v: Lua)
    requires
        keys_unique(old(map)@),
        entries_wf(old(map)@),
        v.wf(),
    ensures
        keys_unique(final(map)@),
        entries_wf(final(map)@),
        entries_tree(final(map)@) == entries_tree(old(map)@).insert(key@, v.tree()),
{
    let mut k: usize = 0;
    while k < map.len()
        invariant
            map@ == old(map)@,
            keys_unique(old(map)@),
            entries_wf(old(map)@),
            v.wf(),
            k <= map.len(),
            forall|j: int| 0 <= j < k ==> #[trigger] map@[j].0@ != key@,
        decreases map.len() - k,
    {
        if map[k].0 == key {
            proof {
                lemma_entries_update(map@, k as int, (key, v));
            }
            map.set(k, (key, v));
            return ;
        }
        k = k + 1;
    }
    proof {
        lemma_entries_push(map@, (key, v));
    }
    map.push((key, v));
}

// ── The executable reader ─────────────────────────────────────────────────────────────────────

fn is_space_byte(c: u8) -> (r: bool)
    ensures
        r == is_space(c),
{
    c == 32 || c == 9 || c == 10 || c == 12 || c == 13
}

fn is_word_char(c: u8) -> (r: bool)
    ensures
        r == is_word_byte(c),
{
    (48 <= c && c <= 57) || (65 <= c && c <= 90) || (97 <= c && c <= 122) || c == 95
}

fn is_num_char(c: u8) -> (r: bool)
    ensures
        r == is_num_byte(c),
{
    (48 <= c && c <= 57) || c == 46 || c == 45 || c == 43 || c == 101 || c == 69
}

/// A cursor over the bytes of a Lua text, with the current table depth.
pub struct Parser<'a> {
    pub s: &'a [u8],
    pub i: usize,
    pub depth: usize,
}

impl<'a> Parser<'a> {
    /// A parser at the start of `text`, outside any table.
    pub fn new(text: &'a str) -> (p: Self)
        ensures
            p.s@ == text.spec_bytes(),
            p.i == 0,
            p.depth == 0,
    {
        Parser { s: text.as_bytes(), i: 0, depth: 0 }
    }

    /// The byte under the cursor, if any.
    pub fn peek(&self) -> (r: Option<u8>)
        ensures
            r == (if self.i < self.s@.len() {
                Some(self.s@[self.i as int])
            } else {
                None
            }),
    {
        if self.i < self.s.len() {
            Some(self.s[self.i])
        } else {
            None
        }
    }

    /// The byte under the cursor, stepping past it; `None` at the end.
    pub fn bump(&mut self) -> (r: Option<u8>)
        requires
            old(self).i <= old(self).s@.len(),
        ensures
            final(self).s == old(self).s,
            final(self).depth == old(self).depth,
            r == (if old(self).i < old(self).s@.len() {
                Some(old(self).s@[old(self).i as int])
            } else {
                None
            }),
            final(self).i == (if old(self).i < old(self).s@.len() {
                old(self).i + 1
            } else {
                old(self).i as int
            }),
    {
        if self.i < self.s.len() {
            let c = self.s[self.i];
            self.i = self.i + 1;
            Some(c)
        } else {
            None
        }
    }

    /// Skips whitespace and `--` line comments.
    pub fn skip_ws(&mut self)
        requires
            old(self).i <= old(self).s@.len(),
        ensures
            final(self).s == old(self).s,
            final(self).depth == old(self).depth,
            final(self).i == ws_end(old(self).s@, old(self).i as int),
    {
        let ghost s = self.s@;
        let ghost target = ws_end(s, self.i as int);
        loop
            invariant
                self.s == old(self).s,
                self.depth == old(self).depth,
                s == self.s@,
                self.i <= s.len(),
                ws_end(s, self.i as int) == target,
            ensures
                self.s == old(self).s,
                self.depth == old(self).depth,
                self.i == target,
            decreases s.len() - self.i,
        {
            let ghost i_start = self.i;
            while self.i < self.s.len() && is_space_byte(self.s[self.i])
                invariant
                    self.s == old(self).s,
                    self.depth == old(self).depth,
                    s == self.s@,
                    i_start <= self.i <= s.len(),
                    ws_end(s, self.i as int) == target,
                decreases s.len() - self.i,
            {
                self.i = self.i + 1;
            }
            if self.i < self.s.len() && self.i + 1 < self.s.len() && self.s[self.i] == 45
                && self.s[self.i + 1] == 45 {
                self.i = self.i + 2;
                loop
                    invariant_except_break
                        comment_end(s, self.i as int) == target,
                    invariant
                        self.s == old(self).s,
                        self.depth == old(self).depth,
                        s == self.s@,
                        i_start + 2 <= self.i <= s.len(),
                    ensures
                        ws_end(s, self.i as int) == target,
                    decreases s.len() - self.i,
                {
                    match self.bump() {
                        None => {
                            break ;
                        },
                        Some(c) => {
                            if c == 10 {
                                break ;
                            }
                        },
                    }
                }
            } else {
                break ;
            }
        }
    }

    /// A string quoted by the byte under the cursor (escapes `\n`, `\t`, `\c` resolved).
    pub fn parse_string(&mut self) -> (r: Result<String, LuaError>)
        requires
            old(self).i <= old(self).s@.len(),
        ensures
            final(self).s == old(self).s,
            final(self).depth == old(self).depth,
            final(self).i <= final(self).s@.len(),
            match quoted_at(old(self).s@, old(self).i as int) {
                Some((b, e)) => r matches Ok(t) && t@ == lossy_text(b) && final(self).i == e,
                None => r == Err::<String, LuaError>(LuaError::UnterminatedString),
            },
    {
        let ghost s = self.s@;
        let ghost i0 = self.i as int;
        let q = match self.bump() {
            Some(c) => c,
            None => {
                return Err(LuaError::UnterminatedString);
            },
        };
        let mut out: Vec<u8> = Vec::new();
        loop
            invariant
                self.s == old(self).s,
                self.depth == old(self).depth,
                s == self.s@,
                self.i <= s.len(),
                0 <= i0 < s.len(),
                i0 == old(self).i,
                q == s[i0],
                quoted_scan(s, self.i as int, q, out@) == quoted_at(s, i0),
            decreases s.len() - self.i,
        {
            match self.bump() {
                None => {
                    return Err(LuaError::UnterminatedString);
                },
                Some(c) => {
                    if c == q {
                        return Ok(lossy_string(out.as_slice()));
                    }
                    if c == 92 {
                        match self.bump() {
                            Some(n) => {
                                let u: u8 = if n == 110 {
                                    10
                                } else if n == 116 {
                                    9
                                } else {
                                    n
                                };
                                out.push(u);
                            },
                            None => {},
                        }
                    } else {
                        out.push(c);
                    }
                },
            }
        }
    }

    /// Whether the cursor stands on a long-bracket opener `[`, `=`*, `[`.
    pub fn is_long_bracket(&self) -> (r: bool)
        requires
            self.i <= self.s@.len(),
        ensures
            r == long_bracket_at(self.s@, self.i as int),
    {
        if !(self.i < self.s.len() && self.s[self.i] == 91) {
            return false;
        }
        let mut j = self.i + 1;
        proof {
            lemma_run_end(self.s@, j as int, |c: u8| c == 61);
        }
        while j < self.s.len() && self.s[j] == 61
            invariant
                self.i < j <= self.s@.len(),
                eq_run_end(self.s@, j as int) == eq_run_end(self.s@, self.i + 1),
            decreases self.s@.len() - j,
        {
            j = j + 1;
        }
        j < self.s.len() && self.s[j] == 91
    }

    /// A long-bracket string whose opener starts under the cursor.
    pub fn parse_long_string(&mut self) -> (r: Result<String, LuaError>)
        requires
            old(self).i <= old(self).s@.len(),
        ensures
            final(self).s == old(self).s,
            final(self).depth == old(self).depth,
            final(self).i <= final(self).s@.len(),
            match long_string_at(old(self).s@, old(self).i as int) {
                Step::Done(b, e) => r matches Ok(t) && t@ == lossy_text(b) && final(self).i == e,
                Step::Fail(f) => r matches Err(x) && x.fault() == f,
            },
    {
        let ghost s = self.s@;
        self.bump();
        let ghost p0 = self.i as int;
        let mut level: usize = 0;
        proof {
            lemma_run_end(s, p0, |c: u8| c == 61);
        }
        while self.i < self.s.len() && self.s[self.i] == 61
            invariant
                self.s == old(self).s,
                self.depth == old(self).depth,
                s == self.s@,
                0 <= p0 <= self.i <= s.len(),
                level == self.i - p0,
                eq_run_end(s, self.i as int) == eq_run_end(s, p0),
            decreases s.len() - self.i,
        {
            self.i = self.i + 1;
            level = level + 1;
        }
        match self.bump() {
            Some(c) => {
                if c != 91 {
                    return Err(LuaError::BadLongBracket);
                }
            },
            None => {
                return Err(LuaError::BadLongBracket);
            },
        }
        if self.i < self.s.len() && self.s[self.i] == 13 {
            self.i = self.i + 1;
        }
        if self.i < self.s.len() && self.s[self.i] == 10 {
            self.i = self.i + 1;
        }
        let start = self.i;
        loop
            invariant
                self.s == old(self).s,
                self.depth == old(self).depth,
                s == self.s@,
                start <= self.i <= s.len(),
                long_string_at(s, old(self).i as int) == (match long_close_scan(
                    s,
                    self.i as int,
                    level as int,
                ) {
                    None => Step::Fail(LuaFault::UnterminatedLongString),
                    Some((close, end)) => Step::Done(s.subrange(start as int, close), end),
                }),
            decreases s.len() - self.i,
        {
            if self.i >= self.s.len() {
                return Err(LuaError::UnterminatedLongString);
            }
            if self.s[self.i] == 93 {
                let close = self.i;
                self.i = self.i + 1;
                let mut l: usize = 0;
                proof {
                    lemma_run_end(s, close + 1, |c: u8| c == 61);
                }
                while self.i < self.s.len() && self.s[self.i] == 61
                    invariant
                        self.s == old(self).s,
                        self.depth == old(self).depth,
                        s == self.s@,
                        close < self.i <= s.len(),
                        l == self.i - close - 1,
                        eq_run_end(s, self.i as int) == eq_run_end(s, close + 1),
                    decreases s.len() - self.i,
                {
                    self.i = self.i + 1;
                    l = l + 1;
                }
                if l == level && self.i < self.s.len() && self.s[self.i] == 93 {
                    self.i = self.i + 1;
                    let text = lossy_string(&self.s[start..close]);
                    return Ok(text);
                }
                self.i = close + 1;
            } else {
                self.i = self.i + 1;
            }
        }
    }

    /// A number token under the cursor.
    pub fn parse_number(&mut self) -> (r: Result<Lua, LuaError>)
        requires
            old(self).i <= old(self).s@.len(),
        ensures
            final(self).s == old(self).s,
            final(self).depth == old(self).depth,
            final(self).i <= final(self).s@.len(),
            match number_at(old(self).s@, old(self).i as int) {
                Step::Done(t, e) => r matches Ok(v) && v.tree() == t && v.wf() && final(self).i == e,
                Step::Fail(f) => r matches Err(x) && x.fault() == f,
            },
    {
        let ghost s = self.s@;
        let start = self.i;
        proof {
            lemma_run_end(s, start as int, |c: u8| is_num_byte(c));
        }
        while self.i < self.s.len() && is_num_char(self.s[self.i])
            invariant
                self.s == old(self).s,
                self.depth == old(self).depth,
                s == self.s@,
                start <= self.i <= s.len(),
                num_end(s, self.i as int) == num_end(s, start as int),
            decreases s.len() - self.i,
        {
            self.i = self.i + 1;
        }
        let tok = lossy_string(&self.s[start..self.i]);
        let cs = chars_of(tok.as_str());
        if is_float_literal_chars(cs.as_slice()) {
            Ok(Lua::Num(tok))
        } else {
            Err(LuaError::BadNumber(tok))
        }
    }

    /// A bare word under the cursor: `true`, `false`, or an identifier read as a string.
    pub fn parse_word(&mut self) -> (r: Result<Lua, LuaError>)
        requires
            old(self).i <= old(self).s@.len(),
        ensures
            final(self).s == old(self).s,
            final(self).depth == old(self).depth,
            final(self).i <= final(self).s@.len(),
            match word_at(old(self).s@, old(self).i as int) {
                Step::Done(t, e) => r matches Ok(v) && v.tree() == t && v.wf() && final(self).i == e,
                Step::Fail(f) => r matches Err(x) && x.fault() == f,
            },
    {
        let ghost s = self.s@;
        let start = self.i;
        proof {
            lemma_run_end(s, start as int, |c: u8| is_word_byte(c));
        }
        while self.i < self.s.len() && is_word_char(self.s[self.i])
            invariant
                self.s == old(self).s,
                self.depth == old(self).depth,
                s == self.s@,
                start <= self.i <= s.len(),
                word_end(s, self.i as int) == word_end(s, start as int),
            decreases s.len() - self.i,
        {
            self.i = self.i + 1;
        }
        if self.i == start {
            return Err(LuaError::UnexpectedToken);
        }
        let w = &self.s[start..self.i];
        if w.len() == 4 && w[0] == 116 && w[1] == 114 && w[2] == 117 && w[3] == 101 {
            assert(w@ =~= seq![116u8, 114, 117, 101]);
            Ok(Lua::Bool(true))
        } else if w.len() == 5 && w[0] == 102 && w[1] == 97 && w[2] == 108 && w[3] == 115 && w[4]
            == 101 {
            assert(w@ =~= seq![102u8, 97, 108, 115, 101]);
            Ok(Lua::Bool(false))
        } else {
            Ok(Lua::Str(lossy_string(w)))
        }
    }

    /// If `identifier =` (not `==`) follows, consumes it and returns the identifier; otherwise the
    /// cursor stays where it was.
    pub fn try_key(&mut self) -> (r: Option<String>)
        requires
            old(self).i <= old(self).s@.len(),
        ensures
            final(self).s == old(self).s,
            final(self).depth == old(self).depth,
            final(self).i <= final(self).s@.len(),
            match key_at(old(self).s@, old(self).i as int) {
                Some((k, p)) => r matches Some(x) && x@ == k && final(self).i == p,
                None => r is None && final(self).i == old(self).i,
            },
    {
        let ghost s = self.s@;
        let save = self.i;
        self.skip_ws();
        proof {
            lemma_ws_end(s, save as int);
        }
        let start = self.i;
        proof {
            lemma_run_end(s, start as int, |c: u8| is_word_byte(c));
        }
        while self.i < self.s.len() && is_word_char(self.s[self.i])
            invariant
                self.s == old(self).s,
                self.depth == old(self).depth,
                s == self.s@,
                start <= self.i <= s.len(),
                word_end(s, self.i as int) == word_end(s, start as int),
            decreases s.len() - self.i,
        {
            self.i = self.i + 1;
        }
        if self.i == start {
            self.i = save;
            return None;
        }
        let ident = lossy_string(&self.s[start..self.i]);
        self.skip_ws();
        if self.i < self.s.len() && self.s[self.i] == 61 && !(self.i + 1 < self.s.len()
            && self.s[self.i + 1] == 61) {
            self.i = self.i + 1;
            Some(ident)
        } else {
            self.i = save;
            None
        }
    }

    /// The value after the cursor (whitespace skipped), at the current table depth.
    pub fn parse_value(&mut self) -> (r: Result<Lua, LuaError>)
        requires
            old(self).i <= old(self).s@.len(),
            old(self).depth <= MAX_DEPTH,
        ensures
            final(self).s == old(self).s,
            final(self).i <= final(self).s@.len(),
            final(self).depth >= old(self).depth,
            match value_at(old(self).s@, old(self).i as int, old(self).depth as int) {
                Step::Done(t, e) => r matches Ok(v) && v.tree() == t && v.wf() && final(self).i == e
                    && final(self).depth == old(self).depth,
                Step::Fail(f) => r matches Err(x) && x.fault() == f,
            },
        decreases old(self).s@.len() - old(self).i, 1int,
    {
        let ghost s = self.s@;
        let ghost i0 = self.i as int;
        self.skip_ws();
        proof {
            lemma_ws_end(s, i0);
        }
        if self.i >= self.s.len() {
            return Err(LuaError::UnexpectedEnd);
        }
        let c = self.s[self.i];
        if c == 123 {
            self.depth = self.depth + 1;
            if self.depth > MAX_DEPTH {
                return Err(LuaError::TooDeep);
            }
            let r = self.parse_table();
            self.depth = self.depth - 1;
            r
        } else if c == 34 || c == 39 {
            match self.parse_string() {
                Ok(t) => Ok(Lua::Str(t)),
                Err(e) => Err(e),
            }
        } else if c == 91 && self.is_long_bracket() {
            match self.parse_long_string() {
                Ok(t) => Ok(Lua::Str(t)),
                Err(e) => Err(e),
            }
        } else if c == 45 || c == 43 || c == 46 || (48 <= c && c <= 57) {
            self.parse_number()
        } else {
            self.parse_word()
        }
    }

    /// The key part `[ "key" ] =` of a bracketed entry whose `[` is under the cursor.
    pub fn parse_bracket_key(&mut self) -> (r: Result<String, LuaError>)
        requires
            old(self).i < old(self).s@.len(),
        ensures
            final(self).s == old(self).s,
            final(self).depth == old(self).depth,
            final(self).i <= final(self).s@.len(),
            match bracket_key_at(old(self).s@, old(self).i as int) {
                Some((k, q)) => r matches Ok(x) && x@ == lossy_text(k) && final(self).i == q,
                None => r == Err::<String, LuaError>(LuaError::UnterminatedString),
            },
    {
        let ghost s = self.s@;
        self.bump();
        self.skip_ws();
        proof {
            lemma_ws_end(s, old(self).i + 1);
            lemma_quoted_at(s, self.i as int);
        }
        let key = match self.parse_string() {
            Ok(key) => key,
            Err(e) => {
                return Err(e);
            },
        };
        let ghost e = self.i as int;
        self.skip_ws();
        if self.i < self.s.len() && self.s[self.i] == 93 {
            self.i = self.i + 1;
        }
        proof {
            lemma_ws_end(s, e);
        }
        let ghost e1 = self.i as int;
        self.skip_ws();
        if self.i < self.s.len() && self.s[self.i] == 61 {
            self.i = self.i + 1;
        }
        proof {
            lemma_ws_end(s, e1);
        }
        Ok(key)
    }

    /// One entry of a table body under the cursor: its key (none for a positional item) and value.
    pub fn parse_entry(&mut self) -> (r: Result<(Option<String>, Lua), LuaError>)
        requires
            old(self).i <= old(self).s@.len(),
            old(self).depth <= MAX_DEPTH,
        ensures
            final(self).s == old(self).s,
            final(self).i <= final(self).s@.len(),
            final(self).depth >= old(self).depth,
            match entry_at(old(self).s@, old(self).i as int, old(self).depth as int) {
                Step::Done((k, t), e) => r matches Ok((kx, v)) && v.tree() == t && v.wf()
                    && final(self).i == e && final(self).depth == old(self).depth && match k {
                    Some(k) => kx matches Some(x) && x@ == k,
                    None => kx is None,
                },
                Step::Fail(f) => r matches Err(x) && x.fault() == f,
            },
        decreases old(self).s@.len() - old(self).i, 2int,
    {
        let ghost s = self.s@;
        let ghost j = self.i as int;
        if self.i < self.s.len() && self.s[self.i] == 91 && !self.is_long_bracket() {
            proof {
                lemma_bracket_key_at(s, j);
            }
            let key = match self.parse_bracket_key() {
                Ok(key) => key,
                Err(e) => {
                    return Err(e);
                },
            };
            match self.parse_value() {
                Ok(v) => Ok((Some(key), v)),
                Err(e) => Err(e),
            }
        } else {
            proof {
                lemma_key_at(s, j);
            }
            let key = self.try_key();
            match self.parse_value() {
                Ok(v) => Ok((key, v)),
                Err(e) => Err(e),
            }
        }
    }

    /// The table whose `{` is under the cursor; its values are read at the current depth.
    pub fn parse_table(&mut self) -> (r: Result<Lua, LuaError>)
        requires
            old(self).i < old(self).s@.len(),
            old(self).s@[old(self).i as int] == 123,
            old(self).depth <= MAX_DEPTH,
        ensures
            final(self).s == old(self).s,
            final(self).i <= final(self).s@.len(),
            final(self).depth >= old(self).depth,
            match table_body(
                old(self).s@,
                old(self).i + 1,
                old(self).depth as int,
                Map::empty(),
                Seq::empty(),
            ) {
                Step::Done(t, e) => r matches Ok(v) && v.tree() == t && v.wf() && final(self).i == e
                    && final(self).depth == old(self).depth,
                Step::Fail(f) => r matches Err(x) && x.fault() == f,
            },
        decreases old(self).s@.len() - old(self).i, 0int,
    {
        let ghost s = self.s@;
        let ghost i0 = self.i as int;
        let ghost d = self.depth as int;
        self.bump();
        let mut t = LuaTable { map: Vec::new(), arr: Vec::new() };
        loop
            invariant
                self.s == old(self).s,
                s == self.s@,
                self.depth == d,
                d <= MAX_DEPTH,
                i0 == old(self).i,
                d == old(self).depth,
                i0 < self.i <= s.len(),
                keys_unique(t.map@),
                entries_wf(t.map@),
                items_wf(t.arr@),
                table_body(s, self.i as int, d, entries_tree(t.map@), items_tree(t.arr@))
                    == table_body(s, i0 + 1, d, Map::empty(), Seq::empty()),
            decreases s.len() - self.i,
        {
            let ghost i1 = self.i as int;
            self.skip_ws();
            proof {
                lemma_ws_end(s, i1);
            }
            let j = self.i;
            if j >= self.s.len() {
                return Err(LuaError::UnterminatedTable);
            }
            let c = self.s[j];
            if c == 125 {
                self.i = j + 1;
                return Ok(Lua::Table(t));
            }
            if c == 44 || c == 59 {
                self.i = j + 1;
                continue ;
            }
            proof {
                lemma_entry_end(s, j as int, d);
            }
            match self.parse_entry() {
                Err(e) => {
                    return Err(e);
                },
                Ok((Some(key), v)) => {
                    insert_entry(&mut t.map, key, v);
                },
                Ok((None, v)) => {
                    proof {
                        lemma_items_push(t.arr@, v);
                    }
                    t.arr.push(v);
                },
            }
        }
    }
}

} // verus!
