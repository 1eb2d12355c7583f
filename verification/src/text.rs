//! Byte and text helpers shared by the preset readers: lossy UTF-8 decoding, ASCII case folding,
//! Unicode whitespace, and the grammar of a Rust floating-point literal.

use vstd::prelude::*;
use vstd::std_specs::iter::IteratorSpec;
use vstd::string::StringSliceAdditionalSpecFns;
use vstd::string::StrSliceExecFns;

verus! {

/// The characters of `String::from_utf8_lossy(b)`: every maximal ill-formed subsequence of `b` is
/// replaced by U+FFFD, everything else is decoded as UTF-8.
pub uninterp spec fn utf8_lossy(b: Seq<u8>) -> Seq<char>;

/// The text of `b`: its UTF-8 decoding where it is valid UTF-8, its lossy decoding otherwise.
pub open spec fn lossy_text(b: Seq<u8>) -> Seq<char> {
    if vstd::utf8::valid_utf8(b) {
        vstd::utf8::decode_utf8(b)
    } else {
        utf8_lossy(b)
    }
}

/// `String::from_utf8_lossy(b).into_owned()`. Claimed: the result is the lossy decoding of `b`,
/// which depends on the bytes alone, and, as std documents, bytes that are valid UTF-8 are decoded
/// unchanged.
#[verifier::external_body]
pub(crate) fn lossy_string(b: &[u8]) -> (r: String)
    ensures
        r@ == utf8_lossy(b@),
        r@ == lossy_text(b@),
{
    String::from_utf8_lossy(b).into_owned()
}

/// ASCII lower-casing of one byte (`u8::to_ascii_lowercase`).
pub open spec fn ascii_lower(c: u8) -> u8 {
    if 65 <= c <= 90 {
        (c + 32) as u8
    } else {
        c
    }
}

/// Equality of two byte strings up to ASCII case (`str::eq_ignore_ascii_case`).
pub open spec fn ascii_ci_eq(a: Seq<u8>, b: Seq<u8>) -> bool {
    &&& a.len() == b.len()
    &&& forall|k: int| 0 <= k < a.len() ==> #[trigger] ascii_lower(a[k]) == ascii_lower(b[k])
}

/// Compares two strings byte by byte, ignoring ASCII case.
pub fn eq_ignore_ascii_case(a: &str, b: &str) -> (r: bool)
    ensures
        r == ascii_ci_eq(a.spec_bytes(), b.spec_bytes()),
{
    let x = a.as_bytes();
    let y = b.as_bytes();
    if x.len() != y.len() {
        return false;
    }
    let mut k: usize = 0;
    while k < x.len()
        invariant
            x@ == a.spec_bytes(),
            y@ == b.spec_bytes(),
            x.len() == y.len(),
            k <= x.len(),
            forall|m: int| 0 <= m < k ==> #[trigger] ascii_lower(x@[m]) == ascii_lower(y@[m]),
        decreases x.len() - k,
    {
        let p = x[k];
        let q = y[k];
        let lp: u8 = if 65 <= p && p <= 90 { p + 32 } else { p };
        let lq: u8 = if 65 <= q && q <= 90 { q + 32 } else { q };
        if lp != lq {
            assert(ascii_lower(x@[k as int]) != ascii_lower(y@[k as int]));
            return false;
        }
        k = k + 1;
    }
    true
}

/// The characters of a string slice, collected into a vector.
pub fn chars_of(s: &str) -> (v: Vec<char>)
    ensures
        v@ == s@,
{
    broadcast use vstd::string::axiom_spec_iter, vstd::string::next_postcondition;

    let mut it = s.chars();
    let mut v: Vec<char> = Vec::new();
    loop
        invariant_except_break
            it.decrease() is Some,
        invariant
            v@ + it.remaining() == s@,
            it.obeys_prophetic_iter_laws(),
        ensures
            v@ == s@,
        decreases it.decrease()->0,
    {
        let ghost before = it.remaining();
        match it.next() {
            Some(c) => {
                v.push(c);
                assert(v@ + it.remaining() =~= s@) by {
                    assert(before =~= seq![c] + before.drop_first());
                }
            },
            None => {
                assert(v@ =~= s@);
                break ;
            },
        }
    }
    v
}

/// `char::is_whitespace`: the Unicode `White_Space` property.
pub open spec fn is_unicode_ws(c: char) -> bool {
    ||| ('\u{9}' <= c <= '\u{d}')
    ||| c == ' '
    ||| c == '\u{85}'
    ||| c == '\u{a0}'
    ||| c == '\u{1680}'
    ||| ('\u{2000}' <= c <= '\u{200a}')
    ||| c == '\u{2028}'
    ||| c == '\u{2029}'
    ||| c == '\u{202f}'
    ||| c == '\u{205f}'
    ||| c == '\u{3000}'
}

/// Decides the Unicode `White_Space` property of one character.
pub fn is_whitespace_char(c: char) -> (r: bool)
    ensures
        r == is_unicode_ws(c),
{
    ('\u{9}' <= c && c <= '\u{d}') || c == ' ' || c == '\u{85}' || c == '\u{a0}' || c == '\u{1680}'
        || ('\u{2000}' <= c && c <= '\u{200a}') || c == '\u{2028}' || c == '\u{2029}' || c
        == '\u{202f}' || c == '\u{205f}' || c == '\u{3000}'
}

pub open spec fn is_digit_char(c: char) -> bool {
    '0' <= c <= '9'
}

pub open spec fn all_digits(s: Seq<char>) -> bool {
    forall|k: int| 0 <= k < s.len() ==> #[trigger] is_digit_char(s[k])
}

/// `Digit+ | Digit+ '.' Digit* | Digit* '.' Digit+`.
pub open spec fn is_mantissa(m: Seq<char>) -> bool {
    ||| (m.len() > 0 && all_digits(m))
    ||| exists|p: int|
        0 <= p < m.len() && #[trigger] m[p] == '.' && all_digits(m.take(p)) && all_digits(
            m.skip(p + 1),
        ) && (p > 0 || p + 1 < m.len())
}

/// `('e' | 'E') Sign? Digit+`.
pub open spec fn is_exponent(x: Seq<char>) -> bool {
    &&& x.len() >= 2
    &&& (x[0] == 'e' || x[0] == 'E')
    &&& {
        let r = if x[1] == '+' || x[1] == '-' {
            x.skip(2)
        } else {
            x.skip(1)
        };
        r.len() > 0 && all_digits(r)
    }
}

/// `Mantissa Exponent?`.
pub open spec fn is_decimal(n: Seq<char>) -> bool {
    ||| is_mantissa(n)
    ||| exists|q: int| 0 <= q < n.len() && is_mantissa(#[trigger] n.take(q)) && is_exponent(n.skip(q))
}

/// A decimal floating-point literal as the standard library's float parser accepts it (leaving out
/// its `inf`/`nan` spellings): an optional sign, then a mantissa with an optional exponent.
pub open spec fn is_float_literal(t: Seq<char>) -> bool {
    if t.len() > 0 && (t[0] == '+' || t[0] == '-') {
        is_decimal(t.skip(1))
    } else {
        is_decimal(t)
    }
}

/// End of the run of ASCII digits that starts at `i`.
pub open spec fn digit_run_end(n: Seq<char>, i: int) -> int
    decreases n.len() - i,
{
    if 0 <= i < n.len() && is_digit_char(n[i]) {
        digit_run_end(n, i + 1)
    } else {
        i
    }
}

proof fn lemma_digit_run_end(n: Seq<char>, i: int)
    requires
        0 <= i <= n.len(),
    ensures
        i <= digit_run_end(n, i) <= n.len(),
        forall|k: int| i <= k < digit_run_end(n, i) ==> #[trigger] is_digit_char(n[k]),
        digit_run_end(n, i) < n.len() ==> !is_digit_char(n[digit_run_end(n, i)]),
    decreases n.len() - i,
{
    if i < n.len() && is_digit_char(n[i]) {
        lemma_digit_run_end(n, i + 1);
    }
}

/// End of the integer digits of a decimal.
pub open spec fn int_end(n: Seq<char>) -> int {
    digit_run_end(n, 0)
}

/// Whether a decimal point follows the integer digits.
pub open spec fn has_point(n: Seq<char>) -> bool {
    int_end(n) < n.len() && n[int_end(n)] == '.'
}

/// End of the mantissa: after the fraction digits, or the integer digits without a point.
pub open spec fn mant_end(n: Seq<char>) -> int {
    if has_point(n) {
        digit_run_end(n, int_end(n) + 1)
    } else {
        int_end(n)
    }
}

/// Whether the mantissa holds at least one digit.
pub open spec fn mant_has_digit(n: Seq<char>) -> bool {
    int_end(n) > 0 || (has_point(n) && mant_end(n) > int_end(n) + 1)
}

/// A mantissa prefix of `n` that ends at the end or at an exponent marker is the scanned one.
proof fn lemma_mantissa_prefix(n: Seq<char>, q: int)
    requires
        0 <= q <= n.len(),
        is_mantissa(n.take(q)),
        q == n.len() || n[q] == 'e' || n[q] == 'E',
    ensures
        mant_has_digit(n),
        mant_end(n) == q,
{
    let a = int_end(n);
    lemma_digit_run_end(n, 0);
    let m = n.take(q);
    if m.len() > 0 && all_digits(m) {
        assert forall|k: int| 0 <= k < q implies is_digit_char(n[k]) by {
            assert(is_digit_char(m[k]));
        }
        if a < q {
            assert(is_digit_char(n[a]));
        }
        if a > q {
            assert(is_digit_char(n[q]));
        }
        assert(a == q);
    } else {
        let p = choose|p: int|
            0 <= p < m.len() && #[trigger] m[p] == '.' && all_digits(m.take(p)) && all_digits(
                m.skip(p + 1),
            ) && (p > 0 || p + 1 < m.len());
        assert forall|k: int| 0 <= k < p implies is_digit_char(n[k]) by {
            assert(is_digit_char(m.take(p)[k]));
        }
        assert forall|k: int| p + 1 <= k < q implies is_digit_char(n[k]) by {
            assert(is_digit_char(m.skip(p + 1)[k - p - 1]));
        }
        if a < p {
            assert(is_digit_char(n[a]));
        }
        assert(n[p] == '.');
        assert(a == p);
        lemma_digit_run_end(n, a + 1);
        let b = digit_run_end(n, a + 1);
        if b < q {
            assert(is_digit_char(n[b]));
        }
        if b > q {
            assert(is_digit_char(n[q]));
        }
        assert(b == q);
    }
}

/// The scanned mantissa is a mantissa of the prefix it spans.
proof fn lemma_scanned_mantissa(n: Seq<char>)
    requires
        mant_has_digit(n),
    ensures
        0 <= mant_end(n) <= n.len(),
        is_mantissa(n.take(mant_end(n))),
{
    let a = int_end(n);
    lemma_digit_run_end(n, 0);
    let b = mant_end(n);
    if has_point(n) {
        lemma_digit_run_end(n, a + 1);
    }
    let m = n.take(b);
    if !has_point(n) {
        assert forall|k: int| 0 <= k < m.len() implies #[trigger] is_digit_char(m[k]) by {
            assert(m[k] == n[k]);
        }
    } else {
        assert(m[a] == '.');
        assert forall|k: int| 0 <= k < a implies #[trigger] is_digit_char(m.take(a)[k]) by {
            assert(m.take(a)[k] == n[k]);
        }
        assert forall|k: int| 0 <= k < m.skip(a + 1).len() implies #[trigger] is_digit_char(
            m.skip(a + 1)[k],
        ) by {
            assert(m.skip(a + 1)[k] == n[a + 1 + k]);
        }
    }
}

/// A decimal is exactly: a mantissa with a digit, then nothing or an exponent.
pub proof fn lemma_decimal_scan(n: Seq<char>)
    ensures
        is_decimal(n) <==> (mant_has_digit(n) && (mant_end(n) == n.len() || is_exponent(
            n.skip(mant_end(n)),
        ))),
{
    lemma_digit_run_end(n, 0);
    if has_point(n) {
        lemma_digit_run_end(n, int_end(n) + 1);
    }
    if is_mantissa(n) {
        assert(n.take(n.len() as int) =~= n);
        lemma_mantissa_prefix(n, n.len() as int);
    } else if is_decimal(n) {
        let q = choose|q: int|
            0 <= q < n.len() && is_mantissa(#[trigger] n.take(q)) && is_exponent(n.skip(q));
        assert(n.skip(q)[0] == n[q]);
        lemma_mantissa_prefix(n, q);
    }
    if mant_has_digit(n) {
        lemma_scanned_mantissa(n);
        if mant_end(n) == n.len() {
            assert(n.take(n.len() as int) =~= n);
        }
    }
}

/// Offset of the exponent digits: after the marker and an optional sign.
pub open spec fn exp_digits_start(x: Seq<char>) -> int {
    if x[1] == '+' || x[1] == '-' {
        2
    } else {
        1
    }
}

proof fn lemma_exponent_scan(x: Seq<char>)
    requires
        x.len() >= 2,
        x[0] == 'e' || x[0] == 'E',
    ensures
        is_exponent(x) <==> (x.len() > exp_digits_start(x) && digit_run_end(x, exp_digits_start(x))
            == x.len()),
{
    let c = exp_digits_start(x);
    lemma_digit_run_end(x, c);
    let r = x.skip(c);
    if all_digits(r) {
        let e = digit_run_end(x, c);
        if e < x.len() {
            assert(is_digit_char(r[e - c]));
        }
    }
    if digit_run_end(x, c) == x.len() {
        assert forall|k: int| 0 <= k < r.len() implies #[trigger] is_digit_char(r[k]) by {
            assert(r[k] == x[c + k]);
        }
    }
}

/// Exec twin of [`digit_run_end`].
fn digit_run(t: &[char], i: usize) -> (j: usize)
    requires
        i <= t@.len(),
    ensures
        j == digit_run_end(t@, i as int),
{
    let mut j = i;
    while j < t.len() && '0' <= t[j] && t[j] <= '9'
        invariant
            i <= j <= t@.len(),
            digit_run_end(t@, j as int) == digit_run_end(t@, i as int),
        decreases t@.len() - j,
    {
        j = j + 1;
    }
    j
}

/// Decides [`is_decimal`].
pub fn is_decimal_chars(body: &[char]) -> (ok: bool)
    ensures
        ok == is_decimal(body@),
{
    proof {
        lemma_decimal_scan(body@);
        lemma_digit_run_end(body@, 0);
    }
    let a = digit_run(body, 0);
    let dot = a < body.len() && body[a] == '.';
    let b = if dot {
        digit_run(body, a + 1)
    } else {
        a
    };
    proof {
        if dot {
            lemma_digit_run_end(body@, a + 1);
        }
    }
    assert(b == mant_end(body@));
    if !(a > 0 || (dot && b > a + 1)) {
        return false;
    }
    if b == body.len() {
        return true;
    }
    let x = &body[b..body.len()];
    assert(x@ =~= body@.skip(b as int));
    if x.len() < 2 || !(x[0] == 'e' || x[0] == 'E') {
        return false;
    }
    proof {
        lemma_exponent_scan(x@);
    }
    let c: usize = if x[1] == '+' || x[1] == '-' {
        2
    } else {
        1
    };
    if c >= x.len() {
        return false;
    }
    let d = digit_run(x, c);
    d == x.len()
}

/// Decides [`is_float_literal`].
pub fn is_float_literal_chars(t: &[char]) -> (ok: bool)
    ensures
        ok == is_float_literal(t@),
{
    let n = t.len();
    if n > 0 && (t[0] == '+' || t[0] == '-') {
        let body = &t[1..n];
        assert(body@ =~= t@.skip(1));
        is_decimal_chars(body)
    } else {
        is_decimal_chars(t)
    }
}

/// `b` spells the lower-case ASCII word `lower` in any letter case (`upper` is its upper case).
pub open spec fn ci_word(b: Seq<char>, lower: Seq<char>, upper: Seq<char>) -> bool {
    &&& b.len() == lower.len()
    &&& forall|k: int| 0 <= k < b.len() ==> (#[trigger] b[k] == lower[k] || b[k] == upper[k])
}

/// Text that the standard library's float parser accepts: an optional sign, then a decimal
/// literal or one of `inf`, `infinity`, `nan` in any letter case.
pub open spec fn is_float_text(t: Seq<char>) -> bool {
    let b = if t.len() > 0 && (t[0] == '+' || t[0] == '-') {
        t.skip(1)
    } else {
        t
    };
    ||| is_decimal(b)
    ||| ci_word(b, "inf"@, "INF"@)
    ||| ci_word(b, "infinity"@, "INFINITY"@)
    ||| ci_word(b, "nan"@, "NAN"@)
}

fn matches_ci(b: &[char], lower: &str, upper: &str) -> (r: bool)
    requires
        lower@.len() == upper@.len(),
    ensures
        r == ci_word(b@, lower@, upper@),
{
    let lo = chars_of(lower);
    let up = chars_of(upper);
    if b.len() != lo.len() {
        return false;
    }
    let mut k: usize = 0;
    while k < b.len()
        invariant
            lo@ == lower@,
            up@ == upper@,
            b@.len() == lo@.len() == up@.len(),
            k <= b@.len(),
            forall|m: int| 0 <= m < k ==> (#[trigger] b@[m] == lo@[m] || b@[m] == up@[m]),
        decreases b@.len() - k,
    {
        if !(b[k] == lo[k] || b[k] == up[k]) {
            return false;
        }
        k = k + 1;
    }
    true
}

/// Decides [`is_float_text`].
pub fn is_float_text_chars(t: &[char]) -> (ok: bool)
    ensures
        ok == is_float_text(t@),
{
    let n = t.len();
    let s0: usize = if n > 0 && (t[0] == '+' || t[0] == '-') {
        1
    } else {
        0
    };
    let body = &t[s0..n];
    assert(body@ =~= if s0 == 1 {
        t@.skip(1)
    } else {
        t@
    });
    let dec = is_decimal_chars(body);
    proof {
        reveal_strlit("inf");
        reveal_strlit("INF");
        reveal_strlit("infinity");
        reveal_strlit("INFINITY");
        reveal_strlit("nan");
        reveal_strlit("NAN");
    }
    dec || matches_ci(body, "inf", "INF") || matches_ci(body, "infinity", "INFINITY") || matches_ci(
        body,
        "nan",
        "NAN",
    )
}

/// End of the whitespace run that starts at `i`.
pub open spec fn ws_prefix_end(t: Seq<char>, i: int) -> int
    decreases t.len() - i,
{
    if 0 <= i < t.len() && is_unicode_ws(t[i]) {
        ws_prefix_end(t, i + 1)
    } else {
        i
    }
}

/// Start of the whitespace run that ends at `j`, not going below `lo`.
pub open spec fn ws_suffix_start(t: Seq<char>, j: int, lo: int) -> int
    decreases j - lo,
{
    if lo < j <= t.len() && is_unicode_ws(t[j - 1]) {
        ws_suffix_start(t, j - 1, lo)
    } else {
        j
    }
}

/// `str::trim`: the text without leading and trailing Unicode whitespace.
pub open spec fn trim_chars(t: Seq<char>) -> Seq<char> {
    let a = ws_prefix_end(t, 0);
    t.subrange(a, ws_suffix_start(t, t.len() as int, a))
}

proof fn lemma_ws_prefix_end(t: Seq<char>, i: int)
    requires
        0 <= i <= t.len(),
    ensures
        i <= ws_prefix_end(t, i) <= t.len(),
    decreases t.len() - i,
{
    if i < t.len() && is_unicode_ws(t[i]) {
        lemma_ws_prefix_end(t, i + 1);
    }
}

proof fn lemma_ws_suffix_start(t: Seq<char>, j: int, lo: int)
    requires
        0 <= lo <= j <= t.len(),
    ensures
        lo <= ws_suffix_start(t, j, lo) <= j,
    decreases j - lo,
{
    if lo < j && is_unicode_ws(t[j - 1]) {
        lemma_ws_suffix_start(t, j - 1, lo);
    }
}

/// The text of `t[from..to]` without surrounding whitespace.
fn trimmed(t: &[char], from: usize, to: usize) -> (r: Vec<char>)
    requires
        from <= to <= t@.len(),
    ensures
        r@ == trim_chars(t@.subrange(from as int, to as int)),
{
    let ghost u = t@.subrange(from as int, to as int);
    let mut a = from;
    while a < to && is_whitespace_char(t[a])
        invariant
            from <= a <= to <= t@.len(),
            u == t@.subrange(from as int, to as int),
            ws_prefix_end(u, a - from) == ws_prefix_end(u, 0),
        decreases to - a,
    {
        a = a + 1;
    }
    assert(ws_prefix_end(u, a - from) == a - from);
    let mut b = to;
    proof {
        lemma_ws_prefix_end(u, 0);
    }
    while b > a && is_whitespace_char(t[b - 1])
        invariant
            from <= a <= b <= to <= t@.len(),
            u == t@.subrange(from as int, to as int),
            a - from == ws_prefix_end(u, 0),
            ws_suffix_start(u, b - from, a - from) == ws_suffix_start(u, u.len() as int, a - from),
        decreases b - a,
    {
        b = b - 1;
    }
    let mut r: Vec<char> = Vec::new();
    let mut k = a;
    while k < b
        invariant
            from <= a <= k <= b <= to <= t@.len(),
            r@ == t@.subrange(a as int, k as int),
        decreases b - k,
    {
        r.push(t[k]);
        k = k + 1;
        assert(r@ =~= t@.subrange(a as int, k as int));
    }
    assert(r@ =~= u.subrange(a - from, b - from));
    r
}

/// `s.trim()`, owned: the text without leading and trailing Unicode whitespace.
pub fn trim_string(s: &str) -> (r: String)
    ensures
        r@ == trim_chars(s@),
{
    let cs = chars_of(s);
    let n = cs.len();
    let mut a: usize = 0;
    while a < n && is_whitespace_char(cs[a])
        invariant
            n == cs@.len(),
            a <= n,
            ws_prefix_end(cs@, a as int) == ws_prefix_end(cs@, 0),
        decreases n - a,
    {
        a = a + 1;
    }
    let mut b: usize = n;
    while b > a && is_whitespace_char(cs[b - 1])
        invariant
            n == cs@.len(),
            a <= b <= n,
            a == ws_prefix_end(cs@, 0),
            ws_suffix_start(cs@, b as int, a as int) == ws_suffix_start(cs@, n as int, a as int),
        decreases b - a,
    {
        b = b - 1;
    }
    s.substring_char(a, b).to_owned()
}

/// The message of the error that `std::str::from_utf8` reports for bytes that are not UTF-8 (where
/// the valid prefix ends, and what is wrong after it).
pub uninterp spec fn utf8_error_text(b: Seq<u8>) -> Seq<char>;

/// `std::str::from_utf8(b)`, the text owned; an error becomes its message. Claimed, as std
/// documents: it succeeds exactly when the bytes are valid UTF-8, and then holds their decoding;
/// the message depends on the bytes alone.
#[verifier::external_body]
pub(crate) fn utf8_text(b: &[u8]) -> (r: Result<String, String>)
    ensures
        match r {
            Ok(s) => vstd::utf8::valid_utf8(b@) && s@ == vstd::utf8::decode_utf8(b@),
            Err(m) => !vstd::utf8::valid_utf8(b@) && m@ == utf8_error_text(b@),
        },
{
    match std::str::from_utf8(b) {
        Ok(s) => Ok(s.to_owned()),
        Err(e) => Err(e.to_string()),
    }
}

/// First index at or after `i` holding `c`, or the length.
pub open spec fn find_char(t: Seq<char>, i: int, c: char) -> int
    decreases t.len() - i,
{
    if 0 <= i < t.len() && t[i] != c {
        find_char(t, i + 1, c)
    } else {
        i
    }
}

proof fn lemma_find_char(t: Seq<char>, i: int, c: char)
    requires
        0 <= i <= t.len(),
    ensures
        i <= find_char(t, i, c) <= t.len(),
    decreases t.len() - i,
{
    if i < t.len() && t[i] != c {
        lemma_find_char(t, i + 1, c);
    }
}

fn find_char_from(t: &[char], i: usize, c: char) -> (j: usize)
    requires
        i <= t@.len(),
    ensures
        j == find_char(t@, i as int, c),
{
    let mut j = i;
    while j < t.len() && t[j] != c
        invariant
            i <= j <= t@.len(),
            find_char(t@, j as int, c) == find_char(t@, i as int, c),
        decreases t@.len() - j,
    {
        j = j + 1;
    }
    j
}

/// A tone-curve control point `"x, y"`: the text before the first comma and the text between the
/// first and the next comma (or the end) are, trimmed, float texts.
pub open spec fn is_xy_text(t: Seq<char>) -> bool {
    let c1 = find_char(t, 0, ',');
    let c2 = find_char(t, c1 + 1, ',');
    &&& c1 < t.len()
    &&& is_float_text(trim_chars(t.subrange(0, c1)))
    &&& is_float_text(trim_chars(t.subrange(c1 + 1, c2)))
}

/// Decides [`is_xy_text`].
pub fn is_xy_text_chars(t: &[char]) -> (ok: bool)
    ensures
        ok == is_xy_text(t@),
{
    let c1 = find_char_from(t, 0, ',');
    if c1 >= t.len() {
        return false;
    }
    proof {
        lemma_find_char(t@, 0, ',');
        lemma_find_char(t@, c1 + 1, ',');
    }
    let c2 = find_char_from(t, c1 + 1, ',');
    let x = trimmed(t, 0, c1);
    let y = trimmed(t, c1 + 1, c2);
    is_float_text_chars(x.as_slice()) && is_float_text_chars(y.as_slice())
}

/// `n` occurs in `h` as a contiguous run.
pub open spec fn seq_contains(h: Seq<char>, n: Seq<char>) -> bool {
    exists|k: int| 0 <= k && k + n.len() <= h.len() && #[trigger] h.subrange(k, k + n.len()) == n
}

/// Whether `n` occurs in `h` (`str::contains`).
pub fn contains_chars(h: &[char], n: &[char]) -> (r: bool)
    ensures
        r == seq_contains(h@, n@),
{
    let hl = h.len();
    let nl = n.len();
    if nl > hl {
        return false;
    }
    let last = hl - nl;
    let mut k: usize = 0;
    while k <= last
        invariant
            hl == h@.len(),
            nl == n@.len(),
            last == hl - nl,
            k <= last + 1,
            forall|q: int| 0 <= q < k ==> #[trigger] h@.subrange(q, q + n@.len()) != n@,
        decreases last + 1 - k,
    {
        let mut m: usize = 0;
        while m < nl && h[k + m] == n[m]
            invariant
                hl == h@.len(),
                nl == n@.len(),
                k + nl <= hl,
                m <= nl,
                forall|p: int| 0 <= p < m ==> h@[k + p] == n@[p],
            decreases nl - m,
        {
            m = m + 1;
        }
        if m == n.len() {
            assert(h@.subrange(k as int, k + n@.len()) =~= n@);
            return true;
        }
        assert(h@.subrange(k as int, k + n@.len())[m as int] != n@[m as int]);
        k = k + 1;
    }
    assert forall|q: int| 0 <= q && q + n@.len() <= h@.len() implies #[trigger] h@.subrange(
        q,
        q + n@.len(),
    ) != n@ by {
        assert(q < k);
    }
    false
}

} // verus!
