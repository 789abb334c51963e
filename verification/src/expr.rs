//! Evaluation of preprocessor condition expressions once macro names have
//! been replaced: numbers, parentheses, unary `! - + ~` and the binary
//! operators of C with their usual precedence.
//!
//! Values are exact fractions: a numerator and a positive denominator,
//! both at most 2^62 in magnitude (they are not reduced). A value that
//! does not fit, a malformed literal, and a division or remainder by zero
//! make the expression unevaluable. The bitwise operators work on the
//! values truncated toward zero.
use vstd::prelude::*;
use crate::classes::{space_char, CharClasses};

verus! {

/// The largest magnitude a numerator or denominator may have.
pub const MAX_MAG: i64 = 4611686018427387904;

pub enum ETok {
    Num((i64, i64)),
    /// A binary or unary operator, by its code (see `op_code`).
    Op(u8),
    LParen,
    RParen,
}

/// Operator codes: 1 `||`, 2 `&&`, 3 `|`, 4 `^`, 5 `&`, 6 `==`, 7 `!=`,
/// 8 `<`, 9 `>`, 10 `<=`, 11 `>=`, 12 `+`, 13 `-`, 14 `*`, 15 `/`, 16 `%`,
/// 17 `!`, 18 `~`.
pub open spec fn op_code(a: char, b: Option<char>) -> Option<(u8, nat)> {
    if b == Some('&') && a == '&' {
        Some((2u8, 2nat))
    } else if b == Some('|') && a == '|' {
        Some((1u8, 2nat))
    } else if b == Some('=') && a == '=' {
        Some((6u8, 2nat))
    } else if b == Some('=') && a == '!' {
        Some((7u8, 2nat))
    } else if b == Some('=') && a == '<' {
        Some((10u8, 2nat))
    } else if b == Some('=') && a == '>' {
        Some((11u8, 2nat))
    } else if a == '+' {
        Some((12u8, 1nat))
    } else if a == '-' {
        Some((13u8, 1nat))
    } else if a == '*' {
        Some((14u8, 1nat))
    } else if a == '/' {
        Some((15u8, 1nat))
    } else if a == '%' {
        Some((16u8, 1nat))
    } else if a == '<' {
        Some((8u8, 1nat))
    } else if a == '>' {
        Some((9u8, 1nat))
    } else if a == '!' {
        Some((17u8, 1nat))
    } else if a == '&' {
        Some((5u8, 1nat))
    } else if a == '|' {
        Some((3u8, 1nat))
    } else if a == '^' {
        Some((4u8, 1nat))
    } else if a == '~' {
        Some((18u8, 1nat))
    } else {
        None
    }
}

pub enum Tok {
    Num((int, int)),
    Op(u8),
    LParen,
    RParen,
}

impl ETok {
    pub open spec fn view_tok(&self) -> Tok {
        match self {
            ETok::Num(n) => Tok::Num(frac_view(*n)),
            ETok::Op(o) => Tok::Op(*o),
            ETok::LParen => Tok::LParen,
            ETok::RParen => Tok::RParen,
        }
    }
}

pub open spec fn toks_view(ts: Seq<ETok>) -> Seq<Tok> {
    ts.map_values(|t: ETok| t.view_tok())
}

pub open spec fn is_num_char(c: char) -> bool {
    ('0' <= c && c <= '9') || c == '.'
}

pub open spec fn num_run_end(s: Seq<char>, i: int) -> int
    decreases s.len() - i,
{
    if 0 <= i < s.len() && is_num_char(s[i]) {
        num_run_end(s, i + 1)
    } else {
        i
    }
}

pub open spec fn digit_value(c: char) -> int {
    (c as u32 as int) - ('0' as u32 as int)
}

/// The value of a run of decimal digits.
pub open spec fn digits_value(t: Seq<char>) -> int
    decreases t.len(),
{
    if t.len() == 0 {
        0
    } else {
        digits_value(t.drop_last()) * 10 + digit_value(t.last())
    }
}

/// Index of the first `.` in `t`, or its length.
pub open spec fn first_dot(t: Seq<char>) -> int
    decreases t.len(),
{
    if t.len() == 0 {
        0
    } else if t[0] == '.' {
        0
    } else {
        1 + first_dot(t.drop_first())
    }
}

pub open spec fn pow10(k: nat) -> int
    decreases k,
{
    if k == 0 {
        1
    } else {
        10 * pow10((k - 1) as nat)
    }
}

/// The fraction a numeric literal (digits with at most one `.`) denotes:
/// the digits as one number over ten to the number of digits after the
/// dot. `None` when it is malformed or does not fit.
pub open spec fn literal_value(t: Seq<char>) -> Option<(int, int)> {
    let d = first_dot(t);
    if d >= t.len() {
        make(digits_value(t), 1)
    } else {
        let ip = t.take(d);
        let fp = t.skip(d + 1);
        if (ip.len() > 0 || fp.len() > 0) && (forall|k: int| 0 <= k < fp.len() ==> fp[k] != '.') {
            make(digits_value(ip + fp), pow10(fp.len()))
        } else {
            None
        }
    }
}

/// The tokens of an expression from position `i`.
pub open spec fn lex_expr(s: Seq<char>, i: int) -> Option<Seq<Tok>>
    decreases s.len() - i,
{
    if i < 0 || i >= s.len() {
        Some(Seq::empty())
    } else if space_char(s[i]) {
        lex_expr(s, i + 1)
    } else if is_num_char(s[i]) {
        let e = num_run_end(s, i);
        if i < e <= s.len() {
            match literal_value(s.subrange(i, e)) {
                Some(v) => match lex_expr(s, e) {
                    Some(rest) => Some(seq![Tok::Num(v)] + rest),
                    None => None,
                },
                None => None,
            }
        } else {
            None
        }
    } else if s[i] == '(' {
        match lex_expr(s, i + 1) {
            Some(rest) => Some(seq![Tok::LParen] + rest),
            None => None,
        }
    } else if s[i] == ')' {
        match lex_expr(s, i + 1) {
            Some(rest) => Some(seq![Tok::RParen] + rest),
            None => None,
        }
    } else {
        let b = if i + 1 < s.len() { Some(s[i + 1]) } else { None };
        match op_code(s[i], b) {
            Some((o, w)) => match lex_expr(s, i + w) {
                Some(rest) => Some(seq![Tok::Op(o)] + rest),
                None => None,
            },
            None => None,
        }
    }
}

/// Binding strength of a binary operator.
pub open spec fn bin_prec(o: u8) -> Option<nat> {
    if o == 1 {
        Some(1)
    } else if o == 2 {
        Some(2)
    } else if o == 3 {
        Some(3)
    } else if o == 4 {
        Some(4)
    } else if o == 5 {
        Some(5)
    } else if o == 6 || o == 7 {
        Some(6)
    } else if 8 <= o <= 11 {
        Some(7)
    } else if o == 12 || o == 13 {
        Some(8)
    } else if 14 <= o <= 16 {
        Some(9)
    } else {
        None
    }
}

/// A numerator or denominator that fits.
pub open spec fn in_range(v: int) -> bool {
    -MAX_MAG <= v <= MAX_MAG
}

/// A fraction whose parts fit, with a positive denominator.
pub open spec fn fits(v: (int, int)) -> bool {
    in_range(v.0) && 1 <= v.1 <= MAX_MAG
}

/// The fraction `n / d`, if its parts fit.
pub open spec fn make(n: int, d: int) -> Option<(int, int)> {
    if fits((n, d)) { Some((n, d)) } else { None }
}

pub open spec fn truth(b: bool) -> (int, int) {
    if b { (1, 1) } else { (0, 1) }
}

/// Quotient rounded toward zero.
pub open spec fn trunc_div(a: int, b: int) -> int {
    if (a >= 0) == (b >= 0) {
        abs(a) / abs(b)
    } else {
        -(abs(a) / abs(b))
    }
}

/// Remainder with the sign of the dividend.
pub open spec fn trunc_rem(a: int, b: int) -> int {
    a - b * trunc_div(a, b)
}

pub open spec fn abs(a: int) -> int {
    if a < 0 { -a } else { a }
}

/// A fraction truncated toward zero.
pub open spec fn whole(v: (int, int)) -> int {
    trunc_div(v.0, v.1)
}

/// Bitwise operations on whole numbers.
pub open spec fn bit_or(a: int, b: int) -> int {
    ((a as i64) | (b as i64)) as int
}

pub open spec fn bit_xor(a: int, b: int) -> int {
    ((a as i64) ^ (b as i64)) as int
}

pub open spec fn bit_and(a: int, b: int) -> int {
    ((a as i64) & (b as i64)) as int
}

/// The value of `a op b`.
pub open spec fn apply_bin(o: u8, a: (int, int), b: (int, int)) -> Option<(int, int)> {
    if o == 1 {
        Some(truth(a.0 != 0 || b.0 != 0))
    } else if o == 2 {
        Some(truth(a.0 != 0 && b.0 != 0))
    } else if o == 3 {
        make(bit_or(whole(a), whole(b)), 1)
    } else if o == 4 {
        make(bit_xor(whole(a), whole(b)), 1)
    } else if o == 5 {
        make(bit_and(whole(a), whole(b)), 1)
    } else if o == 6 {
        Some(truth(a.0 * b.1 == b.0 * a.1))
    } else if o == 7 {
        Some(truth(a.0 * b.1 != b.0 * a.1))
    } else if o == 8 {
        Some(truth(a.0 * b.1 < b.0 * a.1))
    } else if o == 9 {
        Some(truth(a.0 * b.1 > b.0 * a.1))
    } else if o == 10 {
        Some(truth(a.0 * b.1 <= b.0 * a.1))
    } else if o == 11 {
        Some(truth(a.0 * b.1 >= b.0 * a.1))
    } else if o == 12 {
        make(a.0 * b.1 + b.0 * a.1, a.1 * b.1)
    } else if o == 13 {
        make(a.0 * b.1 - b.0 * a.1, a.1 * b.1)
    } else if o == 14 {
        make(a.0 * b.0, a.1 * b.1)
    } else if o == 15 {
        if b.0 > 0 {
            make(a.0 * b.1, a.1 * b.0)
        } else if b.0 < 0 {
            make(-(a.0 * b.1), -(a.1 * b.0))
        } else {
            None
        }
    } else if o == 16 {
        if b.0 != 0 {
            make(trunc_rem(a.0 * b.1, b.0 * a.1), a.1 * b.1)
        } else {
            None
        }
    } else {
        None
    }
}

/// `!=` is the negation of `==`: for any two numbers exactly one of
/// `a == b` and `a != b` is 1 and the other 0, a number is never unequal
/// to itself, two different numbers are always unequal, and two ways of
/// writing the same number (`1/2`, `2/4`) are not.
pub proof fn law_not_equal_negates_equal(a: (int, int), b: (int, int))
    ensures
        apply_bin(7, a, b) matches Some(ne) && apply_bin(6, a, b) matches Some(eq)
            && ne.1 == 1 && eq.1 == 1 && ne.0 + eq.0 == 1 && (ne.0 == 0 || ne.0 == 1),
        apply_bin(7, a, a) == Some((0int, 1int)),
        a.1 > 0 && b.1 > 0 && a.0 * b.1 != b.0 * a.1 ==> apply_bin(7, a, b) == Some((1int, 1int)),
        a.1 > 0 && b.1 > 0 && a.0 * b.1 == b.0 * a.1 ==> apply_bin(7, a, b) == Some((0int, 1int)),
        op_code('!', Some('=')) == Some((7u8, 2nat)),
        op_code('=', Some('=')) == Some((6u8, 2nat)),
{
    assert(a.0 * a.1 == a.0 * a.1);
}

/// The value of a unary operator applied to `v`.
pub open spec fn apply_unary(o: u8, v: (int, int)) -> Option<(int, int)> {
    if o == 17 {
        Some(truth(v.0 == 0))
    } else if o == 13 {
        make(-v.0, v.1)
    } else if o == 12 {
        Some(v)
    } else if o == 18 {
        make(-whole(v) - 1, 1)
    } else {
        None
    }
}

pub open spec fn is_unary(o: u8) -> bool {
    o == 17 || o == 13 || o == 12 || o == 18
}

/// The binary operator at `q` and its strength, if it binds at least as
/// strongly as `min`.
pub open spec fn binary_at(ts: Seq<Tok>, q: int, min: nat) -> Option<(u8, nat)> {
    if 0 <= q < ts.len() {
        match ts[q] {
            Tok::Op(o) => match bin_prec(o) {
                Some(pr) => if pr >= min { Some((o, pr)) } else { None },
                None => None,
            },
            _ => None,
        }
    } else {
        None
    }
}

/// The unary operator at `p`, if there is one.
pub open spec fn unary_at(ts: Seq<Tok>, p: int) -> Option<u8> {
    if 0 <= p < ts.len() {
        match ts[p] {
            Tok::Op(o) => if is_unary(o) { Some(o) } else { None },
            _ => None,
        }
    } else {
        None
    }
}

/// Parses an expression whose operators bind at least as strongly as
/// `min`, starting at token `p`: its value and the position after it.
pub open spec fn parse_expr(ts: Seq<Tok>, p: int, min: nat) -> Option<((int, int), int)>
    decreases ts.len() - p, 3nat,
{
    if p < 0 || p >= ts.len() {
        None
    } else {
        match parse_unary(ts, p) {
            Some((v, q)) => if p < q <= ts.len() {
                expr_tail(ts, q, v, min)
            } else {
                None
            },
            None => None,
        }
    }
}

/// Continues an expression whose left operand `lhs` ends before token `q`.
pub open spec fn expr_tail(ts: Seq<Tok>, q: int, lhs: (int, int), min: nat) -> Option<((int, int), int)>
    decreases ts.len() - q, 4nat,
{
    match binary_at(ts, q, min) {
        Some((o, pr)) => match parse_expr(ts, q + 1, pr + 1) {
            Some((rhs, r)) => if q < r <= ts.len() {
                match apply_bin(o, lhs, rhs) {
                    Some(v) => expr_tail(ts, r, v, min),
                    None => None,
                }
            } else {
                None
            },
            None => None,
        },
        None => Some((lhs, q)),
    }
}

pub open spec fn parse_unary(ts: Seq<Tok>, p: int) -> Option<((int, int), int)>
    decreases ts.len() - p, 2nat,
{
    match unary_at(ts, p) {
        Some(o) => match parse_unary(ts, p + 1) {
            Some((v, q)) => match apply_unary(o, v) {
                Some(w) => Some((w, q)),
                None => None,
            },
            None => None,
        },
        None => parse_primary(ts, p),
    }
}

pub open spec fn parse_primary(ts: Seq<Tok>, p: int) -> Option<((int, int), int)>
    decreases ts.len() - p, 1nat,
{
    if 0 <= p < ts.len() {
        match ts[p] {
            Tok::Num(n) => Some((n, p + 1)),
            Tok::LParen => match parse_expr(ts, p + 1, 0) {
                Some((v, q)) => if 0 <= q < ts.len() && ts[q] == Tok::RParen {
                    Some((v, q + 1))
                } else {
                    None
                },
                None => None,
            },
            _ => None,
        }
    } else {
        None
    }
}

/// The value of a whole expression.
pub open spec fn eval_numeric(s: Seq<char>) -> Option<(int, int)> {
    match lex_expr(s, 0) {
        Some(ts) => match parse_expr(ts, 0, 0) {
            Some((v, q)) => if q == ts.len() { Some(v) } else { None },
            None => None,
        },
        None => None,
    }
}

// ---------------------------------------------------------------------------
// Evaluation
// ---------------------------------------------------------------------------

pub open spec fn frac_view(v: (i64, i64)) -> (int, int) {
    (v.0 as int, v.1 as int)
}

pub open spec fn opt_frac(o: Option<(i64, i64)>) -> Option<(int, int)> {
    match o {
        Some(v) => Some(frac_view(v)),
        None => None,
    }
}

pub proof fn lemma_first_dot(t: Seq<char>, d: int)
    requires
        0 <= d <= t.len(),
        forall|k: int| 0 <= k < d ==> t[k] != '.',
        d < t.len() ==> t[d] == '.',
    ensures
        first_dot(t) == d,
    decreases t.len(),
{
    if t.len() > 0 && d > 0 {
        lemma_first_dot(t.drop_first(), d - 1);
    }
}

pub proof fn lemma_digits_monotone(t: Seq<char>, k: int)
    requires
        0 <= k <= t.len(),
        forall|j: int| 0 <= j < t.len() ==> '0' <= #[trigger] t[j] <= '9',
    ensures
        digits_value(t) >= digits_value(t.take(k)),
        digits_value(t.take(k)) >= 0,
    decreases t.len(),
{
    if k == t.len() {
        assert(t.take(k) == t);
        lemma_digits_nonneg(t);
    } else {
        lemma_digits_monotone(t.drop_last(), k);
        assert(t.drop_last().take(k) == t.take(k));
        lemma_digits_nonneg(t.drop_last());
    }
}

pub proof fn lemma_digits_nonneg(t: Seq<char>)
    requires
        forall|j: int| 0 <= j < t.len() ==> '0' <= #[trigger] t[j] <= '9',
    ensures
        digits_value(t) >= 0,
    decreases t.len(),
{
    if t.len() > 0 {
        lemma_digits_nonneg(t.drop_last());
    }
}

/// The value of the digits `s[a..b]`, or `None` when it exceeds `MAX_MAG`.
fn digits_val(s: &Vec<char>, a: usize, b: usize) -> (r: Option<i64>)
    requires
        a <= b <= s.len(),
        forall|k: int| a <= k < b ==> '0' <= #[trigger] s@[k] <= '9',
    ensures
        r matches Some(v) ==> v == digits_value(s@.subrange(a as int, b as int)) && 0 <= v <= MAX_MAG,
        r is None ==> digits_value(s@.subrange(a as int, b as int)) > MAX_MAG,
{
    let ghost t = s@.subrange(a as int, b as int);
    let mut v: i64 = 0;
    let mut i = a;
    while i < b
        invariant
            a <= i <= b <= s.len(),
            t == s@.subrange(a as int, b as int),
            forall|k: int| a <= k < b ==> '0' <= #[trigger] s@[k] <= '9',
            v == digits_value(t.take(i - a)),
            0 <= v <= MAX_MAG,
        decreases b - i,
    {
        let d = (s[i] as u32 - '0' as u32) as i64;
        proof {
            assert(t.take(i - a + 1).drop_last() == t.take(i - a));
            assert(t.take(i - a + 1).last() == s@[i as int]);
        }
        if v > (MAX_MAG - d) / 10 {
            proof {
                assert(forall|j: int| 0 <= j < t.len() ==> '0' <= #[trigger] t[j] <= '9') by {
                    assert forall|j: int| 0 <= j < t.len() implies '0' <= #[trigger] t[j] <= '9' by {
                        assert(t[j] == s@[a + j]);
                    }
                }
                lemma_digits_monotone(t, i - a + 1);
                assert(digits_value(t.take(i - a + 1)) == v * 10 + d);
            }
            return None;
        }
        v = v * 10 + d;
        i = i + 1;
    }
    proof {
        assert(t.take(b - a) == t);
    }
    Some(v)
}

proof fn lemma_pow10_grows(k: nat, j: nat)
    requires
        k <= j,
    ensures
        1 <= pow10(k) <= pow10(j),
    decreases j,
{
    if j > k {
        lemma_pow10_grows(k, (j - 1) as nat);
    } else if k > 0 {
        lemma_pow10_grows((k - 1) as nat, (k - 1) as nat);
    }
}

/// Ten to the `k`, or `None` when that exceeds `MAX_MAG`.
fn pow10_val(k: usize) -> (r: Option<i64>)
    ensures
        r matches Some(p) ==> p == pow10(k as nat) && 1 <= p <= MAX_MAG,
        r is None ==> pow10(k as nat) > MAX_MAG,
{
    let mut p: i64 = 1;
    let mut i: usize = 0;
    while i < k
        invariant
            i <= k,
            p == pow10(i as nat),
            1 <= p <= MAX_MAG,
        decreases k - i,
    {
        if p > MAX_MAG / 10 {
            proof {
                lemma_pow10_grows((i + 1) as nat, k as nat);
            }
            return None;
        }
        p = p * 10;
        i = i + 1;
    }
    Some(p)
}

/// The fraction the numeric literal `s[a..b]` denotes.
fn literal(s: &Vec<char>, a: usize, b: usize) -> (r: Option<(i64, i64)>)
    requires
        a <= b <= s.len(),
        forall|k: int| a <= k < b ==> is_num_char(#[trigger] s@[k]),
    ensures
        opt_frac(r) == literal_value(s@.subrange(a as int, b as int)),
        r matches Some(v) ==> fits(frac_view(v)),
{
    let ghost t = s@.subrange(a as int, b as int);
    let mut d = a;
    while d < b && s[d] != '.'
        invariant
            a <= d <= b <= s.len(),
            forall|k: int| a <= k < d ==> s@[k] != '.',
        decreases b - d,
    {
        d = d + 1;
    }
    proof {
        lemma_first_dot(t, d - a);
    }
    if d == b {
        assert forall|k: int| a <= k < b implies '0' <= #[trigger] s@[k] <= '9' by {
            assert(is_num_char(s@[k]));
        }
        return match digits_val(s, a, b) {
            Some(v) => Some((v, 1)),
            None => None,
        };
    }
    if d == a && b == d + 1 {
        return None;
    }
    let mut joined: Vec<char> = Vec::new();
    let mut k = a;
    while k < d
        invariant
            a <= k <= d < b <= s.len(),
            t == s@.subrange(a as int, b as int),
            first_dot(t) == d - a,
            joined@ == s@.subrange(a as int, k as int),
        decreases d - k,
    {
        joined.push(s[k]);
        proof {
            assert(s@.subrange(a as int, k + 1) == s@.subrange(a as int, k as int).push(s@[k as int]));
        }
        k = k + 1;
    }
    let mut f = d + 1;
    while f < b
        invariant
            a <= d < b <= s.len(),
            d + 1 <= f <= b,
            t == s@.subrange(a as int, b as int),
            first_dot(t) == d - a,
            joined@ == s@.subrange(a as int, d as int) + s@.subrange(d + 1, f as int),
            forall|j: int| d + 1 <= j < f ==> s@[j] != '.',
        decreases b - f,
    {
        if s[f] == '.' {
            proof {
                let fp = t.skip(d - a + 1);
                assert(fp[f - d - 1] == s@[f as int]);
            }
            return None;
        }
        joined.push(s[f]);
        proof {
            assert(s@.subrange(d + 1, f + 1) == s@.subrange(d + 1, f as int).push(s@[f as int]));
        }
        f = f + 1;
    }
    proof {
        let ip = t.take(d - a);
        let fp = t.skip(d - a + 1);
        assert(ip == s@.subrange(a as int, d as int));
        assert(fp == s@.subrange(d + 1, b as int));
        assert(joined@ == ip + fp);
        assert forall|j: int| 0 <= j < fp.len() implies fp[j] != '.' by {
            assert(fp[j] == s@[d + 1 + j]);
        }
    }
    assert forall|j: int| 0 <= j < joined@.len() implies '0' <= #[trigger] joined@[j] <= '9' by {
        if j < d - a {
            assert(joined@[j] == s@[a + j]);
            assert(is_num_char(s@[a + j]));
        } else {
            assert(joined@[j] == s@[d + 1 + (j - (d - a))]);
            assert(is_num_char(s@[d + 1 + (j - (d - a))]));
        }
    }
    let n = match digits_val(&joined, 0, joined.len()) {
        Some(n) => n,
        None => {
            proof {
                assert(joined@.subrange(0, joined@.len() as int) == joined@);
            }
            return None;
        },
    };
    proof {
        assert(joined@.subrange(0, joined@.len() as int) == joined@);
    }
    match pow10_val(b - d - 1) {
        Some(p) => {
            proof {
                assert(t.skip(d - a + 1).len() == b - d - 1);
            }
            Some((n, p))
        },
        None => {
            proof {
                assert(t.skip(d - a + 1).len() == b - d - 1);
            }
            None
        },
    }
}

pub open spec fn prepend_toks(p: Seq<Tok>, o: Option<Seq<Tok>>) -> Option<Seq<Tok>> {
    match o {
        Some(r) => Some(p + r),
        None => None,
    }
}

fn scan_op(a: char, b: Option<char>) -> (r: Option<(u8, usize)>)
    ensures
        r matches Some((o, w)) ==> op_code(a, b) == Some((o, w as nat)),
        r is None ==> op_code(a, b) is None,
{
    if b == Some('&') && a == '&' {
        Some((2u8, 2usize))
    } else if b == Some('|') && a == '|' {
        Some((1u8, 2usize))
    } else if b == Some('=') && a == '=' {
        Some((6u8, 2usize))
    } else if b == Some('=') && a == '!' {
        Some((7u8, 2usize))
    } else if b == Some('=') && a == '<' {
        Some((10u8, 2usize))
    } else if b == Some('=') && a == '>' {
        Some((11u8, 2usize))
    } else if a == '+' {
        Some((12u8, 1usize))
    } else if a == '-' {
        Some((13u8, 1usize))
    } else if a == '*' {
        Some((14u8, 1usize))
    } else if a == '/' {
        Some((15u8, 1usize))
    } else if a == '%' {
        Some((16u8, 1usize))
    } else if a == '<' {
        Some((8u8, 1usize))
    } else if a == '>' {
        Some((9u8, 1usize))
    } else if a == '!' {
        Some((17u8, 1usize))
    } else if a == '&' {
        Some((5u8, 1usize))
    } else if a == '|' {
        Some((3u8, 1usize))
    } else if a == '^' {
        Some((4u8, 1usize))
    } else if a == '~' {
        Some((18u8, 1usize))
    } else {
        None
    }
}

/// The tokens of an expression.
pub fn tokenize_expr(cls: &CharClasses, s: &Vec<char>) -> (r: Option<Vec<ETok>>)
    requires
        cls.wf(),
    ensures
        r matches Some(ts) ==> lex_expr(s@, 0) == Some(toks_view(ts@)),
        r is None ==> lex_expr(s@, 0) is None,
        r matches Some(ts) ==> forall|k: int| 0 <= k < ts.len() ==> (#[trigger] ts@[k] matches ETok::Num(v) ==> fits(frac_view(v))),
{
    let mut out: Vec<ETok> = Vec::new();
    let mut i: usize = 0;
    while i < s.len()
        invariant
            cls.wf(),
            i <= s.len(),
            lex_expr(s@, 0) == prepend_toks(toks_view(out@), lex_expr(s@, i as int)),
            forall|k: int| 0 <= k < out.len() ==> (#[trigger] out@[k] matches ETok::Num(v) ==> fits(frac_view(v))),
        decreases s.len() - i,
    {
        let c = s[i];
        let ghost before = out@;
        if cls.is_space(c) {
            i = i + 1;
        } else if ('0' <= c && c <= '9') || c == '.' {
            let mut e = i;
            while e < s.len() && (('0' <= s[e] && s[e] <= '9') || s[e] == '.')
                invariant
                    i <= e <= s.len(),
                    num_run_end(s@, i as int) == num_run_end(s@, e as int),
                    forall|k: int| i <= k < e ==> is_num_char(#[trigger] s@[k]),
                decreases s.len() - e,
            {
                e = e + 1;
            }
            match literal(s, i, e) {
                Some(v) => {
                    out.push(ETok::Num(v));
                    proof {
                        assert(toks_view(out@) == toks_view(before).push(Tok::Num(frac_view(v))));
                        assert(toks_view(out@) == toks_view(before) + seq![Tok::Num(frac_view(v))]);
                    }
                    i = e;
                },
                None => {
                    return None;
                },
            }
        } else if c == '(' {
            out.push(ETok::LParen);
            proof {
                assert(toks_view(out@) == toks_view(before) + seq![Tok::LParen]);
            }
            i = i + 1;
        } else if c == ')' {
            out.push(ETok::RParen);
            proof {
                assert(toks_view(out@) == toks_view(before) + seq![Tok::RParen]);
            }
            i = i + 1;
        } else {
            let b = if i + 1 < s.len() { Some(s[i + 1]) } else { None };
            match scan_op(c, b) {
                Some((o, w)) => {
                    out.push(ETok::Op(o));
                    proof {
                        assert(toks_view(out@) == toks_view(before) + seq![Tok::Op(o)]);
                    }
                    i = i + w;
                },
                None => {
                    return None;
                },
            }
        }
        proof {
            assert forall|k: int| 0 <= k < out.len() implies (#[trigger] out@[k] matches ETok::Num(v) ==> fits(frac_view(v))) by {
                if k < before.len() {
                    assert(out@[k] == before[k]);
                }
            }
        }
    }
    proof {
        assert(toks_view(out@) + Seq::<Tok>::empty() == toks_view(out@));
    }
    Some(out)
}

pub open spec fn opt_pair(o: Option<((i64, i64), usize)>) -> Option<((int, int), int)> {
    match o {
        Some((v, q)) => Some((frac_view(v), q as int)),
        None => None,
    }
}

/// The fraction `n / d` when its parts fit.
fn make_exec(n: i128, d: i128) -> (r: Option<(i64, i64)>)
    ensures
        opt_frac(r) == make(n as int, d as int),
        r matches Some(v) ==> fits(frac_view(v)),
{
    if -(MAX_MAG as i128) <= n && n <= MAX_MAG as i128 && 1 <= d && d <= MAX_MAG as i128 {
        Some((n as i64, d as i64))
    } else {
        None
    }
}

fn truth_exec(b: bool) -> (r: (i64, i64))
    ensures
        frac_view(r) == truth(b),
        fits(frac_view(r)),
{
    if b { (1, 1) } else { (0, 1) }
}

/// Quotient rounded toward zero of values within 2^124.
fn exec_trunc_div(a: i128, b: i128) -> (q: i128)
    requires
        -0x1000_0000_0000_0000_0000_0000_0000_0000 <= a <= 0x1000_0000_0000_0000_0000_0000_0000_0000,
        -0x1000_0000_0000_0000_0000_0000_0000_0000 <= b <= 0x1000_0000_0000_0000_0000_0000_0000_0000,
        b != 0,
    ensures
        q as int == trunc_div(a as int, b as int),
        abs(q as int) <= abs(a as int),
        abs(a as int - b as int * q as int) < abs(b as int),
{
    let aa: i128 = if a < 0 { -a } else { a };
    let bb: i128 = if b < 0 { -b } else { b };
    let m = aa / bb;
    proof {
        assert(0 <= m <= aa) by (nonlinear_arith)
            requires m == aa / bb, aa >= 0, bb >= 1;
        assert(bb * m <= aa && aa - bb * m < bb) by (nonlinear_arith)
            requires m == aa / bb, aa >= 0, bb >= 1;
    }
    let q = if (a >= 0) == (b >= 0) { m } else { -m };
    proof {
        assert(abs(a as int - b as int * q as int) < abs(b as int)) by (nonlinear_arith)
            requires (b >= 0 ==> bb == b), (b < 0 ==> bb == -b),
                ((a >= 0) == (b >= 0)) ==> q == m, ((a >= 0) != (b >= 0)) ==> q == -m,
                (a >= 0 ==> aa == a), (a < 0 ==> aa == -a),
                bb * m <= aa, aa - bb * m < bb, m >= 0, bb >= 1;
    }
    q
}

/// A fraction truncated toward zero.
fn whole_exec(v: (i64, i64)) -> (w: i64)
    requires
        fits(frac_view(v)),
    ensures
        w as int == whole(frac_view(v)),
        in_range(w as int),
{
    let q = exec_trunc_div(v.0 as i128, v.1 as i128);
    q as i64
}

/// `x * y` for parts that fit: within 2^124.
proof fn lemma_product_bound(x: int, y: int)
    requires
        in_range(x),
        in_range(y),
    ensures
        -0x1000_0000_0000_0000_0000_0000_0000_0000 <= x * y <= 0x1000_0000_0000_0000_0000_0000_0000_0000,
{
    assert(-MAX_MAG * MAX_MAG <= x * y <= MAX_MAG * MAX_MAG) by (nonlinear_arith)
        requires -MAX_MAG <= x <= MAX_MAG, -MAX_MAG <= y <= MAX_MAG;
}

fn exec_apply_bin(o: u8, a: (i64, i64), b: (i64, i64)) -> (r: Option<(i64, i64)>)
    requires
        fits(frac_view(a)),
        fits(frac_view(b)),
    ensures
        opt_frac(r) == apply_bin(o, frac_view(a), frac_view(b)),
        r matches Some(v) ==> fits(frac_view(v)),
{
    proof {
        lemma_product_bound(a.0 as int, b.1 as int);
        lemma_product_bound(b.0 as int, a.1 as int);
        lemma_product_bound(a.0 as int, b.0 as int);
        lemma_product_bound(a.1 as int, b.1 as int);
    }
    let l = a.0 as i128 * b.1 as i128;
    let rr = b.0 as i128 * a.1 as i128;
    if o == 1 {
        Some(truth_exec(a.0 != 0 || b.0 != 0))
    } else if o == 2 {
        Some(truth_exec(a.0 != 0 && b.0 != 0))
    } else if o == 3 {
        make_exec((whole_exec(a) | whole_exec(b)) as i128, 1)
    } else if o == 4 {
        make_exec((whole_exec(a) ^ whole_exec(b)) as i128, 1)
    } else if o == 5 {
        make_exec((whole_exec(a) & whole_exec(b)) as i128, 1)
    } else if o == 6 {
        Some(truth_exec(l == rr))
    } else if o == 7 {
        Some(truth_exec(l != rr))
    } else if o == 8 {
        Some(truth_exec(l < rr))
    } else if o == 9 {
        Some(truth_exec(l > rr))
    } else if o == 10 {
        Some(truth_exec(l <= rr))
    } else if o == 11 {
        Some(truth_exec(l >= rr))
    } else if o == 12 {
        make_exec(l + rr, a.1 as i128 * b.1 as i128)
    } else if o == 13 {
        make_exec(l - rr, a.1 as i128 * b.1 as i128)
    } else if o == 14 {
        make_exec(a.0 as i128 * b.0 as i128, a.1 as i128 * b.1 as i128)
    } else if o == 15 {
        if b.0 > 0 {
            make_exec(l, a.1 as i128 * b.0 as i128)
        } else if b.0 < 0 {
            make_exec(-l, -(a.1 as i128 * b.0 as i128))
        } else {
            None
        }
    } else if o == 16 {
        if b.0 == 0 {
            return None;
        }
        proof {
            assert(rr != 0) by (nonlinear_arith)
                requires rr == b.0 * a.1, b.0 != 0, a.1 >= 1;
        }
        let q = exec_trunc_div(l, rr);
        let rem = l - rr * q;
        make_exec(rem, a.1 as i128 * b.1 as i128)
    } else {
        None
    }
}

fn exec_apply_unary(o: u8, v: (i64, i64)) -> (r: Option<(i64, i64)>)
    requires
        fits(frac_view(v)),
    ensures
        opt_frac(r) == apply_unary(o, frac_view(v)),
        r matches Some(w) ==> fits(frac_view(w)),
{
    if o == 17 {
        Some(truth_exec(v.0 == 0))
    } else if o == 13 {
        make_exec(-(v.0 as i128), v.1 as i128)
    } else if o == 12 {
        Some(v)
    } else if o == 18 {
        make_exec(-(whole_exec(v) as i128) - 1, 1)
    } else {
        None
    }
}

pub open spec fn nums_fit(ts: Seq<ETok>) -> bool {
    forall|k: int| 0 <= k < ts.len() ==> (#[trigger] ts[k] matches ETok::Num(v) ==> fits(frac_view(v)))
}
fn exec_parse_expr(ts: &Vec<ETok>, p: usize, min: u8) -> (r: Option<((i64, i64), usize)>)
    requires
        p <= ts.len(),
        nums_fit(ts@),
    ensures
        opt_pair(r) == parse_expr(toks_view(ts@), p as int, min as nat),
        r matches Some((v, q)) ==> fits(frac_view(v)) && p < q <= ts.len(),
    decreases ts.len() - p, 3nat,
{
    if p >= ts.len() {
        return None;
    }
    match exec_parse_unary(ts, p) {
        Some((v, q)) => {
            if p < q && q <= ts.len() {
                exec_expr_tail(ts, q, v, min)
            } else {
                None
            }
        },
        None => None,
    }
}

fn exec_expr_tail(ts: &Vec<ETok>, q: usize, lhs: (i64, i64), min: u8) -> (r: Option<((i64, i64), usize)>)
    requires
        q <= ts.len(),
        nums_fit(ts@),
        fits(frac_view(lhs)),
    ensures
        opt_pair(r) == expr_tail(toks_view(ts@), q as int, frac_view(lhs), min as nat),
        r matches Some((v, q2)) ==> fits(frac_view(v)) && q <= q2 <= ts.len(),
    decreases ts.len() - q, 4nat,
{
    let op = if q < ts.len() {
        match &ts[q] {
            ETok::Op(o) => {
                let pr = exec_bin_prec(*o);
                if pr > 0 && pr >= min {
                    Some((*o, pr))
                } else {
                    None
                }
            },
            _ => None,
        }
    } else {
        None
    };
    match op {
        Some((o, pr)) => {
            match exec_parse_expr(ts, q + 1, pr + 1) {
                Some((rhs, r)) => {
                    if q < r && r <= ts.len() {
                        match exec_apply_bin(o, lhs, rhs) {
                            Some(v) => exec_expr_tail(ts, r, v, min),
                            None => None,
                        }
                    } else {
                        None
                    }
                },
                None => None,
            }
        },
        None => Some((lhs, q)),
    }
}

/// `bin_prec` as a number, 0 for operators that are not binary.
fn exec_bin_prec(o: u8) -> (p: u8)
    ensures
        p == 0 <==> bin_prec(o) is None,
        p != 0 ==> bin_prec(o) == Some(p as nat),
        p <= 9,
{
    if o == 1 {
        1
    } else if o == 2 {
        2
    } else if o == 3 {
        3
    } else if o == 4 {
        4
    } else if o == 5 {
        5
    } else if o == 6 || o == 7 {
        6
    } else if 8 <= o && o <= 11 {
        7
    } else if o == 12 || o == 13 {
        8
    } else if 14 <= o && o <= 16 {
        9
    } else {
        0
    }
}

fn exec_parse_unary(ts: &Vec<ETok>, p: usize) -> (r: Option<((i64, i64), usize)>)
    requires
        p <= ts.len(),
        nums_fit(ts@),
    ensures
        opt_pair(r) == parse_unary(toks_view(ts@), p as int),
        r matches Some((v, q)) ==> fits(frac_view(v)) && p < q <= ts.len(),
    decreases ts.len() - p, 2nat,
{
    let un = if p < ts.len() {
        match &ts[p] {
            ETok::Op(o) => if *o == 17 || *o == 13 || *o == 12 || *o == 18 {
                Some(*o)
            } else {
                None
            },
            _ => None,
        }
    } else {
        None
    };
    match un {
        Some(o) => match exec_parse_unary(ts, p + 1) {
            Some((v, q)) => match exec_apply_unary(o, v) {
                Some(w) => Some((w, q)),
                None => None,
            },
            None => None,
        },
        None => exec_parse_primary(ts, p),
    }
}

fn exec_parse_primary(ts: &Vec<ETok>, p: usize) -> (r: Option<((i64, i64), usize)>)
    requires
        p <= ts.len(),
        nums_fit(ts@),
    ensures
        opt_pair(r) == parse_primary(toks_view(ts@), p as int),
        r matches Some((v, q)) ==> fits(frac_view(v)) && p < q <= ts.len(),
    decreases ts.len() - p, 1nat,
{
    if p >= ts.len() {
        return None;
    }
    match &ts[p] {
        ETok::Num(n) => {
            assert(ts@[p as int] matches ETok::Num(v) ==> fits(frac_view(v)));
            Some((*n, p + 1))
        },
        ETok::LParen => match exec_parse_expr(ts, p + 1, 0) {
            Some((v, q)) => {
                if q < ts.len() && matches!(ts[q], ETok::RParen) {
                    Some((v, q + 1))
                } else {
                    None
                }
            },
            None => None,
        },
        _ => None,
    }
}

/// The value of a condition expression, when it has one.
pub fn eval_numeric_exec(cls: &CharClasses, s: &Vec<char>) -> (r: Option<(i64, i64)>)
    requires
        cls.wf(),
    ensures
        opt_frac(r) == eval_numeric(s@),
{
    match tokenize_expr(cls, s) {
        Some(ts) => {
            match exec_parse_expr(&ts, 0, 0) {
                Some((v, q)) => if q == ts.len() {
                    Some(v)
                } else {
                    None
                },
                None => None,
            }
        },
        None => None,
    }
}

} // verus!
