//! The configuration lexer.
//!
//! Input bytes become a flat token sequence.  At each position the lexer
//! first skips whitespace and `#`-to-end-of-line comments to a fixed point,
//! then matches one token: `,`, an identifier, a decimal number, `(`, `)`, or
//! a script (`$` to end of line, or a `$$ ... $$` block), trimmed.  Matching
//! is greedy and left to right, and the whole input must be consumed.
use crate::decimal::NumLit;
use crate::decimal::NumView;
use crate::decimal::all_digits;
use crate::decimal::lit_wf;
use vstd::prelude::*;

verus! {

/// ASCII whitespace as the configuration language counts it: space, tab,
/// carriage return, line feed.
pub open spec fn is_ws(c: u8) -> bool {
    c == 32 || c == 9 || c == 13 || c == 10
}

pub open spec fn is_digit(c: u8) -> bool {
    48 <= c <= 57
}

/// Identifier head: a letter or underscore.
pub open spec fn is_ident_start(c: u8) -> bool {
    (65 <= c <= 90) || (97 <= c <= 122) || c == 95
}

/// Identifier continuation: a letter, digit or underscore.
pub open spec fn is_ident_cont(c: u8) -> bool {
    is_ident_start(c) || is_digit(c)
}

/// One lexical token.  Identifier and script payloads are the raw bytes
/// (scripts trimmed); a number is kept as its exact decimal parts.
#[derive(Debug)]
pub enum Token {
    Comma,
    Ident(Vec<u8>),
    Num(NumLit),
    ParenOpen,
    ParenClose,
    Script(Vec<u8>),
}

/// The mathematical content of a token.
pub ghost enum TokView {
    Comma,
    Ident(Seq<u8>),
    Num(NumView),
    ParenOpen,
    ParenClose,
    Script(Seq<u8>),
}

impl View for Token {
    type V = TokView;

    open spec fn view(&self) -> TokView {
        match self {
            Token::Comma => TokView::Comma,
            Token::Ident(v) => TokView::Ident(v@),
            Token::Num(l) => TokView::Num(l@),
            Token::ParenOpen => TokView::ParenOpen,
            Token::ParenClose => TokView::ParenClose,
            Token::Script(v) => TokView::Script(v@),
        }
    }
}

pub open spec fn toks_view(ts: Seq<Token>) -> Seq<TokView> {
    ts.map_values(|t: Token| t@)
}

/// Where skipping junk starting at `i` ends: whitespace and comments are
/// consumed until neither applies.
pub open spec fn junk_end_from(s: Seq<u8>, i: int, in_comment: bool) -> int
    decreases s.len() - i,
    when 0 <= i <= s.len()
{
    if i >= s.len() {
        s.len() as int
    } else if in_comment {
        if s[i] == 10 {
            junk_end_from(s, i + 1, false)
        } else {
            junk_end_from(s, i + 1, true)
        }
    } else if is_ws(s[i]) {
        junk_end_from(s, i + 1, false)
    } else if s[i] == 35 {
        junk_end_from(s, i + 1, true)
    } else {
        i
    }
}

pub open spec fn junk_end(s: Seq<u8>, i: int) -> int {
    junk_end_from(s, i, false)
}

pub proof fn lemma_junk_end_bounds(s: Seq<u8>, i: int, in_comment: bool)
    requires
        0 <= i <= s.len(),
    ensures
        i <= junk_end_from(s, i, in_comment) <= s.len(),
    decreases s.len() - i,
{
    if i < s.len() {
        if in_comment || is_ws(s[i]) || s[i] == 35 {
            lemma_junk_end_bounds(s, i + 1, if in_comment {
                s[i] != 10
            } else {
                s[i] == 35
            });
        }
    }
}

/// First position at or after `i` whose byte is not a decimal digit.
pub open spec fn digits_end(s: Seq<u8>, i: int) -> int
    decreases s.len() - i,
    when 0 <= i <= s.len()
{
    if i < s.len() && is_digit(s[i]) {
        digits_end(s, i + 1)
    } else {
        i
    }
}

pub proof fn lemma_digits_end_bounds(s: Seq<u8>, i: int)
    requires
        0 <= i <= s.len(),
    ensures
        i <= digits_end(s, i) <= s.len(),
        forall|t: int| i <= t < digits_end(s, i) ==> is_digit(#[trigger] s[t]),
        i < s.len() && is_digit(s[i]) ==> digits_end(s, i) >= i + 1,
    decreases s.len() - i,
{
    if i < s.len() && is_digit(s[i]) {
        lemma_digits_end_bounds(s, i + 1);
    }
}

/// First position at or after `i` whose byte is not an identifier byte.
pub open spec fn ident_end(s: Seq<u8>, i: int) -> int
    decreases s.len() - i,
    when 0 <= i <= s.len()
{
    if i < s.len() && is_ident_cont(s[i]) {
        ident_end(s, i + 1)
    } else {
        i
    }
}

pub proof fn lemma_ident_end_bounds(s: Seq<u8>, i: int)
    requires
        0 <= i <= s.len(),
    ensures
        i <= ident_end(s, i) <= s.len(),
        i < s.len() && is_ident_cont(s[i]) ==> ident_end(s, i) >= i + 1,
    decreases s.len() - i,
{
    if i < s.len() && is_ident_cont(s[i]) {
        lemma_ident_end_bounds(s, i + 1);
    }
}

/// Position of the next line feed at or after `i`, or the end of input.
pub open spec fn line_end(s: Seq<u8>, i: int) -> int
    decreases s.len() - i,
    when 0 <= i <= s.len()
{
    if i < s.len() && s[i] != 10 {
        line_end(s, i + 1)
    } else {
        i
    }
}

pub proof fn lemma_line_end_bounds(s: Seq<u8>, i: int)
    requires
        0 <= i <= s.len(),
    ensures
        i <= line_end(s, i) <= s.len(),
    decreases s.len() - i,
{
    if i < s.len() && s[i] != 10 {
        lemma_line_end_bounds(s, i + 1);
    }
}

/// Position of the next `$$` at or after `i`, if any.
pub open spec fn dd_end(s: Seq<u8>, i: int) -> Option<int>
    decreases s.len() - i,
    when 0 <= i <= s.len()
{
    if i + 2 > s.len() {
        None
    } else if s[i] == 36 && s[i + 1] == 36 {
        Some(i)
    } else {
        dd_end(s, i + 1)
    }
}

pub proof fn lemma_dd_end_bounds(s: Seq<u8>, i: int)
    requires
        0 <= i <= s.len(),
    ensures
        match dd_end(s, i) {
            Some(k) => i <= k && k + 2 <= s.len(),
            None => true,
        },
    decreases s.len() - i,
{
    if i + 2 <= s.len() && !(s[i] == 36 && s[i + 1] == 36) {
        lemma_dd_end_bounds(s, i + 1);
    }
}

/// First position at or after `i` whose byte is not whitespace.
pub open spec fn nonws_from(s: Seq<u8>, i: int) -> int
    decreases s.len() - i,
    when 0 <= i <= s.len()
{
    if i < s.len() && is_ws(s[i]) {
        nonws_from(s, i + 1)
    } else {
        i
    }
}

pub proof fn lemma_nonws_from_bounds(s: Seq<u8>, i: int)
    requires
        0 <= i <= s.len(),
    ensures
        i <= nonws_from(s, i) <= s.len(),
        nonws_from(s, i) < s.len() ==> !is_ws(s[nonws_from(s, i)]),
    decreases s.len() - i,
{
    if i < s.len() && is_ws(s[i]) {
        lemma_nonws_from_bounds(s, i + 1);
    }
}

/// Largest prefix end at or before `j` after dropping trailing whitespace.
pub open spec fn ws_back(s: Seq<u8>, j: int) -> int
    decreases j,
    when 0 <= j <= s.len()
{
    if j > 0 && is_ws(s[j - 1]) {
        ws_back(s, j - 1)
    } else {
        j
    }
}

/// The byte sequence with leading and trailing whitespace removed.
pub open spec fn trim_ws(t: Seq<u8>) -> Seq<u8> {
    let f = nonws_from(t, 0);
    if f == t.len() {
        Seq::empty()
    } else {
        t.subrange(f, ws_back(t, t.len() as int))
    }
}

/// The digit values a run of ASCII digit bytes spells.
pub open spec fn digit_seq(s: Seq<u8>, a: int, b: int) -> Seq<u8> {
    s.subrange(a, b).map_values(|c: u8| (c - 48) as u8)
}

/// Scan the exponent part of a number whose mantissa parts have been read,
/// and produce the token's content and end position.
pub open spec fn scan_num_exp(
    s: Seq<u8>,
    neg: bool,
    ints: Seq<u8>,
    fracs: Seq<u8>,
    j2: int,
) -> (NumView, int) {
    if j2 < s.len() && (s[j2] == 101 || s[j2] == 69) {
        let k0 = j2 + 1;
        let eneg = k0 < s.len() && s[k0] == 45;
        let esign = k0 < s.len() && (s[k0] == 45 || s[k0] == 43);
        let k1 = if esign {
            k0 + 1
        } else {
            k0
        };
        if k1 < s.len() && is_digit(s[k1]) {
            let k2 = digits_end(s, k1);
            (NumView { neg, ints, fracs, eneg, exps: digit_seq(s, k1, k2) }, k2)
        } else {
            // incomplete exponent: the number ends before the `e`
            (NumView { neg, ints, fracs, eneg: false, exps: Seq::empty() }, j2)
        }
    } else {
        (NumView { neg, ints, fracs, eneg: false, exps: Seq::empty() }, j2)
    }
}

/// Scan a decimal number at `i`: optional sign, then `digits [. digits]` or
/// `. digits`, then an optional complete exponent.  `None` if no number
/// starts here.
pub open spec fn scan_num(s: Seq<u8>, i: int) -> Option<(NumView, int)> {
    let neg = i < s.len() && s[i] == 45;
    let sign = i < s.len() && (s[i] == 45 || s[i] == 43);
    let j0 = if sign {
        i + 1
    } else {
        i
    };
    if j0 < s.len() && is_digit(s[j0]) {
        let j1 = digits_end(s, j0);
        if j1 < s.len() && s[j1] == 46 {
            let j2 = digits_end(s, j1 + 1);
            Some(scan_num_exp(s, neg, digit_seq(s, j0, j1), digit_seq(s, j1 + 1, j2), j2))
        } else {
            Some(scan_num_exp(s, neg, digit_seq(s, j0, j1), Seq::empty(), j1))
        }
    } else if j0 + 1 < s.len() && s[j0] == 46 && is_digit(s[j0 + 1]) {
        let j2 = digits_end(s, j0 + 1);
        Some(scan_num_exp(s, neg, Seq::empty(), digit_seq(s, j0 + 1, j2), j2))
    } else {
        None
    }
}

/// The token starting at position `i` (which must not be junk), with the
/// position just after it; `None` on an unrecognized byte or an unterminated
/// `$$` block.
pub open spec fn token_at(s: Seq<u8>, i: int) -> Option<(TokView, int)>
    recommends
        0 <= i < s.len(),
{
    if s[i] == 44 {
        Some((TokView::Comma, i + 1))
    } else if is_ident_start(s[i]) {
        Some((TokView::Ident(s.subrange(i, ident_end(s, i))), ident_end(s, i)))
    } else if s[i] == 43 || s[i] == 45 || s[i] == 46 || is_digit(s[i]) {
        match scan_num(s, i) {
            Some((v, j)) => Some((TokView::Num(v), j)),
            None => None,
        }
    } else if s[i] == 40 {
        Some((TokView::ParenOpen, i + 1))
    } else if s[i] == 41 {
        Some((TokView::ParenClose, i + 1))
    } else if s[i] == 36 {
        if i + 1 < s.len() && s[i + 1] == 36 {
            match dd_end(s, i + 2) {
                Some(k) => Some((TokView::Script(trim_ws(s.subrange(i + 2, k))), k + 2)),
                None => None,
            }
        } else {
            Some((TokView::Script(trim_ws(s.subrange(i + 1, line_end(s, i + 1)))), line_end(s, i + 1)))
        }
    } else {
        None
    }
}

pub proof fn lemma_token_at_bounds(s: Seq<u8>, i: int)
    requires
        0 <= i < s.len(),
    ensures
        match token_at(s, i) {
            Some((t, k)) => i < k <= s.len(),
            None => true,
        },
{
    lemma_ident_end_bounds(s, i);
    lemma_line_end_bounds(s, i + 1);
    if s[i] == 36 && i + 1 < s.len() && s[i + 1] == 36 {
        lemma_dd_end_bounds(s, i + 2);
    }
    if s[i] == 43 || s[i] == 45 || s[i] == 46 || is_digit(s[i]) {
        lemma_scan_num_bounds(s, i);
    }
    if is_ident_start(s[i]) {
        assert(ident_end(s, i) > i);
    }
}

pub proof fn lemma_scan_num_bounds(s: Seq<u8>, i: int)
    requires
        0 <= i < s.len(),
    ensures
        match scan_num(s, i) {
            Some((v, j)) => i < j <= s.len(),
            None => true,
        },
{
    let sign = s[i] == 45 || s[i] == 43;
    let j0 = if sign {
        i + 1
    } else {
        i
    };
    if j0 < s.len() && is_digit(s[j0]) {
        lemma_digits_end_bounds(s, j0);
        let j1 = digits_end(s, j0);
        if j1 < s.len() && s[j1] == 46 {
            lemma_digits_end_bounds(s, j1 + 1);
            lemma_scan_num_exp_bounds(s, digits_end(s, j1 + 1));
        } else {
            lemma_scan_num_exp_bounds(s, j1);
        }
    } else if j0 + 1 < s.len() && s[j0] == 46 && is_digit(s[j0 + 1]) {
        lemma_digits_end_bounds(s, j0 + 1);
        lemma_scan_num_exp_bounds(s, digits_end(s, j0 + 1));
    }
}

proof fn lemma_scan_num_exp_bounds(s: Seq<u8>, j2: int)
    requires
        0 <= j2 <= s.len(),
    ensures
        forall|neg: bool, ints: Seq<u8>, fracs: Seq<u8>|
            {
                let (v, j) = #[trigger] scan_num_exp(s, neg, ints, fracs, j2);
                j2 <= j <= s.len()
            },
{
    if j2 < s.len() && (s[j2] == 101 || s[j2] == 69) {
        let k0 = j2 + 1;
        let esign = k0 < s.len() && (s[k0] == 45 || s[k0] == 43);
        let k1 = if esign {
            k0 + 1
        } else {
            k0
        };
        if k1 < s.len() {
            lemma_digits_end_bounds(s, k1);
        }
    }
}

/// The lexing of the whole remaining input from `i`: the token sequence, or
/// the position where no token matches.
pub open spec fn lex_res(s: Seq<u8>, i: int) -> Result<Seq<TokView>, int>
    decreases s.len() - i,
    when 0 <= i <= s.len()
    via lex_res_dec
{
    let j = junk_end(s, i);
    if j >= s.len() {
        Ok(Seq::empty())
    } else {
        match token_at(s, j) {
            None => Err(j),
            Some((t, k)) => match lex_res(s, k) {
                Ok(rest) => Ok(seq![t] + rest),
                Err(p) => Err(p),
            },
        }
    }
}

#[via_fn]
proof fn lex_res_dec(s: Seq<u8>, i: int) {
    lemma_junk_end_bounds(s, i, false);
    let j = junk_end(s, i);
    if j < s.len() {
        lemma_token_at_bounds(s, j);
    }
}

/// A lexing failure: an unrecognized byte, or an unterminated `$$` block, at
/// the given byte offset.
#[derive(Debug)]
pub struct LexError {
    pub pos: usize,
}

fn ws_byte(c: u8) -> (r: bool)
    ensures
        r == is_ws(c),
{
    c == 32 || c == 9 || c == 13 || c == 10
}

fn digit_byte(c: u8) -> (r: bool)
    ensures
        r == is_digit(c),
{
    48 <= c && c <= 57
}

fn ident_start_byte(c: u8) -> (r: bool)
    ensures
        r == is_ident_start(c),
{
    (65 <= c && c <= 90) || (97 <= c && c <= 122) || c == 95
}

fn ident_cont_byte(c: u8) -> (r: bool)
    ensures
        r == is_ident_cont(c),
{
    ident_start_byte(c) || digit_byte(c)
}

fn junk_cont(s: &[u8], p: usize, inc: bool) -> (r: bool)
    requires
        p < s@.len(),
    ensures
        r == (inc || is_ws(s@[p as int]) || s@[p as int] == 35),
{
    inc || ws_byte(s[p]) || s[p] == 35
}

fn skip_junk(s: &[u8], from: usize) -> (j: usize)
    requires
        from <= s@.len(),
    ensures
        from <= j <= s@.len(),
        j as int == junk_end(s@, from as int),
{
    let mut p = from;
    let mut inc = false;
    while p < s.len() && junk_cont(s, p, inc)
        invariant
            from <= p <= s@.len(),
            junk_end(s@, from as int) == junk_end_from(s@, p as int, inc),
        decreases s@.len() - p,
    {
        if inc {
            if s[p] == 10 {
                inc = false;
            }
        } else if s[p] == 35 {
            inc = true;
        }
        p = p + 1;
    }
    p
}

fn scan_digits(s: &[u8], from: usize) -> (j: usize)
    requires
        from <= s@.len(),
    ensures
        from <= j <= s@.len(),
        j as int == digits_end(s@, from as int),
{
    let mut p = from;
    while p < s.len() && digit_byte(s[p])
        invariant
            from <= p <= s@.len(),
            digits_end(s@, from as int) == digits_end(s@, p as int),
        decreases s@.len() - p,
    {
        p = p + 1;
    }
    p
}

fn scan_ident(s: &[u8], from: usize) -> (j: usize)
    requires
        from <= s@.len(),
    ensures
        from <= j <= s@.len(),
        j as int == ident_end(s@, from as int),
{
    let mut p = from;
    while p < s.len() && ident_cont_byte(s[p])
        invariant
            from <= p <= s@.len(),
            ident_end(s@, from as int) == ident_end(s@, p as int),
        decreases s@.len() - p,
    {
        p = p + 1;
    }
    p
}

fn scan_line(s: &[u8], from: usize) -> (j: usize)
    requires
        from <= s@.len(),
    ensures
        from <= j <= s@.len(),
        j as int == line_end(s@, from as int),
{
    let mut p = from;
    while p < s.len() && s[p] != 10
        invariant
            from <= p <= s@.len(),
            line_end(s@, from as int) == line_end(s@, p as int),
        decreases s@.len() - p,
    {
        p = p + 1;
    }
    p
}

fn find_dd(s: &[u8], from: usize) -> (r: Option<usize>)
    requires
        from <= s@.len(),
    ensures
        match r {
            Some(k) => dd_end(s@, from as int) == Some(k as int) && from <= k && k + 2 <= s@.len(),
            None => dd_end(s@, from as int) is None,
        },
{
    let mut p = from;
    loop
        invariant
            from <= p <= s@.len(),
            dd_end(s@, from as int) == dd_end(s@, p as int),
        decreases s@.len() - p,
    {
        if p >= s.len() {
            return None;
        }
        if p + 1 >= s.len() {
            return None;
        }
        if s[p] == 36 && s[p + 1] == 36 {
            return Some(p);
        }
        p = p + 1;
    }
}

fn copy_range(s: &[u8], a: usize, b: usize) -> (out: Vec<u8>)
    requires
        a <= b <= s@.len(),
    ensures
        out@ == s@.subrange(a as int, b as int),
{
    vstd::slice::slice_to_vec(vstd::slice::slice_subrange(s, a, b))
}

fn collect_digits(s: &[u8], a: usize, b: usize) -> (out: Vec<u8>)
    requires
        a <= b <= s@.len(),
        forall|t: int| a <= t < b ==> is_digit(#[trigger] s@[t]),
    ensures
        out@ == digit_seq(s@, a as int, b as int),
        all_digits(out@),
{
    let mut out: Vec<u8> = Vec::new();
    let mut p = a;
    while p < b
        invariant
            a <= p <= b <= s@.len(),
            forall|t: int| a <= t < b ==> is_digit(#[trigger] s@[t]),
            out@ =~= digit_seq(s@, a as int, p as int),
            all_digits(out@),
        decreases b - p,
    {
        out.push(s[p] - 48);
        proof {
            assert(out@ =~= digit_seq(s@, a as int, p as int + 1));
        }
        p = p + 1;
    }
    out
}

fn copy_trimmed(s: &[u8], a: usize, b: usize) -> (out: Vec<u8>)
    requires
        a <= b <= s@.len(),
    ensures
        out@ == trim_ws(s@.subrange(a as int, b as int)),
{
    let ghost t = s@.subrange(a as int, b as int);
    let mut lo = a;
    while lo < b && ws_byte(s[lo])
        invariant
            a <= lo <= b <= s@.len(),
            t == s@.subrange(a as int, b as int),
            nonws_from(t, 0) == nonws_from(t, lo - a),
        decreases b - lo,
    {
        proof {
            assert(t[lo - a] == s@[lo as int]);
        }
        lo = lo + 1;
    }
    if lo == b {
        proof {
            assert(nonws_from(t, 0) == t.len());
            assert(trim_ws(t) =~= Seq::<u8>::empty());
        }
        let out: Vec<u8> = Vec::new();
        assert(out@ =~= trim_ws(t));
        return out;
    }
    proof {
        assert(t[lo - a] == s@[lo as int]);
        assert(!is_ws(t[lo - a]));
        assert(nonws_from(t, lo - a) == lo - a);
    }
    let mut hi = b;
    while hi > lo && ws_byte(s[hi - 1])
        invariant
            a <= lo < hi <= b <= s@.len(),
            t == s@.subrange(a as int, b as int),
            !is_ws(t[lo - a]),
            ws_back(t, b - a) == ws_back(t, hi - a),
        decreases hi,
    {
        proof {
            assert(t[hi - 1 - a] == s@[hi - 1]);
        }
        hi = hi - 1;
    }
    proof {
        assert(hi > lo);
        if hi - 1 - a >= 0 {
            assert(t[hi - 1 - a] == s@[hi - 1]);
        }
        assert(ws_back(t, hi - a) == hi - a);
        assert(trim_ws(t) =~= t.subrange(lo - a, hi - a));
        assert(t.subrange(lo - a, hi - a) =~= s@.subrange(lo as int, hi as int));
    }
    copy_range(s, lo, hi)
}

fn scan_number(s: &[u8], i: usize) -> (r: Option<(NumLit, usize)>)
    requires
        i < s@.len(),
    ensures
        match r {
            Some((lit, j)) => scan_num(s@, i as int) == Some((lit@, j as int)) && i < j <= s@.len()
                && lit_wf(lit@),
            None => scan_num(s@, i as int) is None,
        },
{
    proof {
        lemma_scan_num_bounds(s@, i as int);
    }
    let neg = s[i] == 45;
    let sign = s[i] == 45 || s[i] == 43;
    let j0 = if sign {
        i + 1
    } else {
        i
    };
    if j0 < s.len() && digit_byte(s[j0]) {
        proof {
            lemma_digits_end_bounds(s@, j0 as int);
        }
        let j1 = scan_digits(s, j0);
        let ints = collect_digits(s, j0, j1);
        if j1 < s.len() && s[j1] == 46 {
            proof {
                lemma_digits_end_bounds(s@, j1 as int + 1);
            }
            let j2 = scan_digits(s, j1 + 1);
            let fracs = collect_digits(s, j1 + 1, j2);
            Some(scan_number_exp(s, neg, ints, fracs, j2))
        } else {
            Some(scan_number_exp(s, neg, ints, Vec::new(), j1))
        }
    } else if j0 < s.len() && s[j0] == 46 && j0 + 1 < s.len() && digit_byte(s[j0 + 1]) {
        proof {
            lemma_digits_end_bounds(s@, j0 as int + 1);
        }
        let j2 = scan_digits(s, j0 + 1);
        let fracs = collect_digits(s, j0 + 1, j2);
        Some(scan_number_exp(s, neg, Vec::new(), fracs, j2))
    } else {
        None
    }
}

fn scan_number_exp(s: &[u8], neg: bool, ints: Vec<u8>, fracs: Vec<u8>, j2: usize) -> (r: (
    NumLit,
    usize,
))
    requires
        j2 <= s@.len(),
        all_digits(ints@),
        all_digits(fracs@),
        ints@.len() + fracs@.len() > 0,
    ensures
        ({
            let (v, j) = scan_num_exp(s@, neg, ints@, fracs@, j2 as int);
            r.0@ == v && r.1 as int == j && j2 <= r.1 <= s@.len() && lit_wf(v)
        }),
{
    if j2 < s.len() && (s[j2] == 101 || s[j2] == 69) {
        let k0 = j2 + 1;
        let eneg = k0 < s.len() && s[k0] == 45;
        let esign = k0 < s.len() && (s[k0] == 45 || s[k0] == 43);
        let k1 = if esign {
            k0 + 1
        } else {
            k0
        };
        if k1 < s.len() && digit_byte(s[k1]) {
            proof {
                lemma_digits_end_bounds(s@, k1 as int);
            }
            let k2 = scan_digits(s, k1);
            let exps = collect_digits(s, k1, k2);
            (NumLit::new_checked(neg, ints, fracs, eneg, exps), k2)
        } else {
            (NumLit::new_checked(neg, ints, fracs, false, Vec::new()), j2)
        }
    } else {
        (NumLit::new_checked(neg, ints, fracs, false, Vec::new()), j2)
    }
}

fn next_token(s: &[u8], i: usize) -> (r: Option<(Token, usize)>)
    requires
        i < s@.len(),
    ensures
        match r {
            Some((t, k)) => token_at(s@, i as int) == Some((t@, k as int)) && i < k <= s@.len(),
            None => token_at(s@, i as int) is None,
        },
{
    proof {
        lemma_token_at_bounds(s@, i as int);
    }
    let c = s[i];
    if c == 44 {
        Some((Token::Comma, i + 1))
    } else if ident_start_byte(c) {
        proof {
            lemma_ident_end_bounds(s@, i as int);
        }
        let j = scan_ident(s, i);
        Some((Token::Ident(copy_range(s, i, j)), j))
    } else if c == 43 || c == 45 || c == 46 || digit_byte(c) {
        match scan_number(s, i) {
            Some((lit, j)) => Some((Token::Num(lit), j)),
            None => None,
        }
    } else if c == 40 {
        Some((Token::ParenOpen, i + 1))
    } else if c == 41 {
        Some((Token::ParenClose, i + 1))
    } else if c == 36 {
        if i + 1 < s.len() && s[i + 1] == 36 {
            match find_dd(s, i + 2) {
                Some(k) => Some((Token::Script(copy_trimmed(s, i + 2, k)), k + 2)),
                None => None,
            }
        } else {
            proof {
                lemma_line_end_bounds(s@, i as int + 1);
            }
            let j = scan_line(s, i + 1);
            Some((Token::Script(copy_trimmed(s, i + 1, j)), j))
        }
    } else {
        None
    }
}

/// Turn configuration text into its token sequence, or report the byte
/// offset where no token matches (an unrecognized byte, or an unterminated
/// `$$` block).
pub fn tokenize(input: &[u8]) -> (r: Result<Vec<Token>, LexError>)
    ensures
        match r {
            Ok(ts) => lex_res(input@, 0) == Ok::<Seq<TokView>, int>(toks_view(ts@)),
            Err(e) => lex_res(input@, 0) == Err::<Seq<TokView>, int>(e.pos as int),
        },
{
    let mut toks: Vec<Token> = Vec::new();
    let mut pos: usize = 0;
    loop
        invariant
            pos <= input@.len(),
            match lex_res(input@, pos as int) {
                Ok(rest) => lex_res(input@, 0) == Ok::<Seq<TokView>, int>(
                    toks_view(toks@) + rest,
                ),
                Err(p) => lex_res(input@, 0) == Err::<Seq<TokView>, int>(p),
            },
        decreases input@.len() - pos,
    {
        let j = skip_junk(input, pos);
        if j == input.len() {
            proof {
                assert(lex_res(input@, pos as int) == Ok::<Seq<TokView>, int>(Seq::empty()));
                assert(toks_view(toks@) + Seq::empty() =~= toks_view(toks@));
            }
            return Ok(toks);
        }
        match next_token(input, j) {
            None => {
                proof {
                    assert(lex_res(input@, pos as int) == Err::<Seq<TokView>, int>(j as int));
                }
                return Err(LexError { pos: j });
            },
            Some((t, k)) => {
                proof {
                    let rest0 = lex_res(input@, k as int);
                    assert(lex_res(input@, pos as int) == (match rest0 {
                        Ok(rest) => Ok::<Seq<TokView>, int>(seq![t@] + rest),
                        Err(p) => Err::<Seq<TokView>, int>(p),
                    }));
                    if rest0 is Ok {
                        assert(toks_view(toks@) + (seq![t@] + rest0->Ok_0) =~= toks_view(
                            toks@.push(t),
                        ) + rest0->Ok_0);
                    }
                }
                toks.push(t);
                pos = k;
            },
        }
    }
}

} // verus!
