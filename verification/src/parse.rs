//! The mini-notation parser.
//!
//! A one-line syntax compiles to the combinator tree: words are unit
//! patterns (`~` the rest), whitespace builds a sequence squeezed into one
//! cycle, `[ ]` groups, `< >` alternates one element per cycle, `{ }` groups
//! like `[ ]`, and `word*k` / `word/k` scale time by the decimal `k`.  The
//! parser is specified by `parse_s`, a functional mirror of the grammar; it
//! returns the compiled tree exactly when the input conforms.

use vstd::prelude::*;
use crate::time::{Rat, Time, opt_fit, rat, rat_int, rat_div, rat_wf, fits64};
use crate::pattern::{PatS, Pattern, pat_wf, pats_view, pats_wf, fast_s, lemma_pats_view};
use crate::value::{ValS, Value};
use crate::sem::{oadd, odiv};

verus! {

/// Why an input was rejected: the character offset at which parsing
/// stopped (for an input beyond the supported length, offset zero).
#[derive(Debug, Clone, Copy, PartialEq, Eq)]
pub enum ParseError {
    /// The text does not conform to the grammar at or near this offset.
    Malformed(usize),
}

impl ParseError {
    /// The character offset at which parsing stopped.
    pub fn offset(&self) -> (r: usize)
        ensures
            self matches ParseError::Malformed(k) && r == k,
    {
        match self {
            ParseError::Malformed(k) => *k,
        }
    }
}

pub open spec fn is_word_char(c: char) -> bool {
    ('a' <= c && c <= 'z') || ('A' <= c && c <= 'Z') || ('0' <= c && c <= '9') || c == '_' || c
        == ':' || c == '~'
}

pub open spec fn is_digit(c: char) -> bool {
    '0' <= c && c <= '9'
}

pub open spec fn is_start(c: char) -> bool {
    is_word_char(c) || c == '[' || c == '<' || c == '{'
}

/// The first position at or after `i` that is not a space.
pub open spec fn skip_ws(s: Seq<char>, i: int) -> int
    decreases s.len() - i when 0 <= i <= s.len()
{
    if i < s.len() && s[i] == ' ' {
        skip_ws(s, i + 1)
    } else {
        i
    }
}

/// The end of the run of word characters starting at `i`.
pub open spec fn word_end(s: Seq<char>, i: int) -> int
    decreases s.len() - i when 0 <= i <= s.len()
{
    if i < s.len() && is_word_char(s[i]) {
        word_end(s, i + 1)
    } else {
        i
    }
}

/// The end of the run of digits starting at `i`.
pub open spec fn digits_end(s: Seq<char>, i: int) -> int
    decreases s.len() - i when 0 <= i <= s.len()
{
    if i < s.len() && is_digit(s[i]) {
        digits_end(s, i + 1)
    } else {
        i
    }
}

pub open spec fn pow10(k: nat) -> int
    decreases k,
{
    if k == 0 {
        1
    } else {
        10 * pow10((k - 1) as nat)
    }
}

/// The decimal literal starting at `i`: its exact value as a fraction, and
/// the position after it.  At most nine digits may stand on each side of
/// the point.
pub open spec fn p_number(s: Seq<char>, i: int) -> Option<(Rat, int)> {
    let e1 = digits_end(s, i);
    if e1 == i || e1 - i > 9 {
        None
    } else {
        let whole = crate::sem::digits_val(s.subrange(i, e1));
        if e1 < s.len() && s[e1] == '.' {
            let e2 = digits_end(s, e1 + 1);
            if e2 == e1 + 1 || e2 - (e1 + 1) > 9 {
                None
            } else {
                let fr = crate::sem::digits_val(s.subrange(e1 + 1, e2));
                let f = (e2 - (e1 + 1)) as nat;
                Some((rat(whole * pow10(f) + fr, pow10(f)), e2))
            }
        } else {
            Some((rat(whole, 1), e1))
        }
    }
}

/// A word compiles to a unit pattern; the rest `~` to silence.
pub open spec fn compile_word(w: Seq<char>) -> PatS {
    if w == seq!['~'] {
        PatS::Silence
    } else {
        PatS::Unit(ValS::Text(w))
    }
}

/// A sequence of `n` events fits into one cycle: `fast(n, cat(parts))`.
pub open spec fn compile_seq(parts: Seq<PatS>) -> Option<PatS> {
    if parts.len() > i64::MAX as int {
        None
    } else {
        Some(fast_s(rat_int(parts.len() as int), PatS::Cat(parts)))
    }
}

/// One event: a raw event, optionally modified by `*k` or `/k`.
pub open spec fn p_event(s: Seq<char>, i: int, fuel: nat) -> Option<(PatS, int)>
    decreases fuel, 2nat,
{
    if fuel == 0 {
        None
    } else {
        match p_raw(s, i, (fuel - 1) as nat) {
            None => None,
            Some((p, j)) => {
                if j < s.len() && s[j] == '*' {
                    match p_number(s, j + 1) {
                        None => None,
                        Some((k, j2)) => match opt_fit(k) {
                            None => None,
                            Some(kk) => Some((fast_s(kk, p), j2)),
                        },
                    }
                } else if j < s.len() && s[j] == '/' {
                    match p_number(s, j + 1) {
                        None => None,
                        Some((k, j2)) => {
                            if k.n == 0 {
                                None
                            } else {
                                match odiv(rat_int(1), k) {
                                    None => None,
                                    Some(inv) => Some((fast_s(inv, p), j2)),
                                }
                            }
                        },
                    }
                } else if j < s.len() && s[j] == '!' {
                    None
                } else {
                    Some((p, j))
                }
            },
        }
    }
}

/// A raw event: a word, a `[ ]` group, a `< >` alternation, or a `{ }`
/// group.
pub open spec fn p_raw(s: Seq<char>, i: int, fuel: nat) -> Option<(PatS, int)>
    decreases fuel, 1nat,
{
    if fuel == 0 || !(0 <= i < s.len()) {
        None
    } else if s[i] == '[' || s[i] == '{' {
        let close = if s[i] == '[' {
            ']'
        } else {
            '}'
        };
        match p_seq(s, skip_ws(s, i + 1), (fuel - 1) as nat) {
            None => None,
            Some((parts, j)) => {
                let j2 = skip_ws(s, j);
                if j2 < s.len() && s[j2] == close {
                    match compile_seq(parts) {
                        None => None,
                        Some(p) => Some((p, j2 + 1)),
                    }
                } else {
                    None
                }
            },
        }
    } else if s[i] == '<' {
        match p_seq(s, skip_ws(s, i + 1), (fuel - 1) as nat) {
            None => None,
            Some((parts, j)) => {
                let j2 = skip_ws(s, j);
                if j2 < s.len() && s[j2] == '>' {
                    Some((PatS::Cat(parts), j2 + 1))
                } else {
                    None
                }
            },
        }
    } else if is_word_char(s[i]) {
        let e = word_end(s, i);
        Some((compile_word(s.subrange(i, e)), e))
    } else {
        None
    }
}

/// A sequence: one event, then any further events separated by spaces.
pub open spec fn p_seq(s: Seq<char>, i: int, fuel: nat) -> Option<(Seq<PatS>, int)>
    decreases fuel, 3nat,
{
    if fuel == 0 {
        None
    } else {
        match p_event(s, i, (fuel - 1) as nat) {
            None => None,
            Some((p, j)) => match p_more(s, j, (fuel - 1) as nat) {
                None => None,
                Some((rest, k)) => Some((seq![p] + rest, k)),
            },
        }
    }
}

/// The remaining events of a sequence, if the next non-space character
/// starts one.
pub open spec fn p_more(s: Seq<char>, i: int, fuel: nat) -> Option<(Seq<PatS>, int)>
    decreases fuel, 4nat,
{
    if fuel == 0 {
        None
    } else {
        let j = skip_ws(s, i);
        if j < s.len() && j > i && is_start(s[j]) {
            match p_event(s, j, (fuel - 1) as nat) {
                None => None,
                Some((p, k)) => match p_more(s, k, (fuel - 1) as nat) {
                    None => None,
                    Some((rest, m)) => Some((seq![p] + rest, m)),
                },
            }
        } else {
            Some((Seq::empty(), i))
        }
    }
}

/// The whole input: a sequence surrounded by optional spaces, compiled to
/// one cycle.
pub open spec fn parse_s(s: Seq<char>) -> Option<PatS> {
    if s.len() > 100000000 {
        None
    } else {
    let i = skip_ws(s, 0);
    match p_seq(s, i, 3 * (s.len() + 1)) {
        None => None,
        Some((parts, j)) => {
            if skip_ws(s, j) == s.len() {
                compile_seq(parts)
            } else {
                None
            }
        },
    }
    }
}

// ---------------------------------------------------------------------------
// The executable parser, a mirror of the specification above.
// ---------------------------------------------------------------------------

fn skip_ws_x(s: &Vec<char>, i: usize) -> (r: usize)
    requires
        i <= s@.len(),
    ensures
        r == skip_ws(s@, i as int),
        i <= r <= s@.len(),
    decreases s@.len() - i,
{
    if i < s.len() && s[i] == ' ' {
        skip_ws_x(s, i + 1)
    } else {
        i
    }
}

fn word_end_x(s: &Vec<char>, i: usize) -> (r: usize)
    requires
        i <= s@.len(),
    ensures
        r == word_end(s@, i as int),
        i <= r <= s@.len(),
    decreases s@.len() - i,
{
    if i < s.len() && is_word_char_x(s[i]) {
        word_end_x(s, i + 1)
    } else {
        i
    }
}

fn digits_end_x(s: &Vec<char>, i: usize) -> (r: usize)
    requires
        i <= s@.len(),
    ensures
        r == digits_end(s@, i as int),
        i <= r <= s@.len(),
        forall|k: int| i <= k < r ==> is_digit(#[trigger] s@[k]),
    decreases s@.len() - i,
{
    if i < s.len() && '0' <= s[i] && s[i] <= '9' {
        digits_end_x(s, i + 1)
    } else {
        i
    }
}

fn is_word_char_x(c: char) -> (r: bool)
    ensures
        r == is_word_char(c),
{
    ('a' <= c && c <= 'z') || ('A' <= c && c <= 'Z') || ('0' <= c && c <= '9') || c == '_' || c
        == ':' || c == '~'
}

fn is_start_x(c: char) -> (r: bool)
    ensures
        r == is_start(c),
{
    is_word_char_x(c) || c == '[' || c == '<' || c == '{'
}

/// Every digit string is smaller than one followed by that many zeros.
proof fn lemma_digits_bound(s: Seq<char>)
    requires
        forall|k: int| 0 <= k < s.len() ==> is_digit(#[trigger] s[k]),
    ensures
        0 <= crate::sem::digits_val(s) < pow10(s.len()),
    decreases s.len(),
{
    if s.len() > 0 {
        assert(forall|k: int| 0 <= k < s.len() - 1 ==> #[trigger] s.drop_last()[k] == s[k]);
        lemma_digits_bound(s.drop_last());
        assert(is_digit(s[s.len() - 1]));
        assert(crate::sem::digits_val(s) == crate::sem::digits_val(s.drop_last()) * 10 + (
        s.last() as int - '0' as int));
        assert(crate::sem::digits_val(s.drop_last()) * 10 + (s.last() as int - '0' as int)
            < 10 * pow10((s.len() - 1) as nat) && crate::sem::digits_val(s.drop_last()) * 10
            >= 0) by (nonlinear_arith)
            requires
                0 <= crate::sem::digits_val(s.drop_last()) < pow10((s.len() - 1) as nat),
                0 <= (s.last() as int - '0' as int) <= 9,
        ;
    }
}

proof fn lemma_pow10_pos(k: nat)
    ensures
        1 <= pow10(k),
    decreases k,
{
    if k > 0 {
        lemma_pow10_pos((k - 1) as nat);
    }
}

proof fn lemma_pow10_le(a: nat, b: nat)
    requires
        a <= b,
    ensures
        1 <= pow10(a) <= pow10(b),
    decreases b,
{
    lemma_pow10_pos(a);
    if a < b {
        lemma_pow10_le(a, (b - 1) as nat);
        lemma_pow10_pos((b - 1) as nat);
        assert(pow10(b) == 10 * pow10((b - 1) as nat));
    }
}

/// The exact value of the digit run `s[i..j]`, which must be short enough
/// to fit the machine word.
fn digits_val_x(s: &Vec<char>, i: usize, j: usize) -> (r: i64)
    requires
        i <= j <= s@.len(),
        j - i <= 9,
        forall|k: int| i <= k < j ==> is_digit(#[trigger] s@[k]),
    ensures
        r as int == crate::sem::digits_val(s@.subrange(i as int, j as int)),
        0 <= r < 1000000000,
{
    let ghost whole = s@.subrange(i as int, j as int);
    proof {
        assert(forall|k: int| 0 <= k < whole.len() ==> is_digit(#[trigger] whole[k]));
        lemma_digits_bound(whole);
        lemma_pow10_le(whole.len() as nat, 9);
        assert(pow10(9) == 1000000000) by {
            reveal_with_fuel(pow10, 11);
        }
    }
    let mut acc: i64 = 0;
    let mut k: usize = i;
    proof {
        assert(whole.take(0) =~= Seq::<char>::empty());
    }
    while k < j
        invariant
            i <= k <= j <= s@.len(),
            j - i <= 9,
            whole == s@.subrange(i as int, j as int),
            forall|m: int| i <= m < j ==> is_digit(#[trigger] s@[m]),
            acc as int == crate::sem::digits_val(whole.take(k - i)),
            0 <= acc,
            (acc as int) < pow10((k - i) as nat),
        decreases j - k,
    {
        proof {
            assert(whole[k - i] == s@[k as int]);
            assert(whole.take(k - i + 1).drop_last() =~= whole.take(k - i));
            assert(whole.take(k - i + 1).last() == whole[k - i]);
            assert(forall|m: int| 0 <= m < k - i + 1 ==> is_digit(#[trigger] whole.take(
                k - i + 1,
            )[m]));
            lemma_digits_bound(whole.take(k - i + 1));
            lemma_pow10_le((k - i) as nat, 8);
            assert(pow10(8) == 100000000) by {
                reveal_with_fuel(pow10, 10);
            }
            assert(pow10((k - i + 1) as nat) == 10 * pow10((k - i) as nat));
        }
        let d: i64 = (s[k] as u32 - 48) as i64;
        acc = acc * 10 + d;
        k += 1;
    }
    proof {
        assert(whole.take(j - i) =~= whole);
        lemma_pow10_le((j - i) as nat, 9);
        assert(pow10(9) == 1000000000) by {
            reveal_with_fuel(pow10, 11);
        }
    }
    acc
}

/// Parse the decimal literal at `i` into an exact time.
fn p_number_x(s: &Vec<char>, i: usize) -> (r: Result<(Time, usize), usize>)
    requires
        i <= s@.len(),
    ensures
        match r {
            Ok((t, j)) => {
                &&& t.wf()
                &&& p_number(s@, i as int) == Some((t@, j as int))
                &&& i <= j <= s@.len()
            },
            Err(_) => p_number(s@, i as int) is None,
        },
{
    let e1 = digits_end_x(s, i);
    if e1 == i || e1 - i > 9 {
        return Err(i);
    }
    let whole = digits_val_x(s, i, e1);
    proof {
        crate::time::lemma_rat_repr(whole as int, 1);
    }
    if e1 < s.len() && s[e1] == '.' {
        let e2 = digits_end_x(s, e1 + 1);
        if e2 == e1 + 1 || e2 - (e1 + 1) > 9 {
            return Err(e1 + 1);
        }
        let fr = digits_val_x(s, e1 + 1, e2);
        let f = e2 - (e1 + 1);
        let mut den: i64 = 1;
        let mut c: usize = 0;
        while c < f
            invariant
                0 <= c <= f <= 9,
                den as int == pow10(c as nat),
                1 <= den <= 1000000000,
            decreases f - c,
        {
            proof {
                lemma_pow10_le((c + 1) as nat, 9);
                assert(pow10(9) == 1000000000) by {
                    reveal_with_fuel(pow10, 11);
                }
            }
            den = den * 10;
            c += 1;
        }
        proof {
            assert((whole as int) * (den as int) + (fr as int) < 1000000000000000000
                && 0 <= (whole as int) * (den as int)) by (nonlinear_arith)
                requires
                    0 <= whole < 1000000000,
                    1 <= den <= 1000000000,
                    0 <= fr < 1000000000,
                    den as int <= 1000000000,
                    (whole as int) < 1000000000,
            ;
        }
        let num: i64 = whole * den + fr;
        proof {
            assert(num as int == crate::sem::digits_val(s@.subrange(i as int, e1 as int))
                * pow10(f as nat) + crate::sem::digits_val(
                s@.subrange(e1 as int + 1, e2 as int),
            ));
            crate::time::lemma_rat_repr(num as int, den as int);
            assert(fits64(rat(num as int, den as int))) by {
                assert(crate::time::abs_n(rat(num as int, den as int).n)
                    <= crate::time::abs_n(num as int));
                assert(rat(num as int, den as int).d <= den as int);
            }
        }
        match Time::new(num, den) {
            Some(t) => Ok((t, e2)),
            None => {
                proof {
                    assert(false);
                }
                Err(i)
            },
        }
    } else {
        proof {
            assert(fits64(rat(whole as int, 1))) by {
                assert(crate::time::abs_n(rat(whole as int, 1).n) <= crate::time::abs_n(
                    whole as int,
                ));
                assert(rat(whole as int, 1).d <= 1);
            }
        }
        match Time::new(whole, 1) {
            Some(t) => Ok((t, e1)),
            None => {
                proof {
                    assert(false);
                }
                Err(i)
            },
        }
    }
}

/// Compile a parsed sequence into one cycle.
fn compile_seq_x(parts: Vec<Pattern>) -> (r: Option<Pattern>)
    requires
        forall|k: int| 0 <= k < parts@.len() ==> pat_wf(#[trigger] parts@[k]@),
    ensures
        match r {
            Some(p) => compile_seq(pats_view(parts@)) == Some(p@) && p.wf(),
            None => compile_seq(pats_view(parts@)) is None,
        },
{
    proof {
        lemma_pats_view(parts@);
    }
    if parts.len() as u128 > i64::MAX as u128 {
        return None;
    }
    let n = parts.len() as i64;
    let nt = Time::from_int(n);
    let inner = crate::combinators::cat(parts);
    let q = crate::pattern::fast(nt, inner);
    Some(q)
}

fn p_event_x(s: &Vec<char>, i: usize, fuel: usize) -> (r: Result<(Pattern, usize), usize>)
    requires
        i <= s@.len(),
    ensures
        match r {
            Ok((p, j)) => {
                &&& p.wf()
                &&& p_event(s@, i as int, fuel as nat) == Some((p@, j as int))
                &&& i <= j <= s@.len()
            },
            Err(_) => p_event(s@, i as int, fuel as nat) is None,
        },
    decreases fuel, 2nat,
{
    if fuel == 0 {
        return Err(i);
    }
    let (p, j) = match p_raw_x(s, i, fuel - 1) {
        Err(e) => {
            return Err(e);
        },
        Ok(x) => x,
    };
    if j < s.len() && s[j] == '*' {
        match p_number_x(s, j + 1) {
            Err(e) => Err(e),
            Ok((k, j2)) => {
                proof {
                    crate::time::lemma_rat_of_wf(k@);
                }
                let q = crate::pattern::fast(k, p);
                Ok((q, j2))
            },
        }
    } else if j < s.len() && s[j] == '/' {
        match p_number_x(s, j + 1) {
            Err(e) => Err(e),
            Ok((k, j2)) => {
                if k.n == 0 {
                    return Err(j + 1);
                }
                let one = Time::from_int(1);
                match one.div(&k) {
                    None => Err(j + 1),
                    Some(inv) => {
                        let q = crate::pattern::fast(inv, p);
                        Ok((q, j2))
                    },
                }
            },
        }
    } else if j < s.len() && s[j] == '!' {
        Err(j)
    } else {
        Ok((p, j))
    }
}

fn p_raw_x(s: &Vec<char>, i: usize, fuel: usize) -> (r: Result<(Pattern, usize), usize>)
    requires
        i <= s@.len(),
    ensures
        match r {
            Ok((p, j)) => {
                &&& p.wf()
                &&& p_raw(s@, i as int, fuel as nat) == Some((p@, j as int))
                &&& i <= j <= s@.len()
            },
            Err(_) => p_raw(s@, i as int, fuel as nat) is None,
        },
    decreases fuel, 1nat,
{
    if fuel == 0 || i >= s.len() {
        return Err(i);
    }
    let c0 = s[i];
    if c0 == '[' || c0 == '{' {
        let close = if c0 == '[' {
            ']'
        } else {
            '}'
        };
        let start = skip_ws_x(s, i + 1);
        let (parts, j) = match p_seq_x(s, start, fuel - 1) {
            Err(e) => {
                return Err(e);
            },
            Ok(x) => x,
        };
        let j2 = skip_ws_x(s, j);
        if j2 < s.len() && s[j2] == close {
            match compile_seq_x(parts) {
                None => Err(j2),
                Some(p) => Ok((p, j2 + 1)),
            }
        } else {
            Err(j2)
        }
    } else if c0 == '<' {
        let start = skip_ws_x(s, i + 1);
        let (parts, j) = match p_seq_x(s, start, fuel - 1) {
            Err(e) => {
                return Err(e);
            },
            Ok(x) => x,
        };
        let j2 = skip_ws_x(s, j);
        if j2 < s.len() && s[j2] == '>' {
            proof {
                lemma_pats_view(parts@);
            }
            let q = crate::combinators::cat(parts);
            Ok((q, j2 + 1))
        } else {
            Err(j2)
        }
    } else if is_word_char_x(c0) {
        let e = word_end_x(s, i);
        let mut w: Vec<char> = Vec::new();
        let mut t: usize = i;
        while t < e
            invariant
                i <= t <= e <= s@.len(),
                w@ == s@.subrange(i as int, t as int),
            decreases e - t,
        {
            w.push(s[t]);
            proof {
                assert(w@ =~= s@.subrange(i as int, t as int + 1));
            }
            t += 1;
        }
        let is_rest = w.len() == 1 && w[0] == '~';
        proof {
            if is_rest {
                assert(w@ =~= seq!['~']);
            } else {
                assert(w@ != seq!['~']) by {
                    if w@ == seq!['~'] {
                        assert(w@.len() == 1 && w@[0] == '~');
                    }
                }
            }
        }
        if is_rest {
            Ok((Pattern::Silence, e))
        } else {
            let q = crate::combinators::unit(Value::Text(w));
            Ok((q, e))
        }
    } else {
        Err(i)
    }
}

fn p_seq_x(s: &Vec<char>, i: usize, fuel: usize) -> (r: Result<(Vec<Pattern>, usize), usize>)
    requires
        i <= s@.len(),
    ensures
        match r {
            Ok((ps, j)) => {
                &&& forall|k: int| 0 <= k < ps@.len() ==> pat_wf(#[trigger] ps@[k]@)
                &&& p_seq(s@, i as int, fuel as nat) == Some((pats_view(ps@), j as int))
                &&& i <= j <= s@.len()
            },
            Err(_) => p_seq(s@, i as int, fuel as nat) is None,
        },
    decreases fuel, 3nat,
{
    if fuel == 0 {
        return Err(i);
    }
    let (p, j) = match p_event_x(s, i, fuel - 1) {
        Err(e) => {
            return Err(e);
        },
        Ok(x) => x,
    };
    let (rest, k) = match p_more_x(s, j, fuel - 1) {
        Err(e) => {
            return Err(e);
        },
        Ok(x) => x,
    };
    let ghost gp = p@;
    let ghost grest = pats_view(rest@);
    let mut out: Vec<Pattern> = Vec::new();
    out.push(p);
    let mut t: usize = 0;
    let nr = rest.len();
    proof {
        lemma_pats_view(rest@);
        lemma_pats_view(out@);
        assert(pats_view(out@) =~= seq![gp] + grest.take(0));
    }
    while t < nr
        invariant
            0 <= t <= nr,
            nr == rest@.len(),
            grest == pats_view(rest@),
            grest.len() == nr,
            forall|k2: int| 0 <= k2 < nr ==> pat_wf(#[trigger] rest@[k2]@) && rest@[k2]@
                == grest[k2],
            pats_view(out@) == seq![gp] + grest.take(t as int),
            pat_wf(gp),
            forall|k2: int| 0 <= k2 < out@.len() ==> pat_wf(#[trigger] out@[k2]@),
        decreases nr - t,
    {
        let q = rest[t].dup();
        let ghost old_out = out@;
        out.push(q);
        proof {
            lemma_pats_view(old_out);
            lemma_pats_view(out@);
            assert(out@.drop_last() =~= old_out);
            assert(pats_view(out@).len() == out@.len());
            assert forall|z: int| 0 <= z < out@.len() implies #[trigger] pats_view(out@)[z]
                == (seq![gp] + grest.take(t as int + 1))[z] by {
                assert(pats_view(out@)[z] == out@[z]@);
                if z < old_out.len() {
                    assert(out@[z] == old_out[z]);
                    assert(pats_view(old_out)[z] == old_out[z]@);
                    assert(pats_view(old_out)[z] == (seq![gp] + grest.take(t as int))[z]);
                } else {
                    assert(out@[z]@ == grest[t as int]);
                }
            }
            assert(pats_view(out@) =~= seq![gp] + grest.take(t as int + 1));
        }
        t += 1;
    }
    proof {
        assert(grest.take(nr as int) =~= grest);
    }
    Ok((out, k))
}

fn p_more_x(s: &Vec<char>, i: usize, fuel: usize) -> (r: Result<(Vec<Pattern>, usize), usize>)
    requires
        i <= s@.len(),
    ensures
        match r {
            Ok((ps, j)) => {
                &&& forall|k: int| 0 <= k < ps@.len() ==> pat_wf(#[trigger] ps@[k]@)
                &&& p_more(s@, i as int, fuel as nat) == Some((pats_view(ps@), j as int))
                &&& i <= j <= s@.len()
            },
            Err(_) => p_more(s@, i as int, fuel as nat) is None,
        },
    decreases fuel, 4nat,
{
    if fuel == 0 {
        return Err(i);
    }
    let j = skip_ws_x(s, i);
    if j < s.len() && j > i && is_start_x(s[j]) {
        let (p, k) = match p_event_x(s, j, fuel - 1) {
            Err(e) => {
                return Err(e);
            },
            Ok(x) => x,
        };
        let (rest, m) = match p_more_x(s, k, fuel - 1) {
            Err(e) => {
                return Err(e);
            },
            Ok(x) => x,
        };
        let ghost gp = p@;
        let ghost grest = pats_view(rest@);
        let mut out: Vec<Pattern> = Vec::new();
        out.push(p);
        let mut t: usize = 0;
        let nr = rest.len();
        proof {
            lemma_pats_view(rest@);
            lemma_pats_view(out@);
            assert(pats_view(out@) =~= seq![gp] + grest.take(0));
        }
        while t < nr
            invariant
                0 <= t <= nr,
                nr == rest@.len(),
                grest == pats_view(rest@),
                grest.len() == nr,
                forall|k2: int| 0 <= k2 < nr ==> pat_wf(#[trigger] rest@[k2]@) && rest@[k2]@
                    == grest[k2],
                pats_view(out@) == seq![gp] + grest.take(t as int),
                pat_wf(gp),
                forall|k2: int| 0 <= k2 < out@.len() ==> pat_wf(#[trigger] out@[k2]@),
            decreases nr - t,
        {
            let q = rest[t].dup();
            let ghost old_out = out@;
            out.push(q);
            proof {
                lemma_pats_view(old_out);
                lemma_pats_view(out@);
                assert(out@.drop_last() =~= old_out);
                assert(pats_view(out@).len() == out@.len());
                assert forall|z: int| 0 <= z < out@.len() implies #[trigger] pats_view(
                    out@,
                )[z] == (seq![gp] + grest.take(t as int + 1))[z] by {
                    assert(pats_view(out@)[z] == out@[z]@);
                    if z < old_out.len() {
                        assert(out@[z] == old_out[z]);
                        assert(pats_view(old_out)[z] == old_out[z]@);
                        assert(pats_view(old_out)[z] == (seq![gp] + grest.take(t as int))[z]);
                    } else {
                        assert(out@[z]@ == grest[t as int]);
                    }
                }
                assert(pats_view(out@) =~= seq![gp] + grest.take(t as int + 1));
            }
            t += 1;
        }
        proof {
            assert(grest.take(nr as int) =~= grest);
        }
        Ok((out, m))
    } else {
        let out: Vec<Pattern> = Vec::new();
        proof {
            assert(pats_view(out@) =~= Seq::<PatS>::empty());
        }
        Ok((out, i))
    }
}

/// Parse a mini-notation line into a pattern.  The result is exactly what
/// the grammar specification compiles the text to; text outside the
/// grammar is rejected with the character offset at which parsing stopped.
pub fn parse_pattern(src: &Vec<char>) -> (r: Result<Pattern, ParseError>)
    ensures
        match r {
            Ok(p) => parse_s(src@) == Some(p@) && p.wf(),
            Err(_) => parse_s(src@) is None,
        },
{
    if src.len() > 100000000 {
        return Err(ParseError::Malformed(0));
    }
    let i = skip_ws_x(src, 0);
    let (parts, j) = match p_seq_x(src, i, 3 * (src.len() + 1)) {
        Err(e) => {
            return Err(ParseError::Malformed(e));
        },
        Ok(x) => x,
    };
    let j2 = skip_ws_x(src, j);
    if j2 != src.len() {
        return Err(ParseError::Malformed(j2));
    }
    match compile_seq_x(parts) {
        None => Err(ParseError::Malformed(j2)),
        Some(p) => Ok(p),
    }
}


} // verus!
