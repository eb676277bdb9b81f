//! Parsing of user-entered text: decimal amounts and client-id lists.
//!
//! Every field of a submission arrives as a string; the core does all type
//! coercion itself and surfaces malformed input as
//! [`BankError::Validation`](crate::errors::BankError).

use vstd::prelude::*;
use crate::decimal::{Decimal, DecModel};
use crate::errors::BankError;

verus! {

pub open spec fn is_digit(c: char) -> bool {
    '0' as u32 <= c as u32 && c as u32 <= '9' as u32
}

pub open spec fn digit_val(c: char) -> int {
    c as u32 - '0' as u32
}

pub open spec fn all_digits(s: Seq<char>) -> bool {
    forall|i: int| 0 <= i < s.len() ==> is_digit(#[trigger] s[i])
}

/// The number written by a digit string, most significant digit first.
pub open spec fn digits_val(s: Seq<char>) -> int
    decreases s.len(),
{
    if s.len() == 0 {
        0
    } else {
        digits_val(s.drop_last()) * 10 + digit_val(s.last())
    }
}

/// Index of the first `'.'`, or the length when there is none.
pub open spec fn dot_pos(s: Seq<char>) -> int
    decreases s.len(),
{
    if s.len() == 0 {
        0
    } else if s[0] == '.' {
        0
    } else {
        1 + dot_pos(s.drop_first())
    }
}

/// An unsigned decimal literal: digits with at most one point and at least
/// one digit overall (`10`, `1000.00`, `1.`, `.5`).
pub open spec fn parse_unsigned(w: Seq<char>) -> Option<DecModel> {
    let p = dot_pos(w);
    if p == w.len() {
        if w.len() >= 1 && all_digits(w) {
            Some(DecModel { mantissa: digits_val(w), scale: 0 })
        } else {
            None
        }
    } else {
        let ip = w.subrange(0, p);
        let fp = w.subrange(p + 1, w.len() as int);
        if ip.len() + fp.len() >= 1 && all_digits(ip) && all_digits(fp) {
            Some(DecModel { mantissa: digits_val(ip + fp), scale: fp.len() })
        } else {
            None
        }
    }
}

/// A decimal literal with an optional sign.
pub open spec fn spec_parse_decimal(s: Seq<char>) -> Option<DecModel> {
    if s.len() == 0 {
        None
    } else if s[0] == '-' {
        match parse_unsigned(s.drop_first()) {
            Some(d) => Some(DecModel { mantissa: -d.mantissa, scale: d.scale }),
            None => None,
        }
    } else if s[0] == '+' {
        parse_unsigned(s.drop_first())
    } else {
        parse_unsigned(s)
    }
}

/// Attach the scanned sign to the unsigned parse result.
pub open spec fn apply_sign(neg: bool, o: Option<DecModel>) -> Option<DecModel> {
    match o {
        Some(d) => Some(
            DecModel {
                mantissa: if neg {
                    -d.mantissa
                } else {
                    d.mantissa
                },
                scale: d.scale,
            },
        ),
        None => None,
    }
}

/// The parsed number also fits the executable representation.
pub open spec fn parse_fits(d: DecModel) -> bool {
    -(i128::MAX as int) <= d.mantissa <= i128::MAX as int && d.scale <= u32::MAX as nat
}

proof fn lemma_dot_pos(s: Seq<char>)
    ensures
        0 <= dot_pos(s) <= s.len(),
        dot_pos(s) < s.len() ==> s[dot_pos(s)] == '.',
        forall|j: int| 0 <= j < dot_pos(s) ==> s[j] != '.',
    decreases s.len(),
{
    if s.len() > 0 && s[0] != '.' {
        lemma_dot_pos(s.drop_first());
        assert forall|j: int| 0 <= j < dot_pos(s) implies s[j] != '.' by {
            if j >= 1 {
                assert(s.drop_first()[j - 1] == s[j]);
            }
        }
    }
}

proof fn lemma_digits_val_push(s: Seq<char>, c: char)
    ensures
        digits_val(s.push(c)) == digits_val(s) * 10 + digit_val(c),
{
    assert(s.push(c).drop_last() =~= s);
    assert(s.push(c).last() == c);
}

proof fn lemma_digits_val_nonneg(s: Seq<char>)
    requires
        all_digits(s),
    ensures
        digits_val(s) >= 0,
    decreases s.len(),
{
    if s.len() > 0 {
        lemma_digits_val_nonneg(s.drop_last());
        vstd::arithmetic::mul::lemma_mul_nonnegative(digits_val(s.drop_last()), 10);
    }
}

/// The number written by a prefix never exceeds the number written by the
/// whole digit string.
proof fn lemma_digits_val_prefix(s: Seq<char>, i: int)
    requires
        all_digits(s),
        0 <= i <= s.len(),
    ensures
        digits_val(s.subrange(0, i)) <= digits_val(s),
    decreases s.len(),
{
    if i < s.len() {
        let d = s.drop_last();
        assert(all_digits(d)) by {
            assert(forall|j: int| 0 <= j < d.len() ==> d[j] == s[j]);
        }
        assert(d.subrange(0, i) =~= s.subrange(0, i));
        lemma_digits_val_prefix(d, i);
        lemma_digits_val_nonneg(d);
        assert(is_digit(s[s.len() - 1]));
        assert(digit_val(s.last()) >= 0);
        vstd::arithmetic::mul::lemma_mul_inequality(1, 10, digits_val(d));
        vstd::arithmetic::mul::lemma_mul_is_commutative(digits_val(d), 10);
        assert(digits_val(d) <= digits_val(d) * 10);
        assert(s.last() == s[s.len() - 1]);
        assert(digit_val(s.last()) >= 0);
        assert(digits_val(s) == digits_val(d) * 10 + digit_val(s.last()));
    } else {
        assert(s.subrange(0, i) =~= s);
    }
}

/// Parse a decimal amount.
///
/// Accepts an optional `+`/`-` sign followed by digits with at most one
/// decimal point and at least one digit; the scale of the result is the
/// number of fraction digits written.  Rejects anything else, and any number
/// whose digits do not fit the executable representation.  The grammar is
/// deliberately plain positional notation: exponent forms such as `1e5`,
/// which some decimal libraries accept, are rejected as `Validation`, so
/// every stored amount carries exactly the scale the user wrote.
pub fn parse_decimal(s: &str) -> (r: Result<Decimal, BankError>)
    ensures
        r matches Ok(d) ==> spec_parse_decimal(s@) == Some(d@),
        r is Ok <==> (spec_parse_decimal(s@) matches Some(m) && parse_fits(m)),
        r matches Err(e) ==> e == BankError::Validation,
{
    let n = s.unicode_len();
    let mut i: usize = 0;
    let mut neg: bool = false;
    if n > 0 {
        let c0 = s.get_char(0);
        if c0 == '-' {
            neg = true;
            i = 1;
        } else if c0 == '+' {
            i = 1;
        }
    }
    let ghost start = i as int;
    let ghost w = s@.subrange(start, s@.len() as int);
    proof {
        lemma_dot_pos(w);
        if s@.len() > 0 {
            assert(s@.drop_first() =~= s@.subrange(1, s@.len() as int));
        }
        if start == 0 {
            assert(w =~= s@);
        }
        assert(spec_parse_decimal(s@) == apply_sign(neg, parse_unsigned(w)));
    }
    let ghost p = dot_pos(w);
    let mut mantissa: i128 = 0;
    let mut scale: u32 = 0;
    let mut ndigits: usize = 0;
    let mut seen_dot: bool = false;
    while i < n
        invariant
            start <= i as int <= n as int,
            n as int == s@.len(),
            0 <= start <= 1,
            w == s@.subrange(start, s@.len() as int),
            p == dot_pos(w),
            0 <= p <= w.len(),
            spec_parse_decimal(s@) == apply_sign(neg, parse_unsigned(w)),
            p < w.len() ==> w[p] == '.',
            forall|j: int| 0 <= j < p ==> w[j] != '.',
            !seen_dot ==> i - start <= p && scale == 0,
            !seen_dot ==> all_digits(w.subrange(0, i - start)),
            !seen_dot ==> mantissa as int == digits_val(w.subrange(0, i - start)),
            !seen_dot ==> ndigits == i - start,
            seen_dot ==> p < i - start <= w.len(),
            seen_dot ==> all_digits(w.subrange(0, p)),
            seen_dot ==> all_digits(w.subrange(p + 1, i - start)),
            seen_dot ==> mantissa as int == digits_val(
                w.subrange(0, p) + w.subrange(p + 1, i - start),
            ),
            seen_dot ==> scale as int == i - start - p - 1,
            seen_dot ==> ndigits == i - start - 1,
            mantissa >= 0,
        decreases n - i,
    {
        let c = s.get_char(i);
        let ghost k = i - start;
        if c == '.' {
            if seen_dot {
                // a second point: the fraction part is not all digits
                proof {
                    assert(w.subrange(p + 1, w.len() as int)[k - p - 1] == '.');
                    assert(!all_digits(w.subrange(p + 1, w.len() as int)));
                }
                return Err(BankError::Validation);
            }
            proof {
                // no point lies before the scanned position, so this is the
                // first one
                assert(w[k] == '.');
                assert(p == k);
            }
            seen_dot = true;
            i = i + 1;
            proof {
                assert(w.subrange(p + 1, i - start) =~= Seq::<char>::empty());
                assert(w.subrange(0, p) + w.subrange(p + 1, i - start) =~= w.subrange(
                    0,
                    p,
                ));
            }
        } else if '0' <= c && c <= '9' {
            let dv = (c as u32 - '0' as u32) as i128;
            let step = match mantissa.checked_mul(10) {
                Some(m10) => m10.checked_add(dv),
                None => None,
            };
            match step {
                None => {
                    // the digits written so far already exceed the
                    // representable magnitude, and more digits only grow it
                    proof {
                        lemma_overflow_certificate(w, p, k, i as int, start, seen_dot,
                            mantissa as int, dv as int);
                    }
                    return Err(BankError::Validation);
                },
                Some(m2) => {
                    proof {
                        if !seen_dot {
                            assert(w.subrange(0, k + 1) =~= w.subrange(0, k).push(w[k]));
                            lemma_digits_val_push(w.subrange(0, k), w[k]);
                            lemma_dot_pos_all_digits(w, k + 1);
                        } else {
                            let pre = w.subrange(0, p) + w.subrange(p + 1, k);
                            assert(w.subrange(p + 1, k + 1) =~= w.subrange(p + 1, k).push(
                                w[k],
                            ));
                            assert(pre.push(w[k]) =~= w.subrange(0, p) + w.subrange(
                                p + 1,
                                k + 1,
                            ));
                            lemma_digits_val_push(pre, w[k]);
                        }
                    }
                    mantissa = m2;
                    if seen_dot {
                        if scale == u32::MAX {
                            proof {
                                lemma_scale_certificate(w, p, k, start);
                            }
                            return Err(BankError::Validation);
                        }
                        scale = scale + 1;
                    }
                    ndigits = ndigits + 1;
                    i = i + 1;
                },
            }
        } else {
            // neither a digit nor a point: the literal is malformed
            proof {
                lemma_bad_char_certificate(w, p, k, seen_dot);
            }
            return Err(BankError::Validation);
        }
    }
    if ndigits == 0 {
        proof {
            if !seen_dot {
                if w.len() > 0 {
                    assert(w.subrange(0, w.len() as int) =~= w);
                    assert(!(w.len() >= 1));
                }
            } else {
                assert(w.subrange(0, p).len() + w.subrange(p + 1, w.len() as int).len()
                    == 0);
            }
        }
        return Err(BankError::Validation);
    }
    proof {
        if !seen_dot {
            assert(w.subrange(0, w.len() as int) =~= w);
            // the whole literal is digits, so it has no point
            if p < w.len() {
                assert(w[p] == '.');
                assert(is_digit('.') == false);
            }
        }
    }
    let m = if neg {
        -mantissa
    } else {
        mantissa
    };
    Ok(Decimal { mantissa: m, scale })
}

/// When the scanned prefix is all digits, the first point lies at or after
/// its end.
proof fn lemma_dot_pos_all_digits(w: Seq<char>, upto: int)
    requires
        0 <= upto <= w.len(),
        all_digits(w.subrange(0, upto)),
    ensures
        dot_pos(w) >= upto,
{
    lemma_dot_pos(w);
    if dot_pos(w) < upto {
        assert(w.subrange(0, upto)[dot_pos(w)] == w[dot_pos(w)]);
        assert(is_digit('.') == false);
    }
}

/// A mantissa overflow while scanning means the parsed number cannot fit.
proof fn lemma_overflow_certificate(
    w: Seq<char>,
    p: int,
    k: int,
    i: int,
    start: int,
    seen_dot: bool,
    mantissa: int,
    dv: int,
)
    requires
        lemma_overflow_requires(w, p, k, seen_dot, mantissa, dv),
        mantissa * 10 + dv > i128::MAX || mantissa * 10 > i128::MAX,
        mantissa >= 0,
        0 <= dv <= 9,
    ensures
        spec_parse_decimal_unfit(w, p, k, seen_dot),
{
    lemma_dot_pos(w);
    let full_digits = spec_full_digits(w, p);
    let scanned = if !seen_dot {
        w.subrange(0, k).push(w[k])
    } else {
        (w.subrange(0, p) + w.subrange(p + 1, k)).push(w[k])
    };
    assert(digits_val(scanned) == mantissa * 10 + dv) by {
        if !seen_dot {
            lemma_digits_val_push(w.subrange(0, k), w[k]);
        } else {
            lemma_digits_val_push(w.subrange(0, p) + w.subrange(p + 1, k), w[k]);
        }
    }
    assert(digits_val(scanned) > i128::MAX) by {
        if mantissa * 10 > i128::MAX {
            assert(mantissa * 10 + dv >= mantissa * 10);
        }
    }
    if parse_unsigned(w) is Some {
        let m = parse_unsigned(w).unwrap();
        assert(all_digits(full_digits));
        let sl = scanned.len() as int;
        assert(scanned =~= full_digits.subrange(0, sl));
        lemma_digits_val_prefix(full_digits, sl);
        assert(m.mantissa == digits_val(full_digits));
        assert(m.mantissa > i128::MAX);
    }
}

/// What the overflow lemma assumes of the scan state.
pub open spec fn lemma_overflow_requires(
    w: Seq<char>,
    p: int,
    k: int,
    seen_dot: bool,
    mantissa: int,
    dv: int,
) -> bool {
    &&& p == dot_pos(w)
    &&& 0 <= k < w.len()
    &&& is_digit(w[k])
    &&& dv == digit_val(w[k])
    &&& if !seen_dot {
        &&& k <= p
        &&& all_digits(w.subrange(0, k))
        &&& mantissa == digits_val(w.subrange(0, k))
    } else {
        &&& p < k
        &&& all_digits(w.subrange(0, p))
        &&& all_digits(w.subrange(p + 1, k))
        &&& mantissa == digits_val(w.subrange(0, p) + w.subrange(p + 1, k))
    }
}

/// The digit string `parse_unsigned` reads the number from.
pub open spec fn spec_full_digits(w: Seq<char>, p: int) -> Seq<char> {
    if p == w.len() {
        w
    } else {
        w.subrange(0, p) + w.subrange(p + 1, w.len() as int)
    }
}

/// "The literal, if well formed at all, does not fit the representation."
pub open spec fn spec_parse_decimal_unfit(w: Seq<char>, p: int, k: int, seen_dot: bool) -> bool {
    parse_unsigned(w) matches Some(m) ==> !parse_fits(m)
}

/// More fraction digits than `u32` can count cannot fit either.
proof fn lemma_scale_certificate(w: Seq<char>, p: int, k: int, start: int)
    requires
        p == dot_pos(w),
        0 <= p < k < w.len(),
        k - p - 1 == u32::MAX as int,
    ensures
        parse_unsigned(w) matches Some(m) ==> !parse_fits(m),
{
    lemma_dot_pos(w);
    if parse_unsigned(w) is Some {
        let m = parse_unsigned(w).unwrap();
        assert(m.scale == w.subrange(p + 1, w.len() as int).len());
        assert(m.scale >= k - p);
    }
}

/// A character that is neither digit nor point makes the literal malformed.
proof fn lemma_bad_char_certificate(w: Seq<char>, p: int, k: int, seen_dot: bool)
    requires
        p == dot_pos(w),
        0 <= k < w.len(),
        w[k] != '.',
        !is_digit(w[k]),
        !seen_dot ==> k <= p,
        seen_dot ==> p < k,
    ensures
        parse_unsigned(w) is None,
    decreases 0int,
{
    lemma_dot_pos(w);
    if p == w.len() {
        assert(!all_digits(w) || !is_digit(w[k]));
    } else {
        if k < p {
            assert(w.subrange(0, p)[k] == w[k]);
            assert(!all_digits(w.subrange(0, p)));
        } else if k == p {
            assert(w[p] == '.');
        } else {
            assert(w.subrange(p + 1, w.len() as int)[k - p - 1] == w[k]);
            assert(!all_digits(w.subrange(p + 1, w.len() as int)));
        }
    }
}

/// Whitespace as the id-list splitter understands it.
pub open spec fn is_ws(c: char) -> bool {
    c == ' ' || c == '\t' || c == '\n' || c == '\r'
}

/// Index of the first whitespace character, or the length when there is
/// none.
pub open spec fn tok_end(s: Seq<char>) -> int
    decreases s.len(),
{
    if s.len() == 0 {
        0
    } else if is_ws(s[0]) {
        0
    } else {
        1 + tok_end(s.drop_first())
    }
}

proof fn lemma_tok_end(s: Seq<char>)
    ensures
        0 <= tok_end(s) <= s.len(),
        tok_end(s) < s.len() ==> is_ws(s[tok_end(s)]),
        forall|j: int| 0 <= j < tok_end(s) ==> !is_ws(s[j]),
    decreases s.len(),
{
    if s.len() > 0 && !is_ws(s[0]) {
        lemma_tok_end(s.drop_first());
        assert forall|j: int| 0 <= j < tok_end(s) implies !is_ws(s[j]) by {
            if j >= 1 {
                assert(s.drop_first()[j - 1] == s[j]);
            }
        }
    }
}

/// The maximal whitespace-free runs of a string, in order.
pub open spec fn spec_split_ws(s: Seq<char>) -> Seq<Seq<char>>
    decreases s.len(),
    via spec_split_ws_decreases
{
    if s.len() == 0 {
        Seq::empty()
    } else if is_ws(s[0]) {
        spec_split_ws(s.drop_first())
    } else {
        seq![s.subrange(0, tok_end(s))] + spec_split_ws(
            s.subrange(tok_end(s), s.len() as int),
        )
    }
}

#[via_fn]
proof fn spec_split_ws_decreases(s: Seq<char>) {
    if s.len() > 0 && !is_ws(s[0]) {
        lemma_tok_end(s);
    }
}

fn is_ws_char(c: char) -> (r: bool)
    ensures
        r == is_ws(c),
{
    c == ' ' || c == '\t' || c == '\n' || c == '\r'
}

/// Split a whitespace-separated list of identifiers into its entries.
pub fn get_list_from_input(s: &str) -> (r: Vec<String>)
    ensures
        r@.map_values(|t: String| t@) == spec_split_ws(s@),
{
    let n = s.unicode_len();
    let mut out: Vec<String> = Vec::new();
    let mut i: usize = 0;
    proof {
        assert(s@.subrange(0, n as int) =~= s@);
        assert(out@.map_values(|t: String| t@) =~~= Seq::<Seq<char>>::empty());
        assert(Seq::<Seq<char>>::empty() + spec_split_ws(s@) =~~= spec_split_ws(s@));
    }
    while i < n
        invariant
            i <= n,
            n == s@.len(),
            out@.map_values(|t: String| t@) + spec_split_ws(
                s@.subrange(i as int, n as int),
            ) == spec_split_ws(s@),
        decreases n - i,
    {
        let ghost suf = s@.subrange(i as int, n as int);
        let c = s.get_char(i);
        if is_ws_char(c) {
            proof {
                assert(suf[0] == s@[i as int]);
                assert(suf.drop_first() =~= s@.subrange(i + 1, n as int));
            }
            i = i + 1;
        } else {
            let mut j: usize = i + 1;
            while j < n
                invariant_except_break
                    i < j <= n,
                    n == s@.len(),
                    forall|t: int| i <= t < j ==> !is_ws(#[trigger] s@[t]),
                ensures
                    i < j <= n,
                    forall|t: int| i <= t < j ==> !is_ws(#[trigger] s@[t]),
                    j < n ==> is_ws(s@[j as int]),
                decreases n - j,
            {
                let cj = s.get_char(j);
                if is_ws_char(cj) {
                    break;
                }
                j = j + 1;
            }
            let tok = s.substring_char(i, j);
            let ghost out0 = out@;
            out.push(tok.to_owned());
            proof {
                lemma_tok_end(suf);
                assert forall|t: int| 0 <= t < j - i implies !is_ws(suf[t]) by {
                    assert(suf[t] == s@[i + t]);
                }
                if (j as int) < n as int {
                    assert(suf[j - i] == s@[j as int]);
                }
                assert(tok_end(suf) == j - i);
                assert(suf.subrange(0, j - i) =~= s@.subrange(i as int, j as int));
                assert(suf.subrange(j - i, suf.len() as int) =~= s@.subrange(
                    j as int,
                    n as int,
                ));
                let f = |t: String| t@;
                assert(spec_split_ws(suf) == seq![s@.subrange(i as int, j as int)]
                    + spec_split_ws(s@.subrange(j as int, n as int)));
                assert(out@.map_values(f) =~~= out0.map_values(f).push(tok@));
            }
            i = j;
        }
    }
    proof {
        assert(s@.subrange(i as int, n as int) =~= Seq::<char>::empty());
        assert(out@.map_values(|t: String| t@) + Seq::<Seq<char>>::empty() =~~= out@
            .map_values(|t: String| t@));
    }
    out
}


/// Character-wise string equality, reflected into the views.
pub fn str_eq(a: &str, b: &str) -> (r: bool)
    ensures
        r == (a@ == b@),
{
    let na = a.unicode_len();
    let nb = b.unicode_len();
    if na != nb {
        return false;
    }
    let mut i: usize = 0;
    while i < na
        invariant
            i <= na,
            na == a@.len(),
            na == b@.len(),
            forall|j: int| 0 <= j < i ==> a@[j] == b@[j],
        decreases na - i,
    {
        let ca = a.get_char(i);
        let cb = b.get_char(i);
        if ca != cb {
            return false;
        }
        i = i + 1;
    }
    proof {
        assert(a@ =~= b@);
    }
    true
}

/// Does the list hold a string with this view?
pub open spec fn contains_str(ss: Seq<String>, id: Seq<char>) -> bool {
    exists|i: int| 0 <= i < ss.len() && (#[trigger] ss[i])@ == id
}

/// Membership test for a list of strings.
pub fn vec_contains_str(v: &Vec<String>, x: &str) -> (r: bool)
    ensures
        r == contains_str(v@, x@),
{
    let n = v.len();
    let mut i: usize = 0;
    while i < n
        invariant
            i <= n,
            n == v@.len(),
            forall|j: int| 0 <= j < i ==> (#[trigger] v@[j])@ != x@,
        decreases n - i,
    {
        if str_eq(v[i].as_str(), x) {
            return true;
        }
        i = i + 1;
    }
    false
}


} // verus!
