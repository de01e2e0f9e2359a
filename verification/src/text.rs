//! The text grammar shared by every output target: integers in decimal, bare
//! monomials and `(x − x₀)ᵏ` power factors, and the sign folding that turns a
//! list of signed terms into `a - b + c`.

use vstd::prelude::*;

verus! {

/// The decimal digit character for `d < 10`.
pub open spec fn digit_char(d: nat) -> char {
    ((48 + d) as u8) as char
}

/// `n` in decimal, most significant digit first, with no leading zeros.
pub open spec fn decimal(n: nat) -> Seq<char>
    decreases n,
{
    if n < 10 {
        seq![digit_char(n)]
    } else {
        decimal(n / 10).push(digit_char(n % 10))
    }
}

/// `v` in decimal, with a leading `-` when negative.
pub open spec fn signed_decimal(v: int) -> Seq<char> {
    if v < 0 {
        seq!['-'] + decimal((-v) as nat)
    } else {
        decimal(v as nat)
    }
}

fn digit_str(d: u64) -> (s: &'static str)
    requires
        d < 10,
    ensures
        s@ == seq![digit_char(d as nat)],
{
    proof {
        reveal_strlit("0");
        reveal_strlit("1");
        reveal_strlit("2");
        reveal_strlit("3");
        reveal_strlit("4");
        reveal_strlit("5");
        reveal_strlit("6");
        reveal_strlit("7");
        reveal_strlit("8");
        reveal_strlit("9");
    }
    match d {
        0 => "0",
        1 => "1",
        2 => "2",
        3 => "3",
        4 => "4",
        5 => "5",
        6 => "6",
        7 => "7",
        8 => "8",
        _ => "9",
    }
}

/// `n` written in decimal.
pub fn decimal_text(n: u64) -> (s: String)
    ensures
        s@ == decimal(n as nat),
    decreases n,
{
    if n < 10 {
        String::from_str(digit_str(n))
    } else {
        let mut s = decimal_text(n / 10);
        s.append(digit_str(n % 10));
        s
    }
}

/// `v` written in decimal, negative values with a leading `-`.
pub fn signed_decimal_text(v: i64) -> (s: String)
    requires
        v > i64::MIN,
    ensures
        s@ == signed_decimal(v as int),
{
    if v < 0 {
        proof {
            reveal_strlit("-");
        }
        let mut s = String::from_str("-");
        let digits = decimal_text((-v) as u64);
        s.append(digits.as_str());
        s
    } else {
        decimal_text(v as u64)
    }
}

/// A bare monomial in LaTeX: empty for the constant, `x`, else `x^{k}`.
pub open spec fn monomial_latex_spec(power: int) -> Seq<char> {
    if power == 0 {
        Seq::<char>::empty()
    } else if power == 1 {
        seq!['x']
    } else {
        seq!['x', '^', '{'] + signed_decimal(power) + seq!['}']
    }
}

/// A bare monomial in Wolfram syntax: empty for the constant, `x`, else `x^k`.
pub open spec fn monomial_wolfram_spec(power: int) -> Seq<char> {
    if power == 0 {
        Seq::<char>::empty()
    } else if power == 1 {
        seq!['x']
    } else {
        seq!['x', '^'] + signed_decimal(power)
    }
}

/// A bare monomial in LaTeX: empty constant, `x`, `x^{k}` (braces for KaTeX);
/// a negative power (`1/x` from `d(ln x)`) reads as `x^{-1}`.
pub fn monomial_latex(power: i32) -> (s: String)
    ensures
        s@ == monomial_latex_spec(power as int),
{
    proof {
        reveal_strlit("x");
        reveal_strlit("x^{");
        reveal_strlit("}");
    }
    if power == 0 {
        String::new()
    } else if power == 1 {
        String::from_str("x")
    } else {
        let mut s = String::from_str("x^{");
        let digits = signed_decimal_text(power as i64);
        s.append(digits.as_str());
        s.append("}");
        s
    }
}

/// A bare monomial in Wolfram: empty constant, `x`, `x^k` (no braces).
pub fn monomial_wolfram(power: i32) -> (s: String)
    ensures
        s@ == monomial_wolfram_spec(power as int),
{
    proof {
        reveal_strlit("x");
        reveal_strlit("x^");
    }
    if power == 0 {
        String::new()
    } else if power == 1 {
        String::from_str("x")
    } else {
        let mut s = String::from_str("x^");
        let digits = signed_decimal_text(power as i64);
        s.append(digits.as_str());
        s
    }
}

/// The power factor `base^k`: empty for `k = 0`, the bare `base` for `k = 1`,
/// otherwise `base^{k}` (LaTeX, Desmos) or `base^k` (Wolfram).
pub open spec fn power_factor_spec(base: Seq<char>, power: nat, exp_braces: bool) -> Seq<char> {
    if power == 0 {
        Seq::<char>::empty()
    } else if power == 1 {
        base
    } else if exp_braces {
        base + seq!['^', '{'] + decimal(power) + seq!['}']
    } else {
        base + seq!['^'] + decimal(power)
    }
}

/// The `(x−x₀)ᵏ` factor for a power given its rendered base (`x`, `(x - 1)`,
/// `(x + 2)`), with no exponent at power 1. `exp_braces` wraps the exponent in
/// `{}` for LaTeX/Desmos.
pub fn power_factor(base: &str, power: u32, exp_braces: bool) -> (s: String)
    ensures
        s@ == power_factor_spec(base@, power as nat, exp_braces),
{
    proof {
        reveal_strlit("^{");
        reveal_strlit("}");
        reveal_strlit("^");
    }
    if power == 0 {
        return String::new();
    }
    let mut s = String::from_str(base);
    if power == 1 {
        return s;
    }
    let digits = decimal_text(power as u64);
    if exp_braces {
        s.append("^{");
        s.append(digits.as_str());
        s.append("}");
    } else {
        s.append("^");
        s.append(digits.as_str());
    }
    s
}

/// Exponent braces are the only difference between the LaTeX and Wolfram forms
/// of a power: at powers 0 and 1 the two agree, and above that they differ
/// exactly by the braces around the same decimal exponent. The same holds of
/// bare monomials.
pub proof fn lemma_braces_only_affect_higher_powers(base: Seq<char>, power: nat)
    ensures
        power <= 1 ==> power_factor_spec(base, power, true) == power_factor_spec(
            base,
            power,
            false,
        ),
        power >= 2 ==> power_factor_spec(base, power, true) == base + seq!['^', '{'] + decimal(
            power,
        ) + seq!['}'] && power_factor_spec(base, power, false) == base + seq!['^'] + decimal(
            power,
        ),
        power <= 1 ==> monomial_latex_spec(power as int) == monomial_wolfram_spec(power as int),
        power >= 2 ==> monomial_latex_spec(power as int) == seq!['x', '^', '{'] + decimal(power)
            + seq!['}'] && monomial_wolfram_spec(power as int) == seq!['x', '^'] + decimal(power),
{
}

/// The sign that opens a folded sum: `-` for a negative leading term, else
/// nothing.
pub open spec fn lead_sign(negative: bool) -> Seq<char> {
    if negative {
        seq!['-']
    } else {
        Seq::<char>::empty()
    }
}

/// The separator before a later term: ` - ` when it is negative, else ` + `.
pub open spec fn join_sign(negative: bool) -> Seq<char> {
    if negative {
        seq![' ', '-', ' ']
    } else {
        seq![' ', '+', ' ']
    }
}

/// Signed terms `(negative, magnitude text)` folded into `a - b + c`.
pub open spec fn signed_sum(terms: Seq<(bool, Seq<char>)>) -> Seq<char>
    decreases terms.len(),
{
    if terms.len() == 0 {
        Seq::<char>::empty()
    } else if terms.len() == 1 {
        lead_sign(terms[0].0) + terms[0].1
    } else {
        signed_sum(terms.drop_last()) + join_sign(terms.last().0) + terms.last().1
    }
}

/// What `fold_terms` writes: `0` for no terms, else their signed sum.
pub open spec fn fold_terms_spec(terms: Seq<(bool, Seq<char>)>) -> Seq<char> {
    if terms.len() == 0 {
        seq!['0']
    } else {
        signed_sum(terms)
    }
}

/// One term of a polynomial about to be folded: whether its coefficient is
/// negative, and the text of its magnitude (`2x`, `(x - 1)^{2}`, `3`).
pub struct SignedTerm {
    pub negative: bool,
    pub magnitude: String,
}

/// The plain value of a signed term: its sign and its text.
pub open spec fn term_view(t: SignedTerm) -> (bool, Seq<char>) {
    (t.negative, t.magnitude@)
}

/// Fold the surviving terms of a polynomial into one expression, folding signs
/// into the separators: the first term carries a bare `-` when negative, later
/// terms join with ` - ` or ` + `. No terms at all read as `0`.
pub fn fold_terms(terms: &Vec<SignedTerm>) -> (s: String)
    ensures
        s@ == fold_terms_spec(terms@.map_values(|t: SignedTerm| term_view(t))),
{
    proof {
        reveal_strlit("0");
    }
    let ghost views = terms@.map_values(|t: SignedTerm| term_view(t));
    if terms.len() == 0 {
        return String::from_str("0");
    }
    let mut s = String::new();
    let mut i: usize = 0;
    while i < terms.len()
        invariant
            0 <= i <= terms@.len(),
            views == terms@.map_values(|t: SignedTerm| term_view(t)),
            s@ == signed_sum(views.take(i as int)),
        decreases terms@.len() - i,
    {
        let t = &terms[i];
        let ghost before = s@;
        proof {
            reveal_strlit("-");
            reveal_strlit(" - ");
            reveal_strlit(" + ");
        }
        if i == 0 {
            if t.negative {
                s.append("-");
            }
        } else if t.negative {
            s.append(" - ");
        } else {
            s.append(" + ");
        }
        s.append(t.magnitude.as_str());
        proof {
            let next = views.take(i + 1);
            assert(next.drop_last() =~= views.take(i as int));
            assert(next.last() == term_view(terms@[i as int]));
            if i == 0 {
                assert(views.take(0) =~= Seq::<(bool, Seq<char>)>::empty());
                assert(s@ =~= lead_sign(t.negative) + t.magnitude@);
                assert(next[0] == term_view(terms@[0]));
            } else {
                assert(s@ =~= before + join_sign(t.negative) + t.magnitude@);
            }
        }
        i = i + 1;
    }
    assert(views.take(terms@.len() as int) =~= views);
    s
}

/// The number a string of decimal digits denotes, most significant first.
pub open spec fn digits_value(s: Seq<char>) -> int
    decreases s.len(),
{
    if s.len() == 0 {
        0
    } else {
        digits_value(s.drop_last()) * 10 + (s.last() as int - 48)
    }
}

proof fn lemma_digit_char(d: nat)
    requires
        d < 10,
    ensures
        digit_char(d) as int == 48 + d,
{
    assert(((48 + d) as u8) as int == 48 + d);
}

/// Decimal rendering is faithful: the text is one or more digits `0`–`9`, it
/// has no leading zero (unless the number is zero itself), and reading the
/// digits back gives the number.
pub proof fn lemma_decimal_reads_back(n: nat)
    ensures
        decimal(n).len() >= 1,
        forall|i: int| 0 <= i < decimal(n).len() ==> '0' <= #[trigger] decimal(n)[i] <= '9',
        n > 0 ==> decimal(n)[0] != '0',
        digits_value(decimal(n)) == n,
    decreases n,
{
    if n < 10 {
        lemma_digit_char(n);
        assert(decimal(n).drop_last() =~= Seq::<char>::empty());
        assert(digits_value(Seq::<char>::empty()) == 0);
        assert(digits_value(decimal(n)) == n);
    } else {
        lemma_decimal_reads_back(n / 10);
        lemma_digit_char(n % 10);
        let s = decimal(n);
        assert(s.drop_last() =~= decimal(n / 10));
        assert(s[0] == decimal(n / 10)[0]);
        assert forall|i: int| 0 <= i < s.len() implies '0' <= #[trigger] s[i] <= '9' by {
            if i < s.len() - 1 {
                assert(s[i] == decimal(n / 10)[i]);
            }
        }
        assert(digits_value(s) == (n / 10) * 10 + n % 10);
        assert((n / 10) * 10 + n % 10 == n);
    }
}

/// Signed rendering: a negative number is `-` followed by the digits of its
/// magnitude, a non-negative one is just its digits, and either reads back.
pub proof fn lemma_signed_decimal_reads_back(v: int)
    ensures
        v < 0 ==> signed_decimal(v)[0] == '-' && signed_decimal(v).drop_first() == decimal(
            (-v) as nat,
        ) && digits_value(signed_decimal(v).drop_first()) == -v,
        v >= 0 ==> digits_value(signed_decimal(v)) == v && signed_decimal(v)[0] != '-',
{
    if v < 0 {
        lemma_decimal_reads_back((-v) as nat);
        assert(signed_decimal(v).drop_first() =~= decimal((-v) as nat));
    } else {
        lemma_decimal_reads_back(v as nat);
    }
}

/// Every integer power other than 0 and 1 — negative powers included — is
/// written as `x^` followed by the power in signed decimal (Wolfram) or the same
/// inside braces (LaTeX); the two forms differ only by those braces.
pub proof fn lemma_monomial_powers(power: int)
    ensures
        power == 0 ==> monomial_wolfram_spec(power).len() == 0 && monomial_latex_spec(power).len()
            == 0,
        power == 1 ==> monomial_wolfram_spec(power) == seq!['x'] && monomial_latex_spec(power)
            == seq!['x'],
        power != 0 && power != 1 ==> monomial_wolfram_spec(power) == seq!['x', '^']
            + signed_decimal(power),
        power != 0 && power != 1 ==> monomial_latex_spec(power) == seq!['x', '^', '{']
            + signed_decimal(power) + seq!['}'],
        power != 0 && power != 1 ==> monomial_latex_spec(power) == seq!['x', '^', '{']
            + monomial_wolfram_spec(power).skip(2) + seq!['}'],
        power < 0 ==> monomial_wolfram_spec(power)[2] == '-' && digits_value(
            monomial_wolfram_spec(power).skip(3),
        ) == -power,
        power >= 2 ==> digits_value(monomial_wolfram_spec(power).skip(2)) == power,
{
    lemma_signed_decimal_reads_back(power);
    if power != 0 && power != 1 {
        let w = monomial_wolfram_spec(power);
        assert(w.skip(2) =~= signed_decimal(power));
        if power < 0 {
            assert(w.skip(3) =~= signed_decimal(power).drop_first());
        }
    }
}

/// Folding a further term: the separator before it is ` - ` exactly when that
/// term itself is negative and ` + ` otherwise, whatever came before, and its
/// text follows unchanged.
pub proof fn lemma_fold_terms_appends(terms: Seq<(bool, Seq<char>)>, t: (bool, Seq<char>))
    requires
        terms.len() >= 1,
    ensures
        fold_terms_spec(terms.push(t)) == fold_terms_spec(terms) + (if t.0 {
            seq![' ', '-', ' ']
        } else {
            seq![' ', '+', ' ']
        }) + t.1,
{
    assert(terms.push(t).drop_last() =~= terms);
}

/// The first term opens the fold with a bare `-` exactly when it is negative;
/// no terms at all read `0`.
pub proof fn lemma_fold_terms_starts(t: (bool, Seq<char>))
    ensures
        fold_terms_spec(Seq::<(bool, Seq<char>)>::empty()) == seq!['0'],
        fold_terms_spec(seq![t]) == (if t.0 {
            seq!['-']
        } else {
            Seq::<char>::empty()
        }) + t.1,
{
}

} // verus!
