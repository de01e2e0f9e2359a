use curve_engine::text::{
    decimal_text, fold_terms, monomial_latex, monomial_wolfram, power_factor,
    signed_decimal_text, SignedTerm,
};

fn term(negative: bool, magnitude: &str) -> SignedTerm {
    SignedTerm {
        negative,
        magnitude: magnitude.to_string(),
    }
}

#[test]
fn decimal_text_writes_digits_without_leading_zeros() {
    assert_eq!(decimal_text(0), "0");
    assert_eq!(decimal_text(7), "7");
    assert_eq!(decimal_text(10), "10");
    assert_eq!(decimal_text(120), "120");
    assert_eq!(decimal_text(u64::MAX), u64::MAX.to_string());
}

#[test]
fn signed_decimal_text_marks_negatives() {
    assert_eq!(signed_decimal_text(-1), "-1");
    assert_eq!(signed_decimal_text(-305), "-305");
    assert_eq!(signed_decimal_text(42), "42");
    assert_eq!(signed_decimal_text(i64::MIN + 1), (i64::MIN + 1).to_string());
}

#[test]
fn monomials_read_as_empty_x_or_power() {
    assert_eq!(monomial_latex(0), "");
    assert_eq!(monomial_latex(1), "x");
    assert_eq!(monomial_latex(2), "x^{2}");
    assert_eq!(monomial_latex(-1), "x^{-1}");
    assert_eq!(monomial_wolfram(0), "");
    assert_eq!(monomial_wolfram(1), "x");
    assert_eq!(monomial_wolfram(3), "x^3");
    assert_eq!(monomial_wolfram(-2), "x^-2");
}

#[test]
fn power_factor_braces_only_affect_higher_powers() {
    assert_eq!(power_factor("(x - 1)", 0, true), "");
    assert_eq!(power_factor("(x - 1)", 1, true), "(x - 1)");
    assert_eq!(power_factor("(x - 1)", 1, false), "(x - 1)");
    assert_eq!(power_factor("x", 3, true), "x^{3}");
    assert_eq!(power_factor("x", 3, false), "x^3");
    assert_eq!(power_factor("(x + 2)", 12, true), "(x + 2)^{12}");
}

#[test]
fn fold_terms_folds_signs_into_separators() {
    assert_eq!(fold_terms(&vec![]), "0");
    assert_eq!(fold_terms(&vec![term(false, "2x")]), "2x");
    assert_eq!(fold_terms(&vec![term(true, "3.5")]), "-3.5");
    assert_eq!(
        fold_terms(&vec![
            term(true, "1"),
            term(false, "2x"),
            term(true, "x^{3}")
        ]),
        "-1 + 2x - x^{3}"
    );
}
