use curve_engine::render::{
    cases_block, desmos_list, fraction_latex, fraction_wolfram, interval, join_texts,
    summary_line, wolfram_piecewise, Piece,
};

fn piece(poly: &str, start: &str, end: &str) -> Piece {
    Piece {
        poly: poly.to_string(),
        start: start.to_string(),
        end: end.to_string(),
    }
}

fn two_pieces() -> Vec<Piece> {
    vec![piece("x", "0", "1"), piece("1 - (x - 1)", "1", "2")]
}

#[test]
fn summary_line_counts_segments_and_reports_domain() {
    assert_eq!(summary_line(2, "0", "2"), "2-segments spline over [0, 2]");
    assert_eq!(summary_line(1, "0", "2"), "1-segment spline over [0, 2]");
    assert_eq!(
        summary_line(12, "-3.2", "4.1"),
        "12-segments spline over [-3.2, 4.1]"
    );
}

#[test]
fn interval_is_half_open_unless_closed() {
    assert_eq!(interval("0", "1", false), "0 \\le x < 1");
    assert_eq!(interval("1", "2", true), "1 \\le x \\le 2");
}

#[test]
fn cases_block_closes_only_the_last_interval() {
    let latex = cases_block(&two_pieces());
    assert_eq!(
        latex,
        "f(x) = \\begin{cases} x & 0 \\le x < 1 \\\\ 1 - (x - 1) & 1 \\le x \\le 2 \\end{cases}"
    );
    let one = cases_block(&vec![piece("2x", "0", "2")]);
    assert_eq!(one, "f(x) = \\begin{cases} 2x & 0 \\le x \\le 2 \\end{cases}");
}

#[test]
fn desmos_list_wraps_one_piece_in_a_bracket_list() {
    assert_eq!(
        desmos_list(&vec![piece("2x", "0", "2")]),
        "\\left\\{0 \\le x \\le 2: 2x\\right\\}"
    );
}

#[test]
fn desmos_list_uses_closed_intervals_and_comma_joins_pieces() {
    let out = desmos_list(&two_pieces());
    assert!(out.starts_with("\\left\\{"), "was: {out}");
    assert!(out.ends_with("\\right\\}"), "was: {out}");
    assert!(out.contains("0 \\le x \\le 1: "), "was: {out}");
    assert!(out.contains("1 \\le x \\le 2: "), "was: {out}");
    assert_eq!(out.matches(", ").count(), 1, "one comma between two pieces");
}

#[test]
fn wolfram_piecewise_lists_each_piece_as_expr_then_condition() {
    assert_eq!(
        wolfram_piecewise(&vec![piece("2x", "0", "2")]),
        "Piecewise[{{2x, 0 <= x <= 2}}]"
    );
    let out = wolfram_piecewise(&two_pieces());
    assert_eq!(
        out,
        "Piecewise[{{x, 0 <= x <= 1}, {1 - (x - 1), 1 <= x <= 2}}]"
    );
}

#[test]
fn empty_piece_lists_keep_their_delimiters() {
    assert_eq!(desmos_list(&vec![]), "\\left\\{\\right\\}");
    assert_eq!(wolfram_piecewise(&vec![]), "Piecewise[{}]");
}

#[test]
fn join_texts_puts_the_separator_between_parts_only() {
    let parts = vec!["a".to_string(), "b".to_string(), "c".to_string()];
    assert_eq!(join_texts(&parts, ", "), "a, b, c");
    assert_eq!(join_texts(&vec![], ", "), "");
    assert_eq!(join_texts(&vec!["solo".to_string()], ", "), "solo");
}

#[test]
fn fractions_render_in_both_syntaxes() {
    assert_eq!(fraction_latex("1", "x"), "\\frac{1}{x}");
    assert_eq!(fraction_latex("-1", "x^{2}"), "\\frac{-1}{x^{2}}");
    assert_eq!(fraction_wolfram("1", "1 + x^2"), "(1)/(1 + x^2)");
}

#[test]
fn approximation_label_prefixes_the_form_and_drops_zero() {
    assert_eq!(
        curve_engine::render::approximation_label("2x"),
        Some("f(x) \\approx 2x".to_string())
    );
    assert_eq!(
        curve_engine::render::approximation_label("\\frac{1}{x}"),
        Some("f(x) \\approx \\frac{1}{x}".to_string())
    );
    assert_eq!(curve_engine::render::approximation_label("0"), None);
    assert_eq!(
        curve_engine::render::approximation_label("0.25x"),
        Some("f(x) \\approx 0.25x".to_string())
    );
}
