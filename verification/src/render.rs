//! The piecewise output formats, assembled from each segment's rendered
//! polynomial and interval bounds: the KaTeX `cases` block with its one-line
//! summary, the Desmos bracket list, and the Wolfram `Piecewise[…]`.
//!
//! Desmos and Wolfram pick the first matching branch where intervals touch, so
//! every piece there is written over its closed interval; the KaTeX block uses
//! half-open intervals and closes only the last one.

use vstd::prelude::*;
use crate::text::decimal_text;

verus! {

/// One polynomial piece ready for output: its rendered polynomial and the
/// rendered bounds of its interval `[start, end]`.
pub struct Piece {
    pub poly: String,
    pub start: String,
    pub end: String,
}

/// `parts` joined by `sep`.
pub open spec fn join(parts: Seq<Seq<char>>, sep: Seq<char>) -> Seq<char>
    decreases parts.len(),
{
    if parts.len() == 0 {
        Seq::<char>::empty()
    } else if parts.len() == 1 {
        parts[0]
    } else {
        join(parts.drop_last(), sep) + sep + parts.last()
    }
}

/// The strings of `parts` joined by `sep`.
pub fn join_texts(parts: &Vec<String>, sep: &str) -> (s: String)
    ensures
        s@ == join(parts@.map_values(|p: String| p@), sep@),
{
    let ghost views = parts@.map_values(|p: String| p@);
    let mut s = String::new();
    let mut i: usize = 0;
    while i < parts.len()
        invariant
            0 <= i <= parts@.len(),
            views == parts@.map_values(|p: String| p@),
            s@ == join(views.take(i as int), sep@),
        decreases parts@.len() - i,
    {
        let ghost before = s@;
        if i > 0 {
            s.append(sep);
        }
        s.append(parts[i].as_str());
        proof {
            let next = views.take(i + 1);
            assert(next.drop_last() =~= views.take(i as int));
            assert(next.last() == parts@[i as int]@);
            if i == 0 {
                assert(views.take(0) =~= Seq::<Seq<char>>::empty());
                assert(s@ =~= next[0]);
            } else {
                assert(s@ =~= before + sep@ + next.last());
            }
        }
        i = i + 1;
    }
    assert(views.take(parts@.len() as int) =~= views);
    s
}

/// The plain value of a piece: polynomial, start and end texts.
pub open spec fn piece_view(p: Piece) -> (Seq<char>, Seq<char>, Seq<char>) {
    (p.poly@, p.start@, p.end@)
}

/// The one-line summary `"<n>-segment(s) spline over [<start>, <end>]"`.
pub open spec fn summary_spec(count: nat, start: Seq<char>, end: Seq<char>) -> Seq<char> {
    crate::text::decimal(count) + (if count == 1 {
        "-segment"@
    } else {
        "-segments"@
    }) + " spline over ["@ + start + ", "@ + end + "]"@
}

/// One-line plain-text summary of a spline with `count` segments over the
/// domain whose rendered ends are `start` and `end`, e.g.
/// `"12-segments spline over [-3.2, 4.1]"` (singular for one segment). Shown
/// collapsed by default so a hundred-segment curve stays legible.
pub fn summary_line(count: usize, start: &str, end: &str) -> (s: String)
    ensures
        s@ == summary_spec(count as nat, start@, end@),
{
    proof {
        reveal_strlit("-segment");
        reveal_strlit("-segments");
        reveal_strlit(" spline over [");
        reveal_strlit(", ");
        reveal_strlit("]");
    }
    let mut s = decimal_text(count as u64);
    if count == 1 {
        s.append("-segment");
    } else {
        s.append("-segments");
    }
    s.append(" spline over [");
    s.append(start);
    s.append(", ");
    s.append(end);
    s.append("]");
    s
}

/// The KaTeX interval condition `<start> \le x < <end>`, closed at the upper end
/// (`\le`) when `closed`.
pub open spec fn interval_spec(start: Seq<char>, end: Seq<char>, closed: bool) -> Seq<char> {
    start + " \\le x "@ + (if closed {
        "\\le"@
    } else {
        "<"@
    }) + " "@ + end
}

/// The interval condition, e.g. `0 \le x < 1` (or `\le` at both ends for the
/// final segment).
pub fn interval(start: &str, end: &str, closed: bool) -> (s: String)
    ensures
        s@ == interval_spec(start@, end@, closed),
{
    proof {
        reveal_strlit(" \\le x ");
        reveal_strlit("\\le");
        reveal_strlit("<");
        reveal_strlit(" ");
    }
    let mut s = String::from_str(start);
    s.append(" \\le x ");
    if closed {
        s.append("\\le");
    } else {
        s.append("<");
    }
    s.append(" ");
    s.append(end);
    s
}

/// The row of the `cases` block for piece `i` of `n`: its polynomial, then its
/// interval, closed only for the last piece.
pub open spec fn cases_row(p: (Seq<char>, Seq<char>, Seq<char>), i: int, n: int) -> Seq<char> {
    p.0 + " & "@ + interval_spec(p.1, p.2, i == n - 1)
}

/// The full `cases` block over the rows of `pieces`.
pub open spec fn cases_spec(pieces: Seq<(Seq<char>, Seq<char>, Seq<char>)>) -> Seq<char> {
    "f(x) = \\begin{cases} "@ + join(
        Seq::new(pieces.len(), |i: int| cases_row(pieces[i], i, pieces.len() as int)),
        " \\\\ "@,
    ) + " \\end{cases}"@
}

/// The exact function as a LaTeX `cases` block: one polynomial per piece over
/// its half-open interval (the last interval is closed at both ends).
pub fn cases_block(pieces: &Vec<Piece>) -> (s: String)
    requires
        pieces@.len() >= 1,
    ensures
        s@ == cases_spec(pieces@.map_values(|p: Piece| piece_view(p))),
{
    proof {
        reveal_strlit(" & ");
        reveal_strlit("f(x) = \\begin{cases} ");
        reveal_strlit(" \\\\ ");
        reveal_strlit(" \\end{cases}");
    }
    let ghost views = pieces@.map_values(|p: Piece| piece_view(p));
    let ghost n = pieces@.len() as int;
    let last = pieces.len() - 1;
    let mut rows: Vec<String> = Vec::new();
    let mut i: usize = 0;
    while i < pieces.len()
        invariant
            0 <= i <= pieces@.len(),
            last == pieces@.len() - 1,
            n == pieces@.len(),
            views == pieces@.map_values(|p: Piece| piece_view(p)),
            rows@.len() == i,
            forall|j: int| 0 <= j < i ==> #[trigger] rows@[j]@ == cases_row(views[j], j, n),
        decreases pieces@.len() - i,
    {
        proof {
            reveal_strlit(" & ");
        }
        let piece = &pieces[i];
        let mut row = String::from_str(piece.poly.as_str());
        row.append(" & ");
        let cond = interval(piece.start.as_str(), piece.end.as_str(), i == last);
        row.append(cond.as_str());
        assert(views[i as int] == piece_view(pieces@[i as int]));
        rows.push(row);
        i = i + 1;
    }
    let body = join_texts(&rows, " \\\\ ");
    proof {
        assert(rows@.map_values(|p: String| p@) =~= Seq::new(
            views.len(),
            |j: int| cases_row(views[j], j, views.len() as int),
        ));
    }
    let mut s = String::from_str("f(x) = \\begin{cases} ");
    s.append(body.as_str());
    s.append(" \\end{cases}");
    s
}

/// A Desmos piece: `<start> \le x \le <end>: <poly>`.
pub open spec fn desmos_piece(p: (Seq<char>, Seq<char>, Seq<char>)) -> Seq<char> {
    p.1 + " \\le x \\le "@ + p.2 + ": "@ + p.0
}

/// The Desmos-pasteable bracket list of all pieces.
pub open spec fn desmos_spec(pieces: Seq<(Seq<char>, Seq<char>, Seq<char>)>) -> Seq<char> {
    "\\left\\{"@ + join(pieces.map_values(|p: (Seq<char>, Seq<char>, Seq<char>)| desmos_piece(p)), ", "@)
        + "\\right\\}"@
}

/// The pieces as Desmos-pasteable piecewise LaTeX, `\left\{cond: expr, …\right\}`
/// with a closed interval on every piece. Pasting the string into a fresh
/// Desmos expression plots `y = f(x)` over the drawn domain.
pub fn desmos_list(pieces: &Vec<Piece>) -> (s: String)
    ensures
        s@ == desmos_spec(pieces@.map_values(|p: Piece| piece_view(p))),
{
    proof {
        reveal_strlit("\\left\\{");
        reveal_strlit(", ");
        reveal_strlit("\\right\\}");
    }
    let ghost views = pieces@.map_values(|p: Piece| piece_view(p));
    let mut parts: Vec<String> = Vec::new();
    let mut i: usize = 0;
    while i < pieces.len()
        invariant
            0 <= i <= pieces@.len(),
            views == pieces@.map_values(|p: Piece| piece_view(p)),
            parts@.len() == i,
            forall|j: int| 0 <= j < i ==> #[trigger] parts@[j]@ == desmos_piece(views[j]),
        decreases pieces@.len() - i,
    {
        proof {
            reveal_strlit(" \\le x \\le ");
            reveal_strlit(": ");
        }
        let piece = &pieces[i];
        let mut part = String::from_str(piece.start.as_str());
        part.append(" \\le x \\le ");
        part.append(piece.end.as_str());
        part.append(": ");
        part.append(piece.poly.as_str());
        assert(views[i as int] == piece_view(pieces@[i as int]));
        parts.push(part);
        i = i + 1;
    }
    let body = join_texts(&parts, ", ");
    proof {
        assert(parts@.map_values(|p: String| p@) =~= views.map_values(
            |p: (Seq<char>, Seq<char>, Seq<char>)| desmos_piece(p),
        ));
    }
    let mut s = String::from_str("\\left\\{");
    s.append(body.as_str());
    s.append("\\right\\}");
    s
}

/// A Wolfram piece: `{<poly>, <start> <= x <= <end>}`.
pub open spec fn wolfram_piece(p: (Seq<char>, Seq<char>, Seq<char>)) -> Seq<char> {
    "{"@ + p.0 + ", "@ + p.1 + " <= x <= "@ + p.2 + "}"@
}

/// The Wolfram Language `Piecewise[…]` of all pieces.
pub open spec fn wolfram_spec(pieces: Seq<(Seq<char>, Seq<char>, Seq<char>)>) -> Seq<char> {
    "Piecewise[{"@ + join(
        pieces.map_values(|p: (Seq<char>, Seq<char>, Seq<char>)| wolfram_piece(p)),
        ", "@,
    ) + "}]"@
}

/// The pieces as a Wolfram Language `Piecewise[{{expr, cond}, …}]`. Pasting into
/// Wolfram|Alpha or Mathematica reproduces the drawn curve (0 outside the
/// domain, Wolfram's default for an unmatched piece).
pub fn wolfram_piecewise(pieces: &Vec<Piece>) -> (s: String)
    ensures
        s@ == wolfram_spec(pieces@.map_values(|p: Piece| piece_view(p))),
{
    proof {
        reveal_strlit("Piecewise[{");
        reveal_strlit(", ");
        reveal_strlit("}]");
    }
    let ghost views = pieces@.map_values(|p: Piece| piece_view(p));
    let mut parts: Vec<String> = Vec::new();
    let mut i: usize = 0;
    while i < pieces.len()
        invariant
            0 <= i <= pieces@.len(),
            views == pieces@.map_values(|p: Piece| piece_view(p)),
            parts@.len() == i,
            forall|j: int| 0 <= j < i ==> #[trigger] parts@[j]@ == wolfram_piece(views[j]),
        decreases pieces@.len() - i,
    {
        proof {
            reveal_strlit("{");
            reveal_strlit(", ");
            reveal_strlit(" <= x <= ");
            reveal_strlit("}");
        }
        let piece = &pieces[i];
        let mut part = String::from_str("{");
        part.append(piece.poly.as_str());
        part.append(", ");
        part.append(piece.start.as_str());
        part.append(" <= x <= ");
        part.append(piece.end.as_str());
        part.append("}");
        assert(views[i as int] == piece_view(pieces@[i as int]));
        parts.push(part);
        i = i + 1;
    }
    let body = join_texts(&parts, ", ");
    proof {
        assert(parts@.map_values(|p: String| p@) =~= views.map_values(
            |p: (Seq<char>, Seq<char>, Seq<char>)| wolfram_piece(p),
        ));
    }
    let mut s = String::from_str("Piecewise[{");
    s.append(body.as_str());
    s.append("}]");
    s
}

/// A rational `P/Q` in LaTeX, from its rendered numerator and denominator:
/// `\frac{P}{Q}`.
pub fn fraction_latex(num: &str, den: &str) -> (s: String)
    ensures
        s@ == "\\frac{"@ + num@ + "}{"@ + den@ + "}"@,
{
    proof {
        reveal_strlit("\\frac{");
        reveal_strlit("}{");
        reveal_strlit("}");
    }
    let mut s = String::from_str("\\frac{");
    s.append(num);
    s.append("}{");
    s.append(den);
    s.append("}");
    s
}

/// A rational `P/Q` in Wolfram syntax: `(P)/(Q)`.
pub fn fraction_wolfram(num: &str, den: &str) -> (s: String)
    ensures
        s@ == "("@ + num@ + ")/("@ + den@ + ")"@,
{
    proof {
        reveal_strlit("(");
        reveal_strlit(")/(");
        reveal_strlit(")");
    }
    let mut s = String::from_str("(");
    s.append(num);
    s.append(")/(");
    s.append(den);
    s.append(")");
    s
}

/// The closed form offered beside the exact output, from its rendered
/// expression: `f(x) \approx <expression>`, or nothing when every term rounded
/// away and the expression reads `0`.
pub fn approximation_label(expression: &str) -> (label: Option<String>)
    ensures
        label is None <==> expression@ == seq!['0'],
        label matches Some(l) ==> l@ == "f(x) \\approx "@ + expression@,
{
    proof {
        reveal_strlit("f(x) \\approx ");
    }
    if expression.unicode_len() == 1 && expression.get_char(0) == '0' {
        assert(expression@ =~= seq!['0']);
        return None;
    }
    let mut label = String::from_str("f(x) \\approx ");
    label.append(expression);
    Some(label)
}

/// Joining is associative around the separator: the join of two non-empty
/// lists is the join of the first, the separator, and the join of the second;
/// a single part joins to itself and no parts join to nothing.
pub proof fn lemma_join_concat(a: Seq<Seq<char>>, b: Seq<Seq<char>>, sep: Seq<char>)
    requires
        a.len() >= 1,
        b.len() >= 1,
    ensures
        join(a + b, sep) == join(a, sep) + sep + join(b, sep),
        join(seq![a[0]], sep) == a[0],
        join(Seq::<Seq<char>>::empty(), sep) == Seq::<char>::empty(),
    decreases b.len(),
{
    if b.len() == 1 {
        assert((a + b).drop_last() =~= a);
        assert(join(b, sep) == b[0]);
    } else {
        lemma_join_concat(a, b.drop_last(), sep);
        assert((a + b).drop_last() =~= a + b.drop_last());
        assert((a + b).last() == b.last());
        assert(join(b, sep) == join(b.drop_last(), sep) + sep + b.last());
    }
}

/// Adding a piece to a Desmos list appends `, <start> \le x \le <end>: <poly>`
/// for that piece just before the closing `\right\}`; a single piece is listed
/// alone, and each entry pairs a piece's interval with that piece's own
/// polynomial.
pub proof fn lemma_desmos_entries(
    pieces: Seq<(Seq<char>, Seq<char>, Seq<char>)>,
    p: (Seq<char>, Seq<char>, Seq<char>),
)
    ensures
        desmos_spec(seq![p]) == "\\left\\{"@ + p.1 + " \\le x \\le "@ + p.2 + ": "@ + p.0
            + "\\right\\}"@,
        pieces.len() >= 1 ==> desmos_spec(pieces.push(p)) == desmos_spec(pieces).take(
            desmos_spec(pieces).len() - 8,
        ) + ", "@ + p.1 + " \\le x \\le "@ + p.2 + ": "@ + p.0 + "\\right\\}"@,
        desmos_spec(pieces) == "\\left\\{"@ + join(
            Seq::new(
                pieces.len(),
                |i: int| pieces[i].1 + " \\le x \\le "@ + pieces[i].2 + ": "@ + pieces[i].0,
            ),
            ", "@,
        ) + "\\right\\}"@,
{
    reveal_strlit("\\right\\}");
    let f = |q: (Seq<char>, Seq<char>, Seq<char>)| desmos_piece(q);
    assert(seq![p].map_values(f) =~= seq![desmos_piece(p)]);
    assert(pieces.map_values(f) =~= Seq::new(
        pieces.len(),
        |i: int| pieces[i].1 + " \\le x \\le "@ + pieces[i].2 + ": "@ + pieces[i].0,
    ));
    if pieces.len() >= 1 {
        let body = join(pieces.map_values(f), ", "@);
        assert(pieces.push(p).map_values(f) =~= pieces.map_values(f).push(desmos_piece(p)));
        assert(pieces.map_values(f).push(desmos_piece(p)).drop_last() =~= pieces.map_values(f));
        let whole = desmos_spec(pieces);
        assert(whole == "\\left\\{"@ + body + "\\right\\}"@);
        assert(whole.take(whole.len() - 8) =~= "\\left\\{"@ + body);
        assert(desmos_spec(pieces.push(p)) =~= "\\left\\{"@ + body + ", "@ + desmos_piece(p)
            + "\\right\\}"@);
    }
}

/// Adding a piece to a Wolfram `Piecewise` appends
/// `, {<poly>, <start> <= x <= <end>}` for that piece before the closing `}]`; a
/// single piece is listed alone, and each entry pairs a piece's polynomial with
/// that same piece's interval.
pub proof fn lemma_wolfram_entries(
    pieces: Seq<(Seq<char>, Seq<char>, Seq<char>)>,
    p: (Seq<char>, Seq<char>, Seq<char>),
)
    ensures
        wolfram_spec(seq![p]) == "Piecewise[{"@ + "{"@ + p.0 + ", "@ + p.1 + " <= x <= "@ + p.2
            + "}"@ + "}]"@,
        pieces.len() >= 1 ==> wolfram_spec(pieces.push(p)) == wolfram_spec(pieces).take(
            wolfram_spec(pieces).len() - 2,
        ) + ", "@ + "{"@ + p.0 + ", "@ + p.1 + " <= x <= "@ + p.2 + "}"@ + "}]"@,
        wolfram_spec(pieces) == "Piecewise[{"@ + join(
            Seq::new(
                pieces.len(),
                |i: int|
                    "{"@ + pieces[i].0 + ", "@ + pieces[i].1 + " <= x <= "@ + pieces[i].2 + "}"@,
            ),
            ", "@,
        ) + "}]"@,
{
    reveal_strlit("}]");
    let f = |q: (Seq<char>, Seq<char>, Seq<char>)| wolfram_piece(q);
    assert(seq![p].map_values(f) =~= seq![wolfram_piece(p)]);
    assert(pieces.map_values(f) =~= Seq::new(
        pieces.len(),
        |i: int| "{"@ + pieces[i].0 + ", "@ + pieces[i].1 + " <= x <= "@ + pieces[i].2 + "}"@,
    ));
    if pieces.len() >= 1 {
        let body = join(pieces.map_values(f), ", "@);
        assert(pieces.push(p).map_values(f) =~= pieces.map_values(f).push(wolfram_piece(p)));
        assert(pieces.map_values(f).push(wolfram_piece(p)).drop_last() =~= pieces.map_values(f));
        let whole = wolfram_spec(pieces);
        assert(whole == "Piecewise[{"@ + body + "}]"@);
        assert(whole.take(whole.len() - 2) =~= "Piecewise[{"@ + body);
        assert(wolfram_spec(pieces.push(p)) =~= "Piecewise[{"@ + body + ", "@ + wolfram_piece(p)
            + "}]"@);
    }
}

/// The rows of a `cases` block: row `i` is piece `i`'s polynomial, ` & `, and
/// its interval `<start> \le x <op> <end>`, where the upper bound is closed
/// (`\le`) for the last row only and open (`<`) for every other row.
pub proof fn lemma_cases_rows(pieces: Seq<(Seq<char>, Seq<char>, Seq<char>)>)
    requires
        pieces.len() >= 1,
    ensures
        cases_spec(pieces) == "f(x) = \\begin{cases} "@ + join(
            Seq::new(
                pieces.len(),
                |i: int|
                    pieces[i].0 + " & "@ + pieces[i].1 + " \\le x "@ + (if i == pieces.len() - 1 {
                        "\\le"@
                    } else {
                        "<"@
                    }) + " "@ + pieces[i].2,
            ),
            " \\\\ "@,
        ) + " \\end{cases}"@,
{
    let rows = Seq::new(pieces.len(), |i: int| cases_row(pieces[i], i, pieces.len() as int));
    let stated = Seq::new(
        pieces.len(),
        |i: int|
            pieces[i].0 + " & "@ + pieces[i].1 + " \\le x "@ + (if i == pieces.len() - 1 {
                "\\le"@
            } else {
                "<"@
            }) + " "@ + pieces[i].2,
    );
    assert forall|i: int| 0 <= i < pieces.len() implies #[trigger] rows[i] == stated[i] by {
        assert(rows[i] =~= stated[i]);
    }
    assert(rows =~= stated);
}

/// The summary opens with the segment count in decimal (reading back to the
/// count), names `segment` in the singular for exactly one segment and
/// `segments` otherwise, and closes with the domain `[<start>, <end>]`.
pub proof fn lemma_summary_parts(count: nat, start: Seq<char>, end: Seq<char>)
    ensures
        summary_spec(count, start, end) == crate::text::decimal(count) + "-segment"@ + (if count
            == 1 {
            Seq::<char>::empty()
        } else {
            seq!['s']
        }) + " spline over ["@ + start + ", "@ + end + "]"@,
        crate::text::digits_value(crate::text::decimal(count)) == count,
{
    reveal_strlit("-segment");
    reveal_strlit("-segments");
    crate::text::lemma_decimal_reads_back(count);
    assert("-segment"@ + seq!['s'] =~= "-segments"@);
    assert("-segment"@ + Seq::<char>::empty() =~= "-segment"@);
}

} // verus!
