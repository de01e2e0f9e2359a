//! The combinatorics behind the closed-form search: which subsets of the basis
//! dictionary are tried (every `size`-element combination, in lexicographic
//! order), and which rational degree pairs are tried (simplest first).

use vstd::prelude::*;

verus! {

/// Every strictly increasing index sequence of length `k` whose entries lie in
/// `[start, n)`, in lexicographic order: first those that begin with `start`,
/// then those that do not.
pub open spec fn index_combos(start: int, n: int, k: nat) -> Seq<Seq<usize>>
    decreases n - start,
{
    if k == 0 {
        seq![Seq::<usize>::empty()]
    } else if start >= n {
        Seq::<Seq<usize>>::empty()
    } else {
        index_combos(start + 1, n, (k - 1) as nat).map_values(
            |c: Seq<usize>| seq![start as usize] + c,
        ) + index_combos(start + 1, n, k)
    }
}

/// The items that an index sequence picks out of `items`.
pub open spec fn pick(items: Seq<usize>, c: Seq<usize>) -> Seq<usize> {
    c.map_values(|i: usize| items[i as int])
}

/// What `combinations(items, size)` returns: no combination at all for
/// `size == 0`, otherwise every `size`-element combination of the positions of
/// `items`, in lexicographic order of positions, each mapped to its items.
pub open spec fn combinations_spec(items: Seq<usize>, size: nat) -> Seq<Seq<usize>> {
    if size == 0 {
        Seq::<Seq<usize>>::empty()
    } else {
        index_combos(0, items.len() as int, size).map_values(|c: Seq<usize>| pick(items, c))
    }
}

/// Lexicographic order on sequences of indices.
pub open spec fn lex_less(a: Seq<usize>, b: Seq<usize>) -> bool
    decreases a.len(),
{
    if a.len() == 0 || b.len() == 0 {
        false
    } else if a[0] != b[0] {
        a[0] < b[0]
    } else {
        lex_less(a.drop_first(), b.drop_first())
    }
}

/// A `k`-combination of `[lo, n)`: `k` strictly increasing indices in range.
pub open spec fn is_combination(c: Seq<usize>, lo: int, n: int, k: nat) -> bool {
    &&& c.len() == k
    &&& forall|i: int| 0 <= i < c.len() ==> lo <= #[trigger] c[i] < n
    &&& forall|i: int, j: int| 0 <= i < j < c.len() ==> #[trigger] c[i] < #[trigger] c[j]
}

/// Pascal's binomial coefficient `m choose k`.
pub open spec fn binomial(m: nat, k: nat) -> nat
    decreases m,
{
    if k == 0 {
        1
    } else if m == 0 {
        0
    } else {
        binomial((m - 1) as nat, (k - 1) as nat) + binomial((m - 1) as nat, k)
    }
}

proof fn lemma_lex_less_shared_head(s: usize, a: Seq<usize>, b: Seq<usize>)
    ensures
        lex_less(seq![s] + a, seq![s] + b) == lex_less(a, b),
{
    assert((seq![s] + a).drop_first() =~= a);
    assert((seq![s] + b).drop_first() =~= b);
}

proof fn lemma_index_combos_len(start: int, n: int, k: nat)
    ensures
        index_combos(start, n, k).len() == binomial(
            (if n - start >= 0 { n - start } else { 0 }) as nat,
            k,
        ),
    decreases n - start,
{
    if k == 0 {
    } else if start >= n {
    } else {
        lemma_index_combos_len(start + 1, n, (k - 1) as nat);
        lemma_index_combos_len(start + 1, n, k);
    }
}

proof fn lemma_index_combos_valid(start: int, n: int, k: nat)
    requires
        0 <= start,
        n <= usize::MAX + 1,
    ensures
        forall|j: int|
            0 <= j < index_combos(start, n, k).len() ==> is_combination(
                #[trigger] index_combos(start, n, k)[j],
                start,
                n,
                k,
            ),
    decreases n - start,
{
    if k == 0 {
    } else if start >= n {
    } else {
        let head = index_combos(start + 1, n, (k - 1) as nat);
        let tail = index_combos(start + 1, n, k);
        lemma_index_combos_valid(start + 1, n, (k - 1) as nat);
        lemma_index_combos_valid(start + 1, n, k);
        let all = index_combos(start, n, k);
        assert forall|j: int| 0 <= j < all.len() implies is_combination(#[trigger] all[j], start, n, k) by {
            if j < head.len() {
                let c = head[j];
                assert(is_combination(c, start + 1, n, (k - 1) as nat));
                let d = seq![start as usize] + c;
                assert(all[j] == d);
                assert forall|i: int, l: int| 0 <= i < l < d.len() implies #[trigger] d[i] < #[trigger] d[l] by {
                    if i > 0 {
                        assert(c[i - 1] < c[l - 1]);
                    } else {
                        assert(d[l] == c[l - 1]);
                    }
                }
                assert forall|i: int| 0 <= i < d.len() implies start <= #[trigger] d[i] < n by {
                    if i > 0 {
                        assert(d[i] == c[i - 1]);
                    }
                }
            } else {
                assert(all[j] == tail[j - head.len()]);
                assert(is_combination(tail[j - head.len()], start + 1, n, k));
            }
        }
    }
}

proof fn lemma_index_combos_sorted(start: int, n: int, k: nat)
    requires
        0 <= start,
        n <= usize::MAX + 1,
    ensures
        forall|i: int, j: int|
            0 <= i < j < index_combos(start, n, k).len() ==> lex_less(
                #[trigger] index_combos(start, n, k)[i],
                #[trigger] index_combos(start, n, k)[j],
            ),
    decreases n - start,
{
    if k == 0 {
    } else if start >= n {
    } else {
        let head = index_combos(start + 1, n, (k - 1) as nat);
        let tail = index_combos(start + 1, n, k);
        lemma_index_combos_sorted(start + 1, n, (k - 1) as nat);
        lemma_index_combos_sorted(start + 1, n, k);
        lemma_index_combos_valid(start + 1, n, k);
        let all = index_combos(start, n, k);
        assert forall|i: int, j: int| 0 <= i < j < all.len() implies lex_less(
            #[trigger] all[i],
            #[trigger] all[j],
        ) by {
            if j < head.len() {
                lemma_lex_less_shared_head(start as usize, head[i], head[j]);
            } else if i >= head.len() {
                assert(all[i] == tail[i - head.len()]);
                assert(all[j] == tail[j - head.len()]);
            } else {
                let t = tail[j - head.len()];
                assert(all[j] == t);
                assert(is_combination(t, start + 1, n, k));
                assert(t[0] >= start + 1);
                assert(all[i][0] == start as usize);
            }
        }
    }
}

proof fn lemma_index_combos_complete(start: int, n: int, k: nat, c: Seq<usize>)
    requires
        0 <= start,
        is_combination(c, start, n, k),
    ensures
        index_combos(start, n, k).contains(c),
    decreases n - start,
{
    let all = index_combos(start, n, k);
    if k == 0 {
        assert(c =~= Seq::<usize>::empty());
        assert(all[0] == c);
    } else if start >= n {
        assert(start <= c[0] < n);
    } else {
        let head = index_combos(start + 1, n, (k - 1) as nat);
        let tail = index_combos(start + 1, n, k);
        if c[0] == start {
            let rest = c.drop_first();
            assert forall|i: int| 0 <= i < rest.len() implies start + 1 <= #[trigger] rest[i] < n by {
                assert(rest[i] == c[i + 1]);
                assert(c[0] < c[i + 1]);
            }
            assert forall|i: int, j: int| 0 <= i < j < rest.len() implies #[trigger] rest[i]
                < #[trigger] rest[j] by {
                assert(rest[i] == c[i + 1]);
                assert(rest[j] == c[j + 1]);
            }
            lemma_index_combos_complete(start + 1, n, (k - 1) as nat, rest);
            let w = choose|w: int| 0 <= w < head.len() && head[w] == rest;
            assert(seq![start as usize] + rest =~= c);
            assert(all[w] == c);
        } else {
            assert forall|i: int| 0 <= i < c.len() implies start + 1 <= #[trigger] c[i] < n by {
                if i > 0 {
                    assert(c[0] < c[i]);
                }
            }
            lemma_index_combos_complete(start + 1, n, k, c);
            let w = choose|w: int| 0 <= w < tail.len() && tail[w] == c;
            assert(all[head.len() + w] == c);
        }
    }
}

/// The combinations of positions `[0, n)` of size `k >= 1` are complete and
/// ordered: there are exactly `n choose k` of them, each is `k` strictly
/// increasing positions below `n`, every such choice of positions occurs, and
/// they come in strictly increasing lexicographic order (so none repeats).
pub proof fn lemma_combinations_complete_and_ordered(n: nat, k: nat)
    requires
        n <= usize::MAX,
        k >= 1,
    ensures
        index_combos(0, n as int, k).len() == binomial(n, k),
        forall|j: int|
            0 <= j < index_combos(0, n as int, k).len() ==> is_combination(
                #[trigger] index_combos(0, n as int, k)[j],
                0,
                n as int,
                k,
            ),
        forall|c: Seq<usize>|
            is_combination(c, 0, n as int, k) ==> #[trigger] index_combos(0, n as int, k).contains(
                c,
            ),
        forall|i: int, j: int|
            0 <= i < j < index_combos(0, n as int, k).len() ==> lex_less(
                #[trigger] index_combos(0, n as int, k)[i],
                #[trigger] index_combos(0, n as int, k)[j],
            ),
{
    lemma_index_combos_len(0, n as int, k);
    lemma_index_combos_valid(0, n as int, k);
    lemma_index_combos_sorted(0, n as int, k);
    assert forall|c: Seq<usize>| is_combination(c, 0, n as int, k) implies #[trigger] index_combos(
        0,
        n as int,
        k,
    ).contains(c) by {
        lemma_index_combos_complete(0, n as int, k, c);
    }
}

proof fn lemma_lex_intro(a: Seq<usize>, b: Seq<usize>, p: int)
    requires
        0 <= p < a.len(),
        p < b.len(),
        forall|q: int| 0 <= q < p ==> a[q] == b[q],
        a[p] < b[p],
    ensures
        lex_less(a, b),
    decreases p,
{
    if p > 0 {
        assert(a[0] == b[0]);
        lemma_lex_intro(a.drop_first(), b.drop_first(), p - 1);
    }
}

/// The first position where `a` and `b` differ, when `a` is lexicographically
/// less than `b`.
proof fn lemma_lex_witness(a: Seq<usize>, b: Seq<usize>) -> (p: int)
    requires
        lex_less(a, b),
    ensures
        0 <= p < a.len(),
        p < b.len(),
        forall|q: int| 0 <= q < p ==> a[q] == b[q],
        a[p] < b[p],
    decreases a.len(),
{
    if a[0] != b[0] {
        0
    } else {
        let r = lemma_lex_witness(a.drop_first(), b.drop_first());
        assert forall|q: int| 0 <= q < r + 1 implies a[q] == b[q] by {
            if q > 0 {
                assert(a[q] == a.drop_first()[q - 1]);
                assert(b[q] == b.drop_first()[q - 1]);
            }
        }
        r + 1
    }
}

proof fn lemma_lex_irreflexive(a: Seq<usize>)
    ensures
        !lex_less(a, a),
{
    if lex_less(a, a) {
        let p = lemma_lex_witness(a, a);
    }
}

proof fn lemma_lex_transitive(a: Seq<usize>, b: Seq<usize>, c: Seq<usize>)
    requires
        lex_less(a, b),
        lex_less(b, c),
    ensures
        lex_less(a, c),
{
    let p1 = lemma_lex_witness(a, b);
    let p2 = lemma_lex_witness(b, c);
    let p = if p1 < p2 {
        p1
    } else {
        p2
    };
    lemma_lex_intro(a, c, p);
}

proof fn lemma_lex_total(a: Seq<usize>, b: Seq<usize>)
    requires
        a.len() == b.len(),
        a != b,
    ensures
        lex_less(a, b) || lex_less(b, a),
    decreases a.len(),
{
    if a.len() == 0 {
        assert(a =~= b);
    } else if a[0] == b[0] {
        if a.drop_first() == b.drop_first() {
            assert(a =~= seq![a[0]] + a.drop_first());
            assert(b =~= seq![b[0]] + b.drop_first());
        }
        lemma_lex_total(a.drop_first(), b.drop_first());
    }
}

/// In a combination, entries grow by at least one per position.
proof fn lemma_gap(s: Seq<usize>, lo: int, n: int, k: nat, j: int, l: int)
    requires
        is_combination(s, lo, n, k),
        0 <= j <= l < k,
    ensures
        s[l] >= s[j] + (l - j),
    decreases l - j,
{
    if j < l {
        lemma_gap(s, lo, n, k, j, l - 1);
        assert(s[l - 1] < s[l]);
    }
}

/// Position `j` of a `k`-combination of `[0, n)` holds at most `n - k + j`.
proof fn lemma_upper_bound(s: Seq<usize>, n: int, k: nat, j: int)
    requires
        is_combination(s, 0, n, k),
        0 <= j < k,
    ensures
        s[j] <= n - k + j,
{
    lemma_gap(s, 0, n, k, j, k - 1);
}

/// The lexicographic successor of `c` found by raising position `i` by one and
/// packing every later position right after it.
pub open spec fn raised(c: Seq<usize>, i: int) -> Seq<usize> {
    Seq::new(c.len(), |j: int| if j < i { c[j] } else { (c[i] + 1 + (j - i)) as usize })
}

proof fn lemma_raised_valid(c: Seq<usize>, n: int, k: nat, i: int)
    requires
        is_combination(c, 0, n, k),
        n <= usize::MAX + 1,
        0 <= i < k,
        c[i] < n - k + i,
    ensures
        is_combination(raised(c, i), 0, n, k),
        lex_less(c, raised(c, i)),
{
    let r = raised(c, i);
    assert forall|j: int| 0 <= j < r.len() implies 0 <= #[trigger] r[j] < n by {
        if j >= i {
            assert(c[i] + 1 + (j - i) <= n - k + j);
        }
    }
    assert forall|a: int, b: int| 0 <= a < b < r.len() implies #[trigger] r[a] < #[trigger] r[b] by {
        if b < i {
            assert(c[a] < c[b]);
        } else if a < i {
            assert(c[a] < c[i]);
        }
    }
    lemma_lex_intro(c, r, i);
}

/// Raising the last position that is not yet at its maximum gives the next
/// combination in lexicographic order: nothing lies strictly between.
proof fn lemma_raised_is_next(c: Seq<usize>, n: int, k: nat, i: int, s: Seq<usize>)
    requires
        is_combination(c, 0, n, k),
        n <= usize::MAX + 1,
        0 <= i < k,
        c[i] < n - k + i,
        forall|j: int| i < j < k ==> #[trigger] c[j] >= n - k + j,
        is_combination(s, 0, n, k),
        lex_less(c, s),
    ensures
        s == raised(c, i) || lex_less(raised(c, i), s),
{
    let r = raised(c, i);
    lemma_raised_valid(c, n, k, i);
    let p = lemma_lex_witness(c, s);
    if p > i {
        lemma_upper_bound(s, n, k, p);
        assert(c[p] >= n - k + p);
    } else if p < i {
        lemma_lex_intro(r, s, p);
    } else if s[i] > r[i] {
        lemma_lex_intro(r, s, i);
    } else if s != r {
        lemma_lex_total(r, s);
        if lex_less(s, r) {
            let q = lemma_lex_witness(s, r);
            if q > i {
                lemma_gap(s, 0, n, k, i, q);
            }
        }
    }
}

/// A combination whose every position is at its maximum is the last one.
proof fn lemma_max_is_last(c: Seq<usize>, n: int, k: nat, s: Seq<usize>)
    requires
        is_combination(c, 0, n, k),
        forall|j: int| 0 <= j < k ==> #[trigger] c[j] >= n - k + j,
        is_combination(s, 0, n, k),
    ensures
        !lex_less(c, s),
{
    if lex_less(c, s) {
        let p = lemma_lex_witness(c, s);
        lemma_upper_bound(s, n, k, p);
    }
}

/// `[0, 1, …, k − 1]` is the first combination in lexicographic order.
proof fn lemma_first_is_least(n: int, k: nat, s: Seq<usize>)
    requires
        k <= n <= usize::MAX + 1,
        is_combination(s, 0, n, k),
    ensures
        is_combination(Seq::new(k, |j: int| j as usize), 0, n, k),
        s == Seq::new(k, |j: int| j as usize) || lex_less(Seq::new(k, |j: int| j as usize), s),
{
    let first = Seq::new(k, |j: int| j as usize);
    if s != first {
        lemma_lex_total(first, s);
        if lex_less(s, first) {
            let p = lemma_lex_witness(s, first);
            lemma_gap(s, 0, n, k, 0, p);
        }
    }
}

/// Within a strictly ordered list, something lexicographically after entry
/// `m` sits at a later position.
proof fn lemma_later_in_order(list: Seq<Seq<usize>>, m: int, j: int)
    requires
        forall|a: int, b: int| 0 <= a < b < list.len() ==> lex_less(#[trigger] list[a], #[trigger] list[b]),
        0 <= m < list.len(),
        0 <= j < list.len(),
        lex_less(list[m], list[j]),
    ensures
        j > m,
{
    if j == m {
        lemma_lex_irreflexive(list[m]);
    } else if j < m {
        lemma_lex_transitive(list[m], list[j], list[m]);
        lemma_lex_irreflexive(list[m]);
    }
}

/// In the ordered list of all `k`-combinations of `[0, n)`, the entry after
/// `c` is `raised(c, i)`, where `i` is the last position below its maximum.
proof fn lemma_next_entry(n: nat, k: nat, m: int, i: int)
    requires
        n <= usize::MAX,
        k >= 1,
        0 <= m < index_combos(0, n as int, k).len(),
        0 <= i < k,
        index_combos(0, n as int, k)[m][i] < n - k + i,
        forall|j: int| i < j < k ==> #[trigger] index_combos(0, n as int, k)[m][j] >= n - k + j,
    ensures
        m + 1 < index_combos(0, n as int, k).len(),
        index_combos(0, n as int, k)[m + 1] == raised(index_combos(0, n as int, k)[m], i),
{
    let list = index_combos(0, n as int, k);
    lemma_combinations_complete_and_ordered(n, k);
    let c = list[m];
    assert(is_combination(c, 0, n as int, k));
    let r = raised(c, i);
    lemma_raised_valid(c, n as int, k, i);
    assert(list.contains(r));
    let j = choose|j: int| 0 <= j < list.len() && list[j] == r;
    lemma_later_in_order(list, m, j);
    let s = list[m + 1];
    assert(lex_less(list[m], list[m + 1]));
    assert(is_combination(s, 0, n as int, k));
    lemma_raised_is_next(c, n as int, k, i, s);
    if s != r {
        if j == m + 1 {
            lemma_lex_irreflexive(s);
        } else {
            assert(lex_less(list[m + 1], list[j]));
            lemma_lex_transitive(s, r, s);
            lemma_lex_irreflexive(s);
        }
    }
}

/// In that list, a combination with every position at its maximum is the last
/// entry.
proof fn lemma_last_entry(n: nat, k: nat, m: int)
    requires
        n <= usize::MAX,
        k >= 1,
        0 <= m < index_combos(0, n as int, k).len(),
        forall|j: int| 0 <= j < k ==> #[trigger] index_combos(0, n as int, k)[m][j] >= n - k + j,
    ensures
        m + 1 == index_combos(0, n as int, k).len(),
{
    let list = index_combos(0, n as int, k);
    lemma_combinations_complete_and_ordered(n, k);
    if m + 1 < list.len() {
        assert(lex_less(list[m], list[m + 1]));
        lemma_max_is_last(list[m], n as int, k, list[m + 1]);
    }
}

/// The list starts with `[0, 1, …, k − 1]`.
proof fn lemma_first_entry(n: nat, k: nat)
    requires
        n <= usize::MAX,
        1 <= k <= n,
    ensures
        index_combos(0, n as int, k).len() > 0,
        index_combos(0, n as int, k)[0] == Seq::new(k, |j: int| j as usize),
{
    let list = index_combos(0, n as int, k);
    let first = Seq::new(k, |j: int| j as usize);
    lemma_combinations_complete_and_ordered(n, k);
    lemma_first_is_least(n as int, k, first);
    assert(list.contains(first));
    let j = choose|j: int| 0 <= j < list.len() && list[j] == first;
    lemma_first_is_least(n as int, k, list[0]);
    if list[0] != first {
        assert(lex_less(first, list[0]));
        if j > 0 {
            assert(lex_less(list[0], list[j]));
            lemma_lex_transitive(first, list[0], first);
        }
        lemma_lex_irreflexive(first);
    }
}

/// The items at the positions of `c`.
fn pick_items(items: &[usize], c: &Vec<usize>) -> (picked: Vec<usize>)
    requires
        forall|j: int| 0 <= j < c@.len() ==> #[trigger] c@[j] < items@.len(),
    ensures
        picked@ == pick(items@, c@),
{
    let mut picked: Vec<usize> = Vec::new();
    let mut j: usize = 0;
    while j < c.len()
        invariant
            0 <= j <= c@.len(),
            forall|q: int| 0 <= q < c@.len() ==> #[trigger] c@[q] < items@.len(),
            picked@ =~= pick(items@, c@.take(j as int)),
        decreases c@.len() - j,
    {
        picked.push(items[c[j]]);
        j = j + 1;
        assert(picked@ =~= pick(items@, c@.take(j as int)));
    }
    assert(c@.take(c@.len() as int) =~= c@);
    picked
}

/// Every `size`-element combination of `items`, in a deterministic order: the
/// lexicographic order of the positions picked. A `size` of zero, or one larger
/// than `items`, gives no combination.
pub fn combinations(items: &[usize], size: usize) -> (out: Vec<Vec<usize>>)
    ensures
        out.deep_view() == combinations_spec(items@, size as nat),
        size == 0 || size > items@.len() ==> out@.len() == 0,
{
    let n = items.len();
    let mut out: Vec<Vec<usize>> = Vec::new();
    if size == 0 || size > n {
        proof {
            if size > 0 {
                lemma_index_combos_len(0, n as int, size as nat);
                lemma_binomial_zero_when_too_large(n as nat, size as nat);
            }
        }
        assert(out.deep_view() =~= combinations_spec(items@, size as nat));
        return out;
    }
    let ghost list = index_combos(0, n as int, size as nat);
    let ghost f = |c: Seq<usize>| pick(items@, c);
    let mut c: Vec<usize> = Vec::new();
    let mut t: usize = 0;
    while t < size
        invariant
            t <= size,
            c@ =~= Seq::new(t as nat, |j: int| j as usize),
        decreases size - t,
    {
        c.push(t);
        t = t + 1;
    }
    proof {
        lemma_first_entry(n as nat, size as nat);
    }
    let ghost mut m: int = 0;
    loop
        invariant
            n == items@.len(),
            1 <= size <= n,
            list == index_combos(0, n as int, size as nat),
            f == (|c: Seq<usize>| pick(items@, c)),
            0 <= m < list.len(),
            c@ == list[m],
            out.deep_view() =~= list.take(m).map_values(f),
        decreases list.len() - m,
    {
        proof {
            lemma_combinations_complete_and_ordered(n as nat, size as nat);
            assert(is_combination(list[m], 0, n as int, size as nat));
        }
        let picked = pick_items(items, &c);
        let ghost before = out.deep_view();
        let ghost before_vec = out@;
        out.push(picked);
        proof {
            assert(picked.deep_view() =~= picked@);
            assert(out.deep_view() =~= before.push(f(list[m]))) by {
                assert forall|q: int| 0 <= q < before.len() implies out.deep_view()[q]
                    == before[q] by {
                    assert(out@[q] == before_vec[q]);
                }
            }
            assert(list.take(m + 1).map_values(f) =~= list.take(m).map_values(f).push(
                f(list[m]),
            ));
        }
        let mut i: usize = size;
        while i > 0 && c[i - 1] >= n - size + (i - 1)
            invariant
                0 <= i <= size,
                c@ == list[m],
                c@.len() == size,
                size <= n,
                forall|j: int| i <= j < size ==> #[trigger] c@[j] >= n - size + j,
            decreases i,
        {
            i = i - 1;
        }
        if i == 0 {
            proof {
                lemma_last_entry(n as nat, size as nat, m);
                assert(list.take(m + 1) =~= list);
            }
            return out;
        }
        let i = i - 1;
        proof {
            lemma_next_entry(n as nat, size as nat, m, i as int);
        }
        let ghost next = raised(c@, i as int);
        let raised_at = c[i] + 1;
        c.set(i, raised_at);
        let mut j: usize = i + 1;
        while j < size
            invariant
                i < j <= size,
                c@.len() == size,
                size <= n,
                next == raised(list[m], i as int),
                next.len() == size,
                list[m][i as int] < n - size + i,
                forall|q: int| 0 <= q < j ==> #[trigger] c@[q] == next[q],
                forall|q: int| 0 <= q < size ==> #[trigger] next[q] < n,
            decreases size - j,
        {
            assert(list[m][i as int] + 1 + (j - i) < n);
            assert(next[j as int] == next[j - 1] + 1);
            let value = c[j - 1] + 1;
            c.set(j, value);
            j = j + 1;
        }
        proof {
            assert(c@ =~= next);
            m = m + 1;
        }
    }
}

proof fn lemma_binomial_zero_when_too_large(m: nat, k: nat)
    requires
        k > m,
    ensures
        binomial(m, k) == 0,
    decreases m,
{
    if m > 0 {
        lemma_binomial_zero_when_too_large((m - 1) as nat, (k - 1) as nat);
        lemma_binomial_zero_when_too_large((m - 1) as nat, k);
    }
}

/// Rational shapes read as "pretty" only at low degree: the largest numerator
/// degree tried.
pub const MAX_NUM_DEGREE: usize = 2;
/// The largest denominator degree tried.
pub const MAX_DEN_DEGREE: usize = 2;

/// A `(numerator_degree, denominator_degree)` pair that the rational search
/// tries: a numerator of degree at most `MAX_NUM_DEGREE` over a non-constant
/// denominator of degree at most `MAX_DEN_DEGREE`.
pub open spec fn is_degree_pair(p: (usize, usize)) -> bool {
    p.0 <= MAX_NUM_DEGREE && 1 <= p.1 <= MAX_DEN_DEGREE
}

/// "Simpler than": lower total degree first, then a lower denominator degree,
/// then a lower numerator degree.
pub open spec fn simpler(p: (usize, usize), q: (usize, usize)) -> bool {
    ||| p.0 + p.1 < q.0 + q.1
    ||| p.0 + p.1 == q.0 + q.1 && p.1 < q.1
    ||| p.0 + p.1 == q.0 + q.1 && p.1 == q.1 && p.0 < q.0
}

fn is_simpler(p: (usize, usize), q: (usize, usize)) -> (r: bool)
    requires
        is_degree_pair(p),
        is_degree_pair(q),
    ensures
        r == simpler(p, q),
{
    let ps = p.0 + p.1;
    let qs = q.0 + q.1;
    ps < qs || (ps == qs && p.1 < q.1) || (ps == qs && p.1 == q.1 && p.0 < q.0)
}

/// Inserts `p` into the simplest-first ordered `pairs` at its place.
fn insert_in_order(pairs: &mut Vec<(usize, usize)>, p: (usize, usize))
    requires
        is_degree_pair(p),
        !old(pairs)@.contains(p),
        forall|i: int| 0 <= i < old(pairs)@.len() ==> is_degree_pair(#[trigger] old(pairs)@[i]),
        forall|i: int, j: int|
            0 <= i < j < old(pairs)@.len() ==> simpler(
                #[trigger] old(pairs)@[i],
                #[trigger] old(pairs)@[j],
            ),
    ensures
        final(pairs)@.len() == old(pairs)@.len() + 1,
        forall|q: (usize, usize)|
            #[trigger] final(pairs)@.contains(q) <==> (old(pairs)@.contains(q) || q == p),
        forall|i: int| 0 <= i < final(pairs)@.len() ==> is_degree_pair(#[trigger] final(pairs)@[i]),
        forall|i: int, j: int|
            0 <= i < j < final(pairs)@.len() ==> simpler(
                #[trigger] final(pairs)@[i],
                #[trigger] final(pairs)@[j],
            ),
{
    let ghost old_pairs = pairs@;
    let mut pos: usize = 0;
    while pos < pairs.len() && is_simpler(pairs[pos], p)
        invariant
            pairs@ == old_pairs,
            0 <= pos <= pairs@.len(),
            forall|i: int| 0 <= i < pairs@.len() ==> is_degree_pair(#[trigger] pairs@[i]),
            forall|i: int| 0 <= i < pos ==> simpler(#[trigger] pairs@[i], p),
            is_degree_pair(p),
        decreases pairs@.len() - pos,
    {
        pos = pos + 1;
    }
    proof {
        if pos < pairs@.len() {
            assert(pairs@[pos as int] != p);
            assert(simpler(p, pairs@[pos as int]));
        }
    }
    pairs.insert(pos, p);
    proof {
        let new = pairs@;
        assert(new =~= old_pairs.insert(pos as int, p));
        assert forall|q: (usize, usize)| #[trigger] new.contains(q) <==> (old_pairs.contains(q)
            || q == p) by {
            if new.contains(q) {
                let w = choose|w: int| 0 <= w < new.len() && new[w] == q;
                if w < pos {
                    assert(old_pairs[w] == q);
                } else if w > pos {
                    assert(old_pairs[w - 1] == q);
                }
            }
            if old_pairs.contains(q) {
                let w = choose|w: int| 0 <= w < old_pairs.len() && old_pairs[w] == q;
                if w < pos {
                    assert(new[w] == q);
                } else {
                    assert(new[w + 1] == q);
                }
            }
            if q == p {
                assert(new[pos as int] == q);
            }
        }
        assert forall|i: int, j: int| 0 <= i < j < new.len() implies simpler(
            #[trigger] new[i],
            #[trigger] new[j],
        ) by {
            if j < pos {
                assert(new[i] == old_pairs[i] && new[j] == old_pairs[j]);
            } else if j == pos {
                assert(new[i] == old_pairs[i]);
            } else if i > pos {
                assert(new[i] == old_pairs[i - 1] && new[j] == old_pairs[j - 1]);
            } else if i == pos {
                assert(new[j] == old_pairs[j - 1]);
                assert(simpler(p, old_pairs[pos as int]));
            } else {
                assert(new[i] == old_pairs[i] && new[j] == old_pairs[j - 1]);
            }
        }
    }
}

/// `(numerator_degree, denominator_degree)` pairs ordered simplest-first: by
/// total degree, then fewer denominator terms, then fewer numerator terms. Every
/// degree pair the rational search may try occurs exactly once.
pub fn degree_pairs() -> (pairs: Vec<(usize, usize)>)
    ensures
        pairs@.len() == (MAX_NUM_DEGREE + 1) * MAX_DEN_DEGREE,
        forall|i: int| 0 <= i < pairs@.len() ==> is_degree_pair(#[trigger] pairs@[i]),
        forall|p: (usize, usize)| is_degree_pair(p) ==> #[trigger] pairs@.contains(p),
        forall|i: int, j: int|
            0 <= i < j < pairs@.len() ==> simpler(#[trigger] pairs@[i], #[trigger] pairs@[j]),
{
    let mut pairs: Vec<(usize, usize)> = Vec::new();
    let mut num: usize = 0;
    while num <= MAX_NUM_DEGREE
        invariant
            num <= MAX_NUM_DEGREE + 1,
            pairs@.len() == num * MAX_DEN_DEGREE,
            forall|i: int| 0 <= i < pairs@.len() ==> is_degree_pair(#[trigger] pairs@[i]),
            forall|q: (usize, usize)|
                #[trigger] pairs@.contains(q) <==> (is_degree_pair(q) && q.0 < num),
            forall|i: int, j: int|
                0 <= i < j < pairs@.len() ==> simpler(#[trigger] pairs@[i], #[trigger] pairs@[j]),
        decreases MAX_NUM_DEGREE + 1 - num,
    {
        let mut den: usize = 1;
        while den <= MAX_DEN_DEGREE
            invariant
                num <= MAX_NUM_DEGREE,
                1 <= den <= MAX_DEN_DEGREE + 1,
                pairs@.len() == num * MAX_DEN_DEGREE + den - 1,
                forall|i: int| 0 <= i < pairs@.len() ==> is_degree_pair(#[trigger] pairs@[i]),
                forall|q: (usize, usize)|
                    #[trigger] pairs@.contains(q) <==> (is_degree_pair(q) && (q.0 < num || (q.0
                        == num && q.1 < den))),
                forall|i: int, j: int|
                    0 <= i < j < pairs@.len() ==> simpler(
                        #[trigger] pairs@[i],
                        #[trigger] pairs@[j],
                    ),
            decreases MAX_DEN_DEGREE + 1 - den,
        {
            assert(!pairs@.contains((num, den)));
            insert_in_order(&mut pairs, (num, den));
            den = den + 1;
        }
        num = num + 1;
    }
    pairs
}

/// A "pretty" function is a handful of terms, not a dense combination: the
/// most dictionary terms a basis fit may use.
pub const MAX_TERMS: usize = 3;

/// The largest basis-subset size worth fitting to `points` samples when
/// `usable` dictionary entries are usable: at most `MAX_TERMS`, at most the
/// usable entries, and always one fewer than the points. A clean fit is only
/// evidence of a shape with at least one residual degree of freedom: `n` points
/// pass exactly through any `n`-term basis.
pub fn max_basis_terms(usable: usize, points: usize) -> (m: usize)
    ensures
        m == vstd::math::min(
            vstd::math::min(MAX_TERMS as int, usable as int),
            if points == 0 {
                0
            } else {
                points - 1
            },
        ),
        m + 1 <= points || m == 0,
{
    let mut m = MAX_TERMS;
    if usable < m {
        m = usable;
    }
    let residual = if points == 0 {
        0
    } else {
        points - 1
    };
    if residual < m {
        m = residual;
    }
    m
}

/// Whether a rational of degrees `num_deg / den_deg` may be fitted to `points`
/// samples: only with more points than its `num_deg + den_deg + 2`
/// coefficients, so the fit cannot simply thread the points.
pub fn rational_has_evidence(num_deg: usize, den_deg: usize, points: usize) -> (ok: bool)
    requires
        num_deg <= MAX_NUM_DEGREE,
        den_deg <= MAX_DEN_DEGREE,
    ensures
        ok == (points > num_deg + den_deg + 2),
{
    let cols = num_deg + 1 + den_deg + 1;
    points > cols
}

} // verus!
