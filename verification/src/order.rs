//! The order of texts and of rows of texts, and sorting that keeps equals in place.

use crate::natural::Relation;
use crate::text::chars_of;
use vstd::prelude::*;

verus! {

/// How two texts compare, character by character.
pub open spec fn text_relation(a: Seq<char>, b: Seq<char>) -> Relation
    decreases a.len(),
{
    if a.len() == 0 && b.len() == 0 {
        Relation::Same
    } else if a.len() == 0 {
        Relation::Below
    } else if b.len() == 0 {
        Relation::Above
    } else if a[0] < b[0] {
        Relation::Below
    } else if a[0] > b[0] {
        Relation::Above
    } else {
        text_relation(a.skip(1), b.skip(1))
    }
}

/// How two rows of texts compare, text by text.
pub open spec fn row_relation(a: Seq<Seq<char>>, b: Seq<Seq<char>>) -> Relation
    decreases a.len(),
{
    if a.len() == 0 && b.len() == 0 {
        Relation::Same
    } else if a.len() == 0 {
        Relation::Below
    } else if b.len() == 0 {
        Relation::Above
    } else {
        match text_relation(a[0], b[0]) {
            Relation::Same => row_relation(a.skip(1), b.skip(1)),
            other => other,
        }
    }
}

/// The relation seen from the other side.
pub open spec fn mirrored(r: Relation) -> Relation {
    match r {
        Relation::Below => Relation::Above,
        Relation::Same => Relation::Same,
        Relation::Above => Relation::Below,
    }
}

/// Texts compare as the same exactly where they are equal, and the order has two sides.
pub proof fn lemma_text_relation(a: Seq<char>, b: Seq<char>)
    ensures
        text_relation(b, a) == mirrored(text_relation(a, b)),
        text_relation(a, b) == Relation::Same <==> a == b,
    decreases a.len(),
{
    if a.len() > 0 && b.len() > 0 {
        lemma_text_relation(a.skip(1), b.skip(1));
        if a[0] == b[0] && a.skip(1) == b.skip(1) {
            assert(a =~= seq![a[0]] + a.skip(1));
            assert(b =~= seq![b[0]] + b.skip(1));
        }
    } else {
        assert(a.len() == 0 && b.len() == 0 ==> a =~= b);
    }
}

/// The order of texts is transitive.
pub proof fn lemma_text_transitive(a: Seq<char>, b: Seq<char>, c: Seq<char>)
    requires
        text_relation(a, b) != Relation::Above,
        text_relation(b, c) != Relation::Above,
    ensures
        text_relation(a, c) != Relation::Above,
        text_relation(a, c) == Relation::Same ==> text_relation(a, b) == Relation::Same
            && text_relation(b, c) == Relation::Same,
    decreases a.len(),
{
    if a.len() > 0 && b.len() > 0 && c.len() > 0 {
        if a[0] == b[0] && b[0] == c[0] {
            lemma_text_transitive(a.skip(1), b.skip(1), c.skip(1));
        }
    }
}

/// Rows compare as the same exactly where they are equal, and the order has two sides.
pub proof fn lemma_row_relation(a: Seq<Seq<char>>, b: Seq<Seq<char>>)
    ensures
        row_relation(b, a) == mirrored(row_relation(a, b)),
        row_relation(a, b) == Relation::Same <==> a == b,
    decreases a.len(),
{
    if a.len() > 0 && b.len() > 0 {
        lemma_text_relation(a[0], b[0]);
        lemma_row_relation(a.skip(1), b.skip(1));
        if a[0] == b[0] && a.skip(1) == b.skip(1) {
            assert(a =~= seq![a[0]] + a.skip(1));
            assert(b =~= seq![b[0]] + b.skip(1));
        }
    } else {
        assert(a.len() == 0 && b.len() == 0 ==> a =~= b);
    }
}

/// The order of rows is transitive.
pub proof fn lemma_row_transitive(a: Seq<Seq<char>>, b: Seq<Seq<char>>, c: Seq<Seq<char>>)
    requires
        row_relation(a, b) != Relation::Above,
        row_relation(b, c) != Relation::Above,
    ensures
        row_relation(a, c) != Relation::Above,
    decreases a.len(),
{
    if a.len() > 0 && b.len() > 0 && c.len() > 0 {
        lemma_text_transitive(a[0], b[0], c[0]);
        lemma_text_relation(a[0], b[0]);
        lemma_text_relation(b[0], c[0]);
        lemma_text_relation(a[0], c[0]);
        if text_relation(a[0], b[0]) == Relation::Same && text_relation(b[0], c[0])
            == Relation::Same {
            lemma_row_transitive(a.skip(1), b.skip(1), c.skip(1));
        }
    }
}

/// How two texts compare.
pub fn compare_texts(a: &str, b: &str) -> (r: Relation)
    ensures
        r == text_relation(a@, b@),
{
    let v = chars_of(a);
    let w = chars_of(b);
    let mut i: usize = 0;
    assert(v@.skip(0) =~= v@ && w@.skip(0) =~= w@);
    while i < v.len() && i < w.len()
        invariant
            v@ == a@,
            w@ == b@,
            i <= v@.len(),
            i <= w@.len(),
            text_relation(a@, b@) == text_relation(v@.skip(i as int), w@.skip(i as int)),
        decreases v@.len() - i,
    {
        if v[i] < w[i] {
            return Relation::Below;
        }
        if v[i] > w[i] {
            return Relation::Above;
        }
        assert(v@.skip(i as int).skip(1) =~= v@.skip(i + 1));
        assert(w@.skip(i as int).skip(1) =~= w@.skip(i + 1));
        i = i + 1;
    }
    if i < v.len() {
        Relation::Above
    } else if i < w.len() {
        Relation::Below
    } else {
        Relation::Same
    }
}

/// How two rows of texts compare.
pub fn compare_rows(a: &Vec<String>, b: &Vec<String>) -> (r: Relation)
    ensures
        r == row_relation(a.deep_view(), b.deep_view()),
{
    let ghost v = a.deep_view();
    let ghost w = b.deep_view();
    let mut i: usize = 0;
    assert(v.skip(0) =~= v && w.skip(0) =~= w);
    while i < a.len() && i < b.len()
        invariant
            v == a.deep_view(),
            w == b.deep_view(),
            i <= v.len(),
            i <= w.len(),
            row_relation(v, w) == row_relation(v.skip(i as int), w.skip(i as int)),
        decreases v.len() - i,
    {
        assert(v.skip(i as int)[0] == a@[i as int]@);
        assert(w.skip(i as int)[0] == b@[i as int]@);
        match compare_texts(a[i].as_str(), b[i].as_str()) {
            Relation::Below => {
                return Relation::Below;
            },
            Relation::Above => {
                return Relation::Above;
            },
            Relation::Same => {},
        }
        assert(v.skip(i as int).skip(1) =~= v.skip(i + 1));
        assert(w.skip(i as int).skip(1) =~= w.skip(i + 1));
        i = i + 1;
    }
    if i < a.len() {
        Relation::Above
    } else if i < b.len() {
        Relation::Below
    } else {
        Relation::Same
    }
}

/// Whether the order `le` of positions is total and transitive.
pub open spec fn is_order(le: spec_fn(int, int) -> bool) -> bool {
    &&& forall|a: int, b: int| #[trigger] le(a, b) || le(b, a)
    &&& forall|a: int, b: int, c: int| #[trigger] le(a, b) && #[trigger] le(b, c) ==> le(a, c)
}

/// Whether position `a` comes before position `b`: it is below, or it stands first among equals.
pub open spec fn precedes(le: spec_fn(int, int) -> bool, a: int, b: int) -> bool {
    le(a, b) && (a < b || !le(b, a))
}

/// Whether `r` lists the positions below `n`, each once, sorted by `le` with equals in place.
pub open spec fn is_stable_order(r: Seq<usize>, n: nat, le: spec_fn(int, int) -> bool) -> bool {
    &&& r.len() == n
    &&& forall|i: int| 0 <= i < n ==> #[trigger] r[i] < n
    &&& forall|i: int, j: int|
        0 <= i < j < n ==> precedes(le, #[trigger] r[i] as int, #[trigger] r[j] as int)
}

/// Every position is listed.
pub proof fn lemma_stable_order_lists_all(
    r: Seq<usize>,
    n: nat,
    le: spec_fn(int, int) -> bool,
    k: int,
)
    requires
        is_stable_order(r, n, le),
        0 <= k < n,
    ensures
        exists|i: int| 0 <= i < n && r[i] == k,
{
    let s = r.map_values(|x: usize| x as int);
    assert(s.no_duplicates()) by {
        assert forall|i: int, j: int| 0 <= i < s.len() && 0 <= j < s.len() && i != j implies s[i]
            != s[j] by {
            if i < j {
                assert(precedes(le, r[i] as int, r[j] as int));
            } else {
                assert(precedes(le, r[j] as int, r[i] as int));
            }
        }
    }
    s.unique_seq_to_set();
    let all = vstd::set_lib::set_int_range(0, n as int);
    vstd::set_lib::lemma_int_range(0, n as int);
    assert(s.to_set().subset_of(all)) by {
        assert forall|x: int| s.to_set().contains(x) implies all.contains(x) by {
            let i = choose|i: int| 0 <= i < s.len() && s[i] == x;
            assert(r[i] < n);
        }
    }
    vstd::set_lib::lemma_subset_equality(s.to_set(), all);
    assert(s.to_set().contains(k));
}

/// There is one way to sort with equals in place.
pub proof fn lemma_stable_order_unique(
    r: Seq<usize>,
    s: Seq<usize>,
    n: nat,
    le: spec_fn(int, int) -> bool,
)
    requires
        is_stable_order(r, n, le),
        is_stable_order(s, n, le),
    ensures
        r == s,
{
    assert forall|i: int| 0 <= i < n implies r[i] == s[i] by {
        lemma_same_position(r, s, n, le, i);
    }
    assert(r =~= s);
}

proof fn lemma_same_position(
    r: Seq<usize>,
    s: Seq<usize>,
    n: nat,
    le: spec_fn(int, int) -> bool,
    i: int,
)
    requires
        is_stable_order(r, n, le),
        is_stable_order(s, n, le),
        0 <= i < n,
    ensures
        forall|j: int| 0 <= j <= i ==> r[j] == s[j],
    decreases i,
{
    if i > 0 {
        lemma_same_position(r, s, n, le, i - 1);
    }
    if r[i] != s[i] {
        assert(r[i] < n && s[i] < n);
        lemma_stable_order_lists_all(s, n, le, r[i] as int);
        lemma_stable_order_lists_all(r, n, le, s[i] as int);
        let j = choose|j: int| 0 <= j < n && s[j] == r[i];
        let k = choose|k: int| 0 <= k < n && r[k] == s[i];
        if j < i {
            assert(precedes(le, r[j] as int, r[i] as int));
        }
        if k < i {
            assert(precedes(le, s[k] as int, s[i] as int));
        }
        assert(precedes(le, s[i] as int, s[j] as int));
        assert(precedes(le, r[i] as int, r[k] as int));
    }
}

/// The positions below `n`, sorted by `le` with equals in place.
pub open spec fn stable_order(n: nat, le: spec_fn(int, int) -> bool) -> Seq<usize> {
    choose|r: Seq<usize>| is_stable_order(r, n, le)
}

/// The elements of `s` at the positions `r`.
pub open spec fn picked<A>(s: Seq<A>, r: Seq<usize>) -> Seq<A> {
    Seq::new(r.len(), |i: int| s[r[i] as int])
}

/// Sorted positions stay sorted when the next position is put behind all that it is not below.
pub proof fn lemma_insert_position(
    r: Seq<usize>,
    n: usize,
    p: int,
    le: spec_fn(int, int) -> bool,
)
    requires
        is_order(le),
        is_stable_order(r, n as nat, le),
        n < usize::MAX,
        0 <= p <= n,
        p > 0 ==> le(r[p - 1] as int, n as int),
        p < n ==> !le(r[p] as int, n as int),
    ensures
        is_stable_order(r.insert(p, n), (n + 1) as nat, le),
{
    let s = r.insert(p, n);
    assert forall|i: int, j: int| 0 <= i < j < n + 1 implies precedes(
        le,
        #[trigger] s[i] as int,
        #[trigger] s[j] as int,
    ) by {
        let k = n as int;
        if i == p {
            // `n` before what stood at `j - 1`.
            let x = r[j - 1] as int;
            let y = r[p] as int;
            if j - 1 > p {
                assert(precedes(le, r[p] as int, r[j - 1] as int));
            } else {
                assert(le(y, y) || le(y, y));
            }
            assert(le(y, x));
            assert(le(k, y) || le(y, k));
            assert(le(k, y) && le(y, x));
            if le(x, k) {
                assert(le(y, x) && le(x, k));
            }
        } else if j == p {
            let x = r[i] as int;
            let y = r[p - 1] as int;
            if i < p - 1 {
                assert(precedes(le, r[i] as int, r[p - 1] as int));
            } else {
                assert(le(x, x) || le(x, x));
            }
            assert(le(x, y) && le(y, k));
            assert(r[i] < n);
        } else {
            let a = if i < p {
                i
            } else {
                i - 1
            };
            let b = if j < p {
                j
            } else {
                j - 1
            };
            assert(s[i] == r[a]);
            assert(s[j] == r[b]);
            assert(precedes(le, r[a] as int, r[b] as int));
        }
    }
    assert forall|i: int| 0 <= i < n + 1 implies #[trigger] s[i] < n + 1 by {
        if i < p {
            assert(r[i] < n);
        } else if i > p {
            assert(r[i - 1] < n);
        }
    }
}

/// Positions can be sorted by any order.
pub proof fn lemma_stable_order_exists(n: usize, le: spec_fn(int, int) -> bool)
    requires
        is_order(le),
    ensures
        is_stable_order(stable_order(n as nat, le), n as nat, le),
    decreases n,
{
    if n == 0 {
        assert(is_stable_order(Seq::<usize>::empty(), 0, le));
    } else {
        let m = (n - 1) as usize;
        lemma_stable_order_exists(m, le);
        let r = stable_order(m as nat, le);
        lemma_insert_place(r, m, m as int, le);
    }
}

/// The next position has a place among the sorted ones, at or before `p`.
proof fn lemma_insert_place(r: Seq<usize>, n: usize, p: int, le: spec_fn(int, int) -> bool)
    requires
        is_order(le),
        is_stable_order(r, n as nat, le),
        n < usize::MAX,
        0 <= p <= n,
        p < n ==> !le(r[p] as int, n as int),
    ensures
        is_stable_order(stable_order((n + 1) as nat, le), (n + 1) as nat, le),
    decreases p,
{
    if p > 0 && !le(r[p - 1] as int, n as int) {
        lemma_insert_place(r, n, p - 1, le);
    } else {
        lemma_insert_position(r, n, p, le);
        let m = (n + 1) as nat;
        assert(is_stable_order(r.insert(p, n), m, le));
    }
}

/// The order of positions by the rank that stands there.
pub open spec fn rank_order(ranks: Seq<usize>) -> spec_fn(int, int) -> bool {
    |a: int, b: int| ranks[a] <= ranks[b]
}

/// The order of positions by the number that stands there.
pub open spec fn number_order(numbers: Seq<u64>) -> spec_fn(int, int) -> bool {
    |a: int, b: int| numbers[a] <= numbers[b]
}

/// The positions of `numbers`, sorted by number with equals in place.
pub fn sort_by_number(numbers: &Vec<u64>) -> (r: Vec<usize>)
    ensures
        is_stable_order(r@, numbers@.len(), number_order(numbers@)),
{
    let ghost le = number_order(numbers@);
    let mut out: Vec<usize> = Vec::new();
    let n: usize = numbers.len();
    let mut k: usize = 0;
    while k < n
        invariant
            n == numbers@.len(),
            k <= n,
            le == number_order(numbers@),
            is_stable_order(out@, k as nat, le),
        decreases n - k,
    {
        let mut p: usize = k;
        while p > 0 && numbers[out[p - 1]] > numbers[k]
            invariant
                n == numbers@.len(),
                k < n,
                p <= k,
                le == number_order(numbers@),
                is_stable_order(out@, k as nat, le),
                p < k ==> !le(out@[p as int] as int, k as int),
            decreases p,
        {
            p = p - 1;
        }
        proof {
            lemma_insert_position(out@, k, p as int, le);
        }
        out.insert(p, k);
        k = k + 1;
    }
    out
}

/// The positions of `ranks`, sorted by rank with equals in place.
pub fn sort_by_rank(ranks: &Vec<usize>) -> (r: Vec<usize>)
    ensures
        is_stable_order(r@, ranks@.len(), rank_order(ranks@)),
{
    let mut numbers: Vec<u64> = Vec::new();
    let n: usize = ranks.len();
    for i in 0..n
        invariant
            n == ranks@.len(),
            numbers@.len() == i,
            forall|k: int| 0 <= k < i ==> #[trigger] numbers@[k] == ranks@[k],
    {
        numbers.push(ranks[i] as u64);
    }
    let r = sort_by_number(&numbers);
    assert(is_stable_order(r@, n as nat, rank_order(ranks@))) by {
        let by_rank = rank_order(ranks@);
        let by_number = number_order(numbers@);
        assert forall|i: int, j: int| 0 <= i < j < n implies precedes(
            by_rank,
            #[trigger] r@[i] as int,
            #[trigger] r@[j] as int,
        ) by {
            assert(precedes(by_number, r@[i] as int, r@[j] as int));
        }
    }
    r
}

/// The order of positions by the text that stands there.
pub open spec fn text_order(texts: Seq<Seq<char>>) -> spec_fn(int, int) -> bool {
    |a: int, b: int| text_relation(texts[a], texts[b]) != Relation::Above
}

/// The order of texts is an order.
pub proof fn lemma_text_order(texts: Seq<Seq<char>>)
    ensures
        is_order(text_order(texts)),
{
    let le = text_order(texts);
    assert forall|a: int, b: int| #[trigger] le(a, b) || le(b, a) by {
        lemma_text_relation(texts[a], texts[b]);
    }
    assert forall|a: int, b: int, c: int| #[trigger] le(a, b) && #[trigger] le(b, c) implies le(
        a,
        c,
    ) by {
        lemma_text_transitive(texts[a], texts[b], texts[c]);
    }
}

/// The positions of `texts`, sorted by text with equals in place.
pub fn sort_by_text(texts: &Vec<String>) -> (r: Vec<usize>)
    ensures
        is_stable_order(r@, texts@.len(), text_order(texts.deep_view())),
        r@ == stable_order(texts@.len(), text_order(texts.deep_view())),
{
    let ghost le = text_order(texts.deep_view());
    proof {
        lemma_text_order(texts.deep_view());
    }
    let mut out: Vec<usize> = Vec::new();
    let n: usize = texts.len();
    let mut k: usize = 0;
    while k < n
        invariant
            n == texts@.len(),
            k <= n,
            le == text_order(texts.deep_view()),
            is_order(le),
            is_stable_order(out@, k as nat, le),
        decreases n - k,
    {
        let mut p: usize = k;
        while p > 0
            invariant_except_break
                p < k ==> !le(out@[p as int] as int, k as int),
            invariant
                n == texts@.len(),
                k < n,
                p <= k,
                le == text_order(texts.deep_view()),
                is_stable_order(out@, k as nat, le),
            ensures
                p < k ==> !le(out@[p as int] as int, k as int),
                p > 0 ==> le(out@[p - 1] as int, k as int),
            decreases p,
        {
            let q: usize = out[p - 1];
            assert(texts.deep_view()[q as int] == texts@[q as int]@);
            assert(texts.deep_view()[k as int] == texts@[k as int]@);
            match compare_texts(texts[q].as_str(), texts[k].as_str()) {
                Relation::Above => {
                    p = p - 1;
                },
                _ => {
                    break ;
                },
            }
        }
        proof {
            lemma_insert_position(out@, k, p as int, le);
        }
        out.insert(p, k);
        k = k + 1;
    }
    proof {
        lemma_stable_order_exists(n, le);
        lemma_stable_order_unique(out@, stable_order(n as nat, le), n as nat, le);
    }
    out
}

/// The order of positions by the row of texts that stands there.
pub open spec fn row_order(rows: Seq<Seq<Seq<char>>>) -> spec_fn(int, int) -> bool {
    |a: int, b: int| row_relation(rows[a], rows[b]) != Relation::Above
}

/// The order of rows is an order.
pub proof fn lemma_row_order(rows: Seq<Seq<Seq<char>>>)
    ensures
        is_order(row_order(rows)),
{
    let le = row_order(rows);
    assert forall|a: int, b: int| #[trigger] le(a, b) || le(b, a) by {
        lemma_row_relation(rows[a], rows[b]);
    }
    assert forall|a: int, b: int, c: int| #[trigger] le(a, b) && #[trigger] le(b, c) implies le(
        a,
        c,
    ) by {
        lemma_row_transitive(rows[a], rows[b], rows[c]);
    }
}

/// The positions of `rows`, sorted by row with equals in place.
pub fn sort_by_row(rows: &Vec<Vec<String>>) -> (r: Vec<usize>)
    ensures
        is_stable_order(r@, rows@.len(), row_order(rows.deep_view())),
{
    let ghost le = row_order(rows.deep_view());
    proof {
        lemma_row_order(rows.deep_view());
    }
    let mut out: Vec<usize> = Vec::new();
    let n: usize = rows.len();
    let mut k: usize = 0;
    while k < n
        invariant
            n == rows@.len(),
            k <= n,
            le == row_order(rows.deep_view()),
            is_order(le),
            is_stable_order(out@, k as nat, le),
        decreases n - k,
    {
        let mut p: usize = k;
        while p > 0
            invariant_except_break
                p < k ==> !le(out@[p as int] as int, k as int),
            invariant
                n == rows@.len(),
                k < n,
                p <= k,
                le == row_order(rows.deep_view()),
                is_stable_order(out@, k as nat, le),
            ensures
                p < k ==> !le(out@[p as int] as int, k as int),
                p > 0 ==> le(out@[p - 1] as int, k as int),
            decreases p,
        {
            let q: usize = out[p - 1];
            assert(rows.deep_view()[q as int] == rows@[q as int].deep_view());
            assert(rows.deep_view()[k as int] == rows@[k as int].deep_view());
            match compare_rows(&rows[q], &rows[k]) {
                Relation::Above => {
                    p = p - 1;
                },
                _ => {
                    break ;
                },
            }
        }
        proof {
            lemma_insert_position(out@, k, p as int, le);
        }
        out.insert(p, k);
        k = k + 1;
    }
    out
}

} // verus!
