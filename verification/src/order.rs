//! Canonical key-enumeration order.
//!
//! An ordinary object of the target scripting runtime enumerates its own
//! string keys with the ones that parse as a non-negative base-10 integer
//! first, in ascending numeric order, and all remaining keys after them in
//! insertion order.  Query results tie-break by this order, so it is
//! reproduced here exactly: a pragmatic decimal parse (an optional leading
//! plus sign, then digits, leading zeros allowed, values beyond the native
//! word refused) and a stable sort by numeric value.

use vstd::prelude::*;

verus! {

/// A decimal digit.
pub open spec fn spec_is_digit(c: char) -> bool {
    0x30 <= c as u32 <= 0x39
}

/// The value of a decimal digit.
pub open spec fn digit_value(c: char) -> int {
    c as u32 - 0x30
}

/// The value of a sequence of decimal digits, most significant first.
pub open spec fn digits_value(s: Seq<char>) -> int
    decreases s.len(),
{
    if s.len() == 0 {
        0
    } else {
        digits_value(s.drop_last()) * 10 + digit_value(s.last())
    }
}

/// A key with its optional leading `+` removed.
pub open spec fn index_body(s: Seq<char>) -> Seq<char> {
    if s.len() > 0 && s[0] == '+' {
        s.drop_first()
    } else {
        s
    }
}

/// The numeric value of a key that parses as a non-negative decimal
/// integer: an optional leading `+`, then at least one digit, with the
/// value fitting the native word; anything else is no index.
pub open spec fn parse_as_index(s: Seq<char>) -> Option<int> {
    if index_body(s).len() > 0 && (forall|i: int|
        0 <= i < index_body(s).len() ==> spec_is_digit(#[trigger] index_body(s)[i]))
        && digits_value(index_body(s)) <= usize::MAX {
        Some(digits_value(index_body(s)))
    } else {
        None
    }
}

proof fn lemma_digits_value_take_succ(s: Seq<char>, i: int)
    requires
        0 <= i < s.len(),
    ensures
        digits_value(s.take(i + 1)) == digits_value(s.take(i)) * 10 + digit_value(s[i]),
{
    assert(s.take(i + 1).drop_last() =~= s.take(i));
    assert(s.take(i + 1).last() == s[i]);
}

proof fn lemma_digits_value_nonneg(s: Seq<char>)
    requires
        forall|i: int| 0 <= i < s.len() ==> spec_is_digit(#[trigger] s[i]),
    ensures
        digits_value(s) >= 0,
    decreases s.len(),
{
    if s.len() > 0 {
        lemma_digits_value_nonneg(s.drop_last());
    }
}

/// Appending further digits can only grow the value.
proof fn lemma_digits_value_monotone(s: Seq<char>, i: int)
    requires
        0 <= i <= s.len(),
        forall|j: int| 0 <= j < s.len() ==> spec_is_digit(#[trigger] s[j]),
    ensures
        digits_value(s.take(i)) <= digits_value(s),
    decreases s.len() - i,
{
    if i < s.len() {
        lemma_digits_value_take_succ(s, i);
        assert forall|j: int| 0 <= j < s.take(i).len() implies spec_is_digit(
            #[trigger] s.take(i)[j],
        ) by {
            assert(s.take(i)[j] == s[j]);
        }
        lemma_digits_value_nonneg(s.take(i));
        lemma_digits_value_monotone(s, i + 1);
    } else {
        assert(s.take(i) =~= s);
    }
}

/// Parse a key as the runtime's pragmatic non-negative decimal index.
pub fn parse_index(s: &Vec<char>) -> (r: Option<usize>)
    ensures
        match r {
            Some(v) => parse_as_index(s@) == Some(v as int),
            None => parse_as_index(s@) is None,
        },
{
    let n = s.len();
    let start: usize = if n > 0 && s[0] == '+' {
        1
    } else {
        0
    };
    let ghost body = index_body(s@);
    proof {
        assert(body =~= s@.skip(start as int));
    }
    if n == start {
        return None;
    }
    let mut i: usize = start;
    let mut acc: usize = 0;
    while i < n
        invariant
            start <= i <= n,
            n == s@.len(),
            body == index_body(s@),
            body == s@.skip(start as int),
            body.len() == n - start,
            forall|j: int| 0 <= j < i - start ==> spec_is_digit(#[trigger] body[j]),
            acc == digits_value(body.take(i - start)),
        decreases n - i,
    {
        let c = s[i];
        let u = c as u32;
        if !(0x30 <= u && u <= 0x39) {
            proof {
                assert(body[i - start] == s@[i as int]);
                assert(!(forall|j: int| 0 <= j < body.len() ==> spec_is_digit(#[trigger] body[j])))
                    by {
                    assert(0 <= i - start < body.len() && !spec_is_digit(body[i - start]));
                }
            }
            return None;
        }
        let d = (u - 0x30) as usize;
        proof {
            assert(body[i - start] == s@[i as int]);
            lemma_digits_value_take_succ(body, i - start);
        }
        if acc > (usize::MAX - d) / 10 {
            proof {
                assert(acc * 10 + d > usize::MAX) by (nonlinear_arith)
                    requires
                        acc > (usize::MAX - d) / 10 && d <= 9,
                ;
                if forall|j: int| 0 <= j < body.len() ==> spec_is_digit(#[trigger] body[j]) {
                    lemma_digits_value_monotone(body, i - start + 1);
                    assert(digits_value(body) > usize::MAX);
                }
            }
            return None;
        }
        acc = acc * 10 + d;
        i = i + 1;
    }
    proof {
        assert(body.take(n - start) =~= body);
    }
    Some(acc)
}

/// Insert a pair into a run of pairs, after every pair whose first
/// component is no greater.
pub open spec fn insert_pair<T>(x: (int, T), s: Seq<(int, T)>) -> Seq<(int, T)>
    decreases s.len(),
{
    if s.len() == 0 {
        seq![x]
    } else if s[0].0 <= x.0 {
        seq![s[0]] + insert_pair(x, s.drop_first())
    } else {
        seq![x] + s
    }
}

/// Stable sort of pairs by their first component: each pair in turn is
/// placed after the pairs with an equal or smaller first component, so
/// pairs with equal first components keep their original order.
pub open spec fn sort_pairs<T>(s: Seq<(int, T)>) -> Seq<(int, T)>
    decreases s.len(),
{
    if s.len() == 0 {
        s
    } else {
        insert_pair(s.last(), sort_pairs(s.drop_last()))
    }
}

/// Inserting at the first position whose pair is strictly greater is what
/// `insert_pair` does.
proof fn lemma_insert_pair_at<T>(x: (int, T), s: Seq<(int, T)>, k: int)
    requires
        0 <= k <= s.len(),
        forall|j: int| 0 <= j < k ==> (#[trigger] s[j]).0 <= x.0,
        k < s.len() ==> s[k].0 > x.0,
    ensures
        insert_pair(x, s) == s.take(k) + seq![x] + s.skip(k),
    decreases s.len(),
{
    if s.len() == 0 {
        assert(insert_pair(x, s) =~= s.take(k) + seq![x] + s.skip(k));
    } else if k == 0 {
        assert(s[0].0 > x.0);
        assert(insert_pair(x, s) =~= s.take(0) + seq![x] + s.skip(0));
    } else {
        assert(s[0].0 <= x.0);
        let t = s.drop_first();
        assert forall|j: int| 0 <= j < k - 1 implies (#[trigger] t[j]).0 <= x.0 by {
            assert(t[j] == s[j + 1]);
        }
        if k - 1 < t.len() {
            assert(t[k - 1] == s[k]);
        }
        lemma_insert_pair_at(x, t, k - 1);
        assert(insert_pair(x, s) =~= s.take(k) + seq![x] + s.skip(k));
    }
}

pub proof fn lemma_insert_pair_len<T>(x: (int, T), s: Seq<(int, T)>)
    ensures
        insert_pair(x, s).len() == s.len() + 1,
    decreases s.len(),
{
    if s.len() > 0 && s[0].0 <= x.0 {
        lemma_insert_pair_len(x, s.drop_first());
    }
}

pub proof fn lemma_sort_pairs_len<T>(s: Seq<(int, T)>)
    ensures
        sort_pairs(s).len() == s.len(),
    decreases s.len(),
{
    if s.len() > 0 {
        lemma_sort_pairs_len(s.drop_last());
        lemma_insert_pair_len(s.last(), sort_pairs(s.drop_last()));
    }
}

pub proof fn lemma_insert_pair_multiset<T>(x: (int, T), s: Seq<(int, T)>)
    ensures
        insert_pair(x, s).to_multiset() == s.to_multiset().insert(x),
    decreases s.len(),
{
    broadcast use vstd::seq_lib::group_seq_properties;

    if s.len() == 0 {
        assert(insert_pair(x, s) =~= Seq::<(int, T)>::empty().push(x));
        assert(Seq::<(int, T)>::empty().push(x).to_multiset() == s.to_multiset().insert(x));
    } else if s[0].0 <= x.0 {
        lemma_insert_pair_multiset(x, s.drop_first());
        assert(insert_pair(x, s) =~= seq![s[0]] + insert_pair(x, s.drop_first()));
        assert(seq![s[0]] + insert_pair(x, s.drop_first()) =~= insert_pair(
            x,
            s.drop_first(),
        ).insert(0, s[0]));
        assert(insert_pair(x, s.drop_first()).insert(0, s[0]).to_multiset() == insert_pair(
            x,
            s.drop_first(),
        ).to_multiset().insert(s[0]));
        assert(s =~= s.drop_first().insert(0, s[0]));
        assert(s.to_multiset() == s.drop_first().to_multiset().insert(s[0]));
    } else {
        assert(insert_pair(x, s) =~= s.insert(0, x));
        assert(s.insert(0, x).to_multiset() == s.to_multiset().insert(x));
    }
}

/// THE LAW OF SORTING.  The stable sort returns a permutation of its
/// input whose first components ascend.
pub proof fn lemma_sort_pairs_permutation<T>(s: Seq<(int, T)>)
    ensures
        sort_pairs(s).to_multiset() == s.to_multiset(),
        sort_pairs(s).len() == s.len(),
    decreases s.len(),
{
    broadcast use vstd::seq_lib::group_seq_properties;

    lemma_sort_pairs_len(s);
    if s.len() > 0 {
        lemma_sort_pairs_permutation(s.drop_last());
        lemma_insert_pair_multiset(s.last(), sort_pairs(s.drop_last()));
        assert(s =~= s.drop_last().push(s.last()));
        assert(s.drop_last().push(s.last()).to_multiset() == s.drop_last().to_multiset().insert(
            s.last(),
        ));
    }
}

proof fn lemma_insert_pair_sorted<T>(x: (int, T), s: Seq<(int, T)>)
    requires
        forall|i: int, j: int| 0 <= i <= j < s.len() ==> (#[trigger] s[i]).0 <= (#[trigger] s[j]).0,
    ensures
        forall|i: int, j: int|
            0 <= i <= j < insert_pair(x, s).len() ==> (#[trigger] insert_pair(x, s)[i]).0 <= (
            #[trigger] insert_pair(x, s)[j]).0,
    decreases s.len(),
{
    if s.len() == 0 {
    } else if s[0].0 <= x.0 {
        let t = s.drop_first();
        assert forall|i: int, j: int| 0 <= i <= j < t.len() implies (#[trigger] t[i]).0 <= (
        #[trigger] t[j]).0 by {
            assert(t[i] == s[i + 1] && t[j] == s[j + 1]);
        }
        lemma_insert_pair_sorted(x, t);
        let r = insert_pair(x, s);
        lemma_insert_pair_len(x, t);
        assert forall|i: int, j: int| 0 <= i <= j < r.len() implies (#[trigger] r[i]).0 <= (
        #[trigger] r[j]).0 by {
            if i == 0 && j > 0 {
                let rt = insert_pair(x, t);
                assert(r[j] == rt[j - 1]);
                if rt[j - 1].0 < s[0].0 {
                    assert(rt.to_multiset().contains(rt[j - 1])) by {
                        broadcast use vstd::seq_lib::group_seq_properties;

                    }
                    lemma_insert_pair_multiset(x, t);
                    if rt[j - 1] == x {
                        assert(s[0].0 <= x.0);
                    } else {
                        assert(t.to_multiset().contains(rt[j - 1])) by {
                            broadcast use vstd::multiset::group_multiset_axioms;

                        }
                        let w = choose|w: int| 0 <= w < t.len() && t[w] == rt[j - 1];
                        assert(t.to_multiset().contains(rt[j - 1]) ==> exists|w: int|
                            0 <= w < t.len() && t[w] == rt[j - 1]) by {
                            broadcast use vstd::seq_lib::group_seq_properties;

                        }
                        assert(s[0].0 <= t[w].0);
                    }
                    assert(false);
                }
            } else if i > 0 {
                let rt = insert_pair(x, t);
                assert(r[i] == rt[i - 1] && r[j] == rt[j - 1]);
            }
        }
    } else {
    }
}

/// THE LAW OF SORTED OUTPUT.  The sorted run's first components ascend.
pub proof fn lemma_sort_pairs_sorted<T>(s: Seq<(int, T)>)
    ensures
        forall|i: int, j: int|
            0 <= i <= j < sort_pairs(s).len() ==> (#[trigger] sort_pairs(s)[i]).0 <= (
            #[trigger] sort_pairs(s)[j]).0,
    decreases s.len(),
{
    if s.len() > 0 {
        lemma_sort_pairs_sorted(s.drop_last());
        lemma_insert_pair_sorted(s.last(), sort_pairs(s.drop_last()));
    }
}

/// Mapping the second components commutes with the sort: the sort looks
/// only at the first components.
pub proof fn lemma_insert_pair_map<T, U>(x: (int, T), s: Seq<(int, T)>, f: spec_fn(T) -> U)
    ensures
        insert_pair((x.0, f(x.1)), s.map_values(|p: (int, T)| (p.0, f(p.1)))) == insert_pair(
            x,
            s,
        ).map_values(|p: (int, T)| (p.0, f(p.1))),
    decreases s.len(),
{
    let g = |p: (int, T)| (p.0, f(p.1));
    if s.len() == 0 {
        assert(insert_pair(g(x), s.map_values(g)) =~= insert_pair(x, s).map_values(g));
    } else if s[0].0 <= x.0 {
        lemma_insert_pair_map(x, s.drop_first(), f);
        assert(s.map_values(g).drop_first() =~= s.drop_first().map_values(g));
        assert(insert_pair(g(x), s.map_values(g)) =~= seq![g(s[0])] + insert_pair(
            g(x),
            s.drop_first().map_values(g),
        ));
        assert(insert_pair(x, s).map_values(g) =~= seq![g(s[0])] + insert_pair(
            x,
            s.drop_first(),
        ).map_values(g));
    } else {
        assert(insert_pair(g(x), s.map_values(g)) =~= insert_pair(x, s).map_values(g));
    }
}

pub proof fn lemma_sort_pairs_map<T, U>(s: Seq<(int, T)>, f: spec_fn(T) -> U)
    ensures
        sort_pairs(s.map_values(|p: (int, T)| (p.0, f(p.1)))) == sort_pairs(s).map_values(
            |p: (int, T)| (p.0, f(p.1)),
        ),
    decreases s.len(),
{
    let g = |p: (int, T)| (p.0, f(p.1));
    if s.len() == 0 {
        assert(sort_pairs(s.map_values(g)) =~= sort_pairs(s).map_values(g));
    } else {
        lemma_sort_pairs_map(s.drop_last(), f);
        assert(s.map_values(g).drop_last() =~= s.drop_last().map_values(g));
        assert(s.map_values(g).last() == g(s.last()));
        lemma_insert_pair_map(s.last(), sort_pairs(s.drop_last()), f);
    }
}

/// The pairs of parsed numeric values and their keys, for the keys that
/// parse as indices, in insertion order.
pub open spec fn numeric_pairs(keys: Seq<Seq<char>>) -> Seq<(int, Seq<char>)> {
    keys.filter(|k: Seq<char>| parse_as_index(k) is Some).map_values(
        |k: Seq<char>| (parse_as_index(k)->Some_0, k),
    )
}

/// The canonical enumeration order over `keys`: the keys that parse as
/// non-negative decimal integers first, stably sorted by ascending value,
/// then every other key in insertion order.
pub open spec fn canonical_order(keys: Seq<Seq<char>>) -> Seq<Seq<char>> {
    sort_pairs(numeric_pairs(keys)).map_values(|p: (int, Seq<char>)| p.1) + keys.filter(
        |k: Seq<char>| parse_as_index(k) is None,
    )
}

/// Every key of the canonical order is one of the keys it was built from.
pub proof fn lemma_canonical_order_contains(keys: Seq<Seq<char>>, k: Seq<char>)
    requires
        canonical_order(keys).contains(k),
    ensures
        keys.contains(k),
{
    broadcast use vstd::seq_lib::group_seq_properties;

    let somep = |k: Seq<char>| parse_as_index(k) is Some;
    let nonep = |k: Seq<char>| parse_as_index(k) is None;
    let proj = |p: (int, Seq<char>)| p.1;
    let sorted = sort_pairs(numeric_pairs(keys)).map_values(proj);
    let i = choose|i: int| 0 <= i < canonical_order(keys).len() && canonical_order(keys)[i] == k;
    if i < sorted.len() {
        let p = sort_pairs(numeric_pairs(keys))[i];
        assert(p.1 == k);
        lemma_sort_pairs_permutation(numeric_pairs(keys));
        assert(sort_pairs(numeric_pairs(keys)).to_multiset().contains(p));
        assert(numeric_pairs(keys).contains(p));
        let w = choose|w: int| 0 <= w < numeric_pairs(keys).len() && numeric_pairs(keys)[w] == p;
        let filtered = keys.filter(somep);
        assert(filtered[w] == k);
        assert(filtered.contains(k));
        keys.lemma_filter_contains_rev(somep, k);
    } else {
        assert(canonical_order(keys)[i] == keys.filter(nonep)[i - sorted.len()]);
        assert(keys.filter(nonep).contains(k));
        keys.lemma_filter_contains_rev(nonep, k);
    }
}

/// The integer view of value-and-index pairs.
pub open spec fn pairs_int(s: Seq<(u128, usize)>) -> Seq<(int, usize)> {
    s.map_values(|p: (u128, usize)| (p.0 as int, p.1 as usize))
}

/// Stable insertion sort of value-and-index pairs by ascending value.
pub fn sort_indexed(v: &Vec<(u128, usize)>) -> (r: Vec<(u128, usize)>)
    ensures
        pairs_int(r@) == sort_pairs(pairs_int(v@)),
{
    let mut out: Vec<(u128, usize)> = Vec::new();
    let mut i: usize = 0;
    proof {
        assert(pairs_int(v@.take(0)) =~= Seq::<(int, usize)>::empty());
        assert(pairs_int(out@) =~= sort_pairs(pairs_int(v@.take(0))));
    }
    while i < v.len()
        invariant
            i <= v@.len(),
            out@.len() == i,
            pairs_int(out@) == sort_pairs(pairs_int(v@.take(i as int))),
        decreases v@.len() - i,
    {
        let x = v[i];
        let mut k: usize = 0;
        while k < out.len() && out[k].0 <= x.0
            invariant
                k <= out@.len(),
                forall|j: int| 0 <= j < k ==> (#[trigger] out@[j]).0 <= x.0,
            decreases out@.len() - k,
        {
            k = k + 1;
        }
        let ghost prev = out@;
        out.insert(k, x);
        i = i + 1;
        proof {
            let xi = (x.0 as int, x.1 as usize);
            let s = pairs_int(prev);
            assert forall|j: int| 0 <= j < k implies (#[trigger] s[j]).0 <= xi.0 by {
                assert(s[j].0 == prev[j].0 as int);
            }
            if (k as int) < s.len() {
                assert(s[k as int].0 == prev[k as int].0 as int);
            }
            lemma_insert_pair_at(xi, s, k as int);
            assert(pairs_int(out@) =~= s.take(k as int) + seq![xi] + s.skip(k as int));
            assert(pairs_int(v@.take(i as int)).drop_last() =~= pairs_int(v@.take(i - 1)));
            assert(pairs_int(v@.take(i as int)).last() == xi);
            assert(sort_pairs(pairs_int(v@.take(i as int))) == insert_pair(
                xi,
                sort_pairs(pairs_int(v@.take(i - 1))),
            ));
        }
    }
    proof {
        assert(v@.take(v@.len() as int) =~= v@);
    }
    out
}

/// The views of a sequence of strings.
pub open spec fn string_views(s: Seq<String>) -> Seq<Seq<char>> {
    s.map_values(|k: String| k@)
}

/// Enumerate `keys` in the canonical order: the keys that parse as
/// non-negative decimal integers first, in ascending numeric order, then
/// the rest in their given order.
pub fn js_iter_order(keys: &Vec<String>) -> (r: Vec<String>)
    ensures
        string_views(r@) == canonical_order(string_views(keys@)),
{
    let somep_g = Ghost(|k: Seq<char>| parse_as_index(k) is Some);
    let nonep_g = Ghost(|k: Seq<char>| parse_as_index(k) is None);
    let ghost somep = somep_g@;
    let ghost nonep = nonep_g@;
    let mut numeric: Vec<String> = Vec::new();
    let mut vals: Vec<(u128, usize)> = Vec::new();
    let mut others: Vec<String> = Vec::new();
    let n = keys.len();
    let mut i: usize = 0;
    proof {
        reveal(Seq::filter);
        assert(string_views(keys@.take(0)) =~= Seq::<Seq<char>>::empty());
        assert(string_views(keys@.take(0)).filter(somep) =~= Seq::<Seq<char>>::empty());
        assert(string_views(keys@.take(0)).filter(nonep) =~= Seq::<Seq<char>>::empty());
        assert(numeric_pairs(string_views(keys@.take(0))) =~= Seq::<(int, Seq<char>)>::empty());
        assert(pairs_int(vals@).map_values(
            |p: (int, usize)| (p.0, string_views(numeric@)[p.1 as int]),
        ) =~= Seq::<(int, Seq<char>)>::empty());
    }
    while i < n
        invariant
            i <= n,
            n == keys@.len(),
            somep == |k: Seq<char>| parse_as_index(k) is Some,
            nonep == |k: Seq<char>| parse_as_index(k) is None,
            string_views(numeric@) == string_views(keys@.take(i as int)).filter(somep),
            string_views(others@) == string_views(keys@.take(i as int)).filter(nonep),
            vals@.len() == numeric@.len(),
            forall|j: int| 0 <= j < vals@.len() ==> (#[trigger] vals@[j]).1 == j,
            numeric_pairs(string_views(keys@.take(i as int))) == pairs_int(vals@).map_values(
                |p: (int, usize)| (p.0, string_views(numeric@)[p.1 as int]),
            ),
        decreases n - i,
    {
        let key = &keys[i];
        let chars = crate::text::str_chars(key.as_str());
        let ghost prev_views = string_views(keys@.take(i as int));
        let ghost prev_numeric = numeric@;
        let ghost prev_vals = vals@;
        let ghost prev_others = others@;
        let parsed = parse_index(&chars);
        match parsed {
            Some(value) => {
                vals.push((value as u128, numeric.len()));
                numeric.push(key.clone());
            },
            None => {
                others.push(key.clone());
            },
        }
        i = i + 1;
        proof {
            reveal(Seq::filter);
            let views = string_views(keys@.take(i as int));
            assert(views.drop_last() =~= prev_views);
            assert(views.last() == keys@[i - 1]@);
            let f = |p: (int, usize)| (p.0, string_views(numeric@)[p.1 as int]);
            let fp = |p: (int, usize)| (p.0, string_views(prev_numeric)[p.1 as int]);
            let topair = |k: Seq<char>| (parse_as_index(k)->Some_0, k);
            if parse_as_index(keys@[i - 1]@) is Some {
                assert(string_views(numeric@) =~= string_views(prev_numeric).push(keys@[i - 1]@));
                assert(string_views(numeric@) =~= views.filter(somep));
                assert(string_views(others@) =~= views.filter(nonep));
                assert(views.filter(somep).drop_last() =~= prev_views.filter(somep));
                assert(numeric_pairs(views) =~= numeric_pairs(prev_views).push(
                    topair(keys@[i - 1]@),
                ));
                assert forall|j: int| 0 <= j < prev_vals.len() implies f(
                    #[trigger] pairs_int(prev_vals)[j],
                ) == fp(pairs_int(prev_vals)[j]) by {
                    assert(prev_vals[j].1 == j);
                    assert(string_views(numeric@)[j] == string_views(prev_numeric)[j]);
                }
                assert(pairs_int(vals@).drop_last() =~= pairs_int(prev_vals));
                assert(pairs_int(vals@).map_values(f) =~= pairs_int(prev_vals).map_values(fp).push(
                    f(pairs_int(vals@).last()),
                ));
                assert(f(pairs_int(vals@).last()) == topair(keys@[i - 1]@));
                assert(numeric_pairs(views) =~= pairs_int(vals@).map_values(f));
            } else {
                assert(string_views(others@) =~= string_views(prev_others).push(keys@[i - 1]@));
                assert(string_views(others@) =~= views.filter(nonep));
                assert(string_views(numeric@) =~= views.filter(somep));
                assert(numeric_pairs(views) =~= numeric_pairs(prev_views));
                assert(pairs_int(vals@).map_values(f) =~= pairs_int(prev_vals).map_values(fp));
            }
        }
    }
    proof {
        assert(keys@.take(n as int) =~= keys@);
    }
    let sorted = sort_indexed(&vals);
    let mut r: Vec<String> = Vec::new();
    let ghost kviews = string_views(keys@);
    let ghost f = |idx: usize| string_views(numeric@)[idx as int];
    proof {
        lemma_sort_pairs_map(pairs_int(vals@), f);
        assert(pairs_int(vals@).map_values(|p: (int, usize)| (p.0, f(p.1))) =~= pairs_int(
            vals@,
        ).map_values(|p: (int, usize)| (p.0, string_views(numeric@)[p.1 as int])));
        lemma_sort_pairs_permutation(pairs_int(vals@));
    }
    let mut j: usize = 0;
    while j < sorted.len()
        invariant
            j <= sorted@.len(),
            numeric@.len() == vals@.len(),
            f == (|idx: usize| string_views(numeric@)[idx as int]),
            pairs_int(sorted@) == sort_pairs(pairs_int(vals@)),
            pairs_int(sorted@).to_multiset() == pairs_int(vals@).to_multiset(),
            forall|w: int| 0 <= w < vals@.len() ==> (#[trigger] vals@[w]).1 == w,
            string_views(r@) == pairs_int(sorted@).map_values(|p: (int, usize)| (p.0, f(p.1))).take(
                j as int,
            ).map_values(|p: (int, Seq<char>)| p.1),
        decreases sorted@.len() - j,
    {
        let idx = sorted[j].1;
        proof {
            broadcast use vstd::seq_lib::group_seq_properties;

            let pj = pairs_int(sorted@)[j as int];
            assert(pairs_int(sorted@).to_multiset().contains(pj));
            assert(pairs_int(vals@).contains(pj));
            let w = choose|w: int| 0 <= w < pairs_int(vals@).len() && pairs_int(vals@)[w] == pj;
            assert(vals@[w].1 == w);
            assert(pj.1 < numeric@.len());
        }
        let ghost prev_r = r@;
        r.push(numeric[idx].clone());
        j = j + 1;
        proof {
            let mapped = pairs_int(sorted@).map_values(|p: (int, usize)| (p.0, f(p.1)));
            assert(string_views(r@) =~= string_views(prev_r).push(numeric@[idx as int]@));
            assert(mapped.take(j as int) =~= mapped.take(j - 1).push(mapped[j - 1]));
            assert(mapped.take(j as int).map_values(|p: (int, Seq<char>)| p.1) =~= mapped.take(
                j - 1,
            ).map_values(|p: (int, Seq<char>)| p.1).push(mapped[j - 1].1));
        }
    }
    let mut o: usize = 0;
    proof {
        let mapped = pairs_int(sorted@).map_values(|p: (int, usize)| (p.0, f(p.1)));
        assert(mapped.take(sorted@.len() as int) =~= mapped);
        lemma_sort_pairs_map(pairs_int(vals@), f);
        assert(string_views(r@) =~= sort_pairs(
            pairs_int(vals@).map_values(|p: (int, usize)| (p.0, f(p.1))),
        ).map_values(|p: (int, Seq<char>)| p.1));
        assert(pairs_int(vals@).map_values(|p: (int, usize)| (p.0, f(p.1))) =~= numeric_pairs(
            kviews,
        ));
        assert(string_views(r@) + string_views(others@).take(0) =~= string_views(r@));
    }
    while o < others.len()
        invariant
            o <= others@.len(),
            string_views(others@) == kviews.filter(nonep_g@),
            nonep_g@ == |k: Seq<char>| parse_as_index(k) is None,
            kviews == string_views(keys@),
            string_views(r@) == sort_pairs(numeric_pairs(kviews)).map_values(
                |p: (int, Seq<char>)| p.1,
            ) + string_views(others@).take(o as int),
        decreases others@.len() - o,
    {
        let ghost prev_r = r@;
        r.push(others[o].clone());
        o = o + 1;
        proof {
            assert(string_views(r@) =~= string_views(prev_r).push(others@[o - 1]@));
            assert(string_views(others@).take(o as int) =~= string_views(others@).take(o - 1).push(
                others@[o - 1]@,
            ));
            assert(string_views(prev_r).push(others@[o - 1]@) =~= sort_pairs(
                numeric_pairs(kviews),
            ).map_values(|p: (int, Seq<char>)| p.1) + string_views(others@).take(o as int));
        }
    }
    proof {
        assert(string_views(others@).take(others@.len() as int) =~= string_views(others@));
    }
    r
}

} // verus!
