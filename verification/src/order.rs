//! Stable ordering of records by sequences of numbers.
//!
//! A record is ordered by a key, a sequence of numbers compared lexicographically. A single number
//! is a key of length one, a text is the key of its code points, and records that are all to count
//! as equal have the empty key.

use crate::text::chars_of;
use vstd::prelude::*;

verus! {

/// `a` comes before `b` in lexicographic order.
pub open spec fn lex_less(a: Seq<i64>, b: Seq<i64>) -> bool
    decreases a.len(),
{
    if b.len() == 0 {
        false
    } else if a.len() == 0 {
        true
    } else if a[0] != b[0] {
        a[0] < b[0]
    } else {
        lex_less(a.drop_first(), b.drop_first())
    }
}

/// Record `i` is to stand before record `j`: by its key, upwards or downwards, and among equal keys
/// by its position, always upwards.
pub open spec fn precedes(keys: Seq<Seq<i64>>, ascending: bool, i: int, j: int) -> bool {
    ||| if ascending {
        lex_less(keys[i], keys[j])
    } else {
        lex_less(keys[j], keys[i])
    }
    ||| keys[i] == keys[j] && i < j
}

/// `order` lists the positions of all keys, each one where it is to stand.
pub open spec fn is_stable_order(keys: Seq<Seq<i64>>, ascending: bool, order: Seq<int>) -> bool {
    &&& order.len() == keys.len()
    &&& forall|i: int| 0 <= i < order.len() ==> 0 <= #[trigger] order[i] < keys.len()
    &&& forall|k: int| 0 <= k < keys.len() ==> #[trigger] order.contains(k)
    &&& forall|i: int, j: int|
        0 <= i < j < order.len() ==> #[trigger] precedes(keys, ascending, order[i], order[j])
}

/// The stable order of the keys; `stable_order_is_the_only_one` says that there is exactly one.
pub open spec fn stable_order(keys: Seq<Seq<i64>>, ascending: bool) -> Seq<int> {
    choose|order: Seq<int>| is_stable_order(keys, ascending, order)
}

/// The key of a text: its code points.
pub open spec fn text_key(s: Seq<char>) -> Seq<i64> {
    Seq::new(s.len(), |i: int| s[i] as i64)
}

proof fn code_points_are_distinct(a: char, b: char)
    ensures
        a as i64 == b as i64 <==> a == b,
{
}

/// Texts with the same key are the same text.
pub proof fn text_keys_identify(a: Seq<char>, b: Seq<char>)
    ensures
        text_key(a) == text_key(b) <==> a == b,
{
    if text_key(a) == text_key(b) {
        assert(a.len() == text_key(a).len() && b.len() == text_key(b).len());
        assert forall|i: int| 0 <= i < a.len() implies a[i] == b[i] by {
            assert(text_key(a)[i] == text_key(b)[i]);
            code_points_are_distinct(a[i], b[i]);
        }
        assert(a =~= b);
    }
}

/// The contents of a vector of keys.
pub open spec fn keys_of(keys: Seq<Vec<i64>>) -> Seq<Seq<i64>> {
    Seq::new(keys.len(), |i: int| keys[i]@)
}

proof fn lex_less_asymmetric(a: Seq<i64>, b: Seq<i64>)
    requires
        lex_less(a, b),
    ensures
        !lex_less(b, a),
        a != b,
    decreases a.len(),
{
    if a.len() > 0 && b.len() > 0 && a[0] == b[0] {
        lex_less_asymmetric(a.drop_first(), b.drop_first());
    }
}

proof fn lex_less_transitive(a: Seq<i64>, b: Seq<i64>, c: Seq<i64>)
    requires
        lex_less(a, b),
        lex_less(b, c),
    ensures
        lex_less(a, c),
    decreases a.len(),
{
    if a.len() > 0 && b.len() > 0 && c.len() > 0 && a[0] == b[0] && b[0] == c[0] {
        lex_less_transitive(a.drop_first(), b.drop_first(), c.drop_first());
    }
}

proof fn lex_less_total(a: Seq<i64>, b: Seq<i64>)
    ensures
        lex_less(a, b) || lex_less(b, a) || a == b,
    decreases a.len(),
{
    if a.len() > 0 && b.len() > 0 && a[0] == b[0] {
        lex_less_total(a.drop_first(), b.drop_first());
        if a.drop_first() == b.drop_first() {
            assert(a =~= seq![a[0]] + a.drop_first());
            assert(b =~= seq![b[0]] + b.drop_first());
        }
    } else if a.len() == 0 && b.len() == 0 {
        assert(a =~= b);
    }
}

/// If record `i` is to stand before record `j`, then `j` is not to stand before `i`.
pub proof fn precedes_asymmetric(keys: Seq<Seq<i64>>, ascending: bool, i: int, j: int)
    requires
        precedes(keys, ascending, i, j),
    ensures
        !precedes(keys, ascending, j, i),
        i != j,
{
    if lex_less(keys[i], keys[j]) {
        lex_less_asymmetric(keys[i], keys[j]);
    }
    if lex_less(keys[j], keys[i]) {
        lex_less_asymmetric(keys[j], keys[i]);
    }
}

proof fn precedes_transitive(keys: Seq<Seq<i64>>, ascending: bool, i: int, j: int, k: int)
    requires
        precedes(keys, ascending, i, j),
        precedes(keys, ascending, j, k),
    ensures
        precedes(keys, ascending, i, k),
{
    if lex_less(keys[i], keys[j]) && lex_less(keys[j], keys[k]) {
        lex_less_transitive(keys[i], keys[j], keys[k]);
    }
    if lex_less(keys[k], keys[j]) && lex_less(keys[j], keys[i]) {
        lex_less_transitive(keys[k], keys[j], keys[i]);
    }
}

proof fn precedes_total(keys: Seq<Seq<i64>>, ascending: bool, i: int, j: int)
    requires
        i != j,
    ensures
        precedes(keys, ascending, i, j) || precedes(keys, ascending, j, i),
{
    lex_less_total(keys[i], keys[j]);
}

/// Two stable orders of the same keys agree on every position up to `n`.
proof fn stable_orders_agree(
    keys: Seq<Seq<i64>>,
    ascending: bool,
    p: Seq<int>,
    q: Seq<int>,
    n: int,
)
    requires
        is_stable_order(keys, ascending, p),
        is_stable_order(keys, ascending, q),
        0 <= n <= keys.len(),
    ensures
        forall|i: int| 0 <= i < n ==> p[i] == q[i],
    decreases n,
{
    if n > 0 {
        let i = n - 1;
        stable_orders_agree(keys, ascending, p, q, i);
        assert(q.contains(p[i]) && p.contains(q[i]));
        let m = choose|m: int| 0 <= m < q.len() && q[m] == p[i];
        let l = choose|l: int| 0 <= l < p.len() && p[l] == q[i];
        if m < i {
            assert(precedes(keys, ascending, p[m], p[i]));
            precedes_asymmetric(keys, ascending, p[m], p[i]);
        } else if l < i {
            assert(precedes(keys, ascending, q[l], q[i]));
            precedes_asymmetric(keys, ascending, q[l], q[i]);
        } else if m > i && l > i {
            assert(precedes(keys, ascending, q[i], q[m]));
            assert(precedes(keys, ascending, p[i], p[l]));
            precedes_asymmetric(keys, ascending, q[i], q[m]);
        }
    }
}

/// `sorted` with `x` put in its place: the step by which a stable order is seen to exist.
proof fn insert_in_order(
    keys: Seq<Seq<i64>>,
    ascending: bool,
    sorted: Seq<int>,
    x: int,
) -> (r: Seq<int>)
    requires
        forall|i: int, j: int|
            0 <= i < j < sorted.len() ==> #[trigger] precedes(keys, ascending, sorted[i], sorted[j]),
        !sorted.contains(x),
    ensures
        r.len() == sorted.len() + 1,
        r.contains(x),
        forall|k: int| sorted.contains(k) ==> #[trigger] r.contains(k),
        forall|i: int| 0 <= i < r.len() ==> #[trigger] r[i] == x || sorted.contains(r[i]),
        forall|i: int, j: int|
            0 <= i < j < r.len() ==> #[trigger] precedes(keys, ascending, r[i], r[j]),
    decreases sorted.len(),
{
    if sorted.len() == 0 {
        let r = seq![x];
        assert(r[0] == x);
        r
    } else if precedes(keys, ascending, sorted.last(), x) {
        let r = sorted.push(x);
        assert(r[sorted.len() as int] == x);
        assert forall|k: int| sorted.contains(k) implies #[trigger] r.contains(k) by {
            let m = choose|m: int| 0 <= m < sorted.len() && sorted[m] == k;
            assert(r[m] == k);
        }
        assert forall|i: int, j: int| 0 <= i < j < r.len() implies #[trigger] precedes(
            keys,
            ascending,
            r[i],
            r[j],
        ) by {
            if j == sorted.len() && i < sorted.len() - 1 {
                assert(precedes(keys, ascending, sorted[i], sorted[sorted.len() - 1]));
                precedes_transitive(keys, ascending, sorted[i], sorted.last(), x);
            }
        }
        r
    } else {
        let init = sorted.drop_last();
        assert(sorted.contains(sorted.last()));
        precedes_total(keys, ascending, sorted.last(), x);
        assert forall|i: int| 0 <= i < init.len() implies init[i] != x by {
            assert(sorted.contains(sorted[i]));
        }
        let front = insert_in_order(keys, ascending, init, x);
        let r = front.push(sorted.last());
        assert(r[front.len() as int] == sorted.last());
        assert forall|k: int| sorted.contains(k) || k == x implies #[trigger] r.contains(k) by {
            if k != sorted.last() {
                if k != x {
                    let m = choose|m: int| 0 <= m < sorted.len() && sorted[m] == k;
                    assert(init[m] == k);
                    assert(init.contains(k));
                }
                assert(front.contains(k));
                let m = choose|m: int| 0 <= m < front.len() && front[m] == k;
                assert(r[m] == k);
            }
        }
        assert forall|i: int| 0 <= i < r.len() implies #[trigger] r[i] == x || sorted.contains(
            r[i],
        ) by {
            if i < front.len() && front[i] != x {
                assert(init.contains(front[i]));
                let m = choose|m: int| 0 <= m < init.len() && init[m] == front[i];
                assert(sorted[m] == front[i]);
            }
        }
        assert forall|i: int, j: int| 0 <= i < j < r.len() implies #[trigger] precedes(
            keys,
            ascending,
            r[i],
            r[j],
        ) by {
            if j == front.len() {
                if front[i] != x {
                    assert(init.contains(front[i]));
                    let m = choose|m: int| 0 <= m < init.len() && init[m] == front[i];
                    assert(precedes(keys, ascending, sorted[m], sorted[sorted.len() - 1]));
                }
            } else {
                assert(precedes(keys, ascending, front[i], front[j]));
            }
        }
        r
    }
}

/// Positions `0` to `n` of the keys, put in order.
proof fn order_up_to(keys: Seq<Seq<i64>>, ascending: bool, n: int) -> (r: Seq<int>)
    requires
        0 <= n <= keys.len(),
    ensures
        r.len() == n,
        forall|i: int| 0 <= i < n ==> 0 <= #[trigger] r[i] < n,
        forall|k: int| 0 <= k < n ==> #[trigger] r.contains(k),
        forall|i: int, j: int| 0 <= i < j < n ==> #[trigger] precedes(keys, ascending, r[i], r[j]),
    decreases n,
{
    if n == 0 {
        Seq::empty()
    } else {
        let sorted = order_up_to(keys, ascending, n - 1);
        let r = insert_in_order(keys, ascending, sorted, n - 1);
        assert forall|i: int| 0 <= i < n implies 0 <= #[trigger] r[i] < n by {
            if r[i] != n - 1 {
                assert(sorted.contains(r[i]));
            }
        }
        assert forall|k: int| 0 <= k < n implies #[trigger] r.contains(k) by {
            if k < n - 1 {
                assert(sorted.contains(k));
            }
        }
        r
    }
}

/// The keys have a stable order, and only one: any listing of all positions in which each stands
/// before those that it precedes is that one.
pub proof fn stable_order_is_the_only_one(keys: Seq<Seq<i64>>, ascending: bool)
    ensures
        is_stable_order(keys, ascending, stable_order(keys, ascending)),
        forall|order: Seq<int>| #[trigger]
            is_stable_order(keys, ascending, order) ==> order == stable_order(keys, ascending),
{
    let witness = order_up_to(keys, ascending, keys.len() as int);
    assert(is_stable_order(keys, ascending, witness));
    let chosen = stable_order(keys, ascending);
    assert forall|order: Seq<int>| #[trigger]
        is_stable_order(keys, ascending, order) implies order == chosen by {
        stable_orders_agree(keys, ascending, order, chosen, keys.len() as int);
        assert(order =~= chosen);
    }
}

/// Whether `a` comes before `b` in lexicographic order.
pub fn key_less(a: &Vec<i64>, b: &Vec<i64>) -> (r: bool)
    ensures
        r == lex_less(a@, b@),
{
    let mut k: usize = 0;
    proof {
        assert(a@.skip(0) =~= a@);
        assert(b@.skip(0) =~= b@);
    }
    while k < a.len() && k < b.len()
        invariant
            k <= a@.len(),
            k <= b@.len(),
            lex_less(a@, b@) == lex_less(a@.skip(k as int), b@.skip(k as int)),
        decreases a@.len() - k,
    {
        if a[k] != b[k] {
            return a[k] < b[k];
        }
        proof {
            assert(a@.skip(k as int).drop_first() =~= a@.skip(k + 1));
            assert(b@.skip(k as int).drop_first() =~= b@.skip(k + 1));
        }
        k += 1;
    }
    k < b.len()
}

/// Whether record `i` is to stand before record `j`.
fn stands_before(keys: &Vec<Vec<i64>>, ascending: bool, i: usize, j: usize) -> (r: bool)
    requires
        i < keys@.len(),
        j < keys@.len(),
    ensures
        r == precedes(keys_of(keys@), ascending, i as int, j as int),
{
    proof {
        lex_less_total(keys@[i as int]@, keys@[j as int]@);
        if lex_less(keys@[i as int]@, keys@[j as int]@) {
            lex_less_asymmetric(keys@[i as int]@, keys@[j as int]@);
        }
        if lex_less(keys@[j as int]@, keys@[i as int]@) {
            lex_less_asymmetric(keys@[j as int]@, keys@[i as int]@);
        }
    }
    if key_less(&keys[i], &keys[j]) {
        ascending
    } else if key_less(&keys[j], &keys[i]) {
        !ascending
    } else {
        i < j
    }
}

/// `run` holds the positions `lo` to `hi`, each once and each where it is to stand.
spec fn is_run(keys: Seq<Seq<i64>>, ascending: bool, lo: int, hi: int, run: Seq<usize>) -> bool {
    &&& run.len() == hi - lo
    &&& forall|i: int| 0 <= i < run.len() ==> lo <= #[trigger] run[i] < hi
    &&& forall|k: usize| lo <= k < hi ==> #[trigger] run.contains(k)
    &&& forall|i: int, j: int|
        0 <= i < j < run.len() ==> #[trigger] precedes(
            keys,
            ascending,
            run[i] as int,
            run[j] as int,
        )
}

/// Joins two neighbouring runs into one.
fn merge_runs(
    keys: &Vec<Vec<i64>>,
    ascending: bool,
    a: &Vec<usize>,
    b: &Vec<usize>,
    Ghost(lo): Ghost<int>,
    Ghost(mid): Ghost<int>,
    Ghost(hi): Ghost<int>,
) -> (r: Vec<usize>)
    requires
        0 <= lo <= mid <= hi <= keys@.len(),
        is_run(keys_of(keys@), ascending, lo, mid, a@),
        is_run(keys_of(keys@), ascending, mid, hi, b@),
    ensures
        is_run(keys_of(keys@), ascending, lo, hi, r@),
{
    let ghost ks = keys_of(keys@);
    let mut out: Vec<usize> = Vec::new();
    let mut i: usize = 0;
    let mut j: usize = 0;
    while i < a.len() || j < b.len()
        invariant
            0 <= lo <= mid <= hi <= keys@.len(),
            ks == keys_of(keys@),
            is_run(ks, ascending, lo, mid, a@),
            is_run(ks, ascending, mid, hi, b@),
            i <= a@.len(),
            j <= b@.len(),
            out@.len() == i + j,
            forall|k: int| 0 <= k < out@.len() ==> lo <= #[trigger] out@[k] < hi,
            forall|k: int| 0 <= k < i ==> out@.contains(#[trigger] a@[k]),
            forall|k: int| 0 <= k < j ==> out@.contains(#[trigger] b@[k]),
            forall|k: int, l: int|
                0 <= k < l < out@.len() ==> #[trigger] precedes(
                    ks,
                    ascending,
                    out@[k] as int,
                    out@[l] as int,
                ),
            forall|k: int, l: int|
                0 <= k < out@.len() && i <= l < a@.len() ==> #[trigger] precedes(
                    ks,
                    ascending,
                    out@[k] as int,
                    a@[l] as int,
                ),
            forall|k: int, l: int|
                0 <= k < out@.len() && j <= l < b@.len() ==> #[trigger] precedes(
                    ks,
                    ascending,
                    out@[k] as int,
                    b@[l] as int,
                ),
        decreases a@.len() - i + b@.len() - j,
    {
        let ghost before = out@;
        let from_a: bool = j == b.len() || (i < a.len() && stands_before(
            keys,
            ascending,
            a[i],
            b[j],
        ));
        if from_a {
            proof {
                assert forall|l: int| j <= l < b@.len() implies #[trigger] precedes(
                    ks,
                    ascending,
                    a@[i as int] as int,
                    b@[l] as int,
                ) by {
                    if l > j {
                        assert(precedes(ks, ascending, b@[j as int] as int, b@[l] as int));
                        precedes_transitive(
                            ks,
                            ascending,
                            a@[i as int] as int,
                            b@[j as int] as int,
                            b@[l] as int,
                        );
                    }
                }
            }
            out.push(a[i]);
            i += 1;
        } else {
            proof {
                assert forall|l: int| i <= l < a@.len() implies #[trigger] precedes(
                    ks,
                    ascending,
                    b@[j as int] as int,
                    a@[l] as int,
                ) by {
                    precedes_total(ks, ascending, b@[j as int] as int, a@[i as int] as int);
                    if l > i {
                        assert(precedes(ks, ascending, a@[i as int] as int, a@[l] as int));
                        precedes_transitive(
                            ks,
                            ascending,
                            b@[j as int] as int,
                            a@[i as int] as int,
                            a@[l] as int,
                        );
                    }
                }
            }
            out.push(b[j]);
            j += 1;
        }
        proof {
            let last = out@.len() - 1;
            assert(out@[last] == out@.last());
            assert forall|x: usize| before.contains(x) implies #[trigger] out@.contains(x) by {
                let m = choose|m: int| 0 <= m < before.len() && before[m] == x;
                assert(out@[m] == x);
            }
            assert forall|k: int| 0 <= k < i implies out@.contains(#[trigger] a@[k]) by {
                assert(k == i - 1 && from_a || before.contains(a@[k]));
            }
            assert forall|k: int| 0 <= k < j implies out@.contains(#[trigger] b@[k]) by {
                assert(k == j - 1 && !from_a || before.contains(b@[k]));
            }
        }
    }
    proof {
        assert forall|k: usize| lo <= k < hi implies #[trigger] out@.contains(k) by {
            if k < mid {
                assert(a@.contains(k));
            } else {
                assert(b@.contains(k));
            }
        }
    }
    out
}

/// The positions `lo` to `hi`, put in order.
fn sort_range(keys: &Vec<Vec<i64>>, ascending: bool, lo: usize, hi: usize) -> (r: Vec<usize>)
    requires
        lo <= hi <= keys@.len(),
    ensures
        is_run(keys_of(keys@), ascending, lo as int, hi as int, r@),
    decreases hi - lo,
{
    if hi - lo == 0 {
        Vec::new()
    } else if hi - lo == 1 {
        let mut out: Vec<usize> = Vec::new();
        out.push(lo);
        assert(out@[0] == lo);
        out
    } else {
        let mid: usize = lo + (hi - lo) / 2;
        let a: Vec<usize> = sort_range(keys, ascending, lo, mid);
        let b: Vec<usize> = sort_range(keys, ascending, mid, hi);
        merge_runs(keys, ascending, &a, &b, Ghost(lo as int), Ghost(mid as int), Ghost(hi as int))
    }
}

/// Lists the positions of all keys in their stable order.
pub fn sort_stably(keys: &Vec<Vec<i64>>, ascending: bool) -> (order: Vec<usize>)
    ensures
        order@.map_values(|i: usize| i as int) == stable_order(keys_of(keys@), ascending),
{
    let order: Vec<usize> = sort_range(keys, ascending, 0, keys.len());
    proof {
        let ks = keys_of(keys@);
        let listed = order@.map_values(|i: usize| i as int);
        assert forall|k: int| 0 <= k < ks.len() implies #[trigger] listed.contains(k) by {
            assert(order@.contains(k as usize));
            let m = choose|m: int| 0 <= m < order@.len() && order@[m] == k as usize;
            assert(listed[m] == k);
        }
        assert(is_stable_order(ks, ascending, listed));
        stable_order_is_the_only_one(ks, ascending);
    }
    order
}

/// The key of a text.
pub fn key_of_text(s: &str) -> (r: Vec<i64>)
    ensures
        r@ == text_key(s@),
{
    let chars: Vec<char> = chars_of(s);
    let mut out: Vec<i64> = Vec::new();
    let mut k: usize = 0;
    while k < chars.len()
        invariant
            chars@ == s@,
            k <= chars@.len(),
            out@ == text_key(s@).take(k as int),
        decreases chars@.len() - k,
    {
        out.push(chars[k] as i64);
        assert(out@ =~= text_key(s@).take(k + 1));
        k += 1;
    }
    assert(out@ =~= text_key(s@));
    out
}

/// The texts differ first at position `k`, and there the first one ends, or its code point is the
/// smaller one.
pub open spec fn differs_below(a: Seq<char>, b: Seq<char>, k: int) -> bool {
    &&& 0 <= k <= a.len()
    &&& k < b.len()
    &&& forall|j: int| 0 <= j < k ==> a[j] == b[j]
    &&& k == a.len() || (a[k] as int) < (b[k] as int)
}

/// A text comes before another one, by the first position at which they differ.
pub open spec fn comes_before(a: Seq<char>, b: Seq<char>) -> bool {
    exists|k: int| differs_below(a, b, k)
}

proof fn code_points_are_ordered(a: char, b: char)
    ensures
        (a as i64) < (b as i64) <==> (a as int) < (b as int),
        a as i64 == b as i64 <==> a == b,
        a as int == b as int <==> a == b,
{
}

/// The keys of texts are ordered as the texts are.
pub proof fn text_keys_order_as_texts(a: Seq<char>, b: Seq<char>)
    ensures
        lex_less(text_key(a), text_key(b)) <==> comes_before(a, b),
    decreases a.len(),
{
    let x = text_key(a);
    let y = text_key(b);
    if b.len() > 0 && a.len() > 0 {
        code_points_are_ordered(a[0], b[0]);
        let (c, d) = (a.drop_first(), b.drop_first());
        assert(x.drop_first() =~= text_key(c));
        assert(y.drop_first() =~= text_key(d));
        text_keys_order_as_texts(c, d);
        if a[0] == b[0] {
            if comes_before(c, d) {
                let k = choose|k: int| differs_below(c, d, k);
                assert forall|j: int| 0 <= j < k + 1 implies a[j] == b[j] by {
                    if j > 0 {
                        assert(c[j - 1] == d[j - 1]);
                    }
                }
                assert(differs_below(a, b, k + 1));
            }
            if comes_before(a, b) {
                let k = choose|k: int| differs_below(a, b, k);
                assert(k > 0);
                assert(differs_below(c, d, k - 1));
            }
        } else {
            if (a[0] as int) < (b[0] as int) {
                assert(differs_below(a, b, 0));
            }
            if comes_before(a, b) {
                let k = choose|k: int| differs_below(a, b, k);
                assert(k == 0) by {
                    if k > 0 {
                        assert(a[0] == b[0]);
                    }
                }
            }
        }
    } else if b.len() > 0 {
        assert(differs_below(a, b, 0));
    }
}

/// Keys of one number are ordered as the numbers are, and keys are ordered by the first number at
/// which they differ.
pub proof fn keys_order_as_numbers(a: i64, b: i64, rest: Seq<i64>, other: Seq<i64>)
    ensures
        lex_less(seq![a], seq![b]) <==> a < b,
        a != b ==> (lex_less(seq![a] + rest, seq![b] + other) <==> a < b),
        lex_less(seq![a] + rest, seq![a] + other) <==> lex_less(rest, other),
{
    assert((seq![a] + rest).drop_first() =~= rest);
    assert((seq![a] + other).drop_first() =~= other);
    assert(seq![a].drop_first() =~= Seq::<i64>::empty());
    assert(seq![b].drop_first() =~= Seq::<i64>::empty());
    assert(!lex_less(Seq::<i64>::empty(), Seq::<i64>::empty()));
}

/// A stable order lists each position once, never puts a key behind a smaller one, or a greater one
/// where it goes downwards, and keeps equal keys in place.
pub proof fn a_stable_order_is_sorted(keys: Seq<Seq<i64>>, ascending: bool, i: int, j: int)
    requires
        0 <= i < j < keys.len(),
    ensures
        ({
            let order = stable_order(keys, ascending);
            &&& order.len() == keys.len()
            &&& 0 <= order[i] < keys.len()
            &&& 0 <= order[j] < keys.len()
            &&& order[i] != order[j]
            &&& ascending ==> !lex_less(keys[order[j]], keys[order[i]])
            &&& !ascending ==> !lex_less(keys[order[i]], keys[order[j]])
            &&& keys[order[i]] == keys[order[j]] ==> order[i] < order[j]
        }),
{
    let order = stable_order(keys, ascending);
    stable_order_is_the_only_one(keys, ascending);
    assert(precedes(keys, ascending, order[i], order[j]));
    precedes_asymmetric(keys, ascending, order[i], order[j]);
    if keys[order[i]] == keys[order[j]] && lex_less(keys[order[i]], keys[order[j]]) {
        lex_less_asymmetric(keys[order[i]], keys[order[j]]);
    }
}

} // verus!
