//! Lexicographic keys and a stable sort of indices by them.
//!
//! Every ordering the optimizer sorts by (best-first for non-dominated sorting, by one
//! objective, by crowding) is a lexicographic order on integer key rows, with the index as
//! the last tie-break. That makes it a strict total order, so the sorted order is unique.
use vstd::prelude::*;

verus! {

/// Lexicographic strict order on key rows of equal length.
pub open spec fn lex_lt(a: Seq<i128>, b: Seq<i128>) -> bool
    decreases a.len(),
{
    if a.len() == 0 || b.len() == 0 {
        false
    } else if a[0] < b[0] {
        true
    } else if a[0] > b[0] {
        false
    } else {
        lex_lt(a.drop_first(), b.drop_first())
    }
}

/// Row `a` comes before row `b`: by key, then by index.
pub open spec fn precedes(keys: Seq<Seq<i128>>, a: int, b: int) -> bool {
    lex_lt(keys[a], keys[b]) || (keys[a] == keys[b] && a < b)
}

/// All key rows have length `m`.
pub open spec fn uniform_keys(keys: Seq<Seq<i128>>, m: nat) -> bool {
    forall|i: int| 0 <= i < keys.len() ==> (#[trigger] keys[i]).len() == m
}

/// `order` lists every index of `keys` exactly once, each before the ones it precedes.
pub open spec fn sorted_by_keys(keys: Seq<Seq<i128>>, order: Seq<usize>) -> bool {
    &&& order.len() == keys.len()
    &&& forall|i: int| 0 <= i < order.len() ==> (#[trigger] order[i]) < keys.len()
    &&& forall|i: int, j: int|
        0 <= i < j < order.len() ==> precedes(keys, #[trigger] order[i] as int, #[trigger] order[j] as int)
    &&& forall|x: int| 0 <= x < keys.len() ==> #[trigger] lists(order, x)
}

/// `x` occurs in `order`.
pub open spec fn lists(order: Seq<usize>, x: int) -> bool {
    exists|i: int| 0 <= i < order.len() && order[i] == x
}

pub proof fn lemma_lex_irreflexive(a: Seq<i128>)
    ensures
        !lex_lt(a, a),
    decreases a.len(),
{
    if a.len() > 0 {
        lemma_lex_irreflexive(a.drop_first());
    }
}

pub proof fn lemma_lex_transitive(a: Seq<i128>, b: Seq<i128>, c: Seq<i128>)
    requires
        a.len() == b.len(),
        b.len() == c.len(),
        lex_lt(a, b),
        lex_lt(b, c),
    ensures
        lex_lt(a, c),
    decreases a.len(),
{
    if a.len() > 0 && a[0] == b[0] && b[0] == c[0] {
        lemma_lex_transitive(a.drop_first(), b.drop_first(), c.drop_first());
    }
}

pub proof fn lemma_lex_total(a: Seq<i128>, b: Seq<i128>)
    requires
        a.len() == b.len(),
    ensures
        lex_lt(a, b) || lex_lt(b, a) || a == b,
    decreases a.len(),
{
    if a.len() == 0 {
        assert(a =~= b);
    } else if a[0] == b[0] {
        lemma_lex_total(a.drop_first(), b.drop_first());
        if a.drop_first() == b.drop_first() {
            assert(a =~= seq![a[0]] + a.drop_first());
            assert(b =~= seq![b[0]] + b.drop_first());
        }
    }
}

pub proof fn lemma_lex_asymmetric(a: Seq<i128>, b: Seq<i128>)
    requires
        a.len() == b.len(),
        lex_lt(a, b),
    ensures
        !lex_lt(b, a),
{
    if lex_lt(b, a) {
        lemma_lex_transitive(a, b, a);
        lemma_lex_irreflexive(a);
    }
}

/// A row that is nowhere above another and somewhere below it comes first.
pub proof fn lemma_lex_pointwise(a: Seq<i128>, b: Seq<i128>, k: int)
    requires
        a.len() == b.len(),
        forall|i: int| 0 <= i < a.len() ==> a[i] <= b[i],
        0 <= k < a.len(),
        a[k] < b[k],
    ensures
        lex_lt(a, b),
    decreases a.len(),
{
    if a[0] == b[0] {
        assert(k > 0);
        lemma_lex_pointwise(a.drop_first(), b.drop_first(), k - 1);
    }
}

/// A row equal to another up to some position and below it there comes first.
pub proof fn lemma_lex_first_difference(a: Seq<i128>, b: Seq<i128>, k: int)
    requires
        a.len() == b.len(),
        0 <= k < a.len(),
        forall|i: int| 0 <= i < k ==> a[i] == b[i],
        a[k] < b[k],
    ensures
        lex_lt(a, b),
    decreases a.len(),
{
    if k > 0 {
        lemma_lex_first_difference(a.drop_first(), b.drop_first(), k - 1);
    }
}

pub proof fn lemma_precedes_transitive(keys: Seq<Seq<i128>>, m: nat, a: int, b: int, c: int)
    requires
        uniform_keys(keys, m),
        0 <= a < keys.len(),
        0 <= b < keys.len(),
        0 <= c < keys.len(),
        precedes(keys, a, b),
        precedes(keys, b, c),
    ensures
        precedes(keys, a, c),
{
    if lex_lt(keys[a], keys[b]) && lex_lt(keys[b], keys[c]) {
        lemma_lex_transitive(keys[a], keys[b], keys[c]);
    }
}

pub proof fn lemma_precedes_asymmetric(keys: Seq<Seq<i128>>, m: nat, a: int, b: int)
    requires
        uniform_keys(keys, m),
        0 <= a < keys.len(),
        0 <= b < keys.len(),
        precedes(keys, a, b),
    ensures
        !precedes(keys, b, a),
{
    if lex_lt(keys[a], keys[b]) {
        lemma_lex_asymmetric(keys[a], keys[b]);
        if keys[b] == keys[a] {
            lemma_lex_irreflexive(keys[a]);
        }
    } else {
        lemma_lex_irreflexive(keys[a]);
    }
}

pub proof fn lemma_precedes_total(keys: Seq<Seq<i128>>, m: nat, a: int, b: int)
    requires
        uniform_keys(keys, m),
        0 <= a < keys.len(),
        0 <= b < keys.len(),
        a != b,
    ensures
        precedes(keys, a, b) || precedes(keys, b, a),
{
    lemma_lex_total(keys[a], keys[b]);
}

/// In a sorted order, the rows placed before position `t` are exactly those that precede the
/// row at `t`.
pub proof fn lemma_sorted_prefix(keys: Seq<Seq<i128>>, m: nat, order: Seq<usize>, t: int, x: int)
    requires
        uniform_keys(keys, m),
        sorted_by_keys(keys, order),
        0 <= t < order.len(),
        0 <= x < keys.len(),
    ensures
        precedes(keys, x, order[t] as int) <==> exists|i: int| 0 <= i < t && order[i] == x,
{
    assert(lists(order, x));
    let i = choose|i: int| 0 <= i < order.len() && order[i] == x;
    if i < t {
        assert(precedes(keys, order[i] as int, order[t] as int));
    } else if i == t {
        lemma_lex_irreflexive(keys[x]);
        if exists|i2: int| 0 <= i2 < t && order[i2] == x {
            let i2 = choose|i2: int| 0 <= i2 < t && order[i2] == x;
            assert(precedes(keys, order[i2] as int, order[t] as int));
        }
    } else {
        assert(precedes(keys, order[t] as int, order[i] as int));
        lemma_precedes_asymmetric(keys, m, order[t] as int, x);
        if exists|i2: int| 0 <= i2 < t && order[i2] == x {
            let i2 = choose|i2: int| 0 <= i2 < t && order[i2] == x;
            assert(precedes(keys, order[i2] as int, order[t] as int));
        }
    }
}

/// Whether row `a` comes lexicographically before row `b`.
pub fn lex_less(a: &Vec<i128>, b: &Vec<i128>) -> (r: bool)
    requires
        a@.len() == b@.len(),
    ensures
        r == lex_lt(a@, b@),
{
    let mut i: usize = 0;
    assert(a@.skip(0) =~= a@);
    assert(b@.skip(0) =~= b@);
    while i < a.len()
        invariant
            i <= a@.len(),
            a@.len() == b@.len(),
            lex_lt(a@, b@) == lex_lt(a@.skip(i as int), b@.skip(i as int)),
        decreases a.len() - i,
    {
        assert(a@.skip(i as int).drop_first() =~= a@.skip(i + 1));
        assert(b@.skip(i as int).drop_first() =~= b@.skip(i + 1));
        if a[i] < b[i] {
            return true;
        }
        if a[i] > b[i] {
            return false;
        }
        i = i + 1;
    }
    false
}

/// The indices of `keys`, sorted: by key row, ties by index.
pub fn sort_by_keys(keys: &Vec<Vec<i128>>, m: Ghost<nat>) -> (order: Vec<usize>)
    requires
        uniform_keys(keys@.map_values(|r: Vec<i128>| r@), m@),
    ensures
        sorted_by_keys(keys@.map_values(|r: Vec<i128>| r@), order@),
{
    let ghost ks = keys@.map_values(|r: Vec<i128>| r@);
    let mut out: Vec<usize> = Vec::new();
    let n = keys.len();
    assert forall|i: int| 0 <= i < keys@.len() implies (#[trigger] keys@[i])@.len() == m@ by {
        assert(ks[i] == keys@[i]@);
    }
    let mut x: usize = 0;
    while x < n
        invariant
            n == keys@.len(),
            ks == keys@.map_values(|r: Vec<i128>| r@),
            uniform_keys(ks, m@),
            forall|i: int| 0 <= i < keys@.len() ==> (#[trigger] keys@[i])@.len() == m@,
            x <= n,
            out@.len() == x,
            forall|i: int| 0 <= i < out@.len() ==> (#[trigger] out@[i]) < x,
            forall|i: int, j: int|
                0 <= i < j < out@.len() ==> precedes(ks, #[trigger] out@[i] as int, #[trigger] out@[j] as int),
            forall|y: int| 0 <= y < x ==> #[trigger] lists(out@, y),
        decreases n - x,
    {
        let mut j: usize = 0;
        while j < out.len() && !lex_less(&keys[x], &keys[out[j]])
            invariant
                n == keys@.len(),
                ks == keys@.map_values(|r: Vec<i128>| r@),
                uniform_keys(ks, m@),
                forall|i: int| 0 <= i < keys@.len() ==> (#[trigger] keys@[i])@.len() == m@,
                x < n,
                j <= out@.len(),
                out@.len() == x,
                forall|i: int| 0 <= i < out@.len() ==> (#[trigger] out@[i]) < x,
                forall|i: int| 0 <= i < j ==> precedes(ks, #[trigger] out@[i] as int, x as int),
            decreases out.len() - j,
        {
            proof {
                let o = out@[j as int] as int;
                assert(ks[o] == keys@[o]@);
                assert(ks[x as int] == keys@[x as int]@);
                lemma_lex_total(ks[o], ks[x as int]);
            }
            j = j + 1;
        }
        let ghost before = out@;
        proof {
            if j < out@.len() {
                let o = out@[j as int] as int;
                assert(ks[o] == keys@[o]@);
                assert(ks[x as int] == keys@[x as int]@);
                assert(precedes(ks, x as int, o));
                assert forall|k: int| j <= k < before.len() implies precedes(
                    ks,
                    x as int,
                    #[trigger] before[k] as int,
                ) by {
                    if k > j {
                        assert(precedes(ks, before[j as int] as int, before[k] as int));
                        lemma_precedes_transitive(ks, m@, x as int, o, before[k] as int);
                    }
                }
            }
        }
        out.insert(j, x);
        proof {
            let after = out@;
            assert(after == before.insert(j as int, x));
            assert forall|i: int, k: int|
                0 <= i < k < after.len() implies precedes(ks, #[trigger] after[i] as int, #[trigger] after[k] as int) by {
                if k < j {
                    assert(after[i] == before[i] && after[k] == before[k]);
                } else if k == j {
                    assert(after[i] == before[i]);
                } else if i < j {
                    assert(after[i] == before[i] && after[k] == before[k - 1]);
                    assert(precedes(ks, before[i] as int, x as int));
                    assert(precedes(ks, x as int, before[k - 1] as int));
                    lemma_precedes_transitive(ks, m@, before[i] as int, x as int, before[k - 1] as int);
                } else if i == j {
                    assert(after[k] == before[k - 1]);
                } else {
                    assert(after[i] == before[i - 1] && after[k] == before[k - 1]);
                }
            }
            assert forall|y: int| 0 <= y < x + 1 implies #[trigger] lists(after, y) by {
                if y == x {
                    assert(after[j as int] == y);
                } else {
                    assert(lists(before, y));
                    let i = choose|i: int| 0 <= i < before.len() && before[i] == y;
                    if i < j {
                        assert(after[i] == y);
                    } else {
                        assert(after[i + 1] == y);
                    }
                }
            }
            assert forall|i: int| 0 <= i < after.len() implies (#[trigger] after[i]) < x + 1 by {
                if i < j {
                    assert(after[i] == before[i]);
                } else if i > j {
                    assert(after[i] == before[i - 1]);
                }
            }
        }
        x = x + 1;
    }
    out
}

} // verus!
