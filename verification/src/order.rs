//! Orders used to arrange names and priority levels: the lexicographic order of texts by
//! code point (the order of `String`), and stable orderings by a small integer key.

use vstd::prelude::*;

use crate::text::{chars_of, string_views};

verus! {

/// `a` comes strictly before `b`, comparing code points from the left; a proper prefix
/// comes first.
pub open spec fn lex_lt(a: Seq<char>, b: Seq<char>) -> bool
    decreases a.len(),
{
    if a.len() == 0 {
        b.len() > 0
    } else if b.len() == 0 {
        false
    } else if a[0] != b[0] {
        a[0] < b[0]
    } else {
        lex_lt(a.drop_first(), b.drop_first())
    }
}

/// Every element is at most every later one.
pub open spec fn lex_sorted(s: Seq<Seq<char>>) -> bool {
    forall|i: int, j: int| 0 <= i < j < s.len() ==> !lex_lt(#[trigger] s[j], #[trigger] s[i])
}

/// No text comes before itself.
pub proof fn lemma_lex_irreflexive(a: Seq<char>)
    ensures
        !lex_lt(a, a),
    decreases a.len(),
{
    if a.len() > 0 {
        lemma_lex_irreflexive(a.drop_first());
    }
}

/// Two texts never come before each other.
pub proof fn lemma_lex_asymmetric(a: Seq<char>, b: Seq<char>)
    ensures
        !(lex_lt(a, b) && lex_lt(b, a)),
    decreases a.len(),
{
    if a.len() > 0 && b.len() > 0 && a[0] == b[0] {
        lemma_lex_asymmetric(a.drop_first(), b.drop_first());
    }
}

/// The order is transitive.
pub proof fn lemma_lex_transitive(a: Seq<char>, b: Seq<char>, c: Seq<char>)
    requires
        lex_lt(a, b),
        lex_lt(b, c),
    ensures
        lex_lt(a, c),
    decreases a.len(),
{
    if a.len() > 0 && b.len() > 0 && c.len() > 0 {
        if a[0] == b[0] && b[0] == c[0] {
            lemma_lex_transitive(a.drop_first(), b.drop_first(), c.drop_first());
        }
    }
}

/// Of two different texts, one comes before the other.
pub proof fn lemma_lex_total(a: Seq<char>, b: Seq<char>)
    requires
        a != b,
    ensures
        lex_lt(a, b) || lex_lt(b, a),
    decreases a.len(),
{
    if a.len() == 0 {
        assert(b.len() > 0) by {
            if b.len() == 0 {
                assert(a =~= b);
            }
        }
    } else if b.len() == 0 {
    } else if a[0] != b[0] {
    } else {
        if a.drop_first() == b.drop_first() {
            assert(a.drop_first().len() == b.drop_first().len());
            assert(a.len() == b.len());
            assert(a =~= b) by {
                assert forall|i: int| 0 <= i < a.len() implies a[i] == b[i] by {
                    if i > 0 {
                        assert(a[i] == a.drop_first()[i - 1]);
                        assert(b[i] == b.drop_first()[i - 1]);
                    }
                }
            }
        }
        lemma_lex_total(a.drop_first(), b.drop_first());
    }
}

/// Whether `a` comes strictly before `b`.
pub fn chars_lt(a: &Vec<char>, b: &Vec<char>) -> (res: bool)
    ensures
        res == lex_lt(a@, b@),
{
    let mut i: usize = 0;
    assert(a@.skip(0) =~= a@);
    assert(b@.skip(0) =~= b@);
    while i < a.len() && i < b.len() && a[i] == b[i]
        invariant
            i <= a@.len(),
            i <= b@.len(),
            lex_lt(a@, b@) == lex_lt(a@.skip(i as int), b@.skip(i as int)),
        decreases a@.len() - i,
    {
        assert(a@.skip(i as int).drop_first() =~= a@.skip(i + 1));
        assert(b@.skip(i as int).drop_first() =~= b@.skip(i + 1));
        i = i + 1;
    }
    if i == a.len() {
        i < b.len()
    } else if i == b.len() {
        false
    } else {
        a[i] < b[i]
    }
}

/// The code points of each string.
pub fn chars_of_all(v: &Vec<String>) -> (res: Vec<Vec<char>>)
    ensures
        res@.len() == v@.len(),
        forall|i: int| 0 <= i < v@.len() ==> (#[trigger] res@[i])@ == v@[i]@,
{
    let mut res: Vec<Vec<char>> = Vec::new();
    for i in 0..v.len()
        invariant
            res@.len() == i,
            forall|t: int| 0 <= t < i ==> (#[trigger] res@[t])@ == v@[t]@,
    {
        res.push(chars_of(v[i].as_str()));
    }
    res
}

/// The strings of `v` in lexicographic order.
pub fn sort_names(v: &Vec<String>) -> (res: Vec<String>)
    ensures
        lex_sorted(string_views(res@)),
        string_views(res@).to_multiset() == string_views(v@).to_multiset(),
{
    broadcast use vstd::seq_lib::to_multiset_build;
    broadcast use vstd::seq_lib::to_multiset_insert;

    let keys = chars_of_all(v);
    let mut out: Vec<String> = Vec::new();
    let mut out_keys: Vec<Vec<char>> = Vec::new();
    assert(string_views(v@).take(0) =~= Seq::<Seq<char>>::empty());
    assert(string_views(out@) =~= Seq::<Seq<char>>::empty());
    for i in 0..v.len()
        invariant
            keys@.len() == v@.len(),
            forall|t: int| 0 <= t < v@.len() ==> (#[trigger] keys@[t])@ == v@[t]@,
            out_keys@.len() == out@.len(),
            forall|t: int| 0 <= t < out@.len() ==> (#[trigger] out_keys@[t])@ == out@[t]@,
            lex_sorted(string_views(out@)),
            string_views(out@).to_multiset() == string_views(v@).take(i as int).to_multiset(),
    {
        let x = &keys[i];
        let mut pos: usize = 0;
        while pos < out_keys.len() && !chars_lt(x, &out_keys[pos])
            invariant
                pos <= out_keys@.len(),
                out_keys@.len() == out@.len(),
                forall|t: int| 0 <= t < out@.len() ==> (#[trigger] out_keys@[t])@ == out@[t]@,
                forall|t: int| 0 <= t < pos ==> !lex_lt(x@, #[trigger] string_views(out@)[t]),
            decreases out_keys@.len() - pos,
        {
            pos = pos + 1;
        }
        let ghost before = string_views(out@);
        let ghost xv = v@[i as int]@;
        out.insert(pos, v[i].clone());
        out_keys.insert(pos, chars_of(v[i].as_str()));
        proof {
            let after = string_views(out@);
            assert(after =~= before.insert(pos as int, xv));
            assert(x@ == xv);
            assert forall|a: int, b: int| 0 <= a < b < after.len() implies !lex_lt(
                #[trigger] after[b],
                #[trigger] after[a],
            ) by {
                if b < pos {
                    assert(after[a] == before[a] && after[b] == before[b]);
                } else if b == pos {
                    assert(after[a] == before[a]);
                    lemma_lex_asymmetric(xv, before[a]);
                } else if a < pos {
                    assert(after[a] == before[a] && after[b] == before[b - 1]);
                } else if a == pos {
                    assert(after[b] == before[b - 1]);
                    // x < before[pos] <= before[b - 1]
                    assert(lex_lt(xv, before[pos as int]));
                    if before[b - 1] != before[pos as int] {
                        lemma_lex_total(before[b - 1], before[pos as int]);
                        lemma_lex_transitive(xv, before[pos as int], before[b - 1]);
                    }
                    lemma_lex_asymmetric(xv, before[b - 1]);
                } else {
                    assert(after[a] == before[a - 1] && after[b] == before[b - 1]);
                }
            }
            assert(string_views(v@).take(i + 1) =~= string_views(v@).take(i as int).push(xv));
            vstd::seq_lib::to_multiset_insert(before, pos as int, xv);
            vstd::seq_lib::to_multiset_build(string_views(v@).take(i as int), xv);
        }
    }
    assert(string_views(v@).take(v@.len() as int) =~= string_views(v@));
    out
}

/// Index `i` comes before index `j`: its name is smaller, or the names are equal and `i`
/// is the smaller index.
pub open spec fn idx_before(nm: Seq<Seq<char>>, i: int, j: int) -> bool {
    lex_lt(nm[i], nm[j]) || (nm[i] == nm[j] && i < j)
}

/// The first `k` indices of `names` in name order, ties kept in index order; all of them
/// when there are no more than `k`.
pub fn first_indices_by_name(names: &Vec<String>, k: usize) -> (res: Vec<usize>)
    ensures
        res@.len() == if k < names@.len() {
            k as int
        } else {
            names@.len() as int
        },
        forall|t: int| 0 <= t < res@.len() ==> (#[trigger] res@[t]) < names@.len(),
        forall|a: int, b: int|
            0 <= a < b < res@.len() ==> idx_before(
                string_views(names@),
                #[trigger] res@[a] as int,
                #[trigger] res@[b] as int,
            ),
        forall|j: int, t: int|
            0 <= j < names@.len() && !res@.contains(j as usize) && 0 <= t < res@.len() ==> #[trigger] idx_before(
                string_views(names@),
                res@[t] as int,
                j,
            ),
{
    let ghost nm = string_views(names@);
    let keys = chars_of_all(names);
    let n = names.len();
    let mut out: Vec<usize> = Vec::new();
    for i in 0..n
        invariant
            n == names@.len(),
            nm == string_views(names@),
            keys@.len() == n,
            forall|t: int| 0 <= t < n ==> (#[trigger] keys@[t])@ == names@[t]@,
            out@.len() == i,
            forall|t: int| 0 <= t < i ==> (#[trigger] out@[t]) < i,
            forall|j: usize| j < i ==> #[trigger] out@.contains(j),
            forall|a: int, b: int|
                0 <= a < b < i ==> idx_before(nm, #[trigger] out@[a] as int, #[trigger] out@[b] as int),
    {
        let mut pos: usize = 0;
        while pos < out.len() && !chars_lt(&keys[i], &keys[out[pos]])
            invariant
                pos <= out@.len(),
                out@.len() == i,
                i < n,
                keys@.len() == n,
                forall|t: int| 0 <= t < i ==> (#[trigger] out@[t]) < i,
                forall|t: int| 0 <= t < pos ==> !lex_lt(keys@[i as int]@, #[trigger] keys@[out@[t] as int]@),
            decreases out@.len() - pos,
        {
            pos = pos + 1;
        }
        let ghost before = out@;
        out.insert(pos, i);
        proof {
            let after = out@;
            assert(after =~= before.insert(pos as int, i));
            assert(keys@[i as int]@ == nm[i as int]);
            assert forall|t: int| 0 <= t < before.len() implies keys@[before[t] as int]@ == nm[before[t] as int] by {
                assert(before[t] < n);
            }
            assert forall|a: int, b: int| 0 <= a < b < i + 1 implies idx_before(
                nm,
                #[trigger] after[a] as int,
                #[trigger] after[b] as int,
            ) by {
                if b < pos {
                    assert(after[a] == before[a] && after[b] == before[b]);
                } else if b == pos {
                    assert(after[a] == before[a]);
                    assert(!lex_lt(nm[i as int], nm[before[a] as int]));
                    if nm[i as int] != nm[before[a] as int] {
                        lemma_lex_total(nm[i as int], nm[before[a] as int]);
                    }
                } else if a < pos {
                    assert(after[a] == before[a] && after[b] == before[b - 1]);
                } else if a == pos {
                    let p = before[pos as int] as int;
                    let q = before[b - 1] as int;
                    assert(after[b] == before[b - 1]);
                    assert(lex_lt(nm[i as int], nm[p]));
                    if b - 1 > pos {
                        assert(idx_before(nm, p, q));
                        if nm[p] != nm[q] {
                            lemma_lex_transitive(nm[i as int], nm[p], nm[q]);
                        }
                    }
                } else {
                    assert(after[a] == before[a - 1] && after[b] == before[b - 1]);
                }
            }
            assert forall|j: usize| j < i + 1 implies #[trigger] after.contains(j) by {
                if j < i {
                    assert(before.contains(j));
                    let t = choose|t: int| 0 <= t < before.len() && before[t] == j;
                    if t < pos {
                        assert(after[t] == before[t]);
                    } else {
                        assert(after[t + 1] == before[t]);
                    }
                } else {
                    assert(after[pos as int] == i);
                }
            }
            assert forall|t: int| 0 <= t < i + 1 implies (#[trigger] after[t]) < i + 1 by {
                if t < pos {
                    assert(after[t] == before[t]);
                } else if t > pos {
                    assert(after[t] == before[t - 1]);
                }
            }
        }
    }
    let m = if k < n {
        k
    } else {
        n
    };
    let mut res: Vec<usize> = Vec::new();
    for t in 0..m
        invariant
            m <= n,
            out@.len() == n,
            res@ == out@.take(t as int),
    {
        res.push(out[t]);
        assert(res@ =~= out@.take(t + 1));
    }
    proof {
        assert forall|j: int, t: int|
            0 <= j < n && !res@.contains(j as usize) && 0 <= t < m implies #[trigger] idx_before(
                nm,
                res@[t] as int,
                j,
            ) by {
            assert(out@.contains(j as usize));
            let p = choose|p: int| 0 <= p < out@.len() && out@[p] == j as usize;
            if p < m {
                assert(res@[p] == out@[p]);
            }
            assert(res@[t] == out@[t]);
        }
    }
    res
}

/// Index `i` comes before index `j` by key, ties kept in index order.
pub open spec fn key_before(keys: Seq<u8>, i: int, j: int) -> bool {
    keys[i] < keys[j] || (keys[i] == keys[j] && i < j)
}

/// `order` lists every index of `keys` once, by key, ties in index order: the order a
/// stable sort by key gives.
pub open spec fn is_stable_order(keys: Seq<u8>, order: Seq<usize>) -> bool {
    &&& order.len() == keys.len()
    &&& forall|t: int| 0 <= t < order.len() ==> (#[trigger] order[t]) < keys.len()
    &&& forall|i: usize| i < keys.len() ==> #[trigger] order.contains(i)
    &&& forall|a: int, b: int|
        0 <= a < b < order.len() ==> key_before(keys, #[trigger] order[a] as int, #[trigger] order[b] as int)
}

/// A stable order is a permutation: no index occurs twice.
pub proof fn lemma_stable_order_distinct(keys: Seq<u8>, order: Seq<usize>)
    requires
        is_stable_order(keys, order),
    ensures
        order.no_duplicates(),
{
    assert forall|a: int, b: int| 0 <= a < order.len() && 0 <= b < order.len() && a != b implies order[a]
        != order[b] by {
        if a < b {
            assert(key_before(keys, order[a] as int, order[b] as int));
        } else {
            assert(key_before(keys, order[b] as int, order[a] as int));
        }
    }
}

/// Two stable orders of the same keys agree on their first `t` positions.
pub proof fn lemma_stable_order_prefix(keys: Seq<u8>, o1: Seq<usize>, o2: Seq<usize>, t: int)
    requires
        is_stable_order(keys, o1),
        is_stable_order(keys, o2),
        0 <= t <= o1.len(),
    ensures
        forall|p: int| 0 <= p < t ==> o1[p] == o2[p],
    decreases t,
{
    if t > 0 {
        lemma_stable_order_prefix(keys, o1, o2, t - 1);
        lemma_stable_order_distinct(keys, o1);
        lemma_stable_order_distinct(keys, o2);
        let x = o1[t - 1];
        let y = o2[t - 1];
        if x != y {
            assert(o1.contains(y));
            let q = choose|q: int| 0 <= q < o1.len() && o1[q] == y;
            assert(o2.contains(x));
            let p = choose|p: int| 0 <= p < o2.len() && o2[p] == x;
            if q < t - 1 {
                assert(o2[q] == y);
            }
            if p < t - 1 {
                assert(o1[p] == x);
            }
            assert(key_before(keys, x as int, y as int));
            assert(key_before(keys, y as int, x as int));
        }
    }
}

/// There is only one stable order of a key sequence.
pub proof fn lemma_stable_order_unique(keys: Seq<u8>, o1: Seq<usize>, o2: Seq<usize>)
    requires
        is_stable_order(keys, o1),
        is_stable_order(keys, o2),
    ensures
        o1 == o2,
{
    lemma_stable_order_prefix(keys, o1, o2, o1.len() as int);
    assert(o1 =~= o2);
}

/// The indices of `keys` in the order a stable sort by key puts them.
pub fn stable_key_order(keys: &Vec<u8>) -> (res: Vec<usize>)
    ensures
        is_stable_order(keys@, res@),
{
    let n = keys.len();
    let mut out: Vec<usize> = Vec::new();
    let mut kv: u16 = 0;
    while kv < 256
        invariant
            n == keys@.len(),
            kv <= 256,
            forall|t: int| 0 <= t < out@.len() ==> (#[trigger] out@[t]) < n,
            forall|t: int| 0 <= t < out@.len() ==> (keys@[#[trigger] out@[t] as int] as int) < kv,
            forall|i: usize| i < n && (keys@[i as int] as int) < kv ==> #[trigger] out@.contains(i),
            forall|a: int, b: int|
                0 <= a < b < out@.len() ==> key_before(keys@, #[trigger] out@[a] as int, #[trigger] out@[b] as int),
        decreases 256 - kv,
    {
        let ghost start = out@.len();
        let mut i: usize = 0;
        while i < n
            invariant
                n == keys@.len(),
                kv < 256,
                i <= n,
                start <= out@.len(),
                forall|t: int| 0 <= t < out@.len() ==> (#[trigger] out@[t]) < n,
                forall|t: int| 0 <= t < start ==> (keys@[#[trigger] out@[t] as int] as int) < kv,
                forall|t: int| start <= t < out@.len() ==> keys@[#[trigger] out@[t] as int] as int == kv
                    && out@[t] < i,
                forall|j: usize| j < n && (keys@[j as int] as int) < kv ==> #[trigger] out@.contains(j),
                forall|j: usize| j < i && keys@[j as int] as int == kv ==> #[trigger] out@.contains(j),
                forall|a: int, b: int|
                    0 <= a < b < out@.len() ==> key_before(keys@, #[trigger] out@[a] as int, #[trigger] out@[b] as int),
            decreases n - i,
        {
            if keys[i] as u16 == kv {
                let ghost before = out@;
                out.push(i);
                proof {
                    assert forall|j: usize| j < n && (keys@[j as int] as int) < kv implies #[trigger] out@.contains(j) by {
                        assert(before.contains(j));
                        let t = choose|t: int| 0 <= t < before.len() && before[t] == j;
                        assert(out@[t] == j);
                    }
                    assert forall|j: usize| j < i + 1 && keys@[j as int] as int == kv implies #[trigger] out@.contains(j) by {
                        if j < i {
                            assert(before.contains(j));
                            let t = choose|t: int| 0 <= t < before.len() && before[t] == j;
                            assert(out@[t] == j);
                        } else {
                            assert(out@[before.len() as int] == j);
                        }
                    }
                }
            }
            i = i + 1;
        }
        kv = kv + 1;
    }
    proof {
        assert forall|i: usize| i < n implies #[trigger] out@.contains(i) by {
            assert((keys@[i as int] as int) < 256);
        }
        let nat_seq = Seq::new(n as nat, |i: int| i as usize);
        assert forall|t: int| 0 <= t < out@.len() implies nat_seq.contains(#[trigger] out@[t]) by {
            assert(nat_seq[out@[t] as int] == out@[t]);
        }
        assert forall|t: int| 0 <= t < n implies out@.contains(#[trigger] nat_seq[t]) by {
            assert(out@.contains(t as usize));
        }
        assert(out@.no_duplicates()) by {
            assert forall|a: int, b: int| 0 <= a < out@.len() && 0 <= b < out@.len() && a != b implies out@[a]
                != out@[b] by {
                if a < b {
                    assert(key_before(keys@, out@[a] as int, out@[b] as int));
                } else {
                    assert(key_before(keys@, out@[b] as int, out@[a] as int));
                }
            }
        }
        assert(nat_seq.no_duplicates());
        crate::topology::lemma_distinct_len(out@, nat_seq);
        crate::topology::lemma_distinct_len(nat_seq, out@);
    }
    out
}

/// The elements of `v` arranged by `order`: position `t` holds `v[order[t]]`.
pub fn permute<T>(v: Vec<T>, order: &Vec<usize>) -> (res: Vec<T>)
    requires
        order@.len() == v@.len(),
        order@.no_duplicates(),
        forall|t: int| 0 <= t < order@.len() ==> (#[trigger] order@[t]) < v@.len(),
    ensures
        res@.len() == v@.len(),
        forall|t: int| 0 <= t < res@.len() ==> #[trigger] res@[t] == v@[order@[t] as int],
{
    let n = v.len();
    let ghost orig = v@;
    let mut rest = v;
    let mut slots: Vec<Option<T>> = Vec::new();
    while rest.len() > 0
        invariant
            slots@.len() + rest@.len() == n,
            orig.len() == n,
            forall|j: int| 0 <= j < slots@.len() ==> #[trigger] slots@[j] == Some(orig[j]),
            forall|j: int| 0 <= j < rest@.len() ==> #[trigger] rest@[j] == orig[slots@.len() + j],
        decreases rest@.len(),
    {
        let x = rest.remove(0);
        slots.push(Some(x));
    }
    let mut res: Vec<T> = Vec::new();
    for t in 0..n
        invariant
            n == order@.len(),
            orig.len() == n,
            slots@.len() == n,
            order@.no_duplicates(),
            forall|p: int| 0 <= p < n ==> (#[trigger] order@[p]) < n,
            res@.len() == t,
            forall|p: int| 0 <= p < t ==> #[trigger] res@[p] == orig[order@[p] as int],
            forall|j: int|
                0 <= j < n ==> (#[trigger] slots@[j] == Some(orig[j])) || (exists|p: int|
                    0 <= p < t && order@[p] as int == j),
    {
        let o = order[t];
        proof {
            if slots@[o as int] != Some(orig[o as int]) {
                let p = choose|p: int| 0 <= p < t && order@[p] as int == o as int;
                assert(order@[p] == order@[t as int]);
            }
        }
        let taken = slots[o].take();
        match taken {
            Some(x) => {
                res.push(x);
            },
            None => {
                proof {
                    assert(false);
                }
            },
        }
        proof {
            assert forall|j: int| 0 <= j < n implies (#[trigger] slots@[j] == Some(orig[j])) || (exists|p: int|
                0 <= p < t + 1 && order@[p] as int == j) by {
                if j == o as int {
                    assert(order@[t as int] as int == j);
                }
            }
        }
    }
    res
}

/// The values of `v` in increasing order.
pub fn sort_levels(v: &Vec<u8>) -> (res: Vec<u8>)
    ensures
        res@.to_multiset() == v@.to_multiset(),
        forall|a: int, b: int| 0 <= a < b < res@.len() ==> #[trigger] res@[a] <= #[trigger] res@[b],
{
    let mut out: Vec<u8> = Vec::new();
    assert(v@.take(0) =~= Seq::<u8>::empty());
    for i in 0..v.len()
        invariant
            out@.to_multiset() == v@.take(i as int).to_multiset(),
            forall|a: int, b: int| 0 <= a < b < out@.len() ==> #[trigger] out@[a] <= #[trigger] out@[b],
    {
        let x = v[i];
        let mut pos: usize = 0;
        while pos < out.len() && out[pos] <= x
            invariant
                pos <= out@.len(),
                forall|t: int| 0 <= t < pos ==> #[trigger] out@[t] <= x,
            decreases out@.len() - pos,
        {
            pos = pos + 1;
        }
        let ghost before = out@;
        out.insert(pos, x);
        proof {
            assert(out@ =~= before.insert(pos as int, x));
            vstd::seq_lib::to_multiset_insert(before, pos as int, x);
            assert(v@.take(i + 1) =~= v@.take(i as int).push(x));
            vstd::seq_lib::to_multiset_build(v@.take(i as int), x);
            assert forall|a: int, b: int| 0 <= a < b < out@.len() implies #[trigger] out@[a] <= #[trigger] out@[b] by {
                if b < pos {
                    assert(out@[a] == before[a] && out@[b] == before[b]);
                } else if b == pos {
                    assert(out@[a] == before[a]);
                } else if a < pos {
                    assert(out@[a] == before[a] && out@[b] == before[b - 1]);
                } else if a == pos {
                    assert(out@[b] == before[b - 1]);
                    assert(before[pos as int] > x);
                    assert(before[pos as int] <= before[b - 1]);
                } else {
                    assert(out@[a] == before[a - 1] && out@[b] == before[b - 1]);
                }
            }
        }
    }
    assert(v@.take(v@.len() as int) =~= v@);
    out
}

} // verus!
