//! Stable ordering of items by an optional text key.
use vstd::prelude::*;
use crate::text::{lex_lt, lex_less};

verus! {

/// Strict order on optional text keys: an absent key comes first, present
/// keys compare lexicographically.
pub open spec fn key_lt(a: Option<Seq<char>>, b: Option<Seq<char>>) -> bool {
    match (a, b) {
        (None, Some(_)) => true,
        (Some(x), Some(y)) => lex_lt(x, y),
        _ => false,
    }
}

/// The characters of each present key.
pub open spec fn key_views(keys: Seq<Option<String>>) -> Seq<Option<Seq<char>>> {
    keys.map_values(|o: Option<String>| key_view(o))
}

pub open spec fn key_view(o: Option<String>) -> Option<Seq<char>> {
    match o {
        Some(s) => Some(s@),
        None => None,
    }
}

/// Whether item `a` must come strictly before item `b`: by ascending key, or
/// by descending key when `desc` holds.
pub open spec fn precedes(keys: Seq<Option<Seq<char>>>, desc: bool, a: usize, b: usize) -> bool {
    if desc {
        key_lt(keys[b as int], keys[a as int])
    } else {
        key_lt(keys[a as int], keys[b as int])
    }
}

/// `t` with `x` placed after every item that need not follow it.
pub open spec fn insert_stable(
    t: Seq<usize>,
    x: usize,
    keys: Seq<Option<Seq<char>>>,
    desc: bool,
) -> Seq<usize>
    decreases t.len(),
{
    if t.len() == 0 {
        seq![x]
    } else if !precedes(keys, desc, x, t.last()) {
        t.push(x)
    } else {
        insert_stable(t.drop_last(), x, keys, desc).push(t.last())
    }
}

/// The items of `s` in key order; items with equal keys keep their order in `s`.
pub open spec fn stable_sorted(s: Seq<usize>, keys: Seq<Option<Seq<char>>>, desc: bool) -> Seq<
    usize,
>
    decreases s.len(),
{
    if s.len() == 0 {
        Seq::empty()
    } else {
        insert_stable(stable_sorted(s.drop_last(), keys, desc), s.last(), keys, desc)
    }
}

/// No item of `s` must come before an item that stands earlier in `s`.
pub open spec fn is_ordered(s: Seq<usize>, keys: Seq<Option<Seq<char>>>, desc: bool) -> bool {
    forall|i: int, j: int| 0 <= i < j < s.len() ==> !precedes(keys, desc, s[j], s[i])
}

pub open spec fn indices_below(s: Seq<usize>, n: nat) -> bool {
    forall|i: int| 0 <= i < s.len() ==> (#[trigger] s[i] as nat) < n
}

pub proof fn lemma_lex_irreflexive(a: Seq<char>)
    ensures
        !lex_lt(a, a),
    decreases a.len(),
{
    if a.len() > 0 {
        lemma_lex_irreflexive(a.drop_first());
    }
}

pub proof fn lemma_lex_transitive(a: Seq<char>, b: Seq<char>, c: Seq<char>)
    requires
        lex_lt(a, b),
        lex_lt(b, c),
    ensures
        lex_lt(a, c),
    decreases a.len(),
{
    if a.len() > 0 && b.len() > 0 && c.len() > 0 && a[0] == b[0] && b[0] == c[0] {
        lemma_lex_transitive(a.drop_first(), b.drop_first(), c.drop_first());
    }
}

proof fn lemma_char_code_injective(c: char, d: char)
    ensures
        (c as u32) == (d as u32) ==> c == d,
{
}

pub proof fn lemma_lex_total(a: Seq<char>, b: Seq<char>)
    ensures
        a == b || lex_lt(a, b) || lex_lt(b, a),
    decreases a.len(),
{
    if a.len() > 0 && b.len() > 0 {
        if a[0] == b[0] {
            lemma_lex_total(a.drop_first(), b.drop_first());
            if a.drop_first() == b.drop_first() {
                assert(a =~= seq![a[0]] + a.drop_first());
                assert(b =~= seq![b[0]] + b.drop_first());
            }
        } else {
            lemma_char_code_injective(a[0], b[0]);
        }
    } else if a.len() == 0 && b.len() == 0 {
        assert(a =~= b);
    }
}

/// `key_lt` is irreflexive and transitive, and orders any two distinct keys.
pub proof fn lemma_key_order(a: Option<Seq<char>>, b: Option<Seq<char>>, c: Option<Seq<char>>)
    ensures
        !key_lt(a, a),
        key_lt(a, b) && key_lt(b, c) ==> key_lt(a, c),
        a == b || key_lt(a, b) || key_lt(b, a),
        !key_lt(b, a) && !key_lt(c, b) ==> !key_lt(c, a),
{
    if let Some(x) = a {
        lemma_lex_irreflexive(x);
    }
    if let (Some(x), Some(y), Some(z)) = (a, b, c) {
        if lex_lt(x, y) && lex_lt(y, z) {
            lemma_lex_transitive(x, y, z);
        }
        lemma_lex_total(x, y);
        lemma_lex_total(y, z);
        lemma_lex_total(x, z);
        if lex_lt(z, x) && lex_lt(x, y) {
            lemma_lex_transitive(z, x, y);
        }
        if lex_lt(y, z) && lex_lt(z, x) {
            lemma_lex_transitive(y, z, x);
        }
    }
    if let (Some(x), Some(y)) = (a, b) {
        lemma_lex_total(x, y);
    }
}

proof fn lemma_precedes_order(keys: Seq<Option<Seq<char>>>, desc: bool, a: usize, b: usize, c: usize)
    requires
        a < keys.len(),
        b < keys.len(),
        c < keys.len(),
    ensures
        !precedes(keys, desc, b, a) && !precedes(keys, desc, c, b) ==> !precedes(keys, desc, c, a),
        precedes(keys, desc, a, b) ==> !precedes(keys, desc, b, a),
{
    let (ka, kb, kc) = (keys[a as int], keys[b as int], keys[c as int]);
    lemma_key_order(ka, kb, kc);
    lemma_key_order(kc, kb, ka);
    lemma_key_order(ka, kb, ka);
    lemma_key_order(kb, ka, kb);
}

proof fn lemma_insert_multiset(t: Seq<usize>, x: usize, keys: Seq<Option<Seq<char>>>, desc: bool)
    ensures
        insert_stable(t, x, keys, desc).to_multiset() =~= t.to_multiset().insert(x),
    decreases t.len(),
{
    broadcast use vstd::seq_lib::group_to_multiset_ensures;

    if t.len() == 0 {
        assert(seq![x] =~= Seq::<usize>::empty().push(x));
    } else {
        assert(t =~= t.drop_last().push(t.last()));
        if precedes(keys, desc, x, t.last()) {
            lemma_insert_multiset(t.drop_last(), x, keys, desc);
        }
    }
}

/// Sorting keeps every item, as often as it occurs.
pub proof fn lemma_sorted_multiset(s: Seq<usize>, keys: Seq<Option<Seq<char>>>, desc: bool)
    ensures
        stable_sorted(s, keys, desc).to_multiset() =~= s.to_multiset(),
    decreases s.len(),
{
    broadcast use vstd::seq_lib::group_to_multiset_ensures;

    if s.len() > 0 {
        lemma_sorted_multiset(s.drop_last(), keys, desc);
        lemma_insert_multiset(stable_sorted(s.drop_last(), keys, desc), s.last(), keys, desc);
        assert(s =~= s.drop_last().push(s.last()));
    }
}

proof fn lemma_insert_ordered(t: Seq<usize>, x: usize, keys: Seq<Option<Seq<char>>>, desc: bool)
    requires
        is_ordered(t, keys, desc),
        indices_below(t, keys.len()),
        (x as nat) < keys.len(),
    ensures
        is_ordered(insert_stable(t, x, keys, desc), keys, desc),
        indices_below(insert_stable(t, x, keys, desc), keys.len()),
    decreases t.len(),
{
    broadcast use vstd::seq_lib::group_to_multiset_ensures;

    let r = insert_stable(t, x, keys, desc);
    if t.len() == 0 {
    } else if !precedes(keys, desc, x, t.last()) {
        assert forall|i: int, j: int| 0 <= i < j < r.len() implies !precedes(
            keys,
            desc,
            r[j],
            r[i],
        ) by {
            if j == t.len() {
                lemma_precedes_order(keys, desc, t[i], t.last(), x);
            }
        }
    } else {
        let u = t.drop_last();
        let l = t.last();
        lemma_insert_ordered(u, x, keys, desc);
        let r2 = insert_stable(u, x, keys, desc);
        lemma_insert_multiset(u, x, keys, desc);
        assert forall|i: int| 0 <= i < r2.len() implies !precedes(keys, desc, l, #[trigger] r2[i]) by {
            assert(r2.to_multiset().count(r2[i]) > 0);
            if r2[i] == x {
                lemma_precedes_order(keys, desc, x, l, x);
            } else {
                assert(u.to_multiset().count(r2[i]) > 0);
                let k = choose|k: int| 0 <= k < u.len() && u[k] == r2[i];
                assert(t[k] == u[k]);
            }
        }
        assert forall|i: int, j: int| 0 <= i < j < r.len() implies !precedes(
            keys,
            desc,
            r[j],
            r[i],
        ) by {
            if j < r2.len() {
                assert(r[i] == r2[i] && r[j] == r2[j]);
            } else {
                assert(r[i] == r2[i]);
            }
        }
        assert forall|i: int| 0 <= i < r.len() implies (#[trigger] r[i] as nat) < keys.len() by {
            if i < r2.len() {
                assert(r[i] == r2[i]);
            }
        }
    }
}

/// The result of sorting is in key order.
pub proof fn lemma_sorted_ordered(s: Seq<usize>, keys: Seq<Option<Seq<char>>>, desc: bool)
    requires
        indices_below(s, keys.len()),
    ensures
        is_ordered(stable_sorted(s, keys, desc), keys, desc),
        indices_below(stable_sorted(s, keys, desc), keys.len()),
    decreases s.len(),
{
    if s.len() > 0 {
        let u = s.drop_last();
        assert(indices_below(u, keys.len()));
        lemma_sorted_ordered(u, keys, desc);
        assert((s.last() as nat) < keys.len());
        lemma_insert_ordered(stable_sorted(u, keys, desc), s.last(), keys, desc);
    }
}

proof fn lemma_insert_stable_shape(
    t: Seq<usize>,
    x: usize,
    keys: Seq<Option<Seq<char>>>,
    desc: bool,
    j: int,
)
    requires
        0 <= j <= t.len(),
        forall|k: int| j <= k < t.len() ==> precedes(keys, desc, x, #[trigger] t[k]),
        j == 0 || !precedes(keys, desc, x, t[j - 1]),
    ensures
        insert_stable(t, x, keys, desc) == t.subrange(0, j).push(x) + t.subrange(j, t.len() as int),
    decreases t.len(),
{
    if t.len() == 0 {
        assert(t.subrange(0, j).push(x) + t.subrange(j, t.len() as int) =~= seq![x]);
    } else if j == t.len() {
        assert(t.subrange(0, j) =~= t);
        assert(t.subrange(0, j).push(x) + t.subrange(j, t.len() as int) =~= t.push(x));
    } else {
        let u = t.drop_last();
        assert forall|k: int| j <= k < u.len() implies precedes(keys, desc, x, #[trigger] u[k]) by {
            assert(u[k] == t[k]);
        }
        lemma_insert_stable_shape(u, x, keys, desc, j);
        assert(u.subrange(0, j) =~= t.subrange(0, j));
        assert((u.subrange(0, j).push(x) + u.subrange(j, u.len() as int)).push(t.last()) =~= t.subrange(0, j).push(x) + t.subrange(j, t.len() as int));
    }
}

/// Orders `items` by their keys in `keys`: ascending, or descending when
/// `desc` holds; items with equal keys keep their relative order.
pub fn stable_sort(items: &Vec<usize>, keys: &Vec<Option<String>>, desc: bool) -> (r: Vec<usize>)
    requires
        indices_below(items@, keys@.len()),
    ensures
        r@ == stable_sorted(items@, key_views(keys@), desc),
{
    let ghost kv = key_views(keys@);
    let mut out: Vec<usize> = Vec::new();
    let mut i: usize = 0;
    while i < items.len()
        invariant
            i <= items@.len(),
            indices_below(items@, keys@.len()),
            kv == key_views(keys@),
            out@ == stable_sorted(items@.subrange(0, i as int), kv, desc),
            indices_below(out@, keys@.len()),
        decreases items@.len() - i,
    {
        let x = items[i];
        let mut j = out.len();
        while j > 0 && precedes_exec(keys, desc, x, out[j - 1])
            invariant
                j <= out@.len(),
                x < keys@.len(),
                kv == key_views(keys@),
                indices_below(out@, keys@.len()),
                forall|k: int| j <= k < out@.len() ==> precedes(kv, desc, x, #[trigger] out@[k]),
            decreases j,
        {
            j -= 1;
        }
        proof {
            lemma_insert_stable_shape(out@, x, kv, desc, j as int);
            let p = items@.subrange(0, i + 1);
            assert(p.drop_last() =~= items@.subrange(0, i as int));
            assert(out@.insert(j as int, x) =~= out@.subrange(0, j as int).push(x) + out@.subrange(j as int, out@.len() as int));
        }
        out.insert(j, x);
        i += 1;
    }
    assert(items@.subrange(0, items@.len() as int) =~= items@);
    out
}

fn key_less(a: &Option<String>, b: &Option<String>) -> (r: bool)
    ensures
        r == key_lt(key_view(*a), key_view(*b)),
{
    match (a, b) {
        (None, Some(_)) => true,
        (Some(x), Some(y)) => lex_less(x.as_str(), y.as_str()),
        _ => false,
    }
}

fn precedes_exec(keys: &Vec<Option<String>>, desc: bool, a: usize, b: usize) -> (r: bool)
    requires
        a < keys@.len(),
        b < keys@.len(),
    ensures
        r == precedes(key_views(keys@), desc, a, b),
{
    if desc {
        key_less(&keys[b], &keys[a])
    } else {
        key_less(&keys[a], &keys[b])
    }
}

} // verus!
