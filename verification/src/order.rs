//! The drawing order: a walk of the element tree from the entry, then a stable sort by z-index.

use vstd::prelude::*;

use crate::element::{child_keys, Element, ElementKey};

verus! {

/// The visible elements reached from `key`, in pre-order: an element before its
/// children, and children in the order the layout visits them.
///
/// Only elements at a depth below `depth` are visited. The tree is walked to a depth of
/// the number of elements, which a walk along distinct elements never reaches.
pub open spec fn preorder<Msg: Clone>(
    m: Map<ElementKey, Element<Msg>>,
    key: ElementKey,
    depth: nat,
) -> Seq<ElementKey>
    decreases depth, 0nat,
{
    if depth == 0 || !m.contains_key(key) || !m[key].visible {
        Seq::empty()
    } else {
        seq![key] + preorder_all(m, child_keys(m[key].children), (depth - 1) as nat)
    }
}

/// The pre-orders from each of `keys`, one after another.
pub open spec fn preorder_all<Msg: Clone>(
    m: Map<ElementKey, Element<Msg>>,
    keys: Seq<ElementKey>,
    depth: nat,
) -> Seq<ElementKey>
    decreases depth, keys.len() + 1,
{
    if keys.len() == 0 {
        Seq::empty()
    } else {
        preorder_all(m, keys.drop_last(), depth) + preorder(m, keys.last(), depth)
    }
}

/// `rank` decreases from every visible held element to each of its children: the
/// children relation has no cycle through visible elements.
pub open spec fn ranked<Msg: Clone>(
    m: Map<ElementKey, Element<Msg>>,
    rank: spec_fn(ElementKey) -> nat,
) -> bool {
    forall|p: ElementKey, c: ElementKey|
        #![trigger rank(p), child_keys(m[p].children).contains(c)]
        m.contains_key(p) && m[p].visible && child_keys(m[p].children).contains(c) ==> rank(c) < rank(p)
}

/// Law of the walk: when the children relation has no cycle through visible elements,
/// any depth above the rank of the start visits the same elements; the depth only cuts
/// cycles off.
pub proof fn lemma_preorder_depth<Msg: Clone>(
    m: Map<ElementKey, Element<Msg>>,
    rank: spec_fn(ElementKey) -> nat,
    key: ElementKey,
    d1: nat,
    d2: nat,
)
    requires
        ranked(m, rank),
        d1 > rank(key),
        d2 > rank(key),
    ensures
        preorder(m, key, d1) == preorder(m, key, d2),
    decreases rank(key) + 1, 0nat,
{
    if m.contains_key(key) && m[key].visible {
        let keys = child_keys(m[key].children);
        assert forall|i: int| 0 <= i < keys.len() implies rank(#[trigger] keys[i]) < rank(key) by {
            assert(keys.contains(keys[i]));
        }
        lemma_preorder_all_depth(m, rank, rank(key), keys, (d1 - 1) as nat, (d2 - 1) as nat);
    }
}

proof fn lemma_preorder_all_depth<Msg: Clone>(
    m: Map<ElementKey, Element<Msg>>,
    rank: spec_fn(ElementKey) -> nat,
    bound: nat,
    keys: Seq<ElementKey>,
    d1: nat,
    d2: nat,
)
    requires
        ranked(m, rank),
        forall|i: int| 0 <= i < keys.len() ==> rank(#[trigger] keys[i]) < bound,
        d1 >= bound,
        d2 >= bound,
    ensures
        preorder_all(m, keys, d1) == preorder_all(m, keys, d2),
    decreases bound, keys.len() + 1,
{
    if keys.len() > 0 {
        assert forall|i: int| 0 <= i < keys.drop_last().len() implies rank(
            #[trigger] keys.drop_last()[i],
        ) < bound by {
            assert(keys.drop_last()[i] == keys[i]);
        }
        lemma_preorder_all_depth(m, rank, bound, keys.drop_last(), d1, d2);
        assert(rank(keys[keys.len() - 1]) < bound);
        lemma_preorder_depth(m, rank, keys.last(), d1, d2);
    }
}

/// The elements reached from `key`, visible or not, in pre-order; only elements at a
/// depth below `depth` are visited.
pub open spec fn subtree<Msg: Clone>(
    m: Map<ElementKey, Element<Msg>>,
    key: ElementKey,
    depth: nat,
) -> Seq<ElementKey>
    decreases depth, 0nat,
{
    if depth == 0 || !m.contains_key(key) {
        Seq::empty()
    } else {
        seq![key] + subtree_all(m, child_keys(m[key].children), (depth - 1) as nat)
    }
}

/// The subtrees of each of `keys`, one after another.
pub open spec fn subtree_all<Msg: Clone>(
    m: Map<ElementKey, Element<Msg>>,
    keys: Seq<ElementKey>,
    depth: nat,
) -> Seq<ElementKey>
    decreases depth, keys.len() + 1,
{
    if keys.len() == 0 {
        Seq::empty()
    } else {
        subtree_all(m, keys.drop_last(), depth) + subtree(m, keys.last(), depth)
    }
}

/// The predicate "is held and selectable".
pub open spec fn selectable_in<Msg: Clone>(m: Map<ElementKey, Element<Msg>>) -> spec_fn(
    ElementKey,
) -> bool {
    |k: ElementKey| m.contains_key(k) && m[k].selectable
}

/// The z-index of `k`, 0 for a key that holds no element.
pub open spec fn z_of<Msg: Clone>(m: Map<ElementKey, Element<Msg>>, k: ElementKey) -> int {
    if m.contains_key(k) {
        m[k].z_index as int
    } else {
        0
    }
}

/// The predicate "has z-index `z`".
pub open spec fn z_is<Msg: Clone>(m: Map<ElementKey, Element<Msg>>, z: int) -> spec_fn(
    ElementKey,
) -> bool {
    |k: ElementKey| z_of(m, k) == z
}

/// The keys of `s` whose z-index is `z`, in their order.
pub open spec fn with_z<Msg: Clone>(
    m: Map<ElementKey, Element<Msg>>,
    s: Seq<ElementKey>,
    z: int,
) -> Seq<ElementKey> {
    s.filter(z_is(m, z))
}

/// `s` is in non-decreasing order of z-index.
pub open spec fn sorted_by_z<Msg: Clone>(
    m: Map<ElementKey, Element<Msg>>,
    s: Seq<ElementKey>,
) -> bool {
    forall|i: int, j: int| 0 <= i < j < s.len() ==> z_of(m, #[trigger] s[i]) <= z_of(m, #[trigger] s[j])
}

/// `out` is `input` sorted by z-index, keys of equal z-index kept in their order.
pub open spec fn stable_sorted_by_z<Msg: Clone>(
    m: Map<ElementKey, Element<Msg>>,
    out: Seq<ElementKey>,
    input: Seq<ElementKey>,
) -> bool {
    &&& sorted_by_z(m, out)
    &&& forall|z: int| #[trigger] with_z(m, out, z) == with_z(m, input, z)
}

/// Law of the drawing order: a stable sort by z-index puts held elements in
/// non-decreasing order of their own `z_index` fields, negative ones included; a key
/// that holds no element sorts as z-index 0.
pub proof fn lemma_sorted_by_z_index<Msg: Clone>(
    m: Map<ElementKey, Element<Msg>>,
    out: Seq<ElementKey>,
    input: Seq<ElementKey>,
)
    requires
        stable_sorted_by_z(m, out, input),
    ensures
        forall|i: int, j: int|
            0 <= i < j < out.len() && m.contains_key(#[trigger] out[i]) && m.contains_key(
                #[trigger] out[j],
            ) ==> m[out[i]].z_index <= m[out[j]].z_index,
        forall|i: int, j: int|
            0 <= i < j < out.len() && m.contains_key(#[trigger] out[i]) && !m.contains_key(
                #[trigger] out[j],
            ) ==> m[out[i]].z_index <= 0,
        forall|i: int, j: int|
            0 <= i < j < out.len() && !m.contains_key(#[trigger] out[i]) && m.contains_key(
                #[trigger] out[j],
            ) ==> 0 <= m[out[j]].z_index,
{
    assert forall|i: int, j: int| 0 <= i < j < out.len() implies z_of(m, #[trigger] out[i]) <= z_of(
        m,
        #[trigger] out[j],
    ) by {}
}

/// A filter that keeps nothing gives the empty sequence.
pub proof fn lemma_filter_none<A>(s: Seq<A>, p: spec_fn(A) -> bool)
    requires
        forall|i: int| 0 <= i < s.len() ==> !p(#[trigger] s[i]),
    ensures
        s.filter(p) == Seq::<A>::empty(),
    decreases s.len(),
{
    reveal_with_fuel(Seq::filter, 1);
    if s.len() > 0 {
        lemma_filter_none(s.drop_last(), p);
        assert(!p(s[s.len() - 1]));
    }
}

/// Filtering a single item.
pub proof fn lemma_filter_single<A>(x: A, p: spec_fn(A) -> bool)
    ensures
        seq![x].filter(p) == (if p(x) {
            seq![x]
        } else {
            Seq::<A>::empty()
        }),
{
    reveal_with_fuel(Seq::filter, 2);
    assert(seq![x].drop_last() =~= Seq::<A>::empty());
}

/// Filtering an item added at the end.
pub proof fn lemma_filter_push<A>(s: Seq<A>, x: A, p: spec_fn(A) -> bool)
    ensures
        s.push(x).filter(p) == (if p(x) {
            s.filter(p).push(x)
        } else {
            s.filter(p)
        }),
{
    reveal_with_fuel(Seq::filter, 1);
    assert(s.push(x).drop_last() =~= s);
}

/// Inserting `x` after the keys of z-index at most its own and before those above it
/// adds `x` at the end of its own group and leaves the other groups as they were.
proof fn lemma_insert_groups<Msg: Clone>(
    m: Map<ElementKey, Element<Msg>>,
    out: Seq<ElementKey>,
    p: int,
    x: ElementKey,
)
    requires
        0 <= p <= out.len(),
        forall|j: int| 0 <= j < p ==> z_of(m, #[trigger] out[j]) <= z_of(m, x),
        forall|j: int| p <= j < out.len() ==> z_of(m, #[trigger] out[j]) > z_of(m, x),
    ensures
        forall|z: int| #[trigger]
            with_z(m, out.insert(p, x), z) == with_z(m, out, z) + with_z(m, seq![x], z),
{
    assert forall|z: int| #[trigger]
        with_z(m, out.insert(p, x), z) == with_z(m, out, z) + with_z(m, seq![x], z) by {
        let pred = z_is(m, z);
        let a = out.take(p);
        let b = out.skip(p);
        assert(out.insert(p, x) =~= a + seq![x] + b);
        assert(out =~= a + b);
        Seq::filter_distributes_over_add(a + seq![x], b, pred);
        Seq::filter_distributes_over_add(a, seq![x], pred);
        Seq::filter_distributes_over_add(a, b, pred);
        lemma_filter_single(x, pred);
        if z == z_of(m, x) {
            lemma_filter_none(b, pred);
            assert(with_z(m, out.insert(p, x), z) =~= with_z(m, out, z) + with_z(m, seq![x], z));
        } else {
            assert(with_z(m, out.insert(p, x), z) =~= with_z(m, out, z) + with_z(m, seq![x], z));
        }
    }
}

/// One step of the insertion sort keeps the output a stable sort of the input read so far.
pub proof fn lemma_insertion_step<Msg: Clone>(
    m: Map<ElementKey, Element<Msg>>,
    out: Seq<ElementKey>,
    input: Seq<ElementKey>,
    p: int,
    x: ElementKey,
)
    requires
        stable_sorted_by_z(m, out, input),
        0 <= p <= out.len(),
        p > 0 ==> z_of(m, out[p - 1]) <= z_of(m, x),
        forall|j: int| p <= j < out.len() ==> z_of(m, #[trigger] out[j]) > z_of(m, x),
    ensures
        stable_sorted_by_z(m, out.insert(p, x), input.push(x)),
{
    assert forall|j: int| 0 <= j < p implies z_of(m, #[trigger] out[j]) <= z_of(m, x) by {
        if j < p - 1 {
            assert(z_of(m, out[j]) <= z_of(m, out[p - 1]));
        }
    }
    lemma_insert_groups(m, out, p, x);
    let o2 = out.insert(p, x);
    assert forall|i: int, j: int| 0 <= i < j < o2.len() implies z_of(m, #[trigger] o2[i]) <= z_of(
        m,
        #[trigger] o2[j],
    ) by {
        if i < p && j < p {
            assert(o2[i] == out[i] && o2[j] == out[j]);
        } else if i < p && j == p {
        } else if i < p {
            assert(o2[i] == out[i] && o2[j] == out[j - 1]);
        } else if i == p {
            assert(o2[j] == out[j - 1]);
        } else {
            assert(o2[i] == out[i - 1] && o2[j] == out[j - 1]);
        }
    }
    assert forall|z: int| #[trigger] with_z(m, o2, z) == with_z(m, input.push(x), z) by {
        let pred = z_is(m, z);
        Seq::filter_distributes_over_add(input, seq![x], pred);
        assert(input.push(x) =~= input + seq![x]);
        assert(with_z(m, out, z) == with_z(m, input, z));
    }
}

/// Two stable sorts of the same keys are the same sequence.
pub proof fn lemma_stable_sort_unique<Msg: Clone>(
    m: Map<ElementKey, Element<Msg>>,
    a: Seq<ElementKey>,
    b: Seq<ElementKey>,
)
    requires
        sorted_by_z(m, a),
        sorted_by_z(m, b),
        forall|z: int| #[trigger] with_z(m, a, z) == with_z(m, b, z),
    ensures
        a == b,
    decreases a.len() + b.len(),
{
    if a.len() == 0 && b.len() == 0 {
        assert(a =~= b);
    } else if a.len() == 0 {
        let zb = z_of(m, b.last());
        lemma_filter_push(b.drop_last(), b.last(), z_is(m, zb));
        assert(b.drop_last().push(b.last()) =~= b);
        reveal_with_fuel(Seq::filter, 1);
        assert(with_z(m, a, zb).len() == 0);
        assert(z_is(m, zb)(b.last()));
        assert(with_z(m, b, zb) == with_z(m, b.drop_last(), zb).push(b.last()));
        assert(false);
    } else if b.len() == 0 {
        let za = z_of(m, a.last());
        lemma_filter_push(a.drop_last(), a.last(), z_is(m, za));
        assert(a.drop_last().push(a.last()) =~= a);
        reveal_with_fuel(Seq::filter, 1);
        assert(with_z(m, b, za).len() == 0);
        assert(z_is(m, za)(a.last()));
        assert(with_z(m, a, za) == with_z(m, a.drop_last(), za).push(a.last()));
        assert(false);
    } else {
        let xa = a.last();
        let xb = b.last();
        let za = z_of(m, xa);
        let zb = z_of(m, xb);
        assert(a.drop_last().push(xa) =~= a);
        assert(b.drop_last().push(xb) =~= b);
        lemma_filter_push(a.drop_last(), xa, z_is(m, za));
        lemma_filter_push(b.drop_last(), xb, z_is(m, zb));
        lemma_filter_push(a.drop_last(), xa, z_is(m, zb));
        lemma_filter_push(b.drop_last(), xb, z_is(m, za));
        if za < zb {
            assert forall|i: int| 0 <= i < a.drop_last().len() implies !z_is(m, zb)(#[trigger] a.drop_last()[i]) by {
                assert(a.drop_last()[i] == a[i]);
            }
            lemma_filter_none(a.drop_last(), z_is(m, zb));
            assert(with_z(m, a.drop_last(), zb) == Seq::<ElementKey>::empty());
            assert(!z_is(m, zb)(xa));
            assert(with_z(m, a, zb) == with_z(m, a.drop_last(), zb));
            assert(z_is(m, zb)(xb));
            assert(with_z(m, b, zb) == with_z(m, b.drop_last(), zb).push(xb));
            assert(with_z(m, b, zb).len() > 0);
            assert(false);
        } else if zb < za {
            assert forall|i: int| 0 <= i < b.drop_last().len() implies !z_is(m, za)(#[trigger] b.drop_last()[i]) by {
                assert(b.drop_last()[i] == b[i]);
            }
            lemma_filter_none(b.drop_last(), z_is(m, za));
            assert(with_z(m, a, za).len() > 0);
            assert(false);
        }
        assert(with_z(m, a, za).last() == xa);
        assert(with_z(m, b, za).last() == xb);
        assert(xa == xb);
        assert forall|z: int| #[trigger] with_z(m, a.drop_last(), z) == with_z(m, b.drop_last(), z) by {
            lemma_filter_push(a.drop_last(), xa, z_is(m, z));
            lemma_filter_push(b.drop_last(), xb, z_is(m, z));
            assert(with_z(m, a, z) == with_z(m, b, z));
            if z == za {
                assert(with_z(m, a, z).drop_last() =~= with_z(m, a.drop_last(), z));
                assert(with_z(m, b, z).drop_last() =~= with_z(m, b.drop_last(), z));
            }
        }
        assert(sorted_by_z(m, a.drop_last())) by {
            assert forall|i: int, j: int| 0 <= i < j < a.drop_last().len() implies z_of(
                m,
                #[trigger] a.drop_last()[i],
            ) <= z_of(m, #[trigger] a.drop_last()[j]) by {
                assert(a.drop_last()[i] == a[i] && a.drop_last()[j] == a[j]);
            }
        }
        assert(sorted_by_z(m, b.drop_last())) by {
            assert forall|i: int, j: int| 0 <= i < j < b.drop_last().len() implies z_of(
                m,
                #[trigger] b.drop_last()[i],
            ) <= z_of(m, #[trigger] b.drop_last()[j]) by {
                assert(b.drop_last()[i] == b[i] && b.drop_last()[j] == b[j]);
            }
        }
        lemma_stable_sort_unique(m, a.drop_last(), b.drop_last());
        assert(a =~= b);
    }
}

} // verus!

verus! {

/// What a filter keeps is in the sequence and satisfies the predicate.
pub proof fn lemma_filter_subset<A>(s: Seq<A>, p: spec_fn(A) -> bool)
    ensures
        forall|x: A| #[trigger] s.filter(p).contains(x) ==> s.contains(x) && p(x),
    decreases s.len(),
{
    reveal_with_fuel(Seq::filter, 1);
    if s.len() > 0 {
        lemma_filter_subset(s.drop_last(), p);
        let sub = s.drop_last().filter(p);
        assert forall|x: A| #[trigger] s.filter(p).contains(x) implies s.contains(x) && p(x) by {
            let f = s.filter(p);
            let j = choose|j: int| 0 <= j < f.len() && f[j] == x;
            if j < sub.len() {
                assert(sub[j] == x);
                assert(sub.contains(x));
                let q = choose|q: int| 0 <= q < s.drop_last().len() && s.drop_last()[q] == x;
                assert(s[q] == x);
            } else {
                assert(x == s.last());
                assert(s[s.len() - 1] == x);
            }
        }
    }
}

/// Law of the drawing order: a stable sort by z-index holds exactly the keys it sorts.
pub proof fn lemma_sorted_same_keys<Msg: Clone>(
    m: Map<ElementKey, Element<Msg>>,
    out: Seq<ElementKey>,
    input: Seq<ElementKey>,
)
    requires
        stable_sorted_by_z(m, out, input),
    ensures
        forall|k: ElementKey| out.contains(k) <==> input.contains(k),
{
    assert forall|k: ElementKey| out.contains(k) <==> input.contains(k) by {
        let p = z_is(m, z_of(m, k));
        lemma_filter_subset(out, p);
        lemma_filter_subset(input, p);
        assert(with_z(m, out, z_of(m, k)) == with_z(m, input, z_of(m, k)));
        if out.contains(k) {
            let i = choose|i: int| 0 <= i < out.len() && out[i] == k;
            out.lemma_filter_contains(p, i);
            assert(input.filter(p).contains(k));
        }
        if input.contains(k) {
            let i = choose|i: int| 0 <= i < input.len() && input[i] == k;
            input.lemma_filter_contains(p, i);
            assert(out.filter(p).contains(k));
        }
    }
}

} // verus!

verus! {

/// `s` is a chain of held visible elements, each a child of the one before.
pub open spec fn is_visible_path<Msg: Clone>(
    m: Map<ElementKey, Element<Msg>>,
    s: Seq<ElementKey>,
) -> bool {
    &&& forall|i: int| 0 <= i < s.len() ==> m.contains_key(#[trigger] s[i]) && m[s[i]].visible
    &&& forall|i: int|
        0 <= i < s.len() - 1 ==> child_keys(m[#[trigger] s[i]].children).contains(s[i + 1])
}

proof fn lemma_deeper_walk_all<Msg: Clone>(
    m: Map<ElementKey, Element<Msg>>,
    keys: Seq<ElementKey>,
    d: nat,
)
    requires
        preorder_all(m, keys, d) != preorder_all(m, keys, d + 1),
    ensures
        exists|i: int|
            0 <= i < keys.len() && preorder(m, #[trigger] keys[i], d) != preorder(m, keys[i], d + 1),
    decreases keys.len(),
{
    if keys.len() == 0 {
    } else {
        let last = keys.last();
        if preorder(m, last, d) != preorder(m, last, d + 1) {
            assert(keys[keys.len() - 1] == last);
        } else {
            lemma_deeper_walk_all(m, keys.drop_last(), d);
            let i = choose|i: int|
                0 <= i < keys.drop_last().len() && preorder(m, #[trigger] keys.drop_last()[i], d)
                    != preorder(m, keys.drop_last()[i], d + 1);
            assert(keys.drop_last()[i] == keys[i]);
        }
    }
}

/// A walk that a deeper walk extends goes down a chain of held visible elements as
/// long as its depth.
pub proof fn lemma_deeper_walk_has_path<Msg: Clone>(
    m: Map<ElementKey, Element<Msg>>,
    key: ElementKey,
    d: nat,
)
    requires
        preorder(m, key, d) != preorder(m, key, d + 1),
    ensures
        exists|s: Seq<ElementKey>| is_visible_path(m, s) && s.len() == d + 1 && s[0] == key,
    decreases d,
{
    if d == 0 {
        let s = seq![key];
        assert(is_visible_path(m, s));
    } else {
        let keys = child_keys(m[key].children);
        let dd = (d - 1) as nat;
        assert(m.contains_key(key) && m[key].visible);
        assert(preorder_all(m, keys, dd) != preorder_all(m, keys, d)) by {
            if preorder_all(m, keys, dd) == preorder_all(m, keys, d) {
                assert(preorder(m, key, d) == seq![key] + preorder_all(m, keys, dd));
                assert(preorder(m, key, d + 1) == seq![key] + preorder_all(m, keys, d));
            }
        }
        assert((dd + 1) as nat == d);
        lemma_deeper_walk_all(m, keys, dd);
        let i = choose|i: int|
            0 <= i < keys.len() && preorder(m, #[trigger] keys[i], dd) != preorder(m, keys[i], dd + 1);
        let c = keys[i];
        lemma_deeper_walk_has_path(m, c, dd);
        let t = choose|t: Seq<ElementKey>| is_visible_path(m, t) && t.len() == dd + 1 && t[0] == c;
        let s = seq![key] + t;
        assert forall|j: int| 0 <= j < s.len() implies m.contains_key(#[trigger] s[j]) && m[s[j]].visible by {
            if j > 0 {
                assert(s[j] == t[j - 1]);
            }
        }
        assert forall|j: int| 0 <= j < s.len() - 1 implies child_keys(
            m[#[trigger] s[j]].children,
        ).contains(s[j + 1]) by {
            if j == 0 {
                assert(s[1] == c);
                assert(keys.contains(c));
            } else {
                assert(s[j] == t[j - 1]);
                assert(s[j + 1] == t[j]);
            }
        }
        assert(is_visible_path(m, s));
    }
}

proof fn lemma_rank_decreases<Msg: Clone>(
    m: Map<ElementKey, Element<Msg>>,
    rank: spec_fn(ElementKey) -> nat,
    s: Seq<ElementKey>,
    i: int,
    j: int,
)
    requires
        ranked(m, rank),
        is_visible_path(m, s),
        0 <= i < j < s.len(),
    ensures
        rank(s[j]) < rank(s[i]),
    decreases j - i,
{
    let p = s[j - 1];
    assert(m.contains_key(s[j - 1]) && m[s[j - 1]].visible);
    assert(child_keys(m[s[j - 1]].children).contains(s[j]));
    assert(rank(s[j]) < rank(p));
    if j - 1 > i {
        lemma_rank_decreases(m, rank, s, i, j - 1);
    }
}

/// Without cycles, a chain of elements never visits an element twice.
pub proof fn lemma_ranked_path_distinct<Msg: Clone>(
    m: Map<ElementKey, Element<Msg>>,
    rank: spec_fn(ElementKey) -> nat,
    s: Seq<ElementKey>,
)
    requires
        ranked(m, rank),
        is_visible_path(m, s),
    ensures
        s.no_duplicates(),
{
    assert forall|i: int, j: int| 0 <= i < s.len() && 0 <= j < s.len() && i != j implies s[i] != s[j] by {
        if i < j {
            lemma_rank_decreases(m, rank, s, i, j);
        } else {
            lemma_rank_decreases(m, rank, s, j, i);
        }
    }
}

/// `rank` decreases from every held element to each of its children: the children
/// relation has no cycle at all.
pub open spec fn ranked_all<Msg: Clone>(
    m: Map<ElementKey, Element<Msg>>,
    rank: spec_fn(ElementKey) -> nat,
) -> bool {
    forall|p: ElementKey, c: ElementKey|
        #![trigger rank(p), child_keys(m[p].children).contains(c)]
        m.contains_key(p) && child_keys(m[p].children).contains(c) ==> rank(c) < rank(p)
}

/// `s` is a chain of held elements, each a child of the one before.
pub open spec fn is_held_path<Msg: Clone>(
    m: Map<ElementKey, Element<Msg>>,
    s: Seq<ElementKey>,
) -> bool {
    &&& forall|i: int| 0 <= i < s.len() ==> m.contains_key(#[trigger] s[i])
    &&& forall|i: int|
        0 <= i < s.len() - 1 ==> child_keys(m[#[trigger] s[i]].children).contains(s[i + 1])
}

proof fn lemma_deeper_subtree_all<Msg: Clone>(
    m: Map<ElementKey, Element<Msg>>,
    keys: Seq<ElementKey>,
    d: nat,
)
    requires
        subtree_all(m, keys, d) != subtree_all(m, keys, d + 1),
    ensures
        exists|i: int|
            0 <= i < keys.len() && subtree(m, #[trigger] keys[i], d) != subtree(m, keys[i], d + 1),
    decreases keys.len(),
{
    if keys.len() > 0 {
        let last = keys.last();
        if subtree(m, last, d) != subtree(m, last, d + 1) {
            assert(keys[keys.len() - 1] == last);
        } else {
            lemma_deeper_subtree_all(m, keys.drop_last(), d);
            let i = choose|i: int|
                0 <= i < keys.drop_last().len() && subtree(m, #[trigger] keys.drop_last()[i], d)
                    != subtree(m, keys.drop_last()[i], d + 1);
            assert(keys.drop_last()[i] == keys[i]);
        }
    }
}

/// A subtree walk that a deeper walk extends goes down a chain of held elements as long
/// as its depth.
pub proof fn lemma_deeper_subtree_has_path<Msg: Clone>(
    m: Map<ElementKey, Element<Msg>>,
    key: ElementKey,
    d: nat,
)
    requires
        subtree(m, key, d) != subtree(m, key, d + 1),
    ensures
        exists|s: Seq<ElementKey>| is_held_path(m, s) && s.len() == d + 1 && s[0] == key,
    decreases d,
{
    assert(m.contains_key(key)) by {
        if !m.contains_key(key) {
            assert(subtree(m, key, d) =~= Seq::<ElementKey>::empty());
            assert(subtree(m, key, d + 1) =~= Seq::<ElementKey>::empty());
        }
    }
    if d == 0 {
        let s = seq![key];
        assert(s[0] == key && s.len() == d + 1);
        assert(is_held_path(m, s));
    } else {
        let keys = child_keys(m[key].children);
        let dd = (d - 1) as nat;
        assert(subtree_all(m, keys, dd) != subtree_all(m, keys, d)) by {
            if subtree_all(m, keys, dd) == subtree_all(m, keys, d) {
                assert(subtree(m, key, d) == seq![key] + subtree_all(m, keys, dd));
                assert(subtree(m, key, d + 1) == seq![key] + subtree_all(m, keys, d));
            }
        }
        assert((dd + 1) as nat == d);
        lemma_deeper_subtree_all(m, keys, dd);
        let i = choose|i: int|
            0 <= i < keys.len() && subtree(m, #[trigger] keys[i], dd) != subtree(m, keys[i], dd + 1);
        let c = keys[i];
        lemma_deeper_subtree_has_path(m, c, dd);
        let t = choose|t: Seq<ElementKey>| is_held_path(m, t) && t.len() == dd + 1 && t[0] == c;
        let s = seq![key] + t;
        assert forall|j: int| 0 <= j < s.len() implies m.contains_key(#[trigger] s[j]) by {
            if j > 0 {
                assert(s[j] == t[j - 1]);
            }
        }
        assert forall|j: int| 0 <= j < s.len() - 1 implies child_keys(
            m[#[trigger] s[j]].children,
        ).contains(s[j + 1]) by {
            if j == 0 {
                assert(s[1] == c);
                assert(keys.contains(c));
            } else {
                assert(s[j] == t[j - 1]);
                assert(s[j + 1] == t[j]);
            }
        }
        assert(is_held_path(m, s));
        assert(s[0] == key && s.len() == d + 1);
    }
}

proof fn lemma_rank_decreases_held<Msg: Clone>(
    m: Map<ElementKey, Element<Msg>>,
    rank: spec_fn(ElementKey) -> nat,
    s: Seq<ElementKey>,
    i: int,
    j: int,
)
    requires
        ranked_all(m, rank),
        is_held_path(m, s),
        0 <= i < j < s.len(),
    ensures
        rank(s[j]) < rank(s[i]),
    decreases j - i,
{
    let p = s[j - 1];
    assert(m.contains_key(s[j - 1]));
    assert(child_keys(m[s[j - 1]].children).contains(s[j]));
    assert(rank(s[j]) < rank(p));
    if j - 1 > i {
        lemma_rank_decreases_held(m, rank, s, i, j - 1);
    }
}

/// Without cycles, a chain of held elements never visits an element twice.
pub proof fn lemma_held_path_distinct<Msg: Clone>(
    m: Map<ElementKey, Element<Msg>>,
    rank: spec_fn(ElementKey) -> nat,
    s: Seq<ElementKey>,
)
    requires
        ranked_all(m, rank),
        is_held_path(m, s),
    ensures
        s.no_duplicates(),
{
    assert forall|i: int, j: int| 0 <= i < s.len() && 0 <= j < s.len() && i != j implies s[i] != s[j] by {
        if i < j {
            lemma_rank_decreases_held(m, rank, s, i, j);
        } else {
            lemma_rank_decreases_held(m, rank, s, j, i);
        }
    }
}

} // verus!
