//! What the canonical serializer makes of an object's members: each key
//! once, with the text of its last value, in strictly increasing key order.
//! So the canonical text of an object depends only on the last value given
//! for each key, not on the order in which the keys came.

use vstd::prelude::*;
use crate::json::JsModel;
use crate::partial_json::{canonical_pairs, canonical_spec, chars_lt, dedup_pairs, insert_sorted, pair_index, sort_pairs};

verus! {

/// The last value given for key `k`.
pub open spec fn last_entry(entries: Seq<(Seq<char>, JsModel)>, k: Seq<char>) -> Option<JsModel>
    decreases entries.len(),
{
    if entries.len() == 0 {
        None
    } else if entries.last().0 == k {
        Some(entries.last().1)
    } else {
        last_entry(entries.drop_last(), k)
    }
}

/// The last text given for key `k`.
pub open spec fn last_text(e: Seq<(Seq<char>, Seq<char>)>, k: Seq<char>) -> Option<Seq<char>>
    decreases e.len(),
{
    if e.len() == 0 {
        None
    } else if e.last().0 == k {
        Some(e.last().1)
    } else {
        last_text(e.drop_last(), k)
    }
}

/// Keys in strictly increasing order.
pub open spec fn strictly_sorted(m: Seq<(Seq<char>, Seq<char>)>) -> bool {
    forall|i: int, j: int| 0 <= i < j < m.len() ==> chars_lt(#[trigger] m[i].0, #[trigger] m[j].0)
}

pub open spec fn distinct_keys(m: Seq<(Seq<char>, Seq<char>)>) -> bool {
    forall|i: int, j: int| 0 <= i < j < m.len() ==> #[trigger] m[i].0 != #[trigger] m[j].0
}

// ---------------------------------------------------------------------------
// The key order
// ---------------------------------------------------------------------------

proof fn lemma_lt_irreflexive(a: Seq<char>)
    ensures
        !chars_lt(a, a),
    decreases a.len(),
{
    if a.len() > 0 {
        lemma_lt_irreflexive(a.drop_first());
    }
}

proof fn lemma_lt_asymmetric(a: Seq<char>, b: Seq<char>)
    ensures
        chars_lt(a, b) ==> !chars_lt(b, a),
    decreases a.len(),
{
    if a.len() > 0 && b.len() > 0 && a[0] == b[0] {
        lemma_lt_asymmetric(a.drop_first(), b.drop_first());
    }
}

proof fn lemma_lt_total(a: Seq<char>, b: Seq<char>)
    ensures
        a != b ==> chars_lt(a, b) || chars_lt(b, a),
    decreases a.len(),
{
    if a.len() > 0 && b.len() > 0 {
        if a[0] == b[0] {
            lemma_lt_total(a.drop_first(), b.drop_first());
            if a.drop_first() == b.drop_first() {
                assert(a =~= seq![a[0]] + a.drop_first());
                assert(b =~= seq![b[0]] + b.drop_first());
            }
        } else {
            vstd::utf8::char_u32_cast(a[0], a[0] as u32);
            vstd::utf8::char_u32_cast(b[0], b[0] as u32);
        }
    } else if a.len() == 0 && b.len() == 0 {
        assert(a =~= b);
    }
}

proof fn lemma_lt_transitive(a: Seq<char>, b: Seq<char>, c: Seq<char>)
    ensures
        chars_lt(a, b) && chars_lt(b, c) ==> chars_lt(a, c),
    decreases a.len(),
{
    if a.len() > 0 && b.len() > 0 && c.len() > 0 {
        vstd::utf8::char_u32_cast(a[0], a[0] as u32);
        vstd::utf8::char_u32_cast(c[0], c[0] as u32);
        if a[0] == b[0] && b[0] == c[0] {
            lemma_lt_transitive(a.drop_first(), b.drop_first(), c.drop_first());
        }
    }
}

// ---------------------------------------------------------------------------
// Collapsing duplicate keys
// ---------------------------------------------------------------------------

proof fn lemma_pair_index_facts(d: Seq<(Seq<char>, Seq<char>)>, key: Seq<char>)
    ensures
        pair_index(d, key) matches Some(i) ==> 0 <= i < d.len() && d[i].0 == key,
        pair_index(d, key) is None ==> forall|j: int| 0 <= j < d.len() ==> d[j].0 != key,
    decreases d.len(),
{
    if d.len() > 0 {
        let init = d.drop_last();
        lemma_pair_index_facts(init, key);
        assert forall|j: int| 0 <= j < init.len() implies init[j] == d[j] by {}
    }
}

/// After collapsing, each key occurs once and holds the last text given
/// for it.
proof fn lemma_dedup(e: Seq<(Seq<char>, Seq<char>)>)
    ensures
        distinct_keys(dedup_pairs(e)),
        forall|k: Seq<char>, v: Seq<char>|
            #[trigger] dedup_pairs(e).contains((k, v)) <==> last_text(e, k) == Some(v),
    decreases e.len(),
{
    if e.len() > 0 {
        let e1 = e.drop_last();
        let x = e.last();
        lemma_dedup(e1);
        let d1 = dedup_pairs(e1);
        let d = dedup_pairs(e);
        lemma_pair_index_facts(d1, x.0);
        match pair_index(d1, x.0) {
            Some(i) => {
                assert(d == d1.update(i, x));
                assert forall|a: int, b: int| 0 <= a < b < d.len() implies #[trigger] d[a].0
                    != #[trigger] d[b].0 by {
                    assert(d[a].0 == d1[a].0);
                    assert(d[b].0 == d1[b].0);
                }
                assert forall|k: Seq<char>, v: Seq<char>|
                    #[trigger] d.contains((k, v)) <==> last_text(e, k) == Some(v) by {
                    if k == x.0 {
                        if d.contains((k, v)) {
                            let j = d.lemma_contains_to_index((k, v));
                            if j != i {
                                assert(d1[j].0 == k);
                                if j < i {
                                    assert(d1[j].0 != d1[i].0);
                                } else {
                                    assert(d1[i].0 != d1[j].0);
                                }
                            }
                        }
                        if last_text(e, k) == Some(v) {
                            assert(d[i] == (k, v));
                        }
                    } else {
                        if d.contains((k, v)) {
                            let j = d.lemma_contains_to_index((k, v));
                            assert(j != i);
                            assert(d1[j] == (k, v));
                            assert(d1.contains((k, v)));
                        }
                        if d1.contains((k, v)) {
                            let j = d1.lemma_contains_to_index((k, v));
                            assert(j != i);
                            assert(d[j] == (k, v));
                        }
                    }
                }
            },
            None => {
                assert(d == d1.push(x));
                assert forall|a: int, b: int| 0 <= a < b < d.len() implies #[trigger] d[a].0
                    != #[trigger] d[b].0 by {
                    if b == d1.len() {
                        assert(d[a] == d1[a]);
                    } else {
                        assert(d[a] == d1[a]);
                        assert(d[b] == d1[b]);
                    }
                }
                assert forall|k: Seq<char>, v: Seq<char>|
                    #[trigger] d.contains((k, v)) <==> last_text(e, k) == Some(v) by {
                    if k == x.0 {
                        if d.contains((k, v)) {
                            let j = d.lemma_contains_to_index((k, v));
                            if j < d1.len() {
                                assert(d1[j] == d[j]);
                            }
                        }
                        if last_text(e, k) == Some(v) {
                            assert(d[d1.len() as int] == (k, v));
                        }
                    } else {
                        if d.contains((k, v)) {
                            let j = d.lemma_contains_to_index((k, v));
                            assert(j < d1.len());
                            assert(d1[j] == (k, v));
                            assert(d1.contains((k, v)));
                        }
                        if d1.contains((k, v)) {
                            let j = d1.lemma_contains_to_index((k, v));
                            assert(d[j] == (k, v));
                        }
                    }
                }
            },
        }
    }
}

// ---------------------------------------------------------------------------
// Sorting
// ---------------------------------------------------------------------------

/// Insertion keeps every member, adds `x`, and keeps strictly increasing
/// keys when `x`'s key is new.
proof fn lemma_insert_sorted(s: Seq<(Seq<char>, Seq<char>)>, x: (Seq<char>, Seq<char>))
    ensures
        forall|y: (Seq<char>, Seq<char>)| #[trigger] insert_sorted(s, x).contains(y) <==> (s.contains(y) || y == x),
        strictly_sorted(s) && (forall|j: int| 0 <= j < s.len() ==> #[trigger] s[j].0 != x.0)
            ==> strictly_sorted(insert_sorted(s, x)),
    decreases s.len(),
{
    let r = insert_sorted(s, x);
    if s.len() == 0 || !chars_lt(x.0, s.last().0) {
        assert(r == s.push(x));
        assert forall|y: (Seq<char>, Seq<char>)| #[trigger] r.contains(y) <==> (s.contains(y) || y == x) by {
            if r.contains(y) {
                let j = r.lemma_contains_to_index(y);
                if j < s.len() {
                    assert(s[j] == y);
                }
            }
            if s.contains(y) {
                let j = s.lemma_contains_to_index(y);
                assert(r[j] == y);
            }
            if y == x {
                assert(r[s.len() as int] == y);
            }
        }
        if strictly_sorted(s) && (forall|j: int| 0 <= j < s.len() ==> #[trigger] s[j].0 != x.0) {
            assert forall|i: int, j: int| 0 <= i < j < r.len() implies chars_lt(#[trigger] r[i].0, #[trigger] r[j].0) by {
                if j < s.len() {
                    assert(r[i] == s[i] && r[j] == s[j]);
                } else {
                    assert(r[i] == s[i]);
                    assert(r[j] == x);
                    let last = s.last().0;
                    assert(last == s[s.len() - 1].0);
                    lemma_lt_total(x.0, last);
                    if i < s.len() - 1 {
                        lemma_lt_transitive(s[i].0, last, x.0);
                    }
                }
            }
        }
    } else {
        let init = s.drop_last();
        let last = s.last();
        lemma_insert_sorted(init, x);
        let inner = insert_sorted(init, x);
        assert(r == inner.push(last));
        assert forall|y: (Seq<char>, Seq<char>)| #[trigger] r.contains(y) <==> (s.contains(y) || y == x) by {
            if r.contains(y) {
                let j = r.lemma_contains_to_index(y);
                if j < inner.len() {
                    assert(inner[j] == y);
                    assert(inner.contains(y));
                    if init.contains(y) {
                        let k = init.lemma_contains_to_index(y);
                        assert(s[k] == y);
                    }
                } else {
                    assert(s[s.len() - 1] == y);
                }
            }
            if s.contains(y) {
                let j = s.lemma_contains_to_index(y);
                if j < s.len() - 1 {
                    assert(init[j] == y);
                    assert(init.contains(y));
                    let k = inner.lemma_contains_to_index(y);
                    assert(r[k] == y);
                } else {
                    assert(r[inner.len() as int] == y);
                }
            }
            if y == x {
                assert(inner.contains(y));
                let k = inner.lemma_contains_to_index(y);
                assert(r[k] == y);
            }
        }
        if strictly_sorted(s) && (forall|j: int| 0 <= j < s.len() ==> #[trigger] s[j].0 != x.0) {
            assert forall|j: int| 0 <= j < init.len() implies #[trigger] init[j].0 != x.0 by {
                assert(init[j] == s[j]);
            }
            assert(strictly_sorted(init)) by {
                assert forall|i: int, j: int| 0 <= i < j < init.len() implies chars_lt(#[trigger] init[i].0, #[trigger] init[j].0) by {
                    assert(init[i] == s[i] && init[j] == s[j]);
                }
            }
            assert forall|i: int, j: int| 0 <= i < j < r.len() implies chars_lt(#[trigger] r[i].0, #[trigger] r[j].0) by {
                if j < inner.len() {
                    assert(r[i] == inner[i] && r[j] == inner[j]);
                } else {
                    assert(r[j] == last);
                    assert(r[i] == inner[i]);
                    assert(inner.contains(inner[i]));
                    if inner[i] == x {
                    } else {
                        assert(init.contains(inner[i]));
                        let k = init.lemma_contains_to_index(inner[i]);
                        assert(s[k] == inner[i]);
                        assert(s[s.len() - 1] == last);
                    }
                }
            }
        }
    }
}

/// Sorting keeps exactly the members, and gives strictly increasing keys
/// when the keys are distinct.
proof fn lemma_sort(e: Seq<(Seq<char>, Seq<char>)>)
    ensures
        forall|y: (Seq<char>, Seq<char>)| #[trigger] sort_pairs(e).contains(y) <==> e.contains(y),
        distinct_keys(e) ==> strictly_sorted(sort_pairs(e)),
    decreases e.len(),
{
    if e.len() > 0 {
        let init = e.drop_last();
        let x = e.last();
        lemma_sort(init);
        let si = sort_pairs(init);
        lemma_insert_sorted(si, x);
        assert(sort_pairs(e) == insert_sorted(si, x));
        assert forall|y: (Seq<char>, Seq<char>)| #[trigger] sort_pairs(e).contains(y) <==> e.contains(y) by {
            if e.contains(y) {
                let j = e.lemma_contains_to_index(y);
                if j < init.len() {
                    assert(init[j] == y);
                    assert(init.contains(y));
                }
            }
            if init.contains(y) {
                let j = init.lemma_contains_to_index(y);
                assert(e[j] == y);
            }
            if y == x {
                assert(e[e.len() - 1] == y);
            }
        }
        if distinct_keys(e) {
            assert(distinct_keys(init)) by {
                assert forall|a: int, b: int| 0 <= a < b < init.len() implies #[trigger] init[a].0
                    != #[trigger] init[b].0 by {
                    assert(init[a] == e[a] && init[b] == e[b]);
                }
            }
            assert forall|j: int| 0 <= j < si.len() implies #[trigger] si[j].0 != x.0 by {
                assert(si.contains(si[j]));
                let k = init.lemma_contains_to_index(si[j]);
                assert(e[k] == si[j]);
                assert(e[k].0 != e[e.len() - 1].0);
            }
        }
    } else {
        assert forall|y: (Seq<char>, Seq<char>)| #[trigger] sort_pairs(e).contains(y) <==> e.contains(y) by {}
    }
}

/// Two member lists with strictly increasing keys and the same members are
/// the same list.
proof fn lemma_sorted_unique(m1: Seq<(Seq<char>, Seq<char>)>, m2: Seq<(Seq<char>, Seq<char>)>)
    requires
        strictly_sorted(m1),
        strictly_sorted(m2),
        forall|y: (Seq<char>, Seq<char>)| #[trigger] m1.contains(y) <==> m2.contains(y),
    ensures
        m1 == m2,
    decreases m1.len(),
{
    if m1.len() == 0 {
        if m2.len() > 0 {
            assert(m2.contains(m2[0]));
            let i = m1.lemma_contains_to_index(m2[0]);
        }
        assert(m1 =~= m2);
    } else {
        assert(m1.contains(m1[0]));
        assert(m2.len() > 0);
        assert(m2.contains(m2[0]));
        let j = m2.lemma_contains_to_index(m1[0]);
        let i = m1.lemma_contains_to_index(m2[0]);
        if i > 0 && j > 0 {
            assert(chars_lt(m1[0].0, m1[i].0));
            assert(chars_lt(m2[0].0, m2[j].0));
            lemma_lt_asymmetric(m1[0].0, m2[0].0);
        }
        assert(m1[0] == m2[0]);
        let t1 = m1.drop_first();
        let t2 = m2.drop_first();
        assert forall|y: (Seq<char>, Seq<char>)| #[trigger] t1.contains(y) <==> t2.contains(y) by {
            if t1.contains(y) {
                let a = t1.lemma_contains_to_index(y);
                assert(m1[a + 1] == y);
                assert(chars_lt(m1[0].0, m1[a + 1].0));
                lemma_lt_irreflexive(y.0);
                assert(m1.contains(y));
                let b = m2.lemma_contains_to_index(y);
                assert(b != 0);
                assert(t2[b - 1] == y);
            }
            if t2.contains(y) {
                let a = t2.lemma_contains_to_index(y);
                assert(m2[a + 1] == y);
                assert(chars_lt(m2[0].0, m2[a + 1].0));
                lemma_lt_irreflexive(y.0);
                assert(m2.contains(y));
                let b = m1.lemma_contains_to_index(y);
                assert(b != 0);
                assert(t1[b - 1] == y);
            }
        }
        assert(strictly_sorted(t1)) by {
            assert forall|a: int, b: int| 0 <= a < b < t1.len() implies chars_lt(#[trigger] t1[a].0, #[trigger] t1[b].0) by {
                assert(t1[a] == m1[a + 1] && t1[b] == m1[b + 1]);
            }
        }
        assert(strictly_sorted(t2)) by {
            assert forall|a: int, b: int| 0 <= a < b < t2.len() implies chars_lt(#[trigger] t2[a].0, #[trigger] t2[b].0) by {
                assert(t2[a] == m2[a + 1] && t2[b] == m2[b + 1]);
            }
        }
        lemma_sorted_unique(t1, t2);
        assert(m1 =~= seq![m1[0]] + t1);
        assert(m2 =~= seq![m2[0]] + t2);
    }
}

proof fn lemma_last_text_of_pairs(entries: Seq<(Seq<char>, JsModel)>, k: Seq<char>)
    ensures
        last_text(canonical_pairs(entries), k) == (match last_entry(entries, k) {
            Some(v) => Some(canonical_spec(v)),
            None => None,
        }),
    decreases entries.len(),
{
    if entries.len() > 0 {
        let init = entries.drop_last();
        lemma_last_text_of_pairs(init, k);
        let e = canonical_pairs(entries);
        assert(e == canonical_pairs(init).push((entries.last().0, canonical_spec(entries.last().1))));
        assert(e.drop_last() =~= canonical_pairs(init));
    }
}

// ---------------------------------------------------------------------------
// The laws
// ---------------------------------------------------------------------------

/// The members that the canonical text of an object lists are its keys,
/// each once, with the canonical text of the last value given for it, in
/// strictly increasing key order.
pub proof fn law_canonical_members(entries: Seq<(Seq<char>, JsModel)>)
    ensures
        strictly_sorted(sort_pairs(dedup_pairs(canonical_pairs(entries)))),
        forall|k: Seq<char>, v: Seq<char>|
            #[trigger] sort_pairs(dedup_pairs(canonical_pairs(entries))).contains((k, v)) <==> (
            last_entry(entries, k) matches Some(x) && v == canonical_spec(x)),
{
    let e = canonical_pairs(entries);
    lemma_dedup(e);
    lemma_sort(dedup_pairs(e));
    assert forall|k: Seq<char>, v: Seq<char>|
        #[trigger] sort_pairs(dedup_pairs(e)).contains((k, v)) <==> (last_entry(entries, k) matches Some(x)
            && v == canonical_spec(x)) by {
        lemma_last_text_of_pairs(entries, k);
        assert(dedup_pairs(e).contains((k, v)) <==> last_text(e, k) == Some(v));
    }
}

/// The canonical text of an object depends only on the last value given for
/// each key: two objects that agree on those have the same text, whatever
/// the order of their keys.
pub proof fn law_canonical_order_free(a: Seq<(Seq<char>, JsModel)>, b: Seq<(Seq<char>, JsModel)>)
    requires
        forall|k: Seq<char>| last_entry(a, k) == last_entry(b, k),
    ensures
        canonical_spec(JsModel::Obj(a)) == canonical_spec(JsModel::Obj(b)),
{
    law_canonical_members(a);
    law_canonical_members(b);
    let ma = sort_pairs(dedup_pairs(canonical_pairs(a)));
    let mb = sort_pairs(dedup_pairs(canonical_pairs(b)));
    assert forall|y: (Seq<char>, Seq<char>)| #[trigger] ma.contains(y) <==> mb.contains(y) by {
        assert(last_entry(a, y.0) == last_entry(b, y.0));
        assert(ma.contains((y.0, y.1)) == mb.contains((y.0, y.1)));
        assert(y == (y.0, y.1));
    }
    lemma_sorted_unique(ma, mb);
}

/// With no key given twice, the last value of a key is its only value.
proof fn lemma_last_entry_distinct(e: Seq<(Seq<char>, JsModel)>, k: Seq<char>, v: JsModel)
    requires
        forall|i: int, j: int| 0 <= i < j < e.len() ==> #[trigger] e[i].0 != #[trigger] e[j].0,
    ensures
        last_entry(e, k) == Some(v) <==> e.contains((k, v)),
    decreases e.len(),
{
    if e.len() > 0 {
        let init = e.drop_last();
        assert forall|i: int, j: int| 0 <= i < j < init.len() implies #[trigger] init[i].0 != #[trigger] init[j].0 by {
            assert(init[i] == e[i] && init[j] == e[j]);
        }
        lemma_last_entry_distinct(init, k, v);
        assert(e == init.push(e.last()));
        if e.contains((k, v)) {
            let j = e.lemma_contains_to_index((k, v));
            if j < init.len() {
                assert(init[j] == e[j]);
                assert(init.contains((k, v)));
                assert(e[j].0 != e[e.len() - 1].0);
            }
        }
        if init.contains((k, v)) {
            let j = init.lemma_contains_to_index((k, v));
            assert(e[j] == (k, v));
            assert(e[j].0 != e[e.len() - 1].0);
        }
        if e.last().0 == k && last_entry(e, k) == Some(v) {
            assert(e[e.len() - 1] == (k, v));
        }
    } else {
        assert(!e.contains((k, v)));
    }
}

/// The canonical text of an object with no key given twice does not depend
/// on the order of its entries: any reordering gives the same text.
pub proof fn law_canonical_permutation(a: Seq<(Seq<char>, JsModel)>, b: Seq<(Seq<char>, JsModel)>)
    requires
        forall|i: int, j: int| 0 <= i < j < a.len() ==> #[trigger] a[i].0 != #[trigger] a[j].0,
        forall|i: int, j: int| 0 <= i < j < b.len() ==> #[trigger] b[i].0 != #[trigger] b[j].0,
        a.to_multiset() == b.to_multiset(),
    ensures
        canonical_spec(JsModel::Obj(a)) == canonical_spec(JsModel::Obj(b)),
{
    assert forall|k: Seq<char>| last_entry(a, k) == last_entry(b, k) by {
        match last_entry(a, k) {
            Some(v) => {
                lemma_last_entry_distinct(a, k, v);
                lemma_last_entry_distinct(b, k, v);
                vstd::seq_lib::to_multiset_contains(a, (k, v));
                vstd::seq_lib::to_multiset_contains(b, (k, v));
            },
            None => {
                match last_entry(b, k) {
                    Some(w) => {
                        lemma_last_entry_distinct(a, k, w);
                        lemma_last_entry_distinct(b, k, w);
                        vstd::seq_lib::to_multiset_contains(a, (k, w));
                        vstd::seq_lib::to_multiset_contains(b, (k, w));
                    },
                    None => {},
                }
            },
        }
    }
    law_canonical_order_free(a, b);
}

} // verus!
