use crate::delete_map::{has_live, added_fn, changed_fn, diff_spec, has_entry, has_key, index_of, kept_fn, merge_spec, removed_fn, unique_keys, DeleteMap, EntryV};
use vstd::prelude::*;

verus! {

proof fn lemma_filter_map_has(s: Seq<EntryV>, f: spec_fn(EntryV) -> Option<EntryV>, i: int)
    requires
        0 <= i < s.len(),
        f(s[i]) is Some,
    ensures
        has_entry(s.filter_map(f), f(s[i])->Some_0),
    decreases s.len(),
{
    broadcast use vstd::seq_lib::group_seq_properties;

    let e = f(s[i])->Some_0;
    if i == s.len() - 1 {
        let r = s.filter_map(f);
        assert(r[r.len() - 1] == e);
    } else {
        lemma_filter_map_has(s.drop_last(), f, i);
        let m = choose|m: int| 0 <= m < s.drop_last().filter_map(f).len() && #[trigger] s.drop_last().filter_map(f)[m] == e;
        assert(s.filter_map(f)[m] == e);
    }
}

proof fn lemma_filter_map_from(s: Seq<EntryV>, f: spec_fn(EntryV) -> Option<EntryV>, e: EntryV)
    requires
        has_entry(s.filter_map(f), e),
    ensures
        exists|i: int| 0 <= i < s.len() && f(#[trigger] s[i]) == Some(e),
{
    assert(s.filter_map(f).contains(e));
    s.lemma_filter_map_contains(f, e);
    let t = choose|t: EntryV| #[trigger] s.contains(t) && f(t) == Some(e);
    let i = choose|i: int| 0 <= i < s.len() && s[i] == t;
    assert(f(s[i]) == Some(e));
}

proof fn lemma_filter_map_none(s: Seq<EntryV>, f: spec_fn(EntryV) -> Option<EntryV>)
    requires
        forall|i: int| 0 <= i < s.len() ==> f(#[trigger] s[i]) is None,
    ensures
        s.filter_map(f) == Seq::<EntryV>::empty(),
{
    let r = s.filter_map(f);
    if r.len() > 0 {
        assert(r[0] == r[0]);
        lemma_filter_map_from(s, f, r[0]);
    }
    assert(r =~= Seq::<EntryV>::empty());
}

proof fn lemma_filter_map_all(s: Seq<EntryV>, f: spec_fn(EntryV) -> Option<EntryV>)
    requires
        forall|i: int| 0 <= i < s.len() ==> f(#[trigger] s[i]) == Some(s[i]),
    ensures
        s.filter_map(f) == s,
    decreases s.len(),
{
    if s.len() > 0 {
        let t = s.drop_last();
        assert forall|i: int| 0 <= i < t.len() implies f(#[trigger] t[i]) == Some(t[i]) by {
            assert(t[i] == s[i]);
        }
        lemma_filter_map_all(t, f);
        assert(f(s.last()) == Some(s.last()));
        assert(s.filter_map(f) =~= s);
    }
}

proof fn lemma_in_concat(a: Seq<EntryV>, b: Seq<EntryV>, e: EntryV)
    ensures
        has_entry(a + b, e) <==> (has_entry(a, e) || has_entry(b, e)),
{
    if has_entry(a + b, e) {
        let i = choose|i: int| 0 <= i < (a + b).len() && #[trigger] (a + b)[i] == e;
        if i < a.len() {
            assert(a[i] == e);
        } else {
            assert(b[i - a.len()] == e);
        }
    }
    if has_entry(a, e) {
        let i = choose|i: int| 0 <= i < a.len() && #[trigger] a[i] == e;
        assert((a + b)[i] == e);
    }
    if has_entry(b, e) {
        let i = choose|i: int| 0 <= i < b.len() && #[trigger] b[i] == e;
        assert((a + b)[a.len() + i] == e);
    }
}

proof fn lemma_index_of(s: Seq<EntryV>, i: int)
    requires
        unique_keys(s),
        0 <= i < s.len(),
    ensures
        has_key(s, s[i].0),
        index_of(s, s[i].0) == i,
{
    assert(s[i].0 == s[i].0);
}

/// A key that a diff holds as a tombstone has no entry in the merge result.
proof fn lemma_merge_tombstone(b: Seq<EntryV>, d: Seq<EntryV>, k: u32)
    requires
        unique_keys(d),
        has_entry(d, (k, None)),
    ensures
        !has_key(merge_spec(b, d), k),
{
    let m = choose|m: int| 0 <= m < d.len() && #[trigger] d[m] == (k, None::<crate::node::Value>);
    lemma_index_of(d, m);
    if has_key(merge_spec(b, d), k) {
        let r = merge_spec(b, d);
        let j = choose|j: int| 0 <= j < r.len() && #[trigger] r[j].0 == k;
        let e = r[j];
        assert(has_entry(r, e));
        lemma_in_concat(b.filter_map(kept_fn(d)), d.filter_map(added_fn(b)), e);
        if has_entry(b.filter_map(kept_fn(d)), e) {
            lemma_filter_map_from(b, kept_fn(d), e);
            let i = choose|i: int| 0 <= i < b.len() && kept_fn(d)(#[trigger] b[i]) == Some(e);
            if has_key(d, b[i].0) {
                lemma_index_of(d, index_of(d, b[i].0));
            }
        } else {
            lemma_filter_map_from(d, added_fn(b), e);
            let i = choose|i: int| 0 <= i < d.len() && added_fn(b)(#[trigger] d[i]) == Some(e);
            lemma_index_of(d, i);
        }
    }
}

/// A key that neither the base nor the diff holds has no entry in the merge
/// result.
proof fn lemma_merge_absent(b: Seq<EntryV>, d: Seq<EntryV>, k: u32)
    requires
        !has_key(b, k),
        !has_key(d, k),
    ensures
        !has_key(merge_spec(b, d), k),
{
    if has_key(merge_spec(b, d), k) {
        let r = merge_spec(b, d);
        let j = choose|j: int| 0 <= j < r.len() && #[trigger] r[j].0 == k;
        let e = r[j];
        assert(has_entry(r, e));
        lemma_in_concat(b.filter_map(kept_fn(d)), d.filter_map(added_fn(b)), e);
        if has_entry(b.filter_map(kept_fn(d)), e) {
            lemma_filter_map_from(b, kept_fn(d), e);
            let i = choose|i: int| 0 <= i < b.len() && kept_fn(d)(#[trigger] b[i]) == Some(e);
            if has_key(d, b[i].0) {
                let x = index_of(d, b[i].0);
                assert(d[x].0 == k);
            } else {
                assert(b[i].0 == k);
            }
        } else {
            lemma_filter_map_from(d, added_fn(b), e);
            let i = choose|i: int| 0 <= i < d.len() && added_fn(b)(#[trigger] d[i]) == Some(e);
            assert(d[i].0 == k);
        }
    }
}

/// A live entry of a diff is in the merge result, and is the only entry
/// there under its key.
proof fn lemma_merge_live(b: Seq<EntryV>, d: Seq<EntryV>, k: u32, v: crate::node::Value)
    requires
        unique_keys(d),
        has_entry(d, (k, Some(v))),
    ensures
        has_entry(merge_spec(b, d), (k, Some(v))),
        forall|j: int|
            0 <= j < merge_spec(b, d).len() && (#[trigger] merge_spec(b, d)[j]).0 == k
                ==> merge_spec(b, d)[j] == (k, Some(v)),
{
    let m = choose|m: int| 0 <= m < d.len() && #[trigger] d[m] == (k, Some(v));
    lemma_index_of(d, m);
    let kept = b.filter_map(kept_fn(d));
    let added = d.filter_map(added_fn(b));
    if has_key(b, k) {
        let i = choose|i: int| 0 <= i < b.len() && #[trigger] b[i].0 == k;
        lemma_filter_map_has(b, kept_fn(d), i);
    } else {
        lemma_filter_map_has(d, added_fn(b), m);
    }
    lemma_in_concat(kept, added, (k, Some(v)));
    assert forall|j: int|
        0 <= j < merge_spec(b, d).len() && (#[trigger] merge_spec(b, d)[j]).0 == k
            implies merge_spec(b, d)[j] == (k, Some(v)) by {
        let e = merge_spec(b, d)[j];
        assert(has_entry(merge_spec(b, d), e));
        lemma_in_concat(kept, added, e);
        if has_entry(kept, e) {
            lemma_filter_map_from(b, kept_fn(d), e);
            let i = choose|i: int| 0 <= i < b.len() && kept_fn(d)(#[trigger] b[i]) == Some(e);
            if has_key(d, b[i].0) {
                lemma_index_of(d, index_of(d, b[i].0));
            }
        } else {
            lemma_filter_map_from(d, added_fn(b), e);
            let i = choose|i: int| 0 <= i < d.len() && added_fn(b)(#[trigger] d[i]) == Some(e);
            lemma_index_of(d, i);
        }
    }
}

/// Merging the diff of a map with itself gives the map back unchanged.
pub proof fn lemma_merge_self_diff(x: DeleteMap)
    ensures
        merge_spec(x@, diff_spec(x@, x@)) == x@,
{
    let s = x@;
    assert forall|i: int| 0 <= i < s.len() implies changed_fn(s)(#[trigger] s[i]) is None by {
        assert(s[i] == s[i]);
    }
    assert forall|i: int| 0 <= i < s.len() implies removed_fn(s)(#[trigger] s[i]) is None by {
        assert(s[i].0 == s[i].0);
    }
    lemma_filter_map_none(s, changed_fn(s));
    lemma_filter_map_none(s, removed_fn(s));
    let d = diff_spec(s, s);
    assert(d =~= Seq::<EntryV>::empty());
    assert forall|i: int| 0 <= i < s.len() implies kept_fn(d)(#[trigger] s[i]) == Some(s[i]) by {}
    lemma_filter_map_all(s, kept_fn(d));
    lemma_filter_map_none(d, added_fn(s));
    assert(merge_spec(s, d) =~= s);
}

/// A key that one diff deletes stays deleted when a later diff in the same
/// chain says nothing of it.
pub proof fn lemma_tombstone_survives(base: DeleteMap, d1: DeleteMap, d2: DeleteMap, k: u32)
    requires
        d1.wf(),
        d2.wf(),
        has_entry(d1@, (k, None)),
        !has_key(d2@, k),
    ensures
        !has_key(merge_spec(merge_spec(base@, d1@), d2@), k),
{
    lemma_merge_tombstone(base@, d1@, k);
    lemma_merge_absent(merge_spec(base@, d1@), d2@, k);
}

/// When two diffs both set key `k`, the one merged last decides its value:
/// merge order is observable.
pub proof fn lemma_stacking_order(
    base: DeleteMap,
    d1: DeleteMap,
    d2: DeleteMap,
    k: u32,
    v1: crate::node::Value,
    v2: crate::node::Value,
)
    requires
        d1.wf(),
        d2.wf(),
        has_entry(d1@, (k, Some(v1))),
        has_entry(d2@, (k, Some(v2))),
    ensures
        has_entry(merge_spec(merge_spec(base@, d1@), d2@), (k, Some(v2))),
        forall|j: int|
            0 <= j < merge_spec(merge_spec(base@, d1@), d2@).len()
                && (#[trigger] merge_spec(merge_spec(base@, d1@), d2@)[j]).0 == k
                ==> merge_spec(merge_spec(base@, d1@), d2@)[j] == (k, Some(v2)),
        has_entry(merge_spec(merge_spec(base@, d2@), d1@), (k, Some(v1))),
        forall|j: int|
            0 <= j < merge_spec(merge_spec(base@, d2@), d1@).len()
                && (#[trigger] merge_spec(merge_spec(base@, d2@), d1@)[j]).0 == k
                ==> merge_spec(merge_spec(base@, d2@), d1@)[j] == (k, Some(v1)),
{
    lemma_merge_live(merge_spec(base@, d1@), d2@, k, v2);
    lemma_merge_live(merge_spec(base@, d2@), d1@, k, v1);
}

proof fn lemma_filter_map_unique(s: Seq<EntryV>, f: spec_fn(EntryV) -> Option<EntryV>)
    requires
        unique_keys(s),
        forall|e: EntryV| #[trigger] f(e) is Some ==> f(e)->Some_0.0 == e.0,
    ensures
        unique_keys(s.filter_map(f)),
    decreases s.len(),
{
    if s.len() > 0 {
        let t = s.drop_last();
        assert(unique_keys(t)) by {
            assert forall|i: int, j: int| 0 <= i < t.len() && 0 <= j < t.len() && i != j implies t[i].0 != t[j].0 by {
                assert(t[i] == s[i] && t[j] == s[j]);
            }
        }
        lemma_filter_map_unique(t, f);
        let r = s.filter_map(f);
        let q = t.filter_map(f);
        if f(s.last()) is Some {
            let x = f(s.last())->Some_0;
            assert(r =~= q.push(x));
            assert forall|i: int, j: int| 0 <= i < r.len() && 0 <= j < r.len() && i != j implies r[i].0 != r[j].0 by {
                if i == r.len() - 1 || j == r.len() - 1 {
                    let o = if i == r.len() - 1 { j } else { i };
                    assert(r[o] == q[o]);
                    assert(has_entry(q, q[o]));
                    lemma_filter_map_from(t, f, q[o]);
                    let m = choose|m: int| 0 <= m < t.len() && f(#[trigger] t[m]) == Some(q[o]);
                    assert(t[m] == s[m]);
                    assert(s.last() == s[s.len() - 1]);
                }
            }
        } else {
            assert(r =~= q);
        }
    }
}

/// A diff of two maps with unique keys has unique keys.
proof fn lemma_diff_unique(a: Seq<EntryV>, b: Seq<EntryV>)
    requires
        unique_keys(a),
        unique_keys(b),
    ensures
        unique_keys(diff_spec(a, b)),
{
    let changed = b.filter_map(changed_fn(a));
    let removed = a.filter_map(removed_fn(b));
    lemma_filter_map_unique(b, changed_fn(a));
    lemma_filter_map_unique(a, removed_fn(b));
    let d = diff_spec(a, b);
    assert forall|i: int, j: int| 0 <= i < d.len() && 0 <= j < d.len() && i != j implies d[i].0 != d[j].0 by {
        if i < changed.len() && j >= changed.len() || j < changed.len() && i >= changed.len() {
            let (x, y) = if i < changed.len() { (i, j) } else { (j, i) };
            assert(d[x] == changed[x]);
            assert(d[y] == removed[y - changed.len()]);
            assert(has_entry(changed, changed[x]));
            lemma_filter_map_from(b, changed_fn(a), changed[x]);
            let m = choose|m: int| 0 <= m < b.len() && changed_fn(a)(#[trigger] b[m]) == Some(changed[x]);
            assert(has_entry(removed, removed[y - changed.len()]));
            lemma_filter_map_from(a, removed_fn(b), removed[y - changed.len()]);
            let n = choose|n: int| 0 <= n < a.len() && removed_fn(b)(#[trigger] a[n]) == Some(removed[y - changed.len()]);
            assert(b[m].0 == b[m].0 && b[m].1 is Some);
        } else if i < changed.len() {
            assert(d[i] == changed[i] && d[j] == changed[j]);
        } else {
            assert(d[i] == removed[i - changed.len()] && d[j] == removed[j - changed.len()]);
        }
    }
}

/// Every live entry of a diff comes from the newer map.
proof fn lemma_diff_live_from_other(a: Seq<EntryV>, b: Seq<EntryV>, e: EntryV)
    requires
        has_entry(diff_spec(a, b), e),
        e.1 is Some,
    ensures
        has_entry(b, e),
{
    let changed = b.filter_map(changed_fn(a));
    let removed = a.filter_map(removed_fn(b));
    lemma_in_concat(changed, removed, e);
    if has_entry(changed, e) {
        lemma_filter_map_from(b, changed_fn(a), e);
        let i = choose|i: int| 0 <= i < b.len() && changed_fn(a)(#[trigger] b[i]) == Some(e);
        assert(b[i] == e);
    } else {
        lemma_filter_map_from(a, removed_fn(b), e);
    }
}

/// Merging the diff from `a` to `b` onto `a` gives what `b` holds: each key
/// has a live value in the result exactly when it has that value in `b`.
/// (Keys that both maps hold keep the order of `a`.)
pub proof fn lemma_diff_merge_round_trip(a: DeleteMap, b: DeleteMap, k: u32, v: crate::node::Value)
    requires
        a.wf(),
        b.wf(),
    ensures
        has_entry(merge_spec(a@, diff_spec(a@, b@)), (k, Some(v))) <==> has_entry(b@, (k, Some(v))),
{
    let sa = a@;
    let sb = b@;
    let sd = diff_spec(sa, sb);
    lemma_diff_unique(sa, sb);
    let m = merge_spec(sa, sd);
    let changed = sb.filter_map(changed_fn(sa));
    let removed = sa.filter_map(removed_fn(sb));
    let e = (k, Some(v));
    if has_entry(sb, e) {
        let mb = choose|i: int| 0 <= i < sb.len() && #[trigger] sb[i] == e;
        if has_entry(sa, e) {
            let ma = choose|i: int| 0 <= i < sa.len() && #[trigger] sa[i] == e;
            if has_key(sd, k) {
                let j = choose|j: int| 0 <= j < sd.len() && #[trigger] sd[j].0 == k;
                let x = sd[j];
                assert(has_entry(sd, x));
                lemma_in_concat(changed, removed, x);
                if has_entry(changed, x) {
                    lemma_filter_map_from(sb, changed_fn(sa), x);
                    let i = choose|i: int| 0 <= i < sb.len() && changed_fn(sa)(#[trigger] sb[i]) == Some(x);
                    assert(sb[i].0 == k);
                    assert(i == mb);
                } else {
                    lemma_filter_map_from(sa, removed_fn(sb), x);
                    let i = choose|i: int| 0 <= i < sa.len() && removed_fn(sb)(#[trigger] sa[i]) == Some(x);
                    assert(sb[mb].0 == k);
                }
            }
            lemma_filter_map_has(sa, kept_fn(sd), ma);
            lemma_in_concat(sa.filter_map(kept_fn(sd)), sd.filter_map(added_fn(sa)), e);
        } else {
            lemma_filter_map_has(sb, changed_fn(sa), mb);
            lemma_in_concat(changed, removed, e);
            lemma_merge_live(sa, sd, k, v);
        }
    }
    if has_entry(m, e) {
        let mi = choose|i: int| 0 <= i < m.len() && #[trigger] m[i] == e;
        assert(m[mi].0 == k);
        if has_key(sd, k) {
            let j = index_of(sd, k);
            let x = sd[j];
            if x.1 is None {
                assert(has_entry(sd, (k, None)));
                lemma_merge_tombstone(sa, sd, k);
            } else {
                let w = x.1->Some_0;
                assert(has_entry(sd, (k, Some(w))));
                lemma_merge_live(sa, sd, k, w);
                lemma_diff_live_from_other(sa, sb, x);
            }
        } else {
            let kept = sa.filter_map(kept_fn(sd));
            let added = sd.filter_map(added_fn(sa));
            lemma_in_concat(kept, added, e);
            if has_entry(added, e) {
                lemma_filter_map_from(sd, added_fn(sa), e);
                let i = choose|i: int| 0 <= i < sd.len() && added_fn(sa)(#[trigger] sd[i]) == Some(e);
                assert(sd[i].0 == k);
            } else {
                lemma_filter_map_from(sa, kept_fn(sd), e);
                let i = choose|i: int| 0 <= i < sa.len() && kept_fn(sd)(#[trigger] sa[i]) == Some(e);
                if has_key(sd, sa[i].0) {
                    let y = index_of(sd, sa[i].0);
                    assert(sd[y].0 == k);
                }
                assert(sa[i] == e);
                if !has_live(sb, k) {
                    lemma_filter_map_has(sa, removed_fn(sb), i);
                    lemma_in_concat(changed, removed, (k, None));
                    let z = choose|z: int| 0 <= z < sd.len() && #[trigger] sd[z] == (k, None::<crate::node::Value>);
                    assert(sd[z].0 == k);
                } else {
                    let n = choose|n: int| 0 <= n < sb.len() && #[trigger] sb[n].0 == k && sb[n].1 is Some;
                    if sb[n] != e {
                        if has_entry(sa, sb[n]) {
                            let t = choose|t: int| 0 <= t < sa.len() && #[trigger] sa[t] == sb[n];
                            assert(sa[t].0 == sa[i].0);
                        }
                        lemma_filter_map_has(sb, changed_fn(sa), n);
                        lemma_in_concat(changed, removed, sb[n]);
                        let z = choose|z: int| 0 <= z < sd.len() && #[trigger] sd[z] == sb[n];
                        assert(sd[z].0 == k);
                    }
                }
            }
        }
    }
}

} // verus!
