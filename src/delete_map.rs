use crate::node::{clone_node, node_eq, value_of, values_of, Node, Value};
use std::collections::HashMap;
use vstd::prelude::*;

verus! {

/// One entry of a delete-tracking map as seen by the contracts: a key and
/// either a live value or a tombstone (`None`).
pub type EntryV = (u32, Option<Value>);

pub open spec fn has_key(s: Seq<EntryV>, k: u32) -> bool {
    exists|i: int| 0 <= i < s.len() && #[trigger] s[i].0 == k
}

pub open spec fn has_entry(s: Seq<EntryV>, e: EntryV) -> bool {
    exists|i: int| 0 <= i < s.len() && #[trigger] s[i] == e
}

pub open spec fn has_live(s: Seq<EntryV>, k: u32) -> bool {
    exists|i: int| 0 <= i < s.len() && #[trigger] s[i].0 == k && s[i].1 is Some
}

/// The position of key `k` in `s`, when `has_key(s, k)`.
pub open spec fn index_of(s: Seq<EntryV>, k: u32) -> int {
    choose|i: int| 0 <= i < s.len() && #[trigger] s[i].0 == k
}

pub open spec fn unique_keys(s: Seq<EntryV>) -> bool {
    forall|i: int, j: int| 0 <= i < s.len() && 0 <= j < s.len() && i != j ==> s[i].0 != s[j].0
}

/// What becomes of a base entry `e` when `d` is merged onto it.
pub open spec fn merge_kept(d: Seq<EntryV>, e: EntryV) -> Option<EntryV> {
    if has_key(d, e.0) {
        let x = d[index_of(d, e.0)];
        if x.1 is Some {
            Some(x)
        } else {
            None
        }
    } else {
        Some(e)
    }
}

/// Whether a diff entry `e` is appended after the entries of base `b`.
pub open spec fn merge_added(b: Seq<EntryV>, e: EntryV) -> Option<EntryV> {
    if e.1 is Some && !has_key(b, e.0) {
        Some(e)
    } else {
        None
    }
}

/// The result of merging diff `d` onto base `b`: the base entries in base
/// order, each dropped (tombstoned), overwritten or kept, followed by the live
/// diff entries whose keys are new to the base, in diff order.
pub open spec fn merge_spec(b: Seq<EntryV>, d: Seq<EntryV>) -> Seq<EntryV> {
    b.filter_map(kept_fn(d)) + d.filter_map(added_fn(b))
}

pub open spec fn kept_fn(d: Seq<EntryV>) -> spec_fn(EntryV) -> Option<EntryV> {
    |e: EntryV| merge_kept(d, e)
}

pub open spec fn added_fn(b: Seq<EntryV>) -> spec_fn(EntryV) -> Option<EntryV> {
    |e: EntryV| merge_added(b, e)
}

pub open spec fn changed_fn(b: Seq<EntryV>) -> spec_fn(EntryV) -> Option<EntryV> {
    |e: EntryV| diff_changed(b, e)
}

pub open spec fn removed_fn(o: Seq<EntryV>) -> spec_fn(EntryV) -> Option<EntryV> {
    |e: EntryV| diff_removed(o, e)
}

/// A live entry of `o` that `b` lacks or holds with another value.
pub open spec fn diff_changed(b: Seq<EntryV>, e: EntryV) -> Option<EntryV> {
    if e.1 is Some && !has_entry(b, e) {
        Some(e)
    } else {
        None
    }
}

/// A tombstone for a live entry of `b` whose key is not live in `o`.
pub open spec fn diff_removed(o: Seq<EntryV>, e: EntryV) -> Option<EntryV> {
    if e.1 is Some && !has_live(o, e.0) {
        Some((e.0, None))
    } else {
        None
    }
}

/// The diff from `b` to `o`: the changed or new live entries of `o` in its
/// order, then a tombstone for each live key of `b` that `o` lost, in the
/// order of `b`.
pub open spec fn diff_spec(b: Seq<EntryV>, o: Seq<EntryV>) -> Seq<EntryV> {
    o.filter_map(changed_fn(b)) + b.filter_map(removed_fn(o))
}

pub open spec fn live_fn() -> spec_fn(EntryV) -> Option<Value> {
    |e: EntryV| e.1
}

pub open spec fn live_key_fn() -> spec_fn(EntryV) -> Option<u32> {
    |e: EntryV| if e.1 is Some { Some(e.0) } else { None }
}

/// The live keys of `s`, in order.
pub open spec fn live_keys(s: Seq<EntryV>) -> Seq<u32> {
    s.filter_map(live_key_fn())
}

/// The live values of `s`, in order.
pub open spec fn live_values(s: Seq<EntryV>) -> Seq<Value> {
    s.filter_map(live_fn())
}

pub open spec fn opt_value(v: Option<Node>) -> Option<Value> {
    match v {
        Some(n) => Some(value_of(n)),
        None => None,
    }
}

/// An ordered map from hash identifiers to tree nodes that remembers deleted
/// keys as tombstones, so that a diff can carry deletions.
pub struct DeleteMap {
    entries: Vec<(u32, Option<Node>)>,
}

impl View for DeleteMap {
    type V = Seq<EntryV>;

    open spec fn view(&self) -> Seq<EntryV> {
        Seq::new(self.spec_entries().len(), |i: int| (self.spec_entries()[i].0, opt_value(self.spec_entries()[i].1)))
    }
}

fn clone_opt(v: &Option<Node>) -> (r: Option<Node>)
    ensures
        opt_value(r) == opt_value(*v),
{
    match v {
        Some(n) => Some(clone_node(n)),
        None => None,
    }
}

fn opt_eq(a: &Option<Node>, b: &Option<Node>) -> (r: bool)
    ensures
        r == (opt_value(*a) == opt_value(*b)),
{
    match (a, b) {
        (Some(x), Some(y)) => node_eq(x, y),
        (None, None) => true,
        _ => false,
    }
}

/// Each key of a map with its position, so that lookups take constant
/// expected time.
struct KeyIndex {
    positions: HashMap<u32, usize>,
}

impl KeyIndex {
    spec fn indexes(&self, s: Seq<EntryV>) -> bool {
        &&& forall|k: u32| self.positions@.contains_key(k) <==> has_key(s, k)
        &&& forall|k: u32| #[trigger] self.positions@.contains_key(k) ==> self.positions@[k] < s.len() && s[self.positions@[k] as int].0 == k
    }

    fn of(m: &DeleteMap) -> (r: KeyIndex)
        ensures
            r.indexes(m@),
    {
        broadcast use vstd::std_specs::hash::group_hash_axioms;
        let mut positions: HashMap<u32, usize> = HashMap::new();
        let mut i: usize = 0;
        while i < m.entries.len()
            invariant
                0 <= i <= m.entries.len(),
                m@.len() == m.entries.len(),
                forall|k: u32| positions@.contains_key(k) <==> has_key(m@.take(i as int), k),
                forall|k: u32| #[trigger] positions@.contains_key(k) ==> positions@[k] < i && m@[positions@[k] as int].0 == k,
            decreases m.entries.len() - i,
        {
            let k = m.entries[i].0;
            positions.insert(k, i);
            proof {
                assert forall|q: u32| positions@.contains_key(q) <==> has_key(m@.take(i + 1), q) by {
                    if has_key(m@.take(i + 1), q) {
                        let j = choose|j: int| 0 <= j < i + 1 && #[trigger] m@.take(i + 1)[j].0 == q;
                        if j < i {
                            assert(m@.take(i as int)[j].0 == q);
                        }
                    }
                    if positions@.contains_key(q) && q != k {
                        let j = choose|j: int| 0 <= j < i && #[trigger] m@.take(i as int)[j].0 == q;
                        assert(m@.take(i + 1)[j].0 == q);
                    }
                    if q == k {
                        assert(m@.take(i + 1)[i as int].0 == q);
                    }
                }
            }
            i = i + 1;
        }
        assert(m@.take(m@.len() as int) =~= m@);
        KeyIndex { positions }
    }

    /// The position of key `k` in `m`, as `find` gives it.
    fn find(&self, m: &DeleteMap, k: u32) -> (r: Option<usize>)
        requires
            self.indexes(m@),
        ensures
            match r {
                Some(i) => i < m@.len() && m@[i as int].0 == k,
                None => !has_key(m@, k),
            },
    {
        broadcast use vstd::std_specs::hash::group_hash_axioms;
        match self.positions.get(&k) {
            Some(i) => Some(*i),
            None => None,
        }
    }
}

impl PartialEq for DeleteMap {
    fn eq(&self, other: &DeleteMap) -> (r: bool) {
        if self.entries.len() != other.entries.len() {
            return false;
        }
        let mut i: usize = 0;
        while i < self.entries.len()
            invariant
                0 <= i <= self.entries.len(),
                self.entries.len() == other.entries.len(),
                self@.len() == self.entries.len(),
                other@.len() == other.entries.len(),
                forall|j: int| 0 <= j < i ==> self@[j] == other@[j],
            decreases self.entries.len() - i,
        {
            if self.entries[i].0 != other.entries[i].0 || !opt_eq(&self.entries[i].1, &other.entries[i].1) {
                assert(self@[i as int] != other@[i as int]);
                return false;
            }
            i = i + 1;
        }
        assert(self@ =~= other@);
        true
    }
}

impl vstd::std_specs::cmp::PartialEqSpecImpl for DeleteMap {
    open spec fn obeys_eq_spec() -> bool {
        true
    }

    open spec fn eq_spec(&self, other: &DeleteMap) -> bool {
        self@ == other@
    }
}

impl Clone for DeleteMap {
    fn clone(&self) -> (r: DeleteMap)
        ensures
            r@ == self@,
    {
        let mut out: Vec<(u32, Option<Node>)> = Vec::new();
        let mut i: usize = 0;
        while i < self.entries.len()
            invariant
                0 <= i <= self.entries.len(),
                self@.len() == self.entries.len(),
                out.len() == i,
                forall|j: int| 0 <= j < i ==> (DeleteMap { entries: out })@[j] == #[trigger] self@[j],
            decreases self.entries.len() - i,
        {
            let c = clone_opt(&self.entries[i].1);
            out.push((self.entries[i].0, c));
            i = i + 1;
        }
        let r = DeleteMap { entries: out };
        assert(r@ =~= self@);
        r
    }
}

impl Default for DeleteMap {
    fn default() -> (r: Self)
        ensures
            r@ == Seq::<EntryV>::empty(),
    {
        DeleteMap::new()
    }
}

impl DeleteMap {
    pub closed spec fn spec_entries(&self) -> Seq<(u32, Option<Node>)> {
        self.entries@
    }

    /// Keys are unique.
    pub open spec fn wf(&self) -> bool {
        unique_keys(self@)
    }

    pub fn new() -> (r: Self)
        ensures
            r@ == Seq::<EntryV>::empty(),
            r.wf(),
    {
        let r = DeleteMap { entries: Vec::new() };
        assert(r@ =~= Seq::<EntryV>::empty());
        r
    }

    /// Number of entries, tombstones included.
    pub fn len(&self) -> (r: usize)
        ensures
            r == self@.len(),
    {
        self.entries.len()
    }

    /// The position of key `k`, if it has an entry.
    pub fn find(&self, k: u32) -> (r: Option<usize>)
        ensures
            match r {
                Some(i) => i < self@.len() && self@[i as int].0 == k,
                None => !has_key(self@, k),
            },
    {
        let mut i: usize = 0;
        while i < self.entries.len()
            invariant
                0 <= i <= self.entries.len(),
                self@.len() == self.entries.len(),
                forall|j: int| 0 <= j < i ==> self@[j].0 != k,
            decreases self.entries.len() - i,
        {
            if self.entries[i].0 == k {
                return Some(i);
            }
            i = i + 1;
        }
        None
    }

    /// The live value under key `k`.
    pub fn get(&self, k: u32) -> (r: Option<&Node>)
        requires
            self.wf(),
        ensures
            match r {
                Some(n) => has_entry(self@, (k, Some(n@))),
                None => !has_live(self@, k),
            },
    {
        match self.find(k) {
            Some(i) => match &self.entries[i].1 {
                Some(n) => {
                    assert(self@[i as int] == (k, Some(n@)));
                    Some(n)
                },
                None => None,
            },
            None => None,
        }
    }

    /// Sets key `k` to the live value `v`: in place where `k` has an entry,
    /// else at the end.
    pub fn insert(&mut self, k: u32, v: Node)
        requires
            old(self).wf(),
        ensures
            final(self).wf(),
            match old(self).find_spec(k) {
                Some(i) => final(self)@ == old(self)@.update(i, (k, Some(v@))),
                None => final(self)@ == old(self)@.push((k, Some(v@))),
            },
    {
        self.set(k, Some(v));
    }

    /// Marks key `k` as deleted: in place where `k` has an entry, else at the
    /// end.
    pub fn remove(&mut self, k: u32)
        requires
            old(self).wf(),
        ensures
            final(self).wf(),
            match old(self).find_spec(k) {
                Some(i) => final(self)@ == old(self)@.update(i, (k, None)),
                None => final(self)@ == old(self)@.push((k, None)),
            },
    {
        self.set(k, None);
    }

    pub open spec fn find_spec(&self, k: u32) -> Option<int> {
        if has_key(self@, k) {
            Some(index_of(self@, k))
        } else {
            None
        }
    }

    fn set(&mut self, k: u32, v: Option<Node>)
        requires
            old(self).wf(),
        ensures
            final(self).wf(),
            match old(self).find_spec(k) {
                Some(i) => final(self)@ == old(self)@.update(i, (k, opt_value(v))),
                None => final(self)@ == old(self)@.push((k, opt_value(v))),
            },
    {
        let ghost prev = self@;
        match self.find(k) {
            Some(i) => {
                self.entries.set(i, (k, v));
                proof {
                    assert(index_of(prev, k) == i as int);
                    assert(self@ =~= prev.update(i as int, (k, opt_value(v))));
                }
            },
            None => {
                self.entries.push((k, v));
                assert(self@ =~= prev.push((k, opt_value(v))));
            },
        }
    }

    /// Applies `diff` to this map (see `merge_spec`); the result owns fresh
    /// copies of every value. Keys are looked up through a hash index, so the
    /// work is linear in the two sizes (expected).
    pub fn merge(&self, diff: &DeleteMap) -> (r: DeleteMap)
        requires
            self.wf(),
            diff.wf(),
        ensures
            r@ == merge_spec(self@, diff@),
            r.wf(),
    {
        let ghost b = self@;
        let ghost d = diff@;
        let self_index = KeyIndex::of(self);
        let diff_index = KeyIndex::of(diff);
        let mut out: Vec<(u32, Option<Node>)> = Vec::new();
        let mut i: usize = 0;
        while i < self.entries.len()
            invariant
                0 <= i <= self.entries.len(),
                b == self@,
                d == diff@,
                self_index.indexes(b),
                diff_index.indexes(d),
                b.len() == self.entries.len(),
                unique_keys(b),
                unique_keys(d),
                (DeleteMap { entries: out })@ == b.take(i as int).filter_map(kept_fn(d)),
                unique_keys((DeleteMap { entries: out })@),
                forall|j: int| 0 <= j < out.len() ==> has_key(b.take(i as int), #[trigger] out@[j].0),
            decreases self.entries.len() - i,
        {
            proof {
                b.lemma_filter_map_take_succ(kept_fn(d), i as int);
            }
            let ghost before = (DeleteMap { entries: out })@;
            let ghost before_out = out@;
            let k = self.entries[i].0;
            match diff_index.find(diff, k) {
                Some(j) => {
                    proof {
                        assert(has_key(d, k));
                        assert(index_of(d, k) == j as int);
                    }
                    match &diff.entries[j].1 {
                        Some(n) => {
                            let c = clone_node(n);
                            out.push((k, Some(c)));
                        },
                        None => {},
                    }
                },
                None => {
                    let c = clone_opt(&self.entries[i].1);
                    out.push((k, c));
                },
            }
            proof {
                let now = (DeleteMap { entries: out })@;
                assert(now =~= before + match merge_kept(d, b[i as int]) {
                    Some(x) => seq![x],
                    None => Seq::empty(),
                });
                assert forall|j: int| 0 <= j < out.len() implies has_key(b.take(i + 1), #[trigger] out@[j].0) by {
                    if j == out.len() - 1 && now.len() > before.len() {
                        assert(b.take(i + 1)[i as int].0 == out@[j].0);
                    } else {
                        assert(out@[j] == before_out[j]);
                        let m = choose|m: int| 0 <= m < i && #[trigger] b.take(i as int)[m].0 == out@[j].0;
                        assert(b.take(i + 1)[m].0 == out@[j].0);
                    }
                }
            }
            i = i + 1;
        }
        assert(b.take(b.len() as int) =~= b);
        let ghost len1 = out.len();
        let mut i: usize = 0;
        while i < diff.entries.len()
            invariant
                0 <= i <= diff.entries.len(),
                b == self@,
                d == diff@,
                self_index.indexes(b),
                diff_index.indexes(d),
                d.len() == diff.entries.len(),
                unique_keys(b),
                unique_keys(d),
                len1 <= out.len(),
                (DeleteMap { entries: out })@ == b.filter_map(kept_fn(d)) + d.take(i as int).filter_map(added_fn(b)),
                unique_keys((DeleteMap { entries: out })@),
                forall|j: int| 0 <= j < len1 ==> has_key(b, #[trigger] out@[j].0),
                forall|j: int| len1 <= j < out.len() ==> !has_key(b, #[trigger] out@[j].0) && has_key(d.take(i as int), out@[j].0),
            decreases diff.entries.len() - i,
        {
            proof {
                d.lemma_filter_map_take_succ(added_fn(b), i as int);
            }
            let ghost before = (DeleteMap { entries: out })@;
            let k = diff.entries[i].0;
            if diff.entries[i].1.is_some() && self_index.find(self, k).is_none() {
                let c = clone_opt(&diff.entries[i].1);
                out.push((k, c));
            }
            proof {
                let now = (DeleteMap { entries: out })@;
                assert(now =~= before + match merge_added(b, d[i as int]) {
                    Some(x) => seq![x],
                    None => Seq::empty(),
                });
            }
            i = i + 1;
        }
        assert(d.take(d.len() as int) =~= d);
        DeleteMap { entries: out }
    }

    /// The diff from this map to `other` (see `diff_spec`): what `merge` needs
    /// to turn this map into `other`. Keys are looked up through a hash
    /// index, so the work is linear in the two sizes (expected).
    pub fn diff(&self, other: &DeleteMap) -> (r: DeleteMap)
        requires
            self.wf(),
            other.wf(),
        ensures
            r@ == diff_spec(self@, other@),
            r.wf(),
    {
        let ghost b = self@;
        let ghost o = other@;
        let self_index = KeyIndex::of(self);
        let other_index = KeyIndex::of(other);
        let mut out: Vec<(u32, Option<Node>)> = Vec::new();
        let mut i: usize = 0;
        while i < other.entries.len()
            invariant
                0 <= i <= other.entries.len(),
                b == self@,
                o == other@,
                self_index.indexes(b),
                other_index.indexes(o),
                o.len() == other.entries.len(),
                unique_keys(b),
                unique_keys(o),
                (DeleteMap { entries: out })@ == o.take(i as int).filter_map(changed_fn(b)),
                unique_keys((DeleteMap { entries: out })@),
                forall|j: int| 0 <= j < out.len() ==> has_live(o.take(i as int), #[trigger] out@[j].0),
            decreases other.entries.len() - i,
        {
            proof {
                o.lemma_filter_map_take_succ(changed_fn(b), i as int);
            }
            let ghost before = (DeleteMap { entries: out })@;
            let ghost before_out = out@;
            let k = other.entries[i].0;
            match &other.entries[i].1 {
                Some(n) => {
                    let same = match self_index.find(self, k) {
                        Some(j) => match &self.entries[j].1 {
                            Some(m) => node_eq(m, n),
                            None => false,
                        },
                        None => false,
                    };
                    proof {
                        if !same {
                            assert forall|m: int| 0 <= m < b.len() implies #[trigger] b[m] != o[i as int] by {
                                if b[m] == o[i as int] {
                                    assert(has_key(b, k));
                                }
                            }
                        }
                    }
                    if !same {
                        let c = clone_node(n);
                        out.push((k, Some(c)));
                    }
                },
                None => {},
            }
            proof {
                let now = (DeleteMap { entries: out })@;
                assert(now =~= before + match diff_changed(b, o[i as int]) {
                    Some(x) => seq![x],
                    None => Seq::empty(),
                });
                assert forall|j: int| 0 <= j < out.len() implies has_live(o.take(i + 1), #[trigger] out@[j].0) by {
                    if j == out.len() - 1 && now.len() > before.len() {
                        assert(o.take(i + 1)[i as int].0 == out@[j].0);
                    } else {
                        assert(out@[j] == before_out[j]);
                        let m = choose|m: int| 0 <= m < i && #[trigger] o.take(i as int)[m].0 == out@[j].0 && o.take(i as int)[m].1 is Some;
                        assert(o.take(i + 1)[m].0 == out@[j].0);
                    }
                }
            }
            i = i + 1;
        }
        assert(o.take(o.len() as int) =~= o);
        let ghost len1 = out.len();
        let mut i: usize = 0;
        while i < self.entries.len()
            invariant
                0 <= i <= self.entries.len(),
                b == self@,
                o == other@,
                self_index.indexes(b),
                other_index.indexes(o),
                b.len() == self.entries.len(),
                unique_keys(b),
                unique_keys(o),
                len1 <= out.len(),
                (DeleteMap { entries: out })@ == o.filter_map(changed_fn(b)) + b.take(i as int).filter_map(removed_fn(o)),
                unique_keys((DeleteMap { entries: out })@),
                forall|j: int| 0 <= j < len1 ==> has_live(o, #[trigger] out@[j].0),
                forall|j: int| len1 <= j < out.len() ==> !has_live(o, #[trigger] out@[j].0) && has_key(b.take(i as int), out@[j].0),
            decreases self.entries.len() - i,
        {
            proof {
                b.lemma_filter_map_take_succ(removed_fn(o), i as int);
            }
            let ghost before = (DeleteMap { entries: out })@;
            let k = self.entries[i].0;
            if self.entries[i].1.is_some() {
                let live = match other_index.find(other, k) {
                    Some(j) => other.entries[j].1.is_some(),
                    None => false,
                };
                proof {
                    if !live {
                        assert forall|m: int| 0 <= m < o.len() && #[trigger] o[m].0 == k implies o[m].1 is None by {
                            assert(has_key(o, k));
                        }
                    }
                }
                if !live {
                    out.push((k, None));
                }
            }
            proof {
                let now = (DeleteMap { entries: out })@;
                assert(now =~= before + match diff_removed(o, b[i as int]) {
                    Some(x) => seq![x],
                    None => Seq::empty(),
                });
            }
            i = i + 1;
        }
        assert(b.take(b.len() as int) =~= b);
        DeleteMap { entries: out }
    }

    /// The live keys in order.
    pub fn keys(&self) -> (r: Vec<u32>)
        ensures
            r@ == live_keys(self@),
    {
        let mut out: Vec<u32> = Vec::new();
        let mut i: usize = 0;
        while i < self.entries.len()
            invariant
                0 <= i <= self.entries.len(),
                self@.len() == self.entries.len(),
                out@ == self@.take(i as int).filter_map(live_key_fn()),
            decreases self.entries.len() - i,
        {
            proof {
                self@.lemma_filter_map_take_succ(live_key_fn(), i as int);
            }
            if self.entries[i].1.is_some() {
                out.push(self.entries[i].0);
            }
            i = i + 1;
        }
        assert(self@.take(self@.len() as int) =~= self@);
        out
    }

    /// The live values in order.
    pub fn values(&self) -> (r: Vec<Node>)
        ensures
            values_of(r, r.len() as int) == live_values(self@),
    {
        let mut out: Vec<Node> = Vec::new();
        let mut i: usize = 0;
        while i < self.entries.len()
            invariant
                0 <= i <= self.entries.len(),
                self@.len() == self.entries.len(),
                out.len() == self@.take(i as int).filter_map(live_fn()).len(),
                forall|j: int| 0 <= j < out.len() ==> value_of(#[trigger] out@[j]) == self@.take(i as int).filter_map(live_fn())[j],
            decreases self.entries.len() - i,
        {
            proof {
                self@.lemma_filter_map_take_succ(live_fn(), i as int);
            }
            match &self.entries[i].1 {
                Some(n) => {
                    let c = clone_node(n);
                    out.push(c);
                },
                None => {},
            }
            i = i + 1;
        }
        assert(self@.take(self@.len() as int) =~= self@);
        proof {
            crate::node::lemma_values_of(out, out.len() as int);
            assert(values_of(out, out.len() as int) =~= live_values(self@));
        }
        out
    }
}

} // verus!
