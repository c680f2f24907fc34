use crate::delete_map::{has_key, index_of, merge_spec, DeleteMap, EntryV};
use crate::node::{clone_node, entries_of, lemma_entries_of, value_of, Node, Value};
use vstd::prelude::*;

verus! {

pub open spec fn is_digit(c: char) -> bool {
    '0' <= c <= '9'
}

pub open spec fn all_digits(s: Seq<char>) -> bool {
    forall|i: int| 0 <= i < s.len() ==> is_digit(#[trigger] s[i])
}

/// The number that a string of decimal digits writes.
pub open spec fn digits_value(s: Seq<char>) -> nat
    decreases s.len(),
{
    if s.len() == 0 {
        0
    } else {
        digits_value(s.drop_last()) * 10 + (s.last() as nat - '0' as nat) as nat
    }
}

/// The digits of a key, after an optional leading `+`.
pub open spec fn key_digits(s: Seq<char>) -> Seq<char> {
    if s.len() > 0 && s[0] == '+' {
        s.drop_first()
    } else {
        s
    }
}

/// A hash identifier written in decimal: an optional `+`, then at least one
/// digit, with a value that fits in 32 bits.
pub open spec fn parse_key_spec(s: Seq<char>) -> Option<u32> {
    let d = key_digits(s);
    if d.len() > 0 && all_digits(d) && digits_value(d) <= u32::MAX {
        Some(digits_value(d) as u32)
    } else {
        None
    }
}

proof fn lemma_digits_monotone(s: Seq<char>, i: int)
    requires
        0 <= i <= s.len(),
        all_digits(s),
    ensures
        digits_value(s.take(i)) <= digits_value(s),
    decreases s.len() - i,
{
    if i < s.len() {
        lemma_digits_monotone(s, i + 1);
        assert(s.take(i + 1).drop_last() =~= s.take(i));
    } else {
        assert(s.take(i) =~= s);
    }
}

/// Reads a hash identifier written in decimal (see `parse_key_spec`).
pub fn parse_hash_key(s: &str) -> (r: Option<u32>)
    ensures
        r == parse_key_spec(s@),
{
    let n = s.unicode_len();
    let mut start: usize = 0;
    if n > 0 && s.get_char(0) == '+' {
        start = 1;
    }
    let ghost d = key_digits(s@);
    assert(d =~= s@.subrange(start as int, n as int));
    if start >= n {
        return None;
    }
    let mut acc: u64 = 0;
    let mut i: usize = start;
    while i < n
        invariant
            start <= i <= n,
            n == s@.len(),
            d == s@.subrange(start as int, n as int),
            d == key_digits(s@),
            all_digits(d.take(i - start)),
            acc == digits_value(d.take(i - start)),
            acc <= u32::MAX,
        decreases n - i,
    {
        let c = s.get_char(i);
        assert(d.take(i + 1 - start).drop_last() =~= d.take(i - start));
        assert(d.take(i + 1 - start).last() == c);
        if c < '0' || c > '9' {
            assert(!is_digit(d[i - start]));
            assert(!all_digits(d));
            return None;
        }
        let digit = (c as u32 - '0' as u32) as u64;
        acc = acc * 10 + digit;
        assert(acc == digits_value(d.take(i + 1 - start)));
        if acc > 0xffff_ffff {
            proof {
                if all_digits(d) {
                    lemma_digits_monotone(d, i + 1 - start);
                }
            }
            return None;
        }
        i = i + 1;
    }
    assert(d.take(n - start) =~= d);
    Some(acc as u32)
}

/// Why a patch could not be read.
#[derive(PartialEq, Eq, Structural, Clone, Copy, Debug)]
pub enum PatchError {
    /// The patch root is not a hash.
    NotAMap,
    /// The key at this position is not a hash identifier.
    BadKey(usize),
}

/// The entries after setting key `k` to `v`: in place where `k` has an
/// entry, else at the end.
pub open spec fn insert_spec(s: Seq<EntryV>, k: u32, v: Value) -> Seq<EntryV> {
    if has_key(s, k) {
        s.update(index_of(s, k), (k, Some(v)))
    } else {
        s.push((k, Some(v)))
    }
}

/// The diff that a patch hash holds: each entry's key read as a hash
/// identifier, the entries set in order, so that of two keys with one
/// value the later wins. The first bad key decides the error.
pub open spec fn patch_spec(h: Seq<(Seq<char>, Value)>) -> Result<Seq<EntryV>, PatchError>
    decreases h.len(),
{
    if h.len() == 0 {
        Ok(Seq::empty())
    } else {
        match patch_spec(h.drop_last()) {
            Err(e) => Err(e),
            Ok(prev) => match parse_key_spec(h.last().0) {
                None => Err(PatchError::BadKey((h.len() - 1) as usize)),
                Some(k) => Ok(insert_spec(prev, k, h.last().1)),
            },
        }
    }
}

proof fn lemma_patch_err_extends(h: Seq<(Seq<char>, Value)>, j: int)
    requires
        0 <= j <= h.len(),
        patch_spec(h.take(j)) is Err,
    ensures
        patch_spec(h) == patch_spec(h.take(j)),
    decreases h.len() - j,
{
    if j < h.len() {
        assert(h.take(j + 1).drop_last() =~= h.take(j));
        lemma_patch_err_extends(h, j + 1);
    } else {
        assert(h.take(j) =~= h);
    }
}

/// Reads the diff that a patch tree holds (see `patch_spec`).
pub fn patch_from_node(n: &Node) -> (r: Result<DeleteMap, PatchError>)
    ensures
        match n@ {
            Value::Hash(h) => match r {
                Ok(m) => patch_spec(h) == Ok::<Seq<EntryV>, PatchError>(m@) && m.wf(),
                Err(e) => patch_spec(h) == Err::<Seq<EntryV>, PatchError>(e),
            },
            _ => r == Err::<DeleteMap, PatchError>(PatchError::NotAMap),
        },
{
    let h = match n {
        Node::Hash(h) => h,
        _ => return Err(PatchError::NotAMap),
    };
    proof {
        lemma_entries_of(*h, h.len() as int);
    }
    let ghost s = entries_of(*h, h.len() as int);
    let mut out = DeleteMap::new();
    let mut i: usize = 0;
    while i < h.len()
        invariant
            0 <= i <= h.len(),
            *n == Node::Hash(*h),
            s == entries_of(*h, h.len() as int),
            s.len() == h.len(),
            forall|j: int| 0 <= j < h.len() ==> #[trigger] s[j] == (h[j].0@, value_of(h[j].1)),
            patch_spec(s.take(i as int)) == Ok::<Seq<EntryV>, PatchError>(out@),
            out.wf(),
        decreases h.len() - i,
    {
        assert(s.take(i + 1).drop_last() =~= s.take(i as int));
        assert(s.take(i + 1).last() == s[i as int]);
        match parse_hash_key(h[i].0.as_str()) {
            Some(k) => {
                out.insert(k, clone_node(&h[i].1));
            },
            None => {
                proof {
                    lemma_patch_err_extends(s, i + 1);
                }
                return Err(PatchError::BadKey(i));
            },
        }
        i = i + 1;
    }
    assert(s.take(h.len() as int) =~= s);
    Ok(out)
}

/// Applies a patch tree to a vanilla resource's entries: the patch is read
/// (see `patch_from_node`) and merged onto `base`.
pub fn apply_patch(base: &DeleteMap, patch: &Node) -> (r: Result<DeleteMap, PatchError>)
    requires
        base.wf(),
    ensures
        match patch@ {
            Value::Hash(h) => match patch_spec(h) {
                Ok(d) => r is Ok && r->Ok_0@ == merge_spec(base@, d) && r->Ok_0.wf(),
                Err(e) => r == Err::<DeleteMap, PatchError>(e),
            },
            _ => r == Err::<DeleteMap, PatchError>(PatchError::NotAMap),
        },
{
    let diff = patch_from_node(patch)?;
    Ok(base.merge(&diff))
}

} // verus!
