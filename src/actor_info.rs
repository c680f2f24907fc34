use crate::delete_map::{has_key, live_keys, live_values, DeleteMap, EntryV};
use crate::map_unit::{hash_get, hash_lookup};
use crate::node::{clone_node, entries_of, lemma_entries_of, lemma_values_of, value_of, values_of, Node, Value};
use vstd::prelude::*;

verus! {

/// Why a tree is not a valid actor-info resource.
#[derive(PartialEq, Eq, Structural, Clone, Copy, Debug)]
pub enum ActorInfoError {
    /// The root is not a hash.
    NotAMap,
    /// `Actors` is absent or not a list.
    MissingActors,
    /// `Hashes` is absent or not a list.
    MissingHashes,
    /// The two lists differ in length.
    LengthMismatch,
    /// The hash at this position is not a non-negative integer.
    BadHash(usize),
    /// The hash at this position repeats an earlier one.
    DuplicateHash(usize),
}

pub open spec fn key_actors() -> Seq<char> {
    seq!['A', 'c', 't', 'o', 'r', 's']
}

pub open spec fn key_hashes() -> Seq<char> {
    seq!['H', 'a', 's', 'h', 'e', 's']
}

/// The identifier that a hash node holds: an unsigned integer, or a
/// non-negative signed one.
pub open spec fn hash_value_spec(v: Value) -> Option<u32> {
    match v {
        Value::U32(x) => Some(x),
        Value::I32(x) => if x >= 0 { Some(x as u32) } else { None },
        _ => None,
    }
}

/// How an identifier is written: as a signed integer where it fits, else
/// as an unsigned one.
pub open spec fn hash_node_spec(k: u32) -> Value {
    if k < 0x8000_0000 {
        Value::I32(k as i32)
    } else {
        Value::U32(k)
    }
}

/// The first `n` actors keyed by the hash beside each, in list order; the
/// first faulty hash decides the error.
pub open spec fn actor_entries_spec(hashes: Seq<Value>, actors: Seq<Value>, n: int) -> Result<Seq<EntryV>, ActorInfoError>
    decreases n,
{
    if n <= 0 {
        Ok(Seq::empty())
    } else {
        match actor_entries_spec(hashes, actors, n - 1) {
            Err(e) => Err(e),
            Ok(prev) => match hash_value_spec(hashes[n - 1]) {
                None => Err(ActorInfoError::BadHash((n - 1) as usize)),
                Some(k) => if has_key(prev, k) {
                    Err(ActorInfoError::DuplicateHash((n - 1) as usize))
                } else {
                    Ok(prev.push((k, Some(actors[n - 1]))))
                },
            },
        }
    }
}

/// Decoding an actor-info tree into its entries.
pub open spec fn actor_info_spec(v: Value) -> Result<Seq<EntryV>, ActorInfoError> {
    match v {
        Value::Hash(h) => match hash_get(h, key_actors()) {
            Some(Value::Array(actors)) => match hash_get(h, key_hashes()) {
                Some(Value::Array(hashes)) => if actors.len() != hashes.len() {
                    Err(ActorInfoError::LengthMismatch)
                } else {
                    actor_entries_spec(hashes, actors, hashes.len() as int)
                },
                _ => Err(ActorInfoError::MissingHashes),
            },
            _ => Err(ActorInfoError::MissingActors),
        },
        _ => Err(ActorInfoError::NotAMap),
    }
}

/// Encoding entries as an actor-info tree: the live values under `Actors`,
/// their identifiers, in the same order, under `Hashes`.
pub open spec fn actor_info_node_spec(s: Seq<EntryV>) -> Value {
    Value::Hash(seq![
        (key_actors(), Value::Array(live_values(s))),
        (key_hashes(), Value::Array(live_keys(s).map_values(|k: u32| hash_node_spec(k)))),
    ])
}

proof fn lemma_actor_err_extends(hashes: Seq<Value>, actors: Seq<Value>, j: int, n: int)
    requires
        0 <= j <= n,
        actor_entries_spec(hashes, actors, j) is Err,
    ensures
        actor_entries_spec(hashes, actors, n) == actor_entries_spec(hashes, actors, j),
    decreases n - j,
{
    if j < n {
        lemma_actor_err_extends(hashes, actors, j + 1, n);
    }
}

fn hash_value(n: &Node) -> (r: Option<u32>)
    ensures
        r == hash_value_spec(n@),
{
    match n {
        Node::U32(x) => Some(*x),
        Node::I32(x) => if *x >= 0 { Some(*x as u32) } else { None },
        _ => None,
    }
}

/// Reads the entries of an actor-info tree (see `actor_info_spec`).
pub fn actor_info_from_node(n: &Node) -> (r: Result<DeleteMap, ActorInfoError>)
    ensures
        match r {
            Ok(m) => actor_info_spec(n@) == Ok::<Seq<EntryV>, ActorInfoError>(m@) && m.wf(),
            Err(e) => actor_info_spec(n@) == Err::<Seq<EntryV>, ActorInfoError>(e),
        },
{
    proof {
        reveal_strlit("Actors");
        reveal_strlit("Hashes");
        assert("Actors"@ =~= key_actors());
        assert("Hashes"@ =~= key_hashes());
    }
    let h = match n {
        Node::Hash(h) => h,
        _ => return Err(ActorInfoError::NotAMap),
    };
    let actors = match hash_lookup(h, "Actors") {
        Some(Node::Array(a)) => a,
        _ => return Err(ActorInfoError::MissingActors),
    };
    let hashes = match hash_lookup(h, "Hashes") {
        Some(Node::Array(x)) => x,
        _ => return Err(ActorInfoError::MissingHashes),
    };
    proof {
        lemma_values_of(*actors, actors.len() as int);
        lemma_values_of(*hashes, hashes.len() as int);
    }
    if actors.len() != hashes.len() {
        return Err(ActorInfoError::LengthMismatch);
    }
    let ghost hs = values_of(*hashes, hashes.len() as int);
    let ghost acts = values_of(*actors, actors.len() as int);
    assert(n@ == Value::Hash(entries_of(*h, h.len() as int)));
    assert(actor_info_spec(n@) == actor_entries_spec(hs, acts, hs.len() as int));
    let mut out = DeleteMap::new();
    let mut i: usize = 0;
    while i < hashes.len()
        invariant
            0 <= i <= hashes.len(),
            actor_info_spec(n@) == actor_entries_spec(hs, acts, hs.len() as int),
            actors.len() == hashes.len(),
            hs == values_of(*hashes, hashes.len() as int),
            acts == values_of(*actors, actors.len() as int),
            hs.len() == hashes.len(),
            acts.len() == actors.len(),
            forall|j: int| 0 <= j < hashes.len() ==> #[trigger] hs[j] == value_of(hashes[j]),
            forall|j: int| 0 <= j < actors.len() ==> #[trigger] acts[j] == value_of(actors[j]),
            actor_entries_spec(hs, acts, i as int) == Ok::<Seq<EntryV>, ActorInfoError>(out@),
            out.wf(),
        decreases hashes.len() - i,
    {
        let k = match hash_value(&hashes[i]) {
            Some(k) => k,
            None => {
                proof { lemma_actor_err_extends(hs, acts, i + 1, hs.len() as int); }
                return Err(ActorInfoError::BadHash(i));
            },
        };
        if out.find(k).is_some() {
            proof { lemma_actor_err_extends(hs, acts, i + 1, hs.len() as int); }
            return Err(ActorInfoError::DuplicateHash(i));
        }
        out.insert(k, clone_node(&actors[i]));
        i = i + 1;
    }
    Ok(out)
}

fn hash_node(k: u32) -> (r: Node)
    ensures
        r@ == hash_node_spec(k),
{
    if k < 0x8000_0000 {
        Node::I32(k as i32)
    } else {
        Node::U32(k)
    }
}

/// Writes entries as an actor-info tree (see `actor_info_node_spec`).
pub fn actor_info_to_node(m: &DeleteMap) -> (r: Node)
    ensures
        r@ == actor_info_node_spec(m@),
{
    proof {
        reveal_strlit("Actors");
        reveal_strlit("Hashes");
        assert("Actors"@ =~= key_actors());
        assert("Hashes"@ =~= key_hashes());
    }
    let keys = m.keys();
    let ghost want = live_keys(m@).map_values(|k: u32| hash_node_spec(k));
    let mut hashes: Vec<Node> = Vec::new();
    let mut i: usize = 0;
    while i < keys.len()
        invariant
            0 <= i <= keys.len(),
            keys@ == live_keys(m@),
            want == live_keys(m@).map_values(|k: u32| hash_node_spec(k)),
            hashes.len() == i,
            forall|j: int| 0 <= j < i ==> value_of(#[trigger] hashes@[j]) == want[j],
        decreases keys.len() - i,
    {
        hashes.push(hash_node(keys[i]));
        i = i + 1;
    }
    proof {
        lemma_values_of(hashes, hashes.len() as int);
        assert(values_of(hashes, hashes.len() as int) =~= want);
    }
    let mut out: Vec<(String, Node)> = Vec::new();
    out.push(("Actors".to_owned(), Node::Array(m.values())));
    out.push(("Hashes".to_owned(), Node::Array(hashes)));
    proof {
        lemma_entries_of(out, out.len() as int);
        assert(entries_of(out, out.len() as int) =~= actor_info_node_spec(m@)->Hash_0);
    }
    Node::Hash(out)
}

} // verus!
