use crate::delete_map::{DeleteMap, EntryV, diff_spec, has_key, live_values, merge_spec};
use crate::node::{lemma_entries_of, lemma_values_of, values_of, entries_of, clone_node, value_of, Node, Value};
use vstd::prelude::*;

verus! {

/// The places in a map-unit tree that decoding reads.
#[derive(PartialEq, Eq, Structural, Clone, Copy, Debug)]
pub enum Field {
    Root,
    LocationPosX,
    LocationPosY,
    LocationSize,
    Objs,
    Rails,
    Obj,
    Rail,
    ObjHashId,
    RailHashId,
}

/// Why a tree is not a valid map unit.
#[derive(PartialEq, Eq, Structural, Clone, Copy, Debug)]
pub enum UKError {
    /// A required key is absent.
    MissingBymlKey(Field),
    /// A node has another variant than the schema asks for.
    WrongBymlType(Field),
    /// Two entries of one list carry the same hash identifier.
    DuplicateHashId(Field, u32),
}

impl Field {
    /// The key, or a description of the element, that this field names.
    pub fn name(&self) -> (r: &'static str)
        ensures
            *self == Field::LocationPosX ==> r@ == key_pos_x(),
            *self == Field::LocationPosY ==> r@ == key_pos_y(),
            *self == Field::LocationSize ==> r@ == key_size(),
            *self == Field::Objs ==> r@ == key_objs(),
            *self == Field::Rails ==> r@ == key_rails(),
            (*self == Field::ObjHashId || *self == Field::RailHashId) ==> r@ == key_hash_id(),
            *self == Field::Root ==> r@ == seq!['m', 'a', 'p', ' ', 'u', 'n', 'i', 't'],
            *self == Field::Obj ==> r@ == seq!['m', 'a', 'p', ' ', 'u', 'n', 'i', 't', ' ', 'o', 'b', 'j', 'e', 'c', 't'],
            *self == Field::Rail ==> r@ == seq!['m', 'a', 'p', ' ', 'u', 'n', 'i', 't', ' ', 'r', 'a', 'i', 'l'],
    {
        proof {
            reveal_strlit("LocationPosX");
            reveal_strlit("LocationPosY");
            reveal_strlit("LocationSize");
            reveal_strlit("Objs");
            reveal_strlit("Rails");
            reveal_strlit("HashId");
            reveal_strlit("map unit");
            reveal_strlit("map unit object");
            reveal_strlit("map unit rail");
            assert("map unit"@ =~= seq!['m', 'a', 'p', ' ', 'u', 'n', 'i', 't']);
            assert("map unit object"@ =~= seq!['m', 'a', 'p', ' ', 'u', 'n', 'i', 't', ' ', 'o', 'b', 'j', 'e', 'c', 't']);
            assert("map unit rail"@ =~= seq!['m', 'a', 'p', ' ', 'u', 'n', 'i', 't', ' ', 'r', 'a', 'i', 'l']);
            assert("LocationPosX"@ =~= key_pos_x());
            assert("LocationPosY"@ =~= key_pos_y());
            assert("LocationSize"@ =~= key_size());
            assert("Objs"@ =~= key_objs());
            assert("Rails"@ =~= key_rails());
            assert("HashId"@ =~= key_hash_id());
        }
        match self {
            Field::Root => "map unit",
            Field::LocationPosX => "LocationPosX",
            Field::LocationPosY => "LocationPosY",
            Field::LocationSize => "LocationSize",
            Field::Objs => "Objs",
            Field::Rails => "Rails",
            Field::Obj => "map unit object",
            Field::Rail => "map unit rail",
            Field::ObjHashId => "HashId",
            Field::RailHashId => "HashId",
        }
    }
}

pub open spec fn key_objs() -> Seq<char> {
    seq!['O', 'b', 'j', 's']
}

pub open spec fn key_rails() -> Seq<char> {
    seq!['R', 'a', 'i', 'l', 's']
}

pub open spec fn key_hash_id() -> Seq<char> {
    seq!['H', 'a', 's', 'h', 'I', 'd']
}

pub open spec fn key_pos_x() -> Seq<char> {
    seq!['L', 'o', 'c', 'a', 't', 'i', 'o', 'n', 'P', 'o', 's', 'X']
}

pub open spec fn key_pos_y() -> Seq<char> {
    seq!['L', 'o', 'c', 'a', 't', 'i', 'o', 'n', 'P', 'o', 's', 'Y']
}

pub open spec fn key_size() -> Seq<char> {
    seq!['L', 'o', 'c', 'a', 't', 'i', 'o', 'n', 'S', 'i', 'z', 'e']
}

/// The value under the first entry with key `k`.
pub open spec fn hash_get(h: Seq<(Seq<char>, Value)>, k: Seq<char>) -> Option<Value>
    decreases h.len(),
{
    if h.len() == 0 {
        None
    } else if h[0].0 == k {
        Some(h[0].1)
    } else {
        hash_get(h.drop_first(), k)
    }
}

/// An optional float field: absent, or a float.
pub open spec fn opt_float_spec(h: Seq<(Seq<char>, Value)>, k: Seq<char>, f: Field) -> Result<Option<u32>, UKError> {
    match hash_get(h, k) {
        None => Ok(None),
        Some(Value::Float(x)) => Ok(Some(x)),
        Some(_) => Err(UKError::WrongBymlType(f)),
    }
}

/// The hash identifier of one list element.
pub open spec fn hash_id_spec(v: Value, elem: Field, id: Field) -> Result<u32, UKError> {
    match v {
        Value::Hash(h) => match hash_get(h, key_hash_id()) {
            None => Err(UKError::MissingBymlKey(id)),
            Some(Value::U32(x)) => Ok(x),
            Some(_) => Err(UKError::WrongBymlType(id)),
        },
        _ => Err(UKError::WrongBymlType(elem)),
    }
}

/// The entries that a list of elements decodes to, in list order; the first
/// faulty element, in list order, decides the error.
pub open spec fn entries_spec(s: Seq<Value>, elem: Field, id: Field) -> Result<Seq<EntryV>, UKError>
    decreases s.len(),
{
    if s.len() == 0 {
        Ok(Seq::empty())
    } else {
        match entries_spec(s.drop_last(), elem, id) {
            Err(e) => Err(e),
            Ok(prev) => match hash_id_spec(s.last(), elem, id) {
                Err(e) => Err(e),
                Ok(k) => if has_key(prev, k) {
                    Err(UKError::DuplicateHashId(elem, k))
                } else {
                    Ok(prev.push((k, Some(s.last()))))
                },
            },
        }
    }
}

/// A required list field.
pub open spec fn list_spec(h: Seq<(Seq<char>, Value)>, k: Seq<char>, list: Field, elem: Field, id: Field) -> Result<Seq<EntryV>, UKError> {
    match hash_get(h, k) {
        None => Err(UKError::MissingBymlKey(list)),
        Some(Value::Array(s)) => entries_spec(s, elem, id),
        Some(_) => Err(UKError::WrongBymlType(list)),
    }
}

/// The mathematical value of a map unit.
pub struct MapUnitV {
    pub pos_x: Option<u32>,
    pub pos_y: Option<u32>,
    pub size: Option<u32>,
    pub objects: Seq<EntryV>,
    pub rails: Seq<EntryV>,
}

/// Decoding a tree: the root must be a hash; then the three optional float
/// fields, the objects and the rails are read in that order, and the first
/// fault decides the error.
pub open spec fn decode_spec(v: Value) -> Result<MapUnitV, UKError> {
    match v {
        Value::Hash(h) => {
            match opt_float_spec(h, key_pos_x(), Field::LocationPosX) {
                Err(e) => Err(e),
                Ok(pos_x) => match opt_float_spec(h, key_pos_y(), Field::LocationPosY) {
                    Err(e) => Err(e),
                    Ok(pos_y) => match opt_float_spec(h, key_size(), Field::LocationSize) {
                        Err(e) => Err(e),
                        Ok(size) => match list_spec(h, key_objs(), Field::Objs, Field::Obj, Field::ObjHashId) {
                            Err(e) => Err(e),
                            Ok(objects) => match list_spec(h, key_rails(), Field::Rails, Field::Rail, Field::RailHashId) {
                                Err(e) => Err(e),
                                Ok(rails) => Ok(MapUnitV { pos_x, pos_y, size, objects, rails }),
                            },
                        },
                    },
                },
            }
        },
        _ => Err(UKError::WrongBymlType(Field::Root)),
    }
}

pub open spec fn float_field(k: Seq<char>, v: Option<u32>) -> Seq<(Seq<char>, Value)> {
    match v {
        Some(x) => seq![(k, Value::Float(x))],
        None => Seq::empty(),
    }
}

/// Encoding a map unit: the objects and rails as plain lists of their live
/// values, then each present float field.
pub open spec fn encode_spec(u: MapUnitV) -> Value {
    Value::Hash(
        seq![(key_objs(), Value::Array(live_values(u.objects))), (key_rails(), Value::Array(live_values(u.rails)))]
            + float_field(key_pos_x(), u.pos_x) + float_field(key_pos_y(), u.pos_y) + float_field(key_size(), u.size),
    )
}

/// A map-unit resource: optional placement scalars (floats as bit patterns)
/// and the objects and rails keyed by hash identifier.
pub struct MapUnit {
    pub pos_x: Option<u32>,
    pub pos_y: Option<u32>,
    pub size: Option<u32>,
    pub objects: DeleteMap,
    pub rails: DeleteMap,
}

impl View for MapUnit {
    type V = MapUnitV;

    open spec fn view(&self) -> MapUnitV {
        MapUnitV { pos_x: self.pos_x, pos_y: self.pos_y, size: self.size, objects: self.objects@, rails: self.rails@ }
    }
}

pub fn hash_lookup<'a>(h: &'a Vec<(String, Node)>, k: &str) -> (r: Option<&'a Node>)
    ensures
        match r {
            Some(n) => hash_get(entries_of(*h, h.len() as int), k@) == Some(n@),
            None => hash_get(entries_of(*h, h.len() as int), k@) is None,
        },
{
    proof {
        lemma_entries_of(*h, h.len() as int);
    }
    let ghost s = entries_of(*h, h.len() as int);
    let key = k.to_owned();
    assert(s.subrange(0, s.len() as int) =~= s);
    let mut i: usize = 0;
    while i < h.len()
        invariant
            0 <= i <= h.len(),
            key@ == k@,
            s == entries_of(*h, h.len() as int),
            s.len() == h.len(),
            forall|j: int| 0 <= j < h.len() ==> #[trigger] s[j] == (h[j].0@, value_of(h[j].1)),
            hash_get(s, k@) == hash_get(s.subrange(i as int, s.len() as int), k@),
        decreases h.len() - i,
    {
        let ghost rest = s.subrange(i as int, s.len() as int);
        assert(rest.drop_first() =~= s.subrange(i + 1, s.len() as int));
        if h[i].0 == key {
            return Some(&h[i].1);
        }
        i = i + 1;
    }
    None
}

fn opt_float(h: &Vec<(String, Node)>, k: &str, f: Field) -> (r: Result<Option<u32>, UKError>)
    ensures
        r == opt_float_spec(entries_of(*h, h.len() as int), k@, f),
{
    match hash_lookup(h, k) {
        None => Ok(None),
        Some(Node::Float(x)) => Ok(Some(*x)),
        Some(_) => Err(UKError::WrongBymlType(f)),
    }
}

fn hash_id(n: &Node, elem: Field, id: Field) -> (r: Result<u32, UKError>)
    ensures
        r == hash_id_spec(n@, elem, id),
{
    match n {
        Node::Hash(h) => match hash_lookup(h, "HashId") {
            None => {
                proof { reveal_strlit("HashId"); assert("HashId"@ =~= key_hash_id()); }
                Err(UKError::MissingBymlKey(id))
            },
            Some(Node::U32(x)) => {
                proof { reveal_strlit("HashId"); assert("HashId"@ =~= key_hash_id()); }
                Ok(*x)
            },
            Some(_) => {
                proof { reveal_strlit("HashId"); assert("HashId"@ =~= key_hash_id()); }
                Err(UKError::WrongBymlType(id))
            },
        },
        _ => Err(UKError::WrongBymlType(elem)),
    }
}

proof fn lemma_entries_err_extends(s: Seq<Value>, j: int, elem: Field, id: Field)
    requires
        0 <= j <= s.len(),
        entries_spec(s.take(j), elem, id) is Err,
    ensures
        entries_spec(s, elem, id) == entries_spec(s.take(j), elem, id),
    decreases s.len() - j,
{
    if j < s.len() {
        assert(s.take(j + 1).drop_last() =~= s.take(j));
        lemma_entries_err_extends(s, j + 1, elem, id);
    } else {
        assert(s.take(j) =~= s);
    }
}

fn decode_list(v: &Vec<Node>, elem: Field, id: Field) -> (r: Result<DeleteMap, UKError>)
    ensures
        match r {
            Ok(m) => entries_spec(values_of(*v, v.len() as int), elem, id) == Ok::<Seq<EntryV>, UKError>(m@) && m.wf(),
            Err(e) => entries_spec(values_of(*v, v.len() as int), elem, id) == Err::<Seq<EntryV>, UKError>(e),
        },
{
    proof {
        lemma_values_of(*v, v.len() as int);
    }
    let ghost s = values_of(*v, v.len() as int);
    let mut out = DeleteMap::new();
    let mut i: usize = 0;
    while i < v.len()
        invariant
            0 <= i <= v.len(),
            s == values_of(*v, v.len() as int),
            s.len() == v.len(),
            forall|j: int| 0 <= j < v.len() ==> #[trigger] s[j] == value_of(v[j]),
            entries_spec(s.take(i as int), elem, id) == Ok::<Seq<EntryV>, UKError>(out@),
            out.wf(),
        decreases v.len() - i,
    {
        assert(s.take(i + 1).drop_last() =~= s.take(i as int));
        assert(s.take(i + 1).last() == s[i as int]);
        let k = match hash_id(&v[i], elem, id) {
            Ok(k) => k,
            Err(e) => {
                proof { lemma_entries_err_extends(s, i + 1, elem, id); }
                return Err(e);
            },
        };
        if out.find(k).is_some() {
            proof { lemma_entries_err_extends(s, i + 1, elem, id); }
            return Err(UKError::DuplicateHashId(elem, k));
        }
        out.insert(k, clone_node(&v[i]));
        i = i + 1;
    }
    assert(s.take(v.len() as int) =~= s);
    Ok(out)
}

fn decode_list_field(h: &Vec<(String, Node)>, k: &str, list: Field, elem: Field, id: Field) -> (r: Result<DeleteMap, UKError>)
    ensures
        match r {
            Ok(m) => list_spec(entries_of(*h, h.len() as int), k@, list, elem, id) == Ok::<Seq<EntryV>, UKError>(m@) && m.wf(),
            Err(e) => list_spec(entries_of(*h, h.len() as int), k@, list, elem, id) == Err::<Seq<EntryV>, UKError>(e),
        },
{
    match hash_lookup(h, k) {
        None => Err(UKError::MissingBymlKey(list)),
        Some(Node::Array(v)) => decode_list(v, elem, id),
        Some(_) => Err(UKError::WrongBymlType(list)),
    }
}

impl PartialEq for MapUnit {
    fn eq(&self, other: &MapUnit) -> (r: bool) {
        self.pos_x == other.pos_x && self.pos_y == other.pos_y && self.size == other.size
            && self.objects == other.objects && self.rails == other.rails
    }
}

impl vstd::std_specs::cmp::PartialEqSpecImpl for MapUnit {
    open spec fn obeys_eq_spec() -> bool {
        true
    }

    open spec fn eq_spec(&self, other: &MapUnit) -> bool {
        self@ == other@
    }
}

impl Clone for MapUnit {
    fn clone(&self) -> (r: MapUnit)
        ensures
            r@ == self@,
    {
        MapUnit {
            pos_x: self.pos_x,
            pos_y: self.pos_y,
            size: self.size,
            objects: self.objects.clone(),
            rails: self.rails.clone(),
        }
    }
}

impl From<MapUnit> for Node {
    /// Writes a map unit as a tree (see `encode_spec`).
    fn from(u: MapUnit) -> (r: Node)
        ensures
            r@ == encode_spec(u@),
    {
        u.to_node()
    }
}

impl vstd::std_specs::convert::FromSpecImpl<MapUnit> for Node {
    /// A node is fixed by `from` only up to its value, which `from` states.
    open spec fn obeys_from_spec() -> bool {
        false
    }

    open spec fn from_spec(u: MapUnit) -> Node {
        choose|n: Node| n@ == encode_spec(u@)
    }
}

impl Default for MapUnit {
    fn default() -> (r: Self)
        ensures
            r@ == (MapUnitV { pos_x: None, pos_y: None, size: None, objects: Seq::empty(), rails: Seq::empty() }),
            r.wf(),
    {
        MapUnit { pos_x: None, pos_y: None, size: None, objects: DeleteMap::new(), rails: DeleteMap::new() }
    }
}

fn push_float(out: &mut Vec<(String, Node)>, k: &str, v: Option<u32>)
    ensures
        entries_of(*final(out), final(out).len() as int) == entries_of(*old(out), old(out).len() as int) + float_field(k@, v),
{
    proof {
        lemma_entries_of(*old(out), old(out).len() as int);
    }
    let ghost before = entries_of(*old(out), old(out).len() as int);
    match v {
        Some(x) => {
            out.push((k.to_owned(), Node::Float(x)));
        },
        None => {},
    }
    proof {
        lemma_entries_of(*out, out.len() as int);
        assert(entries_of(*out, out.len() as int) =~= before + float_field(k@, v));
    }
}

impl MapUnit {
    /// Writes this map unit as a tree (see `encode_spec`).
    pub fn to_node(&self) -> (r: Node)
        ensures
            r@ == encode_spec(self@),
    {
        proof {
            reveal_strlit("LocationPosX");
            reveal_strlit("LocationPosY");
            reveal_strlit("LocationSize");
            reveal_strlit("Objs");
            reveal_strlit("Rails");
            assert("LocationPosX"@ =~= key_pos_x());
            assert("LocationPosY"@ =~= key_pos_y());
            assert("LocationSize"@ =~= key_size());
            assert("Objs"@ =~= key_objs());
            assert("Rails"@ =~= key_rails());
        }
        let mut out: Vec<(String, Node)> = Vec::new();
        out.push(("Objs".to_owned(), Node::Array(self.objects.values())));
        out.push(("Rails".to_owned(), Node::Array(self.rails.values())));
        proof {
            lemma_entries_of(out, out.len() as int);
            assert(entries_of(out, out.len() as int) =~= seq![(key_objs(), Value::Array(live_values(self.objects@))), (key_rails(), Value::Array(live_values(self.rails@)))]);
        }
        push_float(&mut out, "LocationPosX", self.pos_x);
        push_float(&mut out, "LocationPosY", self.pos_y);
        push_float(&mut out, "LocationSize", self.size);
        Node::Hash(out)
    }

    /// The diff from this map unit to `other`: the scalar fields of `other`
    /// as they are, and the diff of each list.
    pub fn diff(&self, other: &MapUnit) -> (r: MapUnit)
        requires
            self.wf(),
            other.wf(),
        ensures
            r.wf(),
            r@ == (MapUnitV {
                pos_x: other.pos_x,
                pos_y: other.pos_y,
                size: other.size,
                objects: diff_spec(self.objects@, other.objects@),
                rails: diff_spec(self.rails@, other.rails@),
            }),
    {
        MapUnit {
            pos_x: other.pos_x,
            pos_y: other.pos_y,
            size: other.size,
            objects: self.objects.diff(&other.objects),
            rails: self.rails.diff(&other.rails),
        }
    }

    /// Applies `diff` to this map unit: the scalar fields of the diff as they
    /// are, and each list merged.
    pub fn merge(&self, diff: &MapUnit) -> (r: MapUnit)
        requires
            self.wf(),
            diff.wf(),
        ensures
            r.wf(),
            r@ == (MapUnitV {
                pos_x: diff.pos_x,
                pos_y: diff.pos_y,
                size: diff.size,
                objects: merge_spec(self.objects@, diff.objects@),
                rails: merge_spec(self.rails@, diff.rails@),
            }),
    {
        MapUnit {
            pos_x: diff.pos_x,
            pos_y: diff.pos_y,
            size: diff.size,
            objects: self.objects.merge(&diff.objects),
            rails: self.rails.merge(&diff.rails),
        }
    }

    /// Well-formed: both lists have unique keys.
    pub open spec fn wf(&self) -> bool {
        self.objects.wf() && self.rails.wf()
    }

    /// Reads a map unit from a tree (see `decode_spec`).
    pub fn try_from(n: &Node) -> (r: Result<MapUnit, UKError>)
        ensures
            match r {
                Ok(u) => decode_spec(n@) == Ok::<MapUnitV, UKError>(u@) && u.wf(),
                Err(e) => decode_spec(n@) == Err::<MapUnitV, UKError>(e),
            },
    {
        match n {
            Node::Hash(h) => {
                proof {
                    reveal_strlit("LocationPosX");
                    reveal_strlit("LocationPosY");
                    reveal_strlit("LocationSize");
                    reveal_strlit("Objs");
                    reveal_strlit("Rails");
                    assert("LocationPosX"@ =~= key_pos_x());
                    assert("LocationPosY"@ =~= key_pos_y());
                    assert("LocationSize"@ =~= key_size());
                    assert("Objs"@ =~= key_objs());
                    assert("Rails"@ =~= key_rails());
                }
                let pos_x = opt_float(h, "LocationPosX", Field::LocationPosX)?;
                let pos_y = opt_float(h, "LocationPosY", Field::LocationPosY)?;
                let size = opt_float(h, "LocationSize", Field::LocationSize)?;
                let objects = decode_list_field(h, "Objs", Field::Objs, Field::Obj, Field::ObjHashId)?;
                let rails = decode_list_field(h, "Rails", Field::Rails, Field::Rail, Field::RailHashId)?;
                Ok(MapUnit { pos_x, pos_y, size, objects, rails })
            },
            _ => Err(UKError::WrongBymlType(Field::Root)),
        }
    }
}

proof fn lemma_hash_get_pair(a: (Seq<char>, Value), b: (Seq<char>, Value), tail: Seq<(Seq<char>, Value)>, k: Seq<char>)
    ensures
        hash_get(seq![a, b] + tail, k) == (if a.0 == k {
            Some(a.1)
        } else if b.0 == k {
            Some(b.1)
        } else {
            hash_get(tail, k)
        }),
{
    let x = seq![a, b] + tail;
    let y = seq![b] + tail;
    assert(x.drop_first() =~= y);
    assert(y.drop_first() =~= tail);
    assert(x[0] == a);
    assert(y[0] == b);
    assert(hash_get(y, k) == (if b.0 == k { Some(b.1) } else { hash_get(tail, k) }));
}

proof fn lemma_hash_get_concat(x: Seq<(Seq<char>, Value)>, y: Seq<(Seq<char>, Value)>, k: Seq<char>)
    ensures
        hash_get(x + y, k) == (match hash_get(x, k) {
            Some(v) => Some(v),
            None => hash_get(y, k),
        }),
    decreases x.len(),
{
    if x.len() > 0 {
        assert((x + y).drop_first() =~= x.drop_first() + y);
        lemma_hash_get_concat(x.drop_first(), y, k);
    } else {
        assert(x + y =~= y);
    }
}

/// Entries that decoding produced are live, unique, and keyed by the hash
/// identifier that their value holds.
pub open spec fn decoded_entries(r: Seq<EntryV>, elem: Field, id: Field) -> bool {
    &&& forall|i: int| 0 <= i < r.len() ==> (#[trigger] r[i]).1 is Some && hash_id_spec(r[i].1->Some_0, elem, id) == Ok::<u32, UKError>(r[i].0)
    &&& forall|i: int, j: int| 0 <= i < r.len() && 0 <= j < r.len() && i != j ==> r[i].0 != r[j].0
}

proof fn lemma_entries_decoded(s: Seq<Value>, elem: Field, id: Field)
    requires
        entries_spec(s, elem, id) is Ok,
    ensures
        decoded_entries(entries_spec(s, elem, id)->Ok_0, elem, id),
    decreases s.len(),
{
    if s.len() > 0 {
        lemma_entries_decoded(s.drop_last(), elem, id);
        let prev = entries_spec(s.drop_last(), elem, id)->Ok_0;
        let r = entries_spec(s, elem, id)->Ok_0;
        assert forall|i: int, j: int| 0 <= i < r.len() && 0 <= j < r.len() && i != j implies r[i].0 != r[j].0 by {
            if i == r.len() - 1 {
                assert(prev[j].0 == r[j].0);
            } else if j == r.len() - 1 {
                assert(prev[i].0 == r[i].0);
            }
        }
    }
}

proof fn lemma_entries_reencode(r: Seq<EntryV>, elem: Field, id: Field)
    requires
        decoded_entries(r, elem, id),
    ensures
        entries_spec(live_values(r), elem, id) == Ok::<Seq<EntryV>, UKError>(r),
    decreases r.len(),
{
    if r.len() == 0 {
        assert(live_values(r) =~= Seq::<Value>::empty());
        assert(r =~= Seq::<EntryV>::empty());
    } else {
        let p = r.drop_last();
        assert(decoded_entries(p, elem, id)) by {
            assert forall|i: int| 0 <= i < p.len() implies (#[trigger] p[i]).1 is Some && hash_id_spec(p[i].1->Some_0, elem, id) == Ok::<u32, UKError>(p[i].0) by {
                assert(p[i] == r[i]);
            }
        }
        lemma_entries_reencode(p, elem, id);
        let l = live_values(r);
        assert(r.last() == r[r.len() - 1]);
        assert(l =~= live_values(p).push(r.last().1->Some_0));
        assert(l.drop_last() =~= live_values(p));
        assert(l.last() == r.last().1->Some_0);
        assert(hash_id_spec(l.last(), elem, id) == Ok::<u32, UKError>(r.last().0));
        assert(l.len() > 0);
        assert(entries_spec(l.drop_last(), elem, id) == Ok::<Seq<EntryV>, UKError>(p));
        if has_key(p, r.last().0) {
            let j = choose|j: int| 0 <= j < p.len() && #[trigger] p[j].0 == r.last().0;
            assert(r[j].0 == r[r.len() - 1].0);
            assert(p[j] == r[j]);
        }
        assert(!has_key(p, r.last().0));
        assert(p.push((r.last().0, Some(r.last().1->Some_0))) =~= r);
    }
}

proof fn lemma_list_reencode(objs: Seq<EntryV>, rails: Seq<EntryV>, tail: Seq<(Seq<char>, Value)>, k: Seq<char>, list: Field, elem: Field, id: Field, which: bool)
    requires
        decoded_entries(if which { objs } else { rails }, elem, id),
        k == (if which { key_objs() } else { key_rails() }),
    ensures
        list_spec(seq![(key_objs(), Value::Array(live_values(objs))), (key_rails(), Value::Array(live_values(rails)))] + tail, k, list, elem, id)
            == Ok::<Seq<EntryV>, UKError>(if which { objs } else { rails }),
{
    lemma_hash_get_pair((key_objs(), Value::Array(live_values(objs))), (key_rails(), Value::Array(live_values(rails))), tail, k);
    assert(key_objs() != key_rails()) by {
        assert(key_objs().len() != key_rails().len());
    }
    if which {
        lemma_entries_reencode(objs, elem, id);
    } else {
        lemma_entries_reencode(rails, elem, id);
    }
}

/// Writing a decoded map unit as a tree and decoding that tree again gives
/// the same map unit.
pub proof fn lemma_decode_encode_round_trip(t: Value)
    requires
        decode_spec(t) is Ok,
    ensures
        decode_spec(encode_spec(decode_spec(t)->Ok_0)) == decode_spec(t),
{
    let u = decode_spec(t)->Ok_0;
    let h = t->Hash_0;
    lemma_entries_decoded(hash_get(h, key_objs())->Some_0->Array_0, Field::Obj, Field::ObjHashId);
    lemma_entries_decoded(hash_get(h, key_rails())->Some_0->Array_0, Field::Rail, Field::RailHashId);
    let head = seq![(key_objs(), Value::Array(live_values(u.objects))), (key_rails(), Value::Array(live_values(u.rails)))];
    let fx = float_field(key_pos_x(), u.pos_x);
    let fy = float_field(key_pos_y(), u.pos_y);
    let fs = float_field(key_size(), u.size);
    let enc = head + fx + fy + fs;
    assert(enc =~= head + (fx + (fy + fs)));
    lemma_list_reencode(u.objects, u.rails, fx + (fy + fs), key_objs(), Field::Objs, Field::Obj, Field::ObjHashId, true);
    lemma_list_reencode(u.objects, u.rails, fx + (fy + fs), key_rails(), Field::Rails, Field::Rail, Field::RailHashId, false);
    assert(key_objs().len() != key_pos_x().len());
    assert(key_rails().len() != key_pos_x().len());
    assert(key_pos_x().len() == key_pos_y().len());
    assert(key_pos_x().len() == key_size().len());
    lemma_hash_get_pair(head[0], head[1], fx + (fy + fs), key_pos_x());
    lemma_hash_get_pair(head[0], head[1], fx + (fy + fs), key_pos_y());
    lemma_hash_get_pair(head[0], head[1], fx + (fy + fs), key_size());
    assert(seq![head[0], head[1]] =~= head);
    lemma_hash_get_concat(fx, fy + fs, key_pos_x());
    lemma_hash_get_concat(fx, fy + fs, key_pos_y());
    lemma_hash_get_concat(fx, fy + fs, key_size());
    lemma_hash_get_concat(fy, fs, key_pos_x());
    lemma_hash_get_concat(fy, fs, key_pos_y());
    lemma_hash_get_concat(fy, fs, key_size());
    lemma_keys_distinct();
    lemma_hash_get_float(key_pos_x(), u.pos_x, key_pos_x());
    lemma_hash_get_float(key_pos_x(), u.pos_x, key_pos_y());
    lemma_hash_get_float(key_pos_x(), u.pos_x, key_size());
    lemma_hash_get_float(key_pos_y(), u.pos_y, key_pos_x());
    lemma_hash_get_float(key_pos_y(), u.pos_y, key_pos_y());
    lemma_hash_get_float(key_pos_y(), u.pos_y, key_size());
    lemma_hash_get_float(key_size(), u.size, key_pos_x());
    lemma_hash_get_float(key_size(), u.size, key_pos_y());
    lemma_hash_get_float(key_size(), u.size, key_size());
}

proof fn lemma_keys_distinct()
    ensures
        key_pos_x() != key_pos_y(),
        key_pos_x() != key_size(),
        key_pos_y() != key_size(),
{
    assert(key_pos_x()[11] != key_pos_y()[11]);
    assert(key_pos_x()[11] != key_size()[11]);
    assert(key_pos_y()[11] != key_size()[11]);
}

proof fn lemma_hash_get_float(k: Seq<char>, x: Option<u32>, q: Seq<char>)
    ensures
        hash_get(float_field(k, x), q) == (if k == q && x is Some {
            Some(Value::Float(x->Some_0))
        } else {
            None::<Value>
        }),
{
    match x {
        Some(v) => {
            let f = seq![(k, Value::Float(v))];
            assert(f.drop_first() =~= Seq::<(Seq<char>, Value)>::empty());
            assert(hash_get(f.drop_first(), q) is None);
        },
        None => {},
    }
}

/// The keys that the map-unit schema reads.
pub open spec fn schema_key(k: Seq<char>) -> bool {
    k == key_objs() || k == key_rails() || k == key_pos_x() || k == key_pos_y() || k == key_size()
}

proof fn lemma_hash_get_absent(h: Seq<(Seq<char>, Value)>, k: Seq<char>)
    requires
        forall|i: int| 0 <= i < h.len() ==> (#[trigger] h[i]).0 != k,
    ensures
        hash_get(h, k) is None,
    decreases h.len(),
{
    if h.len() > 0 {
        assert(h[0].0 != k);
        assert forall|i: int| 0 <= i < h.drop_first().len() implies (#[trigger] h.drop_first()[i]).0 != k by {
            assert(h.drop_first()[i] == h[i + 1]);
        }
        lemma_hash_get_absent(h.drop_first(), k);
    }
}

proof fn lemma_entries_values(s: Seq<Value>, elem: Field, id: Field)
    requires
        entries_spec(s, elem, id) is Ok,
    ensures
        live_values(entries_spec(s, elem, id)->Ok_0) == s,
    decreases s.len(),
{
    let r = entries_spec(s, elem, id)->Ok_0;
    if s.len() == 0 {
        assert(live_values(r) =~= s);
    } else {
        lemma_entries_values(s.drop_last(), elem, id);
        let prev = entries_spec(s.drop_last(), elem, id)->Ok_0;
        assert(r.drop_last() =~= prev);
        assert(live_values(r) =~= live_values(prev).push(s.last()));
        assert(s.drop_last().push(s.last()) =~= s);
    }
}

/// Writing a decoded tree back gives a tree that holds the same value under
/// every key, when the tree holds only the keys that the schema reads; only
/// the order of the keys may change.
pub proof fn lemma_encode_decoded_tree(t: Value, k: Seq<char>)
    requires
        decode_spec(t) is Ok,
        forall|i: int| 0 <= i < t->Hash_0.len() ==> schema_key((#[trigger] t->Hash_0[i]).0),
    ensures
        hash_get(encode_spec(decode_spec(t)->Ok_0)->Hash_0, k) == hash_get(t->Hash_0, k),
{
    let u = decode_spec(t)->Ok_0;
    let h = t->Hash_0;
    lemma_entries_values(hash_get(h, key_objs())->Some_0->Array_0, Field::Obj, Field::ObjHashId);
    lemma_entries_values(hash_get(h, key_rails())->Some_0->Array_0, Field::Rail, Field::RailHashId);
    let head = seq![(key_objs(), Value::Array(live_values(u.objects))), (key_rails(), Value::Array(live_values(u.rails)))];
    let fx = float_field(key_pos_x(), u.pos_x);
    let fy = float_field(key_pos_y(), u.pos_y);
    let fs = float_field(key_size(), u.size);
    assert(head + fx + fy + fs =~= head + (fx + (fy + fs)));
    lemma_hash_get_pair(head[0], head[1], fx + (fy + fs), k);
    assert(seq![head[0], head[1]] =~= head);
    lemma_hash_get_concat(fx, fy + fs, k);
    lemma_hash_get_concat(fy, fs, k);
    lemma_hash_get_float(key_pos_x(), u.pos_x, k);
    lemma_hash_get_float(key_pos_y(), u.pos_y, k);
    lemma_hash_get_float(key_size(), u.size, k);
    lemma_keys_distinct();
    assert(key_objs() != key_rails()) by {
        assert(key_objs().len() != key_rails().len());
    }
    assert(key_objs().len() != key_pos_x().len());
    assert(key_rails().len() != key_pos_x().len());
    assert(key_pos_x().len() == key_pos_y().len());
    assert(key_pos_x().len() == key_size().len());
    if !schema_key(k) {
        lemma_hash_get_absent(h, k);
    }
}

} // verus!
