use vstd::prelude::*;

verus! {

/// A node of the generic resource tree. Floating-point scalars are held as
/// their IEEE-754 bit patterns, so two floats are equal exactly when their
/// bits are.
pub enum Node {
    Null,
    Bool(bool),
    I32(i32),
    U32(u32),
    I64(i64),
    U64(u64),
    Float(u32),
    Double(u64),
    String(String),
    Binary(Vec<u8>),
    Array(Vec<Node>),
    Hash(Vec<(String, Node)>),
}

/// The mathematical value of a `Node`.
pub enum Value {
    Null,
    Bool(bool),
    I32(i32),
    U32(u32),
    I64(i64),
    U64(u64),
    Float(u32),
    Double(u64),
    String(Seq<char>),
    Binary(Seq<u8>),
    Array(Seq<Value>),
    Hash(Seq<(Seq<char>, Value)>),
}

pub open spec fn value_of(n: Node) -> Value
    decreases n, 0int,
{
    match n {
        Node::Null => Value::Null,
        Node::Bool(b) => Value::Bool(b),
        Node::I32(x) => Value::I32(x),
        Node::U32(x) => Value::U32(x),
        Node::I64(x) => Value::I64(x),
        Node::U64(x) => Value::U64(x),
        Node::Float(x) => Value::Float(x),
        Node::Double(x) => Value::Double(x),
        Node::String(s) => Value::String(s@),
        Node::Binary(b) => Value::Binary(b@),
        Node::Array(v) => Value::Array(values_of(v, v.len() as int)),
        Node::Hash(v) => Value::Hash(entries_of(v, v.len() as int)),
    }
}

/// The values of the first `k` elements of `v`.
pub open spec fn values_of(v: Vec<Node>, k: int) -> Seq<Value>
    decreases v, k,
{
    if k <= 0 || k > v.len() {
        Seq::empty()
    } else {
        values_of(v, k - 1).push(value_of(v[k - 1]))
    }
}

/// The values of the first `k` entries of `v`.
pub open spec fn entries_of(v: Vec<(String, Node)>, k: int) -> Seq<(Seq<char>, Value)>
    decreases v, k,
{
    if k <= 0 || k > v.len() {
        Seq::empty()
    } else {
        entries_of(v, k - 1).push((v[k - 1].0@, value_of(v[k - 1].1)))
    }
}

impl View for Node {
    type V = Value;

    open spec fn view(&self) -> Value {
        value_of(*self)
    }
}

pub proof fn lemma_values_of(v: Vec<Node>, k: int)
    requires
        0 <= k <= v.len(),
    ensures
        values_of(v, k).len() == k,
        forall|i: int| 0 <= i < k ==> #[trigger] values_of(v, k)[i] == value_of(v[i]),
    decreases k,
{
    if k > 0 {
        lemma_values_of(v, k - 1);
    }
}

pub proof fn lemma_entries_of(v: Vec<(String, Node)>, k: int)
    requires
        0 <= k <= v.len(),
    ensures
        entries_of(v, k).len() == k,
        forall|i: int|
            0 <= i < k ==> #[trigger] entries_of(v, k)[i] == (v[i].0@, value_of(v[i].1)),
    decreases k,
{
    if k > 0 {
        lemma_entries_of(v, k - 1);
    }
}

fn bytes_eq(a: &Vec<u8>, b: &Vec<u8>) -> (r: bool)
    ensures
        r == (a@ == b@),
{
    if a.len() != b.len() {
        return false;
    }
    let mut i: usize = 0;
    while i < a.len()
        invariant
            a.len() == b.len(),
            0 <= i <= a.len(),
            forall|j: int| 0 <= j < i ==> a@[j] == b@[j],
        decreases a.len() - i,
    {
        if a[i] != b[i] {
            return false;
        }
        i = i + 1;
    }
    assert(a@ =~= b@);
    true
}

/// Structural equality of two nodes, by value.
pub fn node_eq(a: &Node, b: &Node) -> (r: bool)
    ensures
        r == (a@ == b@),
    decreases a,
{
    match (a, b) {
        (Node::Null, Node::Null) => true,
        (Node::Bool(x), Node::Bool(y)) => *x == *y,
        (Node::I32(x), Node::I32(y)) => *x == *y,
        (Node::U32(x), Node::U32(y)) => *x == *y,
        (Node::I64(x), Node::I64(y)) => *x == *y,
        (Node::U64(x), Node::U64(y)) => *x == *y,
        (Node::Float(x), Node::Float(y)) => *x == *y,
        (Node::Double(x), Node::Double(y)) => *x == *y,
        (Node::String(x), Node::String(y)) => *x == *y,
        (Node::Binary(x), Node::Binary(y)) => bytes_eq(x, y),
        (Node::Array(x), Node::Array(y)) => {
            proof {
                assert(a@ == Value::Array(values_of(*x, x.len() as int)));
                assert(b@ == Value::Array(values_of(*y, y.len() as int)));
                lemma_values_of(*x, x.len() as int);
                lemma_values_of(*y, y.len() as int);
            }
            if x.len() != y.len() {
                assert(a@ != b@);
                return false;
            }
            let mut i: usize = 0;
            while i < x.len()
                invariant
                    x.len() == y.len(),
                    0 <= i <= x.len(),
                    *a == Node::Array(*x),
                    a@ == Value::Array(values_of(*x, x.len() as int)),
                    b@ == Value::Array(values_of(*y, y.len() as int)),
                    values_of(*x, x.len() as int).len() == x.len(),
                    values_of(*y, y.len() as int).len() == y.len(),
                    forall|j: int| 0 <= j < x.len() ==> #[trigger] values_of(*x, x.len() as int)[j] == value_of(x[j]),
                    forall|j: int| 0 <= j < y.len() ==> #[trigger] values_of(*y, y.len() as int)[j] == value_of(y[j]),
                    forall|j: int| 0 <= j < i ==> value_of(x[j]) == value_of(y[j]),
                decreases x.len() - i,
            {
                proof {
                    assert(decreases_to!(*a => *x));
                    assert(decreases_to!(*x => x[i as int]));
                }
                if !node_eq(&x[i], &y[i]) {
                    assert(values_of(*x, x.len() as int)[i as int] != values_of(*y, y.len() as int)[i as int]);
                    return false;
                }
                i = i + 1;
            }
            assert(values_of(*x, x.len() as int) =~= values_of(*y, y.len() as int));
            true
        },
        (Node::Hash(x), Node::Hash(y)) => {
            proof {
                assert(a@ == Value::Hash(entries_of(*x, x.len() as int)));
                assert(b@ == Value::Hash(entries_of(*y, y.len() as int)));
                lemma_entries_of(*x, x.len() as int);
                lemma_entries_of(*y, y.len() as int);
            }
            if x.len() != y.len() {
                assert(a@ != b@);
                return false;
            }
            let mut i: usize = 0;
            while i < x.len()
                invariant
                    x.len() == y.len(),
                    0 <= i <= x.len(),
                    *a == Node::Hash(*x),
                    a@ == Value::Hash(entries_of(*x, x.len() as int)),
                    b@ == Value::Hash(entries_of(*y, y.len() as int)),
                    entries_of(*x, x.len() as int).len() == x.len(),
                    entries_of(*y, y.len() as int).len() == y.len(),
                    forall|j: int| 0 <= j < x.len() ==> #[trigger] entries_of(*x, x.len() as int)[j] == (x[j].0@, value_of(x[j].1)),
                    forall|j: int| 0 <= j < y.len() ==> #[trigger] entries_of(*y, y.len() as int)[j] == (y[j].0@, value_of(y[j].1)),
                    forall|j: int| 0 <= j < i ==> x[j].0@ == y[j].0@ && value_of(x[j].1) == value_of(y[j].1),
                decreases x.len() - i,
            {
                proof {
                    assert(decreases_to!(*a => *x));
                    assert(decreases_to!(*x => x[i as int]));
                    assert(decreases_to!(x[i as int] => x[i as int].1));
                }
                if x[i].0 != y[i].0 {
                    assert(entries_of(*x, x.len() as int)[i as int] != entries_of(*y, y.len() as int)[i as int]);
                    return false;
                }
                if !node_eq(&x[i].1, &y[i].1) {
                    assert(entries_of(*x, x.len() as int)[i as int] != entries_of(*y, y.len() as int)[i as int]);
                    return false;
                }
                i = i + 1;
            }
            assert(entries_of(*x, x.len() as int) =~= entries_of(*y, y.len() as int));
            true
        },
        _ => false,
    }
}

/// A deep copy of a node.
pub fn clone_node(a: &Node) -> (r: Node)
    ensures
        r@ == a@,
    decreases a,
{
    match a {
        Node::Null => Node::Null,
        Node::Bool(x) => Node::Bool(*x),
        Node::I32(x) => Node::I32(*x),
        Node::U32(x) => Node::U32(*x),
        Node::I64(x) => Node::I64(*x),
        Node::U64(x) => Node::U64(*x),
        Node::Float(x) => Node::Float(*x),
        Node::Double(x) => Node::Double(*x),
        Node::String(s) => Node::String(s.clone()),
        Node::Binary(b) => Node::Binary(b.clone()),
        Node::Array(v) => {
            proof {
                lemma_values_of(*v, v.len() as int);
            }
            let mut out: Vec<Node> = Vec::new();
            let mut i: usize = 0;
            while i < v.len()
                invariant
                    0 <= i <= v.len(),
                    *a == Node::Array(*v),
                    a@ == Value::Array(values_of(*v, v.len() as int)),
                    out.len() == i,
                    forall|j: int| 0 <= j < i ==> value_of(#[trigger] out[j]) == value_of(v[j]),
                decreases v.len() - i,
            {
                proof {
                    assert(decreases_to!(*a => *v));
                    assert(decreases_to!(*v => v[i as int]));
                }
                let c = clone_node(&v[i]);
                out.push(c);
                i = i + 1;
            }
            proof {
                lemma_values_of(out, out.len() as int);
                assert(values_of(out, out.len() as int) =~= values_of(*v, v.len() as int));
            }
            Node::Array(out)
        },
        Node::Hash(v) => {
            proof {
                lemma_entries_of(*v, v.len() as int);
            }
            let mut out: Vec<(String, Node)> = Vec::new();
            let mut i: usize = 0;
            while i < v.len()
                invariant
                    0 <= i <= v.len(),
                    *a == Node::Hash(*v),
                    a@ == Value::Hash(entries_of(*v, v.len() as int)),
                    out.len() == i,
                    forall|j: int| 0 <= j < i ==> (#[trigger] out[j]).0@ == v[j].0@ && value_of(out[j].1) == value_of(v[j].1),
                decreases v.len() - i,
            {
                proof {
                    assert(decreases_to!(*a => *v));
                    assert(decreases_to!(*v => v[i as int]));
                    assert(decreases_to!(v[i as int] => v[i as int].1));
                }
                let c = clone_node(&v[i].1);
                out.push((v[i].0.clone(), c));
                i = i + 1;
            }
            proof {
                lemma_entries_of(out, out.len() as int);
                assert(entries_of(out, out.len() as int) =~= entries_of(*v, v.len() as int));
            }
            Node::Hash(out)
        },
    }
}

impl PartialEq for Node {
    fn eq(&self, other: &Node) -> (r: bool) {
        node_eq(self, other)
    }
}

impl vstd::std_specs::cmp::PartialEqSpecImpl for Node {
    open spec fn obeys_eq_spec() -> bool {
        true
    }

    open spec fn eq_spec(&self, other: &Node) -> bool {
        self@ == other@
    }
}

impl Clone for Node {
    fn clone(&self) -> (r: Node)
        ensures
            r@ == self@,
    {
        clone_node(self)
    }
}

} // verus!
