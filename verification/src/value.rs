use vstd::prelude::*;

verus! {

/// Mathematical model of a tree value: the deep view of [`Value`].
///
/// Objects are insertion-ordered sequences of key/value pairs; nothing here
/// forces the keys of an object to be distinct, which is exactly the latitude
/// the flattener's collision rule needs.
pub enum TreeV {
    Null,
    Bool(bool),
    Num(i64),
    Str(Seq<char>),
    Arr(Seq<TreeV>),
    Obj(Seq<(Seq<char>, TreeV)>),
}

/// An insertion-ordered association sequence: the model of both an object's
/// fields and a flat map's entries.
pub type EntriesV = Seq<(Seq<char>, TreeV)>;

/// A tree-shaped value: `Null`, `Bool`, `Num`, `Str` scalars, an ordered
/// array, or an object whose fields keep insertion order.
#[derive(Debug, PartialEq, Eq)]
pub enum Value {
    Null,
    Bool(bool),
    Num(i64),
    Str(String),
    Array(Vec<Value>),
    Object(Vec<(String, Value)>),
}

/// The deep view of a tree value.
pub open spec fn dv(v: Value) -> TreeV
    decreases v,
{
    match v {
        Value::Null => TreeV::Null,
        Value::Bool(b) => TreeV::Bool(b),
        Value::Num(n) => TreeV::Num(n),
        Value::Str(s) => TreeV::Str(s@),
        Value::Array(a) => TreeV::Arr(dv_vec(a)),
        Value::Object(o) => TreeV::Obj(dv_fields(o)),
    }
}

/// The deep view of an array's elements.
pub open spec fn dv_vec(a: Vec<Value>) -> Seq<TreeV>
    decreases a,
{
    dv_seq(a@)
}

/// The deep view of each element of a sequence of tree values.
pub open spec fn dv_seq(s: Seq<Value>) -> Seq<TreeV>
    decreases s,
{
    Seq::new(
        s.len(),
        |i: int|
            if 0 <= i < s.len() {
                dv(s[i])
            } else {
                TreeV::Null
            },
    )
}

/// The deep view of an object's fields (or of a flat map's entries).
pub open spec fn dv_fields(o: Vec<(String, Value)>) -> EntriesV
    decreases o,
{
    dv_fields_seq(o@)
}

/// The deep view of each entry of a sequence of key/value pairs.
pub open spec fn dv_fields_seq(s: Seq<(String, Value)>) -> EntriesV
    decreases s,
{
    Seq::new(
        s.len(),
        |i: int|
            if 0 <= i < s.len() {
                dv_pair(s[i])
            } else {
                (Seq::empty(), TreeV::Null)
            },
    )
}

/// The deep view of one key/value pair.
pub open spec fn dv_pair(p: (String, Value)) -> (Seq<char>, TreeV)
    decreases p,
{
    (p.0@, dv(p.1))
}

impl DeepView for Value {
    type V = TreeV;

    open spec fn deep_view(&self) -> TreeV {
        dv(*self)
    }
}

pub proof fn lemma_dv_seq_push(s: Seq<Value>, x: Value)
    ensures
        dv_seq(s.push(x)) == dv_seq(s).push(dv(x)),
{
    assert(dv_seq(s.push(x)) =~= dv_seq(s).push(dv(x)));
}

pub proof fn lemma_dv_fields_seq_push(s: Seq<(String, Value)>, p: (String, Value))
    ensures
        dv_fields_seq(s.push(p)) == dv_fields_seq(s).push(dv_pair(p)),
{
    assert(dv_fields_seq(s.push(p)) =~= dv_fields_seq(s).push(dv_pair(p)));
}

pub proof fn lemma_dv_fields_seq_update(s: Seq<(String, Value)>, j: int, p: (String, Value))
    requires
        0 <= j < s.len(),
    ensures
        dv_fields_seq(s.update(j, p)) == dv_fields_seq(s).update(j, dv_pair(p)),
{
    assert(dv_fields_seq(s.update(j, p)) =~= dv_fields_seq(s).update(j, dv_pair(p)));
}

pub proof fn lemma_dv_seq_update(s: Seq<Value>, j: int, x: Value)
    requires
        0 <= j < s.len(),
    ensures
        dv_seq(s.update(j, x)) == dv_seq(s).update(j, dv(x)),
{
    assert(dv_seq(s.update(j, x)) =~= dv_seq(s).update(j, dv(x)));
}

/// True of the two container shapes, false of the four scalar shapes.
pub open spec fn is_container(t: TreeV) -> bool {
    t is Arr || t is Obj
}

/// Index of the first entry with key `k` at position `i` or later, or `-1`.
pub open spec fn key_idx_from(m: EntriesV, k: Seq<char>, i: int) -> int
    decreases m.len() - i,
{
    if i < 0 || i >= m.len() {
        -1
    } else if m[i].0 == k {
        i
    } else {
        key_idx_from(m, k, i + 1)
    }
}

/// Index of the first entry with key `k`, or `-1` if no entry has it.
pub open spec fn key_idx(m: EntriesV, k: Seq<char>) -> int {
    key_idx_from(m, k, 0)
}

/// Whether some entry has key `k`.
pub open spec fn has_key(m: EntriesV, k: Seq<char>) -> bool {
    key_idx(m, k) >= 0
}

/// The value of the first entry with key `k`.
pub open spec fn val_of(m: EntriesV, k: Seq<char>) -> TreeV {
    m[key_idx(m, k)].1
}

pub proof fn lemma_key_idx_from_props(m: EntriesV, k: Seq<char>, i: int)
    requires
        0 <= i <= m.len(),
    ensures
        key_idx_from(m, k, i) == -1 ==> forall|j: int| i <= j < m.len() ==> m[j].0 != k,
        key_idx_from(m, k, i) != -1 ==> i <= key_idx_from(m, k, i) < m.len()
            && m[key_idx_from(m, k, i)].0 == k,
    decreases m.len() - i,
{
    if i < m.len() && m[i].0 != k {
        lemma_key_idx_from_props(m, k, i + 1);
    }
}

/// What `key_idx` found: `-1` means no entry has the key; otherwise it is
/// the position of the first entry that has it.
pub proof fn lemma_key_idx_props(m: EntriesV, k: Seq<char>)
    ensures
        key_idx(m, k) == -1 ==> forall|j: int| 0 <= j < m.len() ==> m[j].0 != k,
        key_idx(m, k) != -1 ==> 0 <= key_idx(m, k) < m.len() && m[key_idx(m, k)].0 == k,
{
    lemma_key_idx_from_props(m, k, 0);
}

/// No two entries share a key.
pub open spec fn distinct_keys(m: EntriesV) -> bool {
    forall|i: int, j: int| 0 <= i < j < m.len() ==> m[i].0 != m[j].0
}

pub proof fn lemma_key_idx_push_from(m: EntriesV, p: (Seq<char>, TreeV), k: Seq<char>, i: int)
    requires
        0 <= i <= m.len(),
    ensures
        key_idx_from(m.push(p), k, i) == if key_idx_from(m, k, i) >= 0 {
            key_idx_from(m, k, i)
        } else if p.0 == k {
            m.len() as int
        } else {
            -1
        },
    decreases m.len() - i,
{
    assert(m.push(p).len() == m.len() + 1);
    if i < m.len() {
        assert(m.push(p)[i] == m[i]);
        if m[i].0 != k {
            lemma_key_idx_push_from(m, p, k, i + 1);
        }
    } else {
        assert(m.push(p)[m.len() as int] == p);
        assert(key_idx_from(m.push(p), k, i + 1) == -1);
    }
}

/// Looking a key up after a push: an entry already present is still found
/// first; otherwise the pushed entry is found exactly when it carries the
/// key.
pub proof fn lemma_key_idx_push(m: EntriesV, p: (Seq<char>, TreeV), k: Seq<char>)
    ensures
        key_idx(m.push(p), k) == if key_idx(m, k) >= 0 {
            key_idx(m, k)
        } else if p.0 == k {
            m.len() as int
        } else {
            -1
        },
{
    lemma_key_idx_push_from(m, p, k, 0);
}

/// First position whose entry carries key `*k`, scanning left to right.
pub fn find_key(entries: &Vec<(String, Value)>, k: &String) -> (r: Option<usize>)
    ensures
        match r {
            Some(j) => j < entries.len() && key_idx(dv_fields(*entries), k@) == j as int,
            None => key_idx(dv_fields(*entries), k@) == -1,
        },
{
    let ghost m = dv_fields(*entries);
    let mut j: usize = 0;
    while j < entries.len()
        invariant
            j <= entries.len(),
            m == dv_fields(*entries),
            key_idx_from(m, k@, 0) == key_idx_from(m, k@, j as int),
        decreases entries.len() - j,
    {
        if entries[j].0 == *k {
            proof {
                assert(m[j as int].0 == k@);
            }
            return Some(j);
        }
        j += 1;
    }
    None
}

impl Clone for Value {
    /// A deep copy: the clone has the same deep view as the value cloned.
    fn clone(&self) -> (r: Self)
        ensures
            dv(r) == dv(*self),
        decreases *self,
    {
        match self {
            Value::Null => Value::Null,
            Value::Bool(b) => Value::Bool(*b),
            Value::Num(n) => Value::Num(*n),
            Value::Str(s) => Value::Str(s.clone()),
            Value::Array(a) => {
                let mut out: Vec<Value> = Vec::new();
                let mut i: usize = 0;
                while i < a.len()
                    invariant
                        i <= a.len(),
                        dv_vec(out) == dv_vec(*a).take(i as int),
                        *self == Value::Array(*a),
                    decreases a.len() - i,
                {
                    proof {
                        assert(decreases_to!(*self => (*self)->Array_0));
                        assert((*self)->Array_0 == *a);
                        assert(decreases_to!(*a => a@));
                        assert(decreases_to!(a@ => a@[i as int]));
                    }
                    let ghost prev = dv_vec(out);
                    let ghost prev_view = out@;
                    let cloned = a[i].clone();
                    proof {
                        assert(dv(cloned) == dv(a@[i as int]));
                    }
                    out.push(cloned);
                    i += 1;
                    proof {
                        assert(out@ == prev_view.push(cloned));
                        assert(out@.len() == prev_view.len() + 1);
                        assert(dv_vec(out) == dv_seq(out@));
                        assert(dv_seq(out@).len() == out@.len());
                        assert(prev == dv_seq(prev_view));
                        assert(prev.len() == prev_view.len());
                        assert(prev_view.len() == i as int - 1);
                        assert forall|j: int| 0 <= j < i as int implies dv_seq(out@)[j] == dv_seq(
                            a@,
                        ).take(i as int)[j] by {
                            assert(out@[j] == prev_view.push(cloned)[j]);
                            if j < i as int - 1 {
                                assert(out@[j] == prev_view[j]);
                                assert(dv_seq(out@)[j] == prev[j]);
                            } else {
                                assert(out@[j] == cloned);
                            }
                        }
                        assert(dv_vec(out) =~= dv_vec(*a).take(i as int));
                    }
                }
                proof {
                    assert(dv_vec(*a).take(a@.len() as int) =~= dv_vec(*a));
                }
                Value::Array(out)
            },
            Value::Object(o) => {
                let mut out: Vec<(String, Value)> = Vec::new();
                let mut i: usize = 0;
                while i < o.len()
                    invariant
                        i <= o.len(),
                        dv_fields(out) == dv_fields(*o).take(i as int),
                        *self == Value::Object(*o),
                    decreases o.len() - i,
                {
                    proof {
                        assert(decreases_to!(*self => (*self)->Object_0));
                        assert((*self)->Object_0 == *o);
                        assert(decreases_to!(*o => o@));
                        assert(decreases_to!(o@ => o@[i as int]));
                        assert(decreases_to!(o@[i as int] => o@[i as int].1));
                    }
                    let ghost prev = dv_fields(out);
                    let ghost prev_view = out@;
                    let key = o[i].0.clone();
                    let child = o[i].1.clone();
                    let pair = (key, child);
                    proof {
                        assert(dv_pair(pair) == dv_pair(o@[i as int]));
                    }
                    out.push(pair);
                    i += 1;
                    proof {
                        assert(out@ == prev_view.push(pair));
                        assert(out@.len() == prev_view.len() + 1);
                        assert(dv_fields(out) == dv_fields_seq(out@));
                        assert(dv_fields_seq(out@).len() == out@.len());
                        assert(prev == dv_fields_seq(prev_view));
                        assert(prev.len() == prev_view.len());
                        assert(prev_view.len() == i as int - 1);
                        assert forall|j: int| 0 <= j < i as int implies dv_fields_seq(out@)[j]
                            == dv_fields_seq(o@).take(i as int)[j] by {
                            assert(out@[j] == prev_view.push(pair)[j]);
                            if j < i as int - 1 {
                                assert(out@[j] == prev_view[j]);
                                assert(dv_fields_seq(out@)[j] == prev[j]);
                            } else {
                                assert(out@[j] == pair);
                            }
                        }
                        assert(dv_fields(out) =~= dv_fields(*o).take(i as int));
                    }
                }
                proof {
                    assert(dv_fields(*o).take(o@.len() as int) =~= dv_fields(*o));
                }
                Value::Object(out)
            },
        }
    }
}

} // verus!
