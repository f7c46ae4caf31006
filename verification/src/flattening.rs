use vstd::prelude::*;
use vstd::string::StringExecFns;

use crate::errors::Error;
use crate::paths::{dec_str, idx_path, lemma_idx_path_injective, usize_to_string};
use crate::value::{
    dv, dv_fields, dv_fields_seq, dv_pair, dv_seq, dv_vec, find_key, has_key, is_container,
    key_idx, key_idx_from, lemma_dv_fields_seq_push, lemma_dv_fields_seq_update, lemma_dv_seq_push,
    lemma_key_idx_props, lemma_key_idx_push, EntriesV, TreeV, Value,
};

verus! {

/// One leaf merged into the flat map: a fresh path is appended; a repeated
/// path turns the entry into an array accumulating the colliding values in
/// encounter order, and later collisions append to that array.
pub open spec fn merge_leaf(m: EntriesV, path: Seq<char>, v: TreeV) -> EntriesV {
    if has_key(m, path) {
        let i = key_idx(m, path);
        if m[i].1 is Arr {
            m.update(i, (path, TreeV::Arr(m[i].1->Arr_0.push(v))))
        } else {
            m.update(i, (path, TreeV::Arr(seq![m[i].1, v])))
        }
    } else {
        m.push((path, v))
    }
}

/// A value reaching the scalar-insertion step: a container here is the
/// defensive `NotAValue` fault, a scalar is merged under its path.
pub open spec fn fl_leaf(m: EntriesV, path: Seq<char>, v: TreeV) -> Result<EntriesV, Error> {
    if is_container(v) {
        Err(Error::NotAValue)
    } else {
        Ok(merge_leaf(m, path, v))
    }
}

/// Flattens one value below its computed path.
pub open spec fn fl_one(m: EntriesV, path: Seq<char>, t: TreeV) -> Result<EntriesV, Error>
    decreases t, 0int,
{
    match t {
        TreeV::Arr(es) => fl_arr(m, path, es, 0),
        TreeV::Obj(fs) => fl_obj(m, Some(path), fs, 0),
        _ => fl_leaf(m, path, t),
    }
}

/// Flattens an array's elements from position `i` on, each under
/// `path + "[" + index + "]"`.
pub open spec fn fl_arr(m: EntriesV, path: Seq<char>, elems: Seq<TreeV>, i: int) -> Result<
    EntriesV,
    Error,
>
    decreases elems, elems.len() - i,
{
    if !(0 <= i < elems.len()) {
        Ok(m)
    } else {
        let cpath = path + seq!['['] + dec_str(i as nat) + seq![']'];
        match fl_one(m, cpath, elems[i]) {
            Err(e) => Err(e),
            Ok(m2) => fl_arr(m2, path, elems, i + 1),
        }
    }
}

/// Flattens one object field: the child path is the bare key at the top
/// level, and `prefix + "." + key` below it.
pub open spec fn fl_entry(
    m: EntriesV,
    prefix: Option<Seq<char>>,
    e: (Seq<char>, TreeV),
) -> Result<EntriesV, Error>
    decreases e, 0int,
{
    let cpath = match prefix {
        None => e.0,
        Some(p) => p + seq!['.'] + e.0,
    };
    fl_one(m, cpath, e.1)
}

/// Flattens an object's fields from position `i` on.
pub open spec fn fl_obj(
    m: EntriesV,
    prefix: Option<Seq<char>>,
    fields: EntriesV,
    i: int,
) -> Result<EntriesV, Error>
    decreases fields, fields.len() - i,
{
    if !(0 <= i < fields.len()) {
        Ok(m)
    } else {
        match fl_entry(m, prefix, fields[i]) {
            Err(e) => Err(e),
            Ok(m2) => fl_obj(m2, prefix, fields, i + 1),
        }
    }
}

/// What `flatten` computes: the depth-first flat map of an object, and
/// `NotAnObject` for any other top-level shape.
pub open spec fn flatten_spec(t: TreeV) -> Result<EntriesV, Error> {
    match t {
        TreeV::Obj(fs) => fl_obj(Seq::empty(), None, fs, 0),
        _ => Err(Error::NotAnObject),
    }
}

pub proof fn lemma_fl_one_total(m: EntriesV, path: Seq<char>, t: TreeV)
    ensures
        fl_one(m, path, t) is Ok,
    decreases t, 0int,
{
    match t {
        TreeV::Arr(es) => lemma_fl_arr_total(m, path, es, 0),
        TreeV::Obj(fs) => lemma_fl_obj_total(m, Some(path), fs, 0),
        _ => {},
    }
}

pub proof fn lemma_fl_arr_total(m: EntriesV, path: Seq<char>, elems: Seq<TreeV>, i: int)
    ensures
        fl_arr(m, path, elems, i) is Ok,
    decreases elems, elems.len() - i,
{
    if 0 <= i < elems.len() {
        let cpath = path + seq!['['] + dec_str(i as nat) + seq![']'];
        lemma_fl_one_total(m, cpath, elems[i]);
        let m2 = fl_one(m, cpath, elems[i])->Ok_0;
        lemma_fl_arr_total(m2, path, elems, i + 1);
    }
}

pub proof fn lemma_fl_entry_total(m: EntriesV, prefix: Option<Seq<char>>, e: (Seq<char>, TreeV))
    ensures
        fl_entry(m, prefix, e) is Ok,
    decreases e, 0int,
{
    let cpath = match prefix {
        None => e.0,
        Some(p) => p + seq!['.'] + e.0,
    };
    lemma_fl_one_total(m, cpath, e.1);
}

/// Flattening an object never fails: the dispatch hands the insertion step
/// scalars only, so the defensive `NotAValue` fault is unreachable.
pub proof fn lemma_fl_obj_total(m: EntriesV, prefix: Option<Seq<char>>, fields: EntriesV, i: int)
    ensures
        fl_obj(m, prefix, fields, i) is Ok,
    decreases fields, fields.len() - i,
{
    if 0 <= i < fields.len() {
        lemma_fl_entry_total(m, prefix, fields[i]);
        let m2 = fl_entry(m, prefix, fields[i])->Ok_0;
        lemma_fl_obj_total(m2, prefix, fields, i + 1);
    }
}

/// Flattening scalar fields whose keys are absent from the map so far just
/// appends them, in order.
pub proof fn lemma_fl_obj_scalars(m: EntriesV, fields: EntriesV, i: int)
    requires
        0 <= i <= fields.len(),
        forall|j: int| 0 <= j < fields.len() ==> !is_container(#[trigger] fields[j].1),
        forall|j: int| i <= j < fields.len() ==> !has_key(m, #[trigger] fields[j].0),
        forall|j1: int, j2: int|
            i <= j1 < j2 < fields.len() ==> fields[j1].0 != fields[j2].0,
    ensures
        fl_obj(m, None, fields, i) == Ok::<EntriesV, Error>(m + fields.skip(i)),
    decreases fields.len() - i,
{
    if i < fields.len() {
        let e = fields[i];
        assert(e == (e.0, e.1));
        assert(!is_container(e.1));
        assert(!has_key(m, e.0));
        assert(merge_leaf(m, e.0, e.1) == m.push(e));
        assert(fl_leaf(m, e.0, e.1) == Ok::<EntriesV, Error>(m.push(e)));
        assert(fl_one(m, e.0, e.1) == Ok::<EntriesV, Error>(m.push(e)));
        assert(fl_entry(m, None, e) == Ok::<EntriesV, Error>(m.push(e)));
        let m2 = m.push(e);
        assert forall|j: int| i + 1 <= j < fields.len() implies !has_key(m2, #[trigger] fields[j].0)
        by {
            lemma_key_idx_push(m, e, fields[j].0);
            assert(fields[i].0 != fields[j].0);
        }
        lemma_fl_obj_scalars(m2, fields, i + 1);
        assert(m + fields.skip(i) =~= m2 + fields.skip(i + 1));
    } else {
        assert(m + fields.skip(i) =~= m);
    }
}

/// The flat entries an array of scalars produces: one per element, in
/// element order, each under the parent path with its index.
pub open spec fn arr_entries(path: Seq<char>, elems: Seq<TreeV>) -> EntriesV {
    Seq::new(
        elems.len(),
        |j: int|
            (
                idx_path(path, j),
                if 0 <= j < elems.len() {
                    elems[j]
                } else {
                    TreeV::Null
                },
            ),
    )
}

/// Flattening scalar array elements whose paths are absent from the map so
/// far just appends them, in index order.
pub proof fn lemma_fl_arr_scalars(m: EntriesV, path: Seq<char>, elems: Seq<TreeV>, i: int)
    requires
        0 <= i <= elems.len(),
        forall|j: int| 0 <= j < elems.len() ==> !is_container(#[trigger] elems[j]),
        forall|j: int| i <= j < elems.len() ==> !has_key(m, #[trigger] idx_path(path, j)),
    ensures
        fl_arr(m, path, elems, i) == Ok::<EntriesV, Error>(m + arr_entries(path, elems).skip(i)),
    decreases elems.len() - i,
{
    if i < elems.len() {
        let e = elems[i];
        let cpath = idx_path(path, i);
        assert(cpath == path + seq!['['] + dec_str(i as nat) + seq![']']);
        assert(!is_container(e));
        assert(!has_key(m, cpath));
        assert(merge_leaf(m, cpath, e) == m.push((cpath, e)));
        assert(fl_leaf(m, cpath, e) == Ok::<EntriesV, Error>(m.push((cpath, e))));
        assert(fl_one(m, cpath, e) == Ok::<EntriesV, Error>(m.push((cpath, e))));
        let m2 = m.push((cpath, e));
        assert forall|j: int| i + 1 <= j < elems.len() implies !has_key(
            m2,
            #[trigger] idx_path(path, j),
        ) by {
            lemma_key_idx_push(m, (cpath, e), idx_path(path, j));
            if cpath == idx_path(path, j) {
                lemma_idx_path_injective(path, i, j);
            }
        }
        lemma_fl_arr_scalars(m2, path, elems, i + 1);
        assert(m + arr_entries(path, elems).skip(i) =~= m2 + arr_entries(path, elems).skip(i + 1));
    } else {
        assert(m + arr_entries(path, elems).skip(i) =~= m);
    }
}

/// Array ordering on the way out: flattening an object that holds one array
/// of scalars yields exactly the indexed paths, in element order.
pub proof fn lemma_array_field_flatten(k: Seq<char>, elems: Seq<TreeV>)
    requires
        forall|j: int| 0 <= j < elems.len() ==> !is_container(#[trigger] elems[j]),
    ensures
        flatten_spec(TreeV::Obj(seq![(k, TreeV::Arr(elems))])) == Ok::<EntriesV, Error>(
            arr_entries(k, elems),
        ),
{
    let fields = seq![(k, TreeV::Arr(elems))];
    assert(fields[0] == (k, TreeV::Arr(elems)));
    assert forall|j: int| 0 <= j < elems.len() implies !has_key(
        Seq::empty(),
        #[trigger] idx_path(k, j),
    ) by {
        assert(key_idx_from(Seq::empty(), idx_path(k, j), 0) == -1);
    }
    lemma_fl_arr_scalars(Seq::empty(), k, elems, 0);
    assert(Seq::empty() + arr_entries(k, elems).skip(0) =~= arr_entries(k, elems));
    assert(fl_one(Seq::empty(), k, TreeV::Arr(elems)) == fl_arr(Seq::empty(), k, elems, 0));
    assert(fl_entry(Seq::empty(), None, fields[0]) == fl_one(
        Seq::empty(),
        k,
        TreeV::Arr(elems),
    ));
    assert(fl_obj(arr_entries(k, elems), None, fields, 1) == Ok::<EntriesV, Error>(
        arr_entries(k, elems),
    ));
    assert(fl_obj(Seq::empty(), None, fields, 0) == Ok::<EntriesV, Error>(arr_entries(k, elems)));
}

/// The view of an optional parent path.
pub open spec fn opt_dv(p: Option<&String>) -> Option<Seq<char>> {
    match p {
        None => None,
        Some(s) => Some(s@),
    }
}

/// Flattens a tree into a flat map of `(path, scalar)` entries.
///
/// Succeeds exactly on objects, producing the depth-first flat map that
/// `flatten_spec` describes; every other top-level shape is `NotAnObject`.
pub fn flatten(value: &Value) -> (r: Result<Vec<(String, Value)>, Error>)
    ensures
        match r {
            Ok(m) => flatten_spec(dv(*value)) == Ok::<EntriesV, Error>(dv_fields(m)),
            Err(e) => flatten_spec(dv(*value)) == Err::<EntriesV, Error>(e),
        },
        r is Ok <==> dv(*value) is Obj,
        !(dv(*value) is Obj) ==> r == Err::<Vec<(String, Value)>, Error>(Error::NotAnObject),
{
    let mut flattened: Vec<(String, Value)> = Vec::new();
    proof {
        assert(dv_fields(flattened) =~= Seq::<(Seq<char>, TreeV)>::empty());
    }
    match value {
        Value::Object(map) => {
            proof {
                assert(dv(*value) == TreeV::Obj(dv_fields(*map)));
            }
            match flatten_object(&mut flattened, None, map) {
                Ok(()) => Ok(flattened),
                Err(e) => {
                    proof {
                        lemma_fl_obj_total(Seq::empty(), None, dv_fields(*map), 0);
                    }
                    Err(e)
                },
            }
        },
        _ => Err(Error::NotAnObject),
    }
}

/// Walks an object's fields, flattening each child under its computed path.
#[verifier::loop_isolation(false)]
fn flatten_object(
    result: &mut Vec<(String, Value)>,
    property: Option<&String>,
    fields: &Vec<(String, Value)>,
) -> (r: Result<(), Error>)
    ensures
        match r {
            Ok(()) => fl_obj(dv_fields(*old(result)), opt_dv(property), dv_fields(*fields), 0)
                == Ok::<EntriesV, Error>(dv_fields(*final(result))),
            Err(e) => fl_obj(dv_fields(*old(result)), opt_dv(property), dv_fields(*fields), 0)
                == Err::<EntriesV, Error>(e),
        },
    decreases *fields,
{
    let ghost m0 = dv_fields(*old(result));
    let ghost fv = dv_fields(*fields);
    let ghost pv = opt_dv(property);
    let mut i: usize = 0;
    while i < fields.len()
        invariant
            i <= fields.len(),
            fv == dv_fields(*fields),
            pv == opt_dv(property),
            fl_obj(m0, pv, fv, 0) == fl_obj(dv_fields(*result), pv, fv, i as int),
        decreases fields.len() - i,
    {
        let ghost m_pre = dv_fields(*result);
        let entry = &fields[i];
        let key = &entry.0;
        let flattened_prop: String = match property {
            None => key.clone(),
            Some(parent) => {
                let mut p = parent.clone();
                p.append(".");
                p.append(key.as_str());
                p
            },
        };
        let ghost cpath = match pv {
            None => fv[i as int].0,
            Some(pp) => pp + seq!['.'] + fv[i as int].0,
        };
        proof {
            reveal_strlit(".");
            assert(fv[i as int] == dv_pair(fields@[i as int]));
            assert(fv[i as int].0 == fields@[i as int].0@);
            assert("."@ =~= seq!['.']);
            assert(flattened_prop@ == cpath);
            assert(fl_entry(m_pre, pv, fv[i as int]) == fl_one(m_pre, cpath, fv[i as int].1));
        }
        let child = &entry.1;
        let step: Result<(), Error> = match child {
            Value::Array(arr) => {
                proof {
                    assert(decreases_to!(*fields => fields@));
                    assert(decreases_to!(fields@ => fields@[i as int]));
                    assert(decreases_to!(fields@[i as int] => fields@[i as int].1));
                    assert(fields@[i as int].1 == *child);
                    assert(decreases_to!(*child => (*child)->Array_0));
                    assert((*child)->Array_0 == *arr);
                    assert(dv(fields@[i as int].1) == TreeV::Arr(dv_vec(*arr)));
                }
                flatten_array(result, &flattened_prop, arr)
            },
            Value::Object(sub) => {
                proof {
                    assert(decreases_to!(*fields => fields@));
                    assert(decreases_to!(fields@ => fields@[i as int]));
                    assert(decreases_to!(fields@[i as int] => fields@[i as int].1));
                    assert(fields@[i as int].1 == *child);
                    assert(decreases_to!(*child => (*child)->Object_0));
                    assert((*child)->Object_0 == *sub);
                    assert(dv(fields@[i as int].1) == TreeV::Obj(dv_fields(*sub)));
                }
                flatten_object(result, Some(&flattened_prop), sub)
            },
            _ => {
                let leaf = child.clone();
                proof {
                    assert(dv(leaf) == dv(fields@[i as int].1));
                    assert(!is_container(dv(leaf)));
                }
                flatten_value(result, &flattened_prop, leaf)
            },
        };
        match step {
            Err(e) => {
                proof {
                    assert(fl_one(m_pre, cpath, fv[i as int].1) == Err::<EntriesV, Error>(e));
                    assert(fl_obj(m_pre, pv, fv, i as int) == Err::<EntriesV, Error>(e));
                }
                return Err(e);
            },
            Ok(()) => {
                proof {
                    assert(fl_one(m_pre, cpath, fv[i as int].1) == Ok::<EntriesV, Error>(
                        dv_fields(*result),
                    ));
                    assert(fl_obj(m_pre, pv, fv, i as int) == fl_obj(
                        dv_fields(*result),
                        pv,
                        fv,
                        i as int + 1,
                    ));
                }
                i += 1;
            },
        }
    }
    Ok(())
}

/// Walks an array's elements, flattening each under `path[index]`.
#[verifier::loop_isolation(false)]
fn flatten_array(
    result: &mut Vec<(String, Value)>,
    property: &String,
    array: &Vec<Value>,
) -> (r: Result<(), Error>)
    ensures
        match r {
            Ok(()) => fl_arr(dv_fields(*old(result)), property@, dv_vec(*array), 0)
                == Ok::<EntriesV, Error>(dv_fields(*final(result))),
            Err(e) => fl_arr(dv_fields(*old(result)), property@, dv_vec(*array), 0)
                == Err::<EntriesV, Error>(e),
        },
    decreases *array,
{
    let ghost m0 = dv_fields(*old(result));
    let ghost ev = dv_vec(*array);
    let mut i: usize = 0;
    while i < array.len()
        invariant
            i <= array.len(),
            ev == dv_vec(*array),
            fl_arr(m0, property@, ev, 0) == fl_arr(dv_fields(*result), property@, ev, i as int),
        decreases array.len() - i,
    {
        let ghost m_pre = dv_fields(*result);
        let mut flattened_prop = property.clone();
        flattened_prop.append("[");
        let num = usize_to_string(i);
        flattened_prop.append(num.as_str());
        flattened_prop.append("]");
        let ghost cpath = property@ + seq!['['] + dec_str(i as nat) + seq![']'];
        proof {
            reveal_strlit("[");
            reveal_strlit("]");
            assert("["@ =~= seq!['[']);
            assert("]"@ =~= seq![']']);
            assert(flattened_prop@ == cpath);
            assert(ev[i as int] == dv(array@[i as int]));
        }
        let child = &array[i];
        let step: Result<(), Error> = match child {
            Value::Object(sub) => {
                proof {
                    assert(decreases_to!(*array => array@));
                    assert(decreases_to!(array@ => array@[i as int]));
                    assert(array@[i as int] == *child);
                    assert(decreases_to!(*child => (*child)->Object_0));
                    assert((*child)->Object_0 == *sub);
                    assert(dv(array@[i as int]) == TreeV::Obj(dv_fields(*sub)));
                }
                flatten_object(result, Some(&flattened_prop), sub)
            },
            Value::Array(sub) => {
                proof {
                    assert(decreases_to!(*array => array@));
                    assert(decreases_to!(array@ => array@[i as int]));
                    assert(array@[i as int] == *child);
                    assert(decreases_to!(*child => (*child)->Array_0));
                    assert((*child)->Array_0 == *sub);
                    assert(dv(array@[i as int]) == TreeV::Arr(dv_vec(*sub)));
                }
                flatten_array(result, &flattened_prop, sub)
            },
            _ => {
                let leaf = child.clone();
                proof {
                    assert(dv(leaf) == dv(array@[i as int]));
                    assert(!is_container(dv(leaf)));
                }
                flatten_value(result, &flattened_prop, leaf)
            },
        };
        match step {
            Err(e) => {
                proof {
                    assert(fl_one(m_pre, cpath, ev[i as int]) == Err::<EntriesV, Error>(e));
                    assert(fl_arr(m_pre, property@, ev, i as int) == Err::<EntriesV, Error>(e));
                }
                return Err(e);
            },
            Ok(()) => {
                proof {
                    assert(fl_one(m_pre, cpath, ev[i as int]) == Ok::<EntriesV, Error>(
                        dv_fields(*result),
                    ));
                    assert(fl_arr(m_pre, property@, ev, i as int) == fl_arr(
                        dv_fields(*result),
                        property@,
                        ev,
                        i as int + 1,
                    ));
                }
                i += 1;
            },
        }
    }
    Ok(())
}

/// Inserts one scalar under its computed path, merging a colliding path into
/// an accumulating array as `merge_leaf` describes.
fn flatten_value(result: &mut Vec<(String, Value)>, property: &String, val: Value) -> (r: Result<
    (),
    Error,
>)
    ensures
        match r {
            Ok(()) => fl_leaf(dv_fields(*old(result)), property@, dv(val)) == Ok::<
                EntriesV,
                Error,
            >(dv_fields(*final(result))),
            Err(e) => fl_leaf(dv_fields(*old(result)), property@, dv(val)) == Err::<
                EntriesV,
                Error,
            >(e),
        },
{
    match &val {
        Value::Array(_) => {
            return Err(Error::NotAValue);
        },
        Value::Object(_) => {
            return Err(Error::NotAValue);
        },
        _ => {},
    }
    let ghost m = dv_fields(*old(result));
    match find_key(result, property) {
        Some(j) => {
            let ghost pre_view = result@;
            let (k, old_v) = result.remove(j);
            let ghost jj = j as int;
            proof {
                lemma_key_idx_props(m, property@);
                assert(m[jj] == dv_pair(pre_view[jj]));
                assert(k@ == property@);
            }
            let new_v: Value = match old_v {
                Value::Array(mut a) => {
                    let ghost a0 = a@;
                    a.push(val);
                    proof {
                        lemma_dv_seq_push(a0, val);
                        assert(m[jj].1 == TreeV::Arr(dv_seq(a0)));
                    }
                    Value::Array(a)
                },
                other => {
                    proof {
                        assert(!(m[jj].1 is Arr));
                    }
                    let ghost ov = other;
                    let mut two: Vec<Value> = Vec::new();
                    two.push(other);
                    two.push(val);
                    proof {
                        assert(dv_seq(two@) =~= seq![dv(ov), dv(val)]);
                        assert(m[jj].1 == dv(ov));
                    }
                    Value::Array(two)
                },
            };
            let ghost pair = (k, new_v);
            result.insert(j, (k, new_v));
            proof {
                assert(result@ =~= pre_view.update(jj, pair));
                lemma_dv_fields_seq_update(pre_view, jj, pair);
                assert(dv_fields(*result) =~= merge_leaf(m, property@, dv(val)));
            }
        },
        None => {
            let ghost pre_view = result@;
            let keyc = property.clone();
            let ghost pair = (keyc, val);
            result.push((keyc, val));
            proof {
                lemma_dv_fields_seq_push(pre_view, pair);
                assert(dv_fields(*result) =~= merge_leaf(m, property@, dv(val)));
            }
        },
    }
    Ok(())
}

} // verus!
