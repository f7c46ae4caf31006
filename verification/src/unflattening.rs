use vstd::prelude::*;

use crate::errors::Error;
use crate::flattening::{arr_entries, flatten_spec, lemma_array_field_flatten, lemma_fl_obj_scalars};
use crate::paths::{
    dec_str, idx_path, lemma_parse_bare_key, lemma_parse_idx_path, parse_idx, parse_index,
    parse_path, plain_key, seg_key, seg_key_str, segs_dv, tokenize, SegV, Segment,
};
use crate::value::{
    distinct_keys, dv, dv_fields, dv_fields_seq, dv_pair, dv_seq, find_key, has_key, is_container,
    key_idx, key_idx_from, lemma_dv_fields_seq_push, lemma_dv_fields_seq_update, lemma_dv_seq_push,
    lemma_dv_seq_update, lemma_key_idx_props, val_of, EntriesV, TreeV, Value,
};

verus! {

/// Replaces the value of the first entry with key `k`, keeping its position,
/// or appends a new entry at the end.
pub open spec fn obj_upsert(o: EntriesV, k: Seq<char>, v: TreeV) -> EntriesV {
    if has_key(o, k) {
        o.update(key_idx(o, k), (k, v))
    } else {
        o.push((k, v))
    }
}

/// Inserts `leaf` into `node` along the remaining segments.
///
/// `acting` is the segment the current node is addressed with; each step
/// looks ahead at the next segment to decide which container to create when
/// one is absent: an array for a coming index, an object for a coming key.
/// An array descends by the acting text read as an integer
/// (`InvalidProperty` when it is not one), re-enters an existing position,
/// appends at the position one past the end, and faults with `FormatError`
/// beyond it. An object re-enters an existing key or appends a new one. A
/// scalar in the way is `InvalidType`. With no segments left the leaf is
/// appended (array) or upserted (object).
pub open spec fn ins(node: TreeV, acting: SegV, segs: Seq<SegV>, leaf: TreeV) -> Result<
    TreeV,
    Error,
>
    decreases segs.len(),
{
    if segs.len() == 0 {
        match node {
            TreeV::Arr(a) => Ok(TreeV::Arr(a.push(leaf))),
            TreeV::Obj(o) => Ok(TreeV::Obj(obj_upsert(o, seg_key_str(acting), leaf))),
            _ => Err(Error::InvalidType),
        }
    } else {
        let next = segs[0];
        let child0: TreeV = if next is Idx {
            TreeV::Arr(Seq::empty())
        } else {
            TreeV::Obj(Seq::empty())
        };
        match node {
            TreeV::Arr(a) => {
                match parse_idx(seg_key_str(acting)) {
                    None => Err(Error::InvalidProperty),
                    Some(idx) => {
                        if idx < a.len() {
                            match ins(a[idx as int], next, segs.drop_first(), leaf) {
                                Err(e) => Err(e),
                                Ok(c) => Ok(TreeV::Arr(a.update(idx as int, c))),
                            }
                        } else if idx == a.len() {
                            match ins(child0, next, segs.drop_first(), leaf) {
                                Err(e) => Err(e),
                                Ok(c) => Ok(TreeV::Arr(a.push(c))),
                            }
                        } else {
                            Err(Error::FormatError)
                        }
                    },
                }
            },
            TreeV::Obj(o) => {
                let k = seg_key_str(acting);
                if has_key(o, k) {
                    let j = key_idx(o, k);
                    match ins(o[j].1, next, segs.drop_first(), leaf) {
                        Err(e) => Err(e),
                        Ok(c) => Ok(TreeV::Obj(o.update(j, (o[j].0, c)))),
                    }
                } else {
                    match ins(child0, next, segs.drop_first(), leaf) {
                        Err(e) => Err(e),
                        Ok(c) => Ok(TreeV::Obj(o.push((k, c)))),
                    }
                }
            },
            _ => Err(Error::InvalidType),
        }
    }
}

/// Folds the flat entries into the synthesized root, in order; every path is
/// tokenized and its leaf inserted below the root's empty key.
pub open spec fn unfl_entries(root: TreeV, entries: EntriesV, i: int) -> Result<TreeV, Error>
    decreases entries.len() - i,
{
    if !(0 <= i < entries.len()) {
        Ok(root)
    } else {
        match parse_path(entries[i].0) {
            None => Err(Error::InvalidProperty),
            Some(segs) => match ins(root, SegV::Key(Seq::empty()), segs, entries[i].1) {
                Err(e) => Err(e),
                Ok(root2) => unfl_entries(root2, entries, i + 1),
            },
        }
    }
}

/// What `unflatten` computes: an empty map gives an empty object; otherwise
/// the entries are folded into a synthesized root object and the value under
/// the root's empty key is the result.
pub open spec fn unflatten_spec(m: EntriesV) -> Result<TreeV, Error> {
    if m.len() == 0 {
        Ok(TreeV::Obj(Seq::empty()))
    } else {
        match unfl_entries(TreeV::Obj(Seq::empty()), m, 0) {
            Err(e) => Err(e),
            Ok(root) => match root {
                TreeV::Obj(o) => if has_key(o, Seq::empty()) {
                    Ok(val_of(o, Seq::empty()))
                } else {
                    Err(Error::InvalidProperty)
                },
                _ => Err(Error::InvalidProperty),
            },
        }
    }
}

pub proof fn lemma_unfl_entries_err(root: TreeV, entries: EntriesV, i: int, j: int)
    requires
        0 <= i <= j < entries.len(),
        parse_path(entries[j].0) is None,
    ensures
        unfl_entries(root, entries, i) is Err,
    decreases entries.len() - i,
{
    if i < j {
        match parse_path(entries[i].0) {
            None => {},
            Some(segs) => {
                match ins(root, SegV::Key(Seq::empty()), segs, entries[i].1) {
                    Err(_) => {},
                    Ok(root2) => {
                        lemma_unfl_entries_err(root2, entries, i + 1, j);
                    },
                }
            },
        }
    }
}

/// A flat map holding any path that does not match the grammar never
/// unflattens: the result is an error, not a panic and not silent loss.
pub proof fn lemma_malformed_path_rejected(m: EntriesV, j: int)
    requires
        0 <= j < m.len(),
        parse_path(m[j].0) is None,
    ensures
        unflatten_spec(m) is Err,
{
    lemma_unfl_entries_err(TreeV::Obj(Seq::empty()), m, 0, j);
}

/// Re-descending into an object along a later path never overwrites what an
/// earlier path put there: a successful insert leaves every entry whose key
/// is not the acting one exactly as it was, keeps every key in place, and
/// grows the object by at most one entry, at the end.
pub proof fn lemma_idempotent_redescent(o: EntriesV, acting: SegV, segs: Seq<SegV>, leaf: TreeV)
    requires
        ins(TreeV::Obj(o), acting, segs, leaf) is Ok,
    ensures
        ins(TreeV::Obj(o), acting, segs, leaf)->Ok_0 is Obj,
        ({
            let o2 = ins(TreeV::Obj(o), acting, segs, leaf)->Ok_0->Obj_0;
            &&& o.len() <= o2.len() <= o.len() + 1
            &&& (forall|j: int|
                0 <= j < o.len() && o[j].0 != seg_key_str(acting) ==> o2[j] == o[j])
            &&& (forall|j: int| 0 <= j < o.len() ==> o2[j].0 == o[j].0)
        }),
{
    let k = seg_key_str(acting);
    lemma_key_idx_props(o, k);
}

/// One step of the rebuild of a flat object of scalars: inserting field `i`
/// below the synthesized root re-enters the root's empty key and appends the
/// field to the object built so far.
pub proof fn lemma_unfl_scalars(fields: EntriesV, i: int)
    requires
        1 <= i <= fields.len(),
        distinct_keys(fields),
        forall|j: int| 0 <= j < fields.len() ==> plain_key(#[trigger] fields[j].0),
    ensures
        unfl_entries(
            TreeV::Obj(seq![(Seq::<char>::empty(), TreeV::Obj(fields.take(i)))]),
            fields,
            i,
        ) == Ok::<TreeV, Error>(TreeV::Obj(seq![(Seq::<char>::empty(), TreeV::Obj(fields))])),
    decreases fields.len() - i,
{
    let acc = fields.take(i);
    let o = seq![(Seq::<char>::empty(), TreeV::Obj(acc))];
    let root = TreeV::Obj(o);
    if i < fields.len() {
        let e = fields[i];
        assert(e == (e.0, e.1));
        lemma_parse_bare_key(e.0);
        let segs = seq![SegV::Key(e.0)];
        assert(segs[0] == SegV::Key(e.0));
        assert(segs.drop_first() =~= Seq::<SegV>::empty());
        assert(o[0].0 == Seq::<char>::empty());
        assert(key_idx(o, Seq::empty()) == 0);
        // The field's key is new to the object built so far.
        lemma_key_idx_props(acc, e.0);
        if has_key(acc, e.0) {
            let j = key_idx(acc, e.0);
            assert(acc[j] == fields[j]);
            assert(fields[j].0 == fields[i].0);
            assert(false);
        }
        assert(obj_upsert(acc, e.0, e.1) == acc.push(e));
        assert(ins(TreeV::Obj(acc), SegV::Key(e.0), Seq::empty(), e.1) == Ok::<TreeV, Error>(
            TreeV::Obj(acc.push(e)),
        ));
        assert(ins(root, SegV::Key(Seq::empty()), segs, e.1) == Ok::<TreeV, Error>(
            TreeV::Obj(o.update(0, (o[0].0, TreeV::Obj(acc.push(e))))),
        ));
        assert(acc.push(e) =~= fields.take(i + 1));
        assert(o.update(0, (o[0].0, TreeV::Obj(acc.push(e)))) =~= seq![
            (Seq::<char>::empty(), TreeV::Obj(fields.take(i + 1))),
        ]);
        lemma_unfl_scalars(fields, i + 1);
    } else {
        assert(acc =~= fields);
    }
}

/// Round trip for a flat object: flattening an object whose fields are all
/// scalars, under distinct keys of plain key characters, and unflattening
/// the result gives the object back — leaves, keys and their order intact.
pub proof fn lemma_flat_object_round_trip(fields: EntriesV)
    requires
        distinct_keys(fields),
        forall|j: int| 0 <= j < fields.len() ==> plain_key(#[trigger] fields[j].0),
        forall|j: int| 0 <= j < fields.len() ==> !is_container(#[trigger] fields[j].1),
    ensures
        flatten_spec(TreeV::Obj(fields)) == Ok::<EntriesV, Error>(fields),
        unflatten_spec(fields) == Ok::<TreeV, Error>(TreeV::Obj(fields)),
{
    // The flat side: fresh scalar leaves are appended in field order.
    assert forall|j: int| 0 <= j < fields.len() implies !has_key(
        Seq::empty(),
        #[trigger] fields[j].0,
    ) by {
        assert(key_idx_from(Seq::empty(), fields[j].0, 0) == -1);
    }
    lemma_fl_obj_scalars(Seq::empty(), fields, 0);
    assert(Seq::empty() + fields.skip(0) =~= fields);
    // The rebuild side.
    if fields.len() == 0 {
        assert(fields =~= Seq::<(Seq<char>, TreeV)>::empty());
    } else {
        let e = fields[0];
        assert(e == (e.0, e.1));
        lemma_parse_bare_key(e.0);
        let segs = seq![SegV::Key(e.0)];
        assert(segs[0] == SegV::Key(e.0));
        assert(segs.drop_first() =~= Seq::<SegV>::empty());
        let empty_o: EntriesV = Seq::empty();
        assert(key_idx(empty_o, Seq::empty()) == -1);
        assert(key_idx(empty_o, e.0) == -1);
        assert(obj_upsert(empty_o, e.0, e.1) =~= seq![e]);
        assert(ins(TreeV::Obj(empty_o), SegV::Key(e.0), Seq::empty(), e.1) == Ok::<TreeV, Error>(
            TreeV::Obj(seq![e]),
        ));
        let root1 = TreeV::Obj(empty_o.push((Seq::empty(), TreeV::Obj(seq![e]))));
        assert(ins(TreeV::Obj(empty_o), SegV::Key(Seq::empty()), segs, e.1) == Ok::<
            TreeV,
            Error,
        >(root1));
        assert(seq![e] =~= fields.take(1));
        assert(empty_o.push((Seq::empty(), TreeV::Obj(fields.take(1)))) =~= seq![
            (Seq::<char>::empty(), TreeV::Obj(fields.take(1))),
        ]);
        lemma_unfl_scalars(fields, 1);
        assert(unfl_entries(TreeV::Obj(Seq::empty()), fields, 0) == Ok::<TreeV, Error>(
            TreeV::Obj(seq![(Seq::<char>::empty(), TreeV::Obj(fields))]),
        ));
        let o2 = seq![(Seq::<char>::empty(), TreeV::Obj(fields))];
        assert(o2[0].0 == Seq::<char>::empty());
        assert(key_idx(o2, Seq::empty()) == 0);
        assert(val_of(o2, Seq::empty()) == TreeV::Obj(fields));
    }
}

/// One step of the rebuild of a scalar array: inserting element `i`'s entry
/// re-enters the root's empty key, then the array's key, and appends the
/// element to the array built so far.
pub proof fn lemma_unfl_array_scalars(k: Seq<char>, elems: Seq<TreeV>, i: int)
    requires
        plain_key(k),
        1 <= i <= elems.len(),
    ensures
        unfl_entries(
            TreeV::Obj(
                seq![(Seq::<char>::empty(), TreeV::Obj(seq![(k, TreeV::Arr(elems.take(i)))]))],
            ),
            arr_entries(k, elems),
            i,
        ) == Ok::<TreeV, Error>(
            TreeV::Obj(seq![(Seq::<char>::empty(), TreeV::Obj(seq![(k, TreeV::Arr(elems))]))]),
        ),
    decreases elems.len() - i,
{
    let entries = arr_entries(k, elems);
    if i < elems.len() {
        let built = elems.take(i);
        let inner = seq![(k, TreeV::Arr(built))];
        let o = seq![(Seq::<char>::empty(), TreeV::Obj(inner))];
        let root = TreeV::Obj(o);
        let e = elems[i];
        assert(entries[i] == (idx_path(k, i), e));
        lemma_parse_idx_path(k, i);
        let segs = seq![SegV::Key(k), SegV::Idx(dec_str(i as nat))];
        assert(parse_path(idx_path(k, i)) == Some(segs));
        assert(segs[0] == SegV::Key(k));
        let segs1 = segs.drop_first();
        assert(segs1.len() == 1 && segs1[0] == SegV::Idx(dec_str(i as nat)));
        let segs2 = segs1.drop_first();
        assert(segs2 =~= Seq::<SegV>::empty());
        assert(o[0].0 == Seq::<char>::empty());
        assert(key_idx(o, Seq::empty()) == 0);
        assert(inner[0].0 == k);
        assert(key_idx(inner, k) == 0);
        assert(ins(TreeV::Arr(built), SegV::Idx(dec_str(i as nat)), segs2, e) == Ok::<
            TreeV,
            Error,
        >(TreeV::Arr(built.push(e))));
        assert(built.push(e) =~= elems.take(i + 1));
        let inner2 = seq![(k, TreeV::Arr(elems.take(i + 1)))];
        assert(ins(TreeV::Obj(inner), SegV::Key(k), segs1, e) == Ok::<TreeV, Error>(
            TreeV::Obj(inner.update(0, (inner[0].0, TreeV::Arr(elems.take(i + 1))))),
        ));
        assert(inner.update(0, (inner[0].0, TreeV::Arr(elems.take(i + 1)))) =~= inner2);
        let o2 = seq![(Seq::<char>::empty(), TreeV::Obj(inner2))];
        assert(ins(root, SegV::Key(Seq::empty()), segs, e) == Ok::<TreeV, Error>(
            TreeV::Obj(o.update(0, (o[0].0, TreeV::Obj(inner2)))),
        ));
        assert(o.update(0, (o[0].0, TreeV::Obj(inner2))) =~= o2);
        lemma_unfl_array_scalars(k, elems, i + 1);
    } else {
        assert(elems.take(i) =~= elems);
    }
}

/// Array ordering both ways, and the round trip for one scalar array:
/// flattening an object that holds one array of scalars yields exactly the
/// indexed paths in element order, and unflattening that map rebuilds the
/// array in index order.
pub proof fn lemma_scalar_array_round_trip(k: Seq<char>, elems: Seq<TreeV>)
    requires
        plain_key(k),
        elems.len() > 0,
        forall|j: int| 0 <= j < elems.len() ==> !is_container(#[trigger] elems[j]),
    ensures
        flatten_spec(TreeV::Obj(seq![(k, TreeV::Arr(elems))])) == Ok::<EntriesV, Error>(
            arr_entries(k, elems),
        ),
        unflatten_spec(arr_entries(k, elems)) == Ok::<TreeV, Error>(
            TreeV::Obj(seq![(k, TreeV::Arr(elems))]),
        ),
{
    lemma_array_field_flatten(k, elems);
    let entries = arr_entries(k, elems);
    assert(entries.len() == elems.len());
    let e = elems[0];
    assert(entries[0] == (idx_path(k, 0), e));
    lemma_parse_idx_path(k, 0);
    let segs = seq![SegV::Key(k), SegV::Idx(dec_str(0 as nat))];
    assert(parse_path(idx_path(k, 0)) == Some(segs));
    assert(segs[0] == SegV::Key(k));
    let segs1 = segs.drop_first();
    assert(segs1.len() == 1 && segs1[0] == SegV::Idx(dec_str(0 as nat)));
    let segs2 = segs1.drop_first();
    assert(segs2 =~= Seq::<SegV>::empty());
    let empty_o: EntriesV = Seq::empty();
    assert(key_idx(empty_o, Seq::empty()) == -1);
    assert(key_idx(empty_o, k) == -1);
    assert(ins(TreeV::Arr(Seq::empty()), SegV::Idx(dec_str(0 as nat)), segs2, e) == Ok::<
        TreeV,
        Error,
    >(TreeV::Arr(Seq::<TreeV>::empty().push(e))));
    assert(Seq::<TreeV>::empty().push(e) =~= elems.take(1));
    let inner1 = seq![(k, TreeV::Arr(elems.take(1)))];
    assert(ins(TreeV::Obj(empty_o), SegV::Key(k), segs1, e) == Ok::<TreeV, Error>(
        TreeV::Obj(empty_o.push((k, TreeV::Arr(elems.take(1))))),
    ));
    assert(empty_o.push((k, TreeV::Arr(elems.take(1)))) =~= inner1);
    let o1 = seq![(Seq::<char>::empty(), TreeV::Obj(inner1))];
    assert(ins(TreeV::Obj(empty_o), SegV::Key(Seq::empty()), segs, e) == Ok::<TreeV, Error>(
        TreeV::Obj(empty_o.push((Seq::<char>::empty(), TreeV::Obj(inner1)))),
    ));
    assert(empty_o.push((Seq::<char>::empty(), TreeV::Obj(inner1))) =~= o1);
    lemma_unfl_array_scalars(k, elems, 1);
    assert(unfl_entries(TreeV::Obj(Seq::empty()), entries, 0) == Ok::<TreeV, Error>(
        TreeV::Obj(seq![(Seq::<char>::empty(), TreeV::Obj(seq![(k, TreeV::Arr(elems))]))]),
    ));
    let o2 = seq![(Seq::<char>::empty(), TreeV::Obj(seq![(k, TreeV::Arr(elems))]))];
    assert(o2[0].0 == Seq::<char>::empty());
    assert(key_idx(o2, Seq::empty()) == 0);
    assert(val_of(o2, Seq::empty()) == TreeV::Obj(seq![(k, TreeV::Arr(elems))]));
}

/// Inserts `leaf` into `node` along `segs[at..]`, mirroring [`ins`].
#[verifier::loop_isolation(false)]
fn insert_value(node: Value, acting: &Segment, segs: &Vec<Segment>, at: usize, leaf: Value) -> (r:
    Result<Value, Error>)
    requires
        at <= segs.len(),
    ensures
        match r {
            Ok(v) => ins(dv(node), acting.deep_view(), segs_dv(segs@).skip(at as int), dv(leaf))
                == Ok::<TreeV, Error>(dv(v)),
            Err(e) => ins(dv(node), acting.deep_view(), segs_dv(segs@).skip(at as int), dv(leaf))
                == Err::<TreeV, Error>(e),
        },
    decreases segs.len() - at,
{
    let ghost rem = segs_dv(segs@).skip(at as int);
    let ghost node0 = dv(node);
    let ghost leaf0 = dv(leaf);
    if at == segs.len() {
        proof {
            assert(rem =~= Seq::<SegV>::empty());
        }
        match node {
            Value::Array(mut a) => {
                let ghost a0 = a@;
                a.push(leaf);
                proof {
                    lemma_dv_seq_push(a0, leaf);
                    assert(node0 == TreeV::Arr(dv_seq(a0)));
                }
                Ok(Value::Array(a))
            },
            Value::Object(mut o) => {
                let ghost ov = dv_fields_seq(o@);
                let k = seg_key(acting);
                proof {
                    assert(node0 == TreeV::Obj(ov));
                }
                match find_key(&o, k) {
                    Some(j) => {
                        let ghost pre = o@;
                        proof {
                            lemma_key_idx_props(ov, k@);
                        }
                        let (k0, old_child) = o.remove(j);
                        o.insert(j, (k0, leaf));
                        proof {
                            assert(k0@ == k@);
                            assert(o@ =~= pre.update(j as int, (k0, leaf)));
                            lemma_dv_fields_seq_update(pre, j as int, (k0, leaf));
                            assert(dv_fields_seq(o@) =~= obj_upsert(ov, k@, leaf0));
                        }
                        Ok(Value::Object(o))
                    },
                    None => {
                        let ghost pre = o@;
                        let kc = k.clone();
                        let ghost pairg = (kc, leaf);
                        o.push((kc, leaf));
                        proof {
                            lemma_dv_fields_seq_push(pre, pairg);
                            assert(dv_fields_seq(o@) =~= obj_upsert(ov, k@, leaf0));
                        }
                        Ok(Value::Object(o))
                    },
                }
            },
            _ => Err(Error::InvalidType),
        }
    } else {
        let next = &segs[at];
        let ghost nextv = next.deep_view();
        proof {
            assert(segs_dv(segs@)[at as int] == segs@[at as int].deep_view());
            assert(rem[0] == nextv);
            assert(rem.drop_first() =~= segs_dv(segs@).skip(at as int + 1));
        }
        match node {
            Value::Array(mut a) => {
                let ghost av = dv_seq(a@);
                proof {
                    assert(node0 == TreeV::Arr(av));
                }
                let k = seg_key(acting);
                let idx = match parse_index(k) {
                    Err(e) => {
                        return Err(e);
                    },
                    Ok(n) => n,
                };
                if idx < a.len() {
                    let ghost pre = a@;
                    let child = a.remove(idx);
                    match insert_value(child, next, segs, at + 1, leaf) {
                        Err(e) => Err(e),
                        Ok(c) => {
                            a.insert(idx, c);
                            proof {
                                assert(a@ =~= pre.update(idx as int, c));
                                lemma_dv_seq_update(pre, idx as int, c);
                            }
                            Ok(Value::Array(a))
                        },
                    }
                } else if idx == a.len() {
                    let child0: Value = match next {
                        Segment::Idx(_) => Value::Array(Vec::new()),
                        Segment::Key(_) => Value::Object(Vec::new()),
                    };
                    proof {
                        if nextv is Idx {
                            assert(dv(child0) == TreeV::Arr(dv_seq(Seq::empty())));
                            assert(dv_seq(Seq::<Value>::empty()) =~= Seq::<TreeV>::empty());
                        } else {
                            assert(dv(child0) == TreeV::Obj(dv_fields_seq(Seq::empty())));
                            assert(dv_fields_seq(Seq::<(String, Value)>::empty())
                                =~= Seq::<(Seq<char>, TreeV)>::empty());
                        }
                    }
                    match insert_value(child0, next, segs, at + 1, leaf) {
                        Err(e) => Err(e),
                        Ok(c) => {
                            let ghost pre = a@;
                            a.push(c);
                            proof {
                                lemma_dv_seq_push(pre, c);
                            }
                            Ok(Value::Array(a))
                        },
                    }
                } else {
                    Err(Error::FormatError)
                }
            },
            Value::Object(mut o) => {
                let ghost ov = dv_fields_seq(o@);
                proof {
                    assert(node0 == TreeV::Obj(ov));
                }
                let k = seg_key(acting);
                match find_key(&o, k) {
                    Some(j) => {
                        let ghost pre = o@;
                        proof {
                            lemma_key_idx_props(ov, k@);
                        }
                        let (k0, child) = o.remove(j);
                        match insert_value(child, next, segs, at + 1, leaf) {
                            Err(e) => Err(e),
                            Ok(c) => {
                                o.insert(j, (k0, c));
                                proof {
                                    assert(o@ =~= pre.update(j as int, (pre[j as int].0, c)));
                                    lemma_dv_fields_seq_update(
                                        pre,
                                        j as int,
                                        (pre[j as int].0, c),
                                    );
                                }
                                Ok(Value::Object(o))
                            },
                        }
                    },
                    None => {
                        let child0: Value = match next {
                            Segment::Idx(_) => Value::Array(Vec::new()),
                            Segment::Key(_) => Value::Object(Vec::new()),
                        };
                        proof {
                            if nextv is Idx {
                                assert(dv(child0) == TreeV::Arr(dv_seq(Seq::empty())));
                                assert(dv_seq(Seq::<Value>::empty()) =~= Seq::<TreeV>::empty());
                            } else {
                                assert(dv(child0) == TreeV::Obj(dv_fields_seq(Seq::empty())));
                                assert(dv_fields_seq(Seq::<(String, Value)>::empty())
                                    =~= Seq::<(Seq<char>, TreeV)>::empty());
                            }
                        }
                        match insert_value(child0, next, segs, at + 1, leaf) {
                            Err(e) => Err(e),
                            Ok(c) => {
                                let ghost pre = o@;
                                let kc = k.clone();
                                let ghost pairg = (kc, c);
                                o.push((kc, c));
                                proof {
                                    lemma_dv_fields_seq_push(pre, pairg);
                                }
                                Ok(Value::Object(o))
                            },
                        }
                    },
                }
            },
            _ => Err(Error::InvalidType),
        }
    }
}

/// Rebuilds a tree from a flat map.
///
/// Each path is tokenized by the grammar (`InvalidProperty` if and only if
/// one does not match it, taking the entries in order), and its leaf is
/// inserted along the parsed segments; the container type at each new
/// position is fixed by the first path that reaches it. The empty map gives
/// the empty object.
#[verifier::loop_isolation(false)]
pub fn unflatten(data: &Vec<(String, Value)>) -> (r: Result<Value, Error>)
    ensures
        match r {
            Ok(v) => unflatten_spec(dv_fields(*data)) == Ok::<TreeV, Error>(dv(v)),
            Err(e) => unflatten_spec(dv_fields(*data)) == Err::<TreeV, Error>(e),
        },
{
    let ghost dm = dv_fields(*data);
    if data.len() == 0 {
        let out: Vec<(String, Value)> = Vec::new();
        proof {
            assert(dv_fields_seq(out@) =~= Seq::<(Seq<char>, TreeV)>::empty());
        }
        return Ok(Value::Object(out));
    }
    let mut root = Value::Object(Vec::<(String, Value)>::new());
    let root_seg = Segment::Key(String::new());
    proof {
        assert(dv_fields_seq(Seq::<(String, Value)>::empty()) =~= Seq::<(Seq<char>, TreeV)>::empty());
        assert(dv(root) == TreeV::Obj(Seq::empty()));
        assert(root_seg.deep_view() == SegV::Key(Seq::<char>::empty()));
    }
    let mut i: usize = 0;
    while i < data.len()
        invariant
            i <= data.len(),
            unfl_entries(TreeV::Obj(Seq::empty()), dm, 0) == unfl_entries(dv(root), dm, i as int),
        decreases data.len() - i,
    {
        let ghost root_pre = dv(root);
        let entry = &data[i];
        let path = &entry.0;
        let leaf = entry.1.clone();
        proof {
            assert(dm[i as int] == dv_pair(data@[i as int]));
            assert(dm[i as int].0 == path@);
            assert(dm[i as int].1 == dv(leaf));
        }
        let segs = match tokenize(path) {
            Err(e) => {
                proof {
                    assert(unfl_entries(root_pre, dm, i as int) == Err::<TreeV, Error>(e));
                }
                return Err(e);
            },
            Ok(s) => s,
        };
        proof {
            assert(segs_dv(segs@).skip(0) =~= segs_dv(segs@));
        }
        match insert_value(root, &root_seg, &segs, 0, leaf) {
            Err(e) => {
                proof {
                    assert(unfl_entries(root_pre, dm, i as int) == Err::<TreeV, Error>(e));
                }
                return Err(e);
            },
            Ok(r2) => {
                root = r2;
                proof {
                    assert(unfl_entries(root_pre, dm, i as int) == unfl_entries(
                        dv(root),
                        dm,
                        i as int + 1,
                    ));
                }
                i += 1;
            },
        }
    }
    proof {
        assert(unfl_entries(TreeV::Obj(Seq::empty()), dm, 0) == Ok::<TreeV, Error>(dv(root)));
    }
    match root {
        Value::Object(mut o) => {
            let ghost ov = dv_fields_seq(o@);
            let empty_key = String::new();
            match find_key(&o, &empty_key) {
                Some(j) => {
                    proof {
                        lemma_key_idx_props(ov, Seq::empty());
                    }
                    let (_k0, v) = o.remove(j);
                    proof {
                        assert(dv(v) == val_of(ov, Seq::empty()));
                    }
                    Ok(v)
                },
                None => Err(Error::InvalidProperty),
            }
        },
        _ => Err(Error::InvalidProperty),
    }
}

} // verus!
