//! Fluent constructors for `Data` trees: maps and lists assembled by
//! hand, without going through the generic encoder.

use vstd::prelude::*;
use crate::data::{
    assoc_view, data_view, entries_view, lemma_entries_view_index, lemma_entries_view_len,
    lemma_entries_view_push, lemma_seq_data_view_push, seq_data_view, Data, DataV, FunBox,
};

verus! {

broadcast use vstd::std_specs::vec::group_vec_axioms, vstd::seq::group_seq_axioms;

/// No entry before `i` holds the key that entry `i` holds.
pub open spec fn first_occurrence(es: Seq<(Seq<char>, DataV)>, i: int) -> bool {
    forall|j: int| 0 <= j < i ==> (#[trigger] es[j]).0 != es[i].0
}

/// Overwriting the earliest entry of a key is inserting into the map
/// view.
proof fn lemma_assoc_view_update(es: Seq<(Seq<char>, DataV)>, i: int, v: DataV)
    requires
        0 <= i < es.len(),
        first_occurrence(es, i),
    ensures
        assoc_view(es.update(i, (es[i].0, v))) == assoc_view(es).insert(es[i].0, v),
    decreases i,
{
    let k = es[i].0;
    let es2 = es.update(i, (k, v));
    let tail = es.subrange(1, es.len() as int);
    if i == 0 {
        assert(es2.subrange(1, es2.len() as int) =~= tail);
        assert(assoc_view(es2) =~= assoc_view(es).insert(k, v));
    } else {
        let tail2 = es2.subrange(1, es2.len() as int);
        assert(tail2 =~= tail.update(i - 1, (k, v)));
        assert(tail[i - 1] == es[i]);
        assert(first_occurrence(tail, i - 1)) by {
            assert(forall|j: int| 0 <= j < i - 1 ==> (#[trigger] tail[j]) == es[j + 1]);
        }
        lemma_assoc_view_update(tail, i - 1, v);
        assert(es2[0] == es[0]);
        assert(es[0].0 != k);
        assert(assoc_view(es2) =~= assoc_view(es).insert(k, v));
    }
}

/// Appending an entry under a fresh key is inserting into the map
/// view.
proof fn lemma_assoc_view_push(es: Seq<(Seq<char>, DataV)>, k: Seq<char>, v: DataV)
    requires
        forall|j: int| 0 <= j < es.len() ==> (#[trigger] es[j]).0 != k,
    ensures
        assoc_view(es.push((k, v))) == assoc_view(es).insert(k, v),
    decreases es.len(),
{
    if es.len() == 0 {
        assert(es.push((k, v)).subrange(1, 1) =~= Seq::<(Seq<char>, DataV)>::empty());
        assert(assoc_view(Seq::<(Seq<char>, DataV)>::empty()) =~= Map::<Seq<char>, DataV>::empty());
        assert(assoc_view(es.push((k, v))) =~= assoc_view(es).insert(k, v));
    } else {
        let tail = es.subrange(1, es.len() as int);
        assert(es.push((k, v)).subrange(1, es.len() as int + 1) =~= tail.push((k, v)));
        assert(forall|j: int| 0 <= j < tail.len() ==> (#[trigger] tail[j]) == es[j + 1]);
        lemma_assoc_view_push(tail, k, v);
        assert(es[0].0 != k);
        assert(assoc_view(es.push((k, v))) =~= assoc_view(es).insert(k, v));
    }
}

/// Replace the earliest entry of `key`, or append one: the map view
/// afterwards is the old view with `key` bound to `value`.
pub(crate) fn upsert(entries: &mut Vec<(String, Data)>, key: String, value: Data)
    ensures
        assoc_view(entries_view(final(entries)@)) == assoc_view(
            entries_view(old(entries)@),
        ).insert(key@, data_view(value)),
{
    let ghost ev = entries_view(old(entries)@);
    proof {
        lemma_entries_view_len(old(entries)@);
    }
    let len = entries.len();
    let mut i: usize = 0;
    #[verifier::loop_isolation(false)]
    while i < len
        invariant
            0 <= i <= len,
            entries@ == old(entries)@,
            forall|j: int| 0 <= j < i ==> (#[trigger] ev[j]).0 != key@,
        decreases len - i,
    {
        proof {
            lemma_entries_view_index(entries@, i as int);
        }
        if crate::text::str_eq(entries[i].0.as_str(), key.as_str()) {
            proof {
                assert(ev[i as int].0 == key@);
                assert(first_occurrence(ev, i as int));
            }
            let ghost before = entries@;
            entries.set(i, (key, value));
            proof {
                assert(entries_view(entries@) =~= ev.update(i as int, (key@, data_view(value))))
                    by {
                    lemma_entries_view_len(entries@);
                    assert forall|j: int| 0 <= j < entries@.len() implies entries_view(
                        entries@,
                    )[j] == ev.update(i as int, (key@, data_view(value)))[j] by {
                        lemma_entries_view_index(entries@, j);
                        if j != i {
                            lemma_entries_view_index(before, j);
                        }
                    }
                }
                assert((key@, data_view(value)) == (ev[i as int].0, data_view(value)));
                lemma_assoc_view_update(ev, i as int, data_view(value));
            }
            return ;
        }
        i = i + 1;
    }
    let ghost before = entries@;
    entries.push((key, value));
    proof {
        lemma_entries_view_push(before, (key, value));
        lemma_assoc_view_push(ev, key@, data_view(value));
    }
}

/// `MapBuilder` assembles a map value entry by entry.
pub struct MapBuilder {
    data: Vec<(String, Data)>,
}

impl MapBuilder {
    /// The map view assembled so far.
    pub closed spec fn mv(&self) -> Map<Seq<char>, DataV> {
        assoc_view(entries_view(self.data@))
    }

    /// An empty map builder.
    pub fn new() -> (r: MapBuilder)
        ensures
            r.mv() == Map::<Seq<char>, DataV>::empty(),
    {
        let r = MapBuilder { data: Vec::new() };
        proof {
            assert(entries_view(r.data@) =~= Seq::<(Seq<char>, DataV)>::empty());
        }
        r
    }

    /// Add a string under `key`.
    pub fn insert_str(self, key: &str, value: &str) -> (r: MapBuilder)
        ensures
            r.mv() == self.mv().insert(key@, DataV::Str(value@)),
    {
        let mut data = self.data;
        upsert(&mut data, String::from_str(key), Data::StrVal(String::from_str(value)));
        MapBuilder { data }
    }

    /// Add a boolean under `key`.
    pub fn insert_bool(self, key: &str, value: bool) -> (r: MapBuilder)
        ensures
            r.mv() == self.mv().insert(key@, DataV::Bool(value)),
    {
        let mut data = self.data;
        upsert(&mut data, String::from_str(key), Data::Bool(value));
        MapBuilder { data }
    }

    /// Add an already built value under `key`.
    pub fn insert_value(self, key: &str, value: Data) -> (r: MapBuilder)
        ensures
            r.mv() == self.mv().insert(key@, data_view(value)),
    {
        let mut data = self.data;
        upsert(&mut data, String::from_str(key), value);
        MapBuilder { data }
    }

    /// Add a list under `key`, assembled by `f` from an empty list
    /// builder.
    pub fn insert_vec<F: FnOnce(VecBuilder) -> VecBuilder>(self, key: &str, f: F) -> (r:
        MapBuilder)
        requires
            forall|vb: VecBuilder| vb.lv() == Seq::<DataV>::empty() ==> call_requires(f, (vb,)),
        ensures
            exists|vb0: VecBuilder, vb1: VecBuilder|
                {
                    &&& vb0.lv() == Seq::<DataV>::empty()
                    &&& #[trigger] call_ensures(f, (vb0,), vb1)
                    &&& r.mv() == self.mv().insert(key@, DataV::List(vb1.lv()))
                },
    {
        let vb0 = VecBuilder::new();
        let ghost gvb0 = vb0;
        let vb1 = f(vb0);
        let mut data = self.data;
        upsert(&mut data, String::from_str(key), vb1.build());
        let r = MapBuilder { data };
        proof {
            assert(gvb0.lv() == Seq::<DataV>::empty() && call_ensures(f, (gvb0,), vb1)
                && r.mv() == self.mv().insert(key@, DataV::List(vb1.lv())));
        }
        r
    }

    /// Add a nested map under `key`, assembled by `f` from an empty
    /// map builder.
    pub fn insert_map<F: FnOnce(MapBuilder) -> MapBuilder>(self, key: &str, f: F) -> (r:
        MapBuilder)
        requires
            forall|mb: MapBuilder|
                mb.mv() == Map::<Seq<char>, DataV>::empty() ==> call_requires(f, (mb,)),
        ensures
            exists|mb0: MapBuilder, mb1: MapBuilder|
                {
                    &&& mb0.mv() == Map::<Seq<char>, DataV>::empty()
                    &&& #[trigger] call_ensures(f, (mb0,), mb1)
                    &&& r.mv() == self.mv().insert(key@, DataV::MapV(mb1.mv()))
                },
    {
        let mb0 = MapBuilder::new();
        let ghost gmb0 = mb0;
        let mb1 = f(mb0);
        let mut data = self.data;
        upsert(&mut data, String::from_str(key), mb1.build());
        let r = MapBuilder { data };
        proof {
            assert(gmb0.mv() == Map::<Seq<char>, DataV>::empty() && call_ensures(f, (gmb0,), mb1)
                && r.mv() == self.mv().insert(key@, DataV::MapV(mb1.mv())));
        }
        r
    }

    /// Add a lambda under `key`.
    pub fn insert_fn<F: FnMut(String) -> String + Send + 'static>(self, key: &str, f: F) -> (r:
        MapBuilder)
        ensures
            r.mv() == self.mv().insert(key@, DataV::Fun),
    {
        let mut data = self.data;
        upsert(&mut data, String::from_str(key), Data::Fun(FunBox::from_fn(f)));
        MapBuilder { data }
    }

    /// The built map value.
    pub fn build(self) -> (r: Data)
        ensures
            data_view(r) == DataV::MapV(self.mv()),
    {
        Data::MapVal(self.data)
    }
}

/// `VecBuilder` assembles a list value element by element.
pub struct VecBuilder {
    data: Vec<Data>,
}

impl VecBuilder {
    /// The list view assembled so far.
    pub closed spec fn lv(&self) -> Seq<DataV> {
        seq_data_view(self.data@)
    }

    /// An empty list builder.
    pub fn new() -> (r: VecBuilder)
        ensures
            r.lv() == Seq::<DataV>::empty(),
    {
        let r = VecBuilder { data: Vec::new() };
        proof {
            assert(seq_data_view(r.data@) =~= Seq::<DataV>::empty());
        }
        r
    }

    /// Append a string.
    pub fn push_str(self, value: &str) -> (r: VecBuilder)
        ensures
            r.lv() == self.lv().push(DataV::Str(value@)),
    {
        let mut data = self.data;
        let ghost before = data@;
        data.push(Data::StrVal(String::from_str(value)));
        proof {
            lemma_seq_data_view_push(before, data@.last());
        }
        VecBuilder { data }
    }

    /// Append a boolean.
    pub fn push_bool(self, value: bool) -> (r: VecBuilder)
        ensures
            r.lv() == self.lv().push(DataV::Bool(value)),
    {
        let mut data = self.data;
        let ghost before = data@;
        data.push(Data::Bool(value));
        proof {
            lemma_seq_data_view_push(before, data@.last());
        }
        VecBuilder { data }
    }

    /// Append an already built value.
    pub fn push_value(self, value: Data) -> (r: VecBuilder)
        ensures
            r.lv() == self.lv().push(data_view(value)),
    {
        let mut data = self.data;
        let ghost before = data@;
        let ghost vv = data_view(value);
        data.push(value);
        proof {
            lemma_seq_data_view_push(before, data@.last());
        }
        VecBuilder { data }
    }

    /// Append a list assembled by `f` from an empty list builder.
    pub fn push_vec<F: FnOnce(VecBuilder) -> VecBuilder>(self, f: F) -> (r: VecBuilder)
        requires
            forall|vb: VecBuilder| vb.lv() == Seq::<DataV>::empty() ==> call_requires(f, (vb,)),
        ensures
            exists|vb0: VecBuilder, vb1: VecBuilder|
                {
                    &&& vb0.lv() == Seq::<DataV>::empty()
                    &&& #[trigger] call_ensures(f, (vb0,), vb1)
                    &&& r.lv() == self.lv().push(DataV::List(vb1.lv()))
                },
    {
        let vb0 = VecBuilder::new();
        let ghost gvb0 = vb0;
        let vb1 = f(vb0);
        let ghost v1 = vb1.lv();
        let r = self.push_value(vb1.build());
        proof {
            assert(gvb0.lv() == Seq::<DataV>::empty() && call_ensures(f, (gvb0,), vb1) && r.lv()
                == self.lv().push(DataV::List(v1)));
        }
        r
    }

    /// Append a map assembled by `f` from an empty map builder.
    pub fn push_map<F: FnOnce(MapBuilder) -> MapBuilder>(self, f: F) -> (r: VecBuilder)
        requires
            forall|mb: MapBuilder|
                mb.mv() == Map::<Seq<char>, DataV>::empty() ==> call_requires(f, (mb,)),
        ensures
            exists|mb0: MapBuilder, mb1: MapBuilder|
                {
                    &&& mb0.mv() == Map::<Seq<char>, DataV>::empty()
                    &&& #[trigger] call_ensures(f, (mb0,), mb1)
                    &&& r.lv() == self.lv().push(DataV::MapV(mb1.mv()))
                },
    {
        let mb0 = MapBuilder::new();
        let ghost gmb0 = mb0;
        let mb1 = f(mb0);
        let ghost m1 = mb1.mv();
        let r = self.push_value(mb1.build());
        proof {
            assert(gmb0.mv() == Map::<Seq<char>, DataV>::empty() && call_ensures(f, (gmb0,), mb1)
                && r.lv() == self.lv().push(DataV::MapV(m1)));
        }
        r
    }

    /// Append a lambda.
    pub fn push_fn<F: FnMut(String) -> String + Send + 'static>(self, f: F) -> (r: VecBuilder)
        ensures
            r.lv() == self.lv().push(DataV::Fun),
    {
        let mut data = self.data;
        let ghost before = data@;
        data.push(Data::Fun(FunBox::from_fn(f)));
        proof {
            lemma_seq_data_view_push(before, data@.last());
        }
        VecBuilder { data }
    }

    /// The built list value.
    pub fn build(self) -> (r: Data)
        ensures
            data_view(r) == DataV::List(self.lv()),
    {
        Data::VecVal(self.data)
    }
}

} // verus!
