//! The value model: the tagged union of renderable data, and its
//! mathematical view.

use vstd::prelude::*;

verus! {

broadcast use vstd::std_specs::vec::group_vec_axioms, vstd::seq::group_seq_axioms;

/// Mathematical view of a `Data` value.
///
/// A map is viewed as a finite map from key to value; when an
/// association list holds a key twice, the earliest entry wins, which is
/// also how lookup behaves. A lambda has no observable value, so all
/// lambdas share the single view `Fun`.
pub ghost enum DataV {
    Str(Seq<char>),
    Bool(bool),
    List(Seq<DataV>),
    MapV(Map<Seq<char>, DataV>),
    Fun,
}

/// A mutable callable value: it receives the literal template text
/// enclosed by the tag that invoked it and returns replacement text,
/// which the renderer re-parses. It may carry caller-owned mutable
/// state (for example a counter), so two calls on equal arguments may
/// differ; nothing is assumed about its result.
#[verifier::external_body]
pub struct FunBox {
    f: std::cell::RefCell<Box<dyn FnMut(String) -> String + Send>>,
}

impl FunBox {
    /// Relies on `Box::new` and `RefCell::new` from std: wraps a
    /// caller-supplied closure so it can be stored inside a `Data` tree.
    #[verifier::external_body]
    pub fn from_fn<F: FnMut(String) -> String + Send + 'static>(f: F) -> FunBox {
        FunBox { f: std::cell::RefCell::new(Box::new(f)) }
    }

    /// Relies on `RefCell::borrow_mut` from std: invokes the stored
    /// closure with exclusive access. The result depends on the
    /// closure's own state, so no ensures can be given.
    #[verifier::external_body]
    pub fn invoke(&self, text: String) -> String {
        let f = &mut *self.f.borrow_mut();
        f(text)
    }
}

/// A renderable value: a string, a boolean, a sequence, a mapping from
/// names to values (an association list whose earliest entry for a key
/// wins), or a callable lambda.
pub enum Data {
    StrVal(String),
    Bool(bool),
    VecVal(Vec<Data>),
    MapVal(Vec<(String, Data)>),
    Fun(FunBox),
}

/// The view of an association list as a finite map: the earliest entry
/// for a key shadows later ones, matching lookup order.
pub open spec fn assoc_view<V>(entries: Seq<(Seq<char>, V)>) -> Map<Seq<char>, V>
    decreases entries.len(),
{
    if entries.len() == 0 {
        Map::empty()
    } else {
        assoc_view(entries.subrange(1, entries.len() as int)).insert(entries[0].0, entries[0].1)
    }
}

/// The earliest entry of the association list holding the key, if any.
pub open spec fn assoc_find<V>(entries: Seq<(Seq<char>, V)>, key: Seq<char>) -> Option<V>
    decreases entries.len(),
{
    if entries.len() == 0 {
        Option::None
    } else if entries[0].0 == key {
        Option::Some(entries[0].1)
    } else {
        assoc_find(entries.subrange(1, entries.len() as int), key)
    }
}

/// Finding the earliest entry is looking the key up in the map view.
pub proof fn lemma_assoc_find<V>(entries: Seq<(Seq<char>, V)>, key: Seq<char>)
    ensures
        match assoc_find(entries, key) {
            Option::Some(v) => assoc_view(entries).dom().contains(key) && assoc_view(entries)[key]
                == v,
            Option::None => !assoc_view(entries).dom().contains(key),
        },
    decreases entries.len(),
{
    if entries.len() > 0 {
        lemma_assoc_find(entries.subrange(1, entries.len() as int), key);
    }
}

/// The view of a `Data` value, reached structurally.
pub open spec fn data_view(d: Data) -> DataV
    decreases d,
    via data_view_dec
{
    match d {
        Data::StrVal(s) => DataV::Str(s@),
        Data::Bool(b) => DataV::Bool(b),
        Data::VecVal(v) => DataV::List(seq_data_view(v@)),
        Data::MapVal(m) => DataV::MapV(assoc_view(entries_view(m@))),
        Data::Fun(_) => DataV::Fun,
    }
}

/// The element-wise view of a sequence of values.
pub open spec fn seq_data_view(s: Seq<Data>) -> Seq<DataV>
    decreases s,
    via seq_data_view_dec
{
    if s.len() == 0 {
        Seq::empty()
    } else {
        seq_data_view(s.drop_last()).push(data_view(s.last()))
    }
}

/// The pair-wise view of a sequence of map entries.
pub open spec fn entries_view(es: Seq<(String, Data)>) -> Seq<(Seq<char>, DataV)>
    decreases es,
    via entries_view_dec
{
    if es.len() == 0 {
        Seq::empty()
    } else {
        entries_view(es.drop_last()).push((es.last().0@, data_view(es.last().1)))
    }
}

#[via_fn]
proof fn data_view_dec(d: Data) {
    match d {
        Data::VecVal(v) => {
            assert(decreases_to!(d => d->VecVal_0));
            assert(decreases_to!(v => v@));
            assert(decreases_to!(d => v@));
        }
        Data::MapVal(m) => {
            assert(decreases_to!(d => d->MapVal_0));
            assert(decreases_to!(m => m@));
            assert(decreases_to!(d => m@));
        }
        _ => {}
    }
}

#[via_fn]
proof fn seq_data_view_dec(s: Seq<Data>) {
    if s.len() > 0 {
        assert(decreases_to!(s => s[s.len() - 1]));
    }
}

#[via_fn]
proof fn entries_view_dec(es: Seq<(String, Data)>) {
    if es.len() > 0 {
        let i = es.len() - 1;
        assert(decreases_to!(es => es[i]));
        assert(decreases_to!(es[i] => es[i].1));
        assert(decreases_to!(es => es[i].1));
    }
}

/// Holds when a value contains no lambda anywhere: only for such values
/// is the rendered output a function of the value alone.
pub open spec fn fun_free(d: DataV) -> bool
    decreases d,
{
    match d {
        DataV::Str(_) => true,
        DataV::Bool(_) => true,
        DataV::List(vs) => forall|i: int| 0 <= i < vs.len() ==> fun_free(#[trigger] vs[i]),
        DataV::MapV(m) => forall|k: Seq<char>| m.dom().contains(k) ==> fun_free(#[trigger] m[k]),
        DataV::Fun => false,
    }
}

/// A lambda-free list value has lambda-free elements.
pub proof fn lemma_fun_free_list_elem(d: DataV, i: int)
    requires
        fun_free(d),
        d is List,
        0 <= i < d->List_0.len(),
    ensures
        fun_free(d->List_0[i]),
{
    match d {
        DataV::List(vs) => {
            assert(fun_free(vs[i]));
        },
        _ => {},
    }
}

} // verus!

verus! {

/// The entry views are element-wise.
pub proof fn lemma_entries_view_index(es: Seq<(String, Data)>, i: int)
    requires
        0 <= i < es.len(),
    ensures
        entries_view(es).len() == es.len(),
        entries_view(es)[i] == (es[i].0@, data_view(es[i].1)),
    decreases es.len(),
{
    lemma_entries_view_len(es);
    if es.len() > 0 && i < es.len() - 1 {
        lemma_entries_view_index(es.drop_last(), i);
    }
}

/// The entry views keep the length.
pub proof fn lemma_entries_view_len(es: Seq<(String, Data)>)
    ensures
        entries_view(es).len() == es.len(),
    decreases es.len(),
{
    if es.len() > 0 {
        lemma_entries_view_len(es.drop_last());
    }
}

/// Appending one entry appends its view.
pub proof fn lemma_entries_view_push(es: Seq<(String, Data)>, e: (String, Data))
    ensures
        entries_view(es.push(e)) == entries_view(es).push((e.0@, data_view(e.1))),
{
    assert(es.push(e).drop_last() =~= es);
    assert(es.push(e).last() == e);
}

/// The element views are element-wise.
pub proof fn lemma_seq_data_view_index(s: Seq<Data>, i: int)
    requires
        0 <= i < s.len(),
    ensures
        seq_data_view(s).len() == s.len(),
        seq_data_view(s)[i] == data_view(s[i]),
    decreases s.len(),
{
    lemma_seq_data_view_len(s);
    if s.len() > 0 && i < s.len() - 1 {
        lemma_seq_data_view_index(s.drop_last(), i);
    }
}

/// The element views keep the length.
pub proof fn lemma_seq_data_view_len(s: Seq<Data>)
    ensures
        seq_data_view(s).len() == s.len(),
    decreases s.len(),
{
    if s.len() > 0 {
        lemma_seq_data_view_len(s.drop_last());
    }
}

/// Appending one element appends its view.
pub proof fn lemma_seq_data_view_push(s: Seq<Data>, d: Data)
    ensures
        seq_data_view(s.push(d)) == seq_data_view(s).push(data_view(d)),
{
    assert(s.push(d).drop_last() =~= s);
    assert(s.push(d).last() == d);
}

} // verus!

verus! {

/// Structural comparison of two values: strings, booleans, lists and
/// maps compare field by field and entry by entry; comparing two
/// lambdas has no answer, which `None` signals loudly. A lambda never
/// equals a value of another kind.
pub open spec fn data_cmp(a: Data, b: Data) -> Option<bool>
    decreases a,
    via data_cmp_dec
{
    match (a, b) {
        (Data::StrVal(x), Data::StrVal(y)) => Option::Some(x@ == y@),
        (Data::Bool(x), Data::Bool(y)) => Option::Some(x == y),
        (Data::VecVal(x), Data::VecVal(y)) => seq_data_cmp(x@, y@),
        (Data::MapVal(x), Data::MapVal(y)) => entries_cmp(x@, y@),
        (Data::Fun(_), Data::Fun(_)) => Option::None,
        _ => Option::Some(false),
    }
}

/// Element-wise comparison, first difference or first lambda pair
/// deciding.
pub open spec fn seq_data_cmp(x: Seq<Data>, y: Seq<Data>) -> Option<bool>
    decreases x,
    via seq_data_cmp_dec
{
    if x.len() != y.len() {
        Option::Some(false)
    } else if x.len() == 0 {
        Option::Some(true)
    } else {
        match data_cmp(x[0], y[0]) {
            Option::None => Option::None,
            Option::Some(false) => Option::Some(false),
            Option::Some(true) => seq_data_cmp(x.drop_first(), y.drop_first()),
        }
    }
}

/// Entry-wise comparison of two association lists, keys and values in
/// order.
pub open spec fn entries_cmp(x: Seq<(String, Data)>, y: Seq<(String, Data)>) -> Option<bool>
    decreases x,
    via entries_cmp_dec
{
    if x.len() != y.len() {
        Option::Some(false)
    } else if x.len() == 0 {
        Option::Some(true)
    } else if x[0].0@ != y[0].0@ {
        Option::Some(false)
    } else {
        match data_cmp(x[0].1, y[0].1) {
            Option::None => Option::None,
            Option::Some(false) => Option::Some(false),
            Option::Some(true) => entries_cmp(x.drop_first(), y.drop_first()),
        }
    }
}

#[via_fn]
proof fn data_cmp_dec(a: Data, b: Data) {
    match a {
        Data::VecVal(v) => {
            assert(decreases_to!(a => a->VecVal_0));
            assert(decreases_to!(v => v@));
            assert(decreases_to!(a => v@));
        },
        Data::MapVal(m) => {
            assert(decreases_to!(a => a->MapVal_0));
            assert(decreases_to!(m => m@));
            assert(decreases_to!(a => m@));
        },
        _ => {},
    }
}

#[via_fn]
proof fn seq_data_cmp_dec(x: Seq<Data>, y: Seq<Data>) {
    if x.len() == y.len() && x.len() > 0 {
        assert(decreases_to!(x => x[0]));
        assert(decreases_to!(x => x.drop_first()));
    }
}

#[via_fn]
proof fn entries_cmp_dec(x: Seq<(String, Data)>, y: Seq<(String, Data)>) {
    if x.len() == y.len() && x.len() > 0 {
        assert(decreases_to!(x => x[0]));
        assert(decreases_to!(x[0] => x[0].1));
        assert(decreases_to!(x => x[0].1));
        assert(decreases_to!(x => x.drop_first()));
    }
}

/// Whether two values are structurally equal. `None` signals that two
/// lambdas stood face to face: lambdas cannot be compared, and the
/// caller must treat that as a programming error rather than read any
/// equality out of it.
pub fn data_eq(a: &Data, b: &Data) -> (r: Option<bool>)
    ensures
        r == data_cmp(*a, *b),
    decreases *a,
{
    match (a, b) {
        (Data::StrVal(x), Data::StrVal(y)) => Option::Some(crate::text::str_eq(
            x.as_str(),
            y.as_str(),
        )),
        (Data::Bool(x), Data::Bool(y)) => Option::Some(*x == *y),
        (Data::VecVal(x), Data::VecVal(y)) => {
            if x.len() != y.len() {
                return Option::Some(false);
            }
            let len = x.len();
            let mut i: usize = 0;
            proof {
                assert(x@.skip(0) =~= x@);
                assert(y@.skip(0) =~= y@);
            }
            #[verifier::loop_isolation(false)]
            while i < len
                invariant
                    0 <= i <= len,
                    len == x@.len() && len == y@.len(),
                    seq_data_cmp(x@, y@) == seq_data_cmp(x@.skip(i as int), y@.skip(i as int)),
                decreases len - i,
            {
                proof {
                    assert(x@.skip(i as int)[0] == x@[i as int]);
                    assert(y@.skip(i as int)[0] == y@[i as int]);
                    assert(x@.skip(i as int).drop_first() =~= x@.skip(i + 1 as int));
                    assert(y@.skip(i as int).drop_first() =~= y@.skip(i + 1 as int));
                    assert(decreases_to!(x => x@));
                    assert(decreases_to!(x@ => x@[i as int]));
                }
                match data_eq(&x[i], &y[i]) {
                    Option::None => {
                        return Option::None;
                    },
                    Option::Some(false) => {
                        return Option::Some(false);
                    },
                    Option::Some(true) => {},
                }
                i = i + 1;
            }
            proof {
                assert(x@.skip(len as int) =~= Seq::<Data>::empty());
                assert(y@.skip(len as int) =~= Seq::<Data>::empty());
            }
            Option::Some(true)
        },
        (Data::MapVal(x), Data::MapVal(y)) => {
            if x.len() != y.len() {
                return Option::Some(false);
            }
            let len = x.len();
            let mut i: usize = 0;
            proof {
                assert(x@.skip(0) =~= x@);
                assert(y@.skip(0) =~= y@);
            }
            #[verifier::loop_isolation(false)]
            while i < len
                invariant
                    0 <= i <= len,
                    len == x@.len() && len == y@.len(),
                    entries_cmp(x@, y@) == entries_cmp(x@.skip(i as int), y@.skip(i as int)),
                decreases len - i,
            {
                proof {
                    assert(x@.skip(i as int)[0] == x@[i as int]);
                    assert(y@.skip(i as int)[0] == y@[i as int]);
                    assert(x@.skip(i as int).drop_first() =~= x@.skip(i + 1 as int));
                    assert(y@.skip(i as int).drop_first() =~= y@.skip(i + 1 as int));
                    assert(decreases_to!(x => x@));
                    assert(decreases_to!(x@ => x@[i as int]));
                    assert(decreases_to!(x@[i as int] => x@[i as int].1));
                }
                if !crate::text::str_eq(x[i].0.as_str(), y[i].0.as_str()) {
                    return Option::Some(false);
                }
                match data_eq(&x[i].1, &y[i].1) {
                    Option::None => {
                        return Option::None;
                    },
                    Option::Some(false) => {
                        return Option::Some(false);
                    },
                    Option::Some(true) => {},
                }
                i = i + 1;
            }
            proof {
                assert(x@.skip(len as int) =~= Seq::<(String, Data)>::empty());
                assert(y@.skip(len as int) =~= Seq::<(String, Data)>::empty());
            }
            Option::Some(true)
        },
        (Data::Fun(_), Data::Fun(_)) => Option::None,
        _ => Option::Some(false),
    }
}

} // verus!

verus! {

/// Values that compare structurally equal have equal views: what
/// `data_eq` affirms is equality in the mathematical model.
pub proof fn lemma_data_cmp_eq(a: Data, b: Data)
    requires
        data_cmp(a, b) == Option::Some(true),
    ensures
        data_view(a) == data_view(b),
    decreases a,
{
    match (a, b) {
        (Data::VecVal(x), Data::VecVal(y)) => {
            assert(decreases_to!(a => a->VecVal_0));
            assert(decreases_to!(x => x@));
            assert(decreases_to!(a => x@));
            lemma_seq_data_cmp_eq(x@, y@);
        },
        (Data::MapVal(x), Data::MapVal(y)) => {
            assert(decreases_to!(a => a->MapVal_0));
            assert(decreases_to!(x => x@));
            assert(decreases_to!(a => x@));
            lemma_entries_cmp_eq(x@, y@);
        },
        _ => {},
    }
}

/// Sequences that compare structurally equal have equal views.
proof fn lemma_seq_data_cmp_eq(x: Seq<Data>, y: Seq<Data>)
    requires
        seq_data_cmp(x, y) == Option::Some(true),
    ensures
        seq_data_view(x) == seq_data_view(y),
    decreases x,
{
    if x.len() == 0 {
        assert(seq_data_view(x) =~= seq_data_view(y));
    } else {
        assert(decreases_to!(x => x[0]));
        assert(decreases_to!(x => x.drop_first()));
        lemma_data_cmp_eq(x[0], y[0]);
        lemma_seq_data_cmp_eq(x.drop_first(), y.drop_first());
        assert(seq_data_view(x) =~= seq_data_view(y)) by {
            lemma_seq_data_view_len(x);
            lemma_seq_data_view_len(y);
            assert forall|i: int| 0 <= i < x.len() implies seq_data_view(x)[i]
                == seq_data_view(y)[i] by {
                lemma_seq_data_view_index(x, i);
                lemma_seq_data_view_index(y, i);
                if i == 0 {
                } else {
                    lemma_seq_data_view_index(x.drop_first(), i - 1);
                    lemma_seq_data_view_index(y.drop_first(), i - 1);
                    assert(seq_data_view(x.drop_first())[i - 1] == seq_data_view(
                        y.drop_first(),
                    )[i - 1]);
                }
            }
        }
    }
}

/// Entry lists that compare structurally equal have equal map views.
proof fn lemma_entries_cmp_eq(x: Seq<(String, Data)>, y: Seq<(String, Data)>)
    requires
        entries_cmp(x, y) == Option::Some(true),
    ensures
        entries_view(x) == entries_view(y),
    decreases x,
{
    lemma_entries_view_len(x);
    lemma_entries_view_len(y);
    if x.len() == 0 {
        assert(entries_view(x) =~= entries_view(y));
    } else {
        assert(decreases_to!(x => x[0]));
        assert(decreases_to!(x[0] => x[0].1));
        assert(decreases_to!(x => x[0].1));
        assert(decreases_to!(x => x.drop_first()));
        lemma_data_cmp_eq(x[0].1, y[0].1);
        lemma_entries_cmp_eq(x.drop_first(), y.drop_first());
        assert(entries_view(x) =~= entries_view(y)) by {
            assert forall|i: int| 0 <= i < x.len() implies entries_view(x)[i] == entries_view(
                y,
            )[i] by {
                lemma_entries_view_index(x, i);
                lemma_entries_view_index(y, i);
                if i == 0 {
                } else {
                    lemma_entries_view_index(x.drop_first(), i - 1);
                    lemma_entries_view_index(y.drop_first(), i - 1);
                    assert(entries_view(x.drop_first())[i - 1] == entries_view(
                        y.drop_first(),
                    )[i - 1]);
                }
            }
        }
    }
}

} // verus!
