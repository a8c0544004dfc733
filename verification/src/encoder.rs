//! The generic-data encoder: a single-slot result stack onto which
//! primitive values, sequences and maps are emitted and merged, bottom
//! up, until exactly one `Data` value remains.
//!
//! The emitting caller drives these operations; each operation's
//! effect on the stack is stated exactly over the stack's view.

use vstd::prelude::*;
use crate::data::{
    assoc_view, data_view, entries_view, lemma_seq_data_view_push, seq_data_view, Data, DataV,
};

verus! {

broadcast use vstd::std_specs::vec::group_vec_axioms, vstd::seq::group_seq_axioms;

/// A failure of encoding: the value's shape is not renderable, or the
/// emission protocol was driven out of order.
#[derive(Clone, Copy, Debug, PartialEq, Eq, Structural)]
pub enum Error {
    /// The emitted shape has no place in the value model.
    UnsupportedType,
    /// Text was not valid for the value model.
    InvalidStr,
    /// A merge found nothing on the stack to merge.
    MissingElements,
    /// A map key was emitted as something other than a string.
    KeyIsNotString,
}

/// The result of one emission step.
pub type EncoderResult = Result<(), Error>;

/// The digit character of `n < 10`.
pub open spec fn dec_digit(n: nat) -> char {
    if n == 0 {
        '0'
    } else if n == 1 {
        '1'
    } else if n == 2 {
        '2'
    } else if n == 3 {
        '3'
    } else if n == 4 {
        '4'
    } else if n == 5 {
        '5'
    } else if n == 6 {
        '6'
    } else if n == 7 {
        '7'
    } else if n == 8 {
        '8'
    } else {
        '9'
    }
}

/// The decimal digits of `n`, most significant first.
pub open spec fn dec_str(n: nat) -> Seq<char>
    decreases n,
{
    if n < 10 {
        seq![dec_digit(n)]
    } else {
        dec_str(n / 10).push(dec_digit(n % 10))
    }
}

/// The decimal text of `i`, with a leading minus sign when negative.
pub open spec fn int_str(i: int) -> Seq<char> {
    if i < 0 {
        seq!['-'] + dec_str((-i) as nat)
    } else {
        dec_str(i as nat)
    }
}

/// Relies on the `Display` implementation of `u64`: the text is the
/// value's decimal digits, most significant first, and nothing else.
#[verifier::external_body]
fn u64_dec_str(v: u64) -> (r: String)
    ensures
        r@ == dec_str(v as nat),
{
    v.to_string()
}

/// Relies on the `Display` implementation of `i64`: the text is the
/// value's decimal digits, with a leading `-` when it is negative.
#[verifier::external_body]
fn i64_dec_str(v: i64) -> (r: String)
    ensures
        r@ == int_str(v as int),
{
    v.to_string()
}

/// `Encoder` holds the result stack. A complete, well-driven emission
/// leaves exactly one value on it.
pub struct Encoder {
    pub data: Vec<Data>,
}

impl Encoder {
    /// The view of the result stack.
    pub open spec fn sv(&self) -> Seq<DataV> {
        seq_data_view(self.data@)
    }

    /// An empty encoder.
    pub fn new() -> (r: Encoder)
        ensures
            r.sv() == Seq::<DataV>::empty(),
    {
        let r = Encoder { data: Vec::new() };
        proof {
            assert(seq_data_view(r.data@) =~= Seq::<DataV>::empty());
        }
        r
    }

    /// Push one finished value.
    fn push_value(&mut self, d: Data)
        ensures
            final(self).sv() == old(self).sv().push(data_view(d)),
    {
        let ghost before = self.data@;
        let ghost dv = data_view(d);
        self.data.push(d);
        proof {
            lemma_seq_data_view_push(before, self.data@.last());
        }
    }

    /// Nothing in the value model stands for nil.
    pub fn emit_nil(&mut self) -> (r: EncoderResult)
        ensures
            final(self).sv() == old(self).sv(),
            r == Result::<(), Error>::Err(Error::UnsupportedType),
    {
        Result::Err(Error::UnsupportedType)
    }

    /// Emit an unsigned number as its decimal text.
    pub fn emit_u64(&mut self, v: u64) -> (r: EncoderResult)
        ensures
            final(self).sv() == old(self).sv().push(DataV::Str(dec_str(v as nat))),
            r == Result::<(), Error>::Ok(()),
    {
        self.push_value(Data::StrVal(u64_dec_str(v)));
        Result::Ok(())
    }

    /// Emit an unsigned number as its decimal text.
    pub fn emit_usize(&mut self, v: usize) -> (r: EncoderResult)
        ensures
            final(self).sv() == old(self).sv().push(DataV::Str(dec_str(v as nat))),
            r == Result::<(), Error>::Ok(()),
    {
        self.emit_u64(v as u64)
    }

    /// Emit an unsigned number as its decimal text.
    pub fn emit_u32(&mut self, v: u32) -> (r: EncoderResult)
        ensures
            final(self).sv() == old(self).sv().push(DataV::Str(dec_str(v as nat))),
            r == Result::<(), Error>::Ok(()),
    {
        self.emit_u64(v as u64)
    }

    /// Emit an unsigned number as its decimal text.
    pub fn emit_u16(&mut self, v: u16) -> (r: EncoderResult)
        ensures
            final(self).sv() == old(self).sv().push(DataV::Str(dec_str(v as nat))),
            r == Result::<(), Error>::Ok(()),
    {
        self.emit_u64(v as u64)
    }

    /// Emit an unsigned number as its decimal text.
    pub fn emit_u8(&mut self, v: u8) -> (r: EncoderResult)
        ensures
            final(self).sv() == old(self).sv().push(DataV::Str(dec_str(v as nat))),
            r == Result::<(), Error>::Ok(()),
    {
        self.emit_u64(v as u64)
    }

    /// Emit a signed number as its decimal text.
    pub fn emit_i64(&mut self, v: i64) -> (r: EncoderResult)
        ensures
            final(self).sv() == old(self).sv().push(DataV::Str(int_str(v as int))),
            r == Result::<(), Error>::Ok(()),
    {
        self.push_value(Data::StrVal(i64_dec_str(v)));
        Result::Ok(())
    }

    /// Emit a signed number as its decimal text.
    pub fn emit_isize(&mut self, v: isize) -> (r: EncoderResult)
        ensures
            final(self).sv() == old(self).sv().push(DataV::Str(int_str(v as int))),
            r == Result::<(), Error>::Ok(()),
    {
        self.emit_i64(v as i64)
    }

    /// Emit a signed number as its decimal text.
    pub fn emit_i32(&mut self, v: i32) -> (r: EncoderResult)
        ensures
            final(self).sv() == old(self).sv().push(DataV::Str(int_str(v as int))),
            r == Result::<(), Error>::Ok(()),
    {
        self.emit_i64(v as i64)
    }

    /// Emit a signed number as its decimal text.
    pub fn emit_i16(&mut self, v: i16) -> (r: EncoderResult)
        ensures
            final(self).sv() == old(self).sv().push(DataV::Str(int_str(v as int))),
            r == Result::<(), Error>::Ok(()),
    {
        self.emit_i64(v as i64)
    }

    /// Emit a signed number as its decimal text.
    pub fn emit_i8(&mut self, v: i8) -> (r: EncoderResult)
        ensures
            final(self).sv() == old(self).sv().push(DataV::Str(int_str(v as int))),
            r == Result::<(), Error>::Ok(()),
    {
        self.emit_i64(v as i64)
    }

    /// Emit a boolean.
    pub fn emit_bool(&mut self, v: bool) -> (r: EncoderResult)
        ensures
            final(self).sv() == old(self).sv().push(DataV::Bool(v)),
            r == Result::<(), Error>::Ok(()),
    {
        self.push_value(Data::Bool(v));
        Result::Ok(())
    }

    /// Emit a single character as a one-character string.
    pub fn emit_char(&mut self, v: char) -> (r: EncoderResult)
        ensures
            final(self).sv() == old(self).sv().push(DataV::Str(seq![v])),
            r == Result::<(), Error>::Ok(()),
    {
        let mut cs: Vec<char> = Vec::new();
        cs.push(v);
        proof {
            assert(cs@ =~= seq![v]);
        }
        self.push_value(Data::StrVal(crate::text::string_from_chars(&cs)));
        Result::Ok(())
    }

    /// Emit a string.
    pub fn emit_str(&mut self, v: &str) -> (r: EncoderResult)
        ensures
            final(self).sv() == old(self).sv().push(DataV::Str(v@)),
            r == Result::<(), Error>::Ok(()),
    {
        self.push_value(Data::StrVal(String::from_str(v)));
        Result::Ok(())
    }

    /// Nothing in the value model stands for a bare enum variant.
    pub fn emit_enum(&mut self) -> (r: EncoderResult)
        ensures
            final(self).sv() == old(self).sv(),
            r == Result::<(), Error>::Err(Error::UnsupportedType),
    {
        Result::Err(Error::UnsupportedType)
    }

    /// Nothing in the value model stands for an option.
    pub fn emit_option(&mut self) -> (r: EncoderResult)
        ensures
            final(self).sv() == old(self).sv(),
            r == Result::<(), Error>::Err(Error::UnsupportedType),
    {
        Result::Err(Error::UnsupportedType)
    }

    /// Open a record: an empty map goes on the stack; emitted fields
    /// are merged into it one by one.
    pub fn emit_struct(&mut self) -> (r: EncoderResult)
        ensures
            final(self).sv() == old(self).sv().push(DataV::MapV(Map::empty())),
            r == Result::<(), Error>::Ok(()),
    {
        let entries: Vec<(String, Data)> = Vec::new();
        proof {
            assert(entries_view(entries@) =~= Seq::<(Seq<char>, DataV)>::empty());
            assert(assoc_view(entries_view(entries@)) =~= Map::<Seq<char>, DataV>::empty());
        }
        self.push_value(Data::MapVal(entries));
        Result::Ok(())
    }

    /// Open a mapping; it is merged exactly like a record.
    pub fn emit_map(&mut self) -> (r: EncoderResult)
        ensures
            final(self).sv() == old(self).sv().push(DataV::MapV(Map::empty())),
            r == Result::<(), Error>::Ok(()),
    {
        self.emit_struct()
    }

    /// Open a sequence: an empty list goes on the stack; emitted
    /// elements are merged into it one by one.
    pub fn emit_seq(&mut self) -> (r: EncoderResult)
        ensures
            final(self).sv() == old(self).sv().push(DataV::List(Seq::empty())),
            r == Result::<(), Error>::Ok(()),
    {
        let elems: Vec<Data> = Vec::new();
        proof {
            assert(seq_data_view(elems@) =~= Seq::<DataV>::empty());
        }
        self.push_value(Data::VecVal(elems));
        Result::Ok(())
    }

    /// Whether a record stands open on top of the stack, checked
    /// before a field value is emitted.
    pub fn emit_struct_field_begin(&self) -> (r: EncoderResult)
        ensures
            r == (if self.sv().len() >= 1 && self.sv().last() is MapV {
                Result::<(), Error>::Ok(())
            } else {
                Result::<(), Error>::Err(Error::UnsupportedType)
            }),
    {
        proof {
            crate::data::lemma_seq_data_view_len(self.data@);
            if self.data@.len() > 0 {
                crate::data::lemma_seq_data_view_index(self.data@, self.data@.len() - 1);
            }
        }
        if self.data.len() == 0 {
            return Result::Err(Error::UnsupportedType);
        }
        match &self.data[self.data.len() - 1] {
            Data::MapVal(_) => Result::Ok(()),
            _ => Result::Err(Error::UnsupportedType),
        }
    }

    /// Merge the just-emitted field value into the record below it.
    pub fn emit_struct_field_end(&mut self, name: &str) -> (r: EncoderResult)
        ensures
            match r {
                Result::Ok(()) => old(self).sv().len() >= 2 && old(self).sv()[old(
                    self,
                ).sv().len() - 2] is MapV && final(self).sv() == old(self).sv().drop_last().drop_last().push(
                    DataV::MapV(
                        old(self).sv()[old(self).sv().len() - 2]->MapV_0.insert(
                            name@,
                            old(self).sv().last(),
                        ),
                    ),
                ),
                Result::Err(e) => (old(self).sv().len() < 2 || !(old(self).sv()[old(
                    self,
                ).sv().len() - 2] is MapV)) && e == Error::UnsupportedType,
            },
    {
        proof {
            crate::data::lemma_seq_data_view_len(self.data@);
            if self.data@.len() >= 1 {
                crate::data::lemma_seq_data_view_index(self.data@, self.data@.len() - 1);
            }
            if self.data@.len() >= 2 {
                crate::data::lemma_seq_data_view_index(self.data@, self.data@.len() - 2);
            }
        }
        if self.data.len() < 2 {
            return Result::Err(Error::UnsupportedType);
        }
        let ghost sv0 = self.sv();
        let ghost d0 = self.data@;
        let value = match self.data.pop() {
            Option::Some(v) => v,
            Option::None => {
                return Result::Err(Error::UnsupportedType);
            },
        };
        proof {
            assert(self.data@ =~= d0.drop_last());
            lemma_seq_data_view_drop_last(d0);
        }
        let ghost d1 = self.data@;
        match self.data.pop() {
            Option::Some(Data::MapVal(mut entries)) => {
                proof {
                    assert(self.data@ =~= d1.drop_last());
                    lemma_seq_data_view_drop_last(d1);
                    assert(data_view(d1.last()) == sv0[sv0.len() - 2]);
                }
                crate::builder::upsert(&mut entries, String::from_str(name), value);
                self.push_value(Data::MapVal(entries));
                Result::Ok(())
            },
            Option::Some(other) => {
                proof {
                    assert(data_view(d1.last()) == sv0[sv0.len() - 2]);
                }
                let _ = other;
                Result::Err(Error::UnsupportedType)
            },
            Option::None => Result::Err(Error::UnsupportedType),
        }
    }

    /// Whether a sequence stands open on top of the stack, checked
    /// before an element value is emitted.
    pub fn emit_seq_elt_begin(&self) -> (r: EncoderResult)
        ensures
            r == (if self.sv().len() >= 1 && self.sv().last() is List {
                Result::<(), Error>::Ok(())
            } else {
                Result::<(), Error>::Err(Error::UnsupportedType)
            }),
    {
        proof {
            crate::data::lemma_seq_data_view_len(self.data@);
            if self.data@.len() > 0 {
                crate::data::lemma_seq_data_view_index(self.data@, self.data@.len() - 1);
            }
        }
        if self.data.len() == 0 {
            return Result::Err(Error::UnsupportedType);
        }
        match &self.data[self.data.len() - 1] {
            Data::VecVal(_) => Result::Ok(()),
            _ => Result::Err(Error::UnsupportedType),
        }
    }

    /// Merge the just-emitted element into the sequence below it.
    pub fn emit_seq_elt_end(&mut self) -> (r: EncoderResult)
        ensures
            match r {
                Result::Ok(()) => old(self).sv().len() >= 2 && old(self).sv()[old(
                    self,
                ).sv().len() - 2] is List && final(self).sv() == old(self).sv().drop_last().drop_last().push(
                    DataV::List(
                        old(self).sv()[old(self).sv().len() - 2]->List_0.push(
                            old(self).sv().last(),
                        ),
                    ),
                ),
                Result::Err(e) => (old(self).sv().len() < 2 || !(old(self).sv()[old(
                    self,
                ).sv().len() - 2] is List)) && e == Error::UnsupportedType,
            },
    {
        proof {
            crate::data::lemma_seq_data_view_len(self.data@);
            if self.data@.len() >= 1 {
                crate::data::lemma_seq_data_view_index(self.data@, self.data@.len() - 1);
            }
            if self.data@.len() >= 2 {
                crate::data::lemma_seq_data_view_index(self.data@, self.data@.len() - 2);
            }
        }
        if self.data.len() < 2 {
            return Result::Err(Error::UnsupportedType);
        }
        let ghost sv0 = self.sv();
        let ghost d0 = self.data@;
        let value = match self.data.pop() {
            Option::Some(v) => v,
            Option::None => {
                return Result::Err(Error::UnsupportedType);
            },
        };
        proof {
            assert(self.data@ =~= d0.drop_last());
            lemma_seq_data_view_drop_last(d0);
        }
        let ghost d1 = self.data@;
        match self.data.pop() {
            Option::Some(Data::VecVal(mut elems)) => {
                proof {
                    assert(self.data@ =~= d1.drop_last());
                    lemma_seq_data_view_drop_last(d1);
                    assert(data_view(d1.last()) == sv0[sv0.len() - 2]);
                }
                let ghost ebefore = elems@;
                elems.push(value);
                proof {
                    lemma_seq_data_view_push(ebefore, elems@.last());
                }
                self.push_value(Data::VecVal(elems));
                Result::Ok(())
            },
            Option::Some(other) => {
                proof {
                    assert(data_view(d1.last()) == sv0[sv0.len() - 2]);
                }
                let _ = other;
                Result::Err(Error::UnsupportedType)
            },
            Option::None => Result::Err(Error::UnsupportedType),
        }
    }

    /// Whether the just-emitted map key is a string: nothing merges
    /// yet, the key stays on the stack for the value to follow.
    pub fn emit_map_elt_key_end(&self) -> (r: EncoderResult)
        ensures
            r == (if self.sv().len() == 0 {
                Result::<(), Error>::Err(Error::MissingElements)
            } else if self.sv().last() is Str {
                Result::<(), Error>::Ok(())
            } else {
                Result::<(), Error>::Err(Error::KeyIsNotString)
            }),
    {
        proof {
            crate::data::lemma_seq_data_view_len(self.data@);
            if self.data@.len() > 0 {
                crate::data::lemma_seq_data_view_index(self.data@, self.data@.len() - 1);
            }
        }
        if self.data.len() == 0 {
            return Result::Err(Error::MissingElements);
        }
        match &self.data[self.data.len() - 1] {
            Data::StrVal(_) => Result::Ok(()),
            _ => Result::Err(Error::KeyIsNotString),
        }
    }

    /// Take the emitted key off the stack before its value is emitted.
    pub fn emit_map_elt_val_begin(&mut self) -> (r: Result<String, Error>)
        ensures
            match r {
                Result::Ok(k) => old(self).sv().len() >= 1 && old(self).sv().last()
                    == DataV::Str(k@) && final(self).sv() == old(self).sv().drop_last(),
                Result::Err(e) => !(old(self).sv().len() >= 1 && old(self).sv().last() is Str)
                    && e == Error::KeyIsNotString,
            },
    {
        proof {
            crate::data::lemma_seq_data_view_len(self.data@);
            if self.data@.len() >= 1 {
                crate::data::lemma_seq_data_view_index(self.data@, self.data@.len() - 1);
            }
        }
        let ghost d0 = self.data@;
        match self.data.pop() {
            Option::Some(Data::StrVal(s)) => {
                proof {
                    assert(self.data@ =~= d0.drop_last());
                    lemma_seq_data_view_drop_last(d0);
                }
                Result::Ok(s)
            },
            Option::Some(other) => {
                self.data.push(other);
                proof {
                    assert(self.data@ =~= d0);
                }
                Result::Err(Error::KeyIsNotString)
            },
            Option::None => Result::Err(Error::KeyIsNotString),
        }
    }

    /// Merge the just-emitted value under its key into the map below.
    pub fn emit_map_elt_val_end(&mut self, key: String) -> (r: EncoderResult)
        ensures
            match r {
                Result::Ok(()) => old(self).sv().len() >= 2 && old(self).sv()[old(
                    self,
                ).sv().len() - 2] is MapV && final(self).sv() == old(self).sv().drop_last().drop_last().push(
                    DataV::MapV(
                        old(self).sv()[old(self).sv().len() - 2]->MapV_0.insert(
                            key@,
                            old(self).sv().last(),
                        ),
                    ),
                ),
                Result::Err(e) => (old(self).sv().len() < 2 || !(old(self).sv()[old(
                    self,
                ).sv().len() - 2] is MapV)) && (e == Error::MissingElements || e
                    == Error::UnsupportedType),
            },
    {
        proof {
            crate::data::lemma_seq_data_view_len(self.data@);
            if self.data@.len() >= 1 {
                crate::data::lemma_seq_data_view_index(self.data@, self.data@.len() - 1);
            }
            if self.data@.len() >= 2 {
                crate::data::lemma_seq_data_view_index(self.data@, self.data@.len() - 2);
            }
        }
        if self.data.len() == 0 {
            return Result::Err(Error::MissingElements);
        }
        if self.data.len() < 2 {
            return Result::Err(Error::UnsupportedType);
        }
        let ghost sv0 = self.sv();
        let ghost d0 = self.data@;
        let value = match self.data.pop() {
            Option::Some(v) => v,
            Option::None => {
                return Result::Err(Error::MissingElements);
            },
        };
        proof {
            assert(self.data@ =~= d0.drop_last());
            lemma_seq_data_view_drop_last(d0);
        }
        let ghost d1 = self.data@;
        match self.data.pop() {
            Option::Some(Data::MapVal(mut entries)) => {
                proof {
                    assert(self.data@ =~= d1.drop_last());
                    lemma_seq_data_view_drop_last(d1);
                    assert(data_view(d1.last()) == sv0[sv0.len() - 2]);
                }
                crate::builder::upsert(&mut entries, key, value);
                self.push_value(Data::MapVal(entries));
                Result::Ok(())
            },
            Option::Some(other) => {
                proof {
                    assert(data_view(d1.last()) == sv0[sv0.len() - 2]);
                }
                let _ = other;
                Result::Err(Error::UnsupportedType)
            },
            Option::None => Result::Err(Error::UnsupportedType),
        }
    }

    /// Take the single finished value off the stack: a complete,
    /// well-driven emission leaves exactly one.
    pub fn finish(&mut self) -> (r: Result<Data, Error>)
        ensures
            match r {
                Result::Ok(d) => old(self).sv().len() == 1 && data_view(d) == old(
                    self,
                ).sv().last() && final(self).sv() == Seq::<DataV>::empty(),
                Result::Err(e) => old(self).sv().len() != 1 && e == Error::MissingElements,
            },
    {
        proof {
            crate::data::lemma_seq_data_view_len(self.data@);
            if self.data@.len() >= 1 {
                crate::data::lemma_seq_data_view_index(self.data@, self.data@.len() - 1);
            }
        }
        if self.data.len() != 1 {
            return Result::Err(Error::MissingElements);
        }
        let ghost d0 = self.data@;
        match self.data.pop() {
            Option::Some(d) => {
                proof {
                    assert(self.data@ =~= d0.drop_last());
                    lemma_seq_data_view_drop_last(d0);
                    assert(seq_data_view(self.data@) =~= Seq::<DataV>::empty());
                }
                Result::Ok(d)
            },
            Option::None => Result::Err(Error::MissingElements),
        }
    }
}

/// Dropping the last element drops the last view.
pub proof fn lemma_seq_data_view_drop_last(s: Seq<Data>)
    requires
        s.len() > 0,
    ensures
        seq_data_view(s.drop_last()) == seq_data_view(s).drop_last(),
{
    assert(seq_data_view(s).drop_last() =~= seq_data_view(s.drop_last())) by {
        crate::data::lemma_seq_data_view_len(s);
        crate::data::lemma_seq_data_view_len(s.drop_last());
        assert forall|i: int| 0 <= i < s.len() - 1 implies seq_data_view(s.drop_last())[i]
            == seq_data_view(s)[i] by {
            crate::data::lemma_seq_data_view_index(s, i);
            crate::data::lemma_seq_data_view_index(s.drop_last(), i);
        }
    }
}

} // verus!
