use vstd::prelude::*;

use vstd::std_specs::vec::axiom_vec_index_decreases;

use crate::error::Error;
use crate::raw::{text_fits, write_text, write_u16, write_u32, write_u64, Endianness};
use crate::value::{
    enc, enc_entries, lemma_all_fit, all_fit, entries_fit, lemma_entries_fit, enc_items, entry_models_of, fits, i32s_bytes, i64s_bytes, lemma_entry_models_of,
    lemma_models_of, model_of, models_of, tag_id, Tag, Value, END_ID,
};

verus! {

impl Value {
    /// The type identifier of this value.
    pub fn id(&self) -> (r: u8)
        ensures
            r == tag_id(model_of(*self)),
    {
        match self {
            Value::Byte(_) => 1,
            Value::Short(_) => 2,
            Value::Int(_) => 3,
            Value::Long(_) => 4,
            Value::Float(_) => 5,
            Value::Double(_) => 6,
            Value::ByteArray(_) => 7,
            Value::String(_) => 8,
            Value::List(_, _) => 9,
            Value::Compound(_) => 10,
            Value::IntArray(_) => 11,
            Value::LongArray(_) => 12,
        }
    }
}

pub const MAX_LEN: usize = 0x7fff_ffff;

/// Appends the payload of `v`; fails, with the output in no stated form, when
/// some length in `v` cannot be written.
pub fn encode_value(v: &Value, o: Endianness, out: &mut Vec<u8>) -> (r: Result<(), Error>)
    ensures
        r is Ok <==> fits(model_of(*v)),
        r is Ok ==> final(out)@ == old(out)@ + enc(model_of(*v), o),
        r is Err ==> r->Err_0 == Error::InvalidLength,
    decreases *v,
{
    let ghost start = out@;
    match v {
        Value::Byte(x) => {
            out.push(*x as u8);
            assert(out@ =~= start + enc(model_of(*v), o));
        },
        Value::Short(x) => write_u16(out, *x as u16, o),
        Value::Int(x) => write_u32(out, *x as u32, o),
        Value::Long(x) => write_u64(out, *x as u64, o),
        Value::Float(x) => write_u32(out, *x, o),
        Value::Double(x) => write_u64(out, *x, o),
        Value::String(t) => {
            return write_text(out, t.as_str(), o);
        },
        Value::ByteArray(a) => {
            if a.len() > MAX_LEN {
                return Err(Error::InvalidLength);
            }
            write_u32(out, a.len() as u32, o);
            let ghost mid = out@;
            let mut i: usize = 0;
            while i < a.len()
                invariant
                    i <= a@.len(),
                    out@ == mid + a@.subrange(0, i as int).map_values(|x: i8| x as u8),
                decreases a@.len() - i,
            {
                out.push(a[i] as u8);
                i = i + 1;
                assert(out@ =~= mid + a@.subrange(0, i as int).map_values(|x: i8| x as u8));
            }
            assert(a@.subrange(0, i as int) =~= a@);
            assert(out@ =~= start + enc(model_of(*v), o));
        },
        Value::IntArray(a) => {
            if a.len() > MAX_LEN {
                return Err(Error::InvalidLength);
            }
            write_u32(out, a.len() as u32, o);
            let ghost mid = out@;
            let mut i: usize = 0;
            assert(i32s_bytes(a@.subrange(0, 0), o) =~= Seq::<u8>::empty());
            while i < a.len()
                invariant
                    i <= a@.len(),
                    out@ == mid + i32s_bytes(a@.subrange(0, i as int), o),
                decreases a@.len() - i,
            {
                write_u32(out, a[i] as u32, o);
                assert(a@.subrange(0, i + 1).drop_last() =~= a@.subrange(0, i as int));
                i = i + 1;
                assert(out@ =~= mid + i32s_bytes(a@.subrange(0, i as int), o));
            }
            assert(a@.subrange(0, i as int) =~= a@);
            assert(out@ =~= start + enc(model_of(*v), o));
        },
        Value::LongArray(a) => {
            if a.len() > MAX_LEN {
                return Err(Error::InvalidLength);
            }
            write_u32(out, a.len() as u32, o);
            let ghost mid = out@;
            let mut i: usize = 0;
            assert(i64s_bytes(a@.subrange(0, 0), o) =~= Seq::<u8>::empty());
            while i < a.len()
                invariant
                    i <= a@.len(),
                    out@ == mid + i64s_bytes(a@.subrange(0, i as int), o),
                decreases a@.len() - i,
            {
                write_u64(out, a[i] as u64, o);
                assert(a@.subrange(0, i + 1).drop_last() =~= a@.subrange(0, i as int));
                i = i + 1;
                assert(out@ =~= mid + i64s_bytes(a@.subrange(0, i as int), o));
            }
            assert(a@.subrange(0, i as int) =~= a@);
            assert(out@ =~= start + enc(model_of(*v), o));
        },
        Value::List(e, items) => {
            return encode_list(*e, items, o, out);
        },
        Value::Compound(es) => {
            return encode_compound(es, o, out);
        },
    }
    Ok(())
}

/// Appends the payload of a list with element type `e`.
fn encode_list(e: u8, items: &Vec<Value>, o: Endianness, out: &mut Vec<u8>) -> (r: Result<(), Error>)
    ensures
        r is Ok <==> fits(Tag::List(e, models_of(items@))),
        r is Ok ==> final(out)@ == old(out)@ + enc(Tag::List(e, models_of(items@)), o),
        r is Err ==> r->Err_0 == Error::InvalidLength,
    decreases *items,
{
    let ghost start = out@;
    let ghost ms = models_of(items@);
    proof {
        lemma_models_of(items@);
        lemma_all_fit(models_of(items@));
    }
    if items.len() > MAX_LEN {
        return Err(Error::InvalidLength);
    }
    out.push(e);
    write_u32(out, items.len() as u32, o);
    let ghost mid = out@;
    let mut i: usize = 0;
    assert(enc_items(ms.subrange(0, 0), o) =~= Seq::<u8>::empty());
    while i < items.len()
        invariant
            i <= items@.len(),
            ms == models_of(items@),
            ms.len() == items@.len(),
            forall|j: int| 0 <= j < items@.len() ==> #[trigger] ms[j] == model_of(items@[j]),
            forall|j: int| 0 <= j < i ==> #[trigger] fits(ms[j]),
            out@ == mid + enc_items(ms.subrange(0, i as int), o),
        decreases items@.len() - i,
    {
        proof {
            axiom_vec_index_decreases(*items, i as int);
        }
        match encode_value(&items[i], o, out) {
            Err(x) => {
                proof {
                    lemma_all_fit(ms);
                    assert(!fits(ms[i as int]));
                    assert(!all_fit(ms));
                    assert(!fits(Tag::List(e, ms)));
                }
                return Err(x);
            },
            Ok(()) => {},
        }
        assert(ms.subrange(0, i + 1).subrange(0, i as int) =~= ms.subrange(0, i as int));
        i = i + 1;
        assert(out@ =~= mid + enc_items(ms.subrange(0, i as int), o));
    }
    assert(ms.subrange(0, i as int) =~= ms);
    assert(out@ =~= start + enc(Tag::List(e, ms), o));
    assert(fits(Tag::List(e, ms)));
    Ok(())
}

/// Appends the entries of a compound and its terminator.
pub(crate) fn encode_compound(es: &Vec<(String, Value)>, o: Endianness, out: &mut Vec<u8>) -> (r: Result<(), Error>)
    ensures
        r is Ok <==> fits(Tag::Compound(entry_models_of(es@))),
        r is Ok ==> final(out)@ == old(out)@ + enc(Tag::Compound(entry_models_of(es@)), o),
        r is Err ==> r->Err_0 == Error::InvalidLength,
    decreases *es,
{
    let ghost start = out@;
    let ghost ms = entry_models_of(es@);
    proof {
        lemma_entry_models_of(es@);
        lemma_entries_fit(entry_models_of(es@));
    }
    let mut i: usize = 0;
    assert(enc_entries(ms.subrange(0, 0), o) =~= Seq::<u8>::empty());
    while i < es.len()
        invariant
            i <= es@.len(),
            ms == entry_models_of(es@),
            ms.len() == es@.len(),
            forall|j: int|
                0 <= j < es@.len() ==> #[trigger] ms[j] == (es@[j].0@, model_of(es@[j].1)),
            forall|j: int| 0 <= j < i ==> text_fits(#[trigger] ms[j].0) && fits(ms[j].1),
            out@ == start + enc_entries(ms.subrange(0, i as int), o),
        decreases es@.len() - i,
    {
        let entry = &es[i];
        out.push(entry.1.id());
        match write_text(out, entry.0.as_str(), o) {
            Err(x) => {
                proof {
                    assert(ms[i as int] == (es@[i as int].0@, model_of(es@[i as int].1)));
                    lemma_entry_not_fit(ms, i as int);
                    assert(!fits(Tag::Compound(ms)));
                }
                return Err(x);
            },
            Ok(()) => {},
        }
        proof {
            axiom_vec_index_decreases(*es, i as int);
            assert(decreases_to!(es@[i as int] => es@[i as int].1));
        }
        match encode_value(&entry.1, o, out) {
            Err(x) => {
                proof {
                    assert(ms[i as int] == (es@[i as int].0@, model_of(es@[i as int].1)));
                    lemma_entry_not_fit(ms, i as int);
                    assert(!fits(Tag::Compound(ms)));
                }
                return Err(x);
            },
            Ok(()) => {},
        }
        assert(ms.subrange(0, i + 1).subrange(0, i as int) =~= ms.subrange(0, i as int));
        i = i + 1;
        assert(out@ =~= start + enc_entries(ms.subrange(0, i as int), o));
    }
    out.push(END_ID);
    assert(ms.subrange(0, i as int) =~= ms);
    assert(out@ =~= start + enc(Tag::Compound(ms), o));
    assert(fits(Tag::Compound(ms)));
    Ok(())
}

proof fn lemma_entry_not_fit(ms: Seq<(Seq<char>, Tag)>, i: int)
    requires
        0 <= i < ms.len(),
        !(text_fits(ms[i].0) && fits(ms[i].1)),
    ensures
        !entries_fit(ms),
{
    lemma_entries_fit(ms);
}

} // verus!
