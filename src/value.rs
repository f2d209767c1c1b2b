use vstd::prelude::*;

use crate::error::Error;
use crate::raw::{
    parse_text, text_bytes, text_fits, u16_at, u16_bytes, u32_at, u32_bytes, u64_at, u64_bytes,
    Endianness,
};

verus! {

/// What a value means: the model that every contract of this module speaks of.
/// `Float` and `Double` hold the IEEE-754 bit patterns of their numbers.
pub enum Tag {
    Byte(i8),
    Short(i16),
    Int(i32),
    Long(i64),
    Float(u32),
    Double(u64),
    ByteArray(Seq<i8>),
    Str(Seq<char>),
    List(u8, Seq<Tag>),
    Compound(Seq<(Seq<char>, Tag)>),
    IntArray(Seq<i32>),
    LongArray(Seq<i64>),
}

/// A tagged value. `Float` and `Double` carry the bit patterns of their numbers
/// (`f32::to_bits`, `f64::to_bits`), and a `List` carries its element type
/// identifier, so that an empty list keeps it.
#[derive(Debug, PartialEq)]
pub enum Value {
    Byte(i8),
    Short(i16),
    Int(i32),
    Long(i64),
    Float(u32),
    Double(u64),
    ByteArray(Vec<i8>),
    String(String),
    List(u8, Vec<Value>),
    Compound(Vec<(String, Value)>),
    IntArray(Vec<i32>),
    LongArray(Vec<i64>),
}

/// The model of a value.
pub open spec fn model_of(v: Value) -> Tag
    decreases v, 0nat,
{
    match v {
        Value::Byte(x) => Tag::Byte(x),
        Value::Short(x) => Tag::Short(x),
        Value::Int(x) => Tag::Int(x),
        Value::Long(x) => Tag::Long(x),
        Value::Float(x) => Tag::Float(x),
        Value::Double(x) => Tag::Double(x),
        Value::ByteArray(a) => Tag::ByteArray(a@),
        Value::String(s) => Tag::Str(s@),
        Value::List(e, items) => Tag::List(e, models_of(items@)),
        Value::Compound(entries) => Tag::Compound(entry_models_of(entries@)),
        Value::IntArray(a) => Tag::IntArray(a@),
        Value::LongArray(a) => Tag::LongArray(a@),
    }
}

/// The models of a sequence of values, in order.
pub open spec fn models_of(s: Seq<Value>) -> Seq<Tag>
    decreases s, s.len(),
{
    if s.len() == 0 {
        Seq::empty()
    } else {
        models_of(s.subrange(0, s.len() - 1)).push(model_of(s[s.len() - 1]))
    }
}

/// The models of named entries, in order.
pub open spec fn entry_models_of(s: Seq<(String, Value)>) -> Seq<(Seq<char>, Tag)>
    decreases s, s.len(),
{
    if s.len() == 0 {
        Seq::empty()
    } else {
        entry_models_of(s.subrange(0, s.len() - 1)).push((s[s.len() - 1].0@, model_of(s[s.len() - 1].1)))
    }
}

pub const END_ID: u8 = 0;
pub const COMPOUND_ID: u8 = 10;

/// The one-byte type identifier of each variant.
pub open spec fn tag_id(t: Tag) -> u8 {
    match t {
        Tag::Byte(_) => 1,
        Tag::Short(_) => 2,
        Tag::Int(_) => 3,
        Tag::Long(_) => 4,
        Tag::Float(_) => 5,
        Tag::Double(_) => 6,
        Tag::ByteArray(_) => 7,
        Tag::Str(_) => 8,
        Tag::List(_, _) => 9,
        Tag::Compound(_) => 10,
        Tag::IntArray(_) => 11,
        Tag::LongArray(_) => 12,
    }
}

pub open spec fn i32s_bytes(a: Seq<i32>, o: Endianness) -> Seq<u8>
    decreases a.len(),
{
    if a.len() == 0 {
        Seq::empty()
    } else {
        i32s_bytes(a.drop_last(), o) + u32_bytes(a.last() as u32, o)
    }
}

pub open spec fn i64s_bytes(a: Seq<i64>, o: Endianness) -> Seq<u8>
    decreases a.len(),
{
    if a.len() == 0 {
        Seq::empty()
    } else {
        i64s_bytes(a.drop_last(), o) + u64_bytes(a.last() as u64, o)
    }
}

/// The payload of `t` on the wire (no identifier, no name).
pub open spec fn enc(t: Tag, o: Endianness) -> Seq<u8>
    decreases t, 0nat,
{
    match t {
        Tag::Byte(x) => seq![x as u8],
        Tag::Short(x) => u16_bytes(x as u16, o),
        Tag::Int(x) => u32_bytes(x as u32, o),
        Tag::Long(x) => u64_bytes(x as u64, o),
        Tag::Float(x) => u32_bytes(x, o),
        Tag::Double(x) => u64_bytes(x, o),
        Tag::ByteArray(a) => u32_bytes(a.len() as u32, o) + a.map_values(|x: i8| x as u8),
        Tag::Str(s) => text_bytes(s, o),
        Tag::List(e, items) => seq![e] + u32_bytes(items.len() as u32, o) + enc_items(items, o),
        Tag::Compound(es) => enc_entries(es, o) + seq![END_ID],
        Tag::IntArray(a) => u32_bytes(a.len() as u32, o) + i32s_bytes(a, o),
        Tag::LongArray(a) => u32_bytes(a.len() as u32, o) + i64s_bytes(a, o),
    }
}

/// The payloads of list elements, one after another.
pub open spec fn enc_items(items: Seq<Tag>, o: Endianness) -> Seq<u8>
    decreases items, items.len(),
{
    if items.len() == 0 {
        Seq::empty()
    } else {
        enc_items(items.subrange(0, items.len() - 1), o) + enc(items[items.len() - 1], o)
    }
}

/// The compound entries as (identifier, name, payload) triples, without the terminator.
pub open spec fn enc_entries(es: Seq<(Seq<char>, Tag)>, o: Endianness) -> Seq<u8>
    decreases es, es.len(),
{
    if es.len() == 0 {
        Seq::empty()
    } else {
        let k = es[es.len() - 1].0;
        let t = es[es.len() - 1].1;
        enc_entries(es.subrange(0, es.len() - 1), o) + (seq![tag_id(t)] + text_bytes(k, o) + enc(
            t,
            o,
        ))
    }
}

/// A length that a non-negative 32-bit integer can hold.
pub open spec fn len_fits(n: nat) -> bool {
    n <= i32::MAX
}

/// Every length in `t` can be written: array and list lengths fit a
/// non-negative 32-bit integer, texts fit a 16-bit length.
pub open spec fn fits(t: Tag) -> bool
    decreases t, 1nat,
{
    match t {
        Tag::ByteArray(a) => len_fits(a.len()),
        Tag::IntArray(a) => len_fits(a.len()),
        Tag::LongArray(a) => len_fits(a.len()),
        Tag::Str(s) => text_fits(s),
        Tag::List(_, items) => len_fits(items.len()) && all_fit(items),
        Tag::Compound(es) => entries_fit(es),
        _ => true,
    }
}

pub open spec fn all_fit(s: Seq<Tag>) -> bool
    decreases s, s.len(),
{
    s.len() > 0 ==> all_fit(s.subrange(0, s.len() - 1)) && fits(s[s.len() - 1])
}

pub open spec fn entries_fit(s: Seq<(Seq<char>, Tag)>) -> bool
    decreases s, s.len(),
{
    s.len() > 0 ==> entries_fit(s.subrange(0, s.len() - 1)) && text_fits(s[s.len() - 1].0) && fits(
        s[s.len() - 1].1,
    )
}

/// Every list in `t`, at any depth, holds elements of its declared type only.
pub open spec fn homogeneous(t: Tag) -> bool
    decreases t, 1nat,
{
    match t {
        Tag::List(e, items) => all_homogeneous(e, items),
        Tag::Compound(es) => entries_homogeneous(es),
        _ => true,
    }
}

pub open spec fn all_homogeneous(e: u8, s: Seq<Tag>) -> bool
    decreases s, s.len(),
{
    s.len() > 0 ==> all_homogeneous(e, s.subrange(0, s.len() - 1)) && tag_id(s[s.len() - 1]) == e
        && homogeneous(s[s.len() - 1])
}

pub open spec fn entries_homogeneous(s: Seq<(Seq<char>, Tag)>) -> bool
    decreases s, s.len(),
{
    s.len() > 0 ==> entries_homogeneous(s.subrange(0, s.len() - 1)) && homogeneous(s[s.len() - 1].1)
}

pub open spec fn names_unique(es: Seq<(Seq<char>, Tag)>) -> bool {
    forall|i: int, j: int| 0 <= i < j < es.len() ==> #[trigger] es[i].0 != #[trigger] es[j].0
}

/// Every compound in `t`, at any depth, has distinct names.
pub open spec fn unique_names(t: Tag) -> bool
    decreases t, 1nat,
{
    match t {
        Tag::List(_, items) => all_unique(items),
        Tag::Compound(es) => names_unique(es) && entries_unique(es),
        _ => true,
    }
}

pub open spec fn all_unique(s: Seq<Tag>) -> bool
    decreases s, s.len(),
{
    s.len() > 0 ==> all_unique(s.subrange(0, s.len() - 1)) && unique_names(s[s.len() - 1])
}

pub open spec fn entries_unique(s: Seq<(Seq<char>, Tag)>) -> bool
    decreases s, s.len(),
{
    s.len() > 0 ==> entries_unique(s.subrange(0, s.len() - 1)) && unique_names(s[s.len() - 1].1)
}

pub proof fn lemma_all_fit(s: Seq<Tag>)
    ensures
        all_fit(s) <==> forall|i: int| 0 <= i < s.len() ==> fits(#[trigger] s[i]),
    decreases s.len(),
{
    if s.len() > 0 {
        let p = s.subrange(0, s.len() - 1);
        lemma_all_fit(p);
        assert(forall|i: int| 0 <= i < p.len() ==> p[i] == s[i]);
    }
}

pub proof fn lemma_entries_fit(s: Seq<(Seq<char>, Tag)>)
    ensures
        entries_fit(s) <==> forall|i: int|
            0 <= i < s.len() ==> text_fits(#[trigger] s[i].0) && fits(s[i].1),
    decreases s.len(),
{
    if s.len() > 0 {
        let p = s.subrange(0, s.len() - 1);
        lemma_entries_fit(p);
        assert(forall|i: int| 0 <= i < p.len() ==> p[i] == s[i]);
    }
}

pub proof fn lemma_all_homogeneous(e: u8, s: Seq<Tag>)
    ensures
        all_homogeneous(e, s) <==> forall|i: int|
            0 <= i < s.len() ==> tag_id(#[trigger] s[i]) == e && homogeneous(s[i]),
    decreases s.len(),
{
    if s.len() > 0 {
        let p = s.subrange(0, s.len() - 1);
        lemma_all_homogeneous(e, p);
        assert(forall|i: int| 0 <= i < p.len() ==> p[i] == s[i]);
    }
}

pub proof fn lemma_entries_homogeneous(s: Seq<(Seq<char>, Tag)>)
    ensures
        entries_homogeneous(s) <==> forall|i: int| 0 <= i < s.len() ==> homogeneous(#[trigger] s[i].1),
    decreases s.len(),
{
    if s.len() > 0 {
        let p = s.subrange(0, s.len() - 1);
        lemma_entries_homogeneous(p);
        assert(forall|i: int| 0 <= i < p.len() ==> p[i] == s[i]);
    }
}

pub proof fn lemma_all_unique(s: Seq<Tag>)
    ensures
        all_unique(s) <==> forall|i: int| 0 <= i < s.len() ==> unique_names(#[trigger] s[i]),
    decreases s.len(),
{
    if s.len() > 0 {
        let p = s.subrange(0, s.len() - 1);
        lemma_all_unique(p);
        assert(forall|i: int| 0 <= i < p.len() ==> p[i] == s[i]);
    }
}

pub proof fn lemma_entries_unique(s: Seq<(Seq<char>, Tag)>)
    ensures
        entries_unique(s) <==> forall|i: int| 0 <= i < s.len() ==> unique_names(#[trigger] s[i].1),
    decreases s.len(),
{
    if s.len() > 0 {
        let p = s.subrange(0, s.len() - 1);
        lemma_entries_unique(p);
        assert(forall|i: int| 0 <= i < p.len() ==> p[i] == s[i]);
    }
}

/// A value that the stream format can carry unchanged.
pub open spec fn well_formed(t: Tag) -> bool {
    fits(t) && homogeneous(t) && unique_names(t)
}

/// The last position in `es` that holds name `k`.
pub open spec fn find_name(es: Seq<(Seq<char>, Tag)>, k: Seq<char>) -> Option<int>
    decreases es.len(),
{
    if es.len() == 0 {
        None
    } else if es.last().0 == k {
        Some(es.len() - 1)
    } else {
        find_name(es.drop_last(), k)
    }
}

/// Stores `(k, t)`: over the entry of that name if there is one, else at the end.
pub open spec fn put_entry(es: Seq<(Seq<char>, Tag)>, k: Seq<char>, t: Tag) -> Seq<(Seq<char>, Tag)> {
    match find_name(es, k) {
        Some(i) => es.update(i, (k, t)),
        None => es.push((k, t)),
    }
}

/// Reads the payload of a value of type `id` at `p`: the value and the
/// position after it.
pub open spec fn parse_value(id: u8, s: Seq<u8>, p: int, o: Endianness) -> Result<(Tag, int), Error>
    decreases s.len() - p, 1int,
{
    if p < 0 || p > s.len() {
        Err(Error::ShortRead)
    } else if id == 1 {
        if p + 1 > s.len() {
            Err(Error::ShortRead)
        } else {
            Ok((Tag::Byte(s[p] as i8), p + 1))
        }
    } else if id == 2 {
        if p + 2 > s.len() {
            Err(Error::ShortRead)
        } else {
            Ok((Tag::Short(u16_at(s, p, o) as i16), p + 2))
        }
    } else if id == 3 || id == 5 {
        if p + 4 > s.len() {
            Err(Error::ShortRead)
        } else if id == 3 {
            Ok((Tag::Int(u32_at(s, p, o) as i32), p + 4))
        } else {
            Ok((Tag::Float(u32_at(s, p, o)), p + 4))
        }
    } else if id == 4 || id == 6 {
        if p + 8 > s.len() {
            Err(Error::ShortRead)
        } else if id == 4 {
            Ok((Tag::Long(u64_at(s, p, o) as i64), p + 8))
        } else {
            Ok((Tag::Double(u64_at(s, p, o)), p + 8))
        }
    } else if id == 8 {
        match parse_text(s, p, o) {
            Ok((t, q)) => Ok((Tag::Str(t), q)),
            Err(e) => Err(e),
        }
    } else if id == 7 || id == 11 || id == 12 {
        if p + 4 > s.len() {
            Err(Error::ShortRead)
        } else {
            let n = u32_at(s, p, o) as i32;
            let w: int = if id == 7 { 1 } else if id == 11 { 4 } else { 8 };
            if n < 0 {
                Err(Error::InvalidLength)
            } else if p + 4 + w * n > s.len() {
                Err(Error::ShortRead)
            } else if id == 7 {
                Ok((Tag::ByteArray(s.subrange(p + 4, p + 4 + n).map_values(|b: u8| b as i8)), p + 4 + n))
            } else if id == 11 {
                Ok((Tag::IntArray(Seq::new(n as nat, |i: int| u32_at(s, p + 4 + 4 * i, o) as i32)), p + 4 + 4 * n))
            } else {
                Ok((Tag::LongArray(Seq::new(n as nat, |i: int| u64_at(s, p + 4 + 8 * i, o) as i64)), p + 4 + 8 * n))
            }
        }
    } else if id == 9 {
        if p + 5 > s.len() {
            Err(Error::ShortRead)
        } else {
            let e = s[p];
            let n = u32_at(s, p + 1, o) as i32;
            if n < 0 {
                Err(Error::InvalidLength)
            } else {
                match parse_items(e, n as nat, s, p + 5, o, Seq::empty()) {
                    Ok((items, q)) => Ok((Tag::List(e, items), q)),
                    Err(x) => Err(x),
                }
            }
        }
    } else if id == COMPOUND_ID {
        match parse_entries(s, p, o, Seq::empty()) {
            Ok((es, q)) => Ok((Tag::Compound(es), q)),
            Err(x) => Err(x),
        }
    } else {
        Err(Error::UnknownTag(id))
    }
}

/// Reads `n` more list elements of type `e` at `p`, after those in `acc`.
pub open spec fn parse_items(e: u8, n: nat, s: Seq<u8>, p: int, o: Endianness, acc: Seq<Tag>) -> Result<(Seq<Tag>, int), Error>
    decreases s.len() - p, 2int, n,
{
    if n == 0 {
        Ok((acc, p))
    } else {
        match parse_value(e, s, p, o) {
            Err(x) => Err(x),
            Ok((t, q)) => if q <= p || q > s.len() {
                Err(Error::ShortRead)
            } else {
                parse_items(e, (n - 1) as nat, s, q, o, acc.push(t))
            },
        }
    }
}

/// Reads compound entries at `p` up to and including the terminator, storing
/// each into `acc`; a later entry replaces an earlier one of the same name.
pub open spec fn parse_entries(s: Seq<u8>, p: int, o: Endianness, acc: Seq<(Seq<char>, Tag)>) -> Result<(Seq<(Seq<char>, Tag)>, int), Error>
    decreases s.len() - p, 0int,
{
    if p < 0 || p >= s.len() {
        Err(Error::ShortRead)
    } else if s[p] == END_ID {
        Ok((acc, p + 1))
    } else {
        match parse_text(s, p + 1, o) {
            Err(x) => Err(x),
            Ok((name, q)) => match parse_value(s[p], s, q, o) {
                Err(x) => Err(x),
                Ok((t, r)) => if r <= p || r > s.len() {
                    Err(Error::ShortRead)
                } else {
                    parse_entries(s, r, o, put_entry(acc, name, t))
                },
            },
        }
    }
}

pub proof fn lemma_models_of(s: Seq<Value>)
    ensures
        models_of(s).len() == s.len(),
        forall|i: int| 0 <= i < s.len() ==> #[trigger] models_of(s)[i] == model_of(s[i]),
    decreases s.len(),
{
    if s.len() > 0 {
        lemma_models_of(s.subrange(0, s.len() - 1));
    }
}

pub proof fn lemma_entry_models_of(s: Seq<(String, Value)>)
    ensures
        entry_models_of(s).len() == s.len(),
        forall|i: int|
            0 <= i < s.len() ==> #[trigger] entry_models_of(s)[i] == (s[i].0@, model_of(s[i].1)),
    decreases s.len(),
{
    if s.len() > 0 {
        lemma_entry_models_of(s.subrange(0, s.len() - 1));
    }
}

pub proof fn lemma_models_push(s: Seq<Value>, v: Value)
    ensures
        models_of(s.push(v)) == models_of(s).push(model_of(v)),
{
    lemma_models_of(s);
    lemma_models_of(s.push(v));
    assert(models_of(s.push(v)) =~= models_of(s).push(model_of(v)));
}

pub proof fn lemma_entry_models_push(s: Seq<(String, Value)>, x: (String, Value))
    ensures
        entry_models_of(s.push(x)) == entry_models_of(s).push((x.0@, model_of(x.1))),
{
    lemma_entry_models_of(s);
    lemma_entry_models_of(s.push(x));
    assert(entry_models_of(s.push(x)) =~= entry_models_of(s).push((x.0@, model_of(x.1))));
}

pub proof fn lemma_entry_models_update(s: Seq<(String, Value)>, j: int, x: (String, Value))
    requires
        0 <= j < s.len(),
    ensures
        entry_models_of(s.update(j, x)) == entry_models_of(s).update(j, (x.0@, model_of(x.1))),
{
    lemma_entry_models_of(s);
    lemma_entry_models_of(s.update(j, x));
    assert(entry_models_of(s.update(j, x)) =~= entry_models_of(s).update(j, (x.0@, model_of(x.1))));
}

} // verus!
