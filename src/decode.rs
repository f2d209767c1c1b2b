use vstd::prelude::*;

use crate::error::Error;
use crate::raw::{read_text, read_u16, read_u32, read_u64, u32_at, u64_at, Endianness};
use crate::value::{
    entry_models_of, find_name, lemma_entry_models_of, lemma_entry_models_push,
    lemma_entry_models_update, lemma_models_push, model_of, models_of, parse_entries,
    parse_items, parse_value, put_entry, Tag, Value, COMPOUND_ID, END_ID,
};

verus! {

/// `r` is what the model reading `m` gives, with `Value`s in place of their models.
pub open spec fn reads_as<T, M>(r: Result<(T, usize), Error>, m: Result<(M, int), Error>, f: spec_fn(T) -> M) -> bool {
    match m {
        Ok((t, q)) => r is Ok && f(r->Ok_0.0) == t && r->Ok_0.1 == q,
        Err(e) => r is Err && r->Err_0 == e,
    }
}

/// Decodes the payload of a value of type `id` that starts at `p`.
pub fn decode_value(id: u8, b: &[u8], p: usize, o: Endianness) -> (r: Result<(Value, usize), Error>)
    ensures
        reads_as(r, parse_value(id, b@, p as int, o), |v: Value| model_of(v)),
    decreases b@.len() - p, 1int,
{
    let len = b.len();
    if p > len {
        return Err(Error::ShortRead);
    }
    if id == 1 {
        if len - p < 1 {
            Err(Error::ShortRead)
        } else {
            Ok((Value::Byte(b[p] as i8), p + 1))
        }
    } else if id == 2 {
        if len - p < 2 {
            Err(Error::ShortRead)
        } else {
            Ok((Value::Short(read_u16(b, p, o) as i16), p + 2))
        }
    } else if id == 3 || id == 5 {
        if len - p < 4 {
            Err(Error::ShortRead)
        } else if id == 3 {
            Ok((Value::Int(read_u32(b, p, o) as i32), p + 4))
        } else {
            Ok((Value::Float(read_u32(b, p, o)), p + 4))
        }
    } else if id == 4 || id == 6 {
        if len - p < 8 {
            Err(Error::ShortRead)
        } else if id == 4 {
            Ok((Value::Long(read_u64(b, p, o) as i64), p + 8))
        } else {
            Ok((Value::Double(read_u64(b, p, o)), p + 8))
        }
    } else if id == 8 {
        match read_text(b, p, o) {
            Ok((t, q)) => Ok((Value::String(t), q)),
            Err(e) => Err(e),
        }
    } else if id == 7 || id == 11 || id == 12 {
        if len - p < 4 {
            return Err(Error::ShortRead);
        }
        let n = read_u32(b, p, o) as i32;
        if n < 0 {
            return Err(Error::InvalidLength);
        }
        if id == 7 {
            decode_byte_array(n as usize, b, p + 4)
        } else if id == 11 {
            decode_int_array(n as usize, b, p + 4, o)
        } else {
            decode_long_array(n as usize, b, p + 4, o)
        }
    } else if id == 9 {
        if len - p < 5 {
            return Err(Error::ShortRead);
        }
        let e = b[p];
        let n = read_u32(b, p + 1, o) as i32;
        if n < 0 {
            return Err(Error::InvalidLength);
        }
        match decode_items(e, n as usize, b, p + 5, o) {
            Ok((items, q)) => Ok((Value::List(e, items), q)),
            Err(x) => Err(x),
        }
    } else if id == COMPOUND_ID {
        match decode_entries(b, p, o) {
            Ok((es, q)) => Ok((Value::Compound(es), q)),
            Err(x) => Err(x),
        }
    } else {
        Err(Error::UnknownTag(id))
    }
}

fn decode_byte_array(n: usize, b: &[u8], p: usize) -> (r: Result<(Value, usize), Error>)
    requires
        p <= b@.len(),
    ensures
        if p + n > b@.len() {
            r == Err::<(Value, usize), Error>(Error::ShortRead)
        } else {
            r is Ok && model_of(r->Ok_0.0) == Tag::ByteArray(
                b@.subrange(p as int, p + n).map_values(|x: u8| x as i8),
            ) && r->Ok_0.1 == p + n
        },
{
    if b.len() - p < n {
        return Err(Error::ShortRead);
    }
    let mut a: Vec<i8> = Vec::new();
    let mut i: usize = 0;
    while i < n
        invariant
            i <= n,
            p + n <= b@.len(),
            b@.len() <= usize::MAX,
            a@ =~= b@.subrange(p as int, p + i).map_values(|x: u8| x as i8),
        decreases n - i,
    {
        a.push(b[p + i] as i8);
        i = i + 1;
    }
    Ok((Value::ByteArray(a), p + n))
}

fn decode_int_array(n: usize, b: &[u8], p: usize, o: Endianness) -> (r: Result<(Value, usize), Error>)
    requires
        p <= b@.len(),
        n <= i32::MAX,
    ensures
        if p + 4 * n > b@.len() {
            r == Err::<(Value, usize), Error>(Error::ShortRead)
        } else {
            r is Ok && model_of(r->Ok_0.0) == Tag::IntArray(
                Seq::new(n as nat, |i: int| u32_at(b@, p + 4 * i, o) as i32),
            ) && r->Ok_0.1 == p + 4 * n
        },
{
    let mut a: Vec<i32> = Vec::new();
    let mut i: usize = 0;
    let mut cur: usize = p;
    while i < n
        invariant
            i <= n,
            cur == p + 4 * i,
            cur <= b@.len(),
            a@ =~= Seq::new(i as nat, |j: int| u32_at(b@, p + 4 * j, o) as i32),
        decreases n - i,
    {
        if b.len() - cur < 4 {
            return Err(Error::ShortRead);
        }
        a.push(read_u32(b, cur, o) as i32);
        i = i + 1;
        cur = cur + 4;
    }
    Ok((Value::IntArray(a), cur))
}

fn decode_long_array(n: usize, b: &[u8], p: usize, o: Endianness) -> (r: Result<(Value, usize), Error>)
    requires
        p <= b@.len(),
        n <= i32::MAX,
    ensures
        if p + 8 * n > b@.len() {
            r == Err::<(Value, usize), Error>(Error::ShortRead)
        } else {
            r is Ok && model_of(r->Ok_0.0) == Tag::LongArray(
                Seq::new(n as nat, |i: int| u64_at(b@, p + 8 * i, o) as i64),
            ) && r->Ok_0.1 == p + 8 * n
        },
{
    let mut a: Vec<i64> = Vec::new();
    let mut i: usize = 0;
    let mut cur: usize = p;
    while i < n
        invariant
            i <= n,
            cur == p + 8 * i,
            cur <= b@.len(),
            a@ =~= Seq::new(i as nat, |j: int| u64_at(b@, p + 8 * j, o) as i64),
        decreases n - i,
    {
        if b.len() - cur < 8 {
            return Err(Error::ShortRead);
        }
        a.push(read_u64(b, cur, o) as i64);
        i = i + 1;
        cur = cur + 8;
    }
    Ok((Value::LongArray(a), cur))
}

/// Decodes `n` list elements of type `e`, the first at `p`.
fn decode_items(e: u8, n: usize, b: &[u8], p: usize, o: Endianness) -> (r: Result<(Vec<Value>, usize), Error>)
    requires
        p <= b@.len(),
    ensures
        reads_as(r, parse_items(e, n as nat, b@, p as int, o, Seq::empty()), |v: Vec<Value>| models_of(v@)),
    decreases b@.len() - p, 2int, n,
{
    let mut acc: Vec<Value> = Vec::new();
    let mut cur: usize = p;
    let mut i: usize = 0;
    assert(models_of(acc@) =~= Seq::<Tag>::empty());
    while i < n
        invariant
            p <= cur <= b@.len(),
            i <= n,
            parse_items(e, n as nat, b@, p as int, o, Seq::empty()) == parse_items(
                e,
                (n - i) as nat,
                b@,
                cur as int,
                o,
                models_of(acc@),
            ),
        decreases n - i,
    {
        match decode_value(e, b, cur, o) {
            Err(x) => {
                return Err(x);
            },
            Ok((v, q)) => {
                if q <= cur || q > b.len() {
                    return Err(Error::ShortRead);
                }
                proof {
                    lemma_models_push(acc@, v);
                }
                acc.push(v);
                cur = q;
                i = i + 1;
            },
        }
    }
    Ok((acc, cur))
}

/// Stores `(name, v)` over the entry of that name if there is one, else at the end.
fn put_entry_exec(acc: &mut Vec<(String, Value)>, name: String, v: Value)
    ensures
        entry_models_of(final(acc)@) == put_entry(entry_models_of(old(acc)@), name@, model_of(v)),
{
    let ghost em = entry_models_of(acc@);
    proof {
        lemma_entry_models_of(acc@);
        assert(em.subrange(0, em.len() as int) =~= em);
    }
    let mut i: usize = acc.len();
    while i > 0
        invariant
            i <= acc@.len(),
            acc@ == old(acc)@,
            em == entry_models_of(acc@),
            em.len() == acc@.len(),
            find_name(em, name@) == find_name(em.subrange(0, i as int), name@),
        decreases i,
    {
        proof {
            lemma_entry_models_of(acc@);
        }
        if acc[i - 1].0 == name {
            proof {
                lemma_entry_models_update(acc@, i - 1, (name, v));
            }
            acc[i - 1] = (name, v);
            return;
        }
        assert(em.subrange(0, i as int).drop_last() =~= em.subrange(0, i - 1));
        i = i - 1;
    }
    proof {
        lemma_entry_models_push(acc@, (name, v));
    }
    acc.push((name, v));
}

/// Decodes compound entries from `p` up to and including the terminator.
pub(crate) fn decode_entries(b: &[u8], p: usize, o: Endianness) -> (r: Result<(Vec<(String, Value)>, usize), Error>)
    requires
        p <= b@.len(),
    ensures
        reads_as(r, parse_entries(b@, p as int, o, Seq::empty()), |v: Vec<(String, Value)>| entry_models_of(v@)),
    decreases b@.len() - p, 0int,
{
    let mut acc: Vec<(String, Value)> = Vec::new();
    let mut cur: usize = p;
    assert(entry_models_of(acc@) =~= Seq::<(Seq<char>, Tag)>::empty());
    loop
        invariant
            p <= cur <= b@.len(),
            parse_entries(b@, p as int, o, Seq::empty()) == parse_entries(
                b@,
                cur as int,
                o,
                entry_models_of(acc@),
            ),
        decreases b@.len() - cur,
    {
        if cur >= b.len() {
            return Err(Error::ShortRead);
        }
        let id = b[cur];
        if id == END_ID {
            return Ok((acc, cur + 1));
        }
        match read_text(b, cur + 1, o) {
            Err(x) => {
                return Err(x);
            },
            Ok((name, q)) => {
                match decode_value(id, b, q, o) {
                    Err(x) => {
                        return Err(x);
                    },
                    Ok((v, r)) => {
                        if r <= cur || r > b.len() {
                            return Err(Error::ShortRead);
                        }
                        put_entry_exec(&mut acc, name, v);
                        cur = r;
                    },
                }
            },
        }
    }
}

} // verus!
