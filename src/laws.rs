use vstd::prelude::*;

use crate::blob::{
    doc_bytes, doc_fits, lemma_find_name, lemma_put_entry_unique, parse_doc, parse_doc_end, Blob,
    DocModel,
};
use crate::error::Error;
use crate::raw::{
    lemma_text_round_trip, lemma_u16_round_trip, parse_text, lemma_u32_round_trip, lemma_u64_round_trip,
    text_bytes, text_fits, u32_at, u32_bytes, u64_at, u64_bytes, Endianness,
};
use crate::value::{
    all_fit, all_homogeneous, all_unique, enc, enc_entries, enc_items, entries_fit,
    entries_homogeneous, entries_unique, find_name, fits, homogeneous, i32s_bytes, i64s_bytes,
    lemma_all_fit, lemma_all_homogeneous, lemma_all_unique, lemma_entries_fit,
    lemma_entries_homogeneous, lemma_entries_unique, names_unique, parse_entries, parse_items,
    parse_value, put_entry, tag_id, unique_names, well_formed, Tag, COMPOUND_ID, END_ID,
};

verus! {

proof fn lemma_i32s(a: Seq<i32>, o: Endianness, pre: Seq<u8>, post: Seq<u8>)
    ensures
        i32s_bytes(a, o).len() == 4 * a.len(),
        forall|i: int|
            0 <= i < a.len() ==> #[trigger] u32_at(pre + i32s_bytes(a, o) + post, pre.len() + 4 * i, o)
                == a[i] as u32,
    decreases a.len(),
{
    if a.len() > 0 {
        let a1 = a.drop_last();
        let last = u32_bytes(a.last() as u32, o);
        lemma_i32s(a1, o, pre, last + post);
        assert(pre + i32s_bytes(a, o) + post =~= pre + i32s_bytes(a1, o) + (last + post));
        assert(pre + i32s_bytes(a, o) + post =~= (pre + i32s_bytes(a1, o)) + last + post);
        lemma_u32_round_trip(a.last() as u32, o, pre + i32s_bytes(a1, o), post);
        assert forall|i: int| 0 <= i < a.len() implies #[trigger] u32_at(
            pre + i32s_bytes(a, o) + post,
            pre.len() + 4 * i,
            o,
        ) == a[i] as u32 by {
            if i < a.len() - 1 {
                assert(u32_at(pre + i32s_bytes(a1, o) + (last + post), pre.len() + 4 * i, o) == a1[i] as u32);
            }
        }
    }
}

proof fn lemma_i64s(a: Seq<i64>, o: Endianness, pre: Seq<u8>, post: Seq<u8>)
    ensures
        i64s_bytes(a, o).len() == 8 * a.len(),
        forall|i: int|
            0 <= i < a.len() ==> #[trigger] u64_at(pre + i64s_bytes(a, o) + post, pre.len() + 8 * i, o)
                == a[i] as u64,
    decreases a.len(),
{
    if a.len() > 0 {
        let a1 = a.drop_last();
        let last = u64_bytes(a.last() as u64, o);
        lemma_i64s(a1, o, pre, last + post);
        assert(pre + i64s_bytes(a, o) + post =~= pre + i64s_bytes(a1, o) + (last + post));
        assert(pre + i64s_bytes(a, o) + post =~= (pre + i64s_bytes(a1, o)) + last + post);
        lemma_u64_round_trip(a.last() as u64, o, pre + i64s_bytes(a1, o), post);
        assert forall|i: int| 0 <= i < a.len() implies #[trigger] u64_at(
            pre + i64s_bytes(a, o) + post,
            pre.len() + 8 * i,
            o,
        ) == a[i] as u64 by {
            if i < a.len() - 1 {
                assert(u64_at(pre + i64s_bytes(a1, o) + (last + post), pre.len() + 8 * i, o) == a1[i] as u64);
            }
        }
    }
}

proof fn lemma_enc_items_concat(a: Seq<Tag>, b: Seq<Tag>, o: Endianness)
    ensures
        enc_items(a + b, o) == enc_items(a, o) + enc_items(b, o),
    decreases b.len(),
{
    if b.len() == 0 {
        assert(a + b =~= a);
        assert(enc_items(a, o) + enc_items(b, o) =~= enc_items(a, o));
    } else {
        let b1 = b.subrange(0, b.len() - 1);
        lemma_enc_items_concat(a, b1, o);
        assert((a + b).subrange(0, (a + b).len() - 1) =~= a + b1);
        assert(enc_items(a + b, o) =~= enc_items(a, o) + enc_items(b, o));
    }
}

proof fn lemma_enc_entries_concat(a: Seq<(Seq<char>, Tag)>, b: Seq<(Seq<char>, Tag)>, o: Endianness)
    ensures
        enc_entries(a + b, o) == enc_entries(a, o) + enc_entries(b, o),
    decreases b.len(),
{
    if b.len() == 0 {
        assert(a + b =~= a);
        assert(enc_entries(a, o) + enc_entries(b, o) =~= enc_entries(a, o));
    } else {
        let b1 = b.subrange(0, b.len() - 1);
        lemma_enc_entries_concat(a, b1, o);
        assert((a + b).subrange(0, (a + b).len() - 1) =~= a + b1);
        assert(enc_entries(a + b, o) =~= enc_entries(a, o) + enc_entries(b, o));
    }
}

/// Every payload takes at least one byte.
proof fn lemma_enc_nonempty(t: Tag, o: Endianness)
    ensures
        enc(t, o).len() >= 1,
{
}

proof fn lemma_rt_byte_array(a: Seq<i8>, o: Endianness, pre: Seq<u8>, post: Seq<u8>)
    requires
        a.len() <= i32::MAX,
    ensures
        parse_value(7, pre + enc(Tag::ByteArray(a), o) + post, pre.len() as int, o) == Ok::<(Tag, int), Error>(
            (Tag::ByteArray(a), pre.len() + enc(Tag::ByteArray(a), o).len() as int),
        ),
{
    let s = pre + enc(Tag::ByteArray(a), o) + post;
    let p = pre.len() as int;
    let body = a.map_values(|x: i8| x as u8);
    assert(s =~= pre + u32_bytes(a.len() as u32, o) + (body + post));
    lemma_u32_round_trip(a.len() as u32, o, pre, body + post);
    assert(s.subrange(p + 4, p + 4 + a.len()) =~= body);
    assert forall|i: int| 0 <= i < a.len() implies (body[i] as i8) == a[i] by {
        let x = a[i];
        assert(((x as u8) as i8) == x) by (bit_vector);
    }
    assert(s.subrange(p + 4, p + 4 + a.len()).map_values(|b: u8| b as i8) =~= a);
}

#[verifier::rlimit(50)]
proof fn lemma_rt_int_array(a: Seq<i32>, o: Endianness, pre: Seq<u8>, post: Seq<u8>)
    requires
        a.len() <= i32::MAX,
    ensures
        parse_value(11, pre + enc(Tag::IntArray(a), o) + post, pre.len() as int, o) == Ok::<(Tag, int), Error>(
            (Tag::IntArray(a), pre.len() + enc(Tag::IntArray(a), o).len() as int),
        ),
{
    let s = pre + enc(Tag::IntArray(a), o) + post;
    let p = pre.len() as int;
    let body = i32s_bytes(a, o);
    let pre2 = pre + u32_bytes(a.len() as u32, o);
    assert(s =~= pre + u32_bytes(a.len() as u32, o) + (body + post));
    lemma_u32_round_trip(a.len() as u32, o, pre, body + post);
    lemma_i32s(a, o, pre2, post);
    assert(s =~= pre2 + body + post);
    let n = a.len() as int;
    assert forall|i: int| 0 <= i < n implies u32_at(s, p + 4 + 4 * i, o) as i32 == a[i] by {
        assert(u32_at(pre2 + body + post, pre2.len() + 4 * i, o) == a[i] as u32);
        assert(pre2.len() + 4 * i == p + 4 + 4 * i);
        let x = a[i];
        assert(((x as u32) as i32) == x) by (bit_vector);
    }
    assert(Seq::new(n as nat, |i: int| u32_at(s, p + 4 + 4 * i, o) as i32) =~= a);
}

#[verifier::rlimit(50)]
proof fn lemma_rt_long_array(a: Seq<i64>, o: Endianness, pre: Seq<u8>, post: Seq<u8>)
    requires
        a.len() <= i32::MAX,
    ensures
        parse_value(12, pre + enc(Tag::LongArray(a), o) + post, pre.len() as int, o) == Ok::<(Tag, int), Error>(
            (Tag::LongArray(a), pre.len() + enc(Tag::LongArray(a), o).len() as int),
        ),
{
    let s = pre + enc(Tag::LongArray(a), o) + post;
    let p = pre.len() as int;
    let body = i64s_bytes(a, o);
    let pre2 = pre + u32_bytes(a.len() as u32, o);
    assert(s =~= pre + u32_bytes(a.len() as u32, o) + (body + post));
    lemma_u32_round_trip(a.len() as u32, o, pre, body + post);
    lemma_i64s(a, o, pre2, post);
    assert(s =~= pre2 + body + post);
    let n = a.len() as int;
    assert forall|i: int| 0 <= i < n implies u64_at(s, p + 4 + 8 * i, o) as i64 == a[i] by {
        assert(u64_at(pre2 + body + post, pre2.len() + 8 * i, o) == a[i] as u64);
        assert(pre2.len() + 8 * i == p + 4 + 8 * i);
        let x = a[i];
        assert(((x as u64) as i64) == x) by (bit_vector);
    }
    assert(Seq::new(n as nat, |i: int| u64_at(s, p + 4 + 8 * i, o) as i64) =~= a);
}

proof fn lemma_rt_scalar(t: Tag, o: Endianness, pre: Seq<u8>, post: Seq<u8>)
    requires
        t is Byte || t is Short || t is Int || t is Float || t is Long || t is Double,
    ensures
        parse_value(tag_id(t), pre + enc(t, o) + post, pre.len() as int, o) == Ok::<(Tag, int), Error>(
            (t, pre.len() + enc(t, o).len() as int),
        ),
{
    let s = pre + enc(t, o) + post;
    let p = pre.len() as int;
    match t {
        Tag::Byte(x) => {
            assert(s[p] == x as u8);
            assert(((x as u8) as i8) == x) by (bit_vector);
        },
        Tag::Short(x) => {
            lemma_u16_round_trip(x as u16, o, pre, post);
            assert(((x as u16) as i16) == x) by (bit_vector);
        },
        Tag::Int(x) => {
            lemma_u32_round_trip(x as u32, o, pre, post);
            assert(((x as u32) as i32) == x) by (bit_vector);
        },
        Tag::Float(x) => {
            lemma_u32_round_trip(x, o, pre, post);
        },
        Tag::Long(x) => {
            lemma_u64_round_trip(x as u64, o, pre, post);
            assert(((x as u64) as i64) == x) by (bit_vector);
        },
        Tag::Double(x) => {
            lemma_u64_round_trip(x, o, pre, post);
        },
        _ => {},
    }
}

#[verifier::rlimit(50)]
proof fn lemma_rt_value(t: Tag, o: Endianness, pre: Seq<u8>, post: Seq<u8>)
    requires
        well_formed(t),
    ensures
        parse_value(tag_id(t), pre + enc(t, o) + post, pre.len() as int, o) == Ok::<(Tag, int), Error>(
            (t, pre.len() + enc(t, o).len() as int),
        ),
    decreases t, 0int,
{
    let s = pre + enc(t, o) + post;
    let p = pre.len() as int;
    match t {
        Tag::Byte(_) | Tag::Short(_) | Tag::Int(_) | Tag::Float(_) | Tag::Long(_) | Tag::Double(_) => {
            lemma_rt_scalar(t, o, pre, post);
        },
        Tag::Str(x) => {
            lemma_text_round_trip(x, o, pre, post);
                },
        Tag::ByteArray(a) => {
            lemma_rt_byte_array(a, o, pre, post);
        },
        Tag::IntArray(a) => {
            lemma_rt_int_array(a, o, pre, post);
        },
        Tag::LongArray(a) => {
            lemma_rt_long_array(a, o, pre, post);
        },
        Tag::List(e, items) => {
            lemma_rt_list(e, items, o, pre, post);
        },
        Tag::Compound(es) => {
            assert(es.subrange(0, 0) =~= Seq::<(Seq<char>, Tag)>::empty());
            lemma_rt_entries(es, 0, o, pre, post);
                },
    }
}

proof fn lemma_rt_list(e: u8, items: Seq<Tag>, o: Endianness, pre: Seq<u8>, post: Seq<u8>)
    requires
        well_formed(Tag::List(e, items)),
    ensures
        parse_value(9, pre + enc(Tag::List(e, items), o) + post, pre.len() as int, o) == Ok::<(Tag, int), Error>(
            (Tag::List(e, items), pre.len() + enc(Tag::List(e, items), o).len() as int),
        ),
    decreases items, items.len() + 1,
{
    let t = Tag::List(e, items);
    let s = pre + enc(t, o) + post;
    let p = pre.len() as int;
    let body = enc_items(items, o);
    assert(s =~= (pre + seq![e]) + u32_bytes(items.len() as u32, o) + (body + post));
    lemma_u32_round_trip(items.len() as u32, o, pre + seq![e], body + post);
    assert(s[p] == e);
    let pre2 = pre + seq![e] + u32_bytes(items.len() as u32, o);
    assert(s =~= pre2 + body + post);
    assert(items.subrange(0, 0) =~= Seq::<Tag>::empty());
    lemma_rt_items(e, items, 0, o, pre2, post);
}

proof fn lemma_enc_items_one(t: Tag, o: Endianness)
    ensures
        enc_items(seq![t], o) == enc(t, o),
{
    assert(seq![t].subrange(0, 0) =~= Seq::<Tag>::empty());
    assert(enc_items(Seq::<Tag>::empty(), o) == Seq::<u8>::empty());
    assert(enc_items(seq![t], o) =~= enc(t, o));
}

proof fn lemma_enc_entries_one(k: Seq<char>, t: Tag, o: Endianness)
    ensures
        enc_entries(seq![(k, t)], o) == seq![tag_id(t)] + text_bytes(k, o) + enc(t, o),
{
    assert(seq![(k, t)].subrange(0, 0) =~= Seq::<(Seq<char>, Tag)>::empty());
    assert(enc_entries(Seq::<(Seq<char>, Tag)>::empty(), o) == Seq::<u8>::empty());
    assert(enc_entries(seq![(k, t)], o) =~= seq![tag_id(t)] + text_bytes(k, o) + enc(t, o));
}

#[verifier::rlimit(50)]
proof fn lemma_rt_items(e: u8, items: Seq<Tag>, j: int, o: Endianness, pre: Seq<u8>, post: Seq<u8>)
    requires
        0 <= j <= items.len(),
        items.len() <= i32::MAX,
        all_fit(items),
        all_homogeneous(e, items),
        all_unique(items),
    ensures
        parse_items(
            e,
            (items.len() - j) as nat,
            pre + enc_items(items, o) + post,
            pre.len() + enc_items(items.subrange(0, j), o).len() as int,
            o,
            items.subrange(0, j),
        ) == Ok::<(Seq<Tag>, int), Error>((items, pre.len() + enc_items(items, o).len() as int)),
    decreases items, items.len() - j,
{
    let s = pre + enc_items(items, o) + post;
    let p = pre.len() + enc_items(items.subrange(0, j), o).len() as int;
    if j == items.len() {
        assert(items.subrange(0, j) =~= items);
    } else {
        lemma_all_fit(items);
        lemma_all_homogeneous(e, items);
        lemma_all_unique(items);
        let t = items[j];
        let a = items.subrange(0, j);
        let c = items.subrange(j + 1, items.len() as int);
        assert(items =~= a + seq![t] + c);
        assert(items.subrange(0, j + 1) =~= a + seq![t]);
        lemma_enc_items_concat(a + seq![t], c, o);
        lemma_enc_items_concat(a, seq![t], o);
        lemma_enc_items_one(t, o);
        let pre2 = pre + enc_items(a, o);
        let post2 = enc_items(c, o) + post;
        assert(s =~= pre2 + enc(t, o) + post2);
        assert(well_formed(t));
        lemma_rt_value(t, o, pre2, post2);
        lemma_enc_nonempty(t, o);
        assert(tag_id(t) == e);
        assert(a.push(t) =~= items.subrange(0, j + 1));
        lemma_rt_items(e, items, j + 1, o, pre, post);
    }
}

/// The bytes of one entry, standing at `pre.len()`, read back as that entry.
proof fn lemma_rt_entry(k: Seq<char>, t: Tag, o: Endianness, pre: Seq<u8>, post: Seq<u8>)
    requires
        text_fits(k),
        well_formed(t),
    ensures
        ({
            let s = pre + (seq![tag_id(t)] + text_bytes(k, o) + enc(t, o)) + post;
            let p = pre.len() as int;
            let q = p + 1 + text_bytes(k, o).len();
            &&& s[p] == tag_id(t)
            &&& parse_text(s, p + 1, o) == Ok::<(Seq<char>, int), Error>((k, q))
            &&& parse_value(tag_id(t), s, q, o) == Ok::<(Tag, int), Error>((t, q + enc(t, o).len()))
        }),
    decreases t, 1int,
{
    let s = pre + (seq![tag_id(t)] + text_bytes(k, o) + enc(t, o)) + post;
    assert(s =~= (pre + seq![tag_id(t)]) + text_bytes(k, o) + (enc(t, o) + post));
    lemma_text_round_trip(k, o, pre + seq![tag_id(t)], enc(t, o) + post);
    assert(s =~= (pre + seq![tag_id(t)] + text_bytes(k, o)) + enc(t, o) + post);
    lemma_rt_value(t, o, pre + seq![tag_id(t)] + text_bytes(k, o), post);
}

/// With distinct names, storing the next entry only appends it.
proof fn lemma_put_next(es: Seq<(Seq<char>, Tag)>, j: int)
    requires
        0 <= j < es.len(),
        names_unique(es),
    ensures
        put_entry(es.subrange(0, j), es[j].0, es[j].1) == es.subrange(0, j + 1),
{
    let a = es.subrange(0, j);
    let k = es[j].0;
    lemma_find_name(a, k);
    assert(find_name(a, k) is None) by {
        if find_name(a, k) is Some {
            let i = find_name(a, k)->Some_0;
            assert(es[i].0 == es[j].0);
        }
    }
    assert(put_entry(a, k, es[j].1) =~= es.subrange(0, j + 1));
}

#[verifier::rlimit(80)]
proof fn lemma_rt_entries(es: Seq<(Seq<char>, Tag)>, j: int, o: Endianness, pre: Seq<u8>, post: Seq<u8>)
    requires
        0 <= j <= es.len(),
        entries_fit(es),
        entries_homogeneous(es),
        entries_unique(es),
        names_unique(es),
    ensures
        parse_entries(
            pre + (enc_entries(es, o) + seq![END_ID]) + post,
            pre.len() + enc_entries(es.subrange(0, j), o).len() as int,
            o,
            es.subrange(0, j),
        ) == Ok::<(Seq<(Seq<char>, Tag)>, int), Error>((es, pre.len() + enc_entries(es, o).len() + 1int)),
    decreases es, es.len() - j + 2,
{
    let s = pre + (enc_entries(es, o) + seq![END_ID]) + post;
    let p = pre.len() + enc_entries(es.subrange(0, j), o).len() as int;
    if j == es.len() {
        assert(es.subrange(0, j) =~= es);
        assert(s[p] == END_ID);
    } else {
        lemma_rt_entries_next(es, j, o, pre, post);
        lemma_rt_entries(es, j + 1, o, pre, post);
    }
}

#[verifier::rlimit(100)]
proof fn lemma_rt_entries_next(es: Seq<(Seq<char>, Tag)>, j: int, o: Endianness, pre: Seq<u8>, post: Seq<u8>)
    requires
        0 <= j < es.len(),
        entries_fit(es),
        entries_homogeneous(es),
        entries_unique(es),
        names_unique(es),
    ensures
        ({
            let s = pre + (enc_entries(es, o) + seq![END_ID]) + post;
            parse_entries(s, pre.len() + enc_entries(es.subrange(0, j), o).len() as int, o, es.subrange(0, j))
                == parse_entries(
                s,
                pre.len() + enc_entries(es.subrange(0, j + 1), o).len() as int,
                o,
                es.subrange(0, j + 1),
            )
        }),
    decreases es, 1int,
{
    let s = pre + (enc_entries(es, o) + seq![END_ID]) + post;
    let p = pre.len() + enc_entries(es.subrange(0, j), o).len() as int;
    let k = es[j].0;
    let t = es[j].1;
    let a = es.subrange(0, j);
    let entry = seq![tag_id(t)] + text_bytes(k, o) + enc(t, o);
    let q = p + 1 + text_bytes(k, o).len();
    let r = q + enc(t, o).len();
    lemma_entry_at(es, j, o, pre, post);
    lemma_enc_nonempty(t, o);
    lemma_entries_step(s, p, o, a, k, t, r);
    lemma_put_next(es, j);
}

#[verifier::rlimit(100)]
proof fn lemma_entry_at(es: Seq<(Seq<char>, Tag)>, j: int, o: Endianness, pre: Seq<u8>, post: Seq<u8>)
    requires
        0 <= j < es.len(),
        entries_fit(es),
        entries_homogeneous(es),
        entries_unique(es),
    ensures
        ({
            let s = pre + (enc_entries(es, o) + seq![END_ID]) + post;
            let p = pre.len() + enc_entries(es.subrange(0, j), o).len() as int;
            let k = es[j].0;
            let t = es[j].1;
            let q = p + 1 + text_bytes(k, o).len();
            let r = q + enc(t, o).len();
            &&& s[p] == tag_id(t)
            &&& parse_text(s, p + 1, o) == Ok::<(Seq<char>, int), Error>((k, q))
            &&& parse_value(tag_id(t), s, q, o) == Ok::<(Tag, int), Error>((t, r))
            &&& r == pre.len() + enc_entries(es.subrange(0, j + 1), o).len()
            &&& r <= s.len()
        }),
    decreases es, 0int,
{
    let s = pre + (enc_entries(es, o) + seq![END_ID]) + post;
    let k = es[j].0;
    let t = es[j].1;
    let a = es.subrange(0, j);
    let entry = seq![tag_id(t)] + text_bytes(k, o) + enc(t, o);
    let c = es.subrange(j + 1, es.len() as int);
    let pre2 = pre + enc_entries(a, o);
    let post2 = enc_entries(c, o) + seq![END_ID] + post;
    lemma_entries_split(es, j, o);
    assert(s =~= pre2 + entry + post2);
    assert(text_fits(k) && well_formed(t)) by {
        lemma_entries_fit(es);
        lemma_entries_homogeneous(es);
        lemma_entries_unique(es);
    }
    assert(decreases_to!(es => es[j]));
    lemma_rt_entry(k, t, o, pre2, post2);
}

proof fn lemma_entries_split(es: Seq<(Seq<char>, Tag)>, j: int, o: Endianness)
    requires
        0 <= j < es.len(),
    ensures
        ({
            let a = enc_entries(es.subrange(0, j), o);
            let entry = seq![tag_id(es[j].1)] + text_bytes(es[j].0, o) + enc(es[j].1, o);
            &&& enc_entries(es, o) == a + entry + enc_entries(es.subrange(j + 1, es.len() as int), o)
            &&& enc_entries(es.subrange(0, j + 1), o) == a + entry
        }),
{
    let k = es[j].0;
    let t = es[j].1;
    let a = es.subrange(0, j);
    let c = es.subrange(j + 1, es.len() as int);
    assert(es =~= a + seq![(k, t)] + c);
    assert(es.subrange(0, j + 1) =~= a + seq![(k, t)]);
    lemma_enc_entries_concat(a + seq![(k, t)], c, o);
    lemma_enc_entries_concat(a, seq![(k, t)], o);
    lemma_enc_entries_one(k, t, o);
}

/// One entry read at `p`, and the rest from where it ends.
proof fn lemma_entries_step(
    s: Seq<u8>,
    p: int,
    o: Endianness,
    acc: Seq<(Seq<char>, Tag)>,
    k: Seq<char>,
    t: Tag,
    r: int,
)
    requires
        0 <= p < r <= s.len(),
        s[p] == tag_id(t),
        ({
            let q = r - enc(t, o).len();
            &&& parse_text(s, p + 1, o) == Ok::<(Seq<char>, int), Error>((k, q))
            &&& parse_value(tag_id(t), s, q, o) == Ok::<(Tag, int), Error>((t, r))
        }),
    ensures
        parse_entries(s, p, o, acc) == parse_entries(s, r, o, put_entry(acc, k, t)),
{
}

/// A document that the stream format carries unchanged: its name fits a
/// 16-bit length and its root compound is well formed.
pub open spec fn doc_well_formed(d: DocModel) -> bool {
    text_fits(d.0) && well_formed(Tag::Compound(d.1))
}

/// Round trip: the bytes written for a well-formed document, whatever follows
/// them in the stream, read back as that same document, in either byte order,
/// and reading stops just after them.
pub proof fn lemma_document_round_trip(d: DocModel, o: Endianness, post: Seq<u8>)
    requires
        doc_well_formed(d),
    ensures
        doc_fits(d),
        parse_doc_end(doc_bytes(d, o) + post, o) == Ok::<(DocModel, int), Error>(
            (d, doc_bytes(d, o).len() as int),
        ),
        parse_doc(doc_bytes(d, o) + post, o) == Ok::<DocModel, Error>(d),
{
    let (name, es) = d;
    let s = doc_bytes(d, o) + post;
    let head = seq![COMPOUND_ID];
    let body = enc(Tag::Compound(es), o);
    assert(s =~= head + text_bytes(name, o) + (body + post));
    lemma_text_round_trip(name, o, head, body + post);
    let pre = head + text_bytes(name, o);
    assert(s =~= pre + (enc_entries(es, o) + seq![END_ID]) + post);
    assert(es.subrange(0, 0) =~= Seq::<(Seq<char>, Tag)>::empty());
    lemma_rt_entries(es, 0, o, pre, post);
}

/// Round trip for documents: a valid document (as `new`, `named` and `insert`
/// keep it) whose lengths can be written reads back equal from the bytes
/// `to_writer` gives, whatever follows them, and reading stops just after them.
pub proof fn lemma_blob_round_trip(b: Blob, o: Endianness, post: Seq<u8>)
    requires
        b.valid(),
        doc_fits(b@),
    ensures
        parse_doc_end(doc_bytes(b@, o) + post, o) == Ok::<(DocModel, int), Error>(
            (b@, doc_bytes(b@, o).len() as int),
        ),
        parse_doc(doc_bytes(b@, o) + post, o) == Ok::<DocModel, Error>(b@),
{
    lemma_document_round_trip(b@, o, post);
}

/// Storing a well-formed value under a name that fits keeps a well-formed
/// document well formed; so every document built by such inserts round-trips.
pub proof fn lemma_insert_keeps_well_formed(d: DocModel, k: Seq<char>, t: Tag)
    requires
        doc_well_formed(d),
        text_fits(k),
        well_formed(t),
    ensures
        doc_well_formed((d.0, put_entry(d.1, k, t))),
{
    let es = d.1;
    let r = put_entry(es, k, t);
    lemma_entries_fit(es);
    lemma_entries_homogeneous(es);
    lemma_entries_unique(es);
    lemma_entries_fit(r);
    lemma_entries_homogeneous(r);
    lemma_entries_unique(r);
    lemma_put_entry_unique(es, k, t);
    lemma_find_name(es, k);
    assert forall|i: int| 0 <= i < r.len() implies text_fits(#[trigger] r[i].0) && fits(r[i].1)
        && homogeneous(r[i].1) && unique_names(r[i].1) by {
        match find_name(es, k) {
            Some(m) => {
                if i != m {
                    assert(r[i] == es[i]);
                } else {
                    assert(r[i] == (k, t));
                }
            },
            None => {
                if i < es.len() {
                    assert(r[i] == es[i]);
                } else {
                    assert(r[i] == (k, t));
                }
            },
        }
    }
}

/// An empty list keeps its declared element type through a round trip.
pub proof fn lemma_empty_list_round_trip(e: u8, o: Endianness, pre: Seq<u8>, post: Seq<u8>)
    ensures
        parse_value(9, pre + enc(Tag::List(e, Seq::empty()), o) + post, pre.len() as int, o)
            == Ok::<(Tag, int), Error>((Tag::List(e, Seq::empty()), pre.len() + 5int)),
{
    let t = Tag::List(e, Seq::<Tag>::empty());
    assert(well_formed(t));
    lemma_rt_value(t, o, pre, post);
    assert(enc_items(Seq::<Tag>::empty(), o) =~= Seq::<u8>::empty());
}

/// A compound with no entries is the terminator byte alone.
pub proof fn lemma_empty_compound_bytes(o: Endianness)
    ensures
        enc(Tag::Compound(Seq::empty()), o) == seq![END_ID],
{
    assert(enc_entries(Seq::<(Seq<char>, Tag)>::empty(), o) =~= Seq::<u8>::empty());
    assert(enc(Tag::Compound(Seq::empty()), o) =~= seq![END_ID]);
}

/// Reading is a function of the bytes and the byte order: two documents read
/// from the same bytes are equal.
pub proof fn lemma_decode_deterministic(s: Seq<u8>, o: Endianness, a: Blob, b: Blob)
    requires
        parse_doc(s, o) == Ok::<DocModel, Error>(a@),
        parse_doc(s, o) == Ok::<DocModel, Error>(b@),
    ensures
        a@ == b@,
{
}

} // verus!
