use vstd::prelude::*;

use crate::check::{has_unique_names, is_homogeneous};
use crate::compress::{gunzip, gunzip_of, gzip, gzip_of, unzlib, unzlib_of, zlib, zlib_of};
use crate::decode::decode_entries;
use crate::encode::encode_compound;
use crate::error::Error;
use crate::raw::{parse_text, read_text, text_bytes, text_fits, write_text, Endianness};
use crate::value::{
    enc, entries_homogeneous, entries_unique, entry_models_of, find_name, fits, homogeneous,
    lemma_entries_homogeneous, lemma_entries_unique, lemma_entry_models_of, unique_names,
    lemma_entry_models_push, lemma_entry_models_update, model_of, names_unique, parse_entries,
    put_entry, Tag, Value, COMPOUND_ID,
};

verus! {

/// A whole document: a name and a compound of named values at its root.
#[derive(Debug, PartialEq)]
pub struct Blob {
    title: String,
    content: Vec<(String, Value)>,
}

/// The model of a document: its name and its root entries.
pub type DocModel = (Seq<char>, Seq<(Seq<char>, Tag)>);

/// The bytes of a document: the Compound identifier, the name, the root entries
/// and the terminator.
pub open spec fn doc_bytes(d: DocModel, o: Endianness) -> Seq<u8> {
    seq![COMPOUND_ID] + text_bytes(d.0, o) + enc(Tag::Compound(d.1), o)
}

/// Whether every length in the document can be written.
pub open spec fn doc_fits(d: DocModel) -> bool {
    text_fits(d.0) && fits(Tag::Compound(d.1))
}

/// Reads a document from the start of `s`: the document and the position just
/// after its root terminator. Bytes from there on are not read.
pub open spec fn parse_doc_end(s: Seq<u8>, o: Endianness) -> Result<(DocModel, int), Error> {
    if s.len() == 0 {
        Err(Error::ShortRead)
    } else if s[0] != COMPOUND_ID {
        Err(Error::NoRootCompound)
    } else {
        match parse_text(s, 1, o) {
            Err(e) => Err(e),
            Ok((name, p)) => match parse_entries(s, p, o, Seq::empty()) {
                Err(e) => Err(e),
                Ok((es, q)) => Ok(((name, es), q)),
            },
        }
    }
}

/// Reads a document from the start of `s`.
pub open spec fn parse_doc(s: Seq<u8>, o: Endianness) -> Result<DocModel, Error> {
    match parse_doc_end(s, o) {
        Ok((d, _)) => Ok(d),
        Err(e) => Err(e),
    }
}

/// Root entries that the format carries unchanged: distinct names, and every
/// list and compound inside them well formed in type and names.
pub open spec fn entries_valid(es: Seq<(Seq<char>, Tag)>) -> bool {
    names_unique(es) && entries_homogeneous(es) && entries_unique(es)
}

/// Storing a value whose lists are homogeneous and whose compounds have
/// distinct names keeps the root entries valid.
pub proof fn lemma_put_keeps_valid(es: Seq<(Seq<char>, Tag)>, k: Seq<char>, t: Tag)
    requires
        entries_valid(es),
        homogeneous(t),
        unique_names(t),
    ensures
        entries_valid(put_entry(es, k, t)),
{
    let r = put_entry(es, k, t);
    lemma_entries_homogeneous(es);
    lemma_entries_unique(es);
    lemma_entries_homogeneous(r);
    lemma_entries_unique(r);
    lemma_put_entry_unique(es, k, t);
    lemma_find_name(es, k);
    assert forall|i: int| 0 <= i < r.len() implies homogeneous(#[trigger] r[i].1) && unique_names(
        r[i].1,
    ) by {
        match find_name(es, k) {
            Some(m) => {
                if i != m {
                    assert(r[i] == es[i]);
                }
            },
            None => {
                if i < es.len() {
                    assert(r[i] == es[i]);
                }
            },
        }
    }
}

pub proof fn lemma_find_name(es: Seq<(Seq<char>, Tag)>, k: Seq<char>)
    ensures
        match find_name(es, k) {
            Some(i) => 0 <= i < es.len() && es[i].0 == k,
            None => forall|i: int| 0 <= i < es.len() ==> #[trigger] es[i].0 != k,
        },
    decreases es.len(),
{
    if es.len() > 0 {
        lemma_find_name(es.drop_last(), k);
        assert(forall|i: int| 0 <= i < es.len() - 1 ==> es.drop_last()[i] == es[i]);
    }
}

pub proof fn lemma_put_entry_unique(es: Seq<(Seq<char>, Tag)>, k: Seq<char>, t: Tag)
    requires
        names_unique(es),
    ensures
        names_unique(put_entry(es, k, t)),
{
    lemma_find_name(es, k);
}

proof fn lemma_parse_entries_unique(s: Seq<u8>, p: int, o: Endianness, acc: Seq<(Seq<char>, Tag)>)
    requires
        names_unique(acc),
        parse_entries(s, p, o, acc) is Ok,
    ensures
        names_unique(parse_entries(s, p, o, acc)->Ok_0.0),
    decreases s.len() - p,
{
    if 0 <= p < s.len() && s[p] != 0 {
        let (name, q) = parse_text(s, p + 1, o)->Ok_0;
        let (t, r) = crate::value::parse_value(s[p], s, q, o)->Ok_0;
        lemma_put_entry_unique(acc, name, t);
        lemma_parse_entries_unique(s, r, o, put_entry(acc, name, t));
    }
}

impl View for Blob {
    type V = DocModel;

    closed spec fn view(&self) -> DocModel {
        (self.title@, entry_models_of(self.content@))
    }
}

impl Blob {
    /// The root entries have distinct names.
    pub open spec fn wf(&self) -> bool {
        names_unique(self@.1)
    }

    /// Every list in the document is homogeneous and every compound has
    /// distinct names: what every document built by `new`, `named` and
    /// `insert` satisfies.
    pub open spec fn valid(&self) -> bool {
        entries_valid(self@.1)
    }

    /// A document with an empty name and no entries.
    pub fn new() -> (r: Blob)
        ensures
            r.wf(),
            r.valid(),
            r@ == (Seq::<char>::empty(), Seq::<(Seq<char>, Tag)>::empty()),
    {
        let r = Blob { title: String::new(), content: Vec::new() };
        assert(entry_models_of(r.content@) =~= Seq::<(Seq<char>, Tag)>::empty());
        r
    }

    /// A document with the given name and no entries.
    pub fn named(name: &str) -> (r: Blob)
        ensures
            r.wf(),
            r.valid(),
            r@ == (name@, Seq::<(Seq<char>, Tag)>::empty()),
    {
        let r = Blob { title: name.to_owned(), content: Vec::new() };
        assert(entry_models_of(r.content@) =~= Seq::<(Seq<char>, Tag)>::empty());
        r
    }

    /// Reads a document from the start of `src` in byte order `endian`, and
    /// gives the position just after its root terminator.
    pub fn from_reader_end(src: &[u8], endian: Endianness) -> (r: Result<(Blob, usize), Error>)
        ensures
            match parse_doc_end(src@, endian) {
                Ok((d, q)) => r is Ok && r->Ok_0.0@ == d && r->Ok_0.1 == q && r->Ok_0.0.wf(),
                Err(e) => r == Err::<(Blob, usize), Error>(e),
            },
    {
        if src.len() == 0 {
            return Err(Error::ShortRead);
        }
        if src[0] != COMPOUND_ID {
            return Err(Error::NoRootCompound);
        }
        match read_text(src, 1, endian) {
            Err(e) => Err(e),
            Ok((title, p)) => match decode_entries(src, p, endian) {
                Err(e) => Err(e),
                Ok((content, q)) => {
                    proof {
                        lemma_parse_entries_unique(src@, p as int, endian, Seq::empty());
                    }
                    Ok((Blob { title, content }, q))
                },
            },
        }
    }

    /// Reads a document from the bytes of a stream in byte order `endian`.
    pub fn from_reader(src: &[u8], endian: Endianness) -> (r: Result<Blob, Error>)
        ensures
            match parse_doc(src@, endian) {
                Ok(d) => r is Ok && r->Ok_0@ == d && r->Ok_0.wf(),
                Err(e) => r == Err::<Blob, Error>(e),
            },
    {
        match Blob::from_reader_end(src, endian) {
            Ok((b, _)) => Ok(b),
            Err(e) => Err(e),
        }
    }

    /// Reads a document from a gzip-compressed stream.
    pub fn from_gzip_reader(src: &[u8], endian: Endianness) -> (r: Result<Blob, Error>)
        ensures
            match gunzip_of(src@) {
                None => r == Err::<Blob, Error>(Error::Compression),
                Some(raw) => match parse_doc(raw, endian) {
                    Ok(d) => r is Ok && r->Ok_0@ == d && r->Ok_0.wf(),
                    Err(e) => r == Err::<Blob, Error>(e),
                },
            },
    {
        match gunzip(src) {
            None => Err(Error::Compression),
            Some(raw) => Blob::from_reader(raw.as_slice(), endian),
        }
    }

    /// Reads a document from a zlib-compressed stream.
    pub fn from_zlib_reader(src: &[u8], endian: Endianness) -> (r: Result<Blob, Error>)
        ensures
            match unzlib_of(src@) {
                None => r == Err::<Blob, Error>(Error::Compression),
                Some(raw) => match parse_doc(raw, endian) {
                    Ok(d) => r is Ok && r->Ok_0@ == d && r->Ok_0.wf(),
                    Err(e) => r == Err::<Blob, Error>(e),
                },
            },
    {
        match unzlib(src) {
            None => Err(Error::Compression),
            Some(raw) => Blob::from_reader(raw.as_slice(), endian),
        }
    }

    /// Appends the gzip-compressed bytes of this document; they inflate back to
    /// the bytes `to_writer` gives. Fails with `InvalidLength`, leaving `dst` as
    /// it was, exactly when some length cannot be written.
    pub fn to_gzip_writer(&self, dst: &mut Vec<u8>, endian: Endianness) -> (r: Result<(), Error>)
        ensures
            r is Ok <==> doc_fits(self@),
            r is Ok ==> final(dst)@ == old(dst)@ + gzip_of(doc_bytes(self@, endian)),
            r is Ok ==> gunzip_of(gzip_of(doc_bytes(self@, endian))) == Some(doc_bytes(self@, endian)),
            r is Err ==> final(dst)@ == old(dst)@ && r->Err_0 == Error::InvalidLength,
    {
        let mut raw: Vec<u8> = Vec::new();
        match self.to_writer(&mut raw, endian) {
            Err(e) => {
                return Err(e);
            },
            Ok(()) => {},
        }
        assert(raw@ =~= doc_bytes(self@, endian));
        match gzip(raw.as_slice()) {
            None => Err(Error::Compression),
            Some(mut packed) => {
                dst.append(&mut packed);
                Ok(())
            },
        }
    }

    /// Appends the zlib-compressed bytes of this document; they inflate back to
    /// the bytes `to_writer` gives. Fails with `InvalidLength`, leaving `dst` as
    /// it was, exactly when some length cannot be written.
    pub fn to_zlib_writer(&self, dst: &mut Vec<u8>, endian: Endianness) -> (r: Result<(), Error>)
        ensures
            r is Ok <==> doc_fits(self@),
            r is Ok ==> final(dst)@ == old(dst)@ + zlib_of(doc_bytes(self@, endian)),
            r is Ok ==> unzlib_of(zlib_of(doc_bytes(self@, endian))) == Some(doc_bytes(self@, endian)),
            r is Err ==> final(dst)@ == old(dst)@ && r->Err_0 == Error::InvalidLength,
    {
        let mut raw: Vec<u8> = Vec::new();
        match self.to_writer(&mut raw, endian) {
            Err(e) => {
                return Err(e);
            },
            Ok(()) => {},
        }
        assert(raw@ =~= doc_bytes(self@, endian));
        match zlib(raw.as_slice()) {
            None => Err(Error::Compression),
            Some(mut packed) => {
                dst.append(&mut packed);
                Ok(())
            },
        }
    }

    /// Appends the bytes of this document in byte order `endian`; fails, with
    /// `dst` in no stated form, when some length cannot be written.
    pub fn to_writer(&self, dst: &mut Vec<u8>, endian: Endianness) -> (r: Result<(), Error>)
        ensures
            r is Ok <==> doc_fits(self@),
            r is Ok ==> final(dst)@ == old(dst)@ + doc_bytes(self@, endian),
            r is Err ==> r->Err_0 == Error::InvalidLength,
    {
        let ghost start = dst@;
        dst.push(COMPOUND_ID);
        match write_text(dst, self.title.as_str(), endian) {
            Err(e) => {
                return Err(e);
            },
            Ok(()) => {},
        }
        let r = encode_compound(&self.content, endian, dst);
        assert(r is Ok ==> dst@ =~= start + doc_bytes(self@, endian));
        r
    }

    /// Stores `value` under `name`, over any entry of that name. Fails, leaving
    /// the document as it was, when a list inside `value` holds elements of
    /// another type than the one it declares, or else when a compound inside
    /// `value` holds two entries of one name.
    pub fn insert(&mut self, name: &str, value: Value) -> (r: Result<(), Error>)
        requires
            old(self).wf(),
        ensures
            final(self).wf(),
            old(self).valid() ==> final(self).valid(),
            homogeneous(model_of(value)) && unique_names(model_of(value)) ==> r is Ok
                && final(self)@ == (old(self)@.0, put_entry(old(self)@.1, name@, model_of(value))),
            !homogeneous(model_of(value)) ==> r == Err::<(), Error>(Error::HeterogeneousList)
                && final(self)@ == old(self)@,
            homogeneous(model_of(value)) && !unique_names(model_of(value))
                ==> r == Err::<(), Error>(Error::DuplicateName) && final(self)@ == old(self)@,
    {
        if !is_homogeneous(&value) {
            return Err(Error::HeterogeneousList);
        }
        if !has_unique_names(&value) {
            return Err(Error::DuplicateName);
        }
        let key = name.to_owned();
        let ghost em = entry_models_of(self.content@);
        proof {
            lemma_entry_models_of(self.content@);
            lemma_put_entry_unique(em, name@, model_of(value));
            if old(self).valid() {
                lemma_put_keeps_valid(em, name@, model_of(value));
            }
            assert(em.subrange(0, em.len() as int) =~= em);
        }
        let mut i: usize = self.content.len();
        while i > 0
            invariant
                i <= self.content@.len(),
                self.content@ == old(self).content@,
                self.title == old(self).title,
                em == entry_models_of(self.content@),
                em.len() == self.content@.len(),
                find_name(em, name@) == find_name(em.subrange(0, i as int), name@),
                key@ == name@,
                homogeneous(model_of(value)),
                unique_names(model_of(value)),
                names_unique(put_entry(em, name@, model_of(value))),
                old(self).valid() ==> entries_valid(put_entry(em, name@, model_of(value))),
            decreases i,
        {
            proof {
                lemma_entry_models_of(self.content@);
            }
            if self.content[i - 1].0 == key {
                proof {
                    lemma_entry_models_update(self.content@, i - 1, (key, value));
                    assert(em[i - 1].0 == name@);
                    assert(find_name(em, name@) == Some((i - 1) as int));
                }
                self.content[i - 1] = (key, value);
                return Ok(());
            }
            assert(em.subrange(0, i as int).drop_last() =~= em.subrange(0, i - 1));
            i = i - 1;
        }
        proof {
            lemma_entry_models_push(self.content@, (key, value));
        }
        self.content.push((key, value));
        Ok(())
    }

    /// The name of this document.
    pub fn title(&self) -> (r: &String)
        ensures
            r@ == self@.0,
    {
        &self.title
    }

    /// The root entries, in the order they were first stored.
    pub fn entries(&self) -> (r: &Vec<(String, Value)>)
        ensures
            entry_models_of(r@) == self@.1,
    {
        &self.content
    }

    /// The value stored under `name`, which must be there.
    pub fn index(&self, name: &str) -> (r: &Value)
        requires
            find_name(self@.1, name@) is Some,
        ensures
            model_of(*r) == self@.1[find_name(self@.1, name@)->Some_0].1,
    {
        match self.get(name) {
            Some(v) => v,
            None => {
                proof {
                    assert(false);
                }
                &self.content[0].1
            },
        }
    }

    /// The value stored under `name`, if any.
    pub fn get(&self, name: &str) -> (r: Option<&Value>)
        ensures
            match find_name(self@.1, name@) {
                Some(i) => r is Some && model_of(*r->Some_0) == self@.1[i].1,
                None => r is None,
            },
    {
        let key = name.to_owned();
        let ghost em = entry_models_of(self.content@);
        proof {
            assert(em.subrange(0, em.len() as int) =~= em);
            lemma_entry_models_of(self.content@);
        }
        let mut i: usize = self.content.len();
        while i > 0
            invariant
                i <= self.content@.len(),
                em == entry_models_of(self.content@),
                em.len() == self.content@.len(),
                find_name(em, name@) == find_name(em.subrange(0, i as int), name@),
                key@ == name@,
            decreases i,
        {
            proof {
                lemma_entry_models_of(self.content@);
            }
            if self.content[i - 1].0 == key {
                return Some(&self.content[i - 1].1);
            }
            assert(em.subrange(0, i as int).drop_last() =~= em.subrange(0, i - 1));
            i = i - 1;
        }
        None
    }
}

} // verus!
