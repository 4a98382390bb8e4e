//! The typed value tree produced by record decoding.
//!
//! One decoded record is a `TableItem`: an ordered list of `(key, value)`
//! pairs, one per schema node, in schema order.  A value is one primitive or
//! a count-prefixed list of primitives; `Struct` values nest a full record.
//! `StringId` and `String` values carry no decoded payload: the format
//! declares those kinds, but their value decoding is not implemented, and
//! reaching one during output emission is an error.

use vstd::prelude::*;

verus! {

/// One decoded record: its fields in schema order.
#[derive(Debug, PartialEq)]
pub struct TableItem(pub Vec<ParsedField>);

/// One decoded field: its schema key and its value(s).
#[derive(Debug, PartialEq)]
pub struct ParsedField {
    pub key: Vec<u8>,
    pub data: ParsedFieldData,
}

/// A field's value(s): exactly one, or a list whose length came from a
/// count read just before the elements.
#[derive(Debug, PartialEq)]
pub enum ParsedFieldData {
    Scalar(ParsedFieldContent),
    List(Vec<ParsedFieldContent>),
}

/// One decoded value, tagged by primitive kind.  `FileEnd` never appears in
/// decoded output; `StringId` and `String` carry no payload yet.
#[derive(Debug, PartialEq)]
pub enum ParsedFieldContent {
    FileEnd,
    I8(i8),
    U8(u8),
    I16(i16),
    U16(u16),
    I32(i32),
    U32(u32),
    I64(i64),
    U64(u64),
    StringId,
    String,
    Struct(TableItem),
}

/// The model of one decoded field.
pub struct ParsedFieldV {
    pub key: Seq<u8>,
    pub data: ParsedFieldDataV,
}

/// The model of a field's value(s).
pub enum ParsedFieldDataV {
    Scalar(ContentV),
    List(Seq<ContentV>),
}

/// The model of one decoded value.
pub enum ContentV {
    FileEnd,
    I8(i8),
    U8(u8),
    I16(i16),
    U16(u16),
    I32(i32),
    U32(u32),
    I64(i64),
    U64(u64),
    StringId,
    String,
    Struct(Seq<ParsedFieldV>),
}

/// The model of one decoded value.
pub open spec fn content_view(c: ParsedFieldContent) -> ContentV
    decreases c, 0nat,
{
    match c {
        ParsedFieldContent::FileEnd => ContentV::FileEnd,
        ParsedFieldContent::I8(v) => ContentV::I8(v),
        ParsedFieldContent::U8(v) => ContentV::U8(v),
        ParsedFieldContent::I16(v) => ContentV::I16(v),
        ParsedFieldContent::U16(v) => ContentV::U16(v),
        ParsedFieldContent::I32(v) => ContentV::I32(v),
        ParsedFieldContent::U32(v) => ContentV::U32(v),
        ParsedFieldContent::I64(v) => ContentV::I64(v),
        ParsedFieldContent::U64(v) => ContentV::U64(v),
        ParsedFieldContent::StringId => ContentV::StringId,
        ParsedFieldContent::String => ContentV::String,
        ParsedFieldContent::Struct(t) => {
            proof {
                assert(decreases_to!(c => t));
                assert(decreases_to!(t => t.0));
                assert(decreases_to!(t.0 => t.0@));
                assert(decreases_to!(c => t.0@));
            }
            ContentV::Struct(pfields_view(t.0@))
        },
    }
}

/// The models of a sequence of decoded values, in order.
pub open spec fn contents_view(s: Seq<ParsedFieldContent>) -> Seq<ContentV>
    decreases s, s.len(),
{
    if s.len() == 0 {
        Seq::empty()
    } else {
        seq![content_view(s[0])] + contents_view(s.subrange(1, s.len() as int))
    }
}

/// The model of a field's value(s).
pub open spec fn pdata_view(dd: ParsedFieldData) -> ParsedFieldDataV
    decreases dd, 0nat,
{
    match dd {
        ParsedFieldData::Scalar(c) => ParsedFieldDataV::Scalar(content_view(c)),
        ParsedFieldData::List(v) => {
            proof {
                assert(decreases_to!(dd => v));
                assert(decreases_to!(v => v@));
                assert(decreases_to!(dd => v@));
            }
            ParsedFieldDataV::List(contents_view(v@))
        },
    }
}

/// The model of one decoded field.
pub open spec fn pfield_view(f: ParsedField) -> ParsedFieldV
    decreases f, 0nat,
{
    ParsedFieldV { key: f.key@, data: pdata_view(f.data) }
}

/// The models of a sequence of decoded fields, in order.
pub open spec fn pfields_view(s: Seq<ParsedField>) -> Seq<ParsedFieldV>
    decreases s, s.len(),
{
    if s.len() == 0 {
        Seq::empty()
    } else {
        seq![pfield_view(s[0])] + pfields_view(s.subrange(1, s.len() as int))
    }
}

impl View for ParsedFieldContent {
    type V = ContentV;

    open spec fn view(&self) -> ContentV {
        content_view(*self)
    }
}

impl View for ParsedFieldData {
    type V = ParsedFieldDataV;

    open spec fn view(&self) -> ParsedFieldDataV {
        pdata_view(*self)
    }
}

impl View for ParsedField {
    type V = ParsedFieldV;

    open spec fn view(&self) -> ParsedFieldV {
        pfield_view(*self)
    }
}

impl View for TableItem {
    type V = Seq<ParsedFieldV>;

    open spec fn view(&self) -> Seq<ParsedFieldV> {
        pfields_view(self.0@)
    }
}

/// `pfields_view` maps the sequence pointwise.
pub proof fn lemma_pfields_view_index(s: Seq<ParsedField>)
    ensures
        pfields_view(s).len() == s.len(),
        forall|i: int| 0 <= i < s.len() ==> pfields_view(s)[i] == pfield_view(#[trigger] s[i]),
    decreases s.len(),
{
    if s.len() > 0 {
        let sub = s.subrange(1, s.len() as int);
        lemma_pfields_view_index(sub);
        assert forall|i: int| 0 <= i < s.len() implies pfields_view(s)[i] == pfield_view(
            s[i],
        ) by {
            if i > 0 {
                assert(sub[i - 1] == s[i]);
                assert(pfields_view(s)[i] == pfields_view(sub)[i - 1]);
            }
        }
    }
}

/// Appending one decoded field appends its model.
pub proof fn lemma_pfields_view_push(s: Seq<ParsedField>, f: ParsedField)
    ensures
        pfields_view(s.push(f)) == pfields_view(s) + seq![pfield_view(f)],
{
    lemma_pfields_view_index(s);
    lemma_pfields_view_index(s.push(f));
    assert forall|i: int| 0 <= i < s.len() + 1 implies pfields_view(s.push(f))[i] == (pfields_view(
        s,
    ) + seq![pfield_view(f)])[i] by {
        assert(pfields_view(s.push(f))[i] == pfield_view(s.push(f)[i]));
        if i < s.len() {
            assert(s.push(f)[i] == s[i]);
        } else {
            assert(s.push(f)[i] == f);
        }
    }
    assert(pfields_view(s.push(f)) =~= pfields_view(s) + seq![pfield_view(f)]);
}

/// `contents_view` maps the sequence pointwise.
pub proof fn lemma_contents_view_index(s: Seq<ParsedFieldContent>)
    ensures
        contents_view(s).len() == s.len(),
        forall|i: int| 0 <= i < s.len() ==> contents_view(s)[i] == content_view(#[trigger] s[i]),
    decreases s.len(),
{
    if s.len() > 0 {
        let sub = s.subrange(1, s.len() as int);
        lemma_contents_view_index(sub);
        assert forall|i: int| 0 <= i < s.len() implies contents_view(s)[i] == content_view(
            s[i],
        ) by {
            if i > 0 {
                assert(sub[i - 1] == s[i]);
                assert(contents_view(s)[i] == contents_view(sub)[i - 1]);
            }
        }
    }
}

/// Appending one decoded value appends its model.
pub proof fn lemma_contents_view_push(s: Seq<ParsedFieldContent>, c: ParsedFieldContent)
    ensures
        contents_view(s.push(c)) == contents_view(s) + seq![content_view(c)],
{
    lemma_contents_view_index(s);
    lemma_contents_view_index(s.push(c));
    assert forall|i: int| 0 <= i < s.len() + 1 implies contents_view(s.push(c))[i] == (
    contents_view(s) + seq![content_view(c)])[i] by {
        assert(contents_view(s.push(c))[i] == content_view(s.push(c)[i]));
        if i < s.len() {
            assert(s.push(c)[i] == s[i]);
        } else {
            assert(s.push(c)[i] == c);
        }
    }
    assert(contents_view(s.push(c)) =~= contents_view(s) + seq![content_view(c)]);
}

} // verus!
