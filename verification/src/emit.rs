//! Mapping the typed value tree to a generic interchange tree.
//!
//! `emit_item` turns one decoded record into an `OutputValue`: an object
//! per record (keys in schema order), an array per list value, and a leaf
//! integer per scalar.  Every integer kind is emitted; reaching a
//! `StringId` or `String` value fails with `UnimplementedPrimitiveKind`
//! rather than silently emitting a placeholder, and a `FileEnd` value is an
//! `InternalInvariantViolation`.

use vstd::prelude::*;

use crate::value::{
    lemma_contents_view_index, lemma_pfields_view_index, ContentV, ParsedFieldContent,
    ParsedFieldData, ParsedFieldDataV, ParsedFieldV, TableItem,
};
use crate::DecodeError;

verus! {

/// A generic interchange tree that any structured-output serializer can
/// consume: signed and unsigned integer leaves, arrays, and key-ordered
/// objects.
#[derive(Debug, PartialEq)]
pub enum OutputValue {
    Signed(i64),
    Unsigned(u64),
    Array(Vec<OutputValue>),
    Object(Vec<(Vec<u8>, OutputValue)>),
}

/// The model of an interchange tree.
pub enum OutputV {
    Signed(i64),
    Unsigned(u64),
    Array(Seq<OutputV>),
    Object(Seq<(Seq<u8>, OutputV)>),
}

/// The model of an interchange tree value.
pub open spec fn output_view(v: OutputValue) -> OutputV
    decreases v, 0nat,
{
    match v {
        OutputValue::Signed(x) => OutputV::Signed(x),
        OutputValue::Unsigned(x) => OutputV::Unsigned(x),
        OutputValue::Array(items) => {
            proof {
                assert(decreases_to!(v => items));
                assert(decreases_to!(items => items@));
                assert(decreases_to!(v => items@));
            }
            OutputV::Array(outputs_view(items@))
        },
        OutputValue::Object(entries) => {
            proof {
                assert(decreases_to!(v => entries));
                assert(decreases_to!(entries => entries@));
                assert(decreases_to!(v => entries@));
            }
            OutputV::Object(entries_view(entries@))
        },
    }
}

/// The models of a sequence of interchange values, in order.
pub open spec fn outputs_view(s: Seq<OutputValue>) -> Seq<OutputV>
    decreases s, s.len(),
{
    if s.len() == 0 {
        Seq::empty()
    } else {
        seq![output_view(s[0])] + outputs_view(s.subrange(1, s.len() as int))
    }
}

/// The models of a sequence of (key, value) entries, in order.
pub open spec fn entries_view(s: Seq<(Vec<u8>, OutputValue)>) -> Seq<(Seq<u8>, OutputV)>
    decreases s, s.len(),
{
    if s.len() == 0 {
        Seq::empty()
    } else {
        seq![(s[0].0@, output_view(s[0].1))] + entries_view(s.subrange(1, s.len() as int))
    }
}

impl View for OutputValue {
    type V = OutputV;

    open spec fn view(&self) -> OutputV {
        output_view(*self)
    }
}

/// What emitting one value yields: an integer leaf, an array, an object,
/// or the error owed to a kind without an implemented value path.
pub open spec fn spec_emit_content(c: ContentV) -> Result<OutputV, DecodeError>
    decreases c, 0nat,
{
    match c {
        ContentV::FileEnd => Err(DecodeError::InternalInvariantViolation),
        ContentV::I8(v) => Ok(OutputV::Signed(v as i64)),
        ContentV::U8(v) => Ok(OutputV::Unsigned(v as u64)),
        ContentV::I16(v) => Ok(OutputV::Signed(v as i64)),
        ContentV::U16(v) => Ok(OutputV::Unsigned(v as u64)),
        ContentV::I32(v) => Ok(OutputV::Signed(v as i64)),
        ContentV::U32(v) => Ok(OutputV::Unsigned(v as u64)),
        ContentV::I64(v) => Ok(OutputV::Signed(v)),
        ContentV::U64(v) => Ok(OutputV::Unsigned(v)),
        ContentV::StringId => Err(DecodeError::UnimplementedPrimitiveKind),
        ContentV::String => Err(DecodeError::UnimplementedPrimitiveKind),
        ContentV::Struct(fields) => {
            proof {
                assert(decreases_to!(c => fields));
            }
            match spec_emit_record(fields) {
                Err(e) => Err(e),
                Ok(entries) => Ok(OutputV::Object(entries)),
            }
        },
    }
}

/// What emitting a record yields: one (key, value) entry per field, in
/// schema order, or the first field's error.
pub open spec fn spec_emit_record(fs: Seq<ParsedFieldV>) -> Result<
    Seq<(Seq<u8>, OutputV)>,
    DecodeError,
>
    decreases fs, fs.len(),
{
    if fs.len() == 0 {
        Ok(Seq::empty())
    } else {
        match spec_emit_data(fs[0].data) {
            Err(e) => Err(e),
            Ok(v) => match spec_emit_record(fs.subrange(1, fs.len() as int)) {
                Err(e) => Err(e),
                Ok(rest) => Ok(seq![(fs[0].key, v)] + rest),
            },
        }
    }
}

/// What emitting a field's value(s) yields: the scalar's leaf, or an array
/// with one element per list value.
pub open spec fn spec_emit_data(dd: ParsedFieldDataV) -> Result<OutputV, DecodeError>
    decreases dd, 0nat,
{
    match dd {
        ParsedFieldDataV::Scalar(c) => spec_emit_content(c),
        ParsedFieldDataV::List(cs) => {
            proof {
                assert(decreases_to!(dd => cs));
            }
            match spec_emit_list(cs) {
                Err(e) => Err(e),
                Ok(items) => Ok(OutputV::Array(items)),
            }
        },
    }
}

/// What emitting a sequence of values yields, in order.
pub open spec fn spec_emit_list(cs: Seq<ContentV>) -> Result<Seq<OutputV>, DecodeError>
    decreases cs, cs.len(),
{
    if cs.len() == 0 {
        Ok(Seq::empty())
    } else {
        match spec_emit_content(cs[0]) {
            Err(e) => Err(e),
            Ok(v) => match spec_emit_list(cs.subrange(1, cs.len() as int)) {
                Err(e) => Err(e),
                Ok(rest) => Ok(seq![v] + rest),
            },
        }
    }
}

/// Emitting a `StringId` or `String` value always fails with
/// `UnimplementedPrimitiveKind`: it is never silently emitted as a
/// placeholder.
pub proof fn lemma_emit_unimplemented(c: ContentV)
    requires
        c is StringId || c is String,
    ensures
        spec_emit_content(c) == Err::<OutputV, DecodeError>(
            DecodeError::UnimplementedPrimitiveKind,
        ),
{
}

/// Emits one decoded value.
pub fn emit_content(c: &ParsedFieldContent) -> (res: Result<OutputValue, DecodeError>)
    ensures
        (match res {
            Ok(v) => spec_emit_content(c@) == Ok::<OutputV, DecodeError>(v@),
            Err(e) => spec_emit_content(c@) == Err::<OutputV, DecodeError>(e),
        }),
    decreases *c,
{
    match c {
        ParsedFieldContent::FileEnd => Err(DecodeError::InternalInvariantViolation),
        ParsedFieldContent::I8(v) => Ok(OutputValue::Signed(*v as i64)),
        ParsedFieldContent::U8(v) => Ok(OutputValue::Unsigned(*v as u64)),
        ParsedFieldContent::I16(v) => Ok(OutputValue::Signed(*v as i64)),
        ParsedFieldContent::U16(v) => Ok(OutputValue::Unsigned(*v as u64)),
        ParsedFieldContent::I32(v) => Ok(OutputValue::Signed(*v as i64)),
        ParsedFieldContent::U32(v) => Ok(OutputValue::Unsigned(*v as u64)),
        ParsedFieldContent::I64(v) => Ok(OutputValue::Signed(*v)),
        ParsedFieldContent::U64(v) => Ok(OutputValue::Unsigned(*v)),
        ParsedFieldContent::StringId => Err(DecodeError::UnimplementedPrimitiveKind),
        ParsedFieldContent::String => Err(DecodeError::UnimplementedPrimitiveKind),
        ParsedFieldContent::Struct(item) => {
            proof {
                assert(decreases_to!(*c => *item));
            }
            match emit_item(item) {
                Ok(v) => Ok(v),
                Err(e) => Err(e),
            }
        },
    }
}

/// Emits a field's value(s): the scalar's leaf, or an array per list.
#[verifier::loop_isolation(false)]
pub fn emit_data(dd: &ParsedFieldData) -> (res: Result<OutputValue, DecodeError>)
    ensures
        (match res {
            Ok(v) => spec_emit_data(dd@) == Ok::<OutputV, DecodeError>(v@),
            Err(e) => spec_emit_data(dd@) == Err::<OutputV, DecodeError>(e),
        }),
    decreases *dd,
{
    match dd {
        ParsedFieldData::Scalar(c) => {
            proof {
                assert(decreases_to!(*dd => *c));
            }
            emit_content(c)
        },
        ParsedFieldData::List(cs) => {
            let ghost csv = crate::value::contents_view(cs@);
            proof {
                lemma_contents_view_index(cs@);
            }
            let mut out: Vec<OutputValue> = Vec::new();
            let mut i: usize = 0;
            proof {
                assert(csv.subrange(0, csv.len() as int) =~= csv);
                match spec_emit_list(csv) {
                    Ok(t) => {
                        assert(outputs_view(out@) + t =~= t);
                    },
                    Err(_) => {},
                }
            }
            while i < cs.len()
                invariant
                    i <= cs@.len(),
                    spec_emit_list(csv) == (match spec_emit_list(
                        csv.subrange(i as int, csv.len() as int),
                    ) {
                        Ok(t) => Ok::<Seq<OutputV>, DecodeError>(outputs_view(out@) + t),
                        Err(e) => Err::<Seq<OutputV>, DecodeError>(e),
                    }),
                decreases cs@.len() - i,
            {
                let ghost sub_pre = csv.subrange(i as int, csv.len() as int);
                proof {
                    assert(dd->List_0 == *cs);
                    assert(decreases_to!(*dd => dd->List_0));
                    assert(decreases_to!(*cs => cs@));
                    assert(decreases_to!(cs@ => cs@[i as int]));
                    assert(decreases_to!(*dd => cs@[i as int]));
                }
                let v = match emit_content(&cs[i]) {
                    Ok(v) => v,
                    Err(e) => {
                        proof {
                            assert(sub_pre[0] == csv[i as int]);
                        }
                        return Err(e)
                    },
                };
                let ghost out_pre = out@;
                out.push(v);
                proof {
                    lemma_outputs_view_push(out_pre, v);
                    assert(sub_pre[0] == csv[i as int]);
                    assert(sub_pre.subrange(1, sub_pre.len() as int) =~= csv.subrange(
                        i + 1,
                        csv.len() as int,
                    ));
                    match spec_emit_list(csv.subrange(i + 1, csv.len() as int)) {
                        Ok(t) => {
                            assert(spec_emit_list(sub_pre) == Ok::<Seq<OutputV>, DecodeError>(
                                seq![v@] + t,
                            ));
                            assert((outputs_view(out_pre) + (seq![v@] + t)) =~= (outputs_view(
                                out@,
                            ) + t));
                        },
                        Err(_) => {},
                    }
                }
                i = i + 1;
            }
            proof {
                assert(csv.subrange(csv.len() as int, csv.len() as int).len() == 0);
                assert(outputs_view(out@) + Seq::<OutputV>::empty() =~= outputs_view(out@));
            }
            Ok(OutputValue::Array(out))
        },
    }
}

/// Emits one record as an object: one (key, value) entry per field, in
/// schema order.
#[verifier::loop_isolation(false)]
pub fn emit_item(item: &TableItem) -> (res: Result<OutputValue, DecodeError>)
    ensures
        (match res {
            Ok(v) => (match spec_emit_record(item@) {
                Ok(entries) => v@ == OutputV::Object(entries),
                Err(_) => false,
            }),
            Err(e) => spec_emit_record(item@) == Err::<Seq<(Seq<u8>, OutputV)>, DecodeError>(e),
        }),
    decreases *item,
{
    let fields = &item.0;
    let ghost fsv = item@;
    proof {
        lemma_pfields_view_index(fields@);
    }
    let mut out: Vec<(Vec<u8>, OutputValue)> = Vec::new();
    let mut i: usize = 0;
    proof {
        assert(fsv.subrange(0, fsv.len() as int) =~= fsv);
        match spec_emit_record(fsv) {
            Ok(t) => {
                assert(entries_view(out@) + t =~= t);
            },
            Err(_) => {},
        }
    }
    while i < fields.len()
        invariant
            i <= fields@.len(),
            spec_emit_record(fsv) == (match spec_emit_record(
                fsv.subrange(i as int, fsv.len() as int),
            ) {
                Ok(t) => Ok::<Seq<(Seq<u8>, OutputV)>, DecodeError>(entries_view(out@) + t),
                Err(e) => Err::<Seq<(Seq<u8>, OutputV)>, DecodeError>(e),
            }),
        decreases fields@.len() - i,
    {
        let ghost sub_pre = fsv.subrange(i as int, fsv.len() as int);
        let f = &fields[i];
        proof {
            assert(decreases_to!(*item => item.0));
            assert(decreases_to!(item.0 => item.0@));
            assert(decreases_to!(item.0@ => item.0@[i as int]));
            assert(decreases_to!(item.0@[i as int] => item.0@[i as int].data));
            assert(decreases_to!(*item => item.0@[i as int].data));
            assert(sub_pre[0] == fsv[i as int]);
        }
        let v = match emit_data(&f.data) {
            Ok(v) => v,
            Err(e) => { return Err(e) },
        };
        let key = clone_key(&f.key);
        let ghost kv = key@;
        let ghost vv = v@;
        let ghost out_pre = out@;
        out.push((key, v));
        proof {
            lemma_entries_view_index(out_pre);
            lemma_entries_view_index(out@);
            assert(out@[out_pre.len() as int].0@ == kv);
            assert(output_view(out@[out_pre.len() as int].1) == vv);
            assert forall|ii: int| 0 <= ii < out@.len() implies entries_view(out@)[ii]
                == (entries_view(out_pre) + seq![(kv, vv)])[ii] by {
                if ii < out_pre.len() {
                    assert(out@[ii] == out_pre[ii]);
                }
            }
            assert(entries_view(out@) =~= entries_view(out_pre) + seq![(kv, vv)]);
            assert(sub_pre.subrange(1, sub_pre.len() as int) =~= fsv.subrange(
                i + 1,
                fsv.len() as int,
            ));
            match spec_emit_record(fsv.subrange(i + 1, fsv.len() as int)) {
                Ok(t) => {
                    assert(spec_emit_record(sub_pre) == Ok::<
                        Seq<(Seq<u8>, OutputV)>,
                        DecodeError,
                    >(seq![(fsv[i as int].key, v@)] + t));
                    assert((entries_view(out_pre) + (seq![(fsv[i as int].key, v@)] + t))
                        =~= (entries_view(out@) + t));
                },
                Err(_) => {},
            }
        }
        i = i + 1;
    }
    proof {
        assert(fsv.subrange(fsv.len() as int, fsv.len() as int).len() == 0);
        assert(entries_view(out@) + Seq::<(Seq<u8>, OutputV)>::empty() =~= entries_view(out@));
    }
    Ok(OutputValue::Object(out))
}

/// Byte-for-byte copy of a field key.
fn clone_key(v: &Vec<u8>) -> (r: Vec<u8>)
    ensures
        r@ == v@,
{
    let mut out: Vec<u8> = Vec::new();
    let mut i: usize = 0;
    while i < v.len()
        invariant
            i <= v@.len(),
            out@ == v@.subrange(0, i as int),
        decreases v@.len() - i,
    {
        out.push(v[i]);
        i = i + 1;
        proof {
            assert(out@ =~= v@.subrange(0, i as int));
        }
    }
    proof {
        assert(v@.subrange(0, v@.len() as int) =~= v@);
    }
    out
}

/// Appending one interchange value appends its model.
proof fn lemma_outputs_view_push(s: Seq<OutputValue>, v: OutputValue)
    ensures
        outputs_view(s.push(v)) == outputs_view(s) + seq![output_view(v)],
{
    lemma_outputs_view_index(s);
    lemma_outputs_view_index(s.push(v));
    assert forall|i: int| 0 <= i < s.len() + 1 implies outputs_view(s.push(v))[i] == (
    outputs_view(s) + seq![output_view(v)])[i] by {
        assert(outputs_view(s.push(v))[i] == output_view(s.push(v)[i]));
        if i < s.len() {
            assert(s.push(v)[i] == s[i]);
        } else {
            assert(s.push(v)[i] == v);
        }
    }
    assert(outputs_view(s.push(v)) =~= outputs_view(s) + seq![output_view(v)]);
}

/// `outputs_view` maps the sequence pointwise.
proof fn lemma_outputs_view_index(s: Seq<OutputValue>)
    ensures
        outputs_view(s).len() == s.len(),
        forall|i: int| 0 <= i < s.len() ==> outputs_view(s)[i] == output_view(#[trigger] s[i]),
    decreases s.len(),
{
    if s.len() > 0 {
        let sub = s.subrange(1, s.len() as int);
        lemma_outputs_view_index(sub);
        assert forall|i: int| 0 <= i < s.len() implies outputs_view(s)[i] == output_view(
            s[i],
        ) by {
            if i > 0 {
                assert(sub[i - 1] == s[i]);
                assert(outputs_view(s)[i] == outputs_view(sub)[i - 1]);
            }
        }
    }
}

/// `entries_view` maps the sequence pointwise.
proof fn lemma_entries_view_index(s: Seq<(Vec<u8>, OutputValue)>)
    ensures
        entries_view(s).len() == s.len(),
        forall|i: int| 0 <= i < s.len() ==> entries_view(s)[i] == ((#[trigger] s[i]).0@,
        output_view(s[i].1)),
    decreases s.len(),
{
    if s.len() > 0 {
        let sub = s.subrange(1, s.len() as int);
        lemma_entries_view_index(sub);
        assert forall|i: int| 0 <= i < s.len() implies entries_view(s)[i] == (s[i].0@,
        output_view(s[i].1)) by {
            if i > 0 {
                assert(sub[i - 1] == s[i]);
                assert(entries_view(s)[i] == entries_view(sub)[i - 1]);
            }
        }
    }
}

} // verus!
