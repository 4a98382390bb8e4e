//! Schema-driven record decoding.
//!
//! Given one schema node and a positioned stream, `Field::parse_from`
//! produces that field's value(s) and advances the cursor past exactly the
//! bytes that belong to the field, recursing into child schemas for nested
//! structs; `parse_record` does so for a whole schema level in order.  The
//! spec functions `spec_parse_field`, `spec_parse_fields` and
//! `spec_parse_elems` state the byte-exact meaning of one field, one record
//! and one list body, and every executable function here is proved equal to
//! its spec.

use vstd::prelude::*;

use crate::reader::{
    lemma_gamma_bounds, spec_read_be, spec_read_gamma, ByteReader,
};
use crate::schema::{fields_view, lemma_fields_view_index, DataType, Field, FieldV, VarType};
use crate::value::{
    contents_view, lemma_contents_view_push, lemma_pfields_view_push, pfields_view, ContentV,
    ParsedField, ParsedFieldContent, ParsedFieldData, ParsedFieldDataV, ParsedFieldV, TableItem,
};
use crate::DecodeError;

verus! {

/// One fixed-width big-endian primitive of kind `dt` at `p`.  `StringId`
/// and `String` have no implemented value decoding; `FileEnd` and `Struct`
/// never reach a primitive read when the schema was built by this crate's
/// header parser.
pub open spec fn spec_read_primitive(dt: DataType, d: Seq<u8>, p: nat) -> Result<
    (ContentV, nat),
    DecodeError,
> {
    match dt {
        DataType::I8 => match spec_read_be(d, p, 1) {
            Err(e) => Err(e),
            Ok((v, q)) => Ok((ContentV::I8((v as u8) as i8), q)),
        },
        DataType::U8 => match spec_read_be(d, p, 1) {
            Err(e) => Err(e),
            Ok((v, q)) => Ok((ContentV::U8(v as u8), q)),
        },
        DataType::I16 => match spec_read_be(d, p, 2) {
            Err(e) => Err(e),
            Ok((v, q)) => Ok((ContentV::I16((v as u16) as i16), q)),
        },
        DataType::U16 => match spec_read_be(d, p, 2) {
            Err(e) => Err(e),
            Ok((v, q)) => Ok((ContentV::U16(v as u16), q)),
        },
        DataType::I32 => match spec_read_be(d, p, 4) {
            Err(e) => Err(e),
            Ok((v, q)) => Ok((ContentV::I32((v as u32) as i32), q)),
        },
        DataType::U32 => match spec_read_be(d, p, 4) {
            Err(e) => Err(e),
            Ok((v, q)) => Ok((ContentV::U32(v as u32), q)),
        },
        DataType::I64 => match spec_read_be(d, p, 8) {
            Err(e) => Err(e),
            Ok((v, q)) => Ok((ContentV::I64((v as u64) as i64), q)),
        },
        DataType::U64 => match spec_read_be(d, p, 8) {
            Err(e) => Err(e),
            Ok((v, q)) => Ok((ContentV::U64(v as u64), q)),
        },
        DataType::StringId => Err(DecodeError::UnimplementedPrimitiveKind),
        DataType::String => Err(DecodeError::UnimplementedPrimitiveKind),
        DataType::FileEnd => Err(DecodeError::InternalInvariantViolation),
        DataType::Struct => Err(DecodeError::InternalInvariantViolation),
    }
}

/// One field's value(s) at `p`: a nested record when the node has children,
/// otherwise one primitive; for list cardinality, a count then that many
/// values.
pub open spec fn spec_parse_field(f: FieldV, d: Seq<u8>, p: nat) -> Result<
    (ParsedFieldV, nat),
    DecodeError,
>
    decreases f, 0nat,
{
    match f.var_type {
        VarType::Scalar(dt) => {
            let r = match f.children {
                Some(c) => {
                    proof {
                        assert(decreases_to!(f => f.children));
                        assert(decreases_to!(f.children => c));
                        assert(decreases_to!(f => c));
                    }
                    match spec_parse_fields(c, d, p) {
                        Err(e) => Err(e),
                        Ok((fs, q)) => Ok((ContentV::Struct(fs), q)),
                    }
                },
                None => spec_read_primitive(dt, d, p),
            };
            match r {
                Err(e) => Err(e),
                Ok((content, q)) => Ok(
                    (ParsedFieldV { key: f.key, data: ParsedFieldDataV::Scalar(content) }, q),
                ),
            }
        },
        VarType::List(dt) => match spec_read_gamma(d, p) {
            Err(e) => Err(e),
            Ok((n, p1)) => {
                proof {
                    assert(decreases_to!(f => f.children));
                }
                match spec_parse_elems(f.children, dt, n, d, p1) {
                    Err(e) => Err(e),
                    Ok((items, q)) => Ok(
                        (ParsedFieldV { key: f.key, data: ParsedFieldDataV::List(items) }, q),
                    ),
                }
            },
        },
    }
}

/// `n` list elements at `p`: each one a nested record when the node has
/// children, otherwise one primitive of kind `dt`.
pub open spec fn spec_parse_elems(
    children: Option<Seq<FieldV>>,
    dt: DataType,
    n: nat,
    d: Seq<u8>,
    p: nat,
) -> Result<(Seq<ContentV>, nat), DecodeError>
    decreases children, n,
{
    if n == 0 {
        Ok((Seq::empty(), p))
    } else {
        let head = match children {
            Some(c) => {
                proof {
                    assert(decreases_to!(children => c));
                }
                match spec_parse_fields(c, d, p) {
                    Err(e) => Err(e),
                    Ok((fs, q)) => Ok((ContentV::Struct(fs), q)),
                }
            },
            None => spec_read_primitive(dt, d, p),
        };
        match head {
            Err(e) => Err(e),
            Ok((c0, q)) => match spec_parse_elems(children, dt, (n - 1) as nat, d, q) {
                Err(e) => Err(e),
                Ok((rest, e2)) => Ok((seq![c0] + rest, e2)),
            },
        }
    }
}

/// One record at `p`: every field of the schema level, in order.
pub open spec fn spec_parse_fields(fields: Seq<FieldV>, d: Seq<u8>, p: nat) -> Result<
    (Seq<ParsedFieldV>, nat),
    DecodeError,
>
    decreases fields, fields.len(),
{
    if fields.len() == 0 {
        Ok((Seq::empty(), p))
    } else {
        match spec_parse_field(fields[0], d, p) {
            Err(e) => Err(e),
            Ok((pf, q)) => match spec_parse_fields(
                fields.subrange(1, fields.len() as int),
                d,
                q,
            ) {
                Err(e) => Err(e),
                Ok((rest, e2)) => Ok((seq![pf] + rest, e2)),
            },
        }
    }
}

/// A successful field parse never moves the cursor backwards; it stays
/// inside the buffer whenever it moved at all.
pub proof fn lemma_parse_field_bounds(f: FieldV, d: Seq<u8>, p: nat)
    ensures
        spec_parse_field(f, d, p) matches Ok(r) ==> p <= r.1 && (r.1 <= d.len() || r.1 == p),
    decreases f, 0nat,
{
    match f.var_type {
        VarType::Scalar(_dt) => match f.children {
            Some(c) => {
                lemma_parse_fields_bounds(c, d, p);
            },
            None => {},
        },
        VarType::List(_dt) => {
            lemma_gamma_bounds(d, p);
            let g = spec_read_gamma(d, p);
            if g is Ok {
                lemma_parse_elems_bounds(f.children, _dt, g->Ok_0.0, d, g->Ok_0.1);
            }
        },
    }
}

/// A successful list-body parse never moves the cursor backwards; it stays
/// inside the buffer whenever it moved at all.
pub proof fn lemma_parse_elems_bounds(
    children: Option<Seq<FieldV>>,
    dt: DataType,
    n: nat,
    d: Seq<u8>,
    p: nat,
)
    ensures
        spec_parse_elems(children, dt, n, d, p) matches Ok(r) ==> p <= r.1 && (r.1 <= d.len()
            || r.1 == p),
    decreases children, n,
{
    if n > 0 {
        match children {
            Some(c) => {
                lemma_parse_fields_bounds(c, d, p);
                let h = spec_parse_fields(c, d, p);
                if h is Ok {
                    lemma_parse_elems_bounds(children, dt, (n - 1) as nat, d, h->Ok_0.1);
                }
            },
            None => {
                let h = spec_read_primitive(dt, d, p);
                if h is Ok {
                    lemma_parse_elems_bounds(children, dt, (n - 1) as nat, d, h->Ok_0.1);
                }
            },
        }
    }
}

/// A successful record parse never moves the cursor backwards; it stays
/// inside the buffer whenever it moved at all.
pub proof fn lemma_parse_fields_bounds(fields: Seq<FieldV>, d: Seq<u8>, p: nat)
    ensures
        spec_parse_fields(fields, d, p) matches Ok(r) ==> p <= r.1 && (r.1 <= d.len() || r.1
            == p),
    decreases fields, fields.len(),
{
    if fields.len() > 0 {
        lemma_parse_field_bounds(fields[0], d, p);
        let h = spec_parse_field(fields[0], d, p);
        if h is Ok {
            lemma_parse_fields_bounds(fields.subrange(1, fields.len() as int), d, h->Ok_0.1);
        }
    }
}

/// Byte-for-byte copy of a field key.
fn clone_bytes(v: &Vec<u8>) -> (r: Vec<u8>)
    ensures
        r@ == v@,
{
    let mut out: Vec<u8> = Vec::new();
    let mut i: usize = 0;
    while i < v.len()
        invariant
            i <= v@.len(),
            out@ == v@.subrange(0, i as int),
        decreases v@.len() - i,
    {
        out.push(v[i]);
        i = i + 1;
        proof {
            assert(out@ =~= v@.subrange(0, i as int));
        }
    }
    proof {
        assert(v@.subrange(0, v@.len() as int) =~= v@);
    }
    out
}

impl DataType {
    /// Reads one fixed-width big-endian primitive of this kind.
    pub fn read_from(&self, r: &mut ByteReader) -> (res: Result<ParsedFieldContent, DecodeError>)
        ensures
            final(r).data@ == old(r).data@,
            (match res {
                Ok(c) => spec_read_primitive(*self, old(r).data@, old(r).pos as nat) == Ok::<
                    (ContentV, nat),
                    DecodeError,
                >((c@, final(r).pos as nat)),
                Err(e) => spec_read_primitive(*self, old(r).data@, old(r).pos as nat) == Err::<
                    (ContentV, nat),
                    DecodeError,
                >(e),
            }),
    {
        match self {
            DataType::I8 => match r.read_be(1) {
                Ok(v) => Ok(ParsedFieldContent::I8((v as u8) as i8)),
                Err(e) => Err(e),
            },
            DataType::U8 => match r.read_be(1) {
                Ok(v) => Ok(ParsedFieldContent::U8(v as u8)),
                Err(e) => Err(e),
            },
            DataType::I16 => match r.read_be(2) {
                Ok(v) => Ok(ParsedFieldContent::I16((v as u16) as i16)),
                Err(e) => Err(e),
            },
            DataType::U16 => match r.read_be(2) {
                Ok(v) => Ok(ParsedFieldContent::U16(v as u16)),
                Err(e) => Err(e),
            },
            DataType::I32 => match r.read_be(4) {
                Ok(v) => Ok(ParsedFieldContent::I32((v as u32) as i32)),
                Err(e) => Err(e),
            },
            DataType::U32 => match r.read_be(4) {
                Ok(v) => Ok(ParsedFieldContent::U32(v as u32)),
                Err(e) => Err(e),
            },
            DataType::I64 => match r.read_be(8) {
                Ok(v) => Ok(ParsedFieldContent::I64(v as i64)),
                Err(e) => Err(e),
            },
            DataType::U64 => match r.read_be(8) {
                Ok(v) => Ok(ParsedFieldContent::U64(v)),
                Err(e) => Err(e),
            },
            DataType::StringId => Err(DecodeError::UnimplementedPrimitiveKind),
            DataType::String => Err(DecodeError::UnimplementedPrimitiveKind),
            DataType::FileEnd => Err(DecodeError::InternalInvariantViolation),
            DataType::Struct => Err(DecodeError::InternalInvariantViolation),
        }
    }
}

impl Field {
    /// Decodes this field's value(s) from the reader, recursing into child
    /// schemas for nested structs, and advances the cursor past exactly the
    /// bytes that belong to this field.
    #[verifier::loop_isolation(false)]
    pub fn parse_from(&self, r: &mut ByteReader) -> (res: Result<ParsedField, DecodeError>)
        ensures
            final(r).data@ == old(r).data@,
            (match res {
                Ok(pf) => spec_parse_field(self@, old(r).data@, old(r).pos as nat) == Ok::<
                    (ParsedFieldV, nat),
                    DecodeError,
                >((pf@, final(r).pos as nat)),
                Err(e) => spec_parse_field(self@, old(r).data@, old(r).pos as nat) == Err::<
                    (ParsedFieldV, nat),
                    DecodeError,
                >(e),
            }),
        decreases *self,
    {
        let ghost d = r.data@;
        let ghost p0 = r.pos as nat;
        let key = clone_bytes(&self.key);
        match self.var_type {
            VarType::Scalar(dt) => {
                let content = match &self.children {
                    Some(children) => {
                        proof {
                            assert(decreases_to!(*self => self.children));
                            assert(decreases_to!(self.children => *children));
                            assert(decreases_to!(*children => children@));
                            assert(decreases_to!(*self => children@));
                        }
                        match parse_record(children, r) {
                            Ok(item) => ParsedFieldContent::Struct(item),
                            Err(e) => { return Err(e) },
                        }
                    },
                    None => match dt.read_from(r) {
                        Ok(c) => c,
                        Err(e) => { return Err(e) },
                    },
                };
                Ok(ParsedField { key, data: ParsedFieldData::Scalar(content) })
            },
            VarType::List(dt) => {
                let n = match r.read_gamma() {
                    Ok(v) => v,
                    Err(e) => { return Err(e) },
                };
                let ghost p1 = r.pos as nat;
                let ghost childv = self@.children;
                let mut items: Vec<ParsedFieldContent> = Vec::new();
                let mut i: u64 = 0;
                while i < n
                    invariant
                        i <= n,
                        r.data@ == d,
                        spec_parse_elems(childv, dt, n as nat, d, p1) == (match spec_parse_elems(
                            childv,
                            dt,
                            (n - i) as nat,
                            d,
                            r.pos as nat,
                        ) {
                            Ok(t) => Ok::<(Seq<ContentV>, nat), DecodeError>(
                                (contents_view(items@) + t.0, t.1),
                            ),
                            Err(e) => Err::<(Seq<ContentV>, nat), DecodeError>(e),
                        }),
                    decreases n - i,
                {
                    let ghost p_iter = r.pos as nat;
                    let c = match &self.children {
                        Some(children) => {
                            proof {
                                assert(decreases_to!(*self => self.children));
                                assert(decreases_to!(self.children => *children));
                                assert(decreases_to!(*children => children@));
                                assert(decreases_to!(*self => children@));
                            }
                            match parse_record(children, r) {
                                Ok(item) => ParsedFieldContent::Struct(item),
                                Err(e) => { return Err(e) },
                            }
                        },
                        None => match dt.read_from(r) {
                            Ok(c) => c,
                            Err(e) => { return Err(e) },
                        },
                    };
                    let ghost items_pre = items@;
                    items.push(c);
                    proof {
                        lemma_contents_view_push(items_pre, c);
                        match spec_parse_elems(childv, dt, (n - i - 1) as nat, d, r.pos as nat) {
                            Ok(t) => {
                                assert(spec_parse_elems(childv, dt, (n - i) as nat, d, p_iter)
                                    == Ok::<(Seq<ContentV>, nat), DecodeError>(
                                    (seq![c@] + t.0, t.1),
                                ));
                                assert((contents_view(items_pre) + (seq![c@] + t.0))
                                    =~= (contents_view(items@) + t.0));
                            },
                            Err(_) => {},
                        }
                    }
                    i = i + 1;
                }
                proof {
                    assert(contents_view(items@) + Seq::<ContentV>::empty() =~= contents_view(
                        items@,
                    ));
                }
                Ok(ParsedField { key, data: ParsedFieldData::List(items) })
            },
        }
    }
}

/// Decodes one full record: every field of the schema level, in order.
#[verifier::loop_isolation(false)]
pub fn parse_record(fields: &Vec<Field>, r: &mut ByteReader) -> (res: Result<
    TableItem,
    DecodeError,
>)
    ensures
        final(r).data@ == old(r).data@,
        (match res {
            Ok(item) => spec_parse_fields(fields_view(fields@), old(r).data@, old(r).pos as nat)
                == Ok::<(Seq<ParsedFieldV>, nat), DecodeError>((item@, final(r).pos as nat)),
            Err(e) => spec_parse_fields(fields_view(fields@), old(r).data@, old(r).pos as nat)
                == Err::<(Seq<ParsedFieldV>, nat), DecodeError>(e),
        }),
    decreases fields@,
{
    let ghost d = r.data@;
    let ghost p0 = r.pos as nat;
    let ghost fv = fields_view(fields@);
    proof {
        lemma_fields_view_index(fields@);
    }
    let mut out: Vec<ParsedField> = Vec::new();
    proof {
        assert(fv.subrange(0, fv.len() as int) =~= fv);
        match spec_parse_fields(fv, d, p0) {
            Ok(t) => {
                assert(pfields_view(out@) + t.0 =~= t.0);
            },
            Err(_) => {},
        }
    }
    let mut j: usize = 0;
    while j < fields.len()
        invariant
            j <= fields@.len(),
            r.data@ == d,
            spec_parse_fields(fv, d, p0) == (match spec_parse_fields(
                fv.subrange(j as int, fv.len() as int),
                d,
                r.pos as nat,
            ) {
                Ok(t) => Ok::<(Seq<ParsedFieldV>, nat), DecodeError>(
                    (pfields_view(out@) + t.0, t.1),
                ),
                Err(e) => Err::<(Seq<ParsedFieldV>, nat), DecodeError>(e),
            }),
        decreases fields@.len() - j,
    {
        let ghost p_iter = r.pos as nat;
        let ghost sub_pre = fv.subrange(j as int, fv.len() as int);
        let f = &fields[j];
        proof {
            assert(decreases_to!(fields@ => fields@[j as int]));
        }
        let pf = match f.parse_from(r) {
            Ok(pf) => pf,
            Err(e) => {
                proof {
                    assert(sub_pre[0] == fv[j as int]);
                }
                return Err(e)
            },
        };
        let ghost out_pre = out@;
        out.push(pf);
        proof {
            lemma_pfields_view_push(out_pre, pf);
            assert(sub_pre[0] == fv[j as int]);
            assert(sub_pre.subrange(1, sub_pre.len() as int) =~= fv.subrange(
                j + 1,
                fv.len() as int,
            ));
            match spec_parse_fields(fv.subrange(j + 1, fv.len() as int), d, r.pos as nat) {
                Ok(t) => {
                    assert(spec_parse_fields(sub_pre, d, p_iter) == Ok::<
                        (Seq<ParsedFieldV>, nat),
                        DecodeError,
                    >((seq![pf@] + t.0, t.1)));
                    assert((pfields_view(out_pre) + (seq![pf@] + t.0)) =~= (pfields_view(out@)
                        + t.0));
                },
                Err(_) => {},
            }
        }
        j = j + 1;
    }
    proof {
        assert(fv.subrange(fv.len() as int, fv.len() as int).len() == 0);
        assert(pfields_view(out@) + Seq::<ParsedFieldV>::empty() =~= pfields_view(out@));
    }
    Ok(TableItem(out))
}

} // verus!
