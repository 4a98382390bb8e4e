//! Schema parsing: tag bytes and the recursive table header.
//!
//! A header is a sequence of tag-byte/name pairs closed by a zero tag byte.
//! The tag byte packs a primitive kind into bits 0 through 3 and a list flag
//! into bit 4; bits 5 through 7 are reserved and not validated.  Nested
//! schemas for `Struct` fields do not follow their tag inline: the flat list
//! of one level is read first, and then the child schema of every `Struct`
//! field of that level follows, in field order.  `spec_parse_header` and
//! `spec_expand` state that two-phase layout exactly, and
//! `read_table_header` is proved to decode it.

use vstd::prelude::*;

use crate::reader::{lemma_str_bounds, spec_read_str, ByteReader};
use crate::DecodeError;

verus! {

/// The primitive kind carried by a tag byte's low nibble.  `FileEnd` is the
/// terminator sentinel and never describes a decoded value.
#[derive(Clone, Copy, Debug, PartialEq, Eq, Structural)]
pub enum DataType {
    FileEnd,
    I8,
    U8,
    I16,
    U16,
    I32,
    U32,
    I64,
    U64,
    StringId,
    String,
    Struct,
}

/// A field's cardinality and primitive kind: one value, or a count-prefixed
/// list of values.
#[derive(Clone, Copy, Debug, PartialEq, Eq, Structural)]
pub enum VarType {
    Scalar(DataType),
    List(DataType),
}

/// One schema node: field name, cardinality/kind, and, for `Struct` fields,
/// the child schema.
#[derive(Debug, PartialEq)]
pub struct Field {
    pub key: Vec<u8>,
    pub var_type: VarType,
    pub children: Option<Vec<Field>>,
}

/// The mathematical model of a schema node.
pub struct FieldV {
    pub key: Seq<u8>,
    pub var_type: VarType,
    pub children: Option<Seq<FieldV>>,
}

/// The model of one schema node.
pub open spec fn field_view(f: Field) -> FieldV
    decreases f, 0nat,
{
    FieldV {
        key: f.key@,
        var_type: f.var_type,
        children: match f.children {
            None => None,
            Some(v) => {
                proof {
                    assert(decreases_to!(f => f.children));
                    assert(decreases_to!(f.children => v));
                    assert(decreases_to!(v => v@));
                    assert(decreases_to!(f => v@));
                }
                Some(fields_view(v@))
            },
        },
    }
}

/// The models of a sequence of schema nodes, in order.
pub open spec fn fields_view(s: Seq<Field>) -> Seq<FieldV>
    decreases s, s.len(),
{
    if s.len() == 0 {
        Seq::empty()
    } else {
        seq![field_view(s[0])] + fields_view(s.subrange(1, s.len() as int))
    }
}

impl View for Field {
    type V = FieldV;

    open spec fn view(&self) -> FieldV {
        field_view(*self)
    }
}

/// `fields_view` maps the sequence pointwise.
pub proof fn lemma_fields_view_index(s: Seq<Field>)
    ensures
        fields_view(s).len() == s.len(),
        forall|i: int| 0 <= i < s.len() ==> fields_view(s)[i] == field_view(#[trigger] s[i]),
    decreases s.len(),
{
    if s.len() > 0 {
        let sub = s.subrange(1, s.len() as int);
        lemma_fields_view_index(sub);
        assert forall|i: int| 0 <= i < s.len() implies fields_view(s)[i] == field_view(s[i]) by {
            if i > 0 {
                assert(sub[i - 1] == s[i]);
                assert(fields_view(s)[i] == fields_view(sub)[i - 1]);
            }
        }
    }
}

/// Appending one node appends its model.
pub proof fn lemma_fields_view_push(s: Seq<Field>, f: Field)
    ensures
        fields_view(s.push(f)) == fields_view(s) + seq![field_view(f)],
{
    lemma_fields_view_index(s);
    lemma_fields_view_index(s.push(f));
    assert forall|i: int| 0 <= i < s.len() + 1 implies fields_view(s.push(f))[i] == (fields_view(s)
        + seq![field_view(f)])[i] by {
        assert(fields_view(s.push(f))[i] == field_view(s.push(f)[i]));
        if i < s.len() {
            assert(s.push(f)[i] == s[i]);
        } else {
            assert(s.push(f)[i] == f);
        }
    }
    assert(fields_view(s.push(f)) =~= fields_view(s) + seq![field_view(f)]);
}

/// The primitive kind selected by a tag byte's low nibble; nibbles 12
/// through 15 are outside the enumeration and rejected.
pub open spec fn spec_data_type_from_nibble(n: u8) -> Result<DataType, DecodeError> {
    if n == 0 {
        Ok(DataType::FileEnd)
    } else if n == 1 {
        Ok(DataType::I8)
    } else if n == 2 {
        Ok(DataType::U8)
    } else if n == 3 {
        Ok(DataType::I16)
    } else if n == 4 {
        Ok(DataType::U16)
    } else if n == 5 {
        Ok(DataType::I32)
    } else if n == 6 {
        Ok(DataType::U32)
    } else if n == 7 {
        Ok(DataType::I64)
    } else if n == 8 {
        Ok(DataType::U64)
    } else if n == 9 {
        Ok(DataType::StringId)
    } else if n == 10 {
        Ok(DataType::String)
    } else if n == 11 {
        Ok(DataType::Struct)
    } else {
        Err(DecodeError::InvalidPrimitiveKind)
    }
}

/// What one schema tag byte means: `None` for the zero terminator, otherwise
/// kind from bits 0-3 and cardinality from bit 4.
pub open spec fn spec_var_type_from_byte(b: u8) -> Result<Option<VarType>, DecodeError> {
    if b == 0 {
        Ok(None)
    } else {
        match spec_data_type_from_nibble(b & 0x0f) {
            Err(e) => Err(e),
            Ok(dt) => Ok(
                Some(
                    if b & 0x10 != 0 {
                        VarType::List(dt)
                    } else {
                        VarType::Scalar(dt)
                    },
                ),
            ),
        }
    }
}

/// The primitive kind under either cardinality.
pub open spec fn spec_data_type(vt: VarType) -> DataType {
    match vt {
        VarType::Scalar(dt) => dt,
        VarType::List(dt) => dt,
    }
}

/// Phase one of header parsing: the flat (name, kind) list of one schema
/// level, up to and including its zero terminator.
pub open spec fn spec_parse_flat(d: Seq<u8>, p: nat) -> Result<
    (Seq<(Seq<u8>, VarType)>, nat),
    DecodeError,
>
    decreases d.len() - p,
{
    if p >= d.len() {
        Err(DecodeError::UnexpectedEndOfStream)
    } else {
        match spec_var_type_from_byte(d[p as int]) {
            Err(e) => Err(e),
            Ok(None) => Ok((Seq::empty(), (p + 1) as nat)),
            Ok(Some(vt)) => match spec_read_str(d, (p + 1) as nat) {
                Err(e) => Err(e),
                Ok((key, q)) => {
                    proof {
                        lemma_str_bounds(d, (p + 1) as nat);
                    }
                    match spec_parse_flat(d, q) {
                        Err(e) => Err(e),
                        Ok((rest, e2)) => Ok((seq![(key, vt)] + rest, e2)),
                    }
                },
            },
        }
    }
}

/// A full header level: the flat list of phase one, with the child schema of
/// every `Struct` field parsed from the continuing stream, in field order.
pub open spec fn spec_parse_header(d: Seq<u8>, p: nat) -> Result<(Seq<FieldV>, nat), DecodeError>
    decreases d.len() - p, 0nat,
{
    match spec_parse_flat(d, p) {
        Err(e) => Err(e),
        Ok((flat, p1)) => {
            proof {
                lemma_flat_bounds(d, p);
            }
            spec_expand(flat, d, p1)
        },
    }
}

/// Phase two of header parsing: walk the flat list in order and attach to
/// each `Struct` entry the child schema that follows in the stream.
pub open spec fn spec_expand(
    flat: Seq<(Seq<u8>, VarType)>,
    d: Seq<u8>,
    p: nat,
) -> Result<(Seq<FieldV>, nat), DecodeError>
    decreases d.len() - p, flat.len(),
{
    if flat.len() == 0 {
        Ok((Seq::empty(), p))
    } else {
        let key = flat[0].0;
        let vt = flat[0].1;
        if spec_data_type(vt) is Struct {
            match spec_parse_header(d, p) {
                Err(e) => Err(e),
                Ok((kids, p2)) => if p <= p2 <= d.len() {
                    match spec_expand(flat.subrange(1, flat.len() as int), d, p2) {
                        Err(e) => Err(e),
                        Ok((rest, e2)) => Ok(
                            (
                                seq![(FieldV { key, var_type: vt, children: Some(kids) })] + rest,
                                e2,
                            ),
                        ),
                    }
                } else {
                    // a parsed header never moves the cursor backwards or past
                    // the end of the buffer (lemma_header_bounds), so this arm
                    // is unreachable; it exists to make termination evident
                    Err(DecodeError::UnexpectedEndOfStream)
                },
            }
        } else {
            match spec_expand(flat.subrange(1, flat.len() as int), d, p) {
                Err(e) => Err(e),
                Ok((rest, e2)) => Ok(
                    (seq![(FieldV { key, var_type: vt, children: None })] + rest, e2),
                ),
            }
        }
    }
}

/// A successful phase-one parse consumes at least the terminator byte and
/// stays inside the buffer.
pub proof fn lemma_flat_bounds(d: Seq<u8>, p: nat)
    ensures
        spec_parse_flat(d, p) matches Ok(r) ==> p < r.1 <= d.len(),
    decreases d.len() - p,
{
    if p < d.len() {
        let tag = spec_var_type_from_byte(d[p as int]);
        if tag is Ok && tag->Ok_0 is Some {
            lemma_str_bounds(d, (p + 1) as nat);
            let s = spec_read_str(d, (p + 1) as nat);
            if s is Ok {
                lemma_flat_bounds(d, s->Ok_0.1);
            }
        }
    }
}

/// A successful header parse consumes at least one byte and stays inside the
/// buffer.
pub proof fn lemma_header_bounds(d: Seq<u8>, p: nat)
    ensures
        spec_parse_header(d, p) matches Ok(r) ==> p < r.1 <= d.len(),
    decreases d.len() - p, 0nat,
{
    lemma_flat_bounds(d, p);
    let f = spec_parse_flat(d, p);
    if f is Ok {
        lemma_expand_bounds(f->Ok_0.0, d, f->Ok_0.1);
    }
}

/// A successful phase-two expansion never moves the cursor backwards; when
/// the flat list is non-empty and the cursor moved, it stays inside the
/// buffer.
pub proof fn lemma_expand_bounds(flat: Seq<(Seq<u8>, VarType)>, d: Seq<u8>, p: nat)
    ensures
        spec_expand(flat, d, p) matches Ok(r) ==> p <= r.1 && (r.1 <= d.len() || r.1 == p),
    decreases d.len() - p, flat.len(),
{
    if flat.len() > 0 {
        if spec_data_type(flat[0].1) is Struct {
            lemma_header_bounds(d, p);
            let h = spec_parse_header(d, p);
            if h is Ok {
                let p2 = h->Ok_0.1;
                if p <= p2 <= d.len() {
                    lemma_expand_bounds(flat.subrange(1, flat.len() as int), d, p2);
                }
            }
        } else {
            lemma_expand_bounds(flat.subrange(1, flat.len() as int), d, p);
        }
    }
}

/// A non-zero tag byte decodes to the kind named by its low nibble, with
/// list cardinality exactly when bit 4 of the byte is set; the zero byte is
/// the terminator.
pub proof fn lemma_tag_byte_decode(b: u8)
    ensures
        b == 0 ==> spec_var_type_from_byte(b) == Ok::<Option<VarType>, DecodeError>(None),
        b != 0 && spec_data_type_from_nibble(b & 0x0f) is Ok ==> (spec_var_type_from_byte(b)
            matches Ok(Some(vt)) && spec_data_type(vt) == spec_data_type_from_nibble(
            b & 0x0f,
        )->Ok_0 && ((vt is List) <==> ((b >> 4) & 1 == 1))),
        b != 0 && spec_data_type_from_nibble(b & 0x0f) is Err ==> spec_var_type_from_byte(b)
            == Err::<Option<VarType>, DecodeError>(DecodeError::InvalidPrimitiveKind),
{
    assert(((b >> 4) & 1 == 1) <==> (b & 0x10 != 0)) by (bit_vector);
    if b != 0 && spec_data_type_from_nibble(b & 0x0f) is Err {
        assert(spec_var_type_from_byte(b) == Err::<Option<VarType>, DecodeError>(
            DecodeError::InvalidPrimitiveKind,
        ));
        assert(spec_data_type_from_nibble(b & 0x0f) == Err::<DataType, DecodeError>(
            DecodeError::InvalidPrimitiveKind,
        ));
    }
}

/// A tag byte whose kind nibble is 12 through 15 always fails with
/// `InvalidPrimitiveKind`; it is never treated as a terminator or defaulted.
pub proof fn lemma_invalid_nibble_rejected(b: u8)
    requires
        12 <= (b & 0x0f),
    ensures
        spec_var_type_from_byte(b) == Err::<Option<VarType>, DecodeError>(
            DecodeError::InvalidPrimitiveKind,
        ),
{
    assert(b != 0) by (bit_vector)
        requires
            12 <= (b & 0x0f),
    ;
    assert(b & 0x0f <= 15) by (bit_vector);
}

impl DataType {
    /// Maps a low nibble to its primitive kind; nibbles 12 through 15 fail
    /// with `InvalidPrimitiveKind`, never a default.
    pub fn from_byte(byte: u8) -> (res: Result<DataType, DecodeError>)
        ensures
            res == spec_data_type_from_nibble(byte),
    {
        match byte {
            0 => Ok(DataType::FileEnd),
            1 => Ok(DataType::I8),
            2 => Ok(DataType::U8),
            3 => Ok(DataType::I16),
            4 => Ok(DataType::U16),
            5 => Ok(DataType::I32),
            6 => Ok(DataType::U32),
            7 => Ok(DataType::I64),
            8 => Ok(DataType::U64),
            9 => Ok(DataType::StringId),
            10 => Ok(DataType::String),
            11 => Ok(DataType::Struct),
            _ => Err(DecodeError::InvalidPrimitiveKind),
        }
    }
}

impl VarType {
    /// Decodes one schema tag byte: `None` for the zero terminator,
    /// otherwise cardinality (bit 4) and primitive kind (bits 0-3).
    pub fn from_byte(byte: u8) -> (res: Result<Option<VarType>, DecodeError>)
        ensures
            res == spec_var_type_from_byte(byte),
    {
        if byte == 0 {
            return Ok(None);
        }
        let dt = match DataType::from_byte(byte & 0x0f) {
            Ok(dt) => dt,
            Err(e) => { return Err(e) },
        };
        if byte & 0x10 != 0 {
            Ok(Some(VarType::List(dt)))
        } else {
            Ok(Some(VarType::Scalar(dt)))
        }
    }

    /// The primitive kind under either cardinality.
    pub fn data_type(&self) -> (res: DataType)
        ensures
            res == spec_data_type(*self),
    {
        match self {
            VarType::Scalar(dt) => *dt,
            VarType::List(dt) => *dt,
        }
    }
}

/// All entries of a phase-one field list still lack children.
pub open spec fn flat_none(s: Seq<Field>) -> bool {
    forall|i: int| 0 <= i < s.len() ==> (#[trigger] s[i]).children is None
}

/// The (name, kind) pairs of a phase-one field list.
pub open spec fn flat_of(s: Seq<Field>) -> Seq<(Seq<u8>, VarType)> {
    Seq::new(s.len(), |i: int| (s[i].key@, s[i].var_type))
}

/// Parses one full schema level from the reader: the flat tag/name list up
/// to its terminator, then the child schema of every `Struct` field, in
/// order.
#[verifier::loop_isolation(false)]
pub fn read_table_header(r: &mut ByteReader) -> (res: Result<Vec<Field>, DecodeError>)
    ensures
        final(r).data@ == old(r).data@,
        (match res {
            Ok(fields) => spec_parse_header(old(r).data@, old(r).pos as nat) == Ok::<
                (Seq<FieldV>, nat),
                DecodeError,
            >((fields_view(fields@), final(r).pos as nat)),
            Err(e) => spec_parse_header(old(r).data@, old(r).pos as nat) == Err::<
                (Seq<FieldV>, nat),
                DecodeError,
            >(e),
        }),
    decreases r.data@.len() - r.pos, 0nat,
{
    let ghost d = r.data@;
    let ghost p0 = r.pos as nat;
    let mut flat: Vec<Field> = Vec::new();
    loop
        invariant
            r.data@ == d,
            r.pos as nat == p0 || p0 < r.pos as nat <= d.len(),
            flat_none(flat@),
            spec_parse_flat(d, p0) == (match spec_parse_flat(d, r.pos as nat) {
                Ok(t) => Ok::<(Seq<(Seq<u8>, VarType)>, nat), DecodeError>(
                    (flat_of(flat@) + t.0, t.1),
                ),
                Err(e) => Err::<(Seq<(Seq<u8>, VarType)>, nat), DecodeError>(e),
            }),
        decreases d.len() - r.pos,
    {
        let ghost p_iter = r.pos as nat;
        let tag = match r.read_u8() {
            Ok(b) => b,
            Err(e) => { return Err(e) },
        };
        let vt_opt = match VarType::from_byte(tag) {
            Ok(o) => o,
            Err(e) => { return Err(e) },
        };
        match vt_opt {
            None => {
                proof {
                    assert(flat_of(flat@) + Seq::<(Seq<u8>, VarType)>::empty() =~= flat_of(
                        flat@,
                    ));
                }
                return expand_fields(flat, r);
            },
            Some(vt) => {
                let key = match r.read_str() {
                    Ok(k) => k,
                    Err(e) => { return Err(e) },
                };
                proof {
                    lemma_str_bounds(d, (p_iter + 1) as nat);
                }
                let ghost kv = (key@, vt);
                let ghost fl_pre = flat@;
                let new_field = Field { key, var_type: vt, children: None };
                flat.push(new_field);
                proof {
                    let q = r.pos as nat;
                    assert(flat_of(flat@) =~= flat_of(fl_pre) + seq![kv]);
                    match spec_parse_flat(d, q) {
                        Ok(t) => {
                            assert(spec_parse_flat(d, p_iter) == Ok::<
                                (Seq<(Seq<u8>, VarType)>, nat),
                                DecodeError,
                            >((seq![kv] + t.0, t.1)));
                            assert((flat_of(fl_pre) + (seq![kv] + t.0)) =~= (flat_of(flat@)
                                + t.0));
                        },
                        Err(_) => {},
                    }
                }
            },
        }
    }
}

/// Phase two over an already collected flat list: attach child schemas to
/// `Struct` entries by parsing the continuing stream.
#[verifier::loop_isolation(false)]
fn expand_fields(flat: Vec<Field>, r: &mut ByteReader) -> (res: Result<Vec<Field>, DecodeError>)
    requires
        flat_none(flat@),
        old(r).pos <= old(r).data@.len(),
    ensures
        final(r).data@ == old(r).data@,
        (match res {
            Ok(fields) => spec_expand(flat_of(flat@), old(r).data@, old(r).pos as nat) == Ok::<
                (Seq<FieldV>, nat),
                DecodeError,
            >((fields_view(fields@), final(r).pos as nat)),
            Err(e) => spec_expand(flat_of(flat@), old(r).data@, old(r).pos as nat) == Err::<
                (Seq<FieldV>, nat),
                DecodeError,
            >(e),
        }),
    decreases r.data@.len() - r.pos, flat@.len(),
{
    let ghost d = r.data@;
    let ghost p1 = r.pos as nat;
    let ghost flat0 = flat@;
    let mut flat = flat;
    let mut out: Vec<Field> = Vec::new();
    while flat.len() > 0
        invariant
            r.data@ == d,
            p1 <= r.pos as nat <= d.len(),
            flat@.len() <= flat0.len(),
            flat_none(flat@),
            spec_expand(flat_of(flat0), d, p1) == (match spec_expand(
                flat_of(flat@),
                d,
                r.pos as nat,
            ) {
                Ok(t) => Ok::<(Seq<FieldV>, nat), DecodeError>((fields_view(out@) + t.0, t.1)),
                Err(e) => Err::<(Seq<FieldV>, nat), DecodeError>(e),
            }),
        decreases flat@.len(),
    {
        let ghost flat_pre = flat@;
        let ghost p_iter = r.pos as nat;
        let f = flat.remove(0);
        proof {
            assert(flat_of(flat@) =~= flat_of(flat_pre).subrange(
                1,
                flat_of(flat_pre).len() as int,
            ));
        }
        let ghost out_pre = out@;
        if f.var_type.data_type() == DataType::Struct {
            let kids = match read_table_header(r) {
                Ok(k) => k,
                Err(e) => { return Err(e) },
            };
            proof {
                lemma_header_bounds(d, p_iter);
            }
            let ghost fv = FieldV {
                key: f.key@,
                var_type: f.var_type,
                children: Some(fields_view(kids@)),
            };
            let expanded = Field { key: f.key, var_type: f.var_type, children: Some(kids) };
            proof {
                assert(expanded@ == fv);
            }
            out.push(expanded);
            proof {
                lemma_fields_view_push(out_pre, expanded);
                let q = r.pos as nat;
                match spec_expand(flat_of(flat@), d, q) {
                    Ok(t) => {
                        assert(spec_expand(flat_of(flat_pre), d, p_iter) == Ok::<
                            (Seq<FieldV>, nat),
                            DecodeError,
                        >((seq![fv] + t.0, t.1)));
                        assert((fields_view(out_pre) + (seq![fv] + t.0)) =~= (fields_view(out@)
                            + t.0));
                    },
                    Err(_) => {},
                }
            }
        } else {
            let ghost fv = f@;
            proof {
                assert(fv.children is None);
            }
            out.push(f);
            proof {
                lemma_fields_view_push(out_pre, f);
                let q = r.pos as nat;
                match spec_expand(flat_of(flat@), d, q) {
                    Ok(t) => {
                        assert(spec_expand(flat_of(flat_pre), d, p_iter) == Ok::<
                            (Seq<FieldV>, nat),
                            DecodeError,
                        >((seq![fv] + t.0, t.1)));
                        assert((fields_view(out_pre) + (seq![fv] + t.0)) =~= (fields_view(out@)
                            + t.0));
                    },
                    Err(_) => {},
                }
            }
        }
    }
    proof {
        assert(flat_of(flat@).len() == 0);
        assert(fields_view(out@) + Seq::<FieldV>::empty() =~= fields_view(out@));
    }
    Ok(out)
}

} // verus!
