//! Table iteration: dense and sparse.
//!
//! A table is a sequence of records sharing one schema.  Each record is
//! framed by a gamma-coded `size + 1` prefix; a zero prefix is the only
//! valid end of table.  The declared size is advisory only: decoding always
//! follows the schema and never uses the size to skip, bound or validate
//! bytes.  A sparse table reads one extra gamma-coded integer per record,
//! its explicit index; the index does not influence decoding, and records
//! are returned in read order.

use vstd::prelude::*;

use crate::reader::{lemma_gamma_bounds, spec_read_gamma, ByteReader};
use crate::record::{lemma_parse_fields_bounds, parse_record, spec_parse_fields};
use crate::schema::{fields_view, Field, FieldV};
use crate::value::{ParsedFieldV, TableItem};
use crate::DecodeError;

verus! {

/// The models of a sequence of decoded records, in order.
pub open spec fn items_view(s: Seq<TableItem>) -> Seq<Seq<ParsedFieldV>> {
    Seq::new(s.len(), |i: int| s[i]@)
}

/// A dense table at `p`: records framed by gamma-coded `size + 1` prefixes,
/// decoded with the full schema until the zero sentinel.
pub open spec fn spec_read_table(fields: Seq<FieldV>, d: Seq<u8>, p: nat) -> Result<
    (Seq<Seq<ParsedFieldV>>, nat),
    DecodeError,
>
    decreases d.len() - p,
{
    match spec_read_gamma(d, p) {
        Err(e) => Err(e),
        Ok((size_plus, p1)) => if size_plus == 0 {
            Ok((Seq::empty(), p1))
        } else {
            proof {
                lemma_gamma_bounds(d, p);
            }
            match spec_parse_fields(fields, d, p1) {
                Err(e) => Err(e),
                Ok((rec, p2)) => {
                    proof {
                        lemma_parse_fields_bounds(fields, d, p1);
                    }
                    match spec_read_table(fields, d, p2) {
                        Err(e) => Err(e),
                        Ok((rest, e2)) => Ok((seq![rec] + rest, e2)),
                    }
                },
            }
        },
    }
}

/// A sparse table at `p`: like the dense form, but with one extra
/// gamma-coded integer per record, the record's explicit index, which is
/// read and then discarded.
pub open spec fn spec_read_sparse_table(fields: Seq<FieldV>, d: Seq<u8>, p: nat) -> Result<
    (Seq<Seq<ParsedFieldV>>, nat),
    DecodeError,
>
    decreases d.len() - p,
{
    match spec_read_gamma(d, p) {
        Err(e) => Err(e),
        Ok((size_plus, p1)) => if size_plus == 0 {
            Ok((Seq::empty(), p1))
        } else {
            proof {
                lemma_gamma_bounds(d, p);
            }
            match spec_read_gamma(d, p1) {
                Err(e) => Err(e),
                Ok((_index, p1b)) => {
                    proof {
                        lemma_gamma_bounds(d, p1);
                    }
                    match spec_parse_fields(fields, d, p1b) {
                        Err(e) => Err(e),
                        Ok((rec, p2)) => {
                            proof {
                                lemma_parse_fields_bounds(fields, d, p1b);
                            }
                            match spec_read_sparse_table(fields, d, p2) {
                                Err(e) => Err(e),
                                Ok((rest, e2)) => Ok((seq![rec] + rest, e2)),
                            }
                        },
                    }
                },
            }
        },
    }
}

/// Reads a dense table: one record per non-zero size prefix, until the zero
/// sentinel.  The declared size is never used to skip or validate bytes.
#[verifier::loop_isolation(false)]
pub fn read_table(r: &mut ByteReader, fields: &Vec<Field>) -> (res: Result<
    Vec<TableItem>,
    DecodeError,
>)
    ensures
        final(r).data@ == old(r).data@,
        (match res {
            Ok(items) => spec_read_table(fields_view(fields@), old(r).data@, old(r).pos as nat)
                == Ok::<(Seq<Seq<ParsedFieldV>>, nat), DecodeError>(
                (items_view(items@), final(r).pos as nat),
            ),
            Err(e) => spec_read_table(fields_view(fields@), old(r).data@, old(r).pos as nat)
                == Err::<(Seq<Seq<ParsedFieldV>>, nat), DecodeError>(e),
        }),
{
    let ghost d = r.data@;
    let ghost p0 = r.pos as nat;
    let ghost fv = fields_view(fields@);
    let mut items: Vec<TableItem> = Vec::new();
    proof {
        match spec_read_table(fv, d, p0) {
            Ok(t) => {
                assert(items_view(items@) + t.0 =~= t.0);
            },
            Err(_) => {},
        }
    }
    loop
        invariant
            r.data@ == d,
            spec_read_table(fv, d, p0) == (match spec_read_table(fv, d, r.pos as nat) {
                Ok(t) => Ok::<(Seq<Seq<ParsedFieldV>>, nat), DecodeError>(
                    (items_view(items@) + t.0, t.1),
                ),
                Err(e) => Err::<(Seq<Seq<ParsedFieldV>>, nat), DecodeError>(e),
            }),
        decreases d.len() - r.pos,
    {
        let ghost p_iter = r.pos as nat;
        let size_plus = match r.read_gamma() {
            Ok(v) => v,
            Err(e) => { return Err(e) },
        };
        proof {
            lemma_gamma_bounds(d, p_iter);
        }
        if size_plus == 0 {
            proof {
                assert(items_view(items@) + Seq::<Seq<ParsedFieldV>>::empty() =~= items_view(
                    items@,
                ));
            }
            return Ok(items);
        }
        // the declared record size (size_plus - 1) is advisory only and is
        // deliberately not used to bound or skip bytes
        let ghost p1 = r.pos as nat;
        let rec = match parse_record(fields, r) {
            Ok(x) => x,
            Err(e) => { return Err(e) },
        };
        proof {
            lemma_parse_fields_bounds(fv, d, p1);
        }
        let ghost items_pre = items@;
        items.push(rec);
        proof {
            assert(items_view(items@) =~= items_view(items_pre) + seq![rec@]);
            match spec_read_table(fv, d, r.pos as nat) {
                Ok(t) => {
                    assert(spec_read_table(fv, d, p_iter) == Ok::<
                        (Seq<Seq<ParsedFieldV>>, nat),
                        DecodeError,
                    >((seq![rec@] + t.0, t.1)));
                    assert((items_view(items_pre) + (seq![rec@] + t.0)) =~= (items_view(items@)
                        + t.0));
                },
                Err(_) => {},
            }
        }
    }
}

/// Reads a sparse table: like `read_table`, but each record's explicit
/// index is read and discarded.  The record count equals the number of
/// non-zero size prefixes seen, independent of the index values.
#[verifier::loop_isolation(false)]
pub fn read_sparse_table(r: &mut ByteReader, fields: &Vec<Field>) -> (res: Result<
    Vec<TableItem>,
    DecodeError,
>)
    ensures
        final(r).data@ == old(r).data@,
        (match res {
            Ok(items) => spec_read_sparse_table(
                fields_view(fields@),
                old(r).data@,
                old(r).pos as nat,
            ) == Ok::<(Seq<Seq<ParsedFieldV>>, nat), DecodeError>(
                (items_view(items@), final(r).pos as nat),
            ),
            Err(e) => spec_read_sparse_table(
                fields_view(fields@),
                old(r).data@,
                old(r).pos as nat,
            ) == Err::<(Seq<Seq<ParsedFieldV>>, nat), DecodeError>(e),
        }),
{
    let ghost d = r.data@;
    let ghost p0 = r.pos as nat;
    let ghost fv = fields_view(fields@);
    let mut items: Vec<TableItem> = Vec::new();
    proof {
        match spec_read_sparse_table(fv, d, p0) {
            Ok(t) => {
                assert(items_view(items@) + t.0 =~= t.0);
            },
            Err(_) => {},
        }
    }
    loop
        invariant
            r.data@ == d,
            spec_read_sparse_table(fv, d, p0) == (match spec_read_sparse_table(
                fv,
                d,
                r.pos as nat,
            ) {
                Ok(t) => Ok::<(Seq<Seq<ParsedFieldV>>, nat), DecodeError>(
                    (items_view(items@) + t.0, t.1),
                ),
                Err(e) => Err::<(Seq<Seq<ParsedFieldV>>, nat), DecodeError>(e),
            }),
        decreases d.len() - r.pos,
    {
        let ghost p_iter = r.pos as nat;
        let size_plus = match r.read_gamma() {
            Ok(v) => v,
            Err(e) => { return Err(e) },
        };
        proof {
            lemma_gamma_bounds(d, p_iter);
        }
        if size_plus == 0 {
            proof {
                assert(items_view(items@) + Seq::<Seq<ParsedFieldV>>::empty() =~= items_view(
                    items@,
                ));
            }
            return Ok(items);
        }
        // the record's explicit index: read, then discarded, as the output
        // keeps records in read order
        let ghost pa = r.pos as nat;
        let _index = match r.read_gamma() {
            Ok(v) => v,
            Err(e) => { return Err(e) },
        };
        proof {
            lemma_gamma_bounds(d, pa);
        }
        let ghost p1 = r.pos as nat;
        let rec = match parse_record(fields, r) {
            Ok(x) => x,
            Err(e) => { return Err(e) },
        };
        proof {
            lemma_parse_fields_bounds(fv, d, p1);
        }
        let ghost items_pre = items@;
        items.push(rec);
        proof {
            assert(items_view(items@) =~= items_view(items_pre) + seq![rec@]);
            match spec_read_sparse_table(fv, d, r.pos as nat) {
                Ok(t) => {
                    assert(spec_read_sparse_table(fv, d, p_iter) == Ok::<
                        (Seq<Seq<ParsedFieldV>>, nat),
                        DecodeError,
                    >((seq![rec@] + t.0, t.1)));
                    assert((items_view(items_pre) + (seq![rec@] + t.0)) =~= (items_view(items@)
                        + t.0));
                },
                Err(_) => {},
            }
        }
    }
}

} // verus!
