use crate::error::{fails, gives, Error};
use crate::feature::{fits, parse_record, FeatureModel};
use crate::file::{
    file_bytes, is_index_of, law_index_is_determined, law_scan_returns_written, leaves_of,
    parse_head, parse_to_end, scan_all, FileHead,
};
use crate::geometry::GeometryType;
use crate::header::{Crs, CrsModel, HeaderModel};
use crate::index::Node;
use crate::reader::{with_prefix, Reader};
use crate::schema::{columns_view, Column};
use crate::wire::{lemma_parse_items_sticky, parse_items};
use crate::writer::{Writer, WriterOptions, WriterState};
use vstd::prelude::*;

verus! {

/// The header of the indexed copy of a file with header `src`: the same
/// ordinates and columns, an index, and what the caller gives for the rest.
pub open spec fn target_header(
    src: HeaderModel,
    geometry_type: GeometryType,
    description: Seq<u8>,
    crs: CrsModel,
    count: nat,
) -> HeaderModel {
    HeaderModel {
        geometry_type,
        has_index: true,
        dims: src.dims,
        feature_count: Some(count as u64),
        crs,
        description,
        columns: src.columns,
    }
}

/// Reads a record of the source and hands it to the target: the error of
/// the record where it cannot be read, `SchemaViolation` where the target
/// does not take the feature.
pub open spec fn copying_reader(src: HeaderModel, dst: HeaderModel) -> spec_fn(
    Seq<u8>,
    int,
    int,
) -> Result<(FeatureModel, int), Error> {
    |s: Seq<u8>, pos: int, end: int|
        match parse_record(s, pos, end, src) {
            Err(e) => Err(e),
            Ok((f, next)) => if fits(f, dst) {
                Ok((f, next))
            } else {
                Err(Error::SchemaViolation)
            },
        }
}

/// The features that go from the source to the target, one after another
/// in the order of their records; the first failure, of reading or of
/// writing, stands for the whole.
pub open spec fn copied(s: Seq<u8>, head: FileHead, dst: HeaderModel) -> Result<
    Seq<FeatureModel>,
    Error,
> {
    match head.header.feature_count {
        Some(n) => match parse_items(
            s,
            head.data_start,
            s.len() as int,
            n as nat,
            copying_reader(head.header, dst),
        ) {
            Ok((fs, _)) => Ok(fs),
            Err(e) => Err(e),
        },
        None => parse_to_end(s, head.data_start, copying_reader(head.header, dst)),
    }
}

/// The nodes of the packed tree over `leaves`.
pub open spec fn index_of(leaves: Seq<Node>) -> Seq<Node> {
    choose|nodes: Seq<Node>| is_index_of(nodes, leaves)
}

/// What `reindex` returns for the bytes of a source file: the error of
/// opening it, the first failure of copying its features, or else the
/// bytes of a file with the target header, the index over the features of
/// the source, and their records in the order of the source.
pub open spec fn reindexed(
    source: Seq<u8>,
    geometry_type: GeometryType,
    description: Seq<u8>,
    crs: CrsModel,
) -> Result<Seq<u8>, Error> {
    match parse_head(source) {
        Err(e) => Err(e),
        Ok(head) => match copied(
            source,
            head,
            target_header(head.header, geometry_type, description, crs, 0),
        ) {
            Err(e) => Err(e),
            Ok(fs) => Ok(
                file_bytes(
                    target_header(head.header, geometry_type, description, crs, fs.len()),
                    index_of(leaves_of(fs)),
                    fs,
                ),
            ),
        },
    }
}

fn copy_bytes(b: &Vec<u8>) -> (r: Vec<u8>)
    ensures
        r@ == b@,
{
    let mut r: Vec<u8> = Vec::new();
    let mut i: usize = 0;
    while i < b.len()
        invariant
            i <= b@.len(),
            r@ == b@.take(i as int),
        decreases b@.len() - i,
    {
        r.push(b[i]);
        i = i + 1;
        proof {
            assert(r@ =~= b@.take(i as int));
        }
    }
    proof {
        assert(b@.take(b@.len() as int) =~= b@);
    }
    r
}

fn copy_columns(cols: &Vec<Column>) -> (r: Vec<Column>)
    ensures
        columns_view(r@) == columns_view(cols@),
{
    let mut r: Vec<Column> = Vec::new();
    let mut i: usize = 0;
    while i < cols.len()
        invariant
            i <= cols@.len(),
            columns_view(r@) == columns_view(cols@).take(i as int),
        decreases cols@.len() - i,
    {
        let c = &cols[i];
        let ghost prev = r@;
        let copy = Column { name: copy_bytes(&c.name), kind: c.kind, nullable: c.nullable };
        proof {
            assert(copy@ == columns_view(cols@)[i as int]);
        }
        r.push(copy);
        i = i + 1;
        proof {
            assert(columns_view(r@) =~= columns_view(prev).push(copy@));
            assert(columns_view(cols@).take(i as int) =~= columns_view(cols@).take(i - 1).push(
                copy@,
            ));
        }
    }
    proof {
        assert(columns_view(cols@).take(cols@.len() as int) =~= columns_view(cols@));
    }
    r
}

/// Gives a file an index: reads the features of `source` one after another
/// and writes them, in their order, to a new file that has the ordinates and
/// the columns of the source, the given geometry type, description and
/// reference system, and an index over the features. The name is that of
/// the writer and is not written.
///
/// The result is the file exactly, and a full scan of it gives the features
/// that were copied. Nothing is returned but an error where the source does
/// not open, where one of its records cannot be read, or where the given
/// geometry type does not admit one of its features.
#[verifier::loop_isolation(false)]
pub fn reindex(
    source: Vec<u8>,
    name: Vec<u8>,
    geometry_type: GeometryType,
    description: Vec<u8>,
    crs: Crs,
) -> (r: Result<Vec<u8>, Error>)
    ensures
        match r {
            Ok(out) => gives(reindexed(source@, geometry_type, description@, crs@), out@),
            Err(e) => fails(reindexed(source@, geometry_type, description@, crs@), e),
        },
        r matches Ok(out) ==> {
            &&& parse_head(out@) is Ok
            &&& Ok::<Seq<FeatureModel>, Error>(
                scan_all(
                    out@,
                    parse_head(out@).unwrap().header,
                    parse_head(out@).unwrap().data_start,
                ).unwrap(),
            ) == copied(
                source@,
                parse_head(source@).unwrap(),
                target_header(
                    parse_head(source@).unwrap().header,
                    geometry_type,
                    description@,
                    crs@,
                    0,
                ),
            )
        },
{
    let ghost s = source@;
    let ghost given_description = description@;
    let ghost given_crs = crs@;
    let reader = match Reader::open(source) {
        Ok(rd) => rd,
        Err(e) => {
            return Err(e);
        },
    };
    let ghost head = reader.head();
    let ghost src = head.header;
    let ghost dst = target_header(src, geometry_type, given_description, given_crs, 0);
    let ghost cr = copying_reader(src, dst);
    let ghost start = head.data_start;
    let options = WriterOptions {
        description,
        write_index: true,
        crs,
        dims: reader.header().dims,
        columns: copy_columns(&reader.header().columns),
    };
    let mut writer = Writer::create(name, geometry_type, options);
    let mut scan = reader.select_all();
    let ghost mut seen: Seq<FeatureModel> = Seq::empty();
    let mut more: bool = true;
    proof {
        scan.lemma_well_formed();
        match parse_to_end(s, start, cr) {
            Ok(all) => {
                assert(seen + all =~= all);
            },
            Err(_) => {},
        }
    }
    while more
        invariant
            scan.well_formed(),
            writer.well_formed(),
            gives(parse_head(s), head),
            src == head.header,
            start == head.data_start,
            dst == target_header(src, geometry_type, given_description, given_crs, 0),
            cr == copying_reader(src, dst),
            scan@.bytes == s,
            scan@.header == src,
            0 <= scan@.pos <= s.len(),
            writer@.state != WriterState::Finalized,
            writer@.features == seen,
            writer@.header == target_header(
                src,
                geometry_type,
                given_description,
                given_crs,
                seen.len(),
            ),
            seen.len() < u64::MAX,
            more ==> !scan@.done,
            more ==> match src.feature_count {
                Some(n) => seen.len() <= n && scan@.remaining == Some((n - seen.len()) as u64)
                    && gives(
                    parse_items(s, start, s.len() as int, seen.len(), cr),
                    (seen, scan@.pos),
                ),
                None => scan@.remaining is None && parse_to_end(s, start, cr) == with_prefix(
                    seen,
                    parse_to_end(s, scan@.pos, cr),
                ),
            },
            !more ==> copied(s, head, dst) == Ok::<Seq<FeatureModel>, Error>(seen),
        decreases
                (if more {
                    1int
                } else {
                    0int
                }) + (match scan@.remaining {
                    Some(left) => left as int,
                    None => s.len() - scan@.pos,
                }),
    {
        let ghost before = scan@;
        let ghost count = seen.len();
        match scan.next() {
            Err(e) => {
                proof {
                    assert(fails(parse_record(s, before.pos, s.len() as int, src), e));
                    match src.feature_count {
                        Some(n) => {
                            assert(fails(
                                parse_items(s, start, s.len() as int, (count + 1) as nat, cr),
                                e,
                            ));
                            lemma_parse_items_sticky(
                                s,
                                start,
                                s.len() as int,
                                (count + 1) as nat,
                                n as nat,
                                cr,
                            );
                        },
                        None => {},
                    }
                }
                return Err(e);
            },
            Ok(None) => {
                proof {
                    match src.feature_count {
                        Some(n) => {},
                        None => {
                            assert(seen + Seq::<FeatureModel>::empty() =~= seen);
                        },
                    }
                }
                more = false;
            },
            Ok(Some(feature)) => {
                proof {
                    scan.lemma_well_formed();
                    writer.lemma_well_formed();
                }
                let ghost f = feature@;
                match writer.write_feature(&feature) {
                    Err(e) => {
                        proof {
                            assert(!fits(f, dst));
                            match src.feature_count {
                                Some(n) => {
                                    assert(fails(
                                        parse_items(
                                            s,
                                            start,
                                            s.len() as int,
                                            (count + 1) as nat,
                                            cr,
                                        ),
                                        e,
                                    ));
                                    lemma_parse_items_sticky(
                                        s,
                                        start,
                                        s.len() as int,
                                        (count + 1) as nat,
                                        n as nat,
                                        cr,
                                    );
                                },
                                None => {},
                            }
                        }
                        return Err(e);
                    },
                    Ok(()) => {
                        proof {
                            assert(fits(f, dst));
                            writer.lemma_well_formed();
                            match src.feature_count {
                                Some(n) => {},
                                None => {
                                    match parse_to_end(s, scan@.pos, cr) {
                                        Ok(rest) => {
                                            assert(seen + (seq![f] + rest) =~= seen.push(f) + rest);
                                        },
                                        Err(_) => {},
                                    }
                                },
                            }
                            seen = seen.push(f);
                        }
                    },
                }
            },
        }
    }
    let mut out: Vec<u8> = Vec::new();
    match writer.finalize(&mut out) {
        Ok(()) => {
            proof {
                let h = writer@.header;
                writer.lemma_well_formed();
                law_index_is_determined(writer@.index, index_of(leaves_of(seen)), leaves_of(seen));
                assert(out@ =~= file_bytes(h, writer@.index, seen));
                law_scan_returns_written(h, writer@.index, seen);
            }
            Ok(out)
        },
        Err(e) => Err(e),
    }
}

} // verus!
