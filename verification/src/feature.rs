use crate::bbox::BoundingBox;
use crate::error::{fails, gives, Error};
use crate::geometry::{
    geometry_bytes, lemma_geometry_round_trip, parse_geometry, shape_box, well_formed, Geometry,
    Shape,
};
use crate::header::{Header, HeaderModel};
use crate::schema::{
    attributes_bytes, conforms, get_attributes, lemma_attributes_round_trip, parse_attributes,
    put_attributes, values_conform, values_view, Value, ValueModel,
};
use crate::wire::{
    blob_bytes, get_varint, has_at, lemma_has_at_split, lemma_varint_round_trip, parse_varint,
    put_blob, varint_bytes,
};
use vstd::prelude::*;

verus! {

/// One feature: a geometry, and one attribute value for each column of the
/// schema, in the order of the columns.
#[derive(Clone, Debug, PartialEq, Eq)]
pub struct Feature {
    pub geometry: Geometry,
    pub attributes: Vec<Value>,
}

/// What a `Feature` holds.
pub struct FeatureModel {
    pub geometry: Shape,
    pub attributes: Seq<ValueModel>,
}

impl View for Feature {
    type V = FeatureModel;

    open spec fn view(&self) -> FeatureModel {
        FeatureModel { geometry: self.geometry@, attributes: values_view(self.attributes@) }
    }
}

/// What a list of features holds.
pub open spec fn features_view(v: Seq<Feature>) -> Seq<FeatureModel> {
    Seq::new(v.len(), |i: int| v[i]@)
}

/// The feature may stand in a file with header `h`: the declared geometry
/// type admits its geometry, the geometry keeps the arity rules and has the
/// declared ordinates, and its attributes conform to the columns.
pub open spec fn fits(f: FeatureModel, h: HeaderModel) -> bool {
    &&& h.geometry_type.spec_admits(f.geometry.kind())
    &&& well_formed(f.geometry, h.dims)
    &&& conforms(f.attributes, h.columns)
}

/// The geometry, then the attribute values.
pub open spec fn payload_bytes(f: FeatureModel) -> Seq<u8> {
    geometry_bytes(f.geometry) + attributes_bytes(f.attributes)
}

/// The length of the payload, then the payload.
pub open spec fn record_bytes(f: FeatureModel) -> Seq<u8> {
    blob_bytes(payload_bytes(f))
}

/// The feature record that starts at `pos`, and the position after it.
/// Bytes that end before the length is read or before the payload is
/// complete are a `TruncatedStream`. Within the payload a null in a column
/// that is not nullable is a `SchemaViolation`, and anything else that is
/// wrong, bytes left over included, is a `FormatError`.
#[verifier::opaque]
pub open spec fn parse_record(s: Seq<u8>, pos: int, end: int, h: HeaderModel) -> Result<
    (FeatureModel, int),
    Error,
> {
    match parse_varint(s, pos, end) {
        Err(e) => Err(e),
        Ok((len, start)) => if start + len > end {
            Err(Error::TruncatedStream)
        } else {
            let stop = start + len;
            match parse_geometry(s, start, stop, h.geometry_type, h.dims) {
                Err(_) => Err(Error::FormatError),
                Ok((geometry, pos1)) => match parse_attributes(s, pos1, stop, h.columns) {
                    Err(e) => if e == Error::SchemaViolation {
                        Err(Error::SchemaViolation)
                    } else {
                        Err(Error::FormatError)
                    },
                    Ok((attributes, pos2)) => if pos2 == stop {
                        Ok((FeatureModel { geometry, attributes }, stop))
                    } else {
                        Err(Error::FormatError)
                    },
                },
            }
        },
    }
}

/// `record_bytes`, as a function value.
pub open spec fn record_writer() -> spec_fn(FeatureModel) -> Seq<u8> {
    |f: FeatureModel| record_bytes(f)
}

/// `parse_record` for the header `h`, as a function value.
pub open spec fn record_reader(h: HeaderModel) -> spec_fn(Seq<u8>, int, int) -> Result<
    (FeatureModel, int),
    Error,
> {
    |s: Seq<u8>, pos: int, end: int| parse_record(s, pos, end, h)
}

/// A record of a feature that fits the header is read back as the feature.
pub proof fn lemma_record_round_trip(s: Seq<u8>, pos: int, end: int, f: FeatureModel, h: HeaderModel)
    requires
        has_at(s, pos, end, record_bytes(f)),
        fits(f, h),
        payload_bytes(f).len() <= u64::MAX,
    ensures
        parse_record(s, pos, end, h) == Ok::<(FeatureModel, int), Error>(
            (f, pos + record_bytes(f).len()),
        ),
{
    reveal(parse_record);
    let payload = payload_bytes(f);
    lemma_has_at_split(s, pos, end, varint_bytes(payload.len()), payload);
    lemma_varint_round_trip(s, pos, end, payload.len() as u64);
    let start: int = pos + varint_bytes(payload.len()).len() as int;
    let stop: int = start + payload.len() as int;
    assert(has_at(s, start, stop, payload));
    lemma_has_at_split(s, start, stop, geometry_bytes(f.geometry), attributes_bytes(f.attributes));
    lemma_geometry_round_trip(s, start, stop, f.geometry, h.geometry_type, h.dims);
    lemma_attributes_round_trip(
        s,
        start + geometry_bytes(f.geometry).len(),
        stop,
        f.attributes,
        h.columns,
    );
}

/// Reading the record of a feature that fits the header gives the feature
/// back.
pub proof fn law_record_decode_encode(f: FeatureModel, h: HeaderModel)
    requires
        fits(f, h),
        payload_bytes(f).len() <= u64::MAX,
    ensures
        parse_record(record_bytes(f), 0, record_bytes(f).len() as int, h) == Ok::<
            (FeatureModel, int),
            Error,
        >((f, record_bytes(f).len() as int)),
{
    let s = record_bytes(f);
    assert(s.subrange(0, s.len() as int) =~= s);
    lemma_record_round_trip(s, 0, s.len() as int, f, h);
}

/// Where no byte is left there is no record: the stream is cut short.
pub proof fn lemma_record_beyond_end(s: Seq<u8>, pos: int, end: int, h: HeaderModel)
    requires
        pos >= end,
    ensures
        parse_record(s, pos, end, h) == Err::<(FeatureModel, int), Error>(Error::TruncatedStream),
{
    reveal(parse_record);
}

impl Feature {
    /// Whether the feature may stand in a file with this header.
    pub fn fits(&self, header: &Header) -> (r: bool)
        ensures
            r == fits(self@, header@),
    {
        header.geometry_type.admits(self.geometry.kind()) && self.geometry.is_well_formed(
            header.dims,
        ) && values_conform(&self.attributes, &header.columns)
    }

    /// The bounding box of the geometry.
    pub fn bounding_box(&self) -> (r: Option<BoundingBox>)
        ensures
            r == shape_box(self@.geometry),
    {
        self.geometry.bounding_box()
    }

    /// Appends the record of the feature: the length of its payload, its
    /// geometry, its attribute values.
    pub fn encode_into(&self, out: &mut Vec<u8>)
        ensures
            final(out)@ == old(out)@ + record_bytes(self@),
    {
        let mut payload: Vec<u8> = Vec::new();
        self.geometry.encode_into(&mut payload);
        put_attributes(&mut payload, &self.attributes);
        proof {
            assert(payload@ =~= payload_bytes(self@));
        }
        put_blob(out, &payload);
    }

    /// Reads the record that starts at `pos` in a file with this header.
    pub fn decode_at(buf: &[u8], pos: usize, end: usize, header: &Header) -> (r: Result<
        (Feature, usize),
        Error,
    >)
        requires
            end <= buf@.len(),
        ensures
            match r {
                Ok((f, next)) => gives(
                    parse_record(buf@, pos as int, end as int, header@),
                    (f@, next as int),
                ) && pos < next <= end && fits(f@, header@),
                Err(e) => fails(parse_record(buf@, pos as int, end as int, header@), e),
            },
    {
        proof {
            reveal(parse_record);
        }
        let (len, start) = match get_varint(buf, pos, end) {
            Ok(v) => v,
            Err(e) => {
                return Err(e);
            },
        };
        if len > (end - start) as u64 {
            return Err(Error::TruncatedStream);
        }
        let stop: usize = start + len as usize;
        let (geometry, pos1) = match Geometry::decode_at(
            buf,
            start,
            stop,
            header.geometry_type,
            header.dims,
        ) {
            Ok(v) => v,
            Err(_) => {
                return Err(Error::FormatError);
            },
        };
        let (attributes, pos2) = match get_attributes(buf, pos1, stop, &header.columns) {
            Ok(v) => v,
            Err(e) => {
                return match e {
                    Error::SchemaViolation => Err(Error::SchemaViolation),
                    _ => Err(Error::FormatError),
                };
            },
        };
        if pos2 != stop {
            return Err(Error::FormatError);
        }
        Ok((Feature { geometry, attributes }, stop))
    }
}

} // verus!
