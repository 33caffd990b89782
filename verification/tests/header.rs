use packed_features::error::Error;
use packed_features::feature::Feature;
use packed_features::geometry::{Coord, Dimensions, Geometry, GeometryType};
use packed_features::header::{get_preamble, put_preamble, Crs, Header, VERSION};
use packed_features::reader::Reader;
use packed_features::reindex::reindex;
use packed_features::schema::{Column, ColumnType, Value};

fn header() -> Header {
    Header {
        geometry_type: GeometryType::Polygon,
        has_index: true,
        dims: Dimensions { has_z: true, has_m: false },
        feature_count: Some(300),
        crs: Crs { code: 4326, wkt: Some(b"GEOGCS[\"WGS 84\"]".to_vec()) },
        description: "Öffentliche Anlagen".as_bytes().to_vec(),
        columns: vec![
            Column { name: b"id".to_vec(), kind: ColumnType::Int, nullable: false },
            Column { name: b"name".to_vec(), kind: ColumnType::Text, nullable: true },
        ],
    }
}

fn plain() -> Header {
    Header {
        geometry_type: GeometryType::Point,
        has_index: false,
        dims: Dimensions { has_z: false, has_m: false },
        feature_count: Some(0),
        crs: Crs { code: 0, wkt: None },
        description: Vec::new(),
        columns: Vec::new(),
    }
}

fn block(h: &Header) -> Vec<u8> {
    let mut out: Vec<u8> = Vec::new();
    h.encode_into(&mut out);
    out
}

fn preamble(h: &Header) -> Vec<u8> {
    let mut out: Vec<u8> = Vec::new();
    put_preamble(&mut out, h);
    out
}

fn with_block(block: &[u8]) -> Vec<u8> {
    let mut out: Vec<u8> = vec![0x66, 0x70, 0x6b, 0x0a, VERSION, block.len() as u8];
    out.extend_from_slice(block);
    out
}

#[test]
fn plain_header_exact_bytes() {
    assert_eq!(block(&plain()), vec![1, 0, 1, 0, 0, 0, 0]);
    assert_eq!(preamble(&plain()), vec![0x66, 0x70, 0x6b, 0x0a, 1, 7, 1, 0, 1, 0, 0, 0, 0]);
}

#[test]
fn header_fields_exact_bytes() {
    let bytes = block(&header());
    assert_eq!(bytes[0], 3);
    assert_eq!(bytes[1], 1 + 2);
    assert_eq!(&bytes[2..4], &[0xad, 0x02]);
    assert_eq!(&bytes[4..6], &[0xe6, 0x21]);
    assert_eq!(bytes[6], 1);
    assert_eq!(bytes[7], 16);
}

#[test]
fn flags() {
    let mut h = plain();
    h.dims = Dimensions { has_z: false, has_m: true };
    assert_eq!(block(&h)[1], 4);
    h.dims = Dimensions { has_z: true, has_m: true };
    h.has_index = true;
    assert_eq!(block(&h)[1], 7);
}

#[test]
fn unknown_count_is_written_as_zero() {
    let mut h = plain();
    h.feature_count = None;
    assert_eq!(block(&h)[2], 0);
    h.feature_count = Some(0);
    assert_eq!(block(&h)[2], 1);
}

#[test]
fn header_round_trip() {
    for h in [header(), plain()] {
        let bytes = block(&h);
        assert_eq!(Header::decode_at(&bytes, 0, bytes.len()), Ok((h.clone(), bytes.len())));
        let mut file = preamble(&h);
        let after = file.len();
        file.extend_from_slice(&[1, 2, 3]);
        assert_eq!(get_preamble(&file), Ok((h, after)));
    }
}

#[test]
fn header_is_ok() {
    assert!(header().is_ok());
    assert!(plain().is_ok());
    let mut h = plain();
    h.feature_count = None;
    assert!(h.is_ok());
    h.has_index = true;
    assert!(!h.is_ok());
    h.feature_count = Some(u64::MAX);
    assert!(!h.is_ok());
    h.feature_count = Some(u64::MAX - 1);
    assert!(h.is_ok());
}

#[test]
fn malformed_headers() {
    let good = block(&plain());
    let mut bad_type = good.clone();
    bad_type[0] = 8;
    assert_eq!(Header::decode_at(&bad_type, 0, bad_type.len()), Err(Error::FormatError));
    let mut bad_flags = good.clone();
    bad_flags[1] = 8;
    assert_eq!(Header::decode_at(&bad_flags, 0, bad_flags.len()), Err(Error::FormatError));
    let mut index_without_count = good.clone();
    index_without_count[1] = 1;
    index_without_count[2] = 0;
    assert_eq!(
        Header::decode_at(&index_without_count, 0, index_without_count.len()),
        Err(Error::FormatError)
    );
    let large_code: Vec<u8> = vec![1, 0, 1, 0x80, 0x80, 0x80, 0x80, 0x10, 0, 0, 0];
    assert_eq!(Header::decode_at(&large_code, 0, large_code.len()), Err(Error::FormatError));
    let largest_code: Vec<u8> = vec![1, 0, 1, 0xff, 0xff, 0xff, 0xff, 0x0f, 0, 0, 0];
    let (h, _) = Header::decode_at(&largest_code, 0, largest_code.len()).unwrap();
    assert_eq!(h.crs.code, u32::MAX);
    assert_eq!(Header::decode_at(&good, 0, good.len() - 1), Err(Error::TruncatedStream));
}

#[test]
fn preamble_failures_are_format_errors() {
    let good = preamble(&header());
    for cut in 0..good.len() {
        assert_eq!(get_preamble(&good[..cut]), Err(Error::FormatError));
    }
    let mut longer = with_block(&block(&plain()));
    longer[5] += 1;
    longer.push(0);
    assert_eq!(get_preamble(&longer), Err(Error::FormatError));
    let mut shorter = with_block(&block(&plain()));
    shorter[5] -= 1;
    assert_eq!(get_preamble(&shorter), Err(Error::FormatError));
    let mut version = good.clone();
    version[4] = 0;
    assert_eq!(get_preamble(&version), Err(Error::FormatError));
    let mut magic = good.clone();
    magic[3] = 0x0b;
    assert_eq!(get_preamble(&magic), Err(Error::FormatError));
}

#[test]
fn file_without_a_count_is_read_to_its_end() {
    let mut h = plain();
    h.feature_count = None;
    let mut file = preamble(&h);
    let a = Feature {
        geometry: Geometry::Point(Coord { x: 1, y: 2, z: None, m: None }),
        attributes: Vec::<Value>::new(),
    };
    let b = Feature {
        geometry: Geometry::Point(Coord { x: 3, y: 4, z: None, m: None }),
        attributes: Vec::<Value>::new(),
    };
    a.encode_into(&mut file);
    b.encode_into(&mut file);
    let reader = Reader::open(file.clone()).unwrap();
    assert_eq!(reader.header().feature_count, None);
    assert_eq!(reader.select_all().collect(), Ok(vec![a.clone(), b.clone()]));
    let mut scan = Reader::open(file.clone()).unwrap().select_all();
    assert_eq!(scan.next(), Ok(Some(a.clone())));
    assert_eq!(scan.next(), Ok(Some(b)));
    assert_eq!(scan.next(), Ok(None));
    assert_eq!(scan.next(), Err(Error::TruncatedStream));
    file.truncate(file.len() - 3);
    assert_eq!(Reader::open(file).unwrap().select_all().collect(), Err(Error::TruncatedStream));
}

#[test]
fn record_exact_bytes() {
    let f = Feature {
        geometry: Geometry::Point(Coord { x: 1, y: 2, z: None, m: None }),
        attributes: vec![Value::Bool(true), Value::Null],
    };
    let mut out: Vec<u8> = Vec::new();
    f.encode_into(&mut out);
    assert_eq!(
        out,
        vec![20, 1, 1, 0, 0, 0, 0, 0, 0, 0, 2, 0, 0, 0, 0, 0, 0, 0, 1, 1, 0]
    );
}

#[test]
fn record_failures() {
    let mut h = plain();
    h.columns = vec![Column { name: b"ok".to_vec(), kind: ColumnType::Bool, nullable: false }];
    let f = Feature {
        geometry: Geometry::Point(Coord { x: 1, y: 2, z: None, m: None }),
        attributes: vec![Value::Bool(true)],
    };
    assert!(f.fits(&h));
    let mut good: Vec<u8> = Vec::new();
    f.encode_into(&mut good);
    assert_eq!(Feature::decode_at(&good, 0, good.len(), &h), Ok((f.clone(), good.len())));
    assert_eq!(Feature::decode_at(&good, 0, good.len() - 1, &h), Err(Error::TruncatedStream));
    assert_eq!(Feature::decode_at(&good, good.len(), good.len(), &h), Err(Error::TruncatedStream));
    let mut null: Vec<u8> = good.clone();
    null[0] -= 1;
    null.pop();
    let last = null.len() - 1;
    null[last] = 0;
    assert_eq!(Feature::decode_at(&null, 0, null.len(), &h), Err(Error::SchemaViolation));
    let mut left_over = good.clone();
    left_over[0] += 1;
    left_over.push(0);
    assert_eq!(Feature::decode_at(&left_over, 0, left_over.len(), &h), Err(Error::FormatError));
    let mut short_payload = good.clone();
    short_payload[0] -= 1;
    assert_eq!(
        Feature::decode_at(&short_payload, 0, short_payload.len(), &h),
        Err(Error::FormatError)
    );
    let mut line = good.clone();
    line[1] = 2;
    assert_eq!(Feature::decode_at(&line, 0, line.len(), &h), Err(Error::FormatError));
}

#[test]
fn feature_bounding_box() {
    let f = Feature {
        geometry: Geometry::LineString(vec![
            Coord { x: 1f64.to_bits(), y: 5f64.to_bits(), z: None, m: None },
            Coord { x: (-1f64).to_bits(), y: 7f64.to_bits(), z: None, m: None },
        ]),
        attributes: Vec::new(),
    };
    let b = f.bounding_box().unwrap();
    assert_eq!(f64::from_bits(b.min_x), -1.0);
    assert_eq!(f64::from_bits(b.min_y), 5.0);
    assert_eq!(f64::from_bits(b.max_x), 1.0);
    assert_eq!(f64::from_bits(b.max_y), 7.0);
}

#[test]
fn reindex_of_a_file_without_a_count() {
    let mut h = plain();
    h.feature_count = None;
    let mut file = preamble(&h);
    let a = Feature {
        geometry: Geometry::Point(Coord { x: 1, y: 2, z: None, m: None }),
        attributes: Vec::<Value>::new(),
    };
    let b = Feature {
        geometry: Geometry::Point(Coord { x: 3, y: 4, z: None, m: None }),
        attributes: Vec::<Value>::new(),
    };
    a.encode_into(&mut file);
    b.encode_into(&mut file);
    let target =
        reindex(file, Vec::new(), GeometryType::Point, Vec::new(), Crs { code: 0, wkt: None })
            .unwrap();
    let reader = Reader::open(target).unwrap();
    assert_eq!(reader.header().feature_count, Some(2));
    assert!(reader.has_index());
    assert_eq!(reader.select_all().collect(), Ok(vec![a, b]));
}
