use packed_features::bbox::BoundingBox;
use packed_features::error::Error;
use packed_features::feature::Feature;
use packed_features::geometry::{Coord, Dimensions, Geometry, GeometryType};
use packed_features::header::Crs;
use packed_features::reader::{Reader, ReaderState};
use packed_features::reindex::reindex;
use packed_features::schema::{Column, ColumnType, Value};
use packed_features::writer::{Writer, WriterOptions, WriterState};

fn xy(x: f64, y: f64) -> Coord {
    Coord { x: x.to_bits(), y: y.to_bits(), z: None, m: None }
}

fn point(x: f64, y: f64, id: i64) -> Feature {
    Feature { geometry: Geometry::Point(xy(x, y)), attributes: vec![Value::Int(id)] }
}

fn options(write_index: bool) -> WriterOptions {
    WriterOptions {
        description: b"three points".to_vec(),
        write_index,
        crs: Crs { code: 4326, wkt: None },
        dims: Dimensions { has_z: false, has_m: false },
        columns: vec![Column { name: b"id".to_vec(), kind: ColumnType::Int, nullable: false }],
    }
}

fn query(min_x: f64, min_y: f64, max_x: f64, max_y: f64) -> BoundingBox {
    BoundingBox {
        min_x: min_x.to_bits(),
        min_y: min_y.to_bits(),
        max_x: max_x.to_bits(),
        max_y: max_y.to_bits(),
    }
}

fn three_points(write_index: bool) -> Vec<u8> {
    let mut w = Writer::create(b"points".to_vec(), GeometryType::Point, options(write_index));
    assert_eq!(w.write_feature(&point(0.0, 0.0, 10)), Ok(()));
    assert_eq!(w.write_feature(&point(1.0, 1.0, 11)), Ok(()));
    assert_eq!(w.write_feature(&point(2.0, 2.0, 12)), Ok(()));
    let mut sink: Vec<u8> = Vec::new();
    assert_eq!(w.finalize(&mut sink), Ok(()));
    sink
}

#[test]
fn three_points_with_index_scan_and_query() {
    let bytes = three_points(true);
    let reader = Reader::open(bytes.clone()).unwrap();
    assert_eq!(reader.state(), ReaderState::IndexLoaded);
    assert_eq!(reader.header().feature_count, Some(3));
    assert_eq!(reader.header().crs.code, 4326);
    assert_eq!(reader.header().description, b"three points".to_vec());
    let all = reader.select_all().collect().unwrap();
    assert_eq!(all, vec![point(0.0, 0.0, 10), point(1.0, 1.0, 11), point(2.0, 2.0, 12)]);

    let reader = Reader::open(bytes).unwrap();
    let hits = reader.select_bbox(query(0.5, 0.5, 2.5, 2.5), false).unwrap();
    assert_eq!(hits, vec![point(1.0, 1.0, 11), point(2.0, 2.0, 12)]);
}

#[test]
fn order_is_kept_without_index() {
    let bytes = three_points(false);
    let reader = Reader::open(bytes).unwrap();
    assert_eq!(reader.state(), ReaderState::Opened);
    assert!(!reader.has_index());
    let all = reader.select_all().collect().unwrap();
    assert_eq!(all, vec![point(0.0, 0.0, 10), point(1.0, 1.0, 11), point(2.0, 2.0, 12)]);
}

#[test]
fn index_changes_nothing_but_the_index_block() {
    let with = Reader::open(three_points(true)).unwrap().select_all().collect().unwrap();
    let without = Reader::open(three_points(false)).unwrap().select_all().collect().unwrap();
    assert_eq!(with, without);
}

#[test]
fn scan_hands_out_one_feature_at_a_time() {
    let mut scan = Reader::open(three_points(true)).unwrap().select_all();
    assert_eq!(scan.state(), ReaderState::Scanning);
    assert_eq!(scan.next(), Ok(Some(point(0.0, 0.0, 10))));
    assert_eq!(scan.next(), Ok(Some(point(1.0, 1.0, 11))));
    assert_eq!(scan.next(), Ok(Some(point(2.0, 2.0, 12))));
    assert_eq!(scan.state(), ReaderState::Scanning);
    assert_eq!(scan.next(), Ok(None));
    assert_eq!(scan.state(), ReaderState::Done);
    assert_eq!(scan.next(), Err(Error::TruncatedStream));
}

#[test]
fn query_without_index_is_unavailable() {
    let reader = Reader::open(three_points(false)).unwrap();
    assert_eq!(reader.select_bbox(query(0.5, 0.5, 2.5, 2.5), false), Err(Error::IndexUnavailable));
}

#[test]
fn query_without_index_falls_back_to_scan() {
    let reader = Reader::open(three_points(false)).unwrap();
    let hits = reader.select_bbox(query(0.5, 0.5, 2.5, 2.5), true).unwrap();
    assert_eq!(hits, vec![point(1.0, 1.0, 11), point(2.0, 2.0, 12)]);
}

#[test]
fn query_box_bounds_are_included() {
    let reader = Reader::open(three_points(true)).unwrap();
    let hits = reader.select_bbox(query(1.0, 1.0, 1.0, 1.0), false).unwrap();
    assert_eq!(hits, vec![point(1.0, 1.0, 11)]);
    let reader = Reader::open(three_points(true)).unwrap();
    let none = reader.select_bbox(query(3.0, 3.0, 4.0, 4.0), false).unwrap();
    assert_eq!(none, Vec::<Feature>::new());
}

#[test]
fn missing_value_for_required_column_is_refused() {
    let mut w = Writer::create(b"points".to_vec(), GeometryType::Point, options(true));
    let no_value = Feature { geometry: Geometry::Point(xy(0.0, 0.0)), attributes: vec![] };
    assert_eq!(w.write_feature(&no_value), Err(Error::SchemaViolation));
    let null_value =
        Feature { geometry: Geometry::Point(xy(0.0, 0.0)), attributes: vec![Value::Null] };
    assert_eq!(w.write_feature(&null_value), Err(Error::SchemaViolation));
    assert_eq!(w.state(), WriterState::Created);
    assert_eq!(w.feature_count(), 0);
    assert_eq!(w.write_feature(&point(5.0, 5.0, 1)), Ok(()));
    let mut sink: Vec<u8> = Vec::new();
    assert_eq!(w.finalize(&mut sink), Ok(()));
    let all = Reader::open(sink).unwrap().select_all().collect().unwrap();
    assert_eq!(all, vec![point(5.0, 5.0, 1)]);
}

#[test]
fn extra_and_mistyped_values_are_refused() {
    let mut w = Writer::create(b"points".to_vec(), GeometryType::Point, options(false));
    let extra = Feature {
        geometry: Geometry::Point(xy(0.0, 0.0)),
        attributes: vec![Value::Int(1), Value::Int(2)],
    };
    assert_eq!(w.write_feature(&extra), Err(Error::SchemaViolation));
    let mistyped = Feature {
        geometry: Geometry::Point(xy(0.0, 0.0)),
        attributes: vec![Value::Text(b"one".to_vec())],
    };
    assert_eq!(w.write_feature(&mistyped), Err(Error::SchemaViolation));
    assert_eq!(w.feature_count(), 0);
}

#[test]
fn geometry_of_another_type_is_refused() {
    let mut w = Writer::create(b"points".to_vec(), GeometryType::Point, options(false));
    let line = Feature {
        geometry: Geometry::LineString(vec![xy(0.0, 0.0), xy(1.0, 1.0)]),
        attributes: vec![Value::Int(1)],
    };
    assert_eq!(w.write_feature(&line), Err(Error::SchemaViolation));
    let with_z = Feature {
        geometry: Geometry::Point(Coord {
            x: 0f64.to_bits(),
            y: 0f64.to_bits(),
            z: Some(1f64.to_bits()),
            m: None,
        }),
        attributes: vec![Value::Int(1)],
    };
    assert_eq!(w.write_feature(&with_z), Err(Error::SchemaViolation));
}

#[test]
fn unknown_type_admits_every_geometry() {
    let mut w = Writer::create(b"mixed".to_vec(), GeometryType::Unknown, options(true));
    let line = Feature {
        geometry: Geometry::LineString(vec![xy(0.0, 0.0), xy(4.0, 3.0)]),
        attributes: vec![Value::Int(1)],
    };
    assert_eq!(w.write_feature(&line), Ok(()));
    assert_eq!(w.write_feature(&point(9.0, 9.0, 2)), Ok(()));
    let mut sink: Vec<u8> = Vec::new();
    assert_eq!(w.finalize(&mut sink), Ok(()));
    let all = Reader::open(sink.clone()).unwrap().select_all().collect().unwrap();
    assert_eq!(all, vec![line.clone(), point(9.0, 9.0, 2)]);
    let hits = Reader::open(sink).unwrap().select_bbox(query(3.5, 2.5, 5.0, 5.0), false).unwrap();
    assert_eq!(hits, vec![line]);
}

#[test]
fn collection_type_admits_no_geometry() {
    let mut w = Writer::create(b"none".to_vec(), GeometryType::GeometryCollection, options(false));
    assert_eq!(w.write_feature(&point(0.0, 0.0, 1)), Err(Error::SchemaViolation));
}

#[test]
fn write_after_finalize_is_invalid_state() {
    let mut w = Writer::create(b"points".to_vec(), GeometryType::Point, options(true));
    assert_eq!(w.state(), WriterState::Created);
    assert_eq!(w.write_feature(&point(0.0, 0.0, 10)), Ok(()));
    assert_eq!(w.state(), WriterState::Writing);
    let mut sink: Vec<u8> = Vec::new();
    assert_eq!(w.finalize(&mut sink), Ok(()));
    assert_eq!(w.state(), WriterState::Finalized);
    let written = sink.clone();
    assert_eq!(w.write_feature(&point(1.0, 1.0, 11)), Err(Error::InvalidState));
    assert_eq!(w.write_feature(&Feature { geometry: Geometry::Point(xy(0.0, 0.0)), attributes: vec![] }), Err(Error::InvalidState));
    assert_eq!(w.feature_count(), 1);
    assert_eq!(w.state(), WriterState::Finalized);
    assert_eq!(sink, written);
    assert_eq!(w.finalize(&mut sink), Err(Error::InvalidState));
    assert_eq!(sink, written);
}

#[test]
fn finalize_appends_to_the_sink() {
    let mut w = Writer::create(b"points".to_vec(), GeometryType::Point, options(false));
    assert_eq!(w.write_feature(&point(0.0, 0.0, 10)), Ok(()));
    let mut sink: Vec<u8> = vec![1, 2, 3];
    assert_eq!(w.finalize(&mut sink), Ok(()));
    assert_eq!(&sink[..3], &[1u8, 2, 3][..]);
    let all = Reader::open(sink[3..].to_vec()).unwrap().select_all().collect().unwrap();
    assert_eq!(all, vec![point(0.0, 0.0, 10)]);
}

#[test]
fn empty_file_with_index() {
    let mut w = Writer::create(b"empty".to_vec(), GeometryType::Point, options(true));
    let mut sink: Vec<u8> = Vec::new();
    assert_eq!(w.finalize(&mut sink), Ok(()));
    let reader = Reader::open(sink.clone()).unwrap();
    assert_eq!(reader.header().feature_count, Some(0));
    assert_eq!(reader.select_all().collect(), Ok(vec![]));
    let reader = Reader::open(sink).unwrap();
    assert_eq!(reader.select_bbox(query(0.0, 0.0, 1.0, 1.0), false), Ok(vec![]));
}

#[test]
fn truncated_file_is_a_truncated_stream() {
    let mut bytes = three_points(true);
    let len = bytes.len();
    bytes.truncate(len - 10);
    let mut scan = Reader::open(bytes.clone()).unwrap().select_all();
    assert_eq!(scan.next(), Ok(Some(point(0.0, 0.0, 10))));
    assert_eq!(scan.next(), Ok(Some(point(1.0, 1.0, 11))));
    assert_eq!(scan.next(), Err(Error::TruncatedStream));
    assert_eq!(scan.state(), ReaderState::Done);
    assert_eq!(Reader::open(bytes).unwrap().select_all().collect(), Err(Error::TruncatedStream));
}

#[test]
fn file_cut_after_a_whole_record_is_a_truncated_stream() {
    let bytes = three_points(false);
    let one = {
        let mut w = Writer::create(b"points".to_vec(), GeometryType::Point, options(false));
        assert_eq!(w.write_feature(&point(0.0, 0.0, 10)), Ok(()));
        let mut sink: Vec<u8> = Vec::new();
        assert_eq!(w.finalize(&mut sink), Ok(()));
        sink
    };
    let record_len = (bytes.len() - one.len()) / 2;
    let cut = bytes[..bytes.len() - record_len].to_vec();
    assert_eq!(Reader::open(cut).unwrap().select_all().collect(), Err(Error::TruncatedStream));
}

#[test]
fn wrong_magic_or_version_is_a_format_error() {
    let good = three_points(true);
    let mut bad_magic = good.clone();
    bad_magic[0] = b'x';
    assert!(matches!(Reader::open(bad_magic), Err(Error::FormatError)));
    let mut bad_version = good.clone();
    bad_version[4] = 2;
    assert!(matches!(Reader::open(bad_version), Err(Error::FormatError)));
    assert!(matches!(Reader::open(Vec::new()), Err(Error::FormatError)));
    assert!(matches!(Reader::open(good[..3].to_vec()), Err(Error::FormatError)));
}

#[test]
fn truncated_header_is_a_format_error() {
    let good = three_points(false);
    assert!(matches!(Reader::open(good[..8].to_vec()), Err(Error::FormatError)));
    assert!(matches!(Reader::open(good[..5].to_vec()), Err(Error::FormatError)));
}

#[test]
fn file_starts_with_magic_and_version() {
    let bytes = three_points(false);
    assert_eq!(&bytes[..5], &[0x66u8, 0x70, 0x6b, 0x0a, 1][..]);
}

#[test]
fn truncated_index_is_a_truncated_stream() {
    let with = three_points(true);
    let without = three_points(false);
    let index_len = with.len() - without.len();
    let records_len = 3 * 27;
    let cut = with[..with.len() - records_len - index_len / 2].to_vec();
    assert!(matches!(Reader::open(cut), Err(Error::TruncatedStream)));
}

#[test]
fn many_features_with_index() {
    let mut w = Writer::create(b"grid".to_vec(), GeometryType::Point, options(true));
    let mut expected: Vec<Feature> = Vec::new();
    for i in 0..300i64 {
        let f = point((i % 20) as f64, (i / 20) as f64, i);
        assert_eq!(w.write_feature(&f), Ok(()));
        expected.push(f);
    }
    assert_eq!(w.feature_count(), 300);
    let mut sink: Vec<u8> = Vec::new();
    assert_eq!(w.finalize(&mut sink), Ok(()));
    let all = Reader::open(sink.clone()).unwrap().select_all().collect().unwrap();
    assert_eq!(all, expected);
    let q = query(3.0, 2.0, 5.0, 4.0);
    let by_index = Reader::open(sink.clone()).unwrap().select_bbox(q, false).unwrap();
    let by_scan: Vec<Feature> = expected
        .iter()
        .filter(|f| match f.bounding_box() {
            Some(b) => b.intersects(q),
            None => false,
        })
        .cloned()
        .collect();
    assert_eq!(by_scan.len(), 9);
    assert_eq!(by_index, by_scan);
}

#[test]
fn writer_keeps_its_name_and_header() {
    let w = Writer::create(b"nihed-assets".to_vec(), GeometryType::Point, options(true));
    assert_eq!(w.name(), &b"nihed-assets".to_vec());
    assert_eq!(w.header().geometry_type, GeometryType::Point);
    assert!(w.header().has_index);
    assert_eq!(w.header().columns.len(), 1);
}

#[test]
fn scan_with_a_filter_keeps_what_meets_it() {
    let scan = Reader::open(three_points(false)).unwrap().select_all();
    let kept = scan.collect_passing(Some(query(-1.0, -1.0, 1.0, 1.0))).unwrap();
    assert_eq!(kept, vec![point(0.0, 0.0, 10), point(1.0, 1.0, 11)]);
    let scan = Reader::open(three_points(true)).unwrap().select_all();
    let all = scan.collect_passing(None).unwrap();
    assert_eq!(all.len(), 3);
}

#[test]
fn collect_takes_what_is_left_of_a_scan() {
    let mut scan = Reader::open(three_points(true)).unwrap().select_all();
    assert_eq!(scan.next(), Ok(Some(point(0.0, 0.0, 10))));
    assert_eq!(scan.collect(), Ok(vec![point(1.0, 1.0, 11), point(2.0, 2.0, 12)]));
    let mut ended = Reader::open(three_points(true)).unwrap().select_all();
    while let Ok(Some(_)) = ended.next() {}
    assert_eq!(ended.collect(), Err(Error::TruncatedStream));
}

#[test]
fn same_features_same_file() {
    assert_eq!(three_points(true), three_points(true));
    let with = three_points(true);
    let without = three_points(false);
    assert_eq!(with.len(), without.len() + 1 + 4 * 40);
    assert_eq!(with[with.len() - 81..], without[without.len() - 81..]);
}

#[test]
fn index_of_a_written_file_points_at_its_records() {
    let bytes = three_points(true);
    let header_end = bytes.len() - 81 - 161;
    assert_eq!(bytes[header_end], 4);
    let leaf = |i: usize| &bytes[header_end + 1 + 40 * i..header_end + 1 + 40 * (i + 1)];
    for i in 0..3usize {
        let coordinate = (i as f64).to_le_bytes();
        assert_eq!(&leaf(i)[0..8], &coordinate[..]);
        assert_eq!(&leaf(i)[8..16], &coordinate[..]);
        assert_eq!(&leaf(i)[16..24], &coordinate[..]);
        assert_eq!(&leaf(i)[24..32], &coordinate[..]);
        assert_eq!(&leaf(i)[32..40], &((27 * i) as u64).to_le_bytes()[..]);
    }
    let root = leaf(3);
    assert_eq!(&root[0..8], &0.0f64.to_le_bytes()[..]);
    assert_eq!(&root[16..24], &2.0f64.to_le_bytes()[..]);
    assert_eq!(&root[32..40], &0u64.to_le_bytes()[..]);
}

fn reindexed(source: Vec<u8>, geometry_type: GeometryType) -> Result<Vec<u8>, Error> {
    reindex(
        source,
        b"points".to_vec(),
        geometry_type,
        b"three points".to_vec(),
        Crs { code: 4326, wkt: None },
    )
}

#[test]
fn reindex_gives_the_file_that_a_writer_with_index_gives() {
    assert_eq!(reindexed(three_points(false), GeometryType::Point), Ok(three_points(true)));
    assert_eq!(reindexed(three_points(true), GeometryType::Point), Ok(three_points(true)));
}

#[test]
fn reindex_keeps_features_and_their_order() {
    let source = three_points(false);
    let target = reindexed(source.clone(), GeometryType::Unknown).unwrap();
    let reader = Reader::open(target.clone()).unwrap();
    assert!(reader.has_index());
    assert_eq!(reader.header().geometry_type, GeometryType::Unknown);
    assert_eq!(reader.header().feature_count, Some(3));
    assert_eq!(
        reader.select_all().collect(),
        Reader::open(source).unwrap().select_all().collect()
    );
    let hits = Reader::open(target).unwrap().select_bbox(query(0.5, 0.5, 2.5, 2.5), false);
    assert_eq!(hits, Ok(vec![point(1.0, 1.0, 11), point(2.0, 2.0, 12)]));
}

#[test]
fn reindex_takes_description_and_reference_system_from_the_caller() {
    let target = reindex(
        three_points(false),
        b"copy".to_vec(),
        GeometryType::Point,
        b"another text".to_vec(),
        Crs { code: 27700, wkt: Some(b"PROJCS[]".to_vec()) },
    )
    .unwrap();
    let reader = Reader::open(target).unwrap();
    assert_eq!(reader.header().description, b"another text".to_vec());
    assert_eq!(reader.header().crs, Crs { code: 27700, wkt: Some(b"PROJCS[]".to_vec()) });
    assert_eq!(reader.header().columns.len(), 1);
    assert_eq!(reader.header().columns[0].name, b"id".to_vec());
}

#[test]
fn reindex_fails_as_the_source_fails() {
    assert_eq!(reindexed(Vec::new(), GeometryType::Point), Err(Error::FormatError));
    let mut cut = three_points(false);
    let len = cut.len();
    cut.truncate(len - 10);
    assert_eq!(reindexed(cut, GeometryType::Point), Err(Error::TruncatedStream));
    let mut damaged = three_points(false);
    let at = damaged.len() - 27 + 1;
    damaged[at] = 9;
    assert_eq!(reindexed(damaged, GeometryType::Point), Err(Error::FormatError));
}

#[test]
fn reindex_refuses_features_that_the_target_type_does_not_admit() {
    assert_eq!(
        reindexed(three_points(false), GeometryType::Polygon),
        Err(Error::SchemaViolation)
    );
    let mut first_refused_then_damaged = three_points(false);
    let at = first_refused_then_damaged.len() - 27 + 1;
    first_refused_then_damaged[at] = 9;
    assert_eq!(
        reindexed(first_refused_then_damaged, GeometryType::Polygon),
        Err(Error::SchemaViolation)
    );
}

#[test]
fn reindex_of_an_empty_file() {
    let mut w = Writer::create(b"empty".to_vec(), GeometryType::Point, options(false));
    let mut source: Vec<u8> = Vec::new();
    assert_eq!(w.finalize(&mut source), Ok(()));
    let target = reindexed(source, GeometryType::Point).unwrap();
    let reader = Reader::open(target).unwrap();
    assert!(reader.has_index());
    assert_eq!(reader.select_all().collect(), Ok(vec![]));
}
