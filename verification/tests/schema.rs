use packed_features::error::Error;
use packed_features::schema::{
    from_word, get_attributes, get_column, get_columns, get_value, put_attributes, put_column,
    put_columns, put_value, to_word, value_fits, values_conform, Column, ColumnType, Value,
};

fn col(name: &str, kind: ColumnType, nullable: bool) -> Column {
    Column { name: name.as_bytes().to_vec(), kind, nullable }
}

fn schema() -> Vec<Column> {
    vec![
        col("id", ColumnType::Int, false),
        col("height", ColumnType::Float, true),
        col("name", ColumnType::Text, true),
        col("listed", ColumnType::Bool, false),
    ]
}

fn value_bytes(v: &Value) -> Vec<u8> {
    let mut out: Vec<u8> = Vec::new();
    put_value(&mut out, v);
    out
}

#[test]
fn column_type_tags() {
    assert_eq!(ColumnType::Int.tag(), 0);
    assert_eq!(ColumnType::Float.tag(), 1);
    assert_eq!(ColumnType::Text.tag(), 2);
    assert_eq!(ColumnType::Bool.tag(), 3);
    for t in 0..4u8 {
        assert_eq!(ColumnType::from_tag(t).unwrap().tag(), t);
    }
    assert_eq!(ColumnType::from_tag(4), None);
}

#[test]
fn words_of_integers() {
    assert_eq!(to_word(0), 0);
    assert_eq!(to_word(1), 1);
    assert_eq!(to_word(-1), u64::MAX);
    assert_eq!(to_word(i64::MIN), 0x8000_0000_0000_0000);
    assert_eq!(to_word(i64::MAX), 0x7fff_ffff_ffff_ffff);
    assert_eq!(from_word(u64::MAX), -1);
    assert_eq!(from_word(0x8000_0000_0000_0000), i64::MIN);
    assert_eq!(from_word(0x7fff_ffff_ffff_ffff), i64::MAX);
    for i in [0i64, 1, -1, 42, -42, i64::MIN, i64::MAX] {
        assert_eq!(from_word(to_word(i)), i);
        assert_eq!(to_word(i), i as u64);
    }
}

#[test]
fn value_exact_bytes() {
    assert_eq!(value_bytes(&Value::Null), vec![0]);
    assert_eq!(value_bytes(&Value::Int(1)), vec![1, 1, 0, 0, 0, 0, 0, 0, 0]);
    assert_eq!(
        value_bytes(&Value::Int(-2)),
        vec![1, 0xfe, 0xff, 0xff, 0xff, 0xff, 0xff, 0xff, 0xff]
    );
    assert_eq!(
        value_bytes(&Value::Float(1.5f64.to_bits())),
        vec![1, 0, 0, 0, 0, 0, 0, 0xf8, 0x3f]
    );
    assert_eq!(value_bytes(&Value::Text(b"ab".to_vec())), vec![1, 2, b'a', b'b']);
    assert_eq!(value_bytes(&Value::Text(Vec::new())), vec![1, 0]);
    assert_eq!(value_bytes(&Value::Bool(true)), vec![1, 1]);
    assert_eq!(value_bytes(&Value::Bool(false)), vec![1, 0]);
}

#[test]
fn value_round_trip() {
    let cases = [
        (Value::Int(-7), col("a", ColumnType::Int, false)),
        (Value::Float(2.25f64.to_bits()), col("a", ColumnType::Float, false)),
        (Value::Text("grüß".as_bytes().to_vec()), col("a", ColumnType::Text, false)),
        (Value::Bool(true), col("a", ColumnType::Bool, false)),
        (Value::Null, col("a", ColumnType::Int, true)),
        (Value::Null, col("a", ColumnType::Text, true)),
    ];
    for (v, c) in cases.iter() {
        let bytes = value_bytes(v);
        assert_eq!(get_value(&bytes, 0, bytes.len(), c), Ok((v.clone(), bytes.len())));
    }
}

#[test]
fn null_in_a_required_column_is_a_schema_violation() {
    let c = col("id", ColumnType::Int, false);
    assert_eq!(get_value(&[0], 0, 1, &c), Err(Error::SchemaViolation));
}

#[test]
fn malformed_values() {
    let c = col("listed", ColumnType::Bool, true);
    assert_eq!(get_value(&[2], 0, 1, &c), Err(Error::FormatError));
    assert_eq!(get_value(&[1, 2], 0, 2, &c), Err(Error::FormatError));
    assert_eq!(get_value(&[1], 0, 1, &c), Err(Error::TruncatedStream));
    assert_eq!(get_value(&[], 0, 0, &c), Err(Error::TruncatedStream));
    let i = col("id", ColumnType::Int, false);
    assert_eq!(get_value(&[1, 0, 0, 0], 0, 4, &i), Err(Error::TruncatedStream));
    let t = col("name", ColumnType::Text, false);
    assert_eq!(get_value(&[1, 3, b'a'], 0, 3, &t), Err(Error::TruncatedStream));
}

#[test]
fn value_is_read_by_the_type_of_its_column() {
    let bytes = value_bytes(&Value::Int(1));
    let as_float = col("x", ColumnType::Float, false);
    assert_eq!(get_value(&bytes, 0, bytes.len(), &as_float), Ok((Value::Float(1), 9)));
}

#[test]
fn value_fits_its_column() {
    assert!(value_fits(&Value::Int(1), &col("a", ColumnType::Int, false)));
    assert!(!value_fits(&Value::Int(1), &col("a", ColumnType::Float, false)));
    assert!(!value_fits(&Value::Int(1), &col("a", ColumnType::Text, true)));
    assert!(value_fits(&Value::Float(0), &col("a", ColumnType::Float, false)));
    assert!(value_fits(&Value::Text(vec![]), &col("a", ColumnType::Text, false)));
    assert!(value_fits(&Value::Bool(false), &col("a", ColumnType::Bool, false)));
    assert!(!value_fits(&Value::Bool(false), &col("a", ColumnType::Int, false)));
    assert!(value_fits(&Value::Null, &col("a", ColumnType::Int, true)));
    assert!(!value_fits(&Value::Null, &col("a", ColumnType::Int, false)));
}

#[test]
fn values_conform_to_the_schema() {
    let s = schema();
    let good = vec![
        Value::Int(1),
        Value::Null,
        Value::Text(b"tower".to_vec()),
        Value::Bool(true),
    ];
    assert!(values_conform(&good, &s));
    let missing = vec![Value::Int(1), Value::Null, Value::Text(b"tower".to_vec())];
    assert!(!values_conform(&missing, &s));
    let extra = vec![
        Value::Int(1),
        Value::Null,
        Value::Null,
        Value::Bool(true),
        Value::Int(0),
    ];
    assert!(!values_conform(&extra, &s));
    let null_required = vec![Value::Null, Value::Null, Value::Null, Value::Bool(true)];
    assert!(!values_conform(&null_required, &s));
    let swapped = vec![
        Value::Int(1),
        Value::Text(b"tower".to_vec()),
        Value::Float(0),
        Value::Bool(true),
    ];
    assert!(!values_conform(&swapped, &s));
    assert!(values_conform(&Vec::new(), &Vec::new()));
    assert!(!values_conform(&vec![Value::Null], &Vec::new()));
}

#[test]
fn attributes_round_trip() {
    let s = schema();
    let values = vec![
        Value::Int(-5),
        Value::Float(12.5f64.to_bits()),
        Value::Null,
        Value::Bool(false),
    ];
    let mut out: Vec<u8> = vec![0xaa];
    put_attributes(&mut out, &values);
    assert_eq!(out.len(), 1 + 9 + 9 + 1 + 2);
    assert_eq!(get_attributes(&out, 1, out.len(), &s), Ok((values, out.len())));
}

#[test]
fn attributes_of_an_empty_schema() {
    let mut out: Vec<u8> = Vec::new();
    put_attributes(&mut out, &Vec::new());
    assert_eq!(out, Vec::<u8>::new());
    assert_eq!(get_attributes(&[9, 9], 1, 2, &Vec::new()), Ok((Vec::new(), 1)));
}

#[test]
fn attributes_fail_with_the_first_bad_value() {
    let s = schema();
    let mut out: Vec<u8> = Vec::new();
    put_attributes(
        &mut out,
        &vec![Value::Null, Value::Null, Value::Null, Value::Bool(true)],
    );
    assert_eq!(get_attributes(&out, 0, out.len(), &s), Err(Error::SchemaViolation));
    let mut cut: Vec<u8> = Vec::new();
    put_attributes(&mut cut, &vec![Value::Int(1), Value::Null]);
    assert_eq!(get_attributes(&cut, 0, cut.len(), &s), Err(Error::TruncatedStream));
    let mut bad: Vec<u8> = Vec::new();
    put_attributes(&mut bad, &vec![Value::Int(1)]);
    bad.push(7);
    assert_eq!(get_attributes(&bad, 0, bad.len(), &s), Err(Error::FormatError));
}

#[test]
fn column_exact_bytes() {
    let mut out: Vec<u8> = Vec::new();
    put_column(&mut out, &col("id", ColumnType::Int, false));
    assert_eq!(out, vec![2, b'i', b'd', 0, 0]);
    let mut out: Vec<u8> = Vec::new();
    put_column(&mut out, &col("n", ColumnType::Text, true));
    assert_eq!(out, vec![1, b'n', 2, 1]);
}

#[test]
fn column_round_trip() {
    for c in schema() {
        let mut out: Vec<u8> = Vec::new();
        put_column(&mut out, &c);
        assert_eq!(get_column(&out, 0, out.len()), Ok((c, out.len())));
    }
}

#[test]
fn malformed_columns() {
    assert_eq!(get_column(&[1, b'n', 4, 0], 0, 4), Err(Error::FormatError));
    assert_eq!(get_column(&[1, b'n', 0, 2], 0, 4), Err(Error::FormatError));
    assert_eq!(get_column(&[1, b'n', 0], 0, 3), Err(Error::TruncatedStream));
    assert_eq!(get_column(&[5, b'n'], 0, 2), Err(Error::TruncatedStream));
}

#[test]
fn columns_round_trip() {
    let s = schema();
    let mut out: Vec<u8> = Vec::new();
    put_columns(&mut out, &s);
    assert_eq!(out[0], 4);
    assert_eq!(get_columns(&out, 0, out.len()), Ok((s, out.len())));
    let mut none: Vec<u8> = Vec::new();
    put_columns(&mut none, &Vec::new());
    assert_eq!(none, vec![0]);
    assert_eq!(get_columns(&none, 0, 1), Ok((Vec::new(), 1)));
    assert_eq!(get_columns(&[2, 1, b'a', 0, 0], 0, 5), Err(Error::TruncatedStream));
}
