use crate::error::{fails, gives, Error};
use crate::wire::{
    blob_bytes, flag_bytes, get_blob, get_byte, get_flag, get_varint, get_word, has_at,
    items_bytes, lemma_blob_round_trip, lemma_byte_round_trip, lemma_flag_round_trip,
    lemma_has_at_split, lemma_items_push, lemma_list_round_trip, lemma_parse_blob_bounds, lemma_parse_items_sticky,
    lemma_word_len, lemma_word_round_trip, list_bytes, parse_blob, parse_byte, parse_flag,
    parse_items, parse_list, parse_varint, parse_word, put_blob, put_flag, put_varint, put_word,
    word_bytes,
};
use vstd::prelude::*;

verus! {

/// The type of the values of a column.
#[derive(Clone, Copy, Debug, PartialEq, Eq, Structural)]
pub enum ColumnType {
    Int,
    Float,
    Text,
    Bool,
}

impl ColumnType {
    /// The byte that stands for the type.
    pub open spec fn spec_tag(self) -> u8 {
        match self {
            ColumnType::Int => 0,
            ColumnType::Float => 1,
            ColumnType::Text => 2,
            ColumnType::Bool => 3,
        }
    }

    /// The type that a byte stands for, if any.
    pub open spec fn spec_from_tag(t: u8) -> Option<ColumnType> {
        if t == 0 {
            Some(ColumnType::Int)
        } else if t == 1 {
            Some(ColumnType::Float)
        } else if t == 2 {
            Some(ColumnType::Text)
        } else if t == 3 {
            Some(ColumnType::Bool)
        } else {
            None
        }
    }

    /// The byte that stands for the type.
    #[verifier::when_used_as_spec(spec_tag)]
    pub fn tag(self) -> (t: u8)
        ensures
            t == self.spec_tag(),
            Self::spec_from_tag(t) == Some(self),
    {
        match self {
            ColumnType::Int => 0,
            ColumnType::Float => 1,
            ColumnType::Text => 2,
            ColumnType::Bool => 3,
        }
    }

    /// The type that a byte stands for, if any.
    #[verifier::when_used_as_spec(spec_from_tag)]
    pub fn from_tag(t: u8) -> (r: Option<ColumnType>)
        ensures
            r == Self::spec_from_tag(t),
    {
        if t == 0 {
            Some(ColumnType::Int)
        } else if t == 1 {
            Some(ColumnType::Float)
        } else if t == 2 {
            Some(ColumnType::Text)
        } else if t == 3 {
            Some(ColumnType::Bool)
        } else {
            None
        }
    }
}

/// One column of the schema. The name is UTF-8 text, held as its bytes.
#[derive(Clone, Debug, PartialEq, Eq)]
pub struct Column {
    pub name: Vec<u8>,
    pub kind: ColumnType,
    pub nullable: bool,
}

/// What a `Column` holds.
pub struct ColumnModel {
    pub name: Seq<u8>,
    pub kind: ColumnType,
    pub nullable: bool,
}

impl View for Column {
    type V = ColumnModel;

    open spec fn view(&self) -> ColumnModel {
        ColumnModel { name: self.name@, kind: self.kind, nullable: self.nullable }
    }
}

/// What a list of columns holds.
pub open spec fn columns_view(v: Seq<Column>) -> Seq<ColumnModel> {
    Seq::new(v.len(), |i: int| v[i]@)
}

/// One attribute value. A float is held as its binary64 bit pattern, a text
/// as the bytes of its UTF-8 form.
#[derive(Clone, Debug, PartialEq, Eq)]
pub enum Value {
    Null,
    Int(i64),
    Float(u64),
    Text(Vec<u8>),
    Bool(bool),
}

/// What a `Value` holds.
pub enum ValueModel {
    Null,
    Int(i64),
    Float(u64),
    Text(Seq<u8>),
    Bool(bool),
}

impl View for Value {
    type V = ValueModel;

    open spec fn view(&self) -> ValueModel {
        match *self {
            Value::Null => ValueModel::Null,
            Value::Int(i) => ValueModel::Int(i),
            Value::Float(f) => ValueModel::Float(f),
            Value::Text(t) => ValueModel::Text(t@),
            Value::Bool(b) => ValueModel::Bool(b),
        }
    }
}

/// What a list of values holds.
pub open spec fn values_view(v: Seq<Value>) -> Seq<ValueModel> {
    Seq::new(v.len(), |i: int| v[i]@)
}

// ---------------------------------------------------------------------------
// Conformance
// ---------------------------------------------------------------------------

/// The value may stand in the column: a null only where the column is
/// nullable, any other value only in a column of its type.
pub open spec fn value_ok(v: ValueModel, c: ColumnModel) -> bool {
    match v {
        ValueModel::Null => c.nullable,
        ValueModel::Int(_) => c.kind == ColumnType::Int,
        ValueModel::Float(_) => c.kind == ColumnType::Float,
        ValueModel::Text(t) => c.kind == ColumnType::Text && t.len() <= u64::MAX,
        ValueModel::Bool(_) => c.kind == ColumnType::Bool,
    }
}

/// One value for each column, in the order of the columns, each fit for its
/// column: no value is missing and none is left over.
pub open spec fn conforms(vs: Seq<ValueModel>, cols: Seq<ColumnModel>) -> bool {
    &&& vs.len() == cols.len()
    &&& forall|i: int| 0 <= i < vs.len() ==> value_ok(#[trigger] vs[i], cols[i])
}

/// Whether the value may stand in the column.
pub fn value_fits(v: &Value, c: &Column) -> (r: bool)
    ensures
        r == value_ok(v@, c@),
{
    match v {
        Value::Null => c.nullable,
        Value::Int(_) => c.kind.tag() == 0,
        Value::Float(_) => c.kind.tag() == 1,
        Value::Text(t) => {
            proof {
                assert(t@.len() == t.len());
            }
            c.kind.tag() == 2
        },
        Value::Bool(_) => c.kind.tag() == 3,
    }
}

/// Whether there is one value for each column, each fit for its column.
pub fn values_conform(vs: &Vec<Value>, cols: &Vec<Column>) -> (r: bool)
    ensures
        r == conforms(values_view(vs@), columns_view(cols@)),
{
    if vs.len() != cols.len() {
        return false;
    }
    let ghost vm = values_view(vs@);
    let ghost cm = columns_view(cols@);
    let mut i: usize = 0;
    while i < vs.len()
        invariant
            i <= vs.len(),
            vs.len() == cols.len(),
            vm == values_view(vs@),
            cm == columns_view(cols@),
            forall|j: int| 0 <= j < i ==> value_ok(#[trigger] vm[j], cm[j]),
        decreases vs.len() - i,
    {
        if !value_fits(&vs[i], &cols[i]) {
            proof {
                assert(!value_ok(vm[i as int], cm[i as int]));
            }
            return false;
        }
        i = i + 1;
    }
    true
}

// ---------------------------------------------------------------------------
// Signed integers as 64-bit words
// ---------------------------------------------------------------------------

/// The two's complement word of `i`.
pub open spec fn int_word(i: i64) -> u64 {
    if i >= 0 {
        i as u64
    } else {
        (i + 0x1_0000_0000_0000_0000) as u64
    }
}

/// The integer whose two's complement word is `w`.
pub open spec fn word_int(w: u64) -> i64 {
    if w < 0x8000_0000_0000_0000 {
        w as i64
    } else {
        (w - 0x1_0000_0000_0000_0000) as i64
    }
}

/// The two's complement word of `i`.
pub fn to_word(i: i64) -> (w: u64)
    ensures
        w == int_word(i),
        word_int(w) == i,
{
    if i >= 0 {
        i as u64
    } else {
        (i as i128 + 0x1_0000_0000_0000_0000) as u64
    }
}

/// The integer whose two's complement word is `w`.
pub fn from_word(w: u64) -> (i: i64)
    ensures
        i == word_int(w),
        int_word(i) == w,
{
    if w < 0x8000_0000_0000_0000 {
        w as i64
    } else {
        (w as i128 - 0x1_0000_0000_0000_0000) as i64
    }
}

// ---------------------------------------------------------------------------
// Layout of values
// ---------------------------------------------------------------------------

/// A presence byte, zero for a null and one for a value, then the value:
/// an integer or a float as a 64-bit word, a text with its length in front,
/// a truth value as one byte.
pub open spec fn value_bytes(v: ValueModel) -> Seq<u8> {
    match v {
        ValueModel::Null => seq![0u8],
        ValueModel::Int(i) => seq![1u8] + word_bytes(int_word(i)),
        ValueModel::Float(f) => seq![1u8] + word_bytes(f),
        ValueModel::Text(t) => seq![1u8] + blob_bytes(t),
        ValueModel::Bool(b) => seq![1u8] + flag_bytes(b),
    }
}

/// The value of type `kind` at `pos`, behind its presence byte.
pub open spec fn parse_payload(s: Seq<u8>, pos: int, end: int, kind: ColumnType) -> Result<
    (ValueModel, int),
    Error,
> {
    match kind {
        ColumnType::Int => match parse_word(s, pos, end) {
            Ok((w, next)) => Ok((ValueModel::Int(word_int(w)), next)),
            Err(e) => Err(e),
        },
        ColumnType::Float => match parse_word(s, pos, end) {
            Ok((w, next)) => Ok((ValueModel::Float(w), next)),
            Err(e) => Err(e),
        },
        ColumnType::Text => match parse_blob(s, pos, end) {
            Ok((t, next)) => Ok((ValueModel::Text(t), next)),
            Err(e) => Err(e),
        },
        ColumnType::Bool => match parse_flag(s, pos, end) {
            Ok((b, next)) => Ok((ValueModel::Bool(b), next)),
            Err(e) => Err(e),
        },
    }
}

/// The value of column `c` that starts at `pos`. A null in a column that
/// is not nullable is a `SchemaViolation`; a presence byte other than zero
/// and one is a `FormatError`.
pub open spec fn parse_value(s: Seq<u8>, pos: int, end: int, c: ColumnModel) -> Result<
    (ValueModel, int),
    Error,
> {
    match parse_byte(s, pos, end) {
        Err(e) => Err(e),
        Ok((present, start)) => if present == 0 {
            if c.nullable {
                Ok((ValueModel::Null, start))
            } else {
                Err(Error::SchemaViolation)
            }
        } else if present == 1 {
            parse_payload(s, start, end, c.kind)
        } else {
            Err(Error::FormatError)
        },
    }
}

/// `value_bytes`, as a function value.
pub open spec fn value_writer() -> spec_fn(ValueModel) -> Seq<u8> {
    |v: ValueModel| value_bytes(v)
}

/// The values of a feature one after another, in the order of the columns.
pub open spec fn attributes_bytes(vs: Seq<ValueModel>) -> Seq<u8> {
    items_bytes(vs, value_writer())
}

/// The values of the first `n` columns from `pos` on.
pub open spec fn parse_attributes_n(
    s: Seq<u8>,
    pos: int,
    end: int,
    cols: Seq<ColumnModel>,
    n: nat,
) -> Result<(Seq<ValueModel>, int), Error>
    decreases n,
{
    if n == 0 {
        Ok((Seq::<ValueModel>::empty(), pos))
    } else {
        match parse_attributes_n(s, pos, end, cols, (n - 1) as nat) {
            Ok((vs, mid)) => match parse_value(s, mid, end, cols[n - 1]) {
                Ok((v, next)) => Ok((vs.push(v), next)),
                Err(e) => Err(e),
            },
            Err(e) => Err(e),
        }
    }
}

/// One value for each column from `pos` on.
pub open spec fn parse_attributes(s: Seq<u8>, pos: int, end: int, cols: Seq<ColumnModel>) -> Result<
    (Seq<ValueModel>, int),
    Error,
> {
    parse_attributes_n(s, pos, end, cols, cols.len())
}

/// Once a value has failed, reading more values fails in the same way.
pub proof fn lemma_parse_attributes_sticky(
    s: Seq<u8>,
    pos: int,
    end: int,
    cols: Seq<ColumnModel>,
    k: nat,
    n: nat,
)
    requires
        k <= n,
        parse_attributes_n(s, pos, end, cols, k) is Err,
    ensures
        parse_attributes_n(s, pos, end, cols, n) == parse_attributes_n(s, pos, end, cols, k),
    decreases n,
{
    if k < n {
        lemma_parse_attributes_sticky(s, pos, end, cols, k, (n - 1) as nat);
    }
}

/// What `parse_attributes` gives conforms to the columns.
pub proof fn lemma_parsed_attributes_conform(
    s: Seq<u8>,
    pos: int,
    end: int,
    cols: Seq<ColumnModel>,
    n: nat,
)
    requires
        n <= cols.len(),
        end <= s.len(),
        parse_attributes_n(s, pos, end, cols, n) is Ok,
    ensures
        ({
            let vs = parse_attributes_n(s, pos, end, cols, n).unwrap().0;
            &&& vs.len() == n
            &&& forall|i: int| 0 <= i < n ==> value_ok(#[trigger] vs[i], cols[i])
        }),
    decreases n,
{
    if n > 0 {
        lemma_parsed_attributes_conform(s, pos, end, cols, (n - 1) as nat);
        let mid = parse_attributes_n(s, pos, end, cols, (n - 1) as nat).unwrap().1;
        lemma_parsed_value_ok(s, mid, end, cols[n - 1]);
    }
}

/// A value that was read for a column may stand in it.
pub proof fn lemma_parsed_value_ok(s: Seq<u8>, pos: int, end: int, c: ColumnModel)
    requires
        end <= s.len(),
        parse_value(s, pos, end, c) is Ok,
    ensures
        value_ok(parse_value(s, pos, end, c).unwrap().0, c),
{
    if c.kind == ColumnType::Text && parse_byte(s, pos, end).unwrap().0 == 1 {
        lemma_parse_blob_bounds(s, pos + 1, end);
    }
}

/// A value that may stand in the column is read back as written.
pub proof fn lemma_value_round_trip(s: Seq<u8>, pos: int, end: int, v: ValueModel, c: ColumnModel)
    requires
        has_at(s, pos, end, value_bytes(v)),
        value_ok(v, c),
    ensures
        parse_value(s, pos, end, c) == Ok::<(ValueModel, int), Error>(
            (v, pos + value_bytes(v).len()),
        ),
{
    match v {
        ValueModel::Null => {
            lemma_byte_round_trip(s, pos, end, 0u8);
        },
        ValueModel::Int(i) => {
            lemma_has_at_split(s, pos, end, seq![1u8], word_bytes(int_word(i)));
            lemma_byte_round_trip(s, pos, end, 1u8);
            lemma_word_len(int_word(i));
            lemma_word_round_trip(s, pos + 1, end, int_word(i));
        },
        ValueModel::Float(f) => {
            lemma_has_at_split(s, pos, end, seq![1u8], word_bytes(f));
            lemma_byte_round_trip(s, pos, end, 1u8);
            lemma_word_len(f);
            lemma_word_round_trip(s, pos + 1, end, f);
        },
        ValueModel::Text(t) => {
            lemma_has_at_split(s, pos, end, seq![1u8], blob_bytes(t));
            lemma_byte_round_trip(s, pos, end, 1u8);
            lemma_blob_round_trip(s, pos + 1, end, t);
        },
        ValueModel::Bool(b) => {
            lemma_has_at_split(s, pos, end, seq![1u8], flag_bytes(b));
            lemma_byte_round_trip(s, pos, end, 1u8);
            lemma_flag_round_trip(s, pos + 1, end, b);
        },
    }
}

proof fn lemma_attributes_n_round_trip(
    s: Seq<u8>,
    pos: int,
    end: int,
    vs: Seq<ValueModel>,
    cols: Seq<ColumnModel>,
)
    requires
        has_at(s, pos, end, attributes_bytes(vs)),
        vs.len() <= cols.len(),
        forall|i: int| 0 <= i < vs.len() ==> value_ok(#[trigger] vs[i], cols[i]),
    ensures
        parse_attributes_n(s, pos, end, cols, vs.len()) == Ok::<(Seq<ValueModel>, int), Error>(
            (vs, pos + attributes_bytes(vs).len()),
        ),
    decreases vs.len(),
{
    if vs.len() > 0 {
        let front = vs.drop_last();
        let last = vs.last();
        lemma_has_at_split(s, pos, end, attributes_bytes(front), value_bytes(last));
        assert forall|i: int| 0 <= i < front.len() implies value_ok(#[trigger] front[i], cols[i]) by {
            assert(front[i] == vs[i]);
        }
        lemma_attributes_n_round_trip(s, pos, end, front, cols);
        lemma_value_round_trip(
            s,
            pos + attributes_bytes(front).len(),
            end,
            last,
            cols[vs.len() - 1],
        );
        assert(front.push(last) =~= vs);
    } else {
        assert(vs =~= Seq::<ValueModel>::empty());
    }
}

/// Values that conform to the columns are read back as written.
pub proof fn lemma_attributes_round_trip(
    s: Seq<u8>,
    pos: int,
    end: int,
    vs: Seq<ValueModel>,
    cols: Seq<ColumnModel>,
)
    requires
        has_at(s, pos, end, attributes_bytes(vs)),
        conforms(vs, cols),
    ensures
        parse_attributes(s, pos, end, cols) == Ok::<(Seq<ValueModel>, int), Error>(
            (vs, pos + attributes_bytes(vs).len()),
        ),
{
    lemma_attributes_n_round_trip(s, pos, end, vs, cols);
}

/// Reading the written values of a feature against the schema that they
/// conform to gives the values back.
pub proof fn law_attributes_decode_encode(vs: Seq<ValueModel>, cols: Seq<ColumnModel>)
    requires
        conforms(vs, cols),
    ensures
        parse_attributes(attributes_bytes(vs), 0, attributes_bytes(vs).len() as int, cols) == Ok::<
            (Seq<ValueModel>, int),
            Error,
        >((vs, attributes_bytes(vs).len() as int)),
{
    let s = attributes_bytes(vs);
    assert(s.subrange(0, s.len() as int) =~= s);
    lemma_attributes_round_trip(s, 0, s.len() as int, vs, cols);
}

// ---------------------------------------------------------------------------
// Writing and reading values
// ---------------------------------------------------------------------------

/// Appends a value behind its presence byte.
pub fn put_value(out: &mut Vec<u8>, v: &Value)
    ensures
        final(out)@ == old(out)@ + value_bytes(v@),
{
    let ghost before = out@;
    match v {
        Value::Null => {
            out.push(0u8);
        },
        Value::Int(i) => {
            out.push(1u8);
            put_word(out, to_word(*i));
        },
        Value::Float(f) => {
            out.push(1u8);
            put_word(out, *f);
        },
        Value::Text(t) => {
            out.push(1u8);
            put_blob(out, t);
        },
        Value::Bool(b) => {
            out.push(1u8);
            put_flag(out, *b);
        },
    }
    proof {
        assert(out@ =~= before + value_bytes(v@));
    }
}

/// Appends the values of a feature.
pub fn put_attributes(out: &mut Vec<u8>, vs: &Vec<Value>)
    ensures
        final(out)@ == old(out)@ + attributes_bytes(values_view(vs@)),
{
    let ghost before = out@;
    let ghost all = values_view(vs@);
    proof {
        assert(before + items_bytes(all.take(0), value_writer()) =~= before);
    }
    let mut i: usize = 0;
    while i < vs.len()
        invariant
            i <= vs.len(),
            all == values_view(vs@),
            out@ == before + items_bytes(all.take(i as int), value_writer()),
        decreases vs.len() - i,
    {
        put_value(out, &vs[i]);
        proof {
            lemma_items_push(all.take(i as int), all[i as int], value_writer());
            assert(all.take(i as int).push(all[i as int]) =~= all.take(i + 1));
            assert(out@ =~= before + items_bytes(all.take(i + 1), value_writer()));
        }
        i = i + 1;
    }
    proof {
        assert(all.take(vs.len() as int) =~= all);
    }
}

/// Reads the value of column `c` at `pos`.
pub fn get_value(buf: &[u8], pos: usize, end: usize, c: &Column) -> (r: Result<
    (Value, usize),
    Error,
>)
    requires
        end <= buf@.len(),
    ensures
        match r {
            Ok((v, next)) => gives(parse_value(buf@, pos as int, end as int, c@), (v@, next as int))
                && pos < next <= end,
            Err(e) => fails(parse_value(buf@, pos as int, end as int, c@), e),
        },
{
    let (present, start) = match get_byte(buf, pos, end) {
        Ok(v) => v,
        Err(e) => {
            return Err(e);
        },
    };
    if present == 0 {
        if c.nullable {
            return Ok((Value::Null, start));
        } else {
            return Err(Error::SchemaViolation);
        }
    }
    if present != 1 {
        return Err(Error::FormatError);
    }
    match c.kind {
        ColumnType::Int => match get_word(buf, start, end) {
            Ok((w, next)) => Ok((Value::Int(from_word(w)), next)),
            Err(e) => Err(e),
        },
        ColumnType::Float => match get_word(buf, start, end) {
            Ok((w, next)) => Ok((Value::Float(w), next)),
            Err(e) => Err(e),
        },
        ColumnType::Text => match get_blob(buf, start, end) {
            Ok((t, next)) => Ok((Value::Text(t), next)),
            Err(e) => Err(e),
        },
        ColumnType::Bool => match get_flag(buf, start, end) {
            Ok((b, next)) => Ok((Value::Bool(b), next)),
            Err(e) => Err(e),
        },
    }
}

/// Reads one value for each column.
pub fn get_attributes(buf: &[u8], pos: usize, end: usize, cols: &Vec<Column>) -> (r: Result<
    (Vec<Value>, usize),
    Error,
>)
    requires
        pos <= end <= buf@.len(),
    ensures
        match r {
            Ok((vs, next)) => gives(
                parse_attributes(buf@, pos as int, end as int, columns_view(cols@)),
                (values_view(vs@), next as int),
            ) && pos <= next <= end && conforms(values_view(vs@), columns_view(cols@)),
            Err(e) => fails(parse_attributes(buf@, pos as int, end as int, columns_view(cols@)), e),
        },
{
    let ghost cm = columns_view(cols@);
    let mut acc: Vec<Value> = Vec::new();
    let mut cur: usize = pos;
    let mut i: usize = 0;
    proof {
        assert(values_view(acc@) =~= Seq::<ValueModel>::empty());
    }
    while i < cols.len()
        invariant
            i <= cols.len(),
            pos <= cur <= end,
            end <= buf@.len(),
            cm == columns_view(cols@),
            gives(
                parse_attributes_n(buf@, pos as int, end as int, cm, i as nat),
                (values_view(acc@), cur as int),
            ),
        decreases cols.len() - i,
    {
        match get_value(buf, cur, end, &cols[i]) {
            Ok((v, next)) => {
                let ghost prev = acc@;
                acc.push(v);
                proof {
                    assert(values_view(acc@) =~= values_view(prev).push(v@));
                }
                cur = next;
                i = i + 1;
            },
            Err(e) => {
                proof {
                    assert(fails(
                        parse_attributes_n(buf@, pos as int, end as int, cm, (i + 1) as nat),
                        e,
                    ));
                    lemma_parse_attributes_sticky(
                        buf@,
                        pos as int,
                        end as int,
                        cm,
                        (i + 1) as nat,
                        cols.len() as nat,
                    );
                }
                return Err(e);
            },
        }
    }
    proof {
        lemma_parsed_attributes_conform(buf@, pos as int, end as int, cm, cols.len() as nat);
    }
    Ok((acc, cur))
}

// ---------------------------------------------------------------------------
// Layout of column definitions
// ---------------------------------------------------------------------------

/// The name with its length in front, the tag of the type, the nullable
/// flag.
pub open spec fn column_bytes(c: ColumnModel) -> Seq<u8> {
    blob_bytes(c.name) + seq![c.kind.spec_tag()] + flag_bytes(c.nullable)
}

/// The column definition at `pos`.
pub open spec fn parse_column(s: Seq<u8>, pos: int, end: int) -> Result<(ColumnModel, int), Error> {
    match parse_blob(s, pos, end) {
        Err(e) => Err(e),
        Ok((name, pos1)) => match parse_byte(s, pos1, end) {
            Err(e) => Err(e),
            Ok((t, pos2)) => match ColumnType::spec_from_tag(t) {
                None => Err(Error::FormatError),
                Some(kind) => match parse_flag(s, pos2, end) {
                    Err(e) => Err(e),
                    Ok((nullable, pos3)) => Ok((ColumnModel { name, kind, nullable }, pos3)),
                },
            },
        },
    }
}

/// `column_bytes`, as a function value.
pub open spec fn column_writer() -> spec_fn(ColumnModel) -> Seq<u8> {
    |c: ColumnModel| column_bytes(c)
}

/// `parse_column`, as a function value.
pub open spec fn column_reader() -> spec_fn(Seq<u8>, int, int) -> Result<(ColumnModel, int), Error> {
    |s: Seq<u8>, pos: int, end: int| parse_column(s, pos, end)
}

/// The number of columns, then the columns in order.
pub open spec fn columns_bytes(cols: Seq<ColumnModel>) -> Seq<u8> {
    list_bytes(cols, column_writer())
}

/// A count at `pos`, then that many column definitions.
pub open spec fn parse_columns(s: Seq<u8>, pos: int, end: int) -> Result<
    (Seq<ColumnModel>, int),
    Error,
> {
    parse_list(s, pos, end, column_reader())
}

/// The schema can be written: the count of columns and the length of each
/// name fit in 64 bits.
pub open spec fn columns_ok(cols: Seq<ColumnModel>) -> bool {
    &&& cols.len() <= u64::MAX
    &&& forall|i: int| 0 <= i < cols.len() ==> (#[trigger] cols[i]).name.len() <= u64::MAX
}

/// A column definition is read back as written.
pub proof fn lemma_column_round_trip(s: Seq<u8>, pos: int, end: int, c: ColumnModel)
    requires
        has_at(s, pos, end, column_bytes(c)),
        c.name.len() <= u64::MAX,
    ensures
        parse_column(s, pos, end) == Ok::<(ColumnModel, int), Error>(
            (c, pos + column_bytes(c).len()),
        ),
{
    let tag = c.kind.spec_tag();
    let head = blob_bytes(c.name) + seq![tag];
    lemma_has_at_split(s, pos, end, head, flag_bytes(c.nullable));
    lemma_has_at_split(s, pos, end, blob_bytes(c.name), seq![tag]);
    lemma_blob_round_trip(s, pos, end, c.name);
    lemma_byte_round_trip(s, pos + blob_bytes(c.name).len(), end, tag);
    lemma_flag_round_trip(s, pos + head.len(), end, c.nullable);
}

/// A schema that can be written is read back as written.
pub proof fn lemma_columns_round_trip(s: Seq<u8>, pos: int, end: int, cols: Seq<ColumnModel>)
    requires
        has_at(s, pos, end, columns_bytes(cols)),
        columns_ok(cols),
    ensures
        parse_columns(s, pos, end) == Ok::<(Seq<ColumnModel>, int), Error>(
            (cols, pos + columns_bytes(cols).len()),
        ),
{
    let f = column_writer();
    let p = column_reader();
    assert forall|i: int, q: int| 0 <= i < cols.len() && #[trigger] has_at(s, q, end, f(cols[i]))
        implies p(s, q, end) == Ok::<(ColumnModel, int), Error>(
        (cols[i], q + f(cols[i]).len()),
    ) by {
        lemma_column_round_trip(s, q, end, cols[i]);
    }
    lemma_list_round_trip(s, pos, end, cols, f, p);
}

/// Appends a column definition.
pub fn put_column(out: &mut Vec<u8>, c: &Column)
    ensures
        final(out)@ == old(out)@ + column_bytes(c@),
{
    let ghost before = out@;
    put_blob(out, &c.name);
    out.push(c.kind.tag());
    put_flag(out, c.nullable);
    proof {
        assert(out@ =~= before + column_bytes(c@));
    }
}

/// Appends the number of columns and their definitions.
pub fn put_columns(out: &mut Vec<u8>, cols: &Vec<Column>)
    ensures
        final(out)@ == old(out)@ + columns_bytes(columns_view(cols@)),
{
    let ghost before = out@;
    let ghost all = columns_view(cols@);
    put_varint(out, cols.len() as u64);
    let ghost mid = out@;
    proof {
        assert(mid + items_bytes(all.take(0), column_writer()) =~= mid);
    }
    let mut i: usize = 0;
    while i < cols.len()
        invariant
            i <= cols.len(),
            all == columns_view(cols@),
            out@ == mid + items_bytes(all.take(i as int), column_writer()),
        decreases cols.len() - i,
    {
        put_column(out, &cols[i]);
        proof {
            lemma_items_push(all.take(i as int), all[i as int], column_writer());
            assert(all.take(i as int).push(all[i as int]) =~= all.take(i + 1));
            assert(out@ =~= mid + items_bytes(all.take(i + 1), column_writer()));
        }
        i = i + 1;
    }
    proof {
        assert(all.take(cols.len() as int) =~= all);
        assert(out@ =~= before + columns_bytes(all));
    }
}

/// Reads the column definition at `pos`.
pub fn get_column(buf: &[u8], pos: usize, end: usize) -> (r: Result<(Column, usize), Error>)
    requires
        end <= buf@.len(),
    ensures
        match r {
            Ok((c, next)) => gives(parse_column(buf@, pos as int, end as int), (c@, next as int))
                && pos < next <= end,
            Err(e) => fails(parse_column(buf@, pos as int, end as int), e),
        },
{
    let (name, pos1) = match get_blob(buf, pos, end) {
        Ok(v) => v,
        Err(e) => {
            return Err(e);
        },
    };
    let (t, pos2) = match get_byte(buf, pos1, end) {
        Ok(v) => v,
        Err(e) => {
            return Err(e);
        },
    };
    let kind = match ColumnType::from_tag(t) {
        Some(k) => k,
        None => {
            return Err(Error::FormatError);
        },
    };
    let (nullable, pos3) = match get_flag(buf, pos2, end) {
        Ok(v) => v,
        Err(e) => {
            return Err(e);
        },
    };
    Ok((Column { name, kind, nullable }, pos3))
}

/// Reads a count at `pos` and that many column definitions.
pub fn get_columns(buf: &[u8], pos: usize, end: usize) -> (r: Result<(Vec<Column>, usize), Error>)
    requires
        end <= buf@.len(),
    ensures
        match r {
            Ok((cols, next)) => gives(
                parse_columns(buf@, pos as int, end as int),
                (columns_view(cols@), next as int),
            ) && pos < next <= end,
            Err(e) => fails(parse_columns(buf@, pos as int, end as int), e),
        },
{
    let (n, start) = match get_varint(buf, pos, end) {
        Ok(v) => v,
        Err(e) => {
            return Err(e);
        },
    };
    let ghost p = column_reader();
    let mut acc: Vec<Column> = Vec::new();
    let mut cur: usize = start;
    let mut i: u64 = 0;
    proof {
        assert(columns_view(acc@) =~= Seq::<ColumnModel>::empty());
    }
    while i < n
        invariant
            i <= n,
            start <= cur <= end,
            end <= buf@.len(),
            gives(parse_varint(buf@, pos as int, end as int), (n, start as int)),
            p == column_reader(),
            gives(
                parse_items(buf@, start as int, end as int, i as nat, p),
                (columns_view(acc@), cur as int),
            ),
        decreases n - i,
    {
        match get_column(buf, cur, end) {
            Ok((c, next)) => {
                let ghost prev = acc@;
                acc.push(c);
                proof {
                    assert(columns_view(acc@) =~= columns_view(prev).push(c@));
                }
                cur = next;
                i = i + 1;
            },
            Err(e) => {
                proof {
                    assert(fails(parse_items(buf@, start as int, end as int, (i + 1) as nat, p), e));
                    lemma_parse_items_sticky(
                        buf@,
                        start as int,
                        end as int,
                        (i + 1) as nat,
                        n as nat,
                        p,
                    );
                }
                return Err(e);
            },
        }
    }
    Ok((acc, cur))
}

} // verus!
