use crate::bbox::BoundingBox;
use crate::error::{fails, gives, Error};
use crate::wire::{
    get_byte, get_varint, get_word, has_at, items_bytes, lemma_byte_round_trip,
    lemma_has_at_append, lemma_has_at_split, lemma_items_push, lemma_list_round_trip,
    lemma_parse_items_sticky, lemma_word_len, lemma_word_round_trip, list_bytes, parse_byte,
    parse_items, parse_list, parse_varint, parse_word, put_varint, put_word, word_bytes,
};
use vstd::prelude::*;

verus! {

/// The kind of geometry that a file declares or a record holds. A file that
/// declares `Unknown` takes geometries of every kind. No geometry is of the
/// kind `GeometryCollection`: a file that declares it takes none.
#[derive(Clone, Copy, Debug, PartialEq, Eq, Structural)]
pub enum GeometryType {
    Unknown,
    Point,
    LineString,
    Polygon,
    MultiPoint,
    MultiLineString,
    MultiPolygon,
    GeometryCollection,
}

impl GeometryType {
    /// The byte that stands for the kind.
    pub open spec fn spec_tag(self) -> u8 {
        match self {
            GeometryType::Unknown => 0,
            GeometryType::Point => 1,
            GeometryType::LineString => 2,
            GeometryType::Polygon => 3,
            GeometryType::MultiPoint => 4,
            GeometryType::MultiLineString => 5,
            GeometryType::MultiPolygon => 6,
            GeometryType::GeometryCollection => 7,
        }
    }

    /// The kind that a byte stands for, if any.
    pub open spec fn spec_from_tag(t: u8) -> Option<GeometryType> {
        if t == 0 {
            Some(GeometryType::Unknown)
        } else if t == 1 {
            Some(GeometryType::Point)
        } else if t == 2 {
            Some(GeometryType::LineString)
        } else if t == 3 {
            Some(GeometryType::Polygon)
        } else if t == 4 {
            Some(GeometryType::MultiPoint)
        } else if t == 5 {
            Some(GeometryType::MultiLineString)
        } else if t == 6 {
            Some(GeometryType::MultiPolygon)
        } else if t == 7 {
            Some(GeometryType::GeometryCollection)
        } else {
            None
        }
    }

    /// The byte that stands for the kind.
    #[verifier::when_used_as_spec(spec_tag)]
    pub fn tag(self) -> (t: u8)
        ensures
            t == self.spec_tag(),
            Self::spec_from_tag(t) == Some(self),
    {
        match self {
            GeometryType::Unknown => 0,
            GeometryType::Point => 1,
            GeometryType::LineString => 2,
            GeometryType::Polygon => 3,
            GeometryType::MultiPoint => 4,
            GeometryType::MultiLineString => 5,
            GeometryType::MultiPolygon => 6,
            GeometryType::GeometryCollection => 7,
        }
    }

    /// The kind that a byte stands for, if any.
    #[verifier::when_used_as_spec(spec_from_tag)]
    pub fn from_tag(t: u8) -> (r: Option<GeometryType>)
        ensures
            r == Self::spec_from_tag(t),
    {
        if t == 0 {
            Some(GeometryType::Unknown)
        } else if t == 1 {
            Some(GeometryType::Point)
        } else if t == 2 {
            Some(GeometryType::LineString)
        } else if t == 3 {
            Some(GeometryType::Polygon)
        } else if t == 4 {
            Some(GeometryType::MultiPoint)
        } else if t == 5 {
            Some(GeometryType::MultiLineString)
        } else if t == 6 {
            Some(GeometryType::MultiPolygon)
        } else if t == 7 {
            Some(GeometryType::GeometryCollection)
        } else {
            None
        }
    }

    /// A record of kind `kind` may stand in a file that declares `self`.
    pub open spec fn spec_admits(self, kind: GeometryType) -> bool {
        self == GeometryType::Unknown || self == kind
    }

    /// Whether a record of kind `kind` may stand in a file that declares `self`:
    /// a file of unknown type takes every kind, any other file only its own.
    #[verifier::when_used_as_spec(spec_admits)]
    pub fn admits(self, kind: GeometryType) -> (r: bool)
        ensures
            r == self.spec_admits(kind),
    {
        self.tag() == 0 || self.tag() == kind.tag()
    }
}

/// Which ordinates beside x and y every coordinate of a file carries.
#[derive(Clone, Copy, Debug, PartialEq, Eq, Structural)]
pub struct Dimensions {
    pub has_z: bool,
    pub has_m: bool,
}

/// One coordinate tuple, each ordinate a binary64 bit pattern.
#[derive(Clone, Copy, Debug, PartialEq, Eq)]
pub struct Coord {
    pub x: u64,
    pub y: u64,
    pub z: Option<u64>,
    pub m: Option<u64>,
}

/// A geometry: ordered coordinate tuples, nested as its kind asks.
#[derive(Clone, Debug, PartialEq, Eq)]
pub enum Geometry {
    Point(Coord),
    LineString(Vec<Coord>),
    /// Rings, the outer one first.
    Polygon(Vec<Vec<Coord>>),
    MultiPoint(Vec<Coord>),
    MultiLineString(Vec<Vec<Coord>>),
    MultiPolygon(Vec<Vec<Vec<Coord>>>),
}

/// What a `Geometry` holds, as mathematical sequences.
pub enum Shape {
    Point(Coord),
    LineString(Seq<Coord>),
    Polygon(Seq<Seq<Coord>>),
    MultiPoint(Seq<Coord>),
    MultiLineString(Seq<Seq<Coord>>),
    MultiPolygon(Seq<Seq<Seq<Coord>>>),
}

/// What a list of paths holds.
pub open spec fn paths_view(v: Seq<Vec<Coord>>) -> Seq<Seq<Coord>> {
    Seq::new(v.len(), |i: int| v[i]@)
}

/// What a list of polygons holds.
pub open spec fn polys_view(v: Seq<Vec<Vec<Coord>>>) -> Seq<Seq<Seq<Coord>>> {
    Seq::new(v.len(), |i: int| paths_view(v[i]@))
}

impl View for Geometry {
    type V = Shape;

    open spec fn view(&self) -> Shape {
        match *self {
            Geometry::Point(c) => Shape::Point(c),
            Geometry::LineString(v) => Shape::LineString(v@),
            Geometry::Polygon(v) => Shape::Polygon(paths_view(v@)),
            Geometry::MultiPoint(v) => Shape::MultiPoint(v@),
            Geometry::MultiLineString(v) => Shape::MultiLineString(paths_view(v@)),
            Geometry::MultiPolygon(v) => Shape::MultiPolygon(polys_view(v@)),
        }
    }
}

impl Shape {
    /// The kind of the geometry.
    pub open spec fn kind(self) -> GeometryType {
        match self {
            Shape::Point(_) => GeometryType::Point,
            Shape::LineString(_) => GeometryType::LineString,
            Shape::Polygon(_) => GeometryType::Polygon,
            Shape::MultiPoint(_) => GeometryType::MultiPoint,
            Shape::MultiLineString(_) => GeometryType::MultiLineString,
            Shape::MultiPolygon(_) => GeometryType::MultiPolygon,
        }
    }
}

// ---------------------------------------------------------------------------
// Arity rules
// ---------------------------------------------------------------------------

/// The coordinate carries the ordinates that `dims` names, and no others.
pub open spec fn coord_ok(c: Coord, dims: Dimensions) -> bool {
    c.z.is_some() == dims.has_z && c.m.is_some() == dims.has_m
}

/// Every coordinate fits `dims`.
pub open spec fn coords_ok(cs: Seq<Coord>, dims: Dimensions) -> bool {
    cs.len() <= u64::MAX && forall|i: int| 0 <= i < cs.len() ==> coord_ok(#[trigger] cs[i], dims)
}

/// A line has two points or more; a ring has four or more and ends where it
/// starts.
pub open spec fn path_ok(cs: Seq<Coord>, dims: Dimensions, closed: bool) -> bool {
    &&& coords_ok(cs, dims)
    &&& cs.len() >= (if closed {
        4nat
    } else {
        2nat
    })
    &&& closed ==> cs[0] == cs[cs.len() - 1]
}

/// One path or more, each in order.
pub open spec fn paths_ok(ps: Seq<Seq<Coord>>, dims: Dimensions, closed: bool) -> bool {
    &&& 1 <= ps.len() <= u64::MAX
    &&& forall|i: int| 0 <= i < ps.len() ==> path_ok(#[trigger] ps[i], dims, closed)
}

/// One polygon or more, each with one ring or more.
pub open spec fn polys_ok(qs: Seq<Seq<Seq<Coord>>>, dims: Dimensions) -> bool {
    &&& 1 <= qs.len() <= u64::MAX
    &&& forall|i: int| 0 <= i < qs.len() ==> paths_ok(#[trigger] qs[i], dims, true)
}

/// The geometry keeps the arity rules of its kind, and all its coordinates
/// carry the ordinates that `dims` names.
pub open spec fn well_formed(g: Shape, dims: Dimensions) -> bool {
    match g {
        Shape::Point(c) => coord_ok(c, dims),
        Shape::LineString(cs) => path_ok(cs, dims, false),
        Shape::Polygon(ps) => paths_ok(ps, dims, true),
        Shape::MultiPoint(cs) => coords_ok(cs, dims) && cs.len() >= 1,
        Shape::MultiLineString(ps) => paths_ok(ps, dims, false),
        Shape::MultiPolygon(qs) => polys_ok(qs, dims),
    }
}

// ---------------------------------------------------------------------------
// Layout
// ---------------------------------------------------------------------------

/// The bytes of the word, where there is one.
pub open spec fn opt_word_bytes(w: Option<u64>) -> Seq<u8> {
    match w {
        Some(v) => word_bytes(v),
        None => Seq::<u8>::empty(),
    }
}

/// A word at `pos` where `present` says so, nothing otherwise.
pub open spec fn parse_opt_word(s: Seq<u8>, pos: int, end: int, present: bool) -> Result<
    (Option<u64>, int),
    Error,
> {
    if present {
        match parse_word(s, pos, end) {
            Ok((v, next)) => Ok((Some(v), next)),
            Err(e) => Err(e),
        }
    } else {
        Ok((None, pos))
    }
}

/// x, y, then z and m where the coordinate has them.
pub open spec fn coord_bytes(c: Coord) -> Seq<u8> {
    word_bytes(c.x) + word_bytes(c.y) + opt_word_bytes(c.z) + opt_word_bytes(c.m)
}

/// The coordinate tuple at `pos`, with the ordinates that `dims` names.
pub open spec fn parse_coord(s: Seq<u8>, pos: int, end: int, dims: Dimensions) -> Result<
    (Coord, int),
    Error,
> {
    match parse_word(s, pos, end) {
        Err(e) => Err(e),
        Ok((x, pos1)) => match parse_word(s, pos1, end) {
            Err(e) => Err(e),
            Ok((y, pos2)) => match parse_opt_word(s, pos2, end, dims.has_z) {
                Err(e) => Err(e),
                Ok((z, pos3)) => match parse_opt_word(s, pos3, end, dims.has_m) {
                    Err(e) => Err(e),
                    Ok((m, pos4)) => Ok((Coord { x, y, z, m }, pos4)),
                },
            },
        },
    }
}

/// `coord_bytes`, as a function value.
pub open spec fn coord_writer() -> spec_fn(Coord) -> Seq<u8> {
    |c: Coord| coord_bytes(c)
}

/// `parse_coord` for `dims`, as a function value.
pub open spec fn coord_reader(dims: Dimensions) -> spec_fn(Seq<u8>, int, int) -> Result<
    (Coord, int),
    Error,
> {
    |s: Seq<u8>, pos: int, end: int| parse_coord(s, pos, end, dims)
}

/// A count of coordinate tuples, then the tuples.
pub open spec fn path_bytes(cs: Seq<Coord>) -> Seq<u8> {
    list_bytes(cs, coord_writer())
}

/// A count at `pos`, then that many coordinate tuples.
pub open spec fn parse_path(s: Seq<u8>, pos: int, end: int, dims: Dimensions) -> Result<
    (Seq<Coord>, int),
    Error,
> {
    parse_list(s, pos, end, coord_reader(dims))
}

/// `path_bytes`, as a function value.
pub open spec fn path_writer() -> spec_fn(Seq<Coord>) -> Seq<u8> {
    |cs: Seq<Coord>| path_bytes(cs)
}

/// `parse_path` for `dims`, as a function value.
pub open spec fn path_reader(dims: Dimensions) -> spec_fn(Seq<u8>, int, int) -> Result<
    (Seq<Coord>, int),
    Error,
> {
    |s: Seq<u8>, pos: int, end: int| parse_path(s, pos, end, dims)
}

/// A count of paths, then each path with its own count.
pub open spec fn paths_bytes(ps: Seq<Seq<Coord>>) -> Seq<u8> {
    list_bytes(ps, path_writer())
}

/// A count at `pos`, then that many paths.
pub open spec fn parse_paths(s: Seq<u8>, pos: int, end: int, dims: Dimensions) -> Result<
    (Seq<Seq<Coord>>, int),
    Error,
> {
    parse_list(s, pos, end, path_reader(dims))
}

/// `paths_bytes`, as a function value.
pub open spec fn paths_writer() -> spec_fn(Seq<Seq<Coord>>) -> Seq<u8> {
    |ps: Seq<Seq<Coord>>| paths_bytes(ps)
}

/// `parse_paths` for `dims`, as a function value.
pub open spec fn paths_reader(dims: Dimensions) -> spec_fn(Seq<u8>, int, int) -> Result<
    (Seq<Seq<Coord>>, int),
    Error,
> {
    |s: Seq<u8>, pos: int, end: int| parse_paths(s, pos, end, dims)
}

/// A count of polygons, then each polygon as its rings.
pub open spec fn polys_bytes(qs: Seq<Seq<Seq<Coord>>>) -> Seq<u8> {
    list_bytes(qs, paths_writer())
}

/// A count at `pos`, then that many polygons.
pub open spec fn parse_polys(s: Seq<u8>, pos: int, end: int, dims: Dimensions) -> Result<
    (Seq<Seq<Seq<Coord>>>, int),
    Error,
> {
    parse_list(s, pos, end, paths_reader(dims))
}

/// What follows the tag of a geometry.
pub open spec fn body_bytes(g: Shape) -> Seq<u8> {
    match g {
        Shape::Point(c) => coord_bytes(c),
        Shape::LineString(cs) => path_bytes(cs),
        Shape::Polygon(ps) => paths_bytes(ps),
        Shape::MultiPoint(cs) => path_bytes(cs),
        Shape::MultiLineString(ps) => paths_bytes(ps),
        Shape::MultiPolygon(qs) => polys_bytes(qs),
    }
}

/// The tag of the geometry's kind, then its coordinates.
pub open spec fn geometry_bytes(g: Shape) -> Seq<u8> {
    seq![g.kind().spec_tag()] + body_bytes(g)
}

/// What follows the tag of a geometry of kind `kind`, read from `pos` on.
pub open spec fn parse_body(
    s: Seq<u8>,
    pos: int,
    end: int,
    kind: GeometryType,
    dims: Dimensions,
) -> Result<(Shape, int), Error> {
    match kind {
        GeometryType::Point => match parse_coord(s, pos, end, dims) {
            Ok((c, next)) => Ok((Shape::Point(c), next)),
            Err(e) => Err(e),
        },
        GeometryType::LineString => match parse_path(s, pos, end, dims) {
            Ok((cs, next)) => Ok((Shape::LineString(cs), next)),
            Err(e) => Err(e),
        },
        GeometryType::Polygon => match parse_paths(s, pos, end, dims) {
            Ok((ps, next)) => Ok((Shape::Polygon(ps), next)),
            Err(e) => Err(e),
        },
        GeometryType::MultiPoint => match parse_path(s, pos, end, dims) {
            Ok((cs, next)) => Ok((Shape::MultiPoint(cs), next)),
            Err(e) => Err(e),
        },
        GeometryType::MultiLineString => match parse_paths(s, pos, end, dims) {
            Ok((ps, next)) => Ok((Shape::MultiLineString(ps), next)),
            Err(e) => Err(e),
        },
        GeometryType::MultiPolygon => match parse_polys(s, pos, end, dims) {
            Ok((qs, next)) => Ok((Shape::MultiPolygon(qs), next)),
            Err(e) => Err(e),
        },
        _ => Err(Error::FormatError),
    }
}

/// The geometry that starts at `pos`, and the position after it. A tag that
/// names no geometry, one that `expected` does not admit, and a geometry
/// that breaks the arity rules are `FormatError`; bytes that end too early
/// are `TruncatedStream`.
pub open spec fn parse_geometry(
    s: Seq<u8>,
    pos: int,
    end: int,
    expected: GeometryType,
    dims: Dimensions,
) -> Result<(Shape, int), Error> {
    match parse_byte(s, pos, end) {
        Err(e) => Err(e),
        Ok((t, start)) => match GeometryType::spec_from_tag(t) {
            None => Err(Error::FormatError),
            Some(kind) => if !expected.spec_admits(kind) {
                Err(Error::FormatError)
            } else {
                match parse_body(s, start, end, kind, dims) {
                    Err(e) => Err(e),
                    Ok((g, next)) => if well_formed(g, dims) {
                        Ok((g, next))
                    } else {
                        Err(Error::FormatError)
                    },
                }
            },
        },
    }
}

/// What `Geometry::decode` makes of a whole buffer: the geometry that fills
/// it exactly, and `FormatError` for anything else.
pub open spec fn decode_geometry(s: Seq<u8>, expected: GeometryType, dims: Dimensions) -> Result<
    Shape,
    Error,
> {
    match parse_geometry(s, 0, s.len() as int, expected, dims) {
        Ok((g, next)) => if next == s.len() {
            Ok(g)
        } else {
            Err(Error::FormatError)
        },
        Err(_) => Err(Error::FormatError),
    }
}

// ---------------------------------------------------------------------------
// Reading back what was written
// ---------------------------------------------------------------------------

/// A coordinate tuple with the ordinates of `dims` is read back as written.
pub proof fn lemma_coord_round_trip(s: Seq<u8>, pos: int, end: int, c: Coord, dims: Dimensions)
    requires
        has_at(s, pos, end, coord_bytes(c)),
        coord_ok(c, dims),
    ensures
        parse_coord(s, pos, end, dims) == Ok::<(Coord, int), Error>(
            (c, pos + coord_bytes(c).len()),
        ),
{
    lemma_word_len(c.x);
    lemma_word_len(c.y);
    let xy = word_bytes(c.x) + word_bytes(c.y);
    let xyz = xy + opt_word_bytes(c.z);
    lemma_has_at_split(s, pos, end, xyz, opt_word_bytes(c.m));
    lemma_has_at_split(s, pos, end, xy, opt_word_bytes(c.z));
    lemma_has_at_split(s, pos, end, word_bytes(c.x), word_bytes(c.y));
    lemma_word_round_trip(s, pos, end, c.x);
    lemma_word_round_trip(s, pos + 8, end, c.y);
    match c.z {
        Some(z) => {
            lemma_word_len(z);
            lemma_word_round_trip(s, pos + 16, end, z);
        },
        None => {},
    }
    match c.m {
        Some(m) => {
            lemma_word_len(m);
            lemma_word_round_trip(s, pos + xyz.len(), end, m);
        },
        None => {},
    }
}

/// Coordinate tuples with the ordinates of `dims` are read back as written.
pub proof fn lemma_path_round_trip(s: Seq<u8>, pos: int, end: int, cs: Seq<Coord>, dims: Dimensions)
    requires
        has_at(s, pos, end, path_bytes(cs)),
        coords_ok(cs, dims),
    ensures
        parse_path(s, pos, end, dims) == Ok::<(Seq<Coord>, int), Error>(
            (cs, pos + path_bytes(cs).len()),
        ),
{
    let f = coord_writer();
    let p = coord_reader(dims);
    assert forall|i: int, q: int| 0 <= i < cs.len() && #[trigger] has_at(s, q, end, f(cs[i]))
        implies p(s, q, end) == Ok::<(Coord, int), Error>((cs[i], q + f(cs[i]).len())) by {
        lemma_coord_round_trip(s, q, end, cs[i], dims);
    }
    lemma_list_round_trip(s, pos, end, cs, f, p);
}

/// Paths whose tuples have the ordinates of `dims` are read back as written.
pub proof fn lemma_paths_round_trip(
    s: Seq<u8>,
    pos: int,
    end: int,
    ps: Seq<Seq<Coord>>,
    dims: Dimensions,
)
    requires
        has_at(s, pos, end, paths_bytes(ps)),
        ps.len() <= u64::MAX,
        forall|i: int| 0 <= i < ps.len() ==> coords_ok(#[trigger] ps[i], dims),
    ensures
        parse_paths(s, pos, end, dims) == Ok::<(Seq<Seq<Coord>>, int), Error>(
            (ps, pos + paths_bytes(ps).len()),
        ),
{
    let f = path_writer();
    let p = path_reader(dims);
    assert forall|i: int, q: int| 0 <= i < ps.len() && #[trigger] has_at(s, q, end, f(ps[i]))
        implies p(s, q, end) == Ok::<(Seq<Coord>, int), Error>((ps[i], q + f(ps[i]).len())) by {
        lemma_path_round_trip(s, q, end, ps[i], dims);
    }
    lemma_list_round_trip(s, pos, end, ps, f, p);
}

/// Polygons that keep the arity rules are read back as written.
pub proof fn lemma_polys_round_trip(
    s: Seq<u8>,
    pos: int,
    end: int,
    qs: Seq<Seq<Seq<Coord>>>,
    dims: Dimensions,
)
    requires
        has_at(s, pos, end, polys_bytes(qs)),
        polys_ok(qs, dims),
    ensures
        parse_polys(s, pos, end, dims) == Ok::<(Seq<Seq<Seq<Coord>>>, int), Error>(
            (qs, pos + polys_bytes(qs).len()),
        ),
{
    let f = paths_writer();
    let p = paths_reader(dims);
    assert forall|i: int, q: int| 0 <= i < qs.len() && #[trigger] has_at(s, q, end, f(qs[i]))
        implies p(s, q, end) == Ok::<(Seq<Seq<Coord>>, int), Error>(
        (qs[i], q + f(qs[i]).len()),
    ) by {
        let ps = qs[i];
        assert(paths_ok(ps, dims, true));
        assert forall|j: int| 0 <= j < ps.len() implies coords_ok(#[trigger] ps[j], dims) by {
            assert(path_ok(ps[j], dims, true));
        }
        lemma_paths_round_trip(s, q, end, ps, dims);
    }
    lemma_list_round_trip(s, pos, end, qs, f, p);
}

/// A well-formed geometry that stands at `pos` is read back as it is, and
/// the reading stops where its bytes end.
pub proof fn lemma_geometry_round_trip(
    s: Seq<u8>,
    pos: int,
    end: int,
    g: Shape,
    expected: GeometryType,
    dims: Dimensions,
)
    requires
        has_at(s, pos, end, geometry_bytes(g)),
        well_formed(g, dims),
        expected.spec_admits(g.kind()),
    ensures
        parse_geometry(s, pos, end, expected, dims) == Ok::<(Shape, int), Error>(
            (g, pos + geometry_bytes(g).len()),
        ),
{
    let tag = g.kind().spec_tag();
    lemma_has_at_split(s, pos, end, seq![tag], body_bytes(g));
    lemma_byte_round_trip(s, pos, end, tag);
    match g {
        Shape::Point(c) => {
            lemma_coord_round_trip(s, pos + 1, end, c, dims);
        },
        Shape::LineString(cs) => {
            lemma_path_round_trip(s, pos + 1, end, cs, dims);
        },
        Shape::Polygon(ps) => {
            assert forall|j: int| 0 <= j < ps.len() implies coords_ok(#[trigger] ps[j], dims) by {
                assert(path_ok(ps[j], dims, true));
            }
            lemma_paths_round_trip(s, pos + 1, end, ps, dims);
        },
        Shape::MultiPoint(cs) => {
            lemma_path_round_trip(s, pos + 1, end, cs, dims);
        },
        Shape::MultiLineString(ps) => {
            assert forall|j: int| 0 <= j < ps.len() implies coords_ok(#[trigger] ps[j], dims) by {
                assert(path_ok(ps[j], dims, false));
            }
            lemma_paths_round_trip(s, pos + 1, end, ps, dims);
        },
        Shape::MultiPolygon(qs) => {
            lemma_polys_round_trip(s, pos + 1, end, qs, dims);
        },
    }
}

/// Decoding the encoding of a well-formed geometry gives the geometry back,
/// whether the reader expects its kind or any kind.
pub proof fn law_geometry_decode_encode(g: Shape, expected: GeometryType, dims: Dimensions)
    requires
        well_formed(g, dims),
        expected == g.kind() || expected == GeometryType::Unknown,
    ensures
        decode_geometry(geometry_bytes(g), expected, dims) == Ok::<Shape, Error>(g),
{
    let s = geometry_bytes(g);
    lemma_has_at_append(Seq::<u8>::empty(), s);
    assert(Seq::<u8>::empty() + s =~= s);
    lemma_geometry_round_trip(s, 0, s.len() as int, g, expected, dims);
}

// ---------------------------------------------------------------------------
// Bounding boxes
// ---------------------------------------------------------------------------

/// The union of two boxes, either of which may be missing.
pub open spec fn join_boxes(a: Option<BoundingBox>, b: Option<BoundingBox>) -> Option<
    BoundingBox,
> {
    match (a, b) {
        (Some(x), Some(y)) => Some(x.spec_union(y)),
        (Some(x), None) => Some(x),
        (None, y) => y,
    }
}

/// The union of the boxes that `f` gives for the items of `xs`, taken in
/// order; none where no item has a box.
pub open spec fn merged<T>(xs: Seq<T>, f: spec_fn(T) -> Option<BoundingBox>) -> Option<
    BoundingBox,
>
    decreases xs.len(),
{
    if xs.len() == 0 {
        None
    } else {
        join_boxes(merged(xs.drop_last(), f), f(xs.last()))
    }
}

/// The box of one coordinate tuple, as a function value.
pub open spec fn coord_box() -> spec_fn(Coord) -> Option<BoundingBox> {
    |c: Coord| Some(BoundingBox::spec_point(c.x, c.y))
}

/// The box of a run of coordinate tuples, as a function value.
pub open spec fn path_box() -> spec_fn(Seq<Coord>) -> Option<BoundingBox> {
    |cs: Seq<Coord>| merged(cs, coord_box())
}

/// The box of a list of paths, as a function value.
pub open spec fn paths_box() -> spec_fn(Seq<Seq<Coord>>) -> Option<BoundingBox> {
    |ps: Seq<Seq<Coord>>| merged(ps, path_box())
}

/// The least box that holds every coordinate of the geometry in x and y;
/// none where it has no coordinate.
pub open spec fn shape_box(g: Shape) -> Option<BoundingBox> {
    match g {
        Shape::Point(c) => Some(BoundingBox::spec_point(c.x, c.y)),
        Shape::LineString(cs) => merged(cs, coord_box()),
        Shape::Polygon(ps) => merged(ps, path_box()),
        Shape::MultiPoint(cs) => merged(cs, coord_box()),
        Shape::MultiLineString(ps) => merged(ps, path_box()),
        Shape::MultiPolygon(qs) => merged(qs, paths_box()),
    }
}

/// Where one item has a box, the whole has one, and it holds the item's.
pub proof fn lemma_merged_holds<T>(xs: Seq<T>, f: spec_fn(T) -> Option<BoundingBox>, i: int)
    requires
        0 <= i < xs.len(),
        f(xs[i]) is Some,
    ensures
        merged(xs, f) is Some,
        merged(xs, f).unwrap().spec_contains(f(xs[i]).unwrap()),
    decreases xs.len(),
{
    let front = xs.drop_last();
    if i < xs.len() - 1 {
        lemma_merged_holds(front, f, i);
    }
}

/// A well-formed geometry has a bounding box.
pub proof fn lemma_well_formed_has_box(g: Shape, dims: Dimensions)
    requires
        well_formed(g, dims),
    ensures
        shape_box(g) is Some,
{
    match g {
        Shape::Point(c) => {},
        Shape::LineString(cs) => {
            lemma_merged_holds(cs, coord_box(), 0);
        },
        Shape::Polygon(ps) => {
            assert(path_ok(ps[0], dims, true));
            lemma_merged_holds(ps[0], coord_box(), 0);
            lemma_merged_holds(ps, path_box(), 0);
        },
        Shape::MultiPoint(cs) => {
            lemma_merged_holds(cs, coord_box(), 0);
        },
        Shape::MultiLineString(ps) => {
            assert(path_ok(ps[0], dims, false));
            lemma_merged_holds(ps[0], coord_box(), 0);
            lemma_merged_holds(ps, path_box(), 0);
        },
        Shape::MultiPolygon(qs) => {
            let ps = qs[0];
            assert(paths_ok(ps, dims, true));
            assert(path_ok(ps[0], dims, true));
            lemma_merged_holds(ps[0], coord_box(), 0);
            lemma_merged_holds(ps, path_box(), 0);
            lemma_merged_holds(qs, paths_box(), 0);
        },
    }
}

/// The union of two boxes, either of which may be missing.
pub fn join(a: Option<BoundingBox>, b: Option<BoundingBox>) -> (r: Option<BoundingBox>)
    ensures
        r == join_boxes(a, b),
{
    match a {
        Some(x) => match b {
            Some(y) => Some(x.union(y)),
            None => Some(x),
        },
        None => b,
    }
}

/// The least box that holds the tuples of `cs`, if there is one.
pub fn box_of_path(cs: &Vec<Coord>) -> (r: Option<BoundingBox>)
    ensures
        r == merged(cs@, coord_box()),
{
    let mut acc: Option<BoundingBox> = None;
    let mut i: usize = 0;
    while i < cs.len()
        invariant
            i <= cs.len(),
            acc == merged(cs@.take(i as int), coord_box()),
        decreases cs.len() - i,
    {
        let c: Coord = cs[i];
        proof {
            assert(cs@.take(i + 1).drop_last() =~= cs@.take(i as int));
        }
        acc = join(acc, Some(BoundingBox::point(c.x, c.y)));
        i = i + 1;
    }
    proof {
        assert(cs@.take(cs.len() as int) =~= cs@);
    }
    acc
}

/// The least box that holds the tuples of all paths of `ps`, if there is one.
pub fn box_of_paths(ps: &Vec<Vec<Coord>>) -> (r: Option<BoundingBox>)
    ensures
        r == merged(paths_view(ps@), path_box()),
{
    let ghost all = paths_view(ps@);
    let mut acc: Option<BoundingBox> = None;
    let mut i: usize = 0;
    while i < ps.len()
        invariant
            i <= ps.len(),
            all == paths_view(ps@),
            acc == merged(all.take(i as int), path_box()),
        decreases ps.len() - i,
    {
        let b = box_of_path(&ps[i]);
        proof {
            assert(all.take(i + 1).drop_last() =~= all.take(i as int));
        }
        acc = join(acc, b);
        i = i + 1;
    }
    proof {
        assert(all.take(ps.len() as int) =~= all);
    }
    acc
}

/// The least box that holds the tuples of all polygons of `qs`, if there is one.
pub fn box_of_polys(qs: &Vec<Vec<Vec<Coord>>>) -> (r: Option<BoundingBox>)
    ensures
        r == merged(polys_view(qs@), paths_box()),
{
    let ghost all = polys_view(qs@);
    let mut acc: Option<BoundingBox> = None;
    let mut i: usize = 0;
    while i < qs.len()
        invariant
            i <= qs.len(),
            all == polys_view(qs@),
            acc == merged(all.take(i as int), paths_box()),
        decreases qs.len() - i,
    {
        let b = box_of_paths(&qs[i]);
        proof {
            assert(all.take(i + 1).drop_last() =~= all.take(i as int));
        }
        acc = join(acc, b);
        i = i + 1;
    }
    proof {
        assert(all.take(qs.len() as int) =~= all);
    }
    acc
}

// ---------------------------------------------------------------------------
// Checking the arity rules
// ---------------------------------------------------------------------------

/// Whether the tuple carries the ordinates that `dims` names, and no others.
pub fn coord_fits(c: &Coord, dims: Dimensions) -> (r: bool)
    ensures
        r == coord_ok(*c, dims),
{
    c.z.is_some() == dims.has_z && c.m.is_some() == dims.has_m
}

fn same_word(a: Option<u64>, b: Option<u64>) -> (r: bool)
    ensures
        r == (a == b),
{
    match a {
        Some(x) => match b {
            Some(y) => x == y,
            None => false,
        },
        None => b.is_none(),
    }
}

/// Whether two tuples agree in every ordinate, bit for bit.
pub fn same_coord(a: &Coord, b: &Coord) -> (r: bool)
    ensures
        r == (*a == *b),
{
    a.x == b.x && a.y == b.y && same_word(a.z, b.z) && same_word(a.m, b.m)
}

/// Whether every tuple carries the ordinates that `dims` names.
pub fn coords_fit(cs: &Vec<Coord>, dims: Dimensions) -> (r: bool)
    ensures
        r == coords_ok(cs@, dims),
{
    let mut i: usize = 0;
    while i < cs.len()
        invariant
            i <= cs.len(),
            forall|j: int| 0 <= j < i ==> coord_ok(#[trigger] cs@[j], dims),
        decreases cs.len() - i,
    {
        if !coord_fits(&cs[i], dims) {
            return false;
        }
        i = i + 1;
    }
    true
}

/// Whether a path keeps the arity rule of a line or, where `closed`, of a ring.
pub fn path_fits(cs: &Vec<Coord>, dims: Dimensions, closed: bool) -> (r: bool)
    ensures
        r == path_ok(cs@, dims, closed),
{
    if !coords_fit(cs, dims) {
        return false;
    }
    if closed {
        cs.len() >= 4 && same_coord(&cs[0], &cs[cs.len() - 1])
    } else {
        cs.len() >= 2
    }
}

/// Whether there is a path, and every path keeps its arity rule.
pub fn paths_fit(ps: &Vec<Vec<Coord>>, dims: Dimensions, closed: bool) -> (r: bool)
    ensures
        r == paths_ok(paths_view(ps@), dims, closed),
{
    if ps.len() < 1 {
        return false;
    }
    let ghost all = paths_view(ps@);
    let mut i: usize = 0;
    while i < ps.len()
        invariant
            i <= ps.len(),
            all == paths_view(ps@),
            forall|j: int| 0 <= j < i ==> path_ok(#[trigger] all[j], dims, closed),
        decreases ps.len() - i,
    {
        if !path_fits(&ps[i], dims, closed) {
            proof {
                assert(!path_ok(all[i as int], dims, closed));
            }
            return false;
        }
        i = i + 1;
    }
    true
}

/// Whether there is a polygon, and every polygon has rings that keep their rule.
pub fn polys_fit(qs: &Vec<Vec<Vec<Coord>>>, dims: Dimensions) -> (r: bool)
    ensures
        r == polys_ok(polys_view(qs@), dims),
{
    if qs.len() < 1 {
        return false;
    }
    let ghost all = polys_view(qs@);
    let mut i: usize = 0;
    while i < qs.len()
        invariant
            i <= qs.len(),
            all == polys_view(qs@),
            forall|j: int| 0 <= j < i ==> paths_ok(#[trigger] all[j], dims, true),
        decreases qs.len() - i,
    {
        if !paths_fit(&qs[i], dims, true) {
            proof {
                assert(!paths_ok(all[i as int], dims, true));
            }
            return false;
        }
        i = i + 1;
    }
    true
}

// ---------------------------------------------------------------------------
// Writing
// ---------------------------------------------------------------------------

fn put_opt_word(out: &mut Vec<u8>, w: Option<u64>)
    ensures
        final(out)@ == old(out)@ + opt_word_bytes(w),
{
    match w {
        Some(v) => {
            put_word(out, v);
        },
        None => {
            assert(out@ + Seq::<u8>::empty() =~= out@);
        },
    }
}

/// Appends a coordinate tuple.
pub fn put_coord(out: &mut Vec<u8>, c: &Coord)
    ensures
        final(out)@ == old(out)@ + coord_bytes(*c),
{
    let ghost before = out@;
    put_word(out, c.x);
    put_word(out, c.y);
    put_opt_word(out, c.z);
    put_opt_word(out, c.m);
    proof {
        assert(out@ =~= before + coord_bytes(*c));
    }
}

/// Appends a count and that many coordinate tuples.
pub fn put_path(out: &mut Vec<u8>, cs: &Vec<Coord>)
    ensures
        final(out)@ == old(out)@ + path_bytes(cs@),
{
    let ghost before = out@;
    put_varint(out, cs.len() as u64);
    let ghost mid = out@;
    proof {
        assert(mid + items_bytes(cs@.take(0), coord_writer()) =~= mid);
    }
    let mut i: usize = 0;
    while i < cs.len()
        invariant
            i <= cs.len(),
            out@ == mid + items_bytes(cs@.take(i as int), coord_writer()),
        decreases cs.len() - i,
    {
        put_coord(out, &cs[i]);
        proof {
            lemma_items_push(cs@.take(i as int), cs@[i as int], coord_writer());
            assert(cs@.take(i as int).push(cs@[i as int]) =~= cs@.take(i + 1));
            assert(out@ =~= mid + items_bytes(cs@.take(i + 1), coord_writer()));
        }
        i = i + 1;
    }
    proof {
        assert(cs@.take(cs.len() as int) =~= cs@);
        assert(out@ =~= before + path_bytes(cs@));
    }
}

/// Appends a count and that many paths.
pub fn put_paths(out: &mut Vec<u8>, ps: &Vec<Vec<Coord>>)
    ensures
        final(out)@ == old(out)@ + paths_bytes(paths_view(ps@)),
{
    let ghost before = out@;
    let ghost all = paths_view(ps@);
    put_varint(out, ps.len() as u64);
    let ghost mid = out@;
    proof {
        assert(mid + items_bytes(all.take(0), path_writer()) =~= mid);
    }
    let mut i: usize = 0;
    while i < ps.len()
        invariant
            i <= ps.len(),
            all == paths_view(ps@),
            out@ == mid + items_bytes(all.take(i as int), path_writer()),
        decreases ps.len() - i,
    {
        put_path(out, &ps[i]);
        proof {
            lemma_items_push(all.take(i as int), all[i as int], path_writer());
            assert(all.take(i as int).push(all[i as int]) =~= all.take(i + 1));
            assert(out@ =~= mid + items_bytes(all.take(i + 1), path_writer()));
        }
        i = i + 1;
    }
    proof {
        assert(all.take(ps.len() as int) =~= all);
        assert(out@ =~= before + paths_bytes(all));
    }
}

/// Appends a count and that many polygons.
pub fn put_polys(out: &mut Vec<u8>, qs: &Vec<Vec<Vec<Coord>>>)
    ensures
        final(out)@ == old(out)@ + polys_bytes(polys_view(qs@)),
{
    let ghost before = out@;
    let ghost all = polys_view(qs@);
    put_varint(out, qs.len() as u64);
    let ghost mid = out@;
    proof {
        assert(mid + items_bytes(all.take(0), paths_writer()) =~= mid);
    }
    let mut i: usize = 0;
    while i < qs.len()
        invariant
            i <= qs.len(),
            all == polys_view(qs@),
            out@ == mid + items_bytes(all.take(i as int), paths_writer()),
        decreases qs.len() - i,
    {
        put_paths(out, &qs[i]);
        proof {
            lemma_items_push(all.take(i as int), all[i as int], paths_writer());
            assert(all.take(i as int).push(all[i as int]) =~= all.take(i + 1));
            assert(out@ =~= mid + items_bytes(all.take(i + 1), paths_writer()));
        }
        i = i + 1;
    }
    proof {
        assert(all.take(qs.len() as int) =~= all);
        assert(out@ =~= before + polys_bytes(all));
    }
}

// ---------------------------------------------------------------------------
// Reading
// ---------------------------------------------------------------------------

fn get_opt_word(buf: &[u8], pos: usize, end: usize, present: bool) -> (r: Result<
    (Option<u64>, usize),
    Error,
>)
    requires
        pos <= end <= buf@.len(),
    ensures
        match r {
            Ok((w, next)) => gives(
                parse_opt_word(buf@, pos as int, end as int, present),
                (w, next as int),
            ) && pos <= next <= end,
            Err(e) => fails(parse_opt_word(buf@, pos as int, end as int, present), e),
        },
{
    if present {
        match get_word(buf, pos, end) {
            Ok((v, next)) => Ok((Some(v), next)),
            Err(e) => Err(e),
        }
    } else {
        Ok((None, pos))
    }
}

/// Reads the coordinate tuple at `pos`.
pub fn get_coord(buf: &[u8], pos: usize, end: usize, dims: Dimensions) -> (r: Result<
    (Coord, usize),
    Error,
>)
    requires
        end <= buf@.len(),
    ensures
        match r {
            Ok((c, next)) => gives(parse_coord(buf@, pos as int, end as int, dims), (c, next as int))
                && pos < next <= end,
            Err(e) => fails(parse_coord(buf@, pos as int, end as int, dims), e),
        },
{
    let (x, pos1) = match get_word(buf, pos, end) {
        Ok(v) => v,
        Err(e) => {
            return Err(e);
        },
    };
    let (y, pos2) = match get_word(buf, pos1, end) {
        Ok(v) => v,
        Err(e) => {
            return Err(e);
        },
    };
    let (z, pos3) = match get_opt_word(buf, pos2, end, dims.has_z) {
        Ok(v) => v,
        Err(e) => {
            return Err(e);
        },
    };
    let (m, pos4) = match get_opt_word(buf, pos3, end, dims.has_m) {
        Ok(v) => v,
        Err(e) => {
            return Err(e);
        },
    };
    Ok((Coord { x, y, z, m }, pos4))
}

/// Reads a count at `pos` and that many coordinate tuples.
pub fn get_path(buf: &[u8], pos: usize, end: usize, dims: Dimensions) -> (r: Result<
    (Vec<Coord>, usize),
    Error,
>)
    requires
        end <= buf@.len(),
    ensures
        match r {
            Ok((cs, next)) => gives(parse_path(buf@, pos as int, end as int, dims), (cs@, next as int))
                && pos < next <= end,
            Err(e) => fails(parse_path(buf@, pos as int, end as int, dims), e),
        },
{
    let (n, start) = match get_varint(buf, pos, end) {
        Ok(v) => v,
        Err(e) => {
            return Err(e);
        },
    };
    let ghost p = coord_reader(dims);
    let mut acc: Vec<Coord> = Vec::new();
    let mut cur: usize = start;
    let mut i: u64 = 0;
    while i < n
        invariant
            i <= n,
            start <= cur <= end,
            end <= buf@.len(),
            gives(parse_varint(buf@, pos as int, end as int), (n, start as int)),
            p == coord_reader(dims),
            gives(parse_items(buf@, start as int, end as int, i as nat, p), (acc@, cur as int)),
        decreases n - i,
    {
        match get_coord(buf, cur, end, dims) {
            Ok((c, next)) => {
                acc.push(c);
                cur = next;
                i = i + 1;
            },
            Err(e) => {
                proof {
                    assert(fails(parse_items(buf@, start as int, end as int, (i + 1) as nat, p), e));
                    lemma_parse_items_sticky(
                        buf@,
                        start as int,
                        end as int,
                        (i + 1) as nat,
                        n as nat,
                        p,
                    );
                }
                return Err(e);
            },
        }
    }
    Ok((acc, cur))
}

/// Reads a count at `pos` and that many paths.
pub fn get_paths(buf: &[u8], pos: usize, end: usize, dims: Dimensions) -> (r: Result<
    (Vec<Vec<Coord>>, usize),
    Error,
>)
    requires
        end <= buf@.len(),
    ensures
        match r {
            Ok((ps, next)) => gives(
                parse_paths(buf@, pos as int, end as int, dims),
                (paths_view(ps@), next as int),
            ) && pos < next <= end,
            Err(e) => fails(parse_paths(buf@, pos as int, end as int, dims), e),
        },
{
    let (n, start) = match get_varint(buf, pos, end) {
        Ok(v) => v,
        Err(e) => {
            return Err(e);
        },
    };
    let ghost p = path_reader(dims);
    let mut acc: Vec<Vec<Coord>> = Vec::new();
    let mut cur: usize = start;
    let mut i: u64 = 0;
    proof {
        assert(paths_view(acc@) =~= Seq::<Seq<Coord>>::empty());
    }
    while i < n
        invariant
            i <= n,
            start <= cur <= end,
            end <= buf@.len(),
            gives(parse_varint(buf@, pos as int, end as int), (n, start as int)),
            p == path_reader(dims),
            gives(
                parse_items(buf@, start as int, end as int, i as nat, p),
                (paths_view(acc@), cur as int),
            ),
        decreases n - i,
    {
        match get_path(buf, cur, end, dims) {
            Ok((cs, next)) => {
                let ghost prev = acc@;
                acc.push(cs);
                proof {
                    assert(paths_view(acc@) =~= paths_view(prev).push(cs@));
                }
                cur = next;
                i = i + 1;
            },
            Err(e) => {
                proof {
                    assert(fails(parse_items(buf@, start as int, end as int, (i + 1) as nat, p), e));
                    lemma_parse_items_sticky(
                        buf@,
                        start as int,
                        end as int,
                        (i + 1) as nat,
                        n as nat,
                        p,
                    );
                }
                return Err(e);
            },
        }
    }
    Ok((acc, cur))
}

/// Reads a count at `pos` and that many polygons.
pub fn get_polys(buf: &[u8], pos: usize, end: usize, dims: Dimensions) -> (r: Result<
    (Vec<Vec<Vec<Coord>>>, usize),
    Error,
>)
    requires
        end <= buf@.len(),
    ensures
        match r {
            Ok((qs, next)) => gives(
                parse_polys(buf@, pos as int, end as int, dims),
                (polys_view(qs@), next as int),
            ) && pos < next <= end,
            Err(e) => fails(parse_polys(buf@, pos as int, end as int, dims), e),
        },
{
    let (n, start) = match get_varint(buf, pos, end) {
        Ok(v) => v,
        Err(e) => {
            return Err(e);
        },
    };
    let ghost p = paths_reader(dims);
    let mut acc: Vec<Vec<Vec<Coord>>> = Vec::new();
    let mut cur: usize = start;
    let mut i: u64 = 0;
    proof {
        assert(polys_view(acc@) =~= Seq::<Seq<Seq<Coord>>>::empty());
    }
    while i < n
        invariant
            i <= n,
            start <= cur <= end,
            end <= buf@.len(),
            gives(parse_varint(buf@, pos as int, end as int), (n, start as int)),
            p == paths_reader(dims),
            gives(
                parse_items(buf@, start as int, end as int, i as nat, p),
                (polys_view(acc@), cur as int),
            ),
        decreases n - i,
    {
        match get_paths(buf, cur, end, dims) {
            Ok((ps, next)) => {
                let ghost prev = acc@;
                acc.push(ps);
                proof {
                    assert(polys_view(acc@) =~= polys_view(prev).push(paths_view(ps@)));
                }
                cur = next;
                i = i + 1;
            },
            Err(e) => {
                proof {
                    assert(fails(parse_items(buf@, start as int, end as int, (i + 1) as nat, p), e));
                    lemma_parse_items_sticky(
                        buf@,
                        start as int,
                        end as int,
                        (i + 1) as nat,
                        n as nat,
                        p,
                    );
                }
                return Err(e);
            },
        }
    }
    Ok((acc, cur))
}

fn get_body(buf: &[u8], pos: usize, end: usize, kind: GeometryType, dims: Dimensions) -> (r: Result<
    (Geometry, usize),
    Error,
>)
    requires
        end <= buf@.len(),
    ensures
        match r {
            Ok((g, next)) => gives(
                parse_body(buf@, pos as int, end as int, kind, dims),
                (g@, next as int),
            ) && pos < next <= end,
            Err(e) => fails(parse_body(buf@, pos as int, end as int, kind, dims), e),
        },
{
    match kind {
        GeometryType::Point => match get_coord(buf, pos, end, dims) {
            Ok((c, next)) => Ok((Geometry::Point(c), next)),
            Err(e) => Err(e),
        },
        GeometryType::LineString => match get_path(buf, pos, end, dims) {
            Ok((cs, next)) => Ok((Geometry::LineString(cs), next)),
            Err(e) => Err(e),
        },
        GeometryType::Polygon => match get_paths(buf, pos, end, dims) {
            Ok((ps, next)) => Ok((Geometry::Polygon(ps), next)),
            Err(e) => Err(e),
        },
        GeometryType::MultiPoint => match get_path(buf, pos, end, dims) {
            Ok((cs, next)) => Ok((Geometry::MultiPoint(cs), next)),
            Err(e) => Err(e),
        },
        GeometryType::MultiLineString => match get_paths(buf, pos, end, dims) {
            Ok((ps, next)) => Ok((Geometry::MultiLineString(ps), next)),
            Err(e) => Err(e),
        },
        GeometryType::MultiPolygon => match get_polys(buf, pos, end, dims) {
            Ok((qs, next)) => Ok((Geometry::MultiPolygon(qs), next)),
            Err(e) => Err(e),
        },
        _ => Err(Error::FormatError),
    }
}

impl Geometry {
    /// The kind of this geometry.
    pub fn kind(&self) -> (k: GeometryType)
        ensures
            k == self@.kind(),
    {
        match self {
            Geometry::Point(_) => GeometryType::Point,
            Geometry::LineString(_) => GeometryType::LineString,
            Geometry::Polygon(_) => GeometryType::Polygon,
            Geometry::MultiPoint(_) => GeometryType::MultiPoint,
            Geometry::MultiLineString(_) => GeometryType::MultiLineString,
            Geometry::MultiPolygon(_) => GeometryType::MultiPolygon,
        }
    }

    /// Whether the geometry keeps the arity rules of its kind and carries
    /// the ordinates that `dims` names.
    pub fn is_well_formed(&self, dims: Dimensions) -> (r: bool)
        ensures
            r == well_formed(self@, dims),
    {
        match self {
            Geometry::Point(c) => coord_fits(c, dims),
            Geometry::LineString(cs) => path_fits(cs, dims, false),
            Geometry::Polygon(ps) => paths_fit(ps, dims, true),
            Geometry::MultiPoint(cs) => coords_fit(cs, dims) && cs.len() >= 1,
            Geometry::MultiLineString(ps) => paths_fit(ps, dims, false),
            Geometry::MultiPolygon(qs) => polys_fit(qs, dims),
        }
    }

    /// The least box that holds every coordinate, if there is a coordinate.
    pub fn bounding_box(&self) -> (r: Option<BoundingBox>)
        ensures
            r == shape_box(self@),
    {
        match self {
            Geometry::Point(c) => Some(BoundingBox::point(c.x, c.y)),
            Geometry::LineString(cs) => box_of_path(cs),
            Geometry::Polygon(ps) => box_of_paths(ps),
            Geometry::MultiPoint(cs) => box_of_path(cs),
            Geometry::MultiLineString(ps) => box_of_paths(ps),
            Geometry::MultiPolygon(qs) => box_of_polys(qs),
        }
    }

    /// Appends the encoding of the geometry to `out`.
    pub fn encode_into(&self, out: &mut Vec<u8>)
        ensures
            final(out)@ == old(out)@ + geometry_bytes(self@),
    {
        let ghost before = out@;
        out.push(self.kind().tag());
        match self {
            Geometry::Point(c) => put_coord(out, c),
            Geometry::LineString(cs) => put_path(out, cs),
            Geometry::Polygon(ps) => put_paths(out, ps),
            Geometry::MultiPoint(cs) => put_path(out, cs),
            Geometry::MultiLineString(ps) => put_paths(out, ps),
            Geometry::MultiPolygon(qs) => put_polys(out, qs),
        }
        proof {
            assert(out@ =~= before + geometry_bytes(self@));
        }
    }

    /// The encoding of the geometry.
    pub fn encode(&self) -> (out: Vec<u8>)
        ensures
            out@ == geometry_bytes(self@),
    {
        let mut out: Vec<u8> = Vec::new();
        self.encode_into(&mut out);
        proof {
            assert(Seq::<u8>::empty() + geometry_bytes(self@) =~= geometry_bytes(self@));
        }
        out
    }

    /// Reads the geometry that starts at `pos` and ends at or before `end`.
    pub fn decode_at(
        buf: &[u8],
        pos: usize,
        end: usize,
        expected: GeometryType,
        dims: Dimensions,
    ) -> (r: Result<(Geometry, usize), Error>)
        requires
            end <= buf@.len(),
        ensures
            match r {
                Ok((g, next)) => gives(
                    parse_geometry(buf@, pos as int, end as int, expected, dims),
                    (g@, next as int),
                ) && pos < next <= end && well_formed(g@, dims) && expected.spec_admits(
                    g@.kind(),
                ),
                Err(e) => fails(parse_geometry(buf@, pos as int, end as int, expected, dims), e),
            },
    {
        let (t, start) = match get_byte(buf, pos, end) {
            Ok(v) => v,
            Err(e) => {
                return Err(e);
            },
        };
        let kind = match GeometryType::from_tag(t) {
            Some(k) => k,
            None => {
                return Err(Error::FormatError);
            },
        };
        if !expected.admits(kind) {
            return Err(Error::FormatError);
        }
        let (g, next) = match get_body(buf, start, end, kind, dims) {
            Ok(v) => v,
            Err(e) => {
                return Err(e);
            },
        };
        if !g.is_well_formed(dims) {
            return Err(Error::FormatError);
        }
        Ok((g, next))
    }

    /// Decodes a buffer that holds one geometry and nothing else. Every
    /// failure is a `FormatError`: a tag that names no geometry or one that
    /// `expected` does not admit, a count that runs over the buffer, a
    /// geometry that breaks the arity rules, bytes left over.
    pub fn decode(bytes: &[u8], expected: GeometryType, dims: Dimensions) -> (r: Result<
        Geometry,
        Error,
    >)
        ensures
            match r {
                Ok(g) => gives(decode_geometry(bytes@, expected, dims), g@),
                Err(e) => fails(decode_geometry(bytes@, expected, dims), e),
            },
    {
        match Geometry::decode_at(bytes, 0, bytes.len(), expected, dims) {
            Ok((g, next)) => {
                if next == bytes.len() {
                    Ok(g)
                } else {
                    Err(Error::FormatError)
                }
            },
            Err(_) => Err(Error::FormatError),
        }
    }
}

} // verus!
