use crate::error::{fails, gives, Error};
use crate::geometry::{Dimensions, GeometryType};
use crate::schema::{
    columns_bytes, columns_ok, columns_view, get_columns, lemma_columns_round_trip, parse_columns,
    put_columns, Column, ColumnModel,
};
use crate::wire::{
    blob_bytes, flag_bytes, get_blob, get_byte, get_flag, get_varint, has_at,
    lemma_blob_round_trip, lemma_byte_round_trip, lemma_flag_round_trip, lemma_has_at_split,
    lemma_varint_round_trip, parse_blob, parse_byte, parse_flag, parse_varint, put_blob, put_flag,
    put_varint, varint_bytes,
};
use vstd::prelude::*;

verus! {

/// The version of the format that this library writes and reads.
pub const VERSION: u8 = 1;

/// The four bytes that every file starts with.
pub open spec fn magic() -> Seq<u8> {
    seq![0x66u8, 0x70u8, 0x6bu8, 0x0au8]
}

/// A coordinate reference system: the code that an authority gave it, and
/// optionally its well-known text, held as bytes.
#[derive(Clone, Debug, PartialEq, Eq)]
pub struct Crs {
    pub code: u32,
    pub wkt: Option<Vec<u8>>,
}

/// What a `Crs` holds.
pub struct CrsModel {
    pub code: u32,
    pub wkt: Option<Seq<u8>>,
}

impl View for Crs {
    type V = CrsModel;

    open spec fn view(&self) -> CrsModel {
        CrsModel {
            code: self.code,
            wkt: match self.wkt {
                Some(w) => Some(w@),
                None => None,
            },
        }
    }
}

/// What a file says of itself before its features.
#[derive(Clone, Debug, PartialEq, Eq)]
pub struct Header {
    pub geometry_type: GeometryType,
    pub has_index: bool,
    pub dims: Dimensions,
    /// The number of features, where the writer knew it.
    pub feature_count: Option<u64>,
    pub crs: Crs,
    /// Free text, held as the bytes of its UTF-8 form.
    pub description: Vec<u8>,
    pub columns: Vec<Column>,
}

/// What a `Header` holds.
pub struct HeaderModel {
    pub geometry_type: GeometryType,
    pub has_index: bool,
    pub dims: Dimensions,
    pub feature_count: Option<u64>,
    pub crs: CrsModel,
    pub description: Seq<u8>,
    pub columns: Seq<ColumnModel>,
}

impl View for Header {
    type V = HeaderModel;

    open spec fn view(&self) -> HeaderModel {
        HeaderModel {
            geometry_type: self.geometry_type,
            has_index: self.has_index,
            dims: self.dims,
            feature_count: self.feature_count,
            crs: self.crs@,
            description: self.description@,
            columns: columns_view(self.columns@),
        }
    }
}

/// The header can be written and read back: the count, where known, is less
/// than the greatest 64-bit number; an index goes with a known count only;
/// the lengths of the texts and the number of columns fit in 64 bits.
pub open spec fn header_ok(h: HeaderModel) -> bool {
    &&& h.feature_count matches Some(c) ==> c < u64::MAX
    &&& h.has_index ==> h.feature_count is Some
    &&& h.crs.wkt matches Some(w) ==> w.len() <= u64::MAX
    &&& h.description.len() <= u64::MAX
    &&& columns_ok(h.columns)
}

// ---------------------------------------------------------------------------
// Layout
// ---------------------------------------------------------------------------

/// Bit 0 says that an index follows the header, bit 1 that coordinates have
/// z, bit 2 that they have m.
pub open spec fn flags_byte(has_index: bool, dims: Dimensions) -> u8 {
    ((if has_index {
        1int
    } else {
        0int
    }) + (if dims.has_z {
        2int
    } else {
        0int
    }) + (if dims.has_m {
        4int
    } else {
        0int
    })) as u8
}

/// The count plus one, or zero for a count that is not known.
pub open spec fn count_field(c: Option<u64>) -> nat {
    match c {
        Some(v) => (v + 1) as nat,
        None => 0,
    }
}

/// A flag that says whether the text follows, then the text.
pub open spec fn wkt_bytes(w: Option<Seq<u8>>) -> Seq<u8> {
    match w {
        Some(t) => flag_bytes(true) + blob_bytes(t),
        None => flag_bytes(false),
    }
}

/// The code, then a flag that says whether the text follows, then the text.
pub open spec fn crs_bytes(c: CrsModel) -> Seq<u8> {
    varint_bytes(c.code as nat) + wkt_bytes(c.wkt)
}

/// The optional text at `pos`.
pub open spec fn parse_wkt(s: Seq<u8>, pos: int, end: int) -> Result<(Option<Seq<u8>>, int), Error> {
    match parse_flag(s, pos, end) {
        Err(e) => Err(e),
        Ok((present, pos1)) => if present {
            match parse_blob(s, pos1, end) {
                Err(e) => Err(e),
                Ok((w, pos2)) => Ok((Some(w), pos2)),
            }
        } else {
            Ok((None, pos1))
        },
    }
}

/// The reference system at `pos`; a code over 32 bits is a `FormatError`.
pub open spec fn parse_crs(s: Seq<u8>, pos: int, end: int) -> Result<(CrsModel, int), Error> {
    match parse_varint(s, pos, end) {
        Err(e) => Err(e),
        Ok((code, pos1)) => if code > u32::MAX {
            Err(Error::FormatError)
        } else {
            match parse_wkt(s, pos1, end) {
                Err(e) => Err(e),
                Ok((wkt, pos2)) => Ok((CrsModel { code: code as u32, wkt }, pos2)),
            }
        },
    }
}

/// The tag of the geometry type, the flags, the count, the reference
/// system, the description, the columns.
pub open spec fn header_bytes(h: HeaderModel) -> Seq<u8> {
    seq![h.geometry_type.spec_tag()] + seq![flags_byte(h.has_index, h.dims)] + varint_bytes(
        count_field(h.feature_count),
    ) + crs_bytes(h.crs) + blob_bytes(h.description) + columns_bytes(h.columns)
}

/// The header that starts at `pos`.
pub open spec fn parse_header(s: Seq<u8>, pos: int, end: int) -> Result<(HeaderModel, int), Error> {
    match parse_byte(s, pos, end) {
        Err(e) => Err(e),
        Ok((tag, pos1)) => match GeometryType::spec_from_tag(tag) {
            None => Err(Error::FormatError),
            Some(geometry_type) => match parse_byte(s, pos1, end) {
                Err(e) => Err(e),
                Ok((flags, pos2)) => if flags >= 8 {
                    Err(Error::FormatError)
                } else {
                    match parse_varint(s, pos2, end) {
                        Err(e) => Err(e),
                        Ok((raw, pos3)) => if raw == 0 && flags % 2 == 1 {
                            Err(Error::FormatError)
                        } else {
                            match parse_crs(s, pos3, end) {
                                Err(e) => Err(e),
                                Ok((crs, pos4)) => match parse_blob(s, pos4, end) {
                                    Err(e) => Err(e),
                                    Ok((description, pos5)) => match parse_columns(s, pos5, end) {
                                        Err(e) => Err(e),
                                        Ok((columns, pos6)) => Ok(
                                            (
                                                HeaderModel {
                                                    geometry_type,
                                                    has_index: flags % 2 == 1,
                                                    dims: Dimensions {
                                                        has_z: (flags / 2) % 2 == 1,
                                                        has_m: flags / 4 == 1,
                                                    },
                                                    feature_count: if raw == 0 {
                                                        None
                                                    } else {
                                                        Some((raw - 1) as u64)
                                                    },
                                                    crs,
                                                    description,
                                                    columns,
                                                },
                                                pos6,
                                            ),
                                        ),
                                    },
                                },
                            }
                        },
                    }
                },
            },
        },
    }
}

/// The magic, the version, the length of the header, the header.
pub open spec fn preamble_bytes(h: HeaderModel) -> Seq<u8> {
    magic() + seq![VERSION] + blob_bytes(header_bytes(h))
}

/// The header of the file `s`, and where what follows it starts. Whatever
/// is wrong with the first bytes of a file is a `FormatError`: another
/// magic or version, a header that is cut short, that is malformed, or that
/// does not fill the length it declares.
pub open spec fn parse_preamble(s: Seq<u8>) -> Result<(HeaderModel, int), Error> {
    if s.len() < 5 || s.subrange(0, 4) != magic() || s[4] != VERSION {
        Err(Error::FormatError)
    } else {
        match parse_varint(s, 5, s.len() as int) {
            Err(_) => Err(Error::FormatError),
            Ok((len, start)) => if start + len > s.len() {
                Err(Error::FormatError)
            } else {
                match parse_header(s, start, start + len) {
                    Err(_) => Err(Error::FormatError),
                    Ok((h, next)) => if next == start + len {
                        Ok((h, next))
                    } else {
                        Err(Error::FormatError)
                    },
                }
            },
        }
    }
}

// ---------------------------------------------------------------------------
// Reading back what was written
// ---------------------------------------------------------------------------

/// A reference system is read back as written.
pub proof fn lemma_crs_round_trip(s: Seq<u8>, pos: int, end: int, c: CrsModel)
    requires
        has_at(s, pos, end, crs_bytes(c)),
        c.wkt matches Some(w) ==> w.len() <= u64::MAX,
    ensures
        parse_crs(s, pos, end) == Ok::<(CrsModel, int), Error>((c, pos + crs_bytes(c).len())),
{
    lemma_has_at_split(s, pos, end, varint_bytes(c.code as nat), wkt_bytes(c.wkt));
    lemma_varint_round_trip(s, pos, end, c.code as u64);
    let pos1 = pos + varint_bytes(c.code as nat).len();
    match c.wkt {
        Some(w) => {
            lemma_has_at_split(s, pos1, end, flag_bytes(true), blob_bytes(w));
            lemma_flag_round_trip(s, pos1, end, true);
            lemma_blob_round_trip(s, pos1 + 1, end, w);
        },
        None => {
            lemma_flag_round_trip(s, pos1, end, false);
        },
    }
}

/// A header that can be written is read back as written.
pub proof fn lemma_header_round_trip(s: Seq<u8>, pos: int, end: int, h: HeaderModel)
    requires
        has_at(s, pos, end, header_bytes(h)),
        header_ok(h),
    ensures
        parse_header(s, pos, end) == Ok::<(HeaderModel, int), Error>(
            (h, pos + header_bytes(h).len()),
        ),
{
    let tag = h.geometry_type.spec_tag();
    let flags = flags_byte(h.has_index, h.dims);
    let a = seq![tag];
    let b = seq![flags];
    let c = varint_bytes(count_field(h.feature_count));
    let d = crs_bytes(h.crs);
    let e = blob_bytes(h.description);
    let f = columns_bytes(h.columns);
    lemma_has_at_split(s, pos, end, a + b + c + d + e, f);
    lemma_has_at_split(s, pos, end, a + b + c + d, e);
    lemma_has_at_split(s, pos, end, a + b + c, d);
    lemma_has_at_split(s, pos, end, a + b, c);
    lemma_has_at_split(s, pos, end, a, b);
    lemma_byte_round_trip(s, pos, end, tag);
    lemma_byte_round_trip(s, pos + 1, end, flags);
    lemma_varint_round_trip(s, pos + 2, end, count_field(h.feature_count) as u64);
    let pos3 = pos + 2 + c.len();
    lemma_crs_round_trip(s, pos3, end, h.crs);
    let pos4 = pos3 + d.len();
    lemma_blob_round_trip(s, pos4, end, h.description);
    let pos5 = pos4 + e.len();
    lemma_columns_round_trip(s, pos5, end, h.columns);
    let got = parse_header(s, pos, end).unwrap().0;
    assert(got.dims == h.dims);
    assert(got.feature_count == h.feature_count);
}

/// The first bytes of a file whose header can be written are read back as
/// the header, and what follows the header starts where they end.
pub proof fn lemma_preamble_round_trip(h: HeaderModel, rest: Seq<u8>)
    requires
        header_ok(h),
        header_bytes(h).len() <= u64::MAX,
    ensures
        parse_preamble(preamble_bytes(h) + rest) == Ok::<(HeaderModel, int), Error>(
            (h, preamble_bytes(h).len() as int),
        ),
{
    let s = preamble_bytes(h) + rest;
    let hb = header_bytes(h);
    let end = s.len() as int;
    assert(s.subrange(0, 4) =~= magic());
    assert(s[4] == VERSION);
    assert(has_at(s, 5, end, blob_bytes(hb))) by {
        assert(s.subrange(5, 5 + blob_bytes(hb).len() as int) =~= blob_bytes(hb));
    }
    lemma_has_at_split(s, 5, end, varint_bytes(hb.len()), hb);
    lemma_varint_round_trip(s, 5, end, hb.len() as u64);
    let start: int = 5 + varint_bytes(hb.len()).len() as int;
    let stop: int = start + hb.len() as int;
    assert(has_at(s, start, stop, hb));
    lemma_header_round_trip(s, start, stop, h);
}

// ---------------------------------------------------------------------------
// Writing and reading
// ---------------------------------------------------------------------------

fn put_crs(out: &mut Vec<u8>, c: &Crs)
    ensures
        final(out)@ == old(out)@ + crs_bytes(c@),
{
    let ghost before = out@;
    put_varint(out, c.code as u64);
    match &c.wkt {
        Some(w) => {
            put_flag(out, true);
            put_blob(out, w);
        },
        None => {
            put_flag(out, false);
        },
    }
    proof {
        assert(out@ =~= before + crs_bytes(c@));
    }
}

fn get_crs(buf: &[u8], pos: usize, end: usize) -> (r: Result<(Crs, usize), Error>)
    requires
        end <= buf@.len(),
    ensures
        match r {
            Ok((c, next)) => gives(parse_crs(buf@, pos as int, end as int), (c@, next as int))
                && pos < next <= end,
            Err(e) => fails(parse_crs(buf@, pos as int, end as int), e),
        },
{
    let (code, pos1) = match get_varint(buf, pos, end) {
        Ok(v) => v,
        Err(e) => {
            return Err(e);
        },
    };
    if code > u32::MAX as u64 {
        return Err(Error::FormatError);
    }
    let (present, pos2) = match get_flag(buf, pos1, end) {
        Ok(v) => v,
        Err(e) => {
            return Err(e);
        },
    };
    if present {
        match get_blob(buf, pos2, end) {
            Ok((w, pos3)) => Ok((Crs { code: code as u32, wkt: Some(w) }, pos3)),
            Err(e) => Err(e),
        }
    } else {
        Ok((Crs { code: code as u32, wkt: None }, pos2))
    }
}

fn flags_of(has_index: bool, dims: Dimensions) -> (b: u8)
    ensures
        b == flags_byte(has_index, dims),
        b < 8,
        (b % 2 == 1) == has_index,
        ((b / 2) % 2 == 1) == dims.has_z,
        (b / 4 == 1) == dims.has_m,
{
    let i: u8 = if has_index {
        1
    } else {
        0
    };
    let z: u8 = if dims.has_z {
        2
    } else {
        0
    };
    let m: u8 = if dims.has_m {
        4
    } else {
        0
    };
    i + z + m
}

impl Header {
    /// Whether a header can be written depends on its count alone: the texts
    /// and the schema of a header in memory have lengths that fit.
    pub proof fn lemma_ok(&self)
        ensures
            header_ok(self@) == (match self.feature_count {
                Some(c) => c < u64::MAX,
                None => !self.has_index,
            }),
    {
        let h = self@;
        assert(h.description.len() == self.description.len());
        if self.crs.wkt is Some {
            assert(self.crs.wkt->0@.len() == self.crs.wkt->0.len());
        }
        assert(columns_ok(h.columns)) by {
            assert(h.columns.len() == self.columns.len());
            assert forall|i: int| 0 <= i < h.columns.len() implies (#[trigger] h.columns[i]).name.len()
                <= u64::MAX by {
                assert(h.columns[i].name == self.columns@[i].name@);
                assert(self.columns@[i].name@.len() == self.columns@[i].name.len());
            }
        }
    }

    /// Whether the header can be written and read back: its count, where
    /// known, is less than the greatest 64-bit number, and it announces an
    /// index only with a known count.
    pub fn is_ok(&self) -> (r: bool)
        ensures
            r == header_ok(self@),
    {
        proof {
            self.lemma_ok();
        }
        match self.feature_count {
            Some(c) => c < u64::MAX,
            None => !self.has_index,
        }
    }

    /// Appends the header, without the length in front of it.
    pub fn encode_into(&self, out: &mut Vec<u8>)
        requires
            header_ok(self@),
        ensures
            final(out)@ == old(out)@ + header_bytes(self@),
    {
        let ghost before = out@;
        out.push(self.geometry_type.tag());
        out.push(flags_of(self.has_index, self.dims));
        let raw: u64 = match self.feature_count {
            Some(c) => c + 1,
            None => 0,
        };
        put_varint(out, raw);
        put_crs(out, &self.crs);
        put_blob(out, &self.description);
        put_columns(out, &self.columns);
        proof {
            assert(out@ =~= before + header_bytes(self@));
        }
    }

    /// Reads the header that starts at `pos`.
    pub fn decode_at(buf: &[u8], pos: usize, end: usize) -> (r: Result<(Header, usize), Error>)
        requires
            end <= buf@.len(),
        ensures
            match r {
                Ok((h, next)) => gives(parse_header(buf@, pos as int, end as int), (h@, next as int))
                    && pos < next <= end,
                Err(e) => fails(parse_header(buf@, pos as int, end as int), e),
            },
    {
        let (tag, pos1) = match get_byte(buf, pos, end) {
            Ok(v) => v,
            Err(e) => {
                return Err(e);
            },
        };
        let geometry_type = match GeometryType::from_tag(tag) {
            Some(g) => g,
            None => {
                return Err(Error::FormatError);
            },
        };
        let (flags, pos2) = match get_byte(buf, pos1, end) {
            Ok(v) => v,
            Err(e) => {
                return Err(e);
            },
        };
        if flags >= 8 {
            return Err(Error::FormatError);
        }
        let (raw, pos3) = match get_varint(buf, pos2, end) {
            Ok(v) => v,
            Err(e) => {
                return Err(e);
            },
        };
        if raw == 0 && flags % 2 == 1 {
            return Err(Error::FormatError);
        }
        let (crs, pos4) = match get_crs(buf, pos3, end) {
            Ok(v) => v,
            Err(e) => {
                return Err(e);
            },
        };
        let (description, pos5) = match get_blob(buf, pos4, end) {
            Ok(v) => v,
            Err(e) => {
                return Err(e);
            },
        };
        let (columns, pos6) = match get_columns(buf, pos5, end) {
            Ok(v) => v,
            Err(e) => {
                return Err(e);
            },
        };
        let header = Header {
            geometry_type,
            has_index: flags % 2 == 1,
            dims: Dimensions { has_z: (flags / 2) % 2 == 1, has_m: flags / 4 == 1 },
            feature_count: if raw == 0 {
                None
            } else {
                Some(raw - 1)
            },
            crs,
            description,
            columns,
        };
        Ok((header, pos6))
    }
}

/// Appends the magic, the version, and the header with its length in front.
pub fn put_preamble(out: &mut Vec<u8>, h: &Header)
    requires
        header_ok(h@),
    ensures
        final(out)@ == old(out)@ + preamble_bytes(h@),
{
    let ghost before = out@;
    out.push(0x66u8);
    out.push(0x70u8);
    out.push(0x6bu8);
    out.push(0x0au8);
    out.push(VERSION);
    let mut block: Vec<u8> = Vec::new();
    h.encode_into(&mut block);
    proof {
        assert(block@ =~= header_bytes(h@));
    }
    put_blob(out, &block);
    proof {
        assert(out@ =~= before + preamble_bytes(h@));
    }
}

/// Reads the first bytes of a file: the magic, the version and the header.
pub fn get_preamble(buf: &[u8]) -> (r: Result<(Header, usize), Error>)
    ensures
        match r {
            Ok((h, next)) => gives(parse_preamble(buf@), (h@, next as int)) && 5 < next
                <= buf@.len(),
            Err(e) => fails(parse_preamble(buf@), e),
        },
{
    let end: usize = buf.len();
    if end < 5 {
        return Err(Error::FormatError);
    }
    if buf[0] != 0x66u8 || buf[1] != 0x70u8 || buf[2] != 0x6bu8 || buf[3] != 0x0au8 {
        proof {
            let m = buf@.subrange(0, 4);
            assert(m[0] == buf@[0] && m[1] == buf@[1] && m[2] == buf@[2] && m[3] == buf@[3]);
        }
        return Err(Error::FormatError);
    }
    proof {
        assert(buf@.subrange(0, 4) =~= magic());
    }
    if buf[4] != VERSION {
        return Err(Error::FormatError);
    }
    let (len, start) = match get_varint(buf, 5, end) {
        Ok(v) => v,
        Err(_) => {
            return Err(Error::FormatError);
        },
    };
    if len > (end - start) as u64 {
        return Err(Error::FormatError);
    }
    let stop: usize = start + len as usize;
    match Header::decode_at(buf, start, stop) {
        Ok((h, next)) => {
            if next == stop {
                Ok((h, next))
            } else {
                Err(Error::FormatError)
            }
        },
        Err(_) => Err(Error::FormatError),
    }
}

} // verus!
