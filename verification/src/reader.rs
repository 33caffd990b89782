use crate::bbox::BoundingBox;
use crate::error::{fails, gives, Error};
use crate::feature::{
    features_view, lemma_record_beyond_end, parse_record, record_reader, Feature, FeatureModel,
};
use crate::file::{
    fetch, kept, lemma_fetch_sticky, lemma_kept_all, parse_head, parse_to_end, passes, scan_from,
    FileHead,
};
use crate::header::{get_preamble, Header, HeaderModel};
use crate::index::{Node, SpatialIndex};
use crate::wire::{lemma_parse_items_sticky, parse_items};
use vstd::prelude::*;

verus! {

/// Where a reader or a scan stands.
#[derive(Clone, Copy, Debug, PartialEq, Eq, Structural)]
pub enum ReaderState {
    /// The header was read; the file has no index.
    Opened,
    /// The header and the index were read.
    IndexLoaded,
    /// Features are being handed out.
    Scanning,
    /// The scan has ended, with the last feature or with an error.
    Done,
}

/// An opened file: its bytes, its header, and its index where it has one.
pub struct Reader {
    bytes: Vec<u8>,
    header: Header,
    index: Option<SpatialIndex>,
    data_start: usize,
}

/// What a scan holds: the bytes, the header, where the next record starts,
/// how many records are still to come where the header declared their
/// number, and whether the scan has ended.
pub struct ScanModel {
    pub bytes: Seq<u8>,
    pub header: HeaderModel,
    pub pos: int,
    pub remaining: Option<u64>,
    pub done: bool,
}

/// A scan of the features of a file, in the order of their records. It
/// hands out each feature once and cannot be started again.
pub struct FeatureScan {
    bytes: Vec<u8>,
    header: Header,
    pos: usize,
    remaining: Option<u64>,
    done: bool,
}

/// No record is left: the declared number was handed out, or, where none
/// was declared, the bytes have ended.
pub open spec fn exhausted(m: ScanModel) -> bool {
    match m.remaining {
        Some(n) => n == 0,
        None => m.pos >= m.bytes.len(),
    }
}

/// What `next` returns. A scan that has ended gives `TruncatedStream` to
/// whoever reads on; one with no record left gives nothing; any other
/// gives the record at its position, or the error of that record.
pub open spec fn next_outcome(m: ScanModel) -> Result<Option<FeatureModel>, Error> {
    if m.done {
        Err(Error::TruncatedStream)
    } else if exhausted(m) {
        Ok(None)
    } else {
        match parse_record(m.bytes, m.pos, m.bytes.len() as int, m.header) {
            Ok((f, _)) => Ok(Some(f)),
            Err(e) => Err(e),
        }
    }
}

/// The scan after `next`: ended, unless it handed out a feature, in which
/// case it stands behind the record of that feature.
pub open spec fn after_next(m: ScanModel) -> ScanModel {
    if m.done || exhausted(m) {
        ScanModel { done: true, ..m }
    } else {
        match parse_record(m.bytes, m.pos, m.bytes.len() as int, m.header) {
            Ok((_, next)) => ScanModel {
                pos: next,
                remaining: match m.remaining {
                    Some(n) => Some((n - 1) as u64),
                    None => None,
                },
                ..m
            },
            Err(_) => ScanModel { done: true, ..m },
        }
    }
}

/// What is left of a scan, all at once, with a filter or without one.
pub open spec fn rest_of(m: ScanModel, filter: Option<BoundingBox>) -> Result<
    Seq<FeatureModel>,
    Error,
> {
    if m.done {
        Err(Error::TruncatedStream)
    } else {
        match scan_from(m.bytes, m.header, m.pos, m.remaining) {
            Ok(fs) => Ok(kept(fs, filter)),
            Err(e) => Err(e),
        }
    }
}

/// The features seen so far, followed by what the rest of a scan gives.
pub open spec fn with_prefix(seen: Seq<FeatureModel>, r: Result<Seq<FeatureModel>, Error>) -> Result<
    Seq<FeatureModel>,
    Error,
> {
    match r {
        Ok(fs) => Ok(seen + fs),
        Err(e) => Err(e),
    }
}

impl View for FeatureScan {
    type V = ScanModel;

    closed spec fn view(&self) -> ScanModel {
        ScanModel {
            bytes: self.bytes@,
            header: self.header@,
            pos: self.pos as int,
            remaining: self.remaining,
            done: self.done,
        }
    }
}

impl FeatureScan {
    /// The scan stands within its bytes.
    pub closed spec fn well_formed(&self) -> bool {
        self.pos <= self.bytes@.len()
    }

    /// What follows from `well_formed`: the scan stands within its bytes.
    pub proof fn lemma_well_formed(&self)
        requires
            self.well_formed(),
        ensures
            0 <= self@.pos <= self@.bytes.len(),
    {
    }

    /// `Scanning` until the scan has ended, `Done` after that.
    pub fn state(&self) -> (s: ReaderState)
        ensures
            s == (if self@.done {
                ReaderState::Done
            } else {
                ReaderState::Scanning
            }),
    {
        if self.done {
            ReaderState::Done
        } else {
            ReaderState::Scanning
        }
    }

    /// The header of the file that is scanned.
    pub fn header(&self) -> (h: &Header)
        ensures
            h@ == self@.header,
    {
        &self.header
    }

    /// The next feature, or nothing once the last one was handed out. An
    /// error ends the scan: bytes that end before the declared number of
    /// records is complete give `TruncatedStream`, and so does every read
    /// after the scan has ended.
    pub fn next(&mut self) -> (r: Result<Option<Feature>, Error>)
        requires
            old(self).well_formed(),
        ensures
            final(self).well_formed(),
            final(self)@ == after_next(old(self)@),
            r matches Ok(Some(_)) ==> old(self)@.pos < final(self)@.pos,
            match r {
                Ok(Some(f)) => next_outcome(old(self)@) == Ok::<Option<FeatureModel>, Error>(
                    Some(f@),
                ),
                Ok(None) => next_outcome(old(self)@) == Ok::<Option<FeatureModel>, Error>(None),
                Err(e) => fails(next_outcome(old(self)@), e),
            },
    {
        if self.done {
            return Err(Error::TruncatedStream);
        }
        let at_end: bool = match self.remaining {
            Some(n) => n == 0,
            None => self.pos >= self.bytes.len(),
        };
        if at_end {
            self.done = true;
            return Ok(None);
        }
        match Feature::decode_at(self.bytes.as_slice(), self.pos, self.bytes.len(), &self.header) {
            Ok((f, next)) => {
                self.pos = next;
                self.remaining = match self.remaining {
                    Some(n) => Some(n - 1),
                    None => None,
                };
                Ok(Some(f))
            },
            Err(e) => {
                self.done = true;
                Err(e)
            },
        }
    }

    /// All features that are left, in their order; the error of the first
    /// record that fails, if one does.
    pub fn collect(self) -> (r: Result<Vec<Feature>, Error>)
        requires
            self.well_formed(),
        ensures
            match r {
                Ok(fs) => gives(rest_of(self@, None), features_view(fs@)),
                Err(e) => fails(rest_of(self@, None), e),
            },
    {
        let ghost m = self@;
        let r = self.collect_passing(None);
        proof {
            if !m.done {
                match scan_from(m.bytes, m.header, m.pos, m.remaining) {
                    Ok(fs) => {
                        lemma_kept_all(fs);
                    },
                    Err(_) => {},
                }
            }
        }
        r
    }

    /// All features that are left and pass the filter, in their order; the
    /// error of the first record that fails, if one does.
    pub fn collect_passing(self, filter: Option<BoundingBox>) -> (r: Result<Vec<Feature>, Error>)
        requires
            self.well_formed(),
        ensures
            match r {
                Ok(fs) => gives(rest_of(self@, filter), features_view(fs@)),
                Err(e) => fails(rest_of(self@, filter), e),
            },
    {
        if self.done {
            return Err(Error::TruncatedStream);
        }
        let ghost m = self@;
        let ghost s = self.bytes@;
        let ghost h = self.header@;
        let ghost p = record_reader(h);
        let end: usize = self.bytes.len();
        let start: usize = self.pos;
        let mut out: Vec<Feature> = Vec::new();
        let ghost mut seen: Seq<FeatureModel> = Seq::empty();
        let mut cur: usize = start;
        proof {
            assert(features_view(out@) =~= kept(seen, filter));
        }
        match self.remaining {
            Some(n) => {
                let mut i: u64 = 0;
                while i < n
                    invariant
                        i <= n,
                        cur <= end,
                        end == s.len(),
                        s == self.bytes@,
                        h == self.header@,
                        p == record_reader(h),
                        m == self@,
                        !m.done,
                        m.remaining == Some(n),
                        m.pos == start,
                        gives(
                            parse_items(s, start as int, end as int, i as nat, p),
                            (seen, cur as int),
                        ),
                        features_view(out@) == kept(seen, filter),
                    decreases n - i,
                {
                    match Feature::decode_at(self.bytes.as_slice(), cur, end, &self.header) {
                        Ok((f, next)) => {
                            let keep: bool = match filter {
                                None => true,
                                Some(q) => match f.bounding_box() {
                                    Some(b) => b.intersects(q),
                                    None => false,
                                },
                            };
                            proof {
                                assert(keep == passes(f@, filter));
                                assert(seen.push(f@).drop_last() =~= seen);
                                seen = seen.push(f@);
                            }
                            if keep {
                                let ghost prev = out@;
                                out.push(f);
                                proof {
                                    assert(features_view(out@) =~= features_view(prev).push(
                                        seen.last(),
                                    ));
                                }
                            }
                            cur = next;
                            i = i + 1;
                        },
                        Err(e) => {
                            proof {
                                assert(fails(
                                    parse_items(s, start as int, end as int, (i + 1) as nat, p),
                                    e,
                                ));
                                lemma_parse_items_sticky(
                                    s,
                                    start as int,
                                    end as int,
                                    (i + 1) as nat,
                                    n as nat,
                                    p,
                                );
                            }
                            return Err(e);
                        },
                    }
                }
                Ok(out)
            },
            None => {
                proof {
                    match parse_to_end(s, start as int, p) {
                        Ok(all) => {
                            assert(seen + all =~= all);
                        },
                        Err(_) => {},
                    }
                }
                while cur < end
                    invariant
                        cur <= end,
                        end == s.len(),
                        s == self.bytes@,
                        h == self.header@,
                        p == record_reader(h),
                        m == self@,
                        !m.done,
                        m.remaining is None,
                        m.pos == start,
                        parse_to_end(s, start as int, p) == with_prefix(
                            seen,
                            parse_to_end(s, cur as int, p),
                        ),
                        features_view(out@) == kept(seen, filter),
                    decreases end - cur,
                {
                    match Feature::decode_at(self.bytes.as_slice(), cur, end, &self.header) {
                        Ok((f, next)) => {
                            let keep: bool = match filter {
                                None => true,
                                Some(q) => match f.bounding_box() {
                                    Some(b) => b.intersects(q),
                                    None => false,
                                },
                            };
                            proof {
                                assert(keep == passes(f@, filter));
                                assert(seen.push(f@).drop_last() =~= seen);
                                match parse_to_end(s, next as int, p) {
                                    Ok(rest) => {
                                        assert(seen + (seq![f@] + rest) =~= seen.push(f@) + rest);
                                    },
                                    Err(_) => {},
                                }
                                seen = seen.push(f@);
                            }
                            if keep {
                                let ghost prev = out@;
                                out.push(f);
                                proof {
                                    assert(features_view(out@) =~= features_view(prev).push(
                                        seen.last(),
                                    ));
                                }
                            }
                            cur = next;
                        },
                        Err(e) => {
                            return Err(e);
                        },
                    }
                }
                proof {
                    assert(seen + Seq::<FeatureModel>::empty() =~= seen);
                }
                Ok(out)
            },
        }
    }
}

impl Reader {
    /// The bytes of the file.
    pub closed spec fn bytes(&self) -> Seq<u8> {
        self.bytes@
    }

    /// The index of the file, where it has one.
    pub closed spec fn index(&self) -> Option<SpatialIndex> {
        self.index
    }

    /// Where the feature section starts.
    pub closed spec fn data_start(&self) -> int {
        self.data_start as int
    }

    /// The header of the file.
    pub closed spec fn spec_header(&self) -> HeaderModel {
        self.header@
    }

    /// What opening gave.
    pub open spec fn head(&self) -> FileHead {
        FileHead {
            header: self.spec_header(),
            index: match self.index() {
                Some(idx) => Some(idx@),
                None => None,
            },
            data_start: self.data_start(),
        }
    }

    /// The reader stands within its bytes, and its index, where it has one,
    /// has a leaf for each feature that the header counts.
    pub closed spec fn well_formed(&self) -> bool {
        &&& self.data_start <= self.bytes@.len()
        &&& self.index matches Some(idx) ==> idx.well_formed() && self.header.feature_count is Some
            && idx.leaf_count() == self.header.feature_count.unwrap()
    }

    /// The scan that `select_all` starts.
    pub open spec fn full_scan(&self) -> ScanModel {
        ScanModel {
            bytes: self.bytes(),
            header: self.spec_header(),
            pos: self.data_start(),
            remaining: self.spec_header().feature_count,
            done: false,
        }
    }

    /// What `select_bbox` gives for the query box `q`. With an index: the
    /// records of the leaves that a search of the index finds, in the order
    /// of the search. Without one: `IndexUnavailable`, or, where the caller
    /// allows to fall back, what a full scan gives of features whose
    /// bounding boxes meet `q`.
    pub open spec fn selection(&self, q: BoundingBox, fall_back: bool) -> Result<
        Seq<FeatureModel>,
        Error,
    > {
        match self.index() {
            Some(idx) => fetch(
                self.bytes(),
                self.spec_header(),
                self.data_start(),
                idx.leaves(),
                idx.found(q),
                idx.found(q).len(),
            ),
            None => if fall_back {
                rest_of(self.full_scan(), Some(q))
            } else {
                Err(Error::IndexUnavailable)
            },
        }
    }

    /// Opens a file: checks the magic and the version, reads the header,
    /// and reads the index where the header announces one. Whatever is
    /// wrong with the header is a `FormatError`. An index block that is cut
    /// short is a `TruncatedStream`, one whose node count does not go with
    /// the number of features a `FormatError`.
    pub fn open(bytes: Vec<u8>) -> (r: Result<Reader, Error>)
        ensures
            match r {
                Ok(rd) => rd.well_formed() && rd.bytes() == bytes@ && gives(
                    parse_head(bytes@),
                    rd.head(),
                ),
                Err(e) => fails(parse_head(bytes@), e),
            },
    {
        let (header, p) = match get_preamble(bytes.as_slice()) {
            Ok(v) => v,
            Err(e) => {
                return Err(e);
            },
        };
        if header.has_index {
            let n: u64 = match header.feature_count {
                Some(c) => c,
                None => {
                    return Err(Error::FormatError);
                },
            };
            match SpatialIndex::decode_at(bytes.as_slice(), p, bytes.len(), n) {
                Ok((idx, q)) => Ok(Reader { bytes, header, index: Some(idx), data_start: q }),
                Err(e) => Err(e),
            }
        } else {
            Ok(Reader { bytes, header, index: None, data_start: p })
        }
    }

    /// `IndexLoaded` where the file has an index, `Opened` where it has none.
    pub fn state(&self) -> (s: ReaderState)
        ensures
            s == (if self.index() is Some {
                ReaderState::IndexLoaded
            } else {
                ReaderState::Opened
            }),
    {
        match &self.index {
            Some(_) => ReaderState::IndexLoaded,
            None => ReaderState::Opened,
        }
    }

    /// The header of the file.
    pub fn header(&self) -> (h: &Header)
        ensures
            h@ == self.spec_header(),
    {
        &self.header
    }

    /// Whether the file has an index.
    pub fn has_index(&self) -> (b: bool)
        ensures
            b == self.index() is Some,
    {
        self.index.is_some()
    }

    /// Starts a scan of all features, in the order of their records,
    /// whether the file has an index or not.
    pub fn select_all(self) -> (scan: FeatureScan)
        requires
            self.well_formed(),
        ensures
            scan.well_formed(),
            scan@ == self.full_scan(),
    {
        FeatureScan {
            bytes: self.bytes,
            remaining: self.header.feature_count,
            header: self.header,
            pos: self.data_start,
            done: false,
        }
    }

    /// The features whose bounding boxes meet `q`. With an index, a search
    /// of the index names the records to read, and they come in the order
    /// of the search. Without one, the result is `IndexUnavailable`, unless
    /// `fall_back` allows a full scan that keeps the features that meet `q`.
    pub fn select_bbox(self, q: BoundingBox, fall_back: bool) -> (r: Result<Vec<Feature>, Error>)
        requires
            self.well_formed(),
        ensures
            match r {
                Ok(fs) => gives(self.selection(q, fall_back), features_view(fs@)),
                Err(e) => fails(self.selection(q, fall_back), e),
            },
    {
        let ghost sel = self.selection(q, fall_back);
        if self.index.is_none() {
            if !fall_back {
                return Err(Error::IndexUnavailable);
            }
            let scan = self.select_all();
            return scan.collect_passing(Some(q));
        }
        let data_start: usize = self.data_start;
        let idx: &SpatialIndex = match &self.index {
            Some(i) => i,
            None => {
                return Err(Error::IndexUnavailable);
            },
        };
        let hits: Vec<usize> = idx.query(&q);
        let end: usize = self.bytes.len();
        let ghost s = self.bytes@;
        let ghost h = self.header@;
        let ghost leaves = idx.leaves();
        let mut out: Vec<Feature> = Vec::new();
        let mut j: usize = 0;
        proof {
            assert(features_view(out@) =~= Seq::<FeatureModel>::empty());
        }
        while j < hits.len()
            invariant
                j <= hits@.len(),
                idx.well_formed(),
                leaves == idx.leaves(),
                hits@ == idx.found(q),
                forall|t: int| 0 <= t < hits@.len() ==> (#[trigger] hits@[t]) < idx.leaf_count(),
                s == self.bytes@,
                h == self.header@,
                end == s.len(),
                data_start <= end,
                sel == self.selection(q, fall_back),
                sel == fetch(s, h, data_start as int, leaves, hits@, hits@.len()),
                gives(
                    fetch(s, h, data_start as int, leaves, hits@, j as nat),
                    features_view(out@),
                ),
            decreases hits@.len() - j,
        {
            let leaf: Node = idx.leaf(hits[j]);
            let room: usize = end - data_start;
            let pos: usize = if leaf.offset > room as u64 {
                end
            } else {
                data_start + leaf.offset as usize
            };
            proof {
                if leaf.offset > room as u64 {
                    lemma_record_beyond_end(s, data_start + leaf.offset, end as int, h);
                    lemma_record_beyond_end(s, end as int, end as int, h);
                }
            }
            match Feature::decode_at(self.bytes.as_slice(), pos, end, &self.header) {
                Ok((f, _)) => {
                    let ghost prev = out@;
                    out.push(f);
                    proof {
                        assert(features_view(out@) =~= features_view(prev).push(f@));
                    }
                    j = j + 1;
                },
                Err(e) => {
                    proof {
                        assert(fails(
                            fetch(s, h, data_start as int, leaves, hits@, (j + 1) as nat),
                            e,
                        ));
                        lemma_fetch_sticky(
                            s,
                            h,
                            data_start as int,
                            leaves,
                            hits@,
                            (j + 1) as nat,
                            hits@.len(),
                        );
                    }
                    return Err(e);
                },
            }
        }
        Ok(out)
    }
}

} // verus!
