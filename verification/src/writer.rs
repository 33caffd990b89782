use crate::bbox::BoundingBox;
use crate::error::Error;
use crate::feature::{fits, payload_bytes, record_bytes, record_writer, Feature, FeatureModel};
use crate::file::{all_fit, file_bytes, is_index_of, leaves_of, recordable, records_bytes};
use crate::geometry::{lemma_well_formed_has_box, shape_box, Dimensions, GeometryType};
use crate::header::{
    header_bytes, header_ok, preamble_bytes, put_preamble, Crs, Header, HeaderModel,
};
use crate::index::{Node, SpatialIndex};
use crate::schema::{columns_view, Column};
use crate::wire::{lemma_items_push, lemma_varint_len};
use vstd::prelude::*;

verus! {

/// What is fixed when a writer is created.
#[derive(Clone, Debug, PartialEq, Eq)]
pub struct WriterOptions {
    /// Free text, as the bytes of its UTF-8 form.
    pub description: Vec<u8>,
    /// Whether `finalize` builds an index and writes it after the header.
    pub write_index: bool,
    pub crs: Crs,
    pub dims: Dimensions,
    pub columns: Vec<Column>,
}

/// Where a writer stands.
#[derive(Clone, Copy, Debug, PartialEq, Eq, Structural)]
pub enum WriterState {
    /// Schema and options are fixed; no feature was written.
    Created,
    /// Features are being written.
    Writing,
    /// The file was written out; no feature is accepted any more.
    Finalized,
}

/// What a writer holds: its state, the header as it would be written now,
/// the features accepted so far, and, once finalized with an index, the
/// nodes of that index.
pub struct WriterModel {
    pub state: WriterState,
    pub header: HeaderModel,
    pub features: Seq<FeatureModel>,
    pub index: Seq<Node>,
}

/// What `write_feature` returns: `InvalidState` once the writer is
/// finalized, `SchemaViolation` for a feature that does not fit the header.
pub open spec fn write_outcome(w: WriterModel, f: FeatureModel) -> Result<(), Error> {
    if w.state == WriterState::Finalized {
        Err(Error::InvalidState)
    } else if !fits(f, w.header) {
        Err(Error::SchemaViolation)
    } else {
        Ok(())
    }
}

/// The writer after `write_feature`: unchanged where the feature was
/// refused, else with the feature added after the others.
pub open spec fn after_write(w: WriterModel, f: FeatureModel) -> WriterModel {
    if write_outcome(w, f) is Err {
        w
    } else {
        WriterModel {
            state: WriterState::Writing,
            header: HeaderModel {
                feature_count: Some((w.features.len() + 1) as u64),
                ..w.header
            },
            features: w.features.push(f),
            index: w.index,
        }
    }
}

/// What `finalize` returns: `InvalidState` where the writer is finalized
/// already.
pub open spec fn finalize_outcome(w: WriterModel) -> Result<(), Error> {
    if w.state == WriterState::Finalized {
        Err(Error::InvalidState)
    } else {
        Ok(())
    }
}

/// Once a writer is finalized, `write_feature` fails with `InvalidState`
/// for every feature and leaves the writer as it is.
pub proof fn law_no_write_after_finalize(w: WriterModel, f: FeatureModel)
    requires
        w.state == WriterState::Finalized,
    ensures
        write_outcome(w, f) == Err::<(), Error>(Error::InvalidState),
        after_write(w, f) == w,
{
}

/// A feature that does not fit the header is refused with
/// `SchemaViolation` and nothing of it is kept.
pub proof fn law_refused_feature_leaves_no_trace(w: WriterModel, f: FeatureModel)
    requires
        w.state != WriterState::Finalized,
        !fits(f, w.header),
    ensures
        write_outcome(w, f) == Err::<(), Error>(Error::SchemaViolation),
        after_write(w, f) == w,
{
}

proof fn lemma_record_has_two_bytes(f: FeatureModel)
    ensures
        record_bytes(f).len() >= 2,
        record_bytes(f).len() >= payload_bytes(f).len(),
{
    lemma_varint_len(payload_bytes(f).len());
}

proof fn lemma_leaves_push(fs: Seq<FeatureModel>, f: FeatureModel)
    ensures
        leaves_of(fs.push(f)) == leaves_of(fs).push(
            Node {
                bbox: shape_box(f.geometry).unwrap(),
                offset: records_bytes(fs).len() as u64,
            },
        ),
{
    let a = leaves_of(fs.push(f));
    let b = leaves_of(fs).push(
        Node { bbox: shape_box(f.geometry).unwrap(), offset: records_bytes(fs).len() as u64 },
    );
    assert(a.len() == b.len());
    assert forall|i: int| 0 <= i < a.len() implies a[i] == b[i] by {
        assert(fs.push(f).take(i) =~= fs.take(i));
        if i == fs.len() {
            assert(fs.take(i) =~= fs);
        }
    }
    assert(a =~= b);
}

/// A writer of one file.
///
/// The index stands in the file before the records that it is computed
/// from, and the header holds their number. So nothing can be written out
/// until the last feature is known: the writer keeps the encoded records of
/// all features in memory, and their bounding boxes beside them where an
/// index was asked for, and `finalize` writes the header, the index and the
/// buffered records in that order. Memory grows with the size of the file.
/// A caller that cannot afford that has to spool the records elsewhere and
/// copy them behind the index at the end; this writer does not.
pub struct Writer {
    name: Vec<u8>,
    header: Header,
    state: WriterState,
    data: Vec<u8>,
    leaves: Vec<Node>,
    written: Ghost<Seq<FeatureModel>>,
    index: Ghost<Seq<Node>>,
}

impl View for Writer {
    type V = WriterModel;

    closed spec fn view(&self) -> WriterModel {
        WriterModel {
            state: self.state,
            header: self.header@,
            features: self.written@,
            index: self.index@,
        }
    }
}

impl Writer {
    /// What holds of every writer that `create` made, after any calls.
    pub closed spec fn well_formed(&self) -> bool {
        let fs = self.written@;
        let h = self.header@;
        &&& header_ok(h)
        &&& h.feature_count == Some(fs.len() as u64)
        &&& fs.len() < u64::MAX
        &&& 2 * fs.len() <= self.data@.len()
        &&& self.data@ == records_bytes(fs)
        &&& all_fit(fs, h)
        &&& self.state == WriterState::Created ==> fs.len() == 0
        &&& self.state != WriterState::Finalized ==> self.index@.len() == 0 && (h.has_index
            ==> self.leaves@ == leaves_of(fs))
        &&& self.state == WriterState::Finalized && h.has_index ==> is_index_of(
            self.index@,
            leaves_of(fs),
        )
    }

    /// The name that the writer was created with.
    pub closed spec fn spec_name(&self) -> Seq<u8> {
        self.name@
    }

    /// What follows from `well_formed`: the header can be written, it
    /// counts the features, and every feature fits it.
    pub proof fn lemma_well_formed(&self)
        requires
            self.well_formed(),
        ensures
            header_ok(self@.header),
            self@.header.feature_count == Some(self@.features.len() as u64),
            self@.features.len() < u64::MAX,
            all_fit(self@.features, self@.header),
            self@.state == WriterState::Created ==> self@.features.len() == 0,
            self@.state == WriterState::Finalized && self@.header.has_index ==> is_index_of(
                self@.index,
                leaves_of(self@.features),
            ),
    {
    }

    /// A writer for a file of the given geometry type, with the schema and
    /// the options fixed for good. The name is kept for the caller and is
    /// not written to the file.
    pub fn create(name: Vec<u8>, geometry_type: GeometryType, options: WriterOptions) -> (w: Writer)
        ensures
            w.well_formed(),
            w.spec_name() == name@,
            w@.state == WriterState::Created,
            w@.features == Seq::<FeatureModel>::empty(),
            w@.index == Seq::<Node>::empty(),
            w@.header == (HeaderModel {
                geometry_type,
                has_index: options.write_index,
                dims: options.dims,
                feature_count: Some(0u64),
                crs: options.crs@,
                description: options.description@,
                columns: columns_view(options.columns@),
            }),
    {
        let header = Header {
            geometry_type,
            has_index: options.write_index,
            dims: options.dims,
            feature_count: Some(0),
            crs: options.crs,
            description: options.description,
            columns: options.columns,
        };
        proof {
            header.lemma_ok();
        }
        let w = Writer {
            name,
            header,
            state: WriterState::Created,
            data: Vec::new(),
            leaves: Vec::new(),
            written: Ghost(Seq::empty()),
            index: Ghost(Seq::empty()),
        };
        proof {
            assert(w.data@ =~= records_bytes(w.written@));
            assert(w.leaves@ =~= leaves_of(w.written@));
        }
        w
    }

    /// The name that the writer was created with.
    pub fn name(&self) -> (n: &Vec<u8>)
        ensures
            n@ == self.spec_name(),
    {
        &self.name
    }

    /// The header as it would be written now.
    pub fn header(&self) -> (h: &Header)
        ensures
            h@ == self@.header,
    {
        &self.header
    }

    /// Where the writer stands.
    pub fn state(&self) -> (s: WriterState)
        ensures
            s == self@.state,
    {
        self.state
    }

    /// The number of features accepted so far.
    pub fn feature_count(&self) -> (n: u64)
        requires
            self.well_formed(),
        ensures
            n == self@.features.len(),
    {
        match self.header.feature_count {
            Some(c) => c,
            None => 0,
        }
    }

    /// Takes one more feature. A finalized writer refuses with
    /// `InvalidState`; a feature whose geometry type the header does not
    /// admit, whose geometry breaks the arity rules or lacks a declared
    /// ordinate, or whose attributes do not conform to the columns is
    /// refused with `SchemaViolation`. A refused feature leaves the writer
    /// as it was.
    pub fn write_feature(&mut self, feature: &Feature) -> (r: Result<(), Error>)
        requires
            old(self).well_formed(),
        ensures
            final(self).well_formed(),
            r == write_outcome(old(self)@, feature@),
            final(self)@ == after_write(old(self)@, feature@),
            final(self).spec_name() == old(self).spec_name(),
    {
        match self.state {
            WriterState::Finalized => {
                return Err(Error::InvalidState);
            },
            _ => {},
        }
        if !feature.fits(&self.header) {
            return Err(Error::SchemaViolation);
        }
        let ghost fs = self.written@;
        let ghost f = feature@;
        let ghost h = self.header@;
        let offset: u64 = self.data.len() as u64;
        let count: u64 = match self.header.feature_count {
            Some(c) => c,
            None => 0,
        };
        feature.encode_into(&mut self.data);
        proof {
            lemma_items_push(fs, f, record_writer());
            lemma_record_has_two_bytes(f);
            lemma_leaves_push(fs, f);
            lemma_well_formed_has_box(f.geometry, h.dims);
        }
        if self.header.has_index {
            let bbox: BoundingBox = match feature.bounding_box() {
                Some(b) => b,
                None => BoundingBox::point(0, 0),
            };
            self.leaves.push(Node { bbox, offset });
        }
        self.header.feature_count = Some(count + 1);
        self.state = WriterState::Writing;
        self.written = Ghost(fs.push(f));
        proof {
            let h2 = self.header@;
            assert(h2.columns == h.columns);
            assert(h2 == (HeaderModel { feature_count: Some((fs.len() + 1) as u64), ..h }));
            assert(all_fit(self.written@, h2)) by {
                assert forall|i: int| 0 <= i < self.written@.len() implies fits(
                    #[trigger] self.written@[i],
                    h2,
                ) && recordable(self.written@[i]) by {
                    if i < fs.len() {
                        assert(fits(fs[i], h));
                    } else {
                        assert(self.written@[i] == f);
                        assert(self.data.len() == self.data@.len());
                    }
                }
            }
        }
        Ok(())
    }

    /// Writes the file to `sink`: the header with the final count of
    /// features, then the index where one was asked for, then the records
    /// in the order in which the features were written. After that the
    /// writer is finalized. A writer that is finalized already refuses with
    /// `InvalidState` and writes nothing.
    pub fn finalize(&mut self, sink: &mut Vec<u8>) -> (r: Result<(), Error>)
        requires
            old(self).well_formed(),
        ensures
            final(self).well_formed(),
            r == finalize_outcome(old(self)@),
            final(self).spec_name() == old(self).spec_name(),
            final(self)@.state == WriterState::Finalized,
            final(self)@.header == old(self)@.header,
            final(self)@.features == old(self)@.features,
            r is Err ==> final(self)@ == old(self)@ && final(sink)@ == old(sink)@,
            r is Ok ==> {
                &&& final(sink)@ == old(sink)@ + file_bytes(
                    final(self)@.header,
                    final(self)@.index,
                    final(self)@.features,
                )
                &&& header_bytes(final(self)@.header).len() <= u64::MAX
                &&& records_bytes(final(self)@.features).len() <= u64::MAX
                &&& final(self)@.header.has_index ==> is_index_of(
                    final(self)@.index,
                    leaves_of(final(self)@.features),
                )
            },
    {
        match self.state {
            WriterState::Finalized => {
                return Err(Error::InvalidState);
            },
            _ => {},
        }
        let ghost before = sink@;
        let ghost fs = self.written@;
        let ghost h = self.header@;
        put_preamble(sink, &self.header);
        proof {
            lemma_varint_len(header_bytes(h).len());
            assert(sink@.len() == before.len() + preamble_bytes(h).len());
            assert(sink@.len() == sink.len());
        }
        if self.header.has_index {
            let mut leaves: Vec<Node> = Vec::new();
            core::mem::swap(&mut leaves, &mut self.leaves);
            let idx = SpatialIndex::build(leaves);
            idx.encode_into(sink);
            self.index = Ghost(idx@);
            proof {
                idx.lemma_well_formed();
                assert(is_index_of(idx@, leaves_of(fs)));
            }
        }
        let ghost mid = sink@;
        let mut i: usize = 0;
        while i < self.data.len()
            invariant
                i <= self.data@.len(),
                sink@ == mid + self.data@.subrange(0, i as int),
            decreases self.data@.len() - i,
        {
            sink.push(self.data[i]);
            i = i + 1;
            proof {
                assert(sink@ =~= mid + self.data@.subrange(0, i as int));
            }
        }
        self.state = WriterState::Finalized;
        proof {
            assert(self.data.len() == records_bytes(fs).len());
            assert(self.data@.subrange(0, self.data@.len() as int) =~= self.data@);
            assert(sink@ =~= before + file_bytes(h, self.index@, fs));
        }
        Ok(())
    }
}

} // verus!
