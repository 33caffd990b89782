use crate::bbox::BoundingBox;
use crate::error::Error;
use crate::feature::{
    fits, lemma_record_round_trip, parse_record, payload_bytes, record_bytes, record_reader,
    record_writer, FeatureModel,
};
use crate::geometry::shape_box;
use crate::header::{
    header_bytes, header_ok, lemma_preamble_round_trip, parse_preamble, preamble_bytes,
    HeaderModel,
};
use crate::geometry::lemma_well_formed_has_box;
use crate::index::{
    chained, children_end, lemma_chained_monotone, lemma_children_in_tier, lemma_cover_stable,
    parent_ok, index_bytes, lemma_index_round_trip, lemma_live_above_leaf, lemma_tiers_shape, listed,
    live, node_at, packed, parse_index, strictly_increasing, tier_len, tiers, total_nodes,
    Node, SpatialIndex,
};
use crate::wire::{has_at, items_bytes, lemma_has_at_split, lemma_items_round_trip, parse_items};
use vstd::prelude::*;

verus! {

// ---------------------------------------------------------------------------
// What a file is made of: the header, the index block where the header
// announces one, the feature records.
// ---------------------------------------------------------------------------

/// The records of the features, one after another.
pub open spec fn records_bytes(fs: Seq<FeatureModel>) -> Seq<u8> {
    items_bytes(fs, record_writer())
}

/// The leaves of the index over `fs`: for each feature its bounding box and
/// the offset of its record within the feature section.
pub open spec fn leaves_of(fs: Seq<FeatureModel>) -> Seq<Node> {
    Seq::new(
        fs.len(),
        |i: int|
            Node {
                bbox: shape_box(fs[i].geometry).unwrap(),
                offset: records_bytes(fs.take(i)).len() as u64,
            },
    )
}

/// `nodes` are the nodes of the packed tree over `leaves`.
pub open spec fn is_index_of(nodes: Seq<Node>, leaves: Seq<Node>) -> bool {
    &&& nodes.len() == total_nodes(leaves.len())
    &&& nodes.len() <= usize::MAX
    &&& nodes.take(leaves.len() as int) == leaves
    &&& packed(nodes, tiers(leaves.len()))
}

/// Every node of an index lies in one tier.
proof fn lemma_tier_of(t: Seq<int>, j: int, upto: int) -> (k: int)
    requires
        chained(t),
        1 <= upto < t.len(),
        0 <= j < t[upto],
    ensures
        0 <= k < upto,
        t[k] <= j < t[k + 1],
    decreases upto,
{
    if j >= t[upto - 1] {
        upto - 1
    } else {
        lemma_chained_monotone(t, 0, upto - 1);
        lemma_tier_of(t, j, upto - 1)
    }
}

proof fn lemma_same_prefix(a: Seq<Node>, b: Seq<Node>, leaves: Seq<Node>, m: int)
    requires
        is_index_of(a, leaves),
        is_index_of(b, leaves),
        0 <= m <= a.len(),
    ensures
        forall|j: int| 0 <= j < m ==> #[trigger] a[j] == b[j],
    decreases m,
{
    if m > 0 {
        lemma_same_prefix(a, b, leaves, m - 1);
        let j = m - 1;
        let n = leaves.len();
        let t = tiers(n);
        lemma_tiers_shape_bound(n);
        if j < n {
            assert(a.take(n as int)[j] == a[j]);
            assert(b.take(n as int)[j] == b[j]);
        } else {
            lemma_tiers_shape(n);
            assert(t.last() == a.len());
            let k = lemma_tier_of(t, j, t.len() - 1);
            let p = j - t[k];
            assert(k >= 1);
            assert(0 <= p < tier_len(t, k));
            assert(parent_ok(a, t, k, p));
            assert(parent_ok(b, t, k, p));
            lemma_children_in_tier(t, k, p);
            lemma_chained_monotone(t, 0, k - 1);
            let lo = t[k - 1] + 16 * p;
            let hi = children_end(t[k - 1], t[k], p);
            assert(tier_len(t, k - 1) == t[k] - t[k - 1]);
            assert(0 <= lo < hi <= t[k]);
            assert forall|i: int| lo <= i < hi implies a[i] == b[i] by {}
            lemma_cover_stable(a, b, lo, hi);
            assert(a[j].bbox == b[j].bbox);
            assert(a[j].offset == b[j].offset);
        }
        assert(a[j] == b[j]);
    }
}

/// The index over given leaves is determined: two arrays of nodes that are
/// both the packed tree over the same leaves are the same array.
pub proof fn law_index_is_determined(a: Seq<Node>, b: Seq<Node>, leaves: Seq<Node>)
    requires
        is_index_of(a, leaves),
        is_index_of(b, leaves),
    ensures
        a == b,
{
    lemma_same_prefix(a, b, leaves, a.len() as int);
    assert(a =~= b);
}

/// The bytes of a file: the header with what precedes it, the index block
/// where the header announces one, the records.
pub open spec fn file_bytes(h: HeaderModel, nodes: Seq<Node>, fs: Seq<FeatureModel>) -> Seq<u8> {
    preamble_bytes(h) + (if h.has_index {
        index_bytes(nodes)
    } else {
        Seq::<u8>::empty()
    }) + records_bytes(fs)
}

/// The feature can be written: its payload has a length that fits in 64
/// bits.
pub open spec fn recordable(f: FeatureModel) -> bool {
    payload_bytes(f).len() <= u64::MAX
}

/// Every feature fits the header and can be written.
pub open spec fn all_fit(fs: Seq<FeatureModel>, h: HeaderModel) -> bool {
    forall|i: int| 0 <= i < fs.len() ==> fits(#[trigger] fs[i], h) && recordable(fs[i])
}

// ---------------------------------------------------------------------------
// What a reader makes of the bytes of a file
// ---------------------------------------------------------------------------

/// What opening a file gives: its header, the nodes of its index where it
/// has one, and where its feature section starts.
pub struct FileHead {
    pub header: HeaderModel,
    pub index: Option<Seq<Node>>,
    pub data_start: int,
}

/// What opening the file `s` gives. The header is read first; where it
/// announces an index, the index block is read after it.
pub open spec fn parse_head(s: Seq<u8>) -> Result<FileHead, Error> {
    match parse_preamble(s) {
        Err(e) => Err(e),
        Ok((h, p)) => if h.has_index {
            match parse_index(s, p, s.len() as int, h.feature_count.unwrap() as nat) {
                Err(e) => Err(e),
                Ok((nodes, q)) => Ok(FileHead { header: h, index: Some(nodes), data_start: q }),
            }
        } else {
            Ok(FileHead { header: h, index: None, data_start: p })
        },
    }
}

/// The items from `pos` up to the end of the bytes, each read by `p`, for a
/// file that does not declare their number. The error of the first item
/// that fails stands for the whole.
pub open spec fn parse_to_end<T>(
    s: Seq<u8>,
    pos: int,
    p: spec_fn(Seq<u8>, int, int) -> Result<(T, int), Error>,
) -> Result<Seq<T>, Error>
    decreases s.len() - pos,
{
    if pos >= s.len() || pos < 0 {
        Ok(Seq::<T>::empty())
    } else {
        match p(s, pos, s.len() as int) {
            Err(e) => Err(e),
            Ok((x, next)) => if next <= pos || next > s.len() {
                Err(Error::FormatError)
            } else {
                match parse_to_end(s, next, p) {
                    Err(e) => Err(e),
                    Ok(rest) => Ok(seq![x] + rest),
                }
            },
        }
    }
}

/// What a scan from `pos` on gives: `count` records where the number is
/// known, else all records up to the end of the bytes. The first record
/// that fails gives its error to the scan.
pub open spec fn scan_from(s: Seq<u8>, h: HeaderModel, pos: int, count: Option<u64>) -> Result<
    Seq<FeatureModel>,
    Error,
> {
    match count {
        Some(n) => match parse_items(s, pos, s.len() as int, n as nat, record_reader(h)) {
            Ok((fs, _)) => Ok(fs),
            Err(e) => Err(e),
        },
        None => parse_to_end(s, pos, record_reader(h)),
    }
}

/// What a full scan of the feature section gives: as many records as the
/// header declares, or all records up to the end of the bytes where it
/// declares no number.
pub open spec fn scan_all(s: Seq<u8>, h: HeaderModel, data_start: int) -> Result<
    Seq<FeatureModel>,
    Error,
> {
    scan_from(s, h, data_start, h.feature_count)
}

/// The feature passes the filter: there is none, or the bounding box of
/// the feature meets it.
pub open spec fn passes(f: FeatureModel, filter: Option<BoundingBox>) -> bool {
    match filter {
        None => true,
        Some(q) => shape_box(f.geometry) matches Some(b) && b.spec_intersects(q),
    }
}

/// The features that pass the filter, in their order.
pub open spec fn kept(fs: Seq<FeatureModel>, filter: Option<BoundingBox>) -> Seq<FeatureModel>
    decreases fs.len(),
{
    if fs.len() == 0 {
        Seq::<FeatureModel>::empty()
    } else if passes(fs.last(), filter) {
        kept(fs.drop_last(), filter).push(fs.last())
    } else {
        kept(fs.drop_last(), filter)
    }
}

/// Without a filter every feature is kept.
pub proof fn lemma_kept_all(fs: Seq<FeatureModel>)
    ensures
        kept(fs, None) == fs,
    decreases fs.len(),
{
    if fs.len() > 0 {
        lemma_kept_all(fs.drop_last());
        assert(fs.drop_last().push(fs.last()) =~= fs);
    } else {
        assert(fs =~= Seq::<FeatureModel>::empty());
    }
}

/// The records of the first `n` of the leaves that `hits` names, each read
/// at the offset that its leaf gives, from the start of the feature section.
pub open spec fn fetch(
    s: Seq<u8>,
    h: HeaderModel,
    data_start: int,
    leaves: Seq<Node>,
    hits: Seq<usize>,
    n: nat,
) -> Result<Seq<FeatureModel>, Error>
    decreases n,
{
    if n == 0 {
        Ok(Seq::<FeatureModel>::empty())
    } else {
        match fetch(s, h, data_start, leaves, hits, (n - 1) as nat) {
            Err(e) => Err(e),
            Ok(fs) => match parse_record(
                s,
                data_start + leaves[hits[n - 1] as int].offset,
                s.len() as int,
                h,
            ) {
                Ok((f, _)) => Ok(fs.push(f)),
                Err(e) => Err(e),
            },
        }
    }
}

/// Once a record has failed, fetching more records fails in the same way.
pub proof fn lemma_fetch_sticky(
    s: Seq<u8>,
    h: HeaderModel,
    data_start: int,
    leaves: Seq<Node>,
    hits: Seq<usize>,
    k: nat,
    n: nat,
)
    requires
        k <= n,
        fetch(s, h, data_start, leaves, hits, k) is Err,
    ensures
        fetch(s, h, data_start, leaves, hits, n) == fetch(s, h, data_start, leaves, hits, k),
    decreases n,
{
    if k < n {
        lemma_fetch_sticky(s, h, data_start, leaves, hits, k, (n - 1) as nat);
    }
}

proof fn lemma_has_at_middle(a: Seq<u8>, b: Seq<u8>, c: Seq<u8>)
    ensures
        has_at(a + b + c, a.len() as int, (a + b + c).len() as int, b),
        has_at(a + b + c, (a + b).len() as int, (a + b + c).len() as int, c),
{
    let s = a + b + c;
    assert(s.subrange(a.len() as int, (a.len() + b.len()) as int) =~= b);
    assert(s.subrange((a + b).len() as int, ((a + b).len() + c.len()) as int) =~= c);
}

/// The records of features that fit the header are read back as the
/// features, in their order.
pub proof fn lemma_records_round_trip(
    s: Seq<u8>,
    pos: int,
    end: int,
    fs: Seq<FeatureModel>,
    h: HeaderModel,
)
    requires
        has_at(s, pos, end, records_bytes(fs)),
        all_fit(fs, h),
    ensures
        parse_items(s, pos, end, fs.len(), record_reader(h)) == Ok::<
            (Seq<FeatureModel>, int),
            Error,
        >((fs, pos + records_bytes(fs).len())),
{
    let f = record_writer();
    let p = record_reader(h);
    assert forall|i: int, q: int| 0 <= i < fs.len() && #[trigger] has_at(s, q, end, f(fs[i]))
        implies p(s, q, end) == Ok::<(FeatureModel, int), Error>((fs[i], q + f(fs[i]).len())) by {
        lemma_record_round_trip(s, q, end, fs[i], h);
    }
    lemma_items_round_trip(s, pos, end, fs, f, p);
}

/// Order preservation: a file that holds the features `fs`, with an index
/// or without one, opens with the header it was written with, and a full
/// scan of it gives exactly `fs`, in the order in which they were written.
pub proof fn law_scan_returns_written(h: HeaderModel, nodes: Seq<Node>, fs: Seq<FeatureModel>)
    requires
        header_ok(h),
        header_bytes(h).len() <= u64::MAX,
        h.feature_count == Some(fs.len() as u64),
        fs.len() < u64::MAX,
        all_fit(fs, h),
        h.has_index ==> nodes.len() == total_nodes(fs.len()) && nodes.len() <= usize::MAX,
    ensures
        parse_head(file_bytes(h, nodes, fs)) is Ok,
        parse_head(file_bytes(h, nodes, fs)).unwrap().header == h,
        parse_head(file_bytes(h, nodes, fs)).unwrap().index == (if h.has_index {
            Some(nodes)
        } else {
            None
        }),
        scan_all(
            file_bytes(h, nodes, fs),
            h,
            parse_head(file_bytes(h, nodes, fs)).unwrap().data_start,
        ) == Ok::<Seq<FeatureModel>, Error>(fs),
{
    let a = preamble_bytes(h);
    let b = if h.has_index {
        index_bytes(nodes)
    } else {
        Seq::<u8>::empty()
    };
    let c = records_bytes(fs);
    let s = file_bytes(h, nodes, fs);
    assert(s =~= a + (b + c));
    lemma_preamble_round_trip(h, b + c);
    lemma_has_at_middle(a, b, c);
    if h.has_index {
        lemma_index_round_trip(s, a.len() as int, s.len() as int, nodes, fs.len());
    }
    lemma_records_round_trip(s, (a + b).len() as int, s.len() as int, fs, h);
}

// ---------------------------------------------------------------------------
// A query of a written file
// ---------------------------------------------------------------------------

/// The places below `n` of the leaves whose boxes meet `q`, in rising order.
pub open spec fn meeting(leaves: Seq<Node>, q: BoundingBox, n: nat) -> Seq<usize>
    decreases n,
{
    if n == 0 {
        Seq::<usize>::empty()
    } else if leaves[n - 1].bbox.spec_intersects(q) {
        meeting(leaves, q, (n - 1) as nat).push((n - 1) as usize)
    } else {
        meeting(leaves, q, (n - 1) as nat)
    }
}

/// The features at the places that `hits` names, in the order of `hits`.
pub open spec fn picked(fs: Seq<FeatureModel>, hits: Seq<usize>) -> Seq<FeatureModel> {
    Seq::new(hits.len(), |j: int| fs[hits[j] as int])
}

proof fn lemma_meeting(leaves: Seq<Node>, q: BoundingBox, n: nat)
    requires
        n <= leaves.len(),
        leaves.len() <= usize::MAX,
    ensures
        strictly_increasing(meeting(leaves, q, n)),
        forall|j: int|
            0 <= j < meeting(leaves, q, n).len() ==> (#[trigger] meeting(leaves, q, n)[j]) < n
                && leaves[meeting(leaves, q, n)[j] as int].bbox.spec_intersects(q),
        forall|i: int|
            0 <= i < n && (#[trigger] leaves[i]).bbox.spec_intersects(q) ==> listed(
                meeting(leaves, q, n),
                i,
            ),
    decreases n,
{
    if n > 0 {
        let before = meeting(leaves, q, (n - 1) as nat);
        let now = meeting(leaves, q, n);
        lemma_meeting(leaves, q, (n - 1) as nat);
        assert forall|i: int|
            0 <= i < n && (#[trigger] leaves[i]).bbox.spec_intersects(q) implies listed(now, i) by {
            if i < n - 1 {
                assert(listed(before, i));
                let w = choose|w: int| 0 <= w < before.len() && #[trigger] before[w] == i;
                assert(now[w] == i);
            } else {
                assert(now[now.len() - 1] == i);
            }
        }
    }
}

/// The record of feature `i` stands at the offset that its leaf gives.
proof fn lemma_record_at(s: Seq<u8>, base: int, end: int, fs: Seq<FeatureModel>, i: int)
    requires
        has_at(s, base, end, records_bytes(fs)),
        0 <= i < fs.len(),
    ensures
        has_at(s, base + records_bytes(fs.take(i)).len(), end, record_bytes(fs[i])),
        records_bytes(fs.take(i)).len() + record_bytes(fs[i]).len() <= records_bytes(fs).len(),
    decreases fs.len(),
{
    let front = fs.drop_last();
    lemma_has_at_split(s, base, end, records_bytes(front), record_bytes(fs.last()));
    if i == fs.len() - 1 {
        assert(fs.take(i) =~= front);
    } else {
        lemma_record_at(s, base, end, front, i);
        assert(front.take(i) =~= fs.take(i));
    }
}

proof fn lemma_fetch_picks(
    s: Seq<u8>,
    h: HeaderModel,
    base: int,
    fs: Seq<FeatureModel>,
    hits: Seq<usize>,
    k: nat,
)
    requires
        has_at(s, base, s.len() as int, records_bytes(fs)),
        records_bytes(fs).len() <= u64::MAX,
        all_fit(fs, h),
        k <= hits.len(),
        forall|j: int| 0 <= j < hits.len() ==> (#[trigger] hits[j]) < fs.len(),
    ensures
        fetch(s, h, base, leaves_of(fs), hits, k) == Ok::<Seq<FeatureModel>, Error>(
            picked(fs, hits.take(k as int)),
        ),
    decreases k,
{
    if k == 0 {
        assert(picked(fs, hits.take(0)) =~= Seq::<FeatureModel>::empty());
    } else {
        lemma_fetch_picks(s, h, base, fs, hits, (k - 1) as nat);
        let i = hits[k - 1] as int;
        lemma_record_at(s, base, s.len() as int, fs, i);
        assert(fits(fs[i], h) && recordable(fs[i]));
        lemma_record_round_trip(
            s,
            base + records_bytes(fs.take(i)).len(),
            s.len() as int,
            fs[i],
            h,
        );
        assert(leaves_of(fs)[i].offset == records_bytes(fs.take(i)).len());
        assert(picked(fs, hits.take(k - 1)).push(fs[i]) =~= picked(fs, hits.take(k as int)));
    }
}

proof fn lemma_picked_is_kept(fs: Seq<FeatureModel>, hits: Seq<usize>, q: BoundingBox)
    requires
        strictly_increasing(hits),
        forall|j: int|
            0 <= j < hits.len() ==> (#[trigger] hits[j]) < fs.len() && passes(
                fs[hits[j] as int],
                Some(q),
            ),
        forall|i: int| 0 <= i < fs.len() && passes(#[trigger] fs[i], Some(q)) ==> listed(hits, i),
    ensures
        picked(fs, hits) == kept(fs, Some(q)),
    decreases fs.len(),
{
    let n = fs.len() as int;
    if n == 0 {
        if hits.len() > 0 {
            assert(hits[0] < fs.len());
        }
        assert(picked(fs, hits) =~= kept(fs, Some(q)));
    } else {
        let front = fs.drop_last();
        if passes(fs.last(), Some(q)) {
            assert(passes(fs[n - 1], Some(q)));
            assert(listed(hits, n - 1));
            let w = choose|w: int| 0 <= w < hits.len() && #[trigger] hits[w] == n - 1;
            if w < hits.len() - 1 {
                assert(hits[w] < hits[hits.len() - 1]);
                assert(hits[hits.len() - 1] < fs.len());
            }
            let rest = hits.drop_last();
            assert forall|j: int| 0 <= j < rest.len() implies (#[trigger] rest[j]) < front.len()
                && passes(front[rest[j] as int], Some(q)) by {
                assert(hits[j] < hits[hits.len() - 1]);
                assert(passes(fs[hits[j] as int], Some(q)));
            }
            assert forall|i: int|
                0 <= i < front.len() && passes(#[trigger] front[i], Some(q)) implies listed(
                rest,
                i,
            ) by {
                assert(passes(fs[i], Some(q)));
                assert(listed(hits, i));
                let v = choose|v: int| 0 <= v < hits.len() && #[trigger] hits[v] == i;
                assert(rest[v] == i);
            }
            lemma_picked_is_kept(front, rest, q);
            assert(picked(fs, hits) =~= picked(front, rest).push(fs.last())) by {
                assert forall|j: int| 0 <= j < rest.len() implies picked(fs, hits)[j] == picked(
                    front,
                    rest,
                )[j] by {
                    assert(hits[j] < hits[hits.len() - 1]);
                }
            }
        } else {
            assert forall|j: int| 0 <= j < hits.len() implies (#[trigger] hits[j]) < front.len()
                && passes(front[hits[j] as int], Some(q)) by {
                assert(passes(fs[hits[j] as int], Some(q)));
            }
            assert forall|i: int|
                0 <= i < front.len() && passes(#[trigger] front[i], Some(q)) implies listed(
                hits,
                i,
            ) by {
                assert(passes(fs[i], Some(q)));
            }
            lemma_picked_is_kept(front, hits, q);
            assert(picked(fs, hits) =~= picked(front, hits));
        }
    }
}

/// After the header and the index block of a written file come the
/// records.
proof fn lemma_records_start(h: HeaderModel, nodes: Seq<Node>, fs: Seq<FeatureModel>)
    requires
        header_ok(h),
        header_bytes(h).len() <= u64::MAX,
        h.has_index,
        h.feature_count == Some(fs.len() as u64),
        fs.len() < u64::MAX,
        nodes.len() == total_nodes(fs.len()),
        nodes.len() <= usize::MAX,
    ensures
        parse_head(file_bytes(h, nodes, fs)) is Ok,
        has_at(
            file_bytes(h, nodes, fs),
            parse_head(file_bytes(h, nodes, fs)).unwrap().data_start,
            file_bytes(h, nodes, fs).len() as int,
            records_bytes(fs),
        ),
{
    let s = file_bytes(h, nodes, fs);
    let a = preamble_bytes(h);
    let b = index_bytes(nodes);
    let c = records_bytes(fs);
    assert(s =~= a + (b + c));
    lemma_preamble_round_trip(h, b + c);
    lemma_has_at_middle(a, b, c);
    lemma_index_round_trip(s, a.len() as int, s.len() as int, nodes, fs.len());
}

/// The places that a search of a packed index finds are those of the leaves
/// whose boxes meet the query box.
proof fn lemma_found_meets(idx: SpatialIndex, q: BoundingBox)
    requires
        idx.well_formed(),
        idx.is_packed(),
        idx@.len() <= usize::MAX,
    ensures
        idx.found(q) == meeting(idx.leaves(), q, idx.leaf_count()),
{
    let n = idx.leaf_count();
    let nodes = idx@;
    let t = idx.tier_starts();
    let leaves = idx.leaves();
    if n > 0 {
        lemma_tiers_shape(n);
        lemma_chained_monotone(t, 1, t.len() - 1);
    }
    let hits = meeting(leaves, q, n);
    lemma_meeting(leaves, q, n);
    assert(idx.answers(q, hits)) by {
        if n > 0 {
            assert(tier_len(t, 0) == n);
            assert forall|j: int| 0 <= j < hits.len() implies (#[trigger] hits[j]) < tier_len(t, 0)
                && live(nodes, t, 0, hits[j] as int, q) by {
                let i = hits[j] as int;
                assert(node_at(nodes, t, 0, i) == leaves[i]);
                lemma_live_above_leaf(nodes, t, i, 0, q);
            }
            assert forall|p: int| 0 <= p < tier_len(t, 0) && #[trigger] live(nodes, t, 0, p, q)
                implies listed(hits, p) by {
                assert(node_at(nodes, t, 0, p) == leaves[p]);
            }
        }
    }
    idx.lemma_found(q, hits);
}

/// The features at the places of the leaves that meet the query box are the
/// features that a filter by that box keeps.
proof fn lemma_meeting_is_kept(fs: Seq<FeatureModel>, h: HeaderModel, q: BoundingBox)
    requires
        all_fit(fs, h),
        fs.len() <= usize::MAX,
    ensures
        picked(fs, meeting(leaves_of(fs), q, fs.len())) == kept(fs, Some(q)),
        forall|j: int|
            0 <= j < meeting(leaves_of(fs), q, fs.len()).len() ==> (#[trigger] meeting(
                leaves_of(fs),
                q,
                fs.len(),
            )[j]) < fs.len(),
{
    let leaves = leaves_of(fs);
    let hits = meeting(leaves, q, fs.len());
    lemma_meeting(leaves, q, fs.len());
    assert forall|j: int| 0 <= j < hits.len() implies (#[trigger] hits[j]) < fs.len() && passes(
        fs[hits[j] as int],
        Some(q),
    ) by {
        let i = hits[j] as int;
        assert(fits(fs[i], h));
        lemma_well_formed_has_box(fs[i].geometry, h.dims);
    }
    assert forall|i: int| 0 <= i < fs.len() && passes(#[trigger] fs[i], Some(q)) implies listed(
        hits,
        i,
    ) by {
        assert(leaves[i].bbox.spec_intersects(q));
    }
    lemma_picked_is_kept(fs, hits, q);
}

/// What a query through the index of a written file fetches, given the
/// places that the search found.
proof fn lemma_fetch_of_meeting(
    h: HeaderModel,
    nodes: Seq<Node>,
    fs: Seq<FeatureModel>,
    q: BoundingBox,
)
    requires
        header_ok(h),
        header_bytes(h).len() <= u64::MAX,
        h.has_index,
        h.feature_count == Some(fs.len() as u64),
        fs.len() < u64::MAX,
        all_fit(fs, h),
        records_bytes(fs).len() <= u64::MAX,
        nodes.len() == total_nodes(fs.len()),
        nodes.len() <= usize::MAX,
    ensures
        parse_head(file_bytes(h, nodes, fs)) is Ok,
        fetch(
            file_bytes(h, nodes, fs),
            h,
            parse_head(file_bytes(h, nodes, fs)).unwrap().data_start,
            leaves_of(fs),
            meeting(leaves_of(fs), q, fs.len()),
            meeting(leaves_of(fs), q, fs.len()).len(),
        ) == Ok::<Seq<FeatureModel>, Error>(kept(fs, Some(q))),
{
    let s = file_bytes(h, nodes, fs);
    lemma_records_start(h, nodes, fs);
    let base = parse_head(s).unwrap().data_start;
    let hits = meeting(leaves_of(fs), q, fs.len());
    lemma_tiers_shape_bound(fs.len());
    lemma_meeting_is_kept(fs, h, q);
    lemma_fetch_picks(s, h, base, fs, hits, hits.len());
    assert(hits.take(hits.len() as int) =~= hits);
}

/// An index has at least as many nodes as leaves.
proof fn lemma_tiers_shape_bound(n: nat)
    ensures
        n <= total_nodes(n),
{
    if n > 0 {
        lemma_tiers_shape(n);
        lemma_chained_monotone(tiers(n), 1, tiers(n).len() - 1);
    }
}

/// Query soundness and completeness: in a file that was written with an
/// index, a query through the index gives, for every query box, exactly
/// the features whose bounding boxes meet the box, in the order in which
/// they were written; that is what a full scan that keeps those features
/// gives too.
pub proof fn law_query_returns_what_a_scan_keeps(
    h: HeaderModel,
    fs: Seq<FeatureModel>,
    idx: SpatialIndex,
    q: BoundingBox,
)
    requires
        header_ok(h),
        header_bytes(h).len() <= u64::MAX,
        h.has_index,
        h.feature_count == Some(fs.len() as u64),
        fs.len() < u64::MAX,
        all_fit(fs, h),
        records_bytes(fs).len() <= u64::MAX,
        idx.well_formed(),
        idx.leaf_count() == fs.len(),
        is_index_of(idx@, leaves_of(fs)),
    ensures
        parse_head(file_bytes(h, idx@, fs)) is Ok,
        fetch(
            file_bytes(h, idx@, fs),
            h,
            parse_head(file_bytes(h, idx@, fs)).unwrap().data_start,
            idx.leaves(),
            idx.found(q),
            idx.found(q).len(),
        ) == Ok::<Seq<FeatureModel>, Error>(kept(fs, Some(q))),
        scan_all(
            file_bytes(h, idx@, fs),
            h,
            parse_head(file_bytes(h, idx@, fs)).unwrap().data_start,
        ) == Ok::<Seq<FeatureModel>, Error>(fs),
{
    law_scan_returns_written(h, idx@, fs);
    lemma_found_meets(idx, q);
    lemma_fetch_of_meeting(h, idx@, fs, q);
}

} // verus!
