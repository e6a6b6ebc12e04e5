use vstd::prelude::*;

use crate::frames::{lemma_memory_send_is_seamless, lemma_resume_is_seamless, visible};
use crate::segments::{
    contiguous, data_offset, lemma_seek_lands_in_segment, seek_index, seek_skip, segment_end, SegmentByteInfo,
};

verus! {

/// The bytes held by an optional buffer, as a mathematical value.
pub open spec fn opt_bytes(o: Option<Vec<u8>>) -> Option<Seq<u8>> {
    match o {
        Some(v) => Some(v@),
        None => None,
    }
}

/// The length of an optional buffer, zero when absent.
pub open spec fn opt_len(o: Option<Seq<u8>>) -> nat {
    match o {
        Some(d) => d.len(),
        None => 0,
    }
}

/// The 1-based numbers of the segments of `c` that are absent, in increasing order.
pub open spec fn missing(c: Seq<Option<Seq<u8>>>) -> Seq<u8>
    decreases c.len(),
{
    if c.len() == 0 {
        Seq::empty()
    } else {
        let rest = missing(c.drop_last());
        if c.last() is None {
            rest.push(c.len() as u8)
        } else {
            rest
        }
    }
}

/// The bytes of all present segments of `c`, in segment order.
pub open spec fn joined(c: Seq<Option<Seq<u8>>>) -> Seq<u8>
    decreases c.len(),
{
    if c.len() == 0 {
        Seq::empty()
    } else {
        joined(c.drop_last()) + match c.last() {
            Some(d) => d,
            None => Seq::empty(),
        }
    }
}

/// Every segment of `c` is present.
pub open spec fn all_present(c: Seq<Option<Seq<u8>>>) -> bool {
    forall|i: int| 0 <= i < c.len() ==> #[trigger] c[i] is Some
}

/// Every segment from `start` up to (not including) `s` exists in `c` and is present.
pub open spec fn held_from(c: Seq<Option<Seq<u8>>>, start: int, s: int) -> bool {
    forall|k: int| start <= k < s ==> 1 <= k <= c.len() && #[trigger] c[k - 1] is Some
}

/// The part of a buffered segment that is sent when `skip` leading bytes are
/// to be left out: everything from `skip` on when `skip` lies strictly inside
/// the buffer, the whole buffer otherwise.
pub open spec fn sent_part(frames: Seq<u8>, skip: int) -> Seq<u8> {
    if 0 < skip < frames.len() {
        frames.subrange(skip, frames.len() as int)
    } else {
        frames
    }
}

/// The slice of a buffered segment to send when `skip` leading bytes are to be
/// left out.
pub fn send_slice(frames: &[u8], skip: usize) -> (r: &[u8])
    ensures
        r@ == sent_part(frames@, skip as int),
{
    if skip > 0 && skip < frames.len() {
        &frames[skip..frames.len()]
    } else {
        frames
    }
}

/// Where the bytes of a segment come from when it is streamed.
#[derive(Clone, Copy, Debug)]
pub enum SegmentSource {
    /// The whole decrypted segment is in memory.
    Memory,
    /// Part of it is in memory from an interrupted download: that part is sent
    /// first, and the download that follows leaves out `already_sent` more bytes.
    Resume { already_sent: usize },
    /// Nothing of it is in memory.
    Network,
}

/// The decisions taken for one segment of a download pass.
#[derive(Clone, Copy, Debug)]
pub struct SegmentPlan {
    /// Leading bytes of the segment not to send.
    pub skip: usize,
    /// Whether to start downloading the next segment in the background.
    pub prefetch_next: bool,
    pub source: SegmentSource,
}

/// Where the bytes of the segment at `idx` come from when `skip` leading
/// bytes of it are left out.
pub open spec fn plan_source(
    complete: Seq<Option<Seq<u8>>>,
    partial: Seq<Option<Seq<u8>>>,
    idx: int,
    skip: int,
) -> SegmentSource {
    if 0 <= idx < complete.len() && complete[idx] is Some {
        SegmentSource::Memory
    } else if 0 <= idx < partial.len() && partial[idx] is Some && partial[idx]->0.len() > skip {
        SegmentSource::Resume { already_sent: (partial[idx]->0.len() - skip) as usize }
    } else {
        SegmentSource::Network
    }
}

/// The decrypted segments of one track: those downloaded whole, and the
/// decrypted prefixes of those whose download was interrupted.
/// Index `i` holds segment `i + 1`.
pub struct SegmentStore {
    downloaded: Vec<Option<Vec<u8>>>,
    in_progress: Vec<Option<Vec<u8>>>,
}

impl SegmentStore {
    /// The whole segments held, by index.
    pub closed spec fn complete(self) -> Seq<Option<Seq<u8>>> {
        self.downloaded@.map_values(|o: Option<Vec<u8>>| opt_bytes(o))
    }

    /// The partial segments held, by index.
    pub closed spec fn partial(self) -> Seq<Option<Seq<u8>>> {
        self.in_progress@.map_values(|o: Option<Vec<u8>>| opt_bytes(o))
    }

    /// Both tables have room for the same number of segments.
    pub open spec fn wf(self) -> bool {
        self.complete().len() == self.partial().len()
    }

    /// An empty store for a track of `n_segments` segments, the first of
    /// which (the header) is not stored.
    pub fn for_segments(n_segments: u8) -> (s: Self)
        requires
            n_segments >= 1,
        ensures
            s.complete() == Seq::new((n_segments - 1) as nat, |i: int| None::<Seq<u8>>),
            s.partial() == Seq::new((n_segments - 1) as nat, |i: int| None::<Seq<u8>>),
            s.wf(),
    {
        let total: usize = (n_segments - 1) as usize;
        let mut downloaded: Vec<Option<Vec<u8>>> = Vec::new();
        let mut in_progress: Vec<Option<Vec<u8>>> = Vec::new();
        let mut i: usize = 0;
        while i < total
            invariant
                0 <= i <= total,
                downloaded@.len() == i,
                in_progress@.len() == i,
                forall|j: int| 0 <= j < i ==> #[trigger] downloaded@[j] is None,
                forall|j: int| 0 <= j < i ==> #[trigger] in_progress@[j] is None,
            decreases total - i,
        {
            downloaded.push(None);
            in_progress.push(None);
            i = i + 1;
        }
        let s = SegmentStore { downloaded, in_progress };
        assert(s.complete() =~= Seq::new((n_segments - 1) as nat, |i: int| None::<Seq<u8>>));
        assert(s.partial() =~= Seq::new((n_segments - 1) as nat, |i: int| None::<Seq<u8>>));
        s
    }

    /// The number of segments the store has room for.
    pub fn segment_count(&self) -> (n: usize)
        ensures
            n == self.complete().len(),
    {
        self.downloaded.len()
    }

    /// The whole segment at `idx`, if it is held.
    pub fn complete_segment(&self, idx: usize) -> (r: Option<&Vec<u8>>)
        ensures
            match r {
                Some(v) => idx < self.complete().len() && self.complete()[idx as int] == Some(v@),
                None => idx >= self.complete().len() || self.complete()[idx as int] is None,
            },
    {
        if idx < self.downloaded.len() {
            match &self.downloaded[idx] {
                Some(v) => Some(v),
                None => None,
            }
        } else {
            None
        }
    }

    /// The partial segment at `idx`, if one is held.
    pub fn partial_segment(&self, idx: usize) -> (r: Option<&Vec<u8>>)
        ensures
            match r {
                Some(v) => idx < self.partial().len() && self.partial()[idx as int] == Some(v@),
                None => idx >= self.partial().len() || self.partial()[idx as int] is None,
            },
    {
        if idx < self.in_progress.len() {
            match &self.in_progress[idx] {
                Some(v) => Some(v),
                None => None,
            }
        } else {
            None
        }
    }

    /// Whether the whole segment at `idx` is held.
    pub fn is_complete(&self, idx: usize) -> (b: bool)
        requires
            idx < self.complete().len(),
        ensures
            b == self.complete()[idx as int] is Some,
    {
        self.downloaded[idx].is_some()
    }

    /// Records the whole decrypted segment at `idx`; the partial data kept for
    /// it is dropped.
    pub fn store_complete(&mut self, idx: usize, data: Vec<u8>)
        requires
            old(self).wf(),
            idx < old(self).complete().len(),
        ensures
            final(self).complete() == old(self).complete().update(idx as int, Some(data@)),
            final(self).partial() == old(self).partial().update(idx as int, None),
            final(self).wf(),
    {
        let ghost d = data@;
        self.downloaded.set(idx, Some(data));
        self.in_progress.set(idx, None);
        assert(self.complete() =~= old(self).complete().update(idx as int, Some(d)));
        assert(self.partial() =~= old(self).partial().update(idx as int, None));
    }

    /// Keeps `data` as the partial segment at `idx` when it is longer than the
    /// partial data already kept there, and says whether it did.
    pub fn persist_partial(&mut self, idx: usize, data: Vec<u8>) -> (stored: bool)
        requires
            old(self).wf(),
            idx < old(self).complete().len(),
        ensures
            stored == (data@.len() > opt_len(old(self).partial()[idx as int])),
            stored ==> final(self).partial() == old(self).partial().update(idx as int, Some(data@)),
            !stored ==> final(self).partial() == old(self).partial(),
            final(self).complete() == old(self).complete(),
            final(self).wf(),
    {
        let existing_len: usize = match &self.in_progress[idx] {
            Some(d) => d.len(),
            None => 0,
        };
        if data.len() > existing_len {
            let ghost d = data@;
            self.in_progress.set(idx, Some(data));
            assert(self.partial() =~= old(self).partial().update(idx as int, Some(d)));
            true
        } else {
            false
        }
    }

    /// The 1-based numbers of the segments not yet held whole, in increasing order.
    pub fn missing_segments(&self) -> (r: Vec<u8>)
        requires
            self.complete().len() <= 255,
        ensures
            r@ == missing(self.complete()),
    {
        let ghost c = self.complete();
        let n = self.downloaded.len();
        let mut r: Vec<u8> = Vec::new();
        let mut i: usize = 0;
        assert(c.take(0) =~= Seq::<Option<Seq<u8>>>::empty());
        while i < n
            invariant
                n == c.len(),
                c == self.complete(),
                n <= 255,
                0 <= i <= n,
                r@ == missing(c.take(i as int)),
            decreases n - i,
        {
            assert(c.take(i + 1).drop_last() =~= c.take(i as int));
            if self.downloaded[i].is_none() {
                r.push((i as u8) + 1);
            }
            i = i + 1;
        }
        assert(c.take(n as int) =~= c);
        r
    }

    /// Whether every segment from `start_seg` up to (not including)
    /// `n_segments` is held whole.
    pub fn forward_complete(&self, start_seg: u8, n_segments: u8) -> (b: bool)
        requires
            forall|s: int|
                start_seg <= s < n_segments && #[trigger] held_from(self.complete(), start_seg as int, s)
                    ==> 1 <= s <= self.complete().len(),
        ensures
            b == forall|s: int| start_seg <= s < n_segments ==> #[trigger] self.complete()[s - 1] is Some,
    {
        let ghost c = self.complete();
        let mut seg: u8 = start_seg;
        while seg < n_segments
            invariant
                c == self.complete(),
                start_seg <= seg,
                seg <= n_segments || seg == start_seg,
                held_from(c, start_seg as int, seg as int),
                forall|s: int|
                    start_seg <= s < n_segments && #[trigger] held_from(c, start_seg as int, s)
                        ==> 1 <= s <= c.len(),
            decreases n_segments - seg,
        {
            assert(1 <= seg <= c.len());
            if self.downloaded[(seg - 1) as usize].is_none() {
                assert(c[seg - 1] is None);
                return false;
            }
            seg = seg + 1;
        }
        true
    }

    /// The cache file's contents: the FLAC header followed by every segment in
    /// order, when every segment is held whole; `None` otherwise.
    pub fn cache_image(&self, flac_header: &[u8]) -> (r: Option<Vec<u8>>)
        ensures
            r is Some <==> all_present(self.complete()),
            r matches Some(v) ==> v@ == flac_header@ + joined(self.complete()),
    {
        let ghost c = self.complete();
        let n = self.downloaded.len();
        let mut i: usize = 0;
        while i < n
            invariant
                n == c.len(),
                c == self.complete(),
                0 <= i <= n,
                forall|j: int| 0 <= j < i ==> #[trigger] c[j] is Some,
            decreases n - i,
        {
            if self.downloaded[i].is_none() {
                assert(c[i as int] is None);
                return None;
            }
            i = i + 1;
        }
        let mut out: Vec<u8> = Vec::new();
        out.extend_from_slice(flac_header);
        assert(c.take(0) =~= Seq::<Option<Seq<u8>>>::empty());
        assert(out@ =~= flac_header@ + joined(c.take(0)));
        i = 0;
        while i < n
            invariant
                n == c.len(),
                c == self.complete(),
                0 <= i <= n,
                out@ == flac_header@ + joined(c.take(i as int)),
            decreases n - i,
        {
            assert(c.take(i + 1).drop_last() =~= c.take(i as int));
            match &self.downloaded[i] {
                Some(d) => {
                    out.extend_from_slice(d.as_slice());
                    assert(out@ =~= flac_header@ + joined(c.take(i + 1)));
                },
                None => {
                    assert(out@ =~= flac_header@ + joined(c.take(i + 1)));
                },
            }
            i = i + 1;
        }
        assert(c.take(n as int) =~= c);
        Some(out)
    }

    /// The decisions for segment `seg` of a download pass over segments
    /// `from_seg..to_seg` that resumes `skip_first_bytes` into its first
    /// segment: which bytes to leave out, whether to prefetch the next segment,
    /// and where the segment's bytes come from (memory first, then partial data
    /// longer than the skip, then the network).
    pub fn plan_segment(&self, seg: u8, from_seg: u8, to_seg: u8, skip_first_bytes: usize) -> (p: SegmentPlan)
        requires
            1 <= seg < to_seg,
            seg + 1 < to_seg ==> seg < self.complete().len(),
        ensures
            p.skip == if seg == from_seg { skip_first_bytes } else { 0 },
            p.prefetch_next == (seg + 1 < to_seg && self.complete()[seg as int] is None),
            p.source == plan_source(self.complete(), self.partial(), seg - 1, p.skip as int),
            p.source matches SegmentSource::Resume { already_sent } ==> seg - 1 < self.partial().len()
                && self.partial()[seg - 1] is Some && p.skip + already_sent == self.partial()[seg - 1]->0.len(),
    {
        let idx: usize = (seg - 1) as usize;
        let skip: usize = if seg == from_seg { skip_first_bytes } else { 0 };
        let next_seg: u8 = seg + 1;
        let prefetch_next = next_seg < to_seg && self.downloaded[(next_seg - 1) as usize].is_none();
        let source = match self.complete_segment(idx) {
            Some(_) => SegmentSource::Memory,
            None => match self.partial_segment(idx) {
                Some(data) => {
                    if data.len() > skip {
                        SegmentSource::Resume { already_sent: data.len() - skip }
                    } else {
                        SegmentSource::Network
                    }
                },
                None => SegmentSource::Network,
            },
        };
        proof {
            if next_seg < to_seg {
                assert(self.complete()[seg as int] == opt_bytes(self.downloaded@[seg as int]));
            }
        }
        SegmentPlan { skip, prefetch_next, source }
    }
}

proof fn lemma_missing_bounds(c: Seq<Option<Seq<u8>>>)
    requires
        c.len() <= 255,
    ensures
        forall|k: int| 0 <= k < missing(c).len() ==> 1 <= #[trigger] missing(c)[k] <= c.len(),
    decreases c.len(),
{
    if c.len() > 0 {
        let rest = c.drop_last();
        lemma_missing_bounds(rest);
        assert forall|k: int| 0 <= k < missing(c).len() implies 1 <= #[trigger] missing(c)[k] <= c.len() by {
            if k < missing(rest).len() {
                assert(missing(c)[k] == missing(rest)[k]);
            } else {
                assert(missing(c)[k] == c.len() as u8);
            }
        }
    }
}

/// A segment number is listed as missing exactly when the store has room for
/// that segment and does not hold it whole.
pub proof fn lemma_missing_lists_absent(c: Seq<Option<Seq<u8>>>, seg: int)
    requires
        c.len() <= 255,
    ensures
        missing(c).contains(seg as u8) && 0 <= seg <= 255 <==> 1 <= seg <= c.len() && c[seg - 1] is None,
    decreases c.len(),
{
    if c.len() > 0 {
        let rest = c.drop_last();
        lemma_missing_lists_absent(rest, seg);
        lemma_missing_bounds(rest);
        if c.last() is None {
            assert(missing(c) == missing(rest).push(c.len() as u8));
            if seg == c.len() {
                assert(missing(c)[missing(rest).len() as int] == seg as u8);
            }
            if missing(c).contains(seg as u8) && 0 <= seg <= 255 && seg != c.len() {
                let k = choose|k: int| 0 <= k < missing(c).len() && missing(c)[k] == seg as u8;
                if k == missing(rest).len() {
                    assert(seg as u8 == c.len() as u8);
                } else {
                    assert(missing(rest)[k] == seg as u8);
                }
            }
            if missing(rest).contains(seg as u8) {
                let k = choose|k: int| 0 <= k < missing(rest).len() && missing(rest)[k] == seg as u8;
                assert(missing(c)[k] == seg as u8);
            }
        }
        if 1 <= seg <= rest.len() {
            assert(rest[seg - 1] == c[seg - 1]);
        }
    }
}

/// The cache file can be written exactly when no segment is missing.
pub proof fn lemma_cache_ready_iff_nothing_missing(c: Seq<Option<Seq<u8>>>)
    ensures
        all_present(c) <==> missing(c).len() == 0,
    decreases c.len(),
{
    if c.len() > 0 {
        let rest = c.drop_last();
        lemma_cache_ready_iff_nothing_missing(rest);
        if all_present(c) {
            assert forall|i: int| 0 <= i < rest.len() implies #[trigger] rest[i] is Some by {
                assert(rest[i] == c[i]);
            }
            assert(c[c.len() - 1] is Some);
        }
        if missing(c).len() == 0 {
            assert(c.last() is Some);
            assert forall|i: int| 0 <= i < c.len() implies #[trigger] c[i] is Some by {
                if i < rest.len() {
                    assert(rest[i] == c[i]);
                }
            }
        }
    }
}

/// A segment stored whole is no longer listed as missing.
pub proof fn lemma_stored_segment_not_missing(c: Seq<Option<Seq<u8>>>, idx: int, data: Seq<u8>)
    requires
        c.len() <= 255,
        0 <= idx < c.len(),
    ensures
        !missing(c.update(idx, Some(data))).contains((idx + 1) as u8),
{
    let c2 = c.update(idx, Some(data));
    lemma_missing_lists_absent(c2, idx + 1);
}

/// What a download pass delivers of a segment whose decrypted bytes are `d`,
/// when its bytes come from `source` with `skip` leading bytes left out:
/// the held segment from memory, or the partial data and then the download
/// past what was already sent, or the download alone.
pub open spec fn delivered(
    source: SegmentSource,
    complete: Option<Seq<u8>>,
    partial: Option<Seq<u8>>,
    d: Seq<u8>,
    skip: int,
) -> Seq<u8> {
    match source {
        SegmentSource::Memory => sent_part(complete->0, skip),
        SegmentSource::Resume { already_sent } => sent_part(partial->0, skip) + visible(d, skip + already_sent),
        SegmentSource::Network => visible(d, skip),
    }
}

/// Every source a pass may take a segment from delivers the same bytes: the
/// decrypted segment past the skipped prefix, provided what is held of it is
/// the segment (whole) or a prefix of it (partial), and the skip lies inside
/// the segment.
pub proof fn lemma_every_source_delivers_the_same(
    complete: Seq<Option<Seq<u8>>>,
    partial: Seq<Option<Seq<u8>>>,
    idx: int,
    d: Seq<u8>,
    skip: int,
)
    requires
        0 <= skip < d.len() <= usize::MAX,
        0 <= idx < complete.len(),
        complete.len() == partial.len(),
        complete[idx] is Some ==> complete[idx]->0 == d,
        partial[idx] is Some ==> partial[idx]->0.len() <= d.len() && d.take(partial[idx]->0.len() as int)
            == partial[idx]->0,
    ensures
        delivered(plan_source(complete, partial, idx, skip), complete[idx], partial[idx], d, skip)
            == visible(d, skip),
{
    let src = plan_source(complete, partial, idx, skip);
    match src {
        SegmentSource::Memory => {
            lemma_memory_send_is_seamless(d, skip);
        },
        SegmentSource::Resume { already_sent } => {
            let p = partial[idx]->0;
            assert(skip + already_sent == p.len());
            lemma_resume_is_seamless(p, d, skip);
        },
        SegmentSource::Network => {},
    }
}

/// The segments of `ds` one after another.
pub open spec fn concat(ds: Seq<Seq<u8>>) -> Seq<u8>
    decreases ds.len(),
{
    if ds.len() == 0 {
        Seq::empty()
    } else {
        concat(ds.drop_last()) + ds.last()
    }
}

proof fn lemma_concat_append(a: Seq<Seq<u8>>, b: Seq<Seq<u8>>)
    ensures
        concat(a + b) == concat(a) + concat(b),
    decreases b.len(),
{
    if b.len() == 0 {
        assert(a + b =~= a);
        assert(concat(a) + concat(b) =~= concat(a));
    } else {
        lemma_concat_append(a, b.drop_last());
        assert((a + b).drop_last() =~= a + b.drop_last());
        assert(concat(a) + concat(b) =~= concat(a) + concat(b.drop_last()) + b.last());
    }
}

proof fn lemma_concat_offsets(map: Seq<SegmentByteInfo>, ds: Seq<Seq<u8>>, k: int)
    requires
        contiguous(map),
        ds.len() == map.len(),
        forall|i: int| 0 <= i < ds.len() ==> #[trigger] ds[i].len() == map[i].byte_len,
        0 <= k < map.len(),
    ensures
        concat(ds.take(k)).len() == map[k].byte_offset,
    decreases k,
{
    if k == 0 {
        assert(ds.take(0) =~= Seq::<Seq<u8>>::empty());
    } else {
        lemma_concat_offsets(map, ds, k - 1);
        assert(ds.take(k).drop_last() =~= ds.take(k - 1));
        assert(map[(k - 1) + 1].byte_offset == segment_end(map[k - 1]));
    }
}

/// A pass that resumes after a seek delivers the audio data from exactly the
/// requested position on: the chosen segment past the skipped bytes, then
/// every later segment whole, is the whole audio data past the seek's data
/// offset. This holds for a gap-free segment map whose segments' decrypted
/// lengths are the lengths the map gives, and a position inside the audio data.
pub proof fn lemma_pass_resumes_at_seek_position(
    flac_header_len: u64,
    map: Seq<SegmentByteInfo>,
    start: u64,
    ds: Seq<Seq<u8>>,
)
    requires
        contiguous(map),
        flac_header_len <= start,
        start - flac_header_len < segment_end(map[map.len() - 1]),
        ds.len() == map.len(),
        forall|i: int| 0 <= i < ds.len() ==> #[trigger] ds[i].len() == map[i].byte_len,
    ensures
        ({
            let i = seek_index(map, data_offset(flac_header_len, start));
            visible(ds[i], seek_skip(flac_header_len, map, start)) + concat(ds.skip(i + 1))
                == visible(concat(ds), data_offset(flac_header_len, start))
        }),
{
    lemma_seek_lands_in_segment(flac_header_len, map, start);
    let d = data_offset(flac_header_len, start);
    let i = seek_index(map, d);
    let skip = seek_skip(flac_header_len, map, start);
    lemma_concat_offsets(map, ds, i);
    let x = concat(ds.take(i));
    let y = ds[i];
    let z = concat(ds.skip(i + 1));
    assert(ds =~= ds.take(i) + seq![y] + ds.skip(i + 1));
    lemma_concat_append(ds.take(i) + seq![y], ds.skip(i + 1));
    lemma_concat_append(ds.take(i), seq![y]);
    assert(seq![y].drop_last() =~= Seq::<Seq<u8>>::empty());
    assert(concat(Seq::<Seq<u8>>::empty()) =~= Seq::<u8>::empty());
    assert(seq![y].last() == y);
    assert(concat(seq![y]) =~= Seq::<u8>::empty() + y);
    assert(concat(seq![y]) =~= y);
    assert(concat(ds) =~= x + y + z);
    assert(skip == d - map[i].byte_offset);
    assert(visible(y, skip) + z =~= visible(x + y + z, d));
}

/// A segment held whole is always sent from memory, whatever the skip; one
/// not held whole resumes from its partial data exactly when that data goes
/// past the skip, leaving out the bytes it already covers; otherwise it is
/// downloaded.
pub proof fn lemma_plan_source_order(
    complete: Seq<Option<Seq<u8>>>,
    partial: Seq<Option<Seq<u8>>>,
    idx: int,
    skip: int,
)
    requires
        0 <= skip,
        0 <= idx < complete.len(),
        complete.len() == partial.len(),
        forall|i: int| 0 <= i < partial.len() && partial[i] is Some ==> #[trigger] partial[i]->0.len()
            <= usize::MAX,
    ensures
        complete[idx] is Some ==> plan_source(complete, partial, idx, skip) == SegmentSource::Memory,
        complete[idx] is None && partial[idx] is Some && partial[idx]->0.len() > skip ==> (plan_source(
            complete,
            partial,
            idx,
            skip,
        ) matches SegmentSource::Resume { already_sent } && skip + already_sent == partial[idx]->0.len()),
        complete[idx] is None && (partial[idx] is None || partial[idx]->0.len() <= skip) ==> plan_source(
            complete,
            partial,
            idx,
            skip,
        ) == SegmentSource::Network,
{
    if complete[idx] is None && partial[idx] is Some && partial[idx]->0.len() > skip {
        assert(partial[idx]->0.len() <= usize::MAX);
    }
}

/// Once every segment is held, the cache image's bytes after the header are
/// exactly the held segments, each whole, one after another in order.
pub proof fn lemma_cache_holds_every_segment_whole(c: Seq<Option<Seq<u8>>>)
    requires
        all_present(c),
    ensures
        joined(c) == concat(c.map_values(|o: Option<Seq<u8>>| o->0)),
        forall|i: int| 0 <= i < c.len() ==> #[trigger] joined(c).subrange(
            joined(c.take(i)).len() as int,
            (joined(c.take(i)).len() + c[i]->0.len()) as int,
        ) == c[i]->0,
    decreases c.len(),
{
    let f = |o: Option<Seq<u8>>| o->0;
    if c.len() > 0 {
        let rest = c.drop_last();
        assert forall|i: int| 0 <= i < rest.len() implies #[trigger] rest[i] is Some by {
            assert(rest[i] == c[i]);
        }
        lemma_cache_holds_every_segment_whole(rest);
        assert(c.map_values(f).drop_last() =~= rest.map_values(f));
        assert(c[c.len() - 1] is Some);
        assert forall|i: int| 0 <= i < c.len() implies #[trigger] joined(c).subrange(
            joined(c.take(i)).len() as int,
            (joined(c.take(i)).len() + c[i]->0.len()) as int,
        ) == c[i]->0 by {
            if i < rest.len() {
                assert(c.take(i) =~= rest.take(i));
                assert(rest.take(i + 1) =~= c.take(i + 1));
                assert(rest.take(i + 1).drop_last() =~= rest.take(i));
                lemma_joined_prefix(rest, i + 1);
                assert(joined(rest.take(i + 1)) =~= joined(rest.take(i)) + rest[i]->0);
                assert(rest[i] == c[i]);
                let lo = joined(c.take(i)).len() as int;
                let hi = lo + c[i]->0.len();
                assert(joined(c).subrange(lo, hi) =~= joined(rest).subrange(lo, hi));
            } else {
                assert(c.take(i) =~= rest);
                assert(joined(c).subrange(joined(rest).len() as int, (joined(rest).len() + c[i]->0.len()) as int)
                    =~= c[i]->0);
            }
        }
    } else {
        assert(c.map_values(f) =~= Seq::<Seq<u8>>::empty());
    }
}

/// The image of a prefix of the segments is a prefix of the whole image.
proof fn lemma_joined_prefix(c: Seq<Option<Seq<u8>>>, k: int)
    requires
        0 <= k <= c.len(),
    ensures
        joined(c.take(k)).len() <= joined(c).len(),
        joined(c).subrange(0, joined(c.take(k)).len() as int) == joined(c.take(k)),
    decreases c.len() - k,
{
    if k == c.len() {
        assert(c.take(k) =~= c);
    } else {
        lemma_joined_prefix(c, k + 1);
        assert(c.take(k + 1).drop_last() =~= c.take(k));
        let a = joined(c.take(k));
        let b = joined(c.take(k + 1));
        assert(joined(c).subrange(0, a.len() as int) =~= b.subrange(0, a.len() as int));
        assert(b.subrange(0, a.len() as int) =~= a);
    }
}

} // verus!
