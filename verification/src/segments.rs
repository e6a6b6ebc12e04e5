use vstd::prelude::*;

verus! {

/// Where one audio segment's decrypted FLAC frames sit in the assembled
/// stream, counted from the end of the FLAC header.
#[derive(Clone, Copy, Debug)]
pub struct SegmentByteInfo {
    pub byte_offset: u64,
    pub byte_len: u64,
}

/// One past the last byte of `s`.
pub open spec fn segment_end(s: SegmentByteInfo) -> int {
    s.byte_offset + s.byte_len
}

/// Segment `i` is the first one of `map` that ends after data offset `d`.
pub open spec fn first_reaching(map: Seq<SegmentByteInfo>, d: int, i: int) -> bool {
    &&& 0 <= i < map.len()
    &&& d < segment_end(map[i])
    &&& forall|j: int| 0 <= j < i ==> d >= #[trigger] segment_end(map[j])
}

/// The index of the segment a seek to data offset `d` resumes in: the first
/// segment that ends after `d`, or the last segment when none does.
pub open spec fn seek_index(map: Seq<SegmentByteInfo>, d: int) -> int {
    if exists|i: int| first_reaching(map, d, i) {
        choose|i: int| first_reaching(map, d, i)
    } else {
        map.len() - 1
    }
}

/// The offset into the audio data (past the FLAC header) of stream position `start`.
pub open spec fn data_offset(flac_header_len: u64, start: u64) -> int {
    if start >= flac_header_len {
        start - flac_header_len
    } else {
        0
    }
}

/// The stream position at which the segment chosen for a seek to `start` begins.
pub open spec fn seek_segment_start(flac_header_len: u64, map: Seq<SegmentByteInfo>, start: u64) -> int {
    flac_header_len + map[seek_index(map, data_offset(flac_header_len, start))].byte_offset
}

/// How many bytes of the chosen segment lie before `start` (zero when the
/// segment begins after it).
pub open spec fn seek_skip(flac_header_len: u64, map: Seq<SegmentByteInfo>, start: u64) -> int {
    let s = seek_segment_start(flac_header_len, map, start);
    if start >= s {
        start - s
    } else {
        0
    }
}

/// What a seek turns into: the 1-based segment to stream from, and how many
/// of that segment's leading bytes to leave out.
#[derive(Clone, Copy, Debug)]
pub struct SeekTarget {
    pub segment: u8,
    pub skip_bytes: usize,
}

proof fn lemma_first_reaching_unique(map: Seq<SegmentByteInfo>, d: int, i: int, k: int)
    requires
        first_reaching(map, d, i),
        first_reaching(map, d, k),
    ensures
        i == k,
{
    if i < k {
        assert(d >= segment_end(map[i]));
    } else if k < i {
        assert(d >= segment_end(map[k]));
    }
}

proof fn lemma_seek_index_at_least(map: Seq<SegmentByteInfo>, d: int, i: int)
    requires
        1 <= map.len(),
        0 <= i < map.len(),
        forall|j: int| 0 <= j < i ==> d >= #[trigger] segment_end(map[j]),
    ensures
        i <= seek_index(map, d),
{
    if exists|k: int| first_reaching(map, d, k) {
        let c = choose|k: int| first_reaching(map, d, k);
        if c < i {
            assert(d >= segment_end(map[c]));
        }
    }
}

/// Turns a seek to stream position `start` into the segment to resume from
/// and the bytes of it to skip. The stream is the FLAC header of
/// `flac_header_len` bytes followed by the segments of `segment_map`.
pub fn seek_target(flac_header_len: u64, segment_map: &Vec<SegmentByteInfo>, start: u64) -> (t: SeekTarget)
    requires
        seek_defined(flac_header_len, segment_map@, start),
    ensures
        t.segment == seek_index(segment_map@, data_offset(flac_header_len, start)) % 256 + 1,
        t.skip_bytes == seek_skip(flac_header_len, segment_map@, start) as usize,
{
    let ghost map = segment_map@;
    let d: u64 = if start >= flac_header_len { start - flac_header_len } else { 0 };
    let ghost dd = data_offset(flac_header_len, start);
    assert(d == dd);
    let n = segment_map.len();
    let mut idx: usize = n - 1;
    let mut i: usize = 0;
    while i < n
        invariant_except_break
            n == map.len(),
            segment_map@ == map,
            0 <= i <= n,
            idx == n - 1,
            forall|j: int| 0 <= j < i ==> dd >= #[trigger] segment_end(map[j]),
            forall|j: int|
                0 <= j <= seek_index(map, dd) ==> #[trigger] segment_end(map[j]) <= u64::MAX,
            d == dd,
            1 <= n,
        ensures
            idx < n,
            first_reaching(map, dd, idx as int) || (idx == n - 1 && forall|j: int|
                0 <= j < n ==> dd >= #[trigger] segment_end(map[j])),
        decreases n - i,
    {
        proof {
            lemma_seek_index_at_least(map, dd, i as int);
        }
        let s = segment_map[i];
        assert(segment_end(map[i as int]) <= u64::MAX);
        if d < s.byte_offset + s.byte_len {
            idx = i;
            break;
        }
        i = i + 1;
    }
    proof {
        if first_reaching(map, dd, idx as int) {
            let c = choose|k: int| first_reaching(map, dd, k);
            lemma_first_reaching_unique(map, dd, c, idx as int);
        } else {
            assert(!exists|k: int| first_reaching(map, dd, k));
        }
    }
    let seg_start: u64 = flac_header_len + segment_map[idx].byte_offset;
    let skip: u64 = if start >= seg_start { start - seg_start } else { 0 };
    let segment: u8 = ((idx % 256) as u8) + 1;
    SeekTarget { segment, skip_bytes: skip as usize }
}

/// The inputs on which a seek can be computed without overflow: the map is
/// not empty, no segment scanned ends past `u64::MAX`, the chosen index
/// plus one fits a `u8` after truncation, and the chosen segment's stream
/// position fits a `u64`.
pub open spec fn seek_defined(flac_header_len: u64, map: Seq<SegmentByteInfo>, start: u64) -> bool {
    let i = seek_index(map, data_offset(flac_header_len, start));
    &&& map.len() >= 1
    &&& forall|j: int| 0 <= j <= i ==> #[trigger] segment_end(map[j]) <= u64::MAX
    &&& i % 256 != 255
    &&& seek_segment_start(flac_header_len, map, start) <= u64::MAX
}

/// Whether a seek to `start` can be computed, so that `seek_target` may be
/// called.
pub fn seek_target_defined(flac_header_len: u64, segment_map: &Vec<SegmentByteInfo>, start: u64) -> (b: bool)
    ensures
        b == seek_defined(flac_header_len, segment_map@, start),
{
    let ghost map = segment_map@;
    let n = segment_map.len();
    if n == 0 {
        return false;
    }
    let d: u64 = if start >= flac_header_len { start - flac_header_len } else { 0 };
    let ghost dd = data_offset(flac_header_len, start);
    let mut idx: usize = n - 1;
    let mut i: usize = 0;
    while i < n
        invariant_except_break
            n == map.len(),
            segment_map@ == map,
            0 <= i <= n,
            idx == n - 1,
            forall|j: int| 0 <= j < i ==> dd >= #[trigger] segment_end(map[j]),
            forall|j: int| 0 <= j < i ==> #[trigger] segment_end(map[j]) <= u64::MAX,
            d == dd,
            1 <= n,
        ensures
            idx < n,
            forall|j: int| 0 <= j <= idx ==> #[trigger] segment_end(map[j]) <= u64::MAX || j == idx,
            first_reaching(map, dd, idx as int) || (idx == n - 1 && forall|j: int|
                0 <= j < n ==> dd >= #[trigger] segment_end(map[j])) || (segment_end(map[idx as int]) > u64::MAX
                && forall|j: int| 0 <= j < idx ==> dd >= #[trigger] segment_end(map[j])),
        decreases n - i,
    {
        let s = segment_map[i];
        if s.byte_offset > u64::MAX - s.byte_len {
            idx = i;
            break;
        }
        if d < s.byte_offset + s.byte_len {
            idx = i;
            break;
        }
        i = i + 1;
    }
    let s = segment_map[idx];
    if s.byte_offset > u64::MAX - s.byte_len {
        proof {
            lemma_seek_index_at_least(map, dd, idx as int);
        }
        return false;
    }
    proof {
        if first_reaching(map, dd, idx as int) {
            let c = choose|k: int| first_reaching(map, dd, k);
            lemma_first_reaching_unique(map, dd, c, idx as int);
        } else {
            assert(!exists|k: int| first_reaching(map, dd, k));
        }
    }
    if idx % 256 == 255 {
        return false;
    }
    flac_header_len <= u64::MAX - s.byte_offset
}

/// The segments of `map` tile the audio data without gaps: the first one
/// begins at offset zero and each next one begins where the previous ends.
pub open spec fn contiguous(map: Seq<SegmentByteInfo>) -> bool {
    &&& map.len() >= 1
    &&& map[0].byte_offset == 0
    &&& forall|i: int| 0 <= i < map.len() - 1 ==> #[trigger] map[i + 1].byte_offset == segment_end(map[i])
}

proof fn lemma_first_reaching_exists(map: Seq<SegmentByteInfo>, d: int, k: int)
    requires
        0 <= k < map.len(),
        d < segment_end(map[k]),
    ensures
        exists|i: int| first_reaching(map, d, i),
    decreases k,
{
    if forall|j: int| 0 <= j < k ==> d >= #[trigger] segment_end(map[j]) {
        assert(first_reaching(map, d, k));
    } else {
        let j = choose|j: int| 0 <= j < k && !(d >= #[trigger] segment_end(map[j]));
        lemma_first_reaching_exists(map, d, j);
    }
}

/// A seek to a position inside the audio data of a gap-free segment map lands
/// inside the chosen segment, and the skipped bytes lead exactly from that
/// segment's start to the requested position.
pub proof fn lemma_seek_lands_in_segment(flac_header_len: u64, map: Seq<SegmentByteInfo>, start: u64)
    requires
        contiguous(map),
        flac_header_len <= start,
        start - flac_header_len < segment_end(map[map.len() - 1]),
    ensures
        ({
            let d = data_offset(flac_header_len, start);
            let i = seek_index(map, d);
            &&& 0 <= i < map.len()
            &&& map[i].byte_offset <= d < segment_end(map[i])
            &&& seek_segment_start(flac_header_len, map, start) + seek_skip(flac_header_len, map, start) == start
        }),
{
    let d = data_offset(flac_header_len, start);
    lemma_first_reaching_exists(map, d, map.len() - 1);
    let i = seek_index(map, d);
    assert(first_reaching(map, d, i));
    if i > 0 {
        assert(map[(i - 1) + 1].byte_offset == segment_end(map[i - 1]));
        assert(d >= segment_end(map[i - 1]));
    }
}

} // verus!
