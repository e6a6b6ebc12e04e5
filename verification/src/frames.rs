use vstd::prelude::*;
use vstd::slice::slice_to_vec;

use crate::text::{decimal, u8_to_decimal};

verus! {

/// One sample of an encrypted segment: its size in the media data, whether it
/// is encrypted (`flags != 0`), and its initialisation vector.
#[derive(Debug)]
pub struct FrameEntry {
    pub size: u32,
    pub flags: u32,
    pub iv: Vec<u8>,
}

/// Where a downloaded segment keeps its audio: the samples of `entries` lie
/// back to back from `data_offset` on, and the media data ends at `mdat_end`.
#[derive(Debug)]
pub struct SegmentCrypto {
    pub data_offset: usize,
    pub entries: Vec<FrameEntry>,
    pub mdat_end: usize,
}

/// The total size of the first `k` samples of `entries`.
pub open spec fn sizes_before(entries: Seq<FrameEntry>, k: int) -> int
    decreases k,
{
    if k <= 0 {
        0
    } else {
        sizes_before(entries, k - 1) + entries[k - 1].size
    }
}

/// Where sample `k` of `crypto` begins.
pub open spec fn frame_start(crypto: SegmentCrypto, k: int) -> int {
    crypto.data_offset + sizes_before(crypto.entries@, k)
}

/// Every sample of `crypto` ends at a position a `usize` can hold.
pub open spec fn frames_fit(crypto: SegmentCrypto) -> bool {
    frame_start(crypto, crypto.entries@.len() as int) <= usize::MAX
}

/// Whether every sample of `crypto` ends at a position a `usize` can hold.
pub fn check_frames_fit(crypto: &SegmentCrypto) -> (b: bool)
    ensures
        b == frames_fit(*crypto),
{
    let n = crypto.entries.len();
    let mut end: usize = crypto.data_offset;
    let mut k: usize = 0;
    while k < n
        invariant
            n == crypto.entries@.len(),
            0 <= k <= n,
            end == frame_start(*crypto, k as int),
        decreases n - k,
    {
        let size = crypto.entries[k].size as usize;
        if end > usize::MAX - size {
            proof {
                lemma_sizes_before_monotone(crypto.entries@, k + 1, n as int);
            }
            return false;
        }
        end = end + size;
        k = k + 1;
    }
    true
}

/// The bytes of `d` after its first `skip` bytes.
pub open spec fn visible(d: Seq<u8>, skip: int) -> Seq<u8> {
    if d.len() <= skip {
        Seq::empty()
    } else if skip <= 0 {
        d
    } else {
        d.subrange(skip, d.len() as int)
    }
}

proof fn lemma_sizes_before_monotone(entries: Seq<FrameEntry>, j: int, k: int)
    requires
        0 <= j <= k,
    ensures
        sizes_before(entries, j) <= sizes_before(entries, k),
    decreases k - j,
{
    if j < k {
        lemma_sizes_before_monotone(entries, j, k - 1);
    }
}

/// Appending `tail` to `d` makes visible exactly the part of `tail` that lies
/// past the first `skip` bytes of `d + tail`.
pub proof fn lemma_visible_append(d: Seq<u8>, tail: Seq<u8>, skip: int)
    requires
        0 <= skip,
    ensures
        visible(d + tail, skip) == visible(d, skip) + visible(tail, skip - d.len()),
{
    let dt = d + tail;
    if dt.len() <= skip {
        assert(visible(d, skip) =~= Seq::<u8>::empty());
        assert(visible(tail, skip - d.len()) =~= Seq::<u8>::empty());
    } else if d.len() <= skip {
        assert(visible(d, skip) =~= Seq::<u8>::empty());
        assert(visible(dt, skip) =~= visible(tail, skip - d.len()));
    } else {
        assert(visible(tail, skip - d.len()) =~= tail);
        assert(visible(dt, skip) =~= visible(d, skip) + tail);
    }
}

/// Resuming an interrupted segment is seamless: sending the partial data `p`
/// from `skip` on, then the fully decrypted segment `d` past `p`, yields `d`
/// from `skip` on, when `p` is a prefix of `d` longer than `skip`.
pub proof fn lemma_resume_is_seamless(p: Seq<u8>, d: Seq<u8>, skip: int)
    requires
        0 <= skip < p.len(),
        p.len() <= d.len(),
        d.take(p.len() as int) == p,
    ensures
        crate::store::sent_part(p, skip) + visible(d, p.len() as int) == visible(d, skip),
{
    if skip == 0 {
        assert(p + d.subrange(p.len() as int, d.len() as int) =~= d);
        if p.len() == d.len() {
            assert(visible(d, p.len() as int) =~= Seq::<u8>::empty());
        }
    } else {
        if p.len() == d.len() {
            assert(visible(d, p.len() as int) =~= Seq::<u8>::empty());
            assert(p.subrange(skip, p.len() as int) =~= d.subrange(skip, d.len() as int));
        } else {
            assert(p.subrange(skip, p.len() as int) + d.subrange(p.len() as int, d.len() as int)
                =~= d.subrange(skip, d.len() as int));
        }
    }
}

/// Sending a whole segment from memory after a seek is seamless: when the
/// skip lies inside the segment, what is sent is exactly the segment past the
/// skipped bytes.
pub proof fn lemma_memory_send_is_seamless(frames: Seq<u8>, skip: int)
    requires
        0 <= skip < frames.len(),
    ensures
        crate::store::sent_part(frames, skip) == visible(frames, skip),
{
}

/// The decisions of streaming one segment while it downloads: which buffered
/// samples are complete, what decrypted bytes exist so far, and which of them
/// to send, leaving out the first `total_skip` decrypted bytes.
pub struct SegmentDecoder {
    data_pos: usize,
    next_entry: usize,
    total_skip: usize,
    decrypted: Vec<u8>,
}

impl SegmentDecoder {
    /// Where the next sample begins in the downloaded bytes.
    pub closed spec fn position(self) -> int {
        self.data_pos as int
    }

    /// How many samples have been taken in.
    pub closed spec fn taken(self) -> int {
        self.next_entry as int
    }

    /// How many leading decrypted bytes are not to be sent.
    pub closed spec fn skipped(self) -> int {
        self.total_skip as int
    }

    /// All decrypted bytes of the segment so far.
    pub closed spec fn decrypted(self) -> Seq<u8> {
        self.decrypted@
    }

    /// The decoder's position agrees with the sample table of `crypto`.
    pub open spec fn tracks(self, crypto: SegmentCrypto) -> bool {
        &&& 0 <= self.taken() <= crypto.entries@.len()
        &&& self.position() == frame_start(crypto, self.taken())
    }

    /// A decoder for `crypto` that leaves out the first `skip_bytes +
    /// already_sent` decrypted bytes: `skip_bytes` before the resume point,
    /// and `already_sent` that were sent from partial data.
    pub fn new(crypto: &SegmentCrypto, skip_bytes: usize, already_sent: usize) -> (d: Self)
        requires
            skip_bytes + already_sent <= usize::MAX,
        ensures
            d.tracks(*crypto),
            d.taken() == 0,
            d.skipped() == skip_bytes + already_sent,
            d.decrypted() == Seq::<u8>::empty(),
    {
        SegmentDecoder {
            data_pos: crypto.data_offset,
            next_entry: 0,
            total_skip: skip_bytes + already_sent,
            decrypted: Vec::new(),
        }
    }

    /// The byte range of the next sample, once `buffered` downloaded bytes
    /// hold all of it.
    pub fn next_frame(&self, crypto: &SegmentCrypto, buffered: usize) -> (r: Option<(usize, usize)>)
        requires
            self.tracks(*crypto),
            frames_fit(*crypto),
        ensures
            r == if self.taken() < crypto.entries@.len()
                && frame_start(*crypto, self.taken() + 1) <= buffered {
                Some((frame_start(*crypto, self.taken()) as usize, frame_start(*crypto, self.taken() + 1) as usize))
            } else {
                None::<(usize, usize)>
            },
    {
        if self.next_entry < crypto.entries.len() {
            proof {
                lemma_sizes_before_monotone(crypto.entries@, self.taken() + 1, crypto.entries@.len() as int);
            }
            let frame_end: usize = self.data_pos + crypto.entries[self.next_entry].size as usize;
            if frame_end <= buffered {
                Some((self.data_pos, frame_end))
            } else {
                None
            }
        } else {
            None
        }
    }

    /// Takes in the decrypted next sample and returns the part of it to send.
    pub fn accept_frame(&mut self, crypto: &SegmentCrypto, frame: &[u8]) -> (piece: Vec<u8>)
        requires
            old(self).tracks(*crypto),
            old(self).taken() < crypto.entries@.len(),
            frames_fit(*crypto),
        ensures
            final(self).tracks(*crypto),
            final(self).taken() == old(self).taken() + 1,
            final(self).skipped() == old(self).skipped(),
            final(self).decrypted() == old(self).decrypted() + frame@,
            piece@ == visible(frame@, old(self).skipped() - old(self).decrypted().len()),
            visible(old(self).decrypted(), old(self).skipped()) + piece@
                == visible(final(self).decrypted(), final(self).skipped()),
    {
        proof {
            lemma_sizes_before_monotone(crypto.entries@, self.taken() + 1, crypto.entries@.len() as int);
        }
        let n_entries = crypto.entries.len();
        let acc = self.decrypted.len();
        let ghost before = self.decrypted@;
        self.decrypted.extend_from_slice(frame);
        let _len_after = self.decrypted.len();
        assert(self.decrypted@ =~= before + frame@);
        let piece = self.visible_part(acc, frame);
        self.data_pos = self.data_pos + crypto.entries[self.next_entry].size as usize;
        self.next_entry = self.next_entry + 1;
        proof {
            lemma_visible_append(before, frame@, self.total_skip as int);
        }
        piece
    }

    /// The part of `bytes`, appended after `acc` decrypted bytes, that lies
    /// past the skipped prefix.
    fn visible_part(&self, acc: usize, bytes: &[u8]) -> (piece: Vec<u8>)
        requires
            acc + bytes@.len() <= usize::MAX,
        ensures
            piece@ == visible(bytes@, self.total_skip - acc),
    {
        let total_skip = self.total_skip;
        if acc + bytes.len() <= total_skip {
            Vec::new()
        } else if acc < total_skip {
            let offset = total_skip - acc;
            slice_to_vec(&bytes[offset..bytes.len()])
        } else {
            slice_to_vec(bytes)
        }
    }

    /// How many samples have been taken in; the next one is at this index.
    pub fn taken_count(&self) -> (n: usize)
        ensures
            n == self.taken(),
    {
        self.next_entry
    }

    /// Whether every sample has been taken in.
    pub fn is_finished(&self, crypto: &SegmentCrypto) -> (b: bool)
        ensures
            b == (self.taken() >= crypto.entries@.len()),
    {
        self.next_entry >= crypto.entries.len()
    }

    /// Takes in the unencrypted media data after the last sample, up to
    /// `mdat_end` or the end of `buf`, and returns the part of it to send.
    pub fn accept_trailing(&mut self, crypto: &SegmentCrypto, buf: &[u8]) -> (piece: Vec<u8>)
        ensures
            ({
                let end = if crypto.mdat_end <= buf@.len() { crypto.mdat_end as int } else { buf@.len() as int };
                let tail = if old(self).position() < end {
                    buf@.subrange(old(self).position(), end)
                } else {
                    Seq::<u8>::empty()
                };
                &&& final(self).decrypted() == old(self).decrypted() + tail
                &&& piece@ == visible(tail, old(self).skipped() - old(self).decrypted().len())
                &&& visible(old(self).decrypted(), old(self).skipped()) + piece@
                    == visible(final(self).decrypted(), final(self).skipped())
            }),
            final(self).position() == old(self).position(),
            final(self).taken() == old(self).taken(),
            final(self).skipped() == old(self).skipped(),
    {
        let mdat_end = if crypto.mdat_end <= buf.len() { crypto.mdat_end } else { buf.len() };
        let ghost before = self.decrypted@;
        proof {
            lemma_visible_append(before, Seq::<u8>::empty(), self.total_skip as int);
            assert(before + Seq::<u8>::empty() =~= before);
        }
        if self.data_pos < mdat_end {
            let trailing = &buf[self.data_pos..mdat_end];
            let acc = self.decrypted.len();
            self.decrypted.extend_from_slice(trailing);
            let _len_after = self.decrypted.len();
            assert(self.decrypted@ =~= before + trailing@);
            proof {
                lemma_visible_append(before, trailing@, self.total_skip as int);
            }
            self.visible_part(acc, trailing)
        } else {
            Vec::new()
        }
    }

    /// How many decrypted bytes there are so far.
    pub fn decrypted_len(&self) -> (n: usize)
        ensures
            n == self.decrypted().len(),
    {
        self.decrypted.len()
    }

    /// A copy of the decrypted bytes so far, to keep as partial data.
    pub fn decrypted_copy(&self) -> (v: Vec<u8>)
        ensures
            v@ == self.decrypted(),
    {
        slice_to_vec(self.decrypted.as_slice())
    }

    /// Whether more than 512 KiB were decrypted since `last_persisted_len`
    /// bytes were last kept as partial data.
    pub fn should_persist(&self, last_persisted_len: usize) -> (b: bool)
        requires
            last_persisted_len <= self.decrypted().len(),
        ensures
            b == (self.decrypted().len() - last_persisted_len > 512 * 1024),
    {
        self.decrypted.len() - last_persisted_len > 512 * 1024
    }

    /// The decrypted segment.
    pub fn into_decrypted(self) -> (v: Vec<u8>)
        ensures
            v@ == self.decrypted(),
    {
        self.decrypted
    }
}

/// The next step of streaming a segment from the network.
#[derive(Clone, Copy, Debug, PartialEq, Eq)]
pub enum StreamAction {
    /// Decrypt what is buffered and send it.
    Decode,
    /// Wait for the next chunk of the response.
    ReadChunk,
    /// Every sample is in: take in the trailing media data and keep the segment.
    FinishSegment,
    /// The listener is gone: keep the decrypted bytes as partial data and stop
    /// without an error.
    KeepPartialAndStop,
    /// The response ended before every sample arrived: stop with an error.
    Fail,
}

impl SegmentDecoder {
    /// The step after a batch was sent, or found to be empty: stop when the
    /// listener rejected it, finish when every sample is in, else read more.
    pub fn after_batch(&self, crypto: &SegmentCrypto, send_rejected: bool) -> (a: StreamAction)
        ensures
            a == if send_rejected {
                StreamAction::KeepPartialAndStop
            } else if self.taken() >= crypto.entries@.len() {
                StreamAction::FinishSegment
            } else {
                StreamAction::ReadChunk
            },
    {
        if send_rejected {
            StreamAction::KeepPartialAndStop
        } else if self.is_finished(crypto) {
            StreamAction::FinishSegment
        } else {
            StreamAction::ReadChunk
        }
    }
}

/// The step after waiting for a chunk: fail when the response ended, stop
/// when the listener went away meanwhile, else decode what arrived.
pub fn after_chunk(arrived: bool, channel_closed: bool) -> (a: StreamAction)
    ensures
        a == if !arrived {
            StreamAction::Fail
        } else if channel_closed {
            StreamAction::KeepPartialAndStop
        } else {
            StreamAction::Decode
        },
{
    if !arrived {
        StreamAction::Fail
    } else if channel_closed {
        StreamAction::KeepPartialAndStop
    } else {
        StreamAction::Decode
    }
}

/// The error for a response that ended early: before the sample table could
/// be read, or before every sample arrived.
pub fn truncated_message(seg: u8, before_header: bool) -> (m: String)
    ensures
        m@ == "Segment "@ + decimal(seg as nat) + if before_header {
            ": truncated before header"@
        } else {
            ": truncated at frame"@
        },
{
    let mut m = String::from_str("Segment ");
    let n = u8_to_decimal(seg);
    m.append(n.as_str());
    if before_header {
        m.append(": truncated before header");
    } else {
        m.append(": truncated at frame");
    }
    m
}

/// Whether a download pass that failed on a segment reports the error to the
/// listener: only while the listener is still there. Either way the pass stops.
pub fn report_pass_error(channel_closed: bool) -> (b: bool)
    ensures
        b == !channel_closed,
{
    !channel_closed
}

} // verus!
