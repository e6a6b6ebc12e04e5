use std::path::PathBuf;
use vstd::prelude::*;

use crate::segments::SegmentByteInfo;
use crate::store::SegmentStore;
use crate::text::{decimal, replace, replace_all, u8_to_decimal};

verus! {

#[verifier::external_type_specification]
#[verifier::external_body]
pub struct ExPathBuf(PathBuf);

/// What a FLAC source stream is made from: the URL template of its segments
/// (with `$SEGMENT$` standing for the segment number), the number of segments
/// counting the header segment, the content key, the FLAC header, where the
/// finished file is cached, and where each audio segment sits.
pub struct FlacSourceParams {
    pub url_template: String,
    pub n_segments: u8,
    pub content_key: Option<[u8; 16]>,
    pub flac_header: Vec<u8>,
    pub cache_path: PathBuf,
    pub segment_map: Vec<SegmentByteInfo>,
}

impl FlacSourceParams {
    /// The length of the FLAC header.
    pub fn flac_header_len(&self) -> (n: u64)
        ensures
            n == self.flac_header@.len(),
    {
        self.flac_header.len() as u64
    }

    /// The key that decrypts the segments: the content key, or all zeros
    /// when there is none.
    pub fn decryption_key(&self) -> (k: [u8; 16])
        ensures
            k@ == match self.content_key {
                Some(key) => key@,
                None => Seq::new(16, |i: int| 0u8),
            },
    {
        match self.content_key {
            Some(key) => key,
            None => {
                let k = [0u8; 16];
                assert(k@ =~= Seq::new(16, |i: int| 0u8));
                k
            },
        }
    }

    /// An empty store for the audio segments of this stream.
    pub fn new_store(&self) -> (s: SegmentStore)
        requires
            self.n_segments >= 1,
        ensures
            s.complete() == Seq::new((self.n_segments - 1) as nat, |i: int| None::<Seq<u8>>),
            s.partial() == Seq::new((self.n_segments - 1) as nat, |i: int| None::<Seq<u8>>),
    {
        SegmentStore::for_segments(self.n_segments)
    }
}

/// The URL of segment `seg`: the template with every `$SEGMENT$` replaced by
/// the segment number in decimal.
pub fn segment_url(url_template: &str, seg: u8) -> (u: String)
    ensures
        u@ == replace_all(url_template@, "$SEGMENT$"@, decimal(seg as nat)),
{
    proof {
        reveal_strlit("$SEGMENT$");
    }
    let number = u8_to_decimal(seg);
    replace(url_template, "$SEGMENT$", number.as_str())
}

/// An error creating a FLAC source stream, with its message.
#[derive(Debug)]
pub struct FlacStreamError(pub String);

impl FlacStreamError {
    /// The error's message.
    pub fn message(&self) -> (s: &str)
        ensures
            s@ == self.0@,
    {
        self.0.as_str()
    }
}

/// Storage that streams into a file at `partial_path`, read back through a
/// second, independent handle.
pub struct PassthroughStorageProvider {
    pub partial_path: PathBuf,
}

} // verus!
