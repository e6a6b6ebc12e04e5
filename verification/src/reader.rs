use vstd::prelude::*;

verus! {

/// The position a seek from the end of a stream of `content_length` bytes
/// lands on: the length taken as a signed 64-bit number, plus `offset`,
/// clamped below at zero.
pub open spec fn end_seek_position(content_length: u64, offset: i64) -> u64 {
    let target = (content_length as i64) + offset;
    if target < 0 {
        0
    } else {
        target as u64
    }
}

/// A reader over a stream whose total length is known up front, so that a
/// seek relative to the end can be turned into a seek from the start.
pub struct SeekableStreamReader<R> {
    inner: R,
    content_length: u64,
}

impl<R> SeekableStreamReader<R> {
    pub closed spec fn spec_content_length(&self) -> u64 {
        self.content_length
    }

    pub closed spec fn spec_inner(&self) -> R {
        self.inner
    }

    /// Wraps `inner`, whose stream is `content_length` bytes long.
    pub fn new(inner: R, content_length: u64) -> (r: Self)
        ensures
            r.spec_content_length() == content_length,
            r.spec_inner() == inner,
    {
        SeekableStreamReader { inner, content_length }
    }

    /// The total length of the stream, as given at construction.
    pub fn content_length(&self) -> (n: u64)
        ensures
            n == self.spec_content_length(),
    {
        self.content_length
    }

    /// The wrapped reader, to read and seek through.
    pub fn inner_mut(&mut self) -> (r: &mut R)
        ensures
            *r == old(self).spec_inner(),
            final(self).spec_inner() == *final(r),
            final(self).spec_content_length() == old(self).spec_content_length(),
    {
        &mut self.inner
    }

    /// The wrapped reader.
    pub fn into_inner(self) -> (r: R)
        ensures
            r == self.spec_inner(),
    {
        self.inner
    }

    /// The start-relative position that a seek `offset` bytes from the end lands on.
    pub fn end_target(&self, offset: i64) -> (pos: u64)
        requires
            i64::MIN <= (self.spec_content_length() as i64) + offset <= i64::MAX,
        ensures
            pos == end_seek_position(self.spec_content_length(), offset),
    {
        let target: i64 = self.content_length as i64 + offset;
        if target < 0 {
            0
        } else {
            target as u64
        }
    }
}

} // verus!
