//! The parser's byte buffers, held in `smallvec::SmallVec`, and the byte
//! searches of `memchr`.

use crate::model::buffer_limit;
use smallvec::SmallVec;
use vstd::prelude::*;

verus! {

/// The buffer for the current line and for event data, backed by
/// `SmallVec<[u8; 256]>`.
#[verifier::external_body]
#[derive(Debug)]
pub struct LineBuf {
    bytes: SmallVec<[u8; 256]>,
}

/// The bytes held by a `LineBuf`, in order.
pub uninterp spec fn line_bytes(buf: LineBuf) -> Seq<u8>;

impl View for LineBuf {
    type V = Seq<u8>;

    open spec fn view(&self) -> Seq<u8> {
        line_bytes(*self)
    }
}

impl LineBuf {
    /// `SmallVec::new`: an empty vector.
    #[verifier::external_body]
    pub(crate) fn new() -> (buf: LineBuf)
        ensures
            line_bytes(buf) == Seq::<u8>::empty(),
    {
        LineBuf { bytes: SmallVec::new() }
    }

    /// `SmallVec::push`: appends `b`. The source grows the allocation to the
    /// next power of two and panics where that overflows, which the bound on
    /// the length rules out.
    #[verifier::external_body]
    pub(crate) fn push(&mut self, b: u8)
        requires
            line_bytes(*old(self)).len() + 1 <= buffer_limit(),
        ensures
            line_bytes(*final(self)) == line_bytes(*old(self)).push(b),
    {
        self.bytes.push(b);
    }

    /// `SmallVec::extend_from_slice`: appends the bytes of `s` in order; it
    /// panics as `push` does where the new length overflows.
    #[verifier::external_body]
    pub(crate) fn extend_from_slice(&mut self, s: &[u8])
        requires
            line_bytes(*old(self)).len() + s@.len() <= buffer_limit(),
        ensures
            line_bytes(*final(self)) == line_bytes(*old(self)) + s@,
    {
        self.bytes.extend_from_slice(s);
    }

    /// `SmallVec::as_slice`: the bytes held, in order.
    #[verifier::external_body]
    pub(crate) fn as_slice(&self) -> (s: &[u8])
        ensures
            s@ == line_bytes(*self),
    {
        self.bytes.as_slice()
    }

    /// `SmallVec::clear`: removes every byte.
    #[verifier::external_body]
    pub(crate) fn clear(&mut self)
        ensures
            line_bytes(*final(self)) == Seq::<u8>::empty(),
    {
        self.bytes.clear();
    }

    /// `SmallVec::is_empty`: whether no byte is held.
    #[verifier::external_body]
    pub(crate) fn is_empty(&self) -> (r: bool)
        ensures
            r == (line_bytes(*self).len() == 0),
    {
        self.bytes.is_empty()
    }
}

/// The buffer for bytes that may begin a byte order mark, backed by
/// `SmallVec<[u8; 3]>`.
#[verifier::external_body]
#[derive(Debug)]
pub struct BomBuf {
    bytes: SmallVec<[u8; 3]>,
}

/// The bytes held by a `BomBuf`, in order.
pub uninterp spec fn bom_bytes(buf: BomBuf) -> Seq<u8>;

impl View for BomBuf {
    type V = Seq<u8>;

    open spec fn view(&self) -> Seq<u8> {
        bom_bytes(*self)
    }
}

impl BomBuf {
    /// `SmallVec::new`: an empty vector.
    #[verifier::external_body]
    pub(crate) fn new() -> (buf: BomBuf)
        ensures
            bom_bytes(buf) == Seq::<u8>::empty(),
    {
        BomBuf { bytes: SmallVec::new() }
    }

    /// `SmallVec::push`: appends `b`; it panics only where the new length
    /// overflows, which the bound rules out.
    #[verifier::external_body]
    pub(crate) fn push(&mut self, b: u8)
        requires
            bom_bytes(*old(self)).len() + 1 <= buffer_limit(),
        ensures
            bom_bytes(*final(self)) == bom_bytes(*old(self)).push(b),
    {
        self.bytes.push(b);
    }

    /// `SmallVec::as_slice`: the bytes held, in order.
    #[verifier::external_body]
    pub(crate) fn as_slice(&self) -> (s: &[u8])
        ensures
            s@ == bom_bytes(*self),
    {
        self.bytes.as_slice()
    }

    /// `SmallVec::clear`: removes every byte.
    #[verifier::external_body]
    pub(crate) fn clear(&mut self)
        ensures
            bom_bytes(*final(self)) == Seq::<u8>::empty(),
    {
        self.bytes.clear();
    }

    /// `SmallVec::is_empty`: whether no byte is held.
    #[verifier::external_body]
    pub(crate) fn is_empty(&self) -> (r: bool)
        ensures
            r == (bom_bytes(*self).len() == 0),
    {
        self.bytes.is_empty()
    }
}

/// `memchr::memchr`: the first position of `needle` in `haystack`, as its
/// documentation states.
pub assume_specification[ memchr::memchr ](needle: u8, haystack: &[u8]) -> (r: Option<usize>)
    ensures
        r matches Some(i) ==> i < haystack@.len() && haystack@[i as int] == needle && forall|
            j: int,
        | 0 <= j < i ==> haystack@[j] != needle,
        r is None ==> forall|j: int| 0 <= j < haystack@.len() ==> haystack@[j] != needle,
;

/// `memchr::memchr2`: the first position of either needle in `haystack`, as
/// its documentation states.
pub assume_specification[ memchr::memchr2 ](needle1: u8, needle2: u8, haystack: &[u8]) -> (r:
    Option<usize>)
    ensures
        r matches Some(i) ==> i < haystack@.len() && (haystack@[i as int] == needle1
            || haystack@[i as int] == needle2) && forall|j: int|
            0 <= j < i ==> haystack@[j] != needle1 && haystack@[j] != needle2,
        r is None ==> forall|j: int|
            0 <= j < haystack@.len() ==> haystack@[j] != needle1 && haystack@[j] != needle2,
;

} // verus!
