//! A receive buffer over `bytes::BytesMut` whose spare room is always
//! initialised, so that a read can land in it directly.

use vstd::prelude::*;

verus! {

#[verifier::external_type_specification]
#[verifier::external_body]
pub struct ExBytesMut(::bytes::BytesMut);

#[verifier::external_type_specification]
#[verifier::external_body]
pub struct ExBytes(::bytes::Bytes);

/// The bytes a `BytesMut` holds, first to last.
pub uninterp spec fn bytes_mut_contents(b: ::bytes::BytesMut) -> Seq<u8>;

/// The bytes a `Bytes` holds, first to last.
pub uninterp spec fn bytes_contents(b: ::bytes::Bytes) -> Seq<u8>;

/// `BytesMut::new` makes an empty buffer.
pub assume_specification[ ::bytes::BytesMut::new ]() -> (b: ::bytes::BytesMut)
    ensures
        bytes_mut_contents(b) == Seq::<u8>::empty(),
;

/// `BytesMut::len` is the number of bytes held.
pub assume_specification[ ::bytes::BytesMut::len ](b: &::bytes::BytesMut) -> (n: usize)
    ensures
        n == bytes_mut_contents(*b).len(),
;

/// `BytesMut::split_to` hands out the first `at` bytes and keeps the rest.
/// It panics when `at` is beyond the length.
pub assume_specification[ ::bytes::BytesMut::split_to ](
    b: &mut ::bytes::BytesMut,
    at: usize,
) -> (head: ::bytes::BytesMut)
    requires
        at <= bytes_mut_contents(*old(b)).len(),
    ensures
        bytes_mut_contents(head) == bytes_mut_contents(*old(b)).take(at as int),
        bytes_mut_contents(*final(b)) == bytes_mut_contents(*old(b)).skip(at as int),
;

/// `BytesMut::truncate` keeps the first `len` bytes, or everything when the
/// buffer is shorter.
pub assume_specification[ ::bytes::BytesMut::truncate ](b: &mut ::bytes::BytesMut, len: usize)
    ensures
        bytes_mut_contents(*final(b)) == if len <= bytes_mut_contents(*old(b)).len() {
            bytes_mut_contents(*old(b)).take(len as int)
        } else {
            bytes_mut_contents(*old(b))
        },
;

/// `BytesMut::resize` truncates to `new_len`, or extends to it with copies
/// of `value`. Growing reserves memory, which panics past `isize::MAX`.
pub assume_specification[ ::bytes::BytesMut::resize ](
    b: &mut ::bytes::BytesMut,
    new_len: usize,
    value: u8,
)
    requires
        new_len <= isize::MAX,
    ensures
        bytes_mut_contents(*final(b)) == if new_len <= bytes_mut_contents(*old(b)).len() {
            bytes_mut_contents(*old(b)).take(new_len as int)
        } else {
            bytes_mut_contents(*old(b)) + Seq::new(
                (new_len - bytes_mut_contents(*old(b)).len()) as nat,
                |i: int| value,
            )
        },
;

/// `BytesMut::freeze` turns the buffer into an immutable one with the same
/// contents.
pub assume_specification[ ::bytes::BytesMut::freeze ](b: ::bytes::BytesMut) -> (out: ::bytes::Bytes)
    ensures
        bytes_contents(out) == bytes_mut_contents(b),
;

/// `Bytes::new` is the empty buffer.
pub assume_specification[ ::bytes::Bytes::new ]() -> (b: ::bytes::Bytes)
    ensures
        bytes_contents(b) == Seq::<u8>::empty(),
;

/// `Bytes::split_to` hands out the first `at` bytes and keeps the rest. It
/// panics when `at` is beyond the length.
pub assume_specification[ ::bytes::Bytes::split_to ](b: &mut ::bytes::Bytes, at: usize) -> (head:
    ::bytes::Bytes)
    requires
        at <= bytes_contents(*old(b)).len(),
    ensures
        bytes_contents(head) == bytes_contents(*old(b)).take(at as int),
        bytes_contents(*final(b)) == bytes_contents(*old(b)).skip(at as int),
;

/// `Bytes::len` is the number of bytes held.
pub assume_specification[ ::bytes::Bytes::len ](b: &::bytes::Bytes) -> (n: usize)
    ensures
        n == bytes_contents(*b).len(),
;

/// The contents of a `Bytes` as a slice, through its `Deref`.
#[verifier::external_body]
pub(crate) fn bytes_as_slice(b: &::bytes::Bytes) -> (s: &[u8])
    ensures
        s@ == bytes_contents(*b),
{
    &b[..]
}

/// The contents of a `BytesMut` as a slice, through its `Deref`.
#[verifier::external_body]
pub(crate) fn bytes_mut_as_slice(b: &::bytes::BytesMut) -> (s: &[u8])
    ensures
        s@ == bytes_mut_contents(*b),
{
    &b[..]
}

/// The contents of a `BytesMut` as a mutable slice, through its `DerefMut`:
/// what is written to the slice is written to the buffer, whose length stays.
#[verifier::external_body]
pub(crate) fn bytes_mut_as_mut_slice(b: &mut ::bytes::BytesMut) -> (s: &mut [u8])
    ensures
        s@ == bytes_mut_contents(*old(b)),
        final(s)@.len() == s@.len(),
        bytes_mut_contents(*final(b)) == final(s)@,
{
    &mut b[..]
}

/// `n` zero bytes.
pub open spec fn zeros(n: nat) -> Seq<u8> {
    Seq::new(n, |i: int| 0u8)
}

/// A growable byte buffer with a logical content and, behind it, spare room
/// that is initialised memory a read may write into.
pub struct InitBytesMut {
    buf: ::bytes::BytesMut,
    len: usize,
}

impl View for InitBytesMut {
    type V = Seq<u8>;

    /// The logical content.
    closed spec fn view(&self) -> Seq<u8> {
        bytes_mut_contents(self.buf).take(self.len as int)
    }
}

impl InitBytesMut {
    /// The content ends inside the underlying buffer, whose length is a
    /// `usize`.
    pub closed spec fn wf(&self) -> bool {
        self.len <= bytes_mut_contents(self.buf).len() <= usize::MAX
    }

    /// The spare room behind the logical content.
    pub closed spec fn spare(&self) -> Seq<u8> {
        bytes_mut_contents(self.buf).skip(self.len as int)
    }

    /// Content and spare room together have a length that is a `usize`.
    pub proof fn lemma_len_bound(&self)
        requires
            self.wf(),
        ensures
            self@.len() + self.spare().len() <= usize::MAX,
    {
    }

    pub fn new() -> (b: Self)
        ensures
            b.wf(),
            b@ == Seq::<u8>::empty(),
            b.spare() == Seq::<u8>::empty(),
    {
        let b = InitBytesMut { buf: ::bytes::BytesMut::new(), len: 0 };
        assert(b@ =~= Seq::<u8>::empty());
        assert(b.spare() =~= Seq::<u8>::empty());
        b
    }

    pub fn len(&self) -> (n: usize)
        requires
            self.wf(),
        ensures
            n == self@.len(),
    {
        self.len
    }

    pub fn is_empty(&self) -> (e: bool)
        requires
            self.wf(),
        ensures
            e == (self@.len() == 0),
    {
        self.len == 0
    }

    /// The logical content, for reading and for writing in place.
    pub fn as_mut(&mut self) -> (s: &mut [u8])
        requires
            old(self).wf(),
        ensures
            final(self).wf(),
            s@ == old(self)@,
            final(self)@ == final(s)@,
            final(self).spare() == old(self).spare(),
    {
        let whole = bytes_mut_as_mut_slice(&mut self.buf);
        let (head, _tail) = whole.split_at_mut(self.len);
        head
    }

    /// The logical content, for reading.
    pub fn as_slice(&self) -> (s: &[u8])
        requires
            self.wf(),
        ensures
            s@ == self@,
    {
        let whole = bytes_mut_as_slice(&self.buf);
        let (head, _tail) = whole.split_at(self.len);
        assert(head@ =~= self@);
        head
    }

    /// Detaches the first `at` bytes of the content; the rest moves forward.
    pub fn split_to(&mut self, at: usize) -> (head: ::bytes::BytesMut)
        requires
            old(self).wf(),
            at <= old(self)@.len(),
        ensures
            final(self).wf(),
            bytes_mut_contents(head) == old(self)@.take(at as int),
            final(self)@ == old(self)@.skip(at as int),
            final(self).spare() == old(self).spare(),
    {
        let head = self.buf.split_to(at);
        self.len = self.len - at;
        assert(bytes_mut_contents(head) =~= old(self)@.take(at as int));
        assert(self@ =~= old(self)@.skip(at as int));
        assert(self.spare() =~= old(self).spare());
        head
    }

    /// Makes the spare room at least `n` bytes long and fills all of it with
    /// zeros. The content stays.
    pub fn reserve(&mut self, n: usize)
        requires
            old(self).wf(),
            old(self)@.len() + n <= isize::MAX,
            old(self)@.len() + old(self).spare().len() <= isize::MAX,
        ensures
            final(self).wf(),
            final(self)@ == old(self)@,
            final(self).spare() == zeros(
                if n >= old(self).spare().len() {
                    n as nat
                } else {
                    old(self).spare().len()
                },
            ),
    {
        let total = self.buf.len();
        let spare = total - self.len;
        let want = if n >= spare { n } else { spare };
        self.buf.truncate(self.len);
        self.buf.resize(self.len + want, 0);
        assert(self@ =~= old(self)@);
        assert(self.spare() =~= zeros(want as nat));
    }

    pub fn spare_capacity_len(&self) -> (n: usize)
        requires
            self.wf(),
        ensures
            n == self.spare().len(),
    {
        self.buf.len() - self.len
    }

    /// The spare room, for a read to write into.
    pub fn spare_capacity_mut(&mut self) -> (s: &mut [u8])
        requires
            old(self).wf(),
        ensures
            final(self).wf(),
            s@ == old(self).spare(),
            final(self)@ == old(self)@,
            final(self).spare() == final(s)@,
            final(s)@.len() == s@.len(),
    {
        let whole = bytes_mut_as_mut_slice(&mut self.buf);
        let (_head, tail) = whole.split_at_mut(self.len);
        tail
    }

    /// Moves the first `n` bytes of the spare room to the end of the content.
    pub fn advance(&mut self, n: usize)
        requires
            old(self).wf(),
            n <= old(self).spare().len(),
        ensures
            final(self).wf(),
            final(self)@ == old(self)@ + old(self).spare().take(n as int),
            final(self).spare() == old(self).spare().skip(n as int),
    {
        self.len = self.len + n;
        assert(self@ =~= old(self)@ + old(self).spare().take(n as int));
        assert(self.spare() =~= old(self).spare().skip(n as int));
    }
}

} // verus!
