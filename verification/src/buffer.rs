//! A buffer that is filled from successive inputs until it is full.

use vstd::prelude::*;

verus! {

/// `bytes` with `input` written where `rest` bytes before the end begin.
pub open spec fn placed(bytes: Seq<u8>, rest: int, input: Seq<u8>) -> Seq<u8> {
    let at = bytes.len() - rest;
    bytes.take(at) + input + bytes.skip(at + input.len())
}

/// Storage that takes the bytes of an input at a place counted from its
/// end.
pub trait Consume {
    /// The bytes in the storage.
    spec fn stored(&self) -> Seq<u8>;

    /// Whether the storage keeps what it is given.
    spec fn keeps(&self) -> bool;

    /// Writes `input` where the last `rest` bytes of the storage begin.
    fn consume(&mut self, rest: usize, input: &[u8])
        requires
            input@.len() <= rest,
            old(self).keeps() ==> rest <= old(self).stored().len(),
        ensures
            final(self).keeps() == old(self).keeps(),
            final(self).stored() == if old(self).keeps() {
                placed(old(self).stored(), rest as int, input@)
            } else {
                old(self).stored()
            },
    ;
}

/// Writes `input` into `inner` where its last `rest` bytes begin.
pub fn place(inner: &mut [u8], rest: usize, input: &[u8])
    requires
        input@.len() <= rest <= old(inner)@.len(),
    ensures
        final(inner)@ == placed(old(inner)@, rest as int, input@),
{
    let total: usize = inner.len();
    let step: usize = total - rest;
    let mut i: usize = 0;
    while i < input.len()
        invariant
            i <= input@.len() <= rest <= inner@.len(),
            total == inner@.len(),
            step == inner@.len() - rest,
            inner@.len() == old(inner)@.len(),
            inner@ == old(inner)@.take(step as int) + input@.take(i as int) + old(inner)@.skip(
                step + i,
            ),
        decreases input.len() - i,
    {
        inner[step + i] = input[i];
        assert(inner@ =~= old(inner)@.take(step as int) + input@.take(i + 1) + old(inner)@.skip(
            step + i + 1,
        ));
        i = i + 1;
    }
    assert(input@.take(i as int) =~= input@);
    assert(old(inner)@.take(step as int) + input@.take(0) + old(inner)@.skip(step as int)
        =~= old(inner)@);
}

impl<const N: usize> Consume for [u8; N] {
    open spec fn stored(&self) -> Seq<u8> {
        self@
    }

    open spec fn keeps(&self) -> bool {
        true
    }

    fn consume(&mut self, rest: usize, input: &[u8]) {
        let inner: &mut [u8] = self;
        place(inner, rest, input);
    }
}

impl Consume for Vec<u8> {
    open spec fn stored(&self) -> Seq<u8> {
        self@
    }

    open spec fn keeps(&self) -> bool {
        true
    }

    fn consume(&mut self, rest: usize, input: &[u8]) {
        place(self.as_mut_slice(), rest, input);
    }
}

/// Storage that may be left out: then what is read is dropped.
#[derive(Debug, PartialEq, Eq)]
pub enum Maybe<C> {
    Just(C),
    Nothing,
}

impl<C: Consume> Consume for Maybe<C> {
    open spec fn stored(&self) -> Seq<u8> {
        match self {
            Maybe::Just(c) => c.stored(),
            Maybe::Nothing => Seq::<u8>::empty(),
        }
    }

    open spec fn keeps(&self) -> bool {
        match self {
            Maybe::Just(c) => c.keeps(),
            Maybe::Nothing => false,
        }
    }

    fn consume(&mut self, rest: usize, input: &[u8]) {
        match self {
            Maybe::Just(c) => c.consume(rest, input),
            Maybe::Nothing => {},
        }
    }
}

/// Storage with the number of bytes that are still to be read into it.
#[derive(Debug)]
pub struct Buffer<C> {
    rest: usize,
    data: C,
}

impl<C> Buffer<C> {
    /// The number of bytes still to be read.
    pub closed spec fn remaining(&self) -> usize {
        self.rest
    }

    /// The storage.
    pub closed spec fn storage(&self) -> C {
        self.data
    }

    /// The number of bytes still to be read.
    pub fn rest(&self) -> (n: usize)
        ensures
            n == self.remaining(),
    {
        self.rest
    }

    /// The same buffer with its storage marked as present.
    pub fn just(self) -> (b: Buffer<Maybe<C>>)
        ensures
            b.remaining() == self.remaining(),
            b.storage() == Maybe::Just(self.storage()),
    {
        Buffer { rest: self.rest, data: Maybe::Just(self.data) }
    }
}

impl<C: Consume> Buffer<C> {
    /// The storage has room for what is still to be read.
    pub open spec fn wf(&self) -> bool {
        self.storage().keeps() ==> self.remaining() <= self.storage().stored().len()
    }

    /// How many bytes the next read takes from an input of the given
    /// length.
    pub open spec fn take_len(&self, input: int) -> int {
        if self.remaining() <= input {
            self.remaining() as int
        } else {
            input
        }
    }

    /// Reads from the front of `input` what is still to be read, as far as
    /// the input goes, and leaves the rest of the input. Gives the storage
    /// once nothing is left to be read.
    pub fn read_from(&mut self, input: &mut &[u8]) -> (out: Option<&mut C>)
        requires
            old(self).wf(),
        ensures
            ({
                let n = old(self).take_len(old(input)@.len() as int);
                &&& final(input)@ == old(input)@.skip(n)
                &&& out is Some <==> old(self).remaining() == n
                &&& match out {
                    Some(data) => {
                        &&& data.keeps() == old(self).storage().keeps()
                        &&& data.stored() == if old(self).storage().keeps() {
                            placed(
                                old(self).storage().stored(),
                                old(self).remaining() as int,
                                old(input)@.take(n),
                            )
                        } else {
                            old(self).storage().stored()
                        }
                        &&& final(self).remaining() == 0
                        &&& final(self).storage() == *final(data)
                    },
                    None => {
                        &&& final(self).remaining() == old(self).remaining() - n
                        &&& final(self).storage().keeps() == old(self).storage().keeps()
                        &&& final(self).storage().stored() == if old(self).storage().keeps() {
                            placed(
                                old(self).storage().stored(),
                                old(self).remaining() as int,
                                old(input)@.take(n),
                            )
                        } else {
                            old(self).storage().stored()
                        }
                        &&& final(self).wf()
                    },
                }
            }),
    {
        let n: usize = if self.rest <= input.len() { self.rest } else { input.len() };
        let (left, right) = input.split_at(n);
        assert(left@ =~= old(input)@.take(n as int));
        assert(right@ =~= old(input)@.skip(n as int));
        self.data.consume(self.rest, left);
        *input = right;
        self.rest = self.rest - n;
        if self.rest == 0 {
            Some(&mut self.data)
        } else {
            None
        }
    }
}

impl<C> Buffer<Maybe<C>> {
    /// A buffer without storage that reads and drops `rest` bytes.
    pub fn nothing(rest: usize) -> (b: Self)
        ensures
            b.remaining() == rest,
            b.storage() == Maybe::<C>::Nothing,
    {
        Buffer { rest, data: Maybe::Nothing }
    }
}

impl Buffer<Vec<u8>> {
    /// A buffer of `rest` zero bytes, all of them still to be read.
    pub fn allocate(rest: usize) -> (b: Self)
        ensures
            b.remaining() == rest,
            b.storage()@ == Seq::new(rest as nat, |i: int| 0u8),
            b.wf(),
    {
        let mut data: Vec<u8> = Vec::new();
        let mut i: usize = 0;
        while i < rest
            invariant
                i <= rest,
                data@ == Seq::new(i as nat, |j: int| 0u8),
            decreases rest - i,
        {
            data.push(0);
            assert(data@ =~= Seq::new((i + 1) as nat, |j: int| 0u8));
            i = i + 1;
        }
        Buffer { rest, data }
    }
}

impl<const N: usize> Default for Buffer<[u8; N]> {
    /// A buffer of `N` zero bytes, all of them still to be read.
    fn default() -> (b: Self)
        ensures
            b.remaining() == N,
            b.storage()@ == Seq::new(N as nat, |i: int| 0u8),
            b.wf(),
    {
        let data: [u8; N] = [0u8; N];
        assert(data@ =~= Seq::new(N as nat, |i: int| 0u8));
        Buffer { rest: N, data }
    }
}

} // verus!
