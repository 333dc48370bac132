//! The byte-sequence algebra shared by keys and compressed path prefixes.

use vstd::prelude::*;

verus! {

/// The byte-sequence algebra that keys and node prefixes share: a finite
/// sequence of bytes with length, byte-at-index, duplication and equality.
pub trait Prefix: Sized {
    /// The byte sequence this value stands for.
    spec fn spec_bytes(&self) -> Seq<u8>;

    /// Structural well-formedness of the representation.
    spec fn pwf(&self) -> bool;

    /// A copy that stands for the same byte sequence.
    fn duplicate(&self) -> (r: Self)
        requires
            self.pwf(),
        ensures
            r.pwf(),
            r.spec_bytes() == self.spec_bytes(),
    ;

    /// The number of bytes.
    fn length(&self) -> (r: usize)
        requires
            self.pwf(),
        ensures
            r == self.spec_bytes().len(),
    ;

    /// The byte at index `i`.
    fn at(&self, i: usize) -> (r: u8)
        requires
            self.pwf(),
            i < self.spec_bytes().len(),
        ensures
            r == self.spec_bytes()[i as int],
    ;
}

/// True exactly when the two values stand for the same byte sequence.
pub fn prefix_eq<P: Prefix>(a: &P, b: &P) -> (r: bool)
    requires
        a.pwf(),
        b.pwf(),
    ensures
        r <==> a.spec_bytes() == b.spec_bytes(),
{
    let la = a.length();
    let lb = b.length();
    if la != lb {
        return false;
    }
    let mut i: usize = 0;
    while i < la
        invariant
            a.pwf(),
            b.pwf(),
            la == a.spec_bytes().len(),
            la == b.spec_bytes().len(),
            i <= la,
            forall|j: int| 0 <= j < i ==> a.spec_bytes()[j] == b.spec_bytes()[j],
        decreases la - i,
    {
        if a.at(i) != b.at(i) {
            return false;
        }
        i = i + 1;
    }
    proof {
        assert(a.spec_bytes() =~= b.spec_bytes());
    }
    true
}

/// A fixed-width byte sequence: stores exactly `N` bytes, zero-padded on the
/// right past the stored length.
#[derive(Clone)]
pub struct ArrayPrefix<const N: usize> {
    data: Vec<u8>,
    len: usize,
}

impl<const N: usize> ArrayPrefix<N> {
    /// Build a fixed-width key from at most `N` bytes.
    pub fn create_key(src: &[u8]) -> (r: Self)
        requires
            src@.len() <= N,
        ensures
            r.pwf(),
            r.spec_bytes() == src@,
    {
        let n = src.len();
        let mut data: Vec<u8> = Vec::new();
        let mut i: usize = 0;
        while i < n
            invariant
                n == src@.len() <= N,
                i <= n,
                data@.len() == i,
                forall|j: int| 0 <= j < i ==> data@[j] == src@[j],
            decreases n - i,
        {
            data.push(src[i]);
            i = i + 1;
        }
        while i < N
            invariant
                n == src@.len() <= N,
                n <= i <= N,
                data@.len() == i,
                forall|j: int| 0 <= j < n ==> data@[j] == src@[j],
            decreases N - i,
        {
            data.push(0);
            i = i + 1;
        }
        proof {
            assert(data@.take(n as int) =~= src@);
        }
        ArrayPrefix { data, len: n }
    }
}

impl<const N: usize> Prefix for ArrayPrefix<N> {
    closed spec fn spec_bytes(&self) -> Seq<u8> {
        self.data@.take(self.len as int)
    }

    closed spec fn pwf(&self) -> bool {
        self.data@.len() == N && self.len <= N
    }

    fn duplicate(&self) -> (r: Self) {
        let mut data: Vec<u8> = Vec::new();
        let mut i: usize = 0;
        while i < self.data.len()
            invariant
                self.pwf(),
                i <= self.data@.len(),
                data@.len() == i,
                forall|j: int| 0 <= j < i ==> data@[j] == self.data@[j],
            decreases self.data@.len() - i,
        {
            data.push(self.data[i]);
            i = i + 1;
        }
        proof {
            assert(data@ =~= self.data@);
        }
        ArrayPrefix { data, len: self.len }
    }

    fn length(&self) -> (r: usize) {
        self.len
    }

    fn at(&self, i: usize) -> (r: u8) {
        self.data[i]
    }
}

} // verus!
