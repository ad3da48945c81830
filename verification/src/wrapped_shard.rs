//! A shard in a byte vector of even length.
use crate::shard::{spec_pad_even, Shard};
use vstd::prelude::*;

verus! {

/// A shard with an even number of bytes, which can be cut into symbols of
/// two bytes.
#[derive(Debug, Clone, PartialEq, Eq)]
pub struct WrappedShard {
    inner: Vec<u8>,
}

impl View for WrappedShard {
    type V = Seq<u8>;

    closed spec fn view(&self) -> Seq<u8> {
        self.inner@
    }
}

impl WrappedShard {
    /// The shard can be cut into symbols of two bytes.
    pub open spec fn wf(&self) -> bool {
        self@.len() % 2 == 0
    }

    /// Wraps `data`, with one zero byte behind it where its length is odd.
    pub fn new(data: Vec<u8>) -> (shard: WrappedShard)
        ensures
            shard@ == spec_pad_even(data@),
            shard.wf(),
    {
        let mut data = data;
        if data.len() % 2 == 1 {
            data.push(0);
        }
        WrappedShard { inner: data }
    }

    /// Unwraps and yields the bytes.
    pub fn into_inner(self) -> (data: Vec<u8>)
        ensures
            data@ == self@,
    {
        self.inner
    }

    /// The bytes of the shard.
    pub fn as_bytes(&self) -> (bytes: &[u8])
        ensures
            bytes@ == self@,
    {
        self.inner.as_slice()
    }
}

impl Shard for WrappedShard {
    open spec fn spec_bytes(&self) -> Seq<u8> {
        self@
    }

    open spec fn spec_wrap(data: Seq<u8>) -> Seq<u8> {
        spec_pad_even(data)
    }

    proof fn lemma_wrap(data: Seq<u8>) {
    }

    fn from_vec(data: Vec<u8>) -> (shard: Self) {
        WrappedShard::new(data)
    }

    fn into_inner(self) -> (data: Vec<u8>) {
        self.inner
    }

    fn len(&self) -> (l: usize) {
        self.inner.len()
    }

    fn get_byte(&self, index: usize) -> (byte: u8) {
        self.inner[index]
    }

    fn get_chunk(&self, chunk_index: usize) -> (chunk: [u8; 2]) {
        let len: usize = self.inner.len();
        assert(2 * chunk_index + 2 <= len);
        [self.inner[2 * chunk_index], self.inner[2 * chunk_index + 1]]
    }

    fn set_chunk(&mut self, chunk_index: usize, chunk_data: [u8; 2]) {
        let len: usize = self.inner.len();
        assert(2 * chunk_index + 2 <= len);
        self.inner.set(2 * chunk_index, chunk_data[0]);
        self.inner.set(2 * chunk_index + 1, chunk_data[1]);
    }
}

} // verus!
