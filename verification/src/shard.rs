//! What the coder asks of a container of shard bytes.
use vstd::prelude::*;

verus! {

/// `data`, with one zero byte behind it where its length is odd.
pub open spec fn spec_pad_even(data: Seq<u8>) -> Seq<u8> {
    if data.len() % 2 == 1 {
        data.push(0)
    } else {
        data
    }
}

/// A container for the bytes of one shard: the symbols of one place of the
/// codeword in every column, most significant byte of every symbol first,
/// one column after the other.
pub trait Shard: Sized {
    /// The bytes that the shard holds.
    spec fn spec_bytes(&self) -> Seq<u8>;

    /// The bytes that a shard made of `data` holds: `data` itself, or `data`
    /// with a zero byte behind it where its length is odd.
    spec fn spec_wrap(data: Seq<u8>) -> Seq<u8>;

    /// Bytes of even length are kept as they are.
    proof fn lemma_wrap(data: Seq<u8>)
        ensures
            Self::spec_wrap(data) == data || Self::spec_wrap(data) == spec_pad_even(data),
    ;

    /// Wraps `data`.
    fn from_vec(data: Vec<u8>) -> (shard: Self)
        ensures
            shard.spec_bytes() == Self::spec_wrap(data@),
    ;

    /// Hands the bytes out.
    fn into_inner(self) -> (data: Vec<u8>)
        ensures
            data@ == self.spec_bytes(),
    ;

    /// Number of bytes in the shard.
    fn len(&self) -> (l: usize)
        ensures
            l == self.spec_bytes().len(),
    ;

    /// Byte `index` of the shard.
    fn get_byte(&self, index: usize) -> (byte: u8)
        requires
            index < self.spec_bytes().len(),
        ensures
            byte == self.spec_bytes()[index as int],
    ;

    /// The two bytes of the symbol of two bytes in column `chunk_index`.
    fn get_chunk(&self, chunk_index: usize) -> (chunk: [u8; 2])
        requires
            2 * chunk_index + 2 <= self.spec_bytes().len(),
        ensures
            chunk@[0] == self.spec_bytes()[2 * chunk_index],
            chunk@[1] == self.spec_bytes()[2 * chunk_index + 1],
    ;

    /// Overwrites the two bytes of the symbol of two bytes in column
    /// `chunk_index`.
    fn set_chunk(&mut self, chunk_index: usize, chunk_data: [u8; 2])
        requires
            2 * chunk_index + 2 <= old(self).spec_bytes().len(),
        ensures
            final(self).spec_bytes() == old(self).spec_bytes().update(
                2 * chunk_index,
                chunk_data@[0],
            ).update(2 * chunk_index + 1, chunk_data@[1]),
    ;
}

/// Every container holds bytes of even length as they are. The shards of a
/// field with symbols of two bytes are of even length.
pub proof fn lemma_even_bytes_are_kept<S: Shard>(data: Seq<u8>)
    requires
        data.len() % 2 == 0,
    ensures
        S::spec_wrap(data) == data,
{
    S::lemma_wrap(data);
}

/// A plain byte vector is a shard as it is, whatever its length.
impl Shard for Vec<u8> {
    open spec fn spec_bytes(&self) -> Seq<u8> {
        self@
    }

    open spec fn spec_wrap(data: Seq<u8>) -> Seq<u8> {
        data
    }

    proof fn lemma_wrap(data: Seq<u8>) {
    }

    fn from_vec(data: Vec<u8>) -> (shard: Self) {
        data
    }

    fn into_inner(self) -> (data: Vec<u8>) {
        self
    }

    fn len(&self) -> (l: usize) {
        Vec::len(self)
    }

    fn get_byte(&self, index: usize) -> (byte: u8) {
        self[index]
    }

    fn get_chunk(&self, chunk_index: usize) -> (chunk: [u8; 2]) {
        let len: usize = Vec::len(self);
        assert(2 * chunk_index + 2 <= len);
        [self[2 * chunk_index], self[2 * chunk_index + 1]]
    }

    fn set_chunk(&mut self, chunk_index: usize, chunk_data: [u8; 2]) {
        let len: usize = Vec::len(self);
        assert(2 * chunk_index + 2 <= len);
        self.set(2 * chunk_index, chunk_data[0]);
        self.set(2 * chunk_index + 1, chunk_data[1]);
    }
}

} // verus!
