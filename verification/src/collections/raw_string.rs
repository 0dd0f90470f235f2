//! A growable UTF-8 string over a single-range storage of bytes.

use crate::collections::raw_vec::RawVec;
use crate::inline::SingleRange;
use crate::traits::grown_capacity;
use crate::traits::growth_allocations;
use crate::traits::growth_deallocations;
use crate::traits::same_footing;
use crate::traits::Capacity;
use crate::traits::SingleRangeStorage;
use crate::traits::StorageError;
use vstd::prelude::*;
use vstd::string::StringSliceAdditionalSpecFns;
use vstd::utf8::decode_utf8;
use vstd::utf8::decode_utf8_encode_utf8;
use vstd::utf8::encode_utf8;
use vstd::utf8::encode_utf8_decode_utf8;
use vstd::utf8::encode_utf8_valid_utf8;
use vstd::utf8::valid_utf8;

verus! {

/// Encoding a concatenation gives the concatenation of the encodings.
pub proof fn lemma_encode_utf8_concat(front: Seq<char>, back: Seq<char>)
    ensures
        encode_utf8(front + back) == encode_utf8(front) + encode_utf8(back),
    decreases front.len(),
{
    if front.len() == 0 {
        assert(front + back =~= back);
        assert(encode_utf8(front) + encode_utf8(back) =~= encode_utf8(back));
    } else {
        lemma_encode_utf8_concat(front.drop_first(), back);
        assert((front + back).drop_first() =~= front.drop_first() + back);
        assert(encode_utf8(front + back) =~= encode_utf8(front) + encode_utf8(back));
    }
}

/// Appending the encoding of `text` to valid UTF-8 gives valid UTF-8, which
/// decodes to what the bytes held before followed by `text`.
pub proof fn lemma_append_encoded(bytes: Seq<u8>, text: Seq<char>)
    requires
        valid_utf8(bytes),
    ensures
        valid_utf8(bytes + encode_utf8(text)),
        decode_utf8(bytes + encode_utf8(text)) == decode_utf8(bytes) + text,
{
    decode_utf8_encode_utf8(bytes);
    lemma_encode_utf8_concat(decode_utf8(bytes), text);
    encode_utf8_valid_utf8(decode_utf8(bytes) + text);
    encode_utf8_decode_utf8(decode_utf8(bytes) + text);
}

/// Calls `String::from_utf8`, which checks the bytes and takes them over.
/// The contract claims that it accepts exactly the valid UTF-8 sequences and
/// that the string then reads as the characters the bytes encode.
#[verifier::external_body]
fn string_from_utf8(bytes: Vec<u8>) -> (text: Option<String>)
    ensures
        text is Some <==> valid_utf8(bytes@),
        text matches Some(string) ==> string@ == decode_utf8(bytes@),
{
    match String::from_utf8(bytes) {
        Ok(string) => Some(string),
        Err(_) => None,
    }
}

/// A UTF-8 encoded, growable string.
///
/// The bytes are valid UTF-8 at all times: text enters only as `&str` or
/// `String`, never as bytes.
pub struct RawString<S: SingleRangeStorage<u8>> {
    vec: RawVec<u8, S>,
}

impl<S: SingleRangeStorage<u8>> View for RawString<S> {
    type V = Seq<char>;

    closed spec fn view(&self) -> Seq<char> {
        decode_utf8(self.vec@)
    }
}

impl<S: SingleRangeStorage<u8>> RawString<S> {
    /// The representation invariant: the buffer is well formed and its bytes
    /// are valid UTF-8.
    pub closed spec fn wf(&self) -> bool {
        &&& self.vec.wf()
        &&& valid_utf8(self.vec@)
    }

    /// The buffer of bytes behind the string, as a mathematical value.
    pub closed spec fn spec_vec(&self) -> RawVec<u8, S> {
        self.vec
    }

    /// The bytes of the string.
    pub open spec fn spec_bytes(&self) -> Seq<u8> {
        self.spec_vec()@
    }

    /// The length in bytes never exceeds the capacity.
    pub proof fn lemma_len_within_capacity(&self)
        requires
            self.wf(),
        ensures
            self.spec_bytes().len() <= self.spec_vec().spec_capacity(),
    {
        self.vec.lemma_len_within_capacity();
    }

    /// The bytes of a well-formed string are the UTF-8 encoding of its
    /// characters, and its buffer is well formed.
    pub proof fn lemma_bytes_encode_view(&self)
        requires
            self.wf(),
        ensures
            self.spec_vec().wf(),
            valid_utf8(self.spec_bytes()),
            self.spec_bytes() == encode_utf8(self@),
            self@ == decode_utf8(self.spec_bytes()),
    {
        decode_utf8_encode_utf8(self.vec@);
    }

    /// Creates a new empty string over `storage`.
    pub fn new(storage: S) -> (string: Self)
        requires
            storage.wf(),
        ensures
            string.wf(),
            string@ == Seq::<char>::empty(),
            string.spec_bytes() == Seq::<u8>::empty(),
            same_footing::<u8, S>(storage, string.spec_vec().spec_storage()),
    {
        let string = RawString { vec: RawVec::new(storage) };
        proof {
            assert(decode_utf8(Seq::<u8>::empty()) =~= Seq::<char>::empty());
        }
        string
    }

    /// Creates a new empty string over `storage`, with room for at least
    /// `capacity` bytes.
    ///
    /// A capacity beyond the bound of the storage is not to be asked for.
    /// Where the storage cannot have the memory, nothing is built and the
    /// storage comes back as it was, with the error.
    pub fn with_capacity(storage: S, capacity: usize) -> (result: Result<Self, (StorageError, S)>)
        requires
            storage.wf(),
            capacity <= storage.spec_max_capacity(),
        ensures
            capacity <= storage.guaranteed_capacity() ==> result is Ok,
            match result {
                Ok(string) => {
                    &&& string.wf()
                    &&& string@ == Seq::<char>::empty()
                    &&& string.spec_bytes() == Seq::<u8>::empty()
                    &&& string.spec_vec().spec_capacity() == grown_capacity(
                        storage.slots().len(),
                        capacity as nat,
                    )
                    &&& string.spec_vec().spec_storage().spec_max_capacity()
                        == storage.spec_max_capacity()
                    &&& string.spec_vec().spec_storage().guaranteed_capacity()
                        >= storage.guaranteed_capacity()
                    &&& string.spec_vec().spec_storage().allocations() == storage.allocations()
                        + growth_allocations(storage.slots().len(), capacity as nat)
                    &&& string.spec_vec().spec_storage().deallocations() == storage.deallocations()
                        + growth_deallocations(storage.slots().len(), capacity as nat)
                },
                Err((error, returned)) => {
                    &&& capacity > storage.guaranteed_capacity()
                    &&& error == StorageError::AllocationFailed
                    &&& returned.wf()
                    &&& returned.slots() == storage.slots()
                    &&& same_footing::<u8, S>(storage, returned)
                },
            },
    {
        match RawVec::with_capacity(storage, capacity) {
            Ok(vec) => {
                proof {
                    assert(decode_utf8(Seq::<u8>::empty()) =~= Seq::<char>::empty());
                }
                Ok(RawString { vec })
            },
            Err(failure) => Err(failure),
        }
    }

    /// Creates a string over `storage` that holds the text of `s`, with room
    /// for exactly its bytes where the storage had less.
    ///
    /// Text of more bytes than the bound of the storage allows is not to be
    /// handed in. Where the storage cannot have the memory, nothing is built
    /// and the storage comes back as it was, with the error.
    pub fn from_string(storage: S, s: String) -> (result: Result<Self, (StorageError, S)>)
        requires
            storage.wf(),
            encode_utf8(s@).len() <= storage.spec_max_capacity(),
        ensures
            encode_utf8(s@).len() <= storage.guaranteed_capacity() ==> result is Ok,
            match result {
                Ok(string) => {
                    &&& string.wf()
                    &&& string@ == s@
                    &&& string.spec_bytes() == encode_utf8(s@)
                    &&& string.spec_bytes().len() <= string.spec_vec().spec_capacity()
                    &&& string.spec_vec().spec_capacity() == grown_capacity(
                        storage.slots().len(),
                        encode_utf8(s@).len(),
                    )
                    &&& string.spec_vec().spec_storage().spec_max_capacity()
                        == storage.spec_max_capacity()
                    &&& string.spec_vec().spec_storage().guaranteed_capacity()
                        >= storage.guaranteed_capacity()
                    &&& string.spec_vec().spec_storage().allocations() == storage.allocations()
                        + growth_allocations(storage.slots().len(), encode_utf8(s@).len())
                    &&& string.spec_vec().spec_storage().deallocations() == storage.deallocations()
                        + growth_deallocations(storage.slots().len(), encode_utf8(s@).len())
                },
                Err((error, returned)) => {
                    &&& encode_utf8(s@).len() > storage.guaranteed_capacity()
                    &&& error == StorageError::AllocationFailed
                    &&& returned.wf()
                    &&& returned.slots() == storage.slots()
                    &&& same_footing::<u8, S>(storage, returned)
                },
            },
    {
        let bytes = s.as_str().as_bytes();
        let mut raw_string = match Self::with_capacity(storage, bytes.len()) {
            Ok(raw_string) => raw_string,
            Err(failure) => { return Err(failure); },
        };
        proof {
            lemma_append_encoded(Seq::<u8>::empty(), s@);
            assert(Seq::<u8>::empty() + encode_utf8(s@) =~= encode_utf8(s@));
            assert(Seq::<char>::empty() + s@ =~= s@);
        }
        match raw_string.vec.extend_from_slice(bytes) {
            Ok(()) => Ok(raw_string),
            Err(_) => vstd::pervasive::unreached(),
        }
    }

    /// Appends the text of `string`. On failure the string is left as it
    /// was.
    ///
    /// Text that would take the string beyond the bound of its storage is
    /// not to be appended.
    pub fn push_str(&mut self, string: &str) -> (result: Result<(), StorageError>)
        requires
            old(self).wf(),
            old(self).spec_bytes().len() + encode_utf8(string@).len()
                <= old(self).spec_vec().spec_storage().spec_max_capacity(),
        ensures
            final(self).wf(),
            final(self).spec_bytes().len() <= final(self).spec_vec().spec_capacity(),
            RawVec::<u8, S>::reserved(
                old(self).spec_vec(),
                final(self).spec_vec(),
                encode_utf8(string@).len(),
                result,
            ),
            match result {
                Ok(()) => {
                    &&& final(self)@ == old(self)@ + string@
                    &&& final(self).spec_bytes() == old(self).spec_bytes() + encode_utf8(string@)
                },
                Err(_) => {
                    &&& final(self)@ == old(self)@
                    &&& final(self).spec_bytes() == old(self).spec_bytes()
                },
            },
    {
        proof {
            lemma_append_encoded(self.vec@, string@);
        }
        self.vec.extend_from_slice(string.as_bytes())
    }

    /// The text as a `String` of its own. The bytes are copied out of the
    /// storage and checked once more on the way; being valid UTF-8, they
    /// always pass.
    pub fn to_string(&self) -> (text: String)
        requires
            self.wf(),
        ensures
            text@ == self@,
    {
        match string_from_utf8(self.vec.to_vec()) {
            Some(text) => text,
            None => vstd::pervasive::unreached(),
        }
    }

    /// The length of the text in bytes.
    pub fn len(&self) -> (len: usize)
        requires
            self.wf(),
        ensures
            len == self.spec_bytes().len(),
    {
        self.vec.len()
    }

    /// Whether the string holds no text.
    pub fn is_empty(&self) -> (empty: bool)
        requires
            self.wf(),
        ensures
            empty == (self.spec_bytes().len() == 0),
    {
        self.vec.is_empty()
    }

    /// The number of bytes the string can hold before it has to grow.
    pub fn capacity(&self) -> (capacity: usize)
        requires
            self.wf(),
        ensures
            capacity == self.spec_vec().spec_capacity(),
    {
        self.vec.capacity()
    }

    /// The storage behind the string.
    pub fn storage(&self) -> (storage: &S)
        ensures
            *storage == self.spec_vec().spec_storage(),
    {
        self.vec.storage()
    }

    /// Ends the string and hands out the storage with all its slots empty.
    pub fn into_storage(self) -> (storage: S)
        requires
            self.wf(),
        ensures
            storage.wf(),
            same_footing::<u8, S>(self.spec_vec().spec_storage(), storage),
            forall|i: int| 0 <= i < storage.slots().len() ==> storage.slots()[i] is None,
    {
        self.vec.into_storage()
    }
}

impl<const N: usize> Default for RawString<SingleRange<u8, N>> {
    /// An empty string over inline storage of `N` bytes.
    fn default() -> (string: Self)
        ensures
            string.wf(),
            string@ == Seq::<char>::empty(),
            string.spec_bytes() == Seq::<u8>::empty(),
            string.spec_vec().spec_capacity() == N,
            string.spec_vec().spec_storage().spec_max_capacity() == N,
            string.spec_vec().spec_storage().guaranteed_capacity() == N,
    {
        RawString::new(SingleRange::new())
    }
}

} // verus!
