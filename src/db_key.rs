//! Node addresses: fixed-length opaque keys under which nodes are stored and
//! by which nodes refer to each other.
use std::collections::hash_map::RandomState;
use std::hash::BuildHasher;
use vstd::prelude::*;

use crate::error::Error;

verus! {

/// Byte length of every address.
pub const LEN_DB_KEY: usize = 16;

/// Random blocks drawn before giving up on the source.
const MAX_DRAWS: u64 = 8;

/// The all-zero address, which refers to no node.
pub open spec fn zero_key() -> Seq<u8> {
    Seq::new(LEN_DB_KEY as nat, |i: int| 0u8)
}

/// The eight little-endian bytes of `v`.
pub open spec fn word_bytes(v: u64) -> Seq<u8> {
    Seq::new(8, |i: int| ((v >> ((8 * i) as u64)) & 0xff) as u8)
}

/// The address of a node in the store.
#[derive(Clone, Copy, Debug, PartialEq, Eq)]
pub struct DbKey {
    pub key: [u8; LEN_DB_KEY],
}

impl View for DbKey {
    type V = Seq<u8>;

    open spec fn view(&self) -> Seq<u8> {
        self.key@
    }
}

/// Relies on std's `RandomState::new`: the state is initialised with random keys.
#[verifier::external_body]
fn new_random_state() -> RandomState {
    RandomState::new()
}

/// Relies on std's `BuildHasher::hash_one`: a hash of `salt` under the state's random keys.
#[verifier::external_body]
fn keyed_hash(state: &RandomState, salt: u64) -> u64 {
    state.hash_one(salt)
}

impl DbKey {
    /// The reserved address that marks a missing reference (a root's parent).
    pub fn zero() -> (r: DbKey)
        ensures
            r@ == zero_key(),
    {
        let r = DbKey { key: [0u8; LEN_DB_KEY] };
        assert(r@ =~= zero_key());
        r
    }

    /// The address's bytes.
    pub fn key(&self) -> (r: &[u8])
        ensures
            r@ == self@,
    {
        self.key.as_slice()
    }

    pub fn is_zero(&self) -> (r: bool)
        ensures
            r == (self@ == zero_key()),
    {
        let mut i: usize = 0;
        while i < LEN_DB_KEY
            invariant
                i <= LEN_DB_KEY,
                self@.len() == LEN_DB_KEY,
                forall|j: int| 0 <= j < i ==> self@[j] == 0u8,
            decreases LEN_DB_KEY - i,
        {
            if self.key[i] != 0 {
                return false;
            }
            i = i + 1;
        }
        assert(self@ =~= zero_key());
        true
    }

    /// The address held in `bytes`, which must be exactly one address long.
    pub fn from_slice(bytes: &[u8]) -> (r: Result<DbKey, Error>)
        ensures
            r is Ok <==> bytes@.len() == LEN_DB_KEY,
            r matches Ok(k) ==> k@ == bytes@,
            r matches Err(e) ==> e == Error::FormatError,
    {
        if bytes.len() != LEN_DB_KEY {
            return Err(Error::FormatError);
        }
        let mut key = [0u8; LEN_DB_KEY];
        let mut i: usize = 0;
        while i < LEN_DB_KEY
            invariant
                i <= LEN_DB_KEY,
                bytes@.len() == LEN_DB_KEY,
                key@.len() == LEN_DB_KEY,
                forall|j: int| 0 <= j < i ==> key@[j] == bytes@[j],
            decreases LEN_DB_KEY - i,
        {
            key[i] = bytes[i];
            i = i + 1;
        }
        let k = DbKey { key };
        assert(k@ =~= bytes@);
        Ok(k)
    }

    /// True exactly when the two addresses are the same bytes.
    pub fn same(&self, other: &DbKey) -> (r: bool)
        ensures
            r == (self@ == other@),
    {
        let mut i: usize = 0;
        while i < LEN_DB_KEY
            invariant
                i <= LEN_DB_KEY,
                self@.len() == LEN_DB_KEY,
                other@.len() == LEN_DB_KEY,
                forall|j: int| 0 <= j < i ==> self@[j] == other@[j],
            decreases LEN_DB_KEY - i,
        {
            if self.key[i] != other.key[i] {
                return false;
            }
            i = i + 1;
        }
        assert(self@ =~= other@);
        true
    }

    /// The address whose bytes are those of `hi` then `lo`, little-endian.
    pub fn from_words(hi: u64, lo: u64) -> (r: DbKey)
        ensures
            r@ == word_bytes(hi) + word_bytes(lo),
    {
        let mut key = [0u8; LEN_DB_KEY];
        let mut i: usize = 0;
        while i < 8
            invariant
                i <= 8,
                key@.len() == LEN_DB_KEY,
                forall|j: int| 0 <= j < i ==> key@[j] == word_bytes(hi)[j],
                forall|j: int| 0 <= j < i ==> key@[j + 8] == word_bytes(lo)[j],
            decreases 8 - i,
        {
            let shift = (8 * i) as u64;
            key[i] = ((hi >> shift) & 0xff) as u8;
            key[i + 8] = ((lo >> shift) & 0xff) as u8;
            i = i + 1;
        }
        let r = DbKey { key };
        assert forall|j: int| 8 <= j < LEN_DB_KEY implies r@[j] == word_bytes(lo)[j - 8] by {
            assert(r@[(j - 8) + 8] == word_bytes(lo)[j - 8]);
        }
        assert(r@ =~= word_bytes(hi) + word_bytes(lo));
        r
    }

    /// The address made of one random draw of two words; `None` when the
    /// draw is the zero address, which refers to no node.
    pub fn from_draw(hi: u64, lo: u64) -> (r: Option<DbKey>)
        ensures
            r is Some <==> word_bytes(hi) + word_bytes(lo) != zero_key(),
            r matches Some(k) ==> k@ == word_bytes(hi) + word_bytes(lo),
    {
        let k = DbKey::from_words(hi, lo);
        if k.is_zero() {
            None
        } else {
            Some(k)
        }
    }

    /// A fresh address drawn from a random source, neither the zero address
    /// nor `other`. A draw that is either of them is drawn again; `None`
    /// when the source keeps yielding only those, which means it is broken.
    pub fn generate_other_than(other: &DbKey) -> (r: Option<DbKey>)
        ensures
            r matches Some(k) ==> k@ != zero_key() && k@ != other@,
    {
        let state = new_random_state();
        let mut salt: u64 = 0;
        while salt < MAX_DRAWS
            invariant
                salt <= MAX_DRAWS,
            decreases MAX_DRAWS - salt,
        {
            let hi = keyed_hash(&state, 2 * salt);
            let lo = keyed_hash(&state, 2 * salt + 1);
            match DbKey::from_draw(hi, lo) {
                Some(k) => {
                    if !k.same(other) {
                        return Some(k);
                    }
                },
                None => {},
            }
            salt = salt + 1;
        }
        None
    }

    /// A fresh address drawn from a random source, never the zero address;
    /// `None` when the source yields nothing but zero draws.
    pub fn generate() -> (r: Option<DbKey>)
        ensures
            r matches Some(k) ==> k@ != zero_key(),
    {
        DbKey::generate_other_than(&DbKey::zero())
    }
}

} // verus!
