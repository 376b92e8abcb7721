//! The default interner: a hash map from bytes to keys, and the payloads in
//! the order in which they were interned.

use vstd::prelude::*;
use vstd::string::StringExecFns;

use std::marker::PhantomData;
use std::sync::Arc;

use hashbrown::HashMap;
use rustc_hash::FxBuildHasher;

use crate::interning::key::{lemma_index_determines_key, lemma_key_index, TokenKey};
use crate::interning::traits::{
    intern_outcome, token_data_error_message, InternKey, Interner, Resolver, TokenData, TokenDataError,
};

verus! {

/// The hash map of the interner, from the bytes of a payload to its key.
#[verifier::external_body]
pub struct KeyMap {
    map: HashMap<Vec<u8>, TokenKey, FxBuildHasher>,
}

/// What a `KeyMap` holds: for each interned byte string, the index of its key.
pub uninterp spec fn key_map_contents(m: KeyMap) -> Map<Seq<u8>, u32>;

/// Calls `hashbrown::HashMap::default` with the hasher of `rustc_hash`: the
/// new map is empty.
#[verifier::external_body]
fn key_map_new() -> (fresh: KeyMap)
    ensures
        key_map_contents(fresh).dom() == Set::<Seq<u8>>::empty(),
{
    KeyMap { map: HashMap::default() }
}

/// Calls `hashbrown::HashMap::get` with a byte slice: it finds the key stored
/// under equal bytes, if there is one.
#[verifier::external_body]
fn key_map_get(m: &KeyMap, bytes: &[u8]) -> (r: Option<TokenKey>)
    ensures
        r is Some <==> key_map_contents(*m).dom().contains(bytes@),
        r matches Some(k) ==> k.spec_index() == key_map_contents(*m)[bytes@],
{
    m.map.get(bytes).copied()
}

/// Calls `hashbrown::HashMap::insert` with an owned copy of `bytes`: the map
/// then holds `key` under those bytes and is otherwise unchanged.
#[verifier::external_body]
fn key_map_insert(m: &mut KeyMap, bytes: &[u8], key: TokenKey)
    ensures
        key_map_contents(*final(m)) == key_map_contents(*old(m)).insert(bytes@, key.spec_index()),
{
    m.map.insert(bytes.to_vec(), key);
}

/// Why the default interner could not intern a payload.
#[derive(Debug, Clone, PartialEq, Eq)]
pub enum InternerError {
    /// Every key is in use.
    KeySpaceExhausted,
    /// The bytes did not decode as a payload.
    InvalidData(TokenDataError),
}

impl InternerError {
    /// The message describing this error.
    pub fn message(&self) -> (r: String)
        ensures
            r@ == interner_error_message(*self),
    {
        match self {
            InternerError::KeySpaceExhausted => {
                proof {
                    reveal_strlit("key space exhausted");
                }
                String::from_str("key space exhausted")
            },
            InternerError::InvalidData(e) => e.message(),
        }
    }
}

/// The message of an interner error.
pub open spec fn interner_error_message(e: InternerError) -> Seq<char> {
    match e {
        InternerError::KeySpaceExhausted => "key space exhausted"@,
        InternerError::InvalidData(d) => token_data_error_message(d),
    }
}

/// The number of keys the default interner can hand out.
pub const N_INDICES: usize = 0xffff_ffff;

/// The default interner of token payloads. Each distinct byte string is
/// stored once; its key is the position at which it was first interned.
pub struct TokenInterner<Data: TokenData + ?Sized> {
    keys: KeyMap,
    values: Vec<Data::Owned>,
    _data: PhantomData<Box<Data>>,
}

impl<Data: TokenData + ?Sized> TokenInterner<Data> {
    /// The map and the payloads agree: the payload at position `i` has the
    /// bytes mapped to `i`, and every mapped byte string is at its position.
    #[verifier::type_invariant]
    spec fn inv(self) -> bool {
        let m = key_map_contents(self.keys);
        &&& self.values.len() <= N_INDICES
        &&& forall|b: Seq<u8>| #[trigger]
            m.dom().contains(b) ==> {
                &&& m[b] < self.values.len()
                &&& Data::spec_owned_bytes(self.values@[m[b] as int]) == b
            }
        &&& forall|i: int|
            0 <= i < self.values.len() ==> {
                &&& m.dom().contains(#[trigger] Data::spec_owned_bytes(self.values@[i]))
                &&& m[Data::spec_owned_bytes(self.values@[i])] == i
            }
    }

    /// The bytes of the payloads, in the order they were interned.
    pub closed spec fn spec_payloads(&self) -> Seq<Seq<u8>> {
        self.values@.map_values(|o: Data::Owned| Data::spec_owned_bytes(o))
    }

    /// An empty interner.
    pub fn new() -> (r: Self)
        ensures
            r.spec_payloads() == Seq::<Seq<u8>>::empty(),
            r.spec_payloads().no_duplicates(),
    {
        let r = TokenInterner { keys: key_map_new(), values: Vec::new(), _data: PhantomData };
        proof {
            assert(r.spec_payloads() =~= Seq::<Seq<u8>>::empty());
        }
        r
    }

    /// The number of interned payloads.
    pub fn len(&self) -> (r: usize)
        ensures
            r == self.spec_payloads().len(),
    {
        self.values.len()
    }

    /// Whether nothing has been interned.
    pub fn is_empty(&self) -> (r: bool)
        ensures
            r == (self.spec_payloads().len() == 0),
    {
        self.values.len() == 0
    }
}

impl<Data: TokenData + ?Sized> Resolver<TokenKey, Data> for TokenInterner<Data> {
    open spec fn spec_lookup(&self, key: TokenKey) -> Option<Seq<u8>> {
        if key.spec_index() < self.spec_payloads().len() {
            Some(self.spec_payloads()[key.spec_index() as int])
        } else {
            None
        }
    }

    fn try_resolve(&self, key: TokenKey) -> (r: Option<&Data>) {
        let index = key.into_u32() as usize;
        if index < self.values.len() {
            Some(Data::borrow_owned(&self.values[index]))
        } else {
            None
        }
    }
}

impl<Data: TokenData + ?Sized> Resolver<TokenKey, Data> for Arc<TokenInterner<Data>> {
    open spec fn spec_lookup(&self, key: TokenKey) -> Option<Seq<u8>> {
        (**self).spec_lookup(key)
    }

    fn try_resolve(&self, key: TokenKey) -> (r: Option<&Data>) {
        let interner: &TokenInterner<Data> = self;
        interner.try_resolve(key)
    }
}

impl<Data: TokenData + ?Sized> Interner<TokenKey, Data> for TokenInterner<Data> {
    type Error = InternerError;

    open spec fn spec_can_intern(&self, bytes: Seq<u8>) -> bool {
        ||| self.spec_payloads().contains(bytes)
        ||| (self.spec_payloads().len() < N_INDICES && Data::spec_decode(bytes) is Ok)
    }

    fn try_get_or_intern(&mut self, data: &Data) -> (r: Result<TokenKey, InternerError>)
        ensures
            old(self).spec_payloads().contains(data.spec_data_bytes()) ==> r is Ok,
            old(self).spec_payloads().len() < N_INDICES && Data::spec_decode(data.spec_data_bytes()) is Ok ==> r is Ok,
            r matches Err(e) ==> e == intern_error::<Data>(old(self).spec_payloads(), data.spec_data_bytes()),
            final(self).spec_payloads().no_duplicates(),
            r is Ok ==> final(self).spec_payloads() == (if old(self).spec_payloads().contains(data.spec_data_bytes()) {
                old(self).spec_payloads()
            } else {
                old(self).spec_payloads().push(data.spec_data_bytes())
            }),
    {
        self.try_get_or_intern_bytes(data.as_bytes())
    }

    fn try_get_or_intern_bytes(&mut self, bytes: &[u8]) -> (r: Result<TokenKey, InternerError>)
        ensures
            old(self).spec_payloads().contains(bytes@) ==> r is Ok,
            old(self).spec_payloads().len() < N_INDICES && Data::spec_decode(bytes@) is Ok ==> r is Ok,
            r matches Err(e) ==> e == intern_error::<Data>(old(self).spec_payloads(), bytes@),
            r is Err ==> *final(self) == *old(self),
            final(self).spec_payloads().no_duplicates(),
            r is Ok ==> final(self).spec_payloads() == (if old(self).spec_payloads().contains(bytes@) {
                old(self).spec_payloads()
            } else {
                old(self).spec_payloads().push(bytes@)
            }),
    {
        proof {
            use_type_invariant(&*self);
        }
        let ghost before = *self;
        let ghost payloads = self.spec_payloads();
        let ghost m = key_map_contents(self.keys);
        match key_map_get(&self.keys, bytes) {
            Some(key) => {
                proof {
                    let i = m[bytes@] as int;
                    assert(payloads[i] == bytes@);
                    assert(payloads.contains(bytes@));
                    assert forall|k: TokenKey| #[trigger] before.spec_lookup(k) == Some(bytes@) implies k == key by {
                        let j = k.spec_index() as int;
                        assert(payloads[j] == bytes@);
                        assert(m[Data::spec_owned_bytes(self.values@[j])] == j);
                        lemma_index_determines_key(k, key);
                    }
                }
                return Ok(key);
            },
            None => {},
        }
        proof {
            assert forall|i: int| 0 <= i < payloads.len() implies payloads[i] != bytes@ by {
                assert(m.dom().contains(Data::spec_owned_bytes(self.values@[i])));
            }
            assert(!payloads.contains(bytes@));
        }
        if self.values.len() >= N_INDICES {
            return Err(InternerError::KeySpaceExhausted);
        }
        let owned = match Data::from_bytes(bytes) {
            Ok(o) => o,
            Err(e) => {
                return Err(InternerError::InvalidData(e));
            },
        };
        let index = self.values.len();
        let raw_key = index as u32;
        let key = match TokenKey::try_from_u32(raw_key) {
            Some(k) => k,
            None => {
                return Err(InternerError::KeySpaceExhausted);
            },
        };
        proof {
            lemma_key_index(raw_key);
        }
        let mut taken = TokenInterner::<Data>::new();
        std::mem::swap(self, &mut taken);
        let TokenInterner { keys: mut keys, values: mut values, _data } = taken;
        values.push(owned);
        key_map_insert(&mut keys, bytes, key);
        proof {
            let m2 = key_map_contents(keys);
            assert(m2 == m.insert(bytes@, raw_key));
            assert(values@ == before.values@.push(owned));
            assert forall|b: Seq<u8>| #[trigger] m2.dom().contains(b) implies m2[b] < values.len()
                && Data::spec_owned_bytes(values@[m2[b] as int]) == b by {
                if b != bytes@ {
                    assert(m.dom().contains(b));
                }
            }
            assert forall|i: int| 0 <= i < values.len() implies m2.dom().contains(
                #[trigger] Data::spec_owned_bytes(values@[i]),
            ) && m2[Data::spec_owned_bytes(values@[i])] == i by {
                if i < before.values.len() {
                    assert(values@[i] == before.values@[i]);
                    assert(payloads[i] != bytes@);
                }
            }
        }
        *self = TokenInterner { keys, values, _data };
        proof {
            assert(self.spec_payloads() =~= payloads.push(bytes@));
            assert forall|k: TokenKey| #[trigger] before.spec_lookup(k) is Some implies self.spec_lookup(k)
                == before.spec_lookup(k) by {
            }
            assert forall|k: TokenKey| #[trigger] before.spec_lookup(k) == Some(bytes@) implies Ok::<
                TokenKey,
                InternerError,
            >(k) == Ok::<TokenKey, InternerError>(key) by {
                assert(payloads[k.spec_index() as int] == bytes@);
            }
        }
        Ok(key)
    }
}

/// The error of interning `bytes` into an interner holding `payloads`, where
/// interning fails: the key space is exhausted, or else the bytes are no
/// payload.
pub open spec fn intern_error<Data: TokenData + ?Sized>(payloads: Seq<Seq<u8>>, bytes: Seq<u8>) -> InternerError {
    if payloads.len() >= N_INDICES {
        InternerError::KeySpaceExhausted
    } else {
        match Data::spec_decode(bytes) {
            Err(e) => InternerError::InvalidData(e),
            Ok(_) => InternerError::KeySpaceExhausted,
        }
    }
}


/// The default interner takes any payload while it has free keys: interning
/// succeeds for bytes interned before, and for any bytes that decode as a
/// payload while fewer than `N_INDICES` payloads are interned, whatever their
/// length.
pub proof fn lemma_interning_succeeds<Data: TokenData + ?Sized>(i: TokenInterner<Data>, bytes: Seq<u8>)
    requires
        i.spec_payloads().contains(bytes) || (i.spec_payloads().len() < N_INDICES && Data::spec_decode(bytes) is Ok),
    ensures
        i.spec_can_intern(bytes),
{
}

/// Interning fails only for new bytes, and then only when every key is taken
/// or the bytes do not decode as a payload.
pub proof fn lemma_interning_fails_only<Data: TokenData + ?Sized>(i: TokenInterner<Data>, bytes: Seq<u8>)
    requires
        !i.spec_can_intern(bytes),
    ensures
        !i.spec_payloads().contains(bytes),
        i.spec_payloads().len() >= N_INDICES || Data::spec_decode(bytes) is Err,
{
}

} // verus!
