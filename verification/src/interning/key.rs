//! The key type of the default interner.

use vstd::prelude::*;

use crate::interning::traits::InternKey;

verus! {

/// The key of an interned token payload: an index below `u32::MAX`.
#[derive(Clone, Copy, Debug, PartialEq, Eq, Hash)]
pub struct TokenKey {
    index: u32,
}

impl TokenKey {
    #[verifier::type_invariant]
    spec fn inv(self) -> bool {
        self.index < u32::MAX
    }

    /// The index this key stands for.
    pub closed spec fn spec_index(self) -> u32 {
        self.index
    }

    /// The key for index `raw`, below `u32::MAX`.
    pub closed spec fn spec_key(raw: u32) -> TokenKey {
        TokenKey { index: raw }
    }
}

/// A key is determined by its index.
pub proof fn lemma_index_determines_key(a: TokenKey, b: TokenKey)
    requires
        a.spec_index() == b.spec_index(),
    ensures
        a == b,
{
}

/// The key for an index has that index.
pub proof fn lemma_key_index(raw: u32)
    ensures
        TokenKey::spec_key(raw).spec_index() == raw,
{
}

impl InternKey for TokenKey {
    open spec fn spec_into_u32(self) -> u32 {
        self.spec_index()
    }

    open spec fn spec_is_key(raw: u32) -> bool {
        raw < u32::MAX
    }

    open spec fn spec_from_u32(raw: u32) -> TokenKey {
        TokenKey::spec_key(raw)
    }

    fn into_u32(self) -> (r: u32) {
        proof {
            use_type_invariant(self);
        }
        self.index
    }

    fn try_from_u32(key: u32) -> (r: Option<TokenKey>) {
        if key < u32::MAX {
            Some(TokenKey { index: key })
        } else {
            None
        }
    }

    proof fn lemma_key_roundtrip(k: TokenKey) {
    }

    proof fn lemma_u32_roundtrip(raw: u32) {
    }
}

} // verus!
