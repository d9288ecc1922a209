use vstd::prelude::*;

verus! {

/// Number of bytes in an account identifier.
pub const ACCOUNT_ID_LEN: usize = 32;

/// Opaque fixed-size identifier of a balance holder, handed in by the host.
#[derive(Clone, Copy, Debug)]
pub struct AccountId(pub [u8; 32]);

impl View for AccountId {
    type V = Seq<u8>;

    open spec fn view(&self) -> Seq<u8> {
        self.0@
    }
}

impl AccountId {
    /// Builds an identifier from its raw bytes.
    pub fn from_bytes(bytes: [u8; 32]) -> (r: AccountId)
        ensures
            r@ == bytes@,
    {
        AccountId(bytes)
    }

    /// Compares two identifiers byte by byte.
    pub fn same_as(&self, other: &AccountId) -> (r: bool)
        ensures
            r == (self@ == other@),
    {
        let mut i: usize = 0;
        while i < ACCOUNT_ID_LEN
            invariant
                0 <= i <= ACCOUNT_ID_LEN,
                self@.len() == ACCOUNT_ID_LEN,
                other@.len() == ACCOUNT_ID_LEN,
                forall|j: int| 0 <= j < i ==> self@[j] == other@[j],
            decreases ACCOUNT_ID_LEN - i,
        {
            if self.0[i] != other.0[i] {
                return false;
            }
            i = i + 1;
        }
        assert(self@ =~= other@);
        true
    }
}

impl PartialEq for AccountId {
    fn eq(&self, other: &AccountId) -> (r: bool) {
        self.same_as(other)
    }
}

impl Eq for AccountId {
}

impl vstd::std_specs::cmp::PartialEqSpecImpl for AccountId {
    open spec fn obeys_eq_spec() -> bool {
        true
    }

    open spec fn eq_spec(&self, other: &AccountId) -> bool {
        self@ == other@
    }
}

} // verus!
