use vstd::prelude::*;

verus! {

/// A program or account identity: an opaque token compared byte for byte.
#[derive(Debug, Clone, PartialEq, Eq)]
pub struct Pubkey {
    pub bytes: Vec<u8>,
}

impl View for Pubkey {
    type V = Seq<u8>;

    open spec fn view(&self) -> Seq<u8> {
        self.bytes@
    }
}

impl DeepView for Pubkey {
    type V = Seq<u8>;

    open spec fn deep_view(&self) -> Seq<u8> {
        self.bytes@
    }
}

/// Compares two identities byte for byte.
pub fn pubkey_eq(a: &Pubkey, b: &Pubkey) -> (r: bool)
    ensures
        r == (a@ == b@),
{
    if a.bytes.len() != b.bytes.len() {
        return false;
    }
    let n = a.bytes.len();
    let mut i: usize = 0;
    while i < n
        invariant
            0 <= i <= n,
            n == a@.len() == b@.len(),
            forall|j: int| 0 <= j < i ==> a@[j] == b@[j],
        decreases n - i,
    {
        if a.bytes[i] != b.bytes[i] {
            return false;
        }
        i = i + 1;
    }
    proof {
        assert(a@ =~= b@);
    }
    true
}

/// Mathematical view of an [`Account`].
#[verifier::ext_equal]
pub struct AccountView {
    pub owner: Seq<u8>,
    pub is_signer: bool,
    pub data: Seq<u8>,
}

/// A ledger account as this core sees it: an owning-program identity, a
/// signer flag, and a fixed-capacity mutable byte buffer. Allocation and
/// rent funding happen before invocation; this core never grows the buffer.
#[derive(Debug, Clone)]
pub struct Account {
    pub owner: Pubkey,
    pub is_signer: bool,
    pub data: Vec<u8>,
}

impl View for Account {
    type V = AccountView;

    open spec fn view(&self) -> AccountView {
        AccountView { owner: self.owner@, is_signer: self.is_signer, data: self.data@ }
    }
}

impl DeepView for Account {
    type V = AccountView;

    open spec fn deep_view(&self) -> AccountView {
        self@
    }
}

} // verus!
