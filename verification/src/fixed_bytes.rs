//! Byte strings of a fixed length: transaction hashes and account addresses.

use vstd::prelude::*;

verus! {

/// A string of exactly `N` bytes.
#[derive(Clone, Copy, Debug)]
pub struct FixedBytes<const N: usize> {
    pub bytes: [u8; N],
}

/// The hash of a transaction.
pub type TxHash = FixedBytes<32>;

/// The address of an account.
pub type Address = FixedBytes<20>;

impl<const N: usize> View for FixedBytes<N> {
    type V = Seq<u8>;

    open spec fn view(&self) -> Seq<u8> {
        self.bytes@
    }
}

impl<const N: usize> PartialEq for FixedBytes<N> {
    fn eq(&self, other: &Self) -> (r: bool) {
        let mut i: usize = 0;
        while i < N
            invariant
                0 <= i <= N,
                forall|j: int| 0 <= j < i ==> self.bytes@[j] == other.bytes@[j],
            decreases N - i,
        {
            if self.bytes[i] != other.bytes[i] {
                return false;
            }
            i = i + 1;
        }
        assert(self.bytes =~= other.bytes);
        true
    }
}

impl<const N: usize> vstd::std_specs::cmp::PartialEqSpecImpl for FixedBytes<N> {
    open spec fn obeys_eq_spec() -> bool {
        true
    }

    open spec fn eq_spec(&self, other: &Self) -> bool {
        *self == *other
    }
}

impl<const N: usize> Eq for FixedBytes<N> {

}

} // verus!
