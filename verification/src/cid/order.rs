//! The order of CIDs, which is that of their binary forms.

use crate::bytes::bytes_lt;
use crate::cid::{cid_bytes, CidGeneric};
use core::cmp::Ordering;
use vstd::prelude::*;

verus! {

impl<const S: usize> PartialOrd for CidGeneric<S> {
    fn partial_cmp(&self, other: &Self) -> (r: Option<Ordering>) {
        let order = self.byte_order(other);
        if order == 0 {
            Some(Ordering::Equal)
        } else if order == -1 {
            Some(Ordering::Less)
        } else {
            Some(Ordering::Greater)
        }
    }
}

impl<const S: usize> vstd::std_specs::cmp::PartialOrdSpecImpl for CidGeneric<S> {
    open spec fn obeys_partial_cmp_spec() -> bool {
        true
    }

    /// CIDs that say the same are equal; of two others the one whose binary
    /// form comes first in the order of byte strings is the lesser.
    open spec fn partial_cmp_spec(&self, other: &Self) -> Option<Ordering> {
        if self@ == other@ {
            Some(Ordering::Equal)
        } else if bytes_lt(cid_bytes(self@), cid_bytes(other@)) {
            Some(Ordering::Less)
        } else {
            Some(Ordering::Greater)
        }
    }
}

} // verus!
