//! Digest equality and order: byte equality and lexicographic byte order.

use vstd::prelude::*;

use core::cmp::Ordering;

use crate::cbor::value::spec_lex_lt;
use crate::digest::Digest;
use crate::types::reader::bytes_lt;

verus! {

impl PartialEq for Digest {
    fn eq(&self, other: &Self) -> (res: bool) {
        let a = self.as_bytes();
        let b = other.as_bytes();
        let res = !bytes_lt(a, b) && !bytes_lt(b, a);
        proof {
            crate::cbor::keys::lemma_lex_total(a@, b@);
            crate::cbor::keys::lemma_lex_irreflexive(a@);
        }
        res
    }
}

impl vstd::std_specs::cmp::PartialEqSpecImpl for Digest {
    open spec fn obeys_eq_spec() -> bool {
        true
    }

    open spec fn eq_spec(&self, other: &Digest) -> bool {
        self@ == other@
    }
}

impl PartialOrd for Digest {
    fn partial_cmp(&self, other: &Self) -> (res: Option<Ordering>) {
        let a = self.as_bytes();
        let b = other.as_bytes();
        proof {
            crate::cbor::keys::lemma_lex_total(a@, b@);
        }
        if bytes_lt(a, b) {
            Some(Ordering::Less)
        } else if bytes_lt(b, a) {
            Some(Ordering::Greater)
        } else {
            Some(Ordering::Equal)
        }
    }
}

impl vstd::std_specs::cmp::PartialOrdSpecImpl for Digest {
    open spec fn obeys_partial_cmp_spec() -> bool {
        true
    }

    open spec fn partial_cmp_spec(&self, other: &Digest) -> Option<Ordering> {
        if spec_lex_lt(self@, other@) {
            Some(Ordering::Less)
        } else if spec_lex_lt(other@, self@) {
            Some(Ordering::Greater)
        } else {
            Some(Ordering::Equal)
        }
    }
}

/// Digests are equal exactly when their bytes are, and ordered exactly as
/// their bytes are, lexicographically.
pub proof fn lemma_digest_order(a: Digest, b: Digest)
    ensures
        vstd::std_specs::cmp::PartialEqSpec::eq_spec(&a, &b) <==> a@ == b@,
        vstd::std_specs::cmp::PartialOrdSpec::partial_cmp_spec(&a, &b) == Some(Ordering::Less) <==> spec_lex_lt(a@, b@),
        vstd::std_specs::cmp::PartialOrdSpec::partial_cmp_spec(&a, &b) == Some(Ordering::Equal) <==> a@ == b@,
{
    crate::cbor::keys::lemma_lex_total(a@, b@);
    crate::cbor::keys::lemma_lex_irreflexive(a@);
    if spec_lex_lt(b@, a@) {
        crate::cbor::keys::lemma_lex_asymmetric(b@, a@);
    }
}

} // verus!
