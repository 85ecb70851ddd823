//! Case-insensitive header names.
//!
//! WARC header names are case-insensitive on the wire, but producers write
//! them in mixed case (`WARC-Type`, `Content-Length`). [`CaseString`] folds
//! ASCII case once, on construction, so that the header mapping can compare
//! keys byte for byte and a mixed-case key can never reach a lookup site.

use vstd::prelude::*;

use crate::ascii::{fold_byte, fold_seq};
use vstd::std_specs::cmp::PartialEqSpec;

verus! {

/// A byte string stored in ASCII-lowercased form.
///
/// Two `CaseString`s are equal exactly when the texts they were built from
/// are ASCII-case-insensitively equal. The view of a `CaseString` is its
/// stored (folded) byte sequence.
#[derive(Eq, Hash, Debug)]
pub struct CaseString {
    inner: Vec<u8>,
}

impl View for CaseString {
    type V = Seq<u8>;

    closed spec fn view(&self) -> Seq<u8> {
        self.inner@
    }
}

impl CaseString {
    /// Build a `CaseString` from raw text; every ASCII uppercase letter is
    /// folded to lowercase, all other bytes are kept unchanged.
    pub fn from(s: Vec<u8>) -> (r: CaseString)
        ensures
            r@ == fold_seq(s@),
    {
        let mut s = s;
        let ghost orig = s@;
        let n = s.len();
        let mut i: usize = 0;
        while i < n
            invariant
                i <= n == s@.len() == orig.len(),
                forall|j: int| 0 <= j < i ==> s@[j] == fold_byte(#[trigger] orig[j]),
                forall|j: int| i <= j < n ==> s@[j] == #[trigger] orig[j],
            decreases n - i,
        {
            let b = s[i];
            if 65 <= b && b <= 90 {
                s.set(i, b + 32);
            }
            i = i + 1;
        }
        assert(s@ =~= fold_seq(orig));
        CaseString { inner: s }
    }

    /// The stored, case-folded form.
    pub fn to_string(self) -> (r: Vec<u8>)
        ensures
            r@ == self@,
    {
        self.inner
    }
}

/// Two `CaseString`s are equal exactly when the texts they were built
/// from are ASCII-case-insensitively equal.
pub proof fn lemma_eq_iff_case_insensitive(x: CaseString, y: CaseString, a: Seq<u8>, b: Seq<u8>)
    requires
        x@ == fold_seq(a),
        y@ == fold_seq(b),
    ensures
        x.eq_spec(&y) <==> fold_seq(a) == fold_seq(b),
{
}

impl PartialEq for CaseString {
    fn eq(&self, other: &Self) -> bool {
        let r = self.inner == other.inner;
        proof {
            if r {
                assert(self.inner@ =~= other.inner@);
            }
        }
        r
    }
}

impl vstd::std_specs::cmp::PartialEqSpecImpl for CaseString {
    open spec fn obeys_eq_spec() -> bool {
        true
    }

    open spec fn eq_spec(&self, other: &Self) -> bool {
        self@ == other@
    }
}

} // verus!
