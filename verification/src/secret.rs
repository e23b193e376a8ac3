//! Secrets and their comparison.

use vstd::prelude::*;
use vstd::string::*;

verus! {

/// Represents a secret value that should not be exposed in logs or debug output.
pub struct Secret {
    value: String,
}

impl Clone for Secret {
    fn clone(&self) -> (r: Self)
        ensures
            r == *self,
    {
        Secret { value: self.value.clone() }
    }
}

impl View for Secret {
    type V = Seq<char>;

    closed spec fn view(&self) -> Seq<char> {
        self.value@
    }
}

impl Secret {
    /// Creates a new `Secret`.
    pub fn new(value: String) -> (r: Self)
        ensures
            r@ == value@,
    {
        Secret { value }
    }

    /// Returns the secret value.
    pub fn secret(&self) -> (r: &str)
        ensures
            r@ == self@,
    {
        self.value.as_str()
    }
}

/// Whether two strings are equal. Strings of the same length are compared to the end, whether
/// or not they differ early.
fn equal_to_the_end(a: &str, b: &str) -> (r: bool)
    ensures
        r == (a@ == b@),
{
    let x: &[u8] = a.as_bytes();
    let y: &[u8] = b.as_bytes();
    proof {
        vstd::utf8::encode_utf8_decode_utf8(a@);
        vstd::utf8::encode_utf8_decode_utf8(b@);
    }
    if x.len() != y.len() {
        return false;
    }
    let mut difference: u8 = 0;
    let mut i: usize = 0;
    while i < x.len()
        invariant
            i <= x@.len(),
            x@.len() == y@.len(),
            difference == 0 <==> forall|k: int| 0 <= k < i ==> x@[k] == y@[k],
        decreases x@.len() - i,
    {
        let p: u8 = x[i];
        let q: u8 = y[i];
        let d0: u8 = difference;
        difference = d0 | (p ^ q);
        assert(((d0 | (p ^ q)) == 0u8) <==> (d0 == 0u8 && p == q)) by (bit_vector);
        i = i + 1;
    }
    proof {
        if difference == 0 {
            assert(x@ =~= y@);
        }
    }
    difference == 0
}

impl PartialEq for Secret {
    fn eq(&self, other: &Self) -> (r: bool) {
        equal_to_the_end(self.secret(), other.secret())
    }
}

impl vstd::std_specs::cmp::PartialEqSpecImpl for Secret {
    open spec fn obeys_eq_spec() -> bool {
        true
    }

    open spec fn eq_spec(&self, other: &Self) -> bool {
        self@ == other@
    }
}

impl Eq for Secret {

}

impl From<String> for Secret {
    fn from(value: String) -> (r: Self) {
        Secret { value }
    }
}

impl vstd::std_specs::convert::FromSpecImpl<String> for Secret {
    open spec fn obeys_from_spec() -> bool {
        true
    }

    closed spec fn from_spec(value: String) -> Self {
        Secret { value }
    }
}

} // verus!
