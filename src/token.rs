use vstd::prelude::*;
use vstd::string::StringSliceAdditionalSpecFns;

verus! {

/// What the chain needs of a token: equality and duplication, both read
/// through the token's view, so that contracts can speak of tokens as values.
pub trait Token: Sized + View {
    /// Whether two tokens are equal.
    fn same(&self, other: &Self) -> (r: bool)
        ensures
            r == (self@ == other@),
    ;

    /// A copy of the token.
    fn duplicate(&self) -> (r: Self)
        ensures
            r@ == self@,
    ;
}

impl Token for String {
    fn same(&self, other: &Self) -> (r: bool) {
        String::eq(self, other)
    }

    fn duplicate(&self) -> (r: Self) {
        self.clone()
    }
}

impl<'a> Token for &'a str {
    fn same(&self, other: &Self) -> (r: bool) {
        let a: &[u8] = self.as_bytes();
        let b: &[u8] = other.as_bytes();
        if a.len() != b.len() {
            proof {
                vstd::utf8::encode_utf8_decode_utf8((**self)@);
                vstd::utf8::encode_utf8_decode_utf8((**other)@);
            }
            return false;
        }
        let mut i: usize = 0;
        while i < a.len()
            invariant
                a.len() == b.len(),
                a@ == (**self).spec_bytes(),
                b@ == (**other).spec_bytes(),
                0 <= i <= a.len(),
                forall|j: int| 0 <= j < i ==> a@[j] == b@[j],
            decreases a.len() - i,
        {
            if a[i] != b[i] {
                proof {
                    vstd::utf8::encode_utf8_decode_utf8((**self)@);
                    vstd::utf8::encode_utf8_decode_utf8((**other)@);
                }
                return false;
            }
            i = i + 1;
        }
        proof {
            assert(a@ =~= b@);
            vstd::utf8::encode_utf8_decode_utf8((**self)@);
            vstd::utf8::encode_utf8_decode_utf8((**other)@);
        }
        true
    }

    fn duplicate(&self) -> (r: Self) {
        *self
    }
}

impl Token for char {
    fn same(&self, other: &Self) -> (r: bool) {
        *self == *other
    }

    fn duplicate(&self) -> (r: Self) {
        *self
    }
}

impl Token for u64 {
    fn same(&self, other: &Self) -> (r: bool) {
        *self == *other
    }

    fn duplicate(&self) -> (r: Self) {
        *self
    }
}

} // verus!
