use vstd::prelude::*;
use vstd::string::StringSliceAdditionalSpecFns;
use crate::position::{PosModel, Position};
use crate::token_types::TokenTypes;

verus! {

/// One lexical unit: its kind, the literal bytes it was read from (empty for
/// punctuation), and the span it occupies in the source buffer.
#[derive(Debug)]
pub struct Token {
    pub tok_type: TokenTypes,
    pub tok_value: Vec<u8>,
    pub pos_start: Position,
    pub pos_end: Position,
}

/// The mathematical shadow of a `Token`.
pub ghost struct TokenModel {
    pub kind: TokenTypes,
    pub text: Seq<u8>,
    pub start: PosModel,
    pub end: PosModel,
}

impl View for Token {
    type V = TokenModel;

    open spec fn view(&self) -> TokenModel {
        TokenModel {
            kind: self.tok_type,
            text: self.tok_value@,
            start: self.pos_start@,
            end: self.pos_end@,
        }
    }
}

/// Byte-for-byte equality of a byte vector and a slice.
pub fn bytes_eq(a: &Vec<u8>, b: &[u8]) -> (r: bool)
    ensures
        r == (a@ == b@),
{
    if a.len() != b.len() {
        assert(a@ != b@);
        return false;
    }
    let n = a.len();
    let mut i: usize = 0;
    while i < n
        invariant
            n == a@.len() == b@.len(),
            0 <= i <= n,
            forall|k: int| 0 <= k < i ==> a@[k] == b@[k],
        decreases n - i,
    {
        if a[i] != b[i] {
            assert(a@ != b@);
            return false;
        }
        i = i + 1;
    }
    assert(a@ =~= b@);
    true
}

impl Token {
    /// True exactly when the token has the given kind and its literal bytes
    /// spell the given text.
    pub fn matches(&self, name: TokenTypes, value: &str) -> (r: bool)
        ensures
            r == (self.tok_type == name && self.tok_value@ == value.spec_bytes()),
    {
        self.tok_type == name && bytes_eq(&self.tok_value, value.as_bytes())
    }

    /// An independent copy of the token.
    pub fn snapshot(&self) -> (t: Token)
        ensures
            t@ == self@,
    {
        let mut text: Vec<u8> = Vec::new();
        let n = self.tok_value.len();
        let mut i: usize = 0;
        while i < n
            invariant
                n == self.tok_value@.len(),
                0 <= i <= n,
                text@ == self.tok_value@.subrange(0, i as int),
            decreases n - i,
        {
            text.push(self.tok_value[i]);
            assert(text@ =~= self.tok_value@.subrange(0, (i + 1) as int));
            i = i + 1;
        }
        assert(text@ =~= self.tok_value@);
        Token {
            tok_type: self.tok_type,
            tok_value: text,
            pos_start: self.pos_start,
            pos_end: self.pos_end,
        }
    }
}

} // verus!
