//! TLS client options, and the protocol names they announce.

use vstd::prelude::*;

verus! {

broadcast use vstd::string::group_string_axioms;

/// Whether the client skips certificate checks, and the protocols it offers.
#[derive(Debug, Default)]
pub struct ClientOptions {
    pub is_insecure: bool,
    pub alpn: Option<Vec<String>>,
}

/// The certificate verifier that accepts every certificate.
#[derive(Debug, Default)]
pub struct SuperDanVer {}

/// The protocol names as the bytes sent on the wire: each name's UTF-8
/// bytes, in order.
pub fn alpn_protocols(names: &Vec<String>) -> (r: Vec<Vec<u8>>)
    ensures
        r@.len() == names@.len(),
        forall|i: int| 0 <= i < names@.len() ==> (#[trigger] r@[i])@ == vstd::utf8::encode_utf8(names@[i]@),
{
    let mut r: Vec<Vec<u8>> = Vec::new();
    let mut i: usize = 0;
    while i < names.len()
        invariant
            i <= names@.len(),
            r@.len() == i,
            forall|j: int| 0 <= j < i ==> (#[trigger] r@[j])@ == vstd::utf8::encode_utf8(names@[j]@),
        decreases names@.len() - i,
    {
        let b = vstd::slice::slice_to_vec(names[i].as_str().as_bytes());
        r.push(b);
        i = i + 1;
    }
    r
}

impl ClientOptions {
    /// The protocol bytes the client announces, when it names any.
    pub fn alpn_bytes(&self) -> (r: Option<Vec<Vec<u8>>>)
        ensures
            self.alpn is None ==> r is None,
            self.alpn matches Some(names) ==> (r matches Some(v) && v@.len() == names@.len()
                && forall|i: int| 0 <= i < names@.len() ==> (#[trigger] v@[i])@ == vstd::utf8::encode_utf8(names@[i]@)),
    {
        match &self.alpn {
            Some(names) => Some(alpn_protocols(names)),
            None => None,
        }
    }
}

} // verus!
