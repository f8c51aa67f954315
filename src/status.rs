use vstd::prelude::*;
use vstd::string::StringExecFns;

verus! {

/// The standard, padded base64 text of some bytes.
pub uninterp spec fn standard_base64(b: Seq<u8>) -> Seq<char>;

/// Relies on base64's `Engine::encode` with the `STANDARD` engine: the text
/// depends on the bytes alone.
#[verifier::external_body]
fn encode_base64(bytes: &[u8]) -> (r: String)
    ensures
        r@ == standard_base64(bytes@),
{
    base64::Engine::encode(&base64::prelude::BASE64_STANDARD, bytes)
}

/// The data URI under which a status response carries the server's icon.
pub fn favicon_uri(png: &[u8]) -> (r: String)
    ensures
        r@ == "data:image/png;base64,"@ + standard_base64(png@),
{
    let encoded = encode_base64(png);
    let mut uri = "data:image/png;base64,".to_owned();
    uri.append(encoded.as_str());
    uri
}

} // verus!
