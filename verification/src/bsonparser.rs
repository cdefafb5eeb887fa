//! Reading BSON input: the document is decoded and shown as pretty-printed
//! JSON.

use vstd::prelude::*;

verus! {

/// The BSON document in `bytes` as pretty-printed JSON text, or the message
/// of the error that stopped it.
pub uninterp spec fn bson_json_text(bytes: Seq<u8>) -> Result<Seq<char>, Seq<char>>;

/// `bson::Document::from_reader` over `bytes`, then
/// `serde_json::to_string_pretty` of the document: its JSON text, indented,
/// or the message of the first error (of decoding, else of printing), a
/// function of the bytes alone. Which of the two steps failed is not told
/// apart here.
#[verifier::external_body]
fn bson_to_json_pretty(bytes: &[u8]) -> (r: Result<String, String>)
    ensures
        r is Ok == bson_json_text(bytes@) is Ok,
        r matches Ok(s) ==> (bson_json_text(bytes@) matches Ok(t) && t == s@),
        r matches Err(m) ==> (bson_json_text(bytes@) matches Err(e) && e == m@),
{
    bson::Document::from_reader(&mut &bytes[..]).map_err(|e| e.to_string()).and_then(
        |doc| serde_json::to_string_pretty(&doc).map_err(|e| e.to_string()),
    )
}

/// The BSON document in `bson_bytes` as pretty-printed JSON, or the message of
/// the error that stopped it: first that of decoding, then that of printing.
pub fn parse(bson_bytes: &[u8]) -> (r: Result<String, String>)
    ensures
        match bson_json_text(bson_bytes@) {
            Ok(t) => r matches Ok(s) && s@ == t,
            Err(e) => r matches Err(m) && m@ == e,
        },
{
    bson_to_json_pretty(bson_bytes)
}

} // verus!
