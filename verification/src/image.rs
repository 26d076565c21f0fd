//! Rendered images, as they are handed out.
use vstd::prelude::*;

verus! {

/// Bytes in the standard base64 alphabet, with padding.
pub uninterp spec fn base64_text(bytes: Seq<u8>) -> Seq<char>;

/// `base64::Engine::encode` of the `STANDARD` engine writes bytes as text, four
/// characters for every three bytes or fewer. Which characters depends on the bytes
/// alone. It would panic only on more bytes than a `Vec` can hold.
#[verifier::external_body]
fn encode_base64(bytes: &Vec<u8>) -> (r: String)
    ensures
        r@ == base64_text(bytes@),
        r@.len() == 4 * ((bytes@.len() + 2) / 3),
{
    base64::Engine::encode(&base64::engine::general_purpose::STANDARD, bytes)
}

/// An image as text.
#[derive(Debug, Clone, PartialEq)]
pub struct ImageText {
    /// The bytes of the image in base64.
    pub data: String,
    pub mime_type: String,
}

/// A PNG image as text.
pub fn png_image(bytes: &Vec<u8>) -> (r: ImageText)
    ensures
        r.data@ == base64_text(bytes@),
        r.data@.len() == 4 * ((bytes@.len() + 2) / 3),
        r.mime_type@ == "image/png"@,
{
    ImageText { data: encode_base64(bytes), mime_type: "image/png".to_owned() }
}

} // verus!
