//! Errors of loading and checking an animation.
use vstd::prelude::*;

verus! {

#[verifier::external_type_specification]
#[verifier::external_body]
pub struct ExIoError(std::io::Error);

#[verifier::external_type_specification]
#[verifier::external_body]
pub struct ExImageError(image::ImageError);

#[verifier::external_type_specification]
#[verifier::external_body]
pub struct ExJsonError(serde_json::Error);

/// Why an animation could not be loaded or checked.
#[derive(Debug)]
pub enum BodymovinError {
    /// A file could not be read.
    IoError(std::io::Error),
    /// An image could not be decoded or encoded.
    ImageError(image::ImageError),
    /// The document is not valid JSON.
    JsonError(serde_json::Error),
    /// The document's structure is wrong; the text says how.
    OtherError(String),
}

/// Relies on `impl Add<&str> for String`: `a + b` is the text of `a`
/// followed by the text of `b`.
#[verifier::external_body]
fn joined(a: String, b: &str) -> (r: String)
    ensures
        r@ == a@ + b@,
{
    a + b
}

impl BodymovinError {
    /// The error as text: a prefix naming its kind, then its cause (the
    /// cause's own message, or the text of `OtherError`).
    pub fn message(&self) -> (r: String)
        ensures
            self matches BodymovinError::OtherError(s) ==> r@ == "Error: "@ + s@,
            self is IoError ==> exists|t: Seq<char>| r@ == "IO error: "@ + t,
            self is ImageError ==> exists|t: Seq<char>| r@ == "Image error: "@ + t,
            self is JsonError ==> exists|t: Seq<char>| r@ == "JSON error: "@ + t,
    {
        match self {
            BodymovinError::IoError(e) => {
                let cause = e.to_string();
                let r = joined("IO error: ".to_owned(), cause.as_str());
                assert(r@ == "IO error: "@ + cause@);
                r
            },
            BodymovinError::ImageError(e) => {
                let cause = e.to_string();
                let r = joined("Image error: ".to_owned(), cause.as_str());
                assert(r@ == "Image error: "@ + cause@);
                r
            },
            BodymovinError::JsonError(e) => {
                let cause = e.to_string();
                let r = joined("JSON error: ".to_owned(), cause.as_str());
                assert(r@ == "JSON error: "@ + cause@);
                r
            },
            BodymovinError::OtherError(s) => joined("Error: ".to_owned(), s.as_str()),
        }
    }
}

} // verus!
