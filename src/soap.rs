use vstd::prelude::*;

verus! {

#[verifier::external_type_specification]
#[verifier::external_body]
pub struct ExJsonError(serde_json::Error);

/// A token of a decoded section: its text and its kind code.
pub open spec fn token_seq(t: (String, u32)) -> (Seq<char>, u32) {
    (t.0@, t.1)
}

/// Decoded sections as plain values.
pub open spec fn soap_seq(v: Seq<Vec<(String, u32)>>) -> Seq<Seq<(Seq<char>, u32)>> {
    v.map_values(|sec: Vec<(String, u32)>| sec@.map_values(|t: (String, u32)| token_seq(t)))
}

/// The sections that a JSON text of arrays of `[text, kind]` pairs decodes
/// to, or nothing where the text is not such a value.
pub uninterp spec fn soap_of_json(s: Seq<char>) -> Option<Seq<Seq<(Seq<char>, u32)>>>;

/// Relies on `serde_json::from_str`: it decodes the whole text into a list of
/// sections, each a list of `(text, kind)` tokens, or fails; the outcome
/// depends on the text alone.
#[verifier::external_body]
fn decode_soap(text: &str) -> (r: Result<Vec<Vec<(String, u32)>>, serde_json::Error>)
    ensures
        match r {
            Ok(v) => soap_of_json(text@) == Some(soap_seq(v@)),
            Err(_) => soap_of_json(text@) is None,
        },
{
    serde_json::from_str(text)
}

/// Why a section list could not be read.
#[derive(Debug, PartialEq, Eq, Structural)]
pub enum SoapError {
    /// The text is not a JSON list of sections of `[text, kind]` tokens.
    InvalidJson,
}

/// Reads the tokenized sections of a note from their JSON text.
pub fn parse_soap(text: &str) -> (r: Result<Vec<Vec<(String, u32)>>, SoapError>)
    ensures
        match r {
            Ok(v) => soap_of_json(text@) == Some(soap_seq(v@)),
            Err(e) => e == SoapError::InvalidJson && soap_of_json(text@) is None,
        },
{
    match decode_soap(text) {
        Ok(v) => Ok(v),
        Err(_) => Err(SoapError::InvalidJson),
    }
}

} // verus!
