use vstd::prelude::*;
use crate::error::LauncherError;
use crate::registry::{Registry, decode_entries, pairs_view};

verus! {

#[verifier::external_type_specification]
#[verifier::external_body]
pub struct ExJsonError(serde_json::Error);

/// The JSON text that serde_json writes for a list of string pairs.
pub uninterp spec fn json_of_pairs(ps: Seq<(Seq<char>, Seq<char>)>) -> Seq<char>;

/// The list of string pairs that serde_json reads from a text, if it holds one.
pub uninterp spec fn pairs_of_json(s: Seq<char>) -> Option<Seq<(Seq<char>, Seq<char>)>>;

/// Relies on `serde_json::to_string`: the JSON text of the pairs, an array of
/// two-string arrays. Strings always serialize and the output goes to a
/// `Vec<u8>`, so this never fails.
#[verifier::external_body]
fn encode_pairs(ps: &Vec<(String, String)>) -> (r: Result<String, serde_json::Error>)
    ensures
        r is Ok,
        r matches Ok(s) ==> s@ == json_of_pairs(pairs_view(ps@)),
{
    serde_json::to_string(ps)
}

/// Relies on `serde_json::from_str`: reads an array of two-string arrays, and
/// fails on any other text.
#[verifier::external_body]
fn decode_pairs(text: &str) -> (r: Result<Vec<(String, String)>, serde_json::Error>)
    ensures
        r matches Ok(ps) ==> pairs_of_json(text@) == Some(pairs_view(ps@)),
        r is Err ==> pairs_of_json(text@) is None,
{
    serde_json::from_str(text)
}

impl Registry {
    /// The bindings as the JSON text kept in the store.
    pub fn to_json(&self) -> (r: Result<String, LauncherError>)
        ensures
            r is Ok,
            r matches Ok(s) ==> s@ == json_of_pairs(self.entries()),
    {
        let pairs = self.snapshot();
        match encode_pairs(&pairs) {
            Ok(s) => Ok(s),
            Err(_) => Err(LauncherError::PersistenceFailure),
        }
    }

    /// Rebuilds the bindings from the JSON text kept in the store. Text that is
    /// no list of string pairs, or pairs that `load` refuses, give
    /// `PersistenceFailure`.
    pub fn from_json(text: &str) -> (r: Result<Registry, LauncherError>)
        ensures
            pairs_of_json(text@) is None ==> r == Err::<Registry, LauncherError>(
                LauncherError::PersistenceFailure,
            ),
            pairs_of_json(text@) matches Some(ps) ==> ((decode_entries(ps) matches Some(m) ==> (
            r matches Ok(g) && g.wf() && g@ == m)) && (decode_entries(ps) is None ==> r == Err::<
                Registry,
                LauncherError,
            >(LauncherError::PersistenceFailure))),
    {
        match decode_pairs(text) {
            Ok(pairs) => Registry::load(&pairs),
            Err(_) => Err(LauncherError::PersistenceFailure),
        }
    }
}

} // verus!
