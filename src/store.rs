use vstd::prelude::*;

verus! {

/// The keys of the settings document.
#[derive(Clone, Copy, Debug, PartialEq, Eq, Structural)]
pub enum StoreKey {
    /// The bindings, as pairs of combination text and target path.
    Commands,
}

impl StoreKey {
    pub fn as_str(&self) -> (r: &'static str)
        ensures
            r@ == seq!['c', 'o', 'm', 'm', 'a', 'n', 'd', 's'],
    {
        proof {
            reveal_strlit("commands");
        }
        match self {
            StoreKey::Commands => {
                assert("commands"@ =~= seq!['c', 'o', 'm', 'm', 'a', 'n', 'd', 's']);
                "commands"
            },
        }
    }
}

} // verus!
