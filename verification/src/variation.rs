//! The orthographic systems in which toki pona is written.

use vstd::prelude::*;
use vstd::std_specs::convert::TryFromSpecImpl;

verus! {

/// How many variations there are.
pub const VARIATIONS: usize = 3;

/// Each variation is a specific orthographic system for toki pona.
/// These orthographic systems may each contain their own options for
/// customising the text that is encoded.
#[derive(Debug, Clone, Copy, PartialEq, Eq, Hash, Structural)]
pub enum Variation {
    Default,
    Tipunsin,
    Hanzi,
}

impl Variation {
    /// The variation that a variation code such as "tp_ZH" names, if any.
    pub open spec fn spec_from_code(code: Seq<char>) -> Option<Variation> {
        if code == seq!['t', 'p'] {
            Some(Variation::Default)
        } else if code == seq!['t', 'p', '_', 'S'] {
            Some(Variation::Tipunsin)
        } else if code == seq!['t', 'p', '_', 'Z', 'H'] {
            Some(Variation::Hanzi)
        } else {
            None
        }
    }
}

impl Variation {
    /// The place of the variation among all of them, counted from zero.
    pub open spec fn spec_ordinal(self) -> int {
        match self {
            Variation::Default => 0,
            Variation::Tipunsin => 1,
            Variation::Hanzi => 2,
        }
    }

    /// The place of the variation among all of them, counted from zero.
    pub fn ordinal(self) -> (ordinal: usize)
        ensures
            ordinal == self.spec_ordinal(),
            ordinal < VARIATIONS,
    {
        match self {
            Variation::Default => 0,
            Variation::Tipunsin => 1,
            Variation::Hanzi => 2,
        }
    }
}

impl Default for Variation {
    fn default() -> (variation: Self)
        ensures
            variation == Variation::Default,
    {
        Variation::Default
    }
}

/// Converts from variation codes such as "tp_ZH".
impl<'a> TryFrom<&'a str> for Variation {
    type Error = ();

    fn try_from(value: &'a str) -> (result: Result<Self, ()>) {
        proof {
            reveal_strlit("tp");
            reveal_strlit("tp_S");
            reveal_strlit("tp_ZH");
            assert("tp"@ =~= seq!['t', 'p']);
            assert("tp_S"@ =~= seq!['t', 'p', '_', 'S']);
            assert("tp_ZH"@ =~= seq!['t', 'p', '_', 'Z', 'H']);
        }
        let code = value.to_owned();
        if code == "tp".to_owned() {
            Ok(Variation::Default)
        } else if code == "tp_S".to_owned() {
            Ok(Variation::Tipunsin)
        } else if code == "tp_ZH".to_owned() {
            Ok(Variation::Hanzi)
        } else {
            Err(())
        }
    }
}

impl<'a> TryFromSpecImpl<&'a str> for Variation {
    open spec fn obeys_try_from_spec() -> bool {
        true
    }

    open spec fn try_from_spec(value: &'a str) -> Result<Self, ()> {
        match Variation::spec_from_code(value@) {
            Some(variation) => Ok(variation),
            None => Err(()),
        }
    }
}

} // verus!
