//! The three-valued compatibility setting of a document.

use vstd::prelude::*;
use vstd::string::*;
use vstd::std_specs::convert::FromSpecImpl;

use crate::text::{lowercase, str_eq, str_to_lowercase, trim, trimmed};

verus! {

/// How much legacy browser behaviour a document asks for.
///
/// - `Quirks` (`"quirks"`): full quirks mode.
/// - `LimitedQuirks` (`"limited-quirks"`): a limited portion of quirks mode.
/// - `NoQuirks` (`"no-quirks"`, the default): standards mode.
#[derive(Clone, Copy, Debug, PartialEq, Eq, Hash, Structural)]
pub enum QuirksMode {
    Quirks,
    LimitedQuirks,
    NoQuirks,
}

/// The mode that a lowercase, trimmed label stands for. Labels that are not
/// known stand for `NoQuirks`.
pub open spec fn quirks_mode_of_label(label: Seq<char>) -> QuirksMode {
    if label == "all"@ || label == "yes"@ || label == "full"@ || label == "quirks"@ {
        QuirksMode::Quirks
    } else if label == "some"@ || label == "limited"@ || label == "partial"@ || label
        == "limited-quirks"@ {
        QuirksMode::LimitedQuirks
    } else {
        QuirksMode::NoQuirks
    }
}

/// The mode that free-form text stands for: the text is lowercased, then
/// trimmed, then read as a label.
pub open spec fn quirks_mode_of_text(s: Seq<char>) -> QuirksMode {
    quirks_mode_of_label(trimmed(lowercase(s)))
}

impl QuirksMode {
    /// The canonical label of the mode.
    pub open spec fn label(self) -> Seq<char> {
        match self {
            QuirksMode::Quirks => "quirks"@,
            QuirksMode::LimitedQuirks => "limited-quirks"@,
            QuirksMode::NoQuirks => "no-quirks"@,
        }
    }

    /// Reads a label that is already lowercase and trimmed.
    pub fn from_label(label: &str) -> (mode: QuirksMode)
        ensures
            mode == quirks_mode_of_label(label@),
    {
        if str_eq(label, "all") || str_eq(label, "yes") || str_eq(label, "full") || str_eq(
            label,
            "quirks",
        ) {
            QuirksMode::Quirks
        } else if str_eq(label, "some") || str_eq(label, "limited") || str_eq(label, "partial")
            || str_eq(label, "limited-quirks") {
            QuirksMode::LimitedQuirks
        } else {
            QuirksMode::NoQuirks
        }
    }

    /// Reads free-form text, ignoring case and surrounding whitespace. Never
    /// fails: text that names no mode gives `NoQuirks`.
    pub fn from_str(s: &str) -> (r: Result<QuirksMode, ()>)
        ensures
            r == Ok::<QuirksMode, ()>(quirks_mode_of_text(s@)),
    {
        let lowered = str_to_lowercase(s);
        Ok(QuirksMode::from_label(trim(lowered.as_str())))
    }

    /// The canonical label of the mode.
    pub fn as_str(&self) -> (r: &'static str)
        ensures
            r@ == self.label(),
    {
        match self {
            QuirksMode::Quirks => "quirks",
            QuirksMode::LimitedQuirks => "limited-quirks",
            QuirksMode::NoQuirks => "no-quirks",
        }
    }

    /// The canonical label of the mode, as an owned string.
    pub fn to_string(&self) -> (r: String)
        ensures
            r@ == self.label(),
    {
        self.as_str().to_owned()
    }

    /// Whether this is full quirks mode.
    pub fn is_quirks(&self) -> (r: bool)
        ensures
            r == (*self == QuirksMode::Quirks),
    {
        matches!(self, QuirksMode::Quirks)
    }

    /// Whether this is limited quirks mode.
    pub fn is_limited_quirks(&self) -> (r: bool)
        ensures
            r == (*self == QuirksMode::LimitedQuirks),
    {
        matches!(self, QuirksMode::LimitedQuirks)
    }

    /// Whether this is standards mode.
    pub fn is_no_quirks(&self) -> (r: bool)
        ensures
            r == (*self == QuirksMode::NoQuirks),
    {
        matches!(self, QuirksMode::NoQuirks)
    }
}

impl Default for QuirksMode {
    fn default() -> (mode: QuirksMode)
        ensures
            mode == QuirksMode::NoQuirks,
    {
        QuirksMode::NoQuirks
    }
}

impl<'a> From<&'a str> for QuirksMode {
    fn from(s: &'a str) -> (mode: QuirksMode) {
        match QuirksMode::from_str(s) {
            Ok(mode) => mode,
            Err(_) => QuirksMode::NoQuirks,
        }
    }
}

impl<'a> FromSpecImpl<&'a str> for QuirksMode {
    open spec fn obeys_from_spec() -> bool {
        true
    }

    open spec fn from_spec(s: &'a str) -> QuirksMode {
        quirks_mode_of_text(s@)
    }
}

/// Every mode is read back from its own canonical label.
pub proof fn lemma_label_round_trip(mode: QuirksMode)
    ensures
        quirks_mode_of_label(mode.label()) == mode,
{
    reveal_strlit("all");
    reveal_strlit("yes");
    reveal_strlit("full");
    reveal_strlit("quirks");
    reveal_strlit("some");
    reveal_strlit("limited");
    reveal_strlit("partial");
    reveal_strlit("limited-quirks");
    reveal_strlit("no-quirks");
    match mode {
        QuirksMode::Quirks => {},
        QuirksMode::LimitedQuirks => {
            assert("limited-quirks"@.len() == 14);
        },
        QuirksMode::NoQuirks => {
            assert("no-quirks"@.len() == 9);
            assert("no-quirks"@[0] == 'n');
        },
    }
}

} // verus!
