//! Option entries: a switch with an on/off state, or a name that stands for
//! a one-shot action.
use vstd::prelude::*;
use vstd::string::*;

verus! {

/// Message of the error returned when a `Name` entry is used as a switch.
pub const NOT_A_SWITCH: &'static str =
    "Choice does not have a switch. Try defining choice type as `Choice::Switch`";

/// The two identities of an option: its short form (a single character,
/// `'\0'` when absent) and its long name (empty when absent).
///
/// The same shape serves as a probe when searching a glossary.
pub struct ChoiceFlag {
    pub short: char,
    pub long: String,
}

impl View for ChoiceFlag {
    type V = (char, Seq<char>);

    open spec fn view(&self) -> (char, Seq<char>) {
        (self.short, self.long@)
    }
}

/// An option entry of a glossary.
///
/// A `Switch` carries an on/off state; a `Name` has no state and stands for a
/// one-shot action.
pub enum Choice {
    Switch { enable: bool, short: char, long: String },
    Name { short: char, long: String },
}

impl Choice {
    pub open spec fn short_spec(&self) -> char {
        match self {
            Choice::Switch { short, .. } => *short,
            Choice::Name { short, .. } => *short,
        }
    }

    pub open spec fn long_spec(&self) -> Seq<char> {
        match self {
            Choice::Switch { long, .. } => long@,
            Choice::Name { long, .. } => long@,
        }
    }

    /// The entry with its switch turned on; a `Name` entry is left as it is.
    pub open spec fn enabled(self) -> Choice {
        match self {
            Choice::Switch { short, long, .. } => Choice::Switch { enable: true, short, long },
            Choice::Name { .. } => self,
        }
    }

    /// Convert `Choice` to `ChoiceFlag`
    pub fn _to_flag(&self) -> (f: ChoiceFlag)
        ensures
            f@ == (self.short_spec(), self.long_spec()),
    {
        match self {
            Choice::Switch { short, long, .. } => ChoiceFlag { short: *short, long: long.clone() },
            Choice::Name { short, long } => ChoiceFlag { short: *short, long: long.clone() },
        }
    }

    /// Set the state of a switch to true.
    ///
    /// A `Name` entry has no state: it is left unchanged and an error is
    /// returned.
    pub fn enable(&mut self) -> (r: Result<(), String>)
        ensures
            *final(self) == old(self).enabled(),
            *old(self) is Switch <==> r is Ok,
            r matches Err(e) ==> e@ == NOT_A_SWITCH@,
    {
        match self {
            Choice::Switch { enable, .. } => {
                *enable = true;
                Ok(())
            },
            Choice::Name { .. } => Err(String::from_str(NOT_A_SWITCH)),
        }
    }

    /// The state of a switch: true when enabled, false when disabled.
    ///
    /// A `Name` entry has no state, and an error is returned.
    pub fn get_state(&self) -> (r: Result<bool, String>)
        ensures
            match self {
                Choice::Switch { enable, .. } => r == Ok::<bool, String>(*enable),
                Choice::Name { .. } => r matches Err(e) && e@ == NOT_A_SWITCH@,
            },
    {
        match self {
            Choice::Switch { enable, .. } => Ok(*enable),
            Choice::Name { .. } => Err(String::from_str(NOT_A_SWITCH)),
        }
    }
}

} // verus!
