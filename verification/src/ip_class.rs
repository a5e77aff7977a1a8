//! The five classes of the classful addressing scheme.

use vstd::prelude::*;
use vstd::string::StringExecFns;

verus! {

/// A class of IPv4 addresses.
#[derive(Clone, Copy, Debug, PartialEq, Eq, Structural)]
pub enum IpClass {
    A,
    B,
    C,
    D,
    E,
}

impl IpClass {
    /// The letter of the class.
    pub open spec fn letter(self) -> Seq<char> {
        match self {
            IpClass::A => "A"@,
            IpClass::B => "B"@,
            IpClass::C => "C"@,
            IpClass::D => "D"@,
            IpClass::E => "E"@,
        }
    }

    /// Writes the letter of the class.
    pub fn to_string(&self) -> (r: String)
        ensures
            r@ == self.letter(),
    {
        match self {
            IpClass::A => String::from_str("A"),
            IpClass::B => String::from_str("B"),
            IpClass::C => String::from_str("C"),
            IpClass::D => String::from_str("D"),
            IpClass::E => String::from_str("E"),
        }
    }
}

} // verus!
