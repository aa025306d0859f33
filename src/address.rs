//! Receiver addresses and compiled address patterns.
//!
//! Validation of addresses and compilation and matching of patterns are done
//! by `rosc::address`; this module states what the routing logic relies on.
use rosc::address::{Matcher, OscAddress};
use rosc::OscError;
use vstd::prelude::*;

verus! {

/// A validated address as `rosc` holds it.
#[verifier::external_type_specification]
#[verifier::external_body]
pub struct ExOscAddress(OscAddress);

/// A compiled address pattern as `rosc` holds it.
#[verifier::external_type_specification]
#[verifier::external_body]
pub struct ExMatcher(Matcher);

/// An error reported by `rosc`.
#[verifier::external_type_specification]
#[verifier::external_body]
pub struct ExOscError(OscError);

/// The errors of this library.
#[derive(Debug, Clone, Copy, PartialEq, Eq, Structural)]
pub enum RoutingError {
    /// An address given for a receiver is not a valid OSC address.
    InvalidAddress,
    /// A message address cannot be compiled as an address pattern.
    MalformedPattern,
    /// A receiver was given no address at all.
    NoAddresses,
}

/// A character that may stand in an address part: printable ASCII other
/// than space and `#`, `*`, `,`, `/`, `?`, `[`, `]`, `{`, `}`.
pub open spec fn is_address_char(c: char) -> bool {
    &&& '!' <= c <= '~'
    &&& c != '#'
    &&& c != '*'
    &&& c != ','
    &&& c != '/'
    &&& c != '?'
    &&& c != '['
    &&& c != ']'
    &&& c != '{'
    &&& c != '}'
}

/// A valid address: one or more parts, each a `/` followed by one or more
/// address characters. So it starts with `/`, does not end with `/`, and
/// holds no `//`.
pub open spec fn is_valid_address(s: Seq<char>) -> bool {
    &&& s.len() > 0
    &&& s[0] == '/'
    &&& s.last() != '/'
    &&& forall|i: int| 0 <= i < s.len() ==> s[i] == '/' || is_address_char(#[trigger] s[i])
    &&& forall|i: int| 0 <= i < s.len() - 1 && #[trigger] s[i] == '/' ==> s[i + 1] != '/'
}

/// Relies on `rosc::address::OscAddress::new`, which accepts exactly the
/// strings of its `verify_address` grammar: `/` followed by one or more
/// address characters, one or more times.
pub assume_specification[ OscAddress::new ](address: String) -> (r: Result<OscAddress, OscError>)
    ensures
        r is Ok <==> is_valid_address(address@),
;

/// Relies on the derived `Clone` of `rosc::address::OscAddress`, a wrapper
/// of a `String`: a clone is a copy of the same value.
pub assume_specification[ <OscAddress as Clone>::clone ](a: &OscAddress) -> (r: OscAddress)
    ensures
        r == *a,
;

/// Whether `rosc` compiles `pattern` into a matcher
/// (`rosc::address::Matcher::new` returns `Ok`).
pub uninterp spec fn pattern_compiles(pattern: Seq<char>) -> bool;

/// Whether the matcher that `rosc` compiles from `pattern` accepts `address`
/// (`rosc::address::Matcher::match_address`).
pub uninterp spec fn pattern_matches(pattern: Seq<char>, address: Seq<char>) -> bool;

/// Relies on `rosc::address::Matcher::new`: whether it succeeds depends on
/// the pattern alone.
pub assume_specification[ Matcher::new ](pattern: &str) -> (r: Result<Matcher, OscError>)
    ensures
        r is Ok <==> pattern_compiles(pattern@),
;

/// A receiver address: its text, and the same text as validated by `rosc`.
pub struct Address {
    text: String,
    osc: OscAddress,
}

impl View for Address {
    type V = Seq<char>;

    closed spec fn view(&self) -> Seq<char> {
        self.text@
    }
}

impl Address {
    /// Validates `address`; fails with `InvalidAddress` exactly when it is
    /// not a valid OSC address.
    pub fn new(address: String) -> (r: Result<Address, RoutingError>)
        ensures
            r is Ok <==> is_valid_address(address@),
            r matches Ok(a) ==> a@ == address@,
            r matches Err(e) ==> e == RoutingError::InvalidAddress,
    {
        match OscAddress::new(address.clone()) {
            Ok(osc) => Ok(Address { text: address, osc }),
            Err(_) => Err(RoutingError::InvalidAddress),
        }
    }

    /// The address text.
    pub fn as_str(&self) -> (r: &str)
        ensures
            r@ == self@,
    {
        self.text.as_str()
    }
}

impl Clone for Address {
    fn clone(&self) -> (r: Self)
        ensures
            r@ == self@,
    {
        Address { text: self.text.clone(), osc: self.osc.clone() }
    }
}

/// A message address compiled into a matcher, together with its text.
pub struct CompiledPattern {
    pattern: String,
    matcher: Matcher,
}

impl View for CompiledPattern {
    type V = Seq<char>;

    closed spec fn view(&self) -> Seq<char> {
        self.pattern@
    }
}

impl CompiledPattern {
    #[verifier::type_invariant]
    spec fn compiled(self) -> bool {
        pattern_compiles(self.pattern@)
    }

    /// Compiles `pattern`; fails with `MalformedPattern` exactly when `rosc`
    /// cannot compile it.
    pub fn compile(pattern: &String) -> (r: Result<CompiledPattern, RoutingError>)
        ensures
            r is Ok <==> pattern_compiles(pattern@),
            r matches Ok(c) ==> c@ == pattern@,
            r matches Err(e) ==> e == RoutingError::MalformedPattern,
    {
        match Matcher::new(pattern.as_str()) {
            Ok(matcher) => Ok(CompiledPattern { pattern: pattern.clone(), matcher }),
            Err(_) => Err(RoutingError::MalformedPattern),
        }
    }

    /// Whether this matcher was compiled from `pattern`. Any matcher's
    /// pattern is one that `rosc` compiles.
    pub fn is_compiled_from(&self, pattern: &String) -> (r: bool)
        ensures
            r == (self@ == pattern@),
            pattern_compiles(self@),
    {
        proof {
            use_type_invariant(self);
        }
        self.pattern == *pattern
    }

    /// The pattern text.
    pub fn as_str(&self) -> (r: &str)
        ensures
            r@ == self@,
    {
        self.pattern.as_str()
    }

    /// Whether this pattern matches `address`.
    ///
    /// Relies on `rosc::address::Matcher::match_address`, called on the
    /// matcher compiled from `self.pattern` and the address validated from
    /// `address.text`: its answer depends on those two texts alone, and it
    /// accepts an address equal to the pattern.
    #[verifier::external_body]
    pub(crate) fn accepts(&self, address: &Address) -> (r: bool)
        ensures
            r == pattern_matches(self@, address@),
            self@ == address@ ==> r,
    {
        self.matcher.match_address(&address.osc)
    }
}

} // verus!
