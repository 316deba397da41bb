//! Numbers of the `num` crate as results of solvers.
use vstd::prelude::*;
use crate::util::output::Output;

verus! {

#[verifier::external_type_specification]
#[verifier::external_body]
pub struct ExBigInt(num::BigInt);

#[verifier::external_type_specification]
#[verifier::external_body]
pub struct ExBigUint(num::BigUint);

#[verifier::external_type_specification]
#[verifier::external_body]
#[verifier::reject_recursive_types(T)]
pub struct ExRatio<T>(num::rational::Ratio<T>);

/// The numeral that `num` writes for a big integer.
pub uninterp spec fn bigint_text(value: num::BigInt) -> Seq<char>;

/// The numeral that `num` writes for a big unsigned integer.
pub uninterp spec fn biguint_text(value: num::BigUint) -> Seq<char>;

/// What `num` writes for a ratio of 32-bit integers.
pub uninterp spec fn rational32_text(value: num::rational::Rational32) -> Seq<char>;

/// What `num` writes for a ratio of 64-bit integers.
pub uninterp spec fn rational64_text(value: num::rational::Rational64) -> Seq<char>;

/// What `num` writes for a ratio of big integers.
pub uninterp spec fn bigrational_text(value: num::rational::BigRational) -> Seq<char>;

/// Shows a big integer. This is the `Display` of `num::BigInt`, through
/// `ToString::to_string`; what it writes is named [`bigint_text`].
#[verifier::external_body]
fn show_bigint(value: &num::BigInt) -> (s: String)
    ensures
        s@ == bigint_text(*value),
{
    value.to_string()
}

/// Shows a big unsigned integer. This is the `Display` of `num::BigUint`,
/// through `ToString::to_string`; what it writes is named
/// [`biguint_text`].
#[verifier::external_body]
fn show_biguint(value: &num::BigUint) -> (s: String)
    ensures
        s@ == biguint_text(*value),
{
    value.to_string()
}

/// Shows a ratio of 32-bit integers. This is the `Display` of
/// `num::rational::Ratio`, through `ToString::to_string`; what it writes is
/// named [`rational32_text`].
#[verifier::external_body]
fn show_rational32(value: &num::rational::Rational32) -> (s: String)
    ensures
        s@ == rational32_text(*value),
{
    value.to_string()
}

/// Shows a ratio of 64-bit integers. This is the `Display` of
/// `num::rational::Ratio`, through `ToString::to_string`; what it writes is
/// named [`rational64_text`].
#[verifier::external_body]
fn show_rational64(value: &num::rational::Rational64) -> (s: String)
    ensures
        s@ == rational64_text(*value),
{
    value.to_string()
}

/// Shows a ratio of big integers. This is the `Display` of
/// `num::rational::Ratio`, through `ToString::to_string`; what it writes is
/// named [`bigrational_text`].
#[verifier::external_body]
fn show_bigrational(value: &num::rational::BigRational) -> (s: String)
    ensures
        s@ == bigrational_text(*value),
{
    value.to_string()
}

impl Output for num::BigInt {
    open spec fn text(&self) -> Seq<char> {
        bigint_text(*self)
    }

    open spec fn multiline(&self) -> bool {
        false
    }

    fn render(&self) -> (s: String) {
        show_bigint(self)
    }

    fn is_multiline(&self) -> (b: bool) {
        false
    }
}

impl Output for num::BigUint {
    open spec fn text(&self) -> Seq<char> {
        biguint_text(*self)
    }

    open spec fn multiline(&self) -> bool {
        false
    }

    fn render(&self) -> (s: String) {
        show_biguint(self)
    }

    fn is_multiline(&self) -> (b: bool) {
        false
    }
}

impl Output for num::rational::Rational32 {
    open spec fn text(&self) -> Seq<char> {
        rational32_text(*self)
    }

    open spec fn multiline(&self) -> bool {
        false
    }

    fn render(&self) -> (s: String) {
        show_rational32(self)
    }

    fn is_multiline(&self) -> (b: bool) {
        false
    }
}

impl Output for num::rational::Rational64 {
    open spec fn text(&self) -> Seq<char> {
        rational64_text(*self)
    }

    open spec fn multiline(&self) -> bool {
        false
    }

    fn render(&self) -> (s: String) {
        show_rational64(self)
    }

    fn is_multiline(&self) -> (b: bool) {
        false
    }
}

impl Output for num::rational::BigRational {
    open spec fn text(&self) -> Seq<char> {
        bigrational_text(*self)
    }

    open spec fn multiline(&self) -> bool {
        false
    }

    fn render(&self) -> (s: String) {
        show_bigrational(self)
    }

    fn is_multiline(&self) -> (b: bool) {
        false
    }
}

} // verus!
