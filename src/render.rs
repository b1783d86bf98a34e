//! Textual rendering of elements, as used by the list renderers.

use vstd::prelude::*;

verus! {

/// A value with a fixed textual form.
pub trait Render {
    /// The characters that `render` produces.
    spec fn text(&self) -> Seq<char>;

    fn render(&self) -> (r: String)
        ensures
            r@ == self.text(),
    ;
}

/// The character of a decimal digit `d < 10`.
pub open spec fn digit_char(d: nat) -> char {
    seq!['0', '1', '2', '3', '4', '5', '6', '7', '8', '9'][d as int]
}

/// Decimal digits of `n`, most significant first, without leading zeros.
pub open spec fn nat_text(n: nat) -> Seq<char>
    decreases n,
{
    if n < 10 {
        seq![digit_char(n)]
    } else {
        nat_text(n / 10).push(digit_char(n % 10))
    }
}

/// Decimal form of an integer, with a leading `-` when it is negative.
pub open spec fn int_text(i: int) -> Seq<char> {
    if i < 0 {
        seq!['-'] + nat_text((-i) as nat)
    } else {
        nat_text(i as nat)
    }
}

/// Relies on `ToString` through the `Display` impl of `i32`: its decimal form.
#[verifier::external_body]
fn i32_text(n: i32) -> (r: String)
    ensures
        r@ == int_text(n as int),
{
    n.to_string()
}

/// Relies on `ToString` through the `Display` impl of `i64`: its decimal form.
#[verifier::external_body]
fn i64_text(n: i64) -> (r: String)
    ensures
        r@ == int_text(n as int),
{
    n.to_string()
}

/// Relies on `ToString` through the `Display` impl of `u32`: its decimal form.
#[verifier::external_body]
fn u32_text(n: u32) -> (r: String)
    ensures
        r@ == int_text(n as int),
{
    n.to_string()
}

/// Relies on `ToString` through the `Display` impl of `u64`: its decimal form.
#[verifier::external_body]
fn u64_text(n: u64) -> (r: String)
    ensures
        r@ == int_text(n as int),
{
    n.to_string()
}

/// Relies on `ToString` through the `Display` impl of `usize`: its decimal form.
#[verifier::external_body]
fn usize_text(n: usize) -> (r: String)
    ensures
        r@ == int_text(n as int),
{
    n.to_string()
}

impl Render for i32 {
    open spec fn text(&self) -> Seq<char> {
        int_text(*self as int)
    }

    fn render(&self) -> (r: String) {
        i32_text(*self)
    }
}

impl Render for i64 {
    open spec fn text(&self) -> Seq<char> {
        int_text(*self as int)
    }

    fn render(&self) -> (r: String) {
        i64_text(*self)
    }
}

impl Render for u32 {
    open spec fn text(&self) -> Seq<char> {
        int_text(*self as int)
    }

    fn render(&self) -> (r: String) {
        u32_text(*self)
    }
}

impl Render for u64 {
    open spec fn text(&self) -> Seq<char> {
        int_text(*self as int)
    }

    fn render(&self) -> (r: String) {
        u64_text(*self)
    }
}

impl Render for usize {
    open spec fn text(&self) -> Seq<char> {
        int_text(*self as int)
    }

    fn render(&self) -> (r: String) {
        usize_text(*self)
    }
}

} // verus!
