//! Traits for the opaque comparable values carried by a codepoint mapping.
//!
//! A value is modelled by its abstract view. Compaction compares values
//! through [`ValueEq`], whose result must agree with view equality, and the
//! rendered table embeds each value as text produced by a caller-supplied
//! [`ValueFormatter`], whose output must be a function of the view alone.

use vstd::prelude::*;

verus! {

/// Executable equality that agrees with equality of the abstract views.
pub trait ValueEq: View + Sized {
    /// Decides whether two values have the same view.
    fn value_eq(&self, other: &Self) -> (r: bool)
        ensures
            r == (self@ == other@),
    ;
}

/// A caller-supplied transform from a value to the text embedded in the
/// rendered table. The text must depend on the value's view alone, so that
/// rendering the same association twice yields identical tables.
pub trait ValueFormatter<V: View> {
    /// The text this formatter produces for a value with view `m`.
    spec fn format_spec(&self, m: V::V) -> Seq<char>;

    /// Formats one value.
    fn format(&self, v: &V) -> (r: String)
        ensures
            r@ == self.format_spec(v@),
    ;
}

/// A value type with a canonical textual representation of its own, used when
/// no custom formatter is supplied.
pub trait CanonicalText: View + Sized {
    /// The canonical text for a value with view `m`.
    spec fn canon(m: Self::V) -> Seq<char>;

    /// Renders the canonical text of this value.
    fn canon_text(&self) -> (r: String)
        ensures
            r@ == Self::canon(self@),
    ;
}

/// The default formatter: each value is embedded as its canonical text.
pub struct CanonFormat;

impl<V: CanonicalText> ValueFormatter<V> for CanonFormat {
    open spec fn format_spec(&self, m: V::V) -> Seq<char> {
        V::canon(m)
    }

    fn format(&self, v: &V) -> (r: String) {
        v.canon_text()
    }
}

impl ValueEq for String {
    fn value_eq(&self, other: &Self) -> (r: bool) {
        self.eq(other)
    }
}

impl CanonicalText for String {
    open spec fn canon(m: Seq<char>) -> Seq<char> {
        m
    }

    fn canon_text(&self) -> (r: String) {
        self.clone()
    }
}

/// The stand-in value of a plain membership set: every two are equal and it
/// carries no information.
pub struct NoValue;

impl View for NoValue {
    type V = ();

    open spec fn view(&self) -> () {
        ()
    }
}

impl ValueEq for NoValue {
    fn value_eq(&self, other: &Self) -> (r: bool) {
        true
    }
}

} // verus!
