//! Equality of texts and attributes, and equality and order of nodes.

use crate::document::{Attribute, Node, opt_str_eq, str_eq, StringStorage};
use vstd::prelude::*;
use vstd::utf8::*;

verus! {

/// Two texts are equal where their characters are, whether the document
/// owns them or they are slices of the input.
impl PartialEq for StringStorage<'_> {
    fn eq(&self, other: &Self) -> (r: bool) {
        proof {
            encode_utf8_decode_utf8(self.chars());
            encode_utf8_decode_utf8(other.chars());
        }
        str_eq(self.as_str(), other.as_str())
    }
}

impl vstd::std_specs::cmp::PartialEqSpecImpl for StringStorage<'_> {
    open spec fn obeys_eq_spec() -> bool {
        true
    }

    open spec fn eq_spec(&self, other: &Self) -> bool {
        self.chars() == other.chars()
    }
}

impl Eq for StringStorage<'_> {

}

/// Two attributes are equal where their expanded names and their values are.
impl PartialEq for Attribute<'_, '_> {
    fn eq(&self, other: &Self) -> (r: bool) {
        opt_str_eq(self.namespace(), other.namespace()) && str_eq(self.name(), other.name())
            && str_eq(self.value(), other.value())
    }
}

impl vstd::std_specs::cmp::PartialEqSpecImpl for Attribute<'_, '_> {
    open spec fn obeys_eq_spec() -> bool {
        true
    }

    open spec fn eq_spec(&self, other: &Self) -> bool {
        &&& self.tree().attribute_name(self.index()) == other.tree().attribute_name(other.index())
        &&& self.tree().stored(self.tree().attributes[self.index()].value) == other.tree().stored(
            other.tree().attributes[other.index()].value,
        )
    }
}

impl PartialEq for Node<'_, '_> {
    #[inline]
    fn eq(&self, other: &Self) -> (r: bool) {
        self.id().get() == other.id().get()
    }
}

impl vstd::std_specs::cmp::PartialEqSpecImpl for Node<'_, '_> {
    open spec fn obeys_eq_spec() -> bool {
        true
    }

    open spec fn eq_spec(&self, other: &Self) -> bool {
        self.index() == other.index()
    }
}

impl Eq for Node<'_, '_> {

}

impl PartialOrd for Node<'_, '_> {
    fn partial_cmp(&self, other: &Self) -> (r: Option<core::cmp::Ordering>) {
        self.id().get().partial_cmp(&other.id().get())
    }
}

impl vstd::std_specs::cmp::PartialOrdSpecImpl for Node<'_, '_> {
    open spec fn obeys_partial_cmp_spec() -> bool {
        true
    }

    open spec fn partial_cmp_spec(&self, other: &Self) -> Option<core::cmp::Ordering> {
        if self.index() < other.index() {
            Some(core::cmp::Ordering::Less)
        } else if self.index() > other.index() {
            Some(core::cmp::Ordering::Greater)
        } else {
            Some(core::cmp::Ordering::Equal)
        }
    }
}

} // verus!
