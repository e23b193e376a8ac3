//! Errors of capabilities.

use vstd::prelude::*;
use vstd::string::*;

use crate::text;

verus! {

/// A failure of a capability: which extension, which capability, and the error itself that
/// went before.
#[derive(Debug)]
pub struct CapabilityError<E> {
    pub extension: String,
    pub capability: &'static str,
    pub source: E,
}

impl<E> CapabilityError<E> {
    /// Wraps an error.
    pub fn new(extension: String, capability: &'static str, source: E) -> (r: Self)
        ensures
            r.extension == extension,
            r.capability == capability,
            r.source == source,
    {
        CapabilityError { extension, capability, source }
    }

    /// The message of the error, where `cause` is that of the error that went before.
    pub open spec fn text(&self, cause: Seq<char>) -> Seq<char> {
        "capability `"@ + self.capability@ + "` on extension `"@ + self.extension@
            + "` failed: "@ + cause
    }

    /// The message of the error, where `cause` is that of the error that went before.
    pub fn message(&self, cause: &str) -> (r: String)
        ensures
            r@ == self.text(cause@),
    {
        let mut r: String = text::joined5(
            "capability `",
            self.capability,
            "` on extension `",
            self.extension.as_str(),
            "` failed: ",
        );
        r.append(cause);
        r
    }
}

/// What makes the errors of one capability of one extension.
#[derive(Debug)]
pub struct CapabilityErrorSource {
    extension: String,
    capability: &'static str,
}

impl CapabilityErrorSource {
    pub closed spec fn bound_extension(&self) -> Seq<char> {
        self.extension@
    }

    pub closed spec fn bound_capability(&self) -> Seq<char> {
        self.capability@
    }

    /// A source for that capability of that extension.
    pub fn new(extension: String, capability: &'static str) -> (r: Self)
        ensures
            r.bound_extension() == extension@,
            r.bound_capability() == capability@,
    {
        CapabilityErrorSource { extension, capability }
    }

    /// The extension that the source is bound to.
    pub fn extension(&self) -> (r: &str)
        ensures
            r@ == self.bound_extension(),
    {
        self.extension.as_str()
    }

    /// Wraps an error, which is kept as it is.
    pub fn wrap<E>(&self, source: E) -> (r: CapabilityError<E>)
        ensures
            r.extension@ == self.bound_extension(),
            r.capability@ == self.bound_capability(),
            r.source == source,
    {
        CapabilityError::new(self.extension.clone(), self.capability, source)
    }
}

} // verus!
