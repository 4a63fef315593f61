//! The literal markers of the patch wire format.
//!
//! A model response is expected to hold, in order: the search marker, the
//! text to find (with the cursor marker at its original relative position),
//! the divide marker, the replacement text, and the replace marker.

use vstd::prelude::*;

verus! {

/// The marker that opens the search block.
pub open spec fn stoken_spec() -> Seq<char> {
    "<|SEARCH|>"@
}

/// The marker that separates the search block from the replacement.
pub open spec fn dtoken_spec() -> Seq<char> {
    "<|DIVIDE|>"@
}

/// The marker that closes the replacement block.
pub open spec fn rtoken_spec() -> Seq<char> {
    "<|REPLACE|>"@
}

/// The marker that records the cursor position inside the search block.
pub open spec fn ctoken_spec() -> Seq<char> {
    "<|cursor|>"@
}

pub fn stoken() -> (r: &'static str)
    ensures
        r@ == stoken_spec(),
{
    "<|SEARCH|>"
}

pub fn dtoken() -> (r: &'static str)
    ensures
        r@ == dtoken_spec(),
{
    "<|DIVIDE|>"
}

pub fn rtoken() -> (r: &'static str)
    ensures
        r@ == rtoken_spec(),
{
    "<|REPLACE|>"
}

pub fn ctoken() -> (r: &'static str)
    ensures
        r@ == ctoken_spec(),
{
    "<|cursor|>"
}

/// The cursor marker is never empty; the patch parser and the context
/// builder lean on this when they search for it.
pub proof fn lemma_ctoken_nonempty()
    ensures
        ctoken_spec().len() == 10,
{
    reveal_strlit("<|cursor|>");
}

} // verus!
