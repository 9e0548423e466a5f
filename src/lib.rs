use vstd::prelude::*;

pub mod hacheutil;
pub mod md5;
pub mod model;

verus! {

/// A streaming message digest: reset it, feed it bytes, and render digests as text.
pub trait Digest {
    /// Returns the engine to its just-constructed state.
    fn reset(&mut self) -> &mut Self;

    /// Feeds `value` to the engine.
    fn update(&mut self, value: &[u8]) -> &mut Self;

    /// The digest of `value` in one call, as lowercase hexadecimal.
    fn hexdigest(value: &str) -> String;
}

} // verus!
