//! Key identifiers: physical keys observed by the monitor and output keys
//! synthesized by the player.

use vstd::prelude::*;

verus! {

/// A physical key as reported by the keyboard-state source.
///
/// Only identity matters to the library: a trigger chord is satisfied when
/// every one of its physical keys is present in the sampled key state.
#[derive(Clone, Copy, Debug, PartialEq, Eq, Hash, Structural)]
pub enum PhysKey {
    Control,
    Shift,
    Alt,
    Escape,
    Up,
    Down,
    Left,
    Right,
    /// A digit key on the main row, identified by its digit value.
    Digit(u8),
    /// A letter key, identified by its lower-case character.
    Letter(char),
}

/// An output key handed to the key-injection sink.
///
/// One tagged type covers both symbolic special keys (arrows, modifiers,
/// space) and literal character keys, so a single playback routine serves
/// every trigger definition.
#[derive(Clone, Copy, Debug, PartialEq, Eq, Structural)]
pub enum OutKey {
    Control,
    Shift,
    Alt,
    Space,
    Up,
    Down,
    Left,
    Right,
    /// A literal character key.
    Char(char),
}

/// The set of keys occurring in a sampled key-state sequence.
pub open spec fn key_set(keys: Seq<PhysKey>) -> Set<PhysKey> {
    Set::new(|k: PhysKey| keys.contains(k))
}

/// Membership in a key vector, decided by walking it.
pub fn vec_contains(keys: &Vec<PhysKey>, k: PhysKey) -> (b: bool)
    ensures
        b == keys@.contains(k),
{
    let mut i: usize = 0;
    while i < keys.len()
        invariant
            0 <= i <= keys@.len(),
            forall|j: int| 0 <= j < i ==> keys@[j] != k,
        decreases keys@.len() - i,
    {
        if keys[i] == k {
            return true;
        }
        i = i + 1;
    }
    false
}

} // verus!
