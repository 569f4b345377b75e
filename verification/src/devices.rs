//! Input devices: the pressed state of the keys of a keyboard and of the
//! buttons of a mouse.
//!
//! A key is named by its code, a plain integer; the window layer turns its
//! own key identifiers into codes before it reports a press or a release.
use std::collections::HashMap;
use vstd::prelude::*;

verus! {

broadcast use vstd::std_specs::hash::group_hash_axioms;

/// The last reported state of every key that was ever reported.
#[derive(Clone)]
pub struct Keyboard {
    pub keys: HashMap<u32, bool>,
}

impl View for Keyboard {
    type V = Map<u32, bool>;

    open spec fn view(&self) -> Map<u32, bool> {
        self.keys@
    }
}

/// Whether `key` counts as pressed in the reported states `keys`: it was
/// reported, and its last report was a press.
pub open spec fn key_down(keys: Map<u32, bool>, key: u32) -> bool {
    keys.contains_key(key) && keys[key]
}

impl Keyboard {
    /// Whether `key` is down: it was reported, and its last report was a
    /// press. A key never reported is up.
    pub fn is_pressed(&self, key: u32) -> (r: bool)
        ensures
            r == key_down(self@, key),
    {
        match self.keys.get(&key) {
            Some(state) => *state,
            None => false,
        }
    }

    /// Records the new state of `key`; the other keys keep theirs.
    pub fn set_pressed(&mut self, key: u32, state: bool)
        ensures
            final(self)@ == old(self)@.insert(key, state),
    {
        self.keys.insert(key, state);
    }
}

impl Default for Keyboard {
    /// A keyboard with no key reported yet.
    fn default() -> (r: Self)
        ensures
            r@ == Map::<u32, bool>::empty(),
    {
        Keyboard { keys: HashMap::new() }
    }
}

/// The buttons of a mouse, each `true` while held. The cursor position, a
/// pair of floats, is kept by the window layer.
#[derive(Clone, Copy, Default, Debug)]
pub struct Mouse {
    pub left: bool,
    pub right: bool,
    pub middle: bool,
    pub back: bool,
    pub forward: bool,
}

impl Mouse {
    /// Whether a primary button is held: left, right or middle.
    pub fn primary_button(&self) -> (r: bool)
        ensures
            r == (self.left || self.right || self.middle),
    {
        self.left || self.right || self.middle
    }
}

/// After a report of `key`, `is_pressed(key)` gives the reported state, and
/// every other key reads as before.
pub proof fn lemma_read_after_report(keys: Map<u32, bool>, key: u32, state: bool, other: u32)
    ensures
        key_down(keys.insert(key, state), key) == state,
        other != key ==> key_down(keys.insert(key, state), other) == key_down(keys, other),
{
}

/// A keyboard with no report has every key up.
pub proof fn lemma_unreported_key_is_up(key: u32)
    ensures
        !key_down(Map::<u32, bool>::empty(), key),
{
}

} // verus!
