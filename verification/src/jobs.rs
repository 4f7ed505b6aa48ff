//! Which background results still matter: scan generations and the selection kept across a
//! rescan.
use vstd::prelude::*;

use crate::vault::model::{NoteId, VaultIndex};

verus! {

/// Whether a finished scan belongs to the scan that is currently awaited.
pub fn is_current_generation(active: u64, incoming: u64) -> (current: bool)
    ensures
        current == (active == incoming),
{
    active == incoming
}

/// The numbering of scans: each started or cancelled scan moves to a new generation, and only
/// a result of the current generation is taken.
pub struct ScanGenerations {
    pub current: u64,
}

impl ScanGenerations {
    /// Moves to the next generation (wrapping) and returns it: the generation of a scan that
    /// starts now.
    pub fn start(&mut self) -> (generation: u64)
        ensures
            final(self).current == next_generation(old(self).current),
            generation == final(self).current,
    {
        self.current = self.current.wrapping_add(1);
        self.current
    }

    /// Moves to the next generation, so that the running scan's result is no longer taken.
    pub fn cancel(&mut self)
        ensures
            final(self).current == next_generation(old(self).current),
    {
        self.current = self.current.wrapping_add(1);
    }

    /// Whether a result of `generation` is taken.
    pub fn accepts(&self, generation: u64) -> (taken: bool)
        ensures
            taken == (generation == self.current),
    {
        is_current_generation(self.current, generation)
    }
}

/// The generation after `g`, wrapping at the end of the range.
pub open spec fn next_generation(g: u64) -> u64 {
    if g == u64::MAX {
        0
    } else {
        (g + 1) as u64
    }
}

/// A scan's result stops being taken once the scan is cancelled or another one starts: the
/// generation always moves.
pub proof fn law_new_generation_differs(g: u64)
    ensures
        next_generation(g) != g,
{
}

/// The selected note is kept across a rescan only when the view is kept and the note is still
/// in the new index.
pub fn retained_selection(selected: Option<NoteId>, index: &VaultIndex, preserve_view: bool) -> (kept: Option<NoteId>)
    ensures
        kept == (if preserve_view && selected is Some && exists|i: int|
            0 <= i < index.notes@.len() && (#[trigger] index.notes@[i]).id@ == selected->0@ {
            selected
        } else {
            None
        }),
{
    if !preserve_view {
        return None;
    }
    match selected {
        None => None,
        Some(id) => {
            for i in 0..index.notes.len()
                invariant
                    preserve_view,
                    selected == Some(id),
                    forall|k: int| 0 <= k < i ==> (#[trigger] index.notes@[k]).id@ != id@,
            {
                if index.notes[i].id.same(&id) {
                    assert(index.notes@[i as int].id@ == id@);
                    return Some(id);
                }
            }
            None
        },
    }
}

} // verus!
