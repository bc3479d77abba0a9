//! The load/save protocol: fail-open decoding of persisted text, and the
//! restore operation that replaces the live store with what was decoded.
//!
//! The host hands these functions the raw file contents (`None` when the
//! file could not be read at all) and writes back the text `serialize`
//! renders; no failure here ever propagates to the caller.

use vstd::prelude::*;

use crate::codec::{canon_state, ids_bounded, lemma_parse_state_of_canon, parse_state};
use crate::model::StateView;
use crate::reader::parse_app_state;
use crate::state::AppState;

verus! {

/// The persisted text as a sequence of characters, `None` when reading
/// the file itself failed.
pub open spec fn data_view(data: Option<&str>) -> Option<Seq<char>> {
    match data {
        Some(s) => Some(s@),
        None => None,
    }
}

/// What loading persisted text yields: the store it spells, when it spells
/// a well-formed one, and the empty store in every other case — a missing
/// file, text outside the grammar, or identifiers that break the store's
/// invariant.
pub open spec fn spec_load(data: Option<Seq<char>>) -> StateView {
    match data {
        None => StateView::empty(),
        Some(s) => match parse_state(s) {
            Some(v) => if v.wf() {
                v
            } else {
                StateView::empty()
            },
            None => StateView::empty(),
        },
    }
}

/// What a restore leaves in the store: whatever the persisted text loads
/// to, whatever was live before.
pub open spec fn spec_restore(s: StateView, data: Option<Seq<char>>) -> StateView {
    spec_load(data)
}

/// Decode persisted text into a store, falling back to the empty store on
/// any failure; never an error.
pub fn load_or_default(data: Option<&str>) -> (st: AppState)
    ensures
        st@ == spec_load(data_view(data)),
        st@.wf(),
{
    match data {
        None => AppState::new(),
        Some(s) => match parse_app_state(s) {
            None => AppState::new(),
            Some(st) => {
                if st.wf_check() {
                    st
                } else {
                    AppState::new()
                }
            },
        },
    }
}

impl AppState {
    /// Replace the live store with whatever the persisted text loads to,
    /// and hand a copy of the result back to the caller.
    pub fn restore(&mut self, data: Option<&str>) -> (st: AppState)
        ensures
            final(self)@ == spec_restore(old(self)@, data_view(data)),
            st@ == final(self)@,
            final(self)@.wf(),
    {
        let loaded = load_or_default(data);
        let copy = loaded.duplicate();
        self.replace_with(loaded);
        copy
    }
}

/// Saving and loading round-trip: the canonical text of a well-formed
/// store loads back to that very store — same tasks in the same order,
/// same counter.
pub proof fn lemma_save_load_roundtrip(v: StateView)
    requires
        v.wf(),
    ensures
        spec_load(Some(canon_state(v))) == v,
{
    assert(ids_bounded(v));
    lemma_parse_state_of_canon(v);
}

/// Restoring is idempotent: a second restore from the same persisted text,
/// with no mutation in between, leaves the same store and returns the same
/// result.
pub proof fn lemma_restore_idempotent(s: StateView, data: Option<Seq<char>>)
    ensures
        spec_restore(spec_restore(s, data), data) == spec_restore(s, data),
{
}

/// Loading fails open: a file that could not be read, and text that does
/// not spell a well-formed store, both load to the empty store rather than
/// to an error.
pub proof fn lemma_load_fail_open(s: Seq<char>)
    ensures
        spec_load(None) == StateView::empty(),
        parse_state(s) is None ==> spec_load(Some(s)) == StateView::empty(),
{
}

} // verus!
