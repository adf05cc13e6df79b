//! Events applied to the session, with their errors routed to the log.

use vstd::prelude::*;
use vstd::string::StringExecFns;
use crate::app::App;
use crate::file_entry::{FileEntry, FileEntryState};
use crate::text::{dec_digits, u64_to_string};

verus! {

/// An event against the session: applying it yields the errors it
/// produced, and running it logs them.
pub trait AppEvent {
    fn apply(&mut self, app: &mut App) -> Vec<String>;

    fn run(&mut self, app: &mut App) {
        let mut errors = self.apply(app);
        app.errors.append(&mut errors);
    }
}

/// Message reported when no entry carries the requested id.
pub open spec fn id_not_found_message(id: nat) -> Seq<char> {
    "ERROR: file with id "@ + dec_digits(id) + " not found"@
}

/// No entry of `a` carries `id`.
pub open spec fn no_entry_has_id(a: App, id: usize) -> bool {
    forall|i: int, j: int|
        0 <= i < a.folders@.len() && 0 <= j < a.folders@[i].files@.len() ==> (
        #[trigger] a.folders@[i].files@[j]).id != id
}

/// `b` is `a` with exactly the entry at `(i, j)` set active; that entry
/// carries `id` and is the first to do so in folder order.
pub open spec fn first_set_active(a: App, b: App, id: usize, i: int, j: int) -> bool {
    &&& 0 <= i < a.folders@.len()
    &&& 0 <= j < a.folders@[i].files@.len()
    &&& a.folders@[i].files@[j].id == id
    &&& forall|k: int, t: int|
        0 <= k < a.folders@.len() && 0 <= t < a.folders@[k].files@.len() && (k < i || (k == i && t
            < j)) ==> (#[trigger] a.folders@[k].files@[t]).id != id
    &&& b.folders@.len() == a.folders@.len()
    &&& forall|k: int| 0 <= k < a.folders@.len() && k != i ==> b.folders@[k] == a.folders@[k]
    &&& b.folders@[i].path == a.folders@[i].path
    &&& b.folders@[i].expanded == a.folders@[i].expanded
    &&& b.folders@[i].to_be_deleted == a.folders@[i].to_be_deleted
    &&& b.folders@[i].files@.len() == a.folders@[i].files@.len()
    &&& forall|t: int|
        0 <= t < a.folders@[i].files@.len() && t != j ==> b.folders@[i].files@[t]
            == a.folders@[i].files@[t]
    &&& b.folders@[i].files@[j] == (FileEntry {
        state: FileEntryState::Active,
        ..a.folders@[i].files@[j]
    })
    &&& b.search_phrase == a.search_phrase
    &&& b.plot_dims == a.plot_dims
    &&& b.errors == a.errors
    &&& b.acceleration == a.acceleration
    &&& b.copied_csvoptions == a.copied_csvoptions
    &&& b.color_idx == a.color_idx
}

/// Sets the first entry with the given id active.
pub struct SetActive {
    pub file_id: usize,
}

impl SetActive {
    pub fn new(file_id: usize) -> (s: Self)
        ensures
            s.file_id == file_id,
    {
        Self { file_id }
    }
}

impl AppEvent for SetActive {
    /// Sets the first entry carrying the id active and reports no
    /// error; when no entry carries it, leaves the session unchanged
    /// and reports one error naming the id.
    fn apply(&mut self, app: &mut App) -> (errors: Vec<String>)
        ensures
            no_entry_has_id(*old(app), old(self).file_id) ==> *final(app) == *old(app)
                && errors.deep_view() == seq![id_not_found_message(old(self).file_id as nat)],
            !no_entry_has_id(*old(app), old(self).file_id) ==> errors@.len() == 0 && exists|
                i: int,
                j: int,
            | first_set_active(*old(app), *final(app), old(self).file_id, i, j),
            *final(self) == *old(self),
    {
        let nf = app.folders.len();
        let mut i: usize = 0;
        while i < nf
            invariant
                nf == app.folders@.len(),
                i <= nf,
                *app == *old(app),
                *self == *old(self),
                forall|k: int, t: int|
                    0 <= k < i && 0 <= t < app.folders@[k].files@.len() ==> (
                    #[trigger] app.folders@[k].files@[t]).id != self.file_id,
            decreases nf - i,
        {
            let nfiles = app.folders[i].files.len();
            let mut j: usize = 0;
            while j < nfiles
                invariant
                    nf == app.folders@.len(),
                    i < nf,
                    nfiles == app.folders@[i as int].files@.len(),
                    j <= nfiles,
                    *app == *old(app),
                    *self == *old(self),
                    forall|k: int, t: int|
                        0 <= k < i && 0 <= t < app.folders@[k].files@.len() ==> (
                        #[trigger] app.folders@[k].files@[t]).id != self.file_id,
                    forall|t: int|
                        0 <= t < j ==> (#[trigger] app.folders@[i as int].files@[t]).id
                            != self.file_id,
                decreases nfiles - j,
            {
                if app.folders[i].files[j].id == self.file_id {
                    let entry = &mut app.folders[i].files[j];
                    entry.set_active();
                    proof {
                        assert(first_set_active(
                            *old(app),
                            *app,
                            self.file_id,
                            i as int,
                            j as int,
                        ));
                    }
                    return Vec::new();
                }
                j = j + 1;
            }
            i = i + 1;
        }
        let mut msg = String::from_str("ERROR: file with id ");
        let num = u64_to_string(self.file_id as u64);
        msg.append(num.as_str());
        msg.append(" not found");
        let mut errors: Vec<String> = Vec::new();
        errors.push(msg);
        proof {
            assert(errors.deep_view() =~= seq![id_not_found_message(self.file_id as nat)]);
        }
        errors
    }
}

} // verus!
