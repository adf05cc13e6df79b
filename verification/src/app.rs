//! The session aggregate and the per-frame interaction state.

use vstd::prelude::*;
use vstd::string::StringExecFns;
use crate::codec::{
    enc_session, load_session, malformed_snapshot_message, save_session, session_m_wf,
    session_model, SessionM,
};
use crate::csvfile::CSVFile;
use crate::file_entry::{search_changed_spec, FileEntry};
use crate::folder::Folder;
use crate::plot::PlotDimensions;
use crate::text::{check_numeric_text, is_numeric_text, str_to_char_vec};

verus! {

/// A text-backed numeric value. The stored text is the single source of
/// truth — a numeric reading is derived on demand and never cached, so
/// the display always shows exactly what was typed, including
/// transiently invalid text.
pub struct FloatInput {
    pub input: String,
}

impl FloatInput {
    /// Whether the held text is numeric (follows the numeric-text
    /// grammar), so a numeric reading of it would succeed.
    pub fn is_numeric(&self) -> (r: bool)
        ensures
            r == is_numeric_text(self.input@),
    {
        let chars = str_to_char_vec(self.input.as_str());
        check_numeric_text(&chars)
    }
}

/// One frame's acceleration update: a press edge restarts the count at
/// zero, then every frame with the button down advances it, saturating
/// at the largest count. While the button is up the count is frozen;
/// `None` means no press has happened yet.
pub open spec fn accel_step(a: Option<u64>, pressed: bool, down: bool) -> Option<u64> {
    let after_press = if pressed {
        Some(0u64)
    } else {
        a
    };
    if down {
        match after_press {
            Some(n) => Some(
                if n < u64::MAX {
                    (n + 1) as u64
                } else {
                    n
                },
            ),
            None => None,
        }
    } else {
        after_press
    }
}

/// The acceleration count after `n` further frames with the button held
/// down (and no new press edge).
pub open spec fn accel_after_held(a: Option<u64>, n: nat) -> Option<u64>
    decreases n,
{
    if n == 0 {
        a
    } else {
        accel_step(accel_after_held(a, (n - 1) as nat), false, true)
    }
}

/// Acceleration grows monotonically: starting from any state, a press
/// edge followed by `n - 1` further held frames leaves the count at
/// exactly `n` — the drag speed factor is the growth base raised to
/// this count — and the next press edge restarts the count.
pub proof fn lemma_acceleration_growth(a0: Option<u64>, n: u64)
    requires
        1 <= n,
    ensures
        accel_after_held(accel_step(a0, true, true), (n - 1) as nat) == Some(n),
        accel_step(accel_after_held(accel_step(a0, true, true), (n - 1) as nat), true, true)
            == Some(1u64),
    decreases n,
{
    if n == 1 {
    } else {
        lemma_acceleration_growth(a0, (n - 1) as u64);
    }
}

/// An entry after the search phrase changed.
pub open spec fn reverted_entry(e: FileEntry) -> FileEntry {
    FileEntry { state: search_changed_spec(e.state), ..e }
}

/// `b` is `a` with every entry reverted for a changed search phrase.
pub open spec fn folder_reverted(a: Folder, b: Folder) -> bool {
    &&& b.path == a.path
    &&& b.expanded == a.expanded
    &&& b.to_be_deleted == a.to_be_deleted
    &&& b.files@.len() == a.files@.len()
    &&& forall|j: int|
        0 <= j < a.files@.len() ==> b.files@[j] == reverted_entry(#[trigger] a.files@[j])
}

/// The folders that survive the end-of-cycle purge.
pub open spec fn keep_folders(fs: Seq<Folder>) -> Seq<Folder>
    decreases fs.len(),
{
    if fs.len() == 0 {
        Seq::empty()
    } else {
        (if !fs[0].to_be_deleted {
            seq![fs[0]]
        } else {
            Seq::empty()
        }) + keep_folders(fs.skip(1))
    }
}

/// The session: the folders under view, the search phrase, the plot
/// viewport, and the transient per-run state (error log, drag
/// acceleration, copied options, color counter), which is never
/// persisted.
pub struct App {
    pub folders: Vec<Folder>,
    pub search_phrase: String,
    pub plot_dims: PlotDimensions,
    /// Transient: the rotating error log, capped at the most recent ten
    /// messages.
    pub errors: Vec<String>,
    /// Transient: the drag acceleration, modelled as the count of held
    /// frames since the last press edge.
    pub acceleration: Option<u64>,
    /// Transient: copied ingestion options awaiting a paste.
    pub copied_csvoptions: Option<CSVFile>,
    /// Transient: the running index from which fresh display colors are
    /// derived.
    pub color_idx: u64,
}

impl App {
    /// Every folder is well formed.
    pub open spec fn wf(&self) -> bool {
        forall|i: int| 0 <= i < self.folders@.len() ==> (#[trigger] self.folders@[i]).wf()
    }

    /// The transient fields hold their defaults.
    pub open spec fn transients_default(&self) -> bool {
        &&& self.errors@.len() == 0
        &&& self.acceleration is None
        &&& self.copied_csvoptions is None
        &&& self.color_idx == 0
    }

    /// A fresh session with the given search phrase and everything else
    /// at its default.
    pub fn with_search_phrase(phrase: &str) -> (app: App)
        ensures
            app.search_phrase@ == phrase@,
            app.folders@.len() == 0,
            app.plot_dims == (PlotDimensions { x0: 0u32, x1: 0u32, y0: 0u32, y1: 0u32 }),
            app.transients_default(),
            app.wf(),
    {
        App {
            folders: Vec::new(),
            search_phrase: String::from_str(phrase),
            plot_dims: PlotDimensions::default(),
            errors: Vec::new(),
            acceleration: None,
            copied_csvoptions: None,
            color_idx: 0,
        }
    }

    /// Keeps only the most recent ten error messages.
    pub fn trim_error_log(&mut self)
        ensures
            old(self).errors@.len() > 10 ==> final(self).errors@ == old(self).errors@.skip(
                old(self).errors@.len() - 10,
            ),
            old(self).errors@.len() <= 10 ==> final(self).errors@ == old(self).errors@,
            final(self).folders == old(self).folders,
            final(self).search_phrase == old(self).search_phrase,
            final(self).plot_dims == old(self).plot_dims,
            final(self).acceleration == old(self).acceleration,
            final(self).copied_csvoptions == old(self).copied_csvoptions,
            final(self).color_idx == old(self).color_idx,
    {
        if self.errors.len() > 10 {
            let n = self.errors.len() - 10;
            let tail = self.errors.split_off(n);
            self.errors = tail;
        }
    }

    /// Appends one message to the error log.
    pub fn push_error(&mut self, message: String)
        ensures
            final(self).errors@ == old(self).errors@.push(message),
            final(self).folders == old(self).folders,
            final(self).search_phrase == old(self).search_phrase,
            final(self).plot_dims == old(self).plot_dims,
            final(self).acceleration == old(self).acceleration,
            final(self).copied_csvoptions == old(self).copied_csvoptions,
            final(self).color_idx == old(self).color_idx,
    {
        self.errors.push(message);
    }

    /// Applies one frame's pointer sample to the drag acceleration.
    pub fn update_acceleration(&mut self, pressed: bool, down: bool)
        ensures
            final(self).acceleration == accel_step(old(self).acceleration, pressed, down),
            final(self).folders == old(self).folders,
            final(self).search_phrase == old(self).search_phrase,
            final(self).plot_dims == old(self).plot_dims,
            final(self).errors == old(self).errors,
            final(self).copied_csvoptions == old(self).copied_csvoptions,
            final(self).color_idx == old(self).color_idx,
    {
        if pressed {
            self.acceleration = Some(0);
        }
        if down {
            match self.acceleration {
                Some(n) => {
                    if n < u64::MAX {
                        self.acceleration = Some(n + 1);
                    }
                },
                None => (),
            }
        }
    }

    /// Draws the next color index; each newly shown entry takes one.
    pub fn next_color_index(&mut self) -> (idx: u64)
        ensures
            final(self).color_idx == (if old(self).color_idx < u64::MAX {
                old(self).color_idx + 1
            } else {
                old(self).color_idx as int
            }),
            idx == final(self).color_idx,
            final(self).folders == old(self).folders,
            final(self).search_phrase == old(self).search_phrase,
            final(self).plot_dims == old(self).plot_dims,
            final(self).errors == old(self).errors,
            final(self).acceleration == old(self).acceleration,
            final(self).copied_csvoptions == old(self).copied_csvoptions,
    {
        if self.color_idx < u64::MAX {
            self.color_idx = self.color_idx + 1;
        }
        self.color_idx
    }

    /// Purges the folders marked for deletion.
    pub fn delete_folders(&mut self)
        ensures
            final(self).folders@ == keep_folders(old(self).folders@),
            final(self).search_phrase == old(self).search_phrase,
            final(self).plot_dims == old(self).plot_dims,
            final(self).errors == old(self).errors,
            final(self).acceleration == old(self).acceleration,
            final(self).copied_csvoptions == old(self).copied_csvoptions,
            final(self).color_idx == old(self).color_idx,
    {
        let mut kept: Vec<Folder> = Vec::new();
        let ghost all = self.folders@;
        let ghost processed: int = 0;
        proof {
            assert(all.skip(0) =~= all);
            assert(Seq::<Folder>::empty() + keep_folders(all) =~= keep_folders(all));
        }
        while self.folders.len() > 0
            invariant
                0 <= processed <= all.len(),
                self.folders@ == all.skip(processed),
                kept@ + keep_folders(all.skip(processed)) == keep_folders(all),
                self.search_phrase == old(self).search_phrase,
                self.plot_dims == old(self).plot_dims,
                self.errors == old(self).errors,
                self.acceleration == old(self).acceleration,
                self.copied_csvoptions == old(self).copied_csvoptions,
                self.color_idx == old(self).color_idx,
            decreases self.folders@.len(),
        {
            let f = self.folders.remove(0);
            proof {
                assert(all.skip(processed)[0] == f);
                assert(all.skip(processed).skip(1) =~= all.skip(processed + 1));
                if !f.to_be_deleted {
                    assert(kept@.push(f) + keep_folders(all.skip(processed + 1)) =~= kept@ + (seq![
                        f,
                    ] + keep_folders(all.skip(processed + 1))));
                } else {
                    assert(Seq::<Folder>::empty() + keep_folders(all.skip(processed + 1))
                        =~= keep_folders(all.skip(processed + 1)));
                }
            }
            if !f.to_be_deleted {
                kept.push(f);
            }
            proof {
                processed = processed + 1;
            }
        }
        proof {
            assert(keep_folders(all.skip(processed)).len() == 0);
            assert(kept@ + keep_folders(all.skip(processed)) =~= kept@);
        }
        self.folders = kept;
    }

    /// Installs a new search phrase. When it differs from the current
    /// one, every `PreviouslyPlotted` entry reverts to `Idle`, so a
    /// changed filter keeps no stale ghosts; all other states are kept.
    pub fn set_search_phrase(&mut self, phrase: String)
        ensures
            final(self).search_phrase == phrase,
            final(self).plot_dims == old(self).plot_dims,
            final(self).errors == old(self).errors,
            final(self).acceleration == old(self).acceleration,
            final(self).copied_csvoptions == old(self).copied_csvoptions,
            final(self).color_idx == old(self).color_idx,
            old(self).search_phrase@ == phrase@ ==> final(self).folders == old(self).folders,
            old(self).search_phrase@ != phrase@ ==> final(self).folders@.len() == old(
                self,
            ).folders@.len() && forall|i: int|
                0 <= i < old(self).folders@.len() ==> folder_reverted(
                    #[trigger] old(self).folders@[i],
                    final(self).folders@[i],
                ),
    {
        let changed = !(self.search_phrase == phrase);
        if changed {
            let ghost before = self.folders@;
            let nf = self.folders.len();
            let mut i: usize = 0;
            while i < nf
                invariant
                    nf == self.folders@.len(),
                    before.len() == self.folders@.len(),
                    i <= nf,
                    self.search_phrase == old(self).search_phrase,
                    self.plot_dims == old(self).plot_dims,
                    self.errors == old(self).errors,
                    self.acceleration == old(self).acceleration,
                    self.copied_csvoptions == old(self).copied_csvoptions,
                    self.color_idx == old(self).color_idx,
                    forall|k: int|
                        0 <= k < i ==> folder_reverted(before[k], #[trigger] self.folders@[k]),
                    forall|k: int| i <= k < nf ==> self.folders@[k] == before[k],
                decreases nf - i,
            {
                let nfiles = self.folders[i].files.len();
                let ghost before_files = self.folders@[i as int].files@;
                let mut j: usize = 0;
                while j < nfiles
                    invariant
                        i < nf,
                        nf == self.folders@.len(),
                        before.len() == self.folders@.len(),
                        self.search_phrase == old(self).search_phrase,
                        self.plot_dims == old(self).plot_dims,
                        self.errors == old(self).errors,
                        self.acceleration == old(self).acceleration,
                        self.copied_csvoptions == old(self).copied_csvoptions,
                        self.color_idx == old(self).color_idx,
                        nfiles == self.folders@[i as int].files@.len(),
                        before_files.len() == nfiles,
                        j <= nfiles,
                        self.folders@[i as int].path == before[i as int].path,
                        self.folders@[i as int].expanded == before[i as int].expanded,
                        self.folders@[i as int].to_be_deleted == before[i as int].to_be_deleted,
                        before_files == before[i as int].files@,
                        forall|t: int|
                            0 <= t < j ==> self.folders@[i as int].files@[t] == reverted_entry(
                                #[trigger] before_files[t],
                            ),
                        forall|t: int|
                            j <= t < nfiles ==> self.folders@[i as int].files@[t]
                                == before_files[t],
                        forall|k: int|
                            0 <= k < i ==> folder_reverted(before[k], #[trigger] self.folders@[k]),
                        forall|k: int| i < k < nf ==> self.folders@[k] == before[k],
                    decreases nfiles - j,
                {
                    let entry = &mut self.folders[i].files[j];
                    entry.search_phrase_changed();
                    j = j + 1;
                }
                i = i + 1;
            }
        }
        self.search_phrase = phrase;
    }

    /// Writes this session's persistent fields as one snapshot text;
    /// the caller stores it. Together with `load_state` this is the
    /// round trip: loading the returned text restores every persistent
    /// field and resets the transient ones.
    pub fn save_state(&self) -> (text: String)
        requires
            self.wf(),
        ensures
            text@ == enc_session(session_model(*self)),
            session_m_wf(session_model(*self)),
    {
        save_session(self)
    }

    /// Replaces the persistent fields from a snapshot text and resets
    /// the transient fields to their defaults; any text `save_state`
    /// wrote restores the saved session. On a malformed text the
    /// session stays unchanged and the error is returned.
    pub fn load_state(&mut self, text: &str) -> (r: Result<(), String>)
        ensures
            forall|m: SessionM|
                session_m_wf(m) && text@ == enc_session(m) ==> (r is Ok && session_model(
                    *final(self),
                ) == m),
            r is Ok ==> final(self).wf() && final(self).transients_default(),
            r matches Err(e) ==> *final(self) == *old(self) && e@ == malformed_snapshot_message(),
    {
        match load_session(text) {
            Ok(app) => {
                *self = app;
                Ok(())
            },
            Err(e) => Err(e),
        }
    }
}

impl Default for App {
    /// A fresh session: no folders, an empty search phrase, zeroed
    /// viewport bounds, and the transient fields at their defaults.
    fn default() -> (app: App)
        ensures
            app.search_phrase@.len() == 0,
            app.folders@.len() == 0,
            app.plot_dims == (PlotDimensions { x0: 0u32, x1: 0u32, y0: 0u32, y1: 0u32 }),
            app.transients_default(),
            app.wf(),
    {
        App {
            folders: Vec::new(),
            search_phrase: String::new(),
            plot_dims: PlotDimensions::default(),
            errors: Vec::new(),
            acceleration: None,
            copied_csvoptions: None,
            color_idx: 0,
        }
    }
}

} // verus!
