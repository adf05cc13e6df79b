//! One tracked file: its series, transform fields, display state, and
//! the transitions of that state.

use vstd::prelude::*;
use vstd::string::StringExecFns;
use crate::app::FloatInput;
use crate::csvfile::{
    csv_records, ingest_points, read_error_message, warn_count_opt, CSVFile, FileReadResult,
};
use crate::plot::{transparent_color, Color};
use crate::text::{all_tokens_match, matches_tokens, str_to_char_vec};

verus! {

/// Display state of a file entry.
///
/// * `Idle`: not shown, no successful ingestion yet (or re-idled).
/// * `Plotted`: shown in the plot, not receiving transform edits.
/// * `Active`: shown in the plot and the target of pointer-driven
///   transform edits.
/// * `PreviouslyPlotted`: was shown, then hidden by a narrowed search
///   phrase; still listed so it can be found again, but not plotted.
/// * `NeedsConfig`: ingestion was attempted and yielded no usable row;
///   listed with an error emphasis and excluded from the plot.
#[derive(Clone, Copy, PartialEq, Eq, Structural, Debug)]
pub enum FileEntryState {
    Idle,
    Plotted,
    PreviouslyPlotted,
    Active,
    NeedsConfig,
}

/// State after a primary click on an entry that already holds data or is
/// `NeedsConfig` (the branch of the click transition that does not ingest).
pub open spec fn toggle_click_spec(s: FileEntryState) -> FileEntryState {
    match s {
        FileEntryState::Active | FileEntryState::Plotted => FileEntryState::PreviouslyPlotted,
        FileEntryState::Idle | FileEntryState::PreviouslyPlotted => FileEntryState::Plotted,
        FileEntryState::NeedsConfig => FileEntryState::Idle,
    }
}

/// State after a secondary click: toggles between `Plotted` and `Active`
/// only.
pub open spec fn secondary_click_spec(s: FileEntryState) -> FileEntryState {
    match s {
        FileEntryState::Plotted => FileEntryState::Active,
        FileEntryState::Active => FileEntryState::Plotted,
        _ => s,
    }
}

/// State after the global search phrase changes: `PreviouslyPlotted`
/// reverts to `Idle`, every other state is kept.
pub open spec fn search_changed_spec(s: FileEntryState) -> FileEntryState {
    match s {
        FileEntryState::PreviouslyPlotted => FileEntryState::Idle,
        _ => s,
    }
}

/// How an entry's label is rendered in the folder listing.
#[derive(Clone, Copy, PartialEq, Eq, Structural, Debug)]
pub enum LabelStyle {
    /// Plain text: `Idle` and `PreviouslyPlotted`.
    Plain,
    /// Text on the entry's color: `Plotted`.
    OnColor,
    /// Dimmed text on the entry's color: `Active`.
    OnColorDimmed,
    /// Error emphasis: `NeedsConfig`.
    Error,
}

/// One file tracked by the session.
pub struct FileEntry {
    pub filename: String,
    pub data_file: CSVFile,
    pub scale: FloatInput,
    pub offset: FloatInput,
    pub xoffset: FloatInput,
    pub color: Color,
    pub state: FileEntryState,
    pub id: usize,
    /// The first lines of the raw file, shown on hover.
    pub preview: String,
}

/// A freshly scanned entry: idle, default transforms, no color, an
/// empty series under the default parameters named after the file.
pub open spec fn is_fresh_entry(e: FileEntry, name: Seq<char>, preview: Seq<char>, id: int) -> bool {
    &&& e.filename@ == name
    &&& e.preview@ == preview
    &&& e.id == id
    &&& e.state == FileEntryState::Idle
    &&& e.scale.input@ == "1.0"@
    &&& e.offset.input@ == "0.0"@
    &&& e.xoffset.input@ == "0.0"@
    &&& e.color == transparent_color()
    &&& e.data_file.filepath@ == name
    &&& e.data_file.data@.len() == 0
    &&& e.data_file.delimiter == 44u8
    &&& e.data_file.comment_char == 35u8
    &&& e.data_file.xcol == 1usize
    &&& e.data_file.ycol == 2usize
    &&& e.data_file.skip_header == 0usize
    &&& e.data_file.skip_footer == 0usize
}

impl FileEntry {
    /// The stored series is well formed.
    pub open spec fn wf(&self) -> bool {
        self.data_file.wf()
    }

    /// Builds a freshly scanned entry.
    pub fn new(filename: String, preview: String, id: usize) -> (e: FileEntry)
        ensures
            is_fresh_entry(e, filename@, preview@, id as int),
            e.wf(),
    {
        let mut data_file = CSVFile::default();
        data_file.filepath = filename.clone();
        FileEntry {
            filename,
            data_file,
            scale: FloatInput { input: String::from_str("1.0") },
            offset: FloatInput { input: String::from_str("0.0") },
            xoffset: FloatInput { input: String::from_str("0.0") },
            color: Color::transparent(),
            state: FileEntryState::Idle,
            id,
            preview,
        }
    }

    /// How the entry's label is rendered, by state.
    pub fn label_style(&self) -> (style: LabelStyle)
        ensures
            style == match self.state {
                FileEntryState::Idle | FileEntryState::PreviouslyPlotted => LabelStyle::Plain,
                FileEntryState::Plotted => LabelStyle::OnColor,
                FileEntryState::Active => LabelStyle::OnColorDimmed,
                FileEntryState::NeedsConfig => LabelStyle::Error,
            },
    {
        match self.state {
            FileEntryState::Idle | FileEntryState::PreviouslyPlotted => LabelStyle::Plain,
            FileEntryState::Plotted => LabelStyle::OnColor,
            FileEntryState::Active => LabelStyle::OnColorDimmed,
            FileEntryState::NeedsConfig => LabelStyle::Error,
        }
    }

    /// An entry is listed when the search phrase matches and its folder
    /// is expanded, or regardless of the phrase when its state is not
    /// `Idle` — where `PreviouslyPlotted` additionally asks for the
    /// folder to be expanded.
    pub fn should_be_listed(&self, search_phrase: &str, folder_is_expanded: bool) -> (r: bool)
        ensures
            r == (
            (all_tokens_match(self.filename@, search_phrase@) && folder_is_expanded) || (self.state
                != FileEntryState::Idle && (self.state != FileEntryState::PreviouslyPlotted
                || folder_is_expanded))),
    {
        let name = str_to_char_vec(self.filename.as_str());
        let phrase = str_to_char_vec(search_phrase);
        let matches = matches_tokens(&name, &phrase);
        (matches && folder_is_expanded) || (self.state != FileEntryState::Idle && (self.state
            != FileEntryState::PreviouslyPlotted || folder_is_expanded))
    }

    /// The entry is the target of pointer-driven transform edits.
    pub fn is_active(&self) -> (r: bool)
        ensures
            r == (self.state == FileEntryState::Active),
    {
        self.state == FileEntryState::Active
    }

    pub fn set_active(&mut self)
        ensures
            *final(self) == (FileEntry { state: FileEntryState::Active, ..*old(self) }),
    {
        self.state = FileEntryState::Active;
    }

    /// Plot membership as the settings menu sees it: `Plotted`, `Active`
    /// and `NeedsConfig` (the last so its parameters can be fixed).
    pub fn is_plotted(&self) -> (r: bool)
        ensures
            r == (self.state == FileEntryState::Plotted || self.state == FileEntryState::Active
                || self.state == FileEntryState::NeedsConfig),
    {
        match self.state {
            FileEntryState::Plotted | FileEntryState::Active | FileEntryState::NeedsConfig => true,
            FileEntryState::Idle | FileEntryState::PreviouslyPlotted => false,
        }
    }

    /// The drawing predicate: only `Plotted` and `Active` entries are
    /// drawn.
    pub fn is_drawn(&self) -> (r: bool)
        ensures
            r == (self.state == FileEntryState::Plotted || self.state == FileEntryState::Active),
    {
        match self.state {
            FileEntryState::Plotted | FileEntryState::Active => true,
            _ => false,
        }
    }

    pub fn was_just_plotted(&self) -> (r: bool)
        ensures
            r,
    {
        match self.state {
            FileEntryState::Idle
            | FileEntryState::Plotted
            | FileEntryState::Active
            | FileEntryState::NeedsConfig => true,
            FileEntryState::PreviouslyPlotted => true,
        }
    }

    /// A primary click on this entry would attempt ingestion rather
    /// than toggle: it has no data yet and is not `NeedsConfig`.
    pub open spec fn wants_ingest_spec(&self) -> bool {
        self.data_file.data@.len() == 0 && self.state != FileEntryState::NeedsConfig
    }

    /// Decides `wants_ingest_spec`, so the caller knows whether a click
    /// needs the file's bytes.
    pub fn wants_ingest(&self) -> (r: bool)
        ensures
            r == self.wants_ingest_spec(),
    {
        self.data_file.data.len() == 0 && self.state != FileEntryState::NeedsConfig
    }

    /// Primary click. An entry without data (and not `NeedsConfig`)
    /// attempts ingestion from the read bytes: one or more points give
    /// `Plotted` with the new series; a read failure or an empty yield
    /// gives `NeedsConfig` with the series untouched. Every other entry
    /// toggles: shown states hide, hidden states show, `NeedsConfig`
    /// re-idles.
    pub fn clicked(&mut self, folder_path: &str, contents: &FileReadResult, error_log: &mut Vec<
        String,
    >)
        requires
            old(self).wf(),
        ensures
            final(self).wf(),
            final(self).filename == old(self).filename,
            final(self).scale == old(self).scale,
            final(self).offset == old(self).offset,
            final(self).xoffset == old(self).xoffset,
            final(self).color == old(self).color,
            final(self).id == old(self).id,
            final(self).preview == old(self).preview,
            !old(self).wants_ingest_spec() ==> {
                &&& final(self).state == toggle_click_spec(old(self).state)
                &&& final(self).data_file == old(self).data_file
                &&& *final(error_log) == *old(error_log)
            },
            old(self).wants_ingest_spec() ==> match contents {
                FileReadResult::Failed(e) => {
                    &&& final(self).state == FileEntryState::NeedsConfig
                    &&& final(self).data_file == old(self).data_file
                    &&& final(error_log).deep_view() == old(error_log).deep_view().push(
                        read_error_message(folder_path@ + "/"@ + old(self).filename@, e@),
                    )
                },
                FileReadResult::Contents(bytes) => {
                    let pts = ingest_points(
                        bytes@,
                        old(self).data_file.delimiter,
                        old(self).data_file.comment_char,
                        old(self).data_file.xcol as int,
                        old(self).data_file.ycol as int,
                    );
                    if pts.len() > 0 {
                        &&& final(self).state == FileEntryState::Plotted
                        &&& final(self).data_file.data.deep_view() == pts
                        &&& final(self).data_file.filepath@ == folder_path@ + "/"@
                            + old(self).filename@
                        &&& final(self).data_file.delimiter == old(self).data_file.delimiter
                        &&& final(self).data_file.comment_char == old(self).data_file.comment_char
                        &&& final(self).data_file.xcol == old(self).data_file.xcol
                        &&& final(self).data_file.ycol == old(self).data_file.ycol
                        &&& final(self).data_file.skip_header == old(self).data_file.skip_header
                        &&& final(self).data_file.skip_footer == old(self).data_file.skip_footer
                    } else {
                        final(self).state == FileEntryState::NeedsConfig && final(self).data_file
                            == old(self).data_file
                    }
                },
            },
            old(self).wants_ingest_spec() ==> match contents {
                FileReadResult::Contents(bytes) => exists|ws: Seq<Seq<char>>|
                    final(error_log).deep_view() == old(error_log).deep_view() + ws && ws.len()
                        == warn_count_opt(
                        csv_records(
                            bytes@,
                            old(self).data_file.delimiter,
                            old(self).data_file.comment_char,
                        ),
                        old(self).data_file.xcol as int,
                        old(self).data_file.ycol as int,
                    ),
                FileReadResult::Failed(_) => true,
            },
    {
        if self.wants_ingest() {
            let mut filepath = String::from_str(folder_path);
            filepath.append("/");
            filepath.append(self.filename.as_str());
            match CSVFile::new(
                filepath,
                contents,
                self.data_file.xcol,
                self.data_file.ycol,
                self.data_file.delimiter,
                self.data_file.comment_char,
                self.data_file.skip_header,
                self.data_file.skip_footer,
                error_log,
            ) {
                Some(csvfile) => {
                    self.state = FileEntryState::Plotted;
                    self.data_file = csvfile;
                },
                None => {
                    self.state = FileEntryState::NeedsConfig;
                },
            }
        } else {
            self.state = match self.state {
                FileEntryState::Active | FileEntryState::Plotted => {
                    FileEntryState::PreviouslyPlotted
                },
                FileEntryState::Idle | FileEntryState::PreviouslyPlotted => FileEntryState::Plotted,
                FileEntryState::NeedsConfig => FileEntryState::Idle,
            };
        }
    }

    /// Secondary click: toggles between `Plotted` and `Active` only.
    pub fn secondary_clicked(&mut self)
        ensures
            *final(self) == (FileEntry {
                state: secondary_click_spec(old(self).state),
                ..*old(self)
            }),
    {
        match self.state {
            FileEntryState::Plotted => self.state = FileEntryState::Active,
            FileEntryState::Active => self.state = FileEntryState::Plotted,
            _ => (),
        }
    }

    /// The global search phrase changed: `PreviouslyPlotted` reverts to
    /// `Idle`.
    pub fn search_phrase_changed(&mut self)
        ensures
            *final(self) == (FileEntry {
                state: search_changed_spec(old(self).state),
                ..*old(self)
            }),
    {
        self.state = match self.state {
            FileEntryState::PreviouslyPlotted => FileEntryState::Idle,
            FileEntryState::Idle => FileEntryState::Idle,
            FileEntryState::Plotted => FileEntryState::Plotted,
            FileEntryState::Active => FileEntryState::Active,
            FileEntryState::NeedsConfig => FileEntryState::NeedsConfig,
        };
    }

    /// Best-effort refresh: re-ingests with the entry's current
    /// parameters; on success the series is replaced in place, on
    /// failure (read error or empty yield) the previous series and the
    /// state stay untouched.
    pub fn reload_csv(&mut self, folder_path: &str, contents: &FileReadResult, error_log: &mut Vec<
        String,
    >)
        requires
            old(self).wf(),
        ensures
            final(self).wf(),
            final(self).filename == old(self).filename,
            final(self).scale == old(self).scale,
            final(self).offset == old(self).offset,
            final(self).xoffset == old(self).xoffset,
            final(self).color == old(self).color,
            final(self).id == old(self).id,
            final(self).preview == old(self).preview,
            final(self).state == old(self).state,
            contents matches FileReadResult::Failed(e) ==> final(error_log).deep_view() == (old(
                error_log,
            )).deep_view().push(
                read_error_message(folder_path@ + "/"@ + old(self).filename@, e@),
            ),
            match contents {
                FileReadResult::Failed(_) => final(self).data_file == old(self).data_file,
                FileReadResult::Contents(bytes) => {
                    let pts = ingest_points(
                        bytes@,
                        old(self).data_file.delimiter,
                        old(self).data_file.comment_char,
                        old(self).data_file.xcol as int,
                        old(self).data_file.ycol as int,
                    );
                    if pts.len() > 0 {
                        &&& final(self).data_file.data.deep_view() == pts
                        &&& final(self).data_file.filepath@ == folder_path@ + "/"@
                            + old(self).filename@
                        &&& final(self).data_file.delimiter == old(self).data_file.delimiter
                        &&& final(self).data_file.comment_char == old(self).data_file.comment_char
                        &&& final(self).data_file.xcol == old(self).data_file.xcol
                        &&& final(self).data_file.ycol == old(self).data_file.ycol
                        &&& final(self).data_file.skip_header == old(self).data_file.skip_header
                        &&& final(self).data_file.skip_footer == old(self).data_file.skip_footer
                    } else {
                        final(self).data_file == old(self).data_file
                    }
                },
            },
            match contents {
                FileReadResult::Contents(bytes) => exists|ws: Seq<Seq<char>>|
                    final(error_log).deep_view() == old(error_log).deep_view() + ws && ws.len()
                        == warn_count_opt(
                        csv_records(
                            bytes@,
                            old(self).data_file.delimiter,
                            old(self).data_file.comment_char,
                        ),
                        old(self).data_file.xcol as int,
                        old(self).data_file.ycol as int,
                    ),
                FileReadResult::Failed(_) => true,
            },
    {
        let mut filepath = String::from_str(folder_path);
        filepath.append("/");
        filepath.append(self.filename.as_str());
        if let Some(csvfile) = CSVFile::new(
            filepath,
            contents,
            self.data_file.xcol,
            self.data_file.ycol,
            self.data_file.delimiter,
            self.data_file.comment_char,
            self.data_file.skip_header,
            self.data_file.skip_footer,
            error_log,
        ) {
            self.data_file = csvfile;
        }
    }
}

/// Builds the entries of one scanned folder: one fresh entry per listed
/// file name and preview, with ids drawn from the running counter.
pub fn get_file_entries(listing: Vec<(String, String)>, id_counter: &mut usize) -> (entries: Vec<
    FileEntry,
>)
    requires
        old(id_counter) + listing@.len() <= usize::MAX,
    ensures
        entries@.len() == listing@.len(),
        *final(id_counter) == *old(id_counter) + listing@.len(),
        forall|i: int|
            0 <= i < entries@.len() ==> is_fresh_entry(
                #[trigger] entries@[i],
                listing@[i].0@,
                listing@[i].1@,
                *old(id_counter) + i,
            ),
{
    let mut entries: Vec<FileEntry> = Vec::new();
    let mut remaining = listing;
    let ghost all = remaining@;
    let mut i: usize = 0;
    while remaining.len() > 0
        invariant
            all.len() <= usize::MAX,
            i + remaining@.len() == all.len(),
            remaining@ == all.skip(i as int),
            *id_counter == *old(id_counter) + i,
            *old(id_counter) + all.len() <= usize::MAX,
            entries@.len() == i,
            forall|k: int|
                0 <= k < i ==> is_fresh_entry(
                    #[trigger] entries@[k],
                    all[k].0@,
                    all[k].1@,
                    *old(id_counter) + k,
                ),
        decreases remaining@.len(),
    {
        let (name, preview) = remaining.remove(0);
        assert(all.skip(i as int)[0] == all[i as int]);
        assert(all.skip(i as int).skip(1) =~= all.skip(i + 1));
        let entry = FileEntry::new(name, preview, *id_counter);
        entries.push(entry);
        *id_counter = *id_counter + 1;
        i = i + 1;
    }
    assert(all.skip(i as int).len() == 0);
    entries
}

/// The transition tables, row by row: for every state, each input
/// (ingest-free primary click, secondary click, search-phrase change)
/// determines the next state from the current state alone.
pub proof fn lemma_transition_tables()
    ensures
        toggle_click_spec(FileEntryState::Idle) == FileEntryState::Plotted,
        toggle_click_spec(FileEntryState::Plotted) == FileEntryState::PreviouslyPlotted,
        toggle_click_spec(FileEntryState::PreviouslyPlotted) == FileEntryState::Plotted,
        toggle_click_spec(FileEntryState::Active) == FileEntryState::PreviouslyPlotted,
        toggle_click_spec(FileEntryState::NeedsConfig) == FileEntryState::Idle,
        secondary_click_spec(FileEntryState::Idle) == FileEntryState::Idle,
        secondary_click_spec(FileEntryState::Plotted) == FileEntryState::Active,
        secondary_click_spec(FileEntryState::PreviouslyPlotted)
            == FileEntryState::PreviouslyPlotted,
        secondary_click_spec(FileEntryState::Active) == FileEntryState::Plotted,
        secondary_click_spec(FileEntryState::NeedsConfig) == FileEntryState::NeedsConfig,
        search_changed_spec(FileEntryState::Idle) == FileEntryState::Idle,
        search_changed_spec(FileEntryState::Plotted) == FileEntryState::Plotted,
        search_changed_spec(FileEntryState::PreviouslyPlotted) == FileEntryState::Idle,
        search_changed_spec(FileEntryState::Active) == FileEntryState::Active,
        search_changed_spec(FileEntryState::NeedsConfig) == FileEntryState::NeedsConfig,
{
}

/// A changed search phrase reverts exactly the `PreviouslyPlotted`
/// entries to `Idle` and moves nothing else: in particular an `Active`
/// entry stays `Active`.
pub proof fn lemma_search_phrase_reversion()
    ensures
        search_changed_spec(FileEntryState::PreviouslyPlotted) == FileEntryState::Idle,
        search_changed_spec(FileEntryState::Active) == FileEntryState::Active,
        forall|s: FileEntryState|
            s != FileEntryState::PreviouslyPlotted ==> search_changed_spec(s) == s,
{
}

} // verus!
