//! An interactive viewer for numeric data extracted from delimited text
//! files: folders of files are browsed, each file is ingested into a series
//! of points under per-file options, and the series are shown with
//! per-file transforms that continuous pointer gestures edit.
//!
//! This crate holds the verified core: the per-file display state machine,
//! the tolerant ingestion pipeline, the session aggregate with its
//! transient frame state, and the session snapshot codec. Window chrome,
//! dialogs and rendering live outside the library and talk to it through
//! plain values.

pub mod app;
pub mod codec;
pub mod csvfile;
pub mod errors;
pub mod event;
pub mod file_entry;
pub mod folder;
pub mod plot;
pub mod text;

pub use app::App;
pub use app::FloatInput;
pub use file_entry::FileEntry;
pub use file_entry::FileEntryState;
pub use folder::Folder;
