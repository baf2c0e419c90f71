//! Data model of the listing engine: snapshots of filesystem entries,
//! the records handed back to the caller, and the conversion from raw
//! metadata values to a `File` record.

use vstd::prelude::*;

verus! {

/// What kind of filesystem object an entry's metadata reported.
#[derive(Clone, Copy, Debug, PartialEq, Eq, Structural)]
pub enum EntryKind {
    /// A regular file.
    File,
    /// A directory.
    Dir,
    /// Neither a regular file nor a directory (device, socket, ...).
    Other,
}

/// Plain metadata of one filesystem entry, as the host reported it.
/// Timestamps are whole seconds since the epoch, `None` where the
/// platform could not supply that timestamp kind.
#[derive(Clone, Copy, Debug, PartialEq, Eq, Structural)]
pub struct FileMeta {
    pub kind: EntryKind,
    pub size: u64,
    pub readonly: bool,
    pub created: Option<u64>,
    pub modified: Option<u64>,
    pub accessed: Option<u64>,
}

/// One entry of an enumerated directory: its base name, its full path,
/// and its metadata, `None` when the metadata fetch failed and the
/// entry is to be skipped.
#[derive(Clone, Debug)]
pub struct Entry {
    pub name: String,
    pub path: String,
    pub meta: Option<FileMeta>,
}

/// Mathematical value of an `Entry`.
pub struct EntryV {
    pub name: Seq<char>,
    pub path: Seq<char>,
    pub meta: Option<FileMeta>,
}

impl View for Entry {
    type V = EntryV;

    open spec fn view(&self) -> EntryV {
        EntryV { name: self.name@, path: self.path@, meta: self.meta }
    }
}

/// Snapshot of one regular file: base name, size in bytes, read-only
/// flag, and best-effort timestamps in whole seconds since the epoch.
#[derive(Clone, Debug)]
pub struct File {
    pub name: String,
    pub size: u64,
    pub readonly: bool,
    pub created: Option<u64>,
    pub modified: Option<u64>,
    pub accessed: Option<u64>,
}

/// Mathematical value of a `File`.
pub struct FileV {
    pub name: Seq<char>,
    pub size: u64,
    pub readonly: bool,
    pub created: Option<u64>,
    pub modified: Option<u64>,
    pub accessed: Option<u64>,
}

impl View for File {
    type V = FileV;

    open spec fn view(&self) -> FileV {
        FileV {
            name: self.name@,
            size: self.size,
            readonly: self.readonly,
            created: self.created,
            modified: self.modified,
            accessed: self.accessed,
        }
    }
}

/// Snapshot of one directory level: its resolved absolute path, the
/// `File` records directly inside it, and the base names of its
/// immediate subdirectories.
#[derive(Clone, Debug)]
pub struct Directory {
    pub path: String,
    pub files: Vec<File>,
    pub subdirectories: Vec<String>,
}

/// Mathematical value of a `Directory`.
pub struct DirectoryV {
    pub path: Seq<char>,
    pub files: Seq<FileV>,
    pub subdirectories: Seq<Seq<char>>,
}

impl View for Directory {
    type V = DirectoryV;

    open spec fn view(&self) -> DirectoryV {
        DirectoryV {
            path: self.path@,
            files: self.files@.map_values(|f: File| f@),
            subdirectories: self.subdirectories@.map_values(|s: String| s@),
        }
    }
}

/// Outcome of one listing call: either the collected directory
/// records, or the text of the single file that the path named.
/// Exactly one of the two, never both.
#[derive(Debug)]
pub enum ListResult {
    Directories(Vec<Directory>),
    FileContents(String),
}

/// The `File` record that a successfully read entry yields.
pub open spec fn file_of(name: Seq<char>, m: FileMeta) -> FileV {
    FileV {
        name: name,
        size: m.size,
        readonly: m.readonly,
        created: m.created,
        modified: m.modified,
        accessed: m.accessed,
    }
}

/// Builds the `File` record for one entry from its base name and its
/// already-extracted metadata values.
pub fn metadata_to_file(name: &str, meta: &FileMeta) -> (r: File)
    ensures
        r@ == file_of(name@, *meta),
{
    File {
        name: name.to_owned(),
        size: meta.size,
        readonly: meta.readonly,
        created: meta.created,
        modified: meta.modified,
        accessed: meta.accessed,
    }
}

#[verifier::external_type_specification]
#[verifier::external_body]
pub struct ExSystemTime(std::time::SystemTime);

/// The whole seconds from the epoch to the given instant: `None`
/// exactly for an instant before the epoch, else the elapsed seconds
/// truncated. An instant is a fixed point in time, so this is a
/// function of its argument alone.
pub uninterp spec fn epoch_secs_of(t: std::time::SystemTime) -> Option<u64>;

/// Relies on std::time::SystemTime::duration_since, measured against
/// std::time::UNIX_EPOCH (`Ok` with the elapsed duration exactly when
/// the time is at or after the epoch, `Err` before it), and on
/// core::time::Duration::as_secs (the duration's whole seconds):
/// together the fixed function of the instant that `epoch_secs_of`
/// names.
#[verifier::external_body]
fn secs_since_epoch(t: &std::time::SystemTime) -> (r: Option<u64>)
    ensures
        r == epoch_secs_of(*t),
{
    match t.duration_since(std::time::UNIX_EPOCH) {
        Ok(d) => Some(d.as_secs()),
        Err(_) => None,
    }
}

/// Converts an optional timestamp to whole seconds since the epoch:
/// `None` in gives `None`; a present instant yields exactly its
/// seconds since the epoch (`None` only before the epoch); a
/// timestamp is never fabricated.
pub fn system_time_to_epoch(time: Option<std::time::SystemTime>) -> (r: Option<u64>)
    ensures
        time is None ==> r is None,
        time matches Some(t) ==> r == epoch_secs_of(t),
{
    match time {
        None => None,
        Some(t) => secs_since_epoch(&t),
    }
}

} // verus!
