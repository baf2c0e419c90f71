//! The depth-limited directory walk. The engine keeps an explicit
//! work list of directories still to visit; the surrounding process
//! enumerates one directory at a time and hands the entries back as
//! plain values. The engine classifies the entries, builds the sorted
//! record of the level, queues subdirectories while the depth limit
//! allows, and finally orders all collected records by path.

use vstd::prelude::*;
use vstd::multiset::Multiset;
use crate::model::Directory;
use crate::model::DirectoryV;
use crate::model::Entry;
use crate::model::EntryKind;
use crate::model::EntryV;
use crate::model::File;
use crate::model::FileV;
use crate::model::file_of;
use crate::model::metadata_to_file;
use crate::order::ci_le;
use crate::order::lower_of;
use crate::order::dir_keys;
use crate::order::dir_views;
use crate::order::file_keys;
use crate::order::file_views;
use crate::order::sort_dirs;
use crate::order::sort_files;
use crate::order::sort_names;
use crate::order::name_le;
use crate::order::sorted_names;
use crate::order::sorted_lex;
use crate::order::string_keys;

verus! {

/// What to do with the resolved target of a listing call.
#[derive(Clone, Copy, Debug, PartialEq, Eq, Structural)]
pub enum TargetAction {
    /// The target is a regular file: read it and return its contents.
    ReadFile,
    /// The target is a directory: walk it.
    WalkDir,
    /// Neither file nor directory: the call fails, naming the
    /// resolved path.
    Invalid,
}

/// The dispatch rule on the resolved target's kind.
pub open spec fn spec_target_action(kind: EntryKind) -> TargetAction {
    match kind {
        EntryKind::File => TargetAction::ReadFile,
        EntryKind::Dir => TargetAction::WalkDir,
        EntryKind::Other => TargetAction::Invalid,
    }
}

/// Decides how the resolved target is handled; a directory is walked,
/// never read as a file.
pub fn target_action(kind: EntryKind) -> (r: TargetAction)
    ensures
        r == spec_target_action(kind),
        kind is Dir ==> !(r is ReadFile),
{
    match kind {
        EntryKind::File => TargetAction::ReadFile,
        EntryKind::Dir => TargetAction::WalkDir,
        EntryKind::Other => TargetAction::Invalid,
    }
}

/// A failure to enumerate a directory aborts the whole call only at
/// the walk's starting directory, the one at depth zero; deeper in,
/// the subtree is skipped and the walk goes on.
pub fn failure_aborts(depth: u32) -> (r: bool)
    ensures
        r == (depth == 0),
{
    depth == 0
}

/// The entry was read and is a regular file.
pub open spec fn entry_is_file(e: EntryV) -> bool {
    match e.meta {
        Some(m) => m.kind is File,
        None => false,
    }
}

/// The entry was read and is a directory.
pub open spec fn entry_is_dir(e: EntryV) -> bool {
    match e.meta {
        Some(m) => m.kind is Dir,
        None => false,
    }
}

/// The file record of a readable file entry.
pub open spec fn entry_file_record(e: EntryV) -> FileV {
    match e.meta {
        Some(m) => file_of(e.name, m),
        None => FileV {
            name: e.name,
            size: 0,
            readonly: false,
            created: None,
            modified: None,
            accessed: None,
        },
    }
}

/// The mathematical values of a sequence of entries.
pub open spec fn entry_views(es: Seq<Entry>) -> Seq<EntryV> {
    es.map_values(|e: Entry| e@)
}

/// The file records of the readable file entries, in enumeration
/// order.
pub open spec fn file_records_of(es: Seq<EntryV>) -> Seq<FileV> {
    es.filter(|e: EntryV| entry_is_file(e)).map_values(|e: EntryV| entry_file_record(e))
}

/// The names of the readable subdirectory entries, in enumeration
/// order.
pub open spec fn subdir_names_of(es: Seq<EntryV>) -> Seq<Seq<char>> {
    es.filter(|e: EntryV| entry_is_dir(e)).map_values(|e: EntryV| e.name)
}

/// The paths of the readable subdirectory entries, in enumeration
/// order.
pub open spec fn subdir_paths_of(es: Seq<EntryV>) -> Seq<Seq<char>> {
    es.filter(|e: EntryV| entry_is_dir(e)).map_values(|e: EntryV| e.path)
}

/// Appending an element extends the filtered sequence exactly when
/// the element passes the filter.
pub broadcast proof fn lemma_filter_push<A>(s: Seq<A>, x: A, p: spec_fn(A) -> bool)
    ensures
        #[trigger] s.push(x).filter(p) == if p(x) {
            s.filter(p).push(x)
        } else {
            s.filter(p)
        },
{
    reveal(Seq::filter);
    assert(s.push(x).drop_last() =~= s);
    assert(s.push(x).last() == x);
}

/// Mapping distributes over appending an element.
pub broadcast proof fn lemma_map_values_push<A, B>(s: Seq<A>, x: A, f: spec_fn(A) -> B)
    ensures
        #[trigger] s.push(x).map_values(f) == s.map_values(f).push(f(x)),
{
    assert(s.push(x).map_values(f) =~= s.map_values(f).push(f(x)));
}

/// An entry whose metadata could not be read contributes nothing: the
/// records, names and paths drawn from the listing are those of the
/// listing without it. A skipped entry never disturbs its siblings.
pub proof fn lemma_unreadable_entry_omitted(es: Seq<EntryV>, i: int)
    requires
        0 <= i < es.len(),
        es[i].meta is None,
    ensures
        file_records_of(es) == file_records_of(es.remove(i)),
        subdir_names_of(es) == subdir_names_of(es.remove(i)),
        subdir_paths_of(es) == subdir_paths_of(es.remove(i)),
{
    broadcast use lemma_filter_push;

    let a = es.take(i);
    let b = es.skip(i + 1);
    let x = es[i];
    assert(es =~= a.push(x) + b);
    assert(es.remove(i) =~= a + b);
    assert(!entry_is_file(x));
    assert(!entry_is_dir(x));
    let pf = |e: EntryV| entry_is_file(e);
    let pd = |e: EntryV| entry_is_dir(e);
    Seq::filter_distributes_over_add(a.push(x), b, pf);
    Seq::filter_distributes_over_add(a, b, pf);
    Seq::filter_distributes_over_add(a.push(x), b, pd);
    Seq::filter_distributes_over_add(a, b, pd);
    assert(es.filter(pf) == es.remove(i).filter(pf));
    assert(es.filter(pd) == es.remove(i).filter(pd));
}

/// Splits an enumerated directory into its three projections: the
/// file records, the subdirectory names, and the subdirectory paths,
/// each in enumeration order; entries without metadata and entries of
/// other kinds contribute nothing.
fn split_entries(entries: &Vec<Entry>) -> (r: (Vec<File>, Vec<String>, Vec<String>))
    ensures
        file_views(r.0@) == file_records_of(entry_views(entries@)),
        string_keys(r.1@) == subdir_names_of(entry_views(entries@)),
        string_keys(r.2@) == subdir_paths_of(entry_views(entries@)),
{
    broadcast use lemma_filter_push;
    broadcast use lemma_map_values_push;

    let ghost evs = entry_views(entries@);
    let mut files: Vec<File> = Vec::new();
    let mut names: Vec<String> = Vec::new();
    let mut paths: Vec<String> = Vec::new();
    let n = entries.len();
    proof {
        assert(evs.take(0) =~= Seq::<EntryV>::empty());
        assert(file_views(files@) =~= file_records_of(evs.take(0)));
        assert(string_keys(names@) =~= subdir_names_of(evs.take(0)));
        assert(string_keys(paths@) =~= subdir_paths_of(evs.take(0)));
    }
    let mut i: usize = 0;
    while i < n
        invariant
            i <= n,
            n == entries.len(),
            evs == entry_views(entries@),
            evs.len() == n,
            file_views(files@) == file_records_of(evs.take(i as int)),
            string_keys(names@) == subdir_names_of(evs.take(i as int)),
            string_keys(paths@) == subdir_paths_of(evs.take(i as int)),
        decreases n - i,
    {
        broadcast use lemma_filter_push;
        broadcast use lemma_map_values_push;

        let e = &entries[i];
        proof {
            assert(evs[i as int] == entries@[i as int]@);
            assert(evs.take(i + 1) =~= evs.take(i as int).push(evs[i as int]));
        }
        match e.meta {
            None => {},
            Some(m) => {
                match m.kind {
                    EntryKind::File => {
                        let f = metadata_to_file(e.name.as_str(), &m);
                        proof {
                            assert(f@ == entry_file_record(evs[i as int]));
                        }
                        files.push(f);
                        proof {
                            assert(file_views(files@) =~= file_records_of(evs.take(i + 1)));
                        }
                    },
                    EntryKind::Dir => {
                        names.push(e.name.clone());
                        paths.push(e.path.clone());
                        proof {
                            assert(string_keys(names@) =~= subdir_names_of(evs.take(i + 1)));
                            assert(string_keys(paths@) =~= subdir_paths_of(evs.take(i + 1)));
                        }
                    },
                    EntryKind::Other => {},
                }
            },
        }
        i += 1;
    }
    proof {
        assert(evs.take(n as int) =~= evs);
    }
    (files, names, paths)
}

/// One directory still to visit, with the depth it sits at.
pub struct PendingDir {
    pub path: String,
    pub depth: u32,
}

/// Mathematical value of a `PendingDir`.
pub struct PendingV {
    pub path: Seq<char>,
    pub depth: u32,
}

impl View for PendingDir {
    type V = PendingV;

    open spec fn view(&self) -> PendingV {
        PendingV { path: self.path@, depth: self.depth }
    }
}

/// The work-list items that the subdirectories of one level add, all
/// one level deeper.
pub open spec fn queued_at(paths: Seq<Seq<char>>, depth: u32) -> Seq<PendingV> {
    paths.map_values(|p: Seq<char>| PendingV { path: p, depth: depth })
}

/// The record one visited level yields: the directory's own path, its
/// file records sorted by name in the listing order (case-insensitive
/// with raw-order tie-breaking), and its immediate subdirectory names
/// sorted the same way — the same gathering as `file_records_of` and
/// `subdir_names_of`, up to order.
pub open spec fn dir_record_ok(path: Seq<char>, es: Seq<EntryV>, d: DirectoryV) -> bool {
    &&& d.path == path
    &&& d.files.to_multiset() == file_records_of(es).to_multiset()
    &&& sorted_names(d.files.map_values(|f: FileV| f.name))
    &&& d.subdirectories.to_multiset() == subdir_names_of(es).to_multiset()
    &&& sorted_names(d.subdirectories)
}

/// A level holding exactly the two file records `a` and `b`, with
/// `a`'s name strictly before `b`'s after case folding, lists them in
/// exactly that order: first `a`, then `b`.
pub proof fn lemma_two_files_ordered(
    path: Seq<char>,
    es: Seq<EntryV>,
    d: DirectoryV,
    a: FileV,
    b: FileV,
)
    requires
        dir_record_ok(path, es, d),
        file_records_of(es).to_multiset() == Multiset::<FileV>::empty().insert(a).insert(b),
        ci_le(a.name, b.name),
        !ci_le(b.name, a.name),
    ensures
        d.files == seq![a, b],
{
    broadcast use vstd::seq_lib::group_to_multiset_ensures;
    broadcast use vstd::multiset::group_multiset_axioms;

    let m = d.files.to_multiset();
    assert(a != b);
    assert(m.len() == 2);
    assert(d.files.len() == 2);
    assert(m.count(a) >= 1);
    assert(d.files.contains(a));
    assert(m.count(b) >= 1);
    assert(d.files.contains(b));
    let i = choose|i: int| 0 <= i < d.files.len() && d.files[i] == a;
    let j = choose|j: int| 0 <= j < d.files.len() && d.files[j] == b;
    assert(i != j);
    let keys = d.files.map_values(|f: FileV| f.name);
    assert(name_le(keys[0], keys[1]));
    if i == 1 {
        // The names fold to different forms, so the listing order
        // between them is the case-insensitive one; b before a would
        // contradict it.
        assert(lower_of(a.name) != lower_of(b.name));
        assert(ci_le(b.name, a.name));
        assert(false);
    }
    assert(i == 0 && j == 1);
    assert(d.files =~= seq![a, b]);
}

/// The walk over a directory tree, driven from outside: the caller
/// repeatedly takes a pending directory, enumerates it on the host,
/// and hands the entries back; the engine does everything else.
pub struct Walker {
    max_depth: u32,
    pending: Vec<PendingDir>,
    collected: Vec<Directory>,
}

impl Walker {
    /// The depth limit the walk was started with.
    pub closed spec fn max_depth_spec(&self) -> u32 {
        self.max_depth
    }

    /// The directories still to visit.
    pub closed spec fn pending_view(&self) -> Seq<PendingV> {
        self.pending@.map_values(|p: PendingDir| p@)
    }

    /// The records collected so far.
    pub closed spec fn collected_view(&self) -> Seq<DirectoryV> {
        self.collected@.map_values(|d: Directory| d@)
    }

    /// Starts a walk at the given directory, which sits at depth
    /// zero; nothing is collected yet.
    pub fn new(root: String, max_depth: u32) -> (w: Walker)
        ensures
            w.max_depth_spec() == max_depth,
            w.pending_view() == seq![PendingV { path: root@, depth: 0u32 }],
            w.collected_view() == Seq::<DirectoryV>::empty(),
    {
        let mut pending: Vec<PendingDir> = Vec::new();
        pending.push(PendingDir { path: root, depth: 0 });
        let w = Walker { max_depth, pending, collected: Vec::new() };
        proof {
            assert(w.pending_view() =~= seq![PendingV { path: w.pending@[0].path@, depth: 0u32 }]);
            assert(w.collected_view() =~= Seq::<DirectoryV>::empty());
        }
        w
    }

    /// Takes the next directory to visit off the work list; `None`
    /// when the walk is complete.
    pub fn next_pending(&mut self) -> (r: Option<PendingDir>)
        ensures
            final(self).max_depth_spec() == old(self).max_depth_spec(),
            final(self).collected_view() == old(self).collected_view(),
            old(self).pending_view().len() == 0 ==> r is None && final(self).pending_view()
                == old(self).pending_view(),
            old(self).pending_view().len() > 0 ==> {
                &&& r is Some
                &&& r->0@ == old(self).pending_view().last()
                &&& final(self).pending_view() == old(self).pending_view().drop_last()
            },
    {
        let r = self.pending.pop();
        proof {
            if old(self).pending_view().len() > 0 {
                assert(self.pending_view() =~= old(self).pending_view().drop_last());
            } else {
                assert(self.pending_view() =~= old(self).pending_view());
            }
        }
        r
    }

    /// Records one successfully enumerated directory: appends its
    /// sorted record and, while the visited depth lies below the
    /// limit, queues its subdirectories one level deeper. At or above
    /// the limit nothing is queued, so no deeper record can arise.
    pub fn record_dir(&mut self, path: String, depth: u32, entries: Vec<Entry>)
        requires
            depth < u32::MAX,
        ensures
            final(self).max_depth_spec() == old(self).max_depth_spec(),
            final(self).collected_view() == old(self).collected_view().push(
                final(self).collected_view().last(),
            ),
            dir_record_ok(
                path@,
                entry_views(entries@),
                final(self).collected_view().last(),
            ),
            depth < old(self).max_depth_spec() ==> final(self).pending_view() == old(
                self,
            ).pending_view() + queued_at(
                subdir_paths_of(entry_views(entries@)),
                (depth + 1) as u32,
            ),
            depth >= old(self).max_depth_spec() ==> final(self).pending_view() == old(
                self,
            ).pending_view(),
    {
        broadcast use lemma_map_values_push;

        let ghost target_path = path@;
        let ghost es = entry_views(entries@);
        let (files, names, paths) = split_entries(&entries);
        let files = sort_files(files);
        let names = sort_names(names);
        let d = Directory { path, files, subdirectories: names };
        let ghost dd = d;
        proof {
            assert(d@.files == file_views(d.files@));
            assert(d@.files.map_values(|f: FileV| f.name) =~= file_keys(d.files@));
            assert(d@.subdirectories == string_keys(d.subdirectories@));
            assert(dir_record_ok(target_path, es, dd@));
        }
        self.collected.push(d);
        proof {
            assert(self.collected_view() =~= old(self).collected_view().push(dd@));
        }
        if depth < self.max_depth {
            let ghost pend_mid = self.pending_view();
            let ghost ps = subdir_paths_of(es);
            let mut k: usize = 0;
            let nsub = paths.len();
            proof {
                assert(queued_at(ps.take(0), (depth + 1) as u32) =~= Seq::<PendingV>::empty());
                assert(pend_mid + Seq::<PendingV>::empty() =~= pend_mid);
            }
            while k < nsub
                invariant
                    k <= nsub,
                    nsub == paths@.len(),
                    string_keys(paths@) == ps,
                    depth < u32::MAX,
                    self.max_depth == old(self).max_depth,
                    self.collected@ == old(self).collected@.push(dd),
                    self.pending_view() == pend_mid + queued_at(
                        ps.take(k as int),
                        (depth + 1) as u32,
                    ),
                decreases nsub - k,
            {
                let p = paths[k].clone();
                proof {
                    assert(p@ == ps[k as int]);
                }
                self.pending.push(PendingDir { path: p, depth: depth + 1 });
                proof {
                    broadcast use lemma_map_values_push;

                    assert(ps.take(k + 1) =~= ps.take(k as int).push(ps[k as int]));
                    assert(queued_at(ps.take(k + 1), (depth + 1) as u32) =~= queued_at(
                        ps.take(k as int),
                        (depth + 1) as u32,
                    ).push(PendingV { path: ps[k as int], depth: (depth + 1) as u32 }));
                    assert(self.pending_view() =~= pend_mid + queued_at(
                        ps.take(k + 1),
                        (depth + 1) as u32,
                    ));
                }
                k += 1;
            }
            proof {
                assert(ps.take(nsub as int) =~= ps);
                assert(self.collected_view() =~= old(self).collected_view().push(dd@));
            }
        } else {
            proof {
                assert(self.pending_view() == old(self).pending_view());
            }
        }
    }

    /// Ends the walk: every collected record, ordered by resolved
    /// path.
    pub fn finish(self) -> (r: Vec<Directory>)
        ensures
            dir_views(r@).to_multiset() == self.collected_view().to_multiset(),
            sorted_lex(dir_keys(r@)),
    {
        sort_dirs(self.collected)
    }
}

} // verus!
