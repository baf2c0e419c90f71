//! End-to-end tests of the listing engine, driven over a small
//! in-memory filesystem so that every branch of the walk is exercised
//! deterministically.

use duckfs::Directory;
use duckfs::Entry;
use duckfs::EntryKind;
use duckfs::FileMeta;
use duckfs::ListResult;
use duckfs::TargetAction;
use duckfs::Walker;
use duckfs::effective_depth;
use duckfs::failure_aborts;
use duckfs::normalize_path;
use duckfs::target_action;

/// A simulated filesystem: what kind each path is, each file's text,
/// and each directory's enumeration (or its failure).
struct SimFs {
    kinds: Vec<(String, EntryKind)>,
    files: Vec<(String, String)>,
    dirs: Vec<(String, Result<Vec<Entry>, ()>)>,
}

impl SimFs {
    fn new() -> SimFs {
        SimFs { kinds: Vec::new(), files: Vec::new(), dirs: Vec::new() }
    }

    fn join(dir: &str, name: &str) -> String {
        if dir == "/" {
            format!("/{}", name)
        } else {
            format!("{}/{}", dir, name)
        }
    }

    fn add_dir(&mut self, path: &str) {
        self.kinds.push((path.to_string(), EntryKind::Dir));
        self.dirs.push((path.to_string(), Ok(Vec::new())));
    }

    fn add_unreadable_dir(&mut self, path: &str) {
        self.kinds.push((path.to_string(), EntryKind::Dir));
        self.dirs.push((path.to_string(), Err(())));
    }

    fn add_file(&mut self, dir: &str, name: &str, contents: &str) {
        let path = SimFs::join(dir, name);
        self.kinds.push((path.clone(), EntryKind::File));
        self.files.push((path.clone(), contents.to_string()));
        let meta = FileMeta {
            kind: EntryKind::File,
            size: contents.len() as u64,
            readonly: false,
            created: Some(1_700_000_000),
            modified: Some(1_700_000_100),
            accessed: None,
        };
        self.push_entry(dir, Entry { name: name.to_string(), path, meta: Some(meta) });
    }

    fn add_subdir_entry(&mut self, dir: &str, name: &str) {
        let path = SimFs::join(dir, name);
        let meta = FileMeta {
            kind: EntryKind::Dir,
            size: 0,
            readonly: false,
            created: None,
            modified: None,
            accessed: None,
        };
        self.push_entry(dir, Entry { name: name.to_string(), path, meta: Some(meta) });
    }

    fn add_broken_entry(&mut self, dir: &str, name: &str) {
        let path = SimFs::join(dir, name);
        self.push_entry(dir, Entry { name: name.to_string(), path, meta: None });
    }

    fn push_entry(&mut self, dir: &str, entry: Entry) {
        for d in self.dirs.iter_mut() {
            if d.0 == dir {
                if let Ok(entries) = &mut d.1 {
                    entries.push(entry);
                }
                return;
            }
        }
        panic!("no such directory in the simulation: {}", dir);
    }

    fn kind_of(&self, path: &str) -> Option<EntryKind> {
        self.kinds.iter().find(|k| k.0 == path).map(|k| k.1)
    }

    fn read_dir(&self, path: &str) -> Option<Vec<Entry>> {
        match self.dirs.iter().find(|d| d.0 == path) {
            Some((_, Ok(entries))) => Some(entries.clone()),
            _ => None,
        }
    }

    fn read_file(&self, path: &str) -> Option<String> {
        self.files.iter().find(|f| f.0 == path).map(|f| f.1.clone())
    }
}

/// Runs one listing call against the simulated filesystem the same
/// way the server's handler runs it against the real one.
fn sim_list_files(fs: &SimFs, start_path: &str, max_depth: u32) -> Result<ListResult, String> {
    let normalized = normalize_path(start_path);
    // The simulation has no symlinks, so canonicalization is lookup.
    let kind = match fs.kind_of(&normalized) {
        Some(k) => k,
        None => return Err(format!("cannot resolve path: {}", normalized)),
    };
    match target_action(kind) {
        TargetAction::ReadFile => match fs.read_file(&normalized) {
            Some(contents) => Ok(ListResult::FileContents(contents)),
            None => Err(format!("cannot read file: {}", normalized)),
        },
        TargetAction::Invalid => {
            Err(format!("path is neither file nor directory: {}", normalized))
        }
        TargetAction::WalkDir => {
            let eff = effective_depth(&normalized, max_depth);
            let mut walker = Walker::new(normalized, eff);
            while let Some(p) = walker.next_pending() {
                assert!(p.depth < u32::MAX);
                match fs.read_dir(&p.path) {
                    Some(entries) => walker.record_dir(p.path, p.depth, entries),
                    None => {
                        if failure_aborts(p.depth) {
                            return Err(format!("cannot enumerate: {}", p.path));
                        }
                    }
                }
            }
            Ok(ListResult::Directories(walker.finish()))
        }
    }
}

fn root_fs() -> SimFs {
    let mut fs = SimFs::new();
    fs.add_dir("/");
    fs.add_file("/", "hello.txt", "hi");
    fs.add_subdir_entry("/", "home");
    fs.add_dir("/home");
    fs.add_subdir_entry("/home", "user");
    fs.add_dir("/home/user");
    fs.add_file("/home/user", "deep.txt", "deep");
    fs
}

fn file_names(d: &Directory) -> Vec<String> {
    d.files.iter().map(|f| f.name.clone()).collect()
}

#[test]
fn test_list_files_root_path() {
    let fs = root_fs();
    let result = sim_list_files(&fs, "/", 0);
    assert!(result.is_ok());
    match result.unwrap() {
        ListResult::Directories(dirs) => assert!(!dirs.is_empty()),
        _ => panic!("Expected Directories"),
    }
}

#[test]
fn test_list_files_empty_path() {
    let fs = root_fs();
    let result = sim_list_files(&fs, "", 0);
    assert!(result.is_ok());
    match result.unwrap() {
        ListResult::Directories(dirs) => assert!(!dirs.is_empty()),
        _ => panic!("Expected Directories"),
    }
}

#[test]
fn test_list_files_dot_path() {
    let fs = root_fs();
    let result = sim_list_files(&fs, ".", 0);
    assert!(result.is_ok());
}

#[test]
fn test_list_files_file_contents() {
    let mut fs = SimFs::new();
    fs.add_dir("/work");
    fs.add_file("/work", "test.txt", "Hello, World!");
    let result = sim_list_files(&fs, "/work/test.txt", 0);
    assert!(result.is_ok());
    match result.unwrap() {
        ListResult::FileContents(contents) => assert_eq!(contents, "Hello, World!"),
        _ => panic!("Expected FileContents"),
    }
}

#[test]
fn test_list_files_directory_no_recursion() {
    let mut fs = SimFs::new();
    fs.add_dir("/work");
    fs.add_file("/work", "file1.txt", "content1");
    fs.add_file("/work", "file2.txt", "content2");
    fs.add_subdir_entry("/work", "subdir");
    fs.add_dir("/work/subdir");
    let result = sim_list_files(&fs, "/work", 0);
    assert!(result.is_ok());
    match result.unwrap() {
        ListResult::Directories(dirs) => {
            assert_eq!(dirs.len(), 1);
            assert_eq!(dirs[0].files.len(), 2);
            assert_eq!(dirs[0].subdirectories.len(), 1);
        }
        _ => panic!("Expected Directories"),
    }
}

#[test]
fn test_list_files_with_recursion() {
    let mut fs = SimFs::new();
    fs.add_dir("/work");
    fs.add_subdir_entry("/work", "subdir");
    fs.add_dir("/work/subdir");
    fs.add_file("/work/subdir", "nested.txt", "nested");
    let result = sim_list_files(&fs, "/work", 2);
    assert!(result.is_ok());
    match result.unwrap() {
        ListResult::Directories(dirs) => assert!(dirs.len() >= 2),
        _ => panic!("Expected Directories"),
    }
}

#[test]
fn test_list_files_nonexistent_path() {
    let fs = root_fs();
    let result = sim_list_files(&fs, "/nonexistent/path/xyz", 0);
    assert!(result.is_err());
}

#[test]
fn test_root_path_depth_limiting() {
    let fs = root_fs();
    let result = sim_list_files(&fs, "/", 5);
    assert!(result.is_ok());
    match result.unwrap() {
        ListResult::Directories(dirs) => assert!(!dirs.is_empty()),
        _ => panic!("Expected Directories"),
    }
}

#[test]
fn test_files_sorted_case_insensitive() {
    let mut fs = SimFs::new();
    fs.add_dir("/work");
    // Enumeration order is b.txt first; case-insensitive order is not.
    fs.add_file("/work", "b.txt", "b");
    fs.add_file("/work", "A.txt", "a");
    match sim_list_files(&fs, "/work", 0).unwrap() {
        ListResult::Directories(dirs) => {
            assert_eq!(dirs.len(), 1);
            assert_eq!(file_names(&dirs[0]), vec!["A.txt".to_string(), "b.txt".to_string()]);
        }
        _ => panic!("Expected Directories"),
    }
}

#[test]
fn test_sort_folds_case() {
    let mut fs = SimFs::new();
    fs.add_dir("/work");
    // By raw scalar values "B.txt" precedes "a.txt"; only folding the
    // case puts "a.txt" first.
    fs.add_file("/work", "B.txt", "b");
    fs.add_file("/work", "a.txt", "a");
    match sim_list_files(&fs, "/work", 0).unwrap() {
        ListResult::Directories(dirs) => {
            assert_eq!(file_names(&dirs[0]), vec!["a.txt".to_string(), "B.txt".to_string()]);
        }
        _ => panic!("Expected Directories"),
    }
}

#[test]
fn test_case_equal_file_names_deterministic() {
    // Two names equal after case folding: the raw character order
    // breaks the tie, whatever order the host enumerated them in.
    let mut fs1 = SimFs::new();
    fs1.add_dir("/work");
    fs1.add_file("/work", "a.txt", "lower");
    fs1.add_file("/work", "A.txt", "upper");
    let mut fs2 = SimFs::new();
    fs2.add_dir("/work");
    fs2.add_file("/work", "A.txt", "upper");
    fs2.add_file("/work", "a.txt", "lower");
    let one = summarize(sim_list_files(&fs1, "/work", 0).unwrap());
    let other = summarize(sim_list_files(&fs2, "/work", 0).unwrap());
    assert_eq!(one, other);
    assert_eq!(one[0].1, vec!["A.txt".to_string(), "a.txt".to_string()]);
}

#[test]
fn test_case_equal_subdir_names_deterministic() {
    let mut fs1 = SimFs::new();
    fs1.add_dir("/work");
    fs1.add_subdir_entry("/work", "sub");
    fs1.add_subdir_entry("/work", "Sub");
    let mut fs2 = SimFs::new();
    fs2.add_dir("/work");
    fs2.add_subdir_entry("/work", "Sub");
    fs2.add_subdir_entry("/work", "sub");
    let one = summarize(sim_list_files(&fs1, "/work", 0).unwrap());
    let other = summarize(sim_list_files(&fs2, "/work", 0).unwrap());
    assert_eq!(one, other);
    assert_eq!(one[0].2, vec!["Sub".to_string(), "sub".to_string()]);
}

#[test]
fn test_parent_directory_never_file_contents() {
    let mut fs = SimFs::new();
    fs.add_dir("/work");
    fs.add_file("/work", "test.txt", "text");
    let result = sim_list_files(&fs, "/work", 0).unwrap();
    assert!(!matches!(result, ListResult::FileContents(_)));
}

#[test]
fn test_depth_zero_single_record() {
    let mut fs = SimFs::new();
    fs.add_dir("/work");
    fs.add_subdir_entry("/work", "subdir");
    fs.add_dir("/work/subdir");
    fs.add_file("/work/subdir", "nested.txt", "nested");
    match sim_list_files(&fs, "/work", 0).unwrap() {
        ListResult::Directories(dirs) => {
            assert_eq!(dirs.len(), 1);
            assert_eq!(dirs[0].path, "/work");
            assert_eq!(dirs[0].subdirectories, vec!["subdir".to_string()]);
        }
        _ => panic!("Expected Directories"),
    }
}

#[test]
fn test_depth_one_contains_nested_file() {
    let mut fs = SimFs::new();
    fs.add_dir("/work");
    fs.add_subdir_entry("/work", "subdir");
    fs.add_dir("/work/subdir");
    fs.add_file("/work/subdir", "nested.txt", "nested");
    match sim_list_files(&fs, "/work", 1).unwrap() {
        ListResult::Directories(dirs) => {
            assert!(dirs.len() >= 2);
            assert_eq!(dirs[0].path, "/work");
            assert_eq!(dirs[1].path, "/work/subdir");
            assert_eq!(file_names(&dirs[1]), vec!["nested.txt".to_string()]);
        }
        _ => panic!("Expected Directories"),
    }
}

fn summarize(result: ListResult) -> Vec<(String, Vec<String>, Vec<String>)> {
    match result {
        ListResult::Directories(dirs) => dirs
            .iter()
            .map(|d| (d.path.clone(), file_names(d), d.subdirectories.clone()))
            .collect(),
        _ => panic!("Expected Directories"),
    }
}

#[test]
fn test_root_depth_five_equals_depth_one() {
    let fs = root_fs();
    let deep = summarize(sim_list_files(&fs, "/", 5).unwrap());
    let capped = summarize(sim_list_files(&fs, "/", 1).unwrap());
    assert_eq!(deep, capped);
    // The cap really bit: depth 2 from a non-root start reaches further.
    assert_eq!(deep.len(), 2);
}

#[test]
fn test_records_sorted_by_path() {
    let mut fs = SimFs::new();
    fs.add_dir("/work");
    fs.add_subdir_entry("/work", "b");
    fs.add_subdir_entry("/work", "a");
    fs.add_dir("/work/b");
    fs.add_dir("/work/a");
    let got = summarize(sim_list_files(&fs, "/work", 1).unwrap());
    let paths: Vec<String> = got.iter().map(|g| g.0.clone()).collect();
    assert_eq!(
        paths,
        vec!["/work".to_string(), "/work/a".to_string(), "/work/b".to_string()]
    );
}

#[test]
fn test_unreadable_entry_omitted() {
    let mut fs = SimFs::new();
    fs.add_dir("/work");
    fs.add_file("/work", "good.txt", "good");
    fs.add_broken_entry("/work", "bad.txt");
    fs.add_subdir_entry("/work", "sub");
    fs.add_dir("/work/sub");
    match sim_list_files(&fs, "/work", 0).unwrap() {
        ListResult::Directories(dirs) => {
            assert_eq!(dirs.len(), 1);
            assert_eq!(file_names(&dirs[0]), vec!["good.txt".to_string()]);
            assert_eq!(dirs[0].subdirectories, vec!["sub".to_string()]);
        }
        _ => panic!("Expected Directories"),
    }
}

#[test]
fn test_unreadable_subtree_skipped() {
    let mut fs = SimFs::new();
    fs.add_dir("/work");
    fs.add_subdir_entry("/work", "locked");
    fs.add_unreadable_dir("/work/locked");
    fs.add_subdir_entry("/work", "open");
    fs.add_dir("/work/open");
    fs.add_file("/work/open", "ok.txt", "ok");
    let got = summarize(sim_list_files(&fs, "/work", 3).unwrap());
    let paths: Vec<String> = got.iter().map(|g| g.0.clone()).collect();
    // The locked subtree is omitted; the parent still names it.
    assert_eq!(paths, vec!["/work".to_string(), "/work/open".to_string()]);
    assert_eq!(
        got[0].2,
        vec!["locked".to_string(), "open".to_string()]
    );
}

#[test]
fn test_unreadable_target_fails() {
    let mut fs = SimFs::new();
    fs.add_dir("/work");
    fs.add_unreadable_dir("/work/locked");
    fs.add_subdir_entry("/work", "locked");
    let result = sim_list_files(&fs, "/work/locked", 0);
    assert!(result.is_err());
}

#[test]
fn test_invalid_target() {
    let mut fs = SimFs::new();
    fs.kinds.push(("/dev/null0".to_string(), EntryKind::Other));
    let result = sim_list_files(&fs, "/dev/null0", 0);
    assert!(result.is_err());
}

#[test]
fn test_file_read_failure_is_fatal() {
    let mut fs = SimFs::new();
    // The path resolves to a file, but its text cannot be read.
    fs.kinds.push(("/work/raw.bin".to_string(), EntryKind::File));
    let result = sim_list_files(&fs, "/work/raw.bin", 0);
    assert!(result.is_err());
}
