use ayame_core::cache::{aside_name, fnv1a, key, unwrap_frame, wal_file_name, wrap};
use ayame_core::grep::{
    glob_match, globs_match, grep_file, is_visible, looks_binary, parse_globs, Entry, EntryKind,
    GrepOptions, GrepResult, GrepWalk, WalkStep,
};
use ayame_core::mapfault::{Registry, SLOTS};
use ayame_core::staging::{replacement_aside_name, stage_name, ReplaceAction, ReplaceState};
use ayame_core::Error;

// ---- replacing a file ----

/// The files there are, with failures to come.
struct FakeFs {
    files: Vec<&'static str>,
    renames: Vec<(&'static str, &'static str)>,
    failures: usize,
}

const STAGE: &str = "stage";
const TARGET: &str = "target";
const ASIDE: &str = "aside";

impl FakeFs {
    fn has(&self, name: &str) -> bool {
        self.files.contains(&name)
    }

    fn rename(&mut self, from: &'static str, to: &'static str) -> bool {
        self.renames.push((from, to));
        if self.failures & 1 != 0 {
            self.failures >>= 1;
            return false;
        }
        self.failures >>= 1;
        if !self.has(from) {
            return false;
        }
        self.files.retain(|f| *f != from && *f != to);
        self.files.push(to);
        true
    }

    fn replace(&mut self) -> ReplaceAction {
        let mut state = ReplaceState::First;
        loop {
            let ok = match state.action() {
                ReplaceAction::Promote => self.rename(STAGE, TARGET),
                ReplaceAction::CheckTarget => self.has(TARGET),
                ReplaceAction::RemoveAside => {
                    self.files.retain(|f| *f != ASIDE);
                    true
                }
                ReplaceAction::SetAside => self.rename(TARGET, ASIDE),
                ReplaceAction::CheckAside => self.has(ASIDE),
                ReplaceAction::Restore => self.rename(ASIDE, TARGET),
                done => return done,
            };
            state = state.next(ok);
        }
    }
}

#[test]
fn replace_with_staged_falls_back_through_aside_when_target_exists() {
    let mut fs = FakeFs {
        files: vec![STAGE, TARGET],
        renames: Vec::new(),
        failures: 0b1,
    };
    assert_eq!(fs.replace(), ReplaceAction::Done);
    assert!(fs.has(TARGET));
    assert!(!fs.has(STAGE));
    assert!(!fs.has(ASIDE));
    assert_eq!(
        fs.renames,
        vec![(STAGE, TARGET), (TARGET, ASIDE), (STAGE, TARGET)]
    );
}

#[test]
fn replace_with_staged_restores_target_when_promotion_fails() {
    let mut fs = FakeFs {
        files: vec![STAGE, TARGET],
        renames: Vec::new(),
        failures: 0b101,
    };
    assert_eq!(fs.replace(), ReplaceAction::FailedFallback);
    assert!(fs.has(TARGET));
    assert!(fs.has(STAGE));
    assert!(!fs.has(ASIDE));
}

#[test]
fn a_replacement_without_a_target_fails_at_once() {
    let mut fs = FakeFs {
        files: vec![STAGE],
        renames: Vec::new(),
        failures: 0b1,
    };
    assert_eq!(fs.replace(), ReplaceAction::FailedFirst);
    assert!(fs.has(STAGE));
    let mut fs = FakeFs {
        files: vec![STAGE],
        renames: Vec::new(),
        failures: 0,
    };
    assert_eq!(fs.replace(), ReplaceAction::Done);
    assert!(fs.has(TARGET));
}

#[test]
fn staged_files_have_names_of_their_own() {
    assert_eq!(replacement_aside_name("a.txt"), ".a.txt.ayame-aside");
    assert_eq!(stage_name("a.txt", 42, 7), ".a.txt.ayame-tmp-42-7");
}

// ---- mappings ----

#[test]
fn watch_slots_recycle_after_drop() {
    let mut r = Registry::new();
    let first = r.register(0x1000, 4096);
    assert!(first.is_some());
    r.deregister(first.unwrap());
    for _ in 0..SLOTS * 2 {
        let w = r.register(0x1000, 4096);
        assert!(w.is_some());
        assert!(!r.faulted(w.unwrap()));
        r.deregister(w.unwrap());
    }
}

#[test]
fn a_fault_marks_the_watch_of_its_mapping() {
    let mut r = Registry::new();
    let a = r.register(0x1000, 0x1000).unwrap();
    let b = r.register(0x4000, 0x1000).unwrap();
    assert!(!r.fault(0x2000), "the end is not inside");
    assert!(!r.faulted(a));
    assert!(r.fault(0x4fff));
    assert!(r.faulted(b));
    assert!(!r.faulted(a));
    assert_eq!(r.find(0x1000), Some(a));
    assert_eq!(r.register(0x9000, 0), None);
    r.deregister(b);
    assert_eq!(r.find(0x4000), None);
}

#[test]
fn slots_run_out() {
    let mut r = Registry::new();
    for i in 0..SLOTS {
        assert!(r.register(0x1000 * (i + 1), 16).is_some());
    }
    assert_eq!(r.register(0x10, 16), None);
}

// ---- searching many files ----

/// The entries of a folder of a tree, in no order.
fn entries(files: &[(&str, &[u8])], folder: &str) -> Vec<Entry> {
    let mut out: Vec<Entry> = Vec::new();
    for (path, _) in files.iter().rev() {
        let Some(below) = path.strip_prefix(folder) else {
            continue;
        };
        let name = below.split('/').next().unwrap();
        let kind = if below.contains('/') {
            EntryKind::Folder
        } else {
            EntryKind::File
        };
        if out.iter().any(|e| e.name == name) {
            continue;
        }
        let slash = if kind == EntryKind::Folder { "/" } else { "" };
        out.push(Entry {
            name: name.to_string(),
            path: format!("{folder}{name}{slash}"),
            kind,
        });
    }
    out
}

fn grep(files: &[(&str, &[u8])], opts: &GrepOptions) -> Result<GrepResult, Error> {
    let mut walk = GrepWalk::new("", opts)?;
    loop {
        match walk.step() {
            WalkStep::List(folder) => walk.list(&entries(files, &folder)),
            WalkStep::Search { path, max_hits } => {
                let bytes = files.iter().find(|f| f.0 == path).unwrap().1;
                walk.found(grep_file(&path, bytes, opts, max_hits).unwrap_or_default());
            }
            WalkStep::Done => return Ok(walk.finish()),
        }
    }
}

const TREE: [(&str, &[u8]); 5] = [
    ("a.txt", b"alpha needle\nbeta\n"),
    ("bin.dat", b"needle\x00binary\n"),
    ("c.log", b"needle in a log\n"),
    (".hidden/d.txt", b"needle hidden\n"),
    ("sub/b.txt", b"gamma\nneedle here\n"),
];

#[test]
fn grep_dir_finds_matches_and_respects_filters_and_caps() {
    let opts = GrepOptions {
        query: "needle".into(),
        ..Default::default()
    };
    let res = grep(&TREE, &opts).unwrap();
    assert_eq!(res.hits.len(), 3, "hits: {:?}", res.hits);
    assert!(res.hits.iter().all(|h| h.text.contains("needle")));
    assert!(!res.truncated);
    let sub = res.hits.iter().find(|h| h.path.ends_with("b.txt")).unwrap();
    assert_eq!(sub.line, 1);
    assert_eq!(sub.col, 0);

    let opts = GrepOptions {
        query: "needle".into(),
        glob: "*.txt".into(),
        ..Default::default()
    };
    let res = grep(&TREE, &opts).unwrap();
    assert_eq!(res.hits.len(), 2);
    assert!(res.hits.iter().all(|h| h.path.ends_with(".txt")));

    let opts = GrepOptions {
        query: "needle".into(),
        max_hits: 1,
        ..Default::default()
    };
    let res = grep(&TREE, &opts).unwrap();
    assert_eq!(res.hits.len(), 1);
    assert!(res.truncated);
}

#[test]
fn grep_dir_case_insensitive_and_regex() {
    let tree: [(&str, &[u8]); 1] = [("log.txt", b"WARN boot\nerror: 42\nnote\n")];
    let ci = GrepOptions {
        query: "warn".into(),
        case_sensitive: false,
        ..Default::default()
    };
    let res = grep(&tree, &ci).unwrap();
    assert_eq!(res.hits.len(), 1);
    assert_eq!(res.hits[0].line, 0);

    let rx = GrepOptions {
        query: r"error: \d+".into(),
        regex: true,
        ..Default::default()
    };
    let res = grep(&tree, &rx).unwrap();
    assert_eq!(res.hits.len(), 1);
    assert_eq!(res.hits[0].line, 1);
}

#[test]
fn grep_stops_after_its_files() {
    let opts = GrepOptions {
        query: "needle".into(),
        max_files: 1,
        ..Default::default()
    };
    let res = grep(&TREE, &opts).unwrap();
    assert_eq!(res.hits.len(), 1);
    assert_eq!(res.files_scanned, 1);
    assert!(res.files_truncated);
    assert!(!res.truncated);
    assert!(GrepWalk::new("", &GrepOptions::default()).is_err(), "an empty query");
}

#[test]
fn files_come_before_folders_in_the_order_of_names() {
    let tree: [(&str, &[u8]); 6] = [
        ("b/x.txt", b"needle\n"),
        ("b.txt", b"needle\n"),
        ("a/z.txt", b"needle\n"),
        ("a/b/y.txt", b"needle\n"),
        ("B.txt", b"needle\n"),
        ("a.txt", b"needle\n"),
    ];
    let opts = GrepOptions {
        query: "needle".into(),
        ..Default::default()
    };
    let res = grep(&tree, &opts).unwrap();
    let paths: Vec<&str> = res.hits.iter().map(|h| h.path.as_str()).collect();
    assert_eq!(
        paths,
        vec!["B.txt", "a.txt", "b.txt", "a/z.txt", "a/b/y.txt", "b/x.txt"]
    );
    assert_eq!(res.files_scanned, 6);
    assert!(is_visible("a") && !is_visible(".git"));
}

#[test]
fn links_are_not_followed() {
    let opts = GrepOptions {
        query: "needle".into(),
        ..Default::default()
    };
    let mut walk = GrepWalk::new("root", &opts).unwrap();
    assert!(matches!(walk.step(), WalkStep::List(p) if p == "root"));
    walk.list(&vec![Entry {
        name: "link".to_string(),
        path: "root/link".to_string(),
        kind: EntryKind::Other,
    }]);
    assert!(matches!(walk.step(), WalkStep::Done));
}

#[test]
fn glob_match_handles_wildcards() {
    assert!(glob_match(b"*.rs", b"main.rs"));
    assert!(glob_match(b"*.rs", b".rs"));
    assert!(!glob_match(b"*.rs", b"main.rss"));
    assert!(glob_match(b"a?c", b"abc"));
    assert!(!glob_match(b"a?c", b"ac"));
    assert!(glob_match(b"*", b"anything"));
    assert!(glob_match(b"data*.csv", b"data-2024.csv"));
    assert!(!glob_match(b"data*.csv", b"data-2024.tsv"));
}

#[test]
fn filters_hold_several_globs() {
    let globs = parse_globs("*.rs, *.toml");
    assert_eq!(globs.len(), 2);
    assert!(globs_match(&globs, "Cargo.toml"));
    assert!(globs_match(&globs, "lib.rs"));
    assert!(!globs_match(&globs, "README.md"));
    assert!(globs_match(&parse_globs(""), "anything"));
}

#[test]
fn binary_files_hold_a_nul() {
    assert!(looks_binary(b"a\0b"));
    assert!(!looks_binary(b"plain"));
}

// ---- caches ----

#[test]
fn frames_are_read_back_only_for_the_same_file() {
    let frame = wrap(5, (7, 9), b"payload");
    assert_eq!(unwrap_frame(&frame, 5, (7, 9)), Some(&b"payload"[..]));
    assert_eq!(unwrap_frame(&frame, 6, (7, 9)), None);
    assert_eq!(unwrap_frame(&frame, 5, (8, 9)), None);
    assert_eq!(unwrap_frame(&frame, 5, (7, 8)), None);
    assert_eq!(unwrap_frame(&frame[1..], 5, (7, 9)), None);
    assert_eq!(unwrap_frame(b"short", 5, (7, 9)), None);
}

#[test]
fn fnv_has_its_known_values() {
    const OFFSET: u64 = 0xcbf2_9ce4_8422_2325;
    assert_eq!(fnv1a(b"", OFFSET), OFFSET);
    assert_eq!(fnv1a(b"a", OFFSET), 0xaf63_dc4c_8601_ec8c);
    assert_eq!(fnv1a(b"foobar", OFFSET), 0x8594_4171_f739_67e8);
}

#[test]
fn cache_keys_tell_files_apart() {
    let k = key("/a/b.txt", 10, (1, 2), 4096);
    assert_eq!(k, key("/a/b.txt", 10, (1, 2), 4096));
    assert_ne!(k, key("/a/c.txt", 10, (1, 2), 4096));
    assert_ne!(k, key("/a/b.txt", 11, (1, 2), 4096));
    assert_ne!(k, key("/a/b.txt", 10, (1, 3), 4096));
    assert_ne!(k, key("/a/b.txt", 10, (1, 2), 64));
    assert!(aside_name("x").contains('x'));
}

#[test]
fn wal_path_for_is_deterministic_and_scoped() {
    let a = wal_file_name("/data/a.txt");
    assert_eq!(a, wal_file_name("/data/a.txt"));
    assert_ne!(a, wal_file_name("/data/b.txt"));
}
