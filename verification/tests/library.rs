use gideon_core::library::{DirItem, LibraryScan};
use gideon_core::progress::seconds_or_zero;
use gideon_core::{Library, ProgressStore, ReadingProgress};

/// Lists the directory `dir` of a tree that is given by the paths of its files.
fn list(files: &[&str], dir: &str) -> Vec<DirItem> {
    let prefix = if dir.is_empty() {
        String::new()
    } else {
        format!("{dir}/")
    };
    let mut items: Vec<DirItem> = Vec::new();
    for file in files {
        if let Some(rest) = file.strip_prefix(&prefix) {
            let (name, is_dir) = match rest.split_once('/') {
                Some((name, _)) => (name, true),
                None => (rest, false),
            };
            if items.iter().all(|i| i.name != name) {
                items.push(DirItem {
                    name: name.to_string(),
                    is_dir,
                });
            }
        }
    }
    items
}

fn scan(root: &str, files: &[&str]) -> Vec<String> {
    let mut walk = LibraryScan::new(&list(files, ""));
    while let Some(dir) = walk.next_dir() {
        walk.listed(&dir, &list(files, &dir));
    }
    Library::new(root.to_string())
        .scan(&walk.into_found())
        .into_iter()
        .map(|e| {
            assert_eq!(e.path, format!("{root}/{}", e.relative_path));
            e.relative_path
        })
        .collect()
}

#[test]
fn scan_finds_cbz_recursively_in_natural_order() {
    let rel = scan(
        "/books",
        &[
            "One Piece/vol10.cbz",
            "One Piece/vol2.cbz",
            "Berserk/vol1.cbz",
            "Berserk/notes.txt",
            ".hidden/secret.cbz",
            "loose.CBZ",
        ],
    );
    assert_eq!(
        rel,
        vec![
            "Berserk/vol1.cbz",
            "loose.CBZ",
            "One Piece/vol2.cbz",
            "One Piece/vol10.cbz",
        ]
    );
}

#[test]
fn scan_skips_profile_directories() {
    let files = ["Shared/vol1.cbz", "@alex/Alexs Series/vol1.cbz"];
    // The root (default profile) doesn't see other profiles' books...
    assert_eq!(scan("/books", &files), vec!["Shared/vol1.cbz"]);
    // ...but a scan rooted at the profile dir sees its own.
    assert_eq!(
        scan("/books/@alex", &["Alexs Series/vol1.cbz"]),
        vec!["Alexs Series/vol1.cbz"]
    );
}

#[test]
fn scan_goes_depth_first_and_keeps_found_order_on_ties() {
    let files = ["b/x/1.cbz", "b/01.cbz", "a/.x.cbz", "a/@p.cbz", "B/001.CBZ", "b/1.cbz"];
    let mut walk = LibraryScan::new(&list(&files, ""));
    let mut asked = Vec::new();
    while let Some(dir) = walk.next_dir() {
        walk.listed(&dir, &list(&files, &dir));
        asked.push(dir);
    }
    assert_eq!(asked, vec!["b", "b/x", "a", "B"]);
    let found = walk.into_found();
    assert_eq!(
        found,
        vec!["b/x/1.cbz", "b/01.cbz", "b/1.cbz", "a/@p.cbz", "B/001.CBZ"]
    );
    let library = Library::new("r".to_string());
    let entries = library.scan(&found);
    let rel: Vec<&str> = entries.iter().map(|e| e.relative_path.as_str()).collect();
    assert_eq!(
        rel,
        vec!["a/@p.cbz", "b/01.cbz", "b/1.cbz", "B/001.CBZ", "b/x/1.cbz"]
    );
    assert_eq!(library.root(), "r");
}

#[test]
fn keys_are_written_with_slashes() {
    let entries = Library::new("/books/".to_string()).scan(&vec!["a\\b.cbz".to_string()]);
    assert_eq!(entries[0].path, "/books/a\\b.cbz");
    assert_eq!(entries[0].relative_path, "a/b.cbz");
}

#[test]
fn remove_forgets_a_chapters_progress() {
    let mut store = ProgressStore::default();
    store.update("Series/vol1.cbz", 1, 2);
    assert!(store.remove("Series/vol1.cbz"), "removed an existing key");
    assert!(store.get("Series/vol1.cbz").is_none());
    assert!(
        !store.remove("Series/vol1.cbz"),
        "removing again is a no-op"
    );
}

#[test]
fn a_store_is_rebuilt_from_its_rows() {
    let mut store = ProgressStore::default();
    assert!(store.is_empty());
    store.update("One Piece/vol2.cbz", 5, 200);

    let mut reloaded = ProgressStore::default();
    for (key, p) in store.entries() {
        reloaded.update_at(key, p.current_page, p.total_pages, p.last_read_at);
    }
    let p = reloaded.get("One Piece/vol2.cbz").unwrap();
    assert_eq!(p.current_page, 5);
    assert_eq!(p.total_pages, 200);
    assert!(p.last_read_at > 0);
    assert!(!p.is_finished());
    assert_eq!(reloaded.len(), 1);
    assert_eq!(reloaded.entries(), store.entries());
}

#[test]
fn a_store_is_rebuilt_from_its_last_opened_chapters() {
    let mut store = ProgressStore::default();
    store.set_last_opened("Series", "Series/vol5.cbz");
    store.set_last_opened("Series", "Series/vol6.cbz"); // overwrites

    let mut reloaded = ProgressStore::default();
    for (series, chapter) in store.opened_entries() {
        reloaded.set_last_opened(series, chapter);
    }
    assert_eq!(reloaded.last_opened("Series"), Some("Series/vol6.cbz"));
    assert_eq!(reloaded.last_opened("Other"), None);
}

#[test]
fn finished_detection() {
    let p = ReadingProgress {
        current_page: 19,
        total_pages: 20,
        last_read_at: 0,
    };
    assert!(p.is_finished());
    let unknown = ReadingProgress {
        total_pages: 0,
        ..p
    };
    assert!(!unknown.is_finished());
    let midway = ReadingProgress {
        current_page: 18,
        ..p
    };
    assert!(!midway.is_finished());
}

#[test]
fn merge_save_preserves_a_concurrent_write_to_another_chapter() {
    // Simulates the reader/sync race: something wrote chapter B to disk
    // after this store (holding only A) was loaded. merge_save must fold in
    // rather than clobber, so B survives.
    let mut on_disk = ProgressStore::default();
    on_disk.update("B/vol1.cbz", 15, 30); // written by the "other" writer

    let mut mine = ProgressStore::default();
    mine.update("A/vol1.cbz", 3, 10); // my stale snapshot only knows A
    let merged = mine.merge_save(Some(on_disk));

    assert!(merged.get("A/vol1.cbz").is_some(), "my chapter is written");
    assert_eq!(
        merged.get("B/vol1.cbz").unwrap().current_page,
        15,
        "the concurrent write to B is preserved, not clobbered"
    );
}

#[test]
fn overlay_save_is_authoritative_but_preserves_other_chapters() {
    // The reader can move its own chapter down (deliberate flip back) AND a
    // chapter the background sync added to disk must survive.
    let mut on_disk = ProgressStore::default();
    on_disk.update("A/vol1.cbz", 5, 10); // reader's chapter, currently 5
    on_disk.update("B/vol1.cbz", 15, 30); // added by a background sync

    // Reader loaded A at 5, paged back to 2, and knows nothing of B.
    let mut reader = ProgressStore::default();
    reader.update("A/vol1.cbz", 2, 10);
    let saved = reader.overlay_save(Some(on_disk));

    assert_eq!(
        saved.get("A/vol1.cbz").unwrap().current_page,
        2,
        "the reader is authoritative for its own chapter, even moving back"
    );
    assert_eq!(
        saved.get("B/vol1.cbz").unwrap().current_page,
        15,
        "a chapter the sync added is preserved, not clobbered"
    );
}

#[test]
fn merge_save_never_lowers_a_page() {
    // Furthest-page-wins: a stale writer at page 2 can't rewind disk's 9.
    let mut on_disk = ProgressStore::default();
    on_disk.update("A/vol1.cbz", 9, 10);

    let mut stale = ProgressStore::default();
    stale.update("A/vol1.cbz", 2, 10);
    let merged = stale.merge_save(Some(on_disk));

    assert_eq!(
        merged.get("A/vol1.cbz").unwrap().current_page,
        9,
        "merge_save keeps the furthest page, never rewinds"
    );
}

#[test]
fn merging_takes_the_latest_report_and_is_idempotent() {
    let mut disk = ProgressStore::default();
    disk.update_at("a", 9, 10, 500);
    disk.set_last_opened("s", "s/1");
    disk.set_last_opened("t", "t/1");
    let mut mine = ProgressStore::default();
    mine.update_at("a", 2, 12, 700);
    mine.set_last_opened("s", "s/2");

    let once = mine.merge_save(Some(disk));
    let row = once.get("a").unwrap();
    assert_eq!((row.current_page, row.total_pages, row.last_read_at), (9, 12, 700));
    assert_eq!(once.last_opened("s"), Some("s/2"));
    assert_eq!(once.last_opened("t"), Some("t/1"));

    let rows: Vec<(String, ReadingProgress)> =
        once.entries().into_iter().map(|(k, p)| (k.to_string(), p)).collect();
    let twice = mine.merge_save(Some(once));
    let again: Vec<(String, ReadingProgress)> =
        twice.entries().into_iter().map(|(k, p)| (k.to_string(), p)).collect();
    assert_eq!(rows, again);

    // Nothing on disk: the store itself is written.
    assert_eq!(mine.merge_save(None).entries(), mine.entries());
    assert_eq!(mine.overlay_save(None).entries(), mine.entries());
}

#[test]
fn two_writers_reach_the_same_page_in_either_order() {
    let store = |page: usize, at: u64| {
        let mut s = ProgressStore::default();
        s.update_at("a", page, 10, at);
        s
    };
    let x = store(3, 50).merge_save(Some(store(7, 20).merge_save(Some(store(5, 30)))));
    let y = store(7, 20).merge_save(Some(store(3, 50).merge_save(Some(store(5, 30)))));
    assert_eq!(x.get("a"), y.get("a"));
    assert_eq!(x.get("a").unwrap().current_page, 7);
    assert_eq!(x.get("a").unwrap().last_read_at, 50);
}

#[test]
fn entries_come_in_key_order() {
    let mut store = ProgressStore::default();
    for key in ["b", "é", "a", "B", ""] {
        store.update_at(key, 1, 2, 3);
    }
    let keys: Vec<&str> = store.entries().into_iter().map(|(k, _)| k).collect();
    assert_eq!(keys, vec!["", "B", "a", "b", "é"]);
    assert_eq!(store.len(), 5);
    store.update_at("a", 7, 8, 9);
    assert_eq!(store.len(), 5);
    assert_eq!(store.get("a").unwrap().current_page, 7);
}

#[test]
fn a_clock_before_the_epoch_reads_as_zero() {
    assert_eq!(seconds_or_zero(None), 0);
    assert_eq!(seconds_or_zero(Some(12)), 12);
}
