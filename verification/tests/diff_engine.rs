use ongaku::db::{Entry, EntryType, Library, Track};
use ongaku::diff::{diff, plan, Plan, Task};
use ongaku::error::OngakuError;

fn text(s: &str) -> String {
    s.to_string()
}

fn track(url: &str) -> Track {
    Track { url: text(url), file: format!("files/{url}.opus") }
}

fn entry(id: &str, name: &str, url: &str, tracks: Vec<Track>) -> Entry {
    Entry {
        id: text(id),
        kind: EntryType::Artist,
        name: text(name),
        original_url: text(url),
        url: text(url),
        tracks,
    }
}

fn task(id: &str, name: &str, url: &str) -> Task {
    Task {
        entry_id: text(id),
        entry_type: EntryType::Artist,
        entry_name: text(name),
        track_url: text(url),
    }
}

fn listing(urls: &[&str]) -> Result<Vec<String>, OngakuError> {
    Ok(urls.iter().map(|url| text(url)).collect())
}

#[test]
fn listed_twice_is_scheduled_once() {
    let abc = entry("ARTIST/abc", "Abc", "https://remote/abc", vec![track("t1")]);
    let tasks = diff(&abc, &vec![text("t1"), text("t2"), text("t2")]);
    assert_eq!(tasks, vec![task("ARTIST/abc", "Abc", "t2")]);
}

#[test]
fn diff_of_empty_listing_is_empty() {
    let abc = entry("ARTIST/abc", "Abc", "https://remote/abc", vec![track("t1")]);
    assert_eq!(diff(&abc, &vec![]), vec![]);
}

#[test]
fn diff_of_known_tracks_is_empty() {
    let abc = entry("ARTIST/abc", "Abc", "u", vec![track("t1"), track("t2")]);
    assert_eq!(diff(&abc, &vec![text("t2"), text("t1"), text("t2")]), vec![]);
}

#[test]
fn diff_keeps_the_order_of_the_listing() {
    let abc = entry("ARTIST/abc", "Abc", "u", vec![track("t3")]);
    let tasks = diff(
        &abc,
        &vec![text("t5"), text("t3"), text("t1"), text("t5"), text("t4"), text("t1")],
    );
    assert_eq!(
        tasks,
        vec![
            task("ARTIST/abc", "Abc", "t5"),
            task("ARTIST/abc", "Abc", "t1"),
            task("ARTIST/abc", "Abc", "t4"),
        ]
    );
}

#[test]
fn diff_of_entry_without_tracks_lists_all_once() {
    let mut list = entry("PLAYLIST/p", "Mix", "u", vec![]);
    list.kind = EntryType::Playlist;
    let tasks = diff(&list, &vec![text("a"), text("a"), text("b")]);
    assert_eq!(tasks.len(), 2);
    assert_eq!(tasks[0].entry_type, EntryType::Playlist);
    assert_eq!(tasks[0].entry_id, "PLAYLIST/p");
    assert_eq!(tasks[0].entry_name, "Mix");
    assert_eq!(tasks[0].track_url, "a");
    assert_eq!(tasks[1].track_url, "b");
}

#[test]
fn plan_goes_entry_by_entry() {
    let library = Library {
        version: 1,
        entries: vec![
            entry("ARTIST/a", "A", "ua", vec![track("a1")]),
            entry("ARTIST/b", "B", "ub", vec![]),
        ],
    };
    let made = plan(&library, &vec![listing(&["a1", "a2"]), listing(&["a2", "b1"])]);
    assert_eq!(
        made,
        Plan {
            tasks: vec![
                task("ARTIST/a", "A", "a2"),
                task("ARTIST/b", "B", "a2"),
                task("ARTIST/b", "B", "b1"),
            ],
            warnings: vec![],
        }
    );
}

#[test]
fn failed_listing_leaves_the_other_entries_planned() {
    let library = Library {
        version: 1,
        entries: vec![
            entry("ARTIST/a", "A", "ua", vec![track("a1")]),
            entry("ARTIST/b", "B", "ub", vec![]),
            entry("ARTIST/c", "C", "uc", vec![track("c1")]),
        ],
    };
    let made = plan(
        &library,
        &vec![
            listing(&["a1", "a2"]),
            Err(OngakuError::YtdlpError(text("no network"))),
            listing(&["c2", "c1", "c2"]),
        ],
    );
    assert_eq!(made.tasks, vec![task("ARTIST/a", "A", "a2"), task("ARTIST/c", "C", "c2")]);
    assert_eq!(
        made.warnings,
        vec![text("Failed to fetch tracks for B (ub): yt-dlp error: no network")]
    );
    assert_eq!(made.tasks, {
        let mut each = diff(&library.entries[0], &vec![text("a1"), text("a2")]);
        each.extend(diff(&library.entries[2], &vec![text("c2"), text("c1"), text("c2")]));
        each
    });
}

#[test]
fn every_listing_failed_gives_no_task() {
    let library = Library {
        version: 1,
        entries: vec![entry("ARTIST/a", "A", "ua", vec![]), entry("ARTIST/b", "B", "ub", vec![])],
    };
    let made = plan(
        &library,
        &vec![
            Err(OngakuError::JsonExtractError(text("EOF while parsing"))),
            Err(OngakuError::YtdlpError(text("gone"))),
        ],
    );
    assert_eq!(made.tasks, vec![]);
    assert_eq!(
        made.warnings,
        vec![
            text("Failed to fetch tracks for A (ua): failed to parse json response"),
            text("Failed to fetch tracks for B (ub): yt-dlp error: gone"),
        ]
    );
}

#[test]
fn entry_without_listing_is_skipped_silently() {
    let library = Library {
        version: 1,
        entries: vec![entry("ARTIST/a", "A", "ua", vec![]), entry("ARTIST/b", "B", "ub", vec![])],
    };
    let made = plan(&library, &vec![listing(&["a1"])]);
    assert_eq!(made.tasks, vec![task("ARTIST/a", "A", "a1")]);
    assert_eq!(made.warnings, Vec::<String>::new());
}

#[test]
fn listing_without_entry_is_ignored() {
    let library = Library { version: 1, entries: vec![entry("ARTIST/a", "A", "ua", vec![])] };
    let made = plan(&library, &vec![listing(&["a1"]), listing(&["x"]), listing(&["y"])]);
    assert_eq!(made.tasks, vec![task("ARTIST/a", "A", "a1")]);
}

#[test]
fn plan_of_empty_library_is_empty() {
    let made = plan(&Library::new(1), &vec![listing(&["a1"])]);
    assert_eq!(made, Plan { tasks: vec![], warnings: vec![] });
}

#[test]
fn no_two_tasks_for_one_track_of_one_entry() {
    let library = Library {
        version: 1,
        entries: vec![
            entry("ARTIST/a", "A", "ua", vec![track("t1")]),
            entry("ARTIST/b", "B", "ub", vec![track("t2")]),
        ],
    };
    let made = plan(
        &library,
        &vec![listing(&["t1", "t2", "t3", "t2", "t3"]), listing(&["t3", "t3", "t2", "t1"])],
    );
    for (i, first) in made.tasks.iter().enumerate() {
        for second in made.tasks.iter().skip(i + 1) {
            assert!(first.entry_id != second.entry_id || first.track_url != second.track_url);
        }
    }
    assert_eq!(
        made.tasks,
        vec![
            task("ARTIST/a", "A", "t2"),
            task("ARTIST/a", "A", "t3"),
            task("ARTIST/b", "B", "t3"),
            task("ARTIST/b", "B", "t1"),
        ]
    );
}
