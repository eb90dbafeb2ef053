use ongaku::db::{Entry, EntryType, Library, Track};
use ongaku::diff::{plan, Task};
use ongaku::error::OngakuError;
use ongaku::executor::{pool_size, settle, Settled};
use ongaku::merge::{apply, merge, Completed};

fn text(s: &str) -> String {
    s.to_string()
}

fn artist(id: &str, name: &str, url: &str, tracks: &[(&str, &str)]) -> Entry {
    Entry {
        id: text(id),
        kind: EntryType::Artist,
        name: text(name),
        original_url: text(url),
        url: text(url),
        tracks: tracks
            .iter()
            .map(|(url, file)| Track { url: text(url), file: text(file) })
            .collect(),
    }
}

fn done(id: &str, url: &str, file: &str) -> Completed {
    Completed {
        task: Task {
            entry_id: text(id),
            entry_type: EntryType::Artist,
            entry_name: text("name"),
            track_url: text(url),
        },
        file: text(file),
    }
}

fn two_entries() -> Library {
    Library {
        version: 1,
        entries: vec![
            artist("ARTIST/a", "A", "ua", &[("a1", "A/a1.opus")]),
            artist("ARTIST/b", "B", "ub", &[]),
        ],
    }
}

#[test]
fn apply_appends_to_the_entry_of_the_task() {
    let mut library = two_entries();
    apply(&mut library, &done("ARTIST/b", "b1", "B/b1.opus"));
    assert_eq!(
        library,
        Library {
            version: 1,
            entries: vec![
                artist("ARTIST/a", "A", "ua", &[("a1", "A/a1.opus")]),
                artist("ARTIST/b", "B", "ub", &[("b1", "B/b1.opus")]),
            ],
        }
    );
}

#[test]
fn apply_for_unknown_entry_changes_nothing() {
    let mut library = two_entries();
    apply(&mut library, &done("ARTIST/zzz", "z1", "Z/z1.opus"));
    assert_eq!(library, two_entries());
}

#[test]
fn merge_records_in_the_order_of_arrival() {
    let mut library = two_entries();
    merge(
        &mut library,
        &vec![
            done("ARTIST/a", "a3", "A/a3.opus"),
            done("ARTIST/b", "b1", "B/b1.opus"),
            done("ARTIST/a", "a2", "A/a2.opus"),
        ],
    );
    assert_eq!(
        library.entries[0].tracks,
        vec![
            Track { url: text("a1"), file: text("A/a1.opus") },
            Track { url: text("a3"), file: text("A/a3.opus") },
            Track { url: text("a2"), file: text("A/a2.opus") },
        ]
    );
    assert_eq!(library.entries[1].tracks, vec![Track { url: text("b1"), file: text("B/b1.opus") }]);
    assert_eq!(library.version, 1);
}

#[test]
fn merge_of_nothing_changes_nothing() {
    let mut library = two_entries();
    merge(&mut library, &vec![]);
    assert_eq!(library, two_entries());
}

#[test]
fn merge_at_once_equals_merge_one_by_one() {
    let results = vec![
        done("ARTIST/a", "a2", "A/a2.opus"),
        done("ARTIST/b", "b1", "B/b1.opus"),
        done("ARTIST/none", "n1", "N/n1.opus"),
        done("ARTIST/b", "b2", "B/b2.opus"),
    ];
    let mut at_once = two_entries();
    merge(&mut at_once, &results);
    let mut one_by_one = two_entries();
    for result in results.iter() {
        apply(&mut one_by_one, result);
    }
    let mut in_parts = two_entries();
    merge(&mut in_parts, &results[..1].to_vec());
    merge(&mut in_parts, &results[1..].to_vec());
    assert_eq!(at_once, one_by_one);
    assert_eq!(at_once, in_parts);
}

#[test]
fn completed_download_is_recorded_exactly_once() {
    let mut library = two_entries();
    let made = plan(
        &library,
        &vec![Ok(vec![text("a1"), text("a2"), text("a2")]), Ok(vec![text("b1"), text("a2")])],
    );
    let results: Vec<Completed> = made
        .tasks
        .iter()
        .rev()
        .map(|task| Completed { task: task.clone(), file: format!("files/{}", task.track_url) })
        .collect();
    merge(&mut library, &results);
    for result in results.iter() {
        let entry = library.entries.iter().find(|entry| entry.id == result.task.entry_id).unwrap();
        let hits: Vec<&Track> =
            entry.tracks.iter().filter(|track| track.url == result.task.track_url).collect();
        assert_eq!(hits.len(), 1);
        assert_eq!(hits[0].file, result.file);
    }
    assert!(library.is_wf());
    assert!(library.is_deduplicated());
    assert_eq!(library.entries[0].tracks.len(), 2);
    assert_eq!(library.entries[1].tracks.len(), 2);
}

#[test]
fn second_run_finds_nothing_to_do() {
    let mut library = two_entries();
    let listings = vec![
        Ok(vec![text("a1"), text("a2"), text("a3"), text("a2")]),
        Ok(vec![text("b1"), text("b1")]),
    ];
    let first = plan(&library, &listings);
    assert_eq!(first.tasks.len(), 3);
    let results: Vec<Completed> = first
        .tasks
        .into_iter()
        .map(|task| match settle(task, Ok(text("file"))) {
            Settled::Completed(done) => done,
            Settled::Failed(line) => panic!("{line}"),
        })
        .collect();
    merge(&mut library, &results);
    let after_first = library.clone();
    let second = plan(&library, &listings);
    assert_eq!(second.tasks, vec![]);
    assert_eq!(second.warnings, Vec::<String>::new());
    merge(&mut library, &vec![]);
    assert_eq!(library, after_first);
}

#[test]
fn failed_download_is_left_out_and_reported() {
    let mut library = Library {
        version: 1,
        entries: vec![artist("ARTIST/abc", "Abc", "u", &[("t1", "Abc/t1.opus")])],
    };
    let made = plan(&library, &vec![Ok(vec![text("t1"), text("t2"), text("t3")])]);
    assert_eq!(made.tasks.len(), 2);
    let mut results = Vec::new();
    let mut warnings = Vec::new();
    for task in made.tasks {
        let outcome = if task.track_url == "t2" {
            Err(OngakuError::YtdlpError(text("HTTP Error 403")))
        } else {
            Ok(format!("Abc/{}.opus", task.track_url))
        };
        match settle(task, outcome) {
            Settled::Completed(done) => results.push(done),
            Settled::Failed(line) => warnings.push(line),
        }
    }
    merge(&mut library, &results);
    let urls: Vec<&str> = library.entries[0].tracks.iter().map(|t| t.url.as_str()).collect();
    assert_eq!(urls, vec!["t1", "t3"]);
    assert_eq!(library.entries[0].tracks[1].file, "Abc/t3.opus");
    assert_eq!(
        warnings,
        vec![text("Failed to download track at t2: yt-dlp error: HTTP Error 403")]
    );
    let again = plan(&library, &vec![Ok(vec![text("t1"), text("t2"), text("t3")])]);
    assert_eq!(again.tasks.len(), 1);
    assert_eq!(again.tasks[0].track_url, "t2");
}

#[test]
fn settle_keeps_task_and_file() {
    let task = done("ARTIST/a", "a2", "").task;
    assert_eq!(
        settle(task.clone(), Ok(text("A/a2.opus"))),
        Settled::Completed(Completed { task, file: text("A/a2.opus") })
    );
}

#[test]
fn settle_reports_the_cause_of_a_failure() {
    let task = done("ARTIST/a", "https://remote/a2", "").task;
    assert_eq!(
        settle(task, Err(OngakuError::DatabaseReadWriteError(text("disk full")))),
        Settled::Failed(text(
            "Failed to download track at https://remote/a2: Failed to read/write database."
        ))
    );
}

#[test]
fn pool_has_at_least_one_worker() {
    assert_eq!(pool_size(None), 1);
    assert_eq!(pool_size(Some(0)), 1);
    assert_eq!(pool_size(Some(1)), 1);
    assert_eq!(pool_size(Some(8)), 8);
    assert_eq!(pool_size(Some(usize::MAX)), usize::MAX);
}
