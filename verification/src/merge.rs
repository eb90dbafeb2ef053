//! Puts completed downloads into the library.

use crate::db::{EntryView, Library, LibraryView, Track, TrackView};
use crate::diff::{Task, TaskView};
use crate::facts::views;
use vstd::prelude::*;

verus! {

/// A download that went through: the task and the path of the file it left.
#[derive(Debug, Clone, PartialEq, Eq)]
pub struct Completed {
    pub task: Task,
    pub file: String,
}

/// A completed download as the contracts see it.
pub struct CompletedView {
    pub task: TaskView,
    pub file: Seq<char>,
}

impl View for Completed {
    type V = CompletedView;

    open spec fn view(&self) -> CompletedView {
        CompletedView { task: self.task@, file: self.file@ }
    }
}

impl CompletedView {
    /// The track that records the download.
    pub open spec fn track(self) -> TrackView {
        TrackView { url: self.task.track_url, file: self.file }
    }
}

/// An entry after one completed download: with the track at the end where the
/// download is for this entry, as it was where it is for another.
pub open spec fn entry_applied(entry: EntryView, done: CompletedView) -> EntryView {
    if entry.id == done.task.entry_id {
        entry.with_track(done.track())
    } else {
        entry
    }
}

/// The library after one completed download.
pub open spec fn applied(library: LibraryView, done: CompletedView) -> LibraryView {
    LibraryView {
        version: library.version,
        entries: library.entries.map_values(|entry: EntryView| entry_applied(entry, done)),
    }
}

/// The download is of a track that is new to the library: no entry under the
/// task's key has recorded the task's URL.
pub open spec fn is_new(library: LibraryView, done: CompletedView) -> bool {
    forall|i: int|
        0 <= i < library.entries.len() && (#[trigger] library.entries[i]).id == done.task.entry_id
            ==> !library.entries[i].urls().contains(done.task.track_url)
}

/// Recording a download of a new track keeps the recorded tracks distinct.
pub proof fn lemma_applied_new(library: LibraryView, done: CompletedView)
    requires
        library.deduplicated(),
        is_new(library, done),
    ensures
        applied(library, done).deduplicated(),
{
    let after = applied(library, done);
    assert forall|i: int| 0 <= i < after.entries.len() implies (
    #[trigger] after.entries[i]).deduplicated() by {
        let entry = library.entries[i];
        assert(entry.deduplicated());
        if entry.id == done.task.entry_id {
            let had = entry.urls();
            let has = after.entries[i].urls();
            assert(has == had.push(done.task.track_url));
            assert forall|k: int, m: int|
                0 <= k < has.len() && 0 <= m < has.len() && k != m implies has[k] != has[m] by {
                if k == had.len() {
                    assert(had.contains(had[m]));
                } else if m == had.len() {
                    assert(had.contains(had[k]));
                }
            }
        }
    }
}

/// The library after a run of completed downloads, taken in their order.
pub open spec fn merged(library: LibraryView, results: Seq<CompletedView>) -> LibraryView {
    results.fold_left(library, |so_far: LibraryView, done: CompletedView| applied(so_far, done))
}

/// Records one completed download.
///
/// The entry under the task's key gets a track with the task's URL and the file,
/// after those it has; where the keys are not distinct, every entry under that key
/// does. Nothing else changes, and nothing at all where no entry is under the key.
pub fn apply(library: &mut Library, done: &Completed)
    ensures
        final(library)@ == applied(old(library)@, done@),
        final(library)@.ids() == old(library)@.ids(),
        old(library)@.deduplicated() && is_new(old(library)@, done@)
            ==> final(library)@.deduplicated(),
{
    let ghost start = library@;
    let mut i: usize = 0;
    while i < library.entries.len()
        invariant
            i <= library.entries.len(),
            library.version == start.version,
            library.entries.len() == start.entries.len(),
            forall|j: int|
                0 <= j < i ==> library.entries[j]@ == entry_applied(start.entries[j], done@),
            forall|j: int|
                i <= j < library.entries.len() ==> library.entries[j]@ == start.entries[j],
        decreases library.entries.len() - i,
    {
        if library.entries[i].id == done.task.entry_id {
            let ghost entry = library.entries[i as int];
            let track = Track { url: done.task.track_url.clone(), file: done.file.clone() };
            assert(track@ == done@.track());
            assert(views(entry.tracks@.push(track)) == views(entry.tracks@).push(track@));
            library.entries[i].tracks.push(track);
        }
        i += 1;
    }
    assert(library@.entries == applied(start, done@).entries);
    assert(library@.ids() == start.ids());
    proof {
        if start.deduplicated() && is_new(start, done@) {
            lemma_applied_new(start, done@);
        }
    }
}

/// Records completed downloads, in the order given.
pub fn merge(library: &mut Library, results: &Vec<Completed>)
    ensures
        final(library)@ == merged(old(library)@, views(results@)),
        final(library)@.ids() == old(library)@.ids(),
{
    let ghost start = library@;
    let ghost all = views(results@);
    let mut i: usize = 0;
    while i < results.len()
        invariant
            i <= results.len(),
            all == views(results@),
            library@ == merged(start, all.take(i as int)),
            library@.ids() == start.ids(),
        decreases results.len() - i,
    {
        proof {
            assert(all.take(i + 1).drop_last() == all.take(i as int));
            assert(all.take(i + 1).last() == results[i as int]@);
        }
        apply(library, &results[i]);
        i += 1;
    }
    assert(all.take(i as int) == all);
}

/// The test that picks the downloads for the entry under one key.
pub open spec fn is_under(id: Seq<char>) -> spec_fn(CompletedView) -> bool {
    |done: CompletedView| done.task.entry_id == id
}

/// The tracks that a run of completed downloads records under one key, in the
/// order of the run.
pub open spec fn tracks_for(results: Seq<CompletedView>, id: Seq<char>) -> Seq<TrackView> {
    results.filter(is_under(id)).map_values(|done: CompletedView| done.track())
}

/// Merging leaves every entry in its place and changes nothing of it but the
/// tracks: after those it had come the tracks of the downloads under its key, in
/// the order in which they were merged.
pub proof fn lemma_merged(library: LibraryView, results: Seq<CompletedView>)
    ensures
        merged(library, results).version == library.version,
        merged(library, results).entries.len() == library.entries.len(),
        merged(library, results).ids() == library.ids(),
        forall|i: int|
            0 <= i < library.entries.len() ==> #[trigger] merged(library, results).entries[i] == (
            EntryView {
                tracks: library.entries[i].tracks + tracks_for(results, library.entries[i].id),
                ..library.entries[i]
            }),
    decreases results.len(),
{
    reveal(Seq::filter);
    if results.len() > 0 {
        let earlier = results.drop_last();
        let done = results.last();
        let so_far = merged(library, earlier);
        lemma_merged(library, earlier);
        assert(merged(library, results) == applied(so_far, done));
        assert forall|i: int| 0 <= i < library.entries.len() implies #[trigger] merged(
            library,
            results,
        ).entries[i] == (EntryView {
            tracks: library.entries[i].tracks + tracks_for(results, library.entries[i].id),
            ..library.entries[i]
        }) by {
            let id = library.entries[i].id;
            assert(merged(library, results).entries[i] == entry_applied(so_far.entries[i], done));
            if id == done.task.entry_id {
                assert(tracks_for(results, id) == tracks_for(earlier, id).push(done.track()));
                assert(library.entries[i].tracks + tracks_for(earlier, id).push(done.track())
                    == (library.entries[i].tracks + tracks_for(earlier, id)).push(done.track()));
            } else {
                assert(tracks_for(results, id) == tracks_for(earlier, id));
            }
        }
        assert(merged(library, results).ids() == library.ids());
    } else {
        assert forall|i: int| 0 <= i < library.entries.len() implies #[trigger] merged(
            library,
            results,
        ).entries[i] == (EntryView {
            tracks: library.entries[i].tracks + tracks_for(results, library.entries[i].id),
            ..library.entries[i]
        }) by {
            assert(library.entries[i].tracks + Seq::<TrackView>::empty()
                == library.entries[i].tracks);
        }
    }
}

/// Merging a run of downloads in two parts, one after the other, leaves what
/// merging all of it at once leaves.
pub proof fn merge_in_parts(
    library: LibraryView,
    first: Seq<CompletedView>,
    second: Seq<CompletedView>,
)
    ensures
        merged(library, first + second) == merged(merged(library, first), second),
{
    let all = first + second;
    let step = |so_far: LibraryView, done: CompletedView| applied(so_far, done);
    all.lemma_fold_left_split(library, step, first.len() as int);
    assert(all.subrange(0, first.len() as int) == first);
    assert(all.subrange(first.len() as int, all.len() as int) == second);
}

} // verus!
