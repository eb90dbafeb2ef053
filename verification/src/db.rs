//! The library and its stored form.
//!
//! A [`Library`] is what a run works on. [`Stored`] is the shape in which it is
//! written down: a version and the entries, each under its key. [`init`], [`load`]
//! and [`save`] decide what becomes of either; reading and writing the file, and
//! turning bytes into a [`Stored`] value and back, is the caller's part.

use crate::error::OngakuError;
use crate::facts::lemma_take_last;
use vstd::hash_set::StringHashSet;
use vstd::prelude::*;

verus! {

/// The name of the library file, in the working directory.
pub const DB_FILE: &'static str = ".ongaku.pb";

/// The version of the stored form that this library reads and writes.
pub const DB_VERSION: u32 = 1;

/// What kind of remote collection an entry stands for.
#[derive(Debug, Clone, Copy, PartialEq, Eq, Structural)]
pub enum EntryType {
    Artist,
    Playlist,
}

impl EntryType {
    /// The tag that the keys of the entries of this kind start with.
    pub open spec fn tag(self) -> Seq<char> {
        match self {
            EntryType::Artist => "ARTIST"@,
            EntryType::Playlist => "PLAYLIST"@,
        }
    }

    /// The tag that the keys of the entries of this kind start with.
    pub fn type_tag(self) -> (tag: &'static str)
        ensures
            tag@ == self.tag(),
    {
        match self {
            EntryType::Artist => "ARTIST",
            EntryType::Playlist => "PLAYLIST",
        }
    }
}

/// The key of a collection: the tag of its kind, a slash, and the identifier that
/// the remote side gives it.
pub open spec fn key_of(kind: EntryType, remote_id: Seq<char>) -> Seq<char> {
    kind.tag() + "/"@ + remote_id
}

/// Makes the key of a collection.
pub fn entry_id(kind: EntryType, remote_id: &str) -> (id: String)
    ensures
        id@ == key_of(kind, remote_id@),
{
    let mut id = String::from_str(kind.type_tag());
    id.append("/");
    id.append(remote_id);
    id
}

/// One downloaded item: where it came from and where it lies.
#[derive(Debug, Clone, PartialEq, Eq)]
pub struct Track {
    /// The remote address of the track; tracks are told apart by it.
    pub url: String,
    /// The path of the downloaded file.
    pub file: String,
}

/// One remote collection and the tracks of it that have been downloaded.
#[derive(Debug, Clone, PartialEq, Eq)]
pub struct Entry {
    /// The key of the entry in the library.
    pub id: String,
    /// The kind of collection; `type` in the stored form.
    pub kind: EntryType,
    /// The name shown to the user.
    pub name: String,
    /// The URL that the user gave.
    pub original_url: String,
    /// The URL under which the listing is asked for.
    pub url: String,
    /// The downloaded tracks, in the order in which their downloads completed.
    pub tracks: Vec<Track>,
}

/// The entries that are kept in step with their remote source.
#[derive(Debug, Clone, PartialEq, Eq)]
pub struct Library {
    /// The version of the stored form that the library was read from.
    pub version: u32,
    /// The entries, in the order in which they were read or added.
    pub entries: Vec<Entry>,
}

/// A track as the contracts see it.
pub struct TrackView {
    pub url: Seq<char>,
    pub file: Seq<char>,
}

/// An entry as the contracts see it.
pub struct EntryView {
    pub id: Seq<char>,
    pub kind: EntryType,
    pub name: Seq<char>,
    pub original_url: Seq<char>,
    pub url: Seq<char>,
    pub tracks: Seq<TrackView>,
}

/// A library as the contracts see it.
pub struct LibraryView {
    pub version: u32,
    pub entries: Seq<EntryView>,
}

impl View for Track {
    type V = TrackView;

    open spec fn view(&self) -> TrackView {
        TrackView { url: self.url@, file: self.file@ }
    }
}

impl View for Entry {
    type V = EntryView;

    open spec fn view(&self) -> EntryView {
        EntryView {
            id: self.id@,
            kind: self.kind,
            name: self.name@,
            original_url: self.original_url@,
            url: self.url@,
            tracks: self.tracks@.map_values(|track: Track| track@),
        }
    }
}

impl View for Library {
    type V = LibraryView;

    open spec fn view(&self) -> LibraryView {
        LibraryView {
            version: self.version,
            entries: self.entries@.map_values(|entry: Entry| entry@),
        }
    }
}

impl EntryView {
    /// The URLs of the recorded tracks, in order.
    pub open spec fn urls(self) -> Seq<Seq<char>> {
        self.tracks.map_values(|track: TrackView| track.url)
    }

    /// No two recorded tracks share a URL.
    pub open spec fn deduplicated(self) -> bool {
        self.urls().no_duplicates()
    }

    /// The entry with one more track at the end.
    pub open spec fn with_track(self, track: TrackView) -> EntryView {
        EntryView { tracks: self.tracks.push(track), ..self }
    }
}

impl LibraryView {
    /// The keys of the entries, in order.
    pub open spec fn ids(self) -> Seq<Seq<char>> {
        self.entries.map_values(|entry: EntryView| entry.id)
    }

    /// Whether an entry has the given key.
    pub open spec fn has(self, id: Seq<char>) -> bool {
        self.ids().contains(id)
    }

    /// No two entries share a key.
    pub open spec fn wf(self) -> bool {
        self.ids().no_duplicates()
    }

    /// In no entry do two recorded tracks share a URL.
    pub open spec fn deduplicated(self) -> bool {
        forall|i: int| 0 <= i < self.entries.len() ==> (#[trigger] self.entries[i]).deduplicated()
    }
}

/// The shape in which a library is written down: the version, and each entry
/// under its key.
#[derive(Debug, Clone, PartialEq, Eq)]
pub struct Stored {
    pub version: u32,
    pub entries: Vec<(String, Entry)>,
}

/// A stored library as the contracts see it.
pub struct StoredView {
    pub version: u32,
    pub entries: Seq<(Seq<char>, EntryView)>,
}

impl View for Stored {
    type V = StoredView;

    open spec fn view(&self) -> StoredView {
        StoredView {
            version: self.version,
            entries: self.entries@.map_values(|pair: (String, Entry)| (pair.0@, pair.1@)),
        }
    }
}

impl StoredView {
    /// The library that is stored: the entries without their keys.
    pub open spec fn library(self) -> LibraryView {
        LibraryView {
            version: self.version,
            entries: self.entries.map_values(|pair: (Seq<char>, EntryView)| pair.1),
        }
    }

    /// Every entry stands under its own identifier.
    pub open spec fn keyed(self) -> bool {
        forall|i: int|
            0 <= i < self.entries.len() ==> (#[trigger] self.entries[i]).0 == self.entries[i].1.id
    }

    /// What is stored can be read as a library of the given version: the version
    /// is that one, every entry stands under its own identifier, no two entries
    /// share a key, and no entry holds a URL twice.
    pub open spec fn readable(self, version: u32) -> bool {
        &&& self.version == version
        &&& self.keyed()
        &&& self.library().wf()
        &&& self.library().deduplicated()
    }
}

impl LibraryView {
    /// The shape in which the library is written down.
    pub open spec fn stored(self) -> StoredView {
        StoredView {
            version: self.version,
            entries: self.entries.map_values(|entry: EntryView| (entry.id, entry)),
        }
    }
}

impl Library {
    /// A library of the given version that holds no entry.
    pub fn new(version: u32) -> (library: Library)
        ensures
            library@ == (LibraryView { version, entries: Seq::empty() }),
            library@.wf(),
            library@.deduplicated(),
    {
        let library = Library { version, entries: Vec::new() };
        assert(library@.entries == Seq::<EntryView>::empty());
        assert(library@.ids() == Seq::<Seq<char>>::empty());
        library
    }

    /// Whether the library holds an entry under the given key.
    pub fn contains(&self, id: &str) -> (found: bool)
        ensures
            found == self@.has(id@),
    {
        let key = String::from_str(id);
        let mut i: usize = 0;
        while i < self.entries.len()
            invariant
                i <= self.entries.len(),
                key@ == id@,
                forall|j: int| 0 <= j < i ==> self.entries[j].id@ != id@,
            decreases self.entries.len() - i,
        {
            if self.entries[i].id == key {
                assert(self@.ids()[i as int] == id@);
                return true;
            }
            i += 1;
        }
        assert(!self@.has(id@)) by {
            if self@.has(id@) {
                let j = choose|j: int| 0 <= j < self@.ids().len() && self@.ids()[j] == id@;
                assert(self.entries[j].id@ == id@);
            }
        }
        false
    }
}

/// Puts a library into the shape in which it is written down: every entry under
/// its own identifier, in the library's order.
pub fn save(library: Library) -> (stored: Stored)
    ensures
        stored@ == library@.stored(),
        stored@.keyed(),
        stored@.library() == library@,
{
    let ghost items = library.entries@;
    let ghost all = library@.entries;
    let version = library.version;
    let mut entries: Vec<(String, Entry)> = Vec::new();
    for entry in it: library.entries
        invariant
            it.seq() == items,
            all == items.map_values(|entry: Entry| entry@),
            entries@.map_values(|pair: (String, Entry)| (pair.0@, pair.1@)) == all.take(
                it.index() as int,
            ).map_values(|entry: EntryView| (entry.id, entry)),
    {
        let ghost i = it.index() as int;
        let key = entry.id.clone();
        proof {
            assert(entry == items[i]);
            assert(all.take(i + 1).map_values(|entry: EntryView| (entry.id, entry)) == all.take(
                i,
            ).map_values(|entry: EntryView| (entry.id, entry)).push((entry@.id, entry@)));
            assert(entries@.push((key, entry)).map_values(
                |pair: (String, Entry)| (pair.0@, pair.1@),
            ) == entries@.map_values(|pair: (String, Entry)| (pair.0@, pair.1@)).push(
                (key@, entry@),
            ));
        }
        entries.push((key, entry));
    }
    let stored = Stored { version, entries };
    proof {
        assert(all.take(all.len() as int) == all);
        assert(stored@.entries == library@.stored().entries);
        assert(stored@.library().entries == library@.entries);
    }
    stored
}

/// What is told apart from its like by a text: a track by its URL, an entry by its
/// key.
trait Keyed {
    /// The text that tells the item apart.
    spec fn key(&self) -> Seq<char>;

    /// The text that tells the item apart.
    fn key_text(&self) -> (text: &String)
        ensures
            text@ == self.key(),
    ;
}

impl Keyed for Track {
    spec fn key(&self) -> Seq<char> {
        self.url@
    }

    fn key_text(&self) -> (text: &String) {
        &self.url
    }
}

impl Keyed for Entry {
    spec fn key(&self) -> Seq<char> {
        self.id@
    }

    fn key_text(&self) -> (text: &String) {
        &self.id
    }
}

/// The keys of the items of a sequence.
spec fn keys<T: Keyed>(items: Seq<T>) -> Seq<Seq<char>> {
    items.map_values(|item: T| item.key())
}

/// A prefix that holds no item twice still holds none twice with one more item
/// that it does not hold.
proof fn lemma_distinct_next(items: Seq<Seq<char>>, n: int)
    requires
        0 < n <= items.len(),
        items.take(n - 1).no_duplicates(),
        !items.take(n - 1).contains(items[n - 1]),
    ensures
        items.take(n).no_duplicates(),
{
    let before = items.take(n - 1);
    let after = items.take(n);
    assert forall|i: int, j: int|
        0 <= i < after.len() && 0 <= j < after.len() && i != j implies after[i] != after[j] by {
        if i == n - 1 {
            assert(before[j] == after[j]);
            assert(before.contains(before[j]));
        } else if j == n - 1 {
            assert(before[i] == after[i]);
            assert(before.contains(before[i]));
        } else {
            assert(before[i] == after[i] && before[j] == after[j]);
        }
    }
}

/// Whether no two of the items have the same key.
fn distinct<T: Keyed>(items: &Vec<T>) -> (distinct: bool)
    ensures
        distinct == keys(items@).no_duplicates(),
{
    let ghost all = keys(items@);
    let mut seen = StringHashSet::new();
    let mut i: usize = 0;
    assert(all.take(0) == Seq::<Seq<char>>::empty());
    while i < items.len()
        invariant
            i <= items.len(),
            all == keys(items@),
            all.take(i as int).no_duplicates(),
            forall|key: Seq<char>|
                #![trigger seen@.contains(key)]
                seen@.contains(key) <==> all.take(i as int).contains(key),
        decreases items.len() - i,
    {
        proof {
            lemma_take_last(all, i + 1);
            assert(all[i as int] == items[i as int].key());
        }
        let new = seen.insert(items[i].key_text().clone());
        if !new {
            proof {
                let before = all.take(i as int);
                let j = choose|j: int| 0 <= j < before.len() && before[j] == all[i as int];
                assert(all[j] == all[i as int]);
            }
            return false;
        }
        proof {
            lemma_distinct_next(all, i + 1);
        }
        i += 1;
    }
    assert(all.take(i as int) == all);
    true
}

impl Entry {
    /// Whether no two recorded tracks share a URL.
    pub fn is_deduplicated(&self) -> (distinct: bool)
        ensures
            distinct == self@.deduplicated(),
    {
        assert(self@.urls() == keys(self.tracks@));
        distinct(&self.tracks)
    }
}

impl Library {
    /// Whether no two entries share a key.
    pub fn is_wf(&self) -> (distinct: bool)
        ensures
            distinct == self@.wf(),
    {
        assert(self@.ids() == keys(self.entries@));
        distinct(&self.entries)
    }

    /// Whether in no entry two recorded tracks share a URL.
    pub fn is_deduplicated(&self) -> (distinct: bool)
        ensures
            distinct == self@.deduplicated(),
    {
        let mut i: usize = 0;
        while i < self.entries.len()
            invariant
                i <= self.entries.len(),
                forall|j: int| 0 <= j < i ==> (#[trigger] self@.entries[j]).deduplicated(),
            decreases self.entries.len() - i,
        {
            assert(self@.entries[i as int] == self.entries[i as int]@);
            if !self.entries[i].is_deduplicated() {
                return false;
            }
            i += 1;
        }
        true
    }
}

/// Why a stored library cannot be read as one of the given version, if it cannot:
/// the first of the four demands of [`StoredView::readable`] that it fails.
pub open spec fn fault(stored: StoredView, version: u32) -> Option<Seq<char>> {
    if stored.version != version {
        Some("unknown version"@)
    } else if !stored.keyed() {
        Some("entry under a key that is not its identifier"@)
    } else if !stored.library().wf() {
        Some("two entries under one key"@)
    } else if !stored.library().deduplicated() {
        Some("two tracks with one URL in an entry"@)
    } else {
        None
    }
}

/// Creates the library for a directory that has none.
///
/// `created` tells whether the library file could be created anew. Where it could
/// not, one is there already, and is left as it is.
pub fn init(created: bool, version: u32) -> (result: Result<Library, OngakuError>)
    ensures
        match result {
            Ok(library) => {
                &&& created
                &&& library@ == (LibraryView { version, entries: Seq::empty() })
                &&& library@.wf()
                &&& library@.deduplicated()
            },
            Err(error) => !created && error == OngakuError::AlreadyInitialized,
        },
{
    if created {
        Ok(Library::new(version))
    } else {
        Err(OngakuError::AlreadyInitialized)
    }
}

/// Reads a library of the given version from what the file holds.
///
/// `found` is `None` where there is no library file. What is stored is accepted
/// as it stands or not at all: a version other than `version`, an entry under a key
/// that is not its identifier, two entries under one key, or an entry that holds a
/// URL twice each make it unreadable.
pub fn load(version: u32, found: Option<Stored>) -> (result: Result<Library, OngakuError>)
    ensures
        match result {
            Ok(library) => {
                &&& found matches Some(stored) && stored@.readable(version) && library@
                    == stored@.library()
                &&& library@.version == version
                &&& library@.wf()
                &&& library@.deduplicated()
            },
            Err(error) => match found {
                None => error == OngakuError::NotInitialized,
                Some(stored) => error matches OngakuError::PbDecodingError(cause) && fault(
                    stored@,
                    version,
                ) == Some(cause@),
            },
        },
{
    let stored = match found {
        None => {
            return Err(OngakuError::NotInitialized);
        },
        Some(stored) => stored,
    };
    let ghost whole = stored@;
    let ghost pairs = whole.entries;
    let ghost items = stored.entries@;
    if stored.version != version {
        return Err(OngakuError::PbDecodingError(String::from_str("unknown version")));
    }
    let mut entries: Vec<Entry> = Vec::new();
    for pair in it: stored.entries
        invariant
            it.seq() == items,
            found == Some(stored),
            whole == stored@,
            whole.version == version,
            pairs == whole.entries,
            pairs == items.map_values(|pair: (String, Entry)| (pair.0@, pair.1@)),
            forall|j: int| 0 <= j < it.index() ==> (#[trigger] pairs[j]).0 == pairs[j].1.id,
            entries@.map_values(|entry: Entry| entry@) == pairs.take(it.index() as int).map_values(
                |pair: (Seq<char>, EntryView)| pair.1,
            ),
    {
        let ghost i = it.index() as int;
        let (key, entry) = pair;
        proof {
            assert(pair == items[i]);
            assert(pairs[i] == (key@, entry@));
            assert(pairs.take(i + 1).map_values(|pair: (Seq<char>, EntryView)| pair.1)
                == pairs.take(i).map_values(|pair: (Seq<char>, EntryView)| pair.1).push(entry@));
            assert(entries@.push(entry).map_values(|entry: Entry| entry@) == entries@.map_values(
                |entry: Entry| entry@,
            ).push(entry@));
        }
        if key != entry.id {
            assert(!whole.keyed()) by {
                assert(pairs[i].0 != pairs[i].1.id);
            }
            return Err(
                OngakuError::PbDecodingError(
                    String::from_str("entry under a key that is not its identifier"),
                ),
            );
        }
        entries.push(entry);
    }
    let library = Library { version, entries };
    proof {
        assert(pairs.take(pairs.len() as int) == pairs);
        assert(library@.entries == stored@.library().entries);
    }
    if !library.is_wf() {
        return Err(OngakuError::PbDecodingError(String::from_str("two entries under one key")));
    }
    if !library.is_deduplicated() {
        return Err(
            OngakuError::PbDecodingError(String::from_str("two tracks with one URL in an entry")),
        );
    }
    Ok(library)
}

/// What [`save`] makes of a library, [`load`] reads back as that library: the
/// stored form of a library in which no two entries share a key and no entry holds
/// a URL twice is readable at the library's version, and holds the library.
pub proof fn stored_library_is_readable(library: LibraryView)
    requires
        library.wf(),
        library.deduplicated(),
    ensures
        library.stored().readable(library.version),
        library.stored().library() == library,
        fault(library.stored(), library.version) is None,
{
    assert(library.stored().library().entries == library.entries);
}

} // verus!
