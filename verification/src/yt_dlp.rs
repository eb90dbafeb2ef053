//! What the library knows of the extraction tool: which URLs it is asked about,
//! and how its output is read.

use crate::facts::views;
use vstd::prelude::*;

verus! {

/// The start of the URL of an artist's channel.
pub const CHANNEL_URL: &'static str = "https://music.youtube.com/channel/";

/// The start of the URL of a single track.
pub const WATCH_URL: &'static str = "https://music.youtube.com/watch?v=";

/// Whether a URL is of a kind that can be added: it starts as one of the two kinds
/// of URL do.
pub open spec fn supported(url: Seq<char>) -> bool {
    CHANNEL_URL@.is_prefix_of(url) || WATCH_URL@.is_prefix_of(url)
}

/// The characters of a text, one by one.
fn chars_of(text: &str) -> (chars: Vec<char>)
    ensures
        chars@ == text@,
{
    let mut chars: Vec<char> = Vec::new();
    for c in it: text.chars()
        invariant
            it.seq() == text@,
            chars@ == text@.take(it.index() as int),
    {
        chars.push(c);
    }
    assert(text@.take(text@.len() as int) == text@);
    chars
}

/// Whether a text starts with another.
fn starts_with(text: &Vec<char>, start: &str) -> (found: bool)
    ensures
        found == start@.is_prefix_of(text@),
{
    let wanted = chars_of(start);
    if wanted.len() > text.len() {
        return false;
    }
    let mut i: usize = 0;
    while i < wanted.len()
        invariant
            i <= wanted.len() <= text.len(),
            wanted@ == start@,
            forall|j: int| 0 <= j < i ==> wanted[j] == text[j],
        decreases wanted.len() - i,
    {
        if wanted[i] != text[i] {
            assert(text@.subrange(0, wanted@.len() as int)[i as int] != wanted@[i as int]);
            return false;
        }
        i += 1;
    }
    assert(wanted@ == text@.subrange(0, wanted@.len() as int));
    true
}

/// Whether a URL is of a kind that can be added to the library.
pub fn is_supported_url(url: &str) -> (accepted: bool)
    ensures
        accepted == supported(url@),
{
    let url = chars_of(url);
    starts_with(&url, CHANNEL_URL) || starts_with(&url, WATCH_URL)
}

/// Whether a character is white space: one of the twenty-five that Unicode gives
/// the property `White_Space`.
pub open spec fn is_whitespace(c: char) -> bool {
    let code = c as u32;
    ||| 0x09 <= code <= 0x0D
    ||| code == 0x20
    ||| code == 0x85
    ||| code == 0xA0
    ||| code == 0x1680
    ||| 0x2000 <= code <= 0x200A
    ||| code == 0x2028
    ||| code == 0x2029
    ||| code == 0x202F
    ||| code == 0x205F
    ||| code == 0x3000
}

/// A text without the white space at its start.
pub open spec fn trim_start(text: Seq<char>) -> Seq<char>
    decreases text.len(),
{
    if text.len() > 0 && is_whitespace(text.first()) {
        trim_start(text.drop_first())
    } else {
        text
    }
}

/// A text without the white space at its end.
pub open spec fn trim_end(text: Seq<char>) -> Seq<char>
    decreases text.len(),
{
    if text.len() > 0 && is_whitespace(text.last()) {
        trim_end(text.drop_last())
    } else {
        text
    }
}

/// A text without the white space at its start and at its end.
pub open spec fn trimmed(text: Seq<char>) -> Seq<char> {
    trim_end(trim_start(text))
}

/// The lines of a text: what stands between its line feeds, before the first and
/// after the last. A text without a line feed is one line, the empty text too.
pub open spec fn lines(text: Seq<char>) -> Seq<Seq<char>>
    decreases text.len(),
{
    if text.len() == 0 {
        seq![Seq::empty()]
    } else {
        let before = lines(text.drop_last());
        if text.last() == '\n' {
            before.push(Seq::empty())
        } else {
            before.drop_last().push(before.last().push(text.last()))
        }
    }
}

/// Whether a character is white space.
fn whitespace(c: char) -> (found: bool)
    ensures
        found == is_whitespace(c),
{
    let code = c as u32;
    (0x09 <= code && code <= 0x0D) || code == 0x20 || code == 0x85 || code == 0xA0 || code
        == 0x1680 || (0x2000 <= code && code <= 0x200A) || code == 0x2028 || code == 0x2029
        || code == 0x202F || code == 0x205F || code == 0x3000
}

/// Where the text starts and ends once the white space around it is left out.
fn trim_bounds(text: &Vec<char>) -> (bounds: (usize, usize))
    ensures
        bounds.0 <= bounds.1 <= text.len(),
        text@.subrange(bounds.0 as int, bounds.1 as int) == trimmed(text@),
{
    let mut start: usize = 0;
    assert(text@.skip(0) == text@);
    while start < text.len() && whitespace(text[start])
        invariant
            start <= text.len(),
            trim_start(text@) == trim_start(text@.skip(start as int)),
        decreases text.len() - start,
    {
        proof {
            assert(text@.skip(start as int).drop_first() == text@.skip(start + 1));
        }
        start += 1;
    }
    assert(trim_start(text@) == text@.skip(start as int));
    let ghost rest = text@.skip(start as int);
    let mut end: usize = text.len();
    assert(rest.take(end - start) == rest);
    while end > start && whitespace(text[end - 1])
        invariant
            start <= end <= text.len(),
            rest == text@.skip(start as int),
            trim_end(rest) == trim_end(rest.take(end - start)),
        decreases end,
    {
        proof {
            assert(rest.take(end - start).drop_last() == rest.take(end - 1 - start));
        }
        end -= 1;
    }
    assert(trim_end(rest) == rest.take(end - start));
    assert(rest.take(end - start) == text@.subrange(start as int, end as int));
    (start, end)
}

/// `String::push` of the standard library: puts one character at the end of the
/// text and leaves the rest of it as it was.
#[verifier::external_body]
fn push_char(text: &mut String, c: char)
    ensures
        final(text)@ == old(text)@.push(c),
{
    text.push(c);
}

/// Reads what the tool printed for a listing: one record for each track, each on
/// a line of its own.
///
/// The white space around the output is left out, and what remains is cut at
/// every line feed. There is always at least one record, the empty one where the
/// tool printed nothing.
pub fn get_tracks(stdout: &str) -> (records: Vec<String>)
    ensures
        views(records@) == lines(trimmed(stdout@)),
        records.len() >= 1,
{
    let text = chars_of(stdout);
    let (start, end) = trim_bounds(&text);
    let ghost body = trimmed(stdout@);
    let mut records: Vec<String> = Vec::new();
    let mut current = String::new();
    let mut i: usize = start;
    assert(body.take(0) == Seq::<char>::empty());
    assert(views(records@).push(current@) == seq![Seq::<char>::empty()]);
    while i < end
        invariant
            start <= i <= end <= text.len(),
            body == text@.subrange(start as int, end as int),
            lines(body.take(i - start)) == views(records@).push(current@),
        decreases end - i,
    {
        let c = text[i];
        let ghost before = body.take(i - start);
        let ghost after = body.take(i + 1 - start);
        proof {
            assert(after.drop_last() == before);
            assert(after.last() == c);
            assert(views(records@).push(current@).drop_last() == views(records@));
        }
        if c == '\n' {
            proof {
                assert(views(records@.push(current)) == views(records@).push(current@));
            }
            records.push(current);
            current = String::new();
        } else {
            push_char(&mut current, c);
        }
        i += 1;
    }
    proof {
        assert(body.take(end - start) == body);
        assert(views(records@.push(current)) == views(records@).push(current@));
    }
    records.push(current);
    records
}

/// Reads what the tool printed for a download: the path of the file, which is the
/// first line of the output once the white space around it is left out.
pub fn download_track(stdout: &str) -> (file: String)
    ensures
        file@ == lines(trimmed(stdout@)).first(),
{
    let mut records = get_tracks(stdout);
    records.swap_remove(0)
}

} // verus!
