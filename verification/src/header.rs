//! The header of a note: the title, the creation stamp and the tags that its
//! first five lines hold, each on a line of its own.

use crate::text::{slice_to_string, split_chars, to_chars, views, words_from};
use vstd::prelude::*;

verus! {

/// Whether `line` begins with `prefix`.
pub open spec fn has_prefix(line: Seq<char>, prefix: Seq<char>) -> bool {
    prefix.len() <= line.len() && line.take(prefix.len() as int) == prefix
}

/// The title: what follows `Title: ` on the second line, or nothing where
/// the second line is missing or begins otherwise.
pub open spec fn title_of(lines: Seq<Seq<char>>) -> Seq<char> {
    if lines.len() > 1 && has_prefix(lines[1], "Title: "@) {
        lines[1].skip("Title: "@.len() as int)
    } else {
        Seq::empty()
    }
}

/// Whether the header ends too early: the third line begins with `---`.
pub open spec fn ends_early(lines: Seq<Seq<char>>) -> bool {
    lines.len() > 2 && has_prefix(lines[2], "---"@)
}

/// The words that follow `Created:` on the fourth line, where that line
/// begins so.
pub open spec fn created_words(lines: Seq<Seq<char>>) -> Option<Seq<Seq<char>>> {
    if lines.len() > 3 && has_prefix(lines[3], "Created:"@) {
        Some(words_from(lines[3], "Created:"@.len() as int))
    } else {
        None
    }
}

/// The words that follow `Tags:` on the fifth line, where that line begins
/// so.
pub open spec fn tag_words(lines: Seq<Seq<char>>) -> Option<Seq<Seq<char>>> {
    if lines.len() > 4 && has_prefix(lines[4], "Tags:"@) {
        Some(words_from(lines[4], "Tags:"@.len() as int))
    } else {
        None
    }
}

/// When a note was created: the date, and the time of day.
#[derive(Clone, Debug, PartialEq, Eq)]
pub struct Stamp {
    pub date: String,
    pub time: String,
}

/// What the header of a note holds. A header without a `Created:` line has
/// no stamp; one without a `Tags:` line, or with no word on it, has no tags.
#[derive(Clone, Debug, PartialEq, Eq)]
pub struct HeaderRecord {
    pub title: String,
    pub created: Option<Stamp>,
    pub tags: Vec<String>,
}

/// What a `HeaderRecord` stands for.
pub struct HeaderModel {
    pub title: Seq<char>,
    pub created: Option<(Seq<char>, Seq<char>)>,
    pub tags: Seq<Seq<char>>,
}

impl View for HeaderRecord {
    type V = HeaderModel;

    open spec fn view(&self) -> HeaderModel {
        HeaderModel {
            title: self.title@,
            created: match self.created {
                Some(stamp) => Some((stamp.date@, stamp.time@)),
                None => None,
            },
            tags: views(self.tags@),
        }
    }
}

/// What reading a header gives: a record, or the finding that the header
/// ends too early, which carries nothing.
#[derive(Clone, Debug, PartialEq, Eq)]
pub enum Extraction {
    Record(HeaderRecord),
    Rejected,
}

/// What an `Extraction` stands for.
pub enum ExtractionModel {
    Record(HeaderModel),
    Rejected,
}

impl View for Extraction {
    type V = ExtractionModel;

    open spec fn view(&self) -> ExtractionModel {
        match self {
            Extraction::Record(record) => ExtractionModel::Record(record@),
            Extraction::Rejected => ExtractionModel::Rejected,
        }
    }
}

/// A header on which the whole run ends.
#[derive(Clone, Copy, Debug, PartialEq, Eq)]
pub enum HeaderError {
    /// The `Created:` line holds no date followed by a time.
    NoCreationStamp,
}

/// What the lines of a header give. A `Created:` line without a date and a
/// time is an error; else a header that ends too early is rejected; else the
/// record holds the title, the first two words of the `Created:` line and the
/// words of the `Tags:` line, which may be none.
pub open spec fn header_of(lines: Seq<Seq<char>>) -> Result<ExtractionModel, HeaderError> {
    let created = created_words(lines);
    let tags = tag_words(lines);
    if created is Some && created.unwrap().len() < 2 {
        Err(HeaderError::NoCreationStamp)
    } else if ends_early(lines) {
        Ok(ExtractionModel::Rejected)
    } else {
        Ok(
            ExtractionModel::Record(
                HeaderModel {
                    title: title_of(lines),
                    created: match created {
                        Some(found) => Some((found[0], found[1])),
                        None => None,
                    },
                    tags: match tags {
                        Some(found) => found,
                        None => Seq::empty(),
                    },
                },
            ),
        )
    }
}

/// What `r` stands for.
pub open spec fn outcome(r: Result<Extraction, HeaderError>) -> Result<
    ExtractionModel,
    HeaderError,
> {
    match r {
        Ok(found) => Ok(found@),
        Err(e) => Err(e),
    }
}

/// Tells whether `line` begins with `prefix`.
fn begins_with(line: &Vec<char>, prefix: &Vec<char>) -> (r: bool)
    ensures
        r == has_prefix(line@, prefix@),
{
    if prefix.len() > line.len() {
        return false;
    }
    let mut i: usize = 0;
    while i < prefix.len()
        invariant
            i <= prefix@.len() <= line@.len(),
            line@.take(i as int) == prefix@.take(i as int),
        decreases prefix@.len() - i,
    {
        if line[i] != prefix[i] {
            proof {
                assert(line@.take(prefix@.len() as int)[i as int] != prefix@[i as int]);
            }
            return false;
        }
        proof {
            assert(line@.take(i + 1) =~= line@.take(i as int).push(line@[i as int]));
            assert(prefix@.take(i + 1) =~= prefix@.take(i as int).push(prefix@[i as int]));
        }
        i += 1;
    }
    proof {
        assert(prefix@.take(i as int) =~= prefix@);
    }
    true
}

/// The characters of line `at`, where it exists and begins with `prefix`.
fn line_with(lines: &Vec<String>, at: usize, prefix: &str) -> (r: Option<Vec<char>>)
    ensures
        r is Some <==> at < lines@.len() && has_prefix(lines@[at as int]@, prefix@),
        r matches Some(chars) ==> chars@ == lines@[at as int]@ && prefix@.len() <= chars@.len(),
{
    if at >= lines.len() {
        return None;
    }
    let chars = to_chars(lines[at].as_str());
    let start = to_chars(prefix);
    if begins_with(&chars, &start) {
        Some(chars)
    } else {
        None
    }
}

/// Tells whether the header ends too early: its third line begins with
/// `---`.
pub fn has_early_end(lines: &Vec<String>) -> (r: bool)
    ensures
        r == ends_early(views(lines@)),
{
    line_with(lines, 2, "---").is_some()
}

/// Reads the header that `lines` hold; only the first five lines count.
pub fn parse_header(lines: &Vec<String>) -> (r: Result<Extraction, HeaderError>)
    ensures
        outcome(r) == header_of(views(lines@)),
{
    let ghost all = views(lines@);
    let mut created: Option<Stamp> = None;
    match line_with(lines, 3, "Created:") {
        Some(chars) => {
            let prefix = to_chars("Created:");
            let mut found = split_chars(&chars, prefix.len());
            if found.len() < 2 {
                return Err(HeaderError::NoCreationStamp);
            }
            let time = found.swap_remove(1);
            let date = found.swap_remove(0);
            created = Some(Stamp { date, time });
        },
        None => {},
    }
    let mut tags: Vec<String> = Vec::new();
    match line_with(lines, 4, "Tags:") {
        Some(chars) => {
            let prefix = to_chars("Tags:");
            tags = split_chars(&chars, prefix.len());
        },
        None => {},
    }
    if has_early_end(lines) {
        return Ok(Extraction::Rejected);
    }
    let mut title = String::new();
    match line_with(lines, 1, "Title: ") {
        Some(chars) => {
            let prefix = to_chars("Title: ");
            title = slice_to_string(&chars, prefix.len(), chars.len());
            proof {
                assert(title@ =~= all[1].skip("Title: "@.len() as int));
            }
        },
        None => {},
    }
    let record = HeaderRecord { title, created, tags };
    proof {
        assert(record@.tags =~= match tag_words(all) {
            Some(found) => found,
            None => Seq::empty(),
        });
    }
    Ok(Extraction::Record(record))
}

} // verus!
