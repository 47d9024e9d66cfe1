//! The two indexes of a run, one keyed by tag and one keyed by date, fed from
//! the headers of the notes and rendered together.

use crate::header::{
    header_of, parse_header, Extraction, ExtractionModel, HeaderError, HeaderModel, HeaderRecord,
};
use crate::index::{Index, IndexModel, Posting};
use crate::render::{all_pages, bad_date_from, dates_parse, page_models, render, Page, RenderError};
use crate::text::views;
use vstd::prelude::*;

verus! {

/// The index of the tags and the index of the dates.
#[derive(Clone, Debug)]
pub struct Catalog {
    pub tags: Index,
    pub dates: Index,
}

/// The tag index after the note `document_id` with the header `header`:
/// the note stands under each of its tags, with an empty sort field.
pub open spec fn tags_after(
    tags: IndexModel,
    document_id: Seq<char>,
    header: HeaderModel,
) -> IndexModel {
    tags.add_each(
        header.tags,
        Posting { document_id, title: header.title, sort_field: Seq::empty() },
    )
}

/// The date index after the note `document_id` with the header `header`:
/// where the header has a stamp, the note stands under its date, with its
/// time of day as sort field.
pub open spec fn dates_after(
    dates: IndexModel,
    document_id: Seq<char>,
    header: HeaderModel,
) -> IndexModel {
    match header.created {
        Some((date, time)) => dates.add(
            date,
            Posting { document_id, title: header.title, sort_field: time },
        ),
        None => dates,
    }
}

impl Catalog {
    /// Both indexes are well formed.
    pub open spec fn wf(&self) -> bool {
        self.tags.wf() && self.dates.wf()
    }

    /// Two indexes that hold nothing.
    pub fn new() -> (r: Catalog)
        ensures
            r.wf(),
            r.tags@ == IndexModel::empty(),
            r.dates@ == IndexModel::empty(),
    {
        Catalog { tags: Index::new(), dates: Index::new() }
    }

    /// Enters the note `document_id` with the header `header`: under its date
    /// where it has a stamp, and under each of its tags.
    pub fn record(&mut self, document_id: &str, header: &HeaderRecord)
        requires
            old(self).wf(),
        ensures
            final(self).wf(),
            final(self).tags@ == tags_after(old(self).tags@, document_id@, header@),
            final(self).dates@ == dates_after(old(self).dates@, document_id@, header@),
    {
        match &header.created {
            Some(stamp) => {
                self.dates.add(
                    stamp.date.as_str(),
                    document_id,
                    header.title.as_str(),
                    stamp.time.as_str(),
                );
            },
            None => {},
        }
        let ghost names = views(header.tags@);
        let ghost doc = Posting {
            document_id: document_id@,
            title: header.title@,
            sort_field: Seq::empty(),
        };
        let mut i: usize = 0;
        while i < header.tags.len()
            invariant
                i <= header.tags@.len(),
                self.tags.wf(),
                names == views(header.tags@),
                doc == (Posting {
                    document_id: document_id@,
                    title: header.title@,
                    sort_field: Seq::empty(),
                }),
                self.dates.wf(),
                self.dates@ == dates_after(old(self).dates@, document_id@, header@),
                self.tags@ == old(self).tags@.add_each(names.take(i as int), doc),
            decreases header.tags@.len() - i,
        {
            proof {
                reveal_strlit("");
            }
            self.tags.add(header.tags[i].as_str(), document_id, header.title.as_str(), "");
            proof {
                let next = names.take(i + 1);
                assert(next.drop_last() =~= names.take(i as int));
                assert(next.last() == header.tags@[i as int]@);
                assert(""@ =~= Seq::<char>::empty());
                assert(old(self).tags@.add_each(next, doc) == old(self).tags@.add_each(
                    next.drop_last(),
                    doc,
                ).add(next.last(), doc));
            }
            i += 1;
        }
        proof {
            assert(names.take(i as int) =~= names);
        }
    }

    /// Reads the header that `lines` hold and enters the note. A header that
    /// ends too early is rejected and changes nothing: the result is `false`.
    /// A header on which the run ends changes nothing either.
    pub fn take_in(&mut self, document_id: &str, lines: &Vec<String>) -> (r: Result<
        bool,
        HeaderError,
    >)
        requires
            old(self).wf(),
        ensures
            final(self).wf(),
            match header_of(views(lines@)) {
                Ok(ExtractionModel::Record(header)) => r == Ok::<bool, HeaderError>(true)
                    && final(self).tags@ == tags_after(old(self).tags@, document_id@, header)
                    && final(self).dates@ == dates_after(old(self).dates@, document_id@, header),
                Ok(ExtractionModel::Rejected) => r == Ok::<bool, HeaderError>(false)
                    && final(self).tags@ == old(self).tags@ && final(self).dates@ == old(
                    self,
                ).dates@,
                Err(e) => r == Err::<bool, HeaderError>(e) && final(self).tags@ == old(self).tags@
                    && final(self).dates@ == old(self).dates@,
            },
    {
        match parse_header(lines) {
            Err(e) => Err(e),
            Ok(Extraction::Rejected) => Ok(false),
            Ok(Extraction::Record(header)) => {
                self.record(document_id, &header);
                Ok(true)
            },
        }
    }

    /// Renders every page, or none: where a key of the date index stands for
    /// no number, the first such key is returned and no page is.
    pub fn render(&self) -> (r: Result<Vec<Page>, RenderError>)
        requires
            self.wf(),
        ensures
            r is Ok <==> dates_parse(self.dates@),
            r matches Ok(pages) ==> page_models(pages@) == all_pages(self.tags@, self.dates@),
            r matches Err(RenderError::BadDateKey(key)) ==> key@ == self.dates@.order[bad_date_from(
                self.dates@,
                0,
            )],
    {
        render(&self.tags, &self.dates)
    }
}

} // verus!
