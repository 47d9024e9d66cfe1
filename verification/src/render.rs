//! The pages rendered from the indexes: one page per key, and the master
//! index with its two summaries.

use crate::columns::{layout, ColumnFormatter};
use crate::index::{postings, DocumentRef, Index, IndexModel, Posting};
use crate::number::{decimal, parse_chars, parsed, push_decimal};
use crate::order::{
    ascending, ascending_order, descending, descending_order, lemma_ascending, lemma_descending,
    naturals, text_less, texts,
};
use crate::text::{to_chars, words};
use vstd::prelude::*;

verus! {

/// The line of a tag page for one document.
pub open spec fn tag_line(doc: Posting) -> Seq<char> {
    "[["@ + doc.document_id + "|"@ + doc.title + "]]\n"@
}

/// The line of a date page for one document.
pub open spec fn date_line(doc: Posting) -> Seq<char> {
    "[["@ + doc.document_id + "|"@ + doc.sort_field + "|"@ + doc.title + "]]\n"@
}

/// The head of the page of `key`: the header block and the list marker.
pub open spec fn page_head(key: Seq<char>) -> Seq<char> {
    "---\nTitle: "@ + key + "\n---\n\n#list\n"@
}

/// The lines of a tag page for `docs`, in order.
pub open spec fn tag_lines(docs: Seq<Posting>) -> Seq<char>
    decreases docs.len(),
{
    if docs.len() == 0 {
        Seq::empty()
    } else {
        tag_lines(docs.drop_last()) + tag_line(docs.last())
    }
}

/// The lines of a date page for `docs`, in order.
pub open spec fn date_lines(docs: Seq<Posting>) -> Seq<char>
    decreases docs.len(),
{
    if docs.len() == 0 {
        Seq::empty()
    } else {
        date_lines(docs.drop_last()) + date_line(docs.last())
    }
}

/// The sort fields of `docs`, in order.
pub open spec fn sort_fields(docs: Seq<Posting>) -> Seq<Seq<char>> {
    Seq::new(docs.len(), |i: int| docs[i].sort_field)
}

/// The documents at the positions that `order` lists.
pub open spec fn arranged(docs: Seq<Posting>, order: Seq<usize>) -> Seq<Posting> {
    Seq::new(order.len(), |i: int| docs[order[i] as int])
}

/// `docs` by ascending sort field, documents of equal sort field in the
/// order in which they came.
pub open spec fn by_sort_field(docs: Seq<Posting>) -> Seq<Posting> {
    arranged(docs, ascending(sort_fields(docs)))
}

/// The page of the tag `key`: its documents in the order in which they came.
pub open spec fn tag_page(key: Seq<char>, docs: Seq<Posting>) -> Seq<char> {
    page_head(key) + tag_lines(docs)
}

/// The page of the date `key`: its documents by ascending sort field.
pub open spec fn date_page(key: Seq<char>, docs: Seq<Posting>) -> Seq<char> {
    page_head(key) + date_lines(by_sort_field(docs))
}

/// The lines of a date page are those of its documents, each document once,
/// and no document stands before one of a lesser sort field.
pub proof fn lemma_date_page_order(docs: Seq<Posting>)
    requires
        docs.len() <= usize::MAX,
    ensures
        by_sort_field(docs).len() == docs.len(),
        ascending(sort_fields(docs)).no_duplicates(),
        forall|x: usize| x < docs.len() ==> ascending(sort_fields(docs)).contains(x),
        forall|i: int|
            0 <= i < docs.len() ==> ascending(sort_fields(docs))[i] < docs.len() && by_sort_field(
                docs,
            )[i] == docs[ascending(sort_fields(docs))[i] as int],
        forall|i: int, j: int|
            0 <= i < j < docs.len() ==> !text_less(
                by_sort_field(docs)[j].sort_field,
                by_sort_field(docs)[i].sort_field,
            ),
{
    let fields = sort_fields(docs);
    let order = ascending(fields);
    lemma_ascending(fields);
    assert forall|i: int, j: int| 0 <= i < j < docs.len() implies !text_less(
        by_sort_field(docs)[j].sort_field,
        by_sort_field(docs)[i].sort_field,
    ) by {
        assert(order[i] < docs.len() && order[j] < docs.len());
        assert(by_sort_field(docs)[i].sort_field == fields[order[i] as int]);
        assert(by_sort_field(docs)[j].sort_field == fields[order[j] as int]);
    }
}

fn push_page_head(out: &mut String, key: &str)
    ensures
        final(out)@ == old(out)@ + page_head(key@),
{
    out.append("---\nTitle: ");
    out.append(key);
    out.append("\n---\n\n#list\n");
    assert(out@ =~= old(out)@ + page_head(key@));
}

fn push_tag_line(out: &mut String, doc: &DocumentRef)
    ensures
        final(out)@ == old(out)@ + tag_line(doc@),
{
    out.append("[[");
    out.append(doc.document_id.as_str());
    out.append("|");
    out.append(doc.title.as_str());
    out.append("]]\n");
    assert(out@ =~= old(out)@ + tag_line(doc@));
}

fn push_date_line(out: &mut String, doc: &DocumentRef)
    ensures
        final(out)@ == old(out)@ + date_line(doc@),
{
    out.append("[[");
    out.append(doc.document_id.as_str());
    out.append("|");
    out.append(doc.sort_field.as_str());
    out.append("|");
    out.append(doc.title.as_str());
    out.append("]]\n");
    assert(out@ =~= old(out)@ + date_line(doc@));
}

/// The page of the tag `key` with the documents `docs`: the header block, the
/// list marker, and one line for each document in the order given.
pub fn render_tag_page(key: &str, docs: &Vec<DocumentRef>) -> (page: String)
    ensures
        page@ == tag_page(key@, postings(docs@)),
{
    let mut page = String::new();
    push_page_head(&mut page, key);
    let ghost head = page@;
    let ghost all = postings(docs@);
    let mut i: usize = 0;
    while i < docs.len()
        invariant
            i <= docs@.len(),
            all == postings(docs@),
            page@ == head + tag_lines(all.take(i as int)),
        decreases docs@.len() - i,
    {
        push_tag_line(&mut page, &docs[i]);
        proof {
            let next = all.take(i + 1);
            assert(next.drop_last() =~= all.take(i as int));
            assert(next.last() == docs@[i as int]@);
            assert(page@ =~= head + tag_lines(next));
        }
        i += 1;
    }
    proof {
        assert(all.take(i as int) =~= all);
        assert(head =~= page_head(key@));
    }
    page
}

/// The page of the date `key` with the documents `docs`: the header block,
/// the list marker, and one line for each document, by ascending sort field.
pub fn render_date_page(key: &str, docs: &Vec<DocumentRef>) -> (page: String)
    ensures
        page@ == date_page(key@, postings(docs@)),
{
    let ghost all = postings(docs@);
    let mut fields: Vec<Vec<char>> = Vec::new();
    let mut i: usize = 0;
    while i < docs.len()
        invariant
            i <= docs@.len(),
            all == postings(docs@),
            fields@.len() == i,
            texts(fields@) == sort_fields(all).take(i as int),
        decreases docs@.len() - i,
    {
        let field = to_chars(docs[i].sort_field.as_str());
        proof {
            let grown = texts(fields@.push(field));
            assert forall|j: int| 0 <= j < i + 1 implies grown[j] == sort_fields(all)[j] by {
                if j < i {
                    assert(texts(fields@)[j] == sort_fields(all).take(i as int)[j]);
                } else {
                    assert(all[j] == docs@[j]@);
                }
            }
            assert(grown =~= sort_fields(all).take(i + 1));
        }
        fields.push(field);
        i += 1;
    }
    proof {
        assert(sort_fields(all).take(i as int) =~= sort_fields(all));
    }
    let order = ascending_order(&fields);
    let ghost sorted = by_sort_field(all);
    let mut page = String::new();
    push_page_head(&mut page, key);
    let ghost head = page@;
    let mut at: usize = 0;
    while at < order.len()
        invariant
            at <= order@.len(),
            order@.len() == docs@.len(),
            forall|j: int| 0 <= j < order@.len() ==> #[trigger] order@[j] < docs@.len(),
            all == postings(docs@),
            sorted == arranged(all, order@),
            page@ == head + date_lines(sorted.take(at as int)),
        decreases order@.len() - at,
    {
        assert(order@[at as int] < docs@.len());
        push_date_line(&mut page, &docs[order[at]]);
        proof {
            let next = sorted.take(at + 1);
            assert(next.drop_last() =~= sorted.take(at as int));
            assert(next.last() == docs@[order@[at as int] as int]@);
            assert(page@ =~= head + date_lines(next));
        }
        at += 1;
    }
    proof {
        assert(sorted.take(at as int) =~= sorted);
        assert(head =~= page_head(key@));
    }
    page
}

/// The number of documents under each key, in the order of the keys.
pub open spec fn counts(index: IndexModel) -> Seq<nat> {
    Seq::new(index.order.len(), |i: int| index.count(index.order[i]))
}

/// A tag with its count, as it stands in the master index.
pub open spec fn tag_token(key: Seq<char>, count: nat) -> Seq<char> {
    key + "("@ + decimal(count) + ") "@
}

/// The tags at the first `n` positions that `order` lists, each with its
/// count.
pub open spec fn tag_tokens(index: IndexModel, order: Seq<usize>, n: int) -> Seq<char>
    decreases n,
{
    if n <= 0 {
        Seq::empty()
    } else {
        let key = index.order[order[n - 1] as int];
        tag_tokens(index, order, n - 1) + tag_token(key, index.count(key))
    }
}

/// The tags of the master index: every key with its count, by descending
/// count, keys of equal count in the order in which each first came; laid out
/// in rows of five columns, two spaces apart.
pub open spec fn tags_summary(index: IndexModel) -> Seq<char> {
    layout(
        words(tag_tokens(index, descending(counts(index)), index.order.len() as int)),
        5,
        2,
    )
}

/// In the tags of the master index every key stands once, with its count, and
/// no key stands before one of a greater count.
pub proof fn lemma_tags_by_count(index: IndexModel)
    requires
        index.order.len() <= usize::MAX,
    ensures
        descending(counts(index)).len() == index.order.len(),
        descending(counts(index)).no_duplicates(),
        forall|x: usize| x < index.order.len() ==> descending(counts(index)).contains(x),
        forall|i: int, j: int|
            0 <= i < j < index.order.len() ==> index.count(
                index.order[descending(counts(index))[i] as int],
            ) >= index.count(index.order[descending(counts(index))[j] as int]),
{
    let order = descending(counts(index));
    lemma_descending(counts(index));
    assert forall|i: int, j: int| 0 <= i < j < index.order.len() implies index.count(
        index.order[order[i] as int],
    ) >= index.count(index.order[order[j] as int]) by {
        assert(order[i] < index.order.len() && order[j] < index.order.len());
        assert(counts(index)[order[i] as int] >= counts(index)[order[j] as int]);
    }
}

/// The first position at or after `i` whose key stands for no number, or the
/// number of keys where every key from `i` on stands for one.
pub open spec fn bad_date_from(index: IndexModel, i: int) -> int
    decreases index.order.len() - i,
{
    if 0 <= i < index.order.len() && parsed(index.order[i]) is Some {
        bad_date_from(index, i + 1)
    } else {
        i
    }
}

/// Whether every key stands for a number.
pub open spec fn dates_parse(index: IndexModel) -> bool {
    bad_date_from(index, 0) == index.order.len()
}

/// The number that each key stands for, in the order of the keys.
pub open spec fn date_numbers(index: IndexModel) -> Seq<nat> {
    Seq::new(index.order.len(), |i: int| parsed(index.order[i]).unwrap())
}

/// A date with its count, as it stands in the master index.
pub open spec fn date_token(number: nat, count: nat) -> Seq<char> {
    "[["@ + decimal(number) + "]]("@ + decimal(count) + ") "@
}

/// The dates at the first `n` positions that `order` lists, each with its
/// count.
pub open spec fn date_tokens(index: IndexModel, order: Seq<usize>, n: int) -> Seq<char>
    decreases n,
{
    if n <= 0 {
        Seq::empty()
    } else {
        let at = order[n - 1] as int;
        date_tokens(index, order, n - 1) + date_token(
            date_numbers(index)[at],
            index.count(index.order[at]),
        )
    }
}

/// The dates of the master index: the number of every key with the count of
/// the key, by descending number, equal numbers in the order in which their
/// keys first came; laid out in rows of seven columns, two spaces apart.
pub open spec fn dates_summary(index: IndexModel) -> Seq<char> {
    layout(
        words(date_tokens(index, descending(date_numbers(index)), index.order.len() as int)),
        7,
        2,
    )
}

/// The master index: its header block, then the tags and the dates, each
/// directly under its heading.
pub open spec fn master_index(tags: IndexModel, dates: IndexModel) -> Seq<char> {
    "---\nTitle: index\n---\n\n# Tags\n"@ + tags_summary(tags) + "# Dates\n"@ + dates_summary(dates)
}

/// Why the pages could not be rendered.
#[derive(Clone, Debug, PartialEq, Eq)]
pub enum RenderError {
    /// A key of the date index stands for no number: the key.
    BadDateKey(String),
}

/// The tags of the master index.
pub fn render_tags_summary(tags: &Index) -> (r: String)
    requires
        tags.wf(),
    ensures
        r@ == tags_summary(tags@),
{
    let n = tags.len();
    let mut numbers: Vec<usize> = Vec::new();
    let mut i: usize = 0;
    while i < n
        invariant
            tags.wf(),
            i <= n == tags@.order.len(),
            numbers@.len() == i,
            naturals(numbers@) == counts(tags@).take(i as int),
        decreases n - i,
    {
        let (key, docs) = tags.entry(i);
        proof {
            tags.lemma_wf();
            let grown = naturals(numbers@.push(docs.len()));
            assert forall|j: int| 0 <= j < i + 1 implies grown[j] == counts(tags@)[j] by {
                if j < i {
                    assert(naturals(numbers@)[j] == counts(tags@).take(i as int)[j]);
                } else {
                    assert(tags@.order.contains(tags@.order[j]));
                    assert(postings(docs@).len() == docs@.len());
                }
            }
            assert(grown =~= counts(tags@).take(i + 1));
        }
        numbers.push(docs.len());
        i += 1;
    }
    proof {
        assert(counts(tags@).take(i as int) =~= counts(tags@));
    }
    let order = descending_order(&numbers);
    let mut stream = String::new();
    let mut at: usize = 0;
    while at < n
        invariant
            tags.wf(),
            at <= n == tags@.order.len(),
            order@.len() == n,
            forall|j: int| 0 <= j < order@.len() ==> #[trigger] order@[j] < n,
            stream@ == tag_tokens(tags@, order@, at as int),
        decreases n - at,
    {
        assert(order@[at as int] < n);
        let (key, docs) = tags.entry(order[at]);
        let ghost before = stream@;
        stream.append(key.as_str());
        stream.append("(");
        push_decimal(&mut stream, docs.len());
        stream.append(") ");
        proof {
            tags.lemma_wf();
            assert(tags@.order.contains(key@));
            assert(postings(docs@).len() == docs@.len());
            assert(stream@ =~= before + tag_token(key@, tags@.count(key@)));
        }
        at += 1;
    }
    ColumnFormatter::new(5).with_padding(2).format(stream.as_str())
}

/// The dates of the master index, or the first key that stands for no
/// number.
pub fn render_dates_summary(dates: &Index) -> (r: Result<String, RenderError>)
    requires
        dates.wf(),
    ensures
        r is Ok <==> dates_parse(dates@),
        r matches Ok(text) ==> text@ == dates_summary(dates@),
        r matches Err(RenderError::BadDateKey(key)) ==> key@ == dates@.order[bad_date_from(
            dates@,
            0,
        )],
{
    let n = dates.len();
    let mut numbers: Vec<usize> = Vec::new();
    let mut tallies: Vec<usize> = Vec::new();
    let mut i: usize = 0;
    while i < n
        invariant
            dates.wf(),
            i <= n == dates@.order.len(),
            numbers@.len() == i,
            tallies@.len() == i,
            bad_date_from(dates@, 0) == bad_date_from(dates@, i as int),
            naturals(numbers@) == date_numbers(dates@).take(i as int),
            naturals(tallies@) == counts(dates@).take(i as int),
        decreases n - i,
    {
        let (key, docs) = dates.entry(i);
        let chars = to_chars(key.as_str());
        match parse_chars(&chars) {
            None => {
                return Err(RenderError::BadDateKey(key.clone()));
            },
            Some(number) => {
                proof {
                    dates.lemma_wf();
                    let grown = naturals(numbers@.push(number));
                    assert forall|j: int| 0 <= j < i + 1 implies grown[j] == date_numbers(
                        dates@,
                    )[j] by {
                        if j < i {
                            assert(naturals(numbers@)[j] == date_numbers(dates@).take(i as int)[j]);
                        }
                    }
                    assert(grown =~= date_numbers(dates@).take(i + 1));
                    let more = naturals(tallies@.push(docs.len()));
                    assert forall|j: int| 0 <= j < i + 1 implies more[j] == counts(dates@)[j] by {
                        if j < i {
                            assert(naturals(tallies@)[j] == counts(dates@).take(i as int)[j]);
                        } else {
                            assert(dates@.order.contains(dates@.order[j]));
                            assert(postings(docs@).len() == docs@.len());
                        }
                    }
                    assert(more =~= counts(dates@).take(i + 1));
                }
                numbers.push(number);
                tallies.push(docs.len());
            },
        }
        i += 1;
    }
    proof {
        assert(date_numbers(dates@).take(i as int) =~= date_numbers(dates@));
        assert(counts(dates@).take(i as int) =~= counts(dates@));
    }
    let order = descending_order(&numbers);
    let mut stream = String::new();
    let mut at: usize = 0;
    while at < n
        invariant
            dates.wf(),
            at <= n == dates@.order.len(),
            order@.len() == n,
            numbers@.len() == n,
            tallies@.len() == n,
            naturals(numbers@) == date_numbers(dates@),
            naturals(tallies@) == counts(dates@),
            forall|j: int| 0 <= j < order@.len() ==> #[trigger] order@[j] < n,
            stream@ == date_tokens(dates@, order@, at as int),
        decreases n - at,
    {
        let from = order[at];
        assert(order@[at as int] < n);
        let ghost before = stream@;
        stream.append("[[");
        push_decimal(&mut stream, numbers[from]);
        stream.append("]](");
        push_decimal(&mut stream, tallies[from]);
        stream.append(") ");
        proof {
            assert(naturals(numbers@)[from as int] == date_numbers(dates@)[from as int]);
            assert(naturals(tallies@)[from as int] == counts(dates@)[from as int]);
            assert(stream@ =~= before + date_token(
                date_numbers(dates@)[from as int],
                dates@.count(dates@.order[from as int]),
            ));
        }
        at += 1;
    }
    Ok(ColumnFormatter::new(7).format(stream.as_str()))
}

/// The master index, or the first key of the date index that stands for no
/// number.
pub fn render_master_index(tags: &Index, dates: &Index) -> (r: Result<String, RenderError>)
    requires
        tags.wf(),
        dates.wf(),
    ensures
        r is Ok <==> dates_parse(dates@),
        r matches Ok(text) ==> text@ == master_index(tags@, dates@),
        r matches Err(RenderError::BadDateKey(key)) ==> key@ == dates@.order[bad_date_from(
            dates@,
            0,
        )],
{
    match render_dates_summary(dates) {
        Err(e) => Err(e),
        Ok(dates_text) => {
            let tags_text = render_tags_summary(tags);
            let mut text = String::new();
            text.append("---\nTitle: index\n---\n\n# Tags\n");
            text.append(tags_text.as_str());
            text.append("# Dates\n");
            text.append(dates_text.as_str());
            assert(text@ =~= master_index(tags@, dates@));
            Ok(text)
        },
    }
}

/// A rendered page: the name under which it is kept, and its text.
#[derive(Clone, Debug, PartialEq, Eq)]
pub struct Page {
    pub name: String,
    pub body: String,
}

/// What a `Page` stands for.
pub struct PageModel {
    pub name: Seq<char>,
    pub body: Seq<char>,
}

impl View for Page {
    type V = PageModel;

    open spec fn view(&self) -> PageModel {
        PageModel { name: self.name@, body: self.body@ }
    }
}

/// What the pages of `v` stand for, in order.
pub open spec fn page_models(v: Seq<Page>) -> Seq<PageModel> {
    Seq::new(v.len(), |i: int| v[i]@)
}

/// The pages of the tags: one for each key, in the order of the keys.
pub open spec fn tag_pages(tags: IndexModel) -> Seq<PageModel> {
    Seq::new(
        tags.order.len(),
        |i: int|
            PageModel {
                name: tags.order[i],
                body: tag_page(tags.order[i], tags.postings[tags.order[i]]),
            },
    )
}

/// The pages of the dates: one for each key, in the order of the keys.
pub open spec fn date_pages(dates: IndexModel) -> Seq<PageModel> {
    Seq::new(
        dates.order.len(),
        |i: int|
            PageModel {
                name: dates.order[i],
                body: date_page(dates.order[i], dates.postings[dates.order[i]]),
            },
    )
}

/// All the pages: those of the tags, those of the dates, and last the
/// master index under the name `index`.
pub open spec fn all_pages(tags: IndexModel, dates: IndexModel) -> Seq<PageModel> {
    tag_pages(tags) + date_pages(dates) + seq![
        PageModel { name: "index"@, body: master_index(tags, dates) },
    ]
}

/// Renders every page, or none: where a key of the date index stands for no
/// number, the first such key is returned and no page is.
pub fn render(tags: &Index, dates: &Index) -> (r: Result<Vec<Page>, RenderError>)
    requires
        tags.wf(),
        dates.wf(),
    ensures
        r is Ok <==> dates_parse(dates@),
        r matches Ok(pages) ==> page_models(pages@) == all_pages(tags@, dates@),
        r matches Err(RenderError::BadDateKey(key)) ==> key@ == dates@.order[bad_date_from(
            dates@,
            0,
        )],
{
    let master = match render_master_index(tags, dates) {
        Err(e) => {
            return Err(e);
        },
        Ok(text) => text,
    };
    let mut pages: Vec<Page> = Vec::new();
    let mut i: usize = 0;
    while i < tags.len()
        invariant
            tags.wf(),
            i <= tags@.order.len(),
            page_models(pages@) == tag_pages(tags@).take(i as int),
        decreases tags@.order.len() - i,
    {
        let (key, docs) = tags.entry(i);
        let page = Page { name: key.clone(), body: render_tag_page(key.as_str(), docs) };
        proof {
            assert(page_models(pages@.push(page)) =~= page_models(pages@).push(page@));
            assert(tag_pages(tags@).take(i + 1) =~= tag_pages(tags@).take(i as int).push(page@));
        }
        pages.push(page);
        i += 1;
    }
    proof {
        assert(tag_pages(tags@).take(i as int) =~= tag_pages(tags@));
    }
    let mut j: usize = 0;
    while j < dates.len()
        invariant
            dates.wf(),
            j <= dates@.order.len(),
            page_models(pages@) == tag_pages(tags@) + date_pages(dates@).take(j as int),
        decreases dates@.order.len() - j,
    {
        let (key, docs) = dates.entry(j);
        let page = Page { name: key.clone(), body: render_date_page(key.as_str(), docs) };
        proof {
            assert(page_models(pages@.push(page)) =~= page_models(pages@).push(page@));
            assert(date_pages(dates@).take(j + 1) =~= date_pages(dates@).take(j as int).push(
                page@,
            ));
            assert((tag_pages(tags@) + date_pages(dates@).take(j as int)).push(page@)
                =~= tag_pages(tags@) + date_pages(dates@).take(j + 1));
        }
        pages.push(page);
        j += 1;
    }
    let index_page = Page { name: "index".to_owned(), body: master };
    proof {
        assert(date_pages(dates@).take(j as int) =~= date_pages(dates@));
        assert(page_models(pages@.push(index_page)) =~= all_pages(tags@, dates@));
    }
    pages.push(index_page);
    Ok(pages)
}

} // verus!
