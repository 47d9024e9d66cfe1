//! The inverted index: from a key to the documents that carry it.

use crate::text::{normalize, normalized, trimmed, views};
use vstd::prelude::*;

verus! {

/// One document under a key: its identifier, its title, and the field by
/// which the documents of a date page are ordered (empty under a tag).
#[derive(Clone, Debug, PartialEq, Eq)]
pub struct DocumentRef {
    pub document_id: String,
    pub title: String,
    pub sort_field: String,
}

/// What a `DocumentRef` stands for.
pub struct Posting {
    pub document_id: Seq<char>,
    pub title: Seq<char>,
    pub sort_field: Seq<char>,
}

impl View for DocumentRef {
    type V = Posting;

    open spec fn view(&self) -> Posting {
        Posting { document_id: self.document_id@, title: self.title@, sort_field: self.sort_field@ }
    }
}

/// What the references of `v` stand for, in order.
pub open spec fn postings(v: Seq<DocumentRef>) -> Seq<Posting> {
    Seq::new(v.len(), |i: int| v[i]@)
}

/// What an `Index` stands for: its keys in the order in which each first
/// came, and the documents under each key in the order in which they came.
pub struct IndexModel {
    pub order: Seq<Seq<char>>,
    pub postings: Map<Seq<char>, Seq<Posting>>,
}

impl IndexModel {
    /// The index that holds nothing.
    pub open spec fn empty() -> IndexModel {
        IndexModel { order: Seq::empty(), postings: Map::empty() }
    }

    /// The keys are those that have documents, none of them twice and none
    /// of them empty, and no key is left without a document.
    pub open spec fn wf(self) -> bool {
        &&& self.order.no_duplicates()
        &&& forall|k: Seq<char>| self.order.contains(k) <==> self.postings.contains_key(k)
        &&& forall|k: Seq<char>| #[trigger] self.postings.contains_key(k) ==> k.len() > 0
        &&& forall|k: Seq<char>| #[trigger]
            self.postings.contains_key(k) ==> self.postings[k].len() > 0
    }

    /// The set of the keys.
    pub open spec fn keys(self) -> Set<Seq<char>> {
        self.postings.dom()
    }

    /// The number of documents under `key`.
    pub open spec fn count(self, key: Seq<char>) -> nat {
        if self.postings.contains_key(key) {
            self.postings[key].len()
        } else {
            0
        }
    }

    /// The index after one more document under the key `key`.
    pub open spec fn with(self, key: Seq<char>, posting: Posting) -> IndexModel {
        if self.postings.contains_key(key) {
            IndexModel {
                order: self.order,
                postings: self.postings.insert(key, self.postings[key].push(posting)),
            }
        } else {
            IndexModel {
                order: self.order.push(key),
                postings: self.postings.insert(key, seq![posting]),
            }
        }
    }

    /// The index after one more document under the key that `raw` stands
    /// for; a raw key that stands for the empty key changes nothing.
    pub open spec fn add(self, raw: Seq<char>, posting: Posting) -> IndexModel {
        if normalized(raw).len() == 0 {
            self
        } else {
            self.with(normalized(raw), posting)
        }
    }

    /// The index after the document was added under each of `raws` in turn.
    pub open spec fn add_each(self, raws: Seq<Seq<char>>, posting: Posting) -> IndexModel
        decreases raws.len(),
    {
        if raws.len() == 0 {
            self
        } else {
            self.add_each(raws.drop_last(), posting).add(raws.last(), posting)
        }
    }

    /// The index after each of `docs` in turn came under the key `key`.
    pub open spec fn with_each(self, key: Seq<char>, docs: Seq<Posting>) -> IndexModel
        decreases docs.len(),
    {
        if docs.len() == 0 {
            self
        } else {
            self.with_each(key, docs.drop_last()).with(key, docs.last())
        }
    }

    /// The index after the document came under each of `keys` in turn, each
    /// key taken as it stands.
    pub open spec fn with_keys(self, keys: Seq<Seq<char>>, posting: Posting) -> IndexModel
        decreases keys.len(),
    {
        if keys.len() == 0 {
            self
        } else {
            self.with_keys(keys.drop_last(), posting).with(keys.last(), posting)
        }
    }

    /// The index after each of `docs` in turn was added under `raw`.
    pub open spec fn add_all(self, raw: Seq<char>, docs: Seq<Posting>) -> IndexModel
        decreases docs.len(),
    {
        if docs.len() == 0 {
            self
        } else {
            self.add_all(raw, docs.drop_last()).add(raw, docs.last())
        }
    }
}

/// One more document under a key that is not empty keeps an index well
/// formed.
pub proof fn lemma_with_wf(m: IndexModel, k: Seq<char>, posting: Posting)
    requires
        m.wf(),
        k.len() > 0,
    ensures
        m.with(k, posting).wf(),
{
    let r = m.with(k, posting);
    if !m.postings.contains_key(k) {
        assert(!m.order.contains(k));
        assert forall|x: Seq<char>| r.order.contains(x) <==> r.postings.contains_key(x) by {
            if r.order.contains(x) {
                let i = choose|i: int| 0 <= i < r.order.len() && r.order[i] == x;
                if i < m.order.len() {
                    assert(m.order[i] == x);
                    assert(m.order.contains(x));
                }
            }
            if r.postings.contains_key(x) {
                if x == k {
                    assert(r.order[m.order.len() as int] == k);
                } else {
                    assert(m.order.contains(x));
                    let i = choose|i: int| 0 <= i < m.order.len() && m.order[i] == x;
                    assert(r.order[i] == x);
                }
            }
        }
        assert(r.order.no_duplicates()) by {
            assert forall|i: int, j: int|
                0 <= i < r.order.len() && 0 <= j < r.order.len() && i != j implies r.order[i]
                != r.order[j] by {
                if i < m.order.len() {
                    assert(m.order.contains(m.order[i]));
                }
                if j < m.order.len() {
                    assert(m.order.contains(m.order[j]));
                }
            }
        }
    }
}

/// Adding a document keeps an index well formed.
pub proof fn lemma_add_wf(m: IndexModel, raw: Seq<char>, posting: Posting)
    requires
        m.wf(),
    ensures
        m.add(raw, posting).wf(),
{
    if normalized(raw).len() > 0 {
        lemma_with_wf(m, normalized(raw), posting);
    }
}

/// Each document that comes under a key raises the count of that key by one
/// and leaves every other count as it was.
pub proof fn lemma_count_after_keys(
    m: IndexModel,
    key: Seq<char>,
    docs: Seq<Posting>,
    other: Seq<char>,
)
    requires
        m.wf(),
        key.len() > 0,
    ensures
        m.with_each(key, docs).wf(),
        m.with_each(key, docs).count(key) == m.count(key) + docs.len(),
        other != key ==> m.with_each(key, docs).count(other) == m.count(other),
        m == IndexModel::empty() ==> m.with_each(key, docs).count(key) == docs.len(),
    decreases docs.len(),
{
    if docs.len() > 0 {
        lemma_count_after_keys(m, key, docs.drop_last(), other);
        lemma_with_wf(m.with_each(key, docs.drop_last()), key, docs.last());
    }
}

/// Under a raw key that is its own key and not empty, the document comes
/// under that very key.
pub proof fn lemma_add_of_key(m: IndexModel, key: Seq<char>, posting: Posting)
    ensures
        normalized(key) == key && key.len() > 0 ==> m.add(key, posting) == m.with(key, posting),
{
}

/// Under raw keys that are each its own key and not empty, the document
/// comes under those very keys.
pub proof fn lemma_add_each_of_keys(m: IndexModel, keys: Seq<Seq<char>>, posting: Posting)
    ensures
        (forall|i: int|
            0 <= i < keys.len() ==> normalized(#[trigger] keys[i]) == keys[i] && keys[i].len() > 0)
            ==> m.add_each(keys, posting) == m.with_keys(keys, posting),
    decreases keys.len(),
{
    if keys.len() > 0 {
        let before = keys.drop_last();
        lemma_add_each_of_keys(m, before, posting);
        if forall|i: int|
            0 <= i < keys.len() ==> normalized(#[trigger] keys[i]) == keys[i] && keys[i].len() > 0 {
            assert forall|i: int| 0 <= i < before.len() implies normalized(#[trigger] before[i])
                == before[i] && before[i].len() > 0 by {
                assert(before[i] == keys[i]);
            }
            assert(keys.last() == keys[keys.len() - 1]);
        }
    }
}

/// A raw key of white space alone is dropped: adding under it leaves the
/// keys and every count as they were.
pub proof fn lemma_blank_key_ignored(m: IndexModel, raw: Seq<char>, posting: Posting)
    requires
        trimmed(raw).len() == 0,
    ensures
        m.add(raw, posting) == m,
        m.add(raw, posting).keys() == m.keys(),
        m.wf() ==> m.add(raw, posting).count(normalized(raw)) == 0,
{
}

/// Each document added under a raw key raises the count of its key by one,
/// unless the raw key stands for the empty key, whose count stays zero.
pub proof fn lemma_count_after_adds(m: IndexModel, raw: Seq<char>, docs: Seq<Posting>)
    requires
        m.wf(),
    ensures
        m.add_all(raw, docs).wf(),
        normalized(raw).len() > 0 ==> m.add_all(raw, docs).count(normalized(raw)) == m.count(
            normalized(raw),
        ) + docs.len(),
        normalized(raw).len() == 0 ==> m.add_all(raw, docs).count(normalized(raw)) == 0,
        m == IndexModel::empty() && normalized(raw).len() > 0 ==> m.add_all(raw, docs).count(
            normalized(raw),
        ) == docs.len(),
    decreases docs.len(),
{
    if docs.len() > 0 {
        lemma_count_after_adds(m, raw, docs.drop_last());
        lemma_add_wf(m.add_all(raw, docs.drop_last()), raw, docs.last());
    }
}

/// Adding under one key leaves the documents under every other key as they
/// were.
pub proof fn lemma_add_keeps_others(
    m: IndexModel,
    raw: Seq<char>,
    posting: Posting,
    other: Seq<char>,
)
    requires
        other != normalized(raw),
    ensures
        m.add(raw, posting).postings.contains_key(other) == m.postings.contains_key(other),
        m.postings.contains_key(other) ==> m.add(raw, posting).postings[other]
            == m.postings[other],
        m.add(raw, posting).count(other) == m.count(other),
{
}

/// An inverted index. The keys are held in the order in which each first
/// came; the documents of the key at a position are held at that position.
#[derive(Clone, Debug)]
pub struct Index {
    inputs: Vec<String>,
    lists: Vec<Vec<DocumentRef>>,
}

/// The position of `key` in `order`.
pub open spec fn position_of(order: Seq<Seq<char>>, key: Seq<char>) -> int {
    choose|i: int| 0 <= i < order.len() && order[i] == key
}

impl View for Index {
    type V = IndexModel;

    closed spec fn view(&self) -> IndexModel {
        IndexModel {
            order: views(self.inputs@),
            postings: Map::new(
                |k: Seq<char>| views(self.inputs@).contains(k),
                |k: Seq<char>| postings(self.lists@[position_of(views(self.inputs@), k)]@),
            ),
        }
    }
}

impl Index {
    /// The keys are held once each and none is empty, and each has at least
    /// one document.
    pub closed spec fn wf(&self) -> bool {
        &&& self.inputs@.len() == self.lists@.len()
        &&& views(self.inputs@).no_duplicates()
        &&& forall|i: int| 0 <= i < self.inputs@.len() ==> (#[trigger] self.inputs@[i])@.len() > 0
        &&& forall|i: int| 0 <= i < self.lists@.len() ==> (#[trigger] self.lists@[i])@.len() > 0
    }

    /// What a well-formed index stands for is well formed: its keys are
    /// those that have documents, no key is empty, and no key is without a
    /// document.
    pub proof fn lemma_wf(&self)
        requires
            self.wf(),
        ensures
            self@.wf(),
    {
        let order = views(self.inputs@);
        assert forall|k: Seq<char>| #[trigger] self@.postings.contains_key(k) implies k.len() > 0
            && self@.postings[k].len() > 0 by {
            let i = position_of(order, k);
            assert(order[i] == k);
            assert(self.inputs@[i]@ == k);
            assert(self.lists@[i]@.len() > 0);
        }
    }

    /// The index that holds nothing.
    pub fn new() -> (r: Index)
        ensures
            r.wf(),
            r@ == IndexModel::empty(),
    {
        let r = Index { inputs: Vec::new(), lists: Vec::new() };
        assert(r@.postings =~= Map::empty());
        assert(r@.order =~= Seq::empty());
        r
    }

    /// The position at which `key` is held.
    fn position(&self, key: &String) -> (r: Option<usize>)
        requires
            self.wf(),
        ensures
            match r {
                Some(i) => i < self.inputs@.len() && self.inputs@[i as int]@ == key@,
                None => !views(self.inputs@).contains(key@),
            },
    {
        let mut i: usize = 0;
        while i < self.inputs.len()
            invariant
                i <= self.inputs@.len(),
                forall|j: int| 0 <= j < i ==> self.inputs@[j]@ != key@,
            decreases self.inputs@.len() - i,
        {
            if self.inputs[i] == *key {
                return Some(i);
            }
            i += 1;
        }
        None
    }

    /// Puts one document under the key `key`, taken as it stands: behind the
    /// documents that the key has, or as the first of a new key, which then
    /// comes last among the keys.
    pub fn add_key(&mut self, key: String, doc: DocumentRef)
        requires
            old(self).wf(),
            key@.len() > 0,
        ensures
            final(self).wf(),
            final(self)@ == old(self)@.with(key@, doc@),
    {
        let ghost before = *self;
        let ghost order = views(self.inputs@);
        match self.position(&key) {
            Some(i) => {
                self.lists[i].push(doc);
                proof {
                    assert(order[i as int] == key@);
                    assert(views(self.inputs@) == order);
                    assert forall|k: Seq<char>| order.contains(k) implies #[trigger] self@.postings[k]
                        == before@.with(key@, doc@).postings[k] by {
                        let j = position_of(order, k);
                        if j == i {
                            assert(k == key@);
                            assert(postings(self.lists@[j]@) =~= postings(before.lists@[j]@).push(
                                doc@,
                            ));
                        } else {
                            assert(k != key@);
                        }
                    }
                    assert(self@.postings =~= before@.with(key@, doc@).postings);
                }
            },
            None => {
                self.inputs.push(key);
                let mut list: Vec<DocumentRef> = Vec::new();
                list.push(doc);
                self.lists.push(list);
                proof {
                    let now = views(self.inputs@);
                    let n = order.len() as int;
                    assert(now =~= order.push(key@));
                    assert(now.no_duplicates()) by {
                        assert forall|a: int, b: int|
                            0 <= a < now.len() && 0 <= b < now.len() && a != b implies now[a]
                            != now[b] by {
                            if a < n {
                                assert(order[a] == now[a]);
                            }
                            if b < n {
                                assert(order[b] == now[b]);
                            }
                        }
                    }
                    assert forall|k: Seq<char>| now.contains(k) <==> (order.contains(k) || k
                        == key@) by {
                        if now.contains(k) {
                            let j = choose|j: int| 0 <= j < now.len() && now[j] == k;
                            if j < n {
                                assert(order[j] == k);
                            }
                        }
                        if order.contains(k) {
                            let j = choose|j: int| 0 <= j < order.len() && order[j] == k;
                            assert(now[j] == k);
                        }
                        if k == key@ {
                            assert(now[n] == k);
                        }
                    }
                    assert forall|k: Seq<char>| now.contains(k) implies #[trigger] self@.postings[k]
                        == before@.with(key@, doc@).postings[k] by {
                        let j = position_of(now, k);
                        assert(now[j] == k);
                        if k == key@ {
                            assert(now[n] == k);
                            assert(j == n);
                            assert(postings(self.lists@[j]@) =~= seq![doc@]);
                        } else {
                            assert(order.contains(k));
                            let j0 = position_of(order, k);
                            assert(now[j0] == k);
                            assert(j0 == j);
                        }
                    }
                    assert(self@.postings =~= before@.with(key@, doc@).postings);
                }
            },
        }
    }

    /// Adds one document under the key that `raw_key` stands for. A raw key
    /// that stands for the empty key is dropped, as every raw key of white
    /// space alone is, and no other.
    pub fn add(&mut self, raw_key: &str, document_id: &str, title: &str, sort_field: &str)
        requires
            old(self).wf(),
        ensures
            final(self).wf(),
            final(self)@ == old(self)@.add(
                raw_key@,
                Posting { document_id: document_id@, title: title@, sort_field: sort_field@ },
            ),
            trimmed(raw_key@).len() == 0 ==> final(self)@ == old(self)@,
            trimmed(raw_key@).len() > 0 ==> final(self)@ == old(self)@.with(
                normalized(raw_key@),
                Posting { document_id: document_id@, title: title@, sort_field: sort_field@ },
            ) && final(self)@.count(normalized(raw_key@)) == old(self)@.count(
                normalized(raw_key@),
            ) + 1,
    {
        let key = normalize(raw_key);
        if key.as_str().is_empty() {
            return ;
        }
        let doc = DocumentRef {
            document_id: document_id.to_owned(),
            title: title.to_owned(),
            sort_field: sort_field.to_owned(),
        };
        self.add_key(key, doc);
    }

    /// Adds the document under each key of `input` in turn, in the order in
    /// which they stand.
    pub fn add_node(
        &mut self,
        file_name: &str,
        file_title: &str,
        extra_info: &str,
        input: Vec<&str>,
    )
        requires
            old(self).wf(),
        ensures
            final(self).wf(),
            final(self)@ == old(self)@.add_each(
                raw_keys(input@),
                Posting { document_id: file_name@, title: file_title@, sort_field: extra_info@ },
            ),
    {
        let ghost raws = raw_keys(input@);
        let ghost doc = Posting {
            document_id: file_name@,
            title: file_title@,
            sort_field: extra_info@,
        };
        let mut i: usize = 0;
        while i < input.len()
            invariant
                i <= input@.len(),
                self.wf(),
                raws == raw_keys(input@),
                doc == (Posting {
                    document_id: file_name@,
                    title: file_title@,
                    sort_field: extra_info@,
                }),
                self@ == old(self)@.add_each(raws.take(i as int), doc),
            decreases input@.len() - i,
        {
            let ghost before = self@;
            self.add(input[i], file_name, file_title, extra_info);
            proof {
                let next = raws.take(i + 1);
                assert(next.drop_last() =~= raws.take(i as int));
                assert(next.last() == input@[i as int]@);
                assert(old(self)@.add_each(next, doc) == old(self)@.add_each(
                    next.drop_last(),
                    doc,
                ).add(next.last(), doc));
                assert(self@ == before.add(input@[i as int]@, doc));
            }
            i += 1;
        }
        proof {
            assert(raws.take(i as int) =~= raws);
        }
    }

    /// The documents under the key `key`, taken as it stands, in the order in
    /// which they came; nothing where no document came under that key.
    pub fn files_of_key(&self, key: &str) -> (r: Option<&Vec<DocumentRef>>)
        requires
            self.wf(),
        ensures
            r is Some <==> self@.postings.contains_key(key@),
            r matches Some(list) ==> postings(list@) == self@.postings[key@] && list@.len() > 0,
    {
        let held = key.to_owned();
        match self.position(&held) {
            Some(at) => {
                proof {
                    let order = views(self.inputs@);
                    assert(order[at as int] == key@);
                    assert(position_of(order, key@) == at);
                }
                Some(&self.lists[at])
            },
            None => None,
        }
    }

    /// The number of documents under the key `key`, taken as it stands.
    pub fn count_of_key(&self, key: &str) -> (r: usize)
        requires
            self.wf(),
        ensures
            r == self@.count(key@),
    {
        match self.files_of_key(key) {
            Some(list) => list.len(),
            None => 0,
        }
    }

    /// The documents under the key that `i` stands for, in the order in
    /// which they came; nothing where no document came under that key.
    pub fn get_files_by_i(&self, i: &str) -> (r: Option<&Vec<DocumentRef>>)
        requires
            self.wf(),
        ensures
            r is Some <==> self@.postings.contains_key(normalized(i@)),
            r matches Some(list) ==> postings(list@) == self@.postings[normalized(i@)]
                && list@.len() > 0,
    {
        let key = normalize(i);
        self.files_of_key(key.as_str())
    }

    /// The number of documents under the key that `i` stands for.
    pub fn get_i_count(&self, i: &str) -> (r: usize)
        requires
            self.wf(),
        ensures
            r == self@.count(normalized(i@)),
    {
        let key = normalize(i);
        self.count_of_key(key.as_str())
    }

    /// The keys, each once, in the order in which each first came.
    pub fn get_inputs(&self) -> (r: &Vec<String>)
        requires
            self.wf(),
        ensures
            views(r@) == self@.order,
            views(r@).no_duplicates(),
            views(r@).to_set() == self@.keys(),
    {
        proof {
            self.lemma_wf();
            assert(views(self.inputs@).to_set() =~= self@.keys());
        }
        &self.inputs
    }

    /// The number of keys.
    pub fn len(&self) -> (r: usize)
        requires
            self.wf(),
        ensures
            r == self@.order.len(),
    {
        self.inputs.len()
    }

    /// The key at position `at`, and the documents under it.
    pub fn entry(&self, at: usize) -> (r: (&String, &Vec<DocumentRef>))
        requires
            self.wf(),
            at < self@.order.len(),
        ensures
            r.0@ == self@.order[at as int],
            r.0@.len() > 0,
            postings(r.1@) == self@.postings[self@.order[at as int]],
            r.1@.len() > 0,
    {
        proof {
            let order = views(self.inputs@);
            assert(order[at as int] == self.inputs@[at as int]@);
            assert(position_of(order, order[at as int]) == at);
        }
        (&self.inputs[at], &self.lists[at])
    }
}

/// The raw keys that the strings of `input` hold, in order.
pub open spec fn raw_keys(input: Seq<&str>) -> Seq<Seq<char>> {
    Seq::new(input.len(), |i: int| input[i]@)
}

} // verus!
