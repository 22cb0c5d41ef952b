//! The link table and its three operations: collision-safe creation,
//! resolve-and-count, and newest-first listing behind an opaque cursor.
//! The table holds raw attribute rows keyed by the link identifier, as
//! the backing store does; identifiers stay unique for the table's
//! lifetime.

use vstd::prelude::*;
use crate::order::{
    after_cursor, after_cursor_exec, cursor_pos, distinct_ids, entry_before, entry_before_exec,
    has_entry_id, insert_sorted, lemma_cursor_pos_at, lemma_cursor_resumes_after, lemma_insert_pos_at, lemma_insert_sorted_shape,
    lemma_sort_entries_pointwise, lemma_sort_entries_props, lemma_sorted_strict, sort_entries,
    sorted_le, Entry,
};
use crate::record::{attr_s_opt, item_clicks, item_timestamp, parse_item, AttrValue, Item, ShortUrl};
use crate::text::{
    i64_to_dec, lemma_i64_dec_roundtrip, lemma_u64_dec_roundtrip,
    lemma_u64_dec_str_val, parse_i64_spec, parse_i64_str, parse_u64_spec, parse_u64_str, str_eq,
    u64_dec_str, u64_to_dec,
};
use crate::url_info::UrlDetails;
use crate::urls::{is_valid_url, normalize_url, spec_is_valid_url, spec_normalize_url,
    ShortenUrlRequest};

verus! {

/// How many records one listing page returns.
pub const PAGE_SIZE: usize = 5;

/// How many freshly generated identifiers creation tries before giving
/// up on collisions.
pub const MAX_CREATE_ATTEMPTS: usize = 3;

/// The identifiers of the rows are pairwise distinct.
pub open spec fn ids_unique(items: Seq<Item>) -> bool {
    forall|i: int, j: int|
        0 <= i < j < items.len() ==> (#[trigger] items[i].link_id)@ != (
        #[trigger] items[j].link_id)@
}

/// Some row carries this identifier.
pub open spec fn has_id(items: Seq<Item>, id: Seq<char>) -> bool {
    exists|i: int| 0 <= i < items.len() && (#[trigger] items[i].link_id)@ == id
}

/// The position of the row carrying this identifier.
pub open spec fn spec_idx_of(items: Seq<Item>, id: Seq<char>) -> int {
    choose|i: int| 0 <= i < items.len() && (#[trigger] items[i].link_id)@ == id
}

/// The click counter a row holds, when it is a well-formed number.
pub open spec fn clicks_val(it: Item) -> Option<u64> {
    match it.clicks {
        Some(AttrValue::N(n)) => parse_u64_spec(n@),
        _ => None,
    }
}

/// The counting step: the row is unchanged but for its click counter,
/// which grows by exactly one.
pub open spec fn is_incremented(before: Item, after: Item) -> bool {
    &&& after.link_id == before.link_id
    &&& after.original_link == before.original_link
    &&& after.title == before.title
    &&& after.description == before.description
    &&& after.content_type == before.content_type
    &&& after.image == before.image
    &&& after.timestamp == before.timestamp
    &&& match after.clicks {
        Some(AttrValue::N(m)) => {
            &&& clicks_val(before) matches Some(v)
            &&& v < u64::MAX
            &&& m@ == u64_dec_str(v + 1)
        },
        _ => false,
    }
}

/// The counter can be stepped: it is a well-formed number with room to
/// grow.
pub open spec fn increment_ok(it: Item) -> bool {
    clicks_val(it) matches Some(v) && v < u64::MAX
}

/// An attribute holding the given string, when one is given.
pub open spec fn s_attr(o: Option<String>) -> Option<AttrValue> {
    match o {
        Some(s) => Some(AttrValue::S(s)),
        None => None,
    }
}

/// The link table.
pub struct UrlShortener {
    items: Vec<Item>,
}

impl View for UrlShortener {
    type V = Seq<Item>;

    closed spec fn view(&self) -> Seq<Item> {
        self.items@
    }
}

/// Creation fails distinctly when the identifier is already taken.
#[derive(Debug)]
pub enum CreateError {
    AlreadyExists,
}

fn clone_opt_string(o: &Option<String>) -> (r: Option<String>)
    ensures
        r == *o,
{
    match o {
        Some(s) => Some(s.clone()),
        None => None,
    }
}

/// Relies on cuid2's `CuidConstructor::with_length` and `create_id`:
/// a fresh identifier of at most ten characters, drawn from the clock,
/// a counter and a random source, with no promise of uniqueness.
#[verifier::external_body]
fn generate_short_url() -> (r: String)
    ensures
        r@.len() <= 10,
{
    cuid2::CuidConstructor::new().with_length(10).create_id()
}

/// Relies on chrono's `Utc::now`: the clock's seconds since the epoch,
/// about which nothing further can be promised.
#[verifier::external_body]
fn now_timestamp() -> i64 {
    chrono::Utc::now().timestamp()
}

/// Build the row a new link is stored as.
fn build_item(link_id: String, original: String, details: &UrlDetails, ts: i64) -> (r: Item)
    ensures
        r.link_id == link_id,
        r.original_link == Some(AttrValue::S(original)),
        item_clicks(r) == Some(0u32),
        clicks_val(r) == Some(0u64),
        r.title == s_attr(details.title),
        r.description == s_attr(details.description),
        r.content_type == s_attr(details.content_type),
        r.image == s_attr(details.image),
        item_timestamp(r) == Some(ts),
{
    let clicks_text = u64_to_dec(0);
    let ts_text = i64_to_dec(ts);
    let title = match &details.title {
        Some(t) => Some(AttrValue::S(t.clone())),
        None => None,
    };
    let description = match &details.description {
        Some(t) => Some(AttrValue::S(t.clone())),
        None => None,
    };
    let content_type = match &details.content_type {
        Some(t) => Some(AttrValue::S(t.clone())),
        None => None,
    };
    let image = match &details.image {
        Some(t) => Some(AttrValue::S(t.clone())),
        None => None,
    };
    let r = Item {
        link_id,
        original_link: Some(AttrValue::S(original)),
        clicks: Some(AttrValue::N(clicks_text)),
        title,
        description,
        content_type,
        image,
        timestamp: Some(AttrValue::N(ts_text)),
    };
    proof {
        lemma_u64_dec_roundtrip(0u64);
        lemma_u64_dec_str_val(0);
        lemma_i64_dec_roundtrip(ts);
    }
    r
}

impl UrlShortener {
    /// The identifiers of the stored rows are pairwise distinct.
    pub open spec fn wf(&self) -> bool {
        ids_unique(self@)
    }

    /// An empty link table.
    pub fn new() -> (r: Self)
        ensures
            r@ == Seq::<Item>::empty(),
            r.wf(),
    {
        let r = UrlShortener { items: Vec::new() };
        proof {
            assert(r@ =~= Seq::<Item>::empty());
        }
        r
    }

    /// The position of the row carrying this identifier, if any does.
    fn find_index(&self, id: &str) -> (r: Option<usize>)
        ensures
            match r {
                Some(i) => i < self@.len() && self@[i as int].link_id@ == id@,
                None => !has_id(self@, id@),
            },
    {
        let n = self.items.len();
        let mut i: usize = 0;
        while i < n
            invariant
                i <= n,
                n == self@.len(),
                forall|j: int| 0 <= j < i ==> (#[trigger] self@[j].link_id)@ != id@,
            decreases n - i,
        {
            if str_eq(self.items[i].link_id.as_str(), id) {
                return Some(i);
            }
            i += 1;
        }
        None
    }

    /// Insert a new row on the condition that its identifier is not yet
    /// taken; an existing row is never overwritten.
    pub fn create(&mut self, item: Item) -> (r: Result<(), CreateError>)
        requires
            old(self).wf(),
        ensures
            final(self).wf(),
            has_id(old(self)@, item.link_id@) ==> r == Err::<(), CreateError>(
                CreateError::AlreadyExists,
            ) && final(self)@ == old(self)@,
            !has_id(old(self)@, item.link_id@) ==> r == Ok::<(), CreateError>(())
                && final(self)@ == old(self)@.push(item),
    {
        match self.find_index(item.link_id.as_str()) {
            Some(_) => {
                proof {
                    assert(has_id(self@, item.link_id@));
                }
                Err(CreateError::AlreadyExists)
            },
            None => {
                let ghost before = self@;
                self.items.push(item);
                proof {
                    assert forall|i: int, j: int| 0 <= i < j < self@.len() implies (
                    #[trigger] self@[i].link_id)@ != (#[trigger] self@[j].link_id)@ by {
                        if j == self@.len() - 1 {
                            assert(self@[j] == item);
                            assert(before[i] == self@[i]);
                            if self@[i].link_id@ == item.link_id@ {
                                assert(has_id(before, item.link_id@));
                            }
                        } else {
                            assert(before[i] == self@[i] && before[j] == self@[j]);
                        }
                    }
                }
                Ok(())
            },
        }
    }

    /// Atomically count one visit and hand back the stored target
    /// address. A missing identifier is not an error: it yields `None`
    /// and writes nothing. A row whose counter is not a number with
    /// room to grow yields an error and writes nothing.
    pub fn retrieve_url_and_increment_count(&mut self, short_url: &str) -> (r: Result<
        Option<String>,
        String,
    >)
        requires
            old(self).wf(),
        ensures
            final(self).wf(),
            !has_id(old(self)@, short_url@) ==> r == Ok::<Option<String>, String>(None)
                && final(self)@ == old(self)@,
            has_id(old(self)@, short_url@) ==> ({
                let i = spec_idx_of(old(self)@, short_url@);
                let it = old(self)@[i];
                if increment_ok(it) {
                    &&& r == Ok::<Option<String>, String>(attr_s_opt(it.original_link))
                    &&& final(self)@.len() == old(self)@.len()
                    &&& forall|j: int|
                        0 <= j < old(self)@.len() && j != i ==> final(self)@[j] == old(self)@[j]
                    &&& is_incremented(it, final(self)@[i])
                } else {
                    &&& r is Err
                    &&& final(self)@ == old(self)@
                }
            }),
    {
        let idx = match self.find_index(short_url) {
            None => {
                return Ok(None);
            },
            Some(i) => i,
        };
        proof {
            assert(has_id(self@, short_url@));
            let k = spec_idx_of(self@, short_url@);
            assert(0 <= k < self@.len() && self@[k].link_id@ == short_url@);
            if k != idx as int {
                assert((self@[k].link_id)@ != (self@[idx as int].link_id)@);
            }
            assert(k == idx as int);
        }
        let counter = match &self.items[idx].clicks {
            Some(AttrValue::N(n)) => parse_u64_str(n.as_str()),
            _ => None,
        };
        let v = match counter {
            Some(v) => v,
            None => {
                return Err("Error incrementing clicks: Clicks is not a number".to_owned());
            },
        };
        if v == u64::MAX {
            return Err("Error incrementing clicks: the counter cannot grow".to_owned());
        }
        let row = &self.items[idx];
        let url = match &row.original_link {
            Some(AttrValue::S(s)) => Some(s.clone()),
            _ => None,
        };
        let updated = Item {
            link_id: row.link_id.clone(),
            original_link: clone_attr(&row.original_link),
            clicks: Some(AttrValue::N(u64_to_dec(v + 1))),
            title: clone_attr(&row.title),
            description: clone_attr(&row.description),
            content_type: clone_attr(&row.content_type),
            image: clone_attr(&row.image),
            timestamp: clone_attr(&row.timestamp),
        };
        let ghost before = self@;
        self.items.set(idx, updated);
        proof {
            assert forall|i: int, j: int| 0 <= i < j < self@.len() implies (
            #[trigger] self@[i].link_id)@ != (#[trigger] self@[j].link_id)@ by {
                assert(self@[i].link_id@ == before[i].link_id@);
                assert(self@[j].link_id@ == before[j].link_id@);
            }
        }
        Ok(url)
    }

    /// Shorten one submitted address: canonicalize and check it, fetch
    /// nothing itself but attach the metadata it is handed, stamp the
    /// record with the clock, and store it under fresh identifiers
    /// until one is free, a bounded number of times. The record handed
    /// back is exactly the one stored.
    pub fn shorten_url(&mut self, req: ShortenUrlRequest, details: &UrlDetails) -> (r: Result<
        ShortUrl,
        String,
    >)
        requires
            old(self).wf(),
        ensures
            final(self).wf(),
            !spec_is_valid_url(req.url_to_shorten@) ==> (r matches Err(m) && m@
                == "Invalid URL Provided"@) && final(self)@ == old(self)@,
            r is Err ==> final(self)@ == old(self)@,
            r matches Ok(u) ==> ({
                &&& spec_is_valid_url(req.url_to_shorten@)
                &&& u.original_link@ == spec_normalize_url(req.url_to_shorten@)
                &&& u.clicks == 0
                &&& u.title == details.title
                &&& u.description == details.description
                &&& u.content_type == details.content_type
                &&& u.image == details.image
                &&& !has_id(old(self)@, u.link_id@)
                &&& final(self)@.len() == old(self)@.len() + 1
                &&& forall|j: int| 0 <= j < old(self)@.len() ==> final(self)@[j] == old(self)@[j]
                &&& final(self)@.last().link_id@ == u.link_id@
                &&& parse_item(final(self)@.last()) == Some(u)
            }),
    {
        if !is_valid_url(req.url_to_shorten.as_str()) {
            return Err("Invalid URL Provided".to_owned());
        }
        let normalized = normalize_url(req.url_to_shorten.as_str());
        let ts = now_timestamp();
        let mut attempts: usize = 0;
        while attempts < MAX_CREATE_ATTEMPTS
            invariant
                self.wf(),
                self@ == old(self)@,
                spec_is_valid_url(req.url_to_shorten@),
                normalized@ == spec_normalize_url(req.url_to_shorten@),
            decreases MAX_CREATE_ATTEMPTS - attempts,
        {
            let id = generate_short_url();
            let item = build_item(id.clone(), normalized.clone(), details, ts);
            let record = ShortUrl {
                link_id: id,
                original_link: normalized.clone(),
                clicks: 0,
                title: clone_opt_string(&details.title),
                description: clone_opt_string(&details.description),
                content_type: clone_opt_string(&details.content_type),
                image: clone_opt_string(&details.image),
                timestamp: ts,
            };
            proof {
                assert(parse_item(item) == Some(record));
            }
            match self.create(item) {
                Ok(()) => {
                    return Ok(record);
                },
                Err(CreateError::AlreadyExists) => {
                    attempts += 1;
                },
            }
        }
        Err("Error adding item: no free link id was found".to_owned())
    }
}

fn clone_attr(a: &Option<AttrValue>) -> (r: Option<AttrValue>)
    ensures
        r == *a,
{
    match a {
        Some(AttrValue::S(s)) => Some(AttrValue::S(s.clone())),
        Some(AttrValue::N(n)) => Some(AttrValue::N(n.clone())),
        None => None,
    }
}

/// One page of the listing, with the opaque cursor of its last record
/// when more rows may follow.
pub struct ListShortUrlResponse {
    pub short_urls: Vec<ShortUrl>,
    pub last_evaluated_id: Option<String>,
    pub last_evaluated_timestamp: Option<String>,
    pub has_more: bool,
}

/// The rows that take part in the listing, in table order: those whose
/// timestamp attribute is a well-formed number.
pub open spec fn entries_of(items: Seq<Item>) -> Seq<Entry>
    decreases items.len(),
{
    if items.len() == 0 {
        Seq::empty()
    } else {
        entries_of(items.drop_last()) + (match item_timestamp(items.last()) {
            Some(ts) => seq![
                Entry { ts, id: items.last().link_id, idx: (items.len() - 1) as usize },
            ],
            None => Seq::empty(),
        })
    }
}

/// The listing order of a table: its indexed rows, newest first, ties
/// broken by descending identifier.
pub open spec fn listing_of(items: Seq<Item>) -> Seq<Entry> {
    sort_entries(entries_of(items))
}

/// An index entry faithfully names a row of the table.
pub open spec fn entry_wf(items: Seq<Item>, e: Entry) -> bool {
    &&& e.idx < items.len()
    &&& items[e.idx as int].link_id == e.id
    &&& item_timestamp(items[e.idx as int]) == Some(e.ts)
}

/// The decimal text under which a row keeps its timestamp.
pub open spec fn raw_ts_str(it: Item) -> Seq<char> {
    match it.timestamp {
        Some(AttrValue::N(n)) => n@,
        _ => Seq::empty(),
    }
}

/// The records a run of index entries yields, skipping rows that do not
/// parse.
pub open spec fn page_records(items: Seq<Item>, l: Seq<Entry>) -> Seq<ShortUrl>
    decreases l.len(),
{
    if l.len() == 0 {
        Seq::empty()
    } else {
        (match parse_item(items[l[0].idx as int]) {
            Some(u) => seq![u],
            None => Seq::empty(),
        }) + page_records(items, l.drop_first())
    }
}

/// The pagination cursor the two optional request fields denote: absent
/// unless both fields come, ill-formed when the timestamp is not a
/// number.
pub open spec fn spec_cursor(lid: Option<Seq<char>>, lts: Option<Seq<char>>) -> Result<
    Option<(i64, Seq<char>)>,
    (),
> {
    match (lid, lts) {
        (Some(id), Some(t)) => match parse_i64_spec(t) {
            Some(v) => Ok(Some((v, id))),
            None => Err(()),
        },
        _ => Ok(None),
    }
}

/// Where a page starts: at the top without a cursor, and strictly after
/// the cursor position with one.
pub open spec fn start_of(items: Seq<Item>, cursor: Option<(i64, Seq<char>)>) -> int {
    match cursor {
        None => 0,
        Some(c) => cursor_pos(listing_of(items), c.0, c.1),
    }
}

proof fn lemma_page_records_push(items: Seq<Item>, l: Seq<Entry>, e: Entry)
    ensures
        page_records(items, l.push(e)) == page_records(items, l) + (match parse_item(
            items[e.idx as int],
        ) {
            Some(u) => seq![u],
            None => Seq::<ShortUrl>::empty(),
        }),
    decreases l.len(),
{
    let lp = l.push(e);
    let opt_e = match parse_item(items[e.idx as int]) {
        Some(u) => seq![u],
        None => Seq::<ShortUrl>::empty(),
    };
    if l.len() == 0 {
        assert(lp[0] == e);
        assert(lp.drop_first() =~= Seq::<Entry>::empty());
        assert(page_records(items, lp.drop_first()) =~= Seq::<ShortUrl>::empty());
        assert(page_records(items, lp) =~= page_records(items, l) + opt_e);
    } else {
        let head = match parse_item(items[l[0].idx as int]) {
            Some(u) => seq![u],
            None => Seq::<ShortUrl>::empty(),
        };
        assert(lp[0] == l[0]);
        assert(lp.drop_first() =~= l.drop_first().push(e));
        lemma_page_records_push(items, l.drop_first(), e);
        assert(page_records(items, lp) == head + page_records(items, lp.drop_first()));
        assert(page_records(items, lp.drop_first()) == page_records(items, l.drop_first())
            + opt_e);
        assert(page_records(items, l) == head + page_records(items, l.drop_first()));
        assert(head + (page_records(items, l.drop_first()) + opt_e) =~= (head + page_records(
            items,
            l.drop_first(),
        )) + opt_e);
    }
}

proof fn lemma_entries_of_wf(items: Seq<Item>)
    requires
        items.len() <= usize::MAX,
    ensures
        forall|k: int|
            0 <= k < entries_of(items).len() ==> entry_wf(items, #[trigger] entries_of(items)[k]),
        ids_unique(items) ==> distinct_ids(entries_of(items)),
    decreases items.len(),
{
    if items.len() > 0 {
        let t = items.drop_last();
        lemma_entries_of_wf(t);
        let es = entries_of(items);
        let prev = entries_of(t);
        assert forall|k: int| 0 <= k < es.len() implies entry_wf(items, #[trigger] es[k]) by {
            if k < prev.len() {
                assert(es[k] == prev[k]);
                assert(entry_wf(t, prev[k]));
                assert(items[prev[k].idx as int] == t[prev[k].idx as int]);
            } else {
                assert(item_timestamp(items.last()) is Some);
                assert(es[k] == Entry {
                    ts: item_timestamp(items.last()).unwrap(),
                    id: items.last().link_id,
                    idx: (items.len() - 1) as usize,
                });
            }
        }
        if ids_unique(items) {
            assert(ids_unique(t)) by {
                assert(forall|i: int| 0 <= i < t.len() ==> #[trigger] t[i] == items[i]);
            }
            assert forall|i: int, j: int| 0 <= i < j < es.len() implies (#[trigger] es[i].id)@
                != (#[trigger] es[j].id)@ by {
                if j < prev.len() {
                    assert(es[i] == prev[i] && es[j] == prev[j]);
                } else {
                    assert(es[i] == prev[i]);
                    assert(entry_wf(t, prev[i]));
                    assert(es[j].id == items.last().link_id);
                    assert(es[i].id == items[prev[i].idx as int].link_id);
                    assert(prev[i].idx < items.len() - 1);
                }
            }
        }
    }
}

fn clone_entry(e: &Entry) -> (r: Entry)
    ensures
        r == *e,
{
    Entry { ts: e.ts, id: e.id.clone(), idx: e.idx }
}

/// What a creation request answers with.
pub struct ShortenUrlResponse {
    pub shortened_url: String,
}

/// Creation never overwrites: once a row with some identifier is
/// stored, that identifier is taken, so a second creation under it
/// reports the collision and leaves the table as it was — by `create`'s
/// contract — and the row looked up under the identifier is still the
/// first one, whatever the second record carried.
pub proof fn lemma_create_no_overwrite(items: Seq<Item>, first: Item, second: Item)
    requires
        ids_unique(items),
        !has_id(items, first.link_id@),
        second.link_id@ == first.link_id@,
    ensures
        has_id(items.push(first), second.link_id@),
        spec_idx_of(items.push(first), second.link_id@) == items.len(),
        items.push(first)[spec_idx_of(items.push(first), second.link_id@)] == first,
{
    let stored = items.push(first);
    assert(stored[items.len() as int] == first);
    assert(has_id(stored, second.link_id@));
    let k = spec_idx_of(stored, second.link_id@);
    assert(0 <= k < stored.len() && stored[k].link_id@ == second.link_id@);
    if k < items.len() {
        assert(stored[k] == items[k]);
        assert(has_id(items, first.link_id@));
    }
}

/// One counting step adds exactly one to the stored counter.
pub proof fn lemma_increment_adds_one(before: Item, after: Item)
    requires
        is_incremented(before, after),
    ensures
        clicks_val(before) is Some,
        clicks_val(after) == Some((clicks_val(before).unwrap() + 1) as u64),
{
    let v = clicks_val(before).unwrap();
    lemma_u64_dec_roundtrip((v + 1) as u64);
}

/// Visits never lose a count: a row that starts at zero and takes any
/// number of counting steps, one per visit, holds exactly that number.
pub proof fn lemma_repeated_increments(chain: Seq<Item>)
    requires
        chain.len() >= 1,
        chain.len() - 1 <= u64::MAX,
        clicks_val(chain[0]) == Some(0u64),
        forall|k: int|
            0 <= k < chain.len() - 1 ==> is_incremented(#[trigger] chain[k], chain[k + 1]),
    ensures
        clicks_val(chain.last()) == Some((chain.len() - 1) as u64),
    decreases chain.len(),
{
    if chain.len() > 1 {
        let t = chain.drop_last();
        assert(t[0] == chain[0]);
        assert(forall|k: int|
            0 <= k < t.len() - 1 ==> is_incremented(#[trigger] t[k], t[k + 1])) by {
            assert(forall|k: int| 0 <= k < t.len() ==> #[trigger] t[k] == chain[k]);
        }
        lemma_repeated_increments(t);
        assert(t.last() == chain[chain.len() - 2]);
        lemma_increment_adds_one(chain[chain.len() - 2], chain[chain.len() - 1]);
    }
}

/// A never-created identifier leaves no trace: resolving it changes
/// nothing — by `retrieve_url_and_increment_count`'s contract — so a
/// later creation under it succeeds, and keeps the identifiers unique.
pub proof fn lemma_never_created(items: Seq<Item>, id: Seq<char>, item: Item)
    requires
        ids_unique(items),
        !has_id(items, id),
        item.link_id@ == id,
    ensures
        !has_id(items, item.link_id@),
        ids_unique(items.push(item)),
{
    let stored = items.push(item);
    assert forall|i: int, j: int| 0 <= i < j < stored.len() implies (
    #[trigger] stored[i].link_id)@ != (#[trigger] stored[j].link_id)@ by {
        if j == stored.len() - 1 {
            assert(stored[i] == items[i] && stored[j] == item);
            if stored[i].link_id@ == item.link_id@ {
                assert(has_id(items, id));
            }
        } else {
            assert(stored[i] == items[i] && stored[j] == items[j]);
        }
    }
}

/// The listing of a table with unique identifiers is a strict total
/// order — newest first, ties broken by descending identifier — and
/// covers exactly the indexed rows: as many entries as indexed rows,
/// every identifier exactly once, each entry naming its row.
pub proof fn lemma_listing_sorted(items: Seq<Item>)
    requires
        ids_unique(items),
        items.len() <= usize::MAX,
    ensures
        sorted_le(listing_of(items)),
        distinct_ids(listing_of(items)),
        forall|i: int, j: int|
            0 <= i < j < listing_of(items).len() ==> entry_before(
                #[trigger] listing_of(items)[i],
                #[trigger] listing_of(items)[j],
            ),
        listing_of(items).len() == entries_of(items).len(),
        forall|id: Seq<char>|
            has_entry_id(listing_of(items), id) <==> has_entry_id(entries_of(items), id),
        forall|k: int|
            0 <= k < listing_of(items).len() ==> entry_wf(items, #[trigger] listing_of(items)[k]),
{
    lemma_entries_of_wf(items);
    lemma_sort_entries_props(entries_of(items));
    lemma_sorted_strict(listing_of(items));
    lemma_sort_entries_pointwise(entries_of(items), |e: Entry| entry_wf(items, e));
}

/// Pages chain without overlap or omission: the cursor that a page
/// hands out is its last entry, and the position where the next page
/// starts is exactly the one after it.
pub proof fn lemma_next_page_resumes(items: Seq<Item>, p: int)
    requires
        ids_unique(items),
        items.len() <= usize::MAX,
        0 <= p < listing_of(items).len(),
    ensures
        cursor_pos(listing_of(items), listing_of(items)[p].ts, listing_of(items)[p].id@) == p
            + 1,
{
    lemma_listing_sorted(items);
    lemma_cursor_resumes_after(listing_of(items), p);
}

impl UrlShortener {
    /// One page of records, newest first, starting strictly after the
    /// cursor when a complete one is given and at the top otherwise,
    /// with the cursor of the last returned row exactly when more
    /// indexed rows follow. Rows that do not parse are skipped, not
    /// reported.
    pub fn list_urls(
        &self,
        last_evaluated_id: Option<&str>,
        last_evaluated_timestamp: Option<&str>,
    ) -> (r: Result<ListShortUrlResponse, String>)
        ensures
            ({
                let cur = spec_cursor(
                    match last_evaluated_id {
                        Some(s) => Some(s@),
                        None => None,
                    },
                    match last_evaluated_timestamp {
                        Some(s) => Some(s@),
                        None => None,
                    },
                );
                &&& (r is Err <==> cur is Err)
                &&& (r matches Ok(resp) ==> ({
                    let l = listing_of(self@);
                    let start = start_of(self@, cur.unwrap());
                    let end = if start + PAGE_SIZE <= l.len() {
                        start + PAGE_SIZE as int
                    } else {
                        l.len() as int
                    };
                    &&& resp.short_urls@ == page_records(self@, l.subrange(start, end))
                    &&& (end < l.len() ==> {
                        &&& resp.last_evaluated_id matches Some(s) && s@ == l[end - 1].id@
                        &&& resp.last_evaluated_timestamp matches Some(t) && t@ == raw_ts_str(
                            self@[l[end - 1].idx as int],
                        )
                        &&& resp.has_more
                    })
                    &&& (end == l.len() ==> resp.last_evaluated_id is None
                        && resp.last_evaluated_timestamp is None && !resp.has_more)
                }))
            }),
    {
        let cursor: Option<(i64, &str)> = match (last_evaluated_id, last_evaluated_timestamp) {
            (Some(id), Some(t)) => match parse_i64_str(t) {
                Some(v) => Some((v, id)),
                None => {
                    return Err("Error executing scan: malformed cursor".to_owned());
                },
            },
            _ => None,
        };
        let n = self.items.len();
        let mut raw: Vec<Entry> = Vec::new();
        let mut i: usize = 0;
        while i < n
            invariant
                i <= n,
                n == self@.len(),
                raw@ == entries_of(self@.subrange(0, i as int)),
            decreases n - i,
        {
            let ghost prefix = self@.subrange(0, i as int);
            match &self.items[i].timestamp {
                Some(AttrValue::N(ns)) => match parse_i64_str(ns.as_str()) {
                    Some(ts) => {
                        raw.push(Entry { ts, id: self.items[i].link_id.clone(), idx: i });
                    },
                    None => {},
                },
                _ => {},
            }
            proof {
                let ext = self@.subrange(0, i as int + 1);
                assert(ext.drop_last() =~= prefix);
                assert(ext.last() == self@[i as int]);
            }
            i += 1;
        }
        proof {
            assert(self@.subrange(0, n as int) =~= self@);
        }
        let mut sorted: Vec<Entry> = Vec::new();
        let mut k: usize = 0;
        while k < raw.len()
            invariant
                k <= raw@.len(),
                sorted@ == sort_entries(raw@.subrange(0, k as int)),
            decreases raw@.len() - k,
        {
            let e = clone_entry(&raw[k]);
            let mut j: usize = 0;
            while j < sorted.len() && !entry_before_exec(&e, &sorted[j])
                invariant
                    j <= sorted@.len(),
                    e == raw@[k as int],
                    forall|m: int| 0 <= m < j ==> !entry_before(e, #[trigger] sorted@[m]),
                decreases sorted@.len() - j,
            {
                j += 1;
            }
            proof {
                lemma_insert_pos_at(sorted@, e, j as int);
                lemma_insert_sorted_shape(sorted@, e);
                assert(sorted@.insert(j as int, e) =~= insert_sorted(sorted@, e));
                let ext = raw@.subrange(0, k as int + 1);
                assert(ext.drop_last() =~= raw@.subrange(0, k as int));
                assert(ext.last() == raw@[k as int]);
            }
            sorted.insert(j, e);
            k += 1;
        }
        proof {
            assert(raw@.subrange(0, raw@.len() as int) =~= raw@);
            assert(sorted@ == listing_of(self@));
            lemma_entries_of_wf(self@);
            let ghost items_seq = self@;
            lemma_sort_entries_pointwise(raw@, |e: Entry| entry_wf(items_seq, e));
            assert(forall|m: int|
                0 <= m < sorted@.len() ==> entry_wf(self@, #[trigger] sorted@[m]));
        }
        let total = sorted.len();
        let start: usize = match cursor {
            None => 0,
            Some((cts, cid)) => {
                let mut s: usize = 0;
                while s < total && !after_cursor_exec(cts, cid, &sorted[s])
                    invariant
                        s <= total,
                        total == sorted@.len(),
                        forall|m: int| 0 <= m < s ==> !after_cursor(cts, cid@, #[trigger] sorted@[m]),
                    decreases total - s,
                {
                    s += 1;
                }
                proof {
                    lemma_cursor_pos_at(sorted@, cts, cid@, s as int);
                }
                s
            },
        };
        let end: usize = if total - start > PAGE_SIZE {
            start + PAGE_SIZE
        } else {
            total
        };
        let mut page: Vec<ShortUrl> = Vec::new();
        let mut q: usize = start;
        while q < end
            invariant
                start <= q <= end <= total,
                total == sorted@.len(),
                forall|m: int| 0 <= m < sorted@.len() ==> entry_wf(self@, #[trigger] sorted@[m]),
                page@ == page_records(self@, sorted@.subrange(start as int, q as int)),
            decreases end - q,
        {
            let e_idx = sorted[q].idx;
            proof {
                assert(entry_wf(self@, sorted@[q as int]));
            }
            match ShortUrl::try_from(&self.items[e_idx]) {
                Ok(u) => {
                    page.push(u);
                },
                Err(_) => {},
            }
            proof {
                let ext = sorted@.subrange(start as int, q as int + 1);
                assert(ext =~= sorted@.subrange(start as int, q as int).push(sorted@[q as int]));
                lemma_page_records_push(
                    self@,
                    sorted@.subrange(start as int, q as int),
                    sorted@[q as int],
                );
            }
            q += 1;
        }
        if end < total {
            let last_entry_id = sorted[end - 1].id.clone();
            let last_entry_idx = sorted[end - 1].idx;
            proof {
                assert(entry_wf(self@, sorted@[end - 1]));
            }
            let last_entry_ts = match &self.items[last_entry_idx].timestamp {
                Some(AttrValue::N(nx)) => nx.clone(),
                _ => {
                    proof {
                        assert(false);
                    }
                    String::new()
                },
            };
            Ok(
                ListShortUrlResponse {
                    short_urls: page,
                    last_evaluated_id: Some(last_entry_id),
                    last_evaluated_timestamp: Some(last_entry_ts),
                    has_more: true,
                },
            )
        } else {
            Ok(
                ListShortUrlResponse {
                    short_urls: page,
                    last_evaluated_id: None,
                    last_evaluated_timestamp: None,
                    has_more: false,
                },
            )
        }
    }
}

} // verus!
