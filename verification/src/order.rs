//! The listing order of the link table: index entries carrying a
//! timestamp and an identifier, ordered newest first with ties broken by
//! identifier, a verified insertion sort, and the position where a
//! pagination cursor resumes.

use vstd::prelude::*;

verus! {

/// One entry of the recency index: the parsed timestamp and identifier
/// of a stored row, and that row's position in the table.
pub struct Entry {
    pub ts: i64,
    pub id: String,
    pub idx: usize,
}

/// Lexicographic order on character sequences, by code point.
pub open spec fn seq_char_lt(a: Seq<char>, b: Seq<char>) -> bool
    decreases a.len(),
{
    if b.len() == 0 {
        false
    } else if a.len() == 0 {
        true
    } else if (a[0] as int) < (b[0] as int) {
        true
    } else if a[0] == b[0] {
        seq_char_lt(a.drop_first(), b.drop_first())
    } else {
        false
    }
}

/// `a` is listed before `b`: its timestamp is newer, or equal with the
/// larger identifier.
pub open spec fn entry_before(a: Entry, b: Entry) -> bool {
    a.ts > b.ts || (a.ts == b.ts && seq_char_lt(b.id@, a.id@))
}

/// An entry lies strictly after the cursor position `(cts, cid)`.
pub open spec fn after_cursor(cts: i64, cid: Seq<char>, e: Entry) -> bool {
    cts > e.ts || (cts == e.ts && seq_char_lt(e.id@, cid))
}

/// No later entry is ordered before an earlier one.
pub open spec fn sorted_le(s: Seq<Entry>) -> bool {
    forall|i: int, j: int| 0 <= i < j < s.len() ==> !entry_before(#[trigger] s[j], #[trigger] s[i])
}

/// Some entry carries this identifier.
pub open spec fn has_entry_id(s: Seq<Entry>, id: Seq<char>) -> bool {
    exists|i: int| 0 <= i < s.len() && (#[trigger] s[i].id)@ == id
}

/// All entries carry pairwise distinct identifiers.
pub open spec fn distinct_ids(s: Seq<Entry>) -> bool {
    forall|i: int, j: int|
        0 <= i < j < s.len() ==> (#[trigger] s[i].id)@ != (#[trigger] s[j].id)@
}

/// Where a new entry goes in a sorted sequence: before the first entry
/// it is ordered before.
pub open spec fn insert_pos(s: Seq<Entry>, e: Entry) -> int
    decreases s.len(),
{
    if s.len() == 0 {
        0
    } else if entry_before(e, s[0]) {
        0
    } else {
        1 + insert_pos(s.drop_first(), e)
    }
}

/// A sorted sequence with one more entry, placed at its position.
pub open spec fn insert_sorted(s: Seq<Entry>, e: Entry) -> Seq<Entry>
    decreases s.len(),
{
    if s.len() == 0 {
        seq![e]
    } else if entry_before(e, s[0]) {
        seq![e] + s
    } else {
        seq![s[0]] + insert_sorted(s.drop_first(), e)
    }
}

/// The entries in listing order, by repeated insertion.
pub open spec fn sort_entries(s: Seq<Entry>) -> Seq<Entry>
    decreases s.len(),
{
    if s.len() == 0 {
        Seq::empty()
    } else {
        insert_sorted(sort_entries(s.drop_last()), s.last())
    }
}

/// How many leading entries of a listing lie at or before the cursor
/// position: the index at which the next page starts.
pub open spec fn cursor_pos(l: Seq<Entry>, cts: i64, cid: Seq<char>) -> int
    decreases l.len(),
{
    if l.len() == 0 {
        0
    } else if after_cursor(cts, cid, l[0]) {
        0
    } else {
        1 + cursor_pos(l.drop_first(), cts, cid)
    }
}

proof fn lemma_seq_char_lt_at(a: Seq<char>, b: Seq<char>, i: int)
    requires
        0 <= i <= a.len(),
        i <= b.len(),
        forall|j: int| 0 <= j < i ==> a[j] == b[j],
        (i < a.len() && i < b.len()) ==> a[i] != b[i],
    ensures
        seq_char_lt(a, b) == (i < b.len() && (i == a.len() || (a[i] as int) < (b[i] as int))),
    decreases i,
{
    if i == 0 {
    } else {
        lemma_seq_char_lt_at(a.drop_first(), b.drop_first(), i - 1);
    }
}

pub proof fn lemma_seq_char_lt_irrefl(a: Seq<char>)
    ensures
        !seq_char_lt(a, a),
    decreases a.len(),
{
    if a.len() > 0 {
        lemma_seq_char_lt_irrefl(a.drop_first());
    }
}

pub proof fn lemma_seq_char_lt_asym(a: Seq<char>, b: Seq<char>)
    ensures
        !(seq_char_lt(a, b) && seq_char_lt(b, a)),
    decreases a.len(),
{
    if a.len() > 0 && b.len() > 0 && a[0] == b[0] {
        lemma_seq_char_lt_asym(a.drop_first(), b.drop_first());
    }
}

pub proof fn lemma_seq_char_lt_conn(a: Seq<char>, b: Seq<char>)
    requires
        a != b,
    ensures
        seq_char_lt(a, b) || seq_char_lt(b, a),
    decreases a.len(),
{
    if a.len() == 0 {
        if b.len() == 0 {
            assert(a =~= b);
        }
    } else if b.len() == 0 {
    } else if a[0] == b[0] {
        if a.drop_first() == b.drop_first() {
            assert(a.drop_first().len() == b.drop_first().len());
            assert(a.len() == b.len());
            assert forall|i: int| 0 <= i < a.len() implies a[i] == b[i] by {
                if i > 0 {
                    assert(a[i] == a.drop_first()[i - 1]);
                    assert(b[i] == b.drop_first()[i - 1]);
                }
            }
            assert(a =~= b);
        }
        lemma_seq_char_lt_conn(a.drop_first(), b.drop_first());
    } else {
        assert(a[0] as int != b[0] as int);
    }
}

pub proof fn lemma_seq_char_lt_trans(a: Seq<char>, b: Seq<char>, c: Seq<char>)
    requires
        seq_char_lt(a, b),
        seq_char_lt(b, c),
    ensures
        seq_char_lt(a, c),
    decreases a.len(),
{
    if a.len() > 0 && b.len() > 0 && c.len() > 0 && a[0] == b[0] && b[0] == c[0] {
        lemma_seq_char_lt_trans(a.drop_first(), b.drop_first(), c.drop_first());
    }
}

pub proof fn lemma_entry_before_asym(a: Entry, b: Entry)
    ensures
        !(entry_before(a, b) && entry_before(b, a)),
{
    lemma_seq_char_lt_asym(a.id@, b.id@);
}

pub proof fn lemma_entry_before_conn(a: Entry, b: Entry)
    requires
        a.ts != b.ts || a.id@ != b.id@,
    ensures
        entry_before(a, b) || entry_before(b, a),
{
    if a.ts == b.ts {
        lemma_seq_char_lt_conn(a.id@, b.id@);
    }
}

pub proof fn lemma_entry_before_trans(a: Entry, b: Entry, c: Entry)
    requires
        entry_before(a, b),
        entry_before(b, c),
    ensures
        entry_before(a, c),
{
    if a.ts == b.ts && b.ts == c.ts {
        lemma_seq_char_lt_trans(c.id@, b.id@, a.id@);
    }
}

/// Compare two string slices lexicographically by code point.
pub fn str_lt(a: &str, b: &str) -> (r: bool)
    ensures
        r == seq_char_lt(a@, b@),
{
    let alen = a.unicode_len();
    let blen = b.unicode_len();
    let mut i: usize = 0;
    while i < alen && i < blen
        invariant
            alen == a@.len(),
            blen == b@.len(),
            i <= alen,
            i <= blen,
            forall|j: int| 0 <= j < i ==> a@[j] == b@[j],
        decreases alen - i,
    {
        let ca = a.get_char(i);
        let cb = b.get_char(i);
        if (ca as u32) < (cb as u32) {
            proof {
                lemma_seq_char_lt_at(a@, b@, i as int);
            }
            return true;
        }
        if ca != cb {
            proof {
                lemma_seq_char_lt_at(a@, b@, i as int);
            }
            return false;
        }
        i += 1;
    }
    proof {
        lemma_seq_char_lt_at(a@, b@, i as int);
    }
    alen < blen
}

/// Is `a` listed before `b`?
pub fn entry_before_exec(a: &Entry, b: &Entry) -> (r: bool)
    ensures
        r == entry_before(*a, *b),
{
    if a.ts > b.ts {
        true
    } else if a.ts == b.ts {
        str_lt(b.id.as_str(), a.id.as_str())
    } else {
        false
    }
}

/// Does `e` lie strictly after the cursor position?
pub fn after_cursor_exec(cts: i64, cid: &str, e: &Entry) -> (r: bool)
    ensures
        r == after_cursor(cts, cid@, *e),
{
    if cts > e.ts {
        true
    } else if cts == e.ts {
        str_lt(e.id.as_str(), cid)
    } else {
        false
    }
}

pub proof fn lemma_insert_pos_range(s: Seq<Entry>, e: Entry)
    ensures
        0 <= insert_pos(s, e) <= s.len(),
    decreases s.len(),
{
    if s.len() > 0 && !entry_before(e, s[0]) {
        lemma_insert_pos_range(s.drop_first(), e);
    }
}

pub proof fn lemma_insert_pos_first(s: Seq<Entry>, e: Entry)
    ensures
        forall|j: int| 0 <= j < insert_pos(s, e) ==> !entry_before(e, #[trigger] s[j]),
        insert_pos(s, e) < s.len() ==> entry_before(e, s[insert_pos(s, e)]),
    decreases s.len(),
{
    lemma_insert_pos_range(s, e);
    if s.len() > 0 && !entry_before(e, s[0]) {
        let t = s.drop_first();
        lemma_insert_pos_first(t, e);
        lemma_insert_pos_range(t, e);
        assert forall|j: int| 0 <= j < insert_pos(s, e) implies !entry_before(
            e,
            #[trigger] s[j],
        ) by {
            if j > 0 {
                assert(s[j] == t[j - 1]);
            }
        }
        if insert_pos(s, e) < s.len() {
            assert(s[insert_pos(s, e)] == t[insert_pos(t, e)]);
        }
    }
}

pub proof fn lemma_insert_pos_at(s: Seq<Entry>, e: Entry, p: int)
    requires
        0 <= p <= s.len(),
        forall|j: int| 0 <= j < p ==> !entry_before(e, #[trigger] s[j]),
        p < s.len() ==> entry_before(e, s[p]),
    ensures
        insert_pos(s, e) == p,
    decreases p,
{
    if p == 0 {
    } else {
        lemma_insert_pos_at(s.drop_first(), e, p - 1);
    }
}

pub proof fn lemma_insert_sorted_shape(s: Seq<Entry>, e: Entry)
    ensures
        insert_sorted(s, e) == s.subrange(0, insert_pos(s, e)) + seq![e] + s.subrange(
            insert_pos(s, e),
            s.len() as int,
        ),
        insert_sorted(s, e).len() == s.len() + 1,
    decreases s.len(),
{
    lemma_insert_pos_range(s, e);
    if s.len() == 0 {
        assert(insert_sorted(s, e) =~= s.subrange(0, 0) + seq![e] + s.subrange(0, 0));
    } else if entry_before(e, s[0]) {
        assert(seq![e] + s =~= s.subrange(0, 0) + seq![e] + s.subrange(0, s.len() as int));
    } else {
        let t = s.drop_first();
        lemma_insert_sorted_shape(t, e);
        lemma_insert_pos_range(t, e);
        let p = insert_pos(t, e);
        assert(insert_sorted(s, e) == seq![s[0]] + insert_sorted(t, e));
        assert(insert_pos(s, e) == p + 1);
        assert(seq![s[0]] + (t.subrange(0, p) + seq![e] + t.subrange(p, t.len() as int)) =~= s
            .subrange(0, p + 1) + seq![e] + s.subrange(p + 1, s.len() as int));
    }
}

pub proof fn lemma_insert_sorted_sorted(s: Seq<Entry>, e: Entry)
    requires
        sorted_le(s),
    ensures
        sorted_le(insert_sorted(s, e)),
{
    let p = insert_pos(s, e);
    lemma_insert_pos_range(s, e);
    lemma_insert_pos_first(s, e);
    lemma_insert_sorted_shape(s, e);
    let r = insert_sorted(s, e);
    assert forall|i: int, j: int| 0 <= i < j < r.len() implies !entry_before(
        #[trigger] r[j],
        #[trigger] r[i],
    ) by {
        if i < p && j < p {
        } else if i < p && j == p {
            assert(r[i] == s[i] && r[j] == e);
        } else if i < p && j > p {
            assert(r[i] == s[i] && r[j] == s[j - 1]);
        } else if i == p && j > p {
            assert(r[i] == e && r[j] == s[j - 1]);
            if entry_before(s[j - 1], e) {
                assert(p < s.len());
                assert(entry_before(e, s[p]));
                if j - 1 == p {
                    lemma_entry_before_asym(e, s[p]);
                } else {
                    lemma_entry_before_trans(s[j - 1], e, s[p]);
                }
                assert(false);
            }
        } else {
            assert(r[i] == s[i - 1] && r[j] == s[j - 1]);
        }
    }
}

pub proof fn lemma_insert_sorted_ids(s: Seq<Entry>, e: Entry, id: Seq<char>)
    ensures
        has_entry_id(insert_sorted(s, e), id) <==> (has_entry_id(s, id) || id == e.id@),
{
    let p = insert_pos(s, e);
    lemma_insert_pos_range(s, e);
    lemma_insert_sorted_shape(s, e);
    let r = insert_sorted(s, e);
    if has_entry_id(r, id) {
        let i = choose|i: int| 0 <= i < r.len() && (#[trigger] r[i].id)@ == id;
        if i < p {
            assert(r[i] == s[i]);
        } else if i == p {
            assert(r[i] == e);
        } else {
            assert(r[i] == s[i - 1]);
        }
    }
    if has_entry_id(s, id) {
        let i = choose|i: int| 0 <= i < s.len() && (#[trigger] s[i].id)@ == id;
        if i < p {
            assert(r[i] == s[i]);
        } else {
            assert(r[i + 1] == s[i]);
        }
    }
    if id == e.id@ {
        assert(r[p] == e);
    }
}

pub proof fn lemma_insert_sorted_distinct(s: Seq<Entry>, e: Entry)
    requires
        distinct_ids(s),
        !has_entry_id(s, e.id@),
    ensures
        distinct_ids(insert_sorted(s, e)),
{
    let p = insert_pos(s, e);
    lemma_insert_pos_range(s, e);
    lemma_insert_sorted_shape(s, e);
    let r = insert_sorted(s, e);
    assert forall|i: int, j: int| 0 <= i < j < r.len() implies (#[trigger] r[i].id)@ != (
    #[trigger] r[j].id)@ by {
        let si = if i < p {
            s[i]
        } else if i == p {
            e
        } else {
            s[i - 1]
        };
        let sj = if j < p {
            s[j]
        } else if j == p {
            e
        } else {
            s[j - 1]
        };
        assert(r[i] == si && r[j] == sj);
        if i == p {
            assert(0 <= j - 1 < s.len() && s[j - 1] == sj);
        } else if j == p {
            assert(0 <= i < s.len() && s[i] == si);
        }
    }
}

pub proof fn lemma_sort_entries_props(s: Seq<Entry>)
    ensures
        sort_entries(s).len() == s.len(),
        sorted_le(sort_entries(s)),
        forall|id: Seq<char>| has_entry_id(sort_entries(s), id) <==> has_entry_id(s, id),
        distinct_ids(s) ==> distinct_ids(sort_entries(s)),
    decreases s.len(),
{
    if s.len() == 0 {
    } else {
        let t = s.drop_last();
        let e = s.last();
        lemma_sort_entries_props(t);
        lemma_insert_sorted_shape(sort_entries(t), e);
        lemma_insert_sorted_sorted(sort_entries(t), e);
        assert(sort_entries(s) == insert_sorted(sort_entries(t), e));
        assert forall|id: Seq<char>| has_entry_id(s, id) implies has_entry_id(sort_entries(s), id) by {
            lemma_insert_sorted_ids(sort_entries(t), e, id);
            let i = choose|i: int| 0 <= i < s.len() && (#[trigger] s[i].id)@ == id;
            if i < s.len() - 1 {
                assert(t[i] == s[i]);
                assert(has_entry_id(t, id));
                assert(has_entry_id(sort_entries(t), id));
            } else {
                assert(s[i] == e);
                assert(id == e.id@);
            }
            assert(has_entry_id(insert_sorted(sort_entries(t), e), id));
        }
        assert forall|id: Seq<char>| has_entry_id(sort_entries(s), id) implies has_entry_id(
            s,
            id,
        ) by {
            lemma_insert_sorted_ids(sort_entries(t), e, id);
            if has_entry_id(t, id) {
                let i = choose|i: int| 0 <= i < t.len() && (#[trigger] t[i].id)@ == id;
                assert(s[i] == t[i]);
            } else {
                assert(s[s.len() - 1] == e);
            }
        }
        if distinct_ids(s) {
            assert(distinct_ids(t)) by {
                assert(forall|i: int|
                    0 <= i < t.len() ==> #[trigger] t[i] == s[i]);
            }
            assert(!has_entry_id(t, e.id@)) by {
                if has_entry_id(t, e.id@) {
                    let i = choose|i: int| 0 <= i < t.len() && (#[trigger] t[i].id)@ == e.id@;
                    assert(s[i] == t[i]);
                    assert((s[i].id)@ != (s[s.len() - 1].id)@);
                }
            }
            lemma_insert_sorted_distinct(sort_entries(t), e);
        }
    }
}

/// Every entry of an insertion result satisfies what every inserted
/// entry satisfied.
pub proof fn lemma_insert_sorted_pointwise(s: Seq<Entry>, e: Entry, p: spec_fn(Entry) -> bool)
    requires
        forall|k: int| 0 <= k < s.len() ==> p(#[trigger] s[k]),
        p(e),
    ensures
        forall|k: int| 0 <= k < insert_sorted(s, e).len() ==> p(#[trigger] insert_sorted(s, e)[k]),
{
    let pos = insert_pos(s, e);
    lemma_insert_pos_range(s, e);
    lemma_insert_sorted_shape(s, e);
    let r = insert_sorted(s, e);
    assert forall|k: int| 0 <= k < r.len() implies p(#[trigger] r[k]) by {
        if k < pos {
            assert(r[k] == s[k]);
        } else if k == pos {
            assert(r[k] == e);
        } else {
            assert(r[k] == s[k - 1]);
        }
    }
}

/// Every entry of a sort satisfies what every entry of the input
/// satisfied.
pub proof fn lemma_sort_entries_pointwise(s: Seq<Entry>, p: spec_fn(Entry) -> bool)
    requires
        forall|k: int| 0 <= k < s.len() ==> p(#[trigger] s[k]),
    ensures
        forall|k: int| 0 <= k < sort_entries(s).len() ==> p(#[trigger] sort_entries(s)[k]),
    decreases s.len(),
{
    if s.len() > 0 {
        let t = s.drop_last();
        assert(forall|k: int| 0 <= k < t.len() ==> p(#[trigger] t[k])) by {
            assert(forall|k: int| 0 <= k < t.len() ==> t[k] == s[k]);
        }
        lemma_sort_entries_pointwise(t, p);
        lemma_insert_sorted_pointwise(sort_entries(t), s.last(), p);
    }
}

/// In a sorted listing with distinct identifiers the order is strict:
/// every earlier entry is listed before every later one.
pub proof fn lemma_sorted_strict(l: Seq<Entry>)
    requires
        sorted_le(l),
        distinct_ids(l),
    ensures
        forall|i: int, j: int| 0 <= i < j < l.len() ==> entry_before(#[trigger] l[i], #[trigger] l[j]),
{
    assert forall|i: int, j: int| 0 <= i < j < l.len() implies entry_before(
        #[trigger] l[i],
        #[trigger] l[j],
    ) by {
        lemma_entry_before_conn(l[i], l[j]);
    }
}

pub proof fn lemma_cursor_pos_at(l: Seq<Entry>, cts: i64, cid: Seq<char>, p: int)
    requires
        0 <= p <= l.len(),
        forall|j: int| 0 <= j < p ==> !after_cursor(cts, cid, #[trigger] l[j]),
        p < l.len() ==> after_cursor(cts, cid, l[p]),
    ensures
        cursor_pos(l, cts, cid) == p,
    decreases p,
{
    if p == 0 {
    } else {
        lemma_cursor_pos_at(l.drop_first(), cts, cid, p - 1);
    }
}

/// The seam of two pages: the cursor taken from the entry at position
/// `p` of a sorted listing with distinct identifiers resumes exactly at
/// position `p + 1`.
pub proof fn lemma_cursor_resumes_after(l: Seq<Entry>, p: int)
    requires
        sorted_le(l),
        distinct_ids(l),
        0 <= p < l.len(),
    ensures
        cursor_pos(l, l[p].ts, l[p].id@) == p + 1,
{
    let cts = l[p].ts;
    let cid = l[p].id@;
    assert forall|j: int| 0 <= j < p + 1 implies !after_cursor(cts, cid, #[trigger] l[j]) by {
        if j == p {
            lemma_seq_char_lt_irrefl(cid);
        } else {
            if after_cursor(cts, cid, l[j]) {
                assert(entry_before(l[p], l[j]));
                assert(false);
            }
        }
    }
    if p + 1 < l.len() {
        lemma_sorted_strict(l);
        assert(entry_before(l[p], l[p + 1]));
    }
    lemma_cursor_pos_at(l, cts, cid, p + 1);
}

} // verus!
