//! The request orchestrator: validation and failure policy for single
//! insert, bulk insert, and search.
//!
//! Embedding a text and ranking vectors are the work of outside
//! collaborators; the functions here take the embedded vector, or the
//! index's ranked hits, as arguments and define everything the service
//! itself decides: which inputs are rejected, which id a record gets,
//! how per-item failures are reported, and which search hits are
//! dropped.

use vstd::prelude::*;
use vstd::string::StringExecFns;

use crate::codec::{dec_chars, push_dec};
use crate::error::ApiError;
use crate::record::{RecordView, ReviewMeta};
use crate::store::Store;
use crate::text::{chars_of, string_of_chars};

verus! {

/// How many hits a search returns when the caller does not say.
pub const DEFAULT_TOP_K: usize = 5;

/// Payload for a single review.
pub struct ReviewInput {
    pub title: String,
    pub body: String,
}

/// Payload for a bulk insert.
pub struct BulkReviewInput(pub Vec<ReviewInput>);

/// Response for a single insert.
pub struct ApiResponse {
    pub id: usize,
    pub success: bool,
}

/// Response for a bulk insert.
pub struct BulkInsertResponse {
    pub inserted: usize,
    pub failed: usize,
    pub errors: Vec<String>,
}

/// Payload for a search.
pub struct SearchInput {
    pub query: String,
    pub top_k: Option<usize>,
}

/// One search hit: a resolved record with its similarity score, the
/// score carried as the bit pattern of the engine's 32-bit value.
pub struct SearchResult {
    pub id: usize,
    pub title: String,
    pub body: String,
    pub score_bits: u32,
}

/// The abstract value of a [`SearchResult`].
pub ghost struct SearchResultView {
    pub id: nat,
    pub title: Seq<char>,
    pub body: Seq<char>,
    pub score_bits: u32,
}

impl View for SearchResult {
    type V = SearchResultView;

    open spec fn view(&self) -> SearchResultView {
        SearchResultView {
            id: self.id as nat,
            title: self.title@,
            body: self.body@,
            score_bits: self.score_bits,
        }
    }
}

// ---------------------------------------------------------------------
// Validation
// ---------------------------------------------------------------------

/// A whitespace character, as trimming understands it.
pub open spec fn is_space(c: char) -> bool {
    ||| (0x09 <= (c as int) && (c as int) <= 0x0d)
    ||| (c as int) == 0x20
    ||| (c as int) == 0x85
    ||| (c as int) == 0xa0
    ||| (c as int) == 0x1680
    ||| (0x2000 <= (c as int) && (c as int) <= 0x200a)
    ||| (c as int) == 0x2028
    ||| (c as int) == 0x2029
    ||| (c as int) == 0x202f
    ||| (c as int) == 0x205f
    ||| (c as int) == 0x3000
}

/// Empty, or whitespace only: what trimming would reduce to nothing.
pub open spec fn is_blank(s: Seq<char>) -> bool {
    forall|i: int| 0 <= i < s.len() ==> is_space(s[i])
}

/// An input is accepted when neither field is blank.
pub open spec fn valid_input(inp: ReviewInput) -> bool {
    !is_blank(inp.title@) && !is_blank(inp.body@)
}

/// The record an accepted input becomes under a given id.
pub open spec fn input_rec(inp: ReviewInput, id: nat) -> RecordView {
    RecordView { id: id, title: inp.title@, body: inp.body@ }
}

fn is_space_exec(c: char) -> (r: bool)
    ensures
        r == is_space(c),
{
    let u = c as u32;
    (0x09 <= u && u <= 0x0d) || u == 0x20 || u == 0x85 || u == 0xa0 || u == 0x1680 || (0x2000 <= u
        && u <= 0x200a) || u == 0x2028 || u == 0x2029 || u == 0x202f || u == 0x205f || u == 0x3000
}

/// Whether the string is empty or whitespace only.
pub fn is_blank_str(s: &String) -> (r: bool)
    ensures
        r == is_blank(s@),
{
    let cv = chars_of(s.as_str());
    let mut i: usize = 0;
    while i < cv.len()
        invariant
            i <= cv.len(),
            cv@ == s@,
            forall|t: int| 0 <= t < i ==> is_space(cv@[t]),
        decreases cv.len() - i,
    {
        if !is_space_exec(cv[i]) {
            proof {
                assert(!is_space(s@[i as int]));
            }
            return false;
        }
        i = i + 1;
    }
    true
}

/// Whether an input passes validation.
pub fn validate_review(input: &ReviewInput) -> (r: bool)
    ensures
        r == valid_input(*input),
{
    !is_blank_str(&input.title) && !is_blank_str(&input.body)
}

/// The text handed to the embedding provider for a record: the title
/// and body joined by `" . "`.
pub fn embed_text(title: &String, body: &String) -> (r: String)
    ensures
        r@ == title@ + embed_sep() + body@,
{
    let mut s = title.clone();
    s.append(" . ");
    s.append(body.as_str());
    proof {
        reveal_strlit(" . ");
        assert(" . "@ =~= embed_sep());
        assert(s@ =~= title@ + embed_sep() + body@);
    }
    s
}

pub open spec fn embed_sep() -> Seq<char> {
    seq![' ', '.', ' ']
}

// ---------------------------------------------------------------------
// Single insert
// ---------------------------------------------------------------------

/// Single insert: validates the input, assigns the next id, and
/// appends the record with the embedded vector.  A rejected input
/// leaves the store untouched and allocates no id.
pub fn insert_review(store: &mut Store, input: &ReviewInput, vector: &Vec<u32>) -> (r: Result<
    ApiResponse,
    ApiError,
>)
    requires
        old(store).wf(),
        vector@.len() == old(store).dim,
    ensures
        valid_input(*input) ==> {
            &&& r matches Ok(resp) && resp.success && resp.id as nat == old(store).rec_count()
            &&& final(store).wf()
            &&& Store::appended(
                *old(store),
                *final(store),
                input_rec(*input, old(store).rec_count()),
                vector@,
            )
            &&& final(store).rec_count() == old(store).rec_count() + 1
            &&& final(store).record_at(old(store).rec_count() as int) == Some(
                input_rec(*input, old(store).rec_count()),
            )
            &&& forall|i: int|
                0 <= i < old(store).rec_count() ==> final(store).record_at(i) == old(
                    store,
                ).record_at(i)
        },
        !valid_input(*input) ==> {
            &&& r matches Err(ApiError::ValidationError(_))
            &&& *final(store) == *old(store)
        },
{
    if !validate_review(input) {
        return Err(ApiError::ValidationError(String::from_str("title/body cannot be empty")));
    }
    let id = store.next_id();
    let meta = ReviewMeta { id, title: input.title.clone(), body: input.body.clone() };
    match store.append_review(vector, &meta) {
        Ok(aid) => Ok(ApiResponse { id: aid, success: true }),
        Err(_) => Err(ApiError::InternalError(String::from_str("store append failed"))),
    }
}

// ---------------------------------------------------------------------
// Bulk insert
// ---------------------------------------------------------------------

/// How many of the first `n` items pass validation.
pub open spec fn valid_count(items: Seq<ReviewInput>, n: int) -> nat
    decreases n,
{
    if n <= 0 {
        0
    } else {
        valid_count(items, n - 1) + (if valid_input(items[n - 1]) {
            1nat
        } else {
            0nat
        })
    }
}

pub open spec fn err_prefix() -> Seq<char> {
    seq!['i', 't', 'e', 'm', ' ']
}

pub open spec fn err_suffix() -> Seq<char> {
    seq![':', ' ', 'e', 'm', 'p', 't', 'y', ' ', 't', 'i', 't', 'l', 'e', ' ', 'o', 'r', ' ', 'b',
        'o', 'd', 'y']
}

/// The error reported for the rejected item at position `i`.
pub open spec fn item_err(i: nat) -> Seq<char> {
    err_prefix() + dec_chars(i) + err_suffix()
}

/// The errors reported for the first `n` items, in item order.
pub open spec fn error_lines(items: Seq<ReviewInput>, n: int) -> Seq<Seq<char>>
    decreases n,
{
    if n <= 0 {
        Seq::empty()
    } else {
        error_lines(items, n - 1) + (if valid_input(items[n - 1]) {
            Seq::empty()
        } else {
            seq![item_err((n - 1) as nat)]
        })
    }
}

/// The records the first `n` items append, in append order, with the
/// dense ids they receive.
pub open spec fn bulk_recs(items: Seq<ReviewInput>, base: nat, n: int) -> Seq<RecordView>
    decreases n,
{
    if n <= 0 {
        Seq::empty()
    } else {
        bulk_recs(items, base, n - 1) + (if valid_input(items[n - 1]) {
            seq![input_rec(items[n - 1], base + valid_count(items, n - 1))]
        } else {
            Seq::empty()
        })
    }
}

pub proof fn lemma_bulk_recs_len(items: Seq<ReviewInput>, base: nat, n: int)
    ensures
        bulk_recs(items, base, n).len() == valid_count(items, n),
    decreases n,
{
    if n > 0 {
        lemma_bulk_recs_len(items, base, n - 1);
    }
}

pub proof fn lemma_error_lines_len(items: Seq<ReviewInput>, n: int)
    requires
        n >= 0,
    ensures
        error_lines(items, n).len() == n - valid_count(items, n),
        valid_count(items, n) <= n,
    decreases n,
{
    if n > 0 {
        lemma_error_lines_len(items, n - 1);
    }
}

/// Bulk insert: each item is validated and appended on its own; a
/// rejected item is counted and reported, and processing continues.
/// The response's `inserted` is authoritative: exactly that many new
/// records exist afterwards, in item order, with dense ids.
pub fn insert_bulk_reviews(store: &mut Store, items: &Vec<ReviewInput>, vectors: &Vec<
    Vec<u32>,
>) -> (r: BulkInsertResponse)
    requires
        old(store).wf(),
        vectors@.len() == items@.len(),
        forall|i: int| 0 <= i < vectors@.len() ==> (#[trigger] vectors@[i])@.len() == old(
            store,
        ).dim,
    ensures
        final(store).wf(),
        final(store).dim == old(store).dim,
        r.inserted as nat == valid_count(items@, items@.len() as int),
        (r.inserted as int) + (r.failed as int) == items@.len(),
        r.errors@.len() == r.failed as nat,
        forall|j: int|
            0 <= j < r.errors@.len() ==> (#[trigger] r.errors@[j])@ == error_lines(
                items@,
                items@.len() as int,
            )[j],
        final(store).rec_count() == old(store).rec_count() + valid_count(
            items@,
            items@.len() as int,
        ),
        forall|k: int|
            0 <= k < old(store).rec_count() ==> final(store).record_at(k) == old(store).record_at(
                k,
            ),
        forall|j: int|
            0 <= j < valid_count(items@, items@.len() as int) ==> final(store).record_at(
                old(store).rec_count() + j,
            ) == Some(bulk_recs(items@, old(store).rec_count(), items@.len() as int)[j]),
{
    let ghost pre = *old(store);
    let mut inserted: usize = 0;
    let mut failed: usize = 0;
    let mut errors: Vec<String> = Vec::new();
    let n = items.len();
    let mut i: usize = 0;
    while i < n
        invariant
            i <= n,
            n == items@.len(),
            vectors@.len() == items@.len(),
            forall|t: int| 0 <= t < vectors@.len() ==> (#[trigger] vectors@[t])@.len() == pre.dim,
            store.wf(),
            store.dim == pre.dim,
            inserted as nat == valid_count(items@, i as int),
            inserted <= i,
            (inserted as int) + (failed as int) == i,
            errors@.len() == failed as nat,
            forall|j: int|
                0 <= j < errors@.len() ==> (#[trigger] errors@[j])@ == error_lines(
                    items@,
                    i as int,
                )[j],
            store.rec_count() == pre.rec_count() + inserted,
            forall|k: int| 0 <= k < pre.rec_count() ==> store.record_at(k) == pre.record_at(k),
            forall|j: int|
                0 <= j < inserted ==> store.record_at(pre.rec_count() + j) == Some(
                    bulk_recs(items@, pre.rec_count(), i as int)[j],
                ),
        decreases n - i,
    {
        let item = &items[i];
        let ghost old_inserted = inserted as nat;
        let ghost old_store = *store;
        if validate_review(item) {
            let id = store.next_id();
            let meta = ReviewMeta { id, title: item.title.clone(), body: item.body.clone() };
            proof {
                assert(vectors@[i as int]@.len() == pre.dim);
            }
            let res = store.append_review(&vectors[i], &meta);
            inserted = inserted + 1;
            proof {
                lemma_bulk_recs_len(items@, pre.rec_count(), i as int);
                assert(valid_count(items@, i + 1) == valid_count(items@, i as int) + 1);
                assert(error_lines(items@, i + 1) =~= error_lines(items@, i as int));
                let brs = bulk_recs(items@, pre.rec_count(), i + 1);
                assert(brs =~= bulk_recs(items@, pre.rec_count(), i as int) + seq![
                    input_rec(items@[i as int], pre.rec_count() + old_inserted),
                ]);
                assert(meta@ == input_rec(items@[i as int], pre.rec_count() + old_inserted));
                assert forall|j: int| 0 <= j < inserted implies store.record_at(
                    pre.rec_count() + j,
                ) == Some(brs[j]) by {
                    if j < old_inserted {
                        assert(brs[j] == bulk_recs(items@, pre.rec_count(), i as int)[j]);
                        assert(old_store.record_at(pre.rec_count() + j) == Some(brs[j]));
                    } else {
                        assert(j == old_inserted);
                        assert(brs[j] == input_rec(items@[i as int], pre.rec_count()
                            + old_inserted));
                    }
                }
            }
        } else {
            failed = failed + 1;
            let mut e: Vec<char> = Vec::new();
            e.push('i');
            e.push('t');
            e.push('e');
            e.push('m');
            e.push(' ');
            push_dec(&mut e, i);
            e.push(':');
            e.push(' ');
            e.push('e');
            e.push('m');
            e.push('p');
            e.push('t');
            e.push('y');
            e.push(' ');
            e.push('t');
            e.push('i');
            e.push('t');
            e.push('l');
            e.push('e');
            e.push(' ');
            e.push('o');
            e.push('r');
            e.push(' ');
            e.push('b');
            e.push('o');
            e.push('d');
            e.push('y');
            let es = string_of_chars(&e);
            let ghost old_errors = errors@;
            errors.push(es);
            proof {
                lemma_error_lines_len(items@, i as int);
                assert(e@ =~= item_err(i as nat));
                assert(valid_count(items@, i + 1) == valid_count(items@, i as int));
                assert(bulk_recs(items@, pre.rec_count(), i + 1) =~= bulk_recs(
                    items@,
                    pre.rec_count(),
                    i as int,
                ));
                let el = error_lines(items@, i + 1);
                assert(el =~= error_lines(items@, i as int) + seq![item_err(i as nat)]);
                assert forall|j: int| 0 <= j < errors@.len() implies (#[trigger] errors@[j])@
                    == el[j] by {
                    if j < old_errors.len() {
                        assert(errors@[j] == old_errors[j]);
                        assert(el[j] == error_lines(items@, i as int)[j]);
                    } else {
                        assert(errors@[j] == es);
                        assert(el[j] == item_err(i as nat));
                    }
                }
            }
        }
        i = i + 1;
    }
    BulkInsertResponse { inserted, failed, errors }
}

// ---------------------------------------------------------------------
// Search
// ---------------------------------------------------------------------

/// The search result built from a resolved record and its score.
pub open spec fn hit_view(rec: RecordView, score: u32) -> SearchResultView {
    SearchResultView { id: rec.id, title: rec.title, body: rec.body, score_bits: score }
}

/// Resolving the first `n` hits against the store: a hit whose id has
/// no offset entry is dropped; a hit whose line does not decode makes
/// the whole resolution fail.
pub open spec fn resolve_hits(s: Store, hits: Seq<(usize, u32)>, n: int) -> Option<
    Seq<SearchResultView>,
>
    decreases n,
{
    if n <= 0 {
        Some(Seq::empty())
    } else {
        match resolve_hits(s, hits, n - 1) {
            None => None,
            Some(acc) => {
                if hits[n - 1].0 as nat >= s.rec_count() {
                    Some(acc)
                } else {
                    match s.record_at(hits[n - 1].0 as int) {
                        Some(rec) => Some(acc + seq![hit_view(rec, hits[n - 1].1)]),
                        None => None,
                    }
                }
            },
        }
    }
}

impl SearchInput {
    /// The number of hits to ask the index for: the caller's `top_k`,
    /// or the default when unspecified.
    pub fn effective_k(&self) -> (r: usize)
        ensures
            r == (match self.top_k {
                Some(k) => k,
                None => DEFAULT_TOP_K,
            }),
    {
        match self.top_k {
            Some(k) => k,
            None => DEFAULT_TOP_K,
        }
    }
}

proof fn lemma_resolve_none_prop(s: Store, hits: Seq<(usize, u32)>, n0: int, n: int)
    requires
        n0 <= n,
        resolve_hits(s, hits, n0) is None,
    ensures
        resolve_hits(s, hits, n) is None,
    decreases n - n0,
{
    if n > n0 {
        lemma_resolve_none_prop(s, hits, n0, n - 1);
    }
}

/// Search: resolves the index's ranked hits to stored records.  A hit
/// whose id the store does not know is silently dropped — the result
/// is then shorter than the hit list — while a record whose line does
/// not decode (corruption) fails the whole request.
pub fn search_reviews(store: &Store, hits: &Vec<(usize, u32)>) -> (r: Result<
    Vec<SearchResult>,
    ApiError,
>)
    requires
        store.wf(),
    ensures
        match r {
            Ok(res) => resolve_hits(*store, hits@, hits@.len() as int) == Some(
                res@.map_values(|x: SearchResult| x@),
            ),
            Err(e) => resolve_hits(*store, hits@, hits@.len() as int) is None && e matches
                ApiError::InternalError(_),
        },
{
    let mut out: Vec<SearchResult> = Vec::new();
    let n = hits.len();
    let mut i: usize = 0;
    proof {
        assert(Seq::<SearchResult>::empty().map_values(|x: SearchResult| x@) =~= Seq::<
            SearchResultView,
        >::empty());
    }
    while i < n
        invariant
            i <= n,
            n == hits@.len(),
            store.wf(),
            resolve_hits(*store, hits@, i as int) == Some(
                out@.map_values(|x: SearchResult| x@),
            ),
        decreases n - i,
    {
        let h = hits[i];
        let ghost old_out = out@;
        match store.load_meta(h.0) {
            Ok(m) => {
                out.push(
                    SearchResult { id: m.id, title: m.title, body: m.body, score_bits: h.1 },
                );
                proof {
                    let rec = store.record_at(h.0 as int)->Some_0;
                    assert(out@.map_values(|x: SearchResult| x@) =~= old_out.map_values(
                        |x: SearchResult| x@,
                    ) + seq![hit_view(rec, h.1)]);
                }
            },
            Err(e) => {
                match e {
                    crate::error::StoreError::NotFound => {
                        proof {
                            assert(h.0 as nat >= store.rec_count());
                        }
                    },
                    _ => {
                        proof {
                            assert((h.0 as nat) < store.rec_count());
                            assert(store.record_at(h.0 as int) is None);
                            assert(resolve_hits(*store, hits@, i + 1) is None);
                            lemma_resolve_none_prop(*store, hits@, i + 1, hits@.len() as int);
                        }
                        return Err(
                            ApiError::InternalError(
                                String::from_str("corrupt metadata behind a search hit"),
                            ),
                        );
                    },
                }
            },
        }
        i = i + 1;
    }
    Ok(out)
}

} // verus!
