//! The co-store: append-only storage of vectors and metadata, keyed by
//! a dense integer id.
//!
//! The store holds the two logs as in-memory values — the vector log
//! as raw bytes, the metadata log as text — together with the offset
//! table that maps each record id to the position of its metadata line.
//! Durability is the caller's concern: whoever persists the logs writes
//! exactly the bytes this model appends, and reopening from the
//! persisted logs rebuilds the same offset table
//! ([`lemma_reopen_reproduces`]).
//!
//! Appends take `&mut self`, so Rust's exclusive borrow plays the role
//! of the append lock: two appends can never interleave, and the k-th
//! successful append receives id `k - 1`.

use vstd::prelude::*;

use crate::codec::{decode_rec, encode_rec, lemma_decode_encode, lemma_encode_no_nl, no_nl};
use crate::error::StoreError;
use crate::record::{RecordView, ReviewMeta};

verus! {

// ---------------------------------------------------------------------
// Vector bytes
// ---------------------------------------------------------------------

/// The four little-endian bytes of one 32-bit word.
pub open spec fn u32_le_bytes(w: u32) -> Seq<u8> {
    seq![(w & 0xff) as u8, ((w >> 8) & 0xff) as u8, ((w >> 16) & 0xff) as u8, ((w >> 24)
        & 0xff) as u8]
}

/// The vector log bytes of a vector: each word as four little-endian
/// bytes, in order.
pub open spec fn le_bytes(ws: Seq<u32>) -> Seq<u8>
    decreases ws.len(),
{
    if ws.len() == 0 {
        Seq::empty()
    } else {
        u32_le_bytes(ws[0]) + le_bytes(ws.skip(1))
    }
}

proof fn lemma_le_bytes_len(ws: Seq<u32>)
    ensures
        le_bytes(ws).len() == 4 * ws.len(),
    decreases ws.len(),
{
    if ws.len() > 0 {
        lemma_le_bytes_len(ws.skip(1));
    }
}

proof fn lemma_le_bytes_snoc(ws: Seq<u32>, w: u32)
    ensures
        le_bytes(ws.push(w)) == le_bytes(ws) + u32_le_bytes(w),
    decreases ws.len(),
{
    if ws.len() == 0 {
        assert(ws.push(w)[0] == w);
        assert(ws.push(w).skip(1) =~= Seq::<u32>::empty());
        assert(le_bytes(Seq::<u32>::empty()) =~= Seq::<u8>::empty());
        assert(le_bytes(ws.push(w)) =~= u32_le_bytes(w));
        assert(le_bytes(ws) + u32_le_bytes(w) =~= u32_le_bytes(w));
    } else {
        assert(ws.push(w)[0] == ws[0]);
        assert(ws.push(w).skip(1) =~= ws.skip(1).push(w));
        lemma_le_bytes_snoc(ws.skip(1), w);
        assert(u32_le_bytes(ws[0]) + (le_bytes(ws.skip(1)) + u32_le_bytes(w)) =~= (u32_le_bytes(
            ws[0],
        ) + le_bytes(ws.skip(1))) + u32_le_bytes(w));
    }
}

/// Serializes a vector as the bytes it occupies in the vector log.
pub fn vector_bytes(v: &Vec<u32>) -> (r: Vec<u8>)
    ensures
        r@ == le_bytes(v@),
        r@.len() == 4 * v@.len(),
{
    let mut out: Vec<u8> = Vec::new();
    let mut i: usize = 0;
    while i < v.len()
        invariant
            i <= v.len(),
            out@ == le_bytes(v@.subrange(0, i as int)),
        decreases v.len() - i,
    {
        let w = v[i];
        out.push((w & 0xff) as u8);
        out.push(((w >> 8) & 0xff) as u8);
        out.push(((w >> 16) & 0xff) as u8);
        out.push(((w >> 24) & 0xff) as u8);
        proof {
            lemma_le_bytes_snoc(v@.subrange(0, i as int), v@[i as int]);
            assert(v@.subrange(0, i as int).push(v@[i as int]) =~= v@.subrange(0, i + 1));
            assert(out@ =~= le_bytes(v@.subrange(0, i as int)) + u32_le_bytes(v@[i as int]));
        }
        i = i + 1;
    }
    proof {
        assert(v@.subrange(0, v@.len() as int) =~= v@);
        lemma_le_bytes_len(v@);
    }
    out
}

// ---------------------------------------------------------------------
// Lines of the metadata log
// ---------------------------------------------------------------------

/// A log is clean when it is empty or ends with a newline, i.e. it has
/// no unterminated trailing line.
pub open spec fn clean(log: Seq<char>) -> bool {
    log.len() == 0 || log[log.len() - 1] == '\n'
}

/// The position of the first newline at or after `i`, or the log's
/// length if there is none.
pub open spec fn find_nl(log: Seq<char>, i: int) -> int
    decreases log.len() - i,
{
    if i < 0 || i >= log.len() {
        log.len() as int
    } else if log[i] == '\n' {
        i
    } else {
        find_nl(log, i + 1)
    }
}

/// The starting positions of the complete (newline-terminated) lines
/// of `log[i..]`, scanning with `cur` as the start of the line being
/// scanned.
pub open spec fn line_starts_from(log: Seq<char>, i: int, cur: int) -> Seq<int>
    decreases log.len() - i,
{
    if i < 0 || i >= log.len() {
        Seq::empty()
    } else if log[i] == '\n' {
        seq![cur] + line_starts_from(log, i + 1, i + 1)
    } else {
        line_starts_from(log, i + 1, cur)
    }
}

/// The starting positions of the complete lines of the log: the offset
/// table that opening the log rebuilds.
pub open spec fn line_starts(log: Seq<char>) -> Seq<int> {
    line_starts_from(log, 0, 0)
}

pub open spec fn as_ints(s: Seq<usize>) -> Seq<int> {
    s.map_values(|x: usize| x as int)
}

proof fn lemma_find_nl_bounds(log: Seq<char>, i: int)
    requires
        0 <= i,
    ensures
        find_nl(log, i) <= log.len(),
        i <= log.len() ==> i <= find_nl(log, i),
        find_nl(log, i) < log.len() ==> log[find_nl(log, i)] == '\n',
        forall|j: int| i <= j < find_nl(log, i) ==> log[j] != '\n',
    decreases log.len() - i,
{
    if i < log.len() && log[i] != '\n' {
        lemma_find_nl_bounds(log, i + 1);
    }
}

proof fn lemma_find_nl_append(log: Seq<char>, ext: Seq<char>, i: int)
    requires
        0 <= i,
        find_nl(log, i) < log.len(),
    ensures
        find_nl(log + ext, i) == find_nl(log, i),
    decreases log.len() - i,
{
    if i >= log.len() {
        assert(find_nl(log, i) == log.len());
    }
    assert(i < log.len());
    lemma_find_nl_bounds(log, i);
    assert((log + ext)[i] == log[i]);
    if log[i] != '\n' {
        lemma_find_nl_append(log, ext, i + 1);
    }
}

/// Every entry of the line-start table points at a line that is
/// terminated inside the log.
proof fn lemma_from_entries(log: Seq<char>, i: int, cur: int)
    requires
        0 <= cur <= i <= log.len(),
        forall|j: int| cur <= j < i ==> log[j] != '\n',
    ensures
        forall|k: int|
            0 <= k < line_starts_from(log, i, cur).len() ==> {
                &&& cur <= #[trigger] line_starts_from(log, i, cur)[k] < log.len()
                &&& find_nl(log, line_starts_from(log, i, cur)[k]) < log.len()
            },
    decreases log.len() - i,
{
    if i >= log.len() {
    } else if log[i] == '\n' {
        lemma_find_nl_bounds(log, cur);
        assert(find_nl(log, cur) <= i) by {
            if find_nl(log, cur) > i {
                assert(log[i] != '\n');
            }
        }
        lemma_from_entries(log, i + 1, i + 1);
        let st = line_starts_from(log, i, cur);
        let tail = line_starts_from(log, i + 1, i + 1);
        assert(st == seq![cur] + tail);
        assert forall|k: int| 0 <= k < st.len() implies {
            &&& cur <= #[trigger] st[k] < log.len()
            &&& find_nl(log, st[k]) < log.len()
        } by {
            if k == 0 {
                assert(st[0] == cur);
            } else {
                assert(st[k] == tail[k - 1]);
            }
        }
    } else {
        lemma_from_entries(log, i + 1, cur);
        let st = line_starts_from(log, i, cur);
        assert(st == line_starts_from(log, i + 1, cur));
        assert forall|k: int| 0 <= k < st.len() implies {
            &&& cur <= #[trigger] st[k] < log.len()
            &&& find_nl(log, st[k]) < log.len()
        } by {
            assert(st[k] == line_starts_from(log, i + 1, cur)[k]);
        }
    }
}

/// Appending one newline-free line plus its newline to a clean log
/// extends its line-start table by exactly the old length.
proof fn lemma_line_starts_append(log: Seq<char>, line: Seq<char>, i: int, cur: int)
    requires
        clean(log),
        no_nl(line),
        0 <= cur <= i <= log.len(),
        i == log.len() ==> cur == log.len(),
    ensures
        line_starts_from(log + line + seq!['\n'], i, cur) == line_starts_from(log, i, cur).push(
            log.len() as int,
        ),
    decreases log.len() - i,
{
    let log2 = log + line + seq!['\n'];
    if i == log.len() {
        lemma_line_starts_tail(log, line, i, cur);
        assert(line_starts_from(log, i, cur) =~= Seq::<int>::empty());
        assert(line_starts_from(log, i, cur).push(log.len() as int) =~= seq![log.len() as int]);
    } else {
        assert(log2[i] == log[i]);
        if log[i] == '\n' {
            lemma_line_starts_append(log, line, i + 1, i + 1);
            assert(seq![cur] + line_starts_from(log, i + 1, i + 1).push(log.len() as int) =~= (seq![
                cur,
            ] + line_starts_from(log, i + 1, i + 1)).push(log.len() as int));
        } else {
            if i + 1 == log.len() {
                assert(log[log.len() - 1] != '\n');
                assert(false);
            }
            lemma_line_starts_append(log, line, i + 1, cur);
        }
    }
}

/// Scanning the appended region: from the old end of the log, exactly
/// one complete line remains, and it starts at `cur`.
proof fn lemma_line_starts_tail(log: Seq<char>, line: Seq<char>, i: int, cur: int)
    requires
        no_nl(line),
        log.len() <= i <= log.len() + line.len(),
        0 <= cur,
    ensures
        line_starts_from(log + line + seq!['\n'], i, cur) == seq![cur],
    decreases log.len() + line.len() - i,
{
    let log2 = log + line + seq!['\n'];
    if i < log.len() + line.len() {
        assert(log2[i] == line[i - log.len()]);
        lemma_line_starts_tail(log, line, i + 1, cur);
    } else {
        assert(log2[i] == '\n');
        assert(line_starts_from(log2, i + 1, i + 1) =~= Seq::<int>::empty());
        assert(seq![cur] + line_starts_from(log2, i + 1, i + 1) =~= seq![cur]);
    }
}

// ---------------------------------------------------------------------
// The store
// ---------------------------------------------------------------------

/// The co-store: the two logs and the offset table.
pub struct Store {
    /// The fixed dimension of every stored vector, in 32-bit words.
    pub dim: usize,
    /// The vector log: `dim * 4` bytes per record, no delimiters.
    pub vec_log: Vec<u8>,
    /// The metadata log: one encoded line per record, each terminated
    /// by a newline.
    pub meta_log: Vec<char>,
    /// The offset table: entry `i` is the position in the metadata log
    /// at which record `i`'s line begins.
    pub offsets: Vec<usize>,
}

impl Store {
    /// Well-formedness: the offset table is exactly the table that
    /// scanning the metadata log rebuilds, the log has no unterminated
    /// tail, and the vector log holds exactly one vector per record.
    pub open spec fn wf(self) -> bool {
        &&& 1 <= self.dim
        &&& self.dim * 4 <= usize::MAX
        &&& clean(self.meta_log@)
        &&& as_ints(self.offsets@) == line_starts(self.meta_log@)
        &&& self.vec_log@.len() == self.offsets@.len() * (self.dim as int) * 4
    }

    /// The number of records: the length of the offset table.
    pub open spec fn rec_count(self) -> nat {
        self.offsets@.len()
    }

    /// The metadata line of record `i`, without its newline.
    pub open spec fn rec_line(self, i: int) -> Seq<char> {
        self.meta_log@.subrange(
            self.offsets@[i] as int,
            find_nl(self.meta_log@, self.offsets@[i] as int),
        )
    }

    /// The record stored at id `i`: `Some` when its line decodes.
    pub open spec fn record_at(self, i: int) -> Option<RecordView> {
        decode_rec(self.rec_line(i))
    }

    /// How an append changes the store: both logs grow by exactly one
    /// record and the offset table by one entry.
    pub open spec fn appended(pre: Store, post: Store, rec: RecordView, vec: Seq<u32>) -> bool {
        &&& post.dim == pre.dim
        &&& post.meta_log@ == pre.meta_log@ + encode_rec(rec) + seq!['\n']
        &&& post.offsets@ == pre.offsets@.push(pre.meta_log@.len() as usize)
        &&& post.vec_log@ == pre.vec_log@ + le_bytes(vec)
    }

    /// The id the next successful append will assign: derived from the
    /// offset table's length, never from a separate counter.
    pub fn next_id(&self) -> (r: usize)
        ensures
            r as nat == self.rec_count(),
    {
        self.offsets.len()
    }

    /// Opens a store from the two persisted logs, rebuilding the offset
    /// table by a sequential scan of the metadata log.  Fails with
    /// `Misaligned` when the metadata log ends in an incomplete line or
    /// the vector log's length does not match the number of complete
    /// metadata lines — the operator-visible crash residue of an append
    /// that stopped between its two log writes.
    pub fn new(dim: usize, vec_log: Vec<u8>, meta_log: Vec<char>) -> (r: Result<Store, StoreError>)
        requires
            1 <= dim,
            dim * 4 <= usize::MAX,
        ensures
            ({
                let ok = clean(meta_log@) && vec_log@.len() == line_starts(meta_log@).len() * (
                dim as int) * 4;
                match r {
                    Ok(s) => ok && s.wf() && s.dim == dim && s.meta_log@ == meta_log@ && s.vec_log@
                        == vec_log@ && as_ints(s.offsets@) == line_starts(meta_log@),
                    Err(e) => !ok && e == StoreError::Misaligned,
                }
            }),
    {
        let n = meta_log.len();
        let mut offsets: Vec<usize> = Vec::new();
        let mut line_start: usize = 0;
        let mut j: usize = 0;
        proof {
            assert(as_ints(offsets@) =~= Seq::<int>::empty());
            assert(Seq::<int>::empty() + line_starts_from(meta_log@, 0, 0) =~= line_starts_from(
                meta_log@,
                0,
                0,
            ));
        }
        while j < n
            invariant
                line_start <= j <= n,
                n == meta_log@.len(),
                line_starts(meta_log@) == as_ints(offsets@) + line_starts_from(
                    meta_log@,
                    j as int,
                    line_start as int,
                ),
            decreases n - j,
        {
            if meta_log[j] == '\n' {
                let ghost pre = offsets@;
                offsets.push(line_start);
                proof {
                    assert(as_ints(pre.push(line_start)) =~= as_ints(pre).push(line_start as int));
                    assert(as_ints(pre) + (seq![line_start as int] + line_starts_from(
                        meta_log@,
                        j + 1,
                        j + 1,
                    )) =~= as_ints(pre).push(line_start as int) + line_starts_from(
                        meta_log@,
                        j + 1,
                        j + 1,
                    ));
                }
                line_start = j + 1;
            }
            j = j + 1;
        }
        proof {
            assert(line_starts_from(meta_log@, n as int, line_start as int) =~= Seq::<int>::empty());
            assert(as_ints(offsets@) + Seq::<int>::empty() =~= as_ints(offsets@));
            assert(line_starts(meta_log@) == as_ints(offsets@));
        }
        let clean_ok = n == 0 || meta_log[n - 1] == '\n';
        proof {
            assert(clean_ok == clean(meta_log@));
        }
        let rec_size = dim * 4;
        let count = offsets.len();
        let aligned = vec_log.len() / rec_size == count && vec_log.len() % rec_size == 0;
        proof {
            assert(count as int * (dim as int) * 4 == (count as int) * (rec_size as int))
                by (nonlinear_arith)
                requires
                    rec_size as int == (dim as int) * 4,
            {}
            assert(as_ints(offsets@).len() == offsets@.len());
            assert(line_starts(meta_log@).len() == count as int);
            vstd::arithmetic::div_mod::lemma_fundamental_div_mod(
                vec_log@.len() as int,
                rec_size as int,
            );
            if aligned {
                assert(vec_log@.len() == (rec_size as int) * (count as int));
                assert(vec_log@.len() == count as int * (dim as int) * 4);
            }
            if !aligned && vec_log@.len() == count as int * (dim as int) * 4 {
                vstd::arithmetic::div_mod::lemma_fundamental_div_mod_converse(
                    vec_log@.len() as int,
                    rec_size as int,
                    count as int,
                    0,
                );
            }
        }
        if clean_ok && aligned {
            Ok(Store { dim, vec_log, meta_log, offsets })
        } else {
            Err(StoreError::Misaligned)
        }
    }

    /// Appends one record: the vector's bytes to the vector log, the
    /// encoded metadata line to the metadata log, and the line's start
    /// to the offset table, as one atomic step under the exclusive
    /// borrow.  Returns the record's id, which must be the one the
    /// offset table's current length assigns.
    pub fn append_review(&mut self, vector: &Vec<u32>, meta: &ReviewMeta) -> (r: Result<
        usize,
        StoreError,
    >)
        requires
            old(self).wf(),
            vector@.len() == old(self).dim,
            meta.id as nat == old(self).rec_count(),
        ensures
            r matches Ok(id) && id == meta.id,
            final(self).wf(),
            Store::appended(*old(self), *final(self), meta@, vector@),
            final(self).rec_count() == old(self).rec_count() + 1,
            final(self).record_at(old(self).rec_count() as int) == Some(meta@),
            forall|i: int|
                0 <= i < old(self).rec_count() ==> final(self).record_at(i) == old(
                    self,
                ).record_at(i) && final(self).rec_line(i) == old(self).rec_line(i),
    {
        let ghost pre = *self;
        let line = crate::codec::encode_meta(meta);
        let bytes = vector_bytes(vector);
        let off = self.meta_log.len();

        // The vector log grows by one record.
        let mut bi: usize = 0;
        while bi < bytes.len()
            invariant
                bi <= bytes.len(),
                self.vec_log@ == pre.vec_log@ + bytes@.subrange(0, bi as int),
                self.meta_log == pre.meta_log,
                self.offsets == pre.offsets,
                self.dim == pre.dim,
            decreases bytes.len() - bi,
        {
            self.vec_log.push(bytes[bi]);
            proof {
                assert(bytes@.subrange(0, bi as int).push(bytes@[bi as int]) =~= bytes@.subrange(
                    0,
                    bi + 1,
                ));
                assert(self.vec_log@ =~= pre.vec_log@ + bytes@.subrange(0, bi + 1));
            }
            bi = bi + 1;
        }
        proof {
            assert(bytes@.subrange(0, bytes@.len() as int) =~= bytes@);
        }

        // The metadata log grows by one line.
        let mut li: usize = 0;
        while li < line.len()
            invariant
                li <= line.len(),
                self.meta_log@ == pre.meta_log@ + line@.subrange(0, li as int),
                self.vec_log@ == pre.vec_log@ + bytes@,
                self.offsets == pre.offsets,
                self.dim == pre.dim,
            decreases line.len() - li,
        {
            self.meta_log.push(line[li]);
            proof {
                assert(line@.subrange(0, li as int).push(line@[li as int]) =~= line@.subrange(
                    0,
                    li + 1,
                ));
                assert(self.meta_log@ =~= pre.meta_log@ + line@.subrange(0, li + 1));
            }
            li = li + 1;
        }
        proof {
            assert(line@.subrange(0, line@.len() as int) =~= line@);
        }
        self.meta_log.push('\n');
        self.offsets.push(off);
        proof {
            assert(self.meta_log@ =~= pre.meta_log@ + encode_rec(meta@) + seq!['\n']);
            assert(self.offsets@ =~= pre.offsets@.push(off));
            assert(Store::appended(pre, *self, meta@, vector@));
            lemma_append_round_trip(pre, *self, meta@, vector@);
        }
        Ok(meta.id)
    }

    /// Looks up record `vid`'s metadata: `NotFound` when `vid` has no
    /// offset entry, `CorruptData` when its line does not decode.
    pub fn load_meta(&self, vid: usize) -> (r: Result<ReviewMeta, StoreError>)
        requires
            self.wf(),
        ensures
            vid as nat >= self.rec_count() ==> (r matches Err(e) && e == StoreError::NotFound),
            (vid as nat) < self.rec_count() ==> (match self.record_at(vid as int) {
                Some(rec) => r matches Ok(m) && m@ == rec,
                None => r matches Err(e) && e == StoreError::CorruptData,
            }),
    {
        if vid >= self.offsets.len() {
            return Err(StoreError::NotFound);
        }
        let off = self.offsets[vid];
        let n = self.meta_log.len();
        proof {
            lemma_from_entries(self.meta_log@, 0, 0);
            assert(line_starts(self.meta_log@)[vid as int] == off as int);
            lemma_find_nl_bounds(self.meta_log@, off as int);
        }
        let ghost nl = find_nl(self.meta_log@, off as int);
        let mut j = off;
        let mut line: Vec<char> = Vec::new();
        proof {
            assert(line@ =~= self.meta_log@.subrange(off as int, off as int));
        }
        while j < n && self.meta_log[j] != '\n'
            invariant
                off as int <= j as int, j as int <= nl, nl < n,
                n == self.meta_log@.len(),
                nl == find_nl(self.meta_log@, off as int),
                self.meta_log@[nl] == '\n',
                forall|t: int| off <= t < nl ==> self.meta_log@[t] != '\n',
                line@ == self.meta_log@.subrange(off as int, j as int),
            decreases n - j,
        {
            line.push(self.meta_log[j]);
            proof {
                assert(self.meta_log@.subrange(off as int, j as int).push(
                    self.meta_log@[j as int],
                ) =~= self.meta_log@.subrange(off as int, j + 1));
                assert((j as int) < nl);
            }
            j = j + 1;
        }
        proof {
            assert(j as int == nl);
            assert(line@ == self.rec_line(vid as int));
        }
        crate::codec::decode_line(&line)
    }
}

/// Scanning the log right after an append of a newline-free line: the
/// first newline at or after the old end is the appended one.
proof fn lemma_scan_line(log: Seq<char>, line: Seq<char>, k: int)
    requires
        no_nl(line),
        0 <= k <= line.len(),
    ensures
        find_nl(log + line + seq!['\n'], log.len() + k) == log.len() + line.len(),
    decreases line.len() - k,
{
    let log2 = log + line + seq!['\n'];
    if k == line.len() {
        assert(log2[log.len() + k] == '\n');
    } else {
        assert(log2[log.len() + k] == line[k]);
        lemma_scan_line(log, line, k + 1);
    }
}


/// Alignment and round trip: one append onto a well-formed store
/// yields a well-formed store with exactly one more offset entry, the
/// record read back at the assigned id is exactly the appended
/// metadata, and every previously stored record reads back unchanged.
/// By induction over a sequence of appends, the offset table has one
/// entry per append and each id answers with that append's metadata.
pub proof fn lemma_append_round_trip(pre: Store, post: Store, rec: RecordView, vec: Seq<u32>)
    requires
        pre.wf(),
        rec.id == pre.rec_count(),
        rec.id <= usize::MAX,
        vec.len() == pre.dim,
        Store::appended(pre, post, rec, vec),
    ensures
        post.wf(),
        post.rec_count() == pre.rec_count() + 1,
        post.record_at(rec.id as int) == Some(rec),
        forall|i: int|
            0 <= i < pre.rec_count() ==> post.record_at(i) == pre.record_at(i) && post.rec_line(i)
                == pre.rec_line(i),
{
    vstd::std_specs::vec::axiom_spec_len(&pre.meta_log);
    let log = pre.meta_log@;
    let log2 = post.meta_log@;
    let enc = encode_rec(rec);
    let off = pre.meta_log@.len() as usize;
    assert(log2 =~= log + enc + seq!['\n']);
    lemma_encode_no_nl(rec);

    // The offset table is still the log's line-start table, and the
    // extended log is still clean.
    lemma_line_starts_append(log, enc, 0, 0);
    assert(as_ints(post.offsets@) =~= as_ints(pre.offsets@).push(off as int));
    assert(log2[log2.len() - 1] == '\n');

    // Vector-log length: one more record of dim * 4 bytes.
    lemma_le_bytes_len(vec);
    assert(post.vec_log@.len() == (pre.offsets@.len() + 1) * (pre.dim as int) * 4)
        by (nonlinear_arith)
        requires
            post.vec_log@.len() == pre.vec_log@.len() + 4 * (pre.dim as int),
            pre.vec_log@.len() == pre.offsets@.len() * (pre.dim as int) * 4,
    {}

    // The new record's line is exactly the encoded line.
    let nl2 = find_nl(log2, log.len() as int);
    lemma_scan_line(log, enc, 0);
    assert(nl2 == log.len() + enc.len());
    assert(log2.subrange(log.len() as int, nl2) =~= enc);
    lemma_decode_encode(rec);
    assert(post.offsets@[rec.id as int] == off);

    // Old records are untouched.
    lemma_from_entries(log, 0, 0);
    assert forall|i: int| 0 <= i < pre.rec_count() implies post.rec_line(i) == pre.rec_line(
        i,
    ) by {
        assert(post.offsets@[i] == pre.offsets@[i]);
        let oi = pre.offsets@[i] as int;
        assert(line_starts(log)[i] == oi);
        lemma_find_nl_append(log, enc + seq!['\n'], oi);
        assert(log + (enc + seq!['\n']) =~= log2);
        let e = find_nl(log, oi);
        lemma_find_nl_bounds(log, oi);
        assert(log2.subrange(oi, e) =~= log.subrange(oi, e));
    }
}

/// Id monotonicity: two consecutive successful appends assign
/// consecutive ids — so the ids handed out by a store form the
/// sequence 0, 1, 2, … with no gaps and no repeats.
pub proof fn lemma_ids_consecutive(
    s0: Store,
    s1: Store,
    s2: Store,
    r1: RecordView,
    v1: Seq<u32>,
    r2: RecordView,
    v2: Seq<u32>,
)
    requires
        r1.id == s0.rec_count(),
        Store::appended(s0, s1, r1, v1),
        r2.id == s1.rec_count(),
        Store::appended(s1, s2, r2, v2),
    ensures
        r2.id == r1.id + 1,
{
}

/// Persistence across reopen: a well-formed store's logs are accepted
/// by [`Store::new`], and the offset table it rebuilds from them is
/// exactly the store's current one — so every lookup answers as before.
pub proof fn lemma_reopen_reproduces(s: Store)
    requires
        s.wf(),
    ensures
        clean(s.meta_log@),
        s.vec_log@.len() == line_starts(s.meta_log@).len() * (s.dim as int) * 4,
        as_ints(s.offsets@) == line_starts(s.meta_log@),
{
}

} // verus!
