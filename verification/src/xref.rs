//! The cross-reference index: entries built while objects are emitted, the
//! partition into subsections of consecutive ids, and the exact bytes of the
//! classic table and of the stream encoding.

use vstd::prelude::*;
use crate::ser::{be16, be32, dec_digits, padded_dec};

verus! {

/// One cross-reference entry: a normal in-file object, an object stored in a
/// compressed container, or an explicitly free id.
pub enum XrefEntry {
    Normal { offset: u32, generation: u16 },
    Compressed { container: u32, index: u16 },
    Free,
}

/// The cross-reference index under construction: entries keyed by id, kept in
/// strictly ascending id order. Id 0 is reserved for the synthetic free head.
pub struct Xref {
    pub entries: Vec<(u32, XrefEntry)>,
    /// The total number of entries the finished file declares (`Size`).
    pub size: u32,
}

/// Entry ids are strictly ascending and at least 1.
pub open spec fn entries_wf(es: Seq<(u32, XrefEntry)>) -> bool {
    &&& forall|i: int, j: int| 0 <= i < j < es.len() ==> es[i].0 < es[j].0
    &&& forall|i: int| 0 <= i < es.len() ==> (#[trigger] es[i].0) >= 1
}

/// Inserting into the ordered entry list: replaces the entry of an id that is
/// already present, else places the new entry at its position in id order.
pub open spec fn spec_xref_insert(es: Seq<(u32, XrefEntry)>, id: u32, e: XrefEntry) -> Seq<
    (u32, XrefEntry),
>
    decreases es.len(),
{
    if es.len() == 0 {
        seq![(id, e)]
    } else if es.last().0 < id {
        es.push((id, e))
    } else if es.last().0 == id {
        es.update(es.len() - 1, (id, e))
    } else {
        spec_xref_insert(es.drop_last(), id, e).push(es.last())
    }
}

proof fn lemma_xref_insert_take(es: Seq<(u32, XrefEntry)>, id: u32, e: XrefEntry, p: int)
    requires
        0 <= p <= es.len(),
        forall|m: int| p <= m < es.len() ==> es[m].0 > id,
    ensures
        spec_xref_insert(es, id, e) =~= spec_xref_insert(es.take(p), id, e) + es.skip(p),
    decreases es.len() - p,
{
    if p == es.len() {
        assert(es.take(p) =~= es);
        assert(es.skip(p) =~= Seq::<(u32, XrefEntry)>::empty());
    } else {
        lemma_xref_insert_take(es.drop_last(), id, e, p);
        assert(es.drop_last().take(p) =~= es.take(p));
        assert(spec_xref_insert(es, id, e) == spec_xref_insert(es.drop_last(), id, e).push(
            es.last(),
        ));
        assert(spec_xref_insert(es.drop_last(), id, e).push(es.last()) =~= spec_xref_insert(
            es.take(p),
            id,
            e,
        ) + es.skip(p));
    }
}

impl Xref {
    pub open spec fn wf(self) -> bool {
        entries_wf(self.entries@)
    }

    /// A fresh, empty index that will declare `size` entries.
    pub fn new(size: u32) -> (x: Xref)
        ensures
            x.wf(),
            x.entries@.len() == 0,
            x.size == size,
    {
        Xref { entries: Vec::new(), size }
    }

    /// Record the entry for `id`, replacing any entry the id already has.
    pub fn insert(&mut self, id: u32, entry: XrefEntry)
        requires
            old(self).wf(),
            id >= 1,
        ensures
            final(self).wf(),
            final(self).entries@ == spec_xref_insert(old(self).entries@, id, entry),
            final(self).size == old(self).size,
    {
        let ghost es = self.entries@;
        let n = self.entries.len();
        let mut p = n;
        while p > 0 && self.entries[p - 1].0 > id
            invariant
                p <= n,
                n == es.len(),
                es == self.entries@,
                forall|m: int| p <= m < n ==> es[m].0 > id,
            decreases p,
        {
            p = p - 1;
        }
        proof {
            lemma_xref_insert_take(es, id, entry, p as int);
        }
        if p > 0 && self.entries[p - 1].0 == id {
            self.entries[p - 1] = (id, entry);
            proof {
                assert(es.take(p as int).last().0 == id);
                assert(spec_xref_insert(es.take(p as int), id, entry) =~= es.take(
                    p as int,
                ).update(p - 1, (id, entry)));
                assert(self.entries@ =~= spec_xref_insert(es, id, entry));
            }
        } else {
            self.entries.insert(p, (id, entry));
            proof {
                if p > 0 {
                    assert(es.take(p as int).last().0 < id);
                    assert(spec_xref_insert(es.take(p as int), id, entry) =~= es.take(
                        p as int,
                    ).push((id, entry)));
                } else {
                    assert(es.take(0).len() == 0);
                }
                assert(self.entries@ =~= spec_xref_insert(es, id, entry));
            }
        }
        proof {
            assert forall|i: int, j: int|
                0 <= i < j < self.entries@.len() implies self.entries@[i].0
                < self.entries@[j].0 by {}
        }
    }
}

// ---------------------------------------------------------------------------
// Subsection partition
// ---------------------------------------------------------------------------

proof fn lemma_id_lb_at(es: Seq<(u32, XrefEntry)>, k: int)
    requires
        entries_wf(es),
        0 <= k < es.len(),
    ensures
        es[k].0 >= k + 1,
    decreases k,
{
    if k > 0 {
        lemma_id_lb_at(es, k - 1);
        assert(es[k - 1].0 < es[k].0);
    }
}

/// In a well-formed entry list the id at position `k` is at least `k + 1`.
pub proof fn lemma_ids_lower_bound(es: Seq<(u32, XrefEntry)>)
    requires
        entries_wf(es),
    ensures
        forall|k: int| 0 <= k < es.len() ==> (#[trigger] es[k].0) >= k + 1,
{
    assert forall|k: int| 0 <= k < es.len() implies (#[trigger] es[k].0) >= k + 1 by {
        lemma_id_lb_at(es, k);
    }
}

/// How many further entries continue a run of consecutive ids after `prev`.
pub open spec fn run_ext(s: Seq<(u32, XrefEntry)>, prev: u32) -> nat
    decreases s.len(),
{
    if s.len() == 0 || s[0].0 != prev + 1 {
        0
    } else {
        1 + run_ext(s.drop_first(), s[0].0)
    }
}

/// The length of the maximal leading run of consecutive ids.
pub open spec fn run_len(s: Seq<(u32, XrefEntry)>) -> nat {
    if s.len() == 0 {
        0
    } else {
        1 + run_ext(s.drop_first(), s[0].0)
    }
}

pub proof fn lemma_run_ext_le(s: Seq<(u32, XrefEntry)>, prev: u32)
    ensures
        run_ext(s, prev) <= s.len(),
    decreases s.len(),
{
    if s.len() > 0 && s[0].0 == prev + 1 {
        lemma_run_ext_le(s.drop_first(), s[0].0);
    }
}

/// `run_ext` counts exactly the entries whose ids continue `prev + 1,
/// prev + 2, …` until the first break.
pub proof fn lemma_run_ext_char(s: Seq<(u32, XrefEntry)>, prev: u32, c: int)
    requires
        0 <= c <= s.len(),
        forall|k: int| 0 <= k < c ==> (#[trigger] s[k].0) == prev + 1 + k,
        c == s.len() || s[c as int].0 != prev + 1 + c,
    ensures
        run_ext(s, prev) == c,
    decreases c,
{
    if c == 0 {
    } else {
        assert(s[0].0 == prev + 1);
        lemma_run_ext_char(s.drop_first(), s[0].0, c - 1);
    }
}

/// The (start, count) pairs of the subsections: each is a maximal run of
/// consecutive ids.
pub open spec fn xref_indices(s: Seq<(u32, XrefEntry)>) -> Seq<(i64, i64)>
    decreases s.len(),
    via xref_indices_decreases
{
    if s.len() == 0 {
        Seq::empty()
    } else {
        let n = run_len(s) as int;
        seq![(s[0].0 as i64, n as i64)] + xref_indices(s.skip(n))
    }
}

#[via_fn]
proof fn xref_indices_decreases(s: Seq<(u32, XrefEntry)>) {
    if s.len() > 0 {
        lemma_run_ext_le(s.drop_first(), s[0].0);
    }
}

/// One 20-byte line of the classic table: a normal entry gives its offset
/// and generation with type `n`; a free entry — the synthetic head included —
/// gives offset 0, generation 65535 and type `f`. A compressed entry has no
/// in-file offset, so the classic table shows it as free too; every counted
/// slot thus has its line.
pub open spec fn xref_line(e: XrefEntry) -> Seq<u8> {
    match e {
        XrefEntry::Normal { offset, generation } => padded_dec(offset as nat, 10) + seq![32u8]
            + padded_dec(generation as nat, 5) + seq![32u8, 110, 32, 10],
        _ => padded_dec(0, 10) + seq![32u8] + padded_dec(65535, 5) + seq![32u8, 102, 32, 10],
    }
}

/// The lines of the first `n` entries of a run.
pub open spec fn section_lines(run: Seq<(u32, XrefEntry)>, n: int) -> Seq<u8>
    decreases n,
{
    if n <= 0 {
        Seq::empty()
    } else {
        section_lines(run, n - 1) + xref_line(run[n - 1].1)
    }
}

/// One classic subsection: the `{start} {count}` header line, then the lines.
pub open spec fn section_bytes(run: Seq<(u32, XrefEntry)>) -> Seq<u8> {
    dec_digits(run[0].0 as nat) + seq![32u8] + dec_digits(run.len()) + seq![10u8]
        + section_lines(run, run.len() as int)
}

/// The classic table body: one subsection per maximal run.
pub open spec fn xref_sections(s: Seq<(u32, XrefEntry)>) -> Seq<u8>
    decreases s.len(),
    via xref_sections_decreases
{
    if s.len() == 0 {
        Seq::empty()
    } else {
        let n = run_len(s) as int;
        section_bytes(s.take(n)) + xref_sections(s.skip(n))
    }
}

#[via_fn]
proof fn xref_sections_decreases(s: Seq<(u32, XrefEntry)>) {
    if s.len() > 0 {
        lemma_run_ext_le(s.drop_first(), s[0].0);
    }
}

/// The entry list with the synthetic free head prepended at id 0.
pub open spec fn with_head(es: Seq<(u32, XrefEntry)>) -> Seq<(u32, XrefEntry)> {
    seq![(0u32, XrefEntry::Free)] + es
}

/// The whole classic table: `xref`, then the subsections over the entries
/// with the synthetic head.
pub open spec fn xref_table(es: Seq<(u32, XrefEntry)>) -> Seq<u8> {
    seq![120u8, 114, 101, 102, 10] + xref_sections(with_head(es))
}

/// One 7-byte record of the stream encoding: a type byte (0 free, 1 normal,
/// 2 compressed), then 4 bytes of offset or container id, then 2 bytes of
/// generation or index, big-endian. A free record — the synthetic head
/// included — carries offset 0 and generation 65535.
pub open spec fn xref_rec(e: XrefEntry) -> Seq<u8> {
    match e {
        XrefEntry::Normal { offset, generation } => seq![1u8] + be32(offset) + be16(generation),
        XrefEntry::Compressed { container, index } => seq![2u8] + be32(container) + be16(index),
        XrefEntry::Free => seq![0u8] + be32(0) + be16(65535),
    }
}

/// The records of the first `n` entries of a run.
pub open spec fn stream_recs(run: Seq<(u32, XrefEntry)>, n: int) -> Seq<u8>
    decreases n,
{
    if n <= 0 {
        Seq::empty()
    } else {
        stream_recs(run, n - 1) + xref_rec(run[n - 1].1)
    }
}

/// The binary blob of the stream encoding: the records of every subsection,
/// with no headers (the subsection bounds go into `xref_indices`).
pub open spec fn xref_stream_data(s: Seq<(u32, XrefEntry)>) -> Seq<u8>
    decreases s.len(),
    via xref_stream_data_decreases
{
    if s.len() == 0 {
        Seq::empty()
    } else {
        let n = run_len(s) as int;
        stream_recs(s.take(n), n) + xref_stream_data(s.skip(n))
    }
}

#[via_fn]
proof fn xref_stream_data_decreases(s: Seq<(u32, XrefEntry)>) {
    if s.len() > 0 {
        lemma_run_ext_le(s.drop_first(), s[0].0);
    }
}

// ---------------------------------------------------------------------------
// Partition law
// ---------------------------------------------------------------------------

/// Whether some subsection of `ss` covers `id`.
pub open spec fn covered(ss: Seq<(i64, i64)>, id: int) -> bool {
    exists|t: int| 0 <= t < ss.len() && (#[trigger] ss[t]).0 <= id < ss[t].0 + ss[t].1
}

/// Whether the entry list holds an entry for `id`.
pub open spec fn has_id(es: Seq<(u32, XrefEntry)>, id: int) -> bool {
    exists|m: int| 0 <= m < es.len() && (#[trigger] es[m]).0 == id
}

proof fn lemma_run_ext_implies(s: Seq<(u32, XrefEntry)>, prev: u32)
    ensures
        run_ext(s, prev) <= s.len(),
        forall|k: int| 0 <= k < run_ext(s, prev) ==> (#[trigger] s[k]).0 == prev + 1 + k,
        run_ext(s, prev) == s.len() || s[run_ext(s, prev) as int].0 != prev + 1 + run_ext(
            s,
            prev,
        ),
    decreases s.len(),
{
    if s.len() > 0 && s[0].0 == prev + 1 {
        lemma_run_ext_implies(s.drop_first(), s[0].0);
        assert forall|k: int| 0 <= k < run_ext(s, prev) implies (#[trigger] s[k]).0 == prev + 1
            + k by {
            if k > 0 {
                assert(s.drop_first()[k - 1] == s[k]);
            }
        }
        if run_ext(s, prev) < s.len() {
            assert(s.drop_first()[run_ext(s, prev) - 1] == s[run_ext(s, prev) as int]);
        }
    }
}

#[verifier::rlimit(100)]
proof fn lemma_partition_rec(s: Seq<(u32, XrefEntry)>)
    requires
        s.len() > 0,
        forall|i: int, j: int|
            #![trigger s[i], s[j]]
            0 <= i < j < s.len() ==> s[i].0 < s[j].0,
    ensures
        ({
            let ss = xref_indices(s);
            &&& ss.len() >= 1
            &&& ss[0].0 == s[0].0
            &&& forall|t: int| 0 <= t < ss.len() ==> (#[trigger] ss[t]).1 >= 1
            &&& forall|t: int|
                0 <= t < ss.len() - 1 ==> (#[trigger] ss[t]).0 + ss[t].1 < ss[t + 1].0
            &&& forall|id: int| covered(ss, id) <==> has_id(s, id)
        }),
    decreases s.len(),
{
    let ss = xref_indices(s);
    lemma_run_ext_implies(s.drop_first(), s[0].0);
    let n = run_len(s) as int;
    assert(1 <= n <= s.len());
    assert forall|k: int| 0 <= k < n implies (#[trigger] s[k]).0 == s[0].0 + k by {
        if k > 0 {
            assert(s.drop_first()[k - 1] == s[k]);
        }
    }
    assert(s[n - 1].0 == s[0].0 + (n - 1));
    assert(n <= u32::MAX as int + 1);
    let rest = s.skip(n);
    assert(ss == seq![(s[0].0 as i64, n as i64)] + xref_indices(rest));
    if rest.len() == 0 {
        assert(ss =~= seq![(s[0].0 as i64, n as i64)]);
        assert forall|id: int| covered(ss, id) <==> has_id(s, id) by {
            if covered(ss, id) {
                let t = choose|t: int|
                    0 <= t < ss.len() && (#[trigger] ss[t]).0 <= id < ss[t].0 + ss[t].1;
                assert(s[id - s[0].0].0 == id);
                assert(has_id(s, id));
            }
            if has_id(s, id) {
                let m = choose|m: int| 0 <= m < s.len() && (#[trigger] s[m]).0 == id;
                assert(ss[0].0 <= id < ss[0].0 + ss[0].1);
            }
        }
    } else {
        assert forall|i: int, j: int|
            #![trigger rest[i], rest[j]]
            0 <= i < j < rest.len() implies rest[i].0 < rest[j].0 by {
            assert(rest[i] == s[n + i]);
            assert(rest[j] == s[n + j]);
        }
        lemma_partition_rec(rest);
        let sr = xref_indices(rest);
        // the boundary is a strict gap: the next id is past s[0].0 + n
        assert(rest[0] == s[n]);
        assert(s[n - 1].0 == s[0].0 + n - 1);
        assert(s[n - 1].0 < s[n].0);
        assert(s.drop_first()[n - 1] == s[n]);
        assert(s[n].0 != s[0].0 + n);
        assert(s[n].0 > s[0].0 + n);
        assert forall|t: int|
            0 <= t < ss.len() - 1 implies (#[trigger] ss[t]).0 + ss[t].1 < ss[t + 1].0 by {
            if t == 0 {
                assert(ss[1] == sr[0]);
            } else {
                assert(ss[t] == sr[t - 1]);
                assert(ss[t + 1] == sr[t]);
                assert(sr[t - 1].0 + sr[t - 1].1 < sr[t].0);
            }
        }
        assert forall|t: int| 0 <= t < ss.len() implies (#[trigger] ss[t]).1 >= 1 by {
            if t > 0 {
                assert(ss[t] == sr[t - 1]);
            }
        }
        assert forall|id: int| covered(ss, id) <==> has_id(s, id) by {
            if covered(ss, id) {
                let t = choose|t: int|
                    0 <= t < ss.len() && (#[trigger] ss[t]).0 <= id < ss[t].0 + ss[t].1;
                if t == 0 {
                    assert(s[id - s[0].0].0 == id);
                    assert(has_id(s, id));
                } else {
                    assert(ss[t] == sr[t - 1]);
                    assert(covered(sr, id));
                    assert(has_id(rest, id));
                    let m = choose|m: int|
                        0 <= m < rest.len() && (#[trigger] rest[m]).0 == id;
                    assert(rest[m] == s[n + m]);
                    assert(has_id(s, id));
                }
            }
            if has_id(s, id) {
                let m = choose|m: int| 0 <= m < s.len() && (#[trigger] s[m]).0 == id;
                if m < n {
                    assert(ss[0].0 <= id < ss[0].0 + ss[0].1);
                    assert(covered(ss, id));
                } else {
                    assert(rest[m - n] == s[m]);
                    assert(has_id(rest, id));
                    assert(covered(sr, id));
                    let t = choose|t: int|
                        0 <= t < sr.len() && (#[trigger] sr[t]).0 <= id < sr[t].0 + sr[t].1;
                    assert(ss[t + 1] == sr[t]);
                    assert(covered(ss, id));
                }
            }
        }
    }
}

/// The subsection partition law: over the entries with the synthetic head,
/// the (start, count) subsections begin at id 0, every count is at least 1,
/// consecutive subsections are separated by a strict gap (each run is
/// maximal), and the ids they cover are exactly the present ids plus the
/// synthetic head's id 0 — so the head adds an extra entry only to the
/// subsection that starts at 0.
pub proof fn lemma_xref_subsections_partition(es: Seq<(u32, XrefEntry)>)
    requires
        entries_wf(es),
    ensures
        ({
            let ss = xref_indices(with_head(es));
            &&& ss.len() >= 1
            &&& ss[0].0 == 0
            &&& forall|t: int| 0 <= t < ss.len() ==> (#[trigger] ss[t]).1 >= 1
            &&& forall|t: int|
                0 <= t < ss.len() - 1 ==> (#[trigger] ss[t]).0 + ss[t].1 < ss[t + 1].0
            &&& forall|id: int| covered(ss, id) <==> (id == 0 || has_id(es, id))
        }),
{
    let vs = with_head(es);
    assert(vs[0] == (0u32, XrefEntry::Free));
    assert forall|i: int, j: int|
        #![trigger vs[i], vs[j]]
        0 <= i < j < vs.len() implies vs[i].0 < vs[j].0 by {
        if i > 0 {
            assert(vs[i] == es[i - 1]);
            assert(vs[j] == es[j - 1]);
        } else {
            assert(vs[j] == es[j - 1]);
            assert(es[j - 1].0 >= 1);
        }
    }
    lemma_partition_rec(vs);
    let ss = xref_indices(vs);
    assert forall|id: int| covered(ss, id) <==> (id == 0 || has_id(es, id)) by {
        if covered(ss, id) {
            assert(has_id(vs, id));
            let m = choose|m: int| 0 <= m < vs.len() && (#[trigger] vs[m]).0 == id;
            if m > 0 {
                assert(vs[m] == es[m - 1]);
                assert(has_id(es, id));
            }
        }
        if id == 0 {
            assert(vs[0].0 == 0);
            assert(has_id(vs, id));
            assert(covered(ss, id));
        } else if has_id(es, id) {
            let m = choose|m: int| 0 <= m < es.len() && (#[trigger] es[m]).0 == id;
            assert(vs[m + 1] == es[m]);
            assert(has_id(vs, id));
            assert(covered(ss, id));
        }
    }
}

} // verus!
