//! The position-tracking sink and the object serializer.

use vstd::prelude::*;
use byteorder::{BigEndian, WriteBytesExt};
use crate::object::{Dictionary, Object, ObjectId, Stream, StringFormat};
use crate::xref::{
    entries_wf, spec_xref_insert, lemma_ids_lower_bound, lemma_run_ext_char, run_len, section_bytes,
    section_lines, stream_recs, with_head, xref_indices, xref_line, xref_rec, xref_sections,
    xref_stream_data, xref_table, Xref, XrefEntry,
};
use crate::ser::{
    be16, be32, dec_int, enc_name_body, encoded_hex, encoded_literal, encoded_name,
    encoded_string, hex_body, hex_digit, lit_body, lit_marked, paren_depth,
    spec_need_end_separator, spec_need_separator, arr_contents, contents_key, dict_contents,
    padded_dec, pow10, dec_digits, indirect_bytes, obj_header,
    lemma_ser_dict_entries_len_mono, lemma_ser_items_len_mono, rec_contents, ser_dict,
    ser_dict_entries, ser_items, ser_obj,
};

verus! {

/// Relies on `itoa::Buffer::format`: the decimal text of the integer, exactly
/// as std's `Display` writes it — a `-` sign for negative values, then the
/// digits with no separators.
#[verifier::external_body]
fn push_decimal_i64(out: &mut Vec<u8>, v: i64)
    ensures
        final(out)@ == old(out)@ + dec_int(v as int),
{
    let mut buf = itoa::Buffer::new();
    out.extend_from_slice(buf.format(v).as_bytes());
}

/// Relies on `byteorder::WriteBytesExt::write_u8` on `Vec<u8>`: appends the
/// one byte; writing to a `Vec` cannot fail.
#[verifier::external_body]
fn push_u8_raw(out: &mut Vec<u8>, v: u8)
    ensures
        final(out)@ == old(out)@ + seq![v],
{
    out.write_u8(v).unwrap();
}

/// Relies on `byteorder::WriteBytesExt::write_u32::<BigEndian>` on `Vec<u8>`:
/// appends the four bytes of `v`, most significant first.
#[verifier::external_body]
fn push_u32_be(out: &mut Vec<u8>, v: u32)
    ensures
        final(out)@ == old(out)@ + be32(v),
{
    out.write_u32::<BigEndian>(v).unwrap();
}

/// Relies on `byteorder::WriteBytesExt::write_u16::<BigEndian>` on `Vec<u8>`:
/// appends the two bytes of `v`, most significant first.
#[verifier::external_body]
fn push_u16_be(out: &mut Vec<u8>, v: u16)
    ensures
        final(out)@ == old(out)@ + be16(v),
{
    out.write_u16::<BigEndian>(v).unwrap();
}

/// The position-tracking sink: an in-memory destination that counts the bytes
/// written, so offsets can be recorded for the cross-reference index.
pub struct CountingWrite {
    pub inner: Vec<u8>,
    pub bytes_written: usize,
}

impl CountingWrite {
    /// The counter always equals the number of bytes accepted.
    pub open spec fn wf(self) -> bool {
        self.bytes_written == self.inner@.len()
    }

    pub fn new() -> (w: CountingWrite)
        ensures
            w.wf(),
            w.inner@.len() == 0,
    {
        CountingWrite { inner: Vec::new(), bytes_written: 0 }
    }

    pub fn write_byte(&mut self, b: u8)
        requires
            old(self).wf(),
        ensures
            final(self).wf(),
            final(self).inner@ == old(self).inner@ + seq![b],
    {
        self.inner.push(b);
        self.bytes_written = self.inner.len();
    }

    pub fn write_all(&mut self, buf: &[u8])
        requires
            old(self).wf(),
        ensures
            final(self).wf(),
            final(self).inner@ == old(self).inner@ + buf@,
    {
        let n = buf.len();
        let mut i: usize = 0;
        while i < n
            invariant
                i <= n,
                n == buf@.len(),
                self.inner@ == old(self).inner@ + buf@.take(i as int),
            decreases n - i,
        {
            self.inner.push(buf[i]);
            i = i + 1;
            assert(self.inner@ =~= old(self).inner@ + buf@.take(i as int));
        }
        assert(self.inner@ =~= old(self).inner@ + buf@);
        self.bytes_written = self.inner.len();
    }


    /// Append `n` as exactly 10 decimal digits, zero-padded on the left.
    pub fn write_padded10(&mut self, n: u32)
        requires
            old(self).wf(),
        ensures
            final(self).wf(),
            final(self).inner@ == old(self).inner@ + padded_dec(n as nat, 10),
    {
        proof {
            assert(pow10(0) == 1);
            assert(pow10(1) == 10);
            assert(pow10(2) == 100);
            assert(pow10(3) == 1000);
            assert(pow10(4) == 10000);
            assert(pow10(5) == 100000);
            assert(pow10(6) == 1000000);
            assert(pow10(7) == 10000000);
            assert(pow10(8) == 100000000);
            assert(pow10(9) == 1000000000);
        }
        let d0: u8 = 48 + (n / 1000000000 % 10) as u8;
        let d1: u8 = 48 + (n / 100000000 % 10) as u8;
        let d2: u8 = 48 + (n / 10000000 % 10) as u8;
        let d3: u8 = 48 + (n / 1000000 % 10) as u8;
        let d4: u8 = 48 + (n / 100000 % 10) as u8;
        let d5: u8 = 48 + (n / 10000 % 10) as u8;
        let d6: u8 = 48 + (n / 1000 % 10) as u8;
        let d7: u8 = 48 + (n / 100 % 10) as u8;
        let d8: u8 = 48 + (n / 10 % 10) as u8;
        let d9: u8 = 48 + (n % 10) as u8;
        self.write_byte(d0);
        self.write_byte(d1);
        self.write_byte(d2);
        self.write_byte(d3);
        self.write_byte(d4);
        self.write_byte(d5);
        self.write_byte(d6);
        self.write_byte(d7);
        self.write_byte(d8);
        self.write_byte(d9);
        proof {
            assert(n as nat / pow10(0) == n as nat);
            let p = padded_dec(n as nat, 10);
            assert(p[0] == d0);
            assert(p[1] == d1);
            assert(p[2] == d2);
            assert(p[3] == d3);
            assert(p[4] == d4);
            assert(p[5] == d5);
            assert(p[6] == d6);
            assert(p[7] == d7);
            assert(p[8] == d8);
            assert(p[9] == d9);
            assert(p =~= seq![d0, d1, d2, d3, d4, d5, d6, d7, d8, d9]);
        }
        assert(self.inner@ =~= old(self).inner@ + padded_dec(n as nat, 10));
    }

    /// Append `n` as exactly 5 decimal digits, zero-padded on the left.
    pub fn write_padded5(&mut self, n: u16)
        requires
            old(self).wf(),
        ensures
            final(self).wf(),
            final(self).inner@ == old(self).inner@ + padded_dec(n as nat, 5),
    {
        proof {
            assert(pow10(0) == 1);
            assert(pow10(1) == 10);
            assert(pow10(2) == 100);
            assert(pow10(3) == 1000);
            assert(pow10(4) == 10000);
        }
        let d0: u8 = 48 + (n / 10000 % 10) as u8;
        let d1: u8 = 48 + (n / 1000 % 10) as u8;
        let d2: u8 = 48 + (n / 100 % 10) as u8;
        let d3: u8 = 48 + (n / 10 % 10) as u8;
        let d4: u8 = 48 + (n % 10) as u8;
        self.write_byte(d0);
        self.write_byte(d1);
        self.write_byte(d2);
        self.write_byte(d3);
        self.write_byte(d4);
        proof {
            assert(n as nat / pow10(0) == n as nat);
            let p = padded_dec(n as nat, 5);
            assert(p[0] == d0);
            assert(p[1] == d1);
            assert(p[2] == d2);
            assert(p[3] == d3);
            assert(p[4] == d4);
            assert(p =~= seq![d0, d1, d2, d3, d4]);
        }
        assert(self.inner@ =~= old(self).inner@ + padded_dec(n as nat, 5));
    }

    /// Append the decimal text of `v`.
    pub fn write_decimal(&mut self, v: i64)
        requires
            old(self).wf(),
        ensures
            final(self).wf(),
            final(self).inner@ == old(self).inner@ + dec_int(v as int),
    {
        push_decimal_i64(&mut self.inner, v);
        self.bytes_written = self.inner.len();
    }
}

fn hex_digit_exec(d: u8) -> (r: u8)
    requires
        d < 16,
    ensures
        r == hex_digit(d),
{
    if d < 10 {
        48 + d
    } else {
        55 + d
    }
}

/// Whether `j` occurs among the first `t` elements of `stack`.
spec fn stack_has(stack: Seq<usize>, t: int, j: int) -> bool {
    exists|m: int| 0 <= m < t && #[trigger] stack[m] == j
}

/// First scan of a literal string: which indices get a leading backslash.
fn literal_marks(text: &[u8]) -> (marks: Vec<bool>)
    ensures
        marks@.len() == text@.len(),
        forall|j: int| 0 <= j < text@.len() ==> marks@[j] == lit_marked(text@, j),
{
    let n = text.len();
    let mut marks: Vec<bool> = vec![false; n];
    let mut stack: Vec<usize> = Vec::new();
    let mut i: usize = 0;
    while i < n
        invariant
            i <= n,
            n == text@.len(),
            marks@.len() == n,
            stack@.len() == paren_depth(text@, i as int),
            forall|m: int|
                0 <= m < stack@.len() ==> #[trigger] stack@[m] < i && text@[stack@[m] as int]
                    == 40 && paren_depth(text@, stack@[m] as int) == m,
            forall|m: int, k: int|
                #![trigger stack@[m], paren_depth(text@, k)]
                0 <= m < stack@.len() && stack@[m] < k <= i ==> paren_depth(text@, k) > m,
            forall|j: int|
                0 <= j < i && text@[j] == 40 && (forall|m: int|
                    0 <= m < stack@.len() ==> #[trigger] stack@[m] != j) ==> exists|k: int|
                    j < k <= i && #[trigger] paren_depth(text@, k) <= paren_depth(text@, j),
            forall|j: int|
                0 <= j < n ==> marks@[j] == (j < i && (text@[j] == 92 || text@[j] == 13 || (
                text@[j] == 41 && paren_depth(text@, j) == 0))),
        decreases n - i,
    {
        let ghost prev_stack = stack@;
        let b = text[i];
        assert(paren_depth(text@, i + 1) == (if text@[i as int] == 40 {
            paren_depth(text@, i as int) + 1
        } else if text@[i as int] == 41 {
            if paren_depth(text@, i as int) > 0 {
                (paren_depth(text@, i as int) - 1) as nat
            } else {
                0nat
            }
        } else {
            paren_depth(text@, i as int)
        }));
        if b == 40 {
            stack.push(i);
        } else if b == 41 {
            if stack.len() > 0 {
                let popped = stack.pop().unwrap();
                proof {
                    assert(prev_stack[prev_stack.len() - 1] == popped);
                    assert(paren_depth(text@, i + 1) <= paren_depth(text@, popped as int));
                    // the pop is the witness that `popped` is a matched open
                    assert forall|j: int|
                        0 <= j < i + 1 && text@[j] == 40 && (forall|m: int|
                            0 <= m < stack@.len() ==> #[trigger] stack@[m] != j) implies exists|
                        k: int,
                    |
                        j < k <= i + 1 && #[trigger] paren_depth(text@, k) <= paren_depth(
                            text@,
                            j,
                        ) by {
                        if j == popped {
                            assert(popped < i + 1 <= i + 1 && paren_depth(text@, i + 1)
                                <= paren_depth(text@, popped as int));
                        } else if exists|m: int| 0 <= m < prev_stack.len() && prev_stack[m] == j {
                            let m = choose|m: int|
                                0 <= m < prev_stack.len() && prev_stack[m] == j;
                            assert(m < prev_stack.len() - 1);
                            assert(stack@[m] == j);
                            assert(false);
                        } else {
                            let k = choose|k: int|
                                j < k <= i && #[trigger] paren_depth(text@, k) <= paren_depth(
                                    text@,
                                    j,
                                );
                            assert(j < k <= i + 1 && paren_depth(text@, k) <= paren_depth(
                                text@,
                                j,
                            ));
                        }
                    }
                }
            } else {
                marks[i] = true;
            }
        } else if b == 92 || b == 13 {
            marks[i] = true;
        }
        proof {
            if b != 41 || prev_stack.len() == 0 {
                assert forall|j: int|
                    0 <= j < i + 1 && text@[j] == 40 && (forall|m: int|
                        0 <= m < stack@.len() ==> #[trigger] stack@[m] != j) implies exists|k: int|
                    j < k <= i + 1 && #[trigger] paren_depth(text@, k) <= paren_depth(
                        text@,
                        j,
                    ) by {
                    if j < i {
                        if b == 40 {
                            assert(forall|m: int|
                                0 <= m < prev_stack.len() ==> #[trigger] prev_stack[m]
                                    == stack@[m]);
                        }
                        let k = choose|k: int|
                            j < k <= i && #[trigger] paren_depth(text@, k) <= paren_depth(
                                text@,
                                j,
                            );
                        assert(j < k <= i + 1 && paren_depth(text@, k) <= paren_depth(text@, j));
                    } else {
                        assert(j == i && text@[j] == 40);
                        assert(stack@[stack@.len() - 1] == i);
                        assert(false);
                    }
                }
            }
        }
        i = i + 1;
    }
    // every open still on the stack is unmatched to the end of the text
    let ghost base = marks@;
    let mut t: usize = 0;
    while t < stack.len()
        invariant
            t <= stack@.len(),
            n == text@.len(),
            marks@.len() == n,
            stack@.len() == paren_depth(text@, n as int),
            forall|m: int|
                0 <= m < stack@.len() ==> #[trigger] stack@[m] < n && text@[stack@[m] as int]
                    == 40 && paren_depth(text@, stack@[m] as int) == m,
            forall|m: int, k: int|
                #![trigger stack@[m], paren_depth(text@, k)]
                0 <= m < stack@.len() && stack@[m] < k <= n ==> paren_depth(text@, k) > m,
            forall|j: int|
                0 <= j < n && text@[j] == 40 && (forall|m: int|
                    0 <= m < stack@.len() ==> #[trigger] stack@[m] != j) ==> exists|k: int|
                    j < k <= n && #[trigger] paren_depth(text@, k) <= paren_depth(text@, j),
            forall|j: int|
                0 <= j < n ==> base[j] == (text@[j] == 92 || text@[j] == 13 || (text@[j] == 41
                    && paren_depth(text@, j) == 0)),
            forall|j: int|
                #![trigger marks@[j]]
                0 <= j < n ==> marks@[j] == (base[j] || stack_has(stack@, t as int, j)),
        decreases stack@.len() - t,
    {
        let idx = stack[t];
        let ghost before = marks@;
        marks[idx] = true;
        proof {
            assert forall|j: int| #![trigger marks@[j]] 0 <= j < n implies marks@[j] == (
            base[j] || stack_has(stack@, t + 1, j)) by {
                if j == idx {
                    assert(stack@[t as int] == j);
                    assert(stack_has(stack@, t + 1, j));
                } else {
                    assert(marks@[j] == before[j]);
                    if stack_has(stack@, t + 1, j) {
                        let m = choose|m: int| 0 <= m < t + 1 && #[trigger] stack@[m] == j;
                        assert(m < t && stack@[m] == j);
                        assert(stack_has(stack@, t as int, j));
                    } else {
                        assert(!stack_has(stack@, t as int, j)) by {
                            if stack_has(stack@, t as int, j) {
                                let m2 = choose|m2: int|
                                    0 <= m2 < t && #[trigger] stack@[m2] == j;
                                assert(0 <= m2 < t + 1 && stack@[m2] == j);
                                assert(stack_has(stack@, t + 1, j));
                            }
                        }
                    }
                }
            }
        }
        t = t + 1;
    }
    proof {
        assert forall|j: int| 0 <= j < text@.len() implies marks@[j] == lit_marked(
            text@,
            j,
        ) by {
            let s = text@;
            if s[j] == 92 || s[j] == 13 {
                assert(marks@[j]);
            } else if s[j] == 41 {
                assert(forall|m: int| 0 <= m < stack@.len() ==> #[trigger] stack@[m] != j);
                assert(marks@[j] == (paren_depth(s, j) == 0));
            } else if s[j] == 40 {
                if stack_has(stack@, stack@.len() as int, j) {
                    let m = choose|m: int| 0 <= m < stack@.len() && #[trigger] stack@[m] == j;
                    assert(paren_depth(s, j) == m);
                    assert forall|k: int| j < k <= s.len() implies paren_depth(s, k)
                        > paren_depth(s, j) by {
                        assert(paren_depth(s, k) > m);
                    }
                    assert(marks@[j]);
                    assert(lit_marked(s, j));
                } else {
                    let k = choose|k: int|
                        j < k <= n && #[trigger] paren_depth(s, k) <= paren_depth(s, j);
                    assert(!lit_marked(s, j));
                    assert(!marks@[j]);
                }
            } else {
                assert(forall|m: int| 0 <= m < stack@.len() ==> #[trigger] stack@[m] != j);
                assert(!marks@[j]);
            }
        }
    }
    marks
}


/// The recorded byte spans for `Contents` values: a mapping from object id to
/// the (start, end) offsets of the bytes produced for the value.
pub struct ContentsMap {
    entries: Vec<((u32, u16), (u32, u32))>,
}

/// The mapping that a record list denotes: later records override earlier
/// ones.
pub open spec fn map_of(es: Seq<((u32, u16), (u32, u32))>, n: int) -> Map<(u32, u16), (u32, u32)>
    decreases n,
{
    if n <= 0 {
        Map::empty()
    } else {
        map_of(es, n - 1).insert(es[n - 1].0, es[n - 1].1)
    }
}

proof fn lemma_map_of_frame(es: Seq<((u32, u16), (u32, u32))>, k: (u32, u16), i: int, n: int)
    requires
        0 <= i <= n <= es.len(),
        forall|m: int| i <= m < n ==> es[m].0 != k,
    ensures
        map_of(es, n).contains_key(k) == map_of(es, i).contains_key(k),
        map_of(es, n).contains_key(k) ==> map_of(es, n)[k] == map_of(es, i)[k],
    decreases n,
{
    if i < n {
        lemma_map_of_frame(es, k, i, n - 1);
    }
}

proof fn lemma_map_of_prefix(
    es1: Seq<((u32, u16), (u32, u32))>,
    es2: Seq<((u32, u16), (u32, u32))>,
    n: int,
)
    requires
        n <= es1.len(),
        n <= es2.len(),
        forall|m: int| 0 <= m < n ==> es1[m] == es2[m],
    ensures
        map_of(es1, n) == map_of(es2, n),
    decreases n,
{
    if n > 0 {
        lemma_map_of_prefix(es1, es2, n - 1);
    }
}

impl View for ContentsMap {
    type V = Map<(u32, u16), (u32, u32)>;

    closed spec fn view(&self) -> Map<(u32, u16), (u32, u32)> {
        map_of(self.entries@, self.entries@.len() as int)
    }
}

impl ContentsMap {
    pub fn new() -> (m: ContentsMap)
        ensures
            m@ == Map::<(u32, u16), (u32, u32)>::empty(),
    {
        ContentsMap { entries: Vec::new() }
    }

    pub fn insert(&mut self, key: (u32, u16), span: (u32, u32))
        ensures
            final(self)@ == old(self)@.insert(key, span),
    {
        let ghost es0 = self.entries@;
        self.entries.push((key, span));
        proof {
            lemma_map_of_prefix(self.entries@, es0, es0.len() as int);
        }
    }

    /// The span recorded for `key`, if any.
    pub fn get(&self, key: (u32, u16)) -> (r: Option<(u32, u32)>)
        ensures
            r == if self@.contains_key(key) {
                Some(self@[key])
            } else {
                None::<(u32, u32)>
            },
    {
        let n = self.entries.len();
        let mut i = n;
        while i > 0
            invariant
                i <= n,
                n == self.entries@.len(),
                forall|m: int| i <= m < n ==> self.entries@[m].0 != key,
            decreases i,
        {
            i = i - 1;
            let e = &self.entries[i];
            if e.0.0 == key.0 && e.0.1 == key.1 {
                proof {
                    lemma_map_of_frame(self.entries@, key, i + 1, n as int);
                }
                return Some(e.1);
            }
        }
        proof {
            lemma_map_of_frame(self.entries@, key, 0, n as int);
        }
        None
    }
}

/// The view that results from recording `rc` (if anything was recorded)
/// under `id` on top of `m0`.
pub open spec fn recorded_view(
    m0: Map<(u32, u16), (u32, u32)>,
    id: ObjectId,
    rc: Option<(Object, int, int)>,
) -> Map<(u32, u16), (u32, u32)> {
    match rc {
        Some((v, s, e)) => m0.insert(id, (s as u32, e as u32)),
        None => m0,
    }
}

/// How a serializer call relates its returned contents map to its input: the
/// map is threaded through unchanged unless both an object id and a map are
/// present, in which case the recording of `rc` is applied.
pub open spec fn map_result_ok(
    cm_in: Option<ContentsMap>,
    oid: Option<ObjectId>,
    r: Option<ContentsMap>,
    rc: Option<(Object, int, int)>,
) -> bool {
    match (oid, cm_in) {
        (Some(id), Some(m)) => r.is_some() && r.unwrap()@ == recorded_view(m@, id, rc),
        (None, Some(m)) => r == Some(m),
        (Some(_), None) => r.is_none(),
        (None, None) => r.is_none(),
    }
}

/// Whether `key` is exactly the bytes `Contents`.
fn is_contents_key(key: &Vec<u8>) -> (r: bool)
    ensures
        r == (key@ == contents_key()),
{
    if key.len() != 8 {
        proof {
            assert(key@ != contents_key());
        }
        return false;
    }
    let r = key[0] == 67 && key[1] == 111 && key[2] == 110 && key[3] == 116 && key[4] == 101
        && key[5] == 110 && key[6] == 116 && key[7] == 115;
    proof {
        if r {
            assert(key@ =~= contents_key());
        } else {
            assert(key@ != contents_key());
        }
    }
    r
}

/// The object serializer: renders any object variant to bytes.
pub struct Writer;

impl Writer {
    /// True of variants that would merge with a preceding token.
    pub fn need_separator(object: &Object) -> (r: bool)
        ensures
            r == spec_need_separator(*object),
    {
        match object {
            Object::Null => true,
            Object::Boolean(_) => true,
            Object::Integer(_) => true,
            Object::Real(_) => true,
            Object::Reference(_) => true,
            _ => false,
        }
    }

    /// True of variants that would merge with a following reserved token.
    pub fn need_end_separator(object: &Object) -> (r: bool)
        ensures
            r == spec_need_end_separator(*object),
    {
        match object {
            Object::Null => true,
            Object::Boolean(_) => true,
            Object::Integer(_) => true,
            Object::Real(_) => true,
            Object::Name(_) => true,
            Object::Reference(_) => true,
            Object::Stream(_) => true,
            _ => false,
        }
    }

    /// Write a name: `/`, then each byte escaped as `#XX` when required.
    pub fn write_name(file: &mut CountingWrite, name: &[u8])
        requires
            old(file).wf(),
        ensures
            final(file).wf(),
            final(file).inner@ == old(file).inner@ + encoded_name(name@),
    {
        file.write_byte(47);
        let n = name.len();
        let mut i: usize = 0;
        while i < n
            invariant
                i <= n,
                n == name@.len(),
                file.wf(),
                file.inner@ == old(file).inner@ + seq![47u8] + enc_name_body(name@, i as int),
            decreases n - i,
        {
            let b = name[i];
            if b < 33 || b > 126 || b == 35 || b == 37 || b == 40 || b == 41 || b == 47 || b == 60
                || b == 62 || b == 91 || b == 93 || b == 123 || b == 125 {
                file.write_byte(35);
                file.write_byte(hex_digit_exec(b / 16));
                file.write_byte(hex_digit_exec(b % 16));
            } else {
                file.write_byte(b);
            }
            i = i + 1;
            assert(file.inner@ =~= old(file).inner@ + seq![47u8] + enc_name_body(
                name@,
                i as int,
            ));
        }
        assert(file.inner@ =~= old(file).inner@ + encoded_name(name@));
    }

    /// Write a string object in the given format.
    pub fn write_string(file: &mut CountingWrite, text: &[u8], format: &StringFormat)
        requires
            old(file).wf(),
        ensures
            final(file).wf(),
            final(file).inner@ == old(file).inner@ + encoded_string(text@, *format),
    {
        match format {
            StringFormat::Literal => {
                let marks = literal_marks(text);
                file.write_byte(40);
                let n = text.len();
                let mut i: usize = 0;
                while i < n
                    invariant
                        i <= n,
                        n == text@.len(),
                        marks@.len() == n,
                        forall|j: int| 0 <= j < n ==> marks@[j] == lit_marked(text@, j),
                        file.wf(),
                        file.inner@ == old(file).inner@ + seq![40u8] + lit_body(text@, i as int),
                    decreases n - i,
                {
                    let b = text[i];
                    if marks[i] {
                        file.write_byte(92);
                        if b == 13 {
                            file.write_byte(114);
                        } else {
                            file.write_byte(b);
                        }
                    } else {
                        file.write_byte(b);
                    }
                    i = i + 1;
                    assert(file.inner@ =~= old(file).inner@ + seq![40u8] + lit_body(
                        text@,
                        i as int,
                    ));
                }
                file.write_byte(41);
                assert(file.inner@ =~= old(file).inner@ + encoded_literal(text@));
            },
            StringFormat::Hexadecimal => {
                file.write_byte(60);
                let n = text.len();
                let mut i: usize = 0;
                while i < n
                    invariant
                        i <= n,
                        n == text@.len(),
                        file.wf(),
                        file.inner@ == old(file).inner@ + seq![60u8] + hex_body(text@, i as int),
                    decreases n - i,
                {
                    let b = text[i];
                    file.write_byte(hex_digit_exec(b / 16));
                    file.write_byte(hex_digit_exec(b % 16));
                    i = i + 1;
                    assert(file.inner@ =~= old(file).inner@ + seq![60u8] + hex_body(
                        text@,
                        i as int,
                    ));
                }
                file.write_byte(62);
                assert(file.inner@ =~= old(file).inner@ + encoded_hex(text@));
            },
        }
    }

    /// Serialize any object variant, threading the contents map through and
    /// recording spans for `Contents` dictionary values.
    pub fn write_object(
        file: &mut CountingWrite,
        object: &Object,
        oid: Option<ObjectId>,
        contents_map: Option<ContentsMap>,
    ) -> (r: Option<ContentsMap>)
        requires
            old(file).wf(),
            oid.is_some() && contents_map.is_some() ==> old(file).inner@.len() + ser_obj(
                *object,
            ).len() <= u32::MAX,
        ensures
            final(file).wf(),
            final(file).inner@ == old(file).inner@ + ser_obj(*object),
            map_result_ok(
                contents_map,
                oid,
                r,
                rec_contents(*object, old(file).inner@.len() as int),
            ),
        decreases *object,
    {
        match object {
            Object::Null => {
                file.write_byte(110);
                file.write_byte(117);
                file.write_byte(108);
                file.write_byte(108);
                assert(file.inner@ =~= old(file).inner@ + ser_obj(*object));
                contents_map
            },
            Object::Boolean(value) => {
                if *value {
                    file.write_byte(116);
                    file.write_byte(114);
                    file.write_byte(117);
                    file.write_byte(101);
                } else {
                    file.write_byte(102);
                    file.write_byte(97);
                    file.write_byte(108);
                    file.write_byte(115);
                    file.write_byte(101);
                }
                assert(file.inner@ =~= old(file).inner@ + ser_obj(*object));
                contents_map
            },
            Object::Integer(value) => {
                file.write_decimal(*value);
                contents_map
            },
            Object::Real(text) => {
                file.write_all(text.as_slice());
                contents_map
            },
            Object::Name(name) => {
                Writer::write_name(file, name.as_slice());
                contents_map
            },
            Object::String(text, format) => {
                Writer::write_string(file, text.as_slice(), format);
                contents_map
            },
            Object::Array(array) => Writer::write_array(file, array.as_slice(), oid, contents_map),
            Object::Dictionary(dict) => Writer::write_dictionary(file, dict, oid, contents_map),
            Object::Stream(stream) => Writer::write_stream(file, stream, oid, contents_map),
            Object::Reference(id) => {
                file.write_decimal(id.0 as i64);
                file.write_byte(32);
                file.write_decimal(id.1 as i64);
                file.write_byte(32);
                file.write_byte(82);
                assert(file.inner@ =~= old(file).inner@ + ser_obj(*object));
                contents_map
            },
        }
    }

    /// Serialize an array: `[`, the elements with their separators, `]`.
    pub fn write_array(
        file: &mut CountingWrite,
        array: &[Object],
        oid: Option<ObjectId>,
        contents_map: Option<ContentsMap>,
    ) -> (r: Option<ContentsMap>)
        requires
            old(file).wf(),
            oid.is_some() && contents_map.is_some() ==> old(file).inner@.len() + 2 + ser_items(
                array@,
                array@.len() as int,
            ).len() <= u32::MAX,
        ensures
            final(file).wf(),
            final(file).inner@ == old(file).inner@ + seq![91u8] + ser_items(
                array@,
                array@.len() as int,
            ) + seq![93u8],
            map_result_ok(
                contents_map,
                oid,
                r,
                arr_contents(array@, array@.len() as int, old(file).inner@.len() as int + 1),
            ),
        decreases array@,
    {
        let ghost cm0 = contents_map;
        let ghost apos: int = old(file).inner@.len() as int + 1;
        let mut cm = contents_map;
        file.write_byte(91);
        let n = array.len();
        let mut i: usize = 0;
        while i < n
            invariant
                i <= n,
                n == array@.len(),
                file.wf(),
                file.inner@ == old(file).inner@ + seq![91u8] + ser_items(array@, i as int),
                apos == old(file).inner@.len() as int + 1,
                oid.is_some() && cm0.is_some() ==> old(file).inner@.len() + 2 + ser_items(
                    array@,
                    array@.len() as int,
                ).len() <= u32::MAX,
                cm0.is_none() <==> cm.is_none(),
                map_result_ok(cm0, oid, cm, arr_contents(array@, i as int, apos)),
            decreases n - i,
        {
            let ghost cm_pre = cm;
            let ghost len_pre = file.inner@.len() as int;
            let element = &array[i];
            if i > 0 && Writer::need_separator(element) {
                file.write_byte(32);
            }
            let ghost vpos = file.inner@.len() as int;
            proof {
                lemma_ser_items_len_mono(array@, i + 1, array@.len() as int);
                assert(ser_items(array@, i + 1) == ser_items(array@, i as int) + (if i > 0
                    && spec_need_separator(array@[i as int]) {
                    seq![32u8]
                } else {
                    Seq::<u8>::empty()
                }) + ser_obj(array@[i as int]));
            }
            cm = Writer::write_object(file, element, oid, cm);
            proof {
                assert(file.inner@ =~= old(file).inner@ + seq![91u8] + ser_items(
                    array@,
                    i + 1,
                ));
                let rc = rec_contents(array@[i as int], vpos);
                if oid.is_some() && cm0.is_some() {
                    let id = oid.unwrap();
                    let m0 = cm0.unwrap()@;
                    assert(arr_contents(array@, i + 1, apos) == (if rc.is_some() {
                        rc
                    } else {
                        arr_contents(array@, i as int, apos)
                    }));
                    if rc.is_some() {
                        if arr_contents(array@, i as int, apos).is_some() {
                            let p = arr_contents(array@, i as int, apos).unwrap();
                            assert(m0.insert(id, (p.1 as u32, p.2 as u32)).insert(
                                id,
                                (rc.unwrap().1 as u32, rc.unwrap().2 as u32),
                            ) =~= m0.insert(id, (rc.unwrap().1 as u32, rc.unwrap().2 as u32)));
                        }
                    }
                }
            }
            i = i + 1;
        }
        file.write_byte(93);
        assert(file.inner@ =~= old(file).inner@ + seq![91u8] + ser_items(
            array@,
            array@.len() as int,
        ) + seq![93u8]);
        cm
    }

    /// Serialize a dictionary: `<<`, the entries in insertion order, `>>`;
    /// a value under the key `Contents` has its byte span recorded.
    pub fn write_dictionary(
        file: &mut CountingWrite,
        dictionary: &Dictionary,
        oid: Option<ObjectId>,
        contents_map: Option<ContentsMap>,
    ) -> (r: Option<ContentsMap>)
        requires
            old(file).wf(),
            oid.is_some() && contents_map.is_some() ==> old(file).inner@.len() + ser_dict(
                *dictionary,
            ).len() <= u32::MAX,
        ensures
            final(file).wf(),
            final(file).inner@ == old(file).inner@ + ser_dict(*dictionary),
            map_result_ok(
                contents_map,
                oid,
                r,
                dict_contents(
                    dictionary.entries@,
                    dictionary.entries@.len() as int,
                    old(file).inner@.len() as int + 2,
                ),
            ),
        decreases *dictionary,
    {
        let ghost cm0 = contents_map;
        let ghost es = dictionary.entries@;
        let ghost dpos: int = old(file).inner@.len() as int + 2;
        let mut cm = contents_map;
        file.write_byte(60);
        file.write_byte(60);
        let n = dictionary.entries.len();
        let mut i: usize = 0;
        while i < n
            invariant
                i <= n,
                n == es.len(),
                es == dictionary.entries@,
                file.wf(),
                file.inner@ == old(file).inner@ + seq![60u8, 60] + ser_dict_entries(
                    es,
                    i as int,
                ),
                dpos == old(file).inner@.len() as int + 2,
                oid.is_some() && cm0.is_some() ==> old(file).inner@.len() + ser_dict(
                    *dictionary,
                ).len() <= u32::MAX,
                cm0.is_none() <==> cm.is_none(),
                map_result_ok(cm0, oid, cm, dict_contents(es, i as int, dpos)),
            decreases n - i,
        {
            let entry = &dictionary.entries[i];
            let key_is_contents = is_contents_key(&entry.0);
            Writer::write_name(file, entry.0.as_slice());
            if Writer::need_separator(&entry.1) {
                file.write_byte(32);
            }
            proof {
                lemma_ser_dict_entries_len_mono(es, i + 1, es.len() as int);
                assert(ser_dict_entries(es, i + 1) == ser_dict_entries(es, i as int)
                    + encoded_name(es[i as int].0@) + (if spec_need_separator(es[i as int].1) {
                    seq![32u8]
                } else {
                    Seq::<u8>::empty()
                }) + ser_obj(es[i as int].1));
                assert(ser_dict(*dictionary).len() == 4 + ser_dict_entries(
                    es,
                    es.len() as int,
                ).len());
            }
            let start = file.bytes_written;
            let ghost vpos = file.inner@.len() as int;
            cm = Writer::write_object(file, &entry.1, oid, cm);
            let end = file.bytes_written;
            let ghost rc = rec_contents(es[i as int].1, vpos);
            let ghost vend = vpos + ser_obj(es[i as int].1).len();
            if key_is_contents {
                if oid.is_some() {
                    let id = oid.unwrap();
                    cm = match cm {
                        Some(mut m) => {
                            assert(vend <= old(file).inner@.len() + ser_dict(
                                *dictionary,
                            ).len());
                            m.insert(id, (start as u32, end as u32));
                            Some(m)
                        },
                        None => None,
                    };
                }
            }
            proof {
                assert(file.inner@ =~= old(file).inner@ + seq![60u8, 60] + ser_dict_entries(
                    es,
                    i + 1,
                ));
                if oid.is_some() && cm0.is_some() {
                    let id = oid.unwrap();
                    let m0 = cm0.unwrap()@;
                    let prev = dict_contents(es, i as int, dpos);
                    let cand = if es[i as int].0@ == contents_key() {
                        Some((es[i as int].1, vpos, vend))
                    } else {
                        rc
                    };
                    assert(dict_contents(es, i + 1, dpos) == (if cand.is_some() {
                        cand
                    } else {
                        prev
                    }));
                    if cand.is_some() {
                        let cs = (cand.unwrap().1 as u32, cand.unwrap().2 as u32);
                        let after_call = recorded_view(recorded_view(m0, id, prev), id, rc);
                        if es[i as int].0@ == contents_key() {
                            assert(after_call.insert(id, cs) =~= m0.insert(id, cs));
                        } else {
                            assert(after_call =~= m0.insert(id, cs));
                        }
                    }
                }
            }
            i = i + 1;
        }
        file.write_byte(62);
        file.write_byte(62);
        assert(file.inner@ =~= old(file).inner@ + ser_dict(*dictionary));
        cm
    }


    /// Emit one indirect object: record the sink's current offset as the
    /// id's normal cross-reference entry, then write `{id} {generation} obj`,
    /// the object, and `endobj` with its line terminator.
    pub fn write_indirect_object(
        file: &mut CountingWrite,
        oid: ObjectId,
        object: &Object,
        xref: &mut Xref,
        contents_map: Option<ContentsMap>,
    ) -> (r: Option<ContentsMap>)
        requires
            old(file).wf(),
            old(xref).wf(),
            oid.0 >= 1,
            old(file).inner@.len() <= u32::MAX,
            contents_map.is_some() ==> old(file).inner@.len() + indirect_bytes(
                oid,
                *object,
            ).len() <= u32::MAX,
        ensures
            final(file).wf(),
            final(xref).wf(),
            final(file).inner@ == old(file).inner@ + indirect_bytes(oid, *object),
            final(xref).entries@ == spec_xref_insert(
                old(xref).entries@,
                oid.0,
                XrefEntry::Normal { offset: old(file).inner@.len() as u32, generation: oid.1 },
            ),
            final(xref).size == old(xref).size,
            map_result_ok(
                contents_map,
                Some(oid),
                r,
                rec_contents(*object, old(file).inner@.len() as int + obj_header(oid, *object).len()),
            ),
    {
        let offset = file.bytes_written as u32;
        xref.insert(oid.0, XrefEntry::Normal { offset, generation: oid.1 });
        file.write_decimal(oid.0 as i64);
        file.write_byte(32);
        file.write_decimal(oid.1 as i64);
        file.write_byte(32);
        file.write_byte(111);
        file.write_byte(98);
        file.write_byte(106);
        if Writer::need_separator(object) {
            file.write_byte(32);
        }
        assert(file.inner@ =~= old(file).inner@ + obj_header(oid, *object));
        let r = Writer::write_object(file, object, Some(oid), contents_map);
        if Writer::need_end_separator(object) {
            file.write_byte(32);
        }
        file.write_byte(101);
        file.write_byte(110);
        file.write_byte(100);
        file.write_byte(111);
        file.write_byte(98);
        file.write_byte(106);
        file.write_byte(10);
        assert(file.inner@ =~= old(file).inner@ + indirect_bytes(oid, *object));
        r
    }

    /// Write the classic cross-reference table: `xref`, then one subsection
    /// per maximal run of consecutive ids; the subsection that starts at id 0
    /// carries the synthetic free head entry.
    #[verifier::rlimit(100)]
    pub fn write_xref(file: &mut CountingWrite, xref: &Xref)
        requires
            old(file).wf(),
            xref.wf(),
        ensures
            final(file).wf(),
            final(file).inner@ == old(file).inner@ + xref_table(xref.entries@),
    {
        let ghost es = xref.entries@;
        let ghost vs = with_head(es);
        proof {
            lemma_ids_lower_bound(es);
            assert(vs.drop_first() =~= es);
        }
        file.write_byte(120);
        file.write_byte(114);
        file.write_byte(101);
        file.write_byte(102);
        file.write_byte(10);
        let ghost xw = seq![120u8, 114, 101, 102, 10];
        assert(file.inner@ =~= old(file).inner@ + xw);
        let n = xref.entries.len();
        proof {
            if n > 0 {
                assert(es[n - 1].0 >= n);
            }
        }
        let mut j: usize = 0;
        while j < n && xref.entries[j].0 == (j as u32) + 1
            invariant
                j <= n,
                n == es.len(),
                es == xref.entries@,
                entries_wf(es),
                forall|k: int| 0 <= k < es.len() ==> (#[trigger] es[k].0) >= k + 1,
                forall|k: int| 0 <= k < j ==> (#[trigger] es[k].0) == k + 1,
            decreases n - j,
        {
            j = j + 1;
        }
        proof {
            lemma_run_ext_char(es, 0, j as int);
            assert(run_len(vs) == j + 1);
        }
        file.write_decimal(0);
        file.write_byte(32);
        file.write_decimal((j as i64) + 1);
        file.write_byte(10);
        let ghost run0 = vs.take(j + 1);
        let ghost hdr0 = dec_digits(0) + seq![32u8] + dec_digits((j + 1) as nat) + seq![10u8];
        assert(file.inner@ =~= old(file).inner@ + xw + hdr0);
        file.write_padded10(0);
        file.write_byte(32);
        file.write_padded5(65535);
        file.write_byte(32);
        file.write_byte(102);
        file.write_byte(32);
        file.write_byte(10);
        proof {
            assert(run0[0] == (0u32, XrefEntry::Free));
            assert(section_lines(run0, 0) =~= Seq::<u8>::empty());
            assert(section_lines(run0, 1) =~= xref_line(XrefEntry::Free));
            assert(file.inner@ =~= old(file).inner@ + xw + hdr0 + section_lines(run0, 1));
        }
        let mut m: usize = 0;
        while m < j
            invariant
                m <= j,
                j <= n,
                n == es.len(),
                es == xref.entries@,
                file.wf(),
                run0 == vs.take(j + 1),
                vs == with_head(es),
                forall|k: int| 0 <= k < j ==> (#[trigger] es[k].0) == k + 1,
                file.inner@ == old(file).inner@ + xw + hdr0 + section_lines(run0, 1 + m),
            decreases j - m,
        {
            let e = &xref.entries[m];
            match &e.1 {
                XrefEntry::Normal { offset, generation } => {
                    file.write_padded10(*offset);
                    file.write_byte(32);
                    file.write_padded5(*generation);
                    file.write_byte(32);
                    file.write_byte(110);
                    file.write_byte(32);
                    file.write_byte(10);
                },
                _ => {
                    file.write_padded10(0);
                    file.write_byte(32);
                    file.write_padded5(65535);
                    file.write_byte(32);
                    file.write_byte(102);
                    file.write_byte(32);
                    file.write_byte(10);
                },
            }
            proof {
                assert(run0[1 + m] == es[m as int]);
                assert(es[m as int].0 == m + 1);
                assert(file.inner@ =~= old(file).inner@ + xw + hdr0 + section_lines(
                    run0,
                    1 + m + 1,
                ));
            }
            m = m + 1;
        }
        let ghost mut done: Seq<u8> = section_bytes(run0);
        proof {
            assert(run0.len() == j + 1);
            assert(section_bytes(run0) =~= hdr0 + section_lines(run0, j + 1));
            assert(file.inner@ =~= old(file).inner@ + xw + done);
            assert(xref_sections(vs) == section_bytes(vs.take(run_len(vs) as int))
                + xref_sections(vs.skip(run_len(vs) as int)));
            assert(vs.take(run_len(vs) as int) == run0);
            assert(vs.skip(j + 1) =~= es.skip(j as int));
            assert(done + xref_sections(es.skip(j as int)) =~= xref_sections(vs));
        }
        let mut i: usize = j;
        while i < n
            invariant
                j <= i && i <= n,
                n == es.len(),
                es == xref.entries@,
                file.wf(),
                entries_wf(es),
                forall|k: int| 0 <= k < es.len() ==> (#[trigger] es[k].0) >= k + 1,
                vs == with_head(es),
                file.inner@ == old(file).inner@ + xw + done,
                done + xref_sections(es.skip(i as int)) == xref_sections(vs),
            decreases n - i,
        {
            let mut k: usize = i + 1;
            while k < n && xref.entries[k].0 == xref.entries[k - 1].0 + 1
                invariant
                    i < k && k <= n,
                    n == es.len(),
                    es == xref.entries@,
                    entries_wf(es),
                    forall|t: int| i < t < k ==> (#[trigger] es[t].0) == es[i as int].0 + (t - i),
                decreases n - k,
            {
                k = k + 1;
            }
            let ghost s2 = es.skip(i as int);
            let ghost rl: int = k - i;
            proof {
                assert(s2.drop_first() =~= es.skip(i as int + 1));
                lemma_run_ext_char(s2.drop_first(), es[i as int].0, rl - 1);
                assert(run_len(s2) == rl);
                assert(es[n - 1].0 >= n);
            }
            let ghost run = s2.take(rl);
            let ghost sec_pre = file.inner@;
            let start_id = xref.entries[i].0;
            file.write_decimal(start_id as i64);
            file.write_byte(32);
            file.write_decimal((k - i) as i64);
            file.write_byte(10);
            let ghost hdr = dec_digits(start_id as nat) + seq![32u8] + dec_digits(rl as nat)
                + seq![10u8];
            assert(file.inner@ =~= sec_pre + hdr);
            let mut m2: usize = i;
            while m2 < k
                invariant
                    i <= m2 && m2 <= k && k <= n,
                    n == es.len(),
                    es == xref.entries@,
                    file.wf(),
                    run == es.skip(i as int).take(k - i),
                    forall|t: int| 0 <= t < es.len() ==> (#[trigger] es[t].0) >= t + 1,
                    file.inner@ == sec_pre + hdr + section_lines(run, m2 - i),
                decreases k - m2,
            {
                let e = &xref.entries[m2];
                match &e.1 {
                    XrefEntry::Normal { offset, generation } => {
                        file.write_padded10(*offset);
                        file.write_byte(32);
                        file.write_padded5(*generation);
                        file.write_byte(32);
                        file.write_byte(110);
                        file.write_byte(32);
                        file.write_byte(10);
                    },
                    _ => {
                        file.write_padded10(0);
                        file.write_byte(32);
                        file.write_padded5(65535);
                        file.write_byte(32);
                        file.write_byte(102);
                        file.write_byte(32);
                        file.write_byte(10);
                    },
                }
                proof {
                    assert(run[m2 - i] == es[m2 as int]);
                    assert(es[m2 as int].0 >= 1);
                    assert(file.inner@ =~= sec_pre + hdr + section_lines(run, m2 - i + 1));
                }
                m2 = m2 + 1;
            }
            proof {
                assert(run[0] == es[i as int]);
                assert(run.len() == rl);
                assert(section_bytes(run) =~= hdr + section_lines(run, rl));
                assert(file.inner@ =~= old(file).inner@ + xw + (done + section_bytes(run)));
                assert(xref_sections(s2) == section_bytes(s2.take(run_len(s2) as int))
                    + xref_sections(s2.skip(run_len(s2) as int)));
                assert(s2.take(run_len(s2) as int) == run);
                assert(s2.skip(rl) =~= es.skip(k as int));
                done = done + section_bytes(run);
                assert(done + xref_sections(es.skip(k as int)) =~= xref_sections(vs));
            }
            i = k;
        }
        proof {
            assert(es.skip(n as int).len() == 0);
            assert(done =~= xref_sections(vs));
            assert(file.inner@ =~= old(file).inner@ + xref_table(es));
        }
    }

    /// Produce the stream encoding of the cross-reference index: the raw
    /// 7-byte records, and the (start, count) list for the stream
    /// dictionary's `Index` entry.
    #[verifier::rlimit(100)]
    pub fn write_xref_stream(xref: &Xref) -> (r: (Vec<u8>, Vec<(i64, i64)>))
        requires
            xref.wf(),
        ensures
            r.0@ == xref_stream_data(with_head(xref.entries@)),
            r.1@ == xref_indices(with_head(xref.entries@)),
    {
        let ghost es = xref.entries@;
        let ghost vs = with_head(es);
        proof {
            lemma_ids_lower_bound(es);
            assert(vs.drop_first() =~= es);
        }
        let mut out: Vec<u8> = Vec::new();
        let mut indices: Vec<(i64, i64)> = Vec::new();
        let n = xref.entries.len();
        proof {
            if n > 0 {
                assert(es[n - 1].0 >= n);
            }
        }
        let mut j: usize = 0;
        while j < n && xref.entries[j].0 == (j as u32) + 1
            invariant
                j <= n,
                n == es.len(),
                es == xref.entries@,
                entries_wf(es),
                forall|k: int| 0 <= k < es.len() ==> (#[trigger] es[k].0) >= k + 1,
                forall|k: int| 0 <= k < j ==> (#[trigger] es[k].0) == k + 1,
            decreases n - j,
        {
            j = j + 1;
        }
        proof {
            lemma_run_ext_char(es, 0, j as int);
            assert(run_len(vs) == j + 1);
        }
        indices.push((0, (j as i64) + 1));
        let ghost run0 = vs.take(j + 1);
        push_u8_raw(&mut out, 0);
        push_u32_be(&mut out, 0);
        push_u16_be(&mut out, 65535);
        proof {
            assert(run0[0] == (0u32, XrefEntry::Free));
            assert(stream_recs(run0, 0) =~= Seq::<u8>::empty());
            assert(stream_recs(run0, 1) =~= xref_rec(XrefEntry::Free));
            assert(out@ =~= stream_recs(run0, 1));
        }
        let mut m: usize = 0;
        while m < j
            invariant
                m <= j,
                j <= n,
                n == es.len(),
                es == xref.entries@,
                run0 == vs.take(j + 1),
                vs == with_head(es),
                forall|k: int| 0 <= k < j ==> (#[trigger] es[k].0) == k + 1,
                out@ == stream_recs(run0, 1 + m),
                indices@ == seq![(0i64, (j + 1) as i64)],
            decreases j - m,
        {
            let e = &xref.entries[m];
            match &e.1 {
                XrefEntry::Normal { offset, generation } => {
                    push_u8_raw(&mut out, 1);
                    push_u32_be(&mut out, *offset);
                    push_u16_be(&mut out, *generation);
                },
                XrefEntry::Compressed { container, index } => {
                    push_u8_raw(&mut out, 2);
                    push_u32_be(&mut out, *container);
                    push_u16_be(&mut out, *index);
                },
                XrefEntry::Free => {
                    push_u8_raw(&mut out, 0);
                    push_u32_be(&mut out, 0);
                    push_u16_be(&mut out, 65535);
                },
            }
            proof {
                assert(run0[1 + m] == es[m as int]);
                assert(es[m as int].0 == m + 1);
                assert(out@ =~= stream_recs(run0, 1 + m + 1));
            }
            m = m + 1;
        }
        let ghost mut done: Seq<u8> = stream_recs(run0, j + 1);
        let ghost mut done_idx: Seq<(i64, i64)> = seq![(0i64, (j + 1) as i64)];
        proof {
            assert(xref_stream_data(vs) == stream_recs(
                vs.take(run_len(vs) as int),
                run_len(vs) as int,
            ) + xref_stream_data(vs.skip(run_len(vs) as int)));
            assert(xref_indices(vs) == seq![(vs[0].0 as i64, run_len(vs) as i64)]
                + xref_indices(vs.skip(run_len(vs) as int)));
            assert(vs.take(run_len(vs) as int) == run0);
            assert(vs.skip(j + 1) =~= es.skip(j as int));
            assert(done + xref_stream_data(es.skip(j as int)) =~= xref_stream_data(vs));
            assert(done_idx + xref_indices(es.skip(j as int)) =~= xref_indices(vs));
        }
        let mut i: usize = j;
        while i < n
            invariant
                j <= i && i <= n,
                n == es.len(),
                es == xref.entries@,
                entries_wf(es),
                forall|k: int| 0 <= k < es.len() ==> (#[trigger] es[k].0) >= k + 1,
                vs == with_head(es),
                out@ == done,
                indices@ == done_idx,
                done + xref_stream_data(es.skip(i as int)) == xref_stream_data(vs),
                done_idx + xref_indices(es.skip(i as int)) == xref_indices(vs),
            decreases n - i,
        {
            let mut k: usize = i + 1;
            while k < n && xref.entries[k].0 == xref.entries[k - 1].0 + 1
                invariant
                    i < k && k <= n,
                    n == es.len(),
                    es == xref.entries@,
                    entries_wf(es),
                    forall|t: int| i < t < k ==> (#[trigger] es[t].0) == es[i as int].0 + (t - i),
                decreases n - k,
            {
                k = k + 1;
            }
            let ghost s2 = es.skip(i as int);
            let ghost rl: int = k - i;
            proof {
                assert(s2.drop_first() =~= es.skip(i as int + 1));
                lemma_run_ext_char(s2.drop_first(), es[i as int].0, rl - 1);
                assert(run_len(s2) == rl);
                assert(es[n - 1].0 >= n);
            }
            let ghost run = s2.take(rl);
            let ghost rec_pre = out@;
            let start_id = xref.entries[i].0;
            indices.push((start_id as i64, (k - i) as i64));
            let mut m2: usize = i;
            while m2 < k
                invariant
                    i <= m2 && m2 <= k && k <= n,
                    n == es.len(),
                    es == xref.entries@,
                    run == es.skip(i as int).take(k - i),
                    forall|t: int| 0 <= t < es.len() ==> (#[trigger] es[t].0) >= t + 1,
                    out@ == rec_pre + stream_recs(run, m2 - i),
                    indices@ == done_idx + seq![(start_id as i64, (k - i) as i64)],
                decreases k - m2,
            {
                let e = &xref.entries[m2];
                match &e.1 {
                    XrefEntry::Normal { offset, generation } => {
                        push_u8_raw(&mut out, 1);
                        push_u32_be(&mut out, *offset);
                        push_u16_be(&mut out, *generation);
                    },
                    XrefEntry::Compressed { container, index } => {
                        push_u8_raw(&mut out, 2);
                        push_u32_be(&mut out, *container);
                        push_u16_be(&mut out, *index);
                    },
                    XrefEntry::Free => {
                        push_u8_raw(&mut out, 0);
                        push_u32_be(&mut out, 0);
                        push_u16_be(&mut out, 65535);
                    },
                }
                proof {
                    assert(run[m2 - i] == es[m2 as int]);
                    assert(es[m2 as int].0 >= 1);
                    assert(out@ =~= rec_pre + stream_recs(run, m2 - i + 1));
                }
                m2 = m2 + 1;
            }
            proof {
                assert(run[0] == es[i as int]);
                assert(run.len() == rl);
                assert(xref_stream_data(s2) == stream_recs(
                    s2.take(run_len(s2) as int),
                    run_len(s2) as int,
                ) + xref_stream_data(s2.skip(run_len(s2) as int)));
                assert(xref_indices(s2) == seq![(s2[0].0 as i64, run_len(s2) as i64)]
                    + xref_indices(s2.skip(run_len(s2) as int)));
                assert(s2.take(run_len(s2) as int) == run);
                assert(s2.skip(rl) =~= es.skip(k as int));
                done = done + stream_recs(run, rl);
                done_idx = done_idx + seq![(start_id as i64, rl as i64)];
                assert(out@ =~= done);
                assert(indices@ =~= done_idx);
                assert(done + xref_stream_data(es.skip(k as int)) =~= xref_stream_data(vs));
                assert(done_idx + xref_indices(es.skip(k as int)) =~= xref_indices(vs));
            }
            i = k;
        }
        proof {
            assert(es.skip(n as int).len() == 0);
            assert(out@ =~= xref_stream_data(vs));
            assert(indices@ =~= xref_indices(vs));
        }
        (out, indices)
    }

    /// Serialize a stream object: its dictionary, `stream\n`, the raw content
    /// bytes, `endstream`.
    pub fn write_stream(
        file: &mut CountingWrite,
        stream: &Stream,
        oid: Option<ObjectId>,
        contents_map: Option<ContentsMap>,
    ) -> (r: Option<ContentsMap>)
        requires
            old(file).wf(),
            oid.is_some() && contents_map.is_some() ==> old(file).inner@.len() + ser_obj(
                Object::Stream(*stream),
            ).len() <= u32::MAX,
        ensures
            final(file).wf(),
            final(file).inner@ == old(file).inner@ + ser_obj(Object::Stream(*stream)),
            map_result_ok(
                contents_map,
                oid,
                r,
                dict_contents(
                    stream.dict.entries@,
                    stream.dict.entries@.len() as int,
                    old(file).inner@.len() as int + 2,
                ),
            ),
        decreases *stream,
    {
        proof {
            assert(ser_obj(Object::Stream(*stream)).len() >= ser_dict(stream.dict).len());
        }
        let cm = Writer::write_dictionary(file, &stream.dict, oid, contents_map);
        file.write_byte(115);
        file.write_byte(116);
        file.write_byte(114);
        file.write_byte(101);
        file.write_byte(97);
        file.write_byte(109);
        file.write_byte(10);
        file.write_all(stream.content.as_slice());
        file.write_byte(101);
        file.write_byte(110);
        file.write_byte(100);
        file.write_byte(115);
        file.write_byte(116);
        file.write_byte(114);
        file.write_byte(101);
        file.write_byte(97);
        file.write_byte(109);
        assert(file.inner@ =~= old(file).inner@ + ser_obj(Object::Stream(*stream)));
        cm
    }
}

} // verus!
