//! The byte-level meaning of the encoder: for every object shape, the exact
//! sequence of bytes the serializer must produce, and the span of the value
//! stored under a `Contents` dictionary key.

use vstd::prelude::*;
use crate::object::{Dictionary, Object, StringFormat};

verus! {

// ---------------------------------------------------------------------------
// Decimal text
// ---------------------------------------------------------------------------

/// The decimal digits of `n`, most significant first, as ASCII bytes.
pub open spec fn dec_digits(n: nat) -> Seq<u8>
    decreases n,
{
    if n < 10 {
        seq![(48 + n) as u8]
    } else {
        dec_digits(n / 10) + seq![(48 + n % 10) as u8]
    }
}

/// Decimal text of a signed integer: a `-` sign for negative values.
pub open spec fn dec_int(v: int) -> Seq<u8> {
    if v < 0 {
        seq![45u8] + dec_digits((-v) as nat)
    } else {
        dec_digits(v as nat)
    }
}

pub open spec fn pow10(k: nat) -> nat
    decreases k,
{
    if k == 0 {
        1
    } else {
        10 * pow10((k - 1) as nat)
    }
}

/// `n` in exactly `w` decimal digits, zero-padded on the left.
/// Meaningful for `n < pow10(w)`.
pub open spec fn padded_dec(n: nat, w: nat) -> Seq<u8> {
    Seq::new(w, |i: int| (48 + (n / pow10((w - 1 - i) as nat)) % 10) as u8)
}

// ---------------------------------------------------------------------------
// Hexadecimal text
// ---------------------------------------------------------------------------

/// Uppercase hexadecimal digit for `d < 16`.
pub open spec fn hex_digit(d: u8) -> u8 {
    if d < 10 {
        (48 + d) as u8
    } else {
        (55 + d) as u8
    }
}

/// The two uppercase hex digits of a byte.
pub open spec fn hex_pair(b: u8) -> Seq<u8> {
    seq![hex_digit((b / 16) as u8), hex_digit((b % 16) as u8)]
}

// ---------------------------------------------------------------------------
// Name encoding
// ---------------------------------------------------------------------------

/// A byte of a name must be `#XX`-escaped when it is a whitespace or delimiter
/// byte — space, tab, LF, CR, FF, `(`, `)`, `<`, `>`, `[`, `]`, `{`, `}`,
/// `/`, `%`, `#` — or lies outside the printable range 33..=126.
pub open spec fn is_name_escaped(b: u8) -> bool {
    b < 33 || b > 126 || b == 35 || b == 37 || b == 40 || b == 41 || b == 47 || b == 60 || b == 62
        || b == 91 || b == 93 || b == 123 || b == 125
}

/// The bytes a single name byte contributes: `#` plus two uppercase hex
/// digits when escaped, the byte itself otherwise.
pub open spec fn name_byte_enc(b: u8) -> Seq<u8> {
    if is_name_escaped(b) {
        seq![35u8] + hex_pair(b)
    } else {
        seq![b]
    }
}

/// Encoding of the first `n` bytes of a name body.
pub open spec fn enc_name_body(s: Seq<u8>, n: int) -> Seq<u8>
    decreases n,
{
    if n <= 0 {
        Seq::empty()
    } else {
        enc_name_body(s, n - 1) + name_byte_enc(s[n - 1])
    }
}

/// A name: `/` followed by the escaped body.
pub open spec fn encoded_name(s: Seq<u8>) -> Seq<u8> {
    seq![47u8] + enc_name_body(s, s.len() as int)
}

// ---------------------------------------------------------------------------
// Literal string encoding
// ---------------------------------------------------------------------------

/// The number of unmatched `(` after scanning the first `i` bytes: a `(`
/// raises the count, a `)` lowers a positive count (a balanced pair), and a
/// `)` at count zero is an unmatched close.
pub open spec fn paren_depth(s: Seq<u8>, i: int) -> nat
    decreases i,
{
    if i <= 0 {
        0
    } else {
        let d = paren_depth(s, i - 1);
        if s[i - 1] == 40 {
            d + 1
        } else if s[i - 1] == 41 {
            if d > 0 {
                (d - 1) as nat
            } else {
                0
            }
        } else {
            d
        }
    }
}

/// Whether the byte at index `j` is escaped with a leading backslash:
/// every `\` and CR; a `)` with no unmatched `(` before it; a `(` that no
/// later `)` ever matches.
pub open spec fn lit_marked(s: Seq<u8>, j: int) -> bool {
    if s[j] == 92 || s[j] == 13 {
        true
    } else if s[j] == 41 {
        paren_depth(s, j) == 0
    } else if s[j] == 40 {
        forall|k: int| j < k <= s.len() ==> paren_depth(s, k) > paren_depth(s, j)
    } else {
        false
    }
}

/// The bytes index `j` contributes: escaped bytes get a leading `\`, and an
/// escaped CR is rewritten as `\r`; unmarked bytes are copied verbatim.
pub open spec fn lit_byte_enc(s: Seq<u8>, j: int) -> Seq<u8> {
    if lit_marked(s, j) {
        seq![92u8, if s[j] == 13 { 114u8 } else { s[j] }]
    } else {
        seq![s[j]]
    }
}

/// Encoding of the first `n` bytes of a literal string body.
pub open spec fn lit_body(s: Seq<u8>, n: int) -> Seq<u8>
    decreases n,
{
    if n <= 0 {
        Seq::empty()
    } else {
        lit_body(s, n - 1) + lit_byte_enc(s, n - 1)
    }
}

/// A literal string: the escaped body wrapped in `(` … `)`.
pub open spec fn encoded_literal(s: Seq<u8>) -> Seq<u8> {
    seq![40u8] + lit_body(s, s.len() as int) + seq![41u8]
}

/// The first `n` bytes of a hexadecimal string body.
pub open spec fn hex_body(s: Seq<u8>, n: int) -> Seq<u8>
    decreases n,
{
    if n <= 0 {
        Seq::empty()
    } else {
        hex_body(s, n - 1) + hex_pair(s[n - 1])
    }
}

/// A hexadecimal string: two uppercase digits per byte, wrapped in `<` … `>`.
pub open spec fn encoded_hex(s: Seq<u8>) -> Seq<u8> {
    seq![60u8] + hex_body(s, s.len() as int) + seq![62u8]
}

/// A string object in either format.
pub open spec fn encoded_string(s: Seq<u8>, f: StringFormat) -> Seq<u8> {
    match f {
        StringFormat::Literal => encoded_literal(s),
        StringFormat::Hexadecimal => encoded_hex(s),
    }
}

/// The four bytes of `n` in big-endian order.
pub open spec fn be32(n: u32) -> Seq<u8> {
    seq![
        (n / 0x1000000 % 256) as u8,
        (n / 0x10000 % 256) as u8,
        (n / 0x100 % 256) as u8,
        (n % 256) as u8,
    ]
}

/// The two bytes of `n` in big-endian order.
pub open spec fn be16(n: u16) -> Seq<u8> {
    seq![(n / 0x100 % 256) as u8, (n % 256) as u8]
}

// ---------------------------------------------------------------------------
// Token separators
// ---------------------------------------------------------------------------

/// True of the variants that do not begin with a delimiter byte and so need a
/// separating space after a preceding token.
pub open spec fn spec_need_separator(o: Object) -> bool {
    match o {
        Object::Null => true,
        Object::Boolean(_) => true,
        Object::Integer(_) => true,
        Object::Real(_) => true,
        Object::Reference(_) => true,
        _ => false,
    }
}

/// True of the variants that do not end with a delimiter byte and so need a
/// separating space before a following reserved token such as `endobj`.
pub open spec fn spec_need_end_separator(o: Object) -> bool {
    match o {
        Object::Null => true,
        Object::Boolean(_) => true,
        Object::Integer(_) => true,
        Object::Real(_) => true,
        Object::Name(_) => true,
        Object::Reference(_) => true,
        Object::Stream(_) => true,
        _ => false,
    }
}

// ---------------------------------------------------------------------------
// Object serialization
// ---------------------------------------------------------------------------

/// The exact bytes the serializer produces for an object.
pub open spec fn ser_obj(o: Object) -> Seq<u8>
    decreases o,
{
    match o {
        Object::Null => seq![110u8, 117, 108, 108],  // null
        Object::Boolean(b) => if b {
            seq![116u8, 114, 117, 101]  // true
        } else {
            seq![102u8, 97, 108, 115, 101]  // false
        },
        Object::Integer(i) => dec_int(i as int),
        Object::Real(t) => t@,
        Object::Name(nm) => encoded_name(nm@),
        Object::String(s, StringFormat::Literal) => encoded_literal(s@),
        Object::String(s, StringFormat::Hexadecimal) => encoded_hex(s@),
        Object::Array(a) => seq![91u8] + ser_items(a@, a@.len() as int) + seq![93u8],
        Object::Dictionary(d) => ser_dict(d),
        Object::Stream(st) => ser_dict(st.dict) + seq![115u8, 116, 114, 101, 97, 109, 10]
            + st.content@ + seq![101u8, 110, 100, 115, 116, 114, 101, 97, 109],
        Object::Reference(id) => dec_digits(id.0 as nat) + seq![32u8] + dec_digits(id.1 as nat)
            + seq![32u8, 82],
    }
}

/// The bytes of the first `n` array elements: every element after the first
/// gets a single leading space when it needs a separator.
pub open spec fn ser_items(items: Seq<Object>, n: int) -> Seq<u8>
    decreases items, n,
    when n <= items.len()
{
    if n <= 0 {
        Seq::empty()
    } else {
        ser_items(items, n - 1) + (if n - 1 > 0 && spec_need_separator(items[n - 1]) {
            seq![32u8]
        } else {
            Seq::<u8>::empty()
        }) + ser_obj(items[n - 1])
    }
}

/// A dictionary: `<<`, the entries in insertion order, `>>`.
pub open spec fn ser_dict(d: Dictionary) -> Seq<u8>
    decreases d,
{
    seq![60u8, 60] + ser_dict_entries(d.entries@, d.entries@.len() as int) + seq![62u8, 62]
}

/// The bytes of the first `n` dictionary entries: the key as a name, a space
/// when the value needs a separator, then the value.
pub open spec fn ser_dict_entries(es: Seq<(Vec<u8>, Object)>, n: int) -> Seq<u8>
    decreases es, n,
    when n <= es.len()
{
    if n <= 0 {
        Seq::empty()
    } else {
        ser_dict_entries(es, n - 1) + encoded_name(es[n - 1].0@) + (if spec_need_separator(
            es[n - 1].1,
        ) {
            seq![32u8]
        } else {
            Seq::<u8>::empty()
        }) + ser_obj(es[n - 1].1)
    }
}

// ---------------------------------------------------------------------------
// Contents spans
// ---------------------------------------------------------------------------

/// The dictionary key that triggers span recording.
pub open spec fn contents_key() -> Seq<u8> {
    seq![67u8, 111, 110, 116, 101, 110, 116, 115]  // Contents
}

/// The last `Contents` value recorded while serializing `o` starting at byte
/// position `pos`: the value itself and the absolute (start, end) span of its
/// bytes. Later records override earlier ones, and a record for a key made
/// after descending into its value overrides anything recorded inside it.
pub open spec fn rec_contents(o: Object, pos: int) -> Option<(Object, int, int)>
    decreases o,
{
    match o {
        Object::Array(a) => arr_contents(a@, a@.len() as int, pos + 1),
        Object::Dictionary(d) => dict_contents(d.entries@, d.entries@.len() as int, pos + 2),
        Object::Stream(st) => dict_contents(
            st.dict.entries@,
            st.dict.entries@.len() as int,
            pos + 2,
        ),
        _ => None,
    }
}

/// The last record made by the first `n` elements of an array whose first
/// element starts at `pos` (the position just after `[`).
pub open spec fn arr_contents(items: Seq<Object>, n: int, pos: int) -> Option<(Object, int, int)>
    decreases items, n,
    when n <= items.len()
{
    if n <= 0 {
        None
    } else {
        let prev = arr_contents(items, n - 1, pos);
        let vpos = pos + ser_items(items, n - 1).len() + (if n - 1 > 0 && spec_need_separator(
            items[n - 1],
        ) {
            1int
        } else {
            0int
        });
        let cand = rec_contents(items[n - 1], vpos);
        if cand.is_some() {
            cand
        } else {
            prev
        }
    }
}

/// The last record made by the first `n` entries of a dictionary whose first
/// key starts at `pos` (the position just after `<<`). An entry with key
/// `Contents` records its value's span after serializing the value.
pub open spec fn dict_contents(es: Seq<(Vec<u8>, Object)>, n: int, pos: int) -> Option<
    (Object, int, int),
>
    decreases es, n,
    when n <= es.len()
{
    if n <= 0 {
        None
    } else {
        let prev = dict_contents(es, n - 1, pos);
        let vpos = pos + ser_dict_entries(es, n - 1).len() + encoded_name(es[n - 1].0@).len() + (
        if spec_need_separator(es[n - 1].1) {
            1int
        } else {
            0int
        });
        let cand = if es[n - 1].0@ == contents_key() {
            Some((es[n - 1].1, vpos, vpos + ser_obj(es[n - 1].1).len()))
        } else {
            rec_contents(es[n - 1].1, vpos)
        };
        if cand.is_some() {
            cand
        } else {
            prev
        }
    }
}

/// The header of an indirect object: `{id} {generation} obj`, plus a space
/// when the object needs a leading separator.
pub open spec fn obj_header(oid: (u32, u16), o: Object) -> Seq<u8> {
    dec_digits(oid.0 as nat) + seq![32u8] + dec_digits(oid.1 as nat) + seq![32u8, 111, 98, 106]
        + (if spec_need_separator(o) {
        seq![32u8]
    } else {
        Seq::<u8>::empty()
    })
}

/// `endobj` and its line terminator, plus a space when the object needs a
/// trailing separator.
pub open spec fn obj_footer(o: Object) -> Seq<u8> {
    (if spec_need_end_separator(o) {
        seq![32u8]
    } else {
        Seq::<u8>::empty()
    }) + seq![101u8, 110, 100, 111, 98, 106, 10]
}

/// The full emission of one indirect object.
pub open spec fn indirect_bytes(oid: (u32, u16), o: Object) -> Seq<u8> {
    obj_header(oid, o) + ser_obj(o) + obj_footer(o)
}

// ---------------------------------------------------------------------------
// Prefix lemmas
// ---------------------------------------------------------------------------

/// Serializing more array elements only appends bytes.
pub proof fn lemma_ser_items_len_mono(items: Seq<Object>, i: int, j: int)
    requires
        0 <= i <= j <= items.len(),
    ensures
        ser_items(items, i).len() <= ser_items(items, j).len(),
    decreases j,
{
    if i < j {
        lemma_ser_items_len_mono(items, i, j - 1);
    }
}

/// Serializing more dictionary entries only appends bytes.
pub proof fn lemma_ser_dict_entries_len_mono(es: Seq<(Vec<u8>, Object)>, i: int, j: int)
    requires
        0 <= i <= j <= es.len(),
    ensures
        ser_dict_entries(es, i).len() <= ser_dict_entries(es, j).len(),
    decreases j,
{
    if i < j {
        lemma_ser_dict_entries_len_mono(es, i, j - 1);
    }
}

// ---------------------------------------------------------------------------
// Escaping laws
// ---------------------------------------------------------------------------

/// The name-escaping rule: a byte is written as `#` plus its two uppercase
/// hex digits exactly when it is space, tab, LF, CR, FF, one of
/// `( ) < > [ ] { } / % #`, or outside the printable range 33..=126; every
/// other byte appears literally.
pub proof fn lemma_name_escape_rule(b: u8)
    ensures
        is_name_escaped(b) == (b == 32 || b == 9 || b == 10 || b == 13 || b == 12 || b == 40
            || b == 41 || b == 60 || b == 62 || b == 91 || b == 93 || b == 123 || b == 125
            || b == 47 || b == 37 || b == 35 || b < 33 || b > 126),
        is_name_escaped(b) ==> name_byte_enc(b) == seq![
            35u8,
            hex_digit((b / 16) as u8),
            hex_digit((b % 16) as u8),
        ],
        !is_name_escaped(b) ==> name_byte_enc(b) == seq![b],
{
    if is_name_escaped(b) {
        assert(name_byte_enc(b) =~= seq![
            35u8,
            hex_digit((b / 16) as u8),
            hex_digit((b % 16) as u8),
        ]);
    }
}

/// The literal-string escaping rule: every `\` and CR byte is escaped; a
/// `)` is escaped exactly when no unmatched `(` precedes it, so balanced
/// pairs are never escaped; a `(` is escaped exactly when no later `)` ever
/// matches it (the count of unmatched opens never returns to its level);
/// an escaped CR is rewritten `\r`, any other escaped byte is `\` plus the
/// byte, and an unescaped byte is copied verbatim.
pub proof fn lemma_literal_escape_rule(s: Seq<u8>, j: int)
    requires
        0 <= j < s.len(),
    ensures
        (s[j] == 92 || s[j] == 13) ==> lit_marked(s, j),
        s[j] == 41 ==> (lit_marked(s, j) <==> paren_depth(s, j) == 0),
        s[j] == 40 ==> (lit_marked(s, j) <==> (forall|k: int|
            j < k <= s.len() ==> paren_depth(s, k) > paren_depth(s, j))),
        lit_marked(s, j) ==> lit_byte_enc(s, j) == seq![
            92u8,
            if s[j] == 13 {
                114u8
            } else {
                s[j]
            },
        ],
        !lit_marked(s, j) ==> lit_byte_enc(s, j) == seq![s[j]],
{
}

// ---------------------------------------------------------------------------
// Contents-span law
// ---------------------------------------------------------------------------

proof fn lemma_arr_span(items: Seq<Object>, n: int, pos: int)
    requires
        0 <= n <= items.len(),
        arr_contents(items, n, pos).is_some(),
    ensures
        ({
            let (v, s, e) = arr_contents(items, n, pos).unwrap();
            &&& pos <= s <= e <= pos + ser_items(items, n).len()
            &&& e - s == ser_obj(v).len()
            &&& ser_items(items, n).subrange(s - pos, e - pos) == ser_obj(v)
        }),
    decreases items, n,
{
    let vpos = pos + ser_items(items, n - 1).len() + (if n - 1 > 0 && spec_need_separator(
        items[n - 1],
    ) {
        1int
    } else {
        0int
    });
    let cand = rec_contents(items[n - 1], vpos);
    if cand.is_some() {
        lemma_contents_span_exact(items[n - 1], vpos);
        let (v, s, e) = cand.unwrap();
        assert(ser_items(items, n) == ser_items(items, n - 1) + (if n - 1 > 0
            && spec_need_separator(items[n - 1]) {
            seq![32u8]
        } else {
            Seq::<u8>::empty()
        }) + ser_obj(items[n - 1]));
        assert(ser_items(items, n).subrange(s - pos, e - pos) =~= ser_obj(
            items[n - 1],
        ).subrange(s - vpos, e - vpos));
    } else {
        lemma_arr_span(items, n - 1, pos);
        let (v, s, e) = arr_contents(items, n - 1, pos).unwrap();
        lemma_ser_items_len_mono(items, n - 1, n);
        assert(ser_items(items, n).subrange(s - pos, e - pos) =~= ser_items(
            items,
            n - 1,
        ).subrange(s - pos, e - pos));
    }
}

proof fn lemma_dict_span(es: Seq<(Vec<u8>, Object)>, n: int, pos: int)
    requires
        0 <= n <= es.len(),
        dict_contents(es, n, pos).is_some(),
    ensures
        ({
            let (v, s, e) = dict_contents(es, n, pos).unwrap();
            &&& pos <= s <= e <= pos + ser_dict_entries(es, n).len()
            &&& e - s == ser_obj(v).len()
            &&& ser_dict_entries(es, n).subrange(s - pos, e - pos) == ser_obj(v)
        }),
    decreases es, n,
{
    let vpos = pos + ser_dict_entries(es, n - 1).len() + encoded_name(es[n - 1].0@).len() + (
    if spec_need_separator(es[n - 1].1) {
        1int
    } else {
        0int
    });
    let cand = if es[n - 1].0@ == contents_key() {
        Some((es[n - 1].1, vpos, vpos + ser_obj(es[n - 1].1).len()))
    } else {
        rec_contents(es[n - 1].1, vpos)
    };
    assert(ser_dict_entries(es, n) == ser_dict_entries(es, n - 1) + encoded_name(es[n - 1].0@)
        + (if spec_need_separator(es[n - 1].1) {
        seq![32u8]
    } else {
        Seq::<u8>::empty()
    }) + ser_obj(es[n - 1].1));
    if cand.is_some() {
        let (v, s, e) = cand.unwrap();
        if es[n - 1].0@ == contents_key() {
            assert(ser_dict_entries(es, n).subrange(s - pos, e - pos) =~= ser_obj(v));
        } else {
            lemma_contents_span_exact(es[n - 1].1, vpos);
            assert(ser_dict_entries(es, n).subrange(s - pos, e - pos) =~= ser_obj(
                es[n - 1].1,
            ).subrange(s - vpos, e - vpos));
        }
    } else {
        lemma_dict_span(es, n - 1, pos);
        let (v, s, e) = dict_contents(es, n - 1, pos).unwrap();
        lemma_ser_dict_entries_len_mono(es, n - 1, n);
        assert(ser_dict_entries(es, n).subrange(s - pos, e - pos) =~= ser_dict_entries(
            es,
            n - 1,
        ).subrange(s - pos, e - pos));
    }
}

/// The recorded span of a `Contents` value lies within the serialization of
/// the object that was being written, and re-slicing that output at the
/// recorded (start, end) yields exactly the canonical serialization of the
/// recorded value — so parsing the slice in isolation reproduces that value.
pub proof fn lemma_contents_span_exact(o: Object, pos: int)
    requires
        rec_contents(o, pos).is_some(),
    ensures
        ({
            let (v, s, e) = rec_contents(o, pos).unwrap();
            &&& pos <= s <= e <= pos + ser_obj(o).len()
            &&& e - s == ser_obj(v).len()
            &&& ser_obj(o).subrange(s - pos, e - pos) == ser_obj(v)
        }),
    decreases o,
{
    match o {
        Object::Array(a) => {
            lemma_arr_span(a@, a@.len() as int, pos + 1);
            let (v, s, e) = rec_contents(o, pos).unwrap();
            assert(ser_obj(o) == seq![91u8] + ser_items(a@, a@.len() as int) + seq![93u8]);
            assert(ser_obj(o).subrange(s - pos, e - pos) =~= ser_items(
                a@,
                a@.len() as int,
            ).subrange(s - (pos + 1), e - (pos + 1)));
        },
        Object::Dictionary(d) => {
            lemma_dict_span(d.entries@, d.entries@.len() as int, pos + 2);
            let (v, s, e) = rec_contents(o, pos).unwrap();
            assert(ser_obj(o) == seq![60u8, 60] + ser_dict_entries(
                d.entries@,
                d.entries@.len() as int,
            ) + seq![62u8, 62]);
            assert(ser_obj(o).subrange(s - pos, e - pos) =~= ser_dict_entries(
                d.entries@,
                d.entries@.len() as int,
            ).subrange(s - (pos + 2), e - (pos + 2)));
        },
        Object::Stream(st) => {
            lemma_dict_span(st.dict.entries@, st.dict.entries@.len() as int, pos + 2);
            let (v, s, e) = rec_contents(o, pos).unwrap();
            assert(ser_obj(o) == ser_dict(st.dict) + seq![115u8, 116, 114, 101, 97, 109, 10]
                + st.content@ + seq![101u8, 110, 100, 115, 116, 114, 101, 97, 109]);
            assert(ser_dict(st.dict) == seq![60u8, 60] + ser_dict_entries(
                st.dict.entries@,
                st.dict.entries@.len() as int,
            ) + seq![62u8, 62]);
            assert(ser_obj(o).subrange(s - pos, e - pos) =~= ser_dict_entries(
                st.dict.entries@,
                st.dict.entries@.len() as int,
            ).subrange(s - (pos + 2), e - (pos + 2)));
        },
        _ => {},
    }
}

} // verus!
