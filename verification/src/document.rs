//! The document assembler: a full save renders the header, every eligible
//! indirect object in ascending id order, the classic cross-reference table,
//! the trailer and the footer, in one forward pass.

use vstd::prelude::*;
use crate::object::{spec_type_name, Dictionary, Object, ObjectId};
use crate::ser::{dec_int, indirect_bytes, ser_dict};
use crate::writer::{ContentsMap, CountingWrite, Writer};
use crate::xref::{spec_xref_insert, xref_table, Xref, XrefEntry};

verus! {

/// Objects written by other subsystems, which a save must not duplicate:
/// object-stream containers, cross-reference-stream objects and
/// linearization dictionaries.
pub open spec fn spec_skipped(o: Object) -> bool {
    match spec_type_name(o) {
        Some(t) => t == seq![79u8, 98, 106, 83, 116, 109]  // ObjStm
         || t == seq![88u8, 82, 101, 102]  // XRef
         || t == seq![76u8, 105, 110, 101, 97, 114, 105, 122, 101, 100]  // Linearized
        ,
        None => false,
    }
}

/// The bytes of the first `n` objects of the table: skipped objects produce
/// nothing, every other object its full indirect emission.
pub open spec fn objs_out(objs: Seq<(ObjectId, Object)>, n: int) -> Seq<u8>
    decreases n,
    when n <= objs.len()
{
    if n <= 0 {
        Seq::empty()
    } else {
        objs_out(objs, n - 1) + (if spec_skipped(objs[n - 1].1) {
            Seq::<u8>::empty()
        } else {
            indirect_bytes(objs[n - 1].0, objs[n - 1].1)
        })
    }
}

/// The cross-reference entries after emitting the first `n` objects, when
/// the header occupies `hdr` bytes: each emitted object records its id with
/// the offset at which its emission began.
pub open spec fn xref_after(objs: Seq<(ObjectId, Object)>, n: int, hdr: int) -> Seq<
    (u32, XrefEntry),
>
    decreases n,
    when n <= objs.len()
{
    if n <= 0 {
        Seq::empty()
    } else {
        let prev = xref_after(objs, n - 1, hdr);
        if spec_skipped(objs[n - 1].1) {
            prev
        } else {
            spec_xref_insert(
                prev,
                objs[n - 1].0.0,
                XrefEntry::Normal {
                    offset: (hdr + objs_out(objs, n - 1).len()) as u32,
                    generation: objs[n - 1].0.1,
                },
            )
        }
    }
}

/// The header line: `%PDF-` + version + line terminator.
pub open spec fn header_bytes(version: Seq<u8>) -> Seq<u8> {
    seq![37u8, 80, 68, 70, 45] + version + seq![10u8]
}

/// The footer: `\n` + `startxref` + `\n` + the table's offset + `\n%%EOF`.
pub open spec fn footer_bytes(xref_start: int) -> Seq<u8> {
    seq![10u8, 115, 116, 97, 114, 116, 120, 114, 101, 102, 10] + dec_int(xref_start) + seq![
        10u8,
        37,
        37,
        69,
        79,
        70,
    ]
}

/// The whole output of a save, given the object table, the version, and the
/// trailer as it stands when it is written (with its `Size` already set).
pub open spec fn doc_output(
    objs: Seq<(ObjectId, Object)>,
    version: Seq<u8>,
    trailer: Dictionary,
) -> Seq<u8> {
    let hdr = header_bytes(version);
    let body = objs_out(objs, objs.len() as int);
    hdr + body + xref_table(xref_after(objs, objs.len() as int, hdr.len() as int)) + seq![
        116u8,
        114,
        97,
        105,
        108,
        101,
        114,
        10,
    ] + ser_dict(trailer) + footer_bytes(hdr.len() as int + body.len())
}

/// How the trailer changes during a save: its `Size` key is set to
/// `max_id + 1`, everything else is untouched.
pub open spec fn trailer_updated(before: Dictionary, after: Dictionary, size: int) -> bool {
    match before.spec_index_of(seq![83u8, 105, 122, 101]) {
        Some(i) => after.entries@ == before.entries@.update(
            i,
            (before.entries@[i].0, Object::Integer(size as i64)),
        ),
        None => {
            &&& after.entries@.len() == before.entries@.len() + 1
            &&& after.entries@.take(before.entries@.len() as int) == before.entries@
            &&& after.entries@.last().0@ == seq![83u8, 105, 122, 101]
            &&& after.entries@.last().1 == Object::Integer(size as i64)
        },
    }
}

/// Appending more objects only appends bytes.
pub proof fn lemma_objs_out_len_mono(objs: Seq<(ObjectId, Object)>, i: int, j: int)
    requires
        0 <= i <= j <= objs.len(),
    ensures
        objs_out(objs, i).len() <= objs_out(objs, j).len(),
    decreases j,
{
    if i < j {
        lemma_objs_out_len_mono(objs, i, j - 1);
    }
}

/// The in-memory document consumed by a save: the object table iterated in
/// ascending id order, the trailer, the format version, and the running
/// maximum id.
pub struct Document {
    pub objects: Vec<(ObjectId, Object)>,
    pub trailer: Dictionary,
    pub version: Vec<u8>,
    pub max_id: u32,
}

impl Document {
    /// The object table is strictly ascending by (id, generation), ids start
    /// at 1, the trailer's keys are unique, and the maximum id leaves room
    /// for the declared size `max_id + 1`.
    pub open spec fn wf(self) -> bool {
        &&& forall|i: int, j: int|
            #![trigger self.objects@[i], self.objects@[j]]
            0 <= i < j < self.objects@.len() ==> (self.objects@[i].0.0 < self.objects@[j].0.0
                || (self.objects@[i].0.0 == self.objects@[j].0.0 && self.objects@[i].0.1
                    < self.objects@[j].0.1))
        &&& forall|i: int|
            0 <= i < self.objects@.len() ==> (#[trigger] self.objects@[i].0).0 >= 1
        &&& self.trailer.wf()
        &&& self.max_id < u32::MAX
    }

    /// An empty document with the given format version.
    pub fn with_version(version: Vec<u8>) -> (d: Document)
        ensures
            d.wf(),
            d.objects@.len() == 0,
            d.trailer.entries@.len() == 0,
            d.version == version,
            d.max_id == 0,
    {
        Document {
            objects: Vec::new(),
            trailer: Dictionary::new(),
            version,
            max_id: 0,
        }
    }

    /// Add an object under an id strictly above every id in the table, and
    /// raise `max_id` to it.
    pub fn push_object(&mut self, oid: ObjectId, object: Object)
        requires
            old(self).wf(),
            oid.0 >= 1,
            oid.0 < u32::MAX,
            forall|i: int|
                0 <= i < old(self).objects@.len() ==> (#[trigger] old(self).objects@[i].0).0
                    < oid.0,
        ensures
            final(self).wf(),
            final(self).objects@ == old(self).objects@.push((oid, object)),
            final(self).trailer == old(self).trailer,
            final(self).version == old(self).version,
            final(self).max_id == (if old(self).max_id >= oid.0 {
                old(self).max_id
            } else {
                oid.0
            }),
    {
        self.objects.push((oid, object));
        if self.max_id < oid.0 {
            self.max_id = oid.0;
        }
    }

    /// Save the document: header, eligible objects in ascending id order,
    /// cross-reference table, trailer (with `Size` set to `max_id + 1`),
    /// footer. The bytes are appended to `target`; all recorded offsets are
    /// relative to the start of this save.
    pub fn save_to(&mut self, target: &mut Vec<u8>)
        requires
            old(self).wf(),
            header_bytes(old(self).version@).len() + objs_out(
                old(self).objects@,
                old(self).objects@.len() as int,
            ).len() <= u32::MAX,
        ensures
            final(self).wf(),
            final(target)@ == old(target)@ + doc_output(
                old(self).objects@,
                old(self).version@,
                final(self).trailer,
            ),
            final(self).objects == old(self).objects,
            final(self).version == old(self).version,
            final(self).max_id == old(self).max_id,
            trailer_updated(
                old(self).trailer,
                final(self).trailer,
                old(self).max_id as int + 1,
            ),
    {
        self.save_internal(target)
    }

    fn save_internal(&mut self, target: &mut Vec<u8>)
        requires
            old(self).wf(),
            header_bytes(old(self).version@).len() + objs_out(
                old(self).objects@,
                old(self).objects@.len() as int,
            ).len() <= u32::MAX,
        ensures
            final(self).wf(),
            final(target)@ == old(target)@ + doc_output(
                old(self).objects@,
                old(self).version@,
                final(self).trailer,
            ),
            final(self).objects == old(self).objects,
            final(self).version == old(self).version,
            final(self).max_id == old(self).max_id,
            trailer_updated(
                old(self).trailer,
                final(self).trailer,
                old(self).max_id as int + 1,
            ),
    {
        let ghost objs = self.objects@;
        let mut file = CountingWrite::new();
        let mut xref = Xref::new(self.max_id + 1);
        file.write_byte(37);
        file.write_byte(80);
        file.write_byte(68);
        file.write_byte(70);
        file.write_byte(45);
        file.write_all(self.version.as_slice());
        file.write_byte(10);
        let ghost hdr = header_bytes(self.version@);
        assert(file.inner@ =~= hdr);
        let mut cm: Option<ContentsMap> = Some(ContentsMap::new());
        let n = self.objects.len();
        let mut i: usize = 0;
        while i < n
            invariant
                i <= n,
                n == objs.len(),
                objs == self.objects@,
                old(self).wf(),
                objs == old(self).objects@,
                hdr == header_bytes(old(self).version@),
                hdr.len() + objs_out(objs, n as int).len() <= u32::MAX,
                file.wf(),
                file.inner@ == hdr + objs_out(objs, i as int),
                xref.wf(),
                xref.entries@ == xref_after(objs, i as int, hdr.len() as int),
                xref.size == old(self).max_id + 1,
                cm.is_some(),
            decreases n - i,
        {
            let pair = &self.objects[i];
            let skip = match pair.1.declared_type() {
                Some(t) => is_skip_name(t),
                None => false,
            };
            proof {
                lemma_objs_out_len_mono(objs, i as int, n as int);
                lemma_objs_out_len_mono(objs, i + 1, n as int);
            }
            if !skip {
                cm = Writer::write_indirect_object(&mut file, pair.0, &pair.1, &mut xref, cm);
            }
            proof {
                assert(file.inner@ =~= hdr + objs_out(objs, i + 1));
            }
            i = i + 1;
        }
        let xref_start = file.bytes_written;
        let ghost body = objs_out(objs, n as int);
        Writer::write_xref(&mut file, &xref);
        self.write_trailer(&mut file);
        file.write_byte(10);
        file.write_byte(115);
        file.write_byte(116);
        file.write_byte(97);
        file.write_byte(114);
        file.write_byte(116);
        file.write_byte(120);
        file.write_byte(114);
        file.write_byte(101);
        file.write_byte(102);
        file.write_byte(10);
        file.write_decimal(xref_start as i64);
        file.write_byte(10);
        file.write_byte(37);
        file.write_byte(37);
        file.write_byte(69);
        file.write_byte(79);
        file.write_byte(70);
        proof {
            assert(file.inner@ =~= doc_output(objs, old(self).version@, self.trailer));
        }
        target.append(&mut file.inner);
        assert(target@ =~= old(target)@ + doc_output(objs, old(self).version@, self.trailer));
    }

    /// Set the trailer's `Size` to `max_id + 1`, then write `trailer` and
    /// the serialized trailer dictionary.
    fn write_trailer(&mut self, file: &mut CountingWrite)
        requires
            old(self).wf(),
            old(file).wf(),
        ensures
            final(file).wf(),
            final(file).inner@ == old(file).inner@ + seq![116u8, 114, 97, 105, 108, 101, 114, 10]
                + ser_dict(final(self).trailer),
            final(self).objects == old(self).objects,
            final(self).version == old(self).version,
            final(self).max_id == old(self).max_id,
            final(self).wf(),
            trailer_updated(
                old(self).trailer,
                final(self).trailer,
                old(self).max_id as int + 1,
            ),
    {
        let mut key: Vec<u8> = Vec::new();
        key.push(83);
        key.push(105);
        key.push(122);
        key.push(101);
        assert(key@ =~= seq![83u8, 105, 122, 101]);
        let size = self.max_id + 1;
        self.trailer.set(key.as_slice(), Object::Integer(size as i64));
        file.write_byte(116);
        file.write_byte(114);
        file.write_byte(97);
        file.write_byte(105);
        file.write_byte(108);
        file.write_byte(101);
        file.write_byte(114);
        file.write_byte(10);
        let _ = Writer::write_dictionary(file, &self.trailer, None, None);
        assert(file.inner@ =~= old(file).inner@ + seq![116u8, 114, 97, 105, 108, 101, 114, 10]
            + ser_dict(self.trailer));
    }
}

/// Whether a type name marks an object as written by another subsystem.
fn is_skip_name(t: &Vec<u8>) -> (r: bool)
    ensures
        r == (t@ == seq![79u8, 98, 106, 83, 116, 109] || t@ == seq![88u8, 82, 101, 102] || t@
            == seq![76u8, 105, 110, 101, 97, 114, 105, 122, 101, 100]),
{
    let r = (t.len() == 6 && t[0] == 79 && t[1] == 98 && t[2] == 106 && t[3] == 83 && t[4] == 116
        && t[5] == 109) || (t.len() == 4 && t[0] == 88 && t[1] == 82 && t[2] == 101 && t[3]
        == 102) || (t.len() == 10 && t[0] == 76 && t[1] == 105 && t[2] == 110 && t[3] == 101
        && t[4] == 97 && t[5] == 114 && t[6] == 105 && t[7] == 122 && t[8] == 101 && t[9] == 100);
    proof {
        if t@ == seq![79u8, 98, 106, 83, 116, 109] || t@ == seq![88u8, 82, 101, 102] || t@
            == seq![76u8, 105, 110, 101, 97, 114, 105, 122, 101, 100] {
            assert(r);
        }
        if r {
            if t@.len() == 6 {
                assert(t@ =~= seq![79u8, 98, 106, 83, 116, 109]);
            } else if t@.len() == 4 {
                assert(t@ =~= seq![88u8, 82, 101, 102]);
            } else {
                assert(t@ =~= seq![76u8, 105, 110, 101, 97, 114, 105, 122, 101, 100]);
            }
        }
    }
    r
}

} // verus!
