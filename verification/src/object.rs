//! The document object model: the tagged union of PDF object variants, the
//! insertion-ordered dictionary, and streams.

use vstd::prelude::*;

verus! {

/// An indirect object's identity: (numeric id, generation).
pub type ObjectId = (u32, u16);

/// How a string object is written out: as a literal `(...)` string or as a
/// hexadecimal `<...>` string.
#[derive(Clone, Copy, PartialEq, Eq)]
pub enum StringFormat {
    Literal,
    Hexadecimal,
}

/// A PDF object. A `Real` holds its decimal text form as bytes: the encoder
/// copies those bytes verbatim, so the caller fixes the formatting of
/// non-integral numbers.
pub enum Object {
    Null,
    Boolean(bool),
    Integer(i64),
    Real(Vec<u8>),
    Name(Vec<u8>),
    String(Vec<u8>, StringFormat),
    Array(Vec<Object>),
    Dictionary(Dictionary),
    Stream(Stream),
    Reference(ObjectId),
}

/// An ordered mapping from byte-string key to object. Insertion order is
/// significant and preserved on output; keys are unique.
pub struct Dictionary {
    pub entries: Vec<(Vec<u8>, Object)>,
}

/// A stream object: a dictionary plus raw content bytes, assumed already
/// filter-encoded by the caller.
pub struct Stream {
    pub dict: Dictionary,
    pub content: Vec<u8>,
}

impl Dictionary {
    /// Well-formed: keys are pairwise distinct.
    pub open spec fn wf(self) -> bool {
        forall|i: int, j: int|
            #![trigger self.entries@[i], self.entries@[j]]
            0 <= i < j < self.entries@.len() ==> self.entries@[i].0@ != self.entries@[j].0@
    }

    /// The index of `key` among the entries, if present.
    pub open spec fn spec_index_of(self, key: Seq<u8>) -> Option<int> {
        if exists|i: int| 0 <= i < self.entries@.len() && self.entries@[i].0@ == key {
            Some(choose|i: int| 0 <= i < self.entries@.len() && self.entries@[i].0@ == key)
        } else {
            None
        }
    }

    pub fn new() -> (d: Dictionary)
        ensures
            d.entries@.len() == 0,
            d.wf(),
    {
        Dictionary { entries: Vec::new() }
    }

    /// In a well-formed dictionary the index of a present key is unique.
    pub proof fn lemma_index_of_unique(self, key: Seq<u8>, i: int)
        requires
            self.wf(),
            0 <= i < self.entries@.len(),
            self.entries@[i].0@ == key,
        ensures
            self.spec_index_of(key) == Some(i),
    {
        assert(exists|j: int| 0 <= j < self.entries@.len() && self.entries@[j].0@ == key);
        let c = choose|j: int| 0 <= j < self.entries@.len() && self.entries@[j].0@ == key;
        if c < i {
            assert(self.entries@[c].0@ != self.entries@[i].0@);
        } else if c > i {
            assert(self.entries@[i].0@ != self.entries@[c].0@);
        }
    }
}


/// Whether two byte slices hold the same bytes.
pub fn bytes_eq(a: &[u8], b: &[u8]) -> (r: bool)
    ensures
        r == (a@ == b@),
{
    if a.len() != b.len() {
        proof {
            assert(a@ != b@);
        }
        return false;
    }
    let n = a.len();
    let mut i: usize = 0;
    while i < n
        invariant
            i <= n,
            n == a@.len(),
            n == b@.len(),
            forall|m: int| 0 <= m < i ==> a@[m] == b@[m],
        decreases n - i,
    {
        if a[i] != b[i] {
            proof {
                assert(a@[i as int] != b@[i as int]);
            }
            return false;
        }
        i = i + 1;
    }
    proof {
        assert(a@ =~= b@);
    }
    true
}

/// The `Type` name of a dictionary: the value of its first `Type` entry,
/// when that value is a name.
pub open spec fn spec_dict_type_name(es: Seq<(Vec<u8>, Object)>) -> Option<Seq<u8>>
    decreases es.len(),
{
    if es.len() == 0 {
        None
    } else if es[0].0@ == seq![84u8, 121, 112, 101] {
        match es[0].1 {
            Object::Name(n) => Some(n@),
            _ => None,
        }
    } else {
        spec_dict_type_name(es.drop_first())
    }
}

/// The declared type name of an object: only dictionaries and streams have
/// one.
pub open spec fn spec_type_name(o: Object) -> Option<Seq<u8>> {
    match o {
        Object::Dictionary(d) => spec_dict_type_name(d.entries@),
        Object::Stream(st) => spec_dict_type_name(st.dict.entries@),
        _ => None,
    }
}

impl Dictionary {
    /// Set `key` to `value`: an existing entry keeps its position and only
    /// its value changes; a new key is appended at the end.
    pub fn set(&mut self, key: &[u8], value: Object)
        requires
            old(self).wf(),
        ensures
            final(self).wf(),
            match old(self).spec_index_of(key@) {
                Some(i) => final(self).entries@ == old(self).entries@.update(
                    i,
                    (old(self).entries@[i].0, value),
                ),
                None => {
                    &&& final(self).entries@.len() == old(self).entries@.len() + 1
                    &&& final(self).entries@.take(old(self).entries@.len() as int) == old(
                        self,
                    ).entries@
                    &&& final(self).entries@.last().0@ == key@
                    &&& final(self).entries@.last().1 == value
                },
            },
    {
        let ghost es = self.entries@;
        let n = self.entries.len();
        let mut i: usize = 0;
        while i < n
            invariant
                i <= n,
                n == es.len(),
                es == self.entries@,
                es == old(self).entries@,
                old(self).wf(),
                forall|m: int| 0 <= m < i ==> es[m].0@ != key@,
            decreases n - i,
        {
            if bytes_eq(self.entries[i].0.as_slice(), key) {
                let pair = self.entries.remove(i);
                self.entries.insert(i, (pair.0, value));
                proof {
                    assert(es[i as int].0@ == key@);
                    old(self).lemma_index_of_unique(key@, i as int);
                    let after_rm = es.remove(i as int);
                    assert(self.entries@ =~= after_rm.insert(i as int, (es[i as int].0, value)));
                    assert(self.entries@ =~= es.update(i as int, (es[i as int].0, value)));
                    assert forall|a: int, b: int|
                        0 <= a < b < self.entries@.len() implies self.entries@[a].0@
                        != self.entries@[b].0@ by {
                        assert(self.entries@[a].0 == es[a].0);
                        assert(self.entries@[b].0 == es[b].0);
                        assert(es[a].0@ != es[b].0@);
                    }
                }
                return;
            }
            i = i + 1;
        }
        let kv = vstd::slice::slice_to_vec(key);
        self.entries.push((kv, value));
        proof {
            if old(self).spec_index_of(key@).is_some() {
                let w = choose|j: int|
                    0 <= j < old(self).entries@.len() && old(self).entries@[j].0@ == key@;
                assert(0 <= w < es.len() && es[w].0@ == key@);
                assert(false);
            }
            assert(self.entries@.take(es.len() as int) =~= es);
            assert forall|a: int, b: int|
                0 <= a < b < self.entries@.len() implies self.entries@[a].0@
                != self.entries@[b].0@ by {
                if b < es.len() {
                    assert(es[a].0@ != es[b].0@);
                } else {
                    assert(es[a].0@ != key@);
                }
            }
        }
    }

    /// The `Type` entry's name, when present and a name.
    pub fn declared_type(&self) -> (r: Option<&Vec<u8>>)
        ensures
            match r {
                Some(t) => spec_dict_type_name(self.entries@) == Some(t@),
                None => spec_dict_type_name(self.entries@).is_none(),
            },
    {
        let n = self.entries.len();
        proof {
            assert(self.entries@.skip(0) =~= self.entries@);
        }
        let mut i: usize = 0;
        while i < n
            invariant
                i <= n,
                n == self.entries@.len(),
                spec_dict_type_name(self.entries@) == spec_dict_type_name(
                    self.entries@.skip(i as int),
                ),
            decreases n - i,
        {
            let e = &self.entries[i];
            let is_type = e.0.len() == 4 && {
                let k = &e.0;
                k[0] == 84 && k[1] == 121 && k[2] == 112 && k[3] == 101
            };
            proof {
                let sk = self.entries@.skip(i as int);
                assert(sk[0] == self.entries@[i as int]);
                if is_type {
                    assert(e.0@ =~= seq![84u8, 121, 112, 101]);
                } else {
                    assert(e.0@ != seq![84u8, 121, 112, 101]);
                }
                assert(sk.drop_first() =~= self.entries@.skip(i as int + 1));
            }
            if is_type {
                match &e.1 {
                    Object::Name(nm) => {
                        return Some(nm);
                    },
                    _ => {
                        return None;
                    },
                }
            }
            i = i + 1;
        }
        proof {
            assert(self.entries@.skip(n as int).len() == 0);
        }
        None
    }
}

impl Object {
    /// The declared type name: the `Type` entry of a dictionary or of a
    /// stream's dictionary.
    pub fn declared_type(&self) -> (r: Option<&Vec<u8>>)
        ensures
            match r {
                Some(t) => spec_type_name(*self) == Some(t@),
                None => spec_type_name(*self).is_none(),
            },
    {
        match self {
            Object::Dictionary(d) => d.declared_type(),
            Object::Stream(st) => st.dict.declared_type(),
            _ => None,
        }
    }
}

} // verus!
