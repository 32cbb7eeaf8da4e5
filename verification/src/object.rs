use vstd::prelude::*;
use vstd::string::StrSliceExecFns;
use crate::content::ObjectId;

verus! {

/// A real number read from a document, held as the `lopdf` value it was read as.
#[verifier::external_type_specification]
#[verifier::external_body]
pub struct ExLopdfObject(lopdf::Object);

/// The two ways a PDF string is written.
#[derive(Debug, Clone, Copy, PartialEq, Eq)]
pub enum StrFormat {
    Literal,
    Hexadecimal,
}

/// A PDF object.
#[derive(Debug)]
pub enum PdfObject {
    Null,
    Boolean(bool),
    Integer(i64),
    /// A real number, carried unchanged (always an `lopdf` real).
    Real(lopdf::Object),
    Name(Vec<u8>),
    String(Vec<u8>, StrFormat),
    Array(Vec<PdfObject>),
    Dictionary(PdfDictionary),
    Stream(PdfStream),
    Reference(ObjectId),
}

/// A PDF dictionary: its entries in order. A key that is set again moves to
/// the end; a removed key leaves the others in order.
#[derive(Debug)]
pub struct PdfDictionary {
    pub entries: Vec<(Vec<u8>, PdfObject)>,
}

/// A PDF stream: its dictionary and its content bytes.
#[derive(Debug)]
pub struct PdfStream {
    pub dict: PdfDictionary,
    pub content: Vec<u8>,
    pub allows_compression: bool,
    pub start_position: Option<usize>,
}

/// Mathematical model of an [`PdfObject`].
pub enum ObjectView {
    Null,
    Boolean(bool),
    Integer(i64),
    Real(lopdf::Object),
    Name(Seq<u8>),
    String(Seq<u8>, StrFormat),
    Array(Seq<ObjectView>),
    Dictionary(Seq<(Seq<u8>, ObjectView)>),
    Stream(Seq<(Seq<u8>, ObjectView)>, Seq<u8>, bool, Option<usize>),
    Reference(ObjectId),
}

/// The model of a dictionary: its entries in order.
pub type DictView = Seq<(Seq<u8>, ObjectView)>;

pub open spec fn obj_view(o: PdfObject) -> ObjectView
    decreases o,
{
    match o {
        PdfObject::Null => ObjectView::Null,
        PdfObject::Boolean(b) => ObjectView::Boolean(b),
        PdfObject::Integer(i) => ObjectView::Integer(i),
        PdfObject::Real(r) => ObjectView::Real(r),
        PdfObject::Name(n) => ObjectView::Name(n@),
        PdfObject::String(s, f) => ObjectView::String(s@, f),
        PdfObject::Array(v) => ObjectView::Array(array_view(v@)),
        PdfObject::Dictionary(d) => ObjectView::Dictionary(entries_view(d.entries@)),
        PdfObject::Stream(s) => ObjectView::Stream(
            entries_view(s.dict.entries@),
            s.content@,
            s.allows_compression,
            s.start_position,
        ),
        PdfObject::Reference(id) => ObjectView::Reference(id),
    }
}

pub open spec fn array_view(s: Seq<PdfObject>) -> Seq<ObjectView>
    decreases s,
{
    if s.len() == 0 {
        seq![]
    } else {
        array_view(s.drop_last()).push(obj_view(s.last()))
    }
}

pub open spec fn entries_view(s: Seq<(Vec<u8>, PdfObject)>) -> DictView
    decreases s,
{
    if s.len() == 0 {
        seq![]
    } else {
        entries_view(s.drop_last()).push((s.last().0@, obj_view(s.last().1)))
    }
}

impl View for PdfObject {
    type V = ObjectView;

    open spec fn view(&self) -> ObjectView {
        obj_view(*self)
    }
}

impl View for PdfDictionary {
    type V = DictView;

    open spec fn view(&self) -> DictView {
        entries_view(self.entries@)
    }
}

pub proof fn lemma_array_view(s: Seq<PdfObject>)
    ensures
        array_view(s).len() == s.len(),
        forall|i: int| 0 <= i < s.len() ==> #[trigger] array_view(s)[i] == obj_view(s[i]),
    decreases s.len(),
{
    if s.len() > 0 {
        lemma_array_view(s.drop_last());
        assert forall|i: int| 0 <= i < s.len() implies #[trigger] array_view(s)[i] == obj_view(s[i]) by {
            if i < s.len() - 1 {
                assert(array_view(s)[i] == array_view(s.drop_last())[i]);
                assert(s.drop_last()[i] == s[i]);
            }
        }
    }
}

pub proof fn lemma_entries_view(s: Seq<(Vec<u8>, PdfObject)>)
    ensures
        entries_view(s).len() == s.len(),
        forall|i: int|
            0 <= i < s.len() ==> #[trigger] entries_view(s)[i] == (s[i].0@, obj_view(s[i].1)),
    decreases s.len(),
{
    if s.len() > 0 {
        lemma_entries_view(s.drop_last());
        assert forall|i: int| 0 <= i < s.len() implies #[trigger] entries_view(s)[i] == (
            s[i].0@,
            obj_view(s[i].1),
        ) by {
            if i < s.len() - 1 {
                assert(entries_view(s)[i] == entries_view(s.drop_last())[i]);
                assert(s.drop_last()[i] == s[i]);
            }
        }
    }
}

/// Position of the first entry with key `key`, if any.
#[verifier::opaque]
pub open spec fn key_index(d: DictView, key: Seq<u8>) -> Option<int> {
    if exists|i: int| 0 <= i < d.len() && (#[trigger] d[i]).0 == key {
        Some(choose|i: int| 0 <= i < d.len() && (#[trigger] d[i]).0 == key && forall|j: int| 0 <= j < i ==> (#[trigger] d[j]).0 != key)
    } else {
        None
    }
}

/// The first entry with key `key` is at `i`.
pub proof fn lemma_key_index_at(d: DictView, key: Seq<u8>, i: int)
    requires
        0 <= i < d.len(),
        d[i].0 == key,
        forall|j: int| 0 <= j < i ==> (#[trigger] d[j]).0 != key,
    ensures
        key_index(d, key) == Some(i),
{
    reveal(key_index);
    let k = choose|k: int| 0 <= k < d.len() && (#[trigger] d[k]).0 == key && forall|j: int| 0 <= j < k ==> (#[trigger] d[j]).0 != key;
    if k < i {
        assert(d[k].0 != key);
    } else if k > i {
        assert(d[i].0 != key);
    }
}

/// No entry has key `key`.
pub proof fn lemma_key_index_none(d: DictView, key: Seq<u8>)
    requires
        forall|j: int| 0 <= j < d.len() ==> (#[trigger] d[j]).0 != key,
    ensures
        key_index(d, key) is None,
{
    reveal(key_index);
}

/// The value of key `key`, if the dictionary has it.
pub open spec fn dict_get(d: DictView, key: Seq<u8>) -> Option<ObjectView> {
    match key_index(d, key) {
        Some(i) => Some(d[i].1),
        None => None,
    }
}

/// The dictionary without key `key`; the other entries keep their order.
pub open spec fn dict_remove(d: DictView, key: Seq<u8>) -> DictView {
    match key_index(d, key) {
        Some(i) => d.remove(i),
        None => d,
    }
}

/// The dictionary with key `key` set to `value`: the entry goes to the end.
pub open spec fn dict_set(d: DictView, key: Seq<u8>, value: ObjectView) -> DictView {
    dict_remove(d, key).push((key, value))
}

/// The dictionary with the value of key `key` replaced where it stands, or, when
/// the key is absent, the entry added at the end.
pub open spec fn dict_put(d: DictView, key: Seq<u8>, value: ObjectView) -> DictView {
    match key_index(d, key) {
        Some(i) => d.update(i, (key, value)),
        None => d.push((key, value)),
    }
}

/// The bytes of an ASCII name, one per character.
pub open spec fn key(s: Seq<char>) -> Seq<u8> {
    s.map_values(|c: char| c as u8)
}

/// The bytes of the ASCII name `s`.
pub fn key_bytes(s: &str) -> (r: Vec<u8>)
    ensures
        r@ == key(s@),
{
    let n = s.unicode_len();
    let mut r: Vec<u8> = Vec::new();
    let mut i: usize = 0;
    while i < n
        invariant
            n == s@.len(),
            i <= n,
            r@.len() == i,
            forall|j: int| 0 <= j < i ==> #[trigger] r@[j] == s@[j] as u8,
        decreases n - i,
    {
        let c = s.get_char(i);
        r.push(c as u8);
        i = i + 1;
    }
    assert(r@ =~= key(s@));
    r
}

/// Whether the two byte strings are equal.
pub fn bytes_eq(a: &[u8], b: &[u8]) -> (r: bool)
    ensures
        r == (a@ == b@),
{
    if a.len() != b.len() {
        return false;
    }
    let mut i: usize = 0;
    while i < a.len()
        invariant
            a@.len() == b@.len(),
            i <= a@.len(),
            forall|j: int| 0 <= j < i ==> a@[j] == b@[j],
        decreases a@.len() - i,
    {
        if a[i] != b[i] {
            return false;
        }
        i = i + 1;
    }
    assert(a@ =~= b@);
    true
}

impl PdfDictionary {
    pub fn new() -> (d: PdfDictionary)
        ensures
            d@ == Seq::<(Seq<u8>, ObjectView)>::empty(),
    {
        PdfDictionary { entries: Vec::new() }
    }

    /// Position of the first entry with key `key`, if any.
    pub fn index_of(&self, key: &[u8]) -> (r: Option<usize>)
        ensures
            r matches Some(i) ==> key_index(self@, key@) == Some(i as int) && i < self.entries@.len(),
            r is None ==> key_index(self@, key@) is None,
    {
        proof {
            lemma_entries_view(self.entries@);
        }
        let mut i: usize = 0;
        while i < self.entries.len()
            invariant
                i <= self.entries@.len(),
                entries_view(self.entries@).len() == self.entries@.len(),
                forall|j: int| 0 <= j < i ==> (#[trigger] self@[j]).0 != key@,
                forall|j: int|
                    0 <= j < self.entries@.len() ==> #[trigger] self@[j] == (
                        self.entries@[j].0@,
                        obj_view(self.entries@[j].1),
                    ),
            decreases self.entries@.len() - i,
        {
            if bytes_eq(self.entries[i].0.as_slice(), key) {
                proof {
                    lemma_key_index_at(self@, key@, i as int);
                }
                return Some(i);
            }
            i = i + 1;
        }
        proof {
            lemma_key_index_none(self@, key@);
        }
        None
    }

    /// Whether the dictionary has key `key`.
    pub fn has(&self, key: &[u8]) -> (r: bool)
        ensures
            r == (key_index(self@, key@) is Some),
    {
        self.index_of(key).is_some()
    }

    /// The value of key `key`.
    pub fn get(&self, key: &[u8]) -> (r: Option<&PdfObject>)
        ensures
            r matches Some(o) ==> dict_get(self@, key@) == Some(obj_view(*o)),
            r is None ==> dict_get(self@, key@) is None,
    {
        proof {
            lemma_entries_view(self.entries@);
        }
        match self.index_of(key) {
            Some(i) => Some(&self.entries[i].1),
            None => None,
        }
    }

    /// Removes key `key` and gives its value back.
    pub fn remove(&mut self, key: &[u8]) -> (r: Option<PdfObject>)
        ensures
            final(self)@ == dict_remove(old(self)@, key@),
            r matches Some(o) ==> dict_get(old(self)@, key@) == Some(obj_view(o)),
            r is None ==> dict_get(old(self)@, key@) is None,
    {
        proof {
            lemma_entries_view(self.entries@);
        }
        match self.index_of(key) {
            Some(i) => {
                let ghost before = self.entries@;
                let (_, value) = self.entries.remove(i);
                proof {
                    lemma_entries_view(self.entries@);
                    assert(entries_view(self.entries@) =~= entries_view(before).remove(i as int));
                }
                Some(value)
            },
            None => None,
        }
    }

    /// Sets key `key` to `value`, at the end of the dictionary.
    pub fn set(&mut self, key: Vec<u8>, value: PdfObject)
        ensures
            final(self)@ == dict_set(old(self)@, key@, obj_view(value)),
    {
        let ghost k = key@;
        let ghost v = obj_view(value);
        let _ = self.remove(key.as_slice());
        let ghost mid = self.entries@;
        self.entries.push((key, value));
        proof {
            lemma_entries_view(self.entries@);
            lemma_entries_view(mid);
            assert(entries_view(self.entries@) =~= entries_view(mid).push((k, v)));
        }
    }

    /// Replaces the value of key `key` where it stands and gives the old value
    /// back; when the key is absent, adds the entry at the end.
    pub fn put(&mut self, key: Vec<u8>, value: PdfObject) -> (r: Option<PdfObject>)
        ensures
            final(self)@ == dict_put(old(self)@, key@, obj_view(value)),
            r matches Some(o) ==> dict_get(old(self)@, key@) == Some(obj_view(o)),
            r is None ==> dict_get(old(self)@, key@) is None,
    {
        let ghost k = key@;
        let ghost v = obj_view(value);
        let ghost before = self.entries@;
        proof {
            lemma_entries_view(before);
        }
        match self.index_of(key.as_slice()) {
            Some(i) => {
                let (_, old_value) = self.entries.remove(i);
                self.entries.insert(i, (key, value));
                proof {
                    lemma_entries_view(self.entries@);
                    assert(entries_view(self.entries@) =~= entries_view(before).update(i as int, (k, v)));
                }
                Some(old_value)
            },
            None => {
                self.entries.push((key, value));
                proof {
                    lemma_entries_view(self.entries@);
                    assert(entries_view(self.entries@) =~= entries_view(before).push((k, v)));
                }
                None
            },
        }
    }

    /// Number of entries.
    pub fn len(&self) -> (r: usize)
        ensures
            r == self@.len(),
    {
        proof {
            lemma_entries_view(self.entries@);
        }
        self.entries.len()
    }
}

/// The dictionary of a stream given plain content of `len` bytes: no
/// filters, and that length.
pub open spec fn plain_content_dict(d: DictView, len: nat) -> DictView {
    dict_set(
        dict_remove(dict_remove(d, key("DecodeParms"@)), key("Filter"@)),
        key("Length"@),
        ObjectView::Integer(len as i64),
    )
}

impl PdfStream {
    /// Replaces the content by plain (unfiltered) bytes: the filters are
    /// dropped from the dictionary and the length set.
    pub fn set_plain_content(&mut self, content: Vec<u8>)
        ensures
            final(self).dict@ == plain_content_dict(old(self).dict@, content@.len()),
            final(self).content@ == content@,
            final(self).allows_compression == old(self).allows_compression,
            final(self).start_position == old(self).start_position,
    {
        self.dict.remove(key_bytes("DecodeParms").as_slice());
        self.dict.remove(key_bytes("Filter").as_slice());
        self.dict.set(key_bytes("Length"), PdfObject::Integer(content.len() as i64));
        self.content = content;
    }
}

impl PdfObject {
    /// The string object with the given bytes, written literally.
    pub fn string_literal(s: Vec<u8>) -> (o: PdfObject)
        ensures
            obj_view(o) == ObjectView::String(s@, StrFormat::Literal),
    {
        PdfObject::String(s, StrFormat::Literal)
    }

    /// The object id of a reference.
    pub fn as_reference(&self) -> (r: Option<ObjectId>)
        ensures
            r == (match obj_view(*self) {
                ObjectView::Reference(id) => Some(id),
                _ => None,
            }),
    {
        match self {
            PdfObject::Reference(id) => Some(*id),
            _ => None,
        }
    }
}

} // verus!
