//! PDF objects as plain values.
use vstd::prelude::*;

use crate::bytes;

verus! {

/// An object number and its generation.
pub type ObjectId = (u32, u16);

/// How a string was written.
#[derive(Clone, Copy, Debug, PartialEq, Eq, Structural)]
pub enum StringForm {
    Literal,
    Hexadecimal,
}

/// A PDF object. A real number is held as the decimal text it is written as.
#[derive(Debug, PartialEq)]
pub enum Value {
    Null,
    Boolean(bool),
    Integer(i64),
    Real(Vec<u8>),
    Name(Vec<u8>),
    String(Vec<u8>, StringForm),
    Array(Vec<Value>),
    Dictionary(Dict),
    Stream(DataStream),
    Reference(ObjectId),
}

/// A dictionary: its entries in order.
#[derive(Debug, PartialEq)]
pub struct Dict {
    pub entries: Vec<(Vec<u8>, Value)>,
}

/// A stream: its dictionary and its content as stored.
#[derive(Debug, PartialEq)]
pub struct DataStream {
    pub dict: Dict,
    pub content: Vec<u8>,
}

/// What an object is.
pub enum ValueView {
    Null,
    Boolean(bool),
    Integer(i64),
    Real(Seq<u8>),
    Name(Seq<u8>),
    String(Seq<u8>, StringForm),
    Array(Seq<ValueView>),
    Dictionary(Seq<(Seq<u8>, ValueView)>),
    Stream(Seq<(Seq<u8>, ValueView)>, Seq<u8>),
    Reference(ObjectId),
}

/// What a dictionary holds: its entries in order.
pub type DictView = Seq<(Seq<u8>, ValueView)>;

/// What `o` is.
pub open spec fn object_view(o: Value) -> ValueView
    decreases o,
{
    match o {
        Value::Null => ValueView::Null,
        Value::Boolean(b) => ValueView::Boolean(b),
        Value::Integer(i) => ValueView::Integer(i),
        Value::Real(r) => ValueView::Real(r@),
        Value::Name(n) => ValueView::Name(n@),
        Value::String(s, f) => ValueView::String(s@, f),
        Value::Array(a) => ValueView::Array(
            Seq::new(
                a@.len(),
                |i: int|
                    if 0 <= i < a@.len() {
                        object_view(a@[i])
                    } else {
                        ValueView::Null
                    },
            ),
        ),
        Value::Dictionary(d) => ValueView::Dictionary(dictionary_view(d)),
        Value::Stream(s) => ValueView::Stream(dictionary_view(s.dict), s.content@),
        Value::Reference(id) => ValueView::Reference(id),
    }
}

/// The entries of `d`, in order.
pub open spec fn dictionary_view(d: Dict) -> Seq<(Seq<u8>, ValueView)>
    decreases d,
{
    Seq::new(
        d.entries@.len(),
        |i: int|
            if 0 <= i < d.entries@.len() {
                (d.entries@[i].0@, object_view(d.entries@[i].1))
            } else {
                (Seq::empty(), ValueView::Null)
            },
    )
}

impl View for Value {
    type V = ValueView;

    open spec fn view(&self) -> ValueView {
        object_view(*self)
    }
}

impl View for Dict {
    type V = Seq<(Seq<u8>, ValueView)>;

    open spec fn view(&self) -> Seq<(Seq<u8>, ValueView)> {
        dictionary_view(*self)
    }
}

/// What each of `objects` is.
pub open spec fn objects_view(objects: Seq<Value>) -> Seq<ValueView> {
    objects.map_values(|o: Value| o@)
}

/// The array's items, each by what it is.
pub proof fn lemma_array_view(items: Vec<Value>)
    ensures
        object_view(Value::Array(items)) == ValueView::Array(objects_view(items@)),
{
    assert(object_view(Value::Array(items))->Array_0 =~= objects_view(items@));
}

// ------------------------------------------------------------- dictionaries

/// Where `key` stands among the entries, or their number.
pub open spec fn key_at(d: DictView, key: Seq<u8>) -> int
    decreases d.len(),
{
    if d.len() == 0 {
        0
    } else if d[0].0 == key {
        0
    } else {
        1 + key_at(d.skip(1), key)
    }
}

/// The value at `key`, if there is one.
pub open spec fn lookup(d: DictView, key: Seq<u8>) -> Option<ValueView> {
    if key_at(d, key) < d.len() {
        Some(d[key_at(d, key)].1)
    } else {
        None
    }
}

/// No key stands twice.
pub open spec fn distinct_keys(d: DictView) -> bool {
    forall|i: int, j: int|
        0 <= i < j < d.len() ==> (#[trigger] d[i]).0 != (#[trigger] d[j]).0
}

/// `d` with `value` at `key`: in the key's place, or at the end.
pub open spec fn with_entry(d: DictView, key: Seq<u8>, value: ValueView) -> DictView {
    if key_at(d, key) < d.len() {
        d.update(key_at(d, key), (d[key_at(d, key)].0, value))
    } else {
        d.push((key, value))
    }
}

/// `d` without `key`: the last entry takes its place.
pub open spec fn without_key(d: DictView, key: Seq<u8>) -> DictView {
    let i = key_at(d, key);
    if i >= d.len() {
        d
    } else if i == d.len() - 1 {
        d.drop_last()
    } else {
        d.update(i, d.last()).drop_last()
    }
}

pub proof fn lemma_key_at(d: DictView, key: Seq<u8>)
    ensures
        0 <= key_at(d, key) <= d.len(),
        key_at(d, key) < d.len() ==> d[key_at(d, key)].0 == key,
        forall|i: int| 0 <= i < key_at(d, key) ==> (#[trigger] d[i]).0 != key,
    decreases d.len(),
{
    if d.len() > 0 && d[0].0 != key {
        lemma_key_at(d.skip(1), key);
        assert forall|i: int| 0 <= i < key_at(d, key) implies (#[trigger] d[i]).0 != key by {
            if i > 0 {
                assert(d.skip(1)[i - 1] == d[i]);
            }
        }
    }
}

/// The position of a key is the first one that holds it.
pub proof fn lemma_key_at_is(d: DictView, key: Seq<u8>, at: int)
    requires
        0 <= at <= d.len(),
        at < d.len() ==> d[at].0 == key,
        forall|i: int| 0 <= i < at ==> (#[trigger] d[i]).0 != key,
    ensures
        key_at(d, key) == at,
{
    lemma_key_at(d, key);
}

/// Removing a key leaves every other entry and no trace of the key.
pub proof fn lemma_without_key(d: DictView, key: Seq<u8>)
    requires
        distinct_keys(d),
    ensures
        distinct_keys(without_key(d, key)),
        lookup(without_key(d, key), key) is None,
        forall|other: Seq<u8>|
            other != key ==> #[trigger] lookup(without_key(d, key), other) == lookup(d, other),
{
    let e = without_key(d, key);
    lemma_key_at(d, key);
    lemma_key_at(e, key);
    let at = key_at(d, key);
    assert forall|other: Seq<u8>| other != key implies #[trigger] lookup(e, other) == lookup(
        d,
        other,
    ) by {
        lemma_key_at(d, other);
        lemma_key_at(e, other);
        let i = key_at(d, other);
        if at < d.len() {
            if i < d.len() {
                let j = if i == d.len() - 1 {
                    at
                } else {
                    i
                };
                assert(e[j] == d[i]);
                if key_at(e, other) < e.len() && key_at(e, other) != j {
                    let m = key_at(e, other);
                    assert(e[m] == d[if m == at {
                        d.len() - 1
                    } else {
                        m
                    }]);
                }
            } else if key_at(e, other) < e.len() {
                let m = key_at(e, other);
                assert(e[m] == d[if m == at {
                    d.len() - 1
                } else {
                    m
                }]);
            }
        }
    }
    assert(lookup(e, key) is None) by {
        if at < d.len() && key_at(e, key) < e.len() {
            let m = key_at(e, key);
            assert(e[m] == d[if m == at {
                d.len() - 1
            } else {
                m
            }]);
        }
    }
    assert forall|i: int, j: int| 0 <= i < j < e.len() implies (#[trigger] e[i]).0 != (
    #[trigger] e[j]).0 by {
        if at < d.len() {
            let a = if i == at {
                d.len() - 1
            } else {
                i
            };
            let b = if j == at {
                d.len() - 1
            } else {
                j
            };
            assert(e[i] == d[a]);
            assert(e[j] == d[b]);
        }
    }
}

/// Setting a key changes that entry alone.
pub proof fn lemma_with_entry(d: DictView, key: Seq<u8>, value: ValueView)
    requires
        distinct_keys(d),
    ensures
        distinct_keys(with_entry(d, key, value)),
        lookup(with_entry(d, key, value), key) == Some(value),
        forall|other: Seq<u8>|
            other != key ==> #[trigger] lookup(with_entry(d, key, value), other) == lookup(
                d,
                other,
            ),
{
    let e = with_entry(d, key, value);
    lemma_key_at(d, key);
    let at = key_at(d, key);
    assert(e[at].0 == key);
    assert forall|i: int| 0 <= i < at implies (#[trigger] e[i]).0 != key by {
        assert(e[i] == d[i]);
    }
    lemma_key_at_is(e, key, at);
    assert forall|other: Seq<u8>| other != key implies #[trigger] lookup(e, other) == lookup(
        d,
        other,
    ) by {
        lemma_key_at(d, other);
        let i = key_at(d, other);
        assert forall|m: int| 0 <= m < i implies (#[trigger] e[m]).0 != other by {
            assert(e[m].0 == d[m].0);
        }
        if i < d.len() {
            assert(e[i].0 == d[i].0);
            lemma_key_at_is(e, other, i);
        } else {
            lemma_key_at_is(e, other, e.len() as int);
        }
    }
    assert forall|i: int, j: int| 0 <= i < j < e.len() implies (#[trigger] e[i]).0 != (
    #[trigger] e[j]).0 by {
        if j < d.len() {
            assert(e[i].0 == d[i].0 && e[j].0 == d[j].0);
        } else {
            assert(e[i].0 == d[i].0);
        }
    }
}

/// No dictionary inside an object holds a key twice.
pub open spec fn keys_once(v: ValueView) -> bool
    decreases v,
{
    match v {
        ValueView::Array(items) => forall|i: int|
            0 <= i < items.len() ==> keys_once(#[trigger] items[i]),
        ValueView::Dictionary(d) => keys_once_in(d),
        ValueView::Stream(d, _) => keys_once_in(d),
        _ => true,
    }
}

/// No dictionary inside a dictionary, itself included, holds a key twice.
pub open spec fn keys_once_in(d: DictView) -> bool
    decreases d,
{
    &&& distinct_keys(d)
    &&& forall|i: int| 0 <= i < d.len() ==> keys_once((#[trigger] d[i]).1)
}

impl Dict {
    /// No key stands twice.
    pub open spec fn wf(self) -> bool {
        distinct_keys(self@)
    }

    pub fn new() -> (r: Dict)
        ensures
            r@ == Seq::<(Seq<u8>, ValueView)>::empty(),
            r.wf(),
    {
        let r = Dict { entries: Vec::new() };
        assert(r@ =~= Seq::empty());
        r
    }

    /// Where `key` stands among the entries, or their number.
    pub fn position(&self, key: &[u8]) -> (r: usize)
        ensures
            r == key_at(self@, key@),
            r <= self.entries.len(),
    {
        let ghost d = self@;
        let mut i: usize = 0;
        while i < self.entries.len()
            invariant
                i <= self.entries.len(),
                d == self@,
                forall|k: int| 0 <= k < i ==> (#[trigger] d[k]).0 != key@,
            decreases self.entries.len() - i,
        {
            assert(d[i as int].0 == self.entries@[i as int].0@);
            if bytes::same(&self.entries[i].0, key) {
                proof {
                    lemma_key_at_is(d, key@, i as int);
                }
                return i;
            }
            i += 1;
        }
        proof {
            lemma_key_at_is(d, key@, i as int);
        }
        i
    }

    pub fn has(&self, key: &[u8]) -> (r: bool)
        ensures
            r == (lookup(self@, key@) is Some),
    {
        self.position(key) < self.entries.len()
    }

    pub fn get(&self, key: &[u8]) -> (r: Option<&Value>)
        ensures
            match r {
                Some(o) => lookup(self@, key@) == Some(o@),
                None => lookup(self@, key@) is None,
            },
    {
        let i = self.position(key);
        if i < self.entries.len() {
            Some(&self.entries[i].1)
        } else {
            None
        }
    }

    /// Puts `value` at `key`, in place of what stood there.
    pub fn set(&mut self, key: &[u8], value: Value)
        ensures
            final(self)@ == with_entry(old(self)@, key@, value@),
            old(self).wf() ==> final(self).wf(),
    {
        let ghost before = self@;
        proof {
            lemma_key_at(before, key@);
            if self.wf() {
                lemma_with_entry(before, key@, value@);
            }
        }
        let i = self.position(key);
        if i < self.entries.len() {
            self.entries[i].1 = value;
        } else {
            self.entries.push((bytes::copy(key), value));
        }
        assert(self@ =~= with_entry(before, key@, value@));
    }

    /// Sets the value of a key that is given as text.
    pub fn put(&mut self, key: &str, value: Value)
        ensures
            final(self)@ == with_entry(old(self)@, bytes::text(key@), value@),
            old(self).wf() ==> final(self).wf(),
    {
        self.set(key.as_bytes(), value);
    }

    /// Removes a key that is given as text.
    pub fn drop_key(&mut self, key: &str)
        ensures
            final(self)@ == without_key(old(self)@, bytes::text(key@)),
            old(self).wf() ==> final(self).wf(),
    {
        let _ = self.remove(key.as_bytes());
    }

    /// Takes the entry at `key` out; the last entry takes its place.
    pub fn remove(&mut self, key: &[u8]) -> (r: Option<Value>)
        ensures
            final(self)@ == without_key(old(self)@, key@),
            old(self).wf() ==> final(self).wf(),
            match r {
                Some(o) => lookup(old(self)@, key@) == Some(o@),
                None => lookup(old(self)@, key@) is None,
            },
    {
        let ghost before = self@;
        proof {
            if self.wf() {
                lemma_without_key(before, key@);
            }
        }
        let i = self.position(key);
        if i < self.entries.len() {
            let (_, value) = self.entries.swap_remove(i);
            assert(self@ =~= without_key(before, key@));
            Some(value)
        } else {
            None
        }
    }

    /// A copy of the dictionary.
    pub fn copied(&self) -> (r: Dict)
        ensures
            r@ == self@,
        decreases self,
    {
        let mut entries: Vec<(Vec<u8>, Value)> = Vec::new();
        let mut i: usize = 0;
        while i < self.entries.len()
            invariant
                i <= self.entries.len(),
                entries@.len() == i,
                forall|k: int|
                    0 <= k < i ==> (#[trigger] entries@[k]).0@ == self.entries@[k].0@
                        && entries@[k].1@ == self.entries@[k].1@,
            decreases self.entries.len() - i,
        {
            let key = bytes::copy(&self.entries[i].0);
            assert(decreases_to!(self => self.entries@[i as int].1));
            let value = self.entries[i].1.copied();
            entries.push((key, value));
            i += 1;
        }
        let r = Dict { entries };
        assert(r@ =~= self@);
        r
    }
}

// ------------------------------------------------------------- objects

impl Value {
    /// A copy of the object.
    pub fn copied(&self) -> (r: Value)
        ensures
            r@ == self@,
        decreases self,
    {
        match self {
            Value::Null => Value::Null,
            Value::Boolean(b) => Value::Boolean(*b),
            Value::Integer(i) => Value::Integer(*i),
            Value::Real(r) => Value::Real(bytes::copy(r)),
            Value::Name(n) => Value::Name(bytes::copy(n)),
            Value::String(s, f) => Value::String(bytes::copy(s), *f),
            Value::Array(items) => {
                let mut out: Vec<Value> = Vec::new();
                let mut i: usize = 0;
                while i < items.len()
                    invariant
                        i <= items.len(),
                        out@.len() == i,
                        self == Value::Array(*items),
                        forall|k: int| 0 <= k < i ==> (#[trigger] out@[k])@ == items@[k]@,
                    decreases items.len() - i,
                {
                    assert(decreases_to!(self => self->Array_0@[i as int]));
                    let item = items[i].copied();
                    out.push(item);
                    i += 1;
                }
                proof {
                    lemma_array_view(out);
                    lemma_array_view(*items);
                    assert(objects_view(out@) =~= objects_view(items@));
                }
                Value::Array(out)
            },
            Value::Dictionary(d) => Value::Dictionary(d.copied()),
            Value::Stream(s) => Value::Stream(
                DataStream { dict: s.dict.copied(), content: bytes::copy(&s.content) },
            ),
            Value::Reference(id) => Value::Reference(*id),
        }
    }

    pub fn as_name(&self) -> (r: Option<&Vec<u8>>)
        ensures
            match r {
                Some(n) => self@ == ValueView::Name(n@),
                None => !(self@ is Name),
            },
    {
        match self {
            Value::Name(n) => Some(n),
            _ => None,
        }
    }

    pub fn as_i64(&self) -> (r: Option<i64>)
        ensures
            match r {
                Some(i) => self@ == ValueView::Integer(i),
                None => !(self@ is Integer),
            },
    {
        match self {
            Value::Integer(i) => Some(*i),
            _ => None,
        }
    }

    pub fn as_bool(&self) -> (r: Option<bool>)
        ensures
            match r {
                Some(b) => self@ == ValueView::Boolean(b),
                None => !(self@ is Boolean),
            },
    {
        match self {
            Value::Boolean(b) => Some(*b),
            _ => None,
        }
    }

    pub fn as_reference(&self) -> (r: Option<ObjectId>)
        ensures
            match r {
                Some(id) => self@ == ValueView::Reference(id),
                None => !(self@ is Reference),
            },
    {
        match self {
            Value::Reference(id) => Some(*id),
            _ => None,
        }
    }

    pub fn as_array(&self) -> (r: Option<&Vec<Value>>)
        ensures
            match r {
                Some(items) => self@ == ValueView::Array(objects_view(items@)),
                None => !(self@ is Array),
            },
    {
        match self {
            Value::Array(items) => {
                proof {
                    lemma_array_view(*items);
                }
                Some(items)
            },
            _ => None,
        }
    }

    pub fn as_dict(&self) -> (r: Option<&Dict>)
        ensures
            match r {
                Some(d) => self@ == ValueView::Dictionary(d@),
                None => !(self@ is Dictionary),
            },
    {
        match self {
            Value::Dictionary(d) => Some(d),
            _ => None,
        }
    }

    pub fn as_stream(&self) -> (r: Option<&DataStream>)
        ensures
            match r {
                Some(s) => self@ == ValueView::Stream(s.dict@, s.content@),
                None => !(self@ is Stream),
            },
    {
        match self {
            Value::Stream(s) => Some(s),
            _ => None,
        }
    }

    /// The bytes of a string, whatever its format.
    pub fn as_str(&self) -> (r: Option<&Vec<u8>>)
        ensures
            match r {
                Some(s) => self@ is String && self@->String_0 == s@,
                None => !(self@ is String),
            },
    {
        match self {
            Value::String(s, _) => Some(s),
            _ => None,
        }
    }

    /// Whether the object is the name `name`.
    pub fn is_name(&self, name: &str) -> (r: bool)
        ensures
            r == (self@ == ValueView::Name(bytes::text(name@))),
    {
        match self {
            Value::Name(n) => bytes::is_text(n, name),
            _ => false,
        }
    }
}

impl Clone for Value {
    fn clone(&self) -> (r: Value)
        ensures
            r@ == self@,
    {
        self.copied()
    }
}

impl Clone for Dict {
    fn clone(&self) -> (r: Dict)
        ensures
            r@ == self@,
    {
        self.copied()
    }
}

impl Clone for DataStream {
    fn clone(&self) -> (r: DataStream)
        ensures
            r.dict@ == self.dict@,
            r.content@ == self.content@,
    {
        DataStream { dict: self.dict.copied(), content: bytes::copy(&self.content) }
    }
}

} // verus!
