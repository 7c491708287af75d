//! A PDF document as plain values: its trailer and its numbered objects.
use vstd::prelude::*;

use crate::bytes;
use crate::object;
use crate::object::{Dict, ObjectId, Value, ValueView};

verus! {

/// How many references in a row are followed before a chain counts as broken.
pub const DEREF_LIMIT: usize = 128;

/// What is known of the encryption that was taken off while loading.
pub struct Encryption {
    pub stream_filter: Vec<u8>,
    pub string_filter: Vec<u8>,
    /// The names of the crypt filters that could be read.
    pub known_filters: Vec<Vec<u8>>,
}

/// A document.
pub struct Pdf {
    pub version: String,
    pub binary_mark: Vec<u8>,
    pub trailer: Dict,
    /// The objects in ascending order of their numbers.
    pub objects: Vec<(ObjectId, Value)>,
    pub max_id: u32,
    /// The cross-reference data is written as a stream, not as a table.
    pub xref_stream: bool,
    pub encryption: Option<Encryption>,
}

/// The numbered objects, in order.
pub type TableView = Seq<(ObjectId, ValueView)>;

/// What a document holds.
pub struct PdfView {
    pub version: Seq<char>,
    pub binary_mark: Seq<u8>,
    pub trailer: object::DictView,
    pub objects: TableView,
    pub max_id: u32,
    pub xref_stream: bool,
}

/// What each numbered object is.
pub open spec fn table_view(objects: Seq<(ObjectId, Value)>) -> TableView {
    objects.map_values(|e: (ObjectId, Value)| (e.0, e.1@))
}

impl View for Pdf {
    type V = PdfView;

    open spec fn view(&self) -> PdfView {
        PdfView {
            version: self.version@,
            binary_mark: self.binary_mark@,
            trailer: self.trailer@,
            objects: table_view(self.objects@),
            max_id: self.max_id,
            xref_stream: self.xref_stream,
        }
    }
}

/// Object numbers in order: by number, then by generation.
pub open spec fn id_less(a: ObjectId, b: ObjectId) -> bool {
    a.0 < b.0 || (a.0 == b.0 && a.1 < b.1)
}

/// The table is in strictly ascending order of object numbers.
pub open spec fn ascending(t: TableView) -> bool {
    forall|i: int, j: int|
        0 <= i < j < t.len() ==> id_less((#[trigger] t[i]).0, (#[trigger] t[j]).0)
}

/// The object with number `id` stands at `i`.
pub open spec fn stands_at(t: TableView, id: ObjectId, i: int) -> bool {
    0 <= i < t.len() && t[i].0 == id
}

/// Whether an object has the number `id`.
pub open spec fn has_id(t: TableView, id: ObjectId) -> bool {
    exists|i: int| stands_at(t, id, i)
}

/// The object with number `id`, if there is one.
pub open spec fn find(t: TableView, id: ObjectId) -> Option<ValueView> {
    if has_id(t, id) {
        Some(t[choose|i: int| stands_at(t, id, i)].1)
    } else {
        None
    }
}

/// In an ordered table a number stands in one place.
pub proof fn lemma_find(t: TableView, id: ObjectId, i: int)
    requires
        ascending(t),
        stands_at(t, id, i),
    ensures
        find(t, id) == Some(t[i].1),
{
    let j = choose|j: int| stands_at(t, id, j);
    assert(stands_at(t, id, j));
    lemma_one_place(t, id, i, j);
}

/// In an ordered table a number stands in one place.
pub proof fn lemma_one_place(t: TableView, id: ObjectId, i: int, j: int)
    requires
        ascending(t),
        stands_at(t, id, i),
        stands_at(t, id, j),
    ensures
        i == j,
{
    if j < i {
        assert(id_less(t[j].0, t[i].0));
    } else if i < j {
        assert(id_less(t[i].0, t[j].0));
    }
}

/// What `o` leads to: itself, or for a reference the object at the end of
/// the chain, which `budget` steps have to reach.
pub open spec fn follow(t: TableView, o: ValueView, budget: nat) -> Option<ValueView>
    decreases budget,
{
    match o {
        ValueView::Reference(id) => match find(t, id) {
            None => None,
            Some(target) => if budget == 0 {
                None
            } else {
                follow(t, target, (budget - 1) as nat)
            },
        },
        _ => Some(o),
    }
}

/// What `o` leads to.
pub open spec fn resolved(t: TableView, o: ValueView) -> Option<ValueView> {
    follow(t, o, DEREF_LIMIT as nat)
}

/// The object with number `id`, references followed.
pub open spec fn object_at(t: TableView, id: ObjectId) -> Option<ValueView> {
    match find(t, id) {
        None => None,
        Some(o) => resolved(t, o),
    }
}

/// Where the object with number `id` stands, references followed.
pub open spec fn place(t: TableView, id: ObjectId, budget: nat) -> Option<int>
    decreases budget,
{
    if !has_id(t, id) {
        None
    } else {
        let i = choose|i: int| stands_at(t, id, i);
        match t[i].1 {
            ValueView::Reference(next) => if budget == 0 {
                None
            } else {
                place(t, next, (budget - 1) as nat)
            },
            _ => Some(i),
        }
    }
}

/// The object with number `id` stands at its place.
pub proof fn lemma_place(t: TableView, id: ObjectId, budget: nat)
    ensures
        match (place(t, id, budget), find(t, id)) {
            (Some(i), Some(o)) => 0 <= i < t.len() && !(t[i].1 is Reference) && follow(
                t,
                o,
                budget,
            ) == Some(t[i].1),
            (Some(_), None) => false,
            (None, Some(o)) => follow(t, o, budget) is None,
            (None, None) => true,
        },
    decreases budget,
{
    if has_id(t, id) {
        let i = choose|i: int| stands_at(t, id, i);
        assert(stands_at(t, id, i));
        if let ValueView::Reference(next) = t[i].1 {
            if budget > 0 {
                lemma_place(t, next, (budget - 1) as nat);
            }
        }
    }
}

/// The dictionary with number `id`, references followed.
pub open spec fn dictionary_at(t: TableView, id: ObjectId) -> Option<object::DictView> {
    match object_at(t, id) {
        Some(ValueView::Dictionary(d)) => Some(d),
        _ => None,
    }
}

/// The number of the catalog.
pub open spec fn root_id(doc: PdfView) -> Option<ObjectId> {
    match object::lookup(doc.trailer, bytes::text("Root"@)) {
        Some(ValueView::Reference(id)) => Some(id),
        _ => None,
    }
}

/// The catalog.
pub open spec fn catalog_of(doc: PdfView) -> Option<object::DictView> {
    match root_id(doc) {
        Some(id) => dictionary_at(doc.objects, id),
        None => None,
    }
}

/// `a` before `b`.
pub fn id_before(a: ObjectId, b: ObjectId) -> (r: bool)
    ensures
        r == id_less(a, b),
{
    a.0 < b.0 || (a.0 == b.0 && a.1 < b.1)
}

impl Pdf {
    /// The objects stand in ascending order of their numbers.
    pub open spec fn wf(self) -> bool {
        ascending(self@.objects)
    }

    pub fn with_version(version: &str) -> (r: Pdf)
        ensures
            r.wf(),
            r@.version == version@,
            r@.trailer == Seq::<(Seq<u8>, ValueView)>::empty(),
            r@.objects == Seq::<(ObjectId, ValueView)>::empty(),
            r.max_id == 0,
            !r.xref_stream,
            r.encryption is None,
    {
        let mut binary_mark: Vec<u8> = Vec::new();
        binary_mark.push(0xBB);
        binary_mark.push(0xAD);
        binary_mark.push(0xC0);
        binary_mark.push(0xDE);
        let r = Pdf {
            version: version.to_owned(),
            binary_mark,
            trailer: Dict::new(),
            objects: Vec::new(),
            max_id: 0,
            xref_stream: false,
            encryption: None,
        };
        assert(r@.objects =~= Seq::empty());
        r
    }

    /// Where the object with number `id` stands, or where it would.
    pub fn slot(&self, id: ObjectId) -> (r: usize)
        requires
            self.wf(),
        ensures
            r <= self.objects.len(),
            forall|k: int| 0 <= k < r ==> id_less((#[trigger] self@.objects[k]).0, id),
            forall|k: int|
                r <= k < self.objects.len() ==> !id_less((#[trigger] self@.objects[k]).0, id),
    {
        let ghost t = self@.objects;
        let mut low: usize = 0;
        let mut high: usize = self.objects.len();
        while low < high
            invariant
                low <= high <= self.objects.len(),
                t == self@.objects,
                ascending(t),
                forall|k: int| 0 <= k < low ==> id_less((#[trigger] t[k]).0, id),
                forall|k: int| high <= k < t.len() ==> !id_less((#[trigger] t[k]).0, id),
            decreases high - low,
        {
            let mid = low + (high - low) / 2;
            assert(t[mid as int].0 == self.objects@[mid as int].0);
            if id_before(self.objects[mid].0, id) {
                assert forall|k: int| 0 <= k <= mid implies id_less((#[trigger] t[k]).0, id) by {
                    if k < mid {
                        assert(id_less(t[k].0, t[mid as int].0));
                    }
                }
                low = mid + 1;
            } else {
                assert forall|k: int| mid <= k < t.len() implies !id_less(
                    (#[trigger] t[k]).0,
                    id,
                ) by {
                    if k > mid {
                        assert(id_less(t[mid as int].0, t[k].0));
                    }
                }
                high = mid;
            }
        }
        low
    }

    /// Where the object with number `id` stands.
    pub fn position(&self, id: ObjectId) -> (r: Option<usize>)
        requires
            self.wf(),
        ensures
            match r {
                Some(i) => stands_at(self@.objects, id, i as int),
                None => !has_id(self@.objects, id),
            },
            r is Some ==> r->0 < self.objects.len() && find(self@.objects, id) == Some(
                self.objects@[r->0 as int].1@,
            ),
            r is None ==> find(self@.objects, id) is None,
    {
        let i = self.slot(id);
        let ghost t = self@.objects;
        if i < self.objects.len() {
            let here = self.objects[i].0;
            assert(t[i as int].0 == here);
            if here.0 == id.0 && here.1 == id.1 {
                proof {
                    lemma_find(t, id, i as int);
                }
                return Some(i);
            }
            assert(!has_id(t, id)) by {
                if has_id(t, id) {
                    let j = choose|j: int| stands_at(t, id, j);
                    assert(stands_at(t, id, j));
                    if j < i {
                        assert(id_less(t[j].0, id));
                    } else if j > i {
                        assert(id_less(t[i as int].0, t[j].0));
                        assert(!id_less(t[i as int].0, id));
                    }
                }
            }
        } else {
            assert(!has_id(t, id)) by {
                if has_id(t, id) {
                    let j = choose|j: int| stands_at(t, id, j);
                    assert(stands_at(t, id, j));
                    assert(id_less(t[j].0, id));
                }
            }
        }
        None
    }

    /// Whether an object has the number `id`.
    pub fn has_object(&self, id: ObjectId) -> (r: bool)
        requires
            self.wf(),
        ensures
            r == has_id(self@.objects, id),
    {
        match self.position(id) {
            Some(i) => {
                assert(stands_at(self@.objects, id, i as int));
                true
            },
            None => false,
        }
    }

    /// What `object` leads to.
    pub fn dereference<'a>(&'a self, object: &'a Value) -> (r: Option<&'a Value>)
        requires
            self.wf(),
        ensures
            match r {
                Some(o) => resolved(self@.objects, object@) == Some(o@),
                None => resolved(self@.objects, object@) is None,
            },
    {
        let ghost t = self@.objects;
        let mut current: &Value = object;
        let mut left: usize = DEREF_LIMIT;
        loop
            invariant
                self.wf(),
                t == self@.objects,
                left <= DEREF_LIMIT,
                follow(t, current@, left as nat) == resolved(t, object@),
            decreases left,
        {
            match current {
                Value::Reference(id) => match self.position(*id) {
                    None => {
                        return None;
                    },
                    Some(i) => {
                        if left == 0 {
                            return None;
                        }
                        left -= 1;
                        current = &self.objects[i].1;
                    },
                },
                _ => {
                    return Some(current);
                },
            }
        }
    }

    /// The object with number `id`, references followed.
    pub fn get_object(&self, id: ObjectId) -> (r: Option<&Value>)
        requires
            self.wf(),
        ensures
            match r {
                Some(o) => object_at(self@.objects, id) == Some(o@),
                None => object_at(self@.objects, id) is None,
            },
    {
        match self.position(id) {
            None => None,
            Some(i) => self.dereference(&self.objects[i].1),
        }
    }

    /// Where the object with number `id` stands, references followed.
    pub fn place_of(&self, id: ObjectId) -> (r: Option<usize>)
        requires
            self.wf(),
        ensures
            match r {
                Some(i) => place(self@.objects, id, DEREF_LIMIT as nat) == Some(i as int) && i
                    < self.objects@.len() && object_at(self@.objects, id) == Some(
                    self@.objects[i as int].1,
                ),
                None => place(self@.objects, id, DEREF_LIMIT as nat) is None && object_at(
                    self@.objects,
                    id,
                ) is None,
            },
    {
        let ghost t = self@.objects;
        proof {
            lemma_place(t, id, DEREF_LIMIT as nat);
        }
        let mut current: ObjectId = id;
        let mut left: usize = DEREF_LIMIT;
        loop
            invariant
                self.wf(),
                t == self@.objects,
                left <= DEREF_LIMIT,
                place(t, current, left as nat) == place(t, id, DEREF_LIMIT as nat),
                match (place(t, id, DEREF_LIMIT as nat), find(t, id)) {
                    (Some(i), Some(o)) => 0 <= i < t.len() && follow(t, o, DEREF_LIMIT as nat)
                        == Some(t[i].1),
                    (Some(_), None) => false,
                    (None, Some(o)) => follow(t, o, DEREF_LIMIT as nat) is None,
                    (None, None) => true,
                },
            decreases left,
        {
            match self.position(current) {
                None => {
                    return None;
                },
                Some(i) => {
                    let ghost j = choose|j: int| stands_at(t, current, j);
                    proof {
                        assert(stands_at(t, current, i as int));
                        lemma_one_place(t, current, i as int, j);
                    }
                    assert(t[i as int].1 == self.objects@[i as int].1@);
                    match &self.objects[i].1 {
                        Value::Reference(next) => {
                            if left == 0 {
                                return None;
                            }
                            left -= 1;
                            current = *next;
                        },
                        _ => {
                            return Some(i);
                        },
                    }
                },
            }
        }
    }

    /// The dictionary with number `id`, references followed.
    pub fn get_dictionary(&self, id: ObjectId) -> (r: Option<&Dict>)
        requires
            self.wf(),
        ensures
            match r {
                Some(d) => dictionary_at(self@.objects, id) == Some(d@),
                None => dictionary_at(self@.objects, id) is None,
            },
    {
        match self.get_object(id) {
            Some(o) => o.as_dict(),
            None => None,
        }
    }

    /// The number of the catalog.
    pub fn root(&self) -> (r: Option<ObjectId>)
        ensures
            r == root_id(self@),
    {
        match self.trailer.get("Root".as_bytes()) {
            Some(o) => o.as_reference(),
            None => None,
        }
    }

    /// The catalog.
    pub fn catalog(&self) -> (r: Option<&Dict>)
        requires
            self.wf(),
        ensures
            match r {
                Some(d) => catalog_of(self@) == Some(d@),
                None => catalog_of(self@) is None,
            },
    {
        match self.root() {
            Some(id) => self.get_dictionary(id),
            None => None,
        }
    }

    /// A number that no object has yet.
    pub fn new_object_id(&mut self) -> (r: ObjectId)
        requires
            old(self).max_id < u32::MAX,
        ensures
            r == ((old(self).max_id + 1) as u32, 0u16),
            final(self)@ == (PdfView { max_id: r.0, ..old(self)@ }),
            final(self).encryption == old(self).encryption,
            old(self).wf() ==> final(self).wf(),
    {
        self.max_id += 1;
        (self.max_id, 0)
    }

    /// Puts `object` at the number `id`, in place of what stood there.
    pub fn insert(&mut self, id: ObjectId, object: Value)
        requires
            old(self).wf(),
        ensures
            final(self).wf(),
            find(final(self)@.objects, id) == Some(object@),
            forall|other: ObjectId|
                other != id ==> #[trigger] find(final(self)@.objects, other) == find(
                    old(self)@.objects,
                    other,
                ),
            final(self)@.version == old(self)@.version,
            final(self)@.trailer == old(self)@.trailer,
            final(self)@.binary_mark == old(self)@.binary_mark,
            final(self).max_id == old(self).max_id,
            final(self).xref_stream == old(self).xref_stream,
            final(self).encryption == old(self).encryption,
    {
        let ghost before = self@.objects;
        let i = self.slot(id);
        let present = i < self.objects.len() && self.objects[i].0.0 == id.0 && self.objects[i].0.1
            == id.1;
        if present {
            self.objects[i].1 = object;
            assert(self@.objects =~= before.update(i as int, (id, object@)));
        } else {
            proof {
                if i < before.len() {
                    assert(before[i as int].0 == self.objects@[i as int].0);
                    assert(!id_less(before[i as int].0, id));
                }
            }
            self.objects.insert(i, (id, object));
            assert(self@.objects =~= before.insert(i as int, (id, object@)));
        }
        proof {
            let after = self@.objects;
            assert(stands_at(after, id, i as int));
            assert forall|a: int, b: int| 0 <= a < b < after.len() implies id_less(
                (#[trigger] after[a]).0,
                (#[trigger] after[b]).0,
            ) by {
                if present {
                    assert(after[a].0 == before[a].0 && after[b].0 == before[b].0);
                } else {
                    if a < i && b > i {
                        assert(after[a] == before[a] && after[b] == before[b - 1]);
                    } else if b < i {
                        assert(after[a] == before[a] && after[b] == before[b]);
                    } else if a > i {
                        assert(after[a] == before[a - 1] && after[b] == before[b - 1]);
                    } else if b == i {
                        assert(after[a] == before[a]);
                    } else {
                        assert(after[b] == before[b - 1]);
                        assert(!id_less(before[b - 1].0, id));
                        if b - 1 > i {
                            assert(id_less(before[i as int].0, before[b - 1].0));
                        }
                    }
                }
            }
            lemma_find(after, id, i as int);
            assert forall|other: ObjectId| other != id implies #[trigger] find(after, other)
                == find(before, other) by {
                if has_id(before, other) {
                    let k = choose|k: int| stands_at(before, other, k);
                    assert(stands_at(before, other, k));
                    let m = if present || k < i {
                        k
                    } else {
                        k + 1
                    };
                    assert(after[m] == before[k]);
                    assert(stands_at(after, other, m));
                    lemma_find(after, other, m);
                    lemma_find(before, other, k);
                } else if has_id(after, other) {
                    let m = choose|m: int| stands_at(after, other, m);
                    assert(stands_at(after, other, m));
                    let k = if present || m < i {
                        m
                    } else {
                        m - 1
                    };
                    assert(after[m] == before[k]);
                    assert(stands_at(before, other, k));
                }
            }
        }
    }

    /// Adds `object` under a new number.
    pub fn add_object(&mut self, object: Value) -> (r: ObjectId)
        requires
            old(self).wf(),
            old(self).max_id < u32::MAX,
        ensures
            final(self).wf(),
            r == ((old(self).max_id + 1) as u32, 0u16),
            final(self).max_id == r.0,
            find(final(self)@.objects, r) == Some(object@),
            forall|other: ObjectId|
                other != r ==> #[trigger] find(final(self)@.objects, other) == find(
                    old(self)@.objects,
                    other,
                ),
            final(self)@.trailer == old(self)@.trailer,
            final(self)@.version == old(self)@.version,
            final(self).encryption == old(self).encryption,
    {
        let id = self.new_object_id();
        self.insert(id, object);
        id
    }
}

} // verus!
