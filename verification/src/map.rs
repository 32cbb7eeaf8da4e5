use vstd::prelude::*;
use crate::content::ObjectId;
use crate::document::{PdfDocument, id_less};

verus! {

/// The renumbering of a document's objects: the object at position `i` of
/// the map gets the new number `i`; `None` is a free number. Position 0 is
/// never an object's number.
pub struct Mapper {
    map: Vec<Option<ObjectId>>,
    removed_stream_ids: Vec<ObjectId>,
}

/// Position of the first `x` in `s`, if any.
#[verifier::opaque]
pub open spec fn first_index<T>(s: Seq<T>, x: T) -> Option<int> {
    if exists|i: int| 0 <= i < s.len() && s[i] == x {
        Some(choose|i: int| 0 <= i < s.len() && s[i] == x && forall|j: int| 0 <= j < i ==> s[j] != x)
    } else {
        None
    }
}

pub proof fn lemma_first_index_at<T>(s: Seq<T>, x: T, i: int)
    requires
        0 <= i < s.len(),
        s[i] == x,
        forall|j: int| 0 <= j < i ==> s[j] != x,
    ensures
        first_index(s, x) == Some(i),
{
    reveal(first_index);
    let k = choose|k: int| 0 <= k < s.len() && s[k] == x && forall|j: int| 0 <= j < k ==> s[j] != x;
    if k < i {
        assert(s[k] != x);
    } else if k > i {
        assert(s[i] != x);
    }
}

pub proof fn lemma_first_index_none<T>(s: Seq<T>, x: T)
    requires
        forall|j: int| 0 <= j < s.len() ==> s[j] != x,
    ensures
        first_index(s, x) is None,
{
    reveal(first_index);
}

proof fn lemma_first_exists<T>(s: Seq<T>, x: T, i0: int)
    requires
        0 <= i0 < s.len(),
        s[i0] == x,
    ensures
        exists|i: int| 0 <= i < s.len() && s[i] == x && forall|j: int| 0 <= j < i ==> s[j] != x,
    decreases i0,
{
    if exists|j: int| 0 <= j < i0 && s[j] == x {
        let j0 = choose|j: int| 0 <= j < i0 && s[j] == x;
        lemma_first_exists(s, x, j0);
    } else {
        assert(forall|j: int| 0 <= j < i0 ==> s[j] != x);
    }
}

pub proof fn lemma_first_index_props<T>(s: Seq<T>, x: T)
    ensures
        first_index(s, x) matches Some(i) ==> 0 <= i < s.len() && s[i] == x && forall|j: int| 0 <= j < i ==> s[j] != x,
        first_index(s, x) is None ==> forall|j: int| 0 <= j < s.len() ==> s[j] != x,
{
    reveal(first_index);
    if exists|i: int| 0 <= i < s.len() && s[i] == x {
        let i0 = choose|i: int| 0 <= i < s.len() && s[i] == x;
        lemma_first_exists(s, x, i0);
    }
}

/// The ids of a document in increasing order, each once.
pub open spec fn ascending_ids(ids: Seq<ObjectId>, dom: Set<ObjectId>) -> bool {
    &&& ids.to_set() == dom
    &&& ids.no_duplicates()
    &&& forall|i: int, j: int| 0 <= i < j < ids.len() ==> id_less(#[trigger] ids[i], #[trigger] ids[j])
}

/// The ids of a set in increasing order.
pub open spec fn key_order(dom: Set<ObjectId>) -> Seq<ObjectId> {
    choose|ids: Seq<ObjectId>| ascending_ids(ids, dom)
}

proof fn lemma_ascending_first(a: Seq<ObjectId>, dom: Set<ObjectId>, x: ObjectId)
    requires
        ascending_ids(a, dom),
        dom.contains(x),
    ensures
        a.len() > 0,
        x == a[0] || id_less(a[0], x),
{
    assert(a.to_set().contains(x));
    let j = choose|j: int| 0 <= j < a.len() && a[j] == x;
    if j > 0 {
        assert(id_less(a[0], a[j]));
    }
}

/// There is one increasing order of a set of ids.
pub proof fn lemma_ascending_unique(a: Seq<ObjectId>, b: Seq<ObjectId>, dom: Set<ObjectId>)
    requires
        ascending_ids(a, dom),
        ascending_ids(b, dom),
    ensures
        a == b,
    decreases a.len(),
{
    if a.len() == 0 {
        assert(dom =~= Set::<ObjectId>::empty());
        if b.len() > 0 {
            assert(b.to_set().contains(b[0]));
        }
        assert(b =~= a);
    } else {
        assert(a.to_set().contains(a[0]));
        lemma_ascending_first(b, dom, a[0]);
        assert(b.to_set().contains(b[0]));
        lemma_ascending_first(a, dom, b[0]);
        assert(a[0] == b[0]);
        let x = a[0];
        let rest = dom.remove(x);
        let a1 = a.drop_first();
        let b1 = b.drop_first();
        assert forall|y: ObjectId| a1.to_set().contains(y) <==> rest.contains(y) by {
            if a1.to_set().contains(y) {
                let j = choose|j: int| 0 <= j < a1.len() && a1[j] == y;
                assert(a[j + 1] == y);
                assert(a.to_set().contains(y));
                assert(a[0] != a[j + 1]);
            }
            if rest.contains(y) {
                assert(a.to_set().contains(y));
                let j = choose|j: int| 0 <= j < a.len() && a[j] == y;
                assert(j != 0);
                assert(a1[j - 1] == y);
            }
        }
        assert forall|y: ObjectId| b1.to_set().contains(y) <==> rest.contains(y) by {
            if b1.to_set().contains(y) {
                let j = choose|j: int| 0 <= j < b1.len() && b1[j] == y;
                assert(b[j + 1] == y);
                assert(b.to_set().contains(y));
                assert(b[0] != b[j + 1]);
            }
            if rest.contains(y) {
                assert(b.to_set().contains(y));
                let j = choose|j: int| 0 <= j < b.len() && b[j] == y;
                assert(j != 0);
                assert(b1[j - 1] == y);
            }
        }
        assert(a1.to_set() =~= rest);
        assert(b1.to_set() =~= rest);
        assert(a1.no_duplicates()) by {
            assert forall|i: int, j: int| 0 <= i < a1.len() && 0 <= j < a1.len() && i != j implies a1[i] != a1[j] by {
                assert(a[i + 1] != a[j + 1]);
            }
        }
        assert(b1.no_duplicates()) by {
            assert forall|i: int, j: int| 0 <= i < b1.len() && 0 <= j < b1.len() && i != j implies b1[i] != b1[j] by {
                assert(b[i + 1] != b[j + 1]);
            }
        }
        assert forall|i: int, j: int| 0 <= i < j < a1.len() implies id_less(#[trigger] a1[i], #[trigger] a1[j]) by {
            assert(id_less(a[i + 1], a[j + 1]));
        }
        assert forall|i: int, j: int| 0 <= i < j < b1.len() implies id_less(#[trigger] b1[i], #[trigger] b1[j]) by {
            assert(id_less(b[i + 1], b[j + 1]));
        }
        lemma_ascending_unique(a1, b1, rest);
        assert(a =~= b) by {
            assert forall|i: int| 0 <= i < a.len() implies a[i] == b[i] by {
                if i > 0 {
                    assert(a1[i - 1] == b1[i - 1]);
                }
            }
        }
    }
}

/// Ids given in increasing order are the set's order.
pub proof fn lemma_key_order(ids: Seq<ObjectId>, dom: Set<ObjectId>)
    requires
        ascending_ids(ids, dom),
    ensures
        key_order(dom) == ids,
{
    lemma_ascending_unique(key_order(dom), ids, dom);
}

/// No object id stands twice in the map.
pub open spec fn distinct_ids(s: Seq<Option<ObjectId>>) -> bool {
    forall|i: int, j: int| 0 <= i < s.len() && 0 <= j < s.len() && i != j && (#[trigger] s[i]) is Some ==> s[i] != #[trigger] s[j]
}

/// The map with `amount` free numbers inserted after position `start`.
pub open spec fn with_free_numbers(s: Seq<Option<ObjectId>>, start: int, amount: nat) -> Seq<Option<ObjectId>> {
    s.take(start + 1) + Seq::new(amount, |i: int| None::<ObjectId>) + s.skip(start + 1)
}

/// The map after `remap(id, to)`; `None` where `remap` refuses (the id is not
/// in the map, or `to` is past its end).
pub open spec fn remap_in(s: Seq<Option<ObjectId>>, id: ObjectId, to: int) -> Option<Seq<Option<ObjectId>>> {
    match first_index(s, Some(id)) {
        Some(u) => if 0 <= to < s.len() {
            Some(s.remove(u).insert(to, Some(id)))
        } else {
            None
        },
        None => None,
    }
}

/// The map after `free_id_at(at)`; `None` where `at` is past its end.
pub open spec fn free_in(s: Seq<Option<ObjectId>>, at: int) -> Option<Seq<Option<ObjectId>>> {
    if 0 <= at <= s.len() {
        Some(s.insert(at, None))
    } else {
        None
    }
}

/// The map after `free_ids_starting_from(start, amount)`; `None` where
/// `start` is not a position of the map.
pub open spec fn free_after(s: Seq<Option<ObjectId>>, start: int, amount: nat) -> Option<Seq<Option<ObjectId>>> {
    if 0 <= start < s.len() {
        Some(with_free_numbers(s, start, amount))
    } else {
        None
    }
}

/// The map after `map_to_last(id)`; `None` where the id is not in the map.
pub open spec fn last_in(s: Seq<Option<ObjectId>>, id: ObjectId) -> Option<Seq<Option<ObjectId>>> {
    match first_index(s, Some(id)) {
        Some(u) => Some(s.remove(u).push(Some(id))),
        None => None,
    }
}

/// The map and stream list after `remove_id_at(id, true)` for each of `ids`
/// in turn: each id found in the map leaves it and joins the streams.
pub open spec fn take_streams(s: Seq<Option<ObjectId>>, st: Seq<ObjectId>, ids: Seq<ObjectId>) -> (
    Seq<Option<ObjectId>>,
    Seq<ObjectId>,
)
    decreases ids.len(),
{
    if ids.len() == 0 {
        (s, st)
    } else {
        let prev = take_streams(s, st, ids.drop_last());
        match first_index(prev.0, Some(ids.last())) {
            Some(u) => (prev.0.remove(u), prev.1.push(ids.last())),
            None => prev,
        }
    }
}

impl Mapper {
    /// The entries of the map: at position `i`, the old id of the object that
    /// gets number `i`.
    pub closed spec fn entries(&self) -> Seq<Option<ObjectId>> {
        self.map@
    }

    /// The ids of the content streams taken off the map.
    pub closed spec fn streams(&self) -> Seq<ObjectId> {
        self.removed_stream_ids@
    }

    /// The identity numbering of a document: a free position 0, then each
    /// object id in increasing order.
    pub fn new(doc: &PdfDocument) -> (m: Mapper)
        ensures
            m.entries().len() == doc.objects@.dom().len() + 1,
            m.entries()[0] is None,
            ascending_ids(m.entries().drop_first().map_values(|e: Option<ObjectId>| e->0), doc.objects@.dom()),
            forall|i: int| 1 <= i < m.entries().len() ==> #[trigger] m.entries()[i] is Some,
            m.streams().len() == 0,
    {
        let ids = doc.object_ids();
        let mut map: Vec<Option<ObjectId>> = Vec::new();
        map.push(None);
        let mut i: usize = 0;
        while i < ids.len()
            invariant
                i <= ids@.len(),
                map@.len() == i + 1,
                map@[0] is None,
                forall|j: int| 0 <= j < i ==> #[trigger] map@[j + 1] == Some(ids@[j]),
            decreases ids@.len() - i,
        {
            map.push(Some(ids[i]));
            i = i + 1;
        }
        let m = Mapper { map, removed_stream_ids: Vec::new() };
        proof {
            assert(m.entries().drop_first().map_values(|e: Option<ObjectId>| e->0) =~= ids@) by {
                assert forall|j: int| 0 <= j < ids@.len() implies m.entries().drop_first().map_values(|e: Option<ObjectId>| e->0)[j] == ids@[j] by {
                    assert(map@[j + 1] == Some(ids@[j]));
                }
            }
            ids@.unique_seq_to_set();
            assert forall|k: int| 1 <= k < m.entries().len() implies #[trigger] m.entries()[k] is Some by {
                assert(map@[(k - 1) + 1] == Some(ids@[k - 1]));
            }
        }
        m
    }

    /// The ids of the content streams taken off the map.
    pub fn get_stream_ids(&self) -> (r: &Vec<ObjectId>)
        ensures
            r@ == self.streams(),
    {
        &self.removed_stream_ids
    }

    /// The entries of the map.
    pub fn iter(&self) -> (r: &Vec<Option<ObjectId>>)
        ensures
            r@ == self.entries(),
    {
        &self.map
    }

    /// The largest new number: the number of positions after 0.
    pub fn len(&self) -> (r: usize)
        requires
            self.entries().len() >= 1,
        ensures
            r == self.entries().len() - 1,
    {
        self.map.len() - 1
    }

    /// The new number of the object with id `pos`: its first position.
    pub fn index_of(&self, pos: ObjectId) -> (r: Option<usize>)
        ensures
            r matches Some(i) ==> first_index(self.entries(), Some(pos)) == Some(i as int),
            r is None ==> first_index(self.entries(), Some(pos)) is None,
    {
        let mut i: usize = 0;
        while i < self.map.len()
            invariant
                i <= self.map@.len(),
                forall|j: int| 0 <= j < i ==> self.map@[j] != Some(pos),
            decreases self.map@.len() - i,
        {
            if let Some(id) = self.map[i] {
                if id.0 == pos.0 && id.1 == pos.1 {
                    proof {
                        lemma_first_index_at(self.map@, Some(pos), i as int);
                    }
                    return Some(i);
                }
            }
            i = i + 1;
        }
        proof {
            lemma_first_index_none(self.map@, Some(pos));
        }
        None
    }

    /// Moves the object with id `current_obj_id` to number `move_to`: it
    /// leaves its position, and the entries from `move_to` on shift up one.
    /// Gives back its old position.
    pub fn remap(&mut self, current_obj_id: ObjectId, move_to: usize) -> (r: usize)
        requires
            first_index(old(self).entries(), Some(current_obj_id)) is Some,
            move_to < old(self).entries().len(),
        ensures
            first_index(old(self).entries(), Some(current_obj_id)) == Some(r as int),
            final(self).entries() == old(self).entries().remove(r as int).insert(move_to as int, Some(current_obj_id)),
            final(self).streams() == old(self).streams(),
    {
        proof {
            lemma_first_index_props(self.map@, Some(current_obj_id));
        }
        let index = self.index_of(current_obj_id);
        match index {
            Some(u) => {
                let id = self.map.remove(u);
                self.map.insert(move_to, id);
                u
            },
            None => {
                proof {
                    assert(false);
                }
                0
            },
        }
    }

    /// Inserts a free number at position `id_to_insert_after`.
    pub fn free_id_at(&mut self, id_to_insert_after: u32)
        requires
            id_to_insert_after <= old(self).entries().len(),
        ensures
            final(self).entries() == old(self).entries().insert(id_to_insert_after as int, None),
            final(self).streams() == old(self).streams(),
    {
        self.map.insert(id_to_insert_after as usize, None);
    }

    /// Inserts `amount` free numbers after position `id_to_insert_after`.
    pub fn free_ids_starting_from(&mut self, id_to_insert_after: u32, amount: u32)
        requires
            id_to_insert_after + amount <= u32::MAX,
            id_to_insert_after < old(self).entries().len(),
        ensures
            final(self).entries() == with_free_numbers(old(self).entries(), id_to_insert_after as int, amount as nat),
            final(self).streams() == old(self).streams(),
    {
        let ghost s = self.map@;
        let ghost start = id_to_insert_after as int;
        let mut i: u64 = 1;
        assert(s =~= with_free_numbers(s, start, 0));
        while i <= amount as u64
            invariant
                1 <= i <= amount + 1,
                id_to_insert_after + amount <= u32::MAX,
                start == id_to_insert_after,
                start < s.len(),
                self.map@ == with_free_numbers(s, start, (i - 1) as nat),
                self.removed_stream_ids@ == old(self).removed_stream_ids@,
            decreases amount + 1 - i,
        {
            let ghost before = self.map@;
            self.free_id_at(id_to_insert_after + i as u32);
            assert(self.map@ =~= with_free_numbers(s, start, i as nat));
            i = i + 1;
        }
    }

    /// Moves the object with id `current_obj_id` to the last number.
    pub fn map_to_last(&mut self, current_obj_id: ObjectId)
        requires
            first_index(old(self).entries(), Some(current_obj_id)) is Some,
        ensures
            ({
                let u = first_index(old(self).entries(), Some(current_obj_id))->0;
                final(self).entries() == old(self).entries().remove(u).push(Some(current_obj_id))
            }),
            final(self).streams() == old(self).streams(),
    {
        proof {
            lemma_first_index_props(self.map@, Some(current_obj_id));
        }
        let index = self.index_of(current_obj_id);
        match index {
            Some(u) => {
                let id = self.map.remove(u);
                self.map.push(id);
            },
            None => {},
        }
    }

    /// Takes the object with id `id_to_remove` off the map, if it is there; a
    /// content stream's id is kept among the stream ids.
    pub fn remove_id_at(&mut self, id_to_remove: &ObjectId, is_stream: bool)
        ensures
            first_index(old(self).entries(), Some(*id_to_remove)) matches Some(u) ==> {
                &&& final(self).entries() == old(self).entries().remove(u)
                &&& final(self).streams() == if is_stream {
                    old(self).streams().push(*id_to_remove)
                } else {
                    old(self).streams()
                }
            },
            first_index(old(self).entries(), Some(*id_to_remove)) is None ==> {
                &&& final(self).entries() == old(self).entries()
                &&& final(self).streams() == old(self).streams()
            },
    {
        proof {
            lemma_first_index_props(self.map@, Some(*id_to_remove));
        }
        let index = self.index_of(*id_to_remove);
        if let Some(u) = index {
            if is_stream {
                self.removed_stream_ids.push(*id_to_remove);
            }
            self.map.remove(u);
        }
    }
}

/// Moving an object to number `to` keeps the numbers before `to` when the
/// object is not among them.
pub proof fn lemma_remap_keeps_prefix(s: Seq<Option<ObjectId>>, id: ObjectId, to: int)
    requires
        remap_in(s, id, to) is Some,
        forall|j: int| 0 <= j < to ==> s[j] != Some(id),
    ensures
        remap_in(s, id, to)->0.len() == s.len(),
        remap_in(s, id, to)->0.take(to) == s.take(to),
        remap_in(s, id, to)->0[to] == Some(id),
{
    lemma_first_index_props(s, Some(id));
    let u = first_index(s, Some(id))->0;
    if u < to {
        assert(s[u] != Some(id));
    }
    let r = s.remove(u);
    let t = r.insert(to, Some(id));
    assert forall|j: int| 0 <= j < to implies #[trigger] t[j] == s[j] by {
        assert(t[j] == r[j]);
    }
    assert(t.take(to) =~= s.take(to));
}

/// Moving an object to the end keeps the numbers before `k` when the object
/// is not among them.
pub proof fn lemma_last_keeps_prefix(s: Seq<Option<ObjectId>>, id: ObjectId, k: int)
    requires
        last_in(s, id) is Some,
        0 <= k <= s.len(),
        forall|j: int| 0 <= j < k ==> s[j] != Some(id),
    ensures
        last_in(s, id)->0.len() == s.len(),
        last_in(s, id)->0.take(k) == s.take(k),
{
    lemma_first_index_props(s, Some(id));
    let u = first_index(s, Some(id))->0;
    if u < k {
        assert(s[u] != Some(id));
    }
    let t = s.remove(u).push(Some(id));
    assert forall|j: int| 0 <= j < k implies #[trigger] t[j] == s[j] by {
        assert(t[j] == s.remove(u)[j]);
    }
    assert(t.take(k) =~= s.take(k));
}

/// Taking content streams off the map keeps the numbers before `k` when none
/// of the streams is among them.
pub proof fn lemma_streams_keep_prefix(s: Seq<Option<ObjectId>>, st: Seq<ObjectId>, ids: Seq<ObjectId>, k: int)
    requires
        0 <= k <= s.len(),
        forall|i: int, j: int| 0 <= i < ids.len() && 0 <= j < k ==> #[trigger] s[j] != Some(#[trigger] ids[i]),
    ensures
        take_streams(s, st, ids).0.len() >= k,
        take_streams(s, st, ids).0.take(k) == s.take(k),
    decreases ids.len(),
{
    if ids.len() > 0 {
        let rest = ids.drop_last();
        assert forall|i: int, j: int| 0 <= i < rest.len() && 0 <= j < k implies #[trigger] s[j] != Some(#[trigger] rest[i]) by {
            assert(rest[i] == ids[i]);
        }
        lemma_streams_keep_prefix(s, st, rest, k);
        let prev = take_streams(s, st, rest).0;
        let id = ids.last();
        lemma_first_index_props(prev, Some(id));
        match first_index(prev, Some(id)) {
            Some(u) => {
                if u < k {
                    assert(prev[u] == prev.take(k)[u]);
                    assert(s[u] != Some(ids[ids.len() - 1]));
                }
                let t = prev.remove(u);
                assert forall|j: int| 0 <= j < k implies #[trigger] t[j] == s[j] by {
                    assert(t[j] == prev[j]);
                    assert(prev[j] == prev.take(k)[j]);
                }
                assert(t.take(k) =~= s.take(k));
            },
            None => {},
        }
    }
}

/// After an object is moved to a number, it has that number: when no id
/// stands twice in the map, `remap` gives the object exactly the number asked
/// for and keeps ids distinct.
pub proof fn lemma_remap_numbers(s: Seq<Option<ObjectId>>, id: ObjectId, move_to: int)
    requires
        distinct_ids(s),
        first_index(s, Some(id)) is Some,
        0 <= move_to < s.len(),
    ensures
        ({
            let u = first_index(s, Some(id))->0;
            let t = s.remove(u).insert(move_to, Some(id));
            &&& first_index(t, Some(id)) == Some(move_to)
            &&& distinct_ids(t)
            &&& t.len() == s.len()
        }),
{
    lemma_first_index_props(s, Some(id));
    let u = first_index(s, Some(id))->0;
    let r = s.remove(u);
    let t = r.insert(move_to, Some(id));
    assert forall|j: int| 0 <= j < r.len() implies r[j] != Some(id) by {
        if j < u {
            assert(r[j] == s[j]);
        } else {
            assert(r[j] == s[j + 1]);
            assert(s[u] is Some);
        }
    }
    assert forall|j: int| 0 <= j < move_to implies t[j] != Some(id) by {
        assert(t[j] == r[j]);
    }
    lemma_first_index_at(t, Some(id), move_to);
    assert forall|i: int, j: int| 0 <= i < t.len() && 0 <= j < t.len() && i != j && (#[trigger] t[i]) is Some implies t[i] != #[trigger] t[j] by {
        let ri = if i < move_to { i } else { i - 1 };
        let rj = if j < move_to { j } else { j - 1 };
        if i == move_to {
            if j < move_to {
                assert(t[j] == r[j]);
            } else {
                assert(t[j] == r[j - 1]);
            }
        } else if j == move_to {
            assert(t[i] == r[ri]);
        } else {
            assert(t[i] == r[ri]);
            assert(t[j] == r[rj]);
            let si = if ri < u { ri } else { ri + 1 };
            let sj = if rj < u { rj } else { rj + 1 };
            assert(r[ri] == s[si]);
            assert(r[rj] == s[sj]);
        }
    }
}

/// Moving an object to the end gives it the last number, when no id stands
/// twice in the map.
pub proof fn lemma_map_to_last_numbers(s: Seq<Option<ObjectId>>, id: ObjectId)
    requires
        distinct_ids(s),
        first_index(s, Some(id)) is Some,
    ensures
        ({
            let u = first_index(s, Some(id))->0;
            let t = s.remove(u).push(Some(id));
            &&& first_index(t, Some(id)) == Some(s.len() - 1)
            &&& t.len() == s.len()
        }),
{
    lemma_first_index_props(s, Some(id));
    let u = first_index(s, Some(id))->0;
    let r = s.remove(u);
    let t = r.push(Some(id));
    assert forall|j: int| 0 <= j < r.len() implies t[j] != Some(id) by {
        if j < u {
            assert(r[j] == s[j]);
        } else {
            assert(r[j] == s[j + 1]);
        }
    }
    lemma_first_index_at(t, Some(id), s.len() - 1);
}

} // verus!
