//! Operations of the insertion-ordered object container.
//!
//! Keys are unique; setting an existing key replaces its value in place,
//! removal is the O(1) swap-remove, which moves the last entry into the
//! freed slot and so does not preserve the order of the tail.

use vstd::prelude::*;

use crate::eq::clone_string;
use crate::eq::clone_value;
use crate::eq::value_eq;
use crate::text::str_eq_string;
use crate::value::Json;
use crate::value::JsonObject;
use crate::value::JsonValue;
use crate::value::entries_model;
use crate::value::keys_unique;
use crate::value::lemma_entries_model;
use crate::value::wf_json;

verus! {

broadcast use vstd::std_specs::vec::group_vec_axioms, crate::value::lemma_entries_model, crate::value::lemma_entries_model_update, crate::value::lemma_entries_model_push, crate::value::lemma_entries_model_drop_last;

/// The index of the first entry with key `k`, or -1 when absent.
pub open spec fn find_key(ms: Seq<(Seq<char>, Json)>, k: Seq<char>) -> int
    decreases ms.len(),
{
    if ms.len() == 0 {
        -1
    } else if ms[0].0 == k {
        0
    } else {
        let r = find_key(ms.drop_first(), k);
        if r == -1 {
            -1
        } else {
            r + 1
        }
    }
}

pub open spec fn has_key(ms: Seq<(Seq<char>, Json)>, k: Seq<char>) -> bool {
    find_key(ms, k) >= 0
}

/// The value stored under `k`, when present.
pub open spec fn obj_get(ms: Seq<(Seq<char>, Json)>, k: Seq<char>) -> Option<Json> {
    if find_key(ms, k) >= 0 {
        Some(ms[find_key(ms, k)].1)
    } else {
        None
    }
}

/// Overwrite-or-append: replaces the value of an existing key in place,
/// appends a new entry otherwise.
pub open spec fn obj_set(ms: Seq<(Seq<char>, Json)>, k: Seq<char>, v: Json) -> Seq<
    (Seq<char>, Json),
> {
    if has_key(ms, k) {
        ms.update(find_key(ms, k), (k, v))
    } else {
        ms.push((k, v))
    }
}

/// Swap-remove of the entry with key `k`: the last entry moves into the
/// freed slot; absent keys leave the object unchanged.
pub open spec fn obj_del(ms: Seq<(Seq<char>, Json)>, k: Seq<char>) -> Seq<(Seq<char>, Json)> {
    if has_key(ms, k) {
        ms.update(find_key(ms, k), ms.last()).drop_last()
    } else {
        ms
    }
}

/// Right-biased union: every entry of `other`, in order, is set into `ms`.
pub open spec fn obj_merge(ms: Seq<(Seq<char>, Json)>, other: Seq<(Seq<char>, Json)>) -> Seq<
    (Seq<char>, Json),
>
    decreases other.len(),
{
    if other.len() == 0 {
        ms
    } else {
        obj_merge(obj_set(ms, other[0].0, other[0].1), other.drop_first())
    }
}

/// What `find_key` finds: the first index holding `k`, if any.
pub proof fn lemma_find_key(ms: Seq<(Seq<char>, Json)>, k: Seq<char>)
    ensures
        -1 <= find_key(ms, k) < ms.len(),
        find_key(ms, k) == -1 ==> forall|i: int| 0 <= i < ms.len() ==> ms[i].0 != k,
        find_key(ms, k) >= 0 ==> ms[find_key(ms, k)].0 == k && (forall|i: int|
            0 <= i < find_key(ms, k) ==> ms[i].0 != k),
    decreases ms.len(),
{
    if ms.len() > 0 && ms[0].0 != k {
        lemma_find_key(ms.drop_first(), k);
        let r = find_key(ms.drop_first(), k);
        if r >= 0 {
            assert(ms[r + 1] == ms.drop_first()[r]);
            assert forall|i: int| 0 <= i < r + 1 implies ms[i].0 != k by {
                if i >= 1 {
                    assert(ms[i] == ms.drop_first()[i - 1]);
                }
            }
        } else {
            assert forall|i: int| 0 <= i < ms.len() implies ms[i].0 != k by {
                if i >= 1 {
                    assert(ms[i] == ms.drop_first()[i - 1]);
                }
            }
        }
    }
}

/// Setting a key keeps the keys unique.
pub proof fn lemma_obj_set_wf(ms: Seq<(Seq<char>, Json)>, k: Seq<char>, v: Json)
    requires
        keys_unique(ms),
    ensures
        keys_unique(obj_set(ms, k, v)),
{
    lemma_find_key(ms, k);
    let r = obj_set(ms, k, v);
    if has_key(ms, k) {
        let f = find_key(ms, k);
        assert forall|i: int, j: int| 0 <= i < j < r.len() implies r[i].0 != r[j].0 by {
            assert(ms[f].0 == k);
        }
    } else {
        assert forall|i: int, j: int| 0 <= i < j < r.len() implies r[i].0 != r[j].0 by {
            if j == ms.len() {
                assert(r[i].0 == ms[i].0);
            }
        }
    }
}

/// Swap-removal keeps the keys unique.
pub proof fn lemma_obj_del_wf(ms: Seq<(Seq<char>, Json)>, k: Seq<char>)
    requires
        keys_unique(ms),
    ensures
        keys_unique(obj_del(ms, k)),
{
    lemma_find_key(ms, k);
}

impl JsonObject {
    /// Creates a new, empty object.
    pub fn new() -> (r: JsonObject)
        ensures
            r@ == Seq::<(Seq<char>, Json)>::empty(),
            r.wf(),
    {
        JsonObject { entries: Vec::new() }
    }

    /// The number of entries.
    pub fn len(&self) -> (r: usize)
        ensures
            r == self@.len(),
    {
        proof {
            lemma_entries_model(self.entries@);
        }
        self.entries.len()
    }

    /// Whether the object has no entries.
    pub fn is_empty(&self) -> (r: bool)
        ensures
            r == (self@.len() == 0),
    {
        proof {
            lemma_entries_model(self.entries@);
        }
        self.entries.is_empty()
    }

    /// Removes every entry.
    pub fn clear(&mut self)
        ensures
            final(self)@ == Seq::<(Seq<char>, Json)>::empty(),
            final(self).wf(),
    {
        self.entries.clear();
    }

    /// The index of the first entry whose key is `k`, if any.
    pub(crate) fn find_index(&self, k: &str) -> (r: Option<usize>)
        ensures
            match r {
                Some(i) => i < self@.len() && find_key(self@, k@) == i,
                None => find_key(self@, k@) == -1,
            },
    {
        proof {
            lemma_entries_model(self.entries@);
            lemma_find_key(self@, k@);
        }
        let n = self.entries.len();
        let mut i: usize = 0;
        while i < n
            invariant
                0 <= i <= n,
                n == self.entries@.len(),
                self@.len() == n,
                self@ == crate::value::object_model(self),
                forall|j: int| 0 <= j < i ==> self@[j].0 != k@,
            decreases n - i,
        {
            proof {
                lemma_entries_model(self.entries@);
            }
            if str_eq_string(k, &self.entries[i].0) {
                proof {
                    lemma_find_key(self@, k@);
                    let f = find_key(self@, k@);
                    assert(self@[i as int].0 == k@);
                    if f == -1 {
                        assert(self@[i as int].0 != k@);
                    } else if f < i as int {
                        assert(self@[f].0 != k@);
                    } else if f > i as int {
                        assert(self@[i as int].0 != k@);
                    }
                }
                return Some(i);
            }
            i = i + 1;
        }
        proof {
            lemma_find_key(self@, k@);
            let f = find_key(self@, k@);
            if f >= 0 {
                assert(self@[f].0 != k@);
            }
        }
        None
    }

    /// A reference to the value under `k`, or `None` when the key is absent.
    pub fn get(&self, k: &str) -> (r: Option<&JsonValue>)
        ensures
            match r {
                Some(v) => obj_get(self@, k@) == Some(v@),
                None => obj_get(self@, k@) is None,
            },
    {
        proof {
            lemma_entries_model(self.entries@);
        }
        match self.find_index(k) {
            Some(i) => Some(&self.entries[i].1),
            None => None,
        }
    }

    /// A mutable reference to the value under `k`, or `None` when absent.
    pub fn get_mut(&mut self, k: &str) -> (r: Option<&mut JsonValue>)
        ensures
            match r {
                Some(m) => {
                    &&& find_key(old(self)@, k@) >= 0
                    &&& (*m)@ == old(self)@[find_key(old(self)@, k@)].1
                    &&& final(self)@ == old(self)@.update(
                        find_key(old(self)@, k@),
                        (k@, final(m)@),
                    )
                },
                None => !has_key(old(self)@, k@) && final(self)@ == old(self)@,
            },
    {
        proof {
            lemma_entries_model(self.entries@);
            lemma_find_key(self@, k@);
        }
        match self.find_index(k) {
            Some(i) => {
                let ghost pre = self.entries@;
                proof {
                    lemma_entries_model(pre);
                }
                Some(entry_value_mut(&mut self.entries, i))
            },
            None => None,
        }
    }

    /// Whether an entry with key `k` exists.
    pub fn contains_key(&self, k: &str) -> (r: bool)
        ensures
            r == has_key(self@, k@),
    {
        match self.find_index(k) {
            Some(_) => true,
            None => false,
        }
    }

    /// Whether some entry holds a value structurally equal to `v`.
    pub fn contains_value(&self, v: &JsonValue) -> (r: bool)
        ensures
            r == exists|i: int|
                0 <= i < self@.len() && crate::eq::json_equiv(#[trigger] self@[i].1, v@),
    {
        proof {
            lemma_entries_model(self.entries@);
        }
        let n = self.entries.len();
        let mut i: usize = 0;
        while i < n
            invariant
                0 <= i <= n,
                n == self.entries@.len(),
                self@.len() == n,
                self@ == crate::value::object_model(self),
                forall|j: int|
                    0 <= j < i ==> !crate::eq::json_equiv(#[trigger] self@[j].1, v@),
            decreases n - i,
        {
            proof {
                lemma_entries_model(self.entries@);
            }
            if value_eq(&self.entries[i].1, v) {
                proof {
                    assert(crate::eq::json_equiv(self@[i as int].1, v@));
                }
                return true;
            }
            i = i + 1;
        }
        false
    }

    /// Sets `k` to `v`: replaces the value of an existing key in place,
    /// appends a new entry otherwise.
    pub fn set(&mut self, k: String, v: JsonValue)
        ensures
            final(self)@ == obj_set(old(self)@, k@, v@),
            old(self).wf() && wf_json(v@) ==> final(self).wf(),
    {
        proof {
            lemma_entries_model(self.entries@);
            lemma_find_key(self@, k@);
            if keys_unique(old(self)@) {
                lemma_obj_set_wf(old(self)@, k@, v@);
            }
        }
        match self.find_index(&k) {
            Some(i) => {
                let ghost pre = self.entries@;
                let e = &mut self.entries[i];
                e.1 = v;
                proof {
                    lemma_entries_model(pre);
                    lemma_entries_model(self.entries@);
                    assert(self.entries@ == pre.update(i as int, (pre[i as int].0, self.entries@[i as int].1)));
                    assert(entries_model(self.entries@) =~= obj_set(
                        entries_model(pre),
                        k@,
                        entries_model(self.entries@)[i as int].1,
                    ));
                }
            },
            None => {
                let ghost pre = self.entries@;
                self.entries.push((k, v));
                proof {
                    lemma_entries_model(pre);
                    lemma_entries_model(self.entries@);
                    assert(self.entries@.drop_last() =~= pre);
                    assert(entries_model(self.entries@) =~= obj_set(
                        entries_model(pre),
                        self.entries@.last().0@,
                        self.entries@.last().1@,
                    ));
                }
            },
        }
    }

    /// Removes the entry with key `k` by swap-remove: the last entry moves
    /// into the freed slot.  Absent keys leave the object unchanged.
    pub fn del(&mut self, k: &str)
        ensures
            final(self)@ == obj_del(old(self)@, k@),
            old(self).wf() ==> final(self).wf(),
    {
        proof {
            lemma_entries_model(self.entries@);
            lemma_find_key(self@, k@);
            if keys_unique(old(self)@) {
                lemma_obj_del_wf(old(self)@, k@);
            }
        }
        match self.find_index(k) {
            Some(i) => {
                let ghost pre = self.entries@;
                self.entries.swap_remove(i);
                proof {
                    lemma_entries_model(pre);
                    lemma_entries_model(self.entries@);
                    lemma_entries_model(pre.update(i as int, pre.last()));
                    assert(self.entries@ =~= pre.update(i as int, pre.last()).drop_last());
                    assert(entries_model(self.entries@) =~= entries_model(pre).update(
                        i as int,
                        entries_model(pre).last(),
                    ).drop_last());
                }
            },
            None => {},
        }
    }

    /// Merges `other` into this object: every entry of `other` is set, so
    /// its keys replace equal keys already present.
    pub fn merge(&mut self, other: JsonObject)
        ensures
            final(self)@ == obj_merge(old(self)@, other@),
            old(self).wf() && other.wf() ==> final(self).wf(),
    {
        proof {
            lemma_entries_model(other.entries@);
        }
        let n = other.entries.len();
        let mut i: usize = 0;
        let ghost om = other@;
        proof {
            assert(om.skip(0) =~= om);
        }
        while i < n
            invariant
                0 <= i <= n,
                n == other.entries@.len(),
                om == entries_model(other.entries@),
                om.len() == n,
                obj_merge(self@, om.skip(i as int)) == obj_merge(old(self)@, om),
                old(self).wf() && wf_json(Json::Obj(om)) ==> self.wf(),
            decreases n - i,
        {
            proof {
                lemma_entries_model(other.entries@);
            }
            let k = clone_string(&other.entries[i].0);
            let v = clone_value(&other.entries[i].1);
            let ghost before = self@;
            proof {
                if keys_unique(before) {
                    lemma_obj_set_wf(before, k@, v@);
                }
            }
            self.set(k, v);
            proof {
                assert(om.skip(i as int)[0] == om[i as int]);
                assert(om.skip(i as int).drop_first() =~= om.skip(i + 1));
                assert(obj_merge(before, om.skip(i as int)) == obj_merge(
                    obj_set(before, om[i as int].0, om[i as int].1),
                    om.skip(i + 1),
                ));
                if keys_unique(before) && wf_json(Json::Obj(om)) {
                    lemma_wf_entries(om, om[i as int].1);
                }
            }
            i = i + 1;
        }
        proof {
            assert(om.skip(n as int) =~= Seq::<(Seq<char>, Json)>::empty());
        }
    }

    /// The value under `k`; the key must be present.
    pub fn index(&self, k: &str) -> (r: &JsonValue)
        requires
            has_key(self@, k@),
        ensures
            obj_get(self@, k@) == Some(r@),
    {
        proof {
            lemma_entries_model(self.entries@);
            lemma_find_key(self@, k@);
        }
        let i = self.find_index(k).unwrap();
        &self.entries[i].1
    }

    /// The keys, in entry order.
    pub fn keys(&self) -> (r: Vec<String>)
        ensures
            r@.len() == self@.len(),
            forall|i: int| 0 <= i < r@.len() ==> r@[i]@ == self@[i].0,
    {
        proof {
            lemma_entries_model(self.entries@);
        }
        let n = self.entries.len();
        let mut r: Vec<String> = Vec::new();
        let mut i: usize = 0;
        while i < n
            invariant
                0 <= i <= n,
                n == self.entries@.len(),
                self@.len() == n,
                self@ == crate::value::object_model(self),
                r@.len() == i,
                forall|j: int| 0 <= j < i ==> r@[j]@ == self@[j].0,
            decreases n - i,
        {
            proof {
                lemma_entries_model(self.entries@);
            }
            r.push(clone_string(&self.entries[i].0));
            i = i + 1;
        }
        r
    }

    /// The values, in entry order.
    pub fn values(&self) -> (r: Vec<JsonValue>)
        ensures
            r@.len() == self@.len(),
            forall|i: int| 0 <= i < r@.len() ==> r@[i]@ == self@[i].1,
    {
        proof {
            lemma_entries_model(self.entries@);
        }
        let n = self.entries.len();
        let mut r: Vec<JsonValue> = Vec::new();
        let mut i: usize = 0;
        while i < n
            invariant
                0 <= i <= n,
                n == self.entries@.len(),
                self@.len() == n,
                self@ == crate::value::object_model(self),
                r@.len() == i,
                forall|j: int| 0 <= j < i ==> r@[j]@ == self@[j].1,
            decreases n - i,
        {
            proof {
                lemma_entries_model(self.entries@);
            }
            r.push(clone_value(&self.entries[i].1));
            i = i + 1;
        }
        r
    }

    /// The key/value pairs, in entry order.
    pub fn iter(&self) -> (r: Vec<(String, JsonValue)>)
        ensures
            r@.len() == self@.len(),
            forall|i: int| 0 <= i < r@.len() ==> (r@[i].0@, r@[i].1@) == self@[i],
    {
        proof {
            lemma_entries_model(self.entries@);
        }
        let n = self.entries.len();
        let mut r: Vec<(String, JsonValue)> = Vec::new();
        let mut i: usize = 0;
        while i < n
            invariant
                0 <= i <= n,
                n == self.entries@.len(),
                self@.len() == n,
                self@ == crate::value::object_model(self),
                r@.len() == i,
                forall|j: int| 0 <= j < i ==> (r@[j].0@, r@[j].1@) == self@[j],
            decreases n - i,
        {
            proof {
                lemma_entries_model(self.entries@);
            }
            r.push((clone_string(&self.entries[i].0), clone_value(&self.entries[i].1)));
            i = i + 1;
        }
        r
    }
}

/// The witness that the predicate can return `b` on an entry modelling
/// `src`.
pub open spec fn entry_filter_witness<P: Fn(&String, &JsonValue) -> bool>(
    p: P,
    k: String,
    x: JsonValue,
    src: (Seq<char>, Json),
    b: bool,
) -> bool {
    k@ == src.0 && x@ == src.1 && call_ensures(p, (&k, &x), b)
}

/// The predicate can keep an entry modelling `src`.
pub open spec fn entry_kept<P: Fn(&String, &JsonValue) -> bool>(
    p: P,
    src: (Seq<char>, Json),
) -> bool {
    exists|k: String, x: JsonValue| #[trigger] entry_filter_witness(p, k, x, src, true)
}

/// The predicate can drop an entry modelling `src`.
pub open spec fn entry_dropped<P: Fn(&String, &JsonValue) -> bool>(
    p: P,
    src: (Seq<char>, Json),
) -> bool {
    exists|k: String, x: JsonValue| #[trigger] entry_filter_witness(p, k, x, src, false)
}

/// `dst` selects, in order, the `origin`-indexed entries of `src`.
pub open spec fn entry_selection_of(
    origin: Seq<int>,
    src: Seq<(Seq<char>, Json)>,
    dst: Seq<(Seq<char>, Json)>,
) -> bool {
    &&& origin.len() == dst.len()
    &&& (forall|t: int|
        0 <= t < origin.len() ==> 0 <= #[trigger] origin[t] < src.len() && dst[t]
            == src[origin[t]])
    &&& (forall|t1: int, t2: int| 0 <= t1 < t2 < origin.len() ==> origin[t1] < origin[t2])
}

/// The witness for one mapped entry value.
pub open spec fn entry_map_witness<F: Fn(&String, &JsonValue) -> JsonValue>(
    mapper: F,
    k: String,
    x: JsonValue,
    y: JsonValue,
    src: (Seq<char>, Json),
    dst: Json,
) -> bool {
    k@ == src.0 && x@ == src.1 && call_ensures(mapper, (&k, &x), y) && dst == y@
}

/// `dst` is what the mapper turned the entry `src` into.
pub open spec fn entry_mapped<F: Fn(&String, &JsonValue) -> JsonValue>(
    mapper: F,
    src: (Seq<char>, Json),
    dst: Json,
) -> bool {
    exists|k: String, x: JsonValue, y: JsonValue|
        #[trigger] entry_map_witness(mapper, k, x, y, src, dst)
}

impl JsonObject {
    /// A new object holding, in order, exactly the entries the predicate
    /// kept: an order-preserving selection (so the keys stay unique),
    /// each kept entry one the predicate returned `true` on, each dropped
    /// entry one it returned `false` on.
    pub fn filter<P: Fn(&String, &JsonValue) -> bool>(&self, predicate: P) -> (r: JsonObject)
        requires
            forall|k: &String, x: &JsonValue| #[trigger] predicate.requires((k, x)),
        ensures
            r@.len() <= self@.len(),
            self.wf() ==> r.wf(),
            exists|origin: Seq<int>|
                {
                    &&& #[trigger] entry_selection_of(origin, self@, r@)
                    &&& (forall|t: int|
                        0 <= t < origin.len() ==> #[trigger] entry_kept(
                            predicate,
                            self@[origin[t]],
                        ))
                    &&& (forall|j: int|
                        0 <= j < self@.len() && !origin.contains(j) ==> #[trigger] entry_dropped(
                            predicate,
                            self@[j],
                        ))
                },
    {
        proof {
            lemma_entries_model(self.entries@);
        }
        let n = self.entries.len();
        let mut kept: Vec<(String, JsonValue)> = Vec::new();
        let ghost mut origin: Seq<int> = Seq::empty();
        let mut i: usize = 0;
        while i < n
            invariant
                0 <= i <= n,
                n == self.entries@.len(),
                self@.len() == n,
                self@ == crate::value::object_model(self),
                forall|k: &String, x: &JsonValue| #[trigger] predicate.requires((k, x)),
                origin.len() == entries_model(kept@).len(),
                entries_model(kept@).len() == kept@.len(),
                kept@.len() <= i,
                forall|t: int|
                    0 <= t < origin.len() ==> 0 <= #[trigger] origin[t] < i && entries_model(
                        kept@,
                    )[t] == self@[origin[t]],
                forall|t1: int, t2: int|
                    0 <= t1 < t2 < origin.len() ==> origin[t1] < origin[t2],
                forall|t: int|
                    0 <= t < origin.len() ==> #[trigger] entry_kept(predicate, self@[origin[t]]),
                forall|j: int|
                    0 <= j < i && !origin.contains(j) ==> #[trigger] entry_dropped(
                        predicate,
                        self@[j],
                    ),
            decreases n - i,
        {
            proof {
                lemma_entries_model(self.entries@);
                lemma_entries_model(kept@);
            }
            let ghost origin_pre = origin;
            let kref = &self.entries[i].0;
            let xref = &self.entries[i].1;
            let keep = predicate(kref, xref);
            proof {
                assert(call_ensures(predicate, (&*kref, &*xref), keep));
                assert(entry_filter_witness(predicate, *kref, *xref, self@[i as int], keep));
            }
            if keep {
                let k = clone_string(kref);
                let v = clone_value(xref);
                kept.push((k, v));
                proof {
                    lemma_entries_model(kept@);
                    origin = origin.push(i as int);
                    assert(origin[origin_pre.len() as int] == i as int);
                    assert forall|j: int|
                        0 <= j < i + 1 && !origin.contains(j) implies #[trigger] entry_dropped(
                        predicate,
                        self@[j],
                    ) by {
                        if j < i {
                            assert(!origin_pre.contains(j)) by {
                                if origin_pre.contains(j) {
                                    let t = choose|t: int|
                                        0 <= t < origin_pre.len() && origin_pre[t] == j;
                                    assert(origin[t] == j);
                                    assert(origin.contains(j));
                                }
                            }
                        } else {
                            assert(origin.contains(j));
                        }
                    }
                }
            } else {
                proof {
                    assert(entry_dropped(predicate, self@[i as int]));
                }
            }
            i = i + 1;
        }
        let r = JsonObject { entries: kept };
        proof {
            assert(entry_selection_of(origin, self@, r@));
            if self.wf() {
                assert(keys_unique(r@)) by {
                    assert forall|t1: int, t2: int|
                        0 <= t1 < t2 < r@.len() implies r@[t1].0 != r@[t2].0 by {
                        assert(r@[t1] == self@[origin[t1]]);
                        assert(r@[t2] == self@[origin[t2]]);
                    }
                }
                assert forall|t: int| 0 <= t < r@.len() implies wf_json(#[trigger] r@[t].1) by {
                    assert(r@[t] == self@[origin[t]]);
                    crate::value::lemma_wf_entry_at(self@, origin[t]);
                }
            }
        }
        r
    }

    /// A new object with the same keys, in order, each value replaced by
    /// what the mapper returned for its entry.
    pub fn map<F: Fn(&String, &JsonValue) -> JsonValue>(&self, mapper: F) -> (r: JsonObject)
        requires
            forall|k: &String, x: &JsonValue| #[trigger] mapper.requires((k, x)),
        ensures
            r@.len() == self@.len(),
            forall|i: int| 0 <= i < self@.len() ==> (#[trigger] r@[i]).0 == self@[i].0,
            forall|i: int| 0 <= i < self@.len() ==> #[trigger] entry_mapped(
                mapper,
                self@[i],
                r@[i].1,
            ),
            self.wf() ==> keys_unique(r@),
    {
        proof {
            lemma_entries_model(self.entries@);
        }
        let n = self.entries.len();
        let mut mapped: Vec<(String, JsonValue)> = Vec::new();
        let mut i: usize = 0;
        while i < n
            invariant
                0 <= i <= n,
                n == self.entries@.len(),
                self@.len() == n,
                self@ == crate::value::object_model(self),
                forall|k: &String, x: &JsonValue| #[trigger] mapper.requires((k, x)),
                entries_model(mapped@).len() == i,
                mapped@.len() == i,
                forall|t: int|
                    0 <= t < i ==> (#[trigger] entries_model(mapped@)[t]).0 == self@[t].0,
                forall|t: int|
                    0 <= t < i ==> #[trigger] entry_mapped(
                        mapper,
                        self@[t],
                        entries_model(mapped@)[t].1,
                    ),
            decreases n - i,
        {
            proof {
                lemma_entries_model(self.entries@);
                lemma_entries_model(mapped@);
            }
            let k = clone_string(&self.entries[i].0);
            let x = clone_value(&self.entries[i].1);
            let y = mapper(&k, &x);
            let ghost kv = k;
            let ghost xv = x;
            let ghost yv = y;
            let ghost pre = entries_model(mapped@);
            mapped.push((k, y));
            proof {
                lemma_entries_model(mapped@);
                assert(entries_model(mapped@) =~= pre.push((kv@, yv@)));
                assert forall|t: int| 0 <= t < i + 1 implies #[trigger] entry_mapped(
                    mapper,
                    self@[t],
                    entries_model(mapped@)[t].1,
                ) && (#[trigger] entries_model(mapped@)[t]).0 == self@[t].0 by {
                    if t < i {
                        assert(pre.push((kv@, yv@))[t] == pre[t]);
                        assert(entries_model(mapped@)[t] == pre[t]);
                    } else {
                        assert(pre.push((kv@, yv@))[pre.len() as int] == (kv@, yv@));
                        assert(entry_map_witness(mapper, kv, xv, yv, self@[t], yv@));
                    }
                }
            }
            i = i + 1;
        }
        let r = JsonObject { entries: mapped };
        proof {
            if self.wf() {
                assert forall|t1: int, t2: int|
                    0 <= t1 < t2 < r@.len() implies r@[t1].0 != r@[t2].0 by {
                    assert(r@[t1].0 == self@[t1].0);
                    assert(r@[t2].0 == self@[t2].0);
                }
            }
        }
        r
    }
}

/// A mutable borrow of the value of one entry; the key stays as it is.
fn value_of_entry_mut(p: &mut (String, JsonValue)) -> (r: &mut JsonValue)
    ensures
        *r == old(p).1,
        *final(p) == (old(p).0, *final(r)),
{
    &mut p.1
}

/// A mutable borrow of the value of the entry at `i`; everything else in
/// the vector stays as it is.
fn entry_value_mut(v: &mut Vec<(String, JsonValue)>, i: usize) -> (r: &mut JsonValue)
    requires
        i < old(v)@.len(),
    ensures
        *r == old(v)@[i as int].1,
        final(v)@ == old(v)@.update(i as int, (old(v)@[i as int].0, *final(r))),
        entries_model(final(v)@) == entries_model(old(v)@).update(
            i as int,
            (old(v)@[i as int].0@, (*final(r))@),
        ),
{
    value_of_entry_mut(&mut v[i])
}

/// In a well-formed entry sequence every stored value is well-formed.
pub proof fn lemma_wf_entries(ms: Seq<(Seq<char>, Json)>, j: Json)
    requires
        wf_json(Json::Obj(ms)),
        exists|i: int| 0 <= i < ms.len() && ms[i].1 == j,
    ensures
        wf_json(j),
{
}

} // verus!
