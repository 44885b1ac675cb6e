//! Operations of the array container: an ordered, index-addressable
//! sequence of values with shifting insert and remove.

use vstd::prelude::*;

use crate::eq::clone_value;
use crate::eq::value_eq;
use crate::value::Json;
use crate::value::JsonArray;
use crate::value::JsonValue;
use crate::value::elems_model;
use crate::value::lemma_elems_model;
use crate::value::wf_json;

verus! {

broadcast use

    vstd::std_specs::vec::group_vec_axioms,
    crate::value::lemma_elems_model,
    crate::value::lemma_elems_model_update,
    crate::value::lemma_elems_model_push,
    crate::value::lemma_elems_model_remove,
    crate::value::lemma_elems_model_insert,
;

impl JsonArray {
    /// Creates a new, empty array.
    pub fn new() -> (r: JsonArray)
        ensures
            r@ == Seq::<Json>::empty(),
            r.wf(),
    {
        JsonArray { vec: Vec::new() }
    }

    /// The number of elements.
    pub fn len(&self) -> (r: usize)
        ensures
            r == self@.len(),
    {
        proof {
            lemma_elems_model(self.vec@);
        }
        self.vec.len()
    }

    /// Whether the array has no elements.
    pub fn is_empty(&self) -> (r: bool)
        ensures
            r == (self@.len() == 0),
    {
        proof {
            lemma_elems_model(self.vec@);
        }
        self.vec.is_empty()
    }

    /// Removes every element.
    pub fn clear(&mut self)
        ensures
            final(self)@ == Seq::<Json>::empty(),
            final(self).wf(),
    {
        self.vec.clear();
    }

    /// Appends `v` at the end.
    pub fn push(&mut self, v: JsonValue)
        ensures
            final(self)@ == old(self)@.push(v@),
            old(self).wf() && wf_json(v@) ==> final(self).wf(),
    {
        let ghost pre = self@;
        let ghost vm = v@;
        proof {
            lemma_elems_model(self.vec@);
        }
        self.vec.push(v);
        proof {
            lemma_elems_model(self.vec@);
            assert(elems_model(self.vec@) =~= pre.push(vm));
            if wf_json(Json::Arr(pre)) && wf_json(vm) {
                assert forall|i: int| 0 <= i < self@.len() implies wf_json(#[trigger] self@[i]) by {
                    if i < pre.len() {
                        assert(self@[i] == pre[i]);
                        crate::value::lemma_wf_elem_at(pre, i);
                    } else {
                        assert(self@[i] == vm);
                    }
                }
                assert(wf_json(Json::Arr(self@)));
            }
        }
    }

    /// Inserts `v` at index `i`, shifting the elements after it.
    pub fn insert(&mut self, i: usize, v: JsonValue)
        requires
            i <= old(self)@.len(),
        ensures
            final(self)@ == old(self)@.insert(i as int, v@),
            old(self).wf() && wf_json(v@) ==> final(self).wf(),
    {
        let ghost pre = self@;
        let ghost vm = v@;
        proof {
            lemma_elems_model(self.vec@);
        }
        self.vec.insert(i, v);
        proof {
            lemma_elems_model(self.vec@);
            assert(elems_model(self.vec@) =~= pre.insert(i as int, vm));
            if wf_json(Json::Arr(pre)) && wf_json(vm) {
                assert forall|j: int| 0 <= j < self@.len() implies wf_json(#[trigger] self@[j]) by {
                    if j < i {
                        assert(self@[j] == pre[j]);
                        crate::value::lemma_wf_elem_at(pre, j);
                    } else if j == i {
                        assert(self@[j] == vm);
                    } else {
                        assert(self@[j] == pre[j - 1]);
                        crate::value::lemma_wf_elem_at(pre, j - 1);
                    }
                }
                assert(wf_json(Json::Arr(self@)));
            }
        }
    }

    /// A reference to the element at `i`, or `None` when out of bounds.
    pub fn get(&self, i: usize) -> (r: Option<&JsonValue>)
        ensures
            match r {
                Some(v) => i < self@.len() && v@ == self@[i as int],
                None => i >= self@.len(),
            },
    {
        proof {
            lemma_elems_model(self.vec@);
        }
        if i < self.vec.len() {
            Some(&self.vec[i])
        } else {
            None
        }
    }

    /// A mutable reference to the element at `i`, or `None` when out of
    /// bounds.
    pub fn get_mut(&mut self, i: usize) -> (r: Option<&mut JsonValue>)
        ensures
            match r {
                Some(m) => {
                    &&& i < old(self)@.len()
                    &&& (*m)@ == old(self)@[i as int]
                    &&& final(self)@ == old(self)@.update(i as int, (*final(m))@)
                },
                None => i >= old(self)@.len() && final(self)@ == old(self)@,
            },
    {
        proof {
            lemma_elems_model(self.vec@);
        }
        if i < self.vec.len() {
            Some(elem_mut(&mut self.vec, i))
        } else {
            None
        }
    }

    /// Removes the element at `i`, shifting the elements after it;
    /// an out-of-bounds index leaves the array unchanged.
    pub fn del(&mut self, i: usize)
        ensures
            final(self)@ == if i < old(self)@.len() {
                old(self)@.remove(i as int)
            } else {
                old(self)@
            },
            old(self).wf() ==> final(self).wf(),
    {
        proof {
            lemma_elems_model(self.vec@);
        }
        let ghost pre = self@;
        if i < self.vec.len() {
            self.vec.remove(i);
            proof {
                lemma_elems_model(self.vec@);
                assert(elems_model(self.vec@) =~= pre.remove(i as int));
                if wf_json(Json::Arr(pre)) {
                    assert forall|j: int| 0 <= j < self@.len() implies wf_json(
                        #[trigger] self@[j],
                    ) by {
                        if j < i {
                            assert(self@[j] == pre[j]);
                            crate::value::lemma_wf_elem_at(pre, j);
                        } else {
                            assert(self@[j] == pre[j + 1]);
                            crate::value::lemma_wf_elem_at(pre, j + 1);
                        }
                    }
                    assert(wf_json(Json::Arr(self@)));
                }
            }
        }
    }

    /// Whether some element is structurally equal to `v`.
    pub fn contains(&self, v: &JsonValue) -> (r: bool)
        ensures
            r == exists|i: int|
                0 <= i < self@.len() && crate::eq::json_equiv(#[trigger] self@[i], v@),
    {
        proof {
            lemma_elems_model(self.vec@);
        }
        let n = self.vec.len();
        let mut i: usize = 0;
        while i < n
            invariant
                0 <= i <= n,
                n == self.vec@.len(),
                self@.len() == n,
                self@ == crate::value::array_model(self),
                forall|j: int| 0 <= j < i ==> !crate::eq::json_equiv(#[trigger] self@[j], v@),
            decreases n - i,
        {
            proof {
                lemma_elems_model(self.vec@);
            }
            if value_eq(&self.vec[i], v) {
                proof {
                    assert(crate::eq::json_equiv(self@[i as int], v@));
                }
                return true;
            }
            i = i + 1;
        }
        false
    }

    /// The element at `i`; the index must be in bounds.
    pub fn index(&self, i: usize) -> (r: &JsonValue)
        requires
            i < self@.len(),
        ensures
            r@ == self@[i as int],
    {
        proof {
            lemma_elems_model(self.vec@);
        }
        &self.vec[i]
    }

    /// Deep copies of the elements, in order.
    pub fn values(&self) -> (r: Vec<JsonValue>)
        ensures
            r@.len() == self@.len(),
            forall|i: int| 0 <= i < r@.len() ==> r@[i]@ == self@[i],
    {
        proof {
            lemma_elems_model(self.vec@);
        }
        let n = self.vec.len();
        let mut r: Vec<JsonValue> = Vec::new();
        let mut i: usize = 0;
        while i < n
            invariant
                0 <= i <= n,
                n == self.vec@.len(),
                self@.len() == n,
                self@ == crate::value::array_model(self),
                r@.len() == i,
                forall|j: int| 0 <= j < i ==> r@[j]@ == self@[j],
            decreases n - i,
        {
            proof {
                lemma_elems_model(self.vec@);
            }
            r.push(clone_value(&self.vec[i]));
            i = i + 1;
        }
        r
    }

    /// Deep copies of the elements, in order.
    pub fn iter(&self) -> (r: Vec<JsonValue>)
        ensures
            r@.len() == self@.len(),
            forall|i: int| 0 <= i < r@.len() ==> r@[i]@ == self@[i],
    {
        self.values()
    }
}

/// The witness pair for one mapped element.
pub open spec fn map_witness<F: Fn(&JsonValue) -> JsonValue>(
    mapper: F,
    x: JsonValue,
    y: JsonValue,
    src: Json,
    dst: Json,
) -> bool {
    x@ == src && call_ensures(mapper, (&x,), y) && dst == y@
}

/// `dst` is what the mapper turned a value modelling `src` into.
pub open spec fn mapped_pair<F: Fn(&JsonValue) -> JsonValue>(
    mapper: F,
    src: Json,
    dst: Json,
) -> bool {
    exists|x: JsonValue, y: JsonValue| #[trigger] map_witness(mapper, x, y, src, dst)
}

/// The witness that the predicate can return `b` on a value modelling
/// `src`.
pub open spec fn filter_witness<P: Fn(&JsonValue) -> bool>(
    p: P,
    x: JsonValue,
    src: Json,
    b: bool,
) -> bool {
    x@ == src && call_ensures(p, (&x,), b)
}

/// The predicate can keep a value modelling `src`.
pub open spec fn filter_keeps<P: Fn(&JsonValue) -> bool>(p: P, src: Json) -> bool {
    exists|x: JsonValue| #[trigger] filter_witness(p, x, src, true)
}

/// The predicate can drop a value modelling `src`.
pub open spec fn filter_drops<P: Fn(&JsonValue) -> bool>(p: P, src: Json) -> bool {
    exists|x: JsonValue| #[trigger] filter_witness(p, x, src, false)
}

/// `dst` selects, in order, the `origin`-indexed elements of `src`.
pub open spec fn selection_of(origin: Seq<int>, src: Seq<Json>, dst: Seq<Json>) -> bool {
    &&& origin.len() == dst.len()
    &&& (forall|t: int|
        0 <= t < origin.len() ==> 0 <= #[trigger] origin[t] < src.len() && dst[t]
            == src[origin[t]])
    &&& (forall|t1: int, t2: int| 0 <= t1 < t2 < origin.len() ==> origin[t1] < origin[t2])
}

impl JsonArray {
    /// A new array holding, in order, exactly the elements the predicate
    /// kept: an order-preserving selection, each kept element one the
    /// predicate returned `true` on, each dropped element one it returned
    /// `false` on.
    pub fn filter<P: Fn(&JsonValue) -> bool>(&self, predicate: P) -> (r: JsonArray)
        requires
            forall|x: &JsonValue| #[trigger] predicate.requires((x,)),
        ensures
            r@.len() <= self@.len(),
            self.wf() ==> r.wf(),
            exists|origin: Seq<int>|
                {
                    &&& #[trigger] selection_of(origin, self@, r@)
                    &&& (forall|t: int|
                        0 <= t < origin.len() ==> #[trigger] filter_keeps(
                            predicate,
                            self@[origin[t]],
                        ))
                    &&& (forall|j: int|
                        0 <= j < self@.len() && !origin.contains(j) ==> #[trigger] filter_drops(
                            predicate,
                            self@[j],
                        ))
                },
    {
        proof {
            lemma_elems_model(self.vec@);
        }
        let n = self.vec.len();
        let mut out = JsonArray::new();
        let ghost mut origin: Seq<int> = Seq::empty();
        let mut i: usize = 0;
        while i < n
            invariant
                0 <= i <= n,
                n == self.vec@.len(),
                self@.len() == n,
                self@ == crate::value::array_model(self),
                forall|x: &JsonValue| #[trigger] predicate.requires((x,)),
                origin.len() == out@.len(),
                out@.len() <= i,
                forall|t: int|
                    0 <= t < origin.len() ==> 0 <= #[trigger] origin[t] < i && out@[t]
                        == self@[origin[t]],
                forall|t1: int, t2: int|
                    0 <= t1 < t2 < origin.len() ==> origin[t1] < origin[t2],
                forall|t: int|
                    0 <= t < origin.len() ==> #[trigger] filter_keeps(
                        predicate,
                        self@[origin[t]],
                    ),
                forall|j: int|
                    0 <= j < i && !origin.contains(j) ==> #[trigger] filter_drops(
                        predicate,
                        self@[j],
                    ),
                self.wf() ==> out.wf(),
            decreases n - i,
        {
            proof {
                lemma_elems_model(self.vec@);
            }
            let ghost origin_pre = origin;
            let xref = &self.vec[i];
            let keep = predicate(xref);
            proof {
                assert(call_ensures(predicate, (&*xref,), keep));
                assert(filter_witness(predicate, *xref, self@[i as int], keep));
            }
            if keep {
                let v = clone_value(xref);
                proof {
                    if self.wf() {
                        crate::value::lemma_wf_elem_at(self@, i as int);
                    }
                }
                out.push(v);
                proof {
                    origin = origin.push(i as int);
                    assert(origin[origin_pre.len() as int] == i as int);
                    assert forall|j: int|
                        0 <= j < i + 1 && !origin.contains(j) implies #[trigger] filter_drops(
                        predicate,
                        self@[j],
                    ) by {
                        if j < i {
                            assert(!origin_pre.contains(j)) by {
                                if origin_pre.contains(j) {
                                    let t = choose|t: int|
                                        0 <= t < origin_pre.len() && origin_pre[t] == j;
                                    assert(origin[t] == j);
                                    assert(origin.contains(j));
                                }
                            }
                        } else {
                            assert(origin.contains(j));
                        }
                    }
                }
            } else {
                proof {
                    assert(filter_drops(predicate, self@[i as int]));
                    assert forall|j: int|
                        0 <= j < i + 1 && !origin.contains(j) implies #[trigger] filter_drops(
                        predicate,
                        self@[j],
                    ) by {}
                }
            }
            i = i + 1;
        }
        proof {
            assert(selection_of(origin, self@, out@));
        }
        out
    }

    /// A new array holding, in order, what the mapper returned for each
    /// element.
    pub fn map<F: Fn(&JsonValue) -> JsonValue>(&self, mapper: F) -> (r: JsonArray)
        requires
            forall|x: &JsonValue| #[trigger] mapper.requires((x,)),
        ensures
            r@.len() == self@.len(),
            forall|i: int| 0 <= i < self@.len() ==> #[trigger] mapped_pair(
                mapper,
                self@[i],
                r@[i],
            ),
    {
        proof {
            lemma_elems_model(self.vec@);
        }
        let n = self.vec.len();
        let mut out = JsonArray::new();
        let mut i: usize = 0;
        while i < n
            invariant
                0 <= i <= n,
                n == self.vec@.len(),
                self@.len() == n,
                self@ == crate::value::array_model(self),
                forall|x: &JsonValue| #[trigger] mapper.requires((x,)),
                out@.len() == i,
                forall|t: int|
                    0 <= t < i ==> #[trigger] mapped_pair(mapper, self@[t], out@[t]),
            decreases n - i,
        {
            proof {
                lemma_elems_model(self.vec@);
            }
            let xref = &self.vec[i];
            let y = mapper(xref);
            let ghost ym = y@;
            proof {
                assert(call_ensures(mapper, (&*xref,), y));
                assert(xref@ == self@[i as int]);
            }
            let ghost pre = out@;
            let ghost yv = y;
            out.push(y);
            proof {
                assert(pre.push(ym)[pre.len() as int] == ym);
                assert(out@[i as int] == ym);
                assert forall|t: int| 0 <= t < i + 1 implies #[trigger] mapped_pair(
                    mapper,
                    self@[t],
                    out@[t],
                ) by {
                    if t < i {
                        assert(pre.push(ym)[t] == pre[t]);
                        assert(out@[t] == pre[t]);
                    } else {
                        assert(map_witness(mapper, *xref, yv, self@[t], out@[t]));
                    }
                }
            }
            i = i + 1;
        }
        out
    }
}

/// A mutable borrow of the element at `i`; everything else in the vector
/// stays as it is.
fn elem_mut(v: &mut Vec<JsonValue>, i: usize) -> (r: &mut JsonValue)
    requires
        i < old(v)@.len(),
    ensures
        *r == old(v)@[i as int],
        final(v)@ == old(v)@.update(i as int, *final(r)),
        elems_model(final(v)@) == elems_model(old(v)@).update(i as int, (*final(r))@),
{
    &mut v[i]
}

} // verus!
