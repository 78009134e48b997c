//! The itemizer: an append-only bijection between categorical values and
//! dense 1-based numeric identities, scoped to one variable (column).
//!
//! Identities are assigned in strict order of first observation and never
//! reused or renumbered; identity 0 is never assigned, so decode paths may
//! treat it as "absent". The value with identity `k` sits at index `k - 1`.

use vstd::prelude::*;

verus! {

/// Append-only vocabulary of one column. Its view is the sequence of observed
/// values in first-seen order; the identity of the value at index `i` is
/// `i + 1`.
pub struct Itemizer {
    values: Vec<String>,
}

impl View for Itemizer {
    type V = Seq<Seq<char>>;

    closed spec fn view(&self) -> Seq<Seq<char>> {
        self.values.deep_view()
    }
}

/// The index of `v` in the vocabulary `m`, or `-1` where never observed.
pub open spec fn index_of_value(m: Seq<Seq<char>>, v: Seq<char>) -> int {
    if exists|i: int| 0 <= i < m.len() && m[i] == v {
        choose|i: int| 0 <= i < m.len() && m[i] == v
    } else {
        -1
    }
}

/// A well-formed vocabulary holds no value twice.
pub open spec fn distinct_values(m: Seq<Seq<char>>) -> bool {
    forall|i: int, j: int| 0 <= i < j < m.len() ==> m[i] != m[j]
}

impl Itemizer {
    /// Whether the vocabulary holds no value twice.
    pub open spec fn wf(&self) -> bool {
        distinct_values(self@)
    }

    /// A fresh itemizer that has observed nothing.
    pub fn new() -> (r: Itemizer)
        ensures
            r@ == Seq::<Seq<char>>::empty(),
            r.wf(),
    {
        Itemizer { values: Vec::new() }
    }

    /// The count of distinct values observed so far; also the one-hot field
    /// width of this column.
    pub fn len(&self) -> (n: usize)
        ensures
            n == self@.len(),
    {
        self.values.len()
    }

    /// The identity of `v`, or `None` where `v` was never observed. Does not
    /// mutate the vocabulary.
    pub fn id_of_opt(&self, v: &String) -> (r: Option<usize>)
        requires
            self.wf(),
        ensures
            match r {
                Some(id) => 1 <= id <= self@.len() && self@[id - 1] == v@,
                None => forall|i: int| 0 <= i < self@.len() ==> self@[i] != v@,
            },
    {
        let mut i: usize = 0;
        while i < self.values.len()
            invariant
                i <= self@.len(),
                self@.len() == self.values@.len(),
                forall|j: int| 0 <= j < i ==> self@[j] != v@,
            decreases self@.len() - i,
        {
            proof {
                assert(self@[i as int] == self.values@[i as int]@);
            }
            if self.values[i] == *v {
                return Some(i + 1);
            }
            i = i + 1;
        }
        None
    }

    /// The identity of `v`, required to exist already. Same lookup as
    /// [`Itemizer::id_of_opt`]; the reduce-variant encode path treats absence
    /// as a hard error.
    pub fn id_of_exists(&self, v: &String) -> (r: Option<usize>)
        requires
            self.wf(),
        ensures
            match r {
                Some(id) => 1 <= id <= self@.len() && self@[id - 1] == v@,
                None => forall|i: int| 0 <= i < self@.len() ==> self@[i] != v@,
            },
    {
        self.id_of_opt(v)
    }

    /// The identity of `v`, assigning the next unused one (current count plus
    /// one) at first observation. Never fails.
    pub fn id_of(&mut self, v: &String) -> (id: usize)
        requires
            old(self).wf(),
        ensures
            final(self).wf(),
            1 <= id <= final(self)@.len(),
            final(self)@[id - 1] == v@,
            index_of_value(old(self)@, v@) >= 0 ==> final(self)@ == old(self)@ && id
                == index_of_value(old(self)@, v@) + 1,
            index_of_value(old(self)@, v@) < 0 ==> final(self)@ == old(self)@.push(v@) && id
                == old(self)@.len() + 1,
    {
        let mut i: usize = 0;
        while i < self.values.len()
            invariant
                i <= self@.len(),
                self@.len() == self.values@.len(),
                forall|j: int| 0 <= j < i ==> self@[j] != v@,
                *self == *old(self),
                self.wf(),
            decreases self@.len() - i,
        {
            proof {
                assert(self@[i as int] == self.values@[i as int]@);
            }
            if self.values[i] == *v {
                proof {
                    assert(self@[i as int] == v@);
                    let w = choose|k: int| 0 <= k < self@.len() && self@[k] == v@;
                    assert(self.wf());
                    assert(w == i as int);
                }
                return i + 1;
            }
            i = i + 1;
        }
        proof {
            assert(forall|k: int| 0 <= k < self@.len() ==> self@[k] != v@);
        }
        let ghost before = self@;
        self.values.push(v.clone());
        proof {
            assert(self@ =~= before.push(v@));
            assert(self@[before.len() as int] == v@);
        }
        self.values.len()
    }

    /// The value with identity `id`; `id` must have been assigned by this
    /// itemizer, which holds of every identity it ever emitted.
    pub fn value_of(&self, id: usize) -> (v: String)
        requires
            1 <= id <= self@.len(),
        ensures
            v@ == self@[id - 1],
    {
        proof {
            assert(self@[id - 1] == self.values@[id - 1]@);
        }
        self.values[id - 1].clone()
    }
}

/// Itemizer determinism: `id_of` hands out the identities `1..=n` in
/// first-seen order — a repeated observation returns the identity of the
/// first and changes nothing, a fresh observation extends the vocabulary by
/// exactly its value — and looking the returned identity up again yields the
/// observed value, so `value_of(id_of(v)) == v`.
pub proof fn lemma_itemizer_determinism(m: Seq<Seq<char>>, v: Seq<char>)
    requires
        distinct_values(m),
    ensures
        index_of_value(m, v) >= 0 ==> m[index_of_value(m, v)] == v,
        index_of_value(m, v) < 0 ==> distinct_values(m.push(v)) && m.push(v)[m.len() as int] == v,
{
    if index_of_value(m, v) >= 0 {
    } else {
        let m2 = m.push(v);
        assert(forall|i: int| 0 <= i < m.len() ==> m[i] != v);
        assert(forall|i: int, j: int|
            0 <= i < j < m2.len() ==> m2[i] != m2[j]) by {
            assert(forall|i: int| 0 <= i < m.len() ==> m2[i] == m[i]);
        }
    }
}

} // verus!
