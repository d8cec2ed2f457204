//! A finite set of paths.
//!
//! A path is an opaque byte string; equality is exact byte equality and no
//! normalization is performed.  The set is backed by a duplicate-free vector
//! and is viewed abstractly as a `Set<Seq<u8>>`.

use vstd::prelude::*;

verus! {

broadcast use vstd::set::group_set_axioms, vstd::seq_lib::seq_to_set_is_finite;

/// The byte sequences of a vector of paths.
pub open spec fn path_views(paths: Seq<Vec<u8>>) -> Seq<Seq<u8>> {
    paths.map_values(|p: Vec<u8>| p@)
}

/// A drain request for more than 1000 paths is served exactly as one for
/// 1000.
pub open spec fn clamp_size(size: int) -> int {
    if size > 1000 {
        1000
    } else {
        size
    }
}

/// What one drain call does: `drained` lists distinct paths taken from
/// `orig`, as many as the clamped page size allows; `remaining` is what is
/// left; `done` reports whether the set is now empty.
pub open spec fn drain_ok(
    orig: Set<Seq<u8>>,
    remaining: Set<Seq<u8>>,
    drained: Seq<Seq<u8>>,
    done: bool,
    size: int,
) -> bool {
    &&& drained.no_duplicates()
    &&& forall|i: int| 0 <= i < drained.len() ==> orig.contains(#[trigger] drained[i])
    &&& remaining == orig.difference(drained.to_set())
    &&& remaining.finite()
    &&& drained.len() == vstd::math::min(clamp_size(size), orig.len() as int)
    &&& remaining.len() == orig.len() - drained.len()
    &&& (done <==> remaining.len() == 0)
}

/// A finite set of byte-string paths with set-like insert/remove/drain
/// operations.  Drain order is unspecified.
pub struct PathSet {
    items: Vec<Vec<u8>>,
}

impl View for PathSet {
    type V = Set<Seq<u8>>;

    closed spec fn view(&self) -> Set<Seq<u8>> {
        self.elems().to_set()
    }
}

/// Byte equality of two paths.
fn path_eq(a: &Vec<u8>, b: &Vec<u8>) -> (r: bool)
    ensures
        r <==> a@ == b@,
{
    let r = *a == *b;
    proof {
        if r {
            assert(a@ =~= b@);
        }
        if a@ == b@ {
            assert forall|i: int| 0 <= i < a@.len() implies a@[i] == b@[i] by {}
        }
    }
    r
}

impl PathSet {
    /// The backing sequence of paths, as byte sequences.
    pub closed spec fn elems(&self) -> Seq<Seq<u8>> {
        self.items@.map_values(|p: Vec<u8>| p@)
    }

    /// Well-formedness: the backing vector holds no duplicates, so its
    /// length is the cardinality of the set.
    pub closed spec fn wf(&self) -> bool {
        self.elems().no_duplicates()
    }

    /// The view of a path set is always a finite set.
    pub proof fn lemma_finite(&self)
        ensures
            self@.finite(),
    {
    }

    /// Creates an empty set.
    pub fn new() -> (s: Self)
        ensures
            s.wf(),
            s@ == Set::<Seq<u8>>::empty(),
    {
        let s = PathSet { items: Vec::new() };
        proof {
            assert(s.elems() =~= Seq::<Seq<u8>>::empty());
            assert(s.elems().to_set() =~= Set::<Seq<u8>>::empty());
        }
        s
    }

    /// The number of paths in the set.
    pub fn len(&self) -> (n: usize)
        requires
            self.wf(),
        ensures
            n == self@.len(),
            self@.finite(),
    {
        proof {
            self.elems().unique_seq_to_set();
        }
        self.items.len()
    }

    /// Whether the set is empty.
    pub fn is_empty(&self) -> (r: bool)
        requires
            self.wf(),
        ensures
            r <==> self@.len() == 0,
            r <==> self@ == Set::<Seq<u8>>::empty(),
    {
        proof {
            self.elems().unique_seq_to_set();
            if self.elems().len() == 0 {
                assert(self@ =~= Set::<Seq<u8>>::empty());
            } else {
                assert(self@.contains(self.elems()[0]));
            }
        }
        self.items.is_empty()
    }

    /// Whether `p` is in the set.
    pub fn contains(&self, p: &Vec<u8>) -> (r: bool)
        ensures
            r <==> self@.contains(p@),
    {
        let n = self.items.len();
        for i in 0..n
            invariant
                n == self.items@.len(),
                forall|j: int| 0 <= j < i ==> self.elems()[j] != p@,
        {
            if path_eq(&self.items[i], p) {
                proof {
                    assert(self.elems()[i as int] == p@);
                }
                return true;
            }
        }
        proof {
            if self@.contains(p@) {
                let j = choose|j: int| 0 <= j < self.elems().len() && self.elems()[j] == p@;
                assert(self.elems()[j] != p@);
            }
        }
        false
    }

    /// Inserts `p`; a path already present is not duplicated.
    pub fn insert(&mut self, p: Vec<u8>)
        requires
            old(self).wf(),
        ensures
            final(self).wf(),
            final(self)@ == old(self)@.insert(p@),
            final(self)@.len() == old(self)@.len() + (if old(self)@.contains(p@) {
                0int
            } else {
                1int
            }),
    {
        proof {
            self.elems().unique_seq_to_set();
        }
        if self.contains(&p) {
            proof {
                assert(old(self)@.insert(p@) =~= old(self)@);
            }
            return;
        }
        let ghost pre = self.elems();
        self.items.push(p);
        proof {
            assert(self.elems() =~= pre.push(p@));
            assert forall|j: int, k: int|
                0 <= j < self.elems().len() && 0 <= k < self.elems().len() && j != k implies
                self.elems()[j] != self.elems()[k] by {
                if j < pre.len() && k < pre.len() {
                } else if j == pre.len() {
                    assert(pre.contains(pre[k]));
                } else if k == pre.len() {
                    assert(pre.contains(pre[j]));
                }
            }
            pre.lemma_push_to_set_commute(p@);
            self.elems().unique_seq_to_set();
        }
    }

    /// Removes `p` if present.
    pub fn remove(&mut self, p: &Vec<u8>)
        requires
            old(self).wf(),
        ensures
            final(self).wf(),
            final(self)@ == old(self)@.remove(p@),
            final(self)@.len() == old(self)@.len() - (if old(self)@.contains(p@) {
                1int
            } else {
                0int
            }),
    {
        proof {
            self.elems().unique_seq_to_set();
        }
        let n = self.items.len();
        for i in 0..n
            invariant
                *self == *old(self),
                old(self).wf(),
                n == self.items@.len(),
                forall|j: int| 0 <= j < i ==> self.elems()[j] != p@,
        {
            if path_eq(&self.items[i], p) {
                let ghost pre = self.elems();
                let ghost ii = i as int;
                let _ = self.items.remove(i);
                proof {
                    assert(self.elems() =~= pre.remove(ii));
                    pre.remove_ensures(ii);
                    Self::lemma_remove_at(pre, ii);
                    self.elems().unique_seq_to_set();
                }
                return;
            }
        }
        proof {
            if self@.contains(p@) {
                let j = choose|j: int| 0 <= j < self.elems().len() && self.elems()[j] == p@;
                assert(self.elems()[j] != p@);
            }
            assert(self@.remove(p@) =~= self@);
        }
    }

    /// Removes and returns an arbitrary path, or `None` on an empty set.
    pub fn pop(&mut self) -> (r: Option<Vec<u8>>)
        requires
            old(self).wf(),
        ensures
            final(self).wf(),
            old(self)@.len() == 0 ==> r is None && final(self)@ == old(self)@,
            old(self)@.len() > 0 ==> (r matches Some(p) && old(self)@.contains(p@)
                && final(self)@ == old(self)@.remove(p@)
                && final(self)@.len() == old(self)@.len() - 1),
    {
        proof {
            self.elems().unique_seq_to_set();
        }
        let ghost pre = self.elems();
        let r = self.items.pop();
        proof {
            if pre.len() > 0 {
                assert(self.elems() =~= pre.drop_last());
                Self::lemma_drop_last(pre);
                self.elems().unique_seq_to_set();
            } else {
                assert(self.elems() =~= pre);
            }
        }
        r
    }

    /// Removes up to `size` paths (clamped to 1000) and returns them,
    /// together with a flag that reports whether the set is empty after the
    /// drain.  Which paths come out is unspecified.
    pub fn drain(&mut self, size: usize) -> (r: (Vec<Vec<u8>>, bool))
        requires
            old(self).wf(),
        ensures
            final(self).wf(),
            drain_ok(old(self)@, final(self)@, path_views(r.0@), r.1, size as int),
    {
        let page: usize = if size > 1000 {
            1000
        } else {
            size
        };
        let ghost orig = self@;
        let n = self.len();
        let take = if page < n {
            page
        } else {
            n
        };
        let mut out: Vec<Vec<u8>> = Vec::new();
        let mut i: usize = 0;
        proof {
            assert(path_views(out@) =~= Seq::<Seq<u8>>::empty());
            assert(self@ =~= orig.difference(path_views(out@).to_set()));
        }
        while i < take
            invariant
                i <= take,
                take == vstd::math::min(clamp_size(size as int), orig.len() as int),
                self.wf(),
                orig.finite(),
                out@.len() == i,
                self@.len() == orig.len() - i,
                i <= orig.len(),
                path_views(out@).no_duplicates(),
                forall|j: int| 0 <= j < out@.len() ==> orig.contains(#[trigger] path_views(out@)[j]),
                self@ == orig.difference(path_views(out@).to_set()),
            decreases take - i,
        {
            let ghost pre = self@;
            let ghost pv = path_views(out@);
            let p = self.pop().unwrap();
            proof {
                assert(!pv.to_set().contains(p@));
                Self::lemma_push_no_dup(pv, p@);
                pv.lemma_push_to_set_commute(p@);
            }
            out.push(p);
            i = i + 1;
            proof {
                assert(path_views(out@) =~= pv.push(p@));
                assert(self@ =~= orig.difference(path_views(out@).to_set()));
                assert forall|j: int| 0 <= j < out@.len() implies
                    orig.contains(#[trigger] path_views(out@)[j]) by {
                    if j < pv.len() {
                        assert(path_views(out@)[j] == pv[j]);
                    } else {
                        assert(path_views(out@)[j] == p@);
                    }
                }
            }
        }
        let done = self.is_empty();
        (out, done)
    }

    /// Pushing a fresh element keeps a sequence duplicate-free.
    proof fn lemma_push_no_dup(s: Seq<Seq<u8>>, x: Seq<u8>)
        requires
            s.no_duplicates(),
            !s.contains(x),
        ensures
            s.push(x).no_duplicates(),
    {
        let r = s.push(x);
        assert forall|j: int, k: int| 0 <= j < r.len() && 0 <= k < r.len() && j != k implies
            r[j] != r[k] by {
            if j < s.len() && k < s.len() {
            } else if j == s.len() {
                assert(s.contains(s[k]));
            } else if k == s.len() {
                assert(s.contains(s[j]));
            }
        }
    }

    /// Removing position `i` from a duplicate-free sequence removes exactly
    /// that element from the corresponding set.
    proof fn lemma_remove_at(s: Seq<Seq<u8>>, i: int)
        requires
            s.no_duplicates(),
            0 <= i < s.len(),
        ensures
            s.remove(i).no_duplicates(),
            s.remove(i).to_set() == s.to_set().remove(s[i]),
    {
        let r = s.remove(i);
        s.remove_ensures(i);
        assert forall|j: int, k: int| 0 <= j < r.len() && 0 <= k < r.len() && j != k implies
            r[j] != r[k] by {
            let j0 = if j < i { j } else { j + 1 };
            let k0 = if k < i { k } else { k + 1 };
            assert(r[j] == s[j0] && r[k] == s[k0]);
        }
        assert forall|x: Seq<u8>| r.to_set().contains(x) implies
            s.to_set().remove(s[i]).contains(x) by {
            let j = choose|j: int| 0 <= j < r.len() && r[j] == x;
            let j0 = if j < i { j } else { j + 1 };
            assert(s[j0] == x);
            assert(s.contains(x));
        }
        assert forall|x: Seq<u8>| s.to_set().remove(s[i]).contains(x) implies
            r.to_set().contains(x) by {
            let j = choose|j: int| 0 <= j < s.len() && s[j] == x;
            if j < i {
                assert(r[j] == x);
            } else {
                assert(j != i);
                assert(r[j - 1] == x);
            }
            assert(r.contains(x));
        }
        assert(r.to_set() =~= s.to_set().remove(s[i]));
    }

    /// Dropping the last element of a duplicate-free sequence removes exactly
    /// that element from the corresponding set.
    proof fn lemma_drop_last(s: Seq<Seq<u8>>)
        requires
            s.no_duplicates(),
            s.len() > 0,
        ensures
            s.drop_last().no_duplicates(),
            s.drop_last().to_set() == s.to_set().remove(s.last()),
    {
        Self::lemma_remove_at(s, s.len() - 1);
        assert(s.remove(s.len() - 1) =~= s.drop_last());
    }
}

} // verus!
