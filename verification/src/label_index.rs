//! The label index: a multi-valued mapping from a label to the identifiers of
//! all nodes carrying that label, in creation order.

use vstd::prelude::*;

verus! {

/// The identifiers (in increasing order) of the positions of `labels` that
/// hold `lab`: the specification every lookup answers to.
pub open spec fn ids_with_label(labels: Seq<Seq<char>>, lab: Seq<char>) -> Seq<int>
    decreases labels.len(),
{
    if labels.len() == 0 {
        Seq::empty()
    } else {
        ids_with_label(labels.drop_last(), lab) + (if labels.last() == lab {
            seq![labels.len() - 1]
        } else {
            Seq::empty()
        })
    }
}

/// Appending one label extends exactly that label's identifier sequence, by
/// the new identifier.
pub proof fn lemma_ids_with_label_push(labels: Seq<Seq<char>>, l: Seq<char>, lab: Seq<char>)
    ensures
        lab == l ==> ids_with_label(labels.push(l), lab) == ids_with_label(labels, lab).push(
            labels.len() as int,
        ),
        lab != l ==> ids_with_label(labels.push(l), lab) == ids_with_label(labels, lab),
{
    assert(labels.push(l).drop_last() =~= labels);
    assert(labels.push(l).last() == l);
    if lab == l {
        assert(ids_with_label(labels.push(l), lab) =~= ids_with_label(labels, lab).push(
            labels.len() as int,
        ));
    } else {
        assert(ids_with_label(labels.push(l), lab) =~= ids_with_label(labels, lab));
    }
}

/// Every listed identifier is a position of `labels` holding `lab`, and every
/// such position is listed; the listing ascends.
pub proof fn lemma_ids_with_label_sound(labels: Seq<Seq<char>>, lab: Seq<char>)
    ensures
        forall|j: int| 0 <= j < ids_with_label(labels, lab).len() ==> {
            let id = #[trigger] ids_with_label(labels, lab)[j];
            0 <= id < labels.len() && labels[id] == lab
        },
        forall|id: int| 0 <= id < labels.len() && labels[id] == lab ==> exists|j: int|
            0 <= j < ids_with_label(labels, lab).len() && ids_with_label(labels, lab)[j] == id,
        forall|j1: int, j2: int| 0 <= j1 < j2 < ids_with_label(labels, lab).len() ==>
            #[trigger] ids_with_label(labels, lab)[j1] < #[trigger] ids_with_label(labels, lab)[j2],
    decreases labels.len(),
{
    if labels.len() > 0 {
        lemma_ids_with_label_sound(labels.drop_last(), lab);
        let prev = ids_with_label(labels.drop_last(), lab);
        let cur = ids_with_label(labels, lab);
        assert forall|id: int| 0 <= id < labels.len() && labels[id] == lab implies exists|j: int|
            0 <= j < cur.len() && cur[j] == id by {
            if id < labels.len() - 1 {
                assert(labels.drop_last()[id] == lab);
                let j = choose|j: int| 0 <= j < prev.len() && prev[j] == id;
                assert(cur[j] == id);
            } else {
                assert(cur[cur.len() - 1] == id);
            }
        }
    }
}

/// The label index. Internally an association list from a label to the
/// nonempty list of node identifiers carrying it, with pairwise distinct
/// labels; insertion is amortized constant in the number of distinct labels
/// only through the builder's access pattern, lookup is linear in it.
pub struct LabelIndex {
    pairs: Vec<(String, Vec<usize>)>,
}

impl LabelIndex {
    /// Labels are pairwise distinct and no entry is empty.
    pub closed spec fn inv(self) -> bool {
        &&& forall|i: int, j: int| 0 <= i < j < self.pairs@.len() ==> (#[trigger] self.pairs@[
            i
        ]).0@ != (#[trigger] self.pairs@[j]).0@
        &&& forall|i: int| 0 <= i < self.pairs@.len() ==> (#[trigger] self.pairs@[i]).1@.len() > 0
    }

    /// The identifiers recorded under `lab`, oldest first.
    pub closed spec fn spec_lookup(self, lab: Seq<char>) -> Seq<int> {
        if exists|i: int| 0 <= i < self.pairs@.len() && (#[trigger] self.pairs@[i]).0@ == lab {
            let i = choose|i: int|
                0 <= i < self.pairs@.len() && (#[trigger] self.pairs@[i]).0@ == lab;
            self.pairs@[i].1@.map_values(|u: usize| u as int)
        } else {
            Seq::empty()
        }
    }

    proof fn lemma_lookup_at(self, i: int)
        requires
            self.inv(),
            0 <= i < self.pairs@.len(),
        ensures
            self.spec_lookup(self.pairs@[i].0@) == self.pairs@[i].1@.map_values(
                |u: usize| u as int,
            ),
    {
        let lab = self.pairs@[i].0@;
        assert(exists|k: int| 0 <= k < self.pairs@.len() && (#[trigger] self.pairs@[k]).0@ == lab);
        let k = choose|k: int|
            0 <= k < self.pairs@.len() && (#[trigger] self.pairs@[k]).0@ == lab;
        if k != i {
            if k < i {
                assert(self.pairs@[k].0@ != self.pairs@[i].0@);
            } else {
                assert(self.pairs@[i].0@ != self.pairs@[k].0@);
            }
        }
    }

    proof fn lemma_lookup_absent(self, lab: Seq<char>)
        requires
            forall|i: int| 0 <= i < self.pairs@.len() ==> (#[trigger] self.pairs@[i]).0@ != lab,
        ensures
            self.spec_lookup(lab) == Seq::<int>::empty(),
    {
    }

    /// An index with nothing recorded yet.
    pub fn new() -> (r: LabelIndex)
        ensures
            r.inv(),
            forall|lab: Seq<char>| #[trigger] r.spec_lookup(lab) == Seq::<int>::empty(),
    {
        let r = LabelIndex { pairs: Vec::new() };
        proof {
            assert forall|lab: Seq<char>| #[trigger] r.spec_lookup(lab) == Seq::<int>::empty()
            by {
                r.lemma_lookup_absent(lab);
            }
        }
        r
    }

    /// Records `id` under `label`, after every identifier recorded there
    /// before; nothing recorded under other labels moves.
    pub(crate) fn insert(&mut self, label: &String, id: usize)
        requires
            old(self).inv(),
        ensures
            final(self).inv(),
            final(self).spec_lookup(label@) == old(self).spec_lookup(label@).push(id as int),
            forall|lab: Seq<char>| lab != label@ ==> #[trigger] final(self).spec_lookup(lab)
                == old(self).spec_lookup(lab),
    {
        let ghost old_self = *self;
        let n = self.pairs.len();
        let mut i: usize = 0;
        while i < n
            invariant
                *self == old_self,
                old_self == *old(self),
                old_self.inv(),
                i <= n,
                n == self.pairs@.len(),
                forall|k: int| 0 <= k < i ==> (#[trigger] self.pairs@[k]).0@ != label@,
            decreases n - i,
        {
            if self.pairs[i].0 == *label {
                proof {
                    old_self.lemma_lookup_at(i as int);
                }
                self.pairs[i].1.push(id);
                proof {
                    let fin = *self;
                    assert(fin.pairs@ =~= old_self.pairs@.update(
                        i as int,
                        (old_self.pairs@[i as int].0, fin.pairs@[i as int].1),
                    ));
                    assert(fin.pairs@[i as int].1@ =~= old_self.pairs@[i as int].1@.push(id));
                    assert forall|k: int| 0 <= k < fin.pairs@.len() implies (#[trigger] fin.pairs@[
                        k
                    ]).0@ == old_self.pairs@[k].0@ by {}
                    assert(fin.inv());
                    fin.lemma_lookup_at(i as int);
                    assert(fin.spec_lookup(label@) =~= old_self.spec_lookup(label@).push(
                        id as int,
                    ));
                    assert forall|lab: Seq<char>| lab != label@ implies #[trigger] fin.spec_lookup(
                        lab,
                    ) == old_self.spec_lookup(lab) by {
                        if exists|k: int| 0 <= k < old_self.pairs@.len() && (#[trigger] old_self
                            .pairs@[k]).0@ == lab {
                            let k = choose|k: int|
                                0 <= k < old_self.pairs@.len() && (#[trigger] old_self.pairs@[
                                    k
                                ]).0@ == lab;
                            old_self.lemma_lookup_at(k);
                            fin.lemma_lookup_at(k);
                            assert(fin.pairs@[k].1 == old_self.pairs@[k].1);
                        } else {
                            old_self.lemma_lookup_absent(lab);
                            fin.lemma_lookup_absent(lab);
                        }
                    }
                }
                return;
            }
            i += 1;
        }
        let mut bucket: Vec<usize> = Vec::new();
        bucket.push(id);
        self.pairs.push((label.clone(), bucket));
        proof {
            let fin = *self;
            assert(fin.pairs@.drop_last() =~= old_self.pairs@);
            assert(fin.pairs@.last().0@ == label@);
            assert(fin.pairs@.last().1@ =~= seq![id]);
            assert(fin.inv());
            fin.lemma_lookup_at(fin.pairs@.len() - 1);
            old_self.lemma_lookup_absent(label@);
            assert(fin.spec_lookup(label@) =~= old_self.spec_lookup(label@).push(id as int));
            assert forall|lab: Seq<char>| lab != label@ implies #[trigger] fin.spec_lookup(lab)
                == old_self.spec_lookup(lab) by {
                if exists|k: int| 0 <= k < old_self.pairs@.len() && (#[trigger] old_self.pairs@[
                    k
                ]).0@ == lab {
                    let k = choose|k: int|
                        0 <= k < old_self.pairs@.len() && (#[trigger] old_self.pairs@[k]).0@
                            == lab;
                    old_self.lemma_lookup_at(k);
                    fin.lemma_lookup_at(k);
                    assert(fin.pairs@[k].1 == old_self.pairs@[k].1);
                } else {
                    old_self.lemma_lookup_absent(lab);
                    assert forall|k: int| 0 <= k < fin.pairs@.len() implies (#[trigger] fin.pairs@[
                        k
                    ]).0@ != lab by {}
                    fin.lemma_lookup_absent(lab);
                }
            }
        }
    }

    /// The identifiers recorded under `label`, oldest first, or None when the
    /// label was never recorded.
    pub fn lookup(&self, label: &String) -> (r: Option<Vec<usize>>)
        requires
            self.inv(),
        ensures
            match r {
                Some(v) => {
                    &&& v@.len() > 0
                    &&& v@.map_values(|u: usize| u as int) == self.spec_lookup(label@)
                },
                None => self.spec_lookup(label@) == Seq::<int>::empty(),
            },
    {
        let n = self.pairs.len();
        let mut i: usize = 0;
        while i < n
            invariant
                i <= n,
                n == self.pairs@.len(),
                self.inv(),
                forall|k: int| 0 <= k < i ==> (#[trigger] self.pairs@[k]).0@ != label@,
            decreases n - i,
        {
            if self.pairs[i].0 == *label {
                proof {
                    self.lemma_lookup_at(i as int);
                }
                let bucket_len = self.pairs[i].1.len();
                let mut v: Vec<usize> = Vec::new();
                let mut k: usize = 0;
                while k < bucket_len
                    invariant
                        k <= bucket_len,
                        i < self.pairs@.len(),
                        bucket_len == self.pairs@[i as int].1@.len(),
                        v@ == self.pairs@[i as int].1@.take(k as int),
                    decreases bucket_len - k,
                {
                    let x = self.pairs[i].1[k];
                    v.push(x);
                    proof {
                        assert(v@ =~= self.pairs@[i as int].1@.take(k + 1));
                    }
                    k += 1;
                }
                proof {
                    assert(self.pairs@[i as int].1@.take(bucket_len as int) =~= self.pairs@[
                        i as int
                    ].1@);
                }
                return Some(v);
            }
            i += 1;
        }
        proof {
            self.lemma_lookup_absent(label@);
        }
        None
    }
}

} // verus!
