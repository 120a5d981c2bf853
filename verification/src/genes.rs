use vstd::prelude::*;

use crate::rng::NeatRng;

verus! {

// A gene set is an ordered, set-like container of genes keyed by their
// structural identity — a node id, or a connection's (input, output) pair
// — while the rest of a gene is mutable payload. The genes sit in a vector
// strictly sorted by identity, which makes membership, upsert and
// pairwise crossover simple scans and keeps equal-identity genes from
// ever sharing a set.

/// The strict order on gene identities: lexicographic on the pair.
pub open spec fn key_lt(a: (u64, u64), b: (u64, u64)) -> bool {
    a.0 < b.0 || (a.0 == b.0 && a.1 < b.1)
}

/// `key_lt` as runnable code.
fn key_lt_exec(a: (u64, u64), b: (u64, u64)) -> (r: bool)
    ensures
        r == key_lt(a, b),
{
    a.0 < b.0 || (a.0 == b.0 && a.1 < b.1)
}

/// Whether two identities are the same pair.
fn key_eq_exec(a: (u64, u64), b: (u64, u64)) -> (r: bool)
    ensures
        r == (a == b),
{
    a.0 == b.0 && a.1 == b.1
}

/// A gene: a value whose structural identity is a pair of ids. Two genes
/// with the same identity stand for the same structural element and never
/// coexist in one set.
pub trait Gene: Sized + Copy {
    /// The structural identity the containers key by.
    spec fn identity(&self) -> (u64, u64);

    /// The identity as runnable code.
    fn key(&self) -> (k: (u64, u64))
        ensures
            k == self.identity(),
    ;
}

/// An ordered set of genes, keyed by identity.
#[derive(Debug)]
#[verifier::reject_recursive_types(T)]
pub struct Genes<T: Gene> {
    items: Vec<T>,
}

impl<T: Gene> Genes<T> {
    /// The genes, in ascending identity order.
    pub closed spec fn seq(&self) -> Seq<T> {
        self.items@
    }

    /// The genes are strictly sorted by identity, so identities are unique.
    pub closed spec fn wf(&self) -> bool {
        forall|i: int, j: int|
            0 <= i < j < self.items@.len() ==> key_lt(
                (#[trigger] self.items@[i]).identity(),
                (#[trigger] self.items@[j]).identity(),
            )
    }

    /// Some gene in the set carries the identity `k`.
    pub open spec fn has_key(&self, k: (u64, u64)) -> bool {
        exists|i: int| 0 <= i < self.seq().len() && (#[trigger] self.seq()[i]).identity() == k
    }

    /// The gene carrying identity `k`; meaningful only when `has_key(k)`.
    pub open spec fn at_key(&self, k: (u64, u64)) -> T {
        self.seq()[choose|i: int|
            0 <= i < self.seq().len() && (#[trigger] self.seq()[i]).identity() == k]
    }

    /// In a well-formed set the gene at any index is what `at_key` yields
    /// for its identity.
    pub proof fn lemma_at_key(&self, i: int)
        requires
            self.wf(),
            0 <= i < self.seq().len(),
        ensures
            self.has_key(self.seq()[i].identity()),
            self.at_key(self.seq()[i].identity()) == self.seq()[i],
    {
        let k = self.seq()[i].identity();
        assert(self.has_key(k));
        let j = choose|j: int|
            0 <= j < self.seq().len() && (#[trigger] self.seq()[j]).identity() == k;
        if i < j {
            assert(key_lt(self.seq()[i].identity(), self.seq()[j].identity()));
        } else if j < i {
            assert(key_lt(self.seq()[j].identity(), self.seq()[i].identity()));
        }
    }

    /// The genes stand in strictly ascending identity order.
    pub proof fn lemma_sorted(&self)
        requires
            self.wf(),
        ensures
            forall|i: int, j: int|
                0 <= i < j < self.seq().len() ==> key_lt(
                    (#[trigger] self.seq()[i]).identity(),
                    (#[trigger] self.seq()[j]).identity(),
                ),
    {
    }

    pub fn empty() -> (r: Genes<T>)
        ensures
            r.wf(),
            r.seq() =~= Seq::<T>::empty(),
    {
        Genes { items: Vec::new() }
    }

    pub fn len(&self) -> (n: usize)
        ensures
            n == self.seq().len(),
    {
        self.items.len()
    }

    pub fn is_empty(&self) -> (r: bool)
        ensures
            r == (self.seq().len() == 0),
    {
        self.items.len() == 0
    }

    /// A copy of the set, gene for gene.
    pub fn duplicate(&self) -> (r: Genes<T>)
        ensures
            r.seq() == self.seq(),
            self.wf() ==> r.wf(),
    {
        Genes { items: self.to_vec() }
    }

    /// The gene at position `i` of the identity order.
    pub fn nth(&self, i: usize) -> (g: T)
        requires
            i < self.seq().len(),
        ensures
            g == self.seq()[i as int],
    {
        self.items[i]
    }

    /// The genes as a plain vector, in ascending identity order.
    pub fn to_vec(&self) -> (r: Vec<T>)
        ensures
            r@ == self.seq(),
    {
        let mut out: Vec<T> = Vec::new();
        let mut i: usize = 0;
        while i < self.items.len()
            invariant
                i <= self.items@.len(),
                out@ =~= self.items@.take(i as int),
            decreases self.items@.len() - i,
        {
            out.push(self.items[i]);
            proof {
                assert(out@ =~= self.items@.take(i + 1));
            }
            i = i + 1;
        }
        proof {
            assert(out@ =~= self.items@);
        }
        out
    }

    /// The index of the first gene whose identity is not below `k`: the
    /// place where a gene keyed `k` sits or would be inserted.
    fn lower_bound(&self, k: (u64, u64)) -> (pos: usize)
        requires
            self.wf(),
        ensures
            pos <= self.seq().len(),
            forall|i: int| 0 <= i < pos ==> key_lt((#[trigger] self.seq()[i]).identity(), k),
            forall|i: int|
                pos <= i < self.seq().len() ==> !key_lt((#[trigger] self.seq()[i]).identity(), k),
    {
        let mut pos: usize = 0;
        while pos < self.items.len()
            invariant
                pos <= self.items@.len(),
                forall|i: int| 0 <= i < pos ==> key_lt((#[trigger] self.items@[i]).identity(), k),
                self.wf(),
            decreases self.items@.len() - pos,
        {
            if !key_lt_exec(self.items[pos].key(), k) {
                assert forall|i: int| pos <= i < self.seq().len() implies !key_lt(
                    (#[trigger] self.seq()[i]).identity(),
                    k,
                ) by {
                    if pos < i {
                        assert(key_lt(self.seq()[pos as int].identity(), self.seq()[i].identity()));
                    }
                }
                return pos;
            }
            pos = pos + 1;
        }
        pos
    }

    /// Identity-only membership test: the payload plays no part.
    pub fn contains_key(&self, k: (u64, u64)) -> (r: bool)
        requires
            self.wf(),
        ensures
            r == self.has_key(k),
    {
        let pos = self.lower_bound(k);
        if pos < self.items.len() && key_eq_exec(self.items[pos].key(), k) {
            assert(self.has_key(k));
            true
        } else {
            assert(!self.has_key(k)) by {
                if self.has_key(k) {
                    let i = choose|i: int|
                        0 <= i < self.seq().len() && (#[trigger] self.seq()[i]).identity() == k;
                    assert(!key_lt(self.seq()[i].identity(), k));
                }
            }
            false
        }
    }

    /// The gene carrying identity `k`, if the set holds one.
    pub fn get(&self, k: (u64, u64)) -> (r: Option<T>)
        requires
            self.wf(),
        ensures
            match r {
                Some(g) => self.has_key(k) && g == self.at_key(k) && g.identity() == k,
                None => !self.has_key(k),
            },
    {
        let pos = self.lower_bound(k);
        if pos < self.items.len() && key_eq_exec(self.items[pos].key(), k) {
            proof {
                self.lemma_at_key(pos as int);
            }
            Some(self.items[pos])
        } else {
            assert(!self.has_key(k)) by {
                if self.has_key(k) {
                    let i = choose|i: int|
                        0 <= i < self.seq().len() && (#[trigger] self.seq()[i]).identity() == k;
                    assert(!key_lt(self.seq()[i].identity(), k));
                }
            }
            None
        }
    }

    /// Insert-if-absent: fails, leaving the set untouched, when a gene with
    /// the same identity is already present.
    pub fn insert(&mut self, gene: T) -> (r: bool)
        requires
            old(self).wf(),
        ensures
            final(self).wf(),
            r == !old(self).has_key(gene.identity()),
            !r ==> *final(self) == *old(self),
            r ==> exists|pos: int|
                0 <= pos <= old(self).seq().len() && final(self).seq() =~= #[trigger] old(self).seq().insert(pos, gene),
            r ==> final(self).seq().len() == old(self).seq().len() + 1,
            forall|k: (u64, u64)| #[trigger]
                final(self).has_key(k) == (old(self).has_key(k) || k == gene.identity()),
            r ==> final(self).at_key(gene.identity()) == gene,
            forall|k: (u64, u64)|
                k != gene.identity() && old(self).has_key(k) ==> #[trigger] final(self).at_key(k)
                    == old(self).at_key(k),
    {
        let pos = self.lower_bound(gene.key());
        if pos < self.items.len() && key_eq_exec(self.items[pos].key(), gene.key()) {
            assert(self.has_key(gene.identity()));
            return false;
        }
        assert(!self.has_key(gene.identity())) by {
            if self.has_key(gene.identity()) {
                let i = choose|i: int|
                    0 <= i < self.seq().len() && (#[trigger] self.seq()[i]).identity()
                        == gene.identity();
                assert(!key_lt(self.seq()[i].identity(), gene.identity()));
            }
        }
        let ghost before = self.items@;
        self.items.insert(pos, gene);
        proof {
            assert(self.items@ =~= before.insert(pos as int, gene));
            before.insert_ensures(pos as int, gene);
            assert forall|i: int, j: int| 0 <= i < j < self.items@.len() implies key_lt(
                (#[trigger] self.items@[i]).identity(),
                (#[trigger] self.items@[j]).identity(),
            ) by {
                let a = if i < pos { before[i] } else if i == pos { gene } else { before[i - 1] };
                assert(self.items@[i] == a);
                let b = if j < pos { before[j] } else if j == pos { gene } else { before[j - 1] };
                assert(self.items@[j] == b);
                if i == pos {
                    assert(!key_lt(before[j - 1].identity(), gene.identity()));
                    assert(before[j - 1].identity() != gene.identity());
                } else if j == pos {
                    assert(key_lt(before[i].identity(), gene.identity()));
                }
            }
            assert forall|k: (u64, u64)| #[trigger]
                self.has_key(k) == (old(self).has_key(k) || k == gene.identity()) by {
                if old(self).has_key(k) {
                    let i = choose|i: int|
                        0 <= i < old(self).seq().len() && (#[trigger] old(self).seq()[i]).identity()
                            == k;
                    if i < pos {
                        assert(self.seq()[i] == before[i]);
                        assert((self.seq()[i]).identity() == k);
                    } else {
                        assert(self.seq()[i + 1] == before[i]);
                        assert((self.seq()[i + 1]).identity() == k);
                    }
                    assert(self.has_key(k));
                }
                if k == gene.identity() {
                    assert(self.seq()[pos as int] == gene);
                    assert((self.seq()[pos as int]).identity() == k);
                    assert(self.has_key(k));
                }
                if self.has_key(k) && k != gene.identity() {
                    let i = choose|i: int|
                        0 <= i < self.seq().len() && (#[trigger] self.seq()[i]).identity() == k;
                    if i < pos {
                        assert(before[i] == self.seq()[i]);
                        assert((old(self).seq()[i]).identity() == k);
                    } else if i == pos {
                        assert(self.seq()[i] == gene);
                    } else {
                        assert(before[i - 1] == self.seq()[i]);
                        assert((old(self).seq()[i - 1]).identity() == k);
                    }
                    assert(old(self).has_key(k));
                }
            }
            self.lemma_at_key(pos as int);
            assert forall|k: (u64, u64)|
                k != gene.identity() && old(self).has_key(k) implies #[trigger] self.at_key(k)
                == old(self).at_key(k) by {
                let j = choose|j: int|
                    0 <= j < old(self).seq().len() && (#[trigger] old(self).seq()[j]).identity()
                        == k;
                old(self).lemma_at_key(j);
                if j < pos {
                    assert(self.seq()[j] == before[j]);
                    self.lemma_at_key(j);
                } else {
                    assert(self.seq()[j + 1] == before[j]);
                    self.lemma_at_key(j + 1);
                }
            }
        }
        true
    }

    /// Upsert by identity: overwrites the payload of the gene carrying
    /// this identity, or inserts the gene when the identity is absent.
    pub fn replace(&mut self, gene: T)
        requires
            old(self).wf(),
        ensures
            final(self).wf(),
            forall|k: (u64, u64)| #[trigger]
                final(self).has_key(k) == (old(self).has_key(k) || k == gene.identity()),
            final(self).at_key(gene.identity()) == gene,
            forall|k: (u64, u64)|
                k != gene.identity() && old(self).has_key(k) ==> #[trigger] final(self).at_key(k)
                    == old(self).at_key(k),
            old(self).has_key(gene.identity()) ==> final(self).seq().len() == old(self).seq().len(),
            !old(self).has_key(gene.identity()) ==> final(self).seq().len() == old(self).seq().len() + 1,
            old(self).has_key(gene.identity()) ==> exists|i: int|
                0 <= i < old(self).seq().len() && (#[trigger] old(self).seq()[i]).identity()
                    == gene.identity() && final(self).seq() =~= old(self).seq().update(i, gene),
    {
        let pos = self.lower_bound(gene.key());
        if pos < self.items.len() && key_eq_exec(self.items[pos].key(), gene.key()) {
            let ghost before = self.items@;
            self.items[pos] = gene;
            proof {
                assert(before[pos as int].identity() == gene.identity());
                assert forall|i: int, j: int| 0 <= i < j < self.items@.len() implies key_lt(
                    (#[trigger] self.items@[i]).identity(),
                    (#[trigger] self.items@[j]).identity(),
                ) by {
                    assert(key_lt(before[i].identity(), before[j].identity()));
                    assert(i == pos ==> self.items@[i].identity() == before[i].identity());
                    assert(j == pos ==> self.items@[j].identity() == before[j].identity());
                }
                assert(old(self).has_key(gene.identity())) by {
                    assert(before[pos as int].identity() == gene.identity());
                }
                assert forall|k: (u64, u64)| #[trigger]
                    self.has_key(k) == (old(self).has_key(k) || k == gene.identity()) by {
                    if old(self).has_key(k) {
                        let i = choose|i: int|
                            0 <= i < old(self).seq().len() && (#[trigger] old(
                                self,
                            ).seq()[i]).identity() == k;
                        assert((self.seq()[i]).identity() == k);
                        assert(self.has_key(k));
                    }
                    if k == gene.identity() {
                        assert((self.seq()[pos as int]).identity() == k);
                        assert(self.has_key(k));
                    }
                    if self.has_key(k) && k != gene.identity() {
                        let i = choose|i: int|
                            0 <= i < self.seq().len() && (#[trigger] self.seq()[i]).identity() == k;
                        assert((old(self).seq()[i]).identity() == k);
                        assert(old(self).has_key(k));
                    }
                }
                self.lemma_at_key(pos as int);
                assert forall|k: (u64, u64)|
                    k != gene.identity() && old(self).has_key(k) implies #[trigger] self.at_key(k)
                    == old(self).at_key(k) by {
                    let i = choose|i: int|
                        0 <= i < before.len() && (#[trigger] before[i]).identity() == k;
                    assert(self.items@[i].identity() == k);
                    self.lemma_at_key(i);
                    old(self).lemma_at_key(i);
                }
                assert(0 <= (pos as int) < old(self).seq().len() && (#[trigger] old(
                    self,
                ).seq()[pos as int]).identity() == gene.identity() && self.seq() =~= old(
                    self,
                ).seq().update(pos as int, gene));
            }
        } else {
            assert(!self.has_key(gene.identity())) by {
                if self.has_key(gene.identity()) {
                    let i = choose|i: int|
                        0 <= i < self.seq().len() && (#[trigger] self.seq()[i]).identity()
                            == gene.identity();
                    assert(!key_lt(self.seq()[i].identity(), gene.identity()));
                }
            }
            let inserted = self.insert(gene);
            proof {
                assert(self.has_key(gene.identity()));
                let i = choose|i: int|
                    0 <= i < self.seq().len() && (#[trigger] self.seq()[i]).identity()
                        == gene.identity();
                self.lemma_at_key(i);
                let pos2 = choose|pos2: int|
                    0 <= pos2 <= old(self).seq().len() && self.seq() =~= #[trigger] old(
                        self,
                    ).seq().insert(pos2, gene);
                old(self).seq().insert_ensures(pos2, gene);
                assert forall|k: (u64, u64)|
                    k != gene.identity() && old(self).has_key(k) implies #[trigger] self.at_key(k)
                    == old(self).at_key(k) by {
                    let j = choose|j: int|
                        0 <= j < old(self).seq().len() && (#[trigger] old(self).seq()[j]).identity()
                            == k;
                    old(self).lemma_at_key(j);
                    if j < pos2 {
                        assert(self.seq()[j] == old(self).seq()[j]);
                        self.lemma_at_key(j);
                    } else {
                        assert(self.seq()[j + 1] == old(self).seq()[j]);
                        self.lemma_at_key(j + 1);
                    }
                }
            }
        }
    }

    /// A uniformly random gene, or nothing when the set is empty.
    pub fn random(&self, rng: &mut NeatRng) -> (r: Option<T>)
        requires
            self.wf(),
        ensures
            match r {
                Some(g) => self.has_key(g.identity()) && g == self.at_key(g.identity()),
                None => self.seq().len() == 0,
            },
            r is None <==> self.seq().len() == 0,
    {
        if self.items.len() == 0 {
            None
        } else {
            let i = rng.below(self.items.len());
            proof {
                self.lemma_at_key(i as int);
            }
            Some(self.items[i])
        }
    }

    /// The genes as a vector rotated by a uniformly random offset: a full
    /// traversal that starts anywhere.
    pub fn rotated(&self, rng: &mut NeatRng) -> (r: Vec<T>)
        requires
            self.wf(),
        ensures
            exists|k: int|
                0 <= k <= self.seq().len() && r@ =~= #[trigger] (self.seq().skip(k)
                    + self.seq().take(k)),
            r@.len() == self.seq().len(),
            forall|i: int, j: int|
                0 <= i < j < r@.len() ==> (#[trigger] r@[i]).identity() != (
                #[trigger] r@[j]).identity(),
            forall|i: int|
                0 <= i < r@.len() ==> self.has_key((#[trigger] r@[i]).identity()) && r@[i]
                    == self.at_key(r@[i].identity()),
            forall|j: int| 0 <= j < self.seq().len() ==> r@.contains(#[trigger] self.seq()[j]),
    {
        let n = self.items.len();
        let offset = if n == 0 {
            0
        } else {
            rng.below(n)
        };
        let mut out: Vec<T> = Vec::new();
        let mut i: usize = offset;
        while i < n
            invariant
                offset <= i <= n,
                n == self.items@.len(),
                out@ =~= self.items@.subrange(offset as int, i as int),
            decreases n - i,
        {
            out.push(self.items[i]);
            proof {
                assert(out@ =~= self.items@.subrange(offset as int, i + 1));
            }
            i = i + 1;
        }
        let mut j: usize = 0;
        while j < offset
            invariant
                j <= offset <= n,
                n == self.items@.len(),
                out@ =~= self.items@.subrange(offset as int, n as int) + self.items@.subrange(
                    0,
                    j as int,
                ),
            decreases offset - j,
        {
            out.push(self.items[j]);
            proof {
                assert(out@ =~= self.items@.subrange(offset as int, n as int)
                    + self.items@.subrange(0, j + 1));
            }
            j = j + 1;
        }
        proof {
            assert(self.seq().skip(offset as int) =~= self.items@.subrange(
                offset as int,
                n as int,
            ));
            assert(self.seq().take(offset as int) =~= self.items@.subrange(0, offset as int));
            assert(out@ =~= self.seq().skip(offset as int) + self.seq().take(offset as int));
            let ghost orig = |i: int|
                if i < n - offset {
                    i + offset
                } else {
                    i - (n - offset)
                };
            assert forall|i: int| 0 <= i < out@.len() implies self.has_key(
                (#[trigger] out@[i]).identity(),
            ) && out@[i] == self.at_key(out@[i].identity()) by {
                assert(out@[i] == self.seq()[orig(i)]);
                self.lemma_at_key(orig(i));
            }
            assert forall|i: int, j: int| 0 <= i < j < out@.len() implies (
            #[trigger] out@[i]).identity() != (#[trigger] out@[j]).identity() by {
                assert(out@[i] == self.seq()[orig(i)]);
                assert(out@[j] == self.seq()[orig(j)]);
                if orig(i) < orig(j) {
                    assert(key_lt(self.seq()[orig(i)].identity(), self.seq()[orig(j)].identity()));
                } else {
                    assert(orig(j) < orig(i));
                    assert(key_lt(self.seq()[orig(j)].identity(), self.seq()[orig(i)].identity()));
                }
            }
            assert forall|j: int| 0 <= j < self.seq().len() implies out@.contains(
                #[trigger] self.seq()[j],
            ) by {
                let w = if j >= offset {
                    j - offset
                } else {
                    j + (n - offset)
                };
                assert(out@[w] == self.seq()[j]);
            }
        }
        out
    }

    /// `r` is a crossover of `a` with `b`: it carries exactly `a`'s
    /// identities in `a`'s order, and each gene is `a`'s or, where `b`
    /// holds the identity too, possibly `b`'s.
    pub open spec fn crossed(a: Genes<T>, b: Genes<T>, r: Genes<T>) -> bool {
        &&& r.seq().len() == a.seq().len()
        &&& forall|i: int|
            0 <= i < a.seq().len() ==> (#[trigger] r.seq()[i]).identity() == a.seq()[i].identity()
        &&& forall|i: int|
            0 <= i < a.seq().len() ==> (#[trigger] r.seq()[i] == a.seq()[i] || (b.has_key(
                a.seq()[i].identity(),
            ) && r.seq()[i] == b.at_key(a.seq()[i].identity())))
        &&& forall|k: (u64, u64)| #[trigger] r.has_key(k) == a.has_key(k)
    }

    /// Pairwise crossover. For each identity in `self`, the result carries
    /// either `self`'s gene or, when `other` also holds the identity, with
    /// equal probability `other`'s gene. Identities only in `self` — the
    /// side of the fitter parent — are inherited as they are; identities
    /// only in `other` are dropped. The result has exactly `self`'s
    /// identities, in the same order.
    pub fn cross_in(&self, other: &Genes<T>, rng: &mut NeatRng) -> (r: Genes<T>)
        requires
            self.wf(),
            other.wf(),
        ensures
            r.wf(),
            Genes::crossed(*self, *other, r),
    {
        let mut out: Vec<T> = Vec::new();
        let mut i: usize = 0;
        while i < self.items.len()
            invariant
                i <= self.items@.len(),
                out@.len() == i,
                self.wf(),
                other.wf(),
                forall|j: int|
                    0 <= j < i ==> (#[trigger] out@[j]).identity() == self.items@[j].identity(),
                forall|j: int|
                    0 <= j < i ==> (#[trigger] out@[j] == self.items@[j] || (other.has_key(
                        self.items@[j].identity(),
                    ) && out@[j] == other.at_key(self.items@[j].identity()))),
            decreases self.items@.len() - i,
        {
            let gene = self.items[i];
            let pick = match other.get(gene.key()) {
                Some(theirs) => {
                    if rng.coin() {
                        theirs
                    } else {
                        gene
                    }
                },
                None => gene,
            };
            out.push(pick);
            i = i + 1;
        }
        let result = Genes { items: out };
        proof {
            assert forall|a: int, b: int| 0 <= a < b < result.items@.len() implies key_lt(
                (#[trigger] result.items@[a]).identity(),
                (#[trigger] result.items@[b]).identity(),
            ) by {
                assert(key_lt(self.items@[a].identity(), self.items@[b].identity()));
            }
            assert forall|k: (u64, u64)| #[trigger] result.has_key(k) == self.has_key(k) by {
                if self.has_key(k) {
                    let i2 = choose|i2: int|
                        0 <= i2 < self.seq().len() && (#[trigger] self.seq()[i2]).identity() == k;
                    assert(result.seq()[i2].identity() == k);
                }
                if result.has_key(k) {
                    let i2 = choose|i2: int|
                        0 <= i2 < result.seq().len() && (#[trigger] result.seq()[i2]).identity()
                            == k;
                    assert(self.seq()[i2].identity() == k);
                }
            }
        }
        result
    }
}

/// A vector rotated by a uniformly random offset: the same elements, each
/// exactly as often, starting anywhere.
pub fn rotated_vec<T: Copy>(v: &Vec<T>, rng: &mut NeatRng) -> (r: Vec<T>)
    ensures
        r@.len() == v@.len(),
        forall|i: int| 0 <= i < r@.len() ==> v@.contains(#[trigger] r@[i]),
        forall|j: int| 0 <= j < v@.len() ==> r@.contains(#[trigger] v@[j]),
{
    let n = v.len();
    let offset = if n == 0 {
        0
    } else {
        rng.below(n)
    };
    let mut out: Vec<T> = Vec::new();
    let mut i: usize = offset;
    while i < n
        invariant
            offset <= i <= n,
            n == v@.len(),
            out@ =~= v@.subrange(offset as int, i as int),
        decreases n - i,
    {
        out.push(v[i]);
        proof {
            assert(out@ =~= v@.subrange(offset as int, i + 1));
        }
        i = i + 1;
    }
    let mut j: usize = 0;
    while j < offset
        invariant
            j <= offset <= n,
            n == v@.len(),
            out@ =~= v@.subrange(offset as int, n as int) + v@.subrange(0, j as int),
        decreases offset - j,
    {
        out.push(v[j]);
        proof {
            assert(out@ =~= v@.subrange(offset as int, n as int) + v@.subrange(0, j + 1));
        }
        j = j + 1;
    }
    proof {
        let ghost orig = |i: int|
            if i < n - offset {
                i + offset
            } else {
                i - (n - offset)
            };
        assert forall|i: int| 0 <= i < out@.len() implies v@.contains(#[trigger] out@[i]) by {
            assert(out@[i] == v@[orig(i)]);
        }
        assert forall|j2: int| 0 <= j2 < v@.len() implies out@.contains(#[trigger] v@[j2]) by {
            let w = if j2 >= offset {
                j2 - offset
            } else {
                j2 + (n - offset)
            };
            assert(out@[w] == v@[j2]);
        }
    }
    out
}

/// A well-formed gene set never holds two genes with the same identity:
/// in particular, no (start, end) pair ever appears twice in a connection
/// set.
pub proof fn lemma_no_duplicate_identities<T: Gene>(g: Genes<T>)
    requires
        g.wf(),
    ensures
        forall|i: int, j: int|
            0 <= i < j < g.seq().len() ==> (#[trigger] g.seq()[i]).identity() != (
            #[trigger] g.seq()[j]).identity(),
{
    g.lemma_sorted();
}

/// When every existing identity is below the new gene's, an insert lands
/// at the end.
pub proof fn lemma_sorted_insert_is_push<T: Gene>(pre: Genes<T>, post: Genes<T>, gene: T)
    requires
        pre.wf(),
        post.wf(),
        forall|i: int|
            0 <= i < pre.seq().len() ==> key_lt(
                (#[trigger] pre.seq()[i]).identity(),
                gene.identity(),
            ),
        exists|pos: int|
            0 <= pos <= pre.seq().len() && post.seq() =~= #[trigger] pre.seq().insert(pos, gene),
    ensures
        post.seq() =~= pre.seq().push(gene),
{
    let pos = choose|pos: int|
        0 <= pos <= pre.seq().len() && post.seq() =~= #[trigger] pre.seq().insert(pos, gene);
    pre.seq().insert_ensures(pos, gene);
    if pos < pre.seq().len() {
        assert(post.seq()[pos] == gene);
        assert(post.seq()[pos + 1] == pre.seq()[pos]);
        assert(key_lt(post.seq()[pos].identity(), post.seq()[pos + 1].identity()));
        assert(key_lt(gene.identity(), pre.seq()[pos].identity()));
        assert(key_lt(pre.seq()[pos].identity(), gene.identity()));
        assert(false);
    }
    assert(post.seq() =~= pre.seq().push(gene));
}

} // verus!
