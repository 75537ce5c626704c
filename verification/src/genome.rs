//! Permutation genomes: an order of the genes `0..n`.

use crate::error::{reason, reason_limit_got, Error, Result};
use crate::rng::{fisher_yates, StreamRng};
use vstd::prelude::*;

verus! {

/// Whether `s` is a permutation of `0..s.len()`: every value is below the length, and no value
/// occurs twice.
pub open spec fn is_permutation(s: Seq<usize>) -> bool {
    &&& forall|i: int| 0 <= i < s.len() ==> (#[trigger] s[i] as int) < s.len()
    &&& forall|i: int, j: int| 0 <= i < j < s.len() ==> #[trigger] s[i] != #[trigger] s[j]
}

/// Whether no value of `s` occurs twice.
pub open spec fn distinct(s: Seq<usize>) -> bool {
    forall|i: int, j: int| 0 <= i < j < s.len() ==> #[trigger] s[i] != #[trigger] s[j]
}

/// `s` with the genes at `i` and `j` exchanged.
pub open spec fn swapped(s: Seq<usize>, i: int, j: int) -> Seq<usize> {
    s.update(i, s[j]).update(j, s[i])
}

/// Distinct values below `m` are at most `m` many.
pub proof fn lemma_distinct_below_len(s: Seq<usize>, m: int)
    requires
        0 <= m,
        distinct(s),
        forall|i: int| 0 <= i < s.len() ==> (#[trigger] s[i] as int) < m,
    ensures
        s.len() <= m,
    decreases m,
{
    if m == 0 {
        if s.len() > 0 {
            assert(s[0] < m);
        }
    } else if exists|p: int| 0 <= p < s.len() && s[p] == m - 1 {
        let p = choose|p: int| 0 <= p < s.len() && s[p] == m - 1;
        let t = s.remove(p);
        assert forall|i: int| 0 <= i < t.len() implies (#[trigger] t[i] as int) < m - 1 by {
            if i < p {
                assert(s[i] != s[p]);
            } else {
                assert(s[i + 1] != s[p]);
            }
        }
        assert forall|i: int, j: int| 0 <= i < j < t.len() implies #[trigger] t[i] != #[trigger] t[j] by {
            let a = if i < p { i } else { i + 1 };
            let b = if j < p { j } else { j + 1 };
            assert(s[a] != s[b]);
        }
        lemma_distinct_below_len(t, m - 1);
    } else {
        assert forall|i: int| 0 <= i < s.len() implies (#[trigger] s[i] as int) < m - 1 by {
            assert(s[i] != m - 1);
        }
        lemma_distinct_below_len(s, m - 1);
    }
}

/// A permutation of `0..n` holds every value below `n` (the pigeonhole principle).
pub proof fn lemma_permutation_covers(s: Seq<usize>, v: int)
    requires
        is_permutation(s),
        0 <= v < s.len(),
    ensures
        holds_value(s, v),
{
    if !holds_value(s, v) {
        let t = s.map_values(|x: usize| if (x as int) > v { (x - 1) as usize } else { x });
        assert forall|i: int| 0 <= i < t.len() implies (#[trigger] t[i] as int) < s.len() - 1 by {
            assert(s[i] < s.len());
            assert(s[i] != v);
        }
        assert forall|i: int, j: int| 0 <= i < j < t.len() implies #[trigger] t[i] != #[trigger] t[j] by {
            assert(s[i] != s[j]);
            assert(s[i] != v);
            assert(s[j] != v);
        }
        lemma_distinct_below_len(t, s.len() - 1);
    }
}

/// Whether `v` occurs in `t`.
pub open spec fn holds_value(t: Seq<usize>, v: int) -> bool {
    exists|p: int| 0 <= p < t.len() && t[p] == v
}

/// A position of `v` in `t`, if it occurs.
pub open spec fn index_of(t: Seq<usize>, v: int) -> int {
    choose|p: int| 0 <= p < t.len() && t[p] == v
}

/// A sequence that holds every value below `n` has at least `n` elements.
pub proof fn lemma_covering_len(t: Seq<usize>, n: int)
    requires
        0 <= n,
        t.len() <= usize::MAX,
        forall|v: int| 0 <= v < n ==> #[trigger] holds_value(t, v),
    ensures
        t.len() >= n,
{
    let indices = Seq::new(n as nat, |v: int| index_of(t, v) as usize);
    assert forall|v: int| 0 <= v < n implies 0 <= #[trigger] index_of(t, v) < t.len() && t[index_of(t, v)] == v by {
        assert(holds_value(t, v));
    }
    assert forall|i: int| 0 <= i < indices.len() implies (#[trigger] indices[i] as int) < t.len() by {
        assert(0 <= index_of(t, i) < t.len());
        assert(indices[i] as int == index_of(t, i));
    }
    assert forall|i: int, j: int| 0 <= i < j < indices.len() implies #[trigger] indices[i] != #[trigger] indices[j] by {
        assert(0 <= index_of(t, i) < t.len() && t[index_of(t, i)] == i);
        assert(0 <= index_of(t, j) < t.len() && t[index_of(t, j)] == j);
        assert(indices[i] as int == index_of(t, i));
        assert(indices[j] as int == index_of(t, j));
    }
    lemma_distinct_below_len(indices, t.len() as int);
}

/// Exchanging two genes of a permutation gives a permutation.
pub proof fn lemma_swap_permutation(s: Seq<usize>, i: int, j: int)
    requires
        is_permutation(s),
        0 <= i < s.len(),
        0 <= j < s.len(),
    ensures
        is_permutation(swapped(s, i, j)),
        swapped(s, i, j).len() == s.len(),
{
    let t = swapped(s, i, j);
    assert forall|a: int| 0 <= a < t.len() implies (#[trigger] t[a] as int) < t.len() by {
        if a == j {
        } else if a == i {
        } else {
        }
    }
    assert forall|a: int, b: int| 0 <= a < b < t.len() implies #[trigger] t[a] != #[trigger] t[b] by {
        let sa = if a == j { i } else if a == i { j } else { a };
        let sb = if b == j { i } else if b == i { j } else { b };
        assert(t[a] == s[sa]);
        assert(t[b] == s[sb]);
        assert(sa != sb);
        if sa < sb {
            assert(s[sa] != s[sb]);
        } else {
            assert(s[sb] != s[sa]);
        }
    }
}

/// Exchanging two values of a sequence without repeated values keeps it without them.
pub proof fn lemma_swap_distinct(s: Seq<usize>, i: int, j: int)
    requires
        distinct(s),
        0 <= i < s.len(),
        0 <= j < s.len(),
    ensures
        distinct(swapped(s, i, j)),
        swapped(s, i, j).len() == s.len(),
        forall|v: usize| #[trigger] swapped(s, i, j).contains(v) <==> s.contains(v),
{
    let t = swapped(s, i, j);
    assert forall|a: int, b: int| 0 <= a < b < t.len() implies #[trigger] t[a] != #[trigger] t[b] by {
        let sa = if a == j { i } else if a == i { j } else { a };
        let sb = if b == j { i } else if b == i { j } else { b };
        assert(t[a] == s[sa]);
        assert(t[b] == s[sb]);
        if sa < sb {
            assert(s[sa] != s[sb]);
        } else {
            assert(s[sb] != s[sa]);
        }
    }
    assert forall|v: usize| #[trigger] t.contains(v) <==> s.contains(v) by {
        if t.contains(v) {
            let a = choose|a: int| 0 <= a < t.len() && t[a] == v;
            let sa = if a == j { i } else if a == i { j } else { a };
            assert(s[sa] == v);
        }
        if s.contains(v) {
            let a = choose|a: int| 0 <= a < s.len() && s[a] == v;
            let ta = if a == j { i } else if a == i { j } else { a };
            assert(t[ta] == v);
        }
    }
}

/// Exchanges the genes at `i` and `j` of `genes`.
pub fn swap_genes(genes: &mut Vec<usize>, i: usize, j: usize)
    requires
        i < old(genes).len(),
        j < old(genes).len(),
    ensures
        final(genes)@ == swapped(old(genes)@, i as int, j as int),
{
    let x = genes[i];
    let y = genes[j];
    genes.set(i, y);
    genes.set(j, x);
}

/// A copy of `genes`.
pub fn copy_of(genes: &[usize]) -> (r: Vec<usize>)
    ensures
        r@ == genes@,
{
    let mut r: Vec<usize> = Vec::new();
    let mut k: usize = 0;
    while k < genes.len()
        invariant
            k <= genes@.len(),
            r@ == genes@.take(k as int),
        decreases genes@.len() - k,
    {
        r.push(genes[k]);
        proof {
            assert(genes@.take(k as int).push(genes@[k as int]) =~= genes@.take(k + 1));
        }
        k = k + 1;
    }
    proof {
        assert(genes@.take(k as int) =~= genes@);
    }
    r
}

/// A permutation genome: an order of the genes `0..n`, e.g. a tour through `n` cities.
#[derive(Debug, PartialEq, Eq, Hash)]
pub struct Order {
    genes: Vec<usize>,
}

impl View for Order {
    type V = Seq<usize>;

    closed spec fn view(&self) -> Seq<usize> {
        self.genes@
    }
}

impl Order {
    /// Every order is a permutation: the invariant of the type.
    #[verifier::type_invariant]
    pub closed spec fn is_valid(self) -> bool {
        is_permutation(self.genes@)
    }

    /// What the invariant says: the genes are a permutation.
    pub proof fn lemma_valid(order: Order)
        requires
            order.is_valid(),
        ensures
            is_permutation(order@),
    {
    }

    /// The order of `genes`, or [`Error::InvalidGenome`] if they aren't a permutation of
    /// `0..n`.
    pub fn new(genes: Vec<usize>) -> (r: Result<Order>)
        ensures
            r matches Ok(order) ==> order@ == genes@,
            r is Ok <==> is_permutation(genes@),
    {
        let n = genes.len();
        let mut seen: Vec<bool> = Vec::new();
        let mut k: usize = 0;
        while k < n
            invariant
                k <= n,
                seen.len() == k,
                forall|v: int| 0 <= v < k ==> !#[trigger] seen[v],
            decreases n - k,
        {
            seen.push(false);
            k = k + 1;
        }
        let mut position: usize = 0;
        while position < n
            invariant
                n == genes.len(),
                seen.len() == n,
                position <= n,
                forall|i: int| 0 <= i < position ==> (#[trigger] genes@[i] as int) < n,
                forall|i: int, j: int| 0 <= i < j < position ==> #[trigger] genes@[i] != #[trigger] genes@[j],
                forall|v: int| 0 <= v < n ==> (#[trigger] seen[v] <==> exists|i: int| 0 <= i < position && genes@[i] == v),
            decreases n - position,
        {
            let gene = genes[position];
            if gene >= n || seen[gene] {
                proof {
                    if gene < n {
                        let i = choose|i: int| 0 <= i < position && genes@[i] == gene;
                        assert(genes@[i] == genes@[position as int]);
                    }
                }
                return Err(Error::InvalidGenome { reason: reason("not a permutation of 0..n") });
            }
            seen.set(gene, true);
            proof {
                assert forall|v: int| 0 <= v < n implies (#[trigger] seen[v] <==> exists|i: int| 0 <= i < position + 1 && genes@[i] == v) by {
                    if v == gene {
                        assert(genes@[position as int] == v);
                    } else {
                        if exists|i: int| 0 <= i < position + 1 && genes@[i] == v {
                            let i = choose|i: int| 0 <= i < position + 1 && genes@[i] == v;
                            assert(i != position);
                        }
                    }
                }
                assert forall|i: int, j: int| 0 <= i < j < position + 1 implies #[trigger] genes@[i] != #[trigger] genes@[j] by {
                    if j == position && genes@[i] == genes@[j] {
                        assert(seen@[gene as int] == false);
                    }
                }
            }
            position = position + 1;
        }
        Ok(Order { genes })
    }

    /// The order of `genes`, which are a permutation.
    pub(crate) fn from_permutation(genes: Vec<usize>) -> (order: Order)
        requires
            is_permutation(genes@),
        ensures
            order@ == genes@,
    {
        Order { genes }
    }

    /// The identity order `0, 1, ..., n - 1`.
    pub fn identity(n: usize) -> (order: Order)
        ensures
            order@.len() == n,
            forall|i: int| 0 <= i < n ==> order@[i] == i,
    {
        let mut genes: Vec<usize> = Vec::new();
        let mut k: usize = 0;
        while k < n
            invariant
                k <= n,
                genes.len() == k,
                forall|i: int| 0 <= i < k ==> genes@[i] == i,
            decreases n - k,
        {
            genes.push(k);
            k = k + 1;
        }
        Order { genes }
    }

    /// The number of genes.
    pub fn len(&self) -> (n: usize)
        ensures
            n == self@.len(),
    {
        self.genes.len()
    }

    /// Whether there are no genes.
    pub fn is_empty(&self) -> (empty: bool)
        ensures
            empty == (self@.len() == 0),
    {
        self.genes.len() == 0
    }

    /// The gene at `position`.
    pub fn get(&self, position: usize) -> (gene: usize)
        requires
            position < self@.len(),
        ensures
            gene == self@[position as int],
    {
        self.genes[position]
    }

    /// The genes, in order.
    pub fn as_slice(&self) -> (genes: &[usize])
        ensures
            genes@ == self@,
    {
        self.genes.as_slice()
    }

    /// A copy of the genes.
    pub fn to_vec(&self) -> (genes: Vec<usize>)
        ensures
            genes@ == self@,
    {
        self.genes.clone()
    }

    /// The genes, leaving an empty order behind.
    pub(crate) fn take_genes(&mut self) -> (genes: Vec<usize>)
        ensures
            genes@ == old(self)@,
            final(self)@.len() == 0,
    {
        let mut genes: Vec<usize> = Vec::new();
        std::mem::swap(&mut genes, &mut self.genes);
        genes
    }
}

impl Clone for Order {
    /// The same order.
    fn clone(&self) -> (r: Self)
        ensures
            r@ == self@,
    {
        proof {
            use_type_invariant(self);
        }
        Order { genes: self.genes.clone() }
    }
}

/// The representation of permutation genomes with `len` genes.
#[derive(Clone, Copy, Debug, PartialEq, Eq)]
pub struct Permutation {
    len: usize,
}

impl Permutation {
    /// Permutations of `len` genes, at least 1.
    pub fn new(len: usize) -> (r: Result<Permutation>)
        ensures
            r is Ok <==> len >= 1,
            r matches Ok(p) ==> p.spec_len() == len,
            r matches Err(e) ==> e.is_invalid_setting("permutation_length"),
    {
        if len == 0 {
            return Err(Error::InvalidSetting {
                setting: "permutation_length",
                reason: reason("must be at least 1"),
            });
        }
        Ok(Permutation { len })
    }

    /// The number of genes.
    pub closed spec fn spec_len(&self) -> nat {
        self.len as nat
    }

    /// The number of genes.
    pub fn len(&self) -> (n: usize)
        ensures
            n == self.spec_len(),
    {
        self.len
    }

    /// Whether `genome` fits these permutations: as many genes (an order is always a
    /// permutation).
    ///
    /// # Errors
    ///
    /// [`Error::InvalidGenome`] for another number of genes.
    pub fn validate(&self, genome: &Order) -> (r: Result<()>)
        ensures
            r is Ok <==> genome@.len() == self.spec_len(),
            r matches Err(e) ==> e is InvalidGenome,
    {
        if genome.len() != self.len {
            return Err(Error::InvalidGenome { reason: reason_limit_got("expected a permutation of length", self.len, "", genome.len()) });
        }
        Ok(())
    }

    /// A uniformly random order of the genes: the genes in order, shuffled ([`fisher_yates`]).
    pub fn random_genome(&self, rng: &mut StreamRng) -> (order: Order)
        ensures
            order@.len() == self.spec_len(),
            (order@, final(rng)@) == fisher_yates(Seq::new(self.spec_len(), |i: int| i as usize), old(rng)@, self.spec_len()),
    {
        let identity = Order::identity(self.len);
        let mut genes = identity.genes;
        proof {
            assert(is_permutation(genes@)) by {
                assert forall|i: int, j: int| 0 <= i < j < genes@.len() implies #[trigger] genes@[i] != #[trigger] genes@[j] by {
                    assert(genes@[i] == i);
                    assert(genes@[j] == j);
                }
            }
        }
        let ghost identity_seq = genes@;
        assert(identity_seq =~= Seq::new(self.spec_len(), |i: int| i as usize));
        let mut i = genes.len();
        while i > 1
            invariant
                i <= genes.len(),
                genes.len() == self.len,
                is_permutation(genes@),
                fisher_yates(identity_seq, old(rng)@, self.len as nat) == fisher_yates(genes@, rng@, i as nat),
            decreases i,
        {
            let j = rng.below(i);
            proof {
                lemma_swap_permutation(genes@, (i - 1) as int, j as int);
            }
            swap_genes(&mut genes, i - 1, j);
            i = i - 1;
        }
        Order { genes }
    }
}

} // verus!
