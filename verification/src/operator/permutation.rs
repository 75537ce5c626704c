//! Crossover and mutation for permutation genomes: every child is a permutation.

use crate::genome::{lemma_swap_distinct, copy_of, distinct, holds_value, lemma_covering_len, lemma_distinct_below_len, is_permutation, lemma_permutation_covers, lemma_swap_permutation, swap_genes, swapped, Order, Permutation};
use crate::rng::{distinct_pair, fisher_yates, lemma_fisher_yates_keeps, lemma_two_cuts, two_cuts, RngState, StreamRng, MAX_REJECTIONS};
use vstd::prelude::*;

verus! {

/// Whether `inverse` undoes `genes`: the gene at each position has that position in `inverse`.
pub open spec fn is_inverse(genes: Seq<usize>, inverse: Seq<usize>) -> bool {
    &&& inverse.len() == genes.len()
    &&& forall|i: int| 0 <= i < genes.len() ==> #[trigger] inverse[genes[i] as int] == i
}

/// An inverse of a permutation is a permutation too, and is undone by it.
pub proof fn lemma_inverse_permutation(genes: Seq<usize>, inverse: Seq<usize>)
    requires
        is_permutation(genes),
        is_inverse(genes, inverse),
    ensures
        is_permutation(inverse),
        forall|g: int| 0 <= g < genes.len() ==> #[trigger] genes[inverse[g] as int] == g,
{
    assert forall|g: int| 0 <= g < genes.len() implies #[trigger] genes[inverse[g] as int] == g && (inverse[g] as int) < genes.len() by {
        lemma_permutation_covers(genes, g);
        let p = choose|p: int| 0 <= p < genes.len() && genes[p] == g;
        assert(inverse[genes[p] as int] == p);
    }
    assert forall|g: int| 0 <= g < inverse.len() implies (#[trigger] inverse[g] as int) < inverse.len() by {
        assert(genes[inverse[g] as int] == g);
    }
    assert forall|g: int, h: int| 0 <= g < h < inverse.len() implies #[trigger] inverse[g] != #[trigger] inverse[h] by {
        assert(genes[inverse[g] as int] == g);
        assert(genes[inverse[h] as int] == h);
    }
}

/// The position of every gene of a permutation.
pub fn positions(genes: &[usize]) -> (r: Vec<usize>)
    requires
        is_permutation(genes@),
    ensures
        is_inverse(genes@, r@),
        is_permutation(r@),
        forall|g: int| 0 <= g < genes@.len() ==> #[trigger] genes@[r@[g] as int] == g,
{
    let n = genes.len();
    let mut r: Vec<usize> = Vec::new();
    let mut k: usize = 0;
    while k < n
        invariant
            k <= n,
            r.len() == k,
        decreases n - k,
    {
        r.push(0);
        k = k + 1;
    }
    let mut position: usize = 0;
    while position < n
        invariant
            n == genes@.len(),
            is_permutation(genes@),
            r.len() == n,
            position <= n,
            forall|i: int| 0 <= i < position ==> #[trigger] r@[genes@[i] as int] == i,
        decreases n - position,
    {
        let gene = genes[position];
        r.set(gene, position);
        proof {
            assert forall|i: int| 0 <= i < position + 1 implies #[trigger] r@[genes@[i] as int] == i by {
                if i < position {
                    assert(genes@[i] != genes@[position as int]);
                }
            }
        }
        position = position + 1;
    }
    proof {
        lemma_inverse_permutation(genes@, r@);
    }
    r
}

/// Whether `s` holds `gene` in `start..end`.
pub open spec fn holds_in(s: Seq<usize>, start: int, end: int, gene: usize) -> bool {
    exists|k: int| start <= k < end && s[k] == gene
}

/// Whether `path` follows the mapping of partially mapped crossover between the segments
/// `start..i` of `other` and `own`: each gene but the last is `other[k]` for a `k` of the segment,
/// and is followed by `own[k]`; the last gene is not in that segment of `other`.
pub open spec fn is_pmx_chain(own: Seq<usize>, other: Seq<usize>, start: int, i: int, path: Seq<usize>) -> bool {
    &&& path.len() > 0
    &&& forall|j: int| 0 <= j < path.len() - 1 ==> exists|k: int| start <= k < i
        && other[k] == #[trigger] path[j] && own[k] == path[j + 1]
    &&& !holds_in(other, start, i, path.last())
}

/// Whether the mapping between the segments `start..i` of `other` and `own` leads from `x` to `y`:
/// the end of the chain from `x`.
pub open spec fn pmx_maps(own: Seq<usize>, other: Seq<usize>, start: int, i: int, x: usize, y: usize) -> bool {
    exists|path: Seq<usize>| #[trigger] is_pmx_chain(own, other, start, i, path) && path[0] == x && path.last() == y
}

/// The mapping of partially mapped crossover leads each gene to one end: the chain from a gene
/// is unique.
pub proof fn lemma_pmx_maps_unique(own: Seq<usize>, other: Seq<usize>, start: int, i: int, x: usize, y1: usize, y2: usize)
    requires
        is_permutation(other),
        0 <= start,
        i <= other.len(),
        pmx_maps(own, other, start, i, x, y1),
        pmx_maps(own, other, start, i, x, y2),
    ensures
        y1 == y2,
{
    let p1 = choose|path: Seq<usize>| #[trigger] is_pmx_chain(own, other, start, i, path) && path[0] == x && path.last() == y1;
    let p2 = choose|path: Seq<usize>| #[trigger] is_pmx_chain(own, other, start, i, path) && path[0] == x && path.last() == y2;
    let m = if p1.len() < p2.len() { p1.len() as int } else { p2.len() as int };
    lemma_pmx_chains_agree(own, other, start, i, p1, p2, m - 1);
    if p1.len() < p2.len() {
        let j = p1.len() - 1;
        let k = choose|k: int| start <= k < i && other[k] == #[trigger] p2[j] && own[k] == p2[j + 1];
        assert(holds_in(other, start, i, p1.last()));
    } else if p2.len() < p1.len() {
        let j = p2.len() - 1;
        let k = choose|k: int| start <= k < i && other[k] == #[trigger] p1[j] && own[k] == p1[j + 1];
        assert(holds_in(other, start, i, p2.last()));
    }
}

// two chains from one gene agree up to position `j`
proof fn lemma_pmx_chains_agree(own: Seq<usize>, other: Seq<usize>, start: int, i: int, p1: Seq<usize>, p2: Seq<usize>, j: int)
    requires
        is_permutation(other),
        0 <= start,
        i <= other.len(),
        is_pmx_chain(own, other, start, i, p1),
        is_pmx_chain(own, other, start, i, p2),
        p1[0] == p2[0],
        0 <= j < p1.len(),
        j < p2.len(),
    ensures
        p1[j] == p2[j],
    decreases j,
{
    if j > 0 {
        lemma_pmx_chains_agree(own, other, start, i, p1, p2, j - 1);
        let k1 = choose|k: int| start <= k < i && other[k] == #[trigger] p1[j - 1] && own[k] == p1[j];
        let k2 = choose|k: int| start <= k < i && other[k] == #[trigger] p2[j - 1] && own[k] == p2[j];
        if k1 != k2 {
            if k1 < k2 {
                assert(other[k1] != other[k2]);
            } else {
                assert(other[k2] != other[k1]);
            }
        }
    }
}

// one swap of partially mapped crossover extends the chains by the mapping at `i`
proof fn lemma_pmx_step(own: Seq<usize>, other: Seq<usize>, start: int, i: int, end: int, before: Seq<usize>, after: Seq<usize>, at: int)
    requires
        is_permutation(before),
        is_permutation(other),
        own.len() == before.len(),
        other.len() == before.len(),
        0 <= start <= i < end <= before.len(),
        0 <= at < before.len(),
        before[at] == other[i],
        forall|k: int| start <= k < i ==> #[trigger] before[k] == other[k],
        after == swapped(before, i, at),
        forall|p: int| 0 <= p < before.len() && (!(start <= p < end) || i <= p)
            ==> pmx_maps(own, other, start, i, own[p], #[trigger] before[p]),
    ensures
        forall|p: int| 0 <= p < before.len() && (!(start <= p < end) || i + 1 <= p)
            ==> pmx_maps(own, other, start, i + 1, own[p], #[trigger] after[p]),
{
    let g = other[i];
    let n = before.len() as int;
    // the gene `other[i]` is not in the segment of `other` before `i`
    assert(!holds_in(other, start, i, g)) by {
        if holds_in(other, start, i, g) {
            let k = choose|k: int| start <= k < i && other[k] == g;
            assert(other[k] != other[i]);
        }
    }
    assert(at == i || !(start <= at < i)) by {
        if start <= at < i {
            assert(before[at] == other[at]);
            assert(other[at] != other[i]);
        }
    }
    assert forall|p: int| 0 <= p < n && (!(start <= p < end) || i + 1 <= p)
        implies pmx_maps(own, other, start, i + 1, own[p], #[trigger] after[p]) by {
        if p == at && at != i {
            // the chain to `other[i]` continues with the chain from `own[i]`
            assert(pmx_maps(own, other, start, i, own[p], before[p]));
            let path1 = choose|path: Seq<usize>| #[trigger] is_pmx_chain(own, other, start, i, path) && path[0] == own[p] && path.last() == before[p];
            assert(pmx_maps(own, other, start, i, own[i], before[i]));
            let path2 = choose|path: Seq<usize>| #[trigger] is_pmx_chain(own, other, start, i, path) && path[0] == own[i] && path.last() == before[i];
            let path = path1 + path2;
            assert(after == before.update(i, before[at]).update(at, before[i]));
            assert(after[at] == before[i]);
            assert(after[p] == before[i]);
            assert(before[i] != g) by {
                assert(before[at] == g);
            }
            assert forall|j: int| 0 <= j < path.len() - 1 implies exists|k: int| start <= k < i + 1
                && other[k] == #[trigger] path[j] && own[k] == path[j + 1] by {
                if j < path1.len() - 1 {
                    assert(path[j] == path1[j] && path[j + 1] == path1[j + 1]);
                    let k = choose|k: int| start <= k < i && other[k] == #[trigger] path1[j] && own[k] == path1[j + 1];
                } else if j == path1.len() - 1 {
                    assert(path[j] == g);
                    assert(path[j + 1] == path2[0]);
                    assert(other[i] == path[j] && own[i] == path[j + 1]);
                } else {
                    let j2 = j - path1.len();
                    assert(path[j] == path2[j2] && path[j + 1] == path2[j2 + 1]);
                    let k = choose|k: int| start <= k < i && other[k] == #[trigger] path2[j2] && own[k] == path2[j2 + 1];
                }
            }
            assert(path.last() == path2.last());
            assert(!holds_in(other, start, i + 1, path.last())) by {
                if holds_in(other, start, i + 1, path.last()) {
                    let k = choose|k: int| start <= k < i + 1 && other[k] == path.last();
                    if k == i {
                        assert(before[i] == g);
                    } else {
                        assert(holds_in(other, start, i, path.last()));
                    }
                }
            }
            assert(is_pmx_chain(own, other, start, i + 1, path));
            assert(path[0] == path1[0]);
        } else {
            // unchanged, and the chain doesn't reach `other[i]`, which sits elsewhere
            assert(p != i);
            assert(after[p] == before[p]);
            assert(pmx_maps(own, other, start, i, own[p], before[p]));
            let path = choose|path: Seq<usize>| #[trigger] is_pmx_chain(own, other, start, i, path) && path[0] == own[p] && path.last() == before[p];
            assert(before[p] != g) by {
                if before[p] == g {
                    assert(before[p] == before[at]);
                }
            }
            assert forall|j: int| 0 <= j < path.len() - 1 implies exists|k: int| start <= k < i + 1
                && other[k] == #[trigger] path[j] && own[k] == path[j + 1] by {
                let k = choose|k: int| start <= k < i && other[k] == #[trigger] path[j] && own[k] == path[j + 1];
            }
            assert(!holds_in(other, start, i + 1, path.last())) by {
                if holds_in(other, start, i + 1, path.last()) {
                    let k = choose|k: int| start <= k < i + 1 && other[k] == path.last();
                    if k < i {
                        assert(holds_in(other, start, i, path.last()));
                    }
                }
            }
            assert(is_pmx_chain(own, other, start, i + 1, path));
        }
    }
}

/// `own` with the segment `start..end` of `other`, repaired by swaps (the mapping of partially
/// mapped crossover): a permutation with the other's segment in place, whose genes outside the
/// segment stay where they were in `own` unless the other's segment holds them; such a gene is
/// replaced by the end of its chain through the mapping `other[k] ↦ own[k]` of the segments.
pub fn partially_mapped(own: &[usize], other: &[usize], start: usize, end: usize) -> (child: Vec<usize>)
    requires
        is_permutation(own@),
        is_permutation(other@),
        own@.len() == other@.len(),
        start <= end <= own@.len(),
    ensures
        is_permutation(child@),
        child@.len() == own@.len(),
        forall|k: int| start <= k < end ==> #[trigger] child@[k] == other@[k],
        forall|p: int|
            0 <= p < own@.len() && !(start <= p < end) && !holds_in(other@, start as int, end as int, own@[p])
                ==> #[trigger] child@[p] == own@[p],
        forall|p: int| 0 <= p < own@.len() && !(start <= p < end)
            ==> pmx_maps(own@, other@, start as int, end as int, own@[p], #[trigger] child@[p]),
{
    let mut child = copy_of(own);
    proof {
        assert forall|p: int| 0 <= p < own@.len() implies pmx_maps(own@, other@, start as int, start as int, own@[p], #[trigger] child@[p]) by {
            let path = seq![own@[p]];
            assert(is_pmx_chain(own@, other@, start as int, start as int, path));
        }
    }
    let mut positions = positions(&child);
    let n = own.len();
    let mut position = start;
    while position < end
        invariant
            n == own@.len(),
            n == other@.len(),
            is_permutation(other@),
            start <= position <= end <= n,
            child@.len() == n,
            is_permutation(child@),
            is_inverse(child@, positions@),
            forall|k: int| start <= k < position ==> #[trigger] child@[k] == other@[k],
            forall|p: int|
                0 <= p < n && !(start <= p < end) && !holds_in(other@, start as int, end as int, own@[p])
                    ==> #[trigger] child@[p] == own@[p],
            forall|p: int| 0 <= p < n && (!(start <= p < end) || position <= p)
                ==> pmx_maps(own@, other@, start as int, position as int, own@[p], #[trigger] child@[p]),
        decreases end - position,
    {
        let gene = other[position];
        proof {
            lemma_inverse_permutation(child@, positions@);
        }
        let at = positions[gene];
        let displaced = child[position];
        let ghost before = child@;
        proof {
            assert(before[at as int] == gene);
            assert forall|k: int| start <= k < position implies #[trigger] before[k] != gene by {
                assert(before[k] == other@[k]);
                assert(other@[k] != other@[position as int]);
            }
            lemma_swap_permutation(before, position as int, at as int);
        }
        swap_genes(&mut child, position, at);
        positions.set(gene, position);
        positions.set(displaced, at);
        proof {
            assert forall|i: int| 0 <= i < n implies #[trigger] positions@[child@[i] as int] == i by {
                if i == position {
                } else if i == at {
                } else {
                    assert(before[i] != gene);
                    assert(before[i] != displaced);
                    assert(child@[i] == before[i]);
                }
            }
            assert forall|p: int|
                0 <= p < n && !(start <= p < end) && !holds_in(other@, start as int, end as int, own@[p])
                    implies #[trigger] child@[p] == own@[p] by {
                if p == at {
                    assert(holds_in(other@, start as int, end as int, gene));
                    assert(before[p] == own@[p]);
                }
            }
            lemma_pmx_step(own@, other@, start as int, position as int, end as int, before, child@, at as int);
        }
        position = position + 1;
    }
    child
}

/// `x` reduced once by `n`: the position `x` of a cyclic sequence of length `n`, for `x < 2 n`.
pub open spec fn wrap(x: int, n: int) -> int {
    if x < n { x } else { x - n }
}

proof fn lemma_mod_wrap(x: int, n: int)
    requires
        0 < n,
        0 <= x < 2 * n,
    ensures
        x % n == wrap(x, n),
{
    if x < n {
        vstd::arithmetic::div_mod::lemma_small_mod(x as nat, n as nat);
    } else {
        vstd::arithmetic::div_mod::lemma_small_mod((x - n) as nat, n as nat);
        vstd::arithmetic::div_mod::lemma_mod_sub_multiples_vanish(x, n);
    }
}

/// `s` read from position `shift` on, wrapping around: `s[shift], s[shift + 1], ...`.
pub open spec fn rotated(s: Seq<usize>, shift: int) -> Seq<usize> {
    Seq::new(s.len(), |k: int| s[wrap(shift + k, s.len() as int)])
}

/// The genes of order crossover's child outside the kept segment `start..end` of `own`: the
/// genes of `other` from position `end` on, wrapping around, without those of the segment.
pub open spec fn ox_rest(own: Seq<usize>, other: Seq<usize>, start: int, end: int) -> Seq<usize> {
    rotated(other, end).filter(|g: usize| !holds_in(own, start, end, g))
}

/// `own`'s segment `start..end`, and the other genes in the order of `other`, from `end` on:
/// the child of order crossover. The genes after the segment, wrapping around, are
/// [`ox_rest`].
pub fn ordered(own: &[usize], other: &[usize], start: usize, end: usize) -> (child: Vec<usize>)
    requires
        is_permutation(own@),
        is_permutation(other@),
        own@.len() == other@.len(),
        start <= end <= own@.len(),
        0 < own@.len(),
    ensures
        is_permutation(child@),
        child@.len() == own@.len(),
        forall|k: int| start <= k < end ==> #[trigger] child@[k] == own@[k],
        ox_rest(own@, other@, start as int, end as int).len() == own@.len() - (end - start),
        forall|k: int| 0 <= k < own@.len() - (end - start)
            ==> #[trigger] child@[wrap(end + k, own@.len() as int)] == ox_rest(own@, other@, start as int, end as int)[k],
{
    let len = own.len();
    let ghost n = len as int;
    let ghost pred = |g: usize| !holds_in(own@, start as int, end as int, g);
    let ghost segment = own@.subrange(start as int, end as int);
    let ghost rot = rotated(other@, end as int);
    let mut child: Vec<usize> = Vec::new();
    let mut in_segment: Vec<bool> = Vec::new();
    let mut k: usize = 0;
    while k < len
        invariant
            k <= len,
            child.len() == k,
            in_segment.len() == k,
            forall|g: int| 0 <= g < k ==> !#[trigger] in_segment@[g],
        decreases len - k,
    {
        child.push(0);
        in_segment.push(false);
        k = k + 1;
    }
    let mut position = start;
    while position < end
        invariant
            len == own@.len(),
            is_permutation(own@),
            start <= position <= end <= len,
            child.len() == len,
            in_segment.len() == len,
            forall|k: int| start <= k < position ==> #[trigger] child@[k] == own@[k],
            forall|g: int| 0 <= g < len ==> (#[trigger] in_segment@[g] <==> holds_in(own@, start as int, position as int, g as usize)),
        decreases end - position,
    {
        child.set(position, own[position]);
        in_segment.set(own[position], true);
        proof {
            assert forall|g: int| 0 <= g < len implies (#[trigger] in_segment@[g] <==> holds_in(own@, start as int, position + 1, g as usize)) by {
                if g == own@[position as int] {
                    assert(own@[position as int] == g as usize);
                } else if holds_in(own@, start as int, position + 1, g as usize) {
                    let k = choose|k: int| start <= k < position + 1 && own@[k] == g as usize;
                    assert(k != position);
                }
            }
        }
        position = position + 1;
    }
    let mut position = end % len;
    proof {
        lemma_mod_wrap(end as int, n);
    }
    let ghost mut rest: Seq<usize> = Seq::empty();
    let mut written: usize = 0;
    let mut offset: usize = 0;
    while offset < len
        invariant
            len == own@.len(),
            len == other@.len(),
            n == len,
            0 < len,
            is_permutation(own@),
            is_permutation(other@),
            start <= end <= len,
            segment == own@.subrange(start as int, end as int),
            rot == rotated(other@, end as int),
            pred == (|g: usize| !holds_in(own@, start as int, end as int, g)),
            offset <= len,
            child.len() == len,
            in_segment.len() == len,
            forall|g: int| 0 <= g < len ==> (#[trigger] in_segment@[g] <==> holds_in(own@, start as int, end as int, g as usize)),
            forall|k: int| start <= k < end ==> #[trigger] child@[k] == own@[k],
            rest == rot.take(offset as int).filter(pred),
            written == rest.len(),
            end + written < 2 * n ==> position == wrap(end + written, n),
            position < len,
            (end - start) + written <= len,
            distinct(rest),
            forall|j: int| 0 <= j < rest.len() ==> (#[trigger] rest[j] as int) < len && pred(rest[j]),
            forall|j: int| 0 <= j < rest.len() ==> exists|i: int| 0 <= i < offset && #[trigger] rest[j] == rot[i],
            forall|k: int| 0 <= k < written ==> #[trigger] child@[wrap(end + k, n)] == rest[k],
        decreases len - offset,
    {
        // the position `end + offset`, wrapped around
        let index = if offset < len - end { end + offset } else { offset - (len - end) };
        let gene = other[index];
        proof {
            assert(gene == rot[offset as int]);
            rot.take(offset as int).lemma_filter_push(gene, pred);
            assert(rot.take(offset + 1) =~= rot.take(offset as int).push(gene));
        }
        if !in_segment[gene] {
            proof {
                assert(pred(gene));
                // the segment and the genes written so far, with this one, are distinct genes
                let all = segment + rest.push(gene);
                assert forall|j: int| 0 <= j < all.len() implies (#[trigger] all[j] as int) < len by {
                    if j < segment.len() {
                        assert(all[j] == own@[start + j]);
                    } else if j < segment.len() + rest.len() {
                        assert(all[j] == rest[j - segment.len()]);
                    }
                }
                assert forall|a: int, b: int| 0 <= a < b < all.len() implies #[trigger] all[a] != #[trigger] all[b] by {
                    if b < segment.len() {
                        assert(all[a] == own@[start + a]);
                        assert(all[b] == own@[start + b]);
                    } else if a < segment.len() {
                        assert(all[a] == own@[start + a]);
                        assert(holds_in(own@, start as int, end as int, all[a]));
                        if b < segment.len() + rest.len() {
                            assert(all[b] == rest[b - segment.len()]);
                            assert(pred(rest[b - segment.len()]));
                        }
                    } else if b < segment.len() + rest.len() {
                        assert(all[a] == rest[a - segment.len()]);
                        assert(all[b] == rest[b - segment.len()]);
                    } else {
                        assert(all[a] == rest[a - segment.len()]);
                        let i = choose|i: int| 0 <= i < offset && #[trigger] rest[a - segment.len()] == rot[i];
                        assert(rot[i] == other@[wrap(end + i, n)]);
                        assert(other@[wrap(end + i, n)] != other@[wrap(end + offset, n)]);
                    }
                }
                lemma_distinct_below_len(all, n);
                lemma_mod_wrap(end + written, n);
            }
            child.set(position, gene);
            proof {
                assert(position as int == wrap(end + written, n));
                assert(!(start <= position < end));
                let old_rest = rest;
                rest = rest.push(gene);
                assert forall|a: int, b: int| 0 <= a < b < rest.len() implies #[trigger] rest[a] != #[trigger] rest[b] by {
                    if b == old_rest.len() {
                        let i = choose|i: int| 0 <= i < offset && #[trigger] old_rest[a] == rot[i];
                        assert(rot[i] == other@[wrap(end + i, n)]);
                        assert(other@[wrap(end + i, n)] != other@[wrap(end + offset, n)]);
                    } else {
                        assert(rest[a] == old_rest[a]);
                        assert(rest[b] == old_rest[b]);
                    }
                }
                assert forall|j: int| 0 <= j < rest.len() implies exists|i: int| 0 <= i < offset + 1 && #[trigger] rest[j] == rot[i] by {
                    if j == old_rest.len() {
                        assert(rest[j] == rot[offset as int]);
                    } else {
                        assert(rest[j] == old_rest[j]);
                        let i = choose|i: int| 0 <= i < offset && #[trigger] old_rest[j] == rot[i];
                        assert(rest[j] == rot[i]);
                    }
                }
                assert forall|k: int| 0 <= k < written + 1 implies #[trigger] child@[wrap(end + k, n)] == rest[k] by {
                    if k < written {
                        assert(wrap(end + k, n) != position);
                        assert(rest[k] == old_rest[k]);
                    }
                }
                lemma_mod_wrap(position + 1, n);
            }
            position = (position + 1) % len;
            written = written + 1;
        } else {
            proof {
                assert(!pred(gene));
            }
        }
        offset = offset + 1;
    }
    proof {
        assert(rot.take(len as int) =~= rot);
        // every gene is in the segment or written
        let all = segment + rest;
        assert forall|v: int| 0 <= v < n implies #[trigger] holds_value(all, v) by {
            lemma_permutation_covers(other@, v);
            let p = choose|p: int| 0 <= p < other@.len() && other@[p] == v;
            let i = if p >= end { p - end } else { p + n - end };
            assert(rot[i] == other@[p]);
            if holds_in(own@, start as int, end as int, v as usize) {
                let k = choose|k: int| start <= k < end && own@[k] == v as usize;
                assert(all[k - start] == v);
            } else {
                assert(pred(rot[i]));
                rot.lemma_filter_contains(pred, i);
                let j = choose|j: int| 0 <= j < rest.len() && rest[j] == rot[i];
                assert(all[segment.len() + j] == v);
            }
        }
        lemma_covering_len(all, n);
        assert(written == len - (end - start));
        // the child is a permutation
        assert forall|p: int| 0 <= p < n && !(start <= p < end) implies #[trigger] child@[p] == rest[if p >= end { p - end } else { p + n - end }] by {
            let k = if p >= end { p - end } else { p + n - end };
            assert(wrap(end + k, n) == p);
        }
        assert forall|i: int| 0 <= i < child@.len() implies (#[trigger] child@[i] as int) < child@.len() by {
            if !(start <= i < end) {
                let k = if i >= end { i - end } else { i + n - end };
                assert(child@[i] == rest[k]);
            }
        }
        assert forall|a: int, b: int| 0 <= a < b < child@.len() implies #[trigger] child@[a] != #[trigger] child@[b] by {
            let ka = if a >= end { a - end } else { a + n - end };
            let kb = if b >= end { b - end } else { b + n - end };
            if start <= a < end && start <= b < end {
            } else if start <= a < end {
                assert(child@[b] == rest[kb]);
                assert(pred(rest[kb]));
                assert(holds_in(own@, start as int, end as int, own@[a]));
            } else if start <= b < end {
                assert(child@[a] == rest[ka]);
                assert(pred(rest[ka]));
                assert(holds_in(own@, start as int, end as int, own@[b]));
            } else {
                assert(child@[a] == rest[ka]);
                assert(child@[b] == rest[kb]);
                assert(ka != kb);
            }
        }
    }
    child
}

/// A random segment `start..end` of at least `min_len` genes that isn't the whole genome, for
/// genomes of at least `min_len + 1` genes: two distinct cuts in `0..=len`, drawn again until the
/// segment between them fits.
pub fn segment(len: usize, min_len: usize, rng: &mut StreamRng) -> (r: (usize, usize))
    requires
        len > min_len,
        len < usize::MAX,
    ensures
        r.0 + min_len <= r.1,
        r.1 - r.0 < len,
        r.1 <= len,
        (r.0, r.1, final(rng)@) == segment_from(old(rng)@, len as nat, min_len as nat, MAX_REJECTIONS as nat),
{
    let ghost target = segment_from(rng@, len as nat, min_len as nat, MAX_REJECTIONS as nat);
    let mut draws: u64 = 0;
    while draws < MAX_REJECTIONS
        invariant
            len > min_len,
            len < usize::MAX,
            draws <= MAX_REJECTIONS,
            target == segment_from(old(rng)@, len as nat, min_len as nat, MAX_REJECTIONS as nat),
            target == segment_from(rng@, len as nat, min_len as nat, (MAX_REJECTIONS - draws) as nat),
        decreases MAX_REJECTIONS - draws,
    {
        let ghost before = rng@;
        let (start, end) = draw_cuts(len, rng);
        if end - start >= min_len && end - start < len {
            proof {
                let remaining = (MAX_REJECTIONS - draws) as nat;
                assert(remaining != 0);
                assert(target == segment_from(before, len as nat, min_len as nat, remaining));
                assert(segment_from(before, len as nat, min_len as nat, remaining) == two_cuts(before, (len + 1) as nat));
                assert(two_cuts(before, (len + 1) as nat) == (start, end, rng@));
            }
            return (start, end);
        }
        draws = draws + 1;
    }
    (0, min_len)
}

/// Two distinct cuts in `0..=len`, ascending ([`two_cuts`]).
fn draw_cuts(len: usize, rng: &mut StreamRng) -> (r: (usize, usize))
    requires
        1 <= len < usize::MAX,
    ensures
        (r.0, r.1, final(rng)@) == two_cuts(old(rng)@, (len + 1) as nat),
        r.0 < r.1 <= len,
{
    let cuts = rng.sample_distinct(2, len + 1);
    proof {
        lemma_two_cuts(old(rng)@, (len + 1) as nat, cuts@);
    }
    (cuts[0], cuts[1])
}

/// The segment that [`segment`] draws from a generator in state `state`, and the state it
/// leaves: the first [`two_cuts`] in `0..=len` that are at least `min_len` and less than `len`
/// apart, or `0..min_len` once `remaining` draws have failed.
pub open spec fn segment_from(state: RngState, len: nat, min_len: nat, remaining: nat) -> (usize, usize, RngState)
    decreases remaining,
{
    if remaining == 0 {
        (0, min_len as usize, state)
    } else {
        let c = two_cuts(state, len + 1);
        if c.1 - c.0 >= min_len && c.1 - c.0 < len {
            c
        } else {
            segment_from(c.2, len, min_len, (remaining - 1) as nat)
        }
    }
}

/// Whether `child` is a partially mapped child of `own` and `other` with the segment
/// `start..end`: a permutation of the same length with the other's segment in place, whose
/// genes outside the segment stay where they were in `own` unless the other's segment holds
/// them.
pub open spec fn is_pmx_child(own: Seq<usize>, other: Seq<usize>, child: Seq<usize>, start: int, end: int) -> bool {
    &&& is_permutation(child)
    &&& child.len() == own.len()
    &&& forall|k: int| start <= k < end ==> #[trigger] child[k] == other[k]
    &&& forall|p: int|
        0 <= p < own.len() && !(start <= p < end) && !holds_in(other, start, end, own[p])
            ==> #[trigger] child[p] == own[p]
}

/// Whether `child` is an order crossover child of `own` and `other` with the segment
/// `start..end`: a permutation of the same length with its own segment in place, followed
/// (wrapping around) by the other genes in the order of `other` from `end` on.
pub open spec fn is_ox_child(own: Seq<usize>, other: Seq<usize>, child: Seq<usize>, start: int, end: int) -> bool {
    &&& is_permutation(child)
    &&& child.len() == own.len()
    &&& forall|k: int| start <= k < end ==> #[trigger] child[k] == own[k]
    &&& forall|k: int| 0 <= k < own.len() - (end - start)
        ==> #[trigger] child[wrap(end + k, own.len() as int)] == ox_rest(own, other, start, end)[k]
}

/// Whether `start..end` is a segment of at least one gene that isn't the whole genome of `len`
/// genes.
pub open spec fn is_proper_segment(len: int, start: int, end: int) -> bool {
    0 <= start < end <= len && end - start < len
}

/// Partially mapped crossover (PMX) for permutation genomes.
///
/// Each child takes a random segment from the other parent, at the same positions. The rest comes
/// from its own parent, where a gene that is now duplicated is replaced through the mapping
/// between the two segments. The segment is never the whole genome.
#[derive(Clone, Copy, Debug, Default, PartialEq, Eq)]
pub struct PartiallyMappedCrossover;

impl PartiallyMappedCrossover {
    /// Recombines `a` and `b`, which become the two children. Genomes of fewer than two genes
    /// stay as they are.
    pub fn crossover(&self, _permutation: &Permutation, a: &mut Order, b: &mut Order, rng: &mut StreamRng)
        requires
            old(a)@.len() == old(b)@.len(),
            old(a)@.len() < usize::MAX,
        ensures
            old(a)@.len() < 2 ==> final(a)@ == old(a)@ && final(b)@ == old(b)@ && final(rng)@ == old(rng)@,
            old(a)@.len() >= 2 ==> {
                let s = segment_from(old(rng)@, old(a)@.len(), 1, MAX_REJECTIONS as nat);
                &&& is_proper_segment(old(a)@.len() as int, s.0 as int, s.1 as int)
                &&& is_pmx_child(old(a)@, old(b)@, final(a)@, s.0 as int, s.1 as int)
                &&& is_pmx_child(old(b)@, old(a)@, final(b)@, s.0 as int, s.1 as int)
                &&& final(rng)@ == s.2
            },
    {
        proof {
            use_type_invariant(&*a);
            use_type_invariant(&*b);
            Order::lemma_valid(*a);
            Order::lemma_valid(*b);
        }
        if a.len() < 2 {
            return;
        }
        let (start, end) = segment(a.len(), 1, rng);
        let first = partially_mapped(a.as_slice(), b.as_slice(), start, end);
        let second = partially_mapped(b.as_slice(), a.as_slice(), start, end);
        proof {
            assert(is_pmx_child(a@, b@, first@, start as int, end as int));
            assert(is_pmx_child(b@, a@, second@, start as int, end as int));
        }
        *a = Order::from_permutation(first);
        *b = Order::from_permutation(second);
        proof {
            assert(is_proper_segment(old(a)@.len() as int, start as int, end as int));
            assert(is_pmx_child(old(a)@, old(b)@, a@, start as int, end as int));
            assert(is_pmx_child(old(b)@, old(a)@, b@, start as int, end as int));
        }
    }
}

/// Order crossover (OX1) for permutation genomes.
///
/// Each child keeps a random segment of its own parent in place. The other genes follow in the
/// order they have in the other parent, starting after the segment and wrapping around. The
/// segment is never the whole genome.
#[derive(Clone, Copy, Debug, Default, PartialEq, Eq)]
pub struct OrderCrossover;

impl OrderCrossover {
    /// Recombines `a` and `b`, which become the two children. Genomes of fewer than two genes
    /// stay as they are.
    pub fn crossover(&self, _permutation: &Permutation, a: &mut Order, b: &mut Order, rng: &mut StreamRng)
        requires
            old(a)@.len() == old(b)@.len(),
            old(a)@.len() < usize::MAX,
        ensures
            old(a)@.len() < 2 ==> final(a)@ == old(a)@ && final(b)@ == old(b)@ && final(rng)@ == old(rng)@,
            old(a)@.len() >= 2 ==> {
                let s = segment_from(old(rng)@, old(a)@.len(), 1, MAX_REJECTIONS as nat);
                &&& is_proper_segment(old(a)@.len() as int, s.0 as int, s.1 as int)
                &&& is_ox_child(old(a)@, old(b)@, final(a)@, s.0 as int, s.1 as int)
                &&& is_ox_child(old(b)@, old(a)@, final(b)@, s.0 as int, s.1 as int)
                &&& final(rng)@ == s.2
            },
    {
        proof {
            use_type_invariant(&*a);
            use_type_invariant(&*b);
            Order::lemma_valid(*a);
            Order::lemma_valid(*b);
        }
        if a.len() < 2 {
            return;
        }
        let (start, end) = segment(a.len(), 1, rng);
        let first = ordered(a.as_slice(), b.as_slice(), start, end);
        let second = ordered(b.as_slice(), a.as_slice(), start, end);
        proof {
            assert(is_ox_child(a@, b@, first@, start as int, end as int));
            assert(is_ox_child(b@, a@, second@, start as int, end as int));
        }
        *a = Order::from_permutation(first);
        *b = Order::from_permutation(second);
        proof {
            assert(is_proper_segment(old(a)@.len() as int, start as int, end as int));
            assert(is_ox_child(old(a)@, old(b)@, a@, start as int, end as int));
            assert(is_ox_child(old(b)@, old(a)@, b@, start as int, end as int));
        }
    }
}

/// The next position of a cycle of cycle crossover: where the gene of `b` at `p` sits in `a`.
pub open spec fn cycle_next(positions_in_a: Seq<usize>, b: Seq<usize>, p: int) -> int {
    positions_in_a[b[p] as int] as int
}

/// Whether `taken` is a union of cycles: closed under stepping forward and backward along the
/// cycles of `a` and `b`.
pub open spec fn is_union_of_cycles(taken: Seq<bool>, positions_in_a: Seq<usize>, a: Seq<usize>, b: Seq<usize>) -> bool {
    &&& forall|p: int| 0 <= p < taken.len() && #[trigger] taken[p] ==> taken[cycle_next(positions_in_a, b, p)]
    &&& forall|p: int, q: int| 0 <= p < taken.len() && 0 <= q < taken.len() && #[trigger] taken[q] && #[trigger] b[p] == a[q] ==> taken[p]
}

/// A walk along a cycle from an unvisited position that stops at a visited position has come
/// back to its start: it is a whole cycle, closed under stepping forward and backward.
proof fn lemma_walk_is_cycle(pa: Seq<usize>, a: Seq<usize>, b: Seq<usize>, walk: Seq<usize>, position: int, old_visited: Seq<bool>)
    requires
        is_permutation(a),
        is_permutation(b),
        a.len() == b.len(),
        a.len() <= usize::MAX,
        is_inverse(a, pa),
        is_permutation(pa),
        forall|g: int| 0 <= g < a.len() ==> #[trigger] a[pa[g] as int] == g,
        old_visited.len() == a.len(),
        is_union_of_cycles(old_visited, pa, a, b),
        distinct(walk),
        walk.len() > 0,
        forall|i: int| 0 <= i < walk.len() ==> (#[trigger] walk[i] as int) < a.len() && !old_visited[walk[i] as int],
        forall|i: int| 0 <= i < walk.len() - 1 ==> #[trigger] walk[i + 1] == cycle_next(pa, b, walk[i] as int),
        position == cycle_next(pa, b, walk.last() as int),
        old_visited[position] || walk.contains(position as usize),
    ensures
        position == walk[0],
        forall|p: int| 0 <= p < a.len() && walk.contains(p as usize) ==> walk.contains(cycle_next(pa, b, p) as usize),
        forall|p: int, i: int| 0 <= p < a.len() && 0 <= i < walk.len() && #[trigger] b[p] == #[trigger] a[walk[i] as int] ==> walk.contains(p as usize),
{
    let n = a.len() as int;
    let last = walk.last() as int;
    assert(0 <= last < n);
    assert(a[position] == b[last]);
    if old_visited[position] {
        assert(old_visited[last]);
        assert(walk[walk.len() - 1] as int == last);
    }
    let j = choose|j: int| 0 <= j < walk.len() && walk[j] == position;
    if j > 0 {
        let i = j - 1;
        assert(walk[i + 1] == cycle_next(pa, b, walk[i] as int));
        assert(b[walk[i] as int] == b[last]);
        assert(walk[i] as int == last);
        assert(walk[i] == walk[walk.len() - 1]);
    }
    assert forall|p: int, i: int| 0 <= p < n && 0 <= i < walk.len() && #[trigger] b[p] == #[trigger] a[walk[i] as int]
        implies walk.contains(p as usize) by {
        assert(cycle_next(pa, b, p) == walk[i]);
        if i > 0 {
            let h = i - 1;
            assert(walk[h + 1] == cycle_next(pa, b, walk[h] as int));
            assert(b[walk[h] as int] == b[p]);
            assert(walk[h] == p);
        } else {
            assert(b[last] == b[p]);
            assert(walk[walk.len() - 1] == p);
        }
    }
    assert forall|p: int| 0 <= p < n && walk.contains(p as usize) implies walk.contains(cycle_next(pa, b, p) as usize) by {
        let i = choose|i: int| 0 <= i < walk.len() && walk[i] == p as usize;
        if i < walk.len() - 1 {
            assert(walk[i + 1] == cycle_next(pa, b, p));
        } else {
            assert(walk[0] == cycle_next(pa, b, p));
        }
    }
}

/// The next position of `p`'s cycle of cycle crossover: where the gene of `b` at `p` sits in `a`.
pub open spec fn cycle_step(a: Seq<usize>, b: Seq<usize>, p: int) -> int {
    choose|q: int| 0 <= q < a.len() && a[q] == b[p]
}

/// The position `k` steps along the cycle from `p`.
pub open spec fn cycle_walk(a: Seq<usize>, b: Seq<usize>, p: int, k: nat) -> int
    decreases k,
{
    if k == 0 { p } else { cycle_step(a, b, cycle_walk(a, b, p, (k - 1) as nat)) }
}

/// Whether `q` is the first position of its cycle: no step along the cycle leads before it.
pub open spec fn opens_cycle(a: Seq<usize>, b: Seq<usize>, q: int) -> bool {
    forall|k: nat| #[trigger] cycle_walk(a, b, q, k) >= q
}

/// The number of cycles whose first position is before `q`.
pub open spec fn cycles_before(a: Seq<usize>, b: Seq<usize>, q: int) -> nat
    decreases q,
{
    if q <= 0 {
        0
    } else {
        cycles_before(a, b, q - 1) + if opens_cycle(a, b, q - 1) { 1nat } else { 0nat }
    }
}

/// Whether `from_b` marks the positions where the children of cycle crossover take the gene of
/// the other parent: the same for a whole cycle, and alternating from cycle to cycle in the order
/// of their first positions, the first cycle kept.
pub open spec fn is_cx_choice(a: Seq<usize>, b: Seq<usize>, from_b: Seq<bool>) -> bool {
    &&& from_b.len() == a.len()
    &&& forall|p: int, q: int| 0 <= p < a.len() && 0 <= q < a.len() && #[trigger] b[p] == #[trigger] a[q]
        ==> from_b[p] == from_b[q]
    &&& forall|q: int| 0 <= q < a.len() && #[trigger] opens_cycle(a, b, q)
        ==> from_b[q] == (cycles_before(a, b, q) % 2 == 1)
}

// whether a step along the cycle from `p` leads before `bound`
spec fn reaches_below(a: Seq<usize>, b: Seq<usize>, p: int, bound: int) -> bool {
    exists|k: nat| #[trigger] cycle_walk(a, b, p, k) < bound
}

// the spec step is the step through the positions of the genes of `a`
proof fn lemma_cycle_step(a: Seq<usize>, b: Seq<usize>, pa: Seq<usize>, p: int)
    requires
        is_permutation(a),
        is_permutation(b),
        a.len() == b.len(),
        is_inverse(a, pa),
        is_permutation(pa),
        forall|g: int| 0 <= g < a.len() ==> #[trigger] a[pa[g] as int] == g,
        0 <= p < a.len(),
    ensures
        cycle_step(a, b, p) == cycle_next(pa, b, p),
        0 <= cycle_next(pa, b, p) < a.len(),
{
    let g = b[p] as int;
    assert(a[pa[g] as int] == g);
    let q = cycle_step(a, b, p);
    assert(0 <= q < a.len() && a[q] == b[p]);
    if q != pa[g] as int {
        if q < pa[g] as int {
            assert(a[q] != a[pa[g] as int]);
        } else {
            assert(a[pa[g] as int] != a[q]);
        }
    }
}

// the walk stays among the positions, a step at a time
proof fn lemma_cycle_walk_range(a: Seq<usize>, b: Seq<usize>, pa: Seq<usize>, p: int, k: nat)
    requires
        is_permutation(a),
        is_permutation(b),
        a.len() == b.len(),
        is_inverse(a, pa),
        is_permutation(pa),
        forall|g: int| 0 <= g < a.len() ==> #[trigger] a[pa[g] as int] == g,
        0 <= p < a.len(),
    ensures
        0 <= cycle_walk(a, b, p, k) < a.len(),
        cycle_walk(a, b, p, k + 1) == cycle_next(pa, b, cycle_walk(a, b, p, k)),
    decreases k,
{
    if k > 0 {
        lemma_cycle_walk_range(a, b, pa, p, (k - 1) as nat);
    }
    lemma_cycle_step(a, b, pa, cycle_walk(a, b, p, k));
    assert(cycle_walk(a, b, p, k + 1) == cycle_step(a, b, cycle_walk(a, b, p, k)));
}

// `i` steps and then `j` steps are `i + j` steps
proof fn lemma_cycle_walk_add(a: Seq<usize>, b: Seq<usize>, p: int, i: nat, j: nat)
    ensures
        cycle_walk(a, b, cycle_walk(a, b, p, i), j) == cycle_walk(a, b, p, i + j),
    decreases j,
{
    if j > 0 {
        lemma_cycle_walk_add(a, b, p, i, (j - 1) as nat);
        assert(cycle_walk(a, b, p, i + j) == cycle_step(a, b, cycle_walk(a, b, p, (i + j - 1) as nat)));
    }
}

// a union of cycles that holds a position reached from `p` holds `p`
proof fn lemma_visited_backward(a: Seq<usize>, b: Seq<usize>, pa: Seq<usize>, visited: Seq<bool>, p: int, k: nat)
    requires
        is_permutation(a),
        is_permutation(b),
        a.len() == b.len(),
        is_inverse(a, pa),
        is_permutation(pa),
        forall|g: int| 0 <= g < a.len() ==> #[trigger] a[pa[g] as int] == g,
        visited.len() == a.len(),
        is_union_of_cycles(visited, pa, a, b),
        0 <= p < a.len(),
        visited[cycle_walk(a, b, p, k)],
    ensures
        visited[p],
    decreases k,
{
    if k > 0 {
        let r = cycle_walk(a, b, p, (k - 1) as nat);
        lemma_cycle_walk_range(a, b, pa, p, (k - 1) as nat);
        let q = cycle_walk(a, b, p, k);
        assert(q == cycle_next(pa, b, r));
        assert(a[q] == b[r]);
        assert(visited[r]);
        lemma_visited_backward(a, b, pa, visited, p, (k - 1) as nat);
    }
}

// the positions of a walk are the steps along the cycle from its start
proof fn lemma_walk_steps(a: Seq<usize>, b: Seq<usize>, pa: Seq<usize>, walk: Seq<usize>, m: int)
    requires
        is_permutation(a),
        is_permutation(b),
        a.len() == b.len(),
        is_inverse(a, pa),
        is_permutation(pa),
        forall|g: int| 0 <= g < a.len() ==> #[trigger] a[pa[g] as int] == g,
        0 <= m < walk.len(),
        forall|i: int| 0 <= i < walk.len() ==> (#[trigger] walk[i] as int) < a.len(),
        forall|i: int| 0 <= i < walk.len() - 1 ==> #[trigger] walk[i + 1] == cycle_next(pa, b, walk[i] as int),
    ensures
        walk[m] as int == cycle_walk(a, b, walk[0] as int, m as nat),
    decreases m,
{
    if m > 0 {
        lemma_walk_steps(a, b, pa, walk, m - 1);
        lemma_cycle_walk_range(a, b, pa, walk[0] as int, (m - 1) as nat);
        assert(walk[(m - 1) + 1] == cycle_next(pa, b, walk[m - 1] as int));
    }
}

// what the choice of cycles is before `start`: the positions before it visited, every visited
// position on a cycle through a position before it, and the cycles opening before it alternated
spec fn cx_state(a: Seq<usize>, b: Seq<usize>, visited: Seq<bool>, from_b: Seq<bool>, odd: bool, start: int) -> bool {
    &&& forall|p: int| 0 <= p < start ==> #[trigger] visited[p]
    &&& forall|p: int| 0 <= p < a.len() && #[trigger] visited[p] ==> reaches_below(a, b, p, start)
    &&& odd == (cycles_before(a, b, start) % 2 == 1)
    &&& forall|q: int| 0 <= q < start && #[trigger] opens_cycle(a, b, q) ==> from_b[q] == (cycles_before(a, b, q) % 2 == 1)
}

// walking the cycle of an unvisited `start` takes a cycle that opens at `start`
#[verifier::spinoff_prover]
#[verifier::rlimit(40)]
proof fn lemma_cx_cycle_done(
    a: Seq<usize>, b: Seq<usize>, pa: Seq<usize>, start: int, walk: Seq<usize>,
    old_visited: Seq<bool>, visited: Seq<bool>, old_from_b: Seq<bool>, from_b: Seq<bool>, odd: bool,
)
    requires
        is_permutation(a),
        is_permutation(b),
        a.len() == b.len(),
        is_inverse(a, pa),
        is_permutation(pa),
        forall|g: int| 0 <= g < a.len() ==> #[trigger] a[pa[g] as int] == g,
        0 <= start < a.len(),
        a.len() <= usize::MAX,
        old_visited.len() == a.len(),
        visited.len() == a.len(),
        from_b.len() == a.len(),
        !old_visited[start],
        is_union_of_cycles(old_visited, pa, a, b),
        cx_state(a, b, old_visited, old_from_b, odd, start),
        walk.len() > 0,
        walk[0] == start,
        forall|i: int| 0 <= i < walk.len() ==> (#[trigger] walk[i] as int) < a.len() && !old_visited[walk[i] as int],
        forall|i: int| 0 <= i < walk.len() - 1 ==> #[trigger] walk[i + 1] == cycle_next(pa, b, walk[i] as int),
        cycle_next(pa, b, walk.last() as int) == start,
        forall|p: int| 0 <= p < a.len() ==> (#[trigger] visited[p] <==> (old_visited[p] || walk.contains(p as usize))),
        forall|p: int| 0 <= p < a.len() ==> #[trigger] from_b[p] == (if walk.contains(p as usize) { odd } else { old_from_b[p] }),
    ensures
        cx_state(a, b, visited, from_b, !odd, start + 1),
{
    let n = a.len() as int;
    let len = walk.len() as int;
    assert(walk.contains(start as usize)) by {
        assert(walk[0] == start);
    }
    // the walk comes back to its start
    lemma_walk_steps(a, b, pa, walk, len - 1);
    lemma_cycle_walk_range(a, b, pa, start, (len - 1) as nat);
    assert(cycle_walk(a, b, start, len as nat) == start);
    // `start` opens its cycle: an earlier position would have been visited, and with it `start`
    assert forall|k: nat| #[trigger] cycle_walk(a, b, start, k) >= start by {
        lemma_cycle_walk_range(a, b, pa, start, k);
        if cycle_walk(a, b, start, k) < start {
            assert(old_visited[cycle_walk(a, b, start, k)]);
            lemma_visited_backward(a, b, pa, old_visited, start, k);
        }
    }
    assert(opens_cycle(a, b, start));
    assert(cycles_before(a, b, start + 1) == cycles_before(a, b, start) + 1);
    assert forall|p: int| 0 <= p < start + 1 implies #[trigger] visited[p] by {
        if p < start {
            assert(old_visited[p]);
        }
    }
    assert forall|p: int| 0 <= p < n && #[trigger] visited[p] implies reaches_below(a, b, p, start + 1) by {
        if old_visited[p] {
            let k = choose|k: nat| #[trigger] cycle_walk(a, b, p, k) < start;
            assert(cycle_walk(a, b, p, k) < start + 1);
        } else {
            let i = choose|i: int| 0 <= i < len && walk[i] == p as usize;
            lemma_walk_steps(a, b, pa, walk, i);
            lemma_cycle_walk_add(a, b, start, i as nat, (len - i) as nat);
            assert(walk[i] as int == p);
            assert(cycle_walk(a, b, start, i as nat) == p);
            assert((i as nat) + ((len - i) as nat) == len as nat);
            assert(cycle_walk(a, b, p, (len - i) as nat) == start);
            assert(cycle_walk(a, b, p, (len - i) as nat) < start + 1);
        }
    }
    assert forall|q: int| 0 <= q < start + 1 && #[trigger] opens_cycle(a, b, q)
        implies from_b[q] == (cycles_before(a, b, q) % 2 == 1) by {
        if q < start {
            assert(old_visited[q]);
            if walk.contains(q as usize) {
                let i = choose|i: int| 0 <= i < len && walk[i] == q as usize;
            }
            assert(from_b[q] == old_from_b[q]);
        } else {
            assert(from_b[start] == odd);
        }
    }
}

// a visited `start` doesn't open a cycle, and the state moves past it
#[verifier::spinoff_prover]
#[verifier::rlimit(40)]
proof fn lemma_cx_skip(a: Seq<usize>, b: Seq<usize>, visited: Seq<bool>, from_b: Seq<bool>, odd: bool, start: int)
    requires
        0 <= start < a.len(),
        visited.len() == a.len(),
        visited[start],
        cx_state(a, b, visited, from_b, odd, start),
    ensures
        cx_state(a, b, visited, from_b, odd, start + 1),
{
    let k = choose|k: nat| #[trigger] cycle_walk(a, b, start, k) < start;
    assert(!opens_cycle(a, b, start));
    assert(cycles_before(a, b, start + 1) == cycles_before(a, b, start));
    assert forall|p: int| 0 <= p < a.len() && #[trigger] visited[p] implies reaches_below(a, b, p, start + 1) by {
        let k = choose|k: nat| #[trigger] cycle_walk(a, b, p, k) < start;
        assert(cycle_walk(a, b, p, k) < start + 1);
    }
}

// after every position, the positions taken from the other parent are the choice of cycle
// crossover
proof fn lemma_cx_choice(a: Seq<usize>, b: Seq<usize>, pa: Seq<usize>, visited: Seq<bool>, from_b: Seq<bool>, odd: bool)
    requires
        is_permutation(a),
        is_permutation(b),
        a.len() == b.len(),
        is_inverse(a, pa),
        is_permutation(pa),
        forall|g: int| 0 <= g < a.len() ==> #[trigger] a[pa[g] as int] == g,
        from_b.len() == a.len(),
        is_union_of_cycles(from_b, pa, a, b),
        cx_state(a, b, visited, from_b, odd, a.len() as int),
    ensures
        is_cx_choice(a, b, from_b),
{
    assert forall|p: int, q: int| 0 <= p < a.len() && 0 <= q < a.len() && #[trigger] b[p] == #[trigger] a[q]
        implies from_b[p] == from_b[q] by {
        if from_b[p] {
            assert(pa[a[q] as int] == q);
            assert(cycle_next(pa, b, p) == q);
        }
    }
}

/// Cycle crossover (CX) for permutation genomes.
///
/// The positions split into cycles: following a gene of one parent to its position in the other
/// parent leads back to the start. The children take the cycles alternately from each parent, so
/// every gene keeps the position it has in one of the parents. It's deterministic, and when the
/// parents form a single cycle, the children are copies of the parents.
#[derive(Clone, Copy, Debug, Default, PartialEq, Eq)]
pub struct CycleCrossover;

impl CycleCrossover {
    /// Recombines `a` and `b`, which become the two children.
    #[verifier::rlimit(40)]
    pub fn crossover(&self, _permutation: &Permutation, a: &mut Order, b: &mut Order, _rng: &mut StreamRng)
        requires
            old(a)@.len() == old(b)@.len(),
        ensures
            final(a)@.len() == old(a)@.len(),
            final(b)@.len() == old(b)@.len(),
            forall|p: int| 0 <= p < old(a)@.len() ==>
                (#[trigger] final(a)@[p] == old(a)@[p] && final(b)@[p] == old(b)@[p])
                || (final(a)@[p] == old(b)@[p] && final(b)@[p] == old(a)@[p]),
            old(a)@.len() > 0 ==> final(a)@[0] == old(a)@[0] && final(b)@[0] == old(b)@[0],
            exists|from_b: Seq<bool>| is_cx_choice(old(a)@, old(b)@, from_b)
                && forall|p: int| 0 <= p < old(a)@.len() ==>
                    #[trigger] final(a)@[p] == (if from_b[p] { old(b)@[p] } else { old(a)@[p] })
                    && final(b)@[p] == (if from_b[p] { old(a)@[p] } else { old(b)@[p] }),
    {
        proof {
            use_type_invariant(&*a);
            use_type_invariant(&*b);
            Order::lemma_valid(*a);
            Order::lemma_valid(*b);
        }
        let aa = a.to_vec();
        let bb = b.to_vec();
        let n = aa.len();
        let mut first = copy_of(aa.as_slice());
        let mut second = copy_of(bb.as_slice());
        let positions_in_a = positions(aa.as_slice());
        let ghost pa = positions_in_a@;
        let mut visited: Vec<bool> = Vec::new();
        let mut k: usize = 0;
        while k < n
            invariant
                k <= n,
                visited.len() == k,
                forall|p: int| 0 <= p < k ==> !#[trigger] visited@[p],
            decreases n - k,
        {
            visited.push(false);
            k = k + 1;
        }
        proof {
            lemma_inverse_permutation(aa@, pa);
        }
        let ghost mut from_b: Seq<bool> = Seq::new(n as nat, |p: int| false);
        let mut odd = false;
        let mut start: usize = 0;
        while start < n
            invariant
                n == aa@.len(),
                n == bb@.len(),
                is_permutation(aa@),
                is_permutation(bb@),
                is_inverse(aa@, pa),
                is_permutation(pa),
                pa == positions_in_a@,
                forall|g: int| 0 <= g < n ==> #[trigger] aa@[pa[g] as int] == g,
                start <= n,
                visited.len() == n,
                first.len() == n,
                second.len() == n,
                from_b.len() == n,
                forall|p: int| 0 <= p < n ==> (#[trigger] from_b[p] ==> first@[p] == bb@[p] && second@[p] == aa@[p]),
                forall|p: int| 0 <= p < n ==> (!#[trigger] from_b[p] ==> first@[p] == aa@[p] && second@[p] == bb@[p]),
                forall|p: int| 0 <= p < n && #[trigger] from_b[p] ==> visited@[p],
                is_union_of_cycles(visited@, pa, aa@, bb@),
                is_union_of_cycles(from_b, pa, aa@, bb@),
                start > 0 ==> visited@[0] && !from_b[0],
                start == 0 ==> !odd && (n > 0 ==> !visited@[0]),
                cx_state(aa@, bb@, visited@, from_b, odd, start as int),
            decreases n - start,
        {
            if !visited[start] {
                let mut position = start;
                let ghost old_visited = visited@;
                let ghost old_from_b = from_b;
                let ghost old_odd = odd;
                proof {
                    assert(cx_state(aa@, bb@, old_visited, old_from_b, old_odd, start as int));
                }
                let ghost mut walk: Seq<usize> = Seq::empty();
                while !visited[position]
                    invariant
                        n == aa@.len(),
                        n == bb@.len(),
                        is_permutation(aa@),
                        is_permutation(bb@),
                        is_inverse(aa@, pa),
                        is_permutation(pa),
                        pa == positions_in_a@,
                        forall|g: int| 0 <= g < n ==> #[trigger] aa@[pa[g] as int] == g,
                        start < n,
                        position < n,
                        visited.len() == n,
                        first.len() == n,
                        second.len() == n,
                        from_b.len() == n,
                        old_visited.len() == n,
                        old_from_b.len() == n,
                        !old_visited[start as int],
                        is_union_of_cycles(old_visited, pa, aa@, bb@),
                        is_union_of_cycles(old_from_b, pa, aa@, bb@),
                        forall|p: int| 0 <= p < n && #[trigger] old_from_b[p] ==> old_visited[p],
                        start > 0 ==> old_visited[0] && !old_from_b[0],
                        start == 0 ==> !odd,
                        distinct(walk),
                        forall|i: int| 0 <= i < walk.len() ==> (#[trigger] walk[i] as int) < n && !old_visited[walk[i] as int],
                        walk.len() == 0 ==> position == start,
                        walk.len() > 0 ==> walk[0] == start && position == cycle_next(pa, bb@, walk.last() as int),
                        forall|i: int| 0 <= i < walk.len() - 1 ==> #[trigger] walk[i + 1] == cycle_next(pa, bb@, walk[i] as int),
                        forall|p: int| 0 <= p < n ==> (#[trigger] visited@[p] <==> (old_visited[p] || walk.contains(p as usize))),
                        forall|p: int| 0 <= p < n ==> #[trigger] from_b[p] == (if walk.contains(p as usize) { odd } else { old_from_b[p] }),
                        forall|p: int| 0 <= p < n ==> (#[trigger] from_b[p] ==> first@[p] == bb@[p] && second@[p] == aa@[p]),
                        forall|p: int| 0 <= p < n ==> (!#[trigger] from_b[p] ==> first@[p] == aa@[p] && second@[p] == bb@[p]),
                    decreases n - walk.len(),
                {
                    proof {
                        assert(!walk.contains(position));
                        let longer = walk.push(position);
                        assert forall|i: int, j: int| 0 <= i < j < longer.len() implies #[trigger] longer[i] != #[trigger] longer[j] by {
                            if j == walk.len() {
                                assert(walk.contains(longer[i]) ==> true);
                                assert(longer[i] == walk[i]);
                            } else {
                                assert(longer[i] == walk[i]);
                                assert(longer[j] == walk[j]);
                            }
                        }
                        lemma_distinct_below_len(longer, n as int);
                    }
                    proof {
                        assert(!old_visited[position as int]);
                        assert(!from_b[position as int]);
                    }
                    visited.set(position, true);
                    if odd {
                        first.set(position, bb[position]);
                        second.set(position, aa[position]);
                    }
                    proof {
                        let old_walk = walk;
                        walk = walk.push(position);
                        from_b = from_b.update(position as int, odd);
                        assert forall|p: int| 0 <= p < n implies (#[trigger] visited@[p] <==> (old_visited[p] || walk.contains(p as usize))) by {
                            if walk.contains(p as usize) && p != position {
                                let i = choose|i: int| 0 <= i < walk.len() && walk[i] == p as usize;
                                assert(old_walk[i] == p);
                            }
                            if old_walk.contains(p as usize) {
                                let i = choose|i: int| 0 <= i < old_walk.len() && old_walk[i] == p as usize;
                                assert(walk[i] == p);
                            }
                            if p == position {
                                assert(walk[old_walk.len() as int] == p);
                            }
                        }
                        assert forall|p: int| 0 <= p < n implies #[trigger] from_b[p] == (if walk.contains(p as usize) { odd } else { old_from_b[p] }) by {
                            if walk.contains(p as usize) && p != position {
                                let i = choose|i: int| 0 <= i < walk.len() && walk[i] == p as usize;
                                assert(old_walk[i] == p);
                            }
                            if old_walk.contains(p as usize) {
                                let i = choose|i: int| 0 <= i < old_walk.len() && old_walk[i] == p as usize;
                                assert(walk[i] == p);
                            }
                            if p == position {
                                assert(walk[old_walk.len() as int] == p);
                            }
                        }
                    }
                    position = positions_in_a[bb[position]];
                }
                proof {
                    lemma_walk_is_cycle(pa, aa@, bb@, walk, position as int, old_visited);
                    assert forall|p: int| 0 <= p < n && #[trigger] visited@[p] implies visited@[cycle_next(pa, bb@, p)] by {
                        assert(0 <= cycle_next(pa, bb@, p) < n);
                    }
                    assert forall|p: int, q: int| 0 <= p < n && 0 <= q < n && #[trigger] visited@[q] && #[trigger] bb@[p] == aa@[q] implies visited@[p] by {
                        if walk.contains(q as usize) {
                            let i = choose|i: int| 0 <= i < walk.len() && walk[i] == q as usize;
                            assert(walk.contains(p as usize));
                        }
                    }
                    assert forall|p: int| 0 <= p < n && #[trigger] from_b[p] implies from_b[cycle_next(pa, bb@, p)] by {
                        assert(0 <= cycle_next(pa, bb@, p) < n);
                    }
                    assert forall|p: int, q: int| 0 <= p < n && 0 <= q < n && #[trigger] from_b[q] && #[trigger] bb@[p] == aa@[q] implies from_b[p] by {
                        if walk.contains(q as usize) {
                            let i = choose|i: int| 0 <= i < walk.len() && walk[i] == q as usize;
                            assert(walk.contains(p as usize));
                        } else {
                            assert(old_from_b[p]);
                            assert(old_visited[p]);
                            if walk.contains(p as usize) {
                                let i = choose|i: int| 0 <= i < walk.len() && walk[i] == p as usize;
                            }
                        }
                    }
                    if start == 0 {
                        assert(walk[0] == 0);
                        assert(walk.contains(0));
                    }
                    lemma_cx_cycle_done(aa@, bb@, pa, start as int, walk, old_visited, visited@, old_from_b, from_b, odd);
                }
                odd = !odd;
            } else {
                proof {
                    lemma_cx_skip(aa@, bb@, visited@, from_b, odd, start as int);
                }
            }
            start = start + 1;
        }
        proof {
            // a child is a permutation: a gene from `b` on a union of cycles never meets the
            // same gene from `a` elsewhere
            assert forall|i: int| 0 <= i < n implies (#[trigger] first@[i] as int) < n by {
                if from_b[i] {} else {}
            }
            assert forall|i: int| 0 <= i < n implies (#[trigger] second@[i] as int) < n by {
                if from_b[i] {} else {}
            }
            assert forall|p: int, q: int| 0 <= p < q < n implies #[trigger] first@[p] != #[trigger] first@[q] by {
                if from_b[p] && !from_b[q] && bb@[p] == aa@[q] {
                    assert(cycle_next(pa, bb@, p) == q);
                }
                if !from_b[p] && from_b[q] && aa@[p] == bb@[q] {
                    assert(cycle_next(pa, bb@, q) == p);
                }
            }
            assert forall|p: int, q: int| 0 <= p < q < n implies #[trigger] second@[p] != #[trigger] second@[q] by {
                if from_b[p] && !from_b[q] && aa@[p] == bb@[q] {
                    assert(from_b[p] && bb@[q] == aa@[p] ==> from_b[q]);
                }
                if !from_b[p] && from_b[q] && bb@[p] == aa@[q] {
                    assert(from_b[q] && bb@[p] == aa@[q] ==> from_b[p]);
                }
            }
        }
        proof {
            lemma_cx_choice(aa@, bb@, pa, visited@, from_b, odd);
        }
        *a = Order::from_permutation(first);
        *b = Order::from_permutation(second);
        proof {
            assert forall|p: int| 0 <= p < n implies
                (#[trigger] a@[p] == aa@[p] && b@[p] == bb@[p]) || (a@[p] == bb@[p] && b@[p] == aa@[p]) by {
                if from_b[p] {} else {}
            }
            assert forall|p: int| 0 <= p < n implies
                #[trigger] a@[p] == (if from_b[p] { bb@[p] } else { aa@[p] })
                && b@[p] == (if from_b[p] { aa@[p] } else { bb@[p] }) by {
                if from_b[p] {} else {}
            }
        }
    }
}

/// The position before `p` in a tour of `len` positions, wrapping around.
pub open spec fn before_in_tour(p: int, len: int) -> int {
    if p == 0 { len - 1 } else { p - 1 }
}

/// The position after `p` in a tour of `len` positions, wrapping around.
pub open spec fn after_in_tour(p: int, len: int) -> int {
    if p + 1 == len { 0 } else { p + 1 }
}

/// Whether `y` is next to `x` in the tour `t`, on either side.
pub open spec fn tour_adjacent(t: Seq<usize>, x: usize, y: usize) -> bool {
    exists|p: int| 0 <= p < t.len() && #[trigger] t[p] == x
        && (t[before_in_tour(p, t.len() as int)] == y || t[after_in_tour(p, t.len() as int)] == y)
}

/// Whether `x` and `y` are distinct genes next to each other in the tour `a` or the tour `b`:
/// an edge of a parent.
pub open spec fn is_parent_edge(a: Seq<usize>, b: Seq<usize>, x: usize, y: usize) -> bool {
    x != y && (tour_adjacent(a, x, y) || tour_adjacent(b, x, y))
}

proof fn lemma_tour_adjacent_symmetric(t: Seq<usize>, x: usize, y: usize)
    requires
        tour_adjacent(t, x, y),
    ensures
        tour_adjacent(t, y, x),
        x as int == x,
{
    let n = t.len() as int;
    let p = choose|p: int| 0 <= p < t.len() && #[trigger] t[p] == x
        && (t[before_in_tour(p, n)] == y || t[after_in_tour(p, n)] == y);
    if t[before_in_tour(p, n)] == y {
        let q = before_in_tour(p, n);
        assert(after_in_tour(q, n) == p);
        assert(t[q] == y);
    } else {
        let q = after_in_tour(p, n);
        assert(before_in_tour(q, n) == p);
        assert(t[q] == y);
    }
}

/// Adds to every gene's list the genes next to it in `tour`, except itself and those it has.
fn add_tour_edges(neighbors: &mut Vec<Vec<usize>>, tour: &[usize])
    requires
        is_permutation(tour@),
        old(neighbors)@.len() == tour@.len(),
    ensures
        final(neighbors)@.len() == old(neighbors)@.len(),
        (forall|x: int| 0 <= x < tour@.len() ==> (#[trigger] old(neighbors)@[x])@.no_duplicates())
            ==> forall|x: int| 0 <= x < tour@.len() ==> (#[trigger] final(neighbors)@[x])@.no_duplicates(),
        forall|x: int, y: usize| 0 <= x < tour@.len() ==> (#[trigger] final(neighbors)@[x]@.contains(y) <==>
            (old(neighbors)@[x]@.contains(y) || (x != y && tour_adjacent(tour@, x as usize, y)))),
{
    let len = tour.len();
    let mut position: usize = 0;
    while position < len
        invariant
            len == tour@.len(),
            is_permutation(tour@),
            position <= len,
            neighbors@.len() == len,
            (forall|x: int| 0 <= x < len ==> (#[trigger] old(neighbors)@[x])@.no_duplicates())
                ==> forall|x: int| 0 <= x < len ==> (#[trigger] neighbors@[x])@.no_duplicates(),
            forall|x: int, y: usize| 0 <= x < len ==> (#[trigger] neighbors@[x]@.contains(y) <==>
                (old(neighbors)@[x]@.contains(y) || (x != y && exists|p: int| 0 <= p < position && #[trigger] tour@[p] == x
                    && (tour@[before_in_tour(p, len as int)] == y || tour@[after_in_tour(p, len as int)] == y)))),
        decreases len - position,
    {
        let gene = tour[position];
        let previous = tour[if position == 0 { len - 1 } else { position - 1 }];
        let next = tour[if position + 1 == len { 0 } else { position + 1 }];
        let ghost before = neighbors@;
        let mut list: Vec<usize> = Vec::new();
        std::mem::swap(&mut list, &mut neighbors[gene]);
        if previous != gene {
            push_new(&mut list, previous);
        }
        if next != gene {
            push_new(&mut list, next);
        }
        neighbors.set(gene, list);
        proof {
            assert forall|x: int, y: usize| 0 <= x < len implies (#[trigger] neighbors@[x]@.contains(y) <==>
                (old(neighbors)@[x]@.contains(y) || (x != y && exists|p: int| 0 <= p < position + 1 && #[trigger] tour@[p] == x
                    && (tour@[before_in_tour(p, len as int)] == y || tour@[after_in_tour(p, len as int)] == y)))) by {
                let here = tour@[before_in_tour(position as int, len as int)] == y || tour@[after_in_tour(position as int, len as int)] == y;
                if x == gene {
                    if neighbors@[x]@.contains(y) && !before[x]@.contains(y) {
                        assert(y == previous || y == next);
                        assert(tour@[position as int] == x);
                    }
                    if x != y && exists|p: int| 0 <= p < position + 1 && #[trigger] tour@[p] == x
                        && (tour@[before_in_tour(p, len as int)] == y || tour@[after_in_tour(p, len as int)] == y) {
                        let p = choose|p: int| 0 <= p < position + 1 && #[trigger] tour@[p] == x
                            && (tour@[before_in_tour(p, len as int)] == y || tour@[after_in_tour(p, len as int)] == y);
                        if p == position {
                            assert(y == previous || y == next);
                        }
                    }
                } else {
                    assert(neighbors@[x] == before[x]);
                    if x != y && exists|p: int| 0 <= p < position + 1 && #[trigger] tour@[p] == x
                        && (tour@[before_in_tour(p, len as int)] == y || tour@[after_in_tour(p, len as int)] == y) {
                        let p = choose|p: int| 0 <= p < position + 1 && #[trigger] tour@[p] == x
                            && (tour@[before_in_tour(p, len as int)] == y || tour@[after_in_tour(p, len as int)] == y);
                        assert(p != position);
                    }
                }
            }
        }
        position = position + 1;
    }
}

proof fn lemma_push_contains(s: Seq<usize>, v: usize, y: usize)
    ensures
        s.push(v).contains(y) <==> (s.contains(y) || y == v),
{
    if s.contains(y) {
        let j = choose|j: int| 0 <= j < s.len() && s[j] == y;
        assert(s.push(v)[j] == y);
    }
    if y == v {
        assert(s.push(v)[s.len() as int] == y);
    }
    if s.push(v).contains(y) {
        let j = choose|j: int| 0 <= j < s.push(v).len() && s.push(v)[j] == y;
        if j < s.len() {
            assert(s[j] == y);
        }
    }
}

/// Adds `x` to `list` unless it's there.
fn push_new(list: &mut Vec<usize>, x: usize)
    ensures
        forall|y: usize| #[trigger] final(list)@.contains(y) <==> (old(list)@.contains(y) || y == x),
        old(list)@.no_duplicates() ==> final(list)@.no_duplicates(),
{
    if !vec_contains(list, x) {
        let ghost before = list@;
        list.push(x);
        proof {
            assert(before.no_duplicates() ==> list@.no_duplicates()) by {
                if before.no_duplicates() {
                    assert forall|i: int, j: int| 0 <= i < list@.len() && 0 <= j < list@.len() && i != j implies list@[i] != list@[j] by {
                        if i == before.len() as int {
                            assert(list@[j] == before[j]);
                            assert(before.contains(before[j]));
                        } else if j == before.len() as int {
                            assert(list@[i] == before[i]);
                            assert(before.contains(before[i]));
                        }
                    }
                }
            }
            assert forall|y: usize| #[trigger] list@.contains(y) <==> (old(list)@.contains(y) || y == x) by {
                lemma_push_contains(old(list)@, x, y);
            }
        }
    }
}

/// A candidate whose list of remaining neighbors is the shortest, ties at random.
fn fewest_remaining(candidates: &Vec<usize>, neighbors: &Vec<Vec<usize>>, rng: &mut StreamRng) -> (chosen: usize)
    requires
        candidates@.len() > 0,
        forall|i: int| 0 <= i < candidates@.len() ==> (#[trigger] candidates@[i] as int) < neighbors@.len(),
    ensures
        candidates@.contains(chosen),
        forall|i: int| 0 <= i < candidates@.len() ==> neighbors@[chosen as int]@.len() <= #[trigger] neighbors@[candidates@[i] as int]@.len(),
{
    let mut fewest = neighbors[candidates[0]].len();
    let mut i: usize = 1;
    while i < candidates.len()
        invariant
            1 <= i <= candidates@.len(),
            forall|i: int| 0 <= i < candidates@.len() ==> (#[trigger] candidates@[i] as int) < neighbors@.len(),
            exists|j: int| 0 <= j < i && neighbors@[candidates@[j] as int]@.len() == fewest,
            forall|j: int| 0 <= j < i ==> fewest <= #[trigger] neighbors@[candidates@[j] as int]@.len(),
        decreases candidates@.len() - i,
    {
        let count = neighbors[candidates[i]].len();
        if count < fewest {
            fewest = count;
        }
        i = i + 1;
    }
    let mut tied: Vec<usize> = Vec::new();
    let mut i: usize = 0;
    while i < candidates.len()
        invariant
            i <= candidates@.len(),
            forall|i: int| 0 <= i < candidates@.len() ==> (#[trigger] candidates@[i] as int) < neighbors@.len(),
            exists|j: int| 0 <= j < candidates@.len() && neighbors@[candidates@[j] as int]@.len() == fewest,
            forall|j: int| 0 <= j < candidates@.len() ==> fewest <= #[trigger] neighbors@[candidates@[j] as int]@.len(),
            forall|t: int| 0 <= t < tied@.len() ==> candidates@.contains(#[trigger] tied@[t]) && neighbors@[tied@[t] as int]@.len() == fewest,
            (exists|j: int| 0 <= j < i && neighbors@[candidates@[j] as int]@.len() == fewest) ==> tied@.len() > 0,
        decreases candidates@.len() - i,
    {
        let c = candidates[i];
        if neighbors[c].len() == fewest {
            tied.push(c);
            proof {
                assert(candidates@.contains(c));
            }
        }
        i = i + 1;
    }
    let chosen = if tied.len() == 1 { tied[0] } else { tied[rng.below(tied.len())] };
    chosen
}

/// The parent neighbors of `x` not in `visited`.
pub open spec fn remaining_neighbors(a: Seq<usize>, b: Seq<usize>, x: usize, visited: Seq<usize>) -> Set<usize> {
    Set::new(|y: usize| is_parent_edge(a, b, x, y) && !visited.contains(y))
}

/// Whether `next`, after the genes `visited`, has no more remaining parent neighbors than any
/// remaining parent neighbor of the last gene visited: the rule of edge recombination.
pub open spec fn follows_fewest(a: Seq<usize>, b: Seq<usize>, visited: Seq<usize>, next: usize) -> bool {
    forall|z: usize| is_parent_edge(a, b, visited.last(), z) && !visited.contains(z)
        ==> remaining_neighbors(a, b, next, visited).len() <= #[trigger] remaining_neighbors(a, b, z, visited).len()
}

// a list without duplicates of exactly the remaining parent neighbors has their number
proof fn lemma_list_counts_remaining(list: Seq<usize>, a: Seq<usize>, b: Seq<usize>, x: usize, visited: Seq<usize>)
    requires
        list.no_duplicates(),
        forall|y: usize| #[trigger] list.contains(y) <==> is_parent_edge(a, b, x, y) && !visited.contains(y),
    ensures
        list.len() == remaining_neighbors(a, b, x, visited).len(),
{
    assert(list.to_set() =~= remaining_neighbors(a, b, x, visited));
    list.unique_seq_to_set();
}

/// A tour through the edges of `a` and `b`, from `start`: it always moves to a remaining
/// neighbor that the current gene has in either parent, the one with the fewest remaining
/// neighbors (ties at random), and only when there's none left, to a random unvisited gene.
pub fn edge_recombination(a: &[usize], b: &[usize], start: usize, rng: &mut StreamRng) -> (child: Vec<usize>)
    requires
        is_permutation(a@),
        is_permutation(b@),
        a@.len() == b@.len(),
        start < a@.len(),
    ensures
        is_permutation(child@),
        child@.len() == a@.len(),
        child@[0] == start,
        forall|k: int| 0 <= k < child@.len() - 1 ==>
            ((exists|y: usize| is_parent_edge(a@, b@, #[trigger] child@[k], y) && !child@.take(k + 1).contains(y))
                ==> is_parent_edge(a@, b@, child@[k], child@[k + 1])),
        forall|k: int| 0 <= k < child@.len() - 1 ==> #[trigger] follows_fewest(a@, b@, child@.take(k + 1), child@[k + 1]),
{
    let len = a.len();
    let mut neighbors: Vec<Vec<usize>> = Vec::new();
    let mut unvisited: Vec<usize> = Vec::new();
    let mut index: Vec<usize> = Vec::new();
    let mut k: usize = 0;
    while k < len
        invariant
            k <= len,
            neighbors@.len() == k,
            unvisited@.len() == k,
            index@.len() == k,
            forall|x: int, y: usize| 0 <= x < k ==> !(#[trigger] neighbors@[x]@.contains(y)),
            forall|x: int| 0 <= x < k ==> (#[trigger] neighbors@[x])@.no_duplicates(),
            forall|i: int| 0 <= i < k ==> #[trigger] unvisited@[i] == i && index@[i] == i,
        decreases len - k,
    {
        neighbors.push(Vec::new());
        unvisited.push(k);
        index.push(k);
        k = k + 1;
    }
    add_tour_edges(&mut neighbors, a);
    add_tour_edges(&mut neighbors, b);
    let mut child: Vec<usize> = Vec::new();
    let mut current = start;
    proof {
        assert forall|g: usize| #![trigger unvisited@.contains(g)] #![trigger child@.contains(g)] (g as int) < len implies (unvisited@.contains(g) <==> !child@.contains(g)) by {
            assert(unvisited@[g as int] == g);
        }
        assert forall|i: int, j: int| 0 <= i < j < unvisited@.len() implies #[trigger] unvisited@[i] != #[trigger] unvisited@[j] by {
            assert(unvisited@[i] == i);
            assert(unvisited@[j] == j);
        }
        assert(unvisited@[start as int] == start);
        assert forall|x: int, y: usize| 0 <= x < len && unvisited@.contains(x as usize) implies
            (#[trigger] neighbors@[x]@.contains(y) <==> is_parent_edge(a@, b@, x as usize, y) && unvisited@.contains(y)) by {
            if is_parent_edge(a@, b@, x as usize, y) {
                lemma_edge_in_range(a@, b@, x as usize, y);
                assert(unvisited@[y as int] == y);
            }
        }
    }
    loop
        invariant
            len == a@.len(),
            len == b@.len(),
            is_permutation(a@),
            is_permutation(b@),
            neighbors@.len() == len,
            index@.len() == len,
            distinct(child@),
            distinct(unvisited@),
            forall|i: int| 0 <= i < child@.len() ==> (#[trigger] child@[i] as int) < len,
            forall|i: int| 0 <= i < unvisited@.len() ==> (#[trigger] unvisited@[i] as int) < len,
            forall|g: usize| #![trigger unvisited@.contains(g)] #![trigger child@.contains(g)] (g as int) < len ==> (unvisited@.contains(g) <==> !child@.contains(g)),
            child@.len() + unvisited@.len() == len,
            forall|i: int| 0 <= i < unvisited@.len() ==> #[trigger] index@[unvisited@[i] as int] == i,
            current < len,
            unvisited@.contains(current),
            forall|x: int, y: usize| 0 <= x < len && unvisited@.contains(x as usize) ==>
                (#[trigger] neighbors@[x]@.contains(y) <==> is_parent_edge(a@, b@, x as usize, y) && unvisited@.contains(y)),
            child@.len() == 0 ==> current == start,
            child@.len() > 0 ==> child@[0] == start,
            forall|k: int| 0 <= k < child@.len() - 1 ==>
                ((exists|y: usize| is_parent_edge(a@, b@, #[trigger] child@[k], y) && !child@.take(k + 1).contains(y))
                    ==> is_parent_edge(a@, b@, child@[k], child@[k + 1])),
            child@.len() > 0 ==> ((exists|y: usize| is_parent_edge(a@, b@, child@.last(), y) && unvisited@.contains(y))
                ==> is_parent_edge(a@, b@, child@.last(), current)),
            forall|x: int| 0 <= x < len ==> (#[trigger] neighbors@[x])@.no_duplicates(),
            forall|k: int| 0 <= k < child@.len() - 1 ==> #[trigger] follows_fewest(a@, b@, child@.take(k + 1), child@[k + 1]),
            child@.len() > 0 ==> follows_fewest(a@, b@, child@, current),
        decreases unvisited@.len(),
    {
        let ghost old_child = child@;
        let ghost old_unvisited = unvisited@;
        child.push(current);
        proof {
            let at = choose|i: int| 0 <= i < old_unvisited.len() && old_unvisited[i] == current;
            assert(index@[current as int] == at);
        }
        let at = index[current];
        unvisited.swap_remove(at);
        if at < unvisited.len() {
            let moved = unvisited[at];
            index.set(moved, at);
        }
        proof {
            lemma_erx_step(a@, b@, old_child, child@, old_unvisited, unvisited@, current, at as int, len as int);
            assert forall|i: int| 0 <= i < unvisited@.len() implies #[trigger] index@[unvisited@[i] as int] == i by {
                if i == at {
                } else {
                    assert(unvisited@[i] == old_unvisited[i]);
                    assert(old_unvisited[i] != old_unvisited[at as int]);
                    if at < unvisited@.len() {
                        assert(unvisited@[at as int] == old_unvisited.last());
                        assert(old_unvisited[i] != old_unvisited.last());
                    }
                }
            }
            // the pair just completed keeps the edge rule
            let m = old_child.len() as int;
            assert forall|k: int| 0 <= k < child@.len() - 1
                && (exists|y: usize| is_parent_edge(a@, b@, #[trigger] child@[k], y) && !child@.take(k + 1).contains(y))
                implies is_parent_edge(a@, b@, child@[k], child@[k + 1]) by {
                if k < m - 1 {
                    assert(child@[k] == old_child[k]);
                    assert(child@[k + 1] == old_child[k + 1]);
                    assert(child@.take(k + 1) =~= old_child.take(k + 1));
                } else {
                    assert(k == m - 1);
                    assert(child@.take(k + 1) =~= old_child);
                    assert(child@[k] == old_child.last());
                    let y = choose|y: usize| is_parent_edge(a@, b@, child@[k], y) && !child@.take(k + 1).contains(y);
                    lemma_edge_in_range(a@, b@, child@[k], y);
                    assert(old_unvisited.contains(y));
                }
            }
            assert forall|k: int| 0 <= k < child@.len() - 1 implies #[trigger] follows_fewest(a@, b@, child@.take(k + 1), child@[k + 1]) by {
                if k < m - 1 {
                    assert(child@[k + 1] == old_child[k + 1]);
                    assert(child@.take(k + 1) =~= old_child.take(k + 1));
                } else {
                    assert(child@.take(k + 1) =~= old_child);
                    assert(child@[k + 1] == current);
                }
            }
        }
        if unvisited.len() == 0 {
            proof {
                assert forall|i: int| 0 <= i < child@.len() implies (#[trigger] child@[i] as int) < child@.len() by {}
            }
            return child;
        }
        let ghost old_neighbors = neighbors@;
        let mut candidates: Vec<usize> = Vec::new();
        std::mem::swap(&mut candidates, &mut neighbors[current]);
        proof {
            assert forall|y: usize| #[trigger] candidates@.contains(y) <==> is_parent_edge(a@, b@, current, y) && unvisited@.contains(y) by {
                assert(old_neighbors[current as int]@.contains(y) <==> is_parent_edge(a@, b@, current, y) && old_unvisited.contains(y));
                if is_parent_edge(a@, b@, current, y) {
                    assert(y != current);
                    lemma_edge_in_range(a@, b@, current, y);
                }
            }
        }
        let mut i: usize = 0;
        while i < candidates.len()
            invariant
                len == a@.len(),
                len == b@.len(),
                is_permutation(a@),
                is_permutation(b@),
                neighbors@.len() == len,
                current < len,
                i <= candidates@.len(),
                forall|y: usize| #[trigger] candidates@.contains(y) <==> is_parent_edge(a@, b@, current, y) && unvisited@.contains(y),
                forall|i: int| 0 <= i < unvisited@.len() ==> (#[trigger] unvisited@[i] as int) < len,
                !unvisited@.contains(current),
                forall|x: int, y: usize| 0 <= x < len && x != current && unvisited@.contains(x as usize) ==>
                    (#[trigger] neighbors@[x]@.contains(y) <==> old_neighbors[x]@.contains(y) && !(y == current && candidates@.take(i as int).contains(x as usize))),
                forall|x: int| 0 <= x < len ==> (#[trigger] neighbors@[x])@.no_duplicates(),
            decreases candidates@.len() - i,
        {
            let c = candidates[i];
            proof {
                assert(candidates@.contains(c));
                lemma_edge_in_range(a@, b@, current, c);
            }
            let ghost before = neighbors@;
            remove_from_list(&mut neighbors, c, current);
            proof {
                assert forall|x: int, y: usize| 0 <= x < len && x != current && unvisited@.contains(x as usize) implies
                    (#[trigger] neighbors@[x]@.contains(y) <==> old_neighbors[x]@.contains(y) && !(y == current && candidates@.take(i + 1).contains(x as usize))) by {
                    lemma_push_contains(candidates@.take(i as int), c, x as usize);
                    assert(candidates@.take(i + 1) =~= candidates@.take(i as int).push(c));
                }
            }
            i = i + 1;
        }
        proof {
            assert(candidates@.take(candidates@.len() as int) =~= candidates@);
            assert forall|x: int, y: usize| 0 <= x < len && unvisited@.contains(x as usize) implies
                (#[trigger] neighbors@[x]@.contains(y) <==> is_parent_edge(a@, b@, x as usize, y) && unvisited@.contains(y)) by {
                assert(old_unvisited.contains(x as usize));
                assert(x != current);
                assert(old_neighbors[x]@.contains(y) <==> is_parent_edge(a@, b@, x as usize, y) && old_unvisited.contains(y));
                if y == current && is_parent_edge(a@, b@, x as usize, y) {
                    lemma_parent_edge_symmetric(a@, b@, x as usize, y);
                    assert(candidates@.contains(x as usize));
                }
                if is_parent_edge(a@, b@, x as usize, y) {
                    lemma_edge_in_range(a@, b@, x as usize, y);
                }
            }
        }
        let ghost previous = current;
        proof {
            assert(child@.last() == previous);
        }
        if candidates.len() == 0 {
            current = unvisited[rng.below(unvisited.len())];
            proof {
                assert(unvisited@.contains(current));
                if exists|y: usize| is_parent_edge(a@, b@, child@.last(), y) && unvisited@.contains(y) {
                    let y = choose|y: usize| is_parent_edge(a@, b@, child@.last(), y) && unvisited@.contains(y);
                    assert(candidates@.contains(y));
                }
                assert forall|z: usize| is_parent_edge(a@, b@, child@.last(), z) && !child@.contains(z)
                    implies remaining_neighbors(a@, b@, current, child@).len() <= #[trigger] remaining_neighbors(a@, b@, z, child@).len() by {
                    lemma_edge_in_range(a@, b@, previous, z);
                    assert(unvisited@.contains(z));
                    assert(candidates@.contains(z));
                }
            }
        } else {
            proof {
                assert forall|i: int| 0 <= i < candidates@.len() implies (#[trigger] candidates@[i] as int) < neighbors@.len() by {
                    assert(candidates@.contains(candidates@[i]));
                    lemma_edge_in_range(a@, b@, previous, candidates@[i]);
                }
            }
            current = fewest_remaining(&candidates, &neighbors, rng);
            proof {
                assert(candidates@.contains(current));
                lemma_counts_of_candidates(a@, b@, neighbors@, unvisited@, child@, current, len as int);
                assert forall|z: usize| is_parent_edge(a@, b@, child@.last(), z) && !child@.contains(z)
                    implies remaining_neighbors(a@, b@, current, child@).len() <= #[trigger] remaining_neighbors(a@, b@, z, child@).len() by {
                    lemma_edge_in_range(a@, b@, previous, z);
                    assert(unvisited@.contains(z));
                    assert(candidates@.contains(z));
                    let i = choose|i: int| 0 <= i < candidates@.len() && candidates@[i] == z;
                    assert(neighbors@[current as int]@.len() <= neighbors@[candidates@[i] as int]@.len());
                    lemma_counts_of_candidates(a@, b@, neighbors@, unvisited@, child@, z, len as int);
                }
            }
        }
        proof {
            lemma_edge_in_range_if_unvisited(unvisited@, current, len as int);
        }
    }
}

// the list of remaining neighbors of an unvisited gene has their number
proof fn lemma_counts_of_candidates(a: Seq<usize>, b: Seq<usize>, neighbors: Seq<Vec<usize>>, unvisited: Seq<usize>, child: Seq<usize>, x: usize, len: int)
    requires
        is_permutation(a),
        is_permutation(b),
        a.len() == b.len(),
        len == a.len(),
        neighbors.len() == len,
        (x as int) < len,
        unvisited.contains(x),
        forall|x: int| 0 <= x < len ==> (#[trigger] neighbors[x])@.no_duplicates(),
        forall|g: usize| #![trigger unvisited.contains(g)] #![trigger child.contains(g)] (g as int) < len ==> (unvisited.contains(g) <==> !child.contains(g)),
        forall|x: int, y: usize| 0 <= x < len && unvisited.contains(x as usize) ==>
            (#[trigger] neighbors[x]@.contains(y) <==> is_parent_edge(a, b, x as usize, y) && unvisited.contains(y)),
    ensures
        neighbors[x as int]@.len() == remaining_neighbors(a, b, x, child).len(),
{
    assert forall|y: usize| #[trigger] neighbors[x as int]@.contains(y) <==> is_parent_edge(a, b, x, y) && !child.contains(y) by {
        if is_parent_edge(a, b, x, y) {
            lemma_edge_in_range(a, b, x, y);
        }
    }
    lemma_list_counts_remaining(neighbors[x as int]@, a, b, x, child);
}

/// The genes of a parent edge are genes of the tours.
proof fn lemma_edge_in_range(a: Seq<usize>, b: Seq<usize>, x: usize, y: usize)
    requires
        is_permutation(a),
        is_permutation(b),
        a.len() == b.len(),
        is_parent_edge(a, b, x, y),
    ensures
        (x as int) < a.len(),
        (y as int) < a.len(),
{
    if tour_adjacent(a, x, y) {
        let p = choose|p: int| 0 <= p < a.len() && #[trigger] a[p] == x
            && (a[before_in_tour(p, a.len() as int)] == y || a[after_in_tour(p, a.len() as int)] == y);
        assert(a[before_in_tour(p, a.len() as int)] < a.len());
        assert(a[after_in_tour(p, a.len() as int)] < a.len());
    } else {
        let p = choose|p: int| 0 <= p < b.len() && #[trigger] b[p] == x
            && (b[before_in_tour(p, b.len() as int)] == y || b[after_in_tour(p, b.len() as int)] == y);
        assert(b[before_in_tour(p, b.len() as int)] < b.len());
        assert(b[after_in_tour(p, b.len() as int)] < b.len());
    }
}

/// A gene in the unvisited list is a gene of the tours.
proof fn lemma_edge_in_range_if_unvisited(unvisited: Seq<usize>, g: usize, len: int)
    requires
        unvisited.contains(g),
        forall|i: int| 0 <= i < unvisited.len() ==> (#[trigger] unvisited[i] as int) < len,
    ensures
        (g as int) < len,
{
    let i = choose|i: int| 0 <= i < unvisited.len() && unvisited[i] == g;
}

/// Parent edges go both ways.
proof fn lemma_parent_edge_symmetric(a: Seq<usize>, b: Seq<usize>, x: usize, y: usize)
    requires
        is_parent_edge(a, b, x, y),
    ensures
        is_parent_edge(a, b, y, x),
{
    if tour_adjacent(a, x, y) {
        lemma_tour_adjacent_symmetric(a, x, y);
    } else {
        lemma_tour_adjacent_symmetric(b, x, y);
    }
}

/// One step of edge recombination: `current` moves from the unvisited genes to the child.
proof fn lemma_erx_step(a: Seq<usize>, b: Seq<usize>, old_child: Seq<usize>, child: Seq<usize>,
    old_unvisited: Seq<usize>, unvisited: Seq<usize>, current: usize, at: int, len: int)
    requires
        distinct(old_child),
        distinct(old_unvisited),
        forall|i: int| 0 <= i < old_child.len() ==> (#[trigger] old_child[i] as int) < len,
        forall|i: int| 0 <= i < old_unvisited.len() ==> (#[trigger] old_unvisited[i] as int) < len,
        forall|g: usize| #![trigger old_unvisited.contains(g)] #![trigger old_child.contains(g)] (g as int) < len ==> (old_unvisited.contains(g) <==> !old_child.contains(g)),
        old_child.len() + old_unvisited.len() == len,
        0 <= at < old_unvisited.len(),
        old_unvisited[at] == current,
        child == old_child.push(current),
        unvisited == old_unvisited.update(at, old_unvisited.last()).drop_last(),
    ensures
        distinct(child),
        distinct(unvisited),
        forall|i: int| 0 <= i < child.len() ==> (#[trigger] child[i] as int) < len,
        forall|i: int| 0 <= i < unvisited.len() ==> (#[trigger] unvisited[i] as int) < len,
        forall|g: usize| #![trigger unvisited.contains(g)] #![trigger child.contains(g)] (g as int) < len ==> (unvisited.contains(g) <==> !child.contains(g)),
        child.len() + unvisited.len() == len,
        !unvisited.contains(current),
        forall|g: usize| #[trigger] unvisited.contains(g) ==> old_unvisited.contains(g),
        forall|g: usize| old_unvisited.contains(g) && g != current ==> #[trigger] unvisited.contains(g),
        child.len() > 0,
        child.last() == current,
{
    assert(!old_child.contains(current)) by {
        assert(old_unvisited.contains(current));
    }
    assert forall|i: int, j: int| 0 <= i < j < child.len() implies #[trigger] child[i] != #[trigger] child[j] by {
        if j == old_child.len() {
            assert(child[i] == old_child[i]);
            assert(old_child.contains(old_child[i]));
        } else {
            assert(child[i] == old_child[i]);
            assert(child[j] == old_child[j]);
        }
    }
    let last = old_unvisited.len() - 1;
    assert forall|i: int| 0 <= i < unvisited.len() implies #[trigger] unvisited[i] == old_unvisited[if i == at { last } else { i }] by {}
    assert forall|i: int, j: int| 0 <= i < j < unvisited.len() implies #[trigger] unvisited[i] != #[trigger] unvisited[j] by {
        let si = if i == at { last } else { i };
        let sj = if j == at { last } else { j };
        assert(unvisited[i] == old_unvisited[si]);
        assert(unvisited[j] == old_unvisited[sj]);
        if si < sj {} else {}
    }
    assert forall|i: int| 0 <= i < unvisited.len() implies (#[trigger] unvisited[i] as int) < len by {
        let si = if i == at { last } else { i };
        assert(unvisited[i] == old_unvisited[si]);
    }
    assert forall|g: usize| #[trigger] unvisited.contains(g) implies old_unvisited.contains(g) && g != current by {
        let i = choose|i: int| 0 <= i < unvisited.len() && unvisited[i] == g;
        let si = if i == at { last } else { i };
        assert(unvisited[i] == old_unvisited[si]);
        assert(si != at);
    }
    assert forall|g: usize| old_unvisited.contains(g) && g != current implies #[trigger] unvisited.contains(g) by {
        let i = choose|i: int| 0 <= i < old_unvisited.len() && old_unvisited[i] == g;
        assert(i != at);
        if i == last {
            assert(unvisited[at] == g);
        } else {
            assert(unvisited[i] == g);
        }
    }
    assert forall|g: usize| #![trigger unvisited.contains(g)] #![trigger child.contains(g)] (g as int) < len implies (unvisited.contains(g) <==> !child.contains(g)) by {
        lemma_push_contains(old_child, current, g);
    }
}

/// Whether `child` is an edge recombination child of `parent` and `other`: a permutation of the
/// same length that starts with the first gene of `parent`, and moves along an edge of a parent
/// whenever its current gene has an edge to a gene it hasn't visited yet, to one with the fewest
/// remaining parent neighbors.
pub open spec fn is_erx_child(parent: Seq<usize>, other: Seq<usize>, child: Seq<usize>) -> bool {
    &&& is_permutation(child)
    &&& child.len() == parent.len()
    &&& child[0] == parent[0]
    &&& forall|k: int| 0 <= k < child.len() - 1 ==>
        ((exists|y: usize| is_parent_edge(parent, other, #[trigger] child[k], y) && !child.take(k + 1).contains(y))
            ==> is_parent_edge(parent, other, child[k], child[k + 1]))
    &&& forall|k: int| 0 <= k < child.len() - 1 ==> #[trigger] follows_fewest(parent, other, child.take(k + 1), child[k + 1])
}

/// Edge recombination crossover (ERX) for permutation genomes that are tours: the genome is a
/// cycle, and what matters is which genes are neighbors.
///
/// A child starts with the first gene of its parent, and then always moves to a neighbor that the
/// current gene has in either parent, picking the one with the fewest remaining neighbors (ties at
/// random). Only when there's none left, it continues with a random unvisited gene.
#[derive(Clone, Copy, Debug, Default, PartialEq, Eq)]
pub struct EdgeRecombinationCrossover;

impl EdgeRecombinationCrossover {
    /// Recombines `a` and `b`, which become the two children. Genomes of fewer than three genes
    /// stay as they are.
    pub fn crossover(&self, _permutation: &Permutation, a: &mut Order, b: &mut Order, rng: &mut StreamRng)
        requires
            old(a)@.len() == old(b)@.len(),
        ensures
            old(a)@.len() < 3 ==> final(a)@ == old(a)@ && final(b)@ == old(b)@,
            old(a)@.len() >= 3 ==> is_erx_child(old(a)@, old(b)@, final(a)@) && is_erx_child(old(b)@, old(a)@, final(b)@),
    {
        proof {
            use_type_invariant(&*a);
            use_type_invariant(&*b);
            Order::lemma_valid(*a);
            Order::lemma_valid(*b);
        }
        if a.len() < 3 {
            return;
        }
        let first = edge_recombination(a.as_slice(), b.as_slice(), a.get(0), rng);
        let second = edge_recombination(b.as_slice(), a.as_slice(), b.get(0), rng);
        *a = Order::from_permutation(first);
        *b = Order::from_permutation(second);
    }
}

/// Whether `after` is `before` with its segment `start..end` reversed.
pub open spec fn is_reversed_segment(before: Seq<usize>, after: Seq<usize>, start: int, end: int) -> bool {
    &&& after.len() == before.len()
    &&& forall|k: int| start <= k < end ==> #[trigger] after[k] == before[start + end - 1 - k]
    &&& forall|k: int| 0 <= k < before.len() && !(start <= k < end) ==> #[trigger] after[k] == before[k]
}

/// Reverses the genes `start..end`.
fn reverse_segment(genes: &mut Vec<usize>, start: usize, end: usize)
    requires
        is_permutation(old(genes)@),
        start < end <= old(genes)@.len(),
    ensures
        is_permutation(final(genes)@),
        is_reversed_segment(old(genes)@, final(genes)@, start as int, end as int),
{
    let ghost before = genes@;
    let mut i = start;
    let mut j = end - 1;
    while i < j
        invariant
            start <= i,
            j < end,
            i <= j + 1,
            i - start == end - 1 - j,
            end <= before.len(),
            genes@.len() == before.len(),
            is_permutation(genes@),
            forall|k: int| start <= k < i ==> #[trigger] genes@[k] == before[start + end - 1 - k],
            forall|k: int| j < k < end ==> #[trigger] genes@[k] == before[start + end - 1 - k],
            forall|k: int| i <= k <= j ==> #[trigger] genes@[k] == before[k],
            forall|k: int| 0 <= k < before.len() && !(start <= k < end) ==> #[trigger] genes@[k] == before[k],
        decreases end - i,
    {
        proof {
            lemma_swap_permutation(genes@, i as int, j as int);
        }
        swap_genes(genes, i, j);
        i = i + 1;
        j = j - 1;
    }
}

/// A random segment `start..end` of at least two genes, possibly the whole genome: two distinct
/// cuts in `0..=len`, drawn again until they're at least two genes apart.
fn long_segment(len: usize, rng: &mut StreamRng) -> (r: (usize, usize))
    requires
        2 <= len < usize::MAX,
    ensures
        r.0 + 2 <= r.1 <= len,
        (r.0, r.1, final(rng)@) == long_segment_from(old(rng)@, len as nat, MAX_REJECTIONS as nat),
{
    let ghost target = long_segment_from(rng@, len as nat, MAX_REJECTIONS as nat);
    let mut draws: u64 = 0;
    while draws < MAX_REJECTIONS
        invariant
            2 <= len < usize::MAX,
            draws <= MAX_REJECTIONS,
            target == long_segment_from(old(rng)@, len as nat, MAX_REJECTIONS as nat),
            target == long_segment_from(rng@, len as nat, (MAX_REJECTIONS - draws) as nat),
        decreases MAX_REJECTIONS - draws,
    {
        let ghost before = rng@;
        let (start, end) = draw_cuts(len, rng);
        if end - start >= 2 {
            proof {
                let remaining = (MAX_REJECTIONS - draws) as nat;
                assert(remaining != 0);
                assert(target == long_segment_from(before, len as nat, remaining));
                assert(long_segment_from(before, len as nat, remaining) == two_cuts(before, (len + 1) as nat));
                assert(two_cuts(before, (len + 1) as nat) == (start, end, rng@));
            }
            return (start, end);
        }
        draws = draws + 1;
    }
    (0, 2)
}

/// The segment of at least two genes, possibly the whole genome of `len` genes, that the
/// inversion and scramble mutations draw from a generator in state `state`, and the state it
/// leaves: the first [`two_cuts`] in `0..=len` at least two apart, or `0..2` once `remaining`
/// draws have failed.
pub open spec fn long_segment_from(state: RngState, len: nat, remaining: nat) -> (usize, usize, RngState)
    decreases remaining,
{
    if remaining == 0 {
        (0, 2, state)
    } else {
        let c = two_cuts(state, len + 1);
        if c.1 - c.0 >= 2 {
            c
        } else {
            long_segment_from(c.2, len, (remaining - 1) as nat)
        }
    }
}

/// Inversion mutation (2-opt) for permutation genomes: reverses a random segment of at least
/// two genes.
///
/// In a tour, this replaces two edges and keeps all the others. The genome always changes
/// (unless it has fewer than 2 genes).
#[derive(Clone, Copy, Debug, Default, PartialEq, Eq)]
pub struct InversionMutation;

impl InversionMutation {
    /// Mutates `genome`.
    pub fn mutate(&self, _permutation: &Permutation, genome: &mut Order, rng: &mut StreamRng)
        requires
            old(genome)@.len() < usize::MAX,
        ensures
            old(genome)@.len() < 2 ==> final(genome)@ == old(genome)@ && final(rng)@ == old(rng)@,
            old(genome)@.len() >= 2 ==> {
                let s = long_segment_from(old(rng)@, old(genome)@.len(), MAX_REJECTIONS as nat);
                &&& s.0 + 2 <= s.1 <= old(genome)@.len()
                &&& is_reversed_segment(old(genome)@, final(genome)@, s.0 as int, s.1 as int)
                &&& final(rng)@ == s.2
            },
            old(genome)@.len() >= 2 ==> final(genome)@ != old(genome)@,
    {
        proof {
            use_type_invariant(&*genome);
            Order::lemma_valid(*genome);
        }
        let len = genome.len();
        if len < 2 {
            return;
        }
        let (start, end) = long_segment(len, rng);
        let mut genes = genome.take_genes();
        reverse_segment(&mut genes, start, end);
        proof {
            let before = old(genome)@;
            assert(genes@[start as int] == before[end - 1]);
            assert(before[start as int] != before[end - 1]);
        }
        *genome = Order::from_permutation(genes);
        proof {
            assert(is_reversed_segment(old(genome)@, genome@, start as int, end as int));
        }
    }
}

/// Whether `after` is `before` with the gene at `from` moved to `to`.
pub open spec fn is_moved_gene(before: Seq<usize>, after: Seq<usize>, from: int, to: int) -> bool {
    after == before.remove(from).insert(to, before[from])
}

/// Moving a gene of a permutation to another position gives a permutation.
proof fn lemma_move_permutation(s: Seq<usize>, from: int, to: int)
    requires
        is_permutation(s),
        0 <= from < s.len(),
        0 <= to < s.len(),
    ensures
        is_permutation(s.remove(from).insert(to, s[from])),
        s.remove(from).insert(to, s[from]).len() == s.len(),
{
    let r = s.remove(from);
    let t = r.insert(to, s[from]);
    // each position of `t` holds the gene of one position of `s`, different positions different
    // ones
    assert forall|k: int| 0 <= k < r.len() implies #[trigger] r[k] == s[if k < from { k } else { k + 1 }] by {}
    assert forall|k: int| 0 <= k < t.len() implies #[trigger] t[k] == s[
        if k == to { from } else {
            let m = if k < to { k } else { k - 1 };
            if m < from { m } else { m + 1 }
        }
    ] by {
        if k != to {
            let m = if k < to { k } else { k - 1 };
            assert(t[k] == r[m]);
        }
    }
    assert forall|k: int| 0 <= k < t.len() implies (#[trigger] t[k] as int) < t.len() by {}
    assert forall|a: int, b: int| 0 <= a < b < t.len() implies #[trigger] t[a] != #[trigger] t[b] by {
        let sa = if a == to { from } else { let m = if a < to { a } else { a - 1 }; if m < from { m } else { m + 1 } };
        let sb = if b == to { from } else { let m = if b < to { b } else { b - 1 }; if m < from { m } else { m + 1 } };
        assert(sa != sb);
        if sa < sb {
            assert(s[sa] != s[sb]);
        } else {
            assert(s[sb] != s[sa]);
        }
    }
}

/// Insertion mutation for permutation genomes: moves a random gene to another random position,
/// shifting the genes in between.
///
/// The genome always changes (unless it has a single gene).
#[derive(Clone, Copy, Debug, Default, PartialEq, Eq)]
pub struct InsertionMutation;

impl InsertionMutation {
    /// Mutates `genome`.
    pub fn mutate(&self, _permutation: &Permutation, genome: &mut Order, rng: &mut StreamRng)
        ensures
            old(genome)@.len() < 2 ==> final(genome)@ == old(genome)@ && final(rng)@ == old(rng)@,
            old(genome)@.len() >= 2 ==> {
                let d = distinct_pair(old(rng)@, old(genome)@.len() as usize);
                &&& d.0 < old(genome)@.len() && d.1 < old(genome)@.len() && d.0 != d.1
                &&& is_moved_gene(old(genome)@, final(genome)@, d.0 as int, d.1 as int)
                &&& final(rng)@ == d.2
            },
            old(genome)@.len() >= 2 ==> final(genome)@ != old(genome)@,
    {
        proof {
            use_type_invariant(&*genome);
            Order::lemma_valid(*genome);
        }
        let len = genome.len();
        if len < 2 {
            return;
        }
        let from = rng.below(len);
        let to = rng.below(len - 1);
        let to = if to >= from { to + 1 } else { to };
        let mut genes = genome.take_genes();
        let ghost before = genes@;
        let gene = genes.remove(from);
        genes.insert(to, gene);
        proof {
            lemma_move_permutation(before, from as int, to as int);
            assert(genes@ == before.remove(from as int).insert(to as int, before[from as int]));
            // the moved gene now sits where another gene was
            if from < to {
                assert(genes@[from as int] == before[from + 1]);
                assert(before[from + 1] != before[from as int]);
            } else {
                assert(genes@[to as int] == before[from as int]);
                assert(before[to as int] != before[from as int]);
            }
        }
        *genome = Order::from_permutation(genes);
        proof {
            assert(is_moved_gene(old(genome)@, genome@, from as int, to as int));
            if from < to {
                assert(genome@[from as int] != old(genome)@[from as int]);
            } else {
                assert(genome@[to as int] != old(genome)@[to as int]);
            }
        }
    }
}

/// Whether `after` is `before` with only its segment `start..end` changed, and changed.
pub open spec fn is_scrambled_segment(before: Seq<usize>, after: Seq<usize>, start: int, end: int) -> bool {
    &&& after.len() == before.len()
    &&& forall|k: int| 0 <= k < before.len() && !(start <= k < end) ==> #[trigger] after[k] == before[k]
    &&& exists|k: int| start <= k < end && #[trigger] after[k] != before[k]
}

/// Whether the genes `start..end` of `a` and `b` are equal.
fn same_segment(a: &Vec<usize>, b: &Vec<usize>, start: usize, end: usize) -> (r: bool)
    requires
        start <= end <= a@.len(),
        end <= b@.len(),
    ensures
        r == forall|k: int| start <= k < end ==> #[trigger] a@[k] == b@[k],
{
    let mut k = start;
    while k < end
        invariant
            start <= k <= end,
            end <= a@.len(),
            end <= b@.len(),
            forall|i: int| start <= i < k ==> #[trigger] a@[i] == b@[i],
        decreases end - k,
    {
        if a[k] != b[k] {
            return false;
        }
        k = k + 1;
    }
    true
}

/// Scramble mutation for permutation genomes: shuffles a random segment of at least two genes.
///
/// The genome always changes (unless it has a single gene): a shuffle that happens to give the
/// same order is shuffled again.
#[derive(Clone, Copy, Debug, Default, PartialEq, Eq)]
pub struct ScrambleMutation;

impl ScrambleMutation {
    /// Mutates `genome`: shuffles the segment ([`long_segment_from`]) by Fisher-Yates passes
    /// until it changes ([`scramble_passes`]); should every pass give it back unchanged, its first
    /// two genes are exchanged.
    #[verifier::spinoff_prover]
    pub fn mutate(&self, _permutation: &Permutation, genome: &mut Order, rng: &mut StreamRng)
        requires
            old(genome)@.len() < usize::MAX,
        ensures
            old(genome)@.len() < 2 ==> final(genome)@ == old(genome)@ && final(rng)@ == old(rng)@,
            old(genome)@.len() >= 2 ==> {
                let s = long_segment_from(old(rng)@, old(genome)@.len(), MAX_REJECTIONS as nat);
                let segment = old(genome)@.subrange(s.0 as int, s.1 as int);
                let passes = scramble_passes(segment, segment, s.2, MAX_REJECTIONS as nat);
                &&& s.0 + 2 <= s.1 <= old(genome)@.len()
                &&& final(genome)@ == old(genome)@.take(s.0 as int) + scrambled(segment, passes.0) + old(genome)@.skip(s.1 as int)
                &&& final(rng)@ == passes.1
                &&& is_scrambled_segment(old(genome)@, final(genome)@, s.0 as int, s.1 as int)
            },
    {
        proof {
            use_type_invariant(&*genome);
            Order::lemma_valid(*genome);
        }
        let len = genome.len();
        if len < 2 {
            return;
        }
        let (start, end) = long_segment(len, rng);
        let mut genes = genome.take_genes();
        let initial = copy_of(genes.as_slice());
        let ghost before = genes@;
        let ghost segment = before.subrange(start as int, end as int);
        let ghost target = scramble_passes(segment, segment, rng@, MAX_REJECTIONS as nat);
        let mut draws: u64 = 0;
        let mut same = true;
        while same && draws < MAX_REJECTIONS
            invariant
                start + 2 <= end <= len,
                len == before.len(),
                initial@ == before,
                segment == before.subrange(start as int, end as int),
                genes@.len() == len,
                is_permutation(genes@),
                draws <= MAX_REJECTIONS,
                forall|k: int| 0 <= k < len && !(start <= k < end) ==> #[trigger] genes@[k] == before[k],
                same == (genes@.subrange(start as int, end as int) == segment),
                same ==> target == scramble_passes(genes@.subrange(start as int, end as int), segment, rng@, (MAX_REJECTIONS - draws) as nat),
                !same ==> target == (genes@.subrange(start as int, end as int), rng@),
            decreases MAX_REJECTIONS - draws,
        {
            let ghost current = genes@.subrange(start as int, end as int);
            let ghost pass_state = rng@;
            // Fisher-Yates on the segment
            let mut position = end - 1;
            while position > start
                invariant
                    start <= position < end,
                    end <= len,
                    genes@.len() == len,
                    is_permutation(genes@),
                    forall|k: int| 0 <= k < len && !(start <= k < end) ==> #[trigger] genes@[k] == before[k],
                    fisher_yates(genes@.subrange(start as int, end as int), rng@, (position - start + 1) as nat)
                        == fisher_yates(current, pass_state, current.len()),
                decreases position - start,
            {
                let ghost sub = genes@.subrange(start as int, end as int);
                let ghost state = rng@;
                let drawn = rng.below(position - start + 1);
                let other = start + drawn;
                proof {
                    lemma_swap_permutation(genes@, position as int, other as int);
                }
                swap_genes(&mut genes, position, other);
                proof {
                    assert(genes@.subrange(start as int, end as int)
                        =~= swapped(sub, (position - start) as int, drawn as int));
                }
                position = position - 1;
            }
            same = same_segment(&genes, &initial, start, end);
            proof {
                let sub = genes@.subrange(start as int, end as int);
                if same {
                    assert forall|i: int| 0 <= i < sub.len() implies sub[i] == segment[i] by {
                        assert(genes@[start + i] == initial@[start + i]);
                    }
                    assert(sub =~= segment);
                } else if sub == segment {
                    assert forall|k: int| start <= k < end implies #[trigger] genes@[k] == initial@[k] by {
                        assert(sub[k - start] == segment[k - start]);
                    }
                }
            }
            draws = draws + 1;
        }
        let ghost passed = genes@.subrange(start as int, end as int);
        if same {
            proof {
                lemma_swap_permutation(genes@, start as int, (start + 1) as int);
                assert(passed[0] == segment[0] && passed[1] == segment[1]);
                assert(genes@[start as int] == before[start as int]);
                assert(genes@[start + 1] == before[start + 1]);
            }
            swap_genes(&mut genes, start, start + 1);
            proof {
                assert(genes@[start as int] != before[start as int]);
                assert(genes@.subrange(start as int, end as int) =~= swapped(passed, 0, 1));
            }
        }
        proof {
            assert(genes@ =~= before.take(start as int) + scrambled(segment, passed) + before.skip(end as int));
            if !same {
                if !(exists|k: int| start <= k < end && #[trigger] genes@[k] != before[k]) {
                    assert forall|i: int| 0 <= i < passed.len() implies passed[i] == segment[i] by {
                        assert(genes@[start + i] == before[start + i]);
                    }
                    assert(passed =~= segment);
                }
            }
        }
        *genome = Order::from_permutation(genes);
        proof {
            assert(is_scrambled_segment(old(genome)@, genome@, start as int, end as int));
        }
    }
}

/// Fisher-Yates passes over `segment` from a generator in state `state`, at most `passes` of them,
/// until the segment differs from `initial`: the segment after them, and the state they leave.
pub open spec fn scramble_passes(segment: Seq<usize>, initial: Seq<usize>, state: RngState, passes: nat) -> (Seq<usize>, RngState)
    decreases passes,
{
    if passes == 0 {
        (segment, state)
    } else {
        let pass = fisher_yates(segment, state, segment.len());
        if pass.0 != initial {
            pass
        } else {
            scramble_passes(pass.0, initial, pass.1, (passes - 1) as nat)
        }
    }
}

/// The scrambled segment: what the passes gave, or, when it is `initial` again, that with its
/// first two genes exchanged.
pub open spec fn scrambled(initial: Seq<usize>, passed: Seq<usize>) -> Seq<usize> {
    if passed == initial { swapped(passed, 0, 1) } else { passed }
}

/// Whether `list` holds `x`.
fn vec_contains(list: &Vec<usize>, x: usize) -> (r: bool)
    ensures
        r == list@.contains(x),
{
    let mut i: usize = 0;
    while i < list.len()
        invariant
            i <= list@.len(),
            forall|j: int| 0 <= j < i ==> list@[j] != x,
        decreases list@.len() - i,
    {
        if list[i] == x {
            assert(list@[i as int] == x);
            return true;
        }
        i = i + 1;
    }
    false
}

/// Removes every `gene` from the list of `x`.
fn remove_from_list(lists: &mut Vec<Vec<usize>>, x: usize, gene: usize)
    requires
        x < old(lists)@.len(),
    ensures
        final(lists)@.len() == old(lists)@.len(),
        forall|z: int| 0 <= z < old(lists)@.len() && z != x ==> #[trigger] final(lists)@[z] == old(lists)@[z],
        forall|y: usize| #[trigger] final(lists)@[x as int]@.contains(y) <==> (old(lists)@[x as int]@.contains(y) && y != gene),
        old(lists)@[x as int]@.no_duplicates() ==> final(lists)@[x as int]@.no_duplicates(),
{
    let mut list: Vec<usize> = Vec::new();
    std::mem::swap(&mut list, &mut lists[x]);
    let mut kept: Vec<usize> = Vec::new();
    let mut i: usize = 0;
    while i < list.len()
        invariant
            i <= list@.len(),
            forall|y: usize| #[trigger] kept@.contains(y) <==> (list@.take(i as int).contains(y) && y != gene),
            list@.no_duplicates() ==> kept@.no_duplicates(),
        decreases list@.len() - i,
    {
        let ghost before = kept@;
        if list[i] != gene {
            proof {
                if list@.no_duplicates() {
                    assert(!list@.take(i as int).contains(list@[i as int])) by {
                        if list@.take(i as int).contains(list@[i as int]) {
                            let j = choose|j: int| 0 <= j < i && list@.take(i as int)[j] == list@[i as int];
                            assert(list@[j] == list@[i as int]);
                        }
                    }
                    assert(!before.contains(list@[i as int]));
                }
            }
            kept.push(list[i]);
            proof {
                if list@.no_duplicates() {
                    assert forall|p: int, q: int| 0 <= p < kept@.len() && 0 <= q < kept@.len() && p != q implies kept@[p] != kept@[q] by {
                        if p == before.len() as int {
                            assert(kept@[q] == before[q]);
                            assert(before.contains(before[q]));
                        } else if q == before.len() as int {
                            assert(kept@[p] == before[p]);
                            assert(before.contains(before[p]));
                        } else {
                            assert(kept@[p] == before[p] && kept@[q] == before[q]);
                        }
                    }
                }
            }
        }
        proof {
            let t0 = list@.take(i as int);
            let t1 = list@.take(i + 1);
            assert(t1 =~= t0.push(list@[i as int]));
            assert forall|y: usize| #[trigger] kept@.contains(y) <==> (t1.contains(y) && y != gene) by {
                lemma_push_contains(t0, list@[i as int], y);
                if list@[i as int] != gene {
                    lemma_push_contains(before, list@[i as int], y);
                }
            }
        }
        i = i + 1;
    }
    proof {
        assert(list@.take(list@.len() as int) =~= list@);
    }
    lists.set(x, kept);
}

} // verus!
