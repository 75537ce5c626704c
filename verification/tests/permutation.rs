use genoxide::genome::{Order, Permutation};
use genoxide::operator::permutation::{ordered, partially_mapped, positions, segment};
use genoxide::operator::{
    CycleCrossover, EdgeRecombinationCrossover, InsertionMutation, InversionMutation, OrderCrossover,
    PartiallyMappedCrossover, ScrambleMutation, SwapMutation,
};
use genoxide::multi::algorithm::check_genomes;
use genoxide::{Error, StreamRng};

// the classic example, 0-based: 1 2 3 | 4 5 6 7 | 8 9 and 4 5 2 | 1 8 7 6 | 9 3
const A: [usize; 9] = [0, 1, 2, 3, 4, 5, 6, 7, 8];
const B: [usize; 9] = [3, 4, 1, 0, 7, 6, 5, 8, 2];

fn is_permutation(genes: &[usize]) -> bool {
    Order::new(genes.to_vec()).is_ok()
}

fn parents(len: usize, seed: u64) -> (Permutation, Order, Order, StreamRng) {
    let permutation = Permutation::new(len).unwrap();
    let mut rng = StreamRng::seed_from_u64(seed);
    let a = permutation.random_genome(&mut rng);
    let b = permutation.random_genome(&mut rng);
    (permutation, a, b, rng)
}

#[test]
fn order_crossover_example() {
    // 2 1 8 | 4 5 6 7 | 9 3
    assert_eq!(ordered(&A, &B, 3, 7), [1, 0, 7, 3, 4, 5, 6, 8, 2]);
}

#[test]
fn partially_mapped_example() {
    // 4 2 3 | 1 8 7 6 | 5 9
    assert_eq!(partially_mapped(&A, &B, 3, 7), [3, 1, 2, 0, 7, 6, 5, 4, 8]);
}

#[test]
fn cycle_crossover_example() {
    // cycles {0, 3, 6, 7} (from A), {1, 2, 4} (from B), {5} (from A)
    let a = Order::new(vec![0, 1, 2, 3, 4, 5, 6, 7]).unwrap();
    let b = Order::new(vec![7, 4, 1, 0, 2, 5, 3, 6]).unwrap();
    let (mut x, mut y) = (a.clone(), b.clone());
    let permutation = Permutation::new(8).unwrap();
    CycleCrossover.crossover(&permutation, &mut x, &mut y, &mut StreamRng::seed_from_u64(0));
    assert_eq!(x.as_slice(), &[0, 4, 1, 3, 2, 5, 6, 7]);
    assert_eq!(y.as_slice(), &[7, 1, 2, 0, 4, 5, 3, 6]);
}

#[test]
fn order_validation() {
    assert!(Order::new(vec![2, 0, 1]).is_ok());
    assert!(matches!(Order::new(vec![0, 0, 1]), Err(Error::InvalidGenome { .. })));
    assert!(matches!(Order::new(vec![0, 3, 1]), Err(Error::InvalidGenome { .. })));
    assert!(Order::new(Vec::new()).is_ok());
    assert!(matches!(
        Permutation::new(0),
        Err(Error::InvalidSetting { setting: "permutation_length", .. })
    ));
    assert_eq!(Order::identity(4).as_slice(), &[0, 1, 2, 3]);
}

#[test]
fn positions_invert_the_order() {
    assert_eq!(positions(&B), [3, 2, 8, 0, 1, 6, 5, 4, 7]);
    let p = positions(&B);
    for gene in 0..B.len() {
        assert_eq!(B[p[gene]], gene);
    }
}

#[test]
fn partially_mapped_keeps_the_segment_of_the_other_parent() {
    let child = partially_mapped(&A, &B, 2, 6);
    assert!(is_permutation(&child));
    assert_eq!(&child[2..6], &B[2..6]);
    // genes of the own parent outside the segment that don't clash stay
    assert_eq!(child[8], A[8]);
    assert_eq!(child, [3, 2, 1, 0, 7, 6, 5, 4, 8]);
}

#[test]
fn ordered_keeps_the_own_segment_and_the_other_order() {
    let child = ordered(&A, &B, 2, 5);
    assert!(is_permutation(&child));
    assert_eq!(&child[2..5], &A[2..5]);
    // the rest in the order of the other parent, from the end of the segment on
    assert_eq!(child, [0, 7, 2, 3, 4, 6, 5, 8, 1]);
}

#[test]
fn crossovers_give_permutations() {
    for seed in 0..50 {
        let (permutation, a, b, mut rng) = parents(12, seed);
        for kind in 0..4 {
            let (mut x, mut y) = (a.clone(), b.clone());
            match kind {
                0 => PartiallyMappedCrossover.crossover(&permutation, &mut x, &mut y, &mut rng),
                1 => OrderCrossover.crossover(&permutation, &mut x, &mut y, &mut rng),
                2 => CycleCrossover.crossover(&permutation, &mut x, &mut y, &mut rng),
                _ => EdgeRecombinationCrossover.crossover(&permutation, &mut x, &mut y, &mut rng),
            }
            assert!(is_permutation(x.as_slice()), "{kind} {x:?}");
            assert!(is_permutation(y.as_slice()), "{kind} {y:?}");
            assert_eq!(x.len(), 12);
            assert_eq!(y.len(), 12);
        }
    }
}

#[test]
fn cycle_crossover_children_are_complementary() {
    for seed in 0..20 {
        let (permutation, a, b, mut rng) = parents(10, seed);
        let (mut x, mut y) = (a.clone(), b.clone());
        CycleCrossover.crossover(&permutation, &mut x, &mut y, &mut rng);
        for i in 0..10 {
            let pair = (x.get(i), y.get(i));
            assert!(pair == (a.get(i), b.get(i)) || pair == (b.get(i), a.get(i)));
        }
        // the first cycle comes from the own parent
        assert_eq!(x.get(0), a.get(0));
    }
}

#[test]
fn edge_recombination_follows_parent_edges() {
    // the genes next to `gene` in a tour, around the end
    let neighbors = |tour: &[usize], gene: usize| -> Vec<usize> {
        let n = tour.len();
        let at = tour.iter().position(|&g| g == gene).unwrap();
        vec![tour[(at + n - 1) % n], tour[(at + 1) % n]]
    };
    for seed in 0..30 {
        let (permutation, a, b, mut rng) = parents(9, seed);
        let (mut x, mut y) = (a.clone(), b.clone());
        EdgeRecombinationCrossover.crossover(&permutation, &mut x, &mut y, &mut rng);
        assert_eq!(x.get(0), a.get(0));
        assert_eq!(y.get(0), b.get(0));
        for child in [x.to_vec(), y.to_vec()] {
            // a parent edge to a gene not visited yet is always taken when there is one
            for i in 0..child.len() - 1 {
                let mut open: Vec<usize> = neighbors(a.as_slice(), child[i]);
                open.extend(neighbors(b.as_slice(), child[i]));
                open.retain(|g| !child[..=i].contains(g));
                if !open.is_empty() {
                    assert!(open.contains(&child[i + 1]), "{child:?} at {i}");
                }
            }
        }
    }
}

#[test]
fn mutations_give_permutations() {
    let swap = SwapMutation::count(2).unwrap();
    for seed in 0..50 {
        let (permutation, a, _, mut rng) = parents(10, seed);
        for kind in 0..4 {
            let mut x = a.clone();
            match kind {
                0 => swap.mutate(&permutation, &mut x, &mut rng),
                1 => InversionMutation.mutate(&permutation, &mut x, &mut rng),
                2 => InsertionMutation.mutate(&permutation, &mut x, &mut rng),
                _ => ScrambleMutation.mutate(&permutation, &mut x, &mut rng),
            }
            assert!(is_permutation(x.as_slice()));
            assert_ne!(x, a, "{kind}: a mutation of 10 genes changes the genome");
        }
    }
}

#[test]
fn inversion_reverses_one_segment() {
    for seed in 0..20 {
        let (permutation, a, _, mut rng) = parents(10, seed);
        let mut x = a.clone();
        InversionMutation.mutate(&permutation, &mut x, &mut rng);
        let changed: Vec<usize> = (0..10).filter(|&i| x.get(i) != a.get(i)).collect();
        let (start, end) = (changed[0], changed[changed.len() - 1] + 1);
        let mut reversed = a.as_slice()[start..end].to_vec();
        reversed.reverse();
        assert_eq!(&x.as_slice()[start..end], &reversed[..]);
    }
}

#[test]
fn swap_mutation_validation() {
    assert!(matches!(
        SwapMutation::count(0),
        Err(Error::InvalidSetting { setting: "swap_count", .. })
    ));
    assert!(SwapMutation::count(3).is_ok());
    assert_eq!(SwapMutation::count(1).unwrap(), SwapMutation::new());
    assert_eq!(SwapMutation::count(1).unwrap(), SwapMutation::default());
}

#[test]
fn random_genomes_are_permutations() {
    let permutation = Permutation::new(20).unwrap();
    assert_eq!(permutation.len(), 20);
    let mut rng = StreamRng::seed_from_u64(5);
    let a = permutation.random_genome(&mut rng);
    let b = permutation.random_genome(&mut rng);
    assert!(is_permutation(a.as_slice()));
    assert_eq!(a.len(), 20);
    assert_ne!(a, b);
}

#[test]
fn segments_are_the_first_fitting_pair_of_cuts() {
    for (seed, len, min_len) in [(1u64, 5usize, 1usize), (2, 2, 1), (3, 9, 3), (4, 3, 2)] {
        let mut rng = StreamRng::seed_from_u64(seed);
        let mut copy = rng.clone();
        let drawn = segment(len, min_len, &mut rng);
        let expected = loop {
            let cuts = copy.sample_distinct(2, len + 1);
            if cuts[1] - cuts[0] >= min_len && cuts[1] - cuts[0] < len {
                break (cuts[0], cuts[1]);
            }
        };
        assert_eq!(drawn, expected);
        assert_eq!(rng.next_u64(), copy.next_u64());
    }
}

#[test]
fn pmx_and_ox_cut_the_drawn_segment() {
    let permutation = Permutation::new(8).unwrap();
    let own = vec![0, 1, 2, 3, 4, 5, 6, 7];
    let other = vec![3, 7, 1, 0, 6, 5, 2, 4];
    for seed in 0..20u64 {
        let mut rng = StreamRng::seed_from_u64(seed);
        let (start, end) = segment(8, 1, &mut rng.clone());
        let (mut a, mut b) = (Order::new(own.clone()).unwrap(), Order::new(other.clone()).unwrap());
        PartiallyMappedCrossover.crossover(&permutation, &mut a, &mut b, &mut rng);
        assert_eq!(a.as_slice(), partially_mapped(&own, &other, start, end).as_slice());
        assert_eq!(b.as_slice(), partially_mapped(&other, &own, start, end).as_slice());
        let mut rng = StreamRng::seed_from_u64(seed);
        let (mut a, mut b) = (Order::new(own.clone()).unwrap(), Order::new(other.clone()).unwrap());
        OrderCrossover.crossover(&permutation, &mut a, &mut b, &mut rng);
        assert_eq!(a.as_slice(), ordered(&own, &other, start, end).as_slice());
        assert_eq!(b.as_slice(), ordered(&other, &own, start, end).as_slice());
    }
}

#[test]
fn inversion_reverses_the_first_long_pair_of_cuts() {
    let permutation = Permutation::new(7).unwrap();
    let genes = vec![6, 0, 5, 1, 4, 2, 3];
    for seed in 0..20u64 {
        let mut rng = StreamRng::seed_from_u64(seed);
        let mut copy = rng.clone();
        let (start, end) = loop {
            let cuts = copy.sample_distinct(2, 8);
            if cuts[1] - cuts[0] >= 2 {
                break (cuts[0], cuts[1]);
            }
        };
        let mut expected = genes.clone();
        expected[start..end].reverse();
        let mut genome = Order::new(genes.clone()).unwrap();
        InversionMutation.mutate(&permutation, &mut genome, &mut rng);
        assert_eq!(genome.as_slice(), expected.as_slice());
        assert_eq!(rng.next_u64(), copy.next_u64());
    }
}

// two distinct positions below `n` as the mutations draw them
fn distinct_pair(rng: &mut StreamRng, n: usize) -> (usize, usize) {
    let a = rng.below(n);
    let b = rng.below(n - 1);
    (a, if b >= a { b + 1 } else { b })
}

#[test]
fn insertion_moves_the_drawn_gene_to_the_drawn_place() {
    let permutation = Permutation::new(6).unwrap();
    let genes = vec![5, 3, 1, 0, 2, 4];
    for seed in 0..20u64 {
        let mut rng = StreamRng::seed_from_u64(seed);
        let mut copy = rng.clone();
        let (from, to) = distinct_pair(&mut copy, 6);
        let mut expected = genes.clone();
        let gene = expected.remove(from);
        expected.insert(to, gene);
        let mut genome = Order::new(genes.clone()).unwrap();
        InsertionMutation.mutate(&permutation, &mut genome, &mut rng);
        assert_eq!(genome.as_slice(), expected.as_slice());
        assert_eq!(rng.next_u64(), copy.next_u64());
    }
}

#[test]
fn swap_mutation_swaps_the_drawn_pairs() {
    let permutation = Permutation::new(7).unwrap();
    let genes = vec![6, 5, 4, 3, 2, 1, 0];
    for seed in 0..20u64 {
        // one pair: two draws
        let mut rng = StreamRng::seed_from_u64(seed);
        let mut copy = rng.clone();
        let (a, b) = distinct_pair(&mut copy, 7);
        let mut expected = genes.clone();
        expected.swap(a, b);
        let mut genome = Order::new(genes.clone()).unwrap();
        SwapMutation::new().mutate(&permutation, &mut genome, &mut rng);
        assert_eq!(genome.as_slice(), expected.as_slice());
        assert_eq!(rng.next_u64(), copy.next_u64());
        // several pairs: distinct positions, shuffled, paired in order
        let mut rng = StreamRng::seed_from_u64(seed);
        let mut copy = rng.clone();
        let mut positions = copy.sample_distinct(6, 7);
        copy.shuffle(&mut positions);
        let mut expected = genes.clone();
        for pair in positions.chunks(2) {
            expected.swap(pair[0], pair[1]);
        }
        let mut genome = Order::new(genes.clone()).unwrap();
        SwapMutation::count(5).unwrap().mutate(&permutation, &mut genome, &mut rng);
        assert_eq!(genome.as_slice(), expected.as_slice());
        assert_eq!(rng.next_u64(), copy.next_u64());
    }
}

#[test]
fn scramble_shuffles_the_drawn_segment_until_it_changes() {
    let permutation = Permutation::new(6).unwrap();
    let genes = vec![0, 1, 2, 3, 4, 5];
    for seed in 0..20u64 {
        let mut rng = StreamRng::seed_from_u64(seed);
        let mut copy = rng.clone();
        let (start, end) = loop {
            let cuts = copy.sample_distinct(2, 7);
            if cuts[1] - cuts[0] >= 2 {
                break (cuts[0], cuts[1]);
            }
        };
        let initial: Vec<usize> = genes[start..end].to_vec();
        let mut segment = initial.clone();
        loop {
            copy.shuffle(&mut segment);
            if segment != initial {
                break;
            }
        }
        let mut expected = genes.clone();
        expected[start..end].copy_from_slice(&segment);
        let mut genome = Order::new(genes.clone()).unwrap();
        ScrambleMutation.mutate(&permutation, &mut genome, &mut rng);
        assert_eq!(genome.as_slice(), expected.as_slice());
        assert_eq!(rng.next_u64(), copy.next_u64());
    }
}

#[test]
fn genomes_are_checked_against_the_permutation() {
    let permutation = Permutation::new(4).unwrap();
    let fits = Order::new(vec![3, 1, 0, 2]).unwrap();
    let short = Order::new(vec![1, 0, 2]).unwrap();
    assert!(permutation.validate(&fits).is_ok());
    assert!(matches!(permutation.validate(&short), Err(Error::InvalidGenome { .. })));
    assert!(check_genomes(&permutation, &[fits.clone(), fits.clone()]).is_ok());
    assert!(matches!(check_genomes(&permutation, &[fits, short]), Err(Error::InvalidGenome { .. })));
    assert!(check_genomes(&permutation, &[]).is_ok());
}

#[test]
fn random_genomes_shuffle_the_identity() {
    let permutation = Permutation::new(8).unwrap();
    let mut rng = StreamRng::seed_from_u64(12);
    let mut copy = rng.clone();
    let genome = permutation.random_genome(&mut rng);
    let mut expected: Vec<usize> = (0..8).collect();
    copy.shuffle(&mut expected);
    assert_eq!(genome.as_slice(), expected.as_slice());
    assert_eq!(rng.next_u64(), copy.next_u64());
}
