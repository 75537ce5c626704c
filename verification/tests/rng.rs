use rand::Rng;
use genoxide::rng::lemire_candidate;
use genoxide::StreamRng;

fn first_u64s(mut rng: StreamRng) -> [u64; 3] {
    [rng.next_u64(), rng.next_u64(), rng.next_u64()]
}

const PORTABLE_SEED_42: [u64; 3] = [12578764544318200737, 17529487244874322312, 7886285670807131020];
const PORTABLE_SEED_42_DERIVE_7: [u64; 3] = [1169889660524673768, 4703768454804564706, 15961940369642500281];

/// Fixed values: these must never change for the same major version, on any platform.
#[test]
fn portable_values() {
    assert_eq!(
        first_u64s(StreamRng::seed_from_u64(42)),
        PORTABLE_SEED_42,
        "the numbers for a seed changed, which breaks reproducibility"
    );
    assert_eq!(
        first_u64s(StreamRng::seed_from_u64(42).derive(7)),
        PORTABLE_SEED_42_DERIVE_7,
        "the numbers for a derived stream changed, which breaks reproducibility"
    );
}

#[test]
fn derive_is_independent_of_the_parent_position() {
    let parent = StreamRng::seed_from_u64(1);
    let mut used_parent = parent.clone();
    for _ in 0..1000 {
        used_parent.next_u64();
    }
    assert_eq!(first_u64s(parent.derive(3)), first_u64s(used_parent.derive(3)));
}

#[test]
fn derive_does_not_collide() {
    let rng = StreamRng::seed_from_u64(1);
    let parent = first_u64s(rng.clone());
    let child_0 = first_u64s(rng.derive(0));
    let child_1 = first_u64s(rng.derive(1));
    let grandchild = first_u64s(rng.derive(0).derive(1));
    let all = [parent, child_0, child_1, grandchild];
    for i in 0..all.len() {
        for j in (i + 1)..all.len() {
            assert_ne!(all[i], all[j], "streams {i} and {j} collide");
        }
    }
}

#[test]
fn portable_sampling_values() {
    let mut rng = StreamRng::seed_from_u64(42);
    let below_10 = rng.below(10);
    let below_million = rng.below(1_000_000);
    // the draws of a unit float and of a chance of one half: one number each
    let unit = rng.next_u64();
    let half = rng.next_u64() < 1 << 63;
    let sample = rng.sample_distinct(3, 10);
    assert_eq!(
        (below_10, below_million, (unit >> 11) as f64 / (1u64 << 53) as f64, half, sample),
        (6, 950275, 0.4275164028565197, false, vec![1, 2, 3]),
        "sampling changed, which breaks reproducibility"
    );
}

#[test]
fn sample_distinct_is_uniform() {
    let mut rng = StreamRng::seed_from_u64(0);
    let mut counts = [0usize; 10];
    for _ in 0..30_000 {
        for index in rng.sample_distinct(3, 10) {
            counts[index] += 1;
        }
    }
    // each index is selected with probability 3/10: 9000 times
    assert!(counts.iter().all(|&c| (8_600..9_400).contains(&c)), "{counts:?}");
}

#[test]
fn below_is_uniform() {
    let mut rng = StreamRng::seed_from_u64(0);
    let mut counts = [0usize; 7];
    for _ in 0..70_000 {
        counts[rng.below(7)] += 1;
    }
    assert!(counts.iter().all(|&c| (9_500..10_500).contains(&c)), "{counts:?}");
}

#[test]
fn from_entropy_differs() {
    assert_ne!(first_u64s(StreamRng::from_entropy()), first_u64s(StreamRng::from_entropy()));
}

#[test]
fn same_seed_same_numbers() {
    for seed in [0, 1, 42, u64::MAX] {
        assert_eq!(first_u64s(StreamRng::seed_from_u64(seed)), first_u64s(StreamRng::seed_from_u64(seed)));
        assert_eq!(
            first_u64s(StreamRng::seed_from_u64(seed).derive(9)),
            first_u64s(StreamRng::seed_from_u64(seed).derive(9))
        );
    }
}

#[test]
fn sample_distinct_edges() {
    let mut rng = StreamRng::seed_from_u64(3);
    assert_eq!(rng.sample_distinct(0, 0), Vec::<usize>::new());
    assert_eq!(rng.sample_distinct(5, 5), vec![0, 1, 2, 3, 4]);
    for _ in 0..100 {
        let sample = rng.sample_distinct(4, 9);
        assert_eq!(sample.len(), 4);
        assert!(sample.windows(2).all(|pair| pair[0] < pair[1]));
        assert!(sample.iter().all(|&i| i < 9));
    }
}

#[test]
fn below_u64_stays_below() {
    let mut rng = StreamRng::seed_from_u64(4);
    for n in [1u64, 2, 3, 1 << 63, u64::MAX] {
        for _ in 0..100 {
            assert!(rng.below_u64(n) < n);
        }
    }
    let seeded = StreamRng::from_seed([7; 32]);
    assert_eq!(first_u64s(seeded.clone()), first_u64s(StreamRng::from_seed([7; 32])));
    let mut a = StreamRng::seed_from_u64(8);
    let mut b = StreamRng::seed_from_u64(8);
    assert_eq!(a.next_u32(), b.next_u32());
}

#[test]
fn lemire_candidates() {
    // 2^64 mod 3 = 1: a low half of 0 is rejected
    assert_eq!(lemire_candidate(1 << 63, 3), (1, true));
    assert_eq!(lemire_candidate(0, 3), (0, false));
    assert_eq!(lemire_candidate(1, 3), (0, true));
    assert_eq!(lemire_candidate(u64::MAX, 3), (2, true));
    // a power of two never rejects
    assert_eq!(lemire_candidate(0, 8), (0, true));
    assert_eq!(lemire_candidate(u64::MAX, 8), (7, true));
}

// the PCG32 expansion of a u64 seed, as rand_core writes it
fn pcg32_key(mut state: u64) -> [u8; 32] {
    let mut key = [0u8; 32];
    for chunk in key.chunks_exact_mut(4) {
        state = state.wrapping_mul(0x5851_F42D_4C95_7F2D).wrapping_add(0xA176_54E4_6FBE_17F3);
        let xorshifted = (((state >> 18) ^ state) >> 27) as u32;
        let rot = (state >> 59) as u32;
        chunk.copy_from_slice(&xorshifted.rotate_right(rot).to_le_bytes());
    }
    key
}

#[test]
fn seeded_keys_are_the_pcg32_expansion() {
    for seed in [0u64, 1, 42, u64::MAX] {
        assert_eq!(StreamRng::seed_from_u64(seed).seed(), pcg32_key(seed));
    }
    let key = [7u8; 32];
    assert_eq!(StreamRng::from_seed(key).seed(), key);
}

#[test]
fn derived_keys_come_from_the_parent_stream() {
    let parent = StreamRng::seed_from_u64(9);
    for id in [0u64, 1, 77] {
        let mut source = <rand_chacha::ChaCha8Rng as rand::SeedableRng>::from_seed(parent.seed());
        source.set_stream(id);
        source.set_word_pos(1u128 << 64);
        let mut expected = [0u8; 32];
        source.fill_bytes(&mut expected);
        assert_eq!(parent.derive(id).seed(), expected);
    }
    assert_ne!(parent.derive(1).seed(), parent.derive(2).seed());
}

#[test]
fn a_u64_is_two_words_low_first() {
    let mut words = StreamRng::seed_from_u64(5);
    let mut wide = StreamRng::seed_from_u64(5);
    for _ in 0..40 {
        let (lo, hi) = (words.next_u32() as u64, words.next_u32() as u64);
        assert_eq!(wide.next_u64(), lo | (hi << 32));
    }
}

#[test]
fn below_takes_the_first_accepted_candidate() {
    for (seed, n) in [(3u64, 3usize), (11, 1000), (12, 7), (13, 1 << 40)] {
        let mut rng = StreamRng::seed_from_u64(seed);
        let mut words = StreamRng::seed_from_u64(seed);
        for _ in 0..50 {
            let mut expected = lemire_candidate(words.next_u64(), n as u64);
            while !expected.1 {
                expected = lemire_candidate(words.next_u64(), n as u64);
            }
            assert_eq!(rng.below(n), expected.0 as usize);
            // both generators have drawn the same words
            assert_eq!(rng.clone().next_u64(), words.clone().next_u64());
        }
    }
}

#[test]
fn shuffle_is_fisher_yates_from_the_back() {
    let mut rng = StreamRng::seed_from_u64(31);
    let mut copy = rng.clone();
    let mut items: Vec<usize> = (0..9).collect();
    rng.shuffle(&mut items);
    let mut expected: Vec<usize> = (0..9).collect();
    for i in (1..9).rev() {
        let j = copy.below(i + 1);
        expected.swap(i, j);
    }
    assert_eq!(items, expected);
    assert_eq!(rng.next_u64(), copy.next_u64());
    let mut sorted = items.clone();
    sorted.sort();
    assert_eq!(sorted, (0..9).collect::<Vec<usize>>());
}
