# genoxide

Verified building blocks for evolutionary computation: portable random streams, permutation
genomes and their crossovers and mutations, point crossover, populations sorted best first,
selection, a hall of fame and a progress report schedule, and for several objectives scores with
constraints, constrained dominance, non-dominated sorting, an archive of non-dominated solutions,
the Das-Dennis lattice of reference directions, and the integer decisions of NSGA-II, SPEA2,
SMS-EMOA, NSGA-III and MOEA/D (their settings and initial genomes, the ask / tell protocol, the
survivors of NSGA-II and of NSGA-III with its niching, SPEA2's raw fitness, MOEA/D's
neighbourhoods) and of the loop that runs them.

- `src/` is the library, proved with Verus: public functions state what they return in their
  contracts, and the laws that relate several functions are public proof functions.
- The random stream is modelled by its state: the ChaCha8 key, the stream and the word position.
  A word of the key stream is a named function of the three (`chacha8_word`), so a generator
  seeded with the same seed gives the same numbers, and integers below a bound, shuffles, samples
  of distinct integers, tournaments, uniform picks, cut points, segments, the mutations and
  NSGA-III's ties are stated as functions of the stream. The key taken from the operating system
  by `StreamRng::from_entropy` is only known to be 32 bytes, and edge recombination states what
  holds of every tie it breaks.
- `app/` holds what the library can't: floating-point weights and distances (crowding, the
  neighbourhoods of MOEA/D, NSGA-III's normalization, SPEA2's density, the archive's
  room-making), the ZDT and DTLZ test problems, the loop of a run with its clock and abort flag,
  formatted lines, and serde forms of the plain types.
- `tests/` runs the library on concrete values.

Fitness values and objective values are held by their `f64` bits (`f64::to_bits`), ordered as
the floats they stand for.
