# wake_word_ml

Data preparation for a small wake-word detector ("Гермес"), with its
decisions written in Verus and proved.

- `src/` — the verified library:
  - `dataset` — grouping recordings by source (`group_key`), splitting each
    class 70 / 15 / 15 % by group with a seeded Fisher–Yates shuffle, and the
    proofs that groups are never divided, that nothing is lost or duplicated,
    of the group proportions, that a split does not depend on the order of
    the directory listings, and that the positives' split does not depend on
    the negatives;
  - `check` — class counts and groups leaked between splits;
  - `paths` — `.wav` / augmentation-source / audio-input selection in path
    order;
  - `shuffle` — the seeded ChaCha8 generator (its draws named as a function
    of the seed and of what it was asked before) and Fisher–Yates, with the
    proof that the shuffle is fair: distinct draws give distinct orders, and
    every order is reached;
  - `order`, `text` — sorting texts in `String` order, character-level
    helpers;
  - `augment` — time shift and window fitting on samples of any type, names
    of variants;
  - `tts` — voices in the synthesiser's listing, names of generated files;
  - `metrics`, `mfcc` — validation counts, feature-matrix layout.
- `app/` — the programs: directory and device I/O, floating-point signal
  processing (MFCC, gain, tape speed, noise), and training with burn.
- `tests/` — tests of the library on concrete values.
