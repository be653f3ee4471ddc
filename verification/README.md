# ioi_solutions

Verified solutions to a handful of olympiad tasks, written in Verus.

- `src/euclid.rs`: extended Euclid, with Bézout's identity proved and a recursion
  depth logarithmic in the arguments.
- `src/candies.rs`, `src/candies/segtree.rs`: boxes of candies under clamped range
  updates, answered offline with a segment tree; each box ends as the clamped
  simulation of the days says, and depends only on the days that cover it. A range
  update visits at most four nodes per level of the tree.
- `src/dungeons.rs`: the hero's final strength after fighting through the dungeons,
  found with jump tables; equal to the step-by-step game.
- `src/fish.rs`, `src/fish/`: the catfish farm; the dynamic program returns the
  weight caught by the best placement of piers, which is proved both reachable and
  unbeatable; the best catch does not depend on the order of the catfish, and
  neither another catfish nor a heavier one lowers it.
- `src/insects.rs`, `src/insects/`: the rarest insect type, found through a
  machine that reports the most frequent type inside; the insects are tried in a
  random order. The calls are logged: every move shifts its insect to the other
  side, every move inside is followed by a press, and the first moves inside take
  each insect once.
- `src/mushrooms.rs`, `src/mushrooms/`: counting mushrooms of one species with
  comparison queries, as a state machine that proposes queries and takes answers;
  every query is valid, the answer is right for every assignment of species that
  agrees with the answers, and the full strategy asks no more queries than its plan
  costs, the least cost among the plans it weighs.
- `src/sort.rs`: a stable merge sort of indices by key.

`tests/` runs the library on samples and against simple exhaustive solutions;
`app/` reads the task files and drives the library, including the interactive
machine for the mushrooms task.
