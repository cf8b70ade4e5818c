# tunics_algo

A dungeon generator, verified with Verus.

A dungeon is asked for as a `Config` (small keys, fairies, cul-de-sacs,
items). It is then built in stages, each a verified function of `src/`:

1. `tunics::BuildPlan::from` lays the dungeon out as a build plan: steps
   and arcs between them, with no cycle (`build_plan`).
2. `BuildPlan::build_sequence` walks the plan, closing each step after the
   steps it depends on, the order picked at random (`random`).
3. `FeaturePlan::from_steps` turns the sequence into a tree of features
   (`feature`), and `tunics::lower` into plain dungeon features.
4. `room::Tree::from_feature_plan` turns features into rooms (`room`,
   `tunics::room`).
5. `floor::from_forest` lays the rooms out ring by ring on a floor plan.

`pipeline` chains the stages from a seed; `outline`, `event_tree` and
`feature_tree` hold the same graph walk and trees for other kinds of
steps; `floor2` holds a ring-allocation pass of its own; `bits` holds
the bit-vectors of `bitvec` that the reachability counts are made with.

`app/main.rs` is the command-line program: it reads the options, runs a
stage and prints it as Graphviz.
