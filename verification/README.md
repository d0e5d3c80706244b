# orrery

A spatiotemporal feasibility engine: given people assigned to events at
locations over time, it reports the ways that assignment is impossible —
time conflicts, double-booked rooms, containment clashes, impossible
travel, exceeded capacity, unhoused events, expired memberships — and the
member-facing service (`muster`) and scheduling SDK built on it.

The library under `src/` is written in Verus: every executable function
carries a `requires`/`ensures` contract over a mathematical model of the
repository (`RepoView`), and the laws the library promises are stated and
proved as public proof functions, among them:

- a digest preview equals the change set of committing the command and
  refreshing (`engine::lemma_preview_matches_commit`);
- the incremental digest equals a cold recomputation from the repository
  (`agreement::lemma_incremental_matches_cold`);
- sweeps are idempotent and never resolve or duplicate waived records
  (`engine::lemma_sweep_idempotent`, `engine::lemma_sweep_spares_waived`);
- digest and closure refreshes are idempotent, entity upserts are
  idempotent on the identifier;
- the apply counter advances by one per accepted command and not at all
  for a refused one (`repo::memory::lemma_apply_counter`), and the last
  policy set for a kind wins (`detect::lemma_policy_after_sets`);
- greedy room assignment never double-books a room and accounts for every
  request (`sdk::assign`);
- traverse rows stay closed under reversal through every apply
  (`repo::memory::lemma_reversal_closed_kept`);
- real-network closure costs are least walk costs when no duration is
  negative (`travel::lemma_real_cost_is_shortest`);
- derived attendance, stated without its fold: one edge per event from a
  counted expectation, none outranked (`derive::lemma_expand_declarative`);
- priority keys order and equate exactly as the floats do
  (`incremental::lemma_priority_key_monotone`);
- local search only ever moves to a candidate the caller priced better,
  within its budget (`sdk::search::search_step`);
- the Allen interval algebra and the tier rules (`interval`, `tier`).

Layout:

- `src/` — the verified library: interval algebra, model, repository,
  detectors, derivation (cold and incremental), travel closure, engine,
  analytics, SDK, member service, wire shapes.
- `tests/` — executable tests of the library.
- `app/` — the binary around it: the command-line demo, the REST server
  (axum, figment, tracing), the UI components (dioxus), the
  floating-point objective and analytics, and the loop that prices the
  candidates the library's search offers.
