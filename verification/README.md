# sim

The simulation core of a city game, as a Verus-verified library: pure
integer logic with its behaviour stated in `requires`/`ensures` contracts
and proved.

- `rng`: the seeded generator (splitmix64 seeding, xoshiro256**), and
  stable seeds derived from id pairs.
- `time`, `city_clock_fixture`: the in-city clock and its fixture rows.
- `appearance`, `codes`, `demo_ping`, `defs`, `balance`: content lookups
  and balance-key reads.
- `routing`: the origin-independent travel-time estimate, with its
  symmetry and triangle-inequality laws.
- `world`: per-floor collision, walkability rasterisation and erosion,
  chunk keys, and the canonical fixture world with its conformance law.
- `rules`, `validation`: the rule engine and content validation.
- `generation`: the district generator's passes -- land use, the street
  pieces (splits, recursive subdivision, graph building, network checks),
  plots and building envelopes -- each a spec function of its seed.
- `text`: how integers are written in the library's texts.

`app/` holds what Verus does not read: the serde copies of the fixture
documents and the file I/O that writes them.
