# duallity

Levenshtein-automaton, phonetic, rewrite, WallBreaker and fzf transducers over
dictionaries, presented as lazily expanded weighted finite-state transducers.

The library under `src/` holds the state logic of these transducers with
contracts proved by Verus:

- product state encodings and automaton-state codecs, with round-trip laws;
- dictionary-node and WFST-state registries that hand out stable dense IDs;
- the expanded-state cache with its `CacheAll`, `Lru` and `NoCache` policies;
- the lazy Levenshtein product expansion and the WallBreaker result table;
- phonetic NFAs: epsilon and anchor closures, full-string anchor
  normalization, candidate scalars and the state-set transducer;
- rewrite rules as chains of single-scalar transitions, with pruning of
  dominated transitions;
- fzf's V2 score recurrence, its prefix bound for branch-and-bound search,
  and path-scored dictionary states whose weights telescope to the score;
- the generalized product's operation slots, construction limits and
  expansion budget; each operation's applicability (adjacent transposition,
  any, equal scalars, or a listed set of byte pairs) held as plain values;
  the expansion of a product state over exact-width dictionary paths; the
  resolution of staged dictionary nodes under the retained-node ceiling; and
  the commit that publishes new nodes and new product and emission-chain
  states together, or nothing, each transition entering its arc's state;
- the registration of automaton successors and child nodes shared by the
  product adapters;
- the acceptance of one page of a provider's paged edge listing.

Outside calls stand behind small trusted wrappers whose contracts are stated
from the documentation or source of the callee: `rustc-hash`'s `FxHashMap`
(construction, lookup, insertion, removal, keys, length, capacity,
reservation), `smallvec` labels, and a few functions of `std` that Verus does
not specify (the `char` classification and first-lowercase tables,
`char::from_u32`, `slice::sort_unstable`, `Vec::dedup`, `Vec::capacity`,
`BTreeMap::first_key_value`, `Arc::clone`, `String::from_iter`,
`std::path::MAIN_SEPARATOR`). `lling-llang` gives the state ID type.
liblevenshtein's algorithm choice, operations and phonetic NFAs, and the
nodes and edges of libdictenstein dictionaries, reach the library as plain
values of its own types.

`app/` adapts the library to lling-llang's `Wfst` and `StateSource` traits:
floating-point tropical weights, locks, and traversal of libdictenstein
dictionaries. The universal-automaton, phonetic-product, generalized and fzf
WFST adapters and the C bindings have no counterpart there: the outside APIs
they are written against are missing from the versions of liblevenshtein and
lling-llang at hand (`app/lib.rs` lists which). `tests/` exercises the library
through its public API.
