# opthash

Open-addressing hash maps and sets built on Elastic Hashing and Funnel Hashing, the two
constructions of *Optimal Bounds for Open Addressing Without Reordering*
(Farach-Colton, Krapivin and Kuszmaul, 2025), written in Verus: the functions
under `src/` carry contracts, and Verus proves them.

## What is proved

- A map is a mathematical `Map<K, V>`, a set a `Set<K>`: each operation says what it returns and
  what the map holds afterwards. `src/laws.rs` states what follows across
  operations.
- A new key goes exactly where its construction places it; where the
  construction has no place, the table recovers in a new, observable epoch.
  Within an epoch no key moves. A rebuild stores the entries one by one, in slot
  order, into a blank table by the same rule. `src/placement.rs` proves that this
  decides where every key stands and what the epoch records.
- The geometry of both constructions, the order in which lookups probe, the
  unbiased reduction of probe words, the fingerprints and the membership filter
  are stated as integer arithmetic and proved exact.
- Nothing overflows, indexes out of bounds or panics where a contract's
  `requires` holds. Fallible operations say which inputs they refuse.

## Layout

| Module | Subject |
| --- | --- |
| `map`, `entry`, `iter`, `into_iter`, `extract`, `bulk`, `laws` | the map |
| `set`, `algebra` | the set, and union, difference, intersection and comparison |
| `versioned`, `snapshot`, `object_key` | maps and sets that count their changes, for the Python bindings |
| `table`, `placement`, `slots`, `disjoint`, `control`, `listing`, `cursor` | what a map asks of a table, and slot storage |
| `elastic`, `elastic_*`, `batch`, `membership`, `phi` | the Elastic table |
| `funnel`, `funnel_*`, `partition` | the Funnel table |
| `geometry`, `probe`, `reduction`, `capacity`, `reserve`, `epoch`, `layout`, `simd`, `bitmask`, `arith` | shared arithmetic |
| `hashing` | keys, lookup values and hash builders |

`app/` holds what rests on the standard library's traits (`f64` reserves, `std`
hashers, `Display` and `Iterator`) and the Python bindings. `tests/` runs the
library.
