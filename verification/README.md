# Cascade

The storage and query layer of a geocoder, verified with Verus: spatial phrase indexes, and the
combination of their matches into contexts such as a street in a city.

## Layout

- `src/` is the library. Everything in it is verified against the contracts it states.
  - `common`, `error`, `spatial`, `order` and `rank` hold the basic types, the key and value formats
    and the arithmetic of tiles.
  - `builder` turns entries into the rows of a database, `decode` reads values back, and `store`
    answers queries out of the rows.
  - `coalesce` and `multi` combine the matches of phrases. `arena` and `stackable` hold the tree of the
    phrases that can be combined, and `tree`, `queue`, `quota` and `walk` go through it.
  - `laws`, `database`, `queries`, `round_trip`, `best`, `agreement`, `contexts`, `tiles`, `words` and
    `combinations` prove what holds of several of these together, above all that a query gives back
    what was written.
  - `outside` is the boundary with other crates: what it states of them is believed, not proved.
- `tests/` runs the library.
- `app/` keeps the rows in RocksDB, carries the types that other programs exchange, and supplies the
  floating-point measure of distance and score.

## Units

Relevances of entries are in thousandths, weights in billionths, relevances of contexts in trillionths.
Distances are squared, in tiles. The caller hands in the function that ranks distance and score.
