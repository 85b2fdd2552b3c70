# ClickHouse storage of usage records

A usage record says how much of something a tenant used. This crate keeps such
records in ClickHouse: it decides which statements are sent, which rows are
written and what callers are answered, and Verus proves that it decides as its
contracts say.

## Layout

- `src/` is the verified library.
  - `model`, `maps`, `text`, `values`: records, identifiers, decimals, instants.
  - `entity`, `mapper`: rows, their wire forms, and the way between rows and
    records.
  - `sql`, `client`: statements as `sea_query` builds them, and queries of the
    database client.
  - `query`: filters, orders, keysets, aggregates, and the statements made of
    them; `query::meaning` and `query::selection` say which rows they read,
    `query::placeholders` which value stands at which placeholder, and
    `query::shape` that their texts do not depend on the values.
  - `record_store`: creating records one by one and in batches, listing,
    aggregating, deactivating; `record_store::isolation` and
    `record_store::paging` speak of whole batches and of all pages of a list.
  - `error`: what a failure of the database is to a caller.
- `tests/` runs the library with the crates it is built on.
- `app/` carries out what the library decides: locks, metrics, reads and writes.

## What is trusted

Each file that calls another crate ends with the functions that do so, marked
`external_body`. Their contracts say what the call returns and are believed, not
proved; everything else is proved against them. What a text is rendered or
parsed to by another crate is named there and not described.

## What is proved

Public functions named `law_*` state what holds of the library as a whole:

- the same record sent again is absorbed, and a key is written at most once;
- rows are written only under renewed locks, which are taken in one order and
  all released;
- a success in a batch is an active record under the key of the one that was
  sent, and a row that was read or written stands for it;
- a deactivated record is superseded by a row of a higher version, its key stays
  taken, and a second deactivation is refused;
- a filter and its condition hold on the same rows, and no text of a caller
  stands in a statement but as a bound value;
- the values of a page, an aggregation and a lookup stand at their placeholders
  in the order of the clauses, and all of them can be bound;
- filters that differ only in their literals are rendered to the same text;
- what the records of one usage type come to in a batch does not depend on the
  records of the others;
- following the cursors of a list gives every record that was asked for once, and
  in order.
