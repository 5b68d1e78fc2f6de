# asinfo

Lookup from an Autonomous System Number (ASN) to its handle, description
and country code, over compact binary tables, proved correct with Verus.

A dataset is held in a `Table`: a varint-encoded record stream in blocks of
32 records, a block index (first ASN, stream position and blob position of
each block, little-endian `u32`s), a deduplicated string blob and a country
table ordered by frequency. `lookup` binary-searches the index and decodes at
most one block; the strings it returns are slices of the table.

## Layout

* `src/lib.rs`: `Country`, `AsInfo`, `Table`, and the decoder: `lookup`,
  `count`, `iter`.
* `src/format.rs`: the layout of the tables as a function of the records
  (spec functions), with the lemmas the encoder and decoder share.
* `src/encode.rs`: `build`, which sorts records, refuses shared ASNs, interns
  strings, orders countries by frequency and lays out the tables.
* `src/varint.rs`: LEB128-style varints, written and read.
* `src/record.rs`: validation of dataset rows (ASN, country code, header).
* `src/dataset.rs`: `load_table`, from the text of the CSV file to a table:
  the `csv` crate splits the text into records, and the header and rows are
  checked and built in verified code.
* `app/`: reading the CSV file from disk and writing the tables as files.
* `tests/`: scenarios on concrete datasets.

## What is proved

* `lookup(t, asn)` gives the record of `t` with that ASN, or `None` when
  there is none; `iter` gives every record in strictly ascending ASN order;
  `count` gives their number.
* `build(rows)` succeeds exactly when there is at least one row, no two rows
  share an ASN and the layout of the rows fits the format's 32-bit fields
  (and there are at most `usize::MAX / 2` rows, a machine limit); its table then holds
  exactly the rows, sorted, with every string stored once. A shared ASN is
  reported as the least such ASN.
* The tables of a dataset do not depend on the order of its rows
  (`lemma_layout_order_free`).
* A table built from rows answers every lookup as the rows themselves do.
* `load_table(text)` gives the table of the rows after the header of the
  CSV records that the `csv` crate reads from `text`, or names what is
  wrong: invalid CSV, a wrong header, the first invalid record with its
  line, or why the rows make no table.
