# archive_viewer

Decoding and aggregation of [peer-observer](https://github.com/peer-observer/peer-observer)
archive files, verified with [Verus](https://github.com/verus-lang/verus).

An archive file is a zstd stream, or raw bytes, of length-delimited protobuf
messages: one header, then events to the end of the file. The library takes such a
file apart, counts what is in it, keeps as many of the events as a memory budget
allows, and answers the questions a page asks about them.

What it promises is stated in the contracts of its functions and in its laws, and
proved there:

- records come out once, in order and whole, wherever the file is cut into chunks; a
  file that is cut short gives up what zstd has read of it, if zstd takes the end that
  is put in place of the missing one;
- what is retained of an event holds no raw transaction or block data, and still reads
  as the rest of it;
- every event is counted once, by its kind and in time, whatever is retained of it;
- coarsening, downsampling and folding move counts, and lose none;
- every request has one fate, and no announcement counts as unanswered;
- a page of a table follows on from the one before it;
- no arithmetic overflows, and no index is out of range.

## Layout

| path | what it is |
|---|---|
| `src/decode.rs` | file bytes to records |
| `src/schema.rs`, `src/reflect.rs`, `src/messages.rs` | records to messages, by the schema's descriptors |
| `src/analysis.rs` | a session: files in, aggregates out |
| `src/kind.rs`, `src/histogram.rs`, `src/peers.rs`, `src/relay.rs`, `src/exchange.rs`, `src/latency.rs` | what is aggregated |
| `src/strip.rs`, `src/encode.rs`, `src/store.rs` | what is retained |
| `src/history.rs` | what a run of recordings comes to |
| `src/view/` | what a page draws |
| `src/inspect.rs`, `src/payload.rs` | single events, in full and in a line |
| `src/asn.rs`, `src/asnames.rs` | peers by autonomous system, and what those are called |
| `src/order.rs`, `src/text.rs` | rows in order, and text |
| `app/` | the command-line harness, and the page's side of the boundary |
| `tests/` | the library on concrete archives |

Quotients are kept as two whole numbers; the page's side divides them.

## Trust

What the library takes from other crates is declared where it is used, with what is
claimed of it: `ruzstd` decompresses, `prost` writes a length, `prost-reflect` decodes
and encodes messages by their descriptors, `asmap` maps addresses, `asinfo` names systems
and `serde_json` reads the numbers of those to name.
