# ockam_kit

A Verus library holding the logic of a few Ockam components, each with its
contract proved:

- `doc_blocks`: the scanner that extracts command blocks
  (`<!-- <type> start <data>-->` … `<!-- <type> end -->`) from the markdown
  of docs.ockam.io, specified pass by pass over the document.
- `block_laws`: the law that scanning two documents put end to end gives
  the blocks of each, in order, and the conditions under which it holds.
- `test_plan`: the decisions of the example runner (which blocks run as
  `bats` tests, which enrollments precede a block, whether a run failed).
- `otel_context`: the OpenTelemetry propagation context carried in
  messages, a map of strings serialized as a JSON object.
- `value_parsers`: `key=value` pairs and the reading of a value as a URL,
  a `host:port` address, a path or inline contents.
- `ticket`: the attributes and limits of `ockam project ticket`.
- `text`: character-level helpers shared by the others.

`app/` holds the parts that do I/O (reading files, running `bats`, HTTP
downloads, tracing), on top of the library.
