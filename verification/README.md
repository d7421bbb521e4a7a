# grad

Aggregate, store and query metrics received in the statsd line format
(`key,tag=value,...:value|type`, with InfluxDB-style tags).

The library under `src/` is written in Verus and verified:

- `clock`: moments in time (`Timespec`) and the clock arithmetic of the
  `time` crate it relies on, behind small trusted wrappers.
- `statsd`: the message types, the streaming line reader (`parser::parse`)
  and `StatsdCodec::decode`, which takes one message off a `bytes::BytesMut`.
- `metrics`: the store (`Metrics`), raw and per-bucket sum queries, the
  aggregators, the summary (`state`) and its text form (`report`), and
  `laws`, the properties that span several calls.

`app/` is the server around it: command-line options, the UDP listener
(tokio) and the HTTP routes (warp), with serde copies of the query types.
