# flyio

Nodes for a simulated network that exchanges line-delimited JSON messages: the
message protocol, a client of the network's key-value stores, and the workloads
echo, unique ids, broadcast, grow-only counter, logs and transactions.

`src/` is the library, verified with Verus. It does no input or output: a node
takes lines and gives lines, and work that waits on others is a state machine
that names its next request and is told the reply, or that none came in time.

- `text`, `strmap`, `json`, `wire`: strings, maps with string keys, JSON values,
  and their text through `serde_json`
- `node`: framing, message numbers, requests and replies
- `policy`, `broadcast`: where a value goes next, and the broadcast workload
- `kv`, `offsets`, `kv_log`: the stores, and logs kept in them
- `kafka`, `kafka_b`, `kafka_c`: logs in memory, in the linearizable store, and
  with offsets reserved in batches
- `txn`, `txn_c`: transactions on one node, and replicated
- `counter`, `echo`, `unique_ids`: the other workloads

`app/` runs them on standard input and output; its first argument names the
workload.
