# lkh

A logical key hierarchy (LKH) key server for multicast groups, verified with
Verus.

The server keeps a binary key tree: every leaf stands for a member, every
node holds a key and a key id, and the root's key is the group's session key.
When a member joins or leaves, the keys on the path from the changed place to
the root are renewed; each new key is sent wrapped (AES-256-GCM, the key id
authenticated) under the keys of the node's children to the multicast group,
and the member whose leaf carries the change receives its whole path in clear
over its private channel.

## Layout

- `src/tree.rs`: the key tree, its view as a map from paths to nodes, and its
  shape invariant.
- `src/lkh.rs`: the key server: adding and removing members, the renewal of a
  path, and the messages that a renewal sends (returned to the caller in
  sending order).
- `src/packet.rs`, `src/bytes.rs`: the key update packet and its wire format.
- `src/algorithm.rs`, `src/lkhcrypto.rs`: the cipher (through OpenSSL) and key
  generation (through `rand`).
- `src/member.rs`: the receiving side: a member's key store.
- `src/delivery.rs`, `src/sync.rs`: what members learn from a renewal: members
  in step with the tree before a change are in step with it after, and a
  removed member holds none of the keys the renewal is wrapped under. These
  results assume that no two nodes share a key id and that fresh keys differ
  from old ones; key ids and keys are drawn at random, so this holds with
  overwhelming probability, not by construction.
- `app/`: a server that hands the messages to real channels.
