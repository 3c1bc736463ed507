# kitsune2_gossip

Dynamic sizing of storage arcs for gossiping peers, verified with Verus.

- `src/` is the library. Every function in it has a contract that Verus proves;
  the few calls into other crates stand behind small functions whose contracts
  say what is relied upon.
  - `blocks`, `dht_arc`: aligned blocks of sectors and the arcs they make.
  - `coverage`, `counting`, `snapshot`: what one tick sees of peers and agents.
  - `intents`, `protocol`, `varint`: announced shrinks and their wire format.
  - `config`, `decide`, `controller`: the decisions of one tick.
  - `handoff`, `rules`, `network`: what holds of those decisions, among it that
    concurrent shrinks leave every sector its target number of holders, and that
    over any number of ticks no sector is orphaned.
  - `instances`, `url`, `decimal`, `mem_transport`: the in-process transport.
  - `gossip`: starting a gossip round and admitting messages.
  - `ids`, `tables`, `text`: byte-string identities, tables and text.
- `app/` is the integration with a running node: tasks, stores, channels, the
  configuration with its floating-point factors, and the traits of the Kitsune2
  API.
- `tests/` runs the library on concrete values.

Times are microseconds since the epoch and spans are nanoseconds throughout the
library.
