# gem

Mapping and-inverter graphs onto the partitions of an emulated Boolean processor, and
simulating circuits. The library under `src/` is written in Verus: what each function
returns is stated in its contract and proved. Of a hash, which depends on the machine,
only how it is drawn is stated.

## Layout

- `aig`: and-inverter graphs, their endpoints, and their traversal.
- `staging`: splitting a graph by levels into stages that run one after the other, with
  its laws in `staging::split`, `staging::cut` and `staging::levels`.
- `pe`: mapping the endpoints of a stage onto partitions. A partition is a list of
  hierarchies in which each row combines two halves of the row before it.
  `pe::plan` and `pe::hier` model one hierarchy, `pe::partition` a whole partition,
  `pe::merge` the merging of partitions, and `pe::cutting` the repeated partitioning of
  endpoints that cannot be mapped. The laws that the models obey are in `pe::laws`,
  `pe::reads`, `pe::partition`, `pe::merge_laws`, `pe::merge_order`, `pe::parts_file` and
  `pe::cutting`.
- `block`: executing the script of a block of partitions on 32 bits at once. What a block
  computes and what it leaves unchanged is in `block::laws` and `block::frame`.
- `flow`: driving the scripts of all blocks by the events of a value change dump.
- `netlist` and `naive`: gate-level netlists, and simulating them gate by gate.
- `scope`: finding scopes and variables in the header of a value change dump.
- `index_set`, `sorting`, `parallel`: what the library needs of `indexmap`, the standard
  library and `rayon`. Nothing is proved of these calls; their contracts say what is
  relied upon. One more such call stands in `block`, for hashes, and two in `scope`, for
  the bits of a range and for the hashes of names.

`app/` holds the command line tools, which read and write files. `tests/` holds tests on
concrete circuits.
