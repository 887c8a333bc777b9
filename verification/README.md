# dtbc

A compiler from device tree source text (`.dts`) to the flattened device tree
blob (`.dtb`).

- `src/bytes.rs`, `src/number.rs`: lines, whitespace tokens, joining, trimming,
  big-endian cell packing, and `u32` numbers in decimal and hexadecimal.
- `src/table.rs`: byte-string keyed tables with no key twice.
- `src/tree_labels.rs`: the label manager that the tree parser uses (label to
  node name, label to phandle), labels kept as written.
- `src/label.rs`: the label manager that registers labels without their
  leading whitespace.
- `src/parser.rs`: the source parser, from lines to a tree of tokens.
- `src/generate.rs`: the strings table, the structure-block memory map, and
  the byte layout of the blob with its header.
- `src/dtb/parse.rs`: a one-pass compiler that writes nodes and properties
  into the memory map as their lines are read.
- `app/main.rs`: the command line (`dtbc <inputfile> [-o <outputfile>]`).

Every function in `src/` carries a contract over the spec functions beside it;
the laws of the tables, the blob layout and the cell encoding are proof
functions in the same modules.
