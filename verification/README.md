# biclique_graph

Conversion between the ASCIIGraph text format of the WebGraph framework and the
binary Cecilia adjacency format, and the restoration of a graph from the lists that a
biclique extraction leaves and the extracted bicliques. The library under `src/` is
verified with Verus; `app/` holds the command-line tools (`asciigraph2ceciliabin`,
`ceciliatxt2ceciliabin`, `ceciliabin2asciigraph`) and the PageRank benchmark.

- `le`: little-endian words, through `byteorder`.
- `text`: lines, fields, white space and decimal numbers.
- `cecilia`: the binary format, its decoder and encoder, and the round-trip law.
- `ascii_graph`, `cecilia_text`: the two text inputs and their conversion to binary.
- `cliques`, `biclique`: the biclique file and the facts derived from bicliques.
- `genuine`: the check of an extraction against the genuine graph.
- `degree`, `restore`: out-degrees and the restored ASCIIGraph.

Each reader comes in two forms: `try_…` returns a `Result` (or `Option`) that names
the first reason an input is refused, and the plain form, under the name the tools
use, requires an input that the `try_` form accepts and returns the value itself.
