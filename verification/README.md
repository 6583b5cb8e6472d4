# kv_web

A graph-structured memory for transformer key/value caches: nodes own spans
of token positions, directed weighted edges link them, and regions of the
graph select cache positions and attention masks.

- `src/` is the verified library (Verus). It holds every part of the
  system that compares, counts or restructures: the web and its token
  index, breadth-first regions, pruning/merging/linking, zoning, clustering
  by label, heatmap segmentation, the delta/lineage store, the firewall's
  threat classification and the roundabout's routing step, the GPU launch
  plan, and the integer steps of the tuning loops. Numeric node and edge
  attributes are carried as opaque payloads.
- `app/` is ordinary Rust around it: the floating-point scores, weights and
  geometry that feed those decisions, the block compressor, serialisable
  copies of the library's types, clocks, files and the GPU.
- `tests/` exercises the library on concrete values.
