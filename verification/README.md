# vice_classic

The discrete core of a classical raster-to-vector evidence pipeline, written in
Verus. Every function in `src/` carries a contract that Verus proves, except two
small wrappers whose contracts are trusted: `hashing::sha256_digest`, which calls
`sha2::Sha256::digest` (its result is named by the uninterpreted `hashing::sha256`),
and `hashing::hex_encode`, which calls `hex::encode`.

- `support`, `bitset`, `hashing`: pixel supports of surrogate evidence as exact
  bitsets over one identified image, their refusal to be counted twice, and their
  SHA-256 digests.
- `mask`, `skeleton`, `stroke_graph`, `centerline`: the line-art lane's integer
  side — premultiplied codes, channel medians, the foreground split, Zhang–Suen
  thinning, 8-neighbourhoods, cycle anchors, node clusters and the pixel walks
  that are the edges of the skeleton graph.
- `marching`, `linking`, `boundary`: marching squares on the pixel-centre lattice,
  saddle counting, and linking segments into chains by lattice-edge identity, in
  the documented order, with open chains ending at free ends.
- `topology`: splitting traced edges at their bends into pieces, vertex degrees
  and the connectivity check of the stroke graph.
- `forced`: the shape and breakpoint checks of a forced boundary fit.
- `multicolor`, `formation`, `palette`, `refusals`: label-field regions, boundary
  tallies, nearest-colour labelling, disagreement counts, canonical digests, configuration refusals and the
  typed refusals of the evidence lanes.
- `grammar`, `corner`, `primitive`, `tally`: the span grammar's jet classes and
  shared-tangent rules, the dyadic turning ladder and corner anchors, primitive
  parameter counts, and a named counter.

`app/` holds what Verus does not take: the floating-point stages around the
library (level thresholds and vertex positions, Otsu's threshold, the distance
transform, polyline simplification, colour costs), the surrogate score with its
floating-point value, and the serialisable and displayable forms of the library's
records.
