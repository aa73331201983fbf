# osm2streets

A verified library that turns OpenStreetMap tags into lanes and keeps a street network of
roads and intersections, written in Verus: every function states what it returns in its
contract, and Verus proves the code against it.

## Layout

- `src/lanes.rs`, `src/classic.rs`, `src/placement.rs`, `src/turns.rs`, `src/tags.rs`,
  `src/strings.rs`, `src/names.rs`: lane types and specs, the classic rules that read lanes
  from tags, `placement` and `turn:lanes` values, names per language.
- `src/road.rs`, `src/road_parts.rs`, `src/road_functions.rs`, `src/offsets.rs`: roads, their
  parts, and offsets across a road, with the closed forms of the offsets of named lanes.
- `src/marking.rs`: road markings described semantically: the lines between lanes and the
  stop and yield lines at a road's end.
- `src/network.rs`: the street network, with roads and intersections kept in order of ID,
  and the edits that keep the two sides connected.
- `src/collapse.rs`, `src/degenerate.rs`, `src/sausage.rs`, `src/short_roads.rs`,
  `src/disconnected.rs`: collapsing short roads and degenerate intersections, joining dual
  carriageways that split briefly, trimming dead ends, removing disconnected roads.
- `src/sidepath.rs`: zipping a separately mapped sidepath into the main roads beside it.
- `src/ramps.rs`: which meetings of roads are candidates for the highway on/off ramp shape.
- `src/block.rs`, `src/complexity.rs`, `src/classify.rs`, `src/movements.rs`: walking around
  blocks, the complexity of intersections, conflicts between movements, and which lane leads
  into which.
- `src/types.rs`, `src/ids.rs`, `src/transform.rs`, `src/sequences.rs`: the configuration,
  identifiers, the list of transformations, and the ordering of one-way segments.
- `src/planar.rs`: coloring the faces of the planar graph of the map.
- `src/laws.rs`: properties that span several functions, such as that the edits keep the
  network consistent.
- `app/`: JSON in and out, the floating-point reading of tag values, and the geometric
  questions (which side of a road a sidepath lies on) whose answers the library takes.

Geometry (lines, polygons, lengths) is not part of the library: where a rule depends on a
length, the caller passes it in, in micrometres.
