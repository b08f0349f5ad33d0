# polyanya

Navigation meshes and any-angle path queries. The crate under `src/` is verified with Verus and
holds the integer and decision logic of the mesh:

- `status`: the outcomes of approximate path and navigation requests, and the status a request
  reports about its start and end points;
- `topology`: the index structure of a mesh (polygons by vertex indices, polygons around each
  vertex) and its islands, the least polygon from which each polygon can be reached;
- `approx`: the routing decisions of path, approximate path and navigation requests, from the
  polygons that contain their points;
- `triangulation`: the index structure of a mesh built from a constrained Delaunay
  triangulation, with the normalised lists of polygons around each vertex;
- `bounds`: the separation of the boundary of a multi-polygon into closed strings, on keys of
  its coordinates;
- `queue`: the queue of pending additions and subtractions of shapes.

`app/` holds the floating-point side: vertex positions, point location, segment crossings,
point corrections, and the triangulation and clipping of shapes; it calls into the verified
crate for every decision. The any-angle search itself is passed in by the caller.
