//! The track: a closed polygon of wall edges, one of which is the finish.

use crate::geometry::{lemma_bounds_apart, lemma_crossing_boxes_overlap, Bounds, Point, Segment};
use vstd::prelude::*;

verus! {

/// What a move does with respect to the track's boundary.
#[derive(Clone, Copy, Debug, PartialEq, Eq, Structural)]
pub enum Crossing {
    /// The first edge the move touches is a wall.
    Wall,
    /// The first edge the move touches is the finish.
    Finish,
    /// The move touches no edge.
    Clear,
}

/// Why a list of vertices does not describe a track.
#[derive(Clone, Copy, Debug, PartialEq, Eq, Structural)]
pub enum BoundaryError {
    /// A polygon needs at least three vertices.
    TooFewVertices,
    /// The finish was given as an edge that the polygon does not have.
    NoSuchEdge,
    /// Two vertices in a row (the last and the first included) are the same
    /// point, so the edge between them is no segment.
    DegenerateEdge,
}

/// The vertex before position `i` on a closed polygon with `len` vertices.
pub open spec fn previous_index(i: int, len: int) -> int {
    if i == 0 {
        len - 1
    } else {
        i - 1
    }
}

/// The edges of the closed polygon through `vertices`: edge `i` runs from the
/// vertex before vertex `i` to vertex `i`, and edge 0 from the last vertex to
/// the first.
pub open spec fn closing_edges(vertices: Seq<Point>) -> Seq<Segment> {
    Seq::new(
        vertices.len(),
        |i: int|
            Segment { from: vertices[previous_index(i, vertices.len() as int)], to: vertices[i] },
    )
}

/// Whether some vertex equals the one before it on the closed polygon.
pub open spec fn has_repeated_vertex(vertices: Seq<Point>) -> bool {
    exists|i: int|
        0 <= i < vertices.len() && #[trigger] vertices[i] == vertices[previous_index(
            i,
            vertices.len() as int,
        )]
}

/// What `from_vertices` answers for a list of vertices and the index of the
/// finish edge: the first fault found, if there is one.
pub open spec fn vertices_fault(vertices: Seq<Point>, finish: int) -> Option<BoundaryError> {
    if vertices.len() < 3 {
        Some(BoundaryError::TooFewVertices)
    } else if finish >= vertices.len() {
        Some(BoundaryError::NoSuchEdge)
    } else if has_repeated_vertex(vertices) {
        Some(BoundaryError::DegenerateEdge)
    } else {
        None
    }
}

/// Whether `edges` with `finish` form a track: at least three edges, none of
/// them a single point, each starting where the one before it ends (the first
/// where the last ends), and `finish` one of them.
pub open spec fn is_track(edges: Seq<Segment>, finish: Segment) -> bool {
    &&& edges.len() >= 3
    &&& forall|i: int| 0 <= i < edges.len() ==> (#[trigger] edges[i]).from != edges[i].to
    &&& forall|i: int|
        0 <= i < edges.len() ==> (#[trigger] edges[i]).from == edges[previous_index(
            i,
            edges.len() as int,
        )].to
    &&& exists|i: int| 0 <= i < edges.len() && #[trigger] edges[i] == finish
}

/// The classification of `needle` by the edges from position `i` on: the first
/// edge that `needle` intersects decides, and it is the finish when it equals
/// `finish` endpoint by endpoint.
pub open spec fn classify_from(edges: Seq<Segment>, finish: Segment, needle: Segment, i: int) -> Crossing
    decreases edges.len() - i,
{
    if i < 0 || i >= edges.len() {
        Crossing::Clear
    } else if needle.spec_intersects(edges[i]) {
        if edges[i] == finish {
            Crossing::Finish
        } else {
            Crossing::Wall
        }
    } else {
        classify_from(edges, finish, needle, i + 1)
    }
}

/// The vertices of the built-in track. Its finish is the last edge, from
/// (31, 30) to (24, 30); the start area lies right of the vertex (5, 31).
pub open spec fn builtin_vertices() -> Seq<Point> {
    seq![
        Point { x: 20, y: 29 },
        Point { x: 16, y: 23 },
        Point { x: 16, y: 19 },
        Point { x: 13, y: 17 },
        Point { x: 10, y: 19 },
        Point { x: 10, y: 31 },
        Point { x: 5, y: 31 },
        Point { x: 5, y: 20 },
        Point { x: 6, y: 17 },
        Point { x: 8, y: 14 },
        Point { x: 12, y: 12 },
        Point { x: 16, y: 13 },
        Point { x: 19, y: 15 },
        Point { x: 21, y: 22 },
        Point { x: 24, y: 25 },
        Point { x: 29, y: 26 },
        Point { x: 31, y: 30 },
        Point { x: 24, y: 30 },
    ]
}

/// A track: the edges of a closed polygon in the order of its vertices, and
/// the one edge among them that is the finish. All other edges are walls.
pub struct Boundaries {
    boundaries: Vec<Segment>,
    /// The box around each edge, kept beside it so that most edges are ruled
    /// out by four comparisons.
    boxes: Vec<Bounds>,
    end: Segment,
}

impl Boundaries {
    /// The edges, in the order in which they are tested.
    pub closed spec fn edges(&self) -> Seq<Segment> {
        self.boundaries@
    }

    /// The finish edge.
    pub closed spec fn finish_edge(&self) -> Segment {
        self.end
    }

    /// Every track value is a closed polygon with its finish among the edges,
    /// and holds the box of each edge.
    #[verifier::type_invariant]
    pub closed spec fn well_formed(&self) -> bool {
        &&& is_track(self.boundaries@, self.end)
        &&& self.boxes@.len() == self.boundaries@.len()
        &&& forall|i: int|
            0 <= i < self.boxes@.len() ==> #[trigger] self.boxes@[i]
                == self.boundaries@[i].spec_bounds()
    }

    /// What the type guarantees of every track.
    pub proof fn lemma_is_track(&self)
        requires
            self.well_formed(),
        ensures
            is_track(self.edges(), self.finish_edge()),
    {
    }

    /// The classification of `needle` by this track.
    pub open spec fn crossing(&self, needle: Segment) -> Crossing {
        classify_from(self.edges(), self.finish_edge(), needle, 0)
    }

    /// Whether the box around `needle` meets the box around the finish edge.
    /// A move along a needle that fails this cannot finish.
    pub open spec fn reaches_finish_box(&self, needle: Segment) -> bool {
        !needle.spec_bounds().spec_apart(self.finish_edge().spec_bounds())
    }

    /// The built-in track.
    pub fn new() -> (track: Boundaries)
        ensures
            track.edges() == closing_edges(builtin_vertices()),
            track.finish_edge() == (Segment {
                from: Point { x: 31, y: 30 },
                to: Point { x: 24, y: 30 },
            }),
    {
        let vertices = vec![
            Point { x: 20, y: 29 },
            Point { x: 16, y: 23 },
            Point { x: 16, y: 19 },
            Point { x: 13, y: 17 },
            Point { x: 10, y: 19 },
            Point { x: 10, y: 31 },
            Point { x: 5, y: 31 },
            Point { x: 5, y: 20 },
            Point { x: 6, y: 17 },
            Point { x: 8, y: 14 },
            Point { x: 12, y: 12 },
            Point { x: 16, y: 13 },
            Point { x: 19, y: 15 },
            Point { x: 21, y: 22 },
            Point { x: 24, y: 25 },
            Point { x: 29, y: 26 },
            Point { x: 31, y: 30 },
            Point { x: 24, y: 30 },
        ];
        assert(vertices@ =~= builtin_vertices());
        proof {
            lemma_builtin_vertices_differ();
        }
        match Boundaries::from_vertices(&vertices, 17) {
            Ok(track) => track,
            Err(_) => vstd::pervasive::unreached(),
        }
    }

    /// The track whose boundary is the closed polygon through `vertices`, with
    /// edge number `finish` as its finish. Edge `i` ends at vertex `i` and
    /// starts at the vertex listed before it; edge 0 starts at the last vertex.
    pub fn from_vertices(vertices: &Vec<Point>, finish: usize) -> (made: Result<
        Boundaries,
        BoundaryError,
    >)
        ensures
            match made {
                Ok(track) => {
                    &&& vertices_fault(vertices@, finish as int).is_none()
                    &&& track.edges() == closing_edges(vertices@)
                    &&& track.finish_edge() == closing_edges(vertices@)[finish as int]
                },
                Err(fault) => vertices_fault(vertices@, finish as int) == Some(fault),
            },
    {
        let len = vertices.len();
        if len < 3 {
            return Err(BoundaryError::TooFewVertices);
        }
        if finish >= len {
            return Err(BoundaryError::NoSuchEdge);
        }
        let mut segments: Vec<Segment> = Vec::new();
        let mut boxes: Vec<Bounds> = Vec::new();
        let mut last_boundary = vertices[len - 1];
        let mut i: usize = 0;
        while i < len
            invariant
                len == vertices.len(),
                len >= 3,
                finish < len,
                0 <= i <= len,
                last_boundary == vertices@[previous_index(i as int, len as int)],
                segments.len() == i,
                boxes.len() == i,
                forall|j: int| 0 <= j < i ==> #[trigger] boxes@[j] == segments@[j].spec_bounds(),
                forall|j: int|
                    0 <= j < i ==> #[trigger] segments@[j] == (Segment {
                        from: vertices@[previous_index(j, len as int)],
                        to: vertices@[j],
                    }),
                forall|j: int|
                    0 <= j < i ==> #[trigger] vertices@[j] != vertices@[previous_index(
                        j,
                        len as int,
                    )],
            decreases len - i,
        {
            let boundary = vertices[i];
            if boundary == last_boundary {
                assert(vertices@[i as int] == vertices@[previous_index(i as int, len as int)]);
                return Err(BoundaryError::DegenerateEdge);
            }
            let segment = Segment::from_pair(last_boundary, boundary);
            segments.push(segment);
            boxes.push(segment.bounds());
            last_boundary = boundary;
            i += 1;
        }
        assert(segments@ =~= closing_edges(vertices@));
        let end = segments[finish];
        proof {
            let edges = segments@;
            assert(edges[finish as int] == end);
            assert forall|k: int| 0 <= k < edges.len() implies (#[trigger] edges[k]).from
                == edges[previous_index(k, edges.len() as int)].to by {
                assert(edges[k].from == vertices@[previous_index(k, len as int)]);
            }
            assert forall|k: int| 0 <= k < edges.len() implies (#[trigger] edges[k]).from
                != edges[k].to by {
                assert(vertices@[k] != vertices@[previous_index(k, len as int)]);
            }
        }
        Ok(Boundaries { boundaries: segments, boxes, end })
    }

    /// Classifies a move along `needle`: the first edge, in the track's order,
    /// that `needle` intersects decides between wall and finish; a move that
    /// intersects no edge is clear.
    pub fn classify(&self, needle: Segment) -> (crossing: Crossing)
        ensures
            crossing == self.crossing(needle),
    {
        proof {
            use_type_invariant(self);
        }
        let reach = needle.bounds();
        let mut i: usize = 0;
        while i < self.boundaries.len()
            invariant
                0 <= i <= self.boundaries.len(),
                self.well_formed(),
                reach == needle.spec_bounds(),
                self.crossing(needle) == classify_from(
                    self.edges(),
                    self.finish_edge(),
                    needle,
                    i as int,
                ),
            decreases self.boundaries.len() - i,
        {
            let segment = self.boundaries[i];
            proof {
                lemma_bounds_apart(needle, segment);
                lemma_crossing_boxes_overlap(needle, segment);
            }
            if !reach.apart(self.boxes[i]) && needle.meets_by_determinants(segment) {
                if segment == self.end {
                    return Crossing::Finish;
                } else {
                    return Crossing::Wall;
                }
            }
            i += 1;
        }
        Crossing::Clear
    }

    /// Whether the box around `needle` meets the box around the finish edge:
    /// a test of four comparisons that every finishing move passes.
    #[verifier::when_used_as_spec(reaches_finish_box)]
    pub fn may_finish(&self, needle: Segment) -> (may: bool)
        ensures
            may == self.reaches_finish_box(needle),
    {
        !needle.bounds().apart(self.end.bounds())
    }

    /// The edges, in the order in which they are tested.
    pub fn segments(&self) -> (edges: &Vec<Segment>)
        ensures
            edges@ == self.edges(),
    {
        &self.boundaries
    }

    /// The finish edge.
    pub fn end(&self) -> (finish: Segment)
        ensures
            finish == self.finish_edge(),
    {
        self.end
    }
}

/// No two vertices in a row of the built-in track coincide.
proof fn lemma_builtin_vertices_differ()
    ensures
        !has_repeated_vertex(builtin_vertices()),
{
    let v = builtin_vertices();
    assert forall|i: int| 0 <= i < v.len() implies v[i] != v[previous_index(i, v.len() as int)] by {
        assert(v.len() == 18);
        assert(v[0].x == 20 && v[1].x == 16 && v[2].y == 19 && v[3].x == 13 && v[4].x == 10);
        assert(v[5].y == 31 && v[6].x == 5 && v[7].y == 20 && v[8].x == 6 && v[9].x == 8);
        assert(v[10].x == 12 && v[11].x == 16 && v[12].x == 19 && v[13].x == 21);
        assert(v[14].x == 24 && v[15].x == 29 && v[16].x == 31 && v[17].x == 24);
    }
}

/// A move finishes only if its needle reaches the box of the finish edge.
pub proof fn lemma_finish_in_reach(track: &Boundaries, needle: Segment)
    ensures
        track.crossing(needle) == Crossing::Finish ==> track.reaches_finish_box(needle),
{
    if track.crossing(needle) == Crossing::Finish {
        lemma_classify_first_hit(track.edges(), track.finish_edge(), needle, 0);
        lemma_crossing_boxes_overlap(needle, track.finish_edge());
        lemma_bounds_apart(needle, track.finish_edge());
    }
}

/// What `crossing` answers, said without recursion: `Clear` when `needle`
/// intersects no edge; otherwise the first edge it intersects decides.
pub proof fn lemma_classify_first_hit(edges: Seq<Segment>, finish: Segment, needle: Segment, i: int)
    requires
        0 <= i <= edges.len(),
    ensures
        classify_from(edges, finish, needle, i) == Crossing::Clear <==> (forall|j: int|
            i <= j < edges.len() ==> !needle.spec_intersects(#[trigger] edges[j])),
        classify_from(edges, finish, needle, i) != Crossing::Clear ==> (exists|k: int|
            {
                &&& i <= k < edges.len()
                &&& needle.spec_intersects(#[trigger] edges[k])
                &&& (forall|j: int| i <= j < k ==> !needle.spec_intersects(#[trigger] edges[j]))
                &&& (classify_from(edges, finish, needle, i) == Crossing::Finish <==> edges[k]
                    == finish)
            }),
    decreases edges.len() - i,
{
    if i < edges.len() {
        if needle.spec_intersects(edges[i]) {
            assert(needle.spec_intersects(edges[i]));
        } else {
            lemma_classify_first_hit(edges, finish, needle, i + 1);
            if classify_from(edges, finish, needle, i) != Crossing::Clear {
                let k = choose|k: int|
                    {
                        &&& i + 1 <= k < edges.len()
                        &&& needle.spec_intersects(#[trigger] edges[k])
                        &&& (forall|j: int|
                            i + 1 <= j < k ==> !needle.spec_intersects(#[trigger] edges[j]))
                        &&& (classify_from(edges, finish, needle, i + 1) == Crossing::Finish
                            <==> edges[k] == finish)
                    };
                assert(forall|j: int| i <= j < k ==> !needle.spec_intersects(#[trigger] edges[j]));
            }
        }
    }
}

} // verus!
