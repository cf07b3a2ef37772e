//! Filling the road map from prepared files.
use vstd::prelude::*;

use crate::boundary::{
    crossing, in_region, point_inside_active_region, tells_crossing, BoundaryRepo,
};
use crate::geometry::{measure, measures, metric, Coord};
use crate::json::{pair_from_value, pair_of, scalar_text, value_to_string, Coordinates, Scalar};
use crate::repo::{Edge, EdgeList, EdgeView, NodeRepo, RepoNode, RepoNodeView, RepoView};
use crate::text::{parse_i64, parsed_i64, pieces, same_text, split, trim, trimmed};
use crate::walks::{has_road};

verus! {

/// What `k` gives as the cell of a place.
pub open spec fn cell_of<K: Fn(Coord) -> u64>(k: K, at: Coord) -> u64 {
    choose|r: u64| call_ensures(k, (at,), r)
}

/// `k` is total, and gives the same cell for the same place.
pub open spec fn tells_cells<K: Fn(Coord) -> u64>(k: K) -> bool {
    &&& forall|at: Coord| call_requires(k, (at,))
    &&& forall|at: Coord, r: u64| #[trigger] call_ensures(k, (at,), r) ==> r == cell_of(k, at)
}

/// `k` as a mathematical function.
pub open spec fn celling<K: Fn(Coord) -> u64>(k: K) -> spec_fn(Coord) -> u64 {
    |at: Coord| cell_of(k, at)
}

/// `n` may read `r` in a text.
pub open spec fn may_read<N: Fn(String) -> Option<i64>>(
    n: N,
    text: Seq<char>,
    r: Option<i64>,
) -> bool {
    exists|s: String| s@ == text && #[trigger] call_ensures(n, (s,), r)
}

/// What `n` reads in a text.
pub open spec fn number_of<N: Fn(String) -> Option<i64>>(n: N, text: Seq<char>) -> Option<i64> {
    choose|r: Option<i64>| may_read(n, text, r)
}

/// `n` is total, and reads the same in the same text.
pub open spec fn reads_numbers<N: Fn(String) -> Option<i64>>(n: N) -> bool {
    &&& forall|s: String| call_requires(n, (s,))
    &&& forall|s: String, r: Option<i64>| #[trigger]
        call_ensures(n, (s,), r) ==> r == number_of(n, s@)
}

/// `n` as a mathematical function.
pub open spec fn reading<N: Fn(String) -> Option<i64>>(n: N) -> spec_fn(Seq<char>) -> Option<i64> {
    |text: Seq<char>| number_of(n, text)
}

/// A node as the preview file holds it.
pub struct PreviewNode {
    pub id: Option<Scalar>,
    pub coordinates: Coordinates,
    pub degree: i64,
}

/// The text of a value, empty if it has none.
pub open spec fn text_or_empty(value: Option<Scalar>) -> Seq<char> {
    match value {
        Some(v) => match scalar_text(v) {
            Some(text) => text,
            None => Seq::empty(),
        },
        None => Seq::empty(),
    }
}

fn text_of_value(value: &Scalar) -> (r: String)
    ensures
        r@ == text_or_empty(Some(*value)),
{
    match value_to_string(value) {
        Some(text) => text,
        None => String::new(),
    }
}

/// A node of the road map at a place, if it has a name and lies in the region.
pub open spec fn placed_node(
    id: Seq<char>,
    at: Option<Coord>,
    degree: i64,
    region: spec_fn(Coord) -> bool,
    cell: spec_fn(Coord) -> u64,
) -> Option<RepoNodeView> {
    match at {
        Some(coord) => if id.len() > 0 && region(coord) {
            Some(RepoNodeView { id, coord, degree, cell: cell(coord) })
        } else {
            None
        },
        None => None,
    }
}

/// The node that an entry of the preview file stands for.
pub open spec fn preview_node(
    entry: PreviewNode,
    region: spec_fn(Coord) -> bool,
    cell: spec_fn(Coord) -> u64,
) -> Option<RepoNodeView> {
    placed_node(
        text_or_empty(entry.id),
        pair_of(entry.coordinates),
        entry.degree,
        region,
        cell,
    )
}

/// Column `i` of a row, without the white space around it.
pub open spec fn column(row: Seq<Seq<char>>, i: int) -> Option<Seq<char>> {
    if i < row.len() {
        Some(trimmed(row[i]))
    } else {
        None
    }
}

/// What a row of the intersections file says: name, place and degree.
pub struct Intersection {
    pub id: String,
    pub at: Option<Coord>,
    pub degree: i64,
}

/// The place in columns 1 and 2, if both hold a number.
pub open spec fn row_place(
    row: Seq<Seq<char>>,
    number: spec_fn(Seq<char>) -> Option<i64>,
) -> Option<Coord> {
    match (column(row, 1), column(row, 2)) {
        (Some(lat), Some(lon)) => match (number(lat), number(lon)) {
            (Some(lat), Some(lon)) => Some(Coord { lat, lon }),
            _ => None,
        },
        _ => None,
    }
}

/// The degree in column 3, nothing where there is none.
pub open spec fn row_degree(row: Seq<Seq<char>>) -> i64 {
    match column(row, 3) {
        Some(text) => match parsed_i64(text) {
            Some(n) => n,
            None => 0,
        },
        None => 0,
    }
}

/// `r` is what the row `line` says.
pub open spec fn is_row(
    r: Intersection,
    line: Seq<char>,
    number: spec_fn(Seq<char>) -> Option<i64>,
) -> bool {
    let row = pieces(line, ',');
    &&& r.id@ == trimmed(row[0])
    &&& r.at == row_place(row, number)
    &&& r.degree == row_degree(row)
}

proof fn lemma_pieces_not_empty(s: Seq<char>, c: char)
    ensures
        pieces(s, c).len() > 0,
{
}

/// Reads a row of the intersections file.
pub fn read_intersection<N: Fn(String) -> Option<i64>>(line: &str, number: &N) -> (r: Intersection)
    requires
        reads_numbers(*number),
    ensures
        is_row(r, line@, reading(*number)),
{
    let row = split(line, ',');
    proof {
        lemma_pieces_not_empty(line@, ',');
        assert(crate::state::texts(row@).len() == row@.len());
        assert forall|i: int| 0 <= i < row@.len() implies (#[trigger] row@[i])@ == pieces(
            line@,
            ',',
        )[i] by {
            assert(crate::state::texts(row@)[i] == row@[i]@);
        }
    }
    let id = trim(row[0].as_str());
    let lat: Option<i64> = if row.len() > 1 {
        number(trim(row[1].as_str()))
    } else {
        None
    };
    let lon: Option<i64> = if row.len() > 2 {
        number(trim(row[2].as_str()))
    } else {
        None
    };
    let degree: i64 = if row.len() > 3 {
        let text = trim(row[3].as_str());
        match parse_i64(text.as_str()) {
            Some(n) => n,
            None => 0,
        }
    } else {
        0
    };
    let at: Option<Coord> = match (lat, lon) {
        (Some(lat), Some(lon)) => Some(Coord { lat, lon }),
        _ => None,
    };
    Intersection { id, at, degree }
}

/// The node that a row of the intersections file stands for.
pub open spec fn row_node(
    line: Seq<char>,
    number: spec_fn(Seq<char>) -> Option<i64>,
    region: spec_fn(Coord) -> bool,
    cell: spec_fn(Coord) -> u64,
) -> Option<RepoNodeView> {
    let row = pieces(line, ',');
    placed_node(trimmed(row[0]), row_place(row, number), row_degree(row), region, cell)
}

/// The keys with one more, unless it is there.
pub open spec fn key_added<T>(
    keys: Seq<Seq<char>>,
    map: Map<Seq<char>, T>,
    key: Seq<char>,
) -> Seq<Seq<char>> {
    if map.contains_key(key) {
        keys
    } else {
        keys.push(key)
    }
}

/// The road map with a place noted.
pub open spec fn with_place(repo: RepoView, id: Seq<char>, at: Coord) -> RepoView {
    RepoView {
        coords: repo.coords.insert(id, at),
        coord_keys: key_added(repo.coord_keys, repo.coords, id),
        ..repo
    }
}

/// The road map with a node.
pub open spec fn with_node(repo: RepoView, node: RepoNodeView) -> RepoView {
    with_place(
        RepoView {
            nodes: repo.nodes.insert(node.id, node),
            node_keys: key_added(repo.node_keys, repo.nodes, node.id),
            ..repo
        },
        node.id,
        node.coord,
    )
}

/// The road map with the nodes among the first `n` of a list.
pub open spec fn with_nodes(repo: RepoView, list: Seq<Option<RepoNodeView>>, n: int) -> RepoView
    decreases n,
{
    if n <= 0 {
        repo
    } else {
        match list[n - 1] {
            Some(node) => with_node(with_nodes(repo, list, n - 1), node),
            None => with_nodes(repo, list, n - 1),
        }
    }
}

/// Which places lie in the region.
pub open spec fn region_of<C: Fn(Coord, Coord, Coord) -> bool>(
    boundary: BoundaryRepo,
    east: C,
) -> spec_fn(Coord) -> bool {
    |at: Coord| in_region(at, boundary.features@, crossing(east))
}

fn note_place(repo: &mut NodeRepo, id: String, at: Coord)
    ensures
        final(repo)@ == with_place(old(repo)@, id@, at),
{
    repo.coords_by_id.insert(id, at);
}

fn add_placed<C: Fn(Coord, Coord, Coord) -> bool, K: Fn(Coord) -> u64>(
    repo: &mut NodeRepo,
    id: String,
    at: Option<Coord>,
    degree: i64,
    boundary: &BoundaryRepo,
    east: &C,
    cell_at: &K,
)
    requires
        tells_crossing(*east),
        tells_cells(*cell_at),
    ensures
        final(repo)@ == (match placed_node(
            id@,
            at,
            degree,
            region_of(*boundary, *east),
            celling(*cell_at),
        ) {
            Some(node) => with_node(old(repo)@, node),
            None => old(repo)@,
        }),
{
    if let Some(coord) = at {
        let named: bool = id.as_str().as_bytes().len() > 0;
        proof {
            lemma_bytes(id@);
        }
        if named && point_inside_active_region(boundary, coord, east) {
            let cell: u64 = cell_at(coord);
            repo.nodes_by_id.insert(
                id.clone(),
                RepoNode { id: id.clone(), coord, degree, s2_cell_id: cell },
            );
            note_place(repo, id, coord);
        }
    }
}

/// A text is empty exactly when it has no bytes.
pub proof fn lemma_bytes(s: Seq<char>)
    ensures
        vstd::utf8::encode_utf8(s).len() > 0 <==> s.len() > 0,
{
    vstd::utf8::encode_utf8_decode_utf8(s);
    if s.len() == 0 {
        assert(s =~= Seq::<char>::empty());
    }
    if vstd::utf8::encode_utf8(s).len() == 0 {
        let none = Seq::<char>::empty();
        vstd::utf8::encode_utf8_decode_utf8(none);
        assert(vstd::utf8::encode_utf8(s) =~= vstd::utf8::encode_utf8(none));
    }
}

/// The nodes of a preview file.
pub open spec fn preview_nodes(
    entries: Seq<PreviewNode>,
    region: spec_fn(Coord) -> bool,
    cell: spec_fn(Coord) -> u64,
) -> Seq<Option<RepoNodeView>> {
    Seq::new(entries.len(), |i: int| preview_node(entries[i], region, cell))
}

/// Adds the nodes of a preview file that lie in the region.
pub fn load_preview<C: Fn(Coord, Coord, Coord) -> bool, K: Fn(Coord) -> u64>(
    repo: &mut NodeRepo,
    entries: &Vec<PreviewNode>,
    boundary: &BoundaryRepo,
    east: &C,
    cell_at: &K,
)
    requires
        tells_crossing(*east),
        tells_cells(*cell_at),
    ensures
        final(repo)@ == with_nodes(
            old(repo)@,
            preview_nodes(entries@, region_of(*boundary, *east), celling(*cell_at)),
            entries@.len() as int,
        ),
{
    let ghost list = preview_nodes(entries@, region_of(*boundary, *east), celling(*cell_at));
    let ghost before = repo@;
    let mut i: usize = 0;
    while i < entries.len()
        invariant
            tells_crossing(*east),
            tells_cells(*cell_at),
            i <= entries.len(),
            list == preview_nodes(entries@, region_of(*boundary, *east), celling(*cell_at)),
            repo@ == with_nodes(before, list, i as int),
        decreases entries.len() - i,
    {
        let entry = &entries[i];
        let id: String = match &entry.id {
            Some(value) => text_of_value(value),
            None => String::new(),
        };
        let at = pair_from_value(&entry.coordinates);
        proof {
            assert(list[i as int] == preview_node(
                entries@[i as int],
                region_of(*boundary, *east),
                celling(*cell_at),
            ));
        }
        add_placed(repo, id, at, entry.degree, boundary, east, cell_at);
        i += 1;
    }
}

/// The nodes of an intersections file; its first row is the heading.
pub open spec fn csv_nodes(
    lines: Seq<String>,
    number: spec_fn(Seq<char>) -> Option<i64>,
    region: spec_fn(Coord) -> bool,
    cell: spec_fn(Coord) -> u64,
) -> Seq<Option<RepoNodeView>> {
    Seq::new(
        lines.len(),
        |i: int|
            if i == 0 {
                None
            } else {
                row_node(lines[i]@, number, region, cell)
            },
    )
}

/// Adds the nodes of an intersections file that lie in the region.
pub fn load_repo_nodes_from_csv<
    C: Fn(Coord, Coord, Coord) -> bool,
    K: Fn(Coord) -> u64,
    N: Fn(String) -> Option<i64>,
>(
    repo: &mut NodeRepo,
    lines: &Vec<String>,
    boundary: &BoundaryRepo,
    east: &C,
    cell_at: &K,
    number: &N,
)
    requires
        tells_crossing(*east),
        tells_cells(*cell_at),
        reads_numbers(*number),
    ensures
        final(repo)@ == with_nodes(
            old(repo)@,
            csv_nodes(
                lines@,
                reading(*number),
                region_of(*boundary, *east),
                celling(*cell_at),
            ),
            lines@.len() as int,
        ),
{
    let ghost list = csv_nodes(
        lines@,
        reading(*number),
        region_of(*boundary, *east),
        celling(*cell_at),
    );
    let ghost before = repo@;
    let mut i: usize = 0;
    while i < lines.len()
        invariant
            tells_crossing(*east),
            tells_cells(*cell_at),
            reads_numbers(*number),
            i <= lines.len(),
            list == csv_nodes(
                lines@,
                reading(*number),
                region_of(*boundary, *east),
                celling(*cell_at),
            ),
            repo@ == with_nodes(before, list, i as int),
        decreases lines.len() - i,
    {
        if i > 0 {
            let Intersection { id, at, degree } = read_intersection(lines[i].as_str(), number);
            add_placed(repo, id, at, degree, boundary, east, cell_at);
        }
        i += 1;
    }
}

/// An element of a road file: a point, or a way along points.
pub struct Element {
    pub kind: String,
    pub id: Option<Scalar>,
    pub at: Option<Coord>,
    pub nodes: Vec<Scalar>,
}

/// The elements of a road file.
pub struct RoadFile {
    pub elements: Vec<Element>,
}

/// The road map with the place of an element, if it is a point with a name in the
/// region.
pub open spec fn with_point(
    repo: RepoView,
    element: Element,
    region: spec_fn(Coord) -> bool,
) -> RepoView {
    match (element.at, element.id) {
        (Some(at), Some(id)) => match scalar_text(id) {
            Some(name) => if element.kind@ == "node"@ && region(at) {
                with_place(repo, name, at)
            } else {
                repo
            },
            None => repo,
        },
        _ => repo,
    }
}

/// The road map with the places of the first `n` elements.
pub open spec fn with_points(
    repo: RepoView,
    elements: Seq<Element>,
    n: int,
    region: spec_fn(Coord) -> bool,
) -> RepoView
    decreases n,
{
    if n <= 0 {
        repo
    } else {
        with_point(with_points(repo, elements, n - 1, region), elements[n - 1], region)
    }
}

/// Roads with one more that leaves `a`.
pub open spec fn with_edge(
    roads: Map<Seq<char>, Seq<EdgeView>>,
    a: Seq<char>,
    edge: EdgeView,
) -> Map<Seq<char>, Seq<EdgeView>> {
    if roads.contains_key(a) {
        roads.insert(a, roads[a].push(edge))
    } else {
        roads.insert(a, seq![edge])
    }
}

/// The road map with a road between two points, in both directions. Both must
/// have a name and a place.
pub open spec fn with_road(
    repo: RepoView,
    a: Seq<char>,
    b: Seq<char>,
    distance: spec_fn(Coord, Coord) -> u64,
) -> RepoView {
    if a.len() > 0 && b.len() > 0 && repo.coords.contains_key(a) && repo.coords.contains_key(b) {
        let weight = distance(repo.coords[a], repo.coords[b]);
        RepoView {
            adjacency: with_edge(
                with_edge(repo.adjacency, a, EdgeView { to: b, weight }),
                b,
                EdgeView { to: a, weight },
            ),
            ..repo
        }
    } else {
        repo
    }
}

/// The road map with the first `n` pieces of a way.
pub open spec fn with_way(
    repo: RepoView,
    nodes: Seq<Scalar>,
    n: int,
    distance: spec_fn(Coord, Coord) -> u64,
) -> RepoView
    decreases n,
{
    if n <= 0 {
        repo
    } else {
        with_road(
            with_way(repo, nodes, n - 1, distance),
            text_or_empty(Some(nodes[n - 1])),
            text_or_empty(Some(nodes[n])),
            distance,
        )
    }
}

/// The road map with the ways among the first `n` elements.
pub open spec fn with_ways(
    repo: RepoView,
    elements: Seq<Element>,
    n: int,
    distance: spec_fn(Coord, Coord) -> u64,
) -> RepoView
    decreases n,
{
    if n <= 0 {
        repo
    } else {
        let earlier = with_ways(repo, elements, n - 1, distance);
        let element = elements[n - 1];
        if element.kind@ == "way"@ {
            with_way(earlier, element.nodes@, element.nodes@.len() - 1, distance)
        } else {
            earlier
        }
    }
}

/// The road map with a road file: first its points, then its ways.
pub open spec fn with_file(
    repo: RepoView,
    elements: Seq<Element>,
    region: spec_fn(Coord) -> bool,
    distance: spec_fn(Coord, Coord) -> u64,
) -> RepoView {
    with_ways(
        with_points(repo, elements, elements.len() as int, region),
        elements,
        elements.len() as int,
        distance,
    )
}

/// The road map with the first `n` road files.
pub open spec fn with_files(
    repo: RepoView,
    files: Seq<RoadFile>,
    n: int,
    region: spec_fn(Coord) -> bool,
    distance: spec_fn(Coord, Coord) -> u64,
) -> RepoView
    decreases n,
{
    if n <= 0 {
        repo
    } else {
        with_file(
            with_files(repo, files, n - 1, region, distance),
            files[n - 1].elements@,
            region,
            distance,
        )
    }
}

/// Every road has places at both ends, and leads back.
pub open spec fn roads_sound(repo: RepoView) -> bool {
    forall|a: Seq<char>, b: Seq<char>, w: u64| #[trigger]
        has_road(repo, a, b, w) ==> repo.coords.contains_key(a) && repo.coords.contains_key(b)
            && has_road(repo, b, a, w)
}

fn add_edge(repo: &mut NodeRepo, a: &String, to: &String, weight: u64)
    ensures
        final(repo)@ == (RepoView {
            adjacency: with_edge(old(repo)@.adjacency, a@, EdgeView { to: to@, weight }),
            ..old(repo)@
        }),
{
    let edge = Edge { to: to.clone(), weight };
    match repo.adjacency.position(a.as_str()) {
        Some(i) => {
            let list = repo.adjacency.value_at(i);
            let ghost seen = list@;
            let mut edges: Vec<Edge> = Vec::new();
            let mut k: usize = 0;
            while k < list.edges.len()
                invariant
                    seen == list@,
                    k <= list.edges.len(),
                    edges.len() == k,
                    forall|j: int| 0 <= j < k ==> (#[trigger] edges@[j])@ == seen[j],
                decreases list.edges.len() - k,
            {
                edges.push(Edge { to: list.edges[k].to.clone(), weight: list.edges[k].weight });
                k += 1;
            }
            edges.push(edge);
            let next = EdgeList { edges };
            proof {
                assert(next@ =~= seen.push(edge@));
            }
            repo.adjacency.set_at(i, next);
        },
        None => {
            let mut edges: Vec<Edge> = Vec::new();
            edges.push(edge);
            let next = EdgeList { edges };
            proof {
                assert(next@ =~= seq![edge@]);
            }
            repo.adjacency.insert(a.clone(), next);
        },
    }
}

fn add_road<F: Fn(Coord, Coord) -> u64>(
    repo: &mut NodeRepo,
    a: &String,
    b: &String,
    distance: &F,
)
    requires
        measures(*distance),
    ensures
        final(repo)@ == with_road(old(repo)@, a@, b@, metric(*distance)),
{
    proof {
        lemma_bytes(a@);
        lemma_bytes(b@);
    }
    if a.as_str().as_bytes().len() == 0 || b.as_str().as_bytes().len() == 0 {
        return;
    }
    match (repo.coords_by_id.get(a.as_str()), repo.coords_by_id.get(b.as_str())) {
        (Some(from), Some(to)) => {
            let weight: u64 = measure(distance, *from, *to);
            add_edge(repo, a, b, weight);
            add_edge(repo, b, a, weight);
        },
        _ => {},
    }
}

/// Adds the points and roads of road files.
pub fn load_roads<C: Fn(Coord, Coord, Coord) -> bool, F: Fn(Coord, Coord) -> u64>(
    repo: &mut NodeRepo,
    files: &Vec<RoadFile>,
    boundary: &BoundaryRepo,
    east: &C,
    distance: &F,
)
    requires
        tells_crossing(*east),
        measures(*distance),
    ensures
        final(repo)@ == with_files(
            old(repo)@,
            files@,
            files@.len() as int,
            region_of(*boundary, *east),
            metric(*distance),
        ),
{
    let ghost before = repo@;
    let ghost region = region_of(*boundary, *east);
    let ghost d = metric(*distance);
    let mut f: usize = 0;
    while f < files.len()
        invariant
            tells_crossing(*east),
            measures(*distance),
            region == region_of(*boundary, *east),
            d == metric(*distance),
            f <= files.len(),
            repo@ == with_files(before, files@, f as int, region, d),
        decreases files.len() - f,
    {
        let elements = &files[f].elements;
        let ghost start = repo@;
        let mut i: usize = 0;
        while i < elements.len()
            invariant
                tells_crossing(*east),
                region == region_of(*boundary, *east),
                i <= elements.len(),
                repo@ == with_points(start, elements@, i as int, region),
            decreases elements.len() - i,
        {
            let element = &elements[i];
            if same_text(element.kind.as_str(), "node") {
                if let (Some(at), Some(id)) = (&element.at, &element.id) {
                    if let Some(name) = value_to_string(id) {
                        if point_inside_active_region(boundary, *at, east) {
                            note_place(repo, name, *at);
                        }
                    }
                }
            }
            i += 1;
        }
        let ghost pointed = repo@;
        let mut i: usize = 0;
        while i < elements.len()
            invariant
                measures(*distance),
                d == metric(*distance),
                i <= elements.len(),
                repo@ == with_ways(pointed, elements@, i as int, d),
            decreases elements.len() - i,
        {
            let element = &elements[i];
            let ghost ahead = repo@;
            if same_text(element.kind.as_str(), "way") && element.nodes.len() >= 2 {
                let mut k: usize = 0;
                while k < element.nodes.len() - 1
                    invariant
                        measures(*distance),
                        d == metric(*distance),
                        element.nodes.len() >= 2,
                        k <= element.nodes.len() - 1,
                        repo@ == with_way(ahead, element.nodes@, k as int, d),
                    decreases element.nodes.len() - k,
                {
                    let a = text_of_value(&element.nodes[k]);
                    let b = text_of_value(&element.nodes[k + 1]);
                    add_road(repo, &a, &b, distance);
                    k += 1;
                }
            }
            i += 1;
        }
        f += 1;
    }
}

} // verus!
