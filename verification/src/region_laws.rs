//! What holds of the region that is played on.
use vstd::prelude::*;

use crate::boundary::{
    assembled, box_name, corners, crossings, drawn, from_overview, from_query, hull, in_geometry,
    in_polygon, in_region, in_ring, is_listed, is_region, is_whole, listed_names, overview_name,
    pairs_of, recent, region_refreshed, ring_of, signature_of, whole_boxes, BoundaryFeature,
    BoundaryRepo, Feature, Overview, QueryBound, Region,
};
use crate::geometry::{rank_of, within, Bounds, Coord};
use crate::json::{pair_of, points_of, Coordinates, Scalar};
use crate::text::{joined, lowered, signed_digits, trimmed};
use crate::text_laws::{
    law_numbers_are_read_as_written, lemma_before_a_mark, lemma_only_digits,
};

verus! {

/// A box holds what lies between its sides or on them. Keys other than that of minus zero rank
/// as the integers that they are.
pub proof fn law_what_a_box_holds(bounds: Bounds, at: Coord)
    requires
        bounds.west != i64::MIN && bounds.east != i64::MIN && bounds.south != i64::MIN
            && bounds.north != i64::MIN && at.lat != i64::MIN && at.lon != i64::MIN,
    ensures
        within(bounds, at) <==> bounds.west <= at.lon <= bounds.east && bounds.south <= at.lat
            <= bounds.north,
        rank_of(i64::MIN) == rank_of(0),
{
}

/// The box around points is no larger than it must be: each of its sides runs through one of
/// them.
pub proof fn law_a_hull_is_tight(points: Seq<Coord>)
    requires
        points.len() > 0,
    ensures
        hull(None, points) is Some,
        exists|i: int|
            0 <= i < points.len() && (#[trigger] points[i]).lon == hull(None, points)->0.west,
        exists|i: int|
            0 <= i < points.len() && (#[trigger] points[i]).lon == hull(None, points)->0.east,
        exists|i: int|
            0 <= i < points.len() && (#[trigger] points[i]).lat == hull(None, points)->0.south,
        exists|i: int|
            0 <= i < points.len() && (#[trigger] points[i]).lat == hull(None, points)->0.north,
    decreases points.len(),
{
    let n = points.len() - 1;
    let front = points.drop_last();
    assert(points[n] == points.last());
    if n > 0 {
        law_a_hull_is_tight(front);
        let old_box = hull(None, front)->0;
        let w = choose|i: int| 0 <= i < front.len() && (#[trigger] front[i]).lon == old_box.west;
        let e = choose|i: int| 0 <= i < front.len() && (#[trigger] front[i]).lon == old_box.east;
        let s = choose|i: int| 0 <= i < front.len() && (#[trigger] front[i]).lat == old_box.south;
        let t = choose|i: int| 0 <= i < front.len() && (#[trigger] front[i]).lat == old_box.north;
        assert(points[w] == front[w] && points[e] == front[e] && points[s] == front[s] && points[t]
            == front[t]);
    } else {
        assert(hull(None, front) is None);
    }
}

/// The edge that ends at point `i` of a ring, from the point before it, passes the latitude of
/// `at`, to the east of it.
pub open spec fn edge_to_the_east(
    ring: Seq<Coord>,
    i: int,
    at: Coord,
    east: spec_fn(Coord, Coord, Coord) -> bool,
) -> bool {
    let a = ring[i];
    let b = if i == 0 {
        ring[ring.len() - 1]
    } else {
        ring[i - 1]
    };
    &&& {
        ||| rank_of(a.lat) > rank_of(at.lat) && rank_of(b.lat) <= rank_of(at.lat)
        ||| rank_of(a.lat) <= rank_of(at.lat) && rank_of(b.lat) > rank_of(at.lat)
    }
    &&& east(at, a, b)
}

/// The edges of a ring that pass to the east of a point, among the first `n`.
pub open spec fn eastern_edges(
    ring: Seq<Coord>,
    n: int,
    at: Coord,
    east: spec_fn(Coord, Coord, Coord) -> bool,
) -> Set<int> {
    Set::new(|i: int| 0 <= i < n && edge_to_the_east(ring, i, at, east))
}

proof fn lemma_crossings_counted(
    ring: Seq<Coord>,
    n: int,
    at: Coord,
    east: spec_fn(Coord, Coord, Coord) -> bool,
)
    requires
        0 <= n <= ring.len(),
    ensures
        eastern_edges(ring, n, at, east).finite(),
        eastern_edges(ring, n, at, east).len() == crossings(ring, at, n, east),
    decreases n,
{
    let all = eastern_edges(ring, n, at, east);
    if n == 0 {
        assert(all =~= Set::empty());
    } else {
        lemma_crossings_counted(ring, n - 1, at, east);
        let fewer = eastern_edges(ring, n - 1, at, east);
        if edge_to_the_east(ring, n - 1, at, east) {
            assert(all =~= fewer.insert(n - 1));
        } else {
            assert(all =~= fewer);
        }
    }
}

/// A point is inside a ring exactly if an odd number of its edges pass to the east of it. The
/// last point is joined to the first.
pub proof fn law_what_is_inside_a_ring(
    at: Coord,
    ring: Seq<Coord>,
    east: spec_fn(Coord, Coord, Coord) -> bool,
)
    ensures
        eastern_edges(ring, ring.len() as int, at, east).finite(),
        in_ring(at, ring, east) <==> eastern_edges(ring, ring.len() as int, at, east).len() % 2
            == 1,
{
    lemma_crossings_counted(ring, ring.len() as int, at, east);
}

/// A point is in a polygon exactly if it is inside the first ring and outside all others; in
/// many polygons if it is in one of them. Shapes of other kinds hold nothing.
pub proof fn law_what_is_inside_a_shape(
    at: Coord,
    kind: Seq<char>,
    value: Coordinates,
    east: spec_fn(Coord, Coord, Coord) -> bool,
)
    ensures
        kind == "Polygon"@ ==> (in_geometry(at, kind, value, east) <==> value is List
            && value->List_0@.len() > 0 && in_ring(at, ring_of(value->List_0@[0]), east) && !(
        exists|i: int|
            1 <= i < value->List_0@.len() && in_ring(
                at,
                ring_of(#[trigger] value->List_0@[i]),
                east,
            ))),
        kind == "MultiPolygon"@ ==> (in_geometry(at, kind, value, east) <==> value is List
            && exists|i: int|
            0 <= i < value->List_0@.len() && in_geometry(
                at,
                "Polygon"@,
                #[trigger] value->List_0@[i],
                east,
            )),
        kind != "Polygon"@ && kind != "MultiPolygon"@ ==> !in_geometry(at, kind, value, east),
{
    reveal_strlit("Polygon");
    reveal_strlit("MultiPolygon");
    assert("Polygon"@.len() == 7 && "MultiPolygon"@.len() == 12);
    if kind == "MultiPolygon"@ && value is List {
        let polygons = value->List_0@;
        if exists|i: int|
            0 <= i < polygons.len() && in_geometry(at, "Polygon"@, #[trigger] polygons[i], east) {
            let i = choose|i: int|
                0 <= i < polygons.len() && in_geometry(
                    at,
                    "Polygon"@,
                    #[trigger] polygons[i],
                    east,
                );
            assert(in_polygon(at, polygons[i], east));
        }
        if in_geometry(at, kind, value, east) {
            let i = choose|i: int|
                0 <= i < polygons.len() && in_polygon(at, #[trigger] polygons[i], east);
            assert(in_geometry(at, "Polygon"@, polygons[i], east));
        }
    }
}

/// A ring is made of the points of a list, in order; what is no point is left out.
pub proof fn law_one_more_point_of_a_ring(items: Seq<Coordinates>, n: int)
    requires
        0 <= n < items.len(),
    ensures
        pairs_of(items, 0).len() == 0,
        pair_of(items[n]) is Some ==> pairs_of(items, n + 1) == pairs_of(items, n).push(
            pair_of(items[n])->0,
        ),
        pair_of(items[n]) is None ==> pairs_of(items, n + 1) == pairs_of(items, n),
{
}

/// A point lies in the region exactly if it lies in the box around one of its parts, and in
/// the shape of that part.
pub proof fn law_what_is_inside_the_region(
    at: Coord,
    features: Seq<BoundaryFeature>,
    east: spec_fn(Coord, Coord, Coord) -> bool,
)
    ensures
        in_region(at, features, east) <==> exists|i: int|
            0 <= i < features.len() && (#[trigger] features[i]).bbox is Some && within(
                features[i].bbox->0,
                at,
            ) && in_geometry(at, features[i].geometry_type@, features[i].coordinates, east),
{
    if exists|i: int|
        0 <= i < features.len() && (#[trigger] features[i]).bbox is Some && within(
            features[i].bbox->0,
            at,
        ) && in_geometry(at, features[i].geometry_type@, features[i].coordinates, east) {
        let i = choose|i: int|
            0 <= i < features.len() && (#[trigger] features[i]).bbox is Some && within(
                features[i].bbox->0,
                at,
            ) && in_geometry(at, features[i].geometry_type@, features[i].coordinates, east);
        assert(crate::boundary::in_feature(at, features[i], east));
    }
    if in_region(at, features, east) {
        let i = choose|i: int|
            0 <= i < features.len() && crate::boundary::in_feature(
                at,
                #[trigger] features[i],
                east,
            );
        assert(features[i].bbox is Some);
    }
}

/// The names of a region's states are those that the manifest gives as texts, in order,
/// without white space around them and in lower case.
pub proof fn law_names_of_states(states: Seq<Option<String>>, next: Option<String>)
    ensures
        listed_names(Seq::empty()).len() == 0,
        next is Some ==> listed_names(states.push(next)) == listed_names(states).push(
            lowered(trimmed(next->0@)),
        ),
        next is None ==> listed_names(states.push(next)) == listed_names(states),
{
    assert(states.push(next).drop_last() =~= states);
}

/// What a coarse shape is called: by its name, else by its id, else `region`.
pub proof fn law_names_of_coarse_shapes(name: Option<Scalar>, id: Option<Scalar>)
    ensures
        name matches Some(Scalar::Text(text)) ==> overview_name(name, id) == text@,
        name matches Some(Scalar::Number(text)) ==> overview_name(name, id) == text@,
        name is None ==> (id matches Some(Scalar::Text(text)) ==> overview_name(name, id) == text@),
        name is None ==> (id matches Some(Scalar::Number(text)) ==> overview_name(name, id)
            == text@),
        name is None && id is None ==> overview_name(name, id) == "region"@,
        name == Some(Scalar::Other) ==> overview_name(name, id) == "region"@,
{
}

/// What a box is called: by its id, else by its name, else `query_bound`.
pub proof fn law_names_of_boxes(id: Option<Scalar>, name: Option<Scalar>)
    ensures
        id matches Some(Scalar::Text(text)) ==> box_name(id, name) == text@,
        id matches Some(Scalar::Number(text)) ==> box_name(id, name) == text@,
        id is None || id == Some(Scalar::Other) ==> (name matches Some(Scalar::Text(text))
            ==> box_name(id, name) == text@),
        id is None || id == Some(Scalar::Other) ==> (name matches Some(Scalar::Number(text))
            ==> box_name(id, name) == text@),
        (id is None || id == Some(Scalar::Other)) && (name is None || name == Some(
            Scalar::Other,
        )) ==> box_name(id, name) == "query_bound"@,
{
}

/// A box as a shape is a ring that goes around its four corners and comes back, and the box
/// around it is the box.
pub proof fn law_a_box_is_a_ring(feature: Feature, bound: QueryBound)
    requires
        from_query(feature, bound),
        is_whole(bound),
        rank_of(bound.west->0) <= rank_of(bound.east->0),
        rank_of(bound.south->0) <= rank_of(bound.north->0),
    ensures
        ({
            let ring = ring_of(feature.coordinates->List_0@[0]);
            let around = hull(None, points_of(feature.coordinates));
            &&& feature.geometry_type@ == "Polygon"@
            &&& feature.coordinates is List && feature.coordinates->List_0@.len() == 1
            &&& ring.len() == 5 && ring[0] == ring[4]
            &&& forall|i: int|
                0 <= i < 4 ==> ((#[trigger] ring[i]).lat == ring[i + 1].lat) || (ring[i].lon
                    == ring[i + 1].lon)
            &&& ring[0] == (Coord { lat: bound.south->0, lon: bound.west->0 })
            &&& ring[2] == (Coord { lat: bound.north->0, lon: bound.east->0 })
            &&& ring[1].lat == bound.south->0 && ring[3].lat == bound.north->0
            &&& around is Some
            &&& around->0.west == bound.west->0 && rank_of(around->0.east) == rank_of(
                bound.east->0,
            )
            &&& around->0.south == bound.south->0 && rank_of(around->0.north) == rank_of(
                bound.north->0,
            )
        }),
{
    let points = corners(bound);
    reveal_with_fuel(hull, 6);
    assert(points.drop_last().drop_last().drop_last().drop_last().drop_last() =~= Seq::empty());
}

/// The region is made of the shapes of its states, all and in order; only if there is none, of
/// the coarse shapes that are drawn. The boxes that have all their sides come after.
pub proof fn law_what_the_region_is_made_of(
    features: Seq<Feature>,
    region: Region,
    shapes: Seq<Feature>,
    names: Seq<Seq<char>>,
)
    requires
        assembled(features, region, shapes, names),
    ensures
        ({
            let some = exists|i: int| 0 <= i < shapes.len() && is_listed(#[trigger] shapes[i], names);
            let boxes = whole_boxes(region.query_bounds@);
            let base = features.len() - boxes.len();
            &&& 0 <= base
            &&& some ==> features.take(base) == shapes.filter(|f: Feature| is_listed(f, names))
            &&& some ==> base > 0
            &&& !some ==> base == drawn(region.overview_features@).len()
            &&& !some ==> forall|i: int|
                0 <= i < base ==> from_overview(
                    #[trigger] features[i],
                    drawn(region.overview_features@)[i],
                )
            &&& forall|i: int|
                base <= i < features.len() ==> from_query(#[trigger] features[i], boxes[i - base])
        }),
{
    let keep = |f: Feature| is_listed(f, names);
    let picked = shapes.filter(keep);
    if exists|i: int| 0 <= i < shapes.len() && is_listed(#[trigger] shapes[i], names) {
        let i = choose|i: int| 0 <= i < shapes.len() && is_listed(#[trigger] shapes[i], names);
        assert(keep(shapes[i]));
        shapes.lemma_filter_contains(keep, i);
    } else if picked.len() > 0 {
        shapes.lemma_filter_pred(keep, 0);
        assert(picked.contains(picked[0]));
        shapes.lemma_filter_contains_rev(keep, picked[0]);
        let i = shapes.index_of(picked[0]);
        assert(is_listed(shapes[i], names));
    }
}

/// A shape belongs to a state if its name, without white space around it and in lower case, is
/// among the names.
pub proof fn law_which_shapes_belong(feature: Feature, names: Seq<Seq<char>>)
    ensures
        is_listed(feature, names) <==> feature.name is Some && exists|i: int|
            0 <= i < names.len() && #[trigger] names[i] == lowered(trimmed(feature.name->0@)),
{
    if feature.name is Some {
        let name = lowered(trimmed(feature.name->0@));
        if names.contains(name) {
            let i = names.index_of(name);
            assert(names[i] == name);
        }
    }
}

/// What was looked at less than ten seconds ago need not be looked at again, unless it must.
pub proof fn law_ten_seconds_are_recent(then: int, now: int)
    ensures
        now - then < 10_000 ==> recent(then, now, false),
        now - then >= 10_000 ==> !recent(then, now, false),
        !recent(then, now, true),
{
}

/// A region whose signature is the same stays as it is, but for the time at which it was looked
/// at. Where the signature changed, or it must be, it is put together anew.
pub proof fn law_when_the_region_is_made_anew(
    boundary: BoundaryRepo,
    after: BoundaryRepo,
    region: Region,
    shapes: Seq<Feature>,
    names: Seq<Seq<char>>,
    signature: Seq<char>,
    now: i64,
    force: bool,
)
    requires
        region_refreshed(boundary, after, region, shapes, names, signature, now, force),
    ensures
        after.refreshed_at == now,
        after.signature@ == signature,
        !force && boundary.signature@ == signature ==> after.features == boundary.features
            && after.overall_bbox == boundary.overall_bbox && after.signature
            == boundary.signature,
        force || boundary.signature@ != signature ==> exists|features: Seq<Feature>| #[trigger]
            assembled(features, region, shapes, names) && after.features@.len() == features.len()
                && is_region(after, features),
{
}

/// Two regions have the same signature only if their files were changed at the same times and
/// their states are listed alike.
pub proof fn law_signatures_tell_regions_apart(
    a: i64,
    b: i64,
    names: Seq<Seq<char>>,
    c: i64,
    d: i64,
    others: Seq<Seq<char>>,
)
    requires
        signature_of(a as int, b as int, names) == signature_of(c as int, d as int, others),
    ensures
        a == c,
        b == d,
        joined(names, "|"@) == joined(others, "|"@),
{
    reveal_strlit("|");
    assert("|"@ =~= seq!['|']);
    let x = signed_digits(b as int) + seq!['|'] + joined(names, "|"@);
    let y = signed_digits(d as int) + seq!['|'] + joined(others, "|"@);
    lemma_only_digits(a as int, '|');
    lemma_only_digits(b as int, '|');
    lemma_only_digits(c as int, '|');
    lemma_only_digits(d as int, '|');
    assert(signature_of(a as int, b as int, names) =~= signed_digits(a as int) + seq!['|'] + x);
    assert(signature_of(c as int, d as int, others) =~= signed_digits(c as int) + seq!['|'] + y);
    lemma_before_a_mark(signed_digits(a as int), x, signed_digits(c as int), y, '|');
    lemma_before_a_mark(
        signed_digits(b as int),
        joined(names, "|"@),
        signed_digits(d as int),
        joined(others, "|"@),
        '|',
    );
    law_numbers_are_read_as_written(a);
    law_numbers_are_read_as_written(b);
    law_numbers_are_read_as_written(c);
    law_numbers_are_read_as_written(d);
}

/// A box counts if it has all four sides.
pub proof fn law_which_boxes_count(bounds: Seq<QueryBound>, next: QueryBound)
    ensures
        ({
            let whole = next.west is Some && next.east is Some && next.south is Some
                && next.north is Some;
            &&& whole_boxes(Seq::empty()).len() == 0
            &&& whole ==> whole_boxes(bounds.push(next)) == whole_boxes(bounds).push(next)
            &&& !whole ==> whole_boxes(bounds.push(next)) == whole_boxes(bounds)
        }),
{
    reveal(Seq::filter);
    assert(bounds.push(next).drop_last() =~= bounds);
}

/// A coarse shape counts if it is drawn.
pub proof fn law_which_coarse_shapes_count(overviews: Seq<Overview>, next: Overview)
    ensures
        drawn(Seq::empty()).len() == 0,
        next.coordinates is Some ==> drawn(overviews.push(next)) == drawn(overviews).push(next),
        next.coordinates is None ==> drawn(overviews.push(next)) == drawn(overviews),
{
    reveal(Seq::filter);
    assert(overviews.push(next).drop_last() =~= overviews);
}

} // verus!
