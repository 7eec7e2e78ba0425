//! De Casteljau's algorithm for evaluating and splitting Bézier curves of
//! any degree.
//!
//! The scheme starts from the control points and repeatedly replaces a row
//! of points by the interpolations of its neighbours, until one point is
//! left: the point of the curve at the chosen parameter. The first and last
//! points of the rows are the control points of the two halves of the curve
//! split at that parameter.
//!
//! The interpolation `lerp` is the caller's (for a parameter `t`, the map
//! `(a, b) ↦ a + t (b - a)`), so every contract below is stated over what the
//! calls of `lerp` return.
use vstd::prelude::*;

verus! {

/// The interpolation may be called on any two points.
pub open spec fn total<P, F: Fn(P, P) -> P>(lerp: F) -> bool {
    forall|a: P, b: P| call_requires(lerp, (a, b))
}

/// The interpolation gives one result for each pair of points.
pub open spec fn deterministic<P, F: Fn(P, P) -> P>(lerp: F) -> bool {
    forall|a: P, b: P, r: P, s: P|
        call_ensures(lerp, (a, b), r) && call_ensures(lerp, (a, b), s) ==> r == s
}

/// `next` is what one round of interpolation makes of `layer`: one point
/// fewer, point `i` an interpolation of points `i` and `i + 1`.
pub open spec fn is_next_layer<P, F: Fn(P, P) -> P>(lerp: F, layer: Seq<P>, next: Seq<P>) -> bool {
    &&& next.len() + 1 == layer.len()
    &&& forall|i: int|
        0 <= i < next.len() ==> call_ensures(lerp, (layer[i], layer[i + 1]), #[trigger] next[i])
}

/// `layers` are the first rows of de Casteljau's scheme on `points`: the
/// first row is `points`, and each row is the next layer of the one before.
pub open spec fn is_scheme_prefix<P, F: Fn(P, P) -> P>(
    lerp: F,
    points: Seq<P>,
    layers: Seq<Seq<P>>,
) -> bool {
    &&& layers.len() >= 1
    &&& layers[0] == points
    &&& forall|k: int|
        0 <= k < layers.len() - 1 ==> #[trigger] is_next_layer(lerp, layers[k], layers[k + 1])
}

/// `layers` is the whole scheme on `points`: no rows for no points, and
/// otherwise one row for each point, the last row a single point.
pub open spec fn is_scheme<P, F: Fn(P, P) -> P>(
    lerp: F,
    points: Seq<P>,
    layers: Seq<Seq<P>>,
) -> bool {
    if points.len() == 0 {
        layers.len() == 0
    } else {
        is_scheme_prefix(lerp, points, layers) && layers.len() == points.len()
    }
}

/// The view of a vector of rows as a sequence of sequences.
pub open spec fn rows_view<P>(rows: Seq<Vec<P>>) -> Seq<Seq<P>> {
    rows.map_values(|row: Vec<P>| row@)
}

/// Left half of a split: the first point of each row.
pub open spec fn left_half<P>(layers: Seq<Seq<P>>) -> Seq<P> {
    Seq::new(layers.len(), |k: int| layers[k][0])
}

/// Right half of a split: the last point of each row, from the last row
/// back to the first.
pub open spec fn right_half<P>(layers: Seq<Seq<P>>) -> Seq<P> {
    Seq::new(
        layers.len(),
        |k: int| layers[layers.len() - 1 - k][layers[layers.len() - 1 - k].len() - 1],
    )
}

/// Row `k` of the scheme holds `n - k` points.
pub proof fn lemma_row_lengths<P, F: Fn(P, P) -> P>(lerp: F, points: Seq<P>, layers: Seq<Seq<P>>)
    requires
        is_scheme_prefix(lerp, points, layers),
    ensures
        forall|k: int| 0 <= k < layers.len() ==> #[trigger] layers[k].len() == points.len() - k,
    decreases layers.len(),
{
    if layers.len() > 1 {
        let shorter = layers.drop_last();
        assert(is_scheme_prefix(lerp, points, shorter)) by {
            assert forall|k: int| 0 <= k < shorter.len() - 1 implies #[trigger] is_next_layer(
                lerp,
                shorter[k],
                shorter[k + 1],
            ) by {
                assert(is_next_layer(lerp, layers[k], layers[k + 1]));
            }
        }
        lemma_row_lengths(lerp, points, shorter);
        let last = layers.len() - 1;
        let j = last - 1;
        assert(is_next_layer(lerp, layers[j], layers[j + 1]));
        assert(shorter[last - 1] == layers[last - 1]);
        assert forall|k: int| 0 <= k < layers.len() implies #[trigger] layers[k].len()
            == points.len() - k by {
            if k < last {
                assert(shorter[k] == layers[k]);
            }
        }
    }
}

fn copy_points<P: Copy>(points: &[P]) -> (out: Vec<P>)
    ensures
        out@ == points@,
{
    let mut out: Vec<P> = Vec::new();
    for i in 0..points.len()
        invariant
            out@ == points@.take(i as int),
    {
        out.push(points[i]);
        assert(out@ == points@.take(i + 1));
    }
    assert(points@.take(points.len() as int) == points@);
    out
}

fn next_layer<P: Copy, F: Fn(P, P) -> P>(layer: &Vec<P>, lerp: &F) -> (next: Vec<P>)
    requires
        layer.len() >= 1,
        total(*lerp),
    ensures
        is_next_layer(*lerp, layer@, next@),
{
    let n = layer.len() - 1;
    let mut next: Vec<P> = Vec::new();
    for i in 0..n
        invariant
            n + 1 == layer.len(),
            total(*lerp),
            next.len() == i,
            forall|j: int|
                0 <= j < i ==> call_ensures(*lerp, (layer@[j], layer@[j + 1]), #[trigger] next@[j]),
    {
        let q = lerp(layer[i], layer[i + 1]);
        next.push(q);
    }
    next
}

/// Evaluate a Bézier curve of arbitrary degree using de Casteljau's algorithm.
/// `control_points` defines the curve and `lerp` interpolates two points at
/// the parameter; with no control points the result is `origin`.
pub fn de_casteljau<P: Copy, F: Fn(P, P) -> P>(control_points: &[P], origin: P, lerp: F) -> (point:
    P)
    requires
        total(lerp),
    ensures
        control_points@.len() == 0 ==> point == origin,
        control_points@.len() == 1 ==> point == control_points@[0],
        control_points@.len() > 0 ==> exists|layers: Seq<Seq<P>>|
            is_scheme(lerp, control_points@, layers) && point == layers[layers.len() - 1][0],
{
    if control_points.len() == 0 {
        return origin;
    }
    if control_points.len() == 1 {
        proof {
            let layers = seq![control_points@];
            assert(is_scheme(lerp, control_points@, layers));
        }
        return control_points[0];
    }
    let mut pts = copy_points(control_points);
    let ghost mut layers: Seq<Seq<P>> = seq![pts@];
    while pts.len() > 1
        invariant
            total(lerp),
            pts.len() >= 1,
            is_scheme_prefix(lerp, control_points@, layers),
            layers[layers.len() - 1] == pts@,
            layers.len() + pts.len() == control_points@.len() + 1,
        decreases pts.len(),
    {
        let next = next_layer(&pts, &lerp);
        proof {
            let old_layers = layers;
            layers = layers.push(next@);
            assert forall|k: int| 0 <= k < layers.len() - 1 implies #[trigger] is_next_layer(
                lerp,
                layers[k],
                layers[k + 1],
            ) by {
                if k < old_layers.len() - 1 {
                    assert(is_next_layer(lerp, old_layers[k], old_layers[k + 1]));
                }
            }
        }
        pts = next;
    }
    proof {
        assert(is_scheme(lerp, control_points@, layers));
    }
    pts[0]
}


/// Get all intermediate points from de Casteljau's algorithm: one row for
/// each level, the control points first, each further row the
/// interpolations of neighbours in the row before, down to a single point.
/// No control points give no rows.
pub fn de_casteljau_layers<P: Copy, F: Fn(P, P) -> P>(control_points: &[P], lerp: F) -> (layers:
    Vec<Vec<P>>)
    requires
        total(lerp),
    ensures
        is_scheme(lerp, control_points@, rows_view(layers@)),
        layers.len() == control_points@.len(),
        forall|k: int|
            0 <= k < layers.len() ==> #[trigger] layers@[k].len() == control_points@.len() - k,
{
    let mut layers: Vec<Vec<P>> = Vec::new();
    if control_points.len() == 0 {
        proof {
            assert(rows_view(layers@).len() == 0);
        }
        return layers;
    }
    layers.push(copy_points(control_points));
    proof {
        assert(rows_view(layers@) == seq![control_points@]);
    }
    while layers[layers.len() - 1].len() > 1
        invariant
            total(lerp),
            layers.len() >= 1,
            is_scheme_prefix(lerp, control_points@, rows_view(layers@)),
            layers.len() + layers@[layers.len() - 1].len() == control_points@.len() + 1,
            layers@[layers.len() - 1].len() >= 1,
        decreases layers@[layers.len() - 1].len(),
    {
        let ghost old_rows = rows_view(layers@);
        let next = next_layer(&layers[layers.len() - 1], &lerp);
        layers.push(next);
        proof {
            let rows = rows_view(layers@);
            assert(rows == old_rows.push(next@));
            assert forall|k: int| 0 <= k < rows.len() - 1 implies #[trigger] is_next_layer(
                lerp,
                rows[k],
                rows[k + 1],
            ) by {
                if k < old_rows.len() - 1 {
                    assert(is_next_layer(lerp, old_rows[k], old_rows[k + 1]));
                }
            }
        }
    }
    proof {
        let rows = rows_view(layers@);
        lemma_row_lengths(lerp, control_points@, rows);
        assert forall|k: int| 0 <= k < layers.len() implies #[trigger] layers@[k].len()
            == control_points@.len() - k by {
            assert(rows[k] == layers@[k]@);
        }
    }
    layers
}

/// Split a Bézier curve at the parameter of `lerp` using de Casteljau.
/// Returns the control points of the left and right sub-curves: the first
/// point of each row of the scheme, and the last point of each row from the
/// last row back. Both halves start or end at the control points' ends, and
/// they meet at the point of the curve at the parameter.
pub fn de_casteljau_split<P: Copy, F: Fn(P, P) -> P>(control_points: &[P], lerp: F) -> (halves: (
    Vec<P>,
    Vec<P>,
))
    requires
        total(lerp),
    ensures
        exists|layers: Seq<Seq<P>>|
            {
                &&& is_scheme(lerp, control_points@, layers)
                &&& halves.0@ == left_half(layers)
                &&& halves.1@ == right_half(layers)
            },
        halves.0.len() == control_points@.len(),
        halves.1.len() == control_points@.len(),
        control_points@.len() > 0 ==> {
            let n = control_points@.len() - 1;
            &&& halves.0@[0] == control_points@[0]
            &&& halves.1@[n] == control_points@[n]
            &&& halves.0@[n] == halves.1@[0]
        },
{
    let layers = de_casteljau_layers(control_points, lerp);
    let n = layers.len();
    let ghost rows = rows_view(layers@);
    let mut left: Vec<P> = Vec::new();
    for i in 0..n
        invariant
            n == layers.len(),
            n == control_points@.len(),
            rows == rows_view(layers@),
            forall|k: int| 0 <= k < n ==> #[trigger] layers@[k].len() == n - k,
            left@ == left_half(rows).take(i as int),
    {
        assert(layers@[i as int].len() == n - i);
        left.push(layers[i][0]);
        assert(left@ == left_half(rows).take(i + 1));
    }
    let mut right: Vec<P> = Vec::new();
    let mut i = n;
    while i > 0
        invariant
            i <= n,
            n == layers.len(),
            n == control_points@.len(),
            rows == rows_view(layers@),
            forall|k: int| 0 <= k < n ==> #[trigger] layers@[k].len() == n - k,
            right@ == right_half(rows).take(n - i),
        decreases i,
    {
        i = i - 1;
        let row = &layers[i];
        assert(layers@[i as int].len() == n - i);
        right.push(row[row.len() - 1]);
        assert(right@ == right_half(rows).take(n - i));
    }
    proof {
        assert(left@ == left_half(rows));
        assert(right@ == right_half(rows));
        if n > 0 {
            let m = (n - 1) as int;
            assert(is_scheme_prefix(lerp, control_points@, rows));
            assert(rows[0] == control_points@);
            assert(rows[m] == layers@[m]@);
            assert(rows[0] == layers@[0]@);
            assert(layers@[m].len() == 1);
            assert(layers@[0].len() == n);
            assert(left@[0] == rows[0][0]);
            assert(left@[m] == rows[m][0]);
            assert(right@[0] == rows[m][0]);
            assert(right@[m] == rows[0][m]);
        }
    }
    (left, right)
}


/// Two schemes on the same control points agree row by row up to row `k`,
/// when the interpolation gives one result for each pair.
proof fn lemma_rows_agree<P, F: Fn(P, P) -> P>(
    lerp: F,
    points: Seq<P>,
    first: Seq<Seq<P>>,
    second: Seq<Seq<P>>,
    k: int,
)
    requires
        deterministic(lerp),
        is_scheme(lerp, points, first),
        is_scheme(lerp, points, second),
        0 <= k < points.len(),
    ensures
        first[k] == second[k],
    decreases k,
{
    if k > 0 {
        lemma_rows_agree(lerp, points, first, second, k - 1);
        let j = k - 1;
        assert(is_next_layer(lerp, first[j], first[j + 1]));
        assert(is_next_layer(lerp, second[j], second[j + 1]));
        assert forall|i: int| 0 <= i < first[k].len() implies first[k][i] == second[k][i] by {
            assert(call_ensures(lerp, (first[j][i], first[j][i + 1]), first[j + 1][i]));
            assert(call_ensures(lerp, (second[j][i], second[j][i + 1]), second[j + 1][i]));
        }
        assert(first[k] =~= second[k]);
    }
}

/// With an interpolation that gives one result for each pair of points, the
/// scheme on given control points is unique.
pub proof fn lemma_scheme_unique<P, F: Fn(P, P) -> P>(
    lerp: F,
    points: Seq<P>,
    first: Seq<Seq<P>>,
    second: Seq<Seq<P>>,
)
    requires
        deterministic(lerp),
        is_scheme(lerp, points, first),
        is_scheme(lerp, points, second),
    ensures
        first == second,
{
    assert forall|k: int| 0 <= k < first.len() implies first[k] == second[k] by {
        lemma_rows_agree(lerp, points, first, second, k);
    }
    assert(first =~= second);
}

/// The point that evaluation gives is where the two halves of a split at
/// the same parameter meet (for an interpolation that gives one result for
/// each pair): the end of the left half and the start of the right half.
pub proof fn lemma_evaluation_is_split_point<P, F: Fn(P, P) -> P>(
    lerp: F,
    points: Seq<P>,
    evaluated: Seq<Seq<P>>,
    split: Seq<Seq<P>>,
)
    requires
        deterministic(lerp),
        points.len() > 0,
        is_scheme(lerp, points, evaluated),
        is_scheme(lerp, points, split),
    ensures
        evaluated[evaluated.len() - 1][0] == left_half(split)[points.len() - 1],
        evaluated[evaluated.len() - 1][0] == right_half(split)[0],
{
    lemma_scheme_unique(lerp, points, evaluated, split);
    lemma_row_lengths(lerp, points, split);
}

/// Two splits of the same control points at the same parameter (for an
/// interpolation that gives one result for each pair) have the same halves:
/// the fixed-degree splits of the curve types and `de_casteljau_split`
/// agree.
pub proof fn lemma_split_unique<P, F: Fn(P, P) -> P>(
    lerp: F,
    points: Seq<P>,
    first: Seq<Seq<P>>,
    second: Seq<Seq<P>>,
)
    requires
        deterministic(lerp),
        is_scheme(lerp, points, first),
        is_scheme(lerp, points, second),
    ensures
        left_half(first) == left_half(second),
        right_half(first) == right_half(second),
{
    lemma_scheme_unique(lerp, points, first, second);
}

/// The part of a scheme above a window of consecutive control points is the
/// scheme of that window: row `j` of the scheme on the `m` points from `i`
/// on is row `j` of the whole scheme from position `i` on (for an
/// interpolation that gives one result for each pair).
proof fn lemma_window<P, F: Fn(P, P) -> P>(
    lerp: F,
    points: Seq<P>,
    layers: Seq<Seq<P>>,
    window: Seq<Seq<P>>,
    i: int,
    m: int,
    j: int,
)
    requires
        deterministic(lerp),
        is_scheme(lerp, points, layers),
        0 <= i,
        1 <= m,
        i + m <= points.len(),
        is_scheme(lerp, points.subrange(i, i + m), window),
        0 <= j < m,
    ensures
        forall|h: int| 0 <= h < m - j ==> #[trigger] window[j][h] == layers[j][i + h],
    decreases j,
{
    lemma_row_lengths(lerp, points, layers);
    lemma_row_lengths(lerp, points.subrange(i, i + m), window);
    if j > 0 {
        let g = j - 1;
        lemma_window(lerp, points, layers, window, i, m, g);
        assert(is_next_layer(lerp, layers[g], layers[g + 1]));
        assert(is_next_layer(lerp, window[g], window[g + 1]));
        assert forall|h: int| 0 <= h < m - j implies #[trigger] window[j][h] == layers[j][i + h] by {
            assert(window[g][h] == layers[g][i + h]);
            assert(window[g][h + 1] == layers[g][i + h + 1]);
            assert(call_ensures(lerp, (window[g][h], window[g][h + 1]), window[g + 1][h]));
            assert(call_ensures(lerp, (layers[g][i + h], layers[g][i + h + 1]), layers[g + 1][i + h]));
        }
    } else {
        assert forall|h: int| 0 <= h < m - j implies #[trigger] window[j][h] == layers[j][i + h] by {
            assert(window[0] == points.subrange(i, i + m));
            assert(layers[0] == points);
        }
    }
}

/// Control point `k` of the left half of a split at a parameter is the point
/// at that parameter of the curve with the first `k + 1` control points
/// (for an interpolation that gives one result for each pair).
pub proof fn lemma_left_half_points<P, F: Fn(P, P) -> P>(
    lerp: F,
    points: Seq<P>,
    layers: Seq<Seq<P>>,
    k: int,
    head: Seq<Seq<P>>,
)
    requires
        deterministic(lerp),
        is_scheme(lerp, points, layers),
        0 <= k < points.len(),
        is_scheme(lerp, points.take(k + 1), head),
    ensures
        left_half(layers).len() == points.len(),
        left_half(layers)[k] == head[head.len() - 1][0],
{
    assert(points.take(k + 1) == points.subrange(0, k + 1));
    lemma_window(lerp, points, layers, head, 0, k + 1, k);
    assert(head[k][0] == layers[k][0int + 0]);
}

/// Control point `k` of the right half of a split at a parameter is the
/// point at that parameter of the curve with the control points from `k` on
/// (for an interpolation that gives one result for each pair).
pub proof fn lemma_right_half_points<P, F: Fn(P, P) -> P>(
    lerp: F,
    points: Seq<P>,
    layers: Seq<Seq<P>>,
    k: int,
    tail: Seq<Seq<P>>,
)
    requires
        deterministic(lerp),
        is_scheme(lerp, points, layers),
        0 <= k < points.len(),
        is_scheme(lerp, points.skip(k), tail),
    ensures
        right_half(layers).len() == points.len(),
        right_half(layers)[k] == tail[tail.len() - 1][0],
{
    let n = points.len() as int;
    assert(points.skip(k) == points.subrange(k, n));
    lemma_row_lengths(lerp, points, layers);
    let j = n - 1 - k;
    lemma_window(lerp, points, layers, tail, k, n - k, j);
    assert(tail[j][0] == layers[j][k + 0]);
    assert(layers[j].len() == k + 1);
}

/// Split at the start of the curve (an interpolation that keeps its first
/// argument, as at `t = 0`): the right half is the whole curve, and the left
/// half is the first control point repeated.
pub proof fn lemma_split_at_start<P, F: Fn(P, P) -> P>(
    lerp: F,
    points: Seq<P>,
    layers: Seq<Seq<P>>,
)
    requires
        forall|a: P, b: P, r: P| call_ensures(lerp, (a, b), r) ==> r == a,
        points.len() > 0,
        is_scheme(lerp, points, layers),
    ensures
        right_half(layers) == points,
        left_half(layers) == Seq::new(points.len(), |k: int| points[0]),
{
    let n = points.len();
    lemma_row_lengths(lerp, points, layers);
    assert forall|k: int| 0 <= k < n implies #[trigger] layers[k] == points.take(n - k) by {
        lemma_first_rows(lerp, points, layers, k);
    }
    assert forall|k: int| 0 <= k < n implies right_half(layers)[k] == points[k] by {
        assert(layers[n - 1 - k] == points.take(n - (n - 1 - k)));
    }
    assert forall|k: int| 0 <= k < n implies left_half(layers)[k] == points[0] by {
        assert(layers[k] == points.take(n - k));
    }
    assert(right_half(layers) =~= points);
    assert(left_half(layers) =~= Seq::new(points.len(), |k: int| points[0]));
}

/// Split at the end of the curve (an interpolation that keeps its second
/// argument, as at `t = 1`): the left half is the whole curve, and the right
/// half is the last control point repeated.
pub proof fn lemma_split_at_end<P, F: Fn(P, P) -> P>(
    lerp: F,
    points: Seq<P>,
    layers: Seq<Seq<P>>,
)
    requires
        forall|a: P, b: P, r: P| call_ensures(lerp, (a, b), r) ==> r == b,
        points.len() > 0,
        is_scheme(lerp, points, layers),
    ensures
        left_half(layers) == points,
        right_half(layers) == Seq::new(points.len(), |k: int| points[points.len() - 1]),
{
    let n = points.len();
    lemma_row_lengths(lerp, points, layers);
    assert forall|k: int| 0 <= k < n implies #[trigger] layers[k] == points.skip(k) by {
        lemma_last_rows(lerp, points, layers, k);
    }
    assert forall|k: int| 0 <= k < n implies left_half(layers)[k] == points[k] by {
        assert(layers[k] == points.skip(k));
    }
    assert forall|k: int| 0 <= k < n implies right_half(layers)[k] == points[n - 1] by {
        assert(layers[n - 1 - k] == points.skip(n - 1 - k));
    }
    assert(left_half(layers) =~= points);
    assert(right_half(layers) =~= Seq::new(points.len(), |k: int| points[points.len() - 1]));
}

/// Row `k` of a scheme whose interpolation always gives its first argument
/// is the control points, less the last `k`.
proof fn lemma_first_rows<P, F: Fn(P, P) -> P>(
    lerp: F,
    points: Seq<P>,
    layers: Seq<Seq<P>>,
    k: int,
)
    requires
        forall|a: P, b: P, r: P| call_ensures(lerp, (a, b), r) ==> r == a,
        is_scheme(lerp, points, layers),
        0 <= k < points.len(),
    ensures
        layers[k] == points.take(points.len() - k),
    decreases k,
{
    lemma_row_lengths(lerp, points, layers);
    if k == 0 {
        assert(points.take(points.len() as int) =~= points);
    } else {
        lemma_first_rows(lerp, points, layers, k - 1);
        let j = k - 1;
        assert(is_next_layer(lerp, layers[j], layers[j + 1]));
        assert forall|i: int| 0 <= i < layers[k].len() implies layers[k][i] == points[i] by {
            assert(call_ensures(lerp, (layers[j][i], layers[j][i + 1]), layers[j + 1][i]));
        }
        assert(layers[k] =~= points.take(points.len() - k));
    }
}

/// Row `k` of a scheme whose interpolation always gives its second argument
/// is the control points, less the first `k`.
proof fn lemma_last_rows<P, F: Fn(P, P) -> P>(
    lerp: F,
    points: Seq<P>,
    layers: Seq<Seq<P>>,
    k: int,
)
    requires
        forall|a: P, b: P, r: P| call_ensures(lerp, (a, b), r) ==> r == b,
        is_scheme(lerp, points, layers),
        0 <= k < points.len(),
    ensures
        layers[k] == points.skip(k),
    decreases k,
{
    lemma_row_lengths(lerp, points, layers);
    if k == 0 {
        assert(points.skip(0) =~= points);
    } else {
        lemma_last_rows(lerp, points, layers, k - 1);
        let j = k - 1;
        assert(is_next_layer(lerp, layers[j], layers[j + 1]));
        assert forall|i: int| 0 <= i < layers[k].len() implies layers[k][i] == points[i + k] by {
            assert(call_ensures(lerp, (layers[j][i], layers[j][i + 1]), layers[j + 1][i]));
        }
        assert(layers[k] =~= points.skip(k));
    }
}

/// At the start of the curve (an interpolation that keeps its first
/// argument, as at `t = 0`) the scheme ends in the first control point.
pub proof fn lemma_start_point<P, F: Fn(P, P) -> P>(lerp: F, points: Seq<P>, layers: Seq<Seq<P>>)
    requires
        forall|a: P, b: P, r: P| call_ensures(lerp, (a, b), r) ==> r == a,
        points.len() > 0,
        is_scheme(lerp, points, layers),
    ensures
        layers[layers.len() - 1][0] == points[0],
{
    lemma_first_rows(lerp, points, layers, points.len() - 1);
}

/// At the end of the curve (an interpolation that keeps its second
/// argument, as at `t = 1`) the scheme ends in the last control point.
pub proof fn lemma_end_point<P, F: Fn(P, P) -> P>(lerp: F, points: Seq<P>, layers: Seq<Seq<P>>)
    requires
        forall|a: P, b: P, r: P| call_ensures(lerp, (a, b), r) ==> r == b,
        points.len() > 0,
        is_scheme(lerp, points, layers),
    ensures
        layers[layers.len() - 1][0] == points[points.len() - 1],
{
    lemma_last_rows(lerp, points, layers, points.len() - 1);
}

} // verus!
