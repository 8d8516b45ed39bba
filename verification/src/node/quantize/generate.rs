//! Choosing a palette for an image: tallying its colors, clustering colors
//! that are close, and ranking the clusters by the pixels they cover.

use std::collections::HashMap;
use vstd::prelude::*;

use super::super::raster::RasterImage;
use super::palette::{entry_or_filler, width_for, Color, DynamicPalette};
use super::{dedup_distance, lemma_pack_injective, pack, spec_dedup_distance, spec_pack};

verus! {

/// How often the color `c` occurs among `pixels`.
pub open spec fn occurrences(pixels: Seq<Color>, c: Color) -> nat
    decreases pixels.len(),
{
    if pixels.len() == 0 {
        0
    } else {
        occurrences(pixels.drop_last(), c) + if pixels.last() == c {
            1nat
        } else {
            0nat
        }
    }
}

/// The colors of `pixels`, each once, in the order in which they first
/// occur.
pub open spec fn first_seen(pixels: Seq<Color>) -> Seq<Color>
    decreases pixels.len(),
{
    if pixels.len() == 0 {
        Seq::empty()
    } else {
        let before = first_seen(pixels.drop_last());
        if before.contains(pixels.last()) {
            before
        } else {
            before.push(pixels.last())
        }
    }
}

/// The colors of `pixels` in the order in which they first occur, each with
/// the number of pixels that have it.
pub open spec fn tallied(pixels: Seq<Color>) -> Seq<(Color, nat)> {
    Seq::new(
        first_seen(pixels).len(),
        |i: int| (first_seen(pixels)[i], occurrences(pixels, first_seen(pixels)[i])),
    )
}

/// The sum of the counts of a list of counted colors.
pub open spec fn weight_sum(counted: Seq<(Color, nat)>) -> nat
    decreases counted.len(),
{
    if counted.len() == 0 {
        0
    } else {
        weight_sum(counted.drop_last()) + counted.last().1
    }
}

/// A cluster of colors that count as one: the color that founded it, the
/// number of pixels of all its members, and for each channel the sum over
/// its members of the channel value times the member's pixels.
pub ghost struct ClusterModel {
    pub first: Color,
    pub total: nat,
    pub red: nat,
    pub green: nat,
    pub blue: nat,
    pub alpha: nat,
}

/// A cluster of colors that count as one: the color that founded it, the
/// number of pixels of all its members, and the sums of its members' colors
/// weighted by their pixels.
#[derive(Clone, Copy, Debug)]
pub struct Cluster {
    pub first: Color,
    pub total: usize,
    pub sum: BigColor,
}

/// Four channel sums, wide enough for the colors of all pixels of an image.
#[derive(Clone, Copy, Debug, PartialEq, Eq)]
pub struct BigColor {
    pub r: u128,
    pub g: u128,
    pub b: u128,
    pub a: u128,
}

impl View for Cluster {
    type V = ClusterModel;

    open spec fn view(&self) -> ClusterModel {
        ClusterModel {
            first: self.first,
            total: self.total as nat,
            red: self.sum.r as nat,
            green: self.sum.g as nat,
            blue: self.sum.b as nat,
            alpha: self.sum.a as nat,
        }
    }
}

/// The cluster that the color `c` with `n` pixels founds.
pub open spec fn founded(c: Color, n: nat) -> ClusterModel {
    ClusterModel {
        first: c,
        total: n,
        red: c.r as nat * n,
        green: c.g as nat * n,
        blue: c.b as nat * n,
        alpha: c.a as nat * n,
    }
}

/// The cluster after the color `c` with `n` pixels has joined it.
pub open spec fn joined(cluster: ClusterModel, c: Color, n: nat) -> ClusterModel {
    ClusterModel {
        first: cluster.first,
        total: cluster.total + n,
        red: cluster.red + c.r as nat * n,
        green: cluster.green + c.g as nat * n,
        blue: cluster.blue + c.b as nat * n,
        alpha: cluster.alpha + c.a as nat * n,
    }
}

/// The color that stands for a cluster: the average of its members, each
/// weighted by its pixels, each channel rounded down.
pub open spec fn representative(cluster: ClusterModel) -> Color {
    Color {
        r: (cluster.red / cluster.total) as u8,
        g: (cluster.green / cluster.total) as u8,
        b: (cluster.blue / cluster.total) as u8,
        a: (cluster.alpha / cluster.total) as u8,
    }
}

/// `i` is where the color `c` belongs among the clusters: the first cluster
/// whose founder is closer to it than `thresh`, or behind the last cluster
/// if there is none.
pub open spec fn joins_at(clusters: Seq<ClusterModel>, c: Color, thresh: nat, i: int) -> bool {
    &&& 0 <= i <= clusters.len()
    &&& forall|j: int| 0 <= j < i ==> spec_dedup_distance((#[trigger] clusters[j]).first, c) >= thresh
    &&& i < clusters.len() ==> spec_dedup_distance(clusters[i].first, c) < thresh
}

/// Where the color `c` belongs among the clusters.
pub open spec fn place_of(clusters: Seq<ClusterModel>, c: Color, thresh: nat) -> int {
    choose|i: int| joins_at(clusters, c, thresh, i)
}

/// The clusters of a list of counted colors: each color in turn joins the
/// first cluster whose founder is closer to it than `thresh`, and founds a
/// cluster of its own if there is none.
pub open spec fn clustered(counted: Seq<(Color, nat)>, thresh: nat) -> Seq<ClusterModel>
    decreases counted.len(),
{
    if counted.len() == 0 {
        Seq::empty()
    } else {
        let before = clustered(counted.drop_last(), thresh);
        let (c, n) = counted.last();
        let i = place_of(before, c, thresh);
        if i < before.len() {
            before.update(i, joined(before[i], c, n))
        } else {
            before.push(founded(c, n))
        }
    }
}

/// For each cluster the color that stands for it and the pixels it covers.
pub open spec fn summaries(clusters: Seq<ClusterModel>) -> Seq<(Color, nat)> {
    Seq::new(clusters.len(), |i: int| (representative(clusters[i]), clusters[i].total))
}

/// `i` is where an item that covers `total` pixels belongs in a ranking:
/// before the first item that covers fewer.
pub open spec fn ranks_at(ranking: Seq<(Color, nat)>, total: nat, i: int) -> bool {
    &&& 0 <= i <= ranking.len()
    &&& forall|j: int| 0 <= j < i ==> (#[trigger] ranking[j]).1 >= total
    &&& i < ranking.len() ==> ranking[i].1 < total
}

/// Where an item that covers `total` pixels belongs in a ranking.
pub open spec fn slot_of(ranking: Seq<(Color, nat)>, total: nat) -> int {
    choose|i: int| ranks_at(ranking, total, i)
}

/// The items ordered by the pixels they cover, most first; items that cover
/// the same number keep their order.
pub open spec fn ranked(items: Seq<(Color, nat)>) -> Seq<(Color, nat)>
    decreases items.len(),
{
    if items.len() == 0 {
        Seq::empty()
    } else {
        let before = ranked(items.drop_last());
        before.insert(slot_of(before, items.last().1), items.last())
    }
}

/// The colors of a list of counted colors.
pub open spec fn colors_of(items: Seq<(Color, nat)>) -> Seq<Color> {
    Seq::new(items.len(), |i: int| items[i].0)
}

/// The colors of the palette chosen for `pixels`: the representatives of
/// the clusters of its colors, ranked by the pixels that each cluster
/// covers.
pub open spec fn palette_colors(pixels: Seq<Color>, thresh: nat) -> Seq<Color> {
    colors_of(ranked(summaries(clustered(tallied(pixels), thresh))))
}

/// A tally in memory as a list of counted colors.
pub open spec fn tally_view(t: Seq<(Color, usize)>) -> Seq<(Color, nat)> {
    Seq::new(t.len(), |i: int| (t[i].0, t[i].1 as nat))
}

/// Clusters in memory as their models.
pub open spec fn clusters_view(clusters: Seq<Cluster>) -> Seq<ClusterModel> {
    Seq::new(clusters.len(), |i: int| clusters[i]@)
}

/// One more pixel counts once more for its own color and not for any other.
pub proof fn lemma_occurrences_push(pixels: Seq<Color>, v: Color, c: Color)
    ensures
        occurrences(pixels.push(v), c) == occurrences(pixels, c) + if v == c {
            1nat
        } else {
            0nat
        },
{
    assert(pixels.push(v).drop_last() =~= pixels);
}

/// A color is among the first seen exactly if it occurs; no color is
/// among them twice.
pub proof fn lemma_first_seen(pixels: Seq<Color>)
    ensures
        forall|c: Color| first_seen(pixels).contains(c) <==> occurrences(pixels, c) > 0,
        forall|i: int, j: int|
            0 <= i < j < first_seen(pixels).len() ==> first_seen(pixels)[i] != first_seen(pixels)[j],
    decreases pixels.len(),
{
    if pixels.len() > 0 {
        let rest = pixels.drop_last();
        let before = first_seen(rest);
        let last = pixels.last();
        lemma_first_seen(rest);
        let now = first_seen(pixels);
        assert forall|c: Color| now.contains(c) <==> occurrences(pixels, c) > 0 by {
            if before.contains(last) {
            } else {
                if now.contains(c) {
                    let i = choose|i: int| 0 <= i < now.len() && now[i] == c;
                    if i < before.len() {
                        assert(before[i] == c);
                    }
                }
                if before.contains(c) {
                    let i = choose|i: int| 0 <= i < before.len() && before[i] == c;
                    assert(now[i] == c);
                }
                if c == last {
                    assert(now[before.len() as int] == c);
                }
            }
        }
        assert forall|i: int, j: int| 0 <= i < j < now.len() implies now[i] != now[j] by {
            if !before.contains(last) && j == before.len() {
                assert(before[i] == now[i]);
            }
        }
    }
}

/// The counts of the colors of an image add up to the number of pixels.
pub proof fn lemma_tallied_weight(pixels: Seq<Color>)
    ensures
        weight_sum(tallied(pixels)) == pixels.len(),
    decreases pixels.len(),
{
    if pixels.len() > 0 {
        let rest = pixels.drop_last();
        let last = pixels.last();
        lemma_tallied_weight(rest);
        lemma_tallied_step(rest, last);
        assert(rest.push(last) =~= pixels);
        let before = tallied(rest);
        if first_seen(rest).contains(last) {
            let at = index_of(first_seen(rest), last);
            lemma_weight_sum_update(before, at, (last, before[at].1 + 1));
        } else {
            assert(before.push((last, 1nat)).drop_last() =~= before);
        }
    }
}

/// The index of a color in a list that holds it.
pub open spec fn index_of(colors: Seq<Color>, c: Color) -> int {
    choose|i: int| 0 <= i < colors.len() && colors[i] == c
}

/// What one more pixel does to a tally: the count of its color goes up by
/// one, or the color is added behind the others with a count of one.
pub proof fn lemma_tallied_step(pixels: Seq<Color>, c: Color)
    ensures
        first_seen(pixels).contains(c) ==> {
            let at = index_of(first_seen(pixels), c);
            &&& 0 <= at < tallied(pixels).len()
            &&& tallied(pixels)[at].0 == c
            &&& tallied(pixels.push(c)) == tallied(pixels).update(
                at,
                (c, tallied(pixels)[at].1 + 1),
            )
        },
        !first_seen(pixels).contains(c) ==> tallied(pixels.push(c)) == tallied(pixels).push(
            (c, 1nat),
        ),
{
    let grown = pixels.push(c);
    assert(grown.drop_last() =~= pixels);
    lemma_first_seen(pixels);
    assert forall|d: Color| occurrences(grown, d) == occurrences(pixels, d) + if c == d {
        1nat
    } else {
        0nat
    } by {
        lemma_occurrences_push(pixels, c, d);
    }
    if first_seen(pixels).contains(c) {
        let at = index_of(first_seen(pixels), c);
        assert(first_seen(grown) == first_seen(pixels));
        assert(tallied(grown) =~= tallied(pixels).update(at, (c, tallied(pixels)[at].1 + 1)));
    } else {
        assert(first_seen(grown) == first_seen(pixels).push(c));
        assert(tallied(grown) =~= tallied(pixels).push((c, 1nat)));
    }
}

/// Replacing one counted color changes the sum of the counts by the
/// difference of the two counts.
pub proof fn lemma_weight_sum_update(counted: Seq<(Color, nat)>, i: int, e: (Color, nat))
    requires
        0 <= i < counted.len(),
    ensures
        weight_sum(counted.update(i, e)) + counted[i].1 == weight_sum(counted) + e.1,
    decreases counted.len(),
{
    let changed = counted.update(i, e);
    if i == counted.len() - 1 {
        assert(changed.drop_last() =~= counted.drop_last());
    } else {
        assert(changed.drop_last() =~= counted.drop_last().update(i, e));
        lemma_weight_sum_update(counted.drop_last(), i, e);
    }
}

/// The counts of the first colors of a list add up to no more than those
/// of all.
pub proof fn lemma_weight_sum_take(counted: Seq<(Color, nat)>, k: int)
    requires
        0 <= k <= counted.len(),
    ensures
        weight_sum(counted.take(k)) <= weight_sum(counted),
    decreases counted.len(),
{
    if k == counted.len() {
        assert(counted.take(k) =~= counted);
    } else {
        assert(counted.drop_last().take(k) =~= counted.take(k));
        lemma_weight_sum_take(counted.drop_last(), k);
    }
}

/// A cluster covers at least one pixel and no more than the colors it was
/// made of have, and no channel sum exceeds 255 times its pixels.
pub open spec fn sound(cluster: ClusterModel, most: nat) -> bool {
    &&& 1 <= cluster.total <= most
    &&& cluster.red <= 255 * cluster.total
    &&& cluster.green <= 255 * cluster.total
    &&& cluster.blue <= 255 * cluster.total
    &&& cluster.alpha <= 255 * cluster.total
}

/// The sum of the pixels that the clusters cover.
pub open spec fn covered(clusters: Seq<ClusterModel>) -> nat
    decreases clusters.len(),
{
    if clusters.len() == 0 {
        0
    } else {
        covered(clusters.drop_last()) + clusters.last().total
    }
}

proof fn lemma_covered_update(clusters: Seq<ClusterModel>, i: int, e: ClusterModel)
    requires
        0 <= i < clusters.len(),
    ensures
        covered(clusters.update(i, e)) + clusters[i].total == covered(clusters) + e.total,
        clusters[i].total <= covered(clusters),
    decreases clusters.len(),
{
    let changed = clusters.update(i, e);
    if i == clusters.len() - 1 {
        assert(changed.drop_last() =~= clusters.drop_last());
    } else {
        assert(changed.drop_last() =~= clusters.drop_last().update(i, e));
        lemma_covered_update(clusters.drop_last(), i, e);
    }
}

proof fn lemma_channel_bound(sum: nat, total: nat, channel: u8, n: nat)
    requires
        sum <= 255 * total,
    ensures
        sum + channel as nat * n <= 255 * (total + n),
{
    assert(channel as nat * n <= 255 * n) by (nonlinear_arith)
        requires
            channel <= 255,
    ;
}

/// The clusters of colors that each have at least one pixel cover together
/// what the colors have, and each of them is sound.
pub proof fn lemma_clustered_sound(counted: Seq<(Color, nat)>, thresh: nat)
    requires
        forall|i: int| 0 <= i < counted.len() ==> (#[trigger] counted[i]).1 >= 1,
    ensures
        covered(clustered(counted, thresh)) == weight_sum(counted),
        forall|i: int|
            0 <= i < clustered(counted, thresh).len() ==> sound(
                #[trigger] clustered(counted, thresh)[i],
                weight_sum(counted),
            ),
    decreases counted.len(),
{
    if counted.len() > 0 {
        let rest = counted.drop_last();
        let before = clustered(rest, thresh);
        let (c, n) = counted.last();
        assert forall|i: int| 0 <= i < rest.len() implies (#[trigger] rest[i]).1 >= 1 by {
            assert(rest[i] == counted[i]);
        }
        lemma_clustered_sound(rest, thresh);
        let i = place_of(before, c, thresh);
        let found = lemma_place_exists(before, c, thresh, 0);
        lemma_place_unique(before, c, thresh, found);
        let now = clustered(counted, thresh);
        assert(counted[counted.len() - 1].1 >= 1);
        if 0 <= i < before.len() {
            let grown = joined(before[i], c, n);
            lemma_covered_update(before, i, grown);
            lemma_channel_bound(before[i].red, before[i].total, c.r, n);
            lemma_channel_bound(before[i].green, before[i].total, c.g, n);
            lemma_channel_bound(before[i].blue, before[i].total, c.b, n);
            lemma_channel_bound(before[i].alpha, before[i].total, c.a, n);
            assert forall|k: int| 0 <= k < now.len() implies sound(
                #[trigger] now[k],
                weight_sum(counted),
            ) by {
                if k != i {
                    assert(now[k] == before[k]);
                    assert(sound(before[k], weight_sum(rest)));
                } else {
                    assert(sound(before[i], weight_sum(rest)));
                }
            }
        } else {
            let fresh = founded(c, n);
            assert(now == before.push(fresh));
            assert(now.drop_last() =~= before);
            lemma_channel_bound(0, 0, c.r, n);
            lemma_channel_bound(0, 0, c.g, n);
            lemma_channel_bound(0, 0, c.b, n);
            lemma_channel_bound(0, 0, c.a, n);
            assert forall|k: int| 0 <= k < now.len() implies sound(
                #[trigger] now[k],
                weight_sum(counted),
            ) by {
                if k < before.len() {
                    assert(now[k] == before[k]);
                    assert(sound(before[k], weight_sum(rest)));
                }
            }
        }
    }
}

/// At most one place is where a color belongs among the clusters.
pub proof fn lemma_place_unique(clusters: Seq<ClusterModel>, c: Color, thresh: nat, i: int)
    requires
        joins_at(clusters, c, thresh, i),
    ensures
        place_of(clusters, c, thresh) == i,
{
    let j = place_of(clusters, c, thresh);
    assert(joins_at(clusters, c, thresh, j));
    if j < i {
        assert(spec_dedup_distance(clusters[j].first, c) >= thresh);
    }
    if i < j {
        assert(spec_dedup_distance(clusters[i].first, c) >= thresh);
    }
}

/// Every list of clusters has a place for a color.
pub proof fn lemma_place_exists(
    clusters: Seq<ClusterModel>,
    c: Color,
    thresh: nat,
    upto: int,
) -> (i: int)
    requires
        0 <= upto <= clusters.len(),
        forall|j: int|
            0 <= j < upto ==> spec_dedup_distance((#[trigger] clusters[j]).first, c) >= thresh,
    ensures
        joins_at(clusters, c, thresh, i),
    decreases clusters.len() - upto,
{
    if upto == clusters.len() || spec_dedup_distance(clusters[upto].first, c) < thresh {
        upto
    } else {
        lemma_place_exists(clusters, c, thresh, upto + 1)
    }
}

/// At most one place is where an item belongs in a ranking.
pub proof fn lemma_slot_unique(ranking: Seq<(Color, nat)>, total: nat, i: int)
    requires
        ranks_at(ranking, total, i),
    ensures
        slot_of(ranking, total) == i,
{
    let j = slot_of(ranking, total);
    assert(ranks_at(ranking, total, j));
    if j < i {
        assert(ranking[j].1 >= total);
    }
    if i < j {
        assert(ranking[i].1 >= total);
    }
}

/// Every ranking has a place for an item.
pub proof fn lemma_slot_exists(ranking: Seq<(Color, nat)>, total: nat, upto: int) -> (i: int)
    requires
        0 <= upto <= ranking.len(),
        forall|j: int| 0 <= j < upto ==> (#[trigger] ranking[j]).1 >= total,
    ensures
        ranks_at(ranking, total, i),
    decreases ranking.len() - upto,
{
    if upto == ranking.len() || ranking[upto].1 < total {
        upto
    } else {
        lemma_slot_exists(ranking, total, upto + 1)
    }
}

/// A ranking holds as many items as it was made of, and none of them covers
/// more pixels than one before it.
pub proof fn lemma_ranked_descending(items: Seq<(Color, nat)>)
    ensures
        ranked(items).len() == items.len(),
        forall|i: int, j: int|
            0 <= i <= j < ranked(items).len() ==> ranked(items)[i].1 >= ranked(items)[j].1,
    decreases items.len(),
{
    if items.len() > 0 {
        let before = ranked(items.drop_last());
        let last = items.last();
        lemma_ranked_descending(items.drop_last());
        let at = lemma_slot_exists(before, last.1, 0);
        lemma_slot_unique(before, last.1, at);
        let now = ranked(items);
        assert(now == before.insert(at, last));
        assert forall|i: int, j: int| 0 <= i <= j < now.len() implies now[i].1 >= now[j].1 by {
            if j < at {
                assert(now[i] == before[i] && now[j] == before[j]);
            } else if i > at {
                assert(now[i] == before[i - 1] && now[j] == before[j - 1]);
            } else if i == at {
                if j > at {
                    assert(now[j] == before[j - 1]);
                    assert(before[at].1 >= before[j - 1].1);
                }
            } else {
                assert(now[i] == before[i]);
                assert(before[i].1 >= last.1);
                if j > at {
                    assert(now[j] == before[j - 1]);
                    assert(before[i].1 >= before[j - 1].1);
                }
            }
        }
    }
}

/// The sum of two channel sums, which must fit.
pub fn color_add_big(a: BigColor, b: BigColor) -> (r: BigColor)
    requires
        a.r + b.r <= u128::MAX,
        a.g + b.g <= u128::MAX,
        a.b + b.b <= u128::MAX,
        a.a + b.a <= u128::MAX,
    ensures
        r.r == a.r + b.r,
        r.g == a.g + b.g,
        r.b == a.b + b.b,
        r.a == a.a + b.a,
{
    BigColor { r: a.r + b.r, g: a.g + b.g, b: a.b + b.b, a: a.a + b.a }
}

/// A color times a number of pixels.
pub fn color_mul(a: &Color, b: usize) -> (r: BigColor)
    ensures
        r.r == a.r * b,
        r.g == a.g * b,
        r.b == a.b * b,
        r.a == a.a * b,
{
    proof {
        assert(a.r * b <= 255 * b && a.g * b <= 255 * b && a.b * b <= 255 * b && a.a * b <= 255
            * b) by (nonlinear_arith)
            requires
                a.r <= 255,
                a.g <= 255,
                a.b <= 255,
                a.a <= 255,
                b >= 0,
        ;
    }
    BigColor {
        r: a.r as u128 * b as u128,
        g: a.g as u128 * b as u128,
        b: a.b as u128 * b as u128,
        a: a.a as u128 * b as u128,
    }
}

/// Channel sums divided by a number of pixels; no sum may exceed 255 times
/// the number, and the number is not 0.
pub fn color_div(a: BigColor, b: usize) -> (r: Color)
    requires
        b > 0,
        a.r <= 255 * b,
        a.g <= 255 * b,
        a.b <= 255 * b,
        a.a <= 255 * b,
    ensures
        r.r == a.r as nat / b as nat,
        r.g == a.g as nat / b as nat,
        r.b == a.b as nat / b as nat,
        r.a == a.a as nat / b as nat,
{
    proof {
        lemma_quotient_fits(a.r as nat, b as nat);
        lemma_quotient_fits(a.g as nat, b as nat);
        lemma_quotient_fits(a.b as nat, b as nat);
        lemma_quotient_fits(a.a as nat, b as nat);
    }
    let d = b as u128;
    Color { r: (a.r / d) as u8, g: (a.g / d) as u8, b: (a.b / d) as u8, a: (a.a / d) as u8 }
}

proof fn lemma_quotient_fits(sum: nat, total: nat)
    requires
        total > 0,
        sum <= 255 * total,
    ensures
        sum / total <= 255,
{
    vstd::arithmetic::div_mod::lemma_div_is_ordered(sum as int, (255 * total) as int, total as int);
    vstd::arithmetic::div_mod::lemma_div_multiples_vanish(255, total as int);
    assert(255 * total == total * 255) by (nonlinear_arith);
}

/// Tallies the colors of the pixels, in the order in which they first
/// occur.
fn tally_colors(pixels: &Vec<Color>) -> (t: Vec<(Color, usize)>)
    ensures
        tally_view(t@) == tallied(pixels@),
        forall|i: int| 0 <= i < t@.len() ==> (#[trigger] t@[i]).1 >= 1,
{
    broadcast use vstd::std_specs::hash::group_hash_axioms;

    let mut t: Vec<(Color, usize)> = Vec::new();
    let mut place: HashMap<u32, usize> = HashMap::new();
    let mut k: usize = 0;
    proof {
        assert(pixels@.take(0) =~= Seq::<Color>::empty());
        assert(tally_view(t@) =~= tallied(pixels@.take(0)));
    }
    while k < pixels.len()
        invariant
            k <= pixels@.len(),
            tally_view(t@) == tallied(pixels@.take(k as int)),
            forall|i: int| 0 <= i < t@.len() ==> (#[trigger] t@[i]).1 >= 1,
            forall|i: int|
                0 <= i < t@.len() ==> place@.contains_key(spec_pack((#[trigger] t@[i]).0))
                    && place@[spec_pack(t@[i].0)] == i,
            forall|key: u32|
                place@.contains_key(key) ==> 0 <= #[trigger] place@[key] < t@.len() && spec_pack(
                    t@[place@[key] as int].0,
                ) == key,
        decreases pixels@.len() - k,
    {
        let color = pixels[k];
        let key = pack(&color);
        let ghost seen = pixels@.take(k as int);
        let ghost old_t = t@;
        proof {
            assert(pixels@.take(k + 1) =~= seen.push(color));
            lemma_tallied_step(seen, color);
            lemma_first_seen(seen);
            lemma_tallied_weight(seen);
            lemma_tallied_weight(seen.push(color));
            assert(tally_view(old_t).len() == first_seen(seen).len());
        }
        match place.get(&key) {
            Some(at) => {
                let at: usize = *at;
                let n: usize = t[at].1;
                proof {
                    lemma_pack_injective(t@[at as int].0, color);
                    assert(tally_view(old_t)[at as int].0 == color);
                    assert(first_seen(seen)[at as int] == color);
                    let found = index_of(first_seen(seen), color);
                    assert(found == at);
                    let grown = tallied(seen.push(color));
                    assert(grown[at as int].1 == n + 1);
                    lemma_weight_sum_update(grown, at as int, (color, 0nat));
                    assert(n + 1 <= weight_sum(grown));
                }
                t.set(at, (color, n + 1));
                proof {
                    assert(tally_view(t@) =~= tally_view(old_t).update(
                        at as int,
                        (color, (n + 1) as nat),
                    ));
                    assert forall|i: int| 0 <= i < t@.len() implies place@.contains_key(
                        spec_pack((#[trigger] t@[i]).0),
                    ) && place@[spec_pack(t@[i].0)] == i by {
                        assert(t@[i].0 == old_t[i].0);
                    }
                }
            },
            None => {
                proof {
                    if first_seen(seen).contains(color) {
                        let i = index_of(first_seen(seen), color);
                        assert(tally_view(old_t)[i].0 == color);
                        assert(place@.contains_key(spec_pack(old_t[i].0)));
                    }
                }
                place.insert(key, t.len());
                t.push((color, 1));
                proof {
                    assert(tally_view(t@) =~= tally_view(old_t).push((color, 1nat)));
                    assert forall|i: int| 0 <= i < t@.len() implies place@.contains_key(
                        spec_pack((#[trigger] t@[i]).0),
                    ) && place@[spec_pack(t@[i].0)] == i by {
                        if i < old_t.len() {
                            assert(t@[i] == old_t[i]);
                            assert(place@.contains_key(spec_pack(old_t[i].0)));
                        }
                    }
                    assert forall|key2: u32| place@.contains_key(key2) implies 0
                        <= #[trigger] place@[key2] < t@.len() && spec_pack(
                        t@[place@[key2] as int].0,
                    ) == key2 by {
                        if key2 != key {
                            assert(t@[place@[key2] as int] == old_t[place@[key2] as int]);
                        }
                    }
                }
            },
        }
        k = k + 1;
    }
    proof {
        assert(pixels@.take(k as int) =~= pixels@);
    }
    t
}

/// Sorts the counted colors into clusters.
fn cluster_colors(
    t: &Vec<(Color, usize)>,
    dedup_thresh: u32,
    Ghost(most): Ghost<nat>,
) -> (clusters: Vec<Cluster>)
    requires
        forall|i: int| 0 <= i < t@.len() ==> (#[trigger] t@[i]).1 >= 1,
        weight_sum(tally_view(t@)) == most,
        most <= usize::MAX,
    ensures
        clusters_view(clusters@) == clustered(tally_view(t@), dedup_thresh as nat),
        forall|i: int| 0 <= i < clusters@.len() ==> sound((#[trigger] clusters@[i])@, most),
{
    let ghost counted = tally_view(t@);
    let ghost thresh = dedup_thresh as nat;
    let mut similars: Vec<Cluster> = Vec::new();
    let mut j: usize = 0;
    proof {
        assert(counted.take(0) =~= Seq::<(Color, nat)>::empty());
        assert(clusters_view(similars@) =~= clustered(counted.take(0), thresh));
    }
    while j < t.len()
        invariant
            j <= t@.len(),
            counted == tally_view(t@),
            thresh == dedup_thresh as nat,
            forall|i: int| 0 <= i < t@.len() ==> (#[trigger] t@[i]).1 >= 1,
            weight_sum(counted) == most,
            most <= usize::MAX,
            clusters_view(similars@) == clustered(counted.take(j as int), thresh),
        decreases t@.len() - j,
    {
        let (col, count) = t[j];
        let ghost before = clusters_view(similars@);
        let ghost part = counted.take(j as int);
        let ghost grown = counted.take(j + 1);
        proof {
            assert(grown.drop_last() =~= part);
            assert(grown.last() == (col, count as nat));
            assert forall|i: int| 0 <= i < grown.len() implies (#[trigger] grown[i]).1 >= 1 by {
                assert(grown[i] == counted[i]);
                assert(t@[i].1 >= 1);
            }
            lemma_clustered_sound(grown, thresh);
            lemma_weight_sum_take(counted, j + 1);
        }
        let mut i: usize = 0;
        while i < similars.len() && dedup_distance(&similars[i].first, &col) >= dedup_thresh
            invariant
                i <= similars@.len(),
                before == clusters_view(similars@),
                forall|k: int|
                    0 <= k < i ==> spec_dedup_distance((#[trigger] before[k]).first, col)
                        >= dedup_thresh,
            decreases similars@.len() - i,
        {
            proof {
                assert(before[i as int].first == similars@[i as int].first);
            }
            i = i + 1;
        }
        proof {
            if i < similars@.len() {
                assert(before[i as int].first == similars@[i as int].first);
            }
            assert(joins_at(before, col, thresh, i as int));
            lemma_place_unique(before, col, thresh, i as int);
        }
        if i < similars.len() {
            let comp = similars[i];
            proof {
                let now = clustered(grown, thresh);
                assert(now == before.update(i as int, joined(before[i as int], col, count as nat)));
                assert(sound(now[i as int], weight_sum(grown)));
                assert(before[i as int] == comp@);
            }
            let sum = color_add_big(comp.sum, color_mul(&col, count));
            similars.set(i, Cluster { first: comp.first, total: comp.total + count, sum });
            proof {
                assert(clusters_view(similars@) =~= before.update(
                    i as int,
                    joined(before[i as int], col, count as nat),
                ));
            }
        } else {
            similars.push(Cluster { first: col, total: count, sum: color_mul(&col, count) });
            proof {
                assert(clusters_view(similars@) =~= before.push(founded(col, count as nat)));
            }
        }
        j = j + 1;
    }
    proof {
        assert(counted.take(j as int) =~= counted);
        lemma_clustered_sound(counted, thresh);
        assert forall|i: int| 0 <= i < similars@.len() implies sound(
            (#[trigger] similars@[i])@,
            most,
        ) by {
            assert(clusters_view(similars@)[i] == similars@[i]@);
        }
    }
    similars
}

/// Ranks the clusters by the pixels they cover and gives the colors that
/// stand for them, in that order.
fn rank_clusters(clusters: &Vec<Cluster>, Ghost(most): Ghost<nat>) -> (colors: Vec<Color>)
    requires
        forall|i: int| 0 <= i < clusters@.len() ==> sound((#[trigger] clusters@[i])@, most),
    ensures
        colors@ == colors_of(ranked(summaries(clusters_view(clusters@)))),
{
    let ghost items = summaries(clusters_view(clusters@));
    let mut rank: Vec<(Color, usize)> = Vec::new();
    let mut i: usize = 0;
    proof {
        assert(items.take(0) =~= Seq::<(Color, nat)>::empty());
        assert(tally_view(rank@) =~= ranked(items.take(0)));
    }
    while i < clusters.len()
        invariant
            i <= clusters@.len(),
            items == summaries(clusters_view(clusters@)),
            forall|k: int| 0 <= k < clusters@.len() ==> sound((#[trigger] clusters@[k])@, most),
            tally_view(rank@) == ranked(items.take(i as int)),
        decreases clusters@.len() - i,
    {
        let cat = clusters[i];
        proof {
            assert(sound(clusters@[i as int]@, most));
        }
        let col = color_div(cat.sum, cat.total);
        let ghost before = tally_view(rank@);
        proof {
            assert(items.take(i + 1).drop_last() =~= items.take(i as int));
            assert(items.take(i + 1).last() == items[i as int]);
            assert(items[i as int] == (representative(cat@), cat.total as nat));
            assert(col == representative(cat@));
        }
        let mut at: usize = 0;
        while at < rank.len() && rank[at].1 >= cat.total
            invariant
                at <= rank@.len(),
                before == tally_view(rank@),
                forall|k: int| 0 <= k < at ==> (#[trigger] before[k]).1 >= cat.total,
            decreases rank@.len() - at,
        {
            proof {
                assert(before[at as int].1 == rank@[at as int].1);
            }
            at = at + 1;
        }
        proof {
            if at < rank@.len() {
                assert(before[at as int].1 == rank@[at as int].1);
            }
            assert(ranks_at(before, cat.total as nat, at as int));
            lemma_slot_unique(before, cat.total as nat, at as int);
        }
        rank.insert(at, (col, cat.total));
        proof {
            assert(tally_view(rank@) =~= before.insert(at as int, (col, cat.total as nat)));
        }
        i = i + 1;
    }
    proof {
        assert(items.take(i as int) =~= items);
    }
    let mut colors: Vec<Color> = Vec::new();
    let mut k: usize = 0;
    while k < rank.len()
        invariant
            k <= rank@.len(),
            colors@ == colors_of(tally_view(rank@)).take(k as int),
        decreases rank@.len() - k,
    {
        colors.push(rank[k].0);
        k = k + 1;
        proof {
            assert(colors@ =~= colors_of(tally_view(rank@)).take(k as int));
        }
    }
    proof {
        assert(colors@ =~= colors_of(tally_view(rank@)));
    }
    colors
}

/// Selects a palette through a process similar to (but not quite the same
/// as) finding the most commonly used colors in the image.
///
/// `dedup_thresh` indicates the (squared) limit for how distant colors can
/// be while still being quantized as one color: a color joins the first
/// cluster whose founder is closer to it than that, the colors being taken
/// in the order in which they first occur in the image. The palette holds,
/// for each cluster, the average of its colors weighted by their pixels;
/// the clusters that cover more pixels come first, and clusters that cover
/// equally many keep the order in which they were founded.
pub fn generate_palette<P: DynamicPalette>(img: &RasterImage, dedup_thresh: u32) -> (palette: P)
    ensures
        palette.spec_width() == width_for(palette_colors(img@, dedup_thresh as nat).len()),
        forall|c: u32| #[trigger]
            palette.spec_rgba(c) == entry_or_filler(palette_colors(img@, dedup_thresh as nat), c),
{
    let pixels = img.pixels();
    let total = pixels.len();
    let successes = tally_colors(pixels);
    proof {
        lemma_tallied_weight(pixels@);
    }
    let similars = cluster_colors(&successes, dedup_thresh, Ghost(total as nat));
    let colors = rank_clusters(&similars, Ghost(total as nat));
    proof {
        P::lemma_from(colors);
    }
    P::from(colors)
}

} // verus!
