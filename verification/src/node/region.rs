//! Square regions of a grid of palette indices, and how often each color
//! occurs in one.

use std::collections::HashMap;
use vstd::prelude::*;

verus! {

/// How often `c` occurs in `s`.
pub open spec fn count_of(s: Seq<u32>, c: u32) -> nat
    decreases s.len(),
{
    if s.len() == 0 {
        0
    } else {
        count_of(s.drop_last(), c) + if s.last() == c {
            1nat
        } else {
            0nat
        }
    }
}

/// The `size` cells of row `row` that start at column `x`, in a grid whose
/// rows are `row_len` long.
pub open spec fn row_slice(image: Seq<u32>, row_len: nat, x: nat, row: nat, size: nat) -> Seq<u32> {
    image.subrange((row * row_len + x) as int, (row * row_len + x + size) as int)
}

/// The first `rows` rows of the square region at column `x`, row `y`.
pub open spec fn region_rows(
    image: Seq<u32>,
    row_len: nat,
    x: nat,
    y: nat,
    size: nat,
    rows: nat,
) -> Seq<u32>
    decreases rows,
{
    if rows == 0 {
        Seq::empty()
    } else {
        region_rows(image, row_len, x, y, size, (rows - 1) as nat) + row_slice(
            image,
            row_len,
            x,
            (y + rows - 1) as nat,
            size,
        )
    }
}

/// The cells of the square region of side `size` whose top-left corner is at
/// column `x`, row `y`, row by row.
pub open spec fn region(image: Seq<u32>, row_len: nat, x: nat, y: nat, size: nat) -> Seq<u32> {
    region_rows(image, row_len, x, y, size, size)
}

/// The cell at column `px`, row `py` of a grid whose rows are `row_len` long.
pub open spec fn cell(image: Seq<u32>, row_len: nat, px: nat, py: nat) -> u32 {
    image[(py * row_len + px) as int]
}

/// The region lies within a square grid of side `row_len`.
pub open spec fn in_grid(len: nat, row_len: nat, x: nat, y: nat, size: nat) -> bool {
    &&& row_len * row_len == len
    &&& x + size <= row_len
    &&& y + size <= row_len
}

/// `c` is more abundant in `s` than `d`, or as abundant and not behind it.
pub open spec fn outranks(s: Seq<u32>, c: u32, d: u32) -> bool {
    count_of(s, d) < count_of(s, c) || (count_of(s, d) == count_of(s, c) && c <= d)
}

/// `c` is the most abundant color of `s` outside `taken`; among equally
/// abundant colors it is the lowest.
pub open spec fn is_next_best(s: Seq<u32>, taken: Seq<u32>, c: u32) -> bool {
    &&& !taken.contains(c)
    &&& count_of(s, c) > 0
    &&& forall|d: u32| !taken.contains(d) ==> outranks(s, c, d)
}

/// Some color of `s` is not among `taken`.
pub open spec fn has_next(s: Seq<u32>, taken: Seq<u32>) -> bool {
    exists|c: u32| !taken.contains(c) && count_of(s, c) > 0
}

/// The most abundant color of `s` outside `taken`.
pub open spec fn next_best(s: Seq<u32>, taken: Seq<u32>) -> u32 {
    choose|c: u32| is_next_best(s, taken, c)
}

/// The most abundant color of `s`; among equally abundant colors the lowest.
pub open spec fn dominant(s: Seq<u32>) -> u32 {
    next_best(s, Seq::empty())
}

/// The `k` most abundant colors of `s`, most abundant first; fewer where `s`
/// holds fewer colors.
pub open spec fn top_colors(s: Seq<u32>, k: nat) -> Seq<u32>
    decreases k,
{
    if k == 0 {
        Seq::empty()
    } else {
        let before = top_colors(s, (k - 1) as nat);
        if has_next(s, before) {
            before.push(next_best(s, before))
        } else {
            before
        }
    }
}

/// The count of `c` in `s` where it exceeds `floor`, else nothing.
pub open spec fn counted(s: Seq<u32>, c: u32, floor: nat) -> nat {
    if count_of(s, c) > floor {
        count_of(s, c)
    } else {
        0
    }
}

/// The sum, over `colors`, of the counts in `s` that exceed `floor`.
pub open spec fn weight(s: Seq<u32>, colors: Seq<u32>, floor: nat) -> nat
    decreases colors.len(),
{
    if colors.len() == 0 {
        0
    } else {
        weight(s, colors.drop_last(), floor) + counted(s, colors.last(), floor)
    }
}

/// `t` lists each color of `s` once, with its count.
pub open spec fn is_tally(t: Seq<(u32, usize)>, s: Seq<u32>) -> bool {
    &&& forall|i: int, j: int| 0 <= i < j < t.len() ==> t[i].0 != t[j].0
    &&& forall|i: int| 0 <= i < t.len() ==> 0 < #[trigger] t[i].1 == count_of(s, t[i].0)
    &&& forall|c: u32| count_of(s, c) > 0 ==> exists|i: int| 0 <= i < t.len() && #[trigger] t[i].0 == c
}

/// One more cell counts once more for its own color and not for any other.
pub proof fn lemma_count_push(s: Seq<u32>, v: u32, c: u32)
    ensures
        count_of(s.push(v), c) == count_of(s, c) + if v == c {
            1nat
        } else {
            0nat
        },
{
    assert(s.push(v).drop_last() =~= s);
}

/// No color occurs more often than there are cells.
pub proof fn lemma_count_bound(s: Seq<u32>, c: u32)
    ensures
        count_of(s, c) <= s.len(),
    decreases s.len(),
{
    if s.len() > 0 {
        lemma_count_bound(s.drop_last(), c);
    }
}

/// A color occurs as often as the sequence is long exactly if the sequence
/// holds nothing else.
pub proof fn lemma_count_all(s: Seq<u32>, c: u32)
    ensures
        count_of(s, c) == s.len() <==> (forall|i: int| 0 <= i < s.len() ==> s[i] == c),
    decreases s.len(),
{
    if s.len() > 0 {
        let t = s.drop_last();
        lemma_count_all(t, c);
        lemma_count_bound(t, c);
        if count_of(s, c) == s.len() {
            assert forall|i: int| 0 <= i < s.len() implies s[i] == c by {
                if i < t.len() {
                    assert(t[i] == c);
                }
            }
        }
        if forall|i: int| 0 <= i < s.len() ==> s[i] == c {
            assert forall|i: int| 0 <= i < t.len() implies t[i] == c by {
                assert(s[i] == c);
            }
        }
    }
}

/// A color is counted exactly if it occurs.
pub proof fn lemma_count_positive(s: Seq<u32>, c: u32)
    ensures
        count_of(s, c) > 0 <==> s.contains(c),
    decreases s.len(),
{
    if s.len() > 0 {
        let t = s.drop_last();
        lemma_count_positive(t, c);
        if s.contains(c) {
            let i = choose|i: int| 0 <= i < s.len() && s[i] == c;
            if i < t.len() {
                assert(t[i] == c);
            }
        }
        if t.contains(c) {
            let i = choose|i: int| 0 <= i < t.len() && t[i] == c;
            assert(s[i] == c);
        }
        if s.last() == c {
            assert(s[s.len() - 1] == c);
        }
    }
}

/// At most one color is the most abundant outside `taken`.
pub proof fn lemma_next_best_unique(s: Seq<u32>, taken: Seq<u32>, c: u32)
    requires
        is_next_best(s, taken, c),
    ensures
        next_best(s, taken) == c,
        has_next(s, taken),
{
    let d = next_best(s, taken);
    assert(is_next_best(s, taken, d));
    assert(outranks(s, c, d));
    assert(outranks(s, d, c));
}

/// A sequence that holds anything has a most abundant color, and holds it.
pub proof fn lemma_dominant_exists(s: Seq<u32>)
    requires
        s.len() > 0,
    ensures
        is_next_best(s, Seq::empty(), dominant(s)),
        s.contains(dominant(s)),
    decreases s.len(),
{
    let none = Seq::<u32>::empty();
    let last = s.last();
    let rest = s.drop_last();
    assert(rest.push(last) =~= s);
    assert forall|d: u32| count_of(s, d) == count_of(rest, d) + if last == d {
        1nat
    } else {
        0nat
    } by {
        lemma_count_push(rest, last, d);
    }
    let best = if rest.len() == 0 {
        last
    } else {
        lemma_dominant_exists(rest);
        let before = dominant(rest);
        assert forall|d: u32| outranks(rest, before, d) by {
            assert(!none.contains(d));
        }
        if outranks(s, last, before) {
            last
        } else {
            before
        }
    };
    assert forall|d: u32| !none.contains(d) implies outranks(s, best, d) by {
        if rest.len() > 0 {
            let before = dominant(rest);
            assert(outranks(rest, before, d));
            assert(outranks(rest, before, last));
        }
    }
    assert(is_next_best(s, none, best));
    lemma_next_best_unique(s, none, best);
    lemma_count_positive(s, best);
}

/// The first `rows` rows of a region in the grid hold `rows * size` cells.
pub proof fn lemma_region_rows_len(
    image: Seq<u32>,
    row_len: nat,
    x: nat,
    y: nat,
    size: nat,
    rows: nat,
)
    requires
        row_len * row_len == image.len(),
        x + size <= row_len,
        y + rows <= row_len,
    ensures
        region_rows(image, row_len, x, y, size, rows).len() == rows * size,
    decreases rows,
{
    if rows > 0 {
        let row = (y + rows - 1) as nat;
        lemma_region_rows_len(image, row_len, x, y, size, (rows - 1) as nat);
        lemma_row_in_bounds(row_len, x, row, size);
        assert(row_slice(image, row_len, x, row, size).len() == size);
        assert(rows * size == (rows - 1) * size + size) by (nonlinear_arith)
            requires
                rows > 0,
        ;
    } else {
        assert(rows * size == 0) by (nonlinear_arith)
            requires
                rows == 0,
        ;
    }
}

/// A row slice of a region inside the grid lies inside the image.
pub proof fn lemma_row_in_bounds(row_len: nat, x: nat, row: nat, size: nat)
    requires
        x + size <= row_len,
        row < row_len,
    ensures
        row * row_len + x + size <= row_len * row_len,
{
    assert(row * row_len + row_len <= row_len * row_len) by (nonlinear_arith)
        requires
            row + 1 <= row_len,
    ;
}

/// Where a cell of the region stands in the image.
pub proof fn lemma_region_index(
    image: Seq<u32>,
    row_len: nat,
    x: nat,
    y: nat,
    size: nat,
    rows: nat,
    dx: nat,
    dy: nat,
)
    requires
        row_len * row_len == image.len(),
        x + size <= row_len,
        y + rows <= row_len,
        dx < size,
        dy < rows,
    ensures
        region_rows(image, row_len, x, y, size, rows).len() == rows * size,
        dy * size + dx < rows * size,
        region_rows(image, row_len, x, y, size, rows)[(dy * size + dx) as int] == cell(
            image,
            row_len,
            x + dx,
            y + dy,
        ),
    decreases rows,
{
    lemma_region_rows_len(image, row_len, x, y, size, rows);
    let before = region_rows(image, row_len, x, y, size, (rows - 1) as nat);
    lemma_region_rows_len(image, row_len, x, y, size, (rows - 1) as nat);
    lemma_row_in_bounds(row_len, x, (y + rows - 1) as nat, size);
    assert(rows * size == (rows - 1) * size + size) by (nonlinear_arith);
    if dy < rows - 1 {
        lemma_region_index(image, row_len, x, y, size, (rows - 1) as nat, dx, dy);
    } else {
        assert(dy * size + dx - before.len() == dx);
    }
}

/// Each cell of the sequence of a region is a cell of the grid inside it.
pub proof fn lemma_region_cell(
    image: Seq<u32>,
    row_len: nat,
    x: nat,
    y: nat,
    size: nat,
    rows: nat,
    i: int,
)
    requires
        row_len * row_len == image.len(),
        x + size <= row_len,
        y + rows <= row_len,
        0 <= i < region_rows(image, row_len, x, y, size, rows).len(),
    ensures
        exists|px: nat, py: nat|
            x <= px < x + size && y <= py < y + rows && region_rows(
                image,
                row_len,
                x,
                y,
                size,
                rows,
            )[i] == #[trigger] cell(image, row_len, px, py),
    decreases rows,
{
    lemma_region_rows_len(image, row_len, x, y, size, rows);
    if rows > 0 {
        let whole = region_rows(image, row_len, x, y, size, rows);
        let before = region_rows(image, row_len, x, y, size, (rows - 1) as nat);
        lemma_region_rows_len(image, row_len, x, y, size, (rows - 1) as nat);
        lemma_row_in_bounds(row_len, x, (y + rows - 1) as nat, size);
        if i < before.len() {
            lemma_region_cell(image, row_len, x, y, size, (rows - 1) as nat, i);
            let (px, py) = choose|px: nat, py: nat|
                x <= px < x + size && y <= py < y + rows - 1 && before[i] == #[trigger] cell(
                    image,
                    row_len,
                    px,
                    py,
                );
            assert(x <= px < x + size && y <= py < y + rows && whole[i] == cell(
                image,
                row_len,
                px,
                py,
            ));
        } else {
            let px = (x + i - before.len()) as nat;
            let py = (y + rows - 1) as nat;
            assert(x <= px < x + size && y <= py < y + rows && whole[i] == cell(
                image,
                row_len,
                px,
                py,
            ));
        }
    } else {
        assert(false);
    }
}

/// Every cell of a region of a grid whose cells are all below `limit` is
/// below `limit`.
pub proof fn lemma_region_below(
    image: Seq<u32>,
    row_len: nat,
    x: nat,
    y: nat,
    size: nat,
    limit: nat,
)
    requires
        in_grid(image.len(), row_len, x, y, size),
        forall|i: int| 0 <= i < image.len() ==> (#[trigger] image[i] as nat) < limit,
    ensures
        forall|c: u32| region(image, row_len, x, y, size).contains(c) ==> (c as nat) < limit,
{
    let cells = region(image, row_len, x, y, size);
    assert forall|c: u32| cells.contains(c) implies (c as nat) < limit by {
        let i = choose|i: int| 0 <= i < cells.len() && cells[i] == c;
        lemma_region_cell(image, row_len, x, y, size, size, i);
        let (px, py) = choose|px: nat, py: nat|
            x <= px < x + size && y <= py < y + size && cells[i] == #[trigger] cell(
                image,
                row_len,
                px,
                py,
            );
        lemma_row_in_bounds(row_len, x, py, size);
        assert(image[(py * row_len + px) as int] < limit);
    }
}

/// Counts the colors of a square region: each color that occurs in it, once,
/// with the number of cells that hold it.
pub(crate) fn tally(image: &[u32], row_len: usize, x: usize, y: usize, size: usize) -> (t: Vec<
    (u32, usize),
>)
    requires
        in_grid(image@.len(), row_len as nat, x as nat, y as nat, size as nat),
    ensures
        is_tally(t@, region(image@, row_len as nat, x as nat, y as nat, size as nat)),
{
    broadcast use vstd::std_specs::hash::group_hash_axioms;

    let len = image.len();
    let mut t: Vec<(u32, usize)> = Vec::new();
    let mut place: HashMap<u32, usize> = HashMap::new();
    let ghost mut seen: Seq<u32> = Seq::empty();
    let mut r: usize = 0;
    while r < size
        invariant
            len == image@.len(),
            in_grid(image@.len(), row_len as nat, x as nat, y as nat, size as nat),
            r <= size,
            seen == region_rows(image@, row_len as nat, x as nat, y as nat, size as nat, r as nat),
            seen.len() == r * size,
            is_tally(t@, seen),
            forall|i: int| 0 <= i < t.len() ==> place@.contains_key(#[trigger] t[i].0) && place@[t[i].0] == i,
            forall|c: u32| place@.contains_key(c) ==>
                0 <= #[trigger] place@[c] < t.len() && t[place@[c] as int].0 == c,
        decreases size - r,
    {
        proof {
            lemma_row_in_bounds(row_len as nat, x as nat, (y + r) as nat, size as nat);
            assert((y + r) * row_len + x + size <= image@.len());
            assert(r * size + size <= row_len * row_len) by (nonlinear_arith)
                requires
                    r < size <= row_len,
            ;
        }
        let start: usize = (y + r) * row_len + x;
        let ghost before = seen;
        let mut c: usize = 0;
        while c < size
            invariant
                c <= size,
                len == image@.len(),
                start + size <= image@.len(),
                before.len() + size <= image@.len(),
                seen == before + image@.subrange(start as int, start + c),
                is_tally(t@, seen),
                forall|i: int| 0 <= i < t.len() ==>
                    place@.contains_key(#[trigger] t[i].0) && place@[t[i].0] == i,
                forall|c: u32| place@.contains_key(c) ==>
                    0 <= #[trigger] place@[c] < t.len() && t[place@[c] as int].0 == c,
            decreases size - c,
        {
            let color = image[start + c];
            let ghost prev = seen;
            proof {
                seen = seen.push(color);
                assert(seen =~= before + image@.subrange(start as int, start + c + 1));
                assert forall|d: u32| true implies
                    #[trigger] count_of(seen, d) == count_of(prev, d) + if color == d {
                    1nat
                } else {
                    0nat
                } by {
                    lemma_count_push(prev, color, d);
                }
                lemma_count_bound(seen, color);
                assert(seen.len() <= before.len() + size);
            }
            let found = place.get(&color);
            match found {
                Some(at) => {
                    let at: usize = *at;
                    let n: usize = t[at].1;
                    let ghost old_t = t@;
                    t.set(at, (color, n + 1));
                    proof {
                        assert forall|i: int| 0 <= i < t.len() implies
                            0 < #[trigger] t[i].1 == count_of(seen, t[i].0) by {
                            if i != at {
                                assert(old_t[i].0 != old_t[at as int].0);
                                assert(t[i] == old_t[i]);
                            }
                        }
                        assert forall|d: u32| count_of(seen, d) > 0 implies exists|i: int|
                            0 <= i < t.len() && #[trigger] t[i].0 == d by {
                            if d == color {
                                assert(t[at as int].0 == d);
                            } else {
                                let i = choose|i: int| 0 <= i < old_t.len() && #[trigger] old_t[i].0 == d;
                                assert(t[i].0 == d);
                            }
                        }
                    }
                },
                None => {
                    let ghost old_t = t@;
                    proof {
                        if count_of(prev, color) > 0 {
                            let i = choose|i: int| 0 <= i < old_t.len() && #[trigger] old_t[i].0 == color;
                            assert(place@.contains_key(old_t[i].0));
                        }
                    }
                    place.insert(color, t.len());
                    t.push((color, 1));
                    proof {
                        assert forall|i: int| 0 <= i < t.len() implies
                            0 < #[trigger] t[i].1 == count_of(seen, t[i].0) by {
                            if i < old_t.len() {
                                assert(t[i] == old_t[i]);
                                assert(place@.contains_key(old_t[i].0));
                            }
                        }
                        assert forall|d: u32| count_of(seen, d) > 0 implies exists|i: int|
                            0 <= i < t.len() && #[trigger] t[i].0 == d by {
                            if d == color {
                                assert(t[old_t.len() as int].0 == d);
                            } else {
                                let i = choose|i: int| 0 <= i < old_t.len() && #[trigger] old_t[i].0 == d;
                                assert(t[i].0 == d);
                            }
                        }
                        assert forall|i: int, j: int| 0 <= i < j < t.len() implies t[i].0 != t[j].0 by {
                            if j < old_t.len() {
                                assert(t[i] == old_t[i] && t[j] == old_t[j]);
                            } else {
                                assert(t[i] == old_t[i]);
                                assert(place@.contains_key(old_t[i].0));
                            }
                        }
                        assert forall|i: int| 0 <= i < t.len() implies
                            place@.contains_key(#[trigger] t[i].0) && place@[t[i].0] == i by {
                            if i < old_t.len() {
                                assert(t[i] == old_t[i]);
                            }
                        }
                    }
                },
            }
            c = c + 1;
        }
        proof {
            assert(image@.subrange(start as int, start + size) == row_slice(
                image@,
                row_len as nat,
                x as nat,
                (y + r) as nat,
                size as nat,
            ));
            assert((r + 1) * size == r * size + size) by (nonlinear_arith);
        }
        r = r + 1;
    }
    t
}

/// Picks from a tally the most abundant color that is not among `taken`,
/// with its count; among equally abundant colors the lowest. `None` where
/// every color of the tally is taken.
pub(crate) fn pick_best(t: &Vec<(u32, usize)>, taken: &Vec<u32>, Ghost(s): Ghost<Seq<u32>>) -> (r: Option<
    (u32, usize),
>)
    requires
        is_tally(t@, s),
    ensures
        match r {
            Some((c, n)) => is_next_best(s, taken@, c) && n == count_of(s, c),
            None => !has_next(s, taken@),
        },
{
    let mut best: Option<(u32, usize)> = None;
    let mut i: usize = 0;
    while i < t.len()
        invariant
            i <= t.len(),
            is_tally(t@, s),
            match best {
                Some((c, n)) => {
                    &&& !taken@.contains(c)
                    &&& n == count_of(s, c)
                    &&& n > 0
                    &&& forall|j: int| 0 <= j < i && !taken@.contains(t[j].0) ==>
                        outranks(s, c, #[trigger] t[j].0)
                },
                None => forall|j: int| 0 <= j < i ==> taken@.contains(#[trigger] t[j].0),
            },
        decreases t.len() - i,
    {
        let (color, n) = t[i];
        if !is_taken(taken, color) {
            let better = match best {
                Some((c, m)) => n > m || (n == m && color < c),
                None => true,
            };
            if better {
                best = Some((color, n));
            }
        }
        i = i + 1;
    }
    proof {
        match best {
            Some((c, n)) => {
                assert forall|d: u32| !taken@.contains(d) implies outranks(s, c, d) by {
                    if count_of(s, d) > 0 {
                        let j = choose|j: int| 0 <= j < t.len() && #[trigger] t[j].0 == d;
                        assert(outranks(s, c, t[j].0));
                    }
                }
            },
            None => {
                if has_next(s, taken@) {
                    let d = choose|d: u32| !taken@.contains(d) && count_of(s, d) > 0;
                    let j = choose|j: int| 0 <= j < t.len() && #[trigger] t[j].0 == d;
                    assert(taken@.contains(t[j].0));
                }
            },
        }
    }
    best
}

/// Whether `color` is among `taken`.
pub(crate) fn is_taken(taken: &Vec<u32>, color: u32) -> (r: bool)
    ensures
        r == taken@.contains(color),
{
    let mut i: usize = 0;
    while i < taken.len()
        invariant
            i <= taken.len(),
            forall|j: int| 0 <= j < i ==> taken[j] != color,
        decreases taken.len() - i,
    {
        if taken[i] == color {
            return true;
        }
        i = i + 1;
    }
    false
}

} // verus!
