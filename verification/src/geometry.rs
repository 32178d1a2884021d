//! Where a captured window goes when the displays have changed.
//!
//! A window that still overlaps an active display is left alone. One that
//! overlaps none (its monitor has since been unplugged) is fitted onto the
//! nearest display by center distance. Sums and distances of coordinates are
//! handed in; every comparison is made here.

use vstd::prelude::*;

use crate::doubles;
use crate::order;
use crate::text;
use crate::types::WindowGeometry;

verus! {

/// The four edges of a rectangle, each as the pattern of a double.
#[derive(Debug, Clone, Copy, PartialEq, Eq, Structural)]
pub struct Edges {
    pub left: u64,
    pub top: u64,
    pub right: u64,
    pub bottom: u64,
}

/// Whether two rectangles share area.
pub open spec fn overlap(g: Edges, d: Edges) -> bool {
    &&& doubles::below(g.left, d.right)
    &&& doubles::below(d.left, g.right)
    &&& doubles::below(g.top, d.bottom)
    &&& doubles::below(d.top, g.bottom)
}

/// Whether a window shares area with a display.
pub fn overlaps(g: &Edges, d: &Edges) -> (r: bool)
    ensures
        r == overlap(*g, *d),
{
    doubles::is_below(g.left, d.right) && doubles::is_below(d.left, g.right) && doubles::is_below(
        g.top,
        d.bottom,
    ) && doubles::is_below(d.top, g.bottom)
}

/// What becomes of a window's place.
#[derive(Debug, Clone, Copy, PartialEq, Eq, Structural)]
pub enum Placement {
    /// It stays where it was captured.
    Keep,
    /// It is fitted onto the display with this index.
    Fit { display: usize },
}

/// Index of the least of `s[..n]`; the first of them where several are equal.
pub open spec fn nearest(s: Seq<u64>, n: int) -> int
    decreases n,
{
    if n <= 1 {
        0
    } else {
        let best = nearest(s, n - 1);
        if doubles::below(s[n - 1], s[best]) {
            n - 1
        } else {
            best
        }
    }
}

/// What becomes of a window, given the edges of the displays and their center
/// distances from it.
pub open spec fn placement_of(g: Edges, displays: Seq<Edges>, distances: Seq<u64>) -> Placement {
    if displays.len() == 0 || exists|i: int| 0 <= i < displays.len() && overlap(g, displays[i]) {
        Placement::Keep
    } else {
        Placement::Fit { display: nearest(distances, distances.len() as int) as usize }
    }
}

/// The nearest display is one of them, none is nearer, and none before it is as
/// near.
pub proof fn nearest_is_first_least(s: Seq<u64>, n: int)
    requires
        0 < n <= s.len(),
        forall|i: int| 0 <= i < n ==> doubles::is_number(#[trigger] s[i]),
    ensures
        0 <= nearest(s, n) < n,
        forall|i: int| 0 <= i < n ==> doubles::at_least(#[trigger] s[i], s[nearest(s, n)]),
        forall|i: int| 0 <= i < nearest(s, n) ==> doubles::below(s[nearest(s, n)], #[trigger] s[i]),
    decreases n,
{
    if n > 1 {
        nearest_is_first_least(s, n - 1);
    }
}

/// Decides what becomes of a window. An empty display list (enumeration failed)
/// leaves it alone rather than guessing. `distances` holds the squared distance
/// of each display's center from the window's; where it takes a comparison to
/// choose, all of them are numbers.
pub fn placement(g: &Edges, displays: &Vec<Edges>, distances: &Vec<u64>) -> (r: Placement)
    requires
        displays.len() == distances.len(),
        displays.len() > 1 && (forall|i: int|
            0 <= i < displays.len() ==> !overlap(*g, displays@[i])) ==> forall|i: int|
            0 <= i < distances.len() ==> doubles::is_number(#[trigger] distances@[i]),
    ensures
        r == placement_of(*g, displays@, distances@),
        r matches Placement::Fit { display } ==> display < displays.len(),
{
    if displays.len() == 0 {
        return Placement::Keep;
    }
    let mut i: usize = 0;
    while i < displays.len()
        invariant
            i <= displays.len(),
            forall|j: int| 0 <= j < i ==> !overlap(*g, displays@[j]),
        decreases displays.len() - i,
    {
        if overlaps(g, &displays[i]) {
            assert(overlap(*g, displays@[i as int]));
            return Placement::Keep;
        }
        i = i + 1;
    }
    let mut best: usize = 0;
    let mut k: usize = 1;
    while k < distances.len()
        invariant
            1 <= k <= distances.len(),
            best == nearest(distances@, k as int),
            best < k,
        decreases distances.len() - k,
    {
        if doubles::is_below(distances[k], distances[best]) {
            best = k;
        }
        k = k + 1;
    }
    Placement::Fit { display: best }
}

/// The smaller of two lengths; the one that is a number when only one is.
pub open spec fn smaller(a: u64, b: u64) -> u64 {
    if !doubles::is_number(a) || doubles::below(b, a) {
        b
    } else {
        a
    }
}

/// `v` moved into the range from `low` to `high`.
pub open spec fn between(v: u64, low: u64, high: u64) -> u64 {
    if doubles::below(v, low) {
        low
    } else if doubles::below(high, v) {
        high
    } else {
        v
    }
}

/// A length that is no longer than the display's.
pub fn fitted_length(length: u64, display: u64) -> (r: u64)
    ensures
        r == smaller(length, display),
{
    if !doubles::is_at_least(length, length) || doubles::is_below(display, length) {
        display
    } else {
        length
    }
}

/// A coordinate moved to where the window is fully on its display: between the
/// display's near edge and its far edge less the window's length.
pub fn fitted_origin(v: u64, low: u64, high: u64) -> (r: u64)
    requires
        doubles::at_least(high, low),
    ensures
        r == between(v, low, high),
        doubles::is_number(v) ==> doubles::at_least(r, low) && doubles::at_least(high, r),
{
    if doubles::is_below(v, low) {
        low
    } else if doubles::is_below(high, v) {
        high
    } else {
        v
    }
}

/// Puts together the geometry of a window fitted onto a display. `x_high` and
/// `y_high` are the largest coordinates at which the fitted size still fits.
pub fn fitted(
    g: &WindowGeometry,
    display: &WindowGeometry,
    x_high: u64,
    y_high: u64,
) -> (r: WindowGeometry)
    requires
        doubles::at_least(x_high, display.x),
        doubles::at_least(y_high, display.y),
    ensures
        r == (WindowGeometry {
            x: between(g.x, display.x, x_high),
            y: between(g.y, display.y, y_high),
            width: smaller(g.width, display.width),
            height: smaller(g.height, display.height),
        }),
{
    WindowGeometry {
        x: fitted_origin(g.x, display.x, x_high),
        y: fitted_origin(g.y, display.y, y_high),
        width: fitted_length(g.width, display.width),
        height: fitted_length(g.height, display.height),
    }
}

/// The test for one display.
pub open spec fn is_display(main: u32) -> spec_fn(u32) -> bool {
    |id: u32| id == main
}

/// The test for every other display.
pub open spec fn is_other_display(main: u32) -> spec_fn(u32) -> bool {
    |id: u32| id != main
}

/// Display ids with the main display in front, the others in their order.
pub open spec fn main_first_of(ids: Seq<u32>, main: u32) -> Seq<u32> {
    ids.filter(is_display(main)) + ids.filter(is_other_display(main))
}

/// Puts the main display in front of the others, where it is among them.
pub fn main_first(ids: &Vec<u32>, main: u32) -> (r: Vec<u32>)
    ensures
        r@ == main_first_of(ids@, main),
{
    let ghost front = is_display(main);
    let ghost back = is_other_display(main);
    let mut out: Vec<u32> = Vec::new();
    let mut rest: Vec<u32> = Vec::new();
    let mut i: usize = 0;
    reveal(Seq::filter);
    assert(out@ =~= ids@.take(0).filter(front));
    assert(rest@ =~= ids@.take(0).filter(back));
    while i < ids.len()
        invariant
            i <= ids.len(),
            front == is_display(main),
            back == is_other_display(main),
            out@ == ids@.take(i as int).filter(front),
            rest@ == ids@.take(i as int).filter(back),
        decreases ids.len() - i,
    {
        proof {
            reveal(Seq::filter);
            text::lemma_take_step(ids@, i as int);
        }
        if ids[i] == main {
            out.push(ids[i]);
        } else {
            rest.push(ids[i]);
        }
        i = i + 1;
    }
    assert(ids@.take(ids@.len() as int) =~= ids@);
    out.append(&mut rest);
    out
}

/// A fitted window starts on its display, at a coordinate from which its size
/// still fits, and is no larger than the display.
pub proof fn fitted_windows_are_on_their_display(
    v: u64,
    low: u64,
    high: u64,
    length: u64,
    display: u64,
)
    requires
        doubles::is_number(v),
        doubles::is_number(display),
        doubles::at_least(high, low),
    ensures
        doubles::at_least(between(v, low, high), low),
        doubles::at_least(high, between(v, low, high)),
        doubles::at_least(display, smaller(length, display)),
        !doubles::below(v, low) && !doubles::below(high, v) ==> between(v, low, high) == v,
{
}

/// Putting the main display in front neither adds nor drops one, and the main
/// display comes first where it is there at all.
pub proof fn main_display_comes_first(ids: Seq<u32>, main: u32)
    ensures
        main_first_of(ids, main).len() == ids.len(),
        main_first_of(ids, main).to_multiset() == ids.to_multiset(),
        ids.contains(main) ==> main_first_of(ids, main)[0] == main,
    decreases ids.len(),
{
    broadcast use vstd::seq_lib::group_to_multiset_ensures;
    broadcast use vstd::seq_lib::group_filter_ensures;

    reveal(Seq::filter);
    let front = ids.filter(is_display(main));
    let back = ids.filter(is_other_display(main));
    if ids.len() > 0 {
        let rest = ids.drop_last();
        let x = ids.last();
        main_display_comes_first(rest, main);
        let f = rest.filter(is_display(main));
        let b = rest.filter(is_other_display(main));
        assert(ids =~= rest.push(x));
        assert(ids.to_multiset() == rest.to_multiset().insert(x));
        if x == main {
            assert(front + back =~= (f + b).insert(f.len() as int, x));
            assert((f + b).insert(f.len() as int, x).to_multiset() =~= (f
                + b).to_multiset().insert(x));
        } else {
            assert(front + back =~= (f + b).push(x));
        }
    }
    if ids.contains(main) {
        let i = choose|i: int| 0 <= i < ids.len() && ids[i] == main;
        assert(is_display(main)(ids[i]));
        assert(front.contains(ids[i]));
        order::lemma_filtered(ids, is_display(main));
        assert(is_display(main)(front[0]));
        assert((front + back)[0] == front[0]);
    }
}

/// Sharing area is mutual, and needs each to start before the other ends, across
/// and down.
pub proof fn overlap_is_mutual(g: Edges, d: Edges)
    ensures
        overlap(g, d) == overlap(d, g),
        overlap(g, d) ==> doubles::below(g.left, d.right) && doubles::below(d.left, g.right)
            && doubles::below(g.top, d.bottom) && doubles::below(d.top, g.bottom),
        doubles::at_least(g.left, d.right) || doubles::at_least(d.left, g.right)
            || doubles::at_least(g.top, d.bottom) || doubles::at_least(d.top, g.bottom)
            ==> !overlap(g, d),
        doubles::below(g.left, d.right) && doubles::below(d.left, g.right) && doubles::below(
            g.top,
            d.bottom,
        ) && doubles::below(d.top, g.bottom) ==> overlap(g, d),
{
}

/// A window moves only where there are displays and it overlaps none of them; it
/// then goes to the first of those that no other is nearer than.
pub proof fn windows_move_to_the_nearest_display(
    g: Edges,
    displays: Seq<Edges>,
    distances: Seq<u64>,
)
    requires
        displays.len() == distances.len() <= usize::MAX,
        forall|i: int| 0 <= i < distances.len() ==> doubles::is_number(#[trigger] distances[i]),
    ensures
        match placement_of(g, displays, distances) {
            Placement::Keep => displays.len() == 0 || exists|i: int|
                0 <= i < displays.len() && overlap(g, #[trigger] displays[i]),
            Placement::Fit { display } => {
                &&& display < displays.len()
                &&& forall|i: int| 0 <= i < displays.len() ==> !overlap(g, #[trigger] displays[i])
                &&& forall|i: int|
                    0 <= i < distances.len() ==> doubles::at_least(
                        #[trigger] distances[i],
                        distances[display as int],
                    )
                &&& forall|i: int|
                    0 <= i < display ==> doubles::below(
                        distances[display as int],
                        #[trigger] distances[i],
                    )
            },
        },
{
    if displays.len() > 0 {
        nearest_is_first_least(distances, distances.len() as int);
    }
}

/// A fitted length is the window's own where that fits the display, and the
/// display's else; a fitted coordinate is the window's own within its range, and
/// the nearer end of it else.
pub proof fn fitting_changes_what_does_not_fit(
    v: u64,
    low: u64,
    high: u64,
    length: u64,
    display: u64,
)
    requires
        doubles::at_least(high, low),
    ensures
        doubles::at_least(display, length) ==> smaller(length, display) == length,
        doubles::below(display, length) ==> smaller(length, display) == display,
        !doubles::is_number(length) ==> smaller(length, display) == display,
        doubles::is_number(length) && !doubles::is_number(display) ==> smaller(length, display)
            == length,
        doubles::below(v, low) ==> between(v, low, high) == low,
        doubles::below(high, v) ==> between(v, low, high) == high,
        doubles::at_least(v, low) && doubles::at_least(high, v) ==> between(v, low, high) == v,
{
}

/// Behind the main display the others keep their order.
pub proof fn other_displays_keep_their_order(ids: Seq<u32>, id: u32, main: u32)
    ensures
        main_first_of(Seq::empty(), main).len() == 0,
        id != main ==> main_first_of(ids.push(id), main) == main_first_of(ids, main).push(id),
        id == main && !ids.contains(main) ==> main_first_of(ids.push(id), main) == seq![main]
            + main_first_of(ids, main),
{
    reveal(Seq::filter);
    assert(ids.push(id).drop_last() =~= ids);
    let front = ids.filter(is_display(main));
    let back = ids.filter(is_other_display(main));
    if id != main {
        assert(main_first_of(ids.push(id), main) =~= main_first_of(ids, main).push(id));
    } else if !ids.contains(main) {
        order::lemma_filtered(ids, is_display(main));
        if front.len() > 0 {
            assert(is_display(main)(front[0]) && ids.contains(front[0]));
        }
        assert(main_first_of(ids.push(id), main) =~= seq![main] + main_first_of(ids, main));
    }
}

/// A window that fits its display is not changed. Where it is larger it takes the
/// display's length; where it starts outside it starts at the nearer end, across
/// and down alike.
pub proof fn fitting_windows_stay(
    g: &WindowGeometry,
    display: &WindowGeometry,
    x_high: u64,
    y_high: u64,
    r: WindowGeometry,
)
    requires
        doubles::at_least(x_high, display.x),
        doubles::at_least(y_high, display.y),
        call_ensures(fitted, (g, display, x_high, y_high), r),
    ensures
        doubles::at_least(g.x, display.x) && doubles::at_least(x_high, g.x) ==> r.x == g.x,
        doubles::below(g.x, display.x) ==> r.x == display.x,
        doubles::below(x_high, g.x) ==> r.x == x_high,
        doubles::at_least(g.y, display.y) && doubles::at_least(y_high, g.y) ==> r.y == g.y,
        doubles::below(g.y, display.y) ==> r.y == display.y,
        doubles::below(y_high, g.y) ==> r.y == y_high,
        doubles::at_least(display.width, g.width) ==> r.width == g.width,
        doubles::below(display.width, g.width) ==> r.width == display.width,
        doubles::at_least(display.height, g.height) ==> r.height == g.height,
        doubles::below(display.height, g.height) ==> r.height == display.height,
{
}

} // verus!
