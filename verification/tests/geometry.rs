//! Placing captured windows on the displays there are now. Coordinates are
//! added and multiplied here; every comparison is the library's.

use temporal::geometry::{
    fitted, fitted_length, main_first, placement, Edges, Placement,
};
use temporal::types::WindowGeometry;

fn geo(x: f64, y: f64, width: f64, height: f64) -> WindowGeometry {
    WindowGeometry {
        x: x.to_bits(),
        y: y.to_bits(),
        width: width.to_bits(),
        height: height.to_bits(),
    }
}

fn num(bits: u64) -> f64 {
    f64::from_bits(bits)
}

fn edges(g: &WindowGeometry) -> Edges {
    Edges {
        left: g.x,
        top: g.y,
        right: (num(g.x) + num(g.width)).to_bits(),
        bottom: (num(g.y) + num(g.height)).to_bits(),
    }
}

fn distance(g: &WindowGeometry, d: &WindowGeometry) -> u64 {
    let dx = num(d.x) + num(d.width) / 2.0 - (num(g.x) + num(g.width) / 2.0);
    let dy = num(d.y) + num(d.height) / 2.0 - (num(g.y) + num(g.height) / 2.0);
    (dx * dx + dy * dy).to_bits()
}

fn clamp_to_displays(g: WindowGeometry, displays: &[WindowGeometry]) -> WindowGeometry {
    let spans: Vec<Edges> = displays.iter().map(edges).collect();
    let distances: Vec<u64> = displays.iter().map(|d| distance(&g, d)).collect();
    match placement(&edges(&g), &spans, &distances) {
        Placement::Keep => g,
        Placement::Fit { display } => {
            let d = displays[display];
            let width = num(fitted_length(g.width, d.width));
            let height = num(fitted_length(g.height, d.height));
            let x_high = (num(d.x) + num(d.width) - width).to_bits();
            let y_high = (num(d.y) + num(d.height) - height).to_bits();
            fitted(&g, &d, x_high, y_high)
        }
    }
}

#[test]
fn empty_display_list_leaves_geometry_unchanged() {
    let g = geo(100.0, 100.0, 800.0, 600.0);
    assert_eq!(clamp_to_displays(g, &[]), g);
}

#[test]
fn in_bounds_geometry_is_unchanged() {
    let display = geo(0.0, 0.0, 1920.0, 1080.0);
    let g = geo(100.0, 100.0, 800.0, 600.0);
    assert_eq!(clamp_to_displays(g, &[display]), g);
}

#[test]
fn straddling_an_edge_is_left_unchanged() {
    // Partially on-screen: still reachable, so no rewrite.
    let display = geo(0.0, 0.0, 1920.0, 1080.0);
    let g = geo(1900.0, 100.0, 800.0, 600.0);
    assert_eq!(clamp_to_displays(g, &[display]), g);
}

#[test]
fn fully_outside_every_display_is_clamped_to_nearest() {
    // Captured on a second monitor to the right that's since been unplugged.
    let primary = geo(0.0, 0.0, 1920.0, 1080.0);
    let g = geo(2100.0, 100.0, 800.0, 600.0);
    let clamped = clamp_to_displays(g, &[primary]);
    assert!(
        num(clamped.x) >= num(primary.x)
            && num(clamped.x) + num(clamped.width) <= num(primary.x) + num(primary.width)
    );
    assert!(
        num(clamped.y) >= num(primary.y)
            && num(clamped.y) + num(clamped.height) <= num(primary.y) + num(primary.height)
    );
    assert_eq!(num(clamped.width), 800.0);
    assert_eq!(num(clamped.height), 600.0);
}

#[test]
fn oversized_window_is_shrunk_to_fit_nearest_display() {
    let small = geo(0.0, 0.0, 1024.0, 768.0);
    let g = geo(5000.0, 5000.0, 1920.0, 1080.0);
    let clamped = clamp_to_displays(g, &[small]);
    assert_eq!(num(clamped.width), 1024.0);
    assert_eq!(num(clamped.height), 768.0);
}

#[test]
fn picks_the_nearest_of_multiple_displays() {
    let left = geo(0.0, 0.0, 1920.0, 1080.0);
    let right = geo(4000.0, 0.0, 1920.0, 1080.0);
    // Captured far to the right of `right`, closer to it than to `left`.
    let g = geo(6000.0, 100.0, 800.0, 600.0);
    let clamped = clamp_to_displays(g, &[left, right]);
    assert!(
        num(clamped.x) >= num(right.x)
            && num(clamped.x) + num(clamped.width) <= num(right.x) + num(right.width)
    );
}

#[test]
fn clamping_lands_on_exact_coordinates() {
    let primary = geo(0.0, 0.0, 1920.0, 1080.0);
    assert_eq!(
        clamp_to_displays(geo(2100.0, 100.0, 800.0, 600.0), &[primary]),
        geo(1120.0, 100.0, 800.0, 600.0)
    );
    assert_eq!(
        clamp_to_displays(geo(-900.0, -700.0, 800.0, 600.0), &[primary]),
        geo(0.0, 0.0, 800.0, 600.0)
    );
}

#[test]
fn equally_near_displays_yield_the_first() {
    let left = geo(-2000.0, 0.0, 1000.0, 1000.0);
    let right = geo(2000.0, 0.0, 1000.0, 1000.0);
    let g = geo(400.0, 0.0, 200.0, 1000.0);
    assert_eq!(distance(&g, &left), distance(&g, &right));
    assert_eq!(clamp_to_displays(g, &[left, right]), geo(-1200.0, 0.0, 200.0, 1000.0));
}

#[test]
fn touching_edges_do_not_overlap() {
    let display = geo(0.0, 0.0, 100.0, 100.0);
    let g = geo(100.0, 0.0, 50.0, 50.0);
    assert_eq!(clamp_to_displays(g, &[display]), geo(50.0, 0.0, 50.0, 50.0));
}

#[test]
fn main_display_comes_first() {
    assert_eq!(main_first(&vec![7, 3, 9], 9), vec![9, 7, 3]);
    assert_eq!(main_first(&vec![7, 3], 9), vec![7, 3]);
}

#[test]
fn distances_matter_only_between_displays() {
    let nan = f64::NAN.to_bits();
    let far = edges(&geo(5000.0, 0.0, 10.0, 10.0));
    let display = edges(&geo(0.0, 0.0, 100.0, 100.0));
    assert_eq!(placement(&far, &vec![display], &vec![nan]), Placement::Fit { display: 0 });
    let near = edges(&geo(50.0, 0.0, 10.0, 10.0));
    assert_eq!(placement(&near, &vec![far, display], &vec![nan, nan]), Placement::Keep);
}
