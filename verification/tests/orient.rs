use circuitsim_engine::middle_end::func::{Handedness, Orientation, RelativeComponentBounds, orient_coord};

#[test]
fn orient_ports_by_direction() {
    let base = RelativeComponentBounds {
        bounds: [(-2, -1), (3, 4)],
        ports: vec![(-1, 0), (0, 1), (2, -3)],
    };

    let east = base.clone().orient(Orientation::East, Handedness::DownRight);
    assert_eq!(east.ports, vec![(-1, 0), (0, 1), (2, -3)]);

    let north = base.clone().orient(Orientation::North, Handedness::DownRight);
    assert_eq!(north.ports, vec![(0, -1), (-1, 0), (3, 2)]);

    let south = base.clone().orient(Orientation::South, Handedness::DownRight);
    assert_eq!(south.ports, vec![(0, 1), (1, 0), (-3, -2)]);

    let west = base.clone().orient(Orientation::West, Handedness::DownRight);
    assert_eq!(west.ports, vec![(1, 0), (0, -1), (-2, 3)]);

    let east = base.clone().orient(Orientation::East, Handedness::TopLeft);
    assert_eq!(east.ports, vec![(-1, 0), (0, 1), (2, -3)]);

    let north = base.clone().orient(Orientation::North, Handedness::TopLeft);
    assert_eq!(north.ports, vec![(0, -1), (-1, 0), (3, 2)]);

    let south = base.clone().orient(Orientation::South, Handedness::TopLeft);
    assert_eq!(south.ports, vec![(0, 1), (1, 0), (-3, -2)]);

    let west = base.orient(Orientation::West, Handedness::TopLeft);
    assert_eq!(west.ports, vec![(1, 0), (0, -1), (-2, 3)]);
}

#[test]
fn orient_bounds_accounts_for_all_corners() {
    let base = RelativeComponentBounds {
        bounds: [(-2, -1), (3, 4)],
        ports: vec![(-1, 0)],
    };
    let [b0, b1] = base.bounds;
    let corners = [b0, (b0.0, b1.1), (b1.0, b0.1), b1];

    for orientation in [Orientation::North, Orientation::East, Orientation::South, Orientation::West] {
        for handedness in [Handedness::TopLeft, Handedness::DownRight] {
            let oriented = base.clone().orient(orientation, handedness);
            let [lo, hi] = oriented.bounds;

            // Bounds should stay normalized.
            assert!(lo.0 <= hi.0);
            assert!(lo.1 <= hi.1);

            // Every rotated corner must lie inside the oriented bounds.
            for c in corners {
                let r = orient_coord(c, orientation, handedness);
                assert!(r.0 >= lo.0 && r.0 <= hi.0);
                assert!(r.1 >= lo.1 && r.1 <= hi.1);
            }
        }
    }
}
