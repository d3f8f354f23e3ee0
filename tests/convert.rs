use hex_spiral::convert::{cube_to_spiral, spiral_to_cube, Cube};
use hex_spiral::position::ring;

#[test]
fn convert_spiral_to_cube() {
    let spiral_vals: Vec<usize> = vec![0, 1, 4, 7, 8, 45];
    let result = spiral_vals
        .into_iter()
        .map(spiral_to_cube)
        .collect::<Vec<Cube>>();
    let expected = [(0, 0, 0), (0, -1, 1), (0, 1, -1), (0, -2, 2), (1, -2, 1), (4, 0, -4)]
        .into_iter()
        .map(|(q, r, s)| Cube::new(q, r, s))
        .collect::<Vec<Cube>>();
    assert_eq!(expected, result);
}

#[test]
fn convert_cube_to_spiral() {
    let cube = [(0, 0, 0), (0, -1, 1), (0, 1, -1), (0, -2, 2), (1, -2, 1), (4, 0, -4)]
        .into_iter()
        .map(|(q, r, s)| Cube::new(q, r, s));
    let result = cube
        .into_iter()
        .map(|c| cube_to_spiral(c).unwrap())
        .collect::<Vec<usize>>();
    assert_eq!(vec![0, 1, 4, 7, 8, 45], result);
}

#[test]
fn convert_invalid_qrs() {
    assert_eq!(Err("q + r + s != 0"), cube_to_spiral(Cube::new(-1, -1, 0)),)
}

#[test]
fn cube_of_every_corner_of_ring_two() {
    let expected = [
        (7, (0, -2, 2)),
        (9, (2, -2, 0)),
        (11, (2, 0, -2)),
        (13, (0, 2, -2)),
        (15, (-2, 2, 0)),
        (17, (-2, 0, 2)),
        (18, (-1, -1, 2)),
    ];
    for (p, (q, r, s)) in expected {
        assert_eq!(spiral_to_cube(p), Cube::new(q, r, s), "{}", p);
    }
}

#[test]
fn cube_components_sum_to_zero_and_reach_the_ring() {
    for p in 0..10_000usize {
        let c = spiral_to_cube(p);
        assert_eq!(c.q + c.r + c.s, 0);
        assert_eq!(c.abs_largest() as usize, ring(p));
        assert_eq!(c.component_sum(), 0);
    }
}

#[test]
fn cube_round_trip() {
    for p in 0..10_000usize {
        assert_eq!(cube_to_spiral(spiral_to_cube(p)), Ok(p));
    }
}

#[test]
fn cube_beyond_the_addressable_rings_is_not_found() {
    assert_eq!(
        cube_to_spiral(Cube::new(i32::MIN, i32::MAX, 1)),
        Err("Couldn't find a solution")
    );
}

#[test]
fn cube_with_overflowing_sum_is_invalid() {
    assert_eq!(
        cube_to_spiral(Cube::new(i32::MAX, i32::MAX, 0)),
        Err("q + r + s != 0")
    );
}

#[test]
fn cube_helpers() {
    let c = Cube::new(3, -7, 4);
    assert_eq!(c.abs_largest(), 7);
    assert_eq!(c.component_sum(), 0);
    assert_eq!(Cube::default(), Cube::new(0, 0, 0));
    assert_eq!(Cube::new(i32::MIN, 0, 0).abs_largest(), 2147483648);
}
