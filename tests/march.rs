use boxel::coords::{Fixed3, WorldCoordinate, SUBCELL};
use boxel::march::{unit_step, VoxelMarch};

fn fixed(x: f64, y: f64, z: f64) -> Fixed3 {
    Fixed3::new(
        (x * SUBCELL as f64).round() as i64,
        (y * SUBCELL as f64).round() as i64,
        (z * SUBCELL as f64).round() as i64,
    )
}

fn manhattan(a: &WorldCoordinate, b: &WorldCoordinate) -> i64 {
    (a.x - b.x).abs() + (a.y - b.y).abs() + (a.z - b.z).abs()
}

#[test]
fn test_voxel_march() {
    let mut ray = VoxelMarch::new(&fixed(8., 20., 8.), &fixed(-8., -20., -8.));
    let mut last = ray.position();
    for _ in 0..36 {
        let (cell, normal) = ray.next();
        println!("ret to {:?}", cell);
        assert_eq!(manhattan(&cell, &last), 1);
        assert_eq!(normal.x.abs() + normal.y.abs() + normal.z.abs(), 1);
        assert!(cell.x <= last.x && cell.y <= last.y && cell.z <= last.z);
        last = cell;
    }
}

#[test]
fn test_unit_step() {
    for x in -1..=1 {
        for dx in -1..=1 {
            if dx == 0 {
                continue;
            }
            let x = x as i64 * (SUBCELL / 2);
            let dx = dx as i64;
            let t = unit_step(x, dx);
            let step = t * dx + x;
            println!("x: {} dx: {} t: {} step: {}", x, dx, t, step);
            assert!(step % SUBCELL == 0);
        }
    }
}

#[test]
fn test_unit_step_man() {
    assert_eq!(unit_step(8 * SUBCELL, 0), 0);
}

#[test]
fn unit_step_exact_values() {
    assert_eq!(unit_step(SUBCELL / 4, 3), 3 * SUBCELL / 4);
    assert_eq!(unit_step(SUBCELL / 4, -3), SUBCELL / 4);
    assert_eq!(unit_step(-SUBCELL / 4, 1), SUBCELL / 4);
    assert_eq!(unit_step(-SUBCELL / 4, -1), 3 * SUBCELL / 4);
    assert_eq!(unit_step(2 * SUBCELL, 1), 0);
}

#[test]
fn march_starts_in_origin_cell() {
    let ray = VoxelMarch::new(&fixed(-0.5, 3.25, 7.9), &fixed(1., 0., 0.));
    assert_eq!(ray.position(), WorldCoordinate::new(-1, 3, 7));
    assert_eq!(ray.steps(), 0);
    assert!(ray.is_moving());
}

#[test]
fn axis_aligned_ray_steps_one_cell_at_a_time() {
    let mut ray = VoxelMarch::new(&fixed(0.5, 2.5, -3.5), &fixed(0., 0., -1.));
    let mut last = ray.position();
    for i in 1..=50 {
        let (cell, normal) = ray.next();
        assert_eq!(cell, WorldCoordinate::new(0, 2, -4 - i));
        assert_eq!(manhattan(&cell, &last), 1);
        assert_eq!(normal, WorldCoordinate::new(0, 0, 1));
        last = cell;
    }
    assert_eq!(ray.steps(), 50);
}

#[test]
fn zero_axes_never_change() {
    let mut ray = VoxelMarch::new(&fixed(4.3, -1.7, 9.1), &fixed(0.3, 0., -0.7));
    for _ in 0..200 {
        let (cell, normal) = ray.next();
        assert_eq!(cell.y, -2);
        assert_eq!(normal.y, 0);
    }
}

#[test]
fn diagonal_ray_alternates_axes() {
    let mut ray = VoxelMarch::new(&fixed(0.25, 0.5, 0.5), &fixed(1., 1., 0.));
    let (c1, n1) = ray.next();
    assert_eq!(c1, WorldCoordinate::new(0, 1, 0));
    assert_eq!(n1, WorldCoordinate::new(0, -1, 0));
    let (c2, n2) = ray.next();
    assert_eq!(c2, WorldCoordinate::new(1, 1, 0));
    assert_eq!(n2, WorldCoordinate::new(-1, 0, 0));
}

#[test]
fn marches_from_same_ray_agree() {
    let origin = fixed(3.3, 17.6, -2.2);
    let dir = fixed(-0.4, -0.9, 0.2);
    let mut a = VoxelMarch::new(&origin, &dir);
    let mut b = VoxelMarch::new(&origin, &dir);
    for _ in 0..500 {
        assert_eq!(a.next(), b.next());
    }
}

#[test]
fn stationary_ray_stays_put() {
    let mut ray = VoxelMarch::new(&fixed(1.5, 1.5, 1.5), &fixed(0., 0., 0.));
    assert!(!ray.is_moving());
    let (cell, normal) = ray.next();
    assert_eq!(cell, WorldCoordinate::new(1, 1, 1));
    assert_eq!(normal, WorldCoordinate::new(0, 0, 0));
}
