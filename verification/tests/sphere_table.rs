use lsystem::sphere_table::{octant_signs, signed_key, SphereTopology, N_FREQ};

const TOTAL_TRIANGLES: usize = 8 * (N_FREQ as usize) * (N_FREQ as usize);

/// The unit direction of a lattice key.
fn direction(key: (i32, i32, i32)) -> [f64; 3] {
    let n = f64::from(N_FREQ);
    let p = [f64::from(key.0) / n, f64::from(key.1) / n, f64::from(key.2) / n];
    let length = (p[0] * p[0] + p[1] * p[1] + p[2] * p[2]).sqrt();
    [p[0] / length, p[1] / length, p[2] / length]
}

fn cross(a: [f64; 3], b: [f64; 3]) -> [f64; 3] {
    [a[1] * b[2] - a[2] * b[1], a[2] * b[0] - a[0] * b[2], a[0] * b[1] - a[1] * b[0]]
}

fn dot(a: [f64; 3], b: [f64; 3]) -> f64 {
    a[0] * b[0] + a[1] * b[1] + a[2] * b[2]
}

#[test]
fn direction_count_matches_the_class_i_octahedral_formula() {
    let table = SphereTopology::build();
    assert_eq!(table.keys().len(), 102);
    assert_eq!(table.keys().len(), 4 * (N_FREQ as usize) * (N_FREQ as usize) + 2);
}

#[test]
fn antipode_is_a_complete_involution_with_exact_negation() {
    let table = SphereTopology::build();
    let antipode = table.antipode();
    let keys = table.keys();
    for index in 0..keys.len() {
        let partner = antipode[index];
        assert_eq!(antipode[partner], index, "antipode is not an involution at {index}");
        let (x, y, z) = keys[index];
        assert_eq!(keys[partner], (-x, -y, -z), "antipode {partner} is not the negation of {index}");
    }
}

#[test]
fn populated_triangle_count_matches_8n_squared() {
    assert_eq!(TOTAL_TRIANGLES, 200);
    let table = SphereTopology::build();
    let mut count = 0;
    for octant in table.octants() {
        for i in 0..N_FREQ {
            for j in 0..N_FREQ {
                let Some(cell) = &octant[(i * N_FREQ + j) as usize] else {
                    continue;
                };
                count += 1; // `up` is always present on a populated cell.
                match &cell.down {
                    Some(_) => {
                        count += 1;
                        assert!(
                            i + j < N_FREQ - 1,
                            "down present outside its expected domain at ({i}, {j})"
                        );
                    }
                    None => assert_eq!(
                        i + j,
                        N_FREQ - 1,
                        "down missing outside the last valid row at ({i}, {j})"
                    ),
                }
            }
        }
    }
    assert_eq!(count, TOTAL_TRIANGLES);
}

#[test]
fn every_populated_triangle_has_distinct_vertices_and_a_nonsingular_matrix() {
    let table = SphereTopology::build();
    let keys = table.keys();
    for octant in table.octants() {
        for cell in octant.iter().flatten() {
            for triangle in [Some(&cell.up), cell.down.as_ref()].into_iter().flatten() {
                let (a, b, c) = *triangle;
                assert!(a != b && b != c && a != c, "triangle {triangle:?} repeats a vertex");
                let u = [direction(keys[a]), direction(keys[b]), direction(keys[c])];
                let det = dot(u[0], cross(u[1], u[2]));
                assert!(det.is_finite() && det.abs() > 1.0e-9, "triangle {triangle:?} is singular");
                for row in [cross(u[1], u[2]), cross(u[2], u[0]), cross(u[0], u[1])] {
                    for component in row {
                        assert!((component / det).is_finite(), "triangle {triangle:?} has a non-finite inverse");
                    }
                }
            }
        }
    }
}

// --- Further cases ---

#[test]
fn every_key_lies_on_the_octahedron_and_keys_are_distinct() {
    let table = SphereTopology::build();
    let keys = table.keys();
    for (index, &(x, y, z)) in keys.iter().enumerate() {
        assert_eq!(x.abs() + y.abs() + z.abs(), N_FREQ);
        assert!(!keys[..index].contains(&(x, y, z)));
    }
}

#[test]
fn signed_keys_share_faces_and_negate_across_octants() {
    assert_eq!(octant_signs(0), (-1, -1, -1));
    assert_eq!(octant_signs(5), (1, -1, 1));
    assert_eq!(octant_signs(7), (1, 1, 1));
    // A zero index carries no sign, so shared face vertices collide.
    assert_eq!(signed_key(0, 5, 0, 1, -1, 1), (0, -5, 0));
    assert_eq!(signed_key(0, 5, 0, -1, -1, -1), (0, -5, 0));
    let (sx, sy, sz) = octant_signs(3);
    let (ax, ay, az) = octant_signs(4);
    assert_eq!(signed_key(2, 1, 2, sx, sy, sz), (2, 1, -2));
    assert_eq!(signed_key(2, 1, 2, ax, ay, az), (-2, -1, 2));
}
