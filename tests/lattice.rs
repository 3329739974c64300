use std::collections::HashSet;
use tesseract::lattice::generate_hypercube_edges;

fn differs_by_one_step(p: [u64; 4], q: [u64; 4]) -> bool {
    let mut changed = 0;
    for a in 0..4 {
        if q[a] == p[a] + 1 {
            changed += 1;
        } else if q[a] != p[a] {
            return false;
        }
    }
    changed == 1
}

#[test]
fn tesseract_has_32_edges_between_corners() {
    let edges = generate_hypercube_edges(2);
    assert_eq!(edges.len(), 32);
    let mut seen = HashSet::new();
    let mut corners = HashSet::new();
    for (p, q) in &edges {
        for a in 0..4 {
            assert!(p[a] <= 1 && q[a] <= 1);
        }
        assert!(differs_by_one_step(*p, *q));
        assert!(seen.insert((*p, *q)));
        assert!(!seen.contains(&(*q, *p)));
        corners.insert(*p);
        corners.insert(*q);
    }
    assert_eq!(corners.len(), 16);
}

#[test]
fn edge_count_formula_for_small_grids() {
    for n in 2u64..=4 {
        let expected = (4 * n * n * n * (n - 1)) as usize;
        assert_eq!(generate_hypercube_edges(n).len(), expected);
    }
    assert_eq!(generate_hypercube_edges(3).len(), 216);
    assert_eq!(generate_hypercube_edges(4).len(), 768);
}

#[test]
fn three_samples_give_distinct_in_range_edges() {
    let edges = generate_hypercube_edges(3);
    let mut seen = HashSet::new();
    for (p, q) in &edges {
        for a in 0..4 {
            assert!(p[a] < 3 && q[a] < 3);
        }
        assert!(differs_by_one_step(*p, *q));
        assert!(seen.insert((*p, *q)));
    }
    for x in 0..3u64 {
        for y in 0..3u64 {
            for z in 0..3u64 {
                for u in 0..3u64 {
                    let p = [x, y, z, u];
                    for a in 0..4 {
                        if p[a] + 1 < 3 {
                            let mut q = p;
                            q[a] += 1;
                            assert!(seen.contains(&(p, q)));
                        }
                    }
                }
            }
        }
    }
}

#[test]
fn degenerate_grids_have_no_edges() {
    assert!(generate_hypercube_edges(0).is_empty());
    assert!(generate_hypercube_edges(1).is_empty());
}

#[test]
fn edges_come_in_lattice_then_axis_order() {
    let edges = generate_hypercube_edges(2);
    assert_eq!(edges[0], ([0, 0, 0, 0], [1, 0, 0, 0]));
    assert_eq!(edges[1], ([0, 0, 0, 0], [0, 1, 0, 0]));
    assert_eq!(edges[2], ([0, 0, 0, 0], [0, 0, 1, 0]));
    assert_eq!(edges[3], ([0, 0, 0, 0], [0, 0, 0, 1]));
    assert_eq!(edges[4], ([0, 0, 0, 1], [1, 0, 0, 1]));
    assert_eq!(edges[31], ([1, 1, 1, 0], [1, 1, 1, 1]));
}
