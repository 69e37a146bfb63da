use sim_an::coordinate_generator::{all_nodes_order, find_node_orders, flatten_node_orders, get_node_coords};

const NNODES: usize = 39;

fn travel_table(nvehicles: usize) -> Vec<[i32; 4]> {
    let mut t = vec![[0i32; 4]; NNODES * NNODES * nvehicles];
    for lo in 0..NNODES {
        for hi in 0..NNODES {
            for v in 0..nvehicles {
                let d = (hi as i32 - lo as i32).abs();
                t[v + (hi + lo * NNODES) * nvehicles] = [lo as i32 + 1, hi as i32 + 1, d + v as i32, 2 * d + v as i32];
            }
        }
    }
    t
}

/// Travel times of a right triangle 3-4-5 between nodes 1, 2 and 3.
fn triangle_table() -> Vec<[i32; 4]> {
    let mut t = travel_table(1);
    let set = |t: &mut Vec<[i32; 4]>, a: usize, b: usize, d: i32| {
        let (lo, hi) = if a <= b { (a - 1, b - 1) } else { (b - 1, a - 1) };
        t[hi + lo * NNODES][2] = d;
    };
    set(&mut t, 1, 2, 4);
    set(&mut t, 1, 3, 3);
    set(&mut t, 2, 3, 5);
    set(&mut t, 1, 1, 0);
    set(&mut t, 2, 2, 0);
    set(&mut t, 3, 3, 0);
    t
}

#[test]
fn short_orders() {
    let t = travel_table(1);
    let m = get_node_coords(&vec![], &t, &[100, 100]);
    assert_eq!(m.len(), 1);
    assert_eq!(m[&1], [0, 0]);
    let m2 = get_node_coords(&vec![3, 7], &t, &[100, 100]);
    assert_eq!(m2.len(), 2);
    assert_eq!(m2[&1], [0, 0]);
    assert_eq!(m2[&2], [0, 4]);
}

#[test]
fn triangle_is_placed() {
    let t = triangle_table();
    let m = get_node_coords(&vec![1, 2, 3], &t, &[100, 100]);
    // a = (0, 0), b = (0, 4); c is 3 from a and 5 from b: h = floor(sqrt(9 + 25)) = 5,
    // the foot of the height at (9 - 25 + 16) / 8 = 0 along ab, so c = (5, 0).
    // Then each node of the order is placed again at its best candidate:
    // node 1 at (4, 0), node 2 at (4, 4), node 3 at (-5, 0) moved to (95, 0)
    // because (5, 0) is already used.
    assert_eq!(m.len(), 3);
    assert_eq!(m[&1], [4, 0]);
    assert_eq!(m[&2], [4, 4]);
    assert_eq!(m[&3], [95, 0]);
}

#[test]
fn unknown_nodes_are_skipped() {
    let t = triangle_table();
    let with_unknown = get_node_coords(&vec![1, 2, 3, 0, 40], &t, &[100, 100]);
    let without = get_node_coords(&vec![1, 2, 3], &t, &[100, 100]);
    assert_eq!(with_unknown, without);
    assert!(!with_unknown.contains_key(&0));
    assert!(!with_unknown.contains_key(&40));
}

#[test]
fn node_orders_start_at_home() {
    let vehicles = vec![[1, 0, 10], [5, 0, 10]];
    let calls = vec![[2, 3, 1, 100, 0, 50, 0, 60]];
    let t = travel_table(2);
    let nodes = vec![[1, 0, 0, 0, 0], [1, 0, 0, 0, 0]];
    let orders = find_node_orders(&[1, 1], &vehicles, &calls, &t, &nodes);
    assert_eq!(orders.len(), 2);
    assert_eq!(orders[0][0], 1);
    assert_eq!(orders[1][0], 5);
    // Vehicle 0 reaches node 2 at time 1 (delta 1), vehicle 1 at 3 + 1: the
    // first is taken; for the delivery the call counts as met once, so
    // vehicle 1 is considered for the delivery and is faster or not.
    let total: usize = orders.iter().map(|o| o.len() - 1).sum();
    assert_eq!(total, 2);
}

#[test]
fn node_orders_single_vehicle() {
    let vehicles = vec![[1, 0, 10]];
    let calls = vec![[2, 3, 1, 100, 0, 50, 0, 60], [4, 5, 1, 100, 0, 50, 0, 60]];
    let t = travel_table(1);
    let nodes = vec![[1, 0, 0, 0, 0], [2, 0, 0, 0, 0]];
    let orders = find_node_orders(&[1, 1, 2, 2], &vehicles, &calls, &t, &nodes);
    assert_eq!(orders, vec![vec![1, 2, 3, 4, 5]]);
}

#[test]
fn orders_are_flattened_and_completed() {
    let flat = flatten_node_orders(&vec![vec![1, 2], vec![], vec![5, 2]]);
    assert_eq!(flat, vec![1, 2, 5, 2]);
    let all = all_nodes_order(&flat);
    assert_eq!(all.len(), 4 + 36);
    assert_eq!(all[..5], [1, 2, 5, 2, 3]);
    assert_eq!(all[5], 4);
    assert_eq!(all[6], 6);
    assert_eq!(*all.last().unwrap(), 39);
}
