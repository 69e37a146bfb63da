use sim_an::alter_solution::{
    _randomly_improve_solution, brute_force_start, brute_force_try_order, naive_solve, random_improvement_step,
    pick_best_result, semi_random_improve_solution, swap_most_expensive_calls,
    swap_two_random_calls, swap_with_selected, CarInfo, Info, SolutionPermutation,
};

const NNODES: usize = 39;

fn travel_table(nvehicles: usize) -> Vec<[i32; 4]> {
    let mut t = vec![[0i32; 4]; NNODES * NNODES * nvehicles];
    for lo in 0..NNODES {
        for hi in 0..NNODES {
            for v in 0..nvehicles {
                let d = (hi as i32 - lo as i32).abs();
                t[v + (hi + lo * NNODES) * nvehicles] = [lo as i32 + 1, hi as i32 + 1, d + v as i32, 2 * d + v as i32];
            }
        }
    }
    t
}

fn instance() -> (Vec<[i32; 3]>, Vec<[i32; 8]>, Vec<[i32; 4]>, Vec<[i32; 5]>) {
    let vehicles = vec![[1, 0, 10]];
    let calls = vec![[2, 3, 1, 100, 0, 50, 0, 60], [4, 5, 1, 200, 0, 50, 0, 60]];
    let travel = travel_table(1);
    let nodes = vec![[1, 1, 10, 2, 20], [2, 3, 30, 4, 40]];
    (vehicles, calls, travel, nodes)
}

fn sorted(mut v: Vec<i32>) -> Vec<i32> {
    v.sort();
    v
}

#[test]
fn info_for_pickup_and_delivery() {
    let (_v, c, t, n) = instance();
    let car_info = CarInfo { vehicle_idx: 0, car_pos: vec![1], car_times: vec![0] };
    // Pickup of call 1: from 1 to 2 takes 1, plus 1 at the node; cost 10 + 100.
    let pickup = Info::new(0, &car_info, 1, &n, &c, &t).unwrap();
    assert_eq!(pickup.get_info(), (Some(2), Some(2), Some(2), Some(110)));
    // Delivery of call 2: from 1 to 5 takes 4, plus 4 at the node; cost 40 + 200.
    let delivery = Info::new(1, &car_info, 2, &n, &c, &t).unwrap();
    assert_eq!(delivery.get_info(), (Some(5), Some(8), Some(8), Some(240)));
    // A call met twice gives nothing.
    assert!(Info::new(2, &car_info, 1, &n, &c, &t).is_none());
    // A vehicle standing at a node the table does not cover gives nothing.
    let lost = CarInfo { vehicle_idx: 0, car_pos: vec![0], car_times: vec![0] };
    assert!(Info::new(0, &lost, 1, &n, &c, &t).is_none());
}

#[test]
fn info_waits_for_the_window() {
    let c = vec![[2, 3, 1, 100, 10, 50, 0, 60]];
    let t = travel_table(1);
    let n = vec![[1, 1, 10, 2, 20]];
    let car_info = CarInfo { vehicle_idx: 0, car_pos: vec![1], car_times: vec![0] };
    // Arrives at 2 but the window opens at 10: done at 10, no time past the opening.
    let i = Info::new(0, &car_info, 1, &n, &c, &t).unwrap();
    assert_eq!(i.get_info(), (Some(2), Some(10), Some(0), Some(110)));
}

#[test]
fn is_faster_compares_within_window() {
    let (_v, c, t, n) = instance();
    let car_info = CarInfo { vehicle_idx: 0, car_pos: vec![1], car_times: vec![0] };
    let pickup = Info::new(0, &car_info, 1, &n, &c, &t).unwrap();
    assert!(pickup.is_faster(None));
    assert!(pickup.is_faster(Some(2)));
    assert!(!pickup.is_faster(Some(1)));
    let late = CarInfo { vehicle_idx: 0, car_pos: vec![1], car_times: vec![100] };
    let too_late = Info::new(0, &late, 1, &n, &c, &t).unwrap();
    assert!(!too_late.is_faster(None));
}

#[test]
fn naive_solve_builds_a_plan() {
    let (v, c, t, n) = instance();
    let (solution, cost) = naive_solve(&v, &c, &t, &n);
    assert_eq!(solution.len(), 4);
    assert!(solution.iter().all(|&x| x == 1 || x == 2));
    // Step 1: pickup of call 1 (done at 2) is as fast as pickup of call 2
    // (done at 6, 6 past the opening)? Call 1 has 2 past the opening and is
    // found first; call 2 is faster only if its delta is no larger.
    assert_eq!(solution[0], 1);
    assert!(cost > 0);
}

#[test]
fn naive_solve_exact_plan() {
    let vehicles = vec![[1, 0, 10]];
    let calls = vec![[2, 3, 1, 1, 0, 50, 0, 60]];
    let travel = travel_table(1);
    let nodes = vec![[1, 0, 1, 0, 1]];
    // Step 1: pickup of call 1 at node 2, cost 1 + 1, counted twice.
    // Step 2: call 1 once met, delivery at node 3, cost 1 + 1, counted twice.
    assert_eq!(naive_solve(&vehicles, &calls, &travel, &nodes), (vec![1, 1], 8));
}

#[test]
fn swap_two_random_calls_reorders() {
    let s = vec![1, 1, 2, 2, 3, 3];
    for _ in 0..20 {
        let r = swap_two_random_calls(0, &s);
        assert_eq!(sorted(r.clone()), sorted(s.clone()));
        let diffs = r.iter().zip(s.iter()).filter(|(a, b)| a != b).count();
        assert!(diffs == 0 || diffs == 2);
    }
}

#[test]
fn swap_with_selected_moves() {
    let s = vec![1, 2, 3, 4];
    assert_eq!(swap_with_selected(2, &s), s);
    for _ in 0..20 {
        let r = swap_with_selected(0, &s);
        let diffs: Vec<usize> = (0..4).filter(|&i| r[i] != s[i]).collect();
        assert!(diffs.is_empty() || (diffs.len() == 2 && diffs[0] == 0));
        let r1 = swap_with_selected(1, &s);
        assert_eq!(sorted(r1), sorted(s.clone()));
    }
}

#[test]
fn swap_most_expensive_calls_never_costs_more() {
    let (v, c, t, n) = instance();
    let s = vec![1, 1, 2, 2];
    let (r, cost) = swap_most_expensive_calls(&s, &1_000_000, &v, &c, &t, &n);
    assert_eq!(sorted(r.clone()), sorted(s.clone()));
    assert!(cost <= 1_000_000);
    // With a cost lower than any reachable one, nothing changes.
    let (r2, cost2) = swap_most_expensive_calls(&s, &0, &v, &c, &t, &n);
    assert_eq!((r2, cost2), (s, 0));
}

#[test]
fn improve_step_keeps_the_better() {
    let (v, c, t, n) = instance();
    let s = vec![1, 1, 2, 2];
    let current_cost = 5;
    let perm = SolutionPermutation {
        current_solution: &s,
        current_cost: &current_cost,
        vehicle_details: &v,
        call_details: &c,
        travel_costs: &t,
        node_costs: &n,
    };
    // Move 1 keeps the solution; its cost is higher than 5, so 5 stays.
    assert_eq!(perm.improve_step(1, &s, Some(5)), (s.clone(), Some(5)));
    // With no cost known, the computed cost is taken.
    let (r, cost) = perm.improve_step(1, &s, None);
    assert_eq!(r, s);
    assert!(cost.is_some());
    // Move 2 with a high cost: some reordering of no higher cost.
    let (r2, cost2) = perm.improve_step(2, &s, Some(1_000_000));
    assert_eq!(sorted(r2), sorted(s.clone()));
    assert!(cost2.unwrap() <= 1_000_000);
}

#[test]
fn random_improvement_step_compares_the_best() {
    let (v, c, t, n) = instance();
    let s = vec![1, 1, 2, 2];
    // Nothing known: the cost of the best solution is taken for the new one.
    let (r, cost) = random_improvement_step(2, &s, &s, None, &v, &c, &t, &n);
    assert_eq!(r, s);
    assert!(cost.is_some());
    // A known cost no higher than the computed one stays.
    let (r2, cost2) = random_improvement_step(2, &s, &s, Some(0), &v, &c, &t, &n);
    assert_eq!((r2, cost2), (s, Some(0)));
}

#[test]
fn brute_force_start_pairs_calls() {
    assert_eq!(brute_force_start(3), (vec![1, 1, 2, 2, 3, 3], vec![1, 1, 2, 2, 3, 3]));
}

#[test]
fn brute_force_try_order_stops_at_first_accepted() {
    let vehicles = vec![[1, 0, 10]];
    let calls = vec![[2, 3, 1, 100, 0, 50, 0, 60], [4, 5, 1, 100, 0, 50, 0, 60]];
    let travel = travel_table(1);
    let nodes = vec![[1, 0, 0, 0, 0], [2, 0, 0, 0, 0]];
    let mut current = vec![1, 1, 2, 2];
    // Writing 2 first gives [2, 1, 2, 2]: call 2 three times; then [2, 2, 2, 2]...
    let found = brute_force_try_order(&mut current, &[2, 2, 1, 1], &vehicles, &calls, &travel, &nodes);
    assert!(found);
    assert_eq!(current, vec![2, 2, 1, 1]);
    let mut current2 = vec![1, 1, 2, 2];
    let found2 = brute_force_try_order(&mut current2, &[1, 1, 1, 1], &vehicles, &calls, &travel, &nodes);
    assert!(found2);
    assert_eq!(current2, vec![1, 1, 2, 2]);
}

#[test]
fn naive_solution_names_each_call_twice() {
    let (v, c, t, n) = instance();
    let (solution, _cost) = naive_solve(&v, &c, &t, &n);
    for call in 1..=2 {
        assert_eq!(solution.iter().filter(|&&x| x == call).count(), 2);
    }
}

#[test]
fn improve_step_never_raises_the_cost() {
    let (v, c, t, n) = instance();
    let s = vec![1, 1, 2, 2];
    let current_cost = 1_000_000;
    let perm = SolutionPermutation {
        current_solution: &s,
        current_cost: &current_cost,
        vehicle_details: &v,
        call_details: &c,
        travel_costs: &t,
        node_costs: &n,
    };
    for _ in 0..20 {
        let (r, cost) = perm.improve_step(0, &s, Some(current_cost));
        assert_eq!(sorted(r), sorted(s.clone()));
        assert!(cost.unwrap() <= current_cost);
    }
}

#[test]
fn search_without_time_returns_its_start() {
    let (v, c, t, n) = instance();
    let s = vec![1, 1, 2, 2];
    assert_eq!(semi_random_improve_solution(&s, &42, &v, &c, &t, &n), Some((s.clone(), 42)));
    let perm = SolutionPermutation {
        current_solution: &s,
        current_cost: &7,
        vehicle_details: &v,
        call_details: &c,
        travel_costs: &t,
        node_costs: &n,
    };
    assert_eq!(perm.improve(), (s, 7));
}

#[test]
fn random_search_returns_a_costed_candidate() {
    let (v, c, t, n) = instance();
    let s = vec![1, 1, 2, 2];
    for _ in 0..20 {
        if let Some((r, _cost)) = _randomly_improve_solution(&s, &0, &v, &c, &t, &n) {
            assert_eq!(sorted(r.clone()), sorted(s.clone()));
            let diffs = r.iter().zip(s.iter()).filter(|(a, b)| a != b).count();
            assert!(diffs == 0 || diffs == 2);
        }
    }
    // Every candidate of a single-entry plan is the plan itself, whose cost is known.
    let one_call = vec![[2, 3, 1, 1, 0, 50, 0, 60]];
    let nodes = vec![[1, 0, 1, 0, 1]];
    let r = _randomly_improve_solution(&[1, 1], &0, &v, &one_call, &t, &nodes);
    assert_eq!(r.map(|(sol, _)| sol), Some(vec![1, 1]));
}

#[test]
fn best_result_is_the_cheapest_in_order() {
    let results = vec![Some((vec![2, 2, 1, 1], 9)), None, Some((vec![1, 2, 1, 2], 7)), Some((vec![2, 1, 2, 1], 7))];
    assert_eq!(pick_best_result(&results, vec![1, 1, 2, 2], 10), (vec![1, 2, 1, 2], 7));
    assert_eq!(pick_best_result(&results, vec![1, 1, 2, 2], 5), (vec![1, 1, 2, 2], 5));
}

#[test]
fn swap_pass_costs_no_more_than_its_solution() {
    let (v, c, t, n) = instance();
    let s = vec![1, 1, 2, 2];
    let current_cost = 1_000_000;
    let perm = SolutionPermutation {
        current_solution: &s,
        current_cost: &current_cost,
        vehicle_details: &v,
        call_details: &c,
        travel_costs: &t,
        node_costs: &n,
    };
    // Move 1 keeps the solution, so with no cost known it gives the solution's cost.
    let own_cost = perm.improve_step(1, &s, None).1.unwrap();
    let (_, cost) = swap_most_expensive_calls(&s, &current_cost, &v, &c, &t, &n);
    assert!(cost <= own_cost);
}
