use vstd::prelude::*;
use crate::validity_check::{
    a_to_b_time, call_fields, fits, lemma_known_nodes_readable, node_known, table_vehicles, travel_row,
};
use crate::constants::NNODES;
use std::collections::HashMap;
use crate::alter_solution::{
    cost_spec, initial_route, pick_vehicle, initial_state, instance_wf, lemma_pick_vehicle_range, lemma_route_shape, route_after,
    route_choice, route_run, route_safe, route_step_safe, serve_call, CarInfo, Route,
};

verus! {

/// The nodes each vehicle visits: its home node, then the node reached by
/// each of the first `n` entries it serves.
pub open spec fn node_history(
    solution: Seq<i32>,
    n: int,
    vehicle_details: Seq<[i32; 3]>,
    call_details: Seq<[i32; 8]>,
    travel_costs: Seq<[i32; 4]>,
    node_costs: Seq<[i32; 5]>,
) -> Seq<Seq<i32>>
    decreases n,
{
    if n <= 0 {
        Seq::new(vehicle_details.len(), |v: int| seq![vehicle_details[v][0]])
    } else {
        let h = node_history(solution, n - 1, vehicle_details, call_details, travel_costs, node_costs);
        match route_run(solution, n - 1, true, vehicle_details, call_details, travel_costs, node_costs) {
            Some(r) => match route_choice(r, solution[n - 1], node_costs, call_details, travel_costs) {
                Some((v, inf)) => h.update(v, h[v].push(inf.to_node)),
                None => h,
            },
            None => h,
        }
    }
}

proof fn lemma_node_history_len(
    solution: Seq<i32>,
    n: int,
    vehicle_details: Seq<[i32; 3]>,
    call_details: Seq<[i32; 8]>,
    travel_costs: Seq<[i32; 4]>,
    node_costs: Seq<[i32; 5]>,
)
    requires
        0 <= n <= solution.len(),
        route_safe(solution, true, vehicle_details, call_details, travel_costs, node_costs),
    ensures
        node_history(solution, n, vehicle_details, call_details, travel_costs, node_costs).len()
            == vehicle_details.len(),
    decreases n,
{
    if n > 0 {
        lemma_node_history_len(solution, n - 1, vehicle_details, call_details, travel_costs, node_costs);
        lemma_route_shape(solution, n - 1, true, vehicle_details, call_details, travel_costs, node_costs);
        let rr = route_run(solution, n - 1, true, vehicle_details, call_details, travel_costs, node_costs);
        if rr is Some {
            let r = rr->Some_0;
            let call = solution[n - 1];
            lemma_pick_vehicle_range(r.car_pos.len() as int, r.counter[call - 1] as int, r.car_pos, r.car_times,
                call as int, node_costs, call_details, travel_costs);
        }
    }
}

/// Every vehicle's visit history begins at its home node: serving entries
/// only appends nodes to it.
pub proof fn lemma_node_history_starts_at_home(
    solution: Seq<i32>,
    n: int,
    vehicle_details: Seq<[i32; 3]>,
    call_details: Seq<[i32; 8]>,
    travel_costs: Seq<[i32; 4]>,
    node_costs: Seq<[i32; 5]>,
)
    requires
        0 <= n <= solution.len(),
        route_safe(solution, true, vehicle_details, call_details, travel_costs, node_costs),
    ensures
        ({
            let h = node_history(solution, n, vehicle_details, call_details, travel_costs, node_costs);
            &&& h.len() == vehicle_details.len()
            &&& forall|v: int| 0 <= v < h.len() ==> (#[trigger] h[v]).len() >= 1 && h[v][0] == vehicle_details[v][0]
        }),
    decreases n,
{
    lemma_node_history_len(solution, n, vehicle_details, call_details, travel_costs, node_costs);
    if n > 0 {
        lemma_node_history_starts_at_home(solution, n - 1, vehicle_details, call_details, travel_costs, node_costs);
        lemma_node_history_len(solution, n - 1, vehicle_details, call_details, travel_costs, node_costs);
        lemma_route_shape(solution, n - 1, true, vehicle_details, call_details, travel_costs, node_costs);
        let rr = route_run(solution, n - 1, true, vehicle_details, call_details, travel_costs, node_costs);
        if rr is Some {
            let r = rr->Some_0;
            let call = solution[n - 1];
            lemma_pick_vehicle_range(r.car_pos.len() as int, r.counter[call - 1] as int, r.car_pos, r.car_times,
                call as int, node_costs, call_details, travel_costs);
        }
    }
}

proof fn lemma_lenient_run_goes_on(
    solution: Seq<i32>,
    n: int,
    vehicle_details: Seq<[i32; 3]>,
    call_details: Seq<[i32; 8]>,
    travel_costs: Seq<[i32; 4]>,
    node_costs: Seq<[i32; 5]>,
)
    ensures
        route_run(solution, n, true, vehicle_details, call_details, travel_costs, node_costs) is Some,
    decreases n,
{
    if n > 0 {
        lemma_lenient_run_goes_on(solution, n - 1, vehicle_details, call_details, travel_costs, node_costs);
    }
}

/// Number of nodes the first `k` vehicles reached after their home nodes.
pub open spec fn visits_total(h: Seq<Seq<i32>>, k: int) -> int
    decreases k,
{
    if k <= 0 {
        0
    } else {
        visits_total(h, k - 1) + h[k - 1].len() - 1
    }
}

proof fn lemma_visits_total_push(h: Seq<Seq<i32>>, v: int, x: i32, k: int)
    requires
        0 <= v < h.len(),
        k <= h.len(),
    ensures
        visits_total(h.update(v, h[v].push(x)), k) == visits_total(h, k) + if v < k { 1int } else { 0int },
    decreases k,
{
    if k > 0 {
        lemma_visits_total_push(h, v, x, k - 1);
    }
}

proof fn lemma_pick_to_node(
    k: int,
    call_count: int,
    car_pos: Seq<i32>,
    car_times: Seq<i32>,
    call: int,
    node_costs: Seq<[i32; 5]>,
    call_details: Seq<[i32; 8]>,
    travel_costs: Seq<[i32; 4]>,
)
    ensures
        pick_vehicle(k, call_count, car_pos, car_times, call, node_costs, call_details, travel_costs) matches Some(p)
            ==> p.1.to_node == call_fields(call_details, call).0 || p.1.to_node == call_fields(call_details, call).1,
    decreases k,
{
    if k > 0 {
        lemma_pick_to_node(k - 1, call_count, car_pos, car_times, call, node_costs, call_details, travel_costs);
    }
}

/// The node histories after `n` entries: one node past the homes for every
/// entry served, each the origin or destination of a served entry's call;
/// every entry is served exactly when the strict run (the one that costs the
/// solution) gets through, and then the two runs agree.
proof fn lemma_node_history_counts(
    solution: Seq<i32>,
    n: int,
    vehicle_details: Seq<[i32; 3]>,
    call_details: Seq<[i32; 8]>,
    travel_costs: Seq<[i32; 4]>,
    node_costs: Seq<[i32; 5]>,
)
    requires
        0 <= n <= solution.len(),
        route_safe(solution, true, vehicle_details, call_details, travel_costs, node_costs),
    ensures
        ({
            let h = node_history(solution, n, vehicle_details, call_details, travel_costs, node_costs);
            &&& h.len() == vehicle_details.len()
            &&& visits_total(h, h.len() as int) <= n
            &&& (visits_total(h, h.len() as int) == n) == (route_run(solution, n, false, vehicle_details,
                call_details, travel_costs, node_costs) is Some)
            &&& route_run(solution, n, false, vehicle_details, call_details, travel_costs, node_costs) is Some
                ==> route_run(solution, n, true, vehicle_details, call_details, travel_costs, node_costs)
                == route_run(solution, n, false, vehicle_details, call_details, travel_costs, node_costs)
            &&& forall|v: int, i: int|
                0 <= v < h.len() && 1 <= i < h[v].len() ==> exists|k: int|
                    #![trigger solution[k]]
                    0 <= k < n && (#[trigger] h[v][i] == call_fields(call_details, solution[k] as int).0 || h[v][i]
                        == call_fields(call_details, solution[k] as int).1)
        }),
    decreases n,
{
    lemma_node_history_len(solution, n, vehicle_details, call_details, travel_costs, node_costs);
    let h = node_history(solution, n, vehicle_details, call_details, travel_costs, node_costs);
    if n == 0 {
        lemma_visits_total_home(h, h.len() as int, vehicle_details);
    } else {
        lemma_node_history_counts(solution, n - 1, vehicle_details, call_details, travel_costs, node_costs);
        lemma_node_history_len(solution, n - 1, vehicle_details, call_details, travel_costs, node_costs);
        lemma_route_shape(solution, n - 1, true, vehicle_details, call_details, travel_costs, node_costs);
        lemma_lenient_run_goes_on(solution, n - 1, vehicle_details, call_details, travel_costs, node_costs);
        let h0 = node_history(solution, n - 1, vehicle_details, call_details, travel_costs, node_costs);
        let r = route_run(solution, n - 1, true, vehicle_details, call_details, travel_costs, node_costs)->Some_0;
        let call = solution[n - 1];
        lemma_pick_vehicle_range(r.car_pos.len() as int, r.counter[call - 1] as int, r.car_pos, r.car_times,
            call as int, node_costs, call_details, travel_costs);
        lemma_pick_to_node(r.car_pos.len() as int, r.counter[call - 1] as int, r.car_pos, r.car_times,
            call as int, node_costs, call_details, travel_costs);
        match route_choice(r, call, node_costs, call_details, travel_costs) {
            Some((v, inf)) => {
                lemma_visits_total_push(h0, v, inf.to_node, h0.len() as int);
                assert(h == h0.update(v, h0[v].push(inf.to_node)));
                assert forall|w: int, i: int| 0 <= w < h.len() && 1 <= i < h[w].len() implies exists|k: int|
                    #![trigger solution[k]]
                    0 <= k < n && (#[trigger] h[w][i] == call_fields(call_details, solution[k] as int).0 || h[w][i]
                        == call_fields(call_details, solution[k] as int).1) by {
                    if w == v && i == h0[v].len() {
                        assert(h[w][i] == inf.to_node);
                        assert(solution[n - 1] == call);
                    } else {
                        assert(h[w][i] == h0[w][i]);
                        let k = choose|k: int|
                            #![trigger solution[k]]
                            0 <= k < n - 1 && (h0[w][i] == call_fields(call_details, solution[k] as int).0 || h0[w][i]
                                == call_fields(call_details, solution[k] as int).1);
                        assert(solution[k] == solution[k]);
                    }
                }
            },
            None => {
                assert(h == h0);
            },
        }
    }
}

proof fn lemma_visits_total_home(h: Seq<Seq<i32>>, k: int, vehicle_details: Seq<[i32; 3]>)
    requires
        0 <= k <= h.len(),
        h == Seq::new(vehicle_details.len(), |v: int| seq![vehicle_details[v][0]]),
    ensures
        visits_total(h, k) == 0,
    decreases k,
{
    if k > 0 {
        lemma_visits_total_home(h, k - 1, vehicle_details);
    }
}

/// The visit histories hold one node past the homes for every entry served,
/// each the origin or destination of a call of the solution: as many as the
/// solution has entries exactly when its cost is known, fewer otherwise.
pub proof fn lemma_node_histories_match_the_cost(
    solution: Seq<i32>,
    vehicle_details: Seq<[i32; 3]>,
    call_details: Seq<[i32; 8]>,
    travel_costs: Seq<[i32; 4]>,
    node_costs: Seq<[i32; 5]>,
)
    requires
        route_safe(solution, true, vehicle_details, call_details, travel_costs, node_costs),
    ensures
        ({
            let h = node_history(solution, solution.len() as int, vehicle_details, call_details, travel_costs,
                node_costs);
            &&& visits_total(h, h.len() as int) <= solution.len()
            &&& (visits_total(h, h.len() as int) == solution.len()) == (cost_spec(solution, vehicle_details,
                call_details, travel_costs, node_costs) is Some)
            &&& forall|v: int, i: int|
                0 <= v < h.len() && 1 <= i < h[v].len() ==> exists|k: int|
                    #![trigger solution[k]]
                    0 <= k < solution.len() && (#[trigger] h[v][i] == call_fields(call_details, solution[k] as int).0
                        || h[v][i] == call_fields(call_details, solution[k] as int).1)
        }),
{
    lemma_node_history_counts(solution, solution.len() as int, vehicle_details, call_details, travel_costs,
        node_costs);
}

/// The order in which each vehicle visits nodes when the solution is served
/// entry by entry by the fastest vehicle: its home node first; an entry that
/// no vehicle can serve is skipped.
pub fn find_node_orders(
    solution: &[i32],
    vehicle_details: &[[i32; 3]],
    call_details: &[[i32; 8]],
    travel_costs: &[[i32; 4]],
    node_costs: &[[i32; 5]],
) -> (r: Vec<Vec<i32>>)
    requires
        instance_wf(vehicle_details@, call_details@, travel_costs@, node_costs@),
        route_safe(solution@, true, vehicle_details@, call_details@, travel_costs@, node_costs@),
    ensures
        r@.len() == vehicle_details@.len(),
        forall|v: int| 0 <= v < r@.len() ==> (#[trigger] r@[v])@ == node_history(solution@,
            solution@.len() as int, vehicle_details@, call_details@, travel_costs@, node_costs@)[v],
{
    let ghost sol = solution@;
    let ghost vd = vehicle_details@;
    let ghost cd = call_details@;
    let ghost tc = travel_costs@;
    let ghost nc = node_costs@;
    let nvehicles = vehicle_details.len();
    let (mut car_pos, mut car_times, mut call_counter) = initial_state(vehicle_details, call_details.len());
    let mut vehicle_position_history: Vec<Vec<i32>> = Vec::new();
    let mut vehicle_idx: usize = 0;
    while vehicle_idx < nvehicles
        invariant
            vd == vehicle_details@,
            nvehicles == vd.len(),
            vehicle_idx <= nvehicles,
            vehicle_position_history@.len() == vehicle_idx,
            forall|v: int| 0 <= v < vehicle_idx ==> (#[trigger] vehicle_position_history@[v])@ == seq![vd[v][0]],
        decreases nvehicles - vehicle_idx,
    {
        let home = vehicle_details[vehicle_idx][0];
        let mut first: Vec<i32> = Vec::new();
        first.push(home);
        vehicle_position_history.push(first);
        proof {
            assert(vehicle_position_history@[vehicle_idx as int]@ =~= seq![vd[vehicle_idx as int][0]]);
        }
        vehicle_idx = vehicle_idx + 1;
    }
    let mut idx: usize = 0;
    while idx < solution.len()
        invariant
            sol == solution@,
            vd == vehicle_details@,
            cd == call_details@,
            tc == travel_costs@,
            nc == node_costs@,
            nvehicles == vd.len(),
            instance_wf(vd, cd, tc, nc),
            route_safe(sol, true, vd, cd, tc, nc),
            idx <= sol.len(),
            route_run(sol, idx as int, true, vd, cd, tc, nc) == Some(
                Route { car_pos: car_pos@, car_times: car_times@, counter: call_counter@ },
            ),
            vehicle_position_history@.len() == nvehicles,
            forall|v: int| 0 <= v < nvehicles ==> (#[trigger] vehicle_position_history@[v])@ == node_history(sol,
                idx as int, vd, cd, tc, nc)[v],
        decreases sol.len() - idx,
    {
        let call = solution[idx];
        let ghost r = Route { car_pos: car_pos@, car_times: car_times@, counter: call_counter@ };
        let ghost h = node_history(sol, idx as int, vd, cd, tc, nc);
        proof {
            lemma_route_shape(sol, idx as int, true, vd, cd, tc, nc);
            lemma_node_history_len(sol, idx as int, vd, cd, tc, nc);
        }
        if nvehicles > 0 {
            proof {
                assert(route_step_safe(r, call, nc, cd, tc));
            }
            let mut car_info = CarInfo { vehicle_idx: 0, car_pos, car_times };
            let chosen = serve_call(&mut call_counter, &mut car_info, call, nvehicles, node_costs, call_details,
                travel_costs);
            car_pos = car_info.car_pos;
            car_times = car_info.car_times;
            match chosen {
                Some((vehicle_value, to_node_value, time_value, _delta, _cost)) => {
                    proof {
                        lemma_pick_vehicle_range(nvehicles as int, r.counter[call - 1] as int, r.car_pos,
                            r.car_times, call as int, nc, cd, tc);
                    }
                    car_times.set(vehicle_value, time_value);
                    car_pos.set(vehicle_value, to_node_value);
                    let mut row = vstd::slice::slice_to_vec(vehicle_position_history[vehicle_value].as_slice());
                    row.push(to_node_value);
                    vehicle_position_history.set(vehicle_value, row);
                    proof {
                        let r2 = route_after(r, call, vehicle_value as int, route_choice(r, call, nc, cd, tc)->Some_0.1);
                        assert(car_pos@ =~= r2.car_pos);
                        assert(car_times@ =~= r2.car_times);
                        lemma_node_history_len(sol, idx as int, vd, cd, tc, nc);
                        let h2 = node_history(sol, idx as int + 1, vd, cd, tc, nc);
                        let ch = route_choice(r, call, nc, cd, tc)->Some_0;
                        assert(h2 == h.update(ch.0, h[ch.0].push(ch.1.to_node)));
                        assert forall|v: int| 0 <= v < nvehicles implies (#[trigger] vehicle_position_history@[v])@
                            == h2[v] by {}
                    }
                },
                None => {},
            }
        }
        idx = idx + 1;
    }
    vehicle_position_history
}


/// Division rounding toward zero.
pub open spec fn tdiv(x: int, d: int) -> int {
    if x == 0 {
        0
    } else if x > 0 && d > 0 {
        x / d
    } else if x < 0 && d < 0 {
        (x * -1) / (d * -1)
    } else if x < 0 {
        ((x * -1) / d) * -1
    } else {
        (x / (d * -1)) * -1
    }
}

/// The division is defined and its result fits in an `i32`.
pub open spec fn div_ok(x: int, d: int) -> bool {
    d != 0 && fits(tdiv(x, d))
}

/// Divides, rounding toward zero.
fn div_toward_zero(x: i32, d: i32) -> (r: i32)
    requires
        div_ok(x as int, d as int),
    ensures
        r == tdiv(x as int, d as int),
{
    x.checked_div(d).unwrap()
}

/// The square root of `n`, rounded down.
pub open spec fn is_isqrt(n: int, r: int) -> bool {
    0 <= r && r * r <= n < (r + 1) * (r + 1)
}

/// The square root of a non-negative `n`, rounded down.
fn isqrt(n: i32) -> (r: i32)
    requires
        n >= 0,
    ensures
        is_isqrt(n as int, r as int),
{
    // Search for the largest r with r * r <= n in [lo, hi).
    let mut lo: i64 = 0;
    let mut hi: i64 = 46341;
    proof {
        assert(46341 * 46341 > i32::MAX) by (nonlinear_arith);
    }
    while hi - lo > 1
        invariant
            0 <= lo < hi <= 46341,
            lo * lo <= n,
            hi * hi > n,
        decreases hi - lo,
    {
        let mid = lo + (hi - lo) / 2;
        proof {
            assert(mid * mid <= 46341 * 46341) by (nonlinear_arith) requires 0 <= mid <= 46341;
        }
        if mid * mid <= n as i64 {
            lo = mid;
        } else {
            hi = mid;
        }
    }
    proof {
        assert(hi == lo + 1);
    }
    lo as i32
}

/// A point, as a pair of coordinates.
pub open spec fn pt(c: [i32; 2]) -> (int, int) {
    (c[0] as int, c[1] as int)
}

/// The values the construction of the third corner of a triangle goes
/// through, from two corners `a` and `b` and the three side lengths: the
/// foot `q` of the height on the side `ab`, the height `h`, and the two
/// candidate corners on either side of `ab`.
pub open spec fn corner_candidates(
    a: (int, int),
    b: (int, int),
    h: int,
    dist_a_b: int,
    dist_a_c: int,
    dist_b_c: int,
) -> ((int, int), (int, int)) {
    let (a0, a1) = (a.0, a.1);
    let (b0, b1) = (b.0, b.1);
    let dist_a_q = tdiv(dist_a_c * dist_a_c - dist_b_c * dist_b_c + dist_a_b * dist_a_b, 2 * dist_a_b);
    let q0 = a0 + tdiv(dist_a_q * (b0 - a0), dist_a_b);
    let q1 = a1 + tdiv(dist_a_q * (b1 - a1), dist_a_b);
    let c0 = q0 + tdiv(h * (b1 - a1), dist_a_b);
    let c1 = q1 - tdiv(h * (b0 - a0), dist_a_b);
    let d0 = q0 - tdiv(h * (b1 - a1), dist_a_b);
    let d1 = q1 + tdiv(h * (b0 - a0), dist_a_b);
    ((c0, c1), (d0, d1))
}

/// The square of the height: the sum of the squares of the two other sides.
pub open spec fn height_squared(dist_a_c: int, dist_b_c: int) -> int {
    dist_a_c * dist_a_c + dist_b_c * dist_b_c
}

/// The height used: the square root, rounded down, of [`height_squared`].
pub open spec fn height(dist_a_c: int, dist_b_c: int) -> int {
    choose|r: int| is_isqrt(height_squared(dist_a_c, dist_b_c), r)
}

/// The candidate positions of the third corner `c` of a triangle, from the
/// corners `a` and `b` and the side lengths: none when `a` and `b` coincide,
/// one when both candidates coincide, else two.
pub open spec fn coord_options_spec(
    a: (int, int),
    b: (int, int),
    dist_a_b: int,
    dist_a_c: int,
    dist_b_c: int,
) -> (Option<(int, int)>, Option<(int, int)>) {
    if a == b {
        (None, None)
    } else {
        let (c, d) = corner_candidates(a, b, height(dist_a_c, dist_b_c), dist_a_b, dist_a_c, dist_b_c);
        if c == d {
            (Some(c), None)
        } else {
            (Some(c), Some(d))
        }
    }
}

/// Every step of the construction is defined and fits in an `i32`.
pub open spec fn coord_options_safe(
    a: (int, int),
    b: (int, int),
    dist_a_b: int,
    dist_a_c: int,
    dist_b_c: int,
) -> bool {
    a != b ==> {
        let (a0, a1) = (a.0, a.1);
        let (b0, b1) = (b.0, b.1);
        let h = height(dist_a_c, dist_b_c);
        let sq_ab = dist_a_b * dist_a_b;
        let sq_ac = dist_a_c * dist_a_c;
        let sq_bc = dist_b_c * dist_b_c;
        let num = sq_ac - sq_bc + sq_ab;
        let dist_a_q = tdiv(num, 2 * dist_a_b);
        let q0 = a0 + tdiv(dist_a_q * (b0 - a0), dist_a_b);
        let q1 = a1 + tdiv(dist_a_q * (b1 - a1), dist_a_b);
        &&& fits(sq_ab) && fits(sq_ac) && fits(sq_bc)
        &&& fits(sq_ac + sq_bc)
        &&& fits(sq_ac - sq_bc) && fits(num)
        &&& fits(2 * dist_a_b)
        &&& div_ok(num, 2 * dist_a_b)
        &&& fits(b0 - a0) && fits(b1 - a1)
        &&& fits(dist_a_q * (b0 - a0)) && div_ok(dist_a_q * (b0 - a0), dist_a_b) && fits(q0)
        &&& fits(dist_a_q * (b1 - a1)) && div_ok(dist_a_q * (b1 - a1), dist_a_b) && fits(q1)
        &&& fits(h * (b1 - a1)) && div_ok(h * (b1 - a1), dist_a_b)
        &&& fits(h * (b0 - a0)) && div_ok(h * (b0 - a0), dist_a_b)
        &&& fits(q0 + tdiv(h * (b1 - a1), dist_a_b))
        &&& fits(q1 - tdiv(h * (b0 - a0), dist_a_b))
        &&& fits(q0 - tdiv(h * (b1 - a1), dist_a_b))
        &&& fits(q1 + tdiv(h * (b0 - a0), dist_a_b))
    }
}

/// The optional pair of coordinates of an optional point.
pub open spec fn opt_pt(o: Option<[i32; 2]>) -> Option<(int, int)> {
    match o {
        Some(c) => Some((c[0] as int, c[1] as int)),
        None => None,
    }
}

/// Places the third corner `c` of a triangle from the corners `a` and `b`
/// and the side lengths: the two positions on either side of `ab`; one when
/// they coincide; none when `a` and `b` coincide.
fn coord_options_from_two_points(
    coord_a: [i32; 2],
    coord_b: [i32; 2],
    dist_a_b: i32,
    dist_a_c: i32,
    dist_b_c: i32,
) -> (r: [Option<[i32; 2]>; 2])
    requires
        coord_options_safe(pt(coord_a), pt(coord_b), dist_a_b as int, dist_a_c as int, dist_b_c as int),
    ensures
        (opt_pt(r[0]), opt_pt(r[1])) == coord_options_spec(pt(coord_a), pt(coord_b), dist_a_b as int,
            dist_a_c as int, dist_b_c as int),
{
    if coord_a[0] == coord_b[0] && coord_a[1] == coord_b[1] {
        return [None, None];
    }
    let a0 = coord_a[0];
    let a1 = coord_a[1];
    let b0 = coord_b[0];
    let b1 = coord_b[1];
    let h_squared = dist_a_c * dist_a_c + dist_b_c * dist_b_c;
    proof {
        assert(h_squared >= 0) by (nonlinear_arith)
            requires h_squared == dist_a_c * dist_a_c + dist_b_c * dist_b_c;
    }
    let h = isqrt(h_squared);
    proof {
        lemma_height_is(dist_a_c as int, dist_b_c as int, h as int);
    }
    let dist_a_q = div_toward_zero(dist_a_c * dist_a_c - dist_b_c * dist_b_c + dist_a_b * dist_a_b, 2 * dist_a_b);
    let q0 = a0 + div_toward_zero(dist_a_q * (b0 - a0), dist_a_b);
    let q1 = a1 + div_toward_zero(dist_a_q * (b1 - a1), dist_a_b);
    let c0 = q0 + div_toward_zero(h * (b1 - a1), dist_a_b);
    let c1 = q1 - div_toward_zero(h * (b0 - a0), dist_a_b);
    let d0 = q0 - div_toward_zero(h * (b1 - a1), dist_a_b);
    let d1 = q1 + div_toward_zero(h * (b0 - a0), dist_a_b);
    if c0 == d0 && c1 == d1 {
        return [Some([c0, c1]), None];
    }
    [Some([c0, c1]), Some([d0, d1])]
}

proof fn lemma_height_is(dist_a_c: int, dist_b_c: int, r: int)
    requires
        is_isqrt(height_squared(dist_a_c, dist_b_c), r),
    ensures
        height(dist_a_c, dist_b_c) == r,
{
    let n = height_squared(dist_a_c, dist_b_c);
    assert(exists|x: int| is_isqrt(n, x));
    let s = choose|x: int| is_isqrt(n, x);
    lemma_isqrt_unique_values(n, r, s);
}

proof fn lemma_isqrt_unique_values(n: int, r: int, s: int)
    requires
        is_isqrt(n, r),
    ensures
        is_isqrt(n, s) ==> s == r,
{
    if is_isqrt(n, s) {
        if s < r {
            assert((s + 1) * (s + 1) <= r * r) by (nonlinear_arith) requires 0 <= s < r;
        } else if s > r {
            assert((r + 1) * (r + 1) <= s * s) by (nonlinear_arith) requires 0 <= r < s;
        }
    }
}


/// Travel time between two nodes for the first vehicle.
pub open spec fn dist(travel_costs: Seq<[i32; 4]>, x: int, y: int) -> int {
    travel_row(travel_costs, 0, x, y)[2] as int
}

/// A negative coordinate is moved into the map by adding the map's size.
pub open spec fn wrap_point(c: (int, int), map_size: (int, int)) -> (int, int) {
    (if c.0 < 0 { c.0 + map_size.0 } else { c.0 }, if c.1 < 0 { c.1 + map_size.1 } else { c.1 })
}

/// The best of the first `k` candidates: the first one, replaced by a later
/// one when the one held is already used and the later one is not.
pub open spec fn best_of(opts: Seq<Option<(int, int)>>, k: int, used: Seq<(int, int)>, map_size: (int, int)) -> Option<(int, int)>
    decreases k,
{
    if k <= 0 {
        None
    } else {
        let prev = best_of(opts, k - 1, used, map_size);
        match opts[k - 1] {
            None => prev,
            Some(c) => {
                let w = wrap_point(c, map_size);
                if prev is None || (used.contains(prev->Some_0) && !used.contains(w)) {
                    Some(w)
                } else {
                    prev
                }
            },
        }
    }
}

/// Point `w` is candidate `c` moved into the map: a negative x by the map's
/// width (`map_size.0`), a negative y by its height (`map_size.1`); a
/// coordinate that is not negative stays.
pub open spec fn moved_into_map(c: (int, int), w: (int, int), map_size: (int, int)) -> bool {
    &&& c.0 < 0 ==> w.0 == c.0 + map_size.0
    &&& c.0 >= 0 ==> w.0 == c.0
    &&& c.1 < 0 ==> w.1 == c.1 + map_size.1
    &&& c.1 >= 0 ==> w.1 == c.1
}

/// The point chosen among the candidates is one of them moved into the map
/// along each axis by that axis's own size: a negative x by the map's width
/// (`map_size.0`), a negative y by its height (`map_size.1`); a coordinate
/// that is not negative stays.
pub proof fn lemma_best_of_moves_each_axis_by_its_size(
    opts: Seq<Option<(int, int)>>,
    k: int,
    used: Seq<(int, int)>,
    map_size: (int, int),
)
    ensures
        best_of(opts, k, used, map_size) matches Some(w) ==> exists|i: int|
            0 <= i < k && (#[trigger] opts[i]) is Some && moved_into_map(opts[i]->Some_0, w, map_size),
    decreases k,
{
    if k > 0 {
        lemma_best_of_moves_each_axis_by_its_size(opts, k - 1, used, map_size);
        let prev = best_of(opts, k - 1, used, map_size);
        if let Some(c) = opts[k - 1] {
            let w = wrap_point(c, map_size);
            if prev is None || (used.contains(prev->Some_0) && !used.contains(w)) {
                assert(opts[k - 1] is Some && moved_into_map(opts[k - 1]->Some_0, w, map_size));
            }
        }
    }
}

/// The coordinates placed so far, and the points already used.
pub struct CoordState {
    pub map: Map<i32, (int, int)>,
    pub used: Seq<(int, int)>,
}

/// The candidates for node `node_n`: from the corners `a` and `b`, then from
/// `a` and `c`, using the travel times to it.
pub open spec fn node_candidates(
    node_n: int,
    nodes: (int, int, int),
    corners: ((int, int), (int, int), (int, int)),
    dist_a_b: int,
    dist_a_c: int,
    travel_costs: Seq<[i32; 4]>,
) -> Seq<Option<(int, int)>> {
    let (node_a, node_b, node_c) = nodes;
    let (a, b, c) = corners;
    let dist_a_n = dist(travel_costs, node_a, node_n);
    let dist_b_n = dist(travel_costs, node_b, node_n);
    let dist_c_n = dist(travel_costs, node_c, node_n);
    let abn = coord_options_spec(a, b, dist_a_b, dist_a_n, dist_b_n);
    let acn = coord_options_spec(a, c, dist_a_c, dist_a_n, dist_c_n);
    seq![abn.0, abn.1, acn.0, acn.1]
}

/// Placing the first `n` nodes of the order, one by one.
pub open spec fn place_nodes(
    order: Seq<i32>,
    n: int,
    st: CoordState,
    nodes: (int, int, int),
    corners: ((int, int), (int, int), (int, int)),
    dist_a_b: int,
    dist_a_c: int,
    travel_costs: Seq<[i32; 4]>,
    map_size: (int, int),
) -> CoordState
    decreases n,
{
    if n <= 0 {
        st
    } else {
        let prev = place_nodes(order, n - 1, st, nodes, corners, dist_a_b, dist_a_c, travel_costs, map_size);
        let node_n = order[n - 1];
        if !node_known(node_n as int) {
            prev
        } else {
            let opts = node_candidates(node_n as int, nodes, corners, dist_a_b, dist_a_c, travel_costs);
            match best_of(opts, 4, prev.used, map_size) {
                Some(w) => CoordState { map: prev.map.insert(node_n, w), used: prev.used.push(w) },
                None => prev,
            }
        }
    }
}

/// Every node placed one by one gets one of its candidates moved into the
/// map along each axis by that axis's own size; the nodes placed before
/// keep their points unless placed again.
pub proof fn lemma_placed_nodes_are_moved_candidates(
    order: Seq<i32>,
    n: int,
    st: CoordState,
    nodes: (int, int, int),
    corners: ((int, int), (int, int), (int, int)),
    dist_a_b: int,
    dist_a_c: int,
    travel_costs: Seq<[i32; 4]>,
    map_size: (int, int),
)
    ensures
        ({
            let m = place_nodes(order, n, st, nodes, corners, dist_a_b, dist_a_c, travel_costs, map_size).map;
            forall|key: i32|
                #[trigger] m.dom().contains(key) ==> (st.map.dom().contains(key) && m[key] == st.map[key]) || exists|i: int|
                    0 <= i < 4 && (#[trigger] node_candidates(key as int, nodes, corners, dist_a_b, dist_a_c,
                        travel_costs)[i]) is Some && moved_into_map(
                        node_candidates(key as int, nodes, corners, dist_a_b, dist_a_c, travel_costs)[i]->Some_0,
                        m[key],
                        map_size,
                    )
        }),
    decreases n,
{
    if n > 0 {
        lemma_placed_nodes_are_moved_candidates(order, n - 1, st, nodes, corners, dist_a_b, dist_a_c, travel_costs,
            map_size);
        let prev = place_nodes(order, n - 1, st, nodes, corners, dist_a_b, dist_a_c, travel_costs, map_size);
        let node_n = order[n - 1];
        if node_known(node_n as int) {
            let opts = node_candidates(node_n as int, nodes, corners, dist_a_b, dist_a_c, travel_costs);
            lemma_best_of_moves_each_axis_by_its_size(opts, 4, prev.used, map_size);
            let m = place_nodes(order, n, st, nodes, corners, dist_a_b, dist_a_c, travel_costs, map_size).map;
            assert forall|key: i32| #[trigger] m.dom().contains(key) implies (st.map.dom().contains(key) && m[key]
                == st.map[key]) || exists|i: int|
                0 <= i < 4 && (#[trigger] node_candidates(key as int, nodes, corners, dist_a_b, dist_a_c,
                    travel_costs)[i]) is Some && moved_into_map(
                    node_candidates(key as int, nodes, corners, dist_a_b, dist_a_c, travel_costs)[i]->Some_0,
                    m[key],
                    map_size,
                ) by {
                if best_of(opts, 4, prev.used, map_size) is Some && key == node_n {
                    let w = best_of(opts, 4, prev.used, map_size)->Some_0;
                    let i = choose|i: int| 0 <= i < 4 && (#[trigger] opts[i]) is Some && moved_into_map(
                        opts[i]->Some_0, w, map_size);
                    assert(m[key] == w);
                    assert(node_candidates(key as int, nodes, corners, dist_a_b, dist_a_c, travel_costs)[i] == opts[i]);
                } else {
                    assert(prev.map.dom().contains(key));
                    assert(m[key] == prev.map[key]);
                }
            }
        }
    }
}

/// Every point of the map is one of the three corners or a candidate of its
/// node moved into the map along each axis by that axis's own size.
pub open spec fn points_are_corners_or_moved_candidates(
    m: Map<i32, (int, int)>,
    nodes: (int, int, int),
    corners: ((int, int), (int, int), (int, int)),
    dist_a_b: int,
    dist_a_c: int,
    travel_costs: Seq<[i32; 4]>,
    map_size: (int, int),
) -> bool {
    forall|key: i32|
        #[trigger] m.dom().contains(key) ==> (key == 1 && m[key] == corners.0) || (key == 2 && m[key] == corners.1)
            || (key == 3 && m[key] == corners.2) || exists|i: int|
            0 <= i < 4 && (#[trigger] node_candidates(key as int, nodes, corners, dist_a_b, dist_a_c,
                travel_costs)[i]) is Some && moved_into_map(
                node_candidates(key as int, nodes, corners, dist_a_b, dist_a_c, travel_costs)[i]->Some_0,
                m[key],
                map_size,
            )
}

/// The map of node points (see [`get_node_coords`]) for an order of three
/// or more nodes: node 1 at the corner (0, 0), node 2 on the y axis at its
/// travel time from the first node of the order, node 3 at the first point
/// the first three travel times allow, and every other point one of its
/// node's candidates moved into the map along each axis by that axis's own
/// size (a negative x by the map's width, a negative y by its height).
pub proof fn lemma_node_points_are_moved_candidates(order: Seq<i32>, travel_costs: Seq<[i32; 4]>, map_size: (int, int))
    requires
        order.len() >= 3,
    ensures
        ({
            let a = (0int, 0int);
            let nodes = (order[0] as int, order[1] as int, order[2] as int);
            let dist_a_b = dist(travel_costs, nodes.0, nodes.1);
            let dist_a_c = dist(travel_costs, nodes.0, nodes.2);
            let dist_b_c = dist(travel_costs, nodes.1, nodes.2);
            let b = (0int, dist_a_b);
            let opts = coord_options_spec(a, b, dist_a_b, dist_a_c, dist_b_c);
            let c = if opts.0 is Some { opts.0->Some_0 } else { opts.1->Some_0 };
            points_are_corners_or_moved_candidates(node_coords_spec(order, travel_costs, map_size), nodes, (a, b, c),
                dist_a_b, dist_a_c, travel_costs, map_size)
        }),
{
    let a = (0int, 0int);
    let nodes = (order[0] as int, order[1] as int, order[2] as int);
    let (node_a, node_b, node_c) = nodes;
    let dist_a_b = dist(travel_costs, node_a, node_b);
    let dist_a_c = dist(travel_costs, node_a, node_c);
    let dist_b_c = dist(travel_costs, node_b, node_c);
    let b = (0int, dist_a_b);
    let opts = coord_options_spec(a, b, dist_a_b, dist_a_c, dist_b_c);
    let c = if opts.0 is Some { opts.0->Some_0 } else { opts.1->Some_0 };
    let m0 = map![1i32 => a, 2i32 => b];
    let m = node_coords_spec(order, travel_costs, map_size);
    if !(opts.0 is None && opts.1 is None) {
        let st = CoordState { map: m0.insert(3i32, c), used: seq![a, b, c] };
        lemma_placed_nodes_are_moved_candidates(order, order.len() as int, st, nodes, (a, b, c), dist_a_b, dist_a_c,
            travel_costs, map_size);
        assert(m == place_nodes(order, order.len() as int, st, nodes, (a, b, c), dist_a_b, dist_a_c, travel_costs,
            map_size).map);
        assert forall|key: i32| #[trigger] m.dom().contains(key) && st.map.dom().contains(key) && m[key]
            == st.map[key] implies (key == 1 && m[key] == a) || (key == 2 && m[key] == b) || (key == 3 && m[key]
            == c) by {
            if key != 1 && key != 2 {
                assert(key == 3);
            }
        }
    } else {
        assert(m == m0);
        assert forall|key: i32| #[trigger] m.dom().contains(key) implies (key == 1 && m[key] == a) || (key == 2
            && m[key] == b) by {
            if key != 1 {
                assert(key == 2);
            }
        }
    }
    assert(points_are_corners_or_moved_candidates(m, nodes, (a, b, c), dist_a_b, dist_a_c, travel_costs, map_size));
}

/// Placing node `node_n` raises no panic: the constructions are safe and
/// moving a negative coordinate into the map fits in an `i32`.
pub open spec fn place_safe(
    node_n: int,
    nodes: (int, int, int),
    corners: ((int, int), (int, int), (int, int)),
    dist_a_b: int,
    dist_a_c: int,
    travel_costs: Seq<[i32; 4]>,
    map_size: (int, int),
) -> bool {
    node_known(node_n) ==> {
        let (node_a, node_b, node_c) = nodes;
        let (a, b, c) = corners;
        let dist_a_n = dist(travel_costs, node_a, node_n);
        let dist_b_n = dist(travel_costs, node_b, node_n);
        let dist_c_n = dist(travel_costs, node_c, node_n);
        let opts = node_candidates(node_n, nodes, corners, dist_a_b, dist_a_c, travel_costs);
        &&& coord_options_safe(a, b, dist_a_b, dist_a_n, dist_b_n)
        &&& coord_options_safe(a, c, dist_a_c, dist_a_n, dist_c_n)
        &&& forall|k: int| 0 <= k < 4 ==> (#[trigger] opts[k] matches Some(p) ==> {
            &&& fits(wrap_point(p, map_size).0)
            &&& fits(wrap_point(p, map_size).1)
        })
    }
}

/// The result of placing nodes on a map: node 1 at the origin, node 2 on
/// the vertical axis at its distance, node 3 where the construction puts it,
/// and every node of the order, in turn, at the best of its candidates.
pub open spec fn node_coords_spec(order: Seq<i32>, travel_costs: Seq<[i32; 4]>, map_size: (int, int)) -> Map<i32, (int, int)> {
    let a = (0int, 0int);
    if order.len() <= 1 {
        map![1i32 => a]
    } else if order.len() == 2 {
        map![1i32 => a, 2i32 => (0int, dist(travel_costs, order[0] as int, order[1] as int))]
    } else {
        let (node_a, node_b, node_c) = (order[0] as int, order[1] as int, order[2] as int);
        let dist_a_b = dist(travel_costs, node_a, node_b);
        let dist_a_c = dist(travel_costs, node_a, node_c);
        let dist_b_c = dist(travel_costs, node_b, node_c);
        let b = (0int, dist_a_b);
        let opts = coord_options_spec(a, b, dist_a_b, dist_a_c, dist_b_c);
        let m0 = map![1i32 => a, 2i32 => b];
        if opts.0 is None && opts.1 is None {
            m0
        } else {
            let c = if opts.0 is Some { opts.0->Some_0 } else { opts.1->Some_0 };
            place_nodes(
                order,
                order.len() as int,
                CoordState { map: m0.insert(3i32, c), used: seq![a, b, c] },
                (node_a, node_b, node_c),
                (a, b, c),
                dist_a_b,
                dist_a_c,
                travel_costs,
                map_size,
            ).map
        }
    }
}

/// Placing the nodes raises no panic.
pub open spec fn node_coords_safe(order: Seq<i32>, travel_costs: Seq<[i32; 4]>, map_size: (int, int)) -> bool {
    order.len() >= 2 ==> {
        &&& travel_costs.len() == NNODES * NNODES * table_vehicles(travel_costs)
        &&& table_vehicles(travel_costs) > 0
        &&& node_known(order[0] as int)
        &&& node_known(order[1] as int)
        &&& order.len() >= 3 ==> {
            let a = (0int, 0int);
            let (node_a, node_b, node_c) = (order[0] as int, order[1] as int, order[2] as int);
            let dist_a_b = dist(travel_costs, node_a, node_b);
            let dist_a_c = dist(travel_costs, node_a, node_c);
            let dist_b_c = dist(travel_costs, node_b, node_c);
            let b = (0int, dist_a_b);
            let opts = coord_options_spec(a, b, dist_a_b, dist_a_c, dist_b_c);
            let c = if opts.0 is Some { opts.0->Some_0 } else { opts.1->Some_0 };
            &&& node_known(node_c)
            &&& coord_options_safe(a, b, dist_a_b, dist_a_c, dist_b_c)
            &&& (opts.0 is Some || opts.1 is Some) ==> forall|k: int|
                0 <= k < order.len() ==> place_safe(
                    #[trigger] order[k] as int,
                    (node_a, node_b, node_c),
                    (a, b, c),
                    dist_a_b,
                    dist_a_c,
                    travel_costs,
                    map_size,
                )
        }
    }
}


/// The coordinates a map holds, as pairs.
pub open spec fn map_pts(m: Map<i32, [i32; 2]>) -> Map<i32, (int, int)> {
    m.map_values(|c: [i32; 2]| pt(c))
}

/// The points a list holds, as pairs.
pub open spec fn seq_pts(s: Seq<[i32; 2]>) -> Seq<(int, int)> {
    s.map_values(|c: [i32; 2]| pt(c))
}

/// The point is in the list.
fn contains_point(used: &Vec<[i32; 2]>, p: [i32; 2]) -> (r: bool)
    ensures
        r == seq_pts(used@).contains(pt(p)),
{
    let mut i: usize = 0;
    while i < used.len()
        invariant
            i <= used@.len(),
            forall|j: int| 0 <= j < i ==> #[trigger] pt(used@[j]) != pt(p),
        decreases used@.len() - i,
    {
        if used[i][0] == p[0] && used[i][1] == p[1] {
            proof {
                assert(seq_pts(used@)[i as int] == pt(p));
            }
            return true;
        }
        i = i + 1;
    }
    proof {
        if seq_pts(used@).contains(pt(p)) {
            let j = choose|j: int| 0 <= j < seq_pts(used@).len() && seq_pts(used@)[j] == pt(p);
            assert(pt(used@[j]) == pt(p));
        }
    }
    false
}

/// Travel time between two nodes of the table for the first vehicle.
fn node_distance(x: i32, y: i32, travel_costs: &[[i32; 4]]) -> (r: i32)
    requires
        travel_costs@.len() == NNODES * NNODES * table_vehicles(travel_costs@),
        table_vehicles(travel_costs@) > 0,
        node_known(x as int),
        node_known(y as int),
    ensures
        r == dist(travel_costs@, x as int, y as int),
{
    proof {
        lemma_known_nodes_readable(travel_costs@, table_vehicles(travel_costs@), 0, x as int, y as int);
    }
    a_to_b_time(0, x, y, travel_costs)
}

/// The node number is one the travel table covers.
fn is_known_node(x: i32) -> (r: bool)
    ensures
        r == node_known(x as int),
{
    x >= 1 && x as usize <= NNODES
}


/// The best of the candidates, moved into the map (see [`best_of`]).
fn best_candidate(coord_options: &[Option<[i32; 2]>; 4], used_coords: &Vec<[i32; 2]>, map_size: &[i32; 2]) -> (r:
    Option<[i32; 2]>)
    requires
        forall|k: int| 0 <= k < 4 ==> (#[trigger] coord_options[k] matches Some(p) ==> {
            &&& fits(wrap_point(pt(p), pt(*map_size)).0)
            &&& fits(wrap_point(pt(p), pt(*map_size)).1)
        }),
    ensures
        opt_pt(r) == best_of(
            seq![opt_pt(coord_options[0]), opt_pt(coord_options[1]), opt_pt(coord_options[2]), opt_pt(coord_options[3])],
            4,
            seq_pts(used_coords@),
            pt(*map_size),
        ),
{
    let ghost opts = seq![opt_pt(coord_options[0]), opt_pt(coord_options[1]), opt_pt(coord_options[2]),
        opt_pt(coord_options[3])];
    let mut best_choice: Option<[i32; 2]> = None;
    let mut k: usize = 0;
    while k < 4
        invariant
            k <= 4,
            opts == seq![opt_pt(coord_options[0]), opt_pt(coord_options[1]), opt_pt(coord_options[2]),
                opt_pt(coord_options[3])],
            forall|j: int| 0 <= j < 4 ==> (#[trigger] coord_options[j] matches Some(p) ==> {
                &&& fits(wrap_point(pt(p), pt(*map_size)).0)
                &&& fits(wrap_point(pt(p), pt(*map_size)).1)
            }),
            opt_pt(best_choice) == best_of(opts, k as int, seq_pts(used_coords@), pt(*map_size)),
        decreases 4 - k,
    {
        assert(opts[k as int] == opt_pt(coord_options[k as int]));
        match coord_options[k] {
            None => {},
            Some(c) => {
                let mut coord = c;
                if coord[0] < 0 {
                    coord[0] = coord[0] + map_size[0];
                }
                if coord[1] < 0 {
                    coord[1] = coord[1] + map_size[1];
                }
                let replace = match best_choice {
                    None => true,
                    Some(b) => contains_point(used_coords, b) && !contains_point(used_coords, coord),
                };
                if replace {
                    best_choice = Some(coord);
                }
            },
        }
        k = k + 1;
    }
    best_choice
}


/// Places the nodes of `node_order` on a map from their travel times: node 1
/// at the origin, node 2 straight up at its distance from the first node of
/// the order, node 3 where the triangle construction puts the third node,
/// then every node of the order, in turn, at the best of the points the
/// constructions from those corners give, a negative coordinate being moved
/// into the map by adding the map's size. Nodes the travel table does not
/// cover are skipped.
pub fn get_node_coords(node_order: &Vec<i32>, travel_costs: &[[i32; 4]], map_size: &[i32; 2]) -> (r: HashMap<
    i32,
    [i32; 2],
>)
    requires
        node_coords_safe(node_order@, travel_costs@, pt(*map_size)),
    ensures
        map_pts(r@) == node_coords_spec(node_order@, travel_costs@, pt(*map_size)),
{
    broadcast use vstd::std_specs::hash::group_hash_axioms;
    let ghost order = node_order@;
    let ghost tc = travel_costs@;
    let ghost msize = pt(*map_size);
    let mut node_coords: HashMap<i32, [i32; 2]> = HashMap::new();
    let coord_a: [i32; 2] = [0, 0];
    node_coords.insert(1, coord_a);
    if node_order.len() <= 1 {
        node_coords.insert(1, coord_a);
        proof {
            assert(map_pts(node_coords@) =~= node_coords_spec(order, tc, msize));
        }
        return node_coords;
    }
    if node_order.len() == 2 {
        let node_a = node_order[0];
        let node_b = node_order[1];
        let dist_a_b = node_distance(node_a, node_b, travel_costs);
        node_coords.insert(1, coord_a);
        node_coords.insert(2, [0, dist_a_b]);
        proof {
            assert(map_pts(node_coords@) =~= node_coords_spec(order, tc, msize));
        }
        return node_coords;
    }
    let node_a = node_order[0];
    let node_b = node_order[1];
    let node_c = node_order[2];
    let dist_a_b = node_distance(node_a, node_b, travel_costs);
    let dist_a_c = node_distance(node_a, node_c, travel_costs);
    let dist_b_c = node_distance(node_b, node_c, travel_costs);
    let coord_b: [i32; 2] = [0, dist_a_b];
    node_coords.insert(2, coord_b);
    let coord_abc_options = coord_options_from_two_points(coord_a, coord_b, dist_a_b, dist_a_c, dist_b_c);
    let coord_c = match coord_abc_options[0] {
        Some(c) => c,
        None => match coord_abc_options[1] {
            Some(d) => d,
            None => {
                proof {
                    assert(map_pts(node_coords@) =~= node_coords_spec(order, tc, msize));
                }
                return node_coords;
            },
        },
    };
    node_coords.insert(3, coord_c);
    let mut used_coords: Vec<[i32; 2]> = Vec::new();
    used_coords.push(coord_a);
    used_coords.push(coord_b);
    used_coords.push(coord_c);
    let ghost nodes = (node_a as int, node_b as int, node_c as int);
    let ghost corners = (pt(coord_a), pt(coord_b), pt(coord_c));
    let ghost st0 = CoordState {
        map: map![1i32 => pt(coord_a), 2i32 => pt(coord_b)].insert(3i32, pt(coord_c)),
        used: seq![pt(coord_a), pt(coord_b), pt(coord_c)],
    };
    proof {
        assert(map_pts(node_coords@) =~= st0.map);
        assert(seq_pts(used_coords@) =~= st0.used);
    }
    let mut idx: usize = 0;
    while idx < node_order.len()
        invariant
            order == node_order@,
            tc == travel_costs@,
            msize == pt(*map_size),
            order.len() >= 3,
            node_coords_safe(order, tc, msize),
            nodes == (node_a as int, node_b as int, node_c as int),
            nodes == (order[0] as int, order[1] as int, order[2] as int),
            corners == (pt(coord_a), pt(coord_b), pt(coord_c)),
            coord_a == [0i32, 0i32],
            pt(coord_b) == (0int, dist(tc, node_a as int, node_b as int)),
            dist_a_b == dist(tc, node_a as int, node_b as int),
            dist_a_c == dist(tc, node_a as int, node_c as int),
            ({
                let opts = coord_options_spec(pt(coord_a), pt(coord_b), dist_a_b as int, dist_a_c as int,
                    dist(tc, node_b as int, node_c as int));
                &&& (opts.0 is Some || opts.1 is Some)
                &&& pt(coord_c) == if opts.0 is Some { opts.0->Some_0 } else { opts.1->Some_0 }
            }),
            idx <= order.len(),
            ({
                let st = place_nodes(order, idx as int, st0, nodes, corners, dist_a_b as int, dist_a_c as int, tc,
                    msize);
                &&& map_pts(node_coords@) == st.map
                &&& seq_pts(used_coords@) == st.used
            }),
        decreases order.len() - idx,
    {
        let node_n = node_order[idx];
        let ghost st = place_nodes(order, idx as int, st0, nodes, corners, dist_a_b as int, dist_a_c as int, tc, msize);
        proof {
            assert(place_safe(order[idx as int] as int, nodes, corners, dist_a_b as int, dist_a_c as int, tc, msize));
        }
        if is_known_node(node_n) {
            let dist_a_n = node_distance(node_a, node_n, travel_costs);
            let dist_b_n = node_distance(node_b, node_n, travel_costs);
            let dist_c_n = node_distance(node_c, node_n, travel_costs);
            let coord_abn_options = coord_options_from_two_points(coord_a, coord_b, dist_a_b, dist_a_n, dist_b_n);
            let coord_acn_options = coord_options_from_two_points(coord_a, coord_c, dist_a_c, dist_a_n, dist_c_n);
            let coord_options = [coord_abn_options[0], coord_abn_options[1], coord_acn_options[0], coord_acn_options[1]];
            proof {
                let opts = node_candidates(node_n as int, nodes, corners, dist_a_b as int, dist_a_c as int, tc);
                assert(opts =~= seq![opt_pt(coord_options[0]), opt_pt(coord_options[1]), opt_pt(coord_options[2]),
                    opt_pt(coord_options[3])]);
                assert forall|k: int| 0 <= k < 4 implies (#[trigger] coord_options[k] matches Some(p) ==> {
                    &&& fits(wrap_point(pt(p), msize).0)
                    &&& fits(wrap_point(pt(p), msize).1)
                }) by {
                    assert(opts[k] == opt_pt(coord_options[k]));
                }
            }
            let best_choice = best_candidate(&coord_options, &used_coords, map_size);
            match best_choice {
                Some(v) => {
                    used_coords.push(v);
                    node_coords.insert(node_n, v);
                    proof {
                        let st2 = place_nodes(order, idx as int + 1, st0, nodes, corners, dist_a_b as int,
                            dist_a_c as int, tc, msize);
                        assert(map_pts(node_coords@) =~= st2.map);
                        assert(seq_pts(used_coords@) =~= st2.used);
                    }
                },
                None => {},
            }
        }
        idx = idx + 1;
    }
    proof {
        assert(map_pts(node_coords@) =~= node_coords_spec(order, tc, msize));
    }
    node_coords
}


/// The visit orders one after the other.
pub open spec fn flat_nodes(orders: Seq<Seq<i32>>) -> Seq<i32>
    decreases orders.len(),
{
    if orders.len() == 0 {
        Seq::empty()
    } else {
        flat_nodes(orders.drop_last()) + orders.last()
    }
}

/// The visit orders of the vehicles one after the other.
pub fn flatten_node_orders(orders: &Vec<Vec<i32>>) -> (r: Vec<i32>)
    ensures
        r@ == flat_nodes(orders@.map_values(|o: Vec<i32>| o@)),
{
    let ghost all = orders@.map_values(|o: Vec<i32>| o@);
    let mut flat: Vec<i32> = Vec::new();
    let mut i: usize = 0;
    while i < orders.len()
        invariant
            i <= orders@.len(),
            all == orders@.map_values(|o: Vec<i32>| o@),
            flat@ == flat_nodes(all.take(i as int)),
        decreases orders@.len() - i,
    {
        let mut j: usize = 0;
        while j < orders[i].len()
            invariant
                i < orders@.len(),
                j <= orders@[i as int]@.len(),
                all == orders@.map_values(|o: Vec<i32>| o@),
                flat@ == flat_nodes(all.take(i as int)) + orders@[i as int]@.take(j as int),
            decreases orders@[i as int]@.len() - j,
        {
            flat.push(orders[i][j]);
            proof {
                assert(orders@[i as int]@.take(j + 1) =~= orders@[i as int]@.take(j as int).push(orders@[i as int]@[j as int]));
            }
            j = j + 1;
        }
        proof {
            assert(all.take(i + 1).drop_last() =~= all.take(i as int));
            assert(orders@[i as int]@.take(j as int) =~= all[i as int]);
        }
        i = i + 1;
    }
    proof {
        assert(all.take(orders@.len() as int) =~= all);
    }
    flat
}

/// The nodes `1..=k` that the list does not hold, in order.
pub open spec fn unvisited(nodes: Seq<i32>, k: int) -> Seq<i32>
    decreases k,
{
    if k <= 0 {
        Seq::empty()
    } else if nodes.contains(k as i32) {
        unvisited(nodes, k - 1)
    } else {
        unvisited(nodes, k - 1).push(k as i32)
    }
}

/// The node is in the list.
fn contains_node(nodes: &Vec<i32>, x: i32) -> (r: bool)
    ensures
        r == nodes@.contains(x),
{
    let mut i: usize = 0;
    while i < nodes.len()
        invariant
            i <= nodes@.len(),
            forall|j: int| 0 <= j < i ==> nodes@[j] != x,
        decreases nodes@.len() - i,
    {
        if nodes[i] == x {
            proof {
                assert(nodes@[i as int] == x);
            }
            return true;
        }
        i = i + 1;
    }
    false
}

/// Every node of the map in drawing order: the visited nodes first, as they
/// were visited, then the others in increasing order.
pub fn all_nodes_order(flat_nodes: &Vec<i32>) -> (r: Vec<i32>)
    ensures
        r@ == flat_nodes@ + unvisited(flat_nodes@, NNODES as int),
{
    let mut others: Vec<i32> = Vec::new();
    let mut k: usize = 1;
    while k <= NNODES
        invariant
            1 <= k <= NNODES + 1,
            others@ == unvisited(flat_nodes@, k - 1),
        decreases NNODES + 1 - k,
    {
        if !contains_node(flat_nodes, k as i32) {
            others.push(k as i32);
        }
        k = k + 1;
    }
    let mut all = vstd::slice::slice_to_vec(flat_nodes.as_slice());
    let mut i: usize = 0;
    while i < others.len()
        invariant
            i <= others@.len(),
            all@ == flat_nodes@ + others@.take(i as int),
        decreases others@.len() - i,
    {
        all.push(others[i]);
        proof {
            assert(others@.take(i + 1) =~= others@.take(i as int).push(others@[i as int]));
        }
        i = i + 1;
    }
    proof {
        assert(others@.take(others@.len() as int) =~= others@);
    }
    all
}

} // verus!
