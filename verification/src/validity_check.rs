use vstd::prelude::*;
use crate::constants::NNODES;

verus! {

/// Number of vehicles that a travel table covers: it holds one row for each
/// vehicle and each pair of nodes.
pub open spec fn table_vehicles(travel_costs: Seq<[i32; 4]>) -> int {
    travel_costs.len() as int / (NNODES * NNODES) as int
}

/// Position in the travel table of the move between nodes `a` and `b`
/// (numbered from 1) for a vehicle; the table is symmetric, so it is read
/// with the smaller node first.
pub open spec fn travel_index(nvehicles: int, vehicle_idx: int, a: int, b: int) -> int {
    let lo = if a <= b { a - 1 } else { b - 1 };
    let hi = if a <= b { b - 1 } else { a - 1 };
    vehicle_idx % nvehicles + (hi + lo * NNODES) * nvehicles
}

/// The travel table can be read for this move: both nodes are at least 1
/// and the position lies inside the table.
pub open spec fn travel_readable(travel_costs: Seq<[i32; 4]>, vehicle_idx: int, a: int, b: int) -> bool {
    &&& table_vehicles(travel_costs) > 0
    &&& a >= 1
    &&& b >= 1
    &&& travel_index(table_vehicles(travel_costs), vehicle_idx, a, b) < travel_costs.len()
}

/// The row of the travel table for a move.
pub open spec fn travel_row(travel_costs: Seq<[i32; 4]>, vehicle_idx: int, a: int, b: int) -> [i32; 4] {
    travel_costs[travel_index(table_vehicles(travel_costs), vehicle_idx, a, b)]
}

proof fn lemma_index_fits(lo: int, hi: int, nv: int, v: int, len: int)
    requires
        lo >= 0,
        hi >= 0,
        nv > 0,
        0 <= v < nv,
        v + (hi + lo * NNODES) * nv < len,
    ensures
        lo * NNODES <= hi + lo * NNODES <= (hi + lo * NNODES) * nv,
        v + (hi + lo * NNODES) * nv < len,
{
    assert((hi + lo * NNODES) <= (hi + lo * NNODES) * nv) by (nonlinear_arith)
        requires hi + lo * NNODES >= 0, nv >= 1;
    assert(lo * NNODES >= 0) by (nonlinear_arith) requires lo >= 0;
}

pub(crate) fn travel_position(vehicle_idx: usize, a: i32, b: i32, travel_costs: &[[i32; 4]]) -> (index: usize)
    requires
        travel_readable(travel_costs@, vehicle_idx as int, a as int, b as int),
    ensures
        index == travel_index(table_vehicles(travel_costs@), vehicle_idx as int, a as int, b as int),
        index < travel_costs@.len(),
{
    let nvehicles = travel_costs.len() / (NNODES * NNODES);
    let a_prime: usize = if a - 1 <= b - 1 { (a - 1) as usize } else { (b - 1) as usize };
    let b_prime: usize = if a - 1 <= b - 1 { (b - 1) as usize } else { (a - 1) as usize };
    let v = vehicle_idx % nvehicles;
    proof {
        lemma_index_fits(a_prime as int, b_prime as int, nvehicles as int, v as int, travel_costs@.len() as int);
    }
    v + (b_prime + a_prime * NNODES) * nvehicles
}

/// Travel time between nodes `a` and `b` for the given vehicle.
pub fn a_to_b_time(vehicle_idx: usize, a: i32, b: i32, travel_costs: &[[i32; 4]]) -> (r: i32)
    requires
        travel_readable(travel_costs@, vehicle_idx as int, a as int, b as int),
    ensures
        r == travel_row(travel_costs@, vehicle_idx as int, a as int, b as int)[2],
{
    let index = travel_position(vehicle_idx, a, b, travel_costs);
    travel_costs[index][2]
}

/// Travel cost between nodes `a` and `b` for the given vehicle.
fn a_to_b_cost(vehicle_idx: usize, a: i32, b: i32, travel_costs: &[[i32; 4]]) -> (r: i32)
    requires
        travel_readable(travel_costs@, vehicle_idx as int, a as int, b as int),
    ensures
        r == travel_row(travel_costs@, vehicle_idx as int, a as int, b as int)[3],
{
    let index = travel_position(vehicle_idx, a, b, travel_costs);
    travel_costs[index][3]
}


/// The travel table is read alike in both directions: the move from `a` to
/// `b` and the move from `b` to `a` share one row, so they take the same time
/// and cost the same.
pub proof fn lemma_travel_symmetric(travel_costs: Seq<[i32; 4]>, vehicle_idx: int, a: int, b: int)
    ensures
        travel_readable(travel_costs, vehicle_idx, a, b) == travel_readable(travel_costs, vehicle_idx, b, a),
        travel_row(travel_costs, vehicle_idx, a, b) == travel_row(travel_costs, vehicle_idx, b, a),
{
}

/// A vehicle index past the vehicles the table covers wraps around: index
/// `vehicle_idx + nvehicles` reads the rows of `vehicle_idx`.
pub proof fn lemma_travel_vehicle_wraps(travel_costs: Seq<[i32; 4]>, vehicle_idx: int, a: int, b: int)
    requires
        table_vehicles(travel_costs) > 0,
    ensures
        travel_readable(travel_costs, vehicle_idx + table_vehicles(travel_costs), a, b) == travel_readable(
            travel_costs,
            vehicle_idx,
            a,
            b,
        ),
        travel_row(travel_costs, vehicle_idx + table_vehicles(travel_costs), a, b) == travel_row(
            travel_costs,
            vehicle_idx,
            a,
            b,
        ),
{
    vstd::arithmetic::div_mod::lemma_mod_add_multiples_vanish(vehicle_idx, table_vehicles(travel_costs));
}

/// Why a solution is not a feasible plan.
#[derive(Debug, Clone, Copy, PartialEq, Eq, Structural)]
pub enum CorrectnessError {
    CallNumberTooLow { call_number: i32 },
    CallNumberTooHigh { call_number: i32 },
    VehicleNumberTooLow { vehicle_number: i32 },
    VehicleNumberTooHigh { vehicle_number: i32 },
    NegativeLoad { call: i32, unloaded_weight: i32 },
    Overloaded { call: i32, car_weight: i32, loaded_weight: i32, car_capacity: i32 },
    PickupNotDelivered { idx: usize },
    CallTooManyTimes { call: i32 },
    PickUpTooLate { vehicle_idx: usize, call: i32, car_time: i32, arrival_time: i32, start_upper: i32 },
    DeliverTooLate { vehicle_idx: usize, call: i32, car_time: i32, arrival_time: i32, end_upper: i32 },
}

/// The value fits in an `i32`.
pub open spec fn fits(x: int) -> bool {
    i32::MIN <= x <= i32::MAX
}

/// Home node, start time and capacity of a vehicle.
pub(crate) fn deconstruct_vehicle(vehicle_idx: usize, vehicle_details: &[[i32; 3]]) -> (r: (i32, i32, i32))
    requires
        vehicle_idx < vehicle_details@.len(),
    ensures
        r == (vehicle_details@[vehicle_idx as int][0], vehicle_details@[vehicle_idx as int][1],
            vehicle_details@[vehicle_idx as int][2]),
{
    (vehicle_details[vehicle_idx][0], vehicle_details[vehicle_idx][1], vehicle_details[vehicle_idx][2])
}

/// The fields of a call, numbered from 1: origin, destination, size, cost of
/// not transporting it, and the lower and upper bounds of its pickup and of
/// its delivery window. The size is read as 0: every call weighs nothing.
pub open spec fn call_fields(call_details: Seq<[i32; 8]>, call: int) -> (i32, i32, i32, i32, i32, i32, i32, i32) {
    let row = call_details[call - 1];
    (row[0], row[1], 0, row[3], row[4], row[5], row[6], row[7])
}

/// The fields of call `call` (numbered from 1), with its size read as 0.
pub fn deconstruct_call(call: i32, call_details: &[[i32; 8]]) -> (r: (i32, i32, i32, i32, i32, i32, i32, i32))
    requires
        1 <= call <= call_details@.len(),
    ensures
        r == call_fields(call_details@, call as int),
{
    let i = (call - 1) as usize;
    (call_details[i][0], call_details[i][1], 0, call_details[i][3], call_details[i][4],
        call_details[i][5], call_details[i][6], call_details[i][7])
}

/// Row of the node table for a vehicle and a call (numbered from 1).
pub open spec fn node_row(node_costs: Seq<[i32; 5]>, ncalls: int, vehicle_idx: int, call: int) -> [i32; 5] {
    node_costs[(call - 1) + vehicle_idx * ncalls]
}

/// Time and cost at the origin, and time and cost at the destination, of a
/// call for a vehicle.
pub(crate) fn deconstruct_node(vehicle_idx: usize, call: i32, ncalls: usize, node_costs: &[[i32; 5]]) -> (r: (i32, i32, i32, i32))
    requires
        1 <= call <= ncalls,
        (call - 1) + vehicle_idx * ncalls < node_costs@.len(),
    ensures
        ({
            let row = node_row(node_costs@, ncalls as int, vehicle_idx as int, call as int);
            r == (row[1], row[2], row[3], row[4])
        }),
{
    let len = node_costs.len();
    proof {
        assert(vehicle_idx * ncalls >= 0) by (nonlinear_arith) requires vehicle_idx >= 0, ncalls >= 0;
    }
    let index = (call - 1) as usize + vehicle_idx * ncalls;
    (node_costs[index][1], node_costs[index][2], node_costs[index][3], node_costs[index][4])
}

/// Position of the last smallest value of a non-empty sequence.
pub open spec fn last_min_index(s: Seq<i32>) -> int
    decreases s.len(),
{
    if s.len() <= 1 {
        0
    } else {
        let k = last_min_index(s.drop_last());
        if s.last() <= s[k] { s.len() - 1 } else { k }
    }
}

proof fn lemma_last_min_index(s: Seq<i32>)
    requires
        s.len() > 0,
    ensures
        0 <= last_min_index(s) < s.len(),
        forall|j: int| 0 <= j < s.len() ==> s[last_min_index(s)] <= #[trigger] s[j],
        forall|j: int| last_min_index(s) < j < s.len() ==> s[last_min_index(s)] < #[trigger] s[j],
    decreases s.len(),
{
    if s.len() > 1 {
        let t = s.drop_last();
        lemma_last_min_index(t);
        assert forall|j: int| 0 <= j < s.len() - 1 implies #[trigger] s[j] == t[j] by {}
    }
}

/// Index of the last smallest value; `None` for an empty input.
pub(crate) fn get_idx_of_min(arr_in: &[i32]) -> (r: Option<usize>)
    ensures
        arr_in@.len() == 0 ==> r is None,
        arr_in@.len() > 0 ==> r == Some(last_min_index(arr_in@) as usize),
        r matches Some(i) ==> {
            &&& i < arr_in@.len()
            &&& forall|j: int| 0 <= j < arr_in@.len() ==> arr_in@[i as int] <= #[trigger] arr_in@[j]
            &&& forall|j: int| i < j < arr_in@.len() ==> arr_in@[i as int] < #[trigger] arr_in@[j]
        },
{
    if arr_in.len() == 0 {
        return None;
    }
    let mut min = arr_in[0];
    let mut index: usize = 0;
    let mut idx: usize = 1;
    while idx < arr_in.len()
        invariant
            1 <= idx <= arr_in@.len(),
            index == last_min_index(arr_in@.take(idx as int)),
            min == arr_in@[index as int],
        decreases arr_in@.len() - idx,
    {
        proof {
            assert(arr_in@.take(idx as int + 1).drop_last() =~= arr_in@.take(idx as int));
            lemma_last_min_index(arr_in@.take(idx as int));
        }
        if arr_in[idx] <= min {
            min = arr_in[idx];
            index = idx;
        }
        idx = idx + 1;
    }
    proof {
        assert(arr_in@.take(arr_in@.len() as int) =~= arr_in@);
        lemma_last_min_index(arr_in@);
    }
    Some(index)
}


/// What a check of a solution tracks for each vehicle (load, accumulated
/// cost, the time it is free again, where it stands) and, for each call, how
/// often it has been met so far.
pub struct Fleet {
    pub weights: Seq<i32>,
    pub costs: Seq<i32>,
    pub times: Seq<i32>,
    pub positions: Seq<i32>,
    pub counter: Seq<i32>,
}

/// Every vehicle starts empty, at no cost, at its home node and start time;
/// no call has been met.
pub open spec fn initial_fleet(vehicle_details: Seq<[i32; 3]>, ncalls: int) -> Fleet {
    Fleet {
        weights: Seq::new(vehicle_details.len(), |i: int| 0i32),
        costs: Seq::new(vehicle_details.len(), |i: int| 0i32),
        times: Seq::new(vehicle_details.len(), |i: int| vehicle_details[i][1]),
        positions: Seq::new(vehicle_details.len(), |i: int| vehicle_details[i][0]),
        counter: Seq::new(ncalls as nat, |i: int| 0i32),
    }
}

/// The vehicle that serves the next call: the last one of those that are
/// free the earliest.
pub open spec fn serving_vehicle(f: Fleet) -> int {
    last_min_index(f.times)
}

/// The outcome of serving call `call` next: the vehicle that is free the
/// earliest drives from where it stands to the call's origin; the first time
/// a call is met it is picked up, the second time delivered, a third time is
/// an error.
pub open spec fn check_step(
    f: Fleet,
    call: i32,
    vehicle_details: Seq<[i32; 3]>,
    call_details: Seq<[i32; 8]>,
    travel_costs: Seq<[i32; 4]>,
) -> Result<Fleet, CorrectnessError> {
    if call <= 0 {
        Err(CorrectnessError::CallNumberTooLow { call_number: call })
    } else if call > call_details.len() {
        Err(CorrectnessError::CallNumberTooHigh { call_number: call })
    } else {
        let c = serving_vehicle(f);
        let count = f.counter[call - 1] + 1;
        let counter = f.counter.update(call - 1, count as i32);
        let car_time = f.times[c];
        let car_pos = f.positions[c];
        let car_weight = f.weights[c];
        let car_capacity = vehicle_details[c][2];
        let (origin, destination, call_size, _, start_lower, start_upper, end_lower, end_upper) =
            call_fields(call_details, call as int);
        let row = travel_row(travel_costs, c, car_pos as int, origin as int);
        let moving_time = row[2];
        let moving_cost = row[3];
        if count == 1 {
            let arrival_time = car_time + moving_time;
            let loaded_weight = car_weight + call_size;
            if arrival_time > start_upper {
                Err(CorrectnessError::PickUpTooLate {
                    vehicle_idx: c as usize,
                    call,
                    car_time,
                    arrival_time: arrival_time as i32,
                    start_upper,
                })
            } else if loaded_weight > car_capacity {
                Err(CorrectnessError::Overloaded {
                    call,
                    car_weight,
                    loaded_weight: loaded_weight as i32,
                    car_capacity,
                })
            } else {
                Ok(Fleet {
                    weights: f.weights.update(c, loaded_weight as i32),
                    costs: f.costs.update(c, (f.costs[c] + moving_cost) as i32),
                    times: f.times.update(c, if arrival_time >= start_lower { arrival_time as i32 } else { start_lower }),
                    positions: f.positions.update(c, origin),
                    counter,
                })
            }
        } else if count == 2 {
            let arrival_time = car_time + moving_time;
            let unloaded_weight = car_weight - call_size;
            if arrival_time > end_upper {
                Err(CorrectnessError::DeliverTooLate {
                    vehicle_idx: c as usize,
                    call,
                    car_time,
                    arrival_time: arrival_time as i32,
                    end_upper,
                })
            } else if unloaded_weight < 0 {
                Err(CorrectnessError::NegativeLoad { call, unloaded_weight: unloaded_weight as i32 })
            } else {
                Ok(Fleet {
                    weights: f.weights.update(c, unloaded_weight as i32),
                    costs: f.costs.update(c, (f.costs[c] + moving_cost) as i32),
                    times: f.times.update(c, if arrival_time >= end_lower { arrival_time as i32 } else { end_lower }),
                    positions: f.positions.update(c, destination),
                    counter,
                })
            }
        } else {
            Err(CorrectnessError::CallTooManyTimes { call })
        }
    }
}

/// Serving this call from this state raises no panic: the call is out of
/// range (an error is returned first), or there is a vehicle, the nodes read
/// are real nodes of the travel table, and every sum fits in an `i32`.
pub open spec fn step_safe(
    f: Fleet,
    call: i32,
    vehicle_details: Seq<[i32; 3]>,
    call_details: Seq<[i32; 8]>,
    travel_costs: Seq<[i32; 4]>,
) -> bool {
    1 <= call <= call_details.len() ==> {
        let c = serving_vehicle(f);
        let count = f.counter[call - 1] + 1;
        let car_time = f.times[c];
        let car_pos = f.positions[c];
        let car_weight = f.weights[c];
        let car_capacity = vehicle_details[c][2];
        let (origin, destination, call_size, _, start_lower, start_upper, end_lower, end_upper) =
            call_fields(call_details, call as int);
        let row = travel_row(travel_costs, c, car_pos as int, origin as int);
        &&& vehicle_details.len() > 0
        &&& car_pos != 0
        &&& origin != 0
        &&& travel_readable(travel_costs, c, car_pos as int, origin as int)
        &&& count == 1 ==> {
            &&& fits(car_time + row[2])
            &&& fits(car_weight + call_size)
            &&& (car_time + row[2] <= start_upper && car_weight + call_size <= car_capacity)
                ==> fits(f.costs[c] + row[3])
        }
        &&& count == 2 ==> {
            &&& fits(car_time + row[2])
            &&& car_time + row[2] <= end_upper ==> {
                &&& fits(car_weight - call_size)
                &&& car_weight - call_size >= 0 ==> fits(f.costs[c] + row[3])
            }
        }
    }
}

/// The state after the first `n` calls of the solution, or the first error.
pub open spec fn check_run(
    solution: Seq<i32>,
    n: int,
    vehicle_details: Seq<[i32; 3]>,
    call_details: Seq<[i32; 8]>,
    travel_costs: Seq<[i32; 4]>,
) -> Result<Fleet, CorrectnessError>
    decreases n,
{
    if n <= 0 {
        Ok(initial_fleet(vehicle_details, call_details.len() as int))
    } else {
        match check_run(solution, n - 1, vehicle_details, call_details, travel_costs) {
            Ok(f) => check_step(f, solution[n - 1], vehicle_details, call_details, travel_costs),
            Err(e) => Err(e),
        }
    }
}

/// Serving a call moves the vehicle that is free the earliest from where it
/// stands to the call's origin (call field 0). For a pickup (the call not
/// met before) it must arrive by the pickup's upper bound (field 5), and it
/// is free again at its arrival or, if later, when the pickup window opens
/// (field 4), standing at the origin. For a delivery (the call met once) it
/// must arrive by the delivery's upper bound (field 7), and it is free again
/// at its arrival or, if later, when the delivery window opens (field 6),
/// standing at the destination (field 1). The call now counts as met once
/// more, and the other vehicles keep their times and places.
pub proof fn lemma_check_step_keeps_the_windows(
    f: Fleet,
    call: i32,
    vehicle_details: Seq<[i32; 3]>,
    call_details: Seq<[i32; 8]>,
    travel_costs: Seq<[i32; 4]>,
)
    requires
        1 <= call <= call_details.len(),
        fleet_shape(f, vehicle_details.len() as int, call_details.len() as int),
        step_safe(f, call, vehicle_details, call_details, travel_costs),
        check_step(f, call, vehicle_details, call_details, travel_costs) is Ok,
    ensures
        ({
            let c = serving_vehicle(f);
            let g = check_step(f, call, vehicle_details, call_details, travel_costs)->Ok_0;
            let row = call_details[call - 1];
            let arrival = f.times[c] + travel_row(travel_costs, c, f.positions[c] as int, row[0] as int)[2];
            &&& f.counter[call - 1] == 0 || f.counter[call - 1] == 1
            &&& g.counter == f.counter.update(call - 1, (f.counter[call - 1] + 1) as i32)
            &&& f.counter[call - 1] == 0 ==> {
                &&& arrival <= row[5]
                &&& g.times[c] == if arrival >= row[4] { arrival } else { row[4] as int }
                &&& g.times[c] >= row[4]
                &&& g.positions[c] == row[0]
            }
            &&& f.counter[call - 1] == 1 ==> {
                &&& arrival <= row[7]
                &&& g.times[c] == if arrival >= row[6] { arrival } else { row[6] as int }
                &&& g.times[c] >= row[6]
                &&& g.positions[c] == row[1]
            }
            &&& forall|w: int| 0 <= w < f.times.len() && w != c ==> #[trigger] g.times[w] == f.times[w]
            &&& forall|w: int| 0 <= w < f.positions.len() && w != c ==> #[trigger] g.positions[w] == f.positions[w]
        }),
{
    lemma_last_min_index(f.times);
}

/// In a plan that passes the check, every entry is served as
/// [`lemma_check_step_keeps_the_windows`] says: after the first `k`
/// entries, serving entry `k` keeps the windows of its call.
pub proof fn lemma_accepted_plan_keeps_the_windows(
    solution: Seq<i32>,
    k: int,
    vehicle_details: Seq<[i32; 3]>,
    call_details: Seq<[i32; 8]>,
    travel_costs: Seq<[i32; 4]>,
)
    requires
        0 <= k < solution.len(),
        check_safe(solution, vehicle_details, call_details, travel_costs),
        check_run(solution, k + 1, vehicle_details, call_details, travel_costs) is Ok,
    ensures
        ({
            let f = check_run(solution, k, vehicle_details, call_details, travel_costs)->Ok_0;
            let c = serving_vehicle(f);
            let g = check_run(solution, k + 1, vehicle_details, call_details, travel_costs)->Ok_0;
            let row = call_details[solution[k] - 1];
            &&& 1 <= solution[k] <= call_details.len()
            &&& f.counter[solution[k] - 1] == 0 ==> g.times[c] >= row[4] && g.positions[c] == row[0]
            &&& f.counter[solution[k] - 1] == 1 ==> g.times[c] >= row[6] && g.positions[c] == row[1]
        }),
{
    let f = check_run(solution, k, vehicle_details, call_details, travel_costs)->Ok_0;
    assert(check_run(solution, k, vehicle_details, call_details, travel_costs) is Ok);
    lemma_run_shape(solution, k, vehicle_details, call_details, travel_costs);
    lemma_check_step_keeps_the_windows(f, solution[k], vehicle_details, call_details, travel_costs);
}

/// Position of the first call met exactly once, if any.
pub open spec fn first_single(counter: Seq<i32>) -> Option<int>
    decreases counter.len(),
{
    if counter.len() == 0 {
        None
    } else if counter[0] == 1 {
        Some(0)
    } else {
        match first_single(counter.drop_first()) {
            Some(i) => Some(i + 1),
            None => None,
        }
    }
}

/// Sum of a sequence.
pub open spec fn seq_sum(s: Seq<i32>) -> int
    decreases s.len(),
{
    if s.len() == 0 { 0 } else { seq_sum(s.drop_last()) + s.last() }
}

/// Every partial sum, from the front, fits in an `i32`.
pub open spec fn prefix_sums_fit(s: Seq<i32>) -> bool {
    forall|k: int| 0 <= k <= s.len() ==> fits(#[trigger] seq_sum(s.take(k)))
}

/// Result of checking a solution: the first error met, a call picked up and
/// not delivered, or the sum of the vehicles' travel costs.
pub open spec fn correctness_result(
    solution: Seq<i32>,
    vehicle_details: Seq<[i32; 3]>,
    call_details: Seq<[i32; 8]>,
    travel_costs: Seq<[i32; 4]>,
) -> Result<i32, CorrectnessError> {
    match check_run(solution, solution.len() as int, vehicle_details, call_details, travel_costs) {
        Err(e) => Err(e),
        Ok(f) => match first_single(f.counter) {
            Some(i) => Err(CorrectnessError::PickupNotDelivered { idx: i as usize }),
            None => Ok(seq_sum(f.costs) as i32),
        },
    }
}

/// Checking the solution raises no panic: every call that is served is
/// served safely, and the final sum of costs fits.
pub open spec fn check_safe(
    solution: Seq<i32>,
    vehicle_details: Seq<[i32; 3]>,
    call_details: Seq<[i32; 8]>,
    travel_costs: Seq<[i32; 4]>,
) -> bool {
    &&& forall|k: int|
        #![trigger check_run(solution, k, vehicle_details, call_details, travel_costs)]
        0 <= k < solution.len() ==> {
            check_run(solution, k, vehicle_details, call_details, travel_costs) matches Ok(f)
                ==> step_safe(f, solution[k], vehicle_details, call_details, travel_costs)
        }
    &&& check_run(solution, solution.len() as int, vehicle_details, call_details, travel_costs) matches Ok(f)
        ==> (first_single(f.counter) is None ==> prefix_sums_fit(f.costs))
}

/// The sizes of the tables agree: the travel table covers every vehicle and
/// pair of nodes, the node table every vehicle and call, and a solution has
/// two entries per call.
pub open spec fn tables_wf(
    solution: Seq<i32>,
    vehicle_details: Seq<[i32; 3]>,
    call_details: Seq<[i32; 8]>,
    travel_costs: Seq<[i32; 4]>,
    node_costs: Seq<[i32; 5]>,
) -> bool {
    &&& solution.len() == 2 * call_details.len()
    &&& travel_costs.len() == NNODES * NNODES * vehicle_details.len()
    &&& node_costs.len() == call_details.len() * vehicle_details.len()
}


/// The state that `n` calls lead to, when no error was met.
pub open spec fn run_state(
    solution: Seq<i32>,
    n: int,
    vehicle_details: Seq<[i32; 3]>,
    call_details: Seq<[i32; 8]>,
    travel_costs: Seq<[i32; 4]>,
) -> Fleet {
    check_run(solution, n, vehicle_details, call_details, travel_costs)->Ok_0
}

/// A state has one entry per vehicle and per call, and no call has been met
/// more than twice.
pub open spec fn fleet_shape(f: Fleet, nvehicles: int, ncalls: int) -> bool {
    &&& f.weights.len() == nvehicles
    &&& f.costs.len() == nvehicles
    &&& f.times.len() == nvehicles
    &&& f.positions.len() == nvehicles
    &&& f.counter.len() == ncalls
    &&& forall|i: int| 0 <= i < ncalls ==> 0 <= #[trigger] f.counter[i] <= 2
}

proof fn lemma_run_shape(
    solution: Seq<i32>,
    n: int,
    vehicle_details: Seq<[i32; 3]>,
    call_details: Seq<[i32; 8]>,
    travel_costs: Seq<[i32; 4]>,
)
    requires
        0 <= n <= solution.len(),
        check_safe(solution, vehicle_details, call_details, travel_costs),
    ensures
        check_run(solution, n, vehicle_details, call_details, travel_costs) is Ok ==> fleet_shape(
            run_state(solution, n, vehicle_details, call_details, travel_costs),
            vehicle_details.len() as int,
            call_details.len() as int,
        ),
    decreases n,
{
    if n > 0 {
        lemma_run_shape(solution, n - 1, vehicle_details, call_details, travel_costs);
        let prev = check_run(solution, n - 1, vehicle_details, call_details, travel_costs);
        if prev is Ok {
            let f = prev->Ok_0;
            let call = solution[n - 1];
            if 1 <= call <= call_details.len() {
                assert(step_safe(f, call, vehicle_details, call_details, travel_costs));
                lemma_last_min_index(f.times);
            }
        }
    }
}

proof fn lemma_run_error_stays(
    solution: Seq<i32>,
    k: int,
    m: int,
    vehicle_details: Seq<[i32; 3]>,
    call_details: Seq<[i32; 8]>,
    travel_costs: Seq<[i32; 4]>,
)
    requires
        0 <= k <= m,
        check_run(solution, k, vehicle_details, call_details, travel_costs) is Err,
    ensures
        check_run(solution, m, vehicle_details, call_details, travel_costs)
            == check_run(solution, k, vehicle_details, call_details, travel_costs),
    decreases m - k,
{
    if m > k {
        lemma_run_error_stays(solution, k, m - 1, vehicle_details, call_details, travel_costs);
    }
}


proof fn lemma_first_single(s: Seq<i32>)
    ensures
        first_single(s) matches Some(i) ==> {
            &&& 0 <= i < s.len()
            &&& s[i] == 1
            &&& forall|j: int| 0 <= j < i ==> #[trigger] s[j] != 1
        },
        first_single(s) is None ==> forall|j: int| 0 <= j < s.len() ==> #[trigger] s[j] != 1,
    decreases s.len(),
{
    if s.len() > 0 {
        let t = s.drop_first();
        lemma_first_single(t);
        assert forall|j: int| 0 < j < s.len() implies #[trigger] s[j] == t[j - 1] by {}
        if first_single(s) is None {
            assert forall|j: int| 0 <= j < s.len() implies #[trigger] s[j] != 1 by {
                if j > 0 {
                    assert(t[j - 1] != 1);
                }
            }
        }
    }
}

proof fn lemma_first_single_is(s: Seq<i32>, i: int)
    requires
        0 <= i < s.len(),
        s[i] == 1,
        forall|j: int| 0 <= j < i ==> #[trigger] s[j] != 1,
    ensures
        first_single(s) == Some(i),
{
    lemma_first_single(s);
    if first_single(s) is Some {
        let k = first_single(s)->Some_0;
        if k < i {
            assert(s[k] != 1);
        } else if k > i {
            assert(s[i] != 1);
        }
    }
}

/// Checks a solution against the instance: every entry must name a call,
/// the vehicle that is free the earliest serves each entry in turn, picking
/// the call up the first time and delivering it the second, within the time
/// windows and the vehicle's capacity; every call picked up must be
/// delivered. Returns the sum of the vehicles' travel costs.
pub fn correctness_check(
    solution: &[i32],
    vehicle_details: &[[i32; 3]],
    call_details: &[[i32; 8]],
    travel_costs: &[[i32; 4]],
    node_costs: &[[i32; 5]],
) -> (r: Result<i32, CorrectnessError>)
    requires
        tables_wf(solution@, vehicle_details@, call_details@, travel_costs@, node_costs@),
        check_safe(solution@, vehicle_details@, call_details@, travel_costs@),
    ensures
        r == correctness_result(solution@, vehicle_details@, call_details@, travel_costs@),
{
    let ghost sol = solution@;
    let ghost vd = vehicle_details@;
    let ghost cd = call_details@;
    let ghost tc = travel_costs@;
    let nvehicles = vehicle_details.len();
    let ncalls = call_details.len();
    let mut vehicle_weights: Vec<i32> = Vec::new();
    let mut vehicle_costs: Vec<i32> = Vec::new();
    let mut vehicle_times: Vec<i32> = Vec::new();
    let mut vehicle_positions: Vec<i32> = Vec::new();
    let mut vehicle_idx: usize = 0;
    while vehicle_idx < nvehicles
        invariant
            nvehicles == vd.len(),
            vd == vehicle_details@,
            vehicle_idx <= nvehicles,
            vehicle_weights@ == initial_fleet(vd, cd.len() as int).weights.take(vehicle_idx as int),
            vehicle_costs@ == initial_fleet(vd, cd.len() as int).costs.take(vehicle_idx as int),
            vehicle_times@ == initial_fleet(vd, cd.len() as int).times.take(vehicle_idx as int),
            vehicle_positions@ == initial_fleet(vd, cd.len() as int).positions.take(vehicle_idx as int),
        decreases nvehicles - vehicle_idx,
    {
        let (vehicle_home, vehicle_start, _) = deconstruct_vehicle(vehicle_idx, vehicle_details);
        vehicle_weights.push(0);
        vehicle_costs.push(0);
        vehicle_times.push(vehicle_start);
        vehicle_positions.push(vehicle_home);
        vehicle_idx = vehicle_idx + 1;
        proof {
            let f0 = initial_fleet(vd, cd.len() as int);
            assert(vehicle_weights@ =~= f0.weights.take(vehicle_idx as int));
            assert(vehicle_costs@ =~= f0.costs.take(vehicle_idx as int));
            assert(vehicle_times@ =~= f0.times.take(vehicle_idx as int));
            assert(vehicle_positions@ =~= f0.positions.take(vehicle_idx as int));
        }
    }
    let mut call_counter: Vec<i32> = Vec::new();
    let mut k: usize = 0;
    while k < ncalls
        invariant
            k <= ncalls,
            call_counter@ == initial_fleet(vd, ncalls as int).counter.take(k as int),
        decreases ncalls - k,
    {
        call_counter.push(0);
        k = k + 1;
        proof {
            assert(call_counter@ =~= initial_fleet(vd, ncalls as int).counter.take(k as int));
        }
    }
    proof {
        let f0 = initial_fleet(vd, cd.len() as int);
        assert(vehicle_weights@ =~= f0.weights);
        assert(vehicle_costs@ =~= f0.costs);
        assert(vehicle_times@ =~= f0.times);
        assert(vehicle_positions@ =~= f0.positions);
        assert(call_counter@ =~= f0.counter);
    }
    let mut i: usize = 0;
    while i < solution.len()
        invariant
            sol == solution@,
            vd == vehicle_details@,
            cd == call_details@,
            tc == travel_costs@,
            nvehicles == vd.len(),
            ncalls == cd.len(),
            tables_wf(sol, vd, cd, tc, node_costs@),
            check_safe(sol, vd, cd, tc),
            i <= sol.len(),
            check_run(sol, i as int, vd, cd, tc) is Ok,
            run_state(sol, i as int, vd, cd, tc).weights == vehicle_weights@,
            run_state(sol, i as int, vd, cd, tc).costs == vehicle_costs@,
            run_state(sol, i as int, vd, cd, tc).times == vehicle_times@,
            run_state(sol, i as int, vd, cd, tc).positions == vehicle_positions@,
            run_state(sol, i as int, vd, cd, tc).counter == call_counter@,
        decreases sol.len() - i,
    {
        let call = solution[i];
        let ghost f = run_state(sol, i as int, vd, cd, tc);
        proof {
            lemma_run_shape(sol, i as int, vd, cd, tc);
        }
        if call <= 0 {
            proof {
                lemma_run_error_stays(sol, i + 1, sol.len() as int, vd, cd, tc);
            }
            return Err(CorrectnessError::CallNumberTooLow { call_number: call });
        }
        if call as usize > ncalls {
            proof {
                lemma_run_error_stays(sol, i + 1, sol.len() as int, vd, cd, tc);
            }
            return Err(CorrectnessError::CallNumberTooHigh { call_number: call });
        }
        proof {
            assert(step_safe(f, call, vd, cd, tc));
            lemma_last_min_index(f.times);
        }
        let car_idx = get_idx_of_min(vehicle_times.as_slice()).unwrap();
        let ci = (call - 1) as usize;
        let count = call_counter[ci] + 1;
        call_counter.set(ci, count);
        let car_time = vehicle_times[car_idx];
        let car_pos = vehicle_positions[car_idx];
        let car_weight = vehicle_weights[car_idx];
        let car_capacity = vehicle_details[car_idx][2];
        let (origin, destination, call_size, _, start_lower, start_upper, end_lower, end_upper) =
            deconstruct_call(call, call_details);
        proof {
            assert(car_idx * ncalls + ncalls <= nvehicles * ncalls) by (nonlinear_arith)
                requires car_idx < nvehicles;
            assert(ncalls * nvehicles == nvehicles * ncalls) by (nonlinear_arith);
        }
        let (_node_origin_time, _node_origin_cost, _node_destination_time, _node_destination_cost) =
            deconstruct_node(car_idx, call, ncalls, node_costs);
        // Nodes are free for now: no time or cost is spent at them.
        let (origin_time, origin_cost, destination_time, destination_cost) = (0i32, 0i32, 0i32, 0i32);
        let moving_time = a_to_b_time(car_idx, car_pos, origin, travel_costs);
        let moving_cost = a_to_b_cost(car_idx, car_pos, origin, travel_costs);
        if count == 1 {
            let arrival_time = car_time + moving_time + origin_time;
            let loaded_weight = car_weight + call_size;
            if arrival_time > start_upper {
                proof {
                    lemma_run_error_stays(sol, i + 1, sol.len() as int, vd, cd, tc);
                }
                return Err(CorrectnessError::PickUpTooLate {
                    vehicle_idx: car_idx,
                    call,
                    car_time,
                    arrival_time,
                    start_upper,
                });
            }
            if loaded_weight > car_capacity {
                proof {
                    lemma_run_error_stays(sol, i + 1, sol.len() as int, vd, cd, tc);
                }
                return Err(CorrectnessError::Overloaded { call, car_weight, loaded_weight, car_capacity });
            }
            let new_time = if arrival_time >= start_lower { arrival_time } else { start_lower };
            vehicle_times.set(car_idx, new_time);
            vehicle_weights.set(car_idx, loaded_weight);
            vehicle_positions.set(car_idx, origin);
            let new_cost = vehicle_costs[car_idx] + (moving_cost + origin_cost);
            vehicle_costs.set(car_idx, new_cost);
        } else if count == 2 {
            let arrival_time = car_time + moving_time + destination_time;
            if arrival_time > end_upper {
                proof {
                    lemma_run_error_stays(sol, i + 1, sol.len() as int, vd, cd, tc);
                }
                return Err(CorrectnessError::DeliverTooLate {
                    vehicle_idx: car_idx,
                    call,
                    car_time,
                    arrival_time,
                    end_upper,
                });
            }
            let unloaded_weight = car_weight - call_size;
            if unloaded_weight < 0 {
                proof {
                    lemma_run_error_stays(sol, i + 1, sol.len() as int, vd, cd, tc);
                }
                return Err(CorrectnessError::NegativeLoad { call, unloaded_weight });
            }
            let new_time = if arrival_time >= end_lower { arrival_time } else { end_lower };
            vehicle_times.set(car_idx, new_time);
            vehicle_weights.set(car_idx, unloaded_weight);
            vehicle_positions.set(car_idx, destination);
            let new_cost = vehicle_costs[car_idx] + (moving_cost + destination_cost);
            vehicle_costs.set(car_idx, new_cost);
        } else {
            proof {
                lemma_run_error_stays(sol, i + 1, sol.len() as int, vd, cd, tc);
            }
            return Err(CorrectnessError::CallTooManyTimes { call });
        }
        i = i + 1;
    }
    proof {
        lemma_run_shape(sol, sol.len() as int, vd, cd, tc);
        lemma_first_single(call_counter@);
    }
    let mut idx: usize = 0;
    while idx < ncalls
        invariant
            ncalls == call_counter@.len(),
            idx <= ncalls,
            check_run(sol, sol.len() as int, vd, cd, tc) is Ok,
            run_state(sol, sol.len() as int, vd, cd, tc).counter == call_counter@,
            run_state(sol, sol.len() as int, vd, cd, tc).costs == vehicle_costs@,
            sol == solution@,
            vd == vehicle_details@,
            cd == call_details@,
            tc == travel_costs@,
            forall|j: int| 0 <= j < idx ==> #[trigger] call_counter@[j] != 1,
        decreases ncalls - idx,
    {
        if call_counter[idx] == 1 {
            proof {
                lemma_first_single_is(call_counter@, idx as int);
            }
            return Err(CorrectnessError::PickupNotDelivered { idx });
        }
        idx = idx + 1;
    }
    let mut total_cost: i32 = 0;
    let mut v: usize = 0;
    while v < nvehicles
        invariant
            nvehicles == vehicle_costs@.len(),
            v <= nvehicles,
            check_run(sol, sol.len() as int, vd, cd, tc) is Ok,
            run_state(sol, sol.len() as int, vd, cd, tc).counter == call_counter@,
            run_state(sol, sol.len() as int, vd, cd, tc).costs == vehicle_costs@,
            first_single(call_counter@) is None,
            sol == solution@,
            vd == vehicle_details@,
            cd == call_details@,
            tc == travel_costs@,
            prefix_sums_fit(vehicle_costs@),
            total_cost == seq_sum(vehicle_costs@.take(v as int)),
        decreases nvehicles - v,
    {
        proof {
            assert(vehicle_costs@.take(v + 1).drop_last() =~= vehicle_costs@.take(v as int));
            assert(fits(seq_sum(vehicle_costs@.take(v + 1))));
        }
        total_cost = total_cost + vehicle_costs[v];
        v = v + 1;
    }
    proof {
        assert(vehicle_costs@.take(nvehicles as int) =~= vehicle_costs@);
    }
    Ok(total_cost)
}


/// How often `x` occurs in a sequence.
pub open spec fn occurrences(s: Seq<i32>, x: int) -> int
    decreases s.len(),
{
    if s.len() == 0 {
        0
    } else {
        occurrences(s.drop_last(), x) + if s.last() == x { 1int } else { 0int }
    }
}

pub(crate) proof fn lemma_occurrences_bounds(s: Seq<i32>, x: int)
    ensures
        0 <= occurrences(s, x) <= s.len(),
    decreases s.len(),
{
    if s.len() > 0 {
        lemma_occurrences_bounds(s.drop_last(), x);
    }
}

/// Total of the occurrences of the calls `0..n`.
pub open spec fn count_sum(s: Seq<i32>, n: int) -> int
    decreases n,
{
    if n <= 0 {
        0
    } else {
        count_sum(s, n - 1) + occurrences(s, n - 1)
    }
}

pub(crate) proof fn lemma_occurrences_absent(s: Seq<i32>, x: int)
    requires
        forall|k: int| 0 <= k < s.len() ==> #[trigger] s[k] != x,
    ensures
        occurrences(s, x) == 0,
    decreases s.len(),
{
    if s.len() > 0 {
        lemma_occurrences_absent(s.drop_last(), x);
    }
}

pub(crate) proof fn lemma_count_sum_drop_last(s: Seq<i32>, n: int)
    requires
        s.len() > 0,
        n >= 0,
    ensures
        count_sum(s, n) == count_sum(s.drop_last(), n) + if 0 <= s.last() < n { 1int } else { 0int },
    decreases n,
{
    if n > 0 {
        lemma_count_sum_drop_last(s, n - 1);
    }
}

pub(crate) proof fn lemma_count_sum_len(s: Seq<i32>, n: int)
    requires
        n >= 0,
        forall|k: int| 0 <= k < s.len() ==> 0 <= #[trigger] s[k] < n,
    ensures
        count_sum(s, n) == s.len(),
    decreases s.len(),
{
    if s.len() > 0 {
        let t = s.drop_last();
        assert forall|k: int| 0 <= k < t.len() implies 0 <= #[trigger] t[k] < n by {
            assert(t[k] == s[k]);
        }
        lemma_count_sum_len(t, n);
        lemma_count_sum_drop_last(s, n);
        assert(0 <= s[s.len() - 1] < n);
    } else {
        lemma_count_sum_empty(s, n);
    }
}

pub(crate) proof fn lemma_count_sum_empty(s: Seq<i32>, n: int)
    requires
        s.len() == 0,
        n >= 0,
    ensures
        count_sum(s, n) == 0,
    decreases n,
{
    if n > 0 {
        lemma_count_sum_empty(s, n - 1);
    }
}

pub(crate) proof fn lemma_count_sum_at_most(s: Seq<i32>, n: int)
    requires
        n >= 1,
        occurrences(s, 0) == 0,
        forall|c: int| 1 <= c < n ==> #[trigger] occurrences(s, c) <= 2,
    ensures
        count_sum(s, n) <= 2 * (n - 1),
    decreases n,
{
    if n > 1 {
        lemma_count_sum_at_most(s, n - 1);
        assert(occurrences(s, n - 1) <= 2);
    } else {
        assert(count_sum(s, 0) == 0);
    }
}

/// With call 0 absent and every other call at most twice, the calls `0..n`
/// other than `c0` add up to at most `2 * (n - 2)`.
pub(crate) proof fn lemma_count_sum_upper(s: Seq<i32>, n: int, c0: int)
    requires
        1 <= c0 < n,
        occurrences(s, 0) == 0,
        forall|c: int| 1 <= c < n ==> #[trigger] occurrences(s, c) <= 2,
    ensures
        count_sum(s, n) <= 2 * (n - 2) + occurrences(s, c0),
    decreases n,
{
    if c0 == n - 1 {
        lemma_count_sum_at_most(s, n - 1);
    } else {
        lemma_count_sum_upper(s, n - 1, c0);
        assert(occurrences(s, n - 1) <= 2);
    }
}

proof fn lemma_run_counts(
    solution: Seq<i32>,
    n: int,
    vehicle_details: Seq<[i32; 3]>,
    call_details: Seq<[i32; 8]>,
    travel_costs: Seq<[i32; 4]>,
)
    requires
        0 <= n <= solution.len(),
        check_run(solution, n, vehicle_details, call_details, travel_costs) is Ok,
    ensures
        run_state(solution, n, vehicle_details, call_details, travel_costs).counter.len() == call_details.len(),
        forall|k: int| 0 <= k < n ==> 1 <= #[trigger] solution[k] <= call_details.len(),
        forall|c: int|
            1 <= c <= call_details.len() ==> #[trigger] run_state(
                solution,
                n,
                vehicle_details,
                call_details,
                travel_costs,
            ).counter[c - 1] == occurrences(solution.take(n), c),
    decreases n,
{
    if n > 0 {
        lemma_run_counts(solution, n - 1, vehicle_details, call_details, travel_costs);
        assert(solution.take(n).drop_last() =~= solution.take(n - 1));
    }
}

/// A solution that the check accepts names only calls `1..=ncalls`, and each
/// call exactly twice (picked up and delivered) or not at all.
pub proof fn lemma_accepted_solution_serves_calls_in_pairs(
    solution: Seq<i32>,
    vehicle_details: Seq<[i32; 3]>,
    call_details: Seq<[i32; 8]>,
    travel_costs: Seq<[i32; 4]>,
)
    requires
        correctness_result(solution, vehicle_details, call_details, travel_costs) is Ok,
    ensures
        forall|k: int| 0 <= k < solution.len() ==> 1 <= #[trigger] solution[k] <= call_details.len(),
        forall|c: int|
            1 <= c <= call_details.len() ==> #[trigger] occurrences(solution, c) == 0 || occurrences(
                solution,
                c,
            ) == 2,
{
    let n = solution.len() as int;
    lemma_run_counts(solution, n, vehicle_details, call_details, travel_costs);
    let f = run_state(solution, n, vehicle_details, call_details, travel_costs);
    lemma_first_single(f.counter);
    assert(solution.take(n) =~= solution);
    assert forall|c: int| 1 <= c <= call_details.len() implies #[trigger] occurrences(solution, c) == 0
        || occurrences(solution, c) == 2 by {
        assert(f.counter[c - 1] == occurrences(solution, c));
        lemma_counter_bounded(solution, n, vehicle_details, call_details, travel_costs, c - 1);
    }
}

proof fn lemma_counter_bounded(
    solution: Seq<i32>,
    n: int,
    vehicle_details: Seq<[i32; 3]>,
    call_details: Seq<[i32; 8]>,
    travel_costs: Seq<[i32; 4]>,
    i: int,
)
    requires
        0 <= n <= solution.len(),
        0 <= i < call_details.len(),
        check_run(solution, n, vehicle_details, call_details, travel_costs) is Ok,
    ensures
        0 <= run_state(solution, n, vehicle_details, call_details, travel_costs).counter[i] <= 2,
    decreases n,
{
    if n > 0 {
        lemma_run_counts(solution, n - 1, vehicle_details, call_details, travel_costs);
        lemma_counter_bounded(solution, n - 1, vehicle_details, call_details, travel_costs, i);
    }
}


/// A node number that the travel table covers.
pub open spec fn node_known(x: int) -> bool {
    1 <= x <= NNODES
}

/// Any move between two nodes of the table, for any vehicle it covers, can
/// be read.
pub proof fn lemma_known_nodes_readable(travel_costs: Seq<[i32; 4]>, nvehicles: int, vehicle_idx: int, a: int, b: int)
    requires
        travel_costs.len() == NNODES * NNODES * nvehicles,
        0 <= vehicle_idx < nvehicles,
        node_known(a),
        node_known(b),
    ensures
        table_vehicles(travel_costs) == nvehicles,
        travel_readable(travel_costs, vehicle_idx, a, b),
{
    assert(NNODES * NNODES * nvehicles == 1521 * nvehicles);
    assert((1521 * nvehicles) / 1521 == nvehicles) by (nonlinear_arith);
    let lo = if a <= b { a - 1 } else { b - 1 };
    let hi = if a <= b { b - 1 } else { a - 1 };
    assert(vehicle_idx % nvehicles == vehicle_idx) by (nonlinear_arith)
        requires 0 <= vehicle_idx < nvehicles;
    assert(vehicle_idx + (hi + lo * 39) * nvehicles < 1521 * nvehicles) by (nonlinear_arith)
        requires 0 <= vehicle_idx < nvehicles, 0 <= lo <= 38, 0 <= hi <= 38;
}

} // verus!
