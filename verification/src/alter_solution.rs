use vstd::prelude::*;
use rand::Rng;
use crate::constants::{MAX_RUNTIME_IN_SECONDS, NNODES};
use crate::validity_check::{
    check_safe, correctness_check, correctness_result, tables_wf,
    deconstruct_vehicle,
    a_to_b_time, call_fields, deconstruct_call, deconstruct_node, fits, lemma_known_nodes_readable, node_known, node_row,
    table_vehicles, travel_row, occurrences, lemma_occurrences_absent, lemma_count_sum_len, lemma_count_sum_upper,
};

verus! {

/// Where the vehicles stand and when they are free, and the vehicle under
/// consideration.
pub struct CarInfo {
    pub vehicle_idx: usize,
    pub car_pos: Vec<i32>,
    pub car_times: Vec<i32>,
}

/// What serving a call with one vehicle would give: the node it ends at, the
/// time it is done there, how long after the window opens that is, when the
/// window closes, and what it costs.
pub struct Info {
    to_node: i32,
    total_time: i32,
    time_delta: i32,
    upper_bound: i32,
    total_cost: i32,
}

/// The values an [`Info`] holds.
pub struct InfoView {
    pub to_node: i32,
    pub total_time: i32,
    pub time_delta: i32,
    pub upper_bound: i32,
    pub total_cost: i32,
}

impl View for Info {
    type V = InfoView;

    closed spec fn view(&self) -> InfoView {
        InfoView {
            to_node: self.to_node,
            total_time: self.total_time,
            time_delta: self.time_delta,
            upper_bound: self.upper_bound,
            total_cost: self.total_cost,
        }
    }
}

/// The node table and travel table fit the call table: they cover the same
/// vehicles, every pair of nodes and every call.
pub open spec fn tables_fit(
    call_details: Seq<[i32; 8]>,
    travel_costs: Seq<[i32; 4]>,
    node_costs: Seq<[i32; 5]>,
    nvehicles: int,
) -> bool {
    &&& travel_costs.len() == NNODES * NNODES * nvehicles
    &&& node_costs.len() == call_details.len() * nvehicles
}

/// Time and cost at the node, node reached, cost of not transporting the
/// call, and the window, of the pickup (`count == 0`) or the delivery
/// (`count == 1`) of a call.
pub open spec fn leg_fields(
    count: int,
    call: int,
    vehicle_idx: int,
    call_details: Seq<[i32; 8]>,
    node_costs: Seq<[i32; 5]>,
) -> (i32, i32, i32, i32, i32, i32) {
    let nrow = node_row(node_costs, call_details.len() as int, vehicle_idx, call);
    let (origin, destination, _, cost_of_not_deliver, lp, up, ld, ud) = call_fields(call_details, call);
    if count == 0 {
        (nrow[1], nrow[2], origin, cost_of_not_deliver, lp, up)
    } else {
        (nrow[3], nrow[4], destination, cost_of_not_deliver, ld, ud)
    }
}

/// What serving the call with the vehicle would give, or `None` when the call
/// has already been met twice or the move is not in the travel table.
pub open spec fn info_spec(
    call_count: int,
    car_pos: Seq<i32>,
    car_times: Seq<i32>,
    vehicle_idx: int,
    call: int,
    node_costs: Seq<[i32; 5]>,
    call_details: Seq<[i32; 8]>,
    travel_costs: Seq<[i32; 4]>,
) -> Option<InfoView> {
    if call_count != 0 && call_count != 1 {
        None
    } else {
        let from_node = car_pos[vehicle_idx];
        let current_time = car_times[vehicle_idx];
        let (node_time, node_cost, to_node, cost_of_not_deliver, lower_bound, upper_bound) =
            leg_fields(call_count, call, vehicle_idx, call_details, node_costs);
        if !node_known(from_node as int) || !node_known(to_node as int) {
            None
        } else {
            let ab_time = travel_row(travel_costs, vehicle_idx, from_node as int, to_node as int)[2];
            let potential_time = current_time + node_time + ab_time;
            let total_time = if lower_bound >= potential_time { lower_bound as int } else { potential_time };
            Some(InfoView {
                to_node,
                total_time: total_time as i32,
                time_delta: (total_time - lower_bound) as i32,
                upper_bound,
                total_cost: (node_cost + cost_of_not_deliver) as i32,
            })
        }
    }
}

/// What serving a call gives depends only on where the serving vehicle
/// stands and when it is free, not on the other vehicles.
pub proof fn lemma_info_reads_only_its_vehicle(
    call_count: int,
    car_pos1: Seq<i32>,
    car_times1: Seq<i32>,
    car_pos2: Seq<i32>,
    car_times2: Seq<i32>,
    vehicle_idx: int,
    call: int,
    node_costs: Seq<[i32; 5]>,
    call_details: Seq<[i32; 8]>,
    travel_costs: Seq<[i32; 4]>,
)
    requires
        car_pos1[vehicle_idx] == car_pos2[vehicle_idx],
        car_times1[vehicle_idx] == car_times2[vehicle_idx],
    ensures
        info_spec(call_count, car_pos1, car_times1, vehicle_idx, call, node_costs, call_details, travel_costs)
            == info_spec(call_count, car_pos2, car_times2, vehicle_idx, call, node_costs, call_details, travel_costs),
{
}

/// Serving a call with a vehicle, as [`Info::new`] reports it: the pickup
/// (`call_count == 0`) goes to the call's origin (field 0) within the pickup
/// window (fields 4 and 5), the delivery (`call_count == 1`) to its
/// destination (field 1) within the delivery window (fields 6 and 7). The
/// vehicle leaves at its free time, spends the node time (node row field 1
/// for a pickup, 3 for a delivery) and the travel time from where it stands;
/// it is done then, or when the window opens if that is later; the time
/// past the opening is the difference; the cost is the node cost (field 2
/// or 4) plus the cost of not transporting the call (call field 3).
pub proof fn lemma_info_keeps_the_window(
    call_count: int,
    car_pos: Seq<i32>,
    car_times: Seq<i32>,
    vehicle_idx: int,
    call: int,
    node_costs: Seq<[i32; 5]>,
    call_details: Seq<[i32; 8]>,
    travel_costs: Seq<[i32; 4]>,
)
    requires
        info_spec(call_count, car_pos, car_times, vehicle_idx, call, node_costs, call_details, travel_costs) is Some,
        info_safe(call_count, car_pos, car_times, vehicle_idx, call, node_costs, call_details, travel_costs),
    ensures
        ({
            let i = info_spec(call_count, car_pos, car_times, vehicle_idx, call, node_costs, call_details,
                travel_costs)->Some_0;
            let row = call_details[call - 1];
            let nrow = node_costs[(call - 1) + vehicle_idx * call_details.len()];
            let pickup = call_count == 0;
            let to = if pickup { row[0] } else { row[1] };
            let lower = if pickup { row[4] } else { row[6] };
            let node_time = if pickup { nrow[1] } else { nrow[3] };
            let arrival = car_times[vehicle_idx] + node_time + travel_row(travel_costs, vehicle_idx,
                car_pos[vehicle_idx] as int, to as int)[2];
            &&& call_count == 0 || call_count == 1
            &&& i.to_node == to
            &&& i.upper_bound == if pickup { row[5] } else { row[7] }
            &&& i.total_time == if arrival >= lower { arrival } else { lower as int }
            &&& i.total_time >= lower
            &&& i.total_time >= arrival
            &&& i.time_delta == i.total_time - lower
            &&& i.total_cost == (if pickup { nrow[2] } else { nrow[4] }) + row[3]
        }),
{
}

/// Computing [`info_spec`] raises no panic: every sum fits in an `i32`.
pub open spec fn info_safe(
    call_count: int,
    car_pos: Seq<i32>,
    car_times: Seq<i32>,
    vehicle_idx: int,
    call: int,
    node_costs: Seq<[i32; 5]>,
    call_details: Seq<[i32; 8]>,
    travel_costs: Seq<[i32; 4]>,
) -> bool {
    (call_count == 0 || call_count == 1) ==> {
        let from_node = car_pos[vehicle_idx];
        let current_time = car_times[vehicle_idx];
        let (node_time, node_cost, to_node, cost_of_not_deliver, lower_bound, upper_bound) =
            leg_fields(call_count, call, vehicle_idx, call_details, node_costs);
        let ab_time = travel_row(travel_costs, vehicle_idx, from_node as int, to_node as int)[2];
        let potential_time = current_time + node_time + ab_time;
        let total_time = if lower_bound >= potential_time { lower_bound as int } else { potential_time };
        &&& fits(node_cost + cost_of_not_deliver)
        &&& (node_known(from_node as int) && node_known(to_node as int)) ==> {
            &&& fits(current_time + node_time)
            &&& fits(potential_time)
            &&& fits(total_time - lower_bound)
        }
    }
}

impl Info {
    /// What serving call `call` with the vehicle `car_info.vehicle_idx` would
    /// give: the pickup when the call has not been met yet, the delivery when
    /// it has been met once, and `None` when it has been met twice or the
    /// move is not in the travel table.
    pub fn new(
        call_count: i32,
        car_info: &CarInfo,
        call: i32,
        node_costs: &[[i32; 5]],
        call_details: &[[i32; 8]],
        travel_costs: &[[i32; 4]],
    ) -> (r: Option<Self>)
        requires
            tables_fit(call_details@, travel_costs@, node_costs@, table_vehicles(travel_costs@)),
            car_info.vehicle_idx < table_vehicles(travel_costs@),
            car_info.vehicle_idx < car_info.car_pos@.len(),
            car_info.vehicle_idx < car_info.car_times@.len(),
            1 <= call <= call_details@.len(),
            info_safe(call_count as int, car_info.car_pos@, car_info.car_times@, car_info.vehicle_idx as int,
                call as int, node_costs@, call_details@, travel_costs@),
        ensures
            match r {
                Some(i) => info_spec(call_count as int, car_info.car_pos@, car_info.car_times@,
                    car_info.vehicle_idx as int, call as int, node_costs@, call_details@, travel_costs@) == Some(i@),
                None => info_spec(call_count as int, car_info.car_pos@, car_info.car_times@,
                    car_info.vehicle_idx as int, call as int, node_costs@, call_details@, travel_costs@) is None,
            },
    {
        let vehicle_idx = car_info.vehicle_idx;
        let from_node = car_info.car_pos[vehicle_idx];
        let current_time = car_info.car_times[vehicle_idx];
        let ncalls = call_details.len();
        let ghost nv = table_vehicles(travel_costs@);
        proof {
            assert(vehicle_idx * ncalls + ncalls <= nv * ncalls) by (nonlinear_arith)
                requires vehicle_idx < nv;
            assert(ncalls * nv == nv * ncalls) by (nonlinear_arith);
        }
        let (origin_time, origin_cost, destination_time, destination_cost) =
            deconstruct_node(vehicle_idx, call, ncalls, node_costs);
        let (origin, destination, _call_size, cost_of_not_deliver, lp, up, ld, ud) =
            deconstruct_call(call, call_details);
        let (node_time, node_cost, to_node, lower_bound, upper_bound);
        if call_count == 0 {
            node_time = origin_time;
            node_cost = origin_cost;
            to_node = origin;
            lower_bound = lp;
            upper_bound = up;
        } else if call_count == 1 {
            node_time = destination_time;
            node_cost = destination_cost;
            to_node = destination;
            lower_bound = ld;
            upper_bound = ud;
        } else {
            return None;
        }
        let total_cost = node_cost + cost_of_not_deliver;
        if from_node < 1 || from_node as usize > NNODES || to_node < 1 || to_node as usize > NNODES {
            return None;
        }
        proof {
            lemma_known_nodes_readable(travel_costs@, nv, vehicle_idx as int, from_node as int, to_node as int);
        }
        let ab_time = a_to_b_time(vehicle_idx, from_node, to_node, travel_costs);
        let potential_time = current_time + node_time + ab_time;
        let total_time = if lower_bound >= potential_time { lower_bound } else { potential_time };
        let time_delta = total_time - lower_bound;
        Some(Info { to_node, total_time, time_delta, upper_bound, total_cost })
    }

    /// The node reached, the time done there, how long after the window
    /// opens that is, and the cost.
    pub fn get_info(&self) -> (r: (Option<i32>, Option<i32>, Option<i32>, Option<i32>))
        ensures
            r == (Some(self@.to_node), Some(self@.total_time), Some(self@.time_delta), Some(self@.total_cost)),
    {
        (Some(self.to_node), Some(self.total_time), Some(self.time_delta), Some(self.total_cost))
    }

    /// The move is done within its window and, when another is known, no
    /// later after its window opens than that one.
    pub fn is_faster(&self, cheapest_time_delta: Option<i32>) -> (r: bool)
        ensures
            r == is_faster_spec(self@, cheapest_time_delta),
    {
        if self.total_time <= self.upper_bound {
            match cheapest_time_delta {
                None => return true,
                Some(some_cheapest_time_delta) => {
                    if self.time_delta <= some_cheapest_time_delta {
                        return true;
                    }
                },
            }
        }
        false
    }
}

/// The move is done within its window and, when another is known, no later
/// after its window opens than that one.
pub open spec fn is_faster_spec(i: InfoView, cheapest_time_delta: Option<i32>) -> bool {
    &&& i.total_time <= i.upper_bound
    &&& match cheapest_time_delta {
        None => true,
        Some(d) => i.time_delta <= d,
    }
}


/// The vehicle chosen among the first `k` to serve `call`, with what serving
/// it gives. A vehicle is taken when none is taken yet or when it is faster
/// than the one taken; once one is taken, the call counts as met once more
/// for the vehicles that follow.
pub open spec fn pick_vehicle(
    k: int,
    call_count: int,
    car_pos: Seq<i32>,
    car_times: Seq<i32>,
    call: int,
    node_costs: Seq<[i32; 5]>,
    call_details: Seq<[i32; 8]>,
    travel_costs: Seq<[i32; 4]>,
) -> Option<(int, InfoView)>
    decreases k,
{
    if k <= 0 {
        None
    } else {
        let prev = pick_vehicle(k - 1, call_count, car_pos, car_times, call, node_costs, call_details, travel_costs);
        let count = if prev is None { call_count } else { call_count + 1 };
        match info_spec(count, car_pos, car_times, k - 1, call, node_costs, call_details, travel_costs) {
            None => prev,
            Some(inf) => if prev is None || is_faster_spec(inf, Some(prev->Some_0.1.time_delta)) {
                Some((k - 1, inf))
            } else {
                prev
            },
        }
    }
}

/// Choosing among the first `k` vehicles raises no panic.
pub open spec fn pick_safe(
    k: int,
    call_count: int,
    car_pos: Seq<i32>,
    car_times: Seq<i32>,
    call: int,
    node_costs: Seq<[i32; 5]>,
    call_details: Seq<[i32; 8]>,
    travel_costs: Seq<[i32; 4]>,
) -> bool
    decreases k,
{
    k <= 0 || {
        let prev = pick_vehicle(k - 1, call_count, car_pos, car_times, call, node_costs, call_details, travel_costs);
        let count = if prev is None { call_count } else { call_count + 1 };
        &&& pick_safe(k - 1, call_count, car_pos, car_times, call, node_costs, call_details, travel_costs)
        &&& info_safe(count, car_pos, car_times, k - 1, call, node_costs, call_details, travel_costs)
    }
}

/// The vehicle chosen among the first `k` is one of them.
pub(crate) proof fn lemma_pick_vehicle_range(
    k: int,
    call_count: int,
    car_pos: Seq<i32>,
    car_times: Seq<i32>,
    call: int,
    node_costs: Seq<[i32; 5]>,
    call_details: Seq<[i32; 8]>,
    travel_costs: Seq<[i32; 4]>,
)
    ensures
        pick_vehicle(k, call_count, car_pos, car_times, call, node_costs, call_details, travel_costs) matches Some(
            p,
        ) ==> 0 <= p.0 < k,
    decreases k,
{
    if k > 0 {
        lemma_pick_vehicle_range(k - 1, call_count, car_pos, car_times, call, node_costs, call_details, travel_costs);
    }
}

/// Chooses the vehicle that serves `call` next: the fastest one, by
/// [`Info::is_faster`], of those that can serve it. The call counts as met
/// once more when a vehicle is chosen. Returns the vehicle, the node it ends
/// at, when it is done, how long after the window opens that is, and the
/// cost.
pub(crate) fn serve_call(
    call_counter: &mut Vec<i32>,
    car_info: &mut CarInfo,
    call: i32,
    nvehicles: usize,
    node_costs: &[[i32; 5]],
    call_details: &[[i32; 8]],
    travel_costs: &[[i32; 4]],
) -> (r: Option<(usize, i32, i32, i32, i32)>)
    requires
        tables_fit(call_details@, travel_costs@, node_costs@, nvehicles as int),
        old(car_info).car_pos@.len() == nvehicles,
        old(car_info).car_times@.len() == nvehicles,
        old(call_counter)@.len() == call_details@.len(),
        1 <= call <= call_details@.len(),
        0 <= old(call_counter)@[call - 1] <= 2,
        pick_safe(nvehicles as int, old(call_counter)@[call - 1] as int, old(car_info).car_pos@,
            old(car_info).car_times@, call as int, node_costs@, call_details@, travel_costs@),
    ensures
        final(car_info).car_pos@ == old(car_info).car_pos@,
        final(car_info).car_times@ == old(car_info).car_times@,
        ({
            let p = pick_vehicle(nvehicles as int, old(call_counter)@[call - 1] as int, old(car_info).car_pos@,
                old(car_info).car_times@, call as int, node_costs@, call_details@, travel_costs@);
            match r {
                None => p is None && final(call_counter)@ == old(call_counter)@,
                Some((v, to_node, total_time, time_delta, total_cost)) => {
                    &&& p is Some
                    &&& v == p->Some_0.0
                    &&& to_node == p->Some_0.1.to_node
                    &&& total_time == p->Some_0.1.total_time
                    &&& time_delta == p->Some_0.1.time_delta
                    &&& total_cost == p->Some_0.1.total_cost
                    &&& final(call_counter)@ == old(call_counter)@.update(call - 1,
                        (old(call_counter)@[call - 1] + 1) as i32)
                }
            }
        }),
{
    let ghost c0 = call_counter@[call - 1] as int;
    let ghost counter0 = call_counter@;
    let ghost pos = car_info.car_pos@;
    let ghost times = car_info.car_times@;
    let ghost nc = node_costs@;
    let ghost cd = call_details@;
    let ghost tc = travel_costs@;
    let ci = (call - 1) as usize;
    proof {
        assert(NNODES * NNODES * nvehicles == 1521 * nvehicles);
        assert((1521 * nvehicles) / 1521 == nvehicles as int) by (nonlinear_arith);
    }
    let mut cheapest_vehicle: Option<usize> = None;
    let mut cheapest_call: Option<usize> = None;
    let mut cheapest_to_node: Option<i32> = None;
    let mut cheapest_time: Option<i32> = None;
    let mut cheapest_time_delta: Option<i32> = None;
    let mut cheapest_cost: Option<i32> = None;
    let mut vehicle_idx: usize = 0;
    while vehicle_idx < nvehicles
        invariant
            vehicle_idx <= nvehicles,
            table_vehicles(tc) == nvehicles,
            tables_fit(cd, tc, nc, nvehicles as int),
            nc == node_costs@,
            cd == call_details@,
            tc == travel_costs@,
            car_info.car_pos@ == pos,
            car_info.car_times@ == times,
            pos.len() == nvehicles,
            times.len() == nvehicles,
            1 <= call <= cd.len(),
            ci == call - 1,
            counter0.len() == cd.len(),
            0 <= c0 <= 2,
            c0 == counter0[ci as int],
            pick_safe(nvehicles as int, c0, pos, times, call as int, nc, cd, tc),
            ({
                let p = pick_vehicle(vehicle_idx as int, c0, pos, times, call as int, nc, cd, tc);
                match p {
                    None => {
                        &&& cheapest_vehicle is None
                        &&& cheapest_call is None
                        &&& cheapest_time_delta is None
                        &&& call_counter@ == counter0
                    },
                    Some((v, inf)) => {
                        &&& cheapest_vehicle == Some(v as usize)
                        &&& cheapest_call == Some(call as usize)
                        &&& cheapest_to_node == Some(inf.to_node)
                        &&& cheapest_time == Some(inf.total_time)
                        &&& cheapest_time_delta == Some(inf.time_delta)
                        &&& cheapest_cost == Some(inf.total_cost)
                        &&& call_counter@ == counter0.update(ci as int, (c0 + 1) as i32)
                    },
                }
            }),
        decreases nvehicles - vehicle_idx,
    {
        proof {
            lemma_pick_safe_prefix(nvehicles as int, vehicle_idx as int + 1, c0, pos, times, call as int, nc, cd, tc);
        }
        car_info.vehicle_idx = vehicle_idx;
        let possible_informant = Info::new(call_counter[ci], car_info, call, node_costs, call_details, travel_costs);
        match possible_informant {
            None => {},
            Some(informant) => {
                if informant.is_faster(cheapest_time_delta) || cheapest_call.is_none() {
                    cheapest_vehicle = Some(vehicle_idx);
                    if let Some(i) = cheapest_call {
                        let dec = call_counter[i - 1] - 1;
                        call_counter.set(i - 1, dec);
                    }
                    cheapest_call = Some(call as usize);
                    let inc = call_counter[ci] + 1;
                    call_counter.set(ci, inc);
                    let (a, b, c, d) = informant.get_info();
                    cheapest_to_node = a;
                    cheapest_time = b;
                    cheapest_time_delta = c;
                    cheapest_cost = d;
                    proof {
                        assert(call_counter@ =~= counter0.update(ci as int, (c0 + 1) as i32));
                    }
                }
            },
        }
        vehicle_idx = vehicle_idx + 1;
    }
    proof {
        lemma_pick_vehicle_range(nvehicles as int, c0, pos, times, call as int, nc, cd, tc);
    }
    match (cheapest_vehicle, cheapest_to_node, cheapest_time, cheapest_time_delta, cheapest_cost) {
        (Some(v), Some(to_node), Some(time), Some(delta), Some(cost)) => Some((v, to_node, time, delta, cost)),
        _ => None,
    }
}

proof fn lemma_pick_safe_prefix(
    k: int,
    j: int,
    call_count: int,
    car_pos: Seq<i32>,
    car_times: Seq<i32>,
    call: int,
    node_costs: Seq<[i32; 5]>,
    call_details: Seq<[i32; 8]>,
    travel_costs: Seq<[i32; 4]>,
)
    requires
        0 <= j <= k,
        pick_safe(k, call_count, car_pos, car_times, call, node_costs, call_details, travel_costs),
    ensures
        pick_safe(j, call_count, car_pos, car_times, call, node_costs, call_details, travel_costs),
    decreases k - j,
{
    if j < k {
        lemma_pick_safe_prefix(k - 1, j, call_count, car_pos, car_times, call, node_costs, call_details, travel_costs);
    }
}


proof fn lemma_pick_count(
    k: int,
    call_count: int,
    car_pos: Seq<i32>,
    car_times: Seq<i32>,
    call: int,
    node_costs: Seq<[i32; 5]>,
    call_details: Seq<[i32; 8]>,
    travel_costs: Seq<[i32; 4]>,
)
    ensures
        pick_vehicle(k, call_count, car_pos, car_times, call, node_costs, call_details, travel_costs) is Some
            ==> call_count == 0 || call_count == 1,
    decreases k,
{
    if k > 0 {
        lemma_pick_count(k - 1, call_count, car_pos, car_times, call, node_costs, call_details, travel_costs);
    }
}

/// Where the vehicles stand, when they are free, and how often each call has
/// been met, while a solution is served vehicle by vehicle.
pub struct Route {
    pub car_pos: Seq<i32>,
    pub car_times: Seq<i32>,
    pub counter: Seq<i32>,
}

/// Every vehicle at its home node at its start time; no call met.
pub open spec fn initial_route(vehicle_details: Seq<[i32; 3]>, ncalls: int) -> Route {
    Route {
        car_pos: Seq::new(vehicle_details.len(), |i: int| vehicle_details[i][0]),
        car_times: Seq::new(vehicle_details.len(), |i: int| vehicle_details[i][1]),
        counter: Seq::new(ncalls as nat, |i: int| 0i32),
    }
}

/// The vehicle chosen to serve `call` in this state, with what serving it
/// gives.
pub open spec fn route_choice(
    r: Route,
    call: i32,
    node_costs: Seq<[i32; 5]>,
    call_details: Seq<[i32; 8]>,
    travel_costs: Seq<[i32; 4]>,
) -> Option<(int, InfoView)> {
    pick_vehicle(
        r.car_pos.len() as int,
        r.counter[call - 1] as int,
        r.car_pos,
        r.car_times,
        call as int,
        node_costs,
        call_details,
        travel_costs,
    )
}

/// The state after vehicle `v` has served `call` with the outcome `inf`.
pub open spec fn route_after(r: Route, call: i32, v: int, inf: InfoView) -> Route {
    Route {
        car_pos: r.car_pos.update(v, inf.to_node),
        car_times: r.car_times.update(v, inf.total_time),
        counter: r.counter.update(call - 1, (r.counter[call - 1] + 1) as i32),
    }
}

/// The state after the first `n` calls of the solution. When no vehicle can
/// serve a call, the run stops (`None`), or, when `lenient`, goes on with
/// the state unchanged.
pub open spec fn route_run(
    solution: Seq<i32>,
    n: int,
    lenient: bool,
    vehicle_details: Seq<[i32; 3]>,
    call_details: Seq<[i32; 8]>,
    travel_costs: Seq<[i32; 4]>,
    node_costs: Seq<[i32; 5]>,
) -> Option<Route>
    decreases n,
{
    if n <= 0 {
        Some(initial_route(vehicle_details, call_details.len() as int))
    } else {
        match route_run(solution, n - 1, lenient, vehicle_details, call_details, travel_costs, node_costs) {
            None => None,
            Some(r) => match route_choice(r, solution[n - 1], node_costs, call_details, travel_costs) {
                None => if lenient { Some(r) } else { None },
                Some((v, inf)) => Some(route_after(r, solution[n - 1], v, inf)),
            },
        }
    }
}

/// Serving `call` in this state raises no panic: when there are vehicles,
/// the call is a call of the instance and choosing the vehicle is safe.
pub open spec fn route_step_safe(
    r: Route,
    call: i32,
    node_costs: Seq<[i32; 5]>,
    call_details: Seq<[i32; 8]>,
    travel_costs: Seq<[i32; 4]>,
) -> bool {
    r.car_pos.len() > 0 ==> {
        &&& 1 <= call <= call_details.len()
        &&& pick_safe(r.car_pos.len() as int, r.counter[call - 1] as int, r.car_pos, r.car_times,
            call as int, node_costs, call_details, travel_costs)
    }
}

/// Serving the whole solution raises no panic.
pub open spec fn route_safe(
    solution: Seq<i32>,
    lenient: bool,
    vehicle_details: Seq<[i32; 3]>,
    call_details: Seq<[i32; 8]>,
    travel_costs: Seq<[i32; 4]>,
    node_costs: Seq<[i32; 5]>,
) -> bool {
    forall|k: int|
        #![trigger route_run(solution, k, lenient, vehicle_details, call_details, travel_costs, node_costs)]
        0 <= k < solution.len() ==> {
            route_run(solution, k, lenient, vehicle_details, call_details, travel_costs, node_costs) matches Some(r)
                ==> route_step_safe(r, solution[k], node_costs, call_details, travel_costs)
        }
}

/// Every state reached has one entry per vehicle and per call, and no call
/// met more than twice.
pub open spec fn route_shape(r: Route, nvehicles: int, ncalls: int) -> bool {
    &&& r.car_pos.len() == nvehicles
    &&& r.car_times.len() == nvehicles
    &&& r.counter.len() == ncalls
    &&& forall|i: int| 0 <= i < ncalls ==> 0 <= #[trigger] r.counter[i] <= 2
}

/// Every state the route run reaches has the shape of [`route_shape`].
pub(crate) proof fn lemma_route_shape(
    solution: Seq<i32>,
    n: int,
    lenient: bool,
    vehicle_details: Seq<[i32; 3]>,
    call_details: Seq<[i32; 8]>,
    travel_costs: Seq<[i32; 4]>,
    node_costs: Seq<[i32; 5]>,
)
    requires
        0 <= n <= solution.len(),
        route_safe(solution, lenient, vehicle_details, call_details, travel_costs, node_costs),
    ensures
        route_run(solution, n, lenient, vehicle_details, call_details, travel_costs, node_costs) matches Some(r)
            ==> route_shape(r, vehicle_details.len() as int, call_details.len() as int),
    decreases n,
{
    if n > 0 {
        lemma_route_shape(solution, n - 1, lenient, vehicle_details, call_details, travel_costs, node_costs);
        let prev = route_run(solution, n - 1, lenient, vehicle_details, call_details, travel_costs, node_costs);
        if prev is Some {
            let r = prev->Some_0;
            let call = solution[n - 1];
            let ch = route_choice(r, call, node_costs, call_details, travel_costs);
            if ch is Some {
                lemma_pick_vehicle_range(r.car_pos.len() as int, r.counter[call - 1] as int, r.car_pos,
                    r.car_times, call as int, node_costs, call_details, travel_costs);
                lemma_pick_count(r.car_pos.len() as int, r.counter[call - 1] as int, r.car_pos,
                    r.car_times, call as int, node_costs, call_details, travel_costs);
                assert(r.car_pos.len() > 0);
                assert(route_step_safe(r, call, node_costs, call_details, travel_costs));
            }
        }
    }
}


/// Home nodes and start times of the vehicles, and a counter of zeros for
/// the calls.
pub(crate) fn initial_state(vehicle_details: &[[i32; 3]], ncalls: usize) -> (r: (Vec<i32>, Vec<i32>, Vec<i32>))
    ensures
        r.0@ == initial_route(vehicle_details@, ncalls as int).car_pos,
        r.1@ == initial_route(vehicle_details@, ncalls as int).car_times,
        r.2@ == initial_route(vehicle_details@, ncalls as int).counter,
{
    let ghost r0 = initial_route(vehicle_details@, ncalls as int);
    let mut car_pos: Vec<i32> = Vec::new();
    let mut car_times: Vec<i32> = Vec::new();
    let mut vehicle_idx: usize = 0;
    while vehicle_idx < vehicle_details.len()
        invariant
            vehicle_idx <= vehicle_details@.len(),
            r0 == initial_route(vehicle_details@, ncalls as int),
            car_pos@ == r0.car_pos.take(vehicle_idx as int),
            car_times@ == r0.car_times.take(vehicle_idx as int),
        decreases vehicle_details@.len() - vehicle_idx,
    {
        let (vehicle_home, vehicle_start, _) = deconstruct_vehicle(vehicle_idx, vehicle_details);
        car_pos.push(vehicle_home);
        car_times.push(vehicle_start);
        vehicle_idx = vehicle_idx + 1;
        proof {
            assert(car_pos@ =~= r0.car_pos.take(vehicle_idx as int));
            assert(car_times@ =~= r0.car_times.take(vehicle_idx as int));
        }
    }
    let mut call_counter: Vec<i32> = Vec::new();
    let mut k: usize = 0;
    while k < ncalls
        invariant
            k <= ncalls,
            r0 == initial_route(vehicle_details@, ncalls as int),
            call_counter@ == r0.counter.take(k as int),
        decreases ncalls - k,
    {
        call_counter.push(0);
        k = k + 1;
        proof {
            assert(call_counter@ =~= r0.counter.take(k as int));
        }
    }
    proof {
        assert(car_pos@ =~= r0.car_pos);
        assert(car_times@ =~= r0.car_times);
        assert(call_counter@ =~= r0.counter);
    }
    (car_pos, car_times, call_counter)
}

/// Cost of serving the first `n` calls: each call served adds its cost
/// twice.
pub open spec fn cost_total(
    solution: Seq<i32>,
    n: int,
    vehicle_details: Seq<[i32; 3]>,
    call_details: Seq<[i32; 8]>,
    travel_costs: Seq<[i32; 4]>,
    node_costs: Seq<[i32; 5]>,
) -> int
    decreases n,
{
    if n <= 0 {
        0
    } else {
        let prev = cost_total(solution, n - 1, vehicle_details, call_details, travel_costs, node_costs);
        match route_run(solution, n - 1, false, vehicle_details, call_details, travel_costs, node_costs) {
            Some(r) => match route_choice(r, solution[n - 1], node_costs, call_details, travel_costs) {
                Some((v, inf)) => prev + inf.total_cost + inf.total_cost,
                None => prev,
            },
            None => prev,
        }
    }
}

/// Cost of a solution when every call can be served, else `None`.
pub open spec fn cost_spec(
    solution: Seq<i32>,
    vehicle_details: Seq<[i32; 3]>,
    call_details: Seq<[i32; 8]>,
    travel_costs: Seq<[i32; 4]>,
    node_costs: Seq<[i32; 5]>,
) -> Option<i32> {
    if route_run(solution, solution.len() as int, false, vehicle_details, call_details, travel_costs, node_costs) is Some {
        Some(cost_total(solution, solution.len() as int, vehicle_details, call_details, travel_costs, node_costs) as i32)
    } else {
        None
    }
}

/// Computing the cost raises no panic: serving is safe and every partial
/// sum of costs fits in an `i32`.
pub open spec fn cost_safe(
    solution: Seq<i32>,
    vehicle_details: Seq<[i32; 3]>,
    call_details: Seq<[i32; 8]>,
    travel_costs: Seq<[i32; 4]>,
    node_costs: Seq<[i32; 5]>,
) -> bool {
    &&& route_safe(solution, false, vehicle_details, call_details, travel_costs, node_costs)
    &&& forall|k: int|
        #![trigger route_run(solution, k, false, vehicle_details, call_details, travel_costs, node_costs)]
        0 <= k < solution.len() ==> {
            route_run(solution, k, false, vehicle_details, call_details, travel_costs, node_costs) matches Some(r)
                ==> (route_choice(r, solution[k], node_costs, call_details, travel_costs) matches Some(ch) ==> {
                let prev = cost_total(solution, k, vehicle_details, call_details, travel_costs, node_costs);
                &&& fits(prev + ch.1.total_cost)
                &&& fits(prev + ch.1.total_cost + ch.1.total_cost)
            })
        }
}

/// The instance's tables agree with each other and with the solution: the
/// travel table covers every vehicle and pair of nodes, the node table every
/// vehicle and call.
pub open spec fn instance_wf(
    vehicle_details: Seq<[i32; 3]>,
    call_details: Seq<[i32; 8]>,
    travel_costs: Seq<[i32; 4]>,
    node_costs: Seq<[i32; 5]>,
) -> bool {
    tables_fit(call_details, travel_costs, node_costs, vehicle_details.len() as int)
}

/// Cost of a solution: each call is served in turn by the fastest vehicle
/// that can serve it, and its cost counts twice. `None` when some call can
/// be served by no vehicle.
#[verifier::spinoff_prover]
#[verifier::rlimit(40)]
fn calculate_cost(
    solution: &[i32],
    vehicle_details: &[[i32; 3]],
    call_details: &[[i32; 8]],
    travel_costs: &[[i32; 4]],
    node_costs: &[[i32; 5]],
) -> (r: Option<i32>)
    requires
        instance_wf(vehicle_details@, call_details@, travel_costs@, node_costs@),
        cost_safe(solution@, vehicle_details@, call_details@, travel_costs@, node_costs@),
    ensures
        r == cost_spec(solution@, vehicle_details@, call_details@, travel_costs@, node_costs@),
{
    let ghost sol = solution@;
    let ghost vd = vehicle_details@;
    let ghost cd = call_details@;
    let ghost tc = travel_costs@;
    let ghost nc = node_costs@;
    let nvehicles = vehicle_details.len();
    let mut total_cost: i32 = 0;
    let (mut car_pos, mut car_times, mut call_counter) = initial_state(vehicle_details, call_details.len());
    let mut idx: usize = 0;
    while idx < solution.len()
        invariant
            sol == solution@,
            vd == vehicle_details@,
            cd == call_details@,
            tc == travel_costs@,
            nc == node_costs@,
            nvehicles == vd.len(),
            instance_wf(vd, cd, tc, nc),
            cost_safe(sol, vd, cd, tc, nc),
            idx <= sol.len(),
            route_run(sol, idx as int, false, vd, cd, tc, nc) == Some(
                Route { car_pos: car_pos@, car_times: car_times@, counter: call_counter@ },
            ),
            total_cost == cost_total(sol, idx as int, vd, cd, tc, nc),
        decreases sol.len() - idx,
    {
        let call = solution[idx];
        let ghost r = Route { car_pos: car_pos@, car_times: car_times@, counter: call_counter@ };
        proof {
            lemma_route_shape(sol, idx as int, false, vd, cd, tc, nc);
        }
        if nvehicles == 0 {
            proof {
                lemma_route_stops(sol, idx as int + 1, sol.len() as int, vd, cd, tc, nc);
            }
            return None;
        }
        proof {
            assert(route_step_safe(r, call, nc, cd, tc));
        }
        let mut car_info = CarInfo { vehicle_idx: 0, car_pos, car_times };
        let chosen = serve_call(&mut call_counter, &mut car_info, call, nvehicles, node_costs, call_details, travel_costs);
        car_pos = car_info.car_pos;
        car_times = car_info.car_times;
        match chosen {
            Some((vehicle_value, to_node_value, time_value, _delta, cost_value)) => {
                proof {
                    lemma_pick_vehicle_range(nvehicles as int, r.counter[call - 1] as int, r.car_pos, r.car_times,
                        call as int, nc, cd, tc);
                }
                car_times.set(vehicle_value, time_value);
                car_pos.set(vehicle_value, to_node_value);
                total_cost = total_cost + cost_value;
                total_cost = total_cost + cost_value;
                proof {
                    let r2 = route_after(r, call, vehicle_value as int, route_choice(r, call, nc, cd, tc)->Some_0.1);
                    assert(car_pos@ =~= r2.car_pos);
                    assert(car_times@ =~= r2.car_times);
                }
            },
            None => {
                proof {
                    lemma_route_stops(sol, idx as int + 1, sol.len() as int, vd, cd, tc, nc);
                }
                return None;
            },
        }
        idx = idx + 1;
    }
    Some(total_cost)
}

proof fn lemma_route_stops(
    solution: Seq<i32>,
    k: int,
    m: int,
    vehicle_details: Seq<[i32; 3]>,
    call_details: Seq<[i32; 8]>,
    travel_costs: Seq<[i32; 4]>,
    node_costs: Seq<[i32; 5]>,
)
    requires
        0 <= k <= m,
        route_run(solution, k, false, vehicle_details, call_details, travel_costs, node_costs) is None,
    ensures
        route_run(solution, m, false, vehicle_details, call_details, travel_costs, node_costs) is None,
    decreases m - k,
{
    if m > k {
        lemma_route_stops(solution, k, m - 1, vehicle_details, call_details, travel_costs, node_costs);
    }
}


/// Cost of serving entry `k` of the solution, in the state the entries
/// before it lead to.
pub open spec fn move_cost(
    solution: Seq<i32>,
    k: int,
    vehicle_details: Seq<[i32; 3]>,
    call_details: Seq<[i32; 8]>,
    travel_costs: Seq<[i32; 4]>,
    node_costs: Seq<[i32; 5]>,
) -> i32 {
    let r = route_run(solution, k, false, vehicle_details, call_details, travel_costs, node_costs)->Some_0;
    route_choice(r, solution[k], node_costs, call_details, travel_costs)->Some_0.1.total_cost
}

/// The cost of each entry of the solution paired with its position, when
/// every call can be served.
pub open spec fn move_costs_spec(
    solution: Seq<i32>,
    vehicle_details: Seq<[i32; 3]>,
    call_details: Seq<[i32; 8]>,
    travel_costs: Seq<[i32; 4]>,
    node_costs: Seq<[i32; 5]>,
) -> Option<Seq<Option<(i32, usize)>>> {
    if route_run(solution, solution.len() as int, false, vehicle_details, call_details, travel_costs, node_costs) is Some {
        Some(Seq::new(solution.len(), |k: int| Some((
            move_cost(solution, k, vehicle_details, call_details, travel_costs, node_costs),
            k as usize,
        ))))
    } else {
        None
    }
}

/// Total of the move costs of the first `n` entries.
pub open spec fn move_cost_sum(
    solution: Seq<i32>,
    n: int,
    vehicle_details: Seq<[i32; 3]>,
    call_details: Seq<[i32; 8]>,
    travel_costs: Seq<[i32; 4]>,
    node_costs: Seq<[i32; 5]>,
) -> int
    decreases n,
{
    if n <= 0 {
        0
    } else {
        move_cost_sum(solution, n - 1, vehicle_details, call_details, travel_costs, node_costs) + move_cost(
            solution,
            n - 1,
            vehicle_details,
            call_details,
            travel_costs,
            node_costs,
        )
    }
}

proof fn lemma_cost_total_twice(
    solution: Seq<i32>,
    n: int,
    vehicle_details: Seq<[i32; 3]>,
    call_details: Seq<[i32; 8]>,
    travel_costs: Seq<[i32; 4]>,
    node_costs: Seq<[i32; 5]>,
)
    requires
        0 <= n,
        route_run(solution, n, false, vehicle_details, call_details, travel_costs, node_costs) is Some,
    ensures
        cost_total(solution, n, vehicle_details, call_details, travel_costs, node_costs) == 2 * move_cost_sum(
            solution,
            n,
            vehicle_details,
            call_details,
            travel_costs,
            node_costs,
        ),
    decreases n,
{
    if n > 0 {
        lemma_cost_total_twice(solution, n - 1, vehicle_details, call_details, travel_costs, node_costs);
    }
}

/// The cost of a solution is known exactly when its move costs are, and it
/// is twice their total: each entry's cost is counted twice.
pub proof fn lemma_cost_is_twice_the_move_costs(
    solution: Seq<i32>,
    vehicle_details: Seq<[i32; 3]>,
    call_details: Seq<[i32; 8]>,
    travel_costs: Seq<[i32; 4]>,
    node_costs: Seq<[i32; 5]>,
)
    ensures
        (cost_spec(solution, vehicle_details, call_details, travel_costs, node_costs) is Some) == (move_costs_spec(
            solution,
            vehicle_details,
            call_details,
            travel_costs,
            node_costs,
        ) is Some),
        move_costs_spec(solution, vehicle_details, call_details, travel_costs, node_costs) is Some ==> cost_spec(
            solution,
            vehicle_details,
            call_details,
            travel_costs,
            node_costs,
        ) == Some((2 * move_cost_sum(solution, solution.len() as int, vehicle_details, call_details, travel_costs,
            node_costs)) as i32),
{
    if route_run(solution, solution.len() as int, false, vehicle_details, call_details, travel_costs, node_costs) is Some {
        lemma_cost_total_twice(solution, solution.len() as int, vehicle_details, call_details, travel_costs, node_costs);
    }
}

/// The cost of each entry of the solution, paired with its position, as the
/// entries are served in turn by the fastest vehicle; `None` when some call
/// can be served by no vehicle.
fn get_move_costs(
    solution: &[i32],
    vehicle_details: &[[i32; 3]],
    call_details: &[[i32; 8]],
    travel_costs: &[[i32; 4]],
    node_costs: &[[i32; 5]],
) -> (r: Option<Vec<Option<(i32, usize)>>>)
    requires
        instance_wf(vehicle_details@, call_details@, travel_costs@, node_costs@),
        route_safe(solution@, false, vehicle_details@, call_details@, travel_costs@, node_costs@),
    ensures
        match r {
            None => move_costs_spec(solution@, vehicle_details@, call_details@, travel_costs@, node_costs@) is None,
            Some(v) => move_costs_spec(solution@, vehicle_details@, call_details@, travel_costs@, node_costs@)
                == Some(v@),
        },
{
    let ghost sol = solution@;
    let ghost vd = vehicle_details@;
    let ghost cd = call_details@;
    let ghost tc = travel_costs@;
    let ghost nc = node_costs@;
    let nvehicles = vehicle_details.len();
    let (mut car_pos, mut car_times, mut call_counter) = initial_state(vehicle_details, call_details.len());
    let mut cost_order: Vec<Option<(i32, usize)>> = Vec::new();
    let mut call_idx: usize = 0;
    while call_idx < solution.len()
        invariant
            sol == solution@,
            vd == vehicle_details@,
            cd == call_details@,
            tc == travel_costs@,
            nc == node_costs@,
            nvehicles == vd.len(),
            instance_wf(vd, cd, tc, nc),
            route_safe(sol, false, vd, cd, tc, nc),
            call_idx <= sol.len(),
            route_run(sol, call_idx as int, false, vd, cd, tc, nc) == Some(
                Route { car_pos: car_pos@, car_times: car_times@, counter: call_counter@ },
            ),
            cost_order@.len() == call_idx,
            forall|k: int| 0 <= k < call_idx ==> #[trigger] cost_order@[k] == Some((
                move_cost(sol, k, vd, cd, tc, nc), k as usize)),
        decreases sol.len() - call_idx,
    {
        let call = solution[call_idx];
        let ghost r = Route { car_pos: car_pos@, car_times: car_times@, counter: call_counter@ };
        proof {
            lemma_route_shape(sol, call_idx as int, false, vd, cd, tc, nc);
        }
        if nvehicles == 0 {
            proof {
                lemma_route_stops(sol, call_idx as int + 1, sol.len() as int, vd, cd, tc, nc);
            }
            return None;
        }
        proof {
            assert(route_step_safe(r, call, nc, cd, tc));
        }
        let mut car_info = CarInfo { vehicle_idx: 0, car_pos, car_times };
        let chosen = serve_call(&mut call_counter, &mut car_info, call, nvehicles, node_costs, call_details, travel_costs);
        car_pos = car_info.car_pos;
        car_times = car_info.car_times;
        match chosen {
            Some((vehicle_value, to_node_value, time_value, _delta, cost_value)) => {
                proof {
                    lemma_pick_vehicle_range(nvehicles as int, r.counter[call - 1] as int, r.car_pos, r.car_times,
                        call as int, nc, cd, tc);
                }
                car_times.set(vehicle_value, time_value);
                car_pos.set(vehicle_value, to_node_value);
                cost_order.push(Some((cost_value, call_idx)));
                proof {
                    let r2 = route_after(r, call, vehicle_value as int, route_choice(r, call, nc, cd, tc)->Some_0.1);
                    assert(car_pos@ =~= r2.car_pos);
                    assert(car_times@ =~= r2.car_times);
                }
            },
            None => {
                proof {
                    lemma_route_stops(sol, call_idx as int + 1, sol.len() as int, vd, cd, tc, nc);
                }
                return None;
            },
        }
        call_idx = call_idx + 1;
    }
    proof {
        let s = move_costs_spec(sol, vd, cd, tc, nc)->Some_0;
        assert(cost_order@ =~= s);
    }
    Some(cost_order)
}


/// The order in which calls are sorted by cost: entries without a cost come
/// first.
pub open spec fn cost_key(x: Option<(i32, usize)>) -> int {
    match x {
        None => i32::MIN - 1,
        Some((c, _)) => c as int,
    }
}

/// The entries are in order of cost.
pub open spec fn sorted_by_cost(s: Seq<Option<(i32, usize)>>) -> bool {
    forall|p: int, q: int| 0 <= p < q < s.len() ==> cost_key(#[trigger] s[p]) <= cost_key(#[trigger] s[q])
}

proof fn lemma_swap_multiset<A>(s: Seq<A>, i: int, j: int)
    requires
        0 <= i < s.len(),
        0 <= j < s.len(),
    ensures
        s.update(i, s[j]).update(j, s[i]).to_multiset() == s.to_multiset(),
{
    broadcast use vstd::seq_lib::to_multiset_update;
    broadcast use vstd::multiset::group_multiset_properties;
    let s1 = s.update(i, s[j]);
    assert(s1.to_multiset() == s.to_multiset().insert(s[j]).remove(s[i]));
    assert(s1.update(j, s[i]).to_multiset() == s1.to_multiset().insert(s[i]).remove(s1[j]));
    if i == j {
        assert(s.update(i, s[j]).update(j, s[i]) =~= s);
    } else {
        assert(s1[j] == s[j]);
        broadcast use vstd::seq_lib::to_multiset_contains;
        broadcast use vstd::multiset::group_multiset_axioms;
        assert(s.contains(s[i]));
        let m = s.to_multiset();
        assert(m.count(s[i]) > 0);
        assert(m.insert(s[j]).remove(s[i]).insert(s[i]).remove(s[j]) =~= m);
    }
}

/// The first entry comes after the second in order of cost.
fn cost_greater(a: Option<(i32, usize)>, b: Option<(i32, usize)>) -> (r: bool)
    ensures
        r == (cost_key(a) > cost_key(b)),
{
    match (a, b) {
        (None, None) => false,
        (_, None) => true,
        (None, _) => false,
        (Some((x1, _)), Some((y1, _))) => x1 > y1,
    }
}

/// Entry `a` comes before entry `b` when its cost is lower, or the costs
/// are equal and `a` stood earlier in the solution.
pub open spec fn comes_before(a: Option<(i32, usize)>, b: Option<(i32, usize)>) -> bool {
    ||| cost_key(a) < cost_key(b)
    ||| cost_key(a) == cost_key(b) && a->Some_0.1 < b->Some_0.1
}

/// Puts entries in order of cost, keeping the entries; entries of equal
/// cost keep their order. Every entry has a cost and holds its position.
fn sort_by_cost(call_costs: &mut Vec<Option<(i32, usize)>>)
    requires
        forall|k: int| 0 <= k < old(call_costs)@.len() ==> #[trigger] old(call_costs)@[k] is Some
            && old(call_costs)@[k]->Some_0.1 == k,
    ensures
        final(call_costs)@.to_multiset() == old(call_costs)@.to_multiset(),
        final(call_costs)@.len() == old(call_costs)@.len(),
        sorted_by_cost(final(call_costs)@),
        forall|p: int, q: int| 0 <= p < q < final(call_costs)@.len() ==> comes_before(
            #[trigger] final(call_costs)@[p],
            #[trigger] final(call_costs)@[q],
        ),
{
    let n = call_costs.len();
    let ghost orig = call_costs@;
    let mut i: usize = 1;
    if n == 0 {
        return;
    }
    while i < n
        invariant
            1 <= i <= n,
            n == call_costs@.len(),
            n == orig.len(),
            call_costs@.to_multiset() == orig.to_multiset(),
            forall|k: int| 0 <= k < n ==> #[trigger] orig[k] is Some && orig[k]->Some_0.1 == k,
            forall|k: int| i <= k < n ==> #[trigger] call_costs@[k] == orig[k],
            forall|k: int| 0 <= k < i ==> #[trigger] call_costs@[k] is Some && call_costs@[k]->Some_0.1 < i,
            forall|p: int, q: int| 0 <= p < q < i ==> comes_before(#[trigger] call_costs@[p], #[trigger] call_costs@[q]),
        decreases n - i,
    {
        let mut j: usize = i;
        proof {
            assert(call_costs@[i as int] == orig[i as int]);
        }
        while j > 0 && cost_greater(call_costs[j - 1], call_costs[j])
            invariant
                1 <= i < n,
                j <= i,
                n == call_costs@.len(),
                n == orig.len(),
                call_costs@.to_multiset() == orig.to_multiset(),
                forall|k: int| 0 <= k < n ==> #[trigger] orig[k] is Some && orig[k]->Some_0.1 == k,
                forall|k: int| i < k < n ==> #[trigger] call_costs@[k] == orig[k],
                call_costs@[j as int] is Some && call_costs@[j as int]->Some_0.1 == i,
                forall|k: int| 0 <= k <= i && k != j ==> #[trigger] call_costs@[k] is Some && call_costs@[k]->Some_0.1
                    < i,
                forall|p: int, q: int|
                    0 <= p < q <= i && p != j && q != j ==> comes_before(#[trigger] call_costs@[p], #[trigger] call_costs@[q]),
                forall|q: int| j < q <= i ==> cost_key(call_costs@[j as int]) < cost_key(#[trigger] call_costs@[q]),
            decreases j,
        {
            let ghost before = call_costs@;
            let a = call_costs[j - 1];
            let b = call_costs[j];
            call_costs.set(j - 1, b);
            call_costs.set(j, a);
            proof {
                lemma_swap_multiset(before, j - 1, j as int);
                assert(call_costs@ =~= before.update(j - 1, before[j as int]).update(j as int, before[j - 1]));
            }
            j = j - 1;
        }
        proof {
            assert forall|p: int, q: int| 0 <= p < q < i + 1 implies comes_before(
                #[trigger] call_costs@[p],
                #[trigger] call_costs@[q],
            ) by {
                if q == j as int && p < q {
                    assert(comes_before(call_costs@[p], call_costs@[j - 1]) || p == j - 1);
                    assert(cost_key(call_costs@[j - 1]) <= cost_key(call_costs@[j as int]));
                }
            }
        }
        i = i + 1;
    }
    proof {
        assert forall|p: int, q: int| 0 <= p < q < call_costs@.len() implies cost_key(#[trigger] call_costs@[p])
            <= cost_key(#[trigger] call_costs@[q]) by {
            assert(comes_before(call_costs@[p], call_costs@[q]));
        }
    }
}

/// The entries of the solution, paired with their costs, in order of cost.
/// Panics (through `expect`) when some call can be served by no vehicle.
fn sort_call_by_cost(
    solution: &[i32],
    vehicle_details: &[[i32; 3]],
    call_details: &[[i32; 8]],
    travel_costs: &[[i32; 4]],
    node_costs: &[[i32; 5]],
) -> (r: Vec<Option<(i32, usize)>>)
    requires
        instance_wf(vehicle_details@, call_details@, travel_costs@, node_costs@),
        route_safe(solution@, false, vehicle_details@, call_details@, travel_costs@, node_costs@),
        move_costs_spec(solution@, vehicle_details@, call_details@, travel_costs@, node_costs@) is Some,
    ensures
        r@.to_multiset() == move_costs_spec(solution@, vehicle_details@, call_details@, travel_costs@,
            node_costs@)->Some_0.to_multiset(),
        r@.len() == solution@.len(),
        sorted_by_cost(r@),
        forall|p: int, q: int| 0 <= p < q < r@.len() ==> comes_before(#[trigger] r@[p], #[trigger] r@[q]),
{
    let mut call_costs = get_move_costs(solution, vehicle_details, call_details, travel_costs, node_costs).unwrap();
    let len = call_costs.len();
    proof {
        assert forall|k: int| 0 <= k < call_costs@.len() implies #[trigger] call_costs@[k] is Some
            && call_costs@[k]->Some_0.1 == k by {
            assert(call_costs@[k] == Some((move_cost(solution@, k, vehicle_details@, call_details@, travel_costs@,
                node_costs@), k as usize)));
            assert(k < len);
            assert((k as usize) as int == k);
        }
    }
    sort_by_cost(&mut call_costs);
    call_costs
}

/// Two sequences with the same entries: when every entry of the second has
/// a cost, so has every entry of the first.
proof fn lemma_same_entries_all_some(s: Seq<Option<(i32, usize)>>, t: Seq<Option<(i32, usize)>>)
    requires
        s.to_multiset() == t.to_multiset(),
        forall|k: int| 0 <= k < t.len() ==> (#[trigger] t[k]) is Some,
    ensures
        forall|k: int| 0 <= k < s.len() ==> (#[trigger] s[k]) is Some,
{
    broadcast use vstd::seq_lib::to_multiset_contains;
    assert forall|k: int| 0 <= k < s.len() implies (#[trigger] s[k]) is Some by {
        assert(s.contains(s[k]));
        assert(t.to_multiset().count(s[k]) > 0);
        assert(t.contains(s[k]));
        let q = choose|q: int| 0 <= q < t.len() && t[q] == s[k];
        assert(t[q] is Some);
    }
}

/// What the pass over pairs of positions tracks: the solution with every
/// swap so far applied, the best solution kept, and its cost.
pub struct SwapState {
    pub temp: Seq<i32>,
    pub best: Seq<i32>,
    pub total: i32,
}

/// One step of the pass: positions `i` and `j` of the running solution are
/// swapped; when the cost of the kept solution is known and no higher than
/// the cost kept, the swapped solution is kept with that cost.
pub open spec fn swap_step(
    st: SwapState,
    i: int,
    j: int,
    vehicle_details: Seq<[i32; 3]>,
    call_details: Seq<[i32; 8]>,
    travel_costs: Seq<[i32; 4]>,
    node_costs: Seq<[i32; 5]>,
) -> SwapState {
    let t = st.temp.update(i, st.temp[j]).update(j, st.temp[i]);
    match cost_spec(st.best, vehicle_details, call_details, travel_costs, node_costs) {
        Some(c) => if c <= st.total {
            SwapState { temp: t, best: t, total: c }
        } else {
            SwapState { temp: t, best: st.best, total: st.total }
        },
        None => SwapState { temp: t, best: st.best, total: st.total },
    }
}

/// The steps for `i` and every `j` from `j` up to `n`.
pub open spec fn swap_inner(
    st: SwapState,
    i: int,
    j: int,
    n: int,
    vehicle_details: Seq<[i32; 3]>,
    call_details: Seq<[i32; 8]>,
    travel_costs: Seq<[i32; 4]>,
    node_costs: Seq<[i32; 5]>,
) -> SwapState
    decreases n - j,
{
    if j >= n {
        st
    } else {
        swap_inner(
            swap_step(st, i, j, vehicle_details, call_details, travel_costs, node_costs),
            i,
            j + 1,
            n,
            vehicle_details,
            call_details,
            travel_costs,
            node_costs,
        )
    }
}

/// The steps for every pair `i < j < n`, from `i` on.
pub open spec fn swap_outer(
    st: SwapState,
    i: int,
    n: int,
    vehicle_details: Seq<[i32; 3]>,
    call_details: Seq<[i32; 8]>,
    travel_costs: Seq<[i32; 4]>,
    node_costs: Seq<[i32; 5]>,
) -> SwapState
    decreases n - i,
{
    if i + 1 >= n {
        st
    } else {
        swap_outer(
            swap_inner(st, i, i + 1, n, vehicle_details, call_details, travel_costs, node_costs),
            i + 1,
            n,
            vehicle_details,
            call_details,
            travel_costs,
            node_costs,
        )
    }
}

/// Every cost computed during the steps for `i` from `j` on can be computed
/// without a panic.
pub open spec fn swap_inner_safe(
    st: SwapState,
    i: int,
    j: int,
    n: int,
    vehicle_details: Seq<[i32; 3]>,
    call_details: Seq<[i32; 8]>,
    travel_costs: Seq<[i32; 4]>,
    node_costs: Seq<[i32; 5]>,
) -> bool
    decreases n - j,
{
    j >= n || {
        &&& cost_safe(st.best, vehicle_details, call_details, travel_costs, node_costs)
        &&& swap_inner_safe(
            swap_step(st, i, j, vehicle_details, call_details, travel_costs, node_costs),
            i,
            j + 1,
            n,
            vehicle_details,
            call_details,
            travel_costs,
            node_costs,
        )
    }
}

/// Every cost computed during the pass from `i` on can be computed without
/// a panic.
pub open spec fn swap_outer_safe(
    st: SwapState,
    i: int,
    n: int,
    vehicle_details: Seq<[i32; 3]>,
    call_details: Seq<[i32; 8]>,
    travel_costs: Seq<[i32; 4]>,
    node_costs: Seq<[i32; 5]>,
) -> bool
    decreases n - i,
{
    i + 1 >= n || {
        &&& swap_inner_safe(st, i, i + 1, n, vehicle_details, call_details, travel_costs, node_costs)
        &&& swap_outer_safe(
            swap_inner(st, i, i + 1, n, vehicle_details, call_details, travel_costs, node_costs),
            i + 1,
            n,
            vehicle_details,
            call_details,
            travel_costs,
            node_costs,
        )
    }
}

/// Solution and cost that the pass over all pairs of positions leaves.
pub open spec fn swap_most_expensive_spec(
    solution: Seq<i32>,
    cost: i32,
    vehicle_details: Seq<[i32; 3]>,
    call_details: Seq<[i32; 8]>,
    travel_costs: Seq<[i32; 4]>,
    node_costs: Seq<[i32; 5]>,
) -> (Seq<i32>, i32) {
    let f = swap_outer(
        SwapState { temp: solution, best: solution, total: cost },
        0,
        solution.len() as int,
        vehicle_details,
        call_details,
        travel_costs,
        node_costs,
    );
    (f.best, f.total)
}

/// Tries the swaps of every pair of positions `i < j`, in order, on a
/// running copy of the solution, and keeps the running copy whenever the
/// cost of the solution kept so far is no higher than the cost kept. The
/// entries are first sorted by cost; no entry lacks a cost, so the pass
/// always runs to the end.
pub fn swap_most_expensive_calls(
    current_solution: &[i32],
    current_cost: &i32,
    vehicle_details: &[[i32; 3]],
    call_details: &[[i32; 8]],
    travel_costs: &[[i32; 4]],
    node_costs: &[[i32; 5]],
) -> (r: (Vec<i32>, i32))
    requires
        instance_wf(vehicle_details@, call_details@, travel_costs@, node_costs@),
        current_solution@.len() >= 2,
        route_safe(current_solution@, false, vehicle_details@, call_details@, travel_costs@, node_costs@),
        move_costs_spec(current_solution@, vehicle_details@, call_details@, travel_costs@, node_costs@) is Some,
        swap_outer_safe(
            SwapState { temp: current_solution@, best: current_solution@, total: *current_cost },
            0,
            current_solution@.len() as int,
            vehicle_details@,
            call_details@,
            travel_costs@,
            node_costs@,
        ),
    ensures
        (r.0@, r.1) == swap_most_expensive_spec(current_solution@, *current_cost, vehicle_details@,
            call_details@, travel_costs@, node_costs@),
{
    let ghost vd = vehicle_details@;
    let ghost cd = call_details@;
    let ghost tc = travel_costs@;
    let ghost nc = node_costs@;
    let ghost n = current_solution@.len() as int;
    let ghost target = swap_outer(
        SwapState { temp: current_solution@, best: current_solution@, total: *current_cost },
        0,
        n,
        vd,
        cd,
        tc,
        nc,
    );
    let mut new_solution = vstd::slice::slice_to_vec(current_solution);
    let sorted_call_costs = sort_call_by_cost(current_solution, vehicle_details, call_details, travel_costs, node_costs);
    proof {
        let mc = move_costs_spec(current_solution@, vd, cd, tc, nc)->Some_0;
        assert forall|k: int| 0 <= k < mc.len() implies (#[trigger] mc[k]) is Some by {}
        lemma_same_entries_all_some(sorted_call_costs@, mc);
    }
    let mut total_cost = *current_cost;
    if sorted_call_costs[0].is_none() || sorted_call_costs[1].is_none() {
        return (new_solution, total_cost);
    }
    let mut temp_solution = vstd::slice::slice_to_vec(new_solution.as_slice());
    let len = current_solution.len();
    let mut i: usize = 0;
    while i < len - 1
        invariant
            vd == vehicle_details@,
            cd == call_details@,
            tc == travel_costs@,
            nc == node_costs@,
            n == len,
            len >= 2,
            i <= len - 1,
            instance_wf(vd, cd, tc, nc),
            sorted_call_costs@.len() == len,
            forall|k: int| 0 <= k < len ==> (#[trigger] sorted_call_costs@[k]) is Some,
            temp_solution@.len() == len,
            swap_outer(SwapState { temp: temp_solution@, best: new_solution@, total: total_cost }, i as int, n,
                vd, cd, tc, nc) == target,
            swap_outer_safe(SwapState { temp: temp_solution@, best: new_solution@, total: total_cost }, i as int,
                n, vd, cd, tc, nc),
        decreases len - i,
    {
        let mut j: usize = i + 1;
        while j < len
            invariant
                vd == vehicle_details@,
                cd == call_details@,
                tc == travel_costs@,
                nc == node_costs@,
                n == len,
                len >= 2,
                i < len - 1,
                i + 1 <= j <= len,
                instance_wf(vd, cd, tc, nc),
                sorted_call_costs@.len() == len,
                forall|k: int| 0 <= k < len ==> (#[trigger] sorted_call_costs@[k]) is Some,
                temp_solution@.len() == len,
                swap_outer(
                    swap_inner(SwapState { temp: temp_solution@, best: new_solution@, total: total_cost }, i as int,
                        j as int, n, vd, cd, tc, nc),
                    i + 1,
                    n,
                    vd,
                    cd,
                    tc,
                    nc,
                ) == target,
                swap_inner_safe(SwapState { temp: temp_solution@, best: new_solution@, total: total_cost },
                    i as int, j as int, n, vd, cd, tc, nc),
                swap_outer_safe(
                    swap_inner(SwapState { temp: temp_solution@, best: new_solution@, total: total_cost }, i as int,
                        j as int, n, vd, cd, tc, nc),
                    i + 1,
                    n,
                    vd,
                    cd,
                    tc,
                    nc,
                ),
            decreases len - j,
        {
            let pair_a = sorted_call_costs[i];
            let pair_b = sorted_call_costs[j];
            if pair_a.is_none() || pair_b.is_none() {
                proof {
                    assert(sorted_call_costs@[i as int] is Some);
                    assert(sorted_call_costs@[j as int] is Some);
                }
                return (new_solution, total_cost);
            }
            let ghost st = SwapState { temp: temp_solution@, best: new_solution@, total: total_cost };
            let a = temp_solution[i];
            let b = temp_solution[j];
            temp_solution.set(i, b);
            temp_solution.set(j, a);
            proof {
                assert(temp_solution@ =~= st.temp.update(i as int, st.temp[j as int]).update(j as int, st.temp[i as int]));
            }
            match calculate_cost(new_solution.as_slice(), vehicle_details, call_details, travel_costs, node_costs) {
                None => {},
                Some(temp_cost) => {
                    if temp_cost <= total_cost {
                        total_cost = temp_cost;
                        new_solution = vstd::slice::slice_to_vec(temp_solution.as_slice());
                    }
                },
            }
            j = j + 1;
        }
        i = i + 1;
    }
    (new_solution, total_cost)
}


/// The pass keeps permutations of the original solution and never raises the
/// cost kept.
proof fn lemma_swap_inner_keeps(
    st: SwapState,
    i: int,
    j: int,
    n: int,
    orig: Seq<i32>,
    vehicle_details: Seq<[i32; 3]>,
    call_details: Seq<[i32; 8]>,
    travel_costs: Seq<[i32; 4]>,
    node_costs: Seq<[i32; 5]>,
)
    requires
        0 <= i < n,
        i < j,
        st.temp.len() == n,
        st.temp.to_multiset() == orig.to_multiset(),
        st.best.to_multiset() == orig.to_multiset(),
    ensures
        ({
            let f = swap_inner(st, i, j, n, vehicle_details, call_details, travel_costs, node_costs);
            &&& f.temp.len() == n
            &&& f.temp.to_multiset() == orig.to_multiset()
            &&& f.best.to_multiset() == orig.to_multiset()
            &&& f.total <= st.total
        }),
    decreases n - j,
{
    if j < n {
        let st2 = swap_step(st, i, j, vehicle_details, call_details, travel_costs, node_costs);
        lemma_swap_multiset(st.temp, i, j);
        lemma_swap_inner_keeps(st2, i, j + 1, n, orig, vehicle_details, call_details, travel_costs, node_costs);
    }
}

proof fn lemma_swap_outer_keeps(
    st: SwapState,
    i: int,
    n: int,
    orig: Seq<i32>,
    vehicle_details: Seq<[i32; 3]>,
    call_details: Seq<[i32; 8]>,
    travel_costs: Seq<[i32; 4]>,
    node_costs: Seq<[i32; 5]>,
)
    requires
        0 <= i,
        st.temp.len() == n,
        st.temp.to_multiset() == orig.to_multiset(),
        st.best.to_multiset() == orig.to_multiset(),
    ensures
        ({
            let f = swap_outer(st, i, n, vehicle_details, call_details, travel_costs, node_costs);
            &&& f.best.to_multiset() == orig.to_multiset()
            &&& f.total <= st.total
        }),
    decreases n - i,
{
    if i + 1 < n {
        let st2 = swap_inner(st, i, i + 1, n, vehicle_details, call_details, travel_costs, node_costs);
        lemma_swap_inner_keeps(st, i, i + 1, n, orig, vehicle_details, call_details, travel_costs, node_costs);
        lemma_swap_outer_keeps(st2, i + 1, n, orig, vehicle_details, call_details, travel_costs, node_costs);
    }
}

/// Swapping the most expensive calls returns a reordering of the solution it
/// was given, with a cost no higher than the cost it was given.
pub proof fn lemma_swap_most_expensive_reorders_and_never_costs_more(
    solution: Seq<i32>,
    cost: i32,
    vehicle_details: Seq<[i32; 3]>,
    call_details: Seq<[i32; 8]>,
    travel_costs: Seq<[i32; 4]>,
    node_costs: Seq<[i32; 5]>,
)
    ensures
        ({
            let (s, c) = swap_most_expensive_spec(solution, cost, vehicle_details, call_details, travel_costs,
                node_costs);
            &&& s.to_multiset() == solution.to_multiset()
            &&& c <= cost
        }),
{
    lemma_swap_outer_keeps(
        SwapState { temp: solution, best: solution, total: cost },
        0,
        solution.len() as int,
        solution,
        vehicle_details,
        call_details,
        travel_costs,
        node_costs,
    );
}


/// When the solution's own cost is known, the pass ends with a cost no
/// higher than it either: the first step weighs the solution itself.
pub proof fn lemma_swap_most_expensive_never_costs_more_than_its_solution(
    solution: Seq<i32>,
    cost: i32,
    vehicle_details: Seq<[i32; 3]>,
    call_details: Seq<[i32; 8]>,
    travel_costs: Seq<[i32; 4]>,
    node_costs: Seq<[i32; 5]>,
)
    requires
        solution.len() >= 2,
        cost_spec(solution, vehicle_details, call_details, travel_costs, node_costs) is Some,
    ensures
        swap_most_expensive_spec(solution, cost, vehicle_details, call_details, travel_costs, node_costs).1
            <= cost_spec(solution, vehicle_details, call_details, travel_costs, node_costs)->Some_0,
{
    let n = solution.len() as int;
    let st0 = SwapState { temp: solution, best: solution, total: cost };
    let st1 = swap_step(st0, 0, 1, vehicle_details, call_details, travel_costs, node_costs);
    lemma_swap_multiset(solution, 0, 1);
    lemma_swap_inner_keeps(st1, 0, 2, n, solution, vehicle_details, call_details, travel_costs, node_costs);
    let st2 = swap_inner(st1, 0, 2, n, vehicle_details, call_details, travel_costs, node_costs);
    assert(swap_inner(st0, 0, 1, n, vehicle_details, call_details, travel_costs, node_costs) == st2);
    lemma_swap_outer_keeps(st2, 1, n, solution, vehicle_details, call_details, travel_costs, node_costs);
}

/// Keeping the better of the best solution and a candidate never raises a
/// known cost, and keeps the calls when the candidate holds the same calls:
/// over any number of search rounds the best cost only falls and the best
/// solution stays a reordering of the first.
pub proof fn lemma_keep_better_never_raises(best: (Seq<i32>, Option<i32>), candidate: (Seq<i32>, Option<i32>))
    ensures
        best.1 is Some ==> keep_better(best, candidate).1 is Some && keep_better(best, candidate).1->Some_0
            <= best.1->Some_0,
        candidate.0.to_multiset() == best.0.to_multiset() ==> keep_better(best, candidate).0.to_multiset()
            == best.0.to_multiset(),
{
}

/// The call taken so far by the naive solver, the vehicle serving it, and
/// what serving it gives.
pub type Taken = Option<(int, int, InfoView)>;

/// Considering call `call` for vehicle `v`: the call counts as met once more
/// when it is the one taken so far; it is taken when nothing is taken yet or
/// when it is faster than what is taken.
pub open spec fn naive_consider(
    acc: Taken,
    v: int,
    call: int,
    base: Seq<i32>,
    car_pos: Seq<i32>,
    car_times: Seq<i32>,
    node_costs: Seq<[i32; 5]>,
    call_details: Seq<[i32; 8]>,
    travel_costs: Seq<[i32; 4]>,
) -> Taken {
    let count = base[call - 1] + if acc matches Some(p) && p.0 == call { 1int } else { 0int };
    match info_spec(count, car_pos, car_times, v, call, node_costs, call_details, travel_costs) {
        None => acc,
        Some(inf) => if acc is None || is_faster_spec(inf, Some(acc->Some_0.2.time_delta)) {
            Some((call, v, inf))
        } else {
            acc
        },
    }
}

/// The count with which call `call` is considered for vehicle `v`.
pub open spec fn naive_count(acc: Taken, call: int, base: Seq<i32>) -> int {
    base[call - 1] + if acc matches Some(p) && p.0 == call { 1int } else { 0int }
}

/// Considering the calls from `call` to the last for vehicle `v`.
pub open spec fn naive_calls(
    acc: Taken,
    v: int,
    call: int,
    base: Seq<i32>,
    car_pos: Seq<i32>,
    car_times: Seq<i32>,
    node_costs: Seq<[i32; 5]>,
    call_details: Seq<[i32; 8]>,
    travel_costs: Seq<[i32; 4]>,
) -> Taken
    decreases call_details.len() + 1 - call,
{
    if call > call_details.len() || call < 1 {
        acc
    } else {
        naive_calls(
            naive_consider(acc, v, call, base, car_pos, car_times, node_costs, call_details, travel_costs),
            v,
            call + 1,
            base,
            car_pos,
            car_times,
            node_costs,
            call_details,
            travel_costs,
        )
    }
}

/// Considering every call for the vehicles from `v` on.
pub open spec fn naive_vehicles(
    acc: Taken,
    v: int,
    base: Seq<i32>,
    car_pos: Seq<i32>,
    car_times: Seq<i32>,
    node_costs: Seq<[i32; 5]>,
    call_details: Seq<[i32; 8]>,
    travel_costs: Seq<[i32; 4]>,
) -> Taken
    decreases car_pos.len() - v,
{
    if v >= car_pos.len() || v < 0 {
        acc
    } else {
        naive_vehicles(
            naive_calls(acc, v, 1, base, car_pos, car_times, node_costs, call_details, travel_costs),
            v + 1,
            base,
            car_pos,
            car_times,
            node_costs,
            call_details,
            travel_costs,
        )
    }
}

/// Considering the calls from `call` on for vehicle `v` raises no panic.
pub open spec fn naive_calls_safe(
    acc: Taken,
    v: int,
    call: int,
    base: Seq<i32>,
    car_pos: Seq<i32>,
    car_times: Seq<i32>,
    node_costs: Seq<[i32; 5]>,
    call_details: Seq<[i32; 8]>,
    travel_costs: Seq<[i32; 4]>,
) -> bool
    decreases call_details.len() + 1 - call,
{
    call > call_details.len() || call < 1 || {
        &&& info_safe(naive_count(acc, call, base), car_pos, car_times, v, call, node_costs, call_details,
            travel_costs)
        &&& naive_calls_safe(
            naive_consider(acc, v, call, base, car_pos, car_times, node_costs, call_details, travel_costs),
            v,
            call + 1,
            base,
            car_pos,
            car_times,
            node_costs,
            call_details,
            travel_costs,
        )
    }
}

/// Considering every call for the vehicles from `v` on raises no panic.
pub open spec fn naive_vehicles_safe(
    acc: Taken,
    v: int,
    base: Seq<i32>,
    car_pos: Seq<i32>,
    car_times: Seq<i32>,
    node_costs: Seq<[i32; 5]>,
    call_details: Seq<[i32; 8]>,
    travel_costs: Seq<[i32; 4]>,
) -> bool
    decreases car_pos.len() - v,
{
    v >= car_pos.len() || v < 0 || {
        &&& naive_calls_safe(acc, v, 1, base, car_pos, car_times, node_costs, call_details, travel_costs)
        &&& naive_vehicles_safe(
            naive_calls(acc, v, 1, base, car_pos, car_times, node_costs, call_details, travel_costs),
            v + 1,
            base,
            car_pos,
            car_times,
            node_costs,
            call_details,
            travel_costs,
        )
    }
}

/// What the naive solver has built: where the vehicles stand and when they
/// are free, how often each call has been met, the entries chosen so far and
/// their cost.
pub struct NaiveState {
    pub car_pos: Seq<i32>,
    pub car_times: Seq<i32>,
    pub counter: Seq<i32>,
    pub chosen: Seq<i32>,
    pub total: int,
}

/// The call and vehicle that the naive solver takes next in this state.
pub open spec fn naive_choice(
    st: NaiveState,
    node_costs: Seq<[i32; 5]>,
    call_details: Seq<[i32; 8]>,
    travel_costs: Seq<[i32; 4]>,
) -> Taken {
    naive_vehicles(None, 0, st.counter, st.car_pos, st.car_times, node_costs, call_details, travel_costs)
}

/// The state after `n` entries have been chosen; every choice counts its
/// cost twice.
pub open spec fn naive_run(
    n: int,
    vehicle_details: Seq<[i32; 3]>,
    call_details: Seq<[i32; 8]>,
    travel_costs: Seq<[i32; 4]>,
    node_costs: Seq<[i32; 5]>,
) -> NaiveState
    decreases n,
{
    if n <= 0 {
        let r = initial_route(vehicle_details, call_details.len() as int);
        NaiveState { car_pos: r.car_pos, car_times: r.car_times, counter: r.counter, chosen: Seq::empty(), total: 0 }
    } else {
        let st = naive_run(n - 1, vehicle_details, call_details, travel_costs, node_costs);
        match naive_choice(st, node_costs, call_details, travel_costs) {
            Some((call, v, inf)) => NaiveState {
                car_pos: st.car_pos.update(v, inf.to_node),
                car_times: st.car_times.update(v, inf.total_time),
                counter: st.counter.update(call - 1, (st.counter[call - 1] + 1) as i32),
                chosen: st.chosen.push(call as i32),
                total: st.total + inf.total_cost + inf.total_cost,
            },
            None => st,
        }
    }
}

/// The naive solver raises no panic: at every step some call can be taken,
/// choosing raises no panic, and the cost fits in an `i32`.
pub open spec fn naive_safe(
    vehicle_details: Seq<[i32; 3]>,
    call_details: Seq<[i32; 8]>,
    travel_costs: Seq<[i32; 4]>,
    node_costs: Seq<[i32; 5]>,
) -> bool {
    forall|k: int|
        #![trigger naive_run(k, vehicle_details, call_details, travel_costs, node_costs)]
        0 <= k < 2 * call_details.len() ==> {
            let st = naive_run(k, vehicle_details, call_details, travel_costs, node_costs);
            &&& naive_vehicles_safe(None, 0, st.counter, st.car_pos, st.car_times, node_costs, call_details,
                travel_costs)
            &&& naive_choice(st, node_costs, call_details, travel_costs) matches Some(ch) && {
                &&& fits(st.total + ch.2.total_cost)
                &&& fits(st.total + ch.2.total_cost + ch.2.total_cost)
            }
        }
}


/// What is taken names a call of the instance not yet met twice, and a
/// vehicle.
pub open spec fn taken_ok(acc: Taken, base: Seq<i32>, nvehicles: int, ncalls: int) -> bool {
    acc matches Some(p) ==> {
        &&& 1 <= p.0 <= ncalls
        &&& 0 <= p.1 < nvehicles
        &&& 0 <= base[p.0 - 1] <= 1
    }
}

/// Every call has been met between zero and two times.
pub open spec fn counts_ok(base: Seq<i32>, ncalls: int) -> bool {
    &&& base.len() == ncalls
    &&& forall|i: int| 0 <= i < ncalls ==> 0 <= #[trigger] base[i] <= 2
}

proof fn lemma_naive_calls_ok(
    acc: Taken,
    v: int,
    call: int,
    base: Seq<i32>,
    car_pos: Seq<i32>,
    car_times: Seq<i32>,
    node_costs: Seq<[i32; 5]>,
    call_details: Seq<[i32; 8]>,
    travel_costs: Seq<[i32; 4]>,
)
    requires
        taken_ok(acc, base, car_pos.len() as int, call_details.len() as int),
        counts_ok(base, call_details.len() as int),
        0 <= v < car_pos.len(),
    ensures
        taken_ok(
            naive_calls(acc, v, call, base, car_pos, car_times, node_costs, call_details, travel_costs),
            base,
            car_pos.len() as int,
            call_details.len() as int,
        ),
    decreases call_details.len() + 1 - call,
{
    if !(call > call_details.len() || call < 1) {
        let acc2 = naive_consider(acc, v, call, base, car_pos, car_times, node_costs, call_details, travel_costs);
        lemma_naive_calls_ok(acc2, v, call + 1, base, car_pos, car_times, node_costs, call_details, travel_costs);
    }
}

proof fn lemma_naive_vehicles_ok(
    acc: Taken,
    v: int,
    base: Seq<i32>,
    car_pos: Seq<i32>,
    car_times: Seq<i32>,
    node_costs: Seq<[i32; 5]>,
    call_details: Seq<[i32; 8]>,
    travel_costs: Seq<[i32; 4]>,
)
    requires
        taken_ok(acc, base, car_pos.len() as int, call_details.len() as int),
        counts_ok(base, call_details.len() as int),
    ensures
        taken_ok(
            naive_vehicles(acc, v, base, car_pos, car_times, node_costs, call_details, travel_costs),
            base,
            car_pos.len() as int,
            call_details.len() as int,
        ),
    decreases car_pos.len() - v,
{
    if !(v >= car_pos.len() || v < 0) {
        lemma_naive_calls_ok(acc, v, 1, base, car_pos, car_times, node_costs, call_details, travel_costs);
        let acc2 = naive_calls(acc, v, 1, base, car_pos, car_times, node_costs, call_details, travel_costs);
        lemma_naive_vehicles_ok(acc2, v + 1, base, car_pos, car_times, node_costs, call_details, travel_costs);
    }
}

/// Shape of the naive solver's states: one entry per vehicle and call, every
/// call met at most twice, and `n` entries chosen, each naming a call.
proof fn lemma_naive_run_shape(
    n: int,
    vehicle_details: Seq<[i32; 3]>,
    call_details: Seq<[i32; 8]>,
    travel_costs: Seq<[i32; 4]>,
    node_costs: Seq<[i32; 5]>,
)
    requires
        0 <= n <= 2 * call_details.len(),
        call_details.len() <= i32::MAX,
        naive_safe(vehicle_details, call_details, travel_costs, node_costs),
    ensures
        ({
            let st = naive_run(n, vehicle_details, call_details, travel_costs, node_costs);
            &&& st.car_pos.len() == vehicle_details.len()
            &&& st.car_times.len() == vehicle_details.len()
            &&& counts_ok(st.counter, call_details.len() as int)
            &&& st.chosen.len() == n
            &&& forall|k: int| 0 <= k < n ==> 1 <= #[trigger] st.chosen[k] <= call_details.len()
        }),
    decreases n,
{
    if n > 0 {
        lemma_naive_run_shape(n - 1, vehicle_details, call_details, travel_costs, node_costs);
        let st = naive_run(n - 1, vehicle_details, call_details, travel_costs, node_costs);
        lemma_naive_vehicles_ok(None, 0, st.counter, st.car_pos, st.car_times, node_costs, call_details,
            travel_costs);
        assert(naive_choice(st, node_costs, call_details, travel_costs) is Some);
        let st2 = naive_run(n, vehicle_details, call_details, travel_costs, node_costs);
        assert forall|k: int| 0 <= k < n implies 1 <= #[trigger] st2.chosen[k] <= call_details.len() by {
            if k < n - 1 {
                assert(st2.chosen[k] == st.chosen[k]);
            }
        }
    }
}

/// What is taken serves its call: it ends at the call's origin or
/// destination.
pub open spec fn taken_serves(acc: Taken, call_details: Seq<[i32; 8]>) -> bool {
    acc matches Some(p) ==> p.2.to_node == call_details[p.0 - 1][0] || p.2.to_node == call_details[p.0 - 1][1]
}

proof fn lemma_naive_calls_serve(
    acc: Taken,
    v: int,
    call: int,
    base: Seq<i32>,
    car_pos: Seq<i32>,
    car_times: Seq<i32>,
    node_costs: Seq<[i32; 5]>,
    call_details: Seq<[i32; 8]>,
    travel_costs: Seq<[i32; 4]>,
)
    requires
        taken_serves(acc, call_details),
    ensures
        taken_serves(naive_calls(acc, v, call, base, car_pos, car_times, node_costs, call_details, travel_costs),
            call_details),
    decreases call_details.len() + 1 - call,
{
    if !(call > call_details.len() || call < 1) {
        let acc2 = naive_consider(acc, v, call, base, car_pos, car_times, node_costs, call_details, travel_costs);
        lemma_naive_calls_serve(acc2, v, call + 1, base, car_pos, car_times, node_costs, call_details, travel_costs);
    }
}

proof fn lemma_naive_vehicles_serve(
    acc: Taken,
    v: int,
    base: Seq<i32>,
    car_pos: Seq<i32>,
    car_times: Seq<i32>,
    node_costs: Seq<[i32; 5]>,
    call_details: Seq<[i32; 8]>,
    travel_costs: Seq<[i32; 4]>,
)
    requires
        taken_serves(acc, call_details),
    ensures
        taken_serves(naive_vehicles(acc, v, base, car_pos, car_times, node_costs, call_details, travel_costs),
            call_details),
    decreases car_pos.len() - v,
{
    if !(v >= car_pos.len() || v < 0) {
        lemma_naive_calls_serve(acc, v, 1, base, car_pos, car_times, node_costs, call_details, travel_costs);
        let acc2 = naive_calls(acc, v, 1, base, car_pos, car_times, node_costs, call_details, travel_costs);
        lemma_naive_vehicles_serve(acc2, v + 1, base, car_pos, car_times, node_costs, call_details, travel_costs);
    }
}

/// Each step of the naive solver moves one vehicle to the node it serves:
/// after the step the vehicle chosen stands at the origin or the
/// destination of the call appended, and every other vehicle stays where it
/// was and keeps its free time. The next step's travel times start from
/// there.
pub proof fn lemma_naive_step_moves_the_vehicle_to_its_call(
    n: int,
    vehicle_details: Seq<[i32; 3]>,
    call_details: Seq<[i32; 8]>,
    travel_costs: Seq<[i32; 4]>,
    node_costs: Seq<[i32; 5]>,
)
    requires
        0 <= n < 2 * call_details.len(),
        call_details.len() <= i32::MAX,
        naive_safe(vehicle_details, call_details, travel_costs, node_costs),
    ensures
        ({
            let st = naive_run(n, vehicle_details, call_details, travel_costs, node_costs);
            let st2 = naive_run(n + 1, vehicle_details, call_details, travel_costs, node_costs);
            let call = st2.chosen[n];
            &&& st2.chosen == st.chosen.push(call)
            &&& 1 <= call <= call_details.len()
            &&& exists|v: int|
                0 <= v < vehicle_details.len() && (#[trigger] st2.car_pos[v] == call_details[call - 1][0]
                    || st2.car_pos[v] == call_details[call - 1][1]) && st2.car_pos == st.car_pos.update(v,
                    st2.car_pos[v]) && st2.car_times == st.car_times.update(v, st2.car_times[v])
        }),
{
    lemma_naive_run_shape(n, vehicle_details, call_details, travel_costs, node_costs);
    let st = naive_run(n, vehicle_details, call_details, travel_costs, node_costs);
    lemma_naive_vehicles_ok(None, 0, st.counter, st.car_pos, st.car_times, node_costs, call_details, travel_costs);
    lemma_naive_vehicles_serve(None, 0, st.counter, st.car_pos, st.car_times, node_costs, call_details, travel_costs);
    assert(naive_choice(st, node_costs, call_details, travel_costs) is Some);
    let ch = naive_choice(st, node_costs, call_details, travel_costs)->Some_0;
    let st2 = naive_run(n + 1, vehicle_details, call_details, travel_costs, node_costs);
    assert(st2.chosen[n] == ch.0);
    let v = ch.1;
    assert(st2.car_pos[v] == ch.2.to_node);
    assert(st2.car_pos =~= st.car_pos.update(v, st2.car_pos[v]));
    assert(st2.car_times =~= st.car_times.update(v, st2.car_times[v]));
}


proof fn lemma_naive_run_counts(
    n: int,
    vehicle_details: Seq<[i32; 3]>,
    call_details: Seq<[i32; 8]>,
    travel_costs: Seq<[i32; 4]>,
    node_costs: Seq<[i32; 5]>,
)
    requires
        0 <= n <= 2 * call_details.len(),
        call_details.len() <= i32::MAX,
        naive_safe(vehicle_details, call_details, travel_costs, node_costs),
    ensures
        ({
            let st = naive_run(n, vehicle_details, call_details, travel_costs, node_costs);
            forall|c: int| 1 <= c <= call_details.len() ==> #[trigger] st.counter[c - 1] == occurrences(st.chosen, c)
        }),
    decreases n,
{
    if n > 0 {
        lemma_naive_run_counts(n - 1, vehicle_details, call_details, travel_costs, node_costs);
        lemma_naive_run_shape(n - 1, vehicle_details, call_details, travel_costs, node_costs);
        let st = naive_run(n - 1, vehicle_details, call_details, travel_costs, node_costs);
        lemma_naive_vehicles_ok(None, 0, st.counter, st.car_pos, st.car_times, node_costs, call_details,
            travel_costs);
        assert(naive_choice(st, node_costs, call_details, travel_costs) is Some);
        let st2 = naive_run(n, vehicle_details, call_details, travel_costs, node_costs);
        assert(st2.chosen.drop_last() =~= st.chosen);
        assert forall|c: int| 1 <= c <= call_details.len() implies #[trigger] st2.counter[c - 1] == occurrences(
            st2.chosen,
            c,
        ) by {
            assert(st.counter[c - 1] == occurrences(st.chosen, c));
        }
    }
}

/// The naive solver names every call of the instance exactly twice: once to
/// pick it up and once to deliver it.
pub proof fn lemma_naive_solution_names_each_call_twice(
    vehicle_details: Seq<[i32; 3]>,
    call_details: Seq<[i32; 8]>,
    travel_costs: Seq<[i32; 4]>,
    node_costs: Seq<[i32; 5]>,
)
    requires
        call_details.len() <= i32::MAX,
        naive_safe(vehicle_details, call_details, travel_costs, node_costs),
    ensures
        ({
            let chosen = naive_run(2 * call_details.len() as int, vehicle_details, call_details, travel_costs,
                node_costs).chosen;
            forall|c: int| 1 <= c <= call_details.len() ==> #[trigger] occurrences(chosen, c) == 2
        }),
{
    let n = call_details.len() as int;
    lemma_naive_run_shape(2 * n, vehicle_details, call_details, travel_costs, node_costs);
    lemma_naive_run_counts(2 * n, vehicle_details, call_details, travel_costs, node_costs);
    let st = naive_run(2 * n, vehicle_details, call_details, travel_costs, node_costs);
    let s = st.chosen;
    assert forall|k: int| 0 <= k < s.len() implies #[trigger] s[k] != 0 by {}
    lemma_occurrences_absent(s, 0);
    assert forall|c: int| 1 <= c < n + 1 implies #[trigger] occurrences(s, c) <= 2 by {
        assert(st.counter[c - 1] == occurrences(s, c));
    }
    assert forall|k: int| 0 <= k < s.len() implies 0 <= #[trigger] s[k] < n + 1 by {}
    lemma_count_sum_len(s, n + 1);
    assert forall|c: int| 1 <= c <= n implies #[trigger] occurrences(s, c) == 2 by {
        lemma_count_sum_upper(s, n + 1, c);
    }
}

/// The exec values the naive solver keeps agree with what is taken.
pub open spec fn taken_matches(
    acc: Taken,
    base: Seq<i32>,
    counter: Seq<i32>,
    cheapest_vehicle: Option<usize>,
    cheapest_call: Option<usize>,
    cheapest_to_node: Option<i32>,
    cheapest_time: Option<i32>,
    cheapest_time_delta: Option<i32>,
    cheapest_cost: Option<i32>,
) -> bool {
    match acc {
        None => {
            &&& cheapest_vehicle is None
            &&& cheapest_call is None
            &&& cheapest_time_delta == Some(i32::MAX)
            &&& counter == base
        },
        Some((c, v, inf)) => {
            &&& cheapest_vehicle == Some(v as usize)
            &&& cheapest_call == Some(c as usize)
            &&& cheapest_to_node == Some(inf.to_node)
            &&& cheapest_time == Some(inf.total_time)
            &&& cheapest_time_delta == Some(inf.time_delta)
            &&& cheapest_cost == Some(inf.total_cost)
            &&& counter == base.update(c - 1, (base[c - 1] + 1) as i32)
        },
    }
}

/// Builds a solution step by step: at each step every vehicle is tried with
/// every call, and the pair taken is the fastest one (see
/// [`Info::is_faster`]); the chosen call is appended and served by that
/// vehicle. Returns the solution and its cost, each step counting the cost
/// of its choice twice.
pub fn naive_solve(
    vehicle_details: &[[i32; 3]],
    call_details: &[[i32; 8]],
    travel_costs: &[[i32; 4]],
    node_costs: &[[i32; 5]],
) -> (r: (Vec<i32>, i32))
    requires
        instance_wf(vehicle_details@, call_details@, travel_costs@, node_costs@),
        call_details@.len() <= i32::MAX,
        naive_safe(vehicle_details@, call_details@, travel_costs@, node_costs@),
    ensures
        ({
            let st = naive_run(2 * call_details@.len() as int, vehicle_details@, call_details@, travel_costs@, node_costs@);
            &&& r.0@ == st.chosen
            &&& r.1 == st.total
        }),
        r.0@.len() == 2 * call_details@.len(),
        forall|k: int| 0 <= k < r.0@.len() ==> 1 <= #[trigger] r.0@[k] <= call_details@.len(),
{
    let ghost vd = vehicle_details@;
    let ghost cd = call_details@;
    let ghost tc = travel_costs@;
    let ghost nc = node_costs@;
    let nvehicles = vehicle_details.len();
    let ncalls = call_details.len();
    let solution_size = 2 * ncalls;
    let mut total_cost: i32 = 0;
    let mut current_solution: Vec<i32> = Vec::new();
    let (mut car_pos, mut car_times, mut call_counter) = initial_state(vehicle_details, ncalls);
    proof {
        assert(NNODES * NNODES * nvehicles == 1521 * nvehicles);
        assert((1521 * nvehicles) / 1521 == nvehicles as int) by (nonlinear_arith);
    }
    let mut solution_idx: usize = 0;
    while solution_idx < solution_size
        invariant
            vd == vehicle_details@,
            cd == call_details@,
            tc == travel_costs@,
            nc == node_costs@,
            nvehicles == vd.len(),
            ncalls == cd.len(),
            ncalls <= i32::MAX,
            solution_size == 2 * ncalls,
            table_vehicles(tc) == nvehicles,
            instance_wf(vd, cd, tc, nc),
            naive_safe(vd, cd, tc, nc),
            solution_idx <= solution_size,
            naive_run(solution_idx as int, vd, cd, tc, nc) == (NaiveState {
                car_pos: car_pos@,
                car_times: car_times@,
                counter: call_counter@,
                chosen: current_solution@,
                total: total_cost as int,
            }),
        decreases solution_size - solution_idx,
    {
        let ghost st = naive_run(solution_idx as int, vd, cd, tc, nc);
        let ghost base = call_counter@;
        proof {
            lemma_naive_run_shape(solution_idx as int, vd, cd, tc, nc);
            lemma_naive_vehicles_ok(None, 0, base, st.car_pos, st.car_times, nc, cd, tc);
        }
        let ghost target = naive_choice(st, nc, cd, tc);
        let ghost mut acc: Taken = None;
        let mut cheapest_vehicle: Option<usize> = None;
        let mut cheapest_call: Option<usize> = None;
        let mut cheapest_cost: Option<i32> = Some(i32::MAX);
        let mut cheapest_time: Option<i32> = Some(i32::MAX);
        let mut cheapest_to_node: Option<i32> = None;
        let mut cheapest_time_delta: Option<i32> = Some(i32::MAX);
        let mut car_info = CarInfo { vehicle_idx: 0, car_pos, car_times };
        let mut vehicle_idx: usize = 0;
        while vehicle_idx < nvehicles
            invariant
                vd == vehicle_details@,
                cd == call_details@,
                tc == travel_costs@,
                nc == node_costs@,
                nvehicles == vd.len(),
                ncalls == cd.len(),
                ncalls <= i32::MAX,
                table_vehicles(tc) == nvehicles,
                instance_wf(vd, cd, tc, nc),
                vehicle_idx <= nvehicles,
                car_info.car_pos@ == st.car_pos,
                car_info.car_times@ == st.car_times,
                st.car_pos.len() == nvehicles,
                st.car_times.len() == nvehicles,
                counts_ok(base, ncalls as int),
                taken_ok(acc, base, nvehicles as int, ncalls as int),
                taken_matches(acc, base, call_counter@, cheapest_vehicle, cheapest_call, cheapest_to_node,
                    cheapest_time, cheapest_time_delta, cheapest_cost),
                naive_vehicles(acc, vehicle_idx as int, base, st.car_pos, st.car_times, nc, cd, tc) == target,
                naive_vehicles_safe(acc, vehicle_idx as int, base, st.car_pos, st.car_times, nc, cd, tc),
            decreases nvehicles - vehicle_idx,
        {
            car_info.vehicle_idx = vehicle_idx;
            let mut call: usize = 1;
            while call <= ncalls
                invariant
                    vd == vehicle_details@,
                    cd == call_details@,
                    tc == travel_costs@,
                    nc == node_costs@,
                    nvehicles == vd.len(),
                    ncalls == cd.len(),
                    ncalls <= i32::MAX,
                    table_vehicles(tc) == nvehicles,
                    instance_wf(vd, cd, tc, nc),
                    vehicle_idx < nvehicles,
                    1 <= call <= ncalls + 1,
                    car_info.vehicle_idx == vehicle_idx,
                    car_info.car_pos@ == st.car_pos,
                    car_info.car_times@ == st.car_times,
                    st.car_pos.len() == nvehicles,
                    st.car_times.len() == nvehicles,
                    counts_ok(base, ncalls as int),
                    taken_ok(acc, base, nvehicles as int, ncalls as int),
                    taken_matches(acc, base, call_counter@, cheapest_vehicle, cheapest_call, cheapest_to_node,
                        cheapest_time, cheapest_time_delta, cheapest_cost),
                    naive_vehicles(
                        naive_calls(acc, vehicle_idx as int, call as int, base, st.car_pos, st.car_times, nc, cd, tc),
                        vehicle_idx + 1,
                        base,
                        st.car_pos,
                        st.car_times,
                        nc,
                        cd,
                        tc,
                    ) == target,
                    naive_calls_safe(acc, vehicle_idx as int, call as int, base, st.car_pos, st.car_times, nc, cd, tc),
                    naive_vehicles_safe(
                        naive_calls(acc, vehicle_idx as int, call as int, base, st.car_pos, st.car_times, nc, cd, tc),
                        vehicle_idx + 1,
                        base,
                        st.car_pos,
                        st.car_times,
                        nc,
                        cd,
                        tc,
                    ),
                decreases ncalls + 1 - call,
            {
                let ghost acc0 = acc;
                proof {
                    lemma_naive_calls_ok(acc, vehicle_idx as int, call as int + 1, base, st.car_pos, st.car_times,
                        nc, cd, tc);
                }
                let possible_informant = Info::new(call_counter[call - 1], &car_info, call as i32, node_costs,
                    call_details, travel_costs);
                match possible_informant {
                    None => {},
                    Some(informant) => {
                        if informant.is_faster(cheapest_time_delta) || cheapest_call.is_none() {
                            cheapest_vehicle = Some(vehicle_idx);
                            if let Some(i) = cheapest_call {
                                let dec = call_counter[i - 1] - 1;
                                call_counter.set(i - 1, dec);
                            }
                            cheapest_call = Some(call);
                            let inc = call_counter[call - 1] + 1;
                            call_counter.set(call - 1, inc);
                            let (a, b, c, d) = informant.get_info();
                            cheapest_to_node = a;
                            cheapest_time = b;
                            cheapest_time_delta = c;
                            cheapest_cost = d;
                            proof {
                                acc = Some((call as int, vehicle_idx as int, informant@));
                                assert(call_counter@ =~= base.update(call - 1, (base[call - 1] + 1) as i32));
                            }
                        }
                    },
                }
                proof {
                    assert(acc == naive_consider(acc0, vehicle_idx as int, call as int, base, st.car_pos,
                        st.car_times, nc, cd, tc));
                }
                call = call + 1;
            }
            vehicle_idx = vehicle_idx + 1;
        }
        car_pos = car_info.car_pos;
        car_times = car_info.car_times;
        match (cheapest_call, cheapest_vehicle, cheapest_to_node, cheapest_time, cheapest_cost) {
            (Some(call_value), Some(vehicle_value), Some(to_node_value), Some(time_value), Some(cost_value)) => {
                current_solution.push(call_value as i32);
                car_times.set(vehicle_value, time_value);
                car_pos.set(vehicle_value, to_node_value);
                total_cost = total_cost + cost_value;
                proof {
                    assert(call_counter@ =~= st.counter.update(call_value - 1, (st.counter[call_value - 1] + 1) as i32));
                }
            },
            _ => {
                proof {
                    assert(target is Some);
                    assert(false);
                }
            },
        }
        total_cost = total_cost + cheapest_cost.unwrap();
        solution_idx = solution_idx + 1;
    }
    proof {
        lemma_naive_run_shape(solution_size as int, vd, cd, tc, nc);
    }
    (current_solution, total_cost)
}


/// An index below `n`, drawn by `rand::thread_rng().gen_range(0..n)`. The
/// contract claims only that it is below `n`: which one comes out depends on
/// chance.
#[verifier::external_body]
fn random_index(n: usize) -> (r: usize)
    requires
        n > 0,
    ensures
        r < n,
{
    rand::thread_rng().gen_range(0..n)
}

#[verifier::external_type_specification]
#[verifier::external_body]
pub struct ExInstant(std::time::Instant);

/// The current moment, read by `std::time::Instant::now()`. Nothing is
/// claimed of it.
#[verifier::external_body]
fn instant_now() -> (r: std::time::Instant) {
    std::time::Instant::now()
}

/// The time passed since `start`, read by `start.elapsed()`. Nothing is
/// claimed of it: it depends on the clock.
#[verifier::external_body]
fn time_since(start: &std::time::Instant) -> (r: std::time::Duration) {
    start.elapsed()
}

/// The whole seconds of a duration, read by `d.as_secs()`. Nothing is
/// claimed of them beyond their type: the duration is opaque here.
#[verifier::external_body]
fn whole_seconds(d: &std::time::Duration) -> (r: u64) {
    d.as_secs()
}

/// An index drawn by `rand`'s `WeightedIndex` over the three weights, with
/// the thread's random generator: index `i` comes with probability
/// `weights[i]` over their total. The contract claims that the index is
/// below 3 and that its weight is positive (the draw takes the first prefix
/// total above a uniform sample below the total); which index comes out
/// depends on chance. `WeightedIndex::new` fails on a negative weight or a
/// zero total, and the total is summed in `i32`.
#[verifier::external_body]
fn weighted_index(weights: [i32; 3]) -> (r: usize)
    requires
        weights[0] >= 0,
        weights[1] >= 0,
        weights[2] >= 0,
        0 < weights[0] + weights[1] + weights[2] <= i32::MAX,
    ensures
        r < 3,
        weights[r as int] > 0,
{
    let distribution = rand::distributions::WeightedIndex::new(weights).unwrap();
    rand::distributions::Distribution::sample(&distribution, &mut rand::thread_rng())
}

/// The solution with the entries at `i` and `j` swapped.
pub open spec fn swapped(s: Seq<i32>, i: int, j: int) -> Seq<i32> {
    s.update(i, s[j]).update(j, s[i])
}

/// Swaps the entry at `call_idx` with one at a random position.
fn swap_call_with_random(call_idx: usize, solution: &[i32]) -> (r: Vec<i32>)
    requires
        call_idx < solution@.len(),
    ensures
        exists|other: int| 0 <= other < solution@.len() && r@ == swapped(solution@, call_idx as int, other),
        r@.to_multiset() == solution@.to_multiset(),
{
    let mut output = vstd::slice::slice_to_vec(solution);
    let other_idx = random_index(solution.len());
    let a = output[call_idx];
    let b = output[other_idx];
    output.set(call_idx, b);
    output.set(other_idx, a);
    proof {
        assert(output@ =~= swapped(solution@, call_idx as int, other_idx as int));
        lemma_swap_multiset(solution@, call_idx as int, other_idx as int);
    }
    output
}

/// Swaps two entries at random positions.
pub fn swap_two_random_calls(_call_idx: usize, solution: &[i32]) -> (r: Vec<i32>)
    requires
        solution@.len() > 0,
    ensures
        exists|i: int, j: int|
            0 <= i < solution@.len() && 0 <= j < solution@.len() && r@ == swapped(solution@, i, j),
        r@.to_multiset() == solution@.to_multiset(),
{
    let call_idx = random_index(solution.len());
    swap_call_with_random(call_idx, solution)
}

/// Draws three random positions and returns the solution unchanged: the
/// swaps it makes are made on copies that are dropped.
fn swap_three_random_calls(_call_idx: usize, solution: &[i32]) -> (r: Vec<i32>)
    requires
        solution@.len() > 0,
    ensures
        r@ == solution@,
{
    let output = vstd::slice::slice_to_vec(solution);
    let call_idx = random_index(solution.len());
    let _first = swap_call_with_random(call_idx, solution);
    let _second = swap_call_with_random(call_idx, solution);
    output
}

/// Keeps the candidate when its cost is known and lower than the best cost,
/// or no best cost is known.
pub open spec fn keep_better(
    best: (Seq<i32>, Option<i32>),
    candidate: (Seq<i32>, Option<i32>),
) -> (Seq<i32>, Option<i32>) {
    if candidate.1 is Some && (best.1 is None || candidate.1->Some_0 < best.1->Some_0) {
        candidate
    } else {
        best
    }
}

/// The data one improvement search works on.
pub struct SolutionPermutation<'a> {
    pub current_solution: &'a [i32],
    pub current_cost: &'a i32,
    pub vehicle_details: &'a [[i32; 3]],
    pub call_details: &'a [[i32; 8]],
    pub travel_costs: &'a [[i32; 4]],
    pub node_costs: &'a [[i32; 5]],
}

impl<'a> SolutionPermutation<'a> {
    /// The instance's tables agree.
    pub open spec fn wf(&self) -> bool {
        instance_wf(self.vehicle_details@, self.call_details@, self.travel_costs@, self.node_costs@)
    }

    /// Cost of a solution for this instance.
    pub open spec fn cost_of(&self, s: Seq<i32>) -> Option<i32> {
        cost_spec(s, self.vehicle_details@, self.call_details@, self.travel_costs@, self.node_costs@)
    }

    /// The cost of this solution can be computed without a panic.
    pub open spec fn cost_safe_for(&self, s: Seq<i32>) -> bool {
        cost_safe(s, self.vehicle_details@, self.call_details@, self.travel_costs@, self.node_costs@)
    }

    /// Move `selected_idx` can be tried on the best solution without a
    /// panic: 0 swaps two random entries, 1 keeps the solution, 2 swaps the
    /// most expensive calls and needs a known cost.
    pub open spec fn step_safe(&self, selected_idx: usize, best_solution: Seq<i32>, best_cost: Option<i32>) -> bool {
        &&& selected_idx < 3
        &&& selected_idx == 0 ==> best_solution.len() > 0 && forall|i: int, j: int|
            0 <= i < best_solution.len() && 0 <= j < best_solution.len() ==> self.cost_safe_for(
                #[trigger] swapped(best_solution, i, j),
            )
        &&& selected_idx == 1 ==> best_solution.len() > 0 && self.cost_safe_for(best_solution)
        &&& selected_idx == 2 ==> {
            &&& best_cost is Some
            &&& best_solution.len() >= 2
            &&& route_safe(best_solution, false, self.vehicle_details@, self.call_details@, self.travel_costs@,
                self.node_costs@)
            &&& move_costs_spec(best_solution, self.vehicle_details@, self.call_details@, self.travel_costs@,
                self.node_costs@) is Some
            &&& swap_outer_safe(
                SwapState { temp: best_solution, best: best_solution, total: best_cost->Some_0 },
                0,
                best_solution.len() as int,
                self.vehicle_details@,
                self.call_details@,
                self.travel_costs@,
                self.node_costs@,
            )
        }
    }

    /// One round of the search with move `selected_idx`: the move makes a
    /// candidate from the best solution (0: two random entries swapped; 1:
    /// the solution itself; 2: the most expensive calls swapped, with the
    /// cost that pass keeps), the candidate's cost is computed when the move
    /// gives none, and the candidate replaces the best one when its cost is
    /// known and lower, or no cost is known yet.
    pub fn improve_step(&self, selected_idx: usize, best_solution: &[i32], best_solution_cost: Option<i32>) -> (r: (
        Vec<i32>,
        Option<i32>,
    ))
        requires
            self.wf(),
            self.step_safe(selected_idx, best_solution@, best_solution_cost),
        ensures
            selected_idx == 0 ==> exists|i: int, j: int|
                0 <= i < best_solution@.len() && 0 <= j < best_solution@.len() && (r.0@, r.1) == keep_better(
                    (best_solution@, best_solution_cost),
                    (swapped(best_solution@, i, j), self.cost_of(swapped(best_solution@, i, j))),
                ),
            selected_idx == 1 ==> (r.0@, r.1) == keep_better(
                (best_solution@, best_solution_cost),
                (best_solution@, self.cost_of(best_solution@)),
            ),
            selected_idx == 2 ==> ({
                let m = swap_most_expensive_spec(best_solution@, best_solution_cost->Some_0, self.vehicle_details@,
                    self.call_details@, self.travel_costs@, self.node_costs@);
                (r.0@, r.1) == keep_better((best_solution@, best_solution_cost), (m.0, Some(m.1)))
            }),
            r.0@.to_multiset() == best_solution@.to_multiset(),
            best_solution_cost is Some ==> r.1 is Some && r.1->Some_0 <= best_solution_cost->Some_0,
    {
        let (new_solution, new_solution_cost) = if selected_idx == 0 {
            let candidate = swap_two_random_calls(0, best_solution);
            let cost = calculate_cost(candidate.as_slice(), self.vehicle_details, self.call_details,
                self.travel_costs, self.node_costs);
            (candidate, cost)
        } else if selected_idx == 1 {
            let candidate = swap_three_random_calls(0, best_solution);
            let cost = calculate_cost(candidate.as_slice(), self.vehicle_details, self.call_details,
                self.travel_costs, self.node_costs);
            (candidate, cost)
        } else {
            let current = best_solution_cost.unwrap();
            let (sol, val) = swap_most_expensive_calls(best_solution, &current, self.vehicle_details,
                self.call_details, self.travel_costs, self.node_costs);
            proof {
                lemma_swap_most_expensive_reorders_and_never_costs_more(best_solution@, current,
                    self.vehicle_details@, self.call_details@, self.travel_costs@, self.node_costs@);
            }
            (sol, Some(val))
        };
        let better = match (new_solution_cost, best_solution_cost) {
            (Some(n), Some(b)) => n < b,
            (Some(_), None) => true,
            (None, _) => false,
        };
        if better {
            (new_solution, new_solution_cost)
        } else {
            (vstd::slice::slice_to_vec(best_solution), best_solution_cost)
        }
    }
}


impl<'a> SolutionPermutation<'a> {
    /// Runs a search: one move is drawn, with weights 10, 8 and 1 (see
    /// [`Self::improve_step`]), and rounds of it run on the best solution
    /// while fewer than `MAX_RUNTIME_IN_SECONDS` whole seconds have passed
    /// since the search began. That budget is 0, so no round runs and the
    /// search ends with the solution and cost it began with.
    pub fn improve(self) -> (r: (Vec<i32>, i32))
        ensures
            r.0@ == self.current_solution@,
            r.1 == *self.current_cost,
    {
        let start = instant_now();
        let weights: [i32; 3] = [10, 8, 1];
        let selected_idx = weighted_index(weights);
        let mut best_solution = vstd::slice::slice_to_vec(self.current_solution);
        let mut best_solution_cost: Option<i32> = Some(*self.current_cost);
        loop
            invariant
                best_solution@ == self.current_solution@,
                best_solution_cost == Some(*self.current_cost),
            ensures
                best_solution@ == self.current_solution@,
                best_solution_cost == Some(*self.current_cost),
            decreases 0nat,
        {
            let passed = time_since(&start);
            let secs = whole_seconds(&passed);
            if secs >= MAX_RUNTIME_IN_SECONDS {
                break;
            }
            // A round only runs within a positive budget.
            let (new_solution, new_cost) = self.improve_step(selected_idx, best_solution.as_slice(),
                best_solution_cost);
            best_solution = new_solution;
            best_solution_cost = new_cost;
        }
        (best_solution, best_solution_cost.unwrap())
    }
}

/// One search from the given solution and cost (see
/// [`SolutionPermutation::improve`]): with no time to run rounds, it returns
/// them as they are.
pub fn semi_random_improve_solution(
    current_solution: &[i32],
    current_cost: &i32,
    vehicle_details: &[[i32; 3]],
    call_details: &[[i32; 8]],
    travel_costs: &[[i32; 4]],
    node_costs: &[[i32; 5]],
) -> (r: Option<(Vec<i32>, i32)>)
    ensures
        r matches Some((s, c)) && s@ == current_solution@ && c == *current_cost,
{
    let sol_perm = SolutionPermutation {
        current_solution,
        current_cost,
        vehicle_details,
        call_details,
        travel_costs,
        node_costs,
    };
    let (new_sol, new_cost) = sol_perm.improve();
    Some((new_sol, new_cost))
}

/// The candidate that move `selected_fn` makes from the solution: 0 swaps
/// entry 0 with a random one, 1 swaps two random entries, 2 keeps it.
pub fn swap_with_selected(selected_fn: usize, solution: &[i32]) -> (r: Vec<i32>)
    requires
        selected_fn < 3,
        solution@.len() > 0,
    ensures
        selected_fn == 0 ==> exists|j: int| 0 <= j < solution@.len() && r@ == swapped(solution@, 0, j),
        selected_fn == 1 ==> exists|i: int, j: int|
            0 <= i < solution@.len() && 0 <= j < solution@.len() && r@ == swapped(solution@, i, j),
        selected_fn == 2 ==> r@ == solution@,
        r@.to_multiset() == solution@.to_multiset(),
{
    if selected_fn == 0 {
        swap_call_with_random(0, solution)
    } else if selected_fn == 1 {
        swap_two_random_calls(0, solution)
    } else {
        swap_three_random_calls(0, solution)
    }
}

/// One round of the random search: a new candidate is drawn from the
/// current solution with move `selected_fn`, and it replaces the best one
/// when the cost computed, which is that of the best solution, is known and
/// lower than the best cost, or no best cost is known.
pub fn random_improvement_step(
    selected_fn: usize,
    current_solution: &[i32],
    best_solution: &[i32],
    best_solution_cost: Option<i32>,
    vehicle_details: &[[i32; 3]],
    call_details: &[[i32; 8]],
    travel_costs: &[[i32; 4]],
    node_costs: &[[i32; 5]],
) -> (r: (Vec<i32>, Option<i32>))
    requires
        selected_fn < 3,
        current_solution@.len() > 0,
        instance_wf(vehicle_details@, call_details@, travel_costs@, node_costs@),
        cost_safe(best_solution@, vehicle_details@, call_details@, travel_costs@, node_costs@),
    ensures
        ({
            let c = cost_spec(best_solution@, vehicle_details@, call_details@, travel_costs@, node_costs@);
            if c is Some && (best_solution_cost is None || c->Some_0 < best_solution_cost->Some_0) {
                &&& r.1 == c
                &&& r.0@.to_multiset() == current_solution@.to_multiset()
                &&& selected_fn == 0 ==> exists|j: int|
                    0 <= j < current_solution@.len() && r.0@ == swapped(current_solution@, 0, j)
                &&& selected_fn == 1 ==> exists|i: int, j: int|
                    0 <= i < current_solution@.len() && 0 <= j < current_solution@.len() && r.0@ == swapped(
                        current_solution@,
                        i,
                        j,
                    )
                &&& selected_fn == 2 ==> r.0@ == current_solution@
            } else {
                (r.0@, r.1) == (best_solution@, best_solution_cost)
            }
        }),
        best_solution_cost is Some ==> r.1 is Some && r.1->Some_0 <= best_solution_cost->Some_0,
{
    let new_solution = swap_with_selected(selected_fn, current_solution);
    let new_solution_cost = calculate_cost(best_solution, vehicle_details, call_details, travel_costs, node_costs);
    let better = match (new_solution_cost, best_solution_cost) {
        (Some(n), Some(b)) => n < b,
        (Some(_), None) => true,
        (None, _) => false,
    };
    if better {
        (new_solution, new_solution_cost)
    } else {
        (vstd::slice::slice_to_vec(best_solution), best_solution_cost)
    }
}


/// A purely random search: one move is drawn, with weights 3, 2 and 1 (see
/// [`swap_with_selected`]), a first candidate is made from the current
/// solution and costed, and rounds of the move (see
/// [`random_improvement_step`]) run while fewer than
/// `MAX_RUNTIME_IN_SECONDS` whole seconds have passed. That budget is 0, so
/// the search returns the first candidate, a reordering of the current
/// solution with two entries swapped (or none), with its cost, or `None`
/// when its cost is unknown.
pub fn _randomly_improve_solution(
    current_solution: &[i32],
    _current_cost: &i32,
    vehicle_details: &[[i32; 3]],
    call_details: &[[i32; 8]],
    travel_costs: &[[i32; 4]],
    node_costs: &[[i32; 5]],
) -> (r: Option<(Vec<i32>, i32)>)
    requires
        current_solution@.len() > 0,
        instance_wf(vehicle_details@, call_details@, travel_costs@, node_costs@),
        forall|i: int, j: int|
            0 <= i < current_solution@.len() && 0 <= j < current_solution@.len() ==> cost_safe(
                #[trigger] swapped(current_solution@, i, j),
                vehicle_details@,
                call_details@,
                travel_costs@,
                node_costs@,
            ),
    ensures
        exists|i: int, j: int|
            #![trigger swapped(current_solution@, i, j)]
            0 <= i < current_solution@.len() && 0 <= j < current_solution@.len() && ({
                let candidate = swapped(current_solution@, i, j);
                let cost = cost_spec(candidate, vehicle_details@, call_details@, travel_costs@, node_costs@);
                match r {
                    Some((s, c)) => s@ == candidate && cost == Some(c),
                    None => cost is None,
                }
            }),
{
    let start = instant_now();
    let weights: [i32; 3] = [3, 2, 1];
    let selected_function = weighted_index(weights);
    let best_solution = swap_with_selected(selected_function, current_solution);
    let ghost s = current_solution@;
    let ghost (wi, wj): (int, int) = if selected_function == 0 {
        (0, choose|j: int| 0 <= j < s.len() && best_solution@ == swapped(s, 0, j))
    } else if selected_function == 1 {
        choose|i: int, j: int| 0 <= i < s.len() && 0 <= j < s.len() && best_solution@ == swapped(s, i, j)
    } else {
        (0, 0)
    };
    proof {
        if selected_function == 2 {
            assert(swapped(s, 0, 0) =~= s);
        }
        assert(best_solution@ == swapped(s, wi, wj));
        assert(cost_safe(swapped(s, wi, wj), vehicle_details@, call_details@, travel_costs@, node_costs@));
    }
    let best_solution_cost = calculate_cost(best_solution.as_slice(), vehicle_details, call_details, travel_costs,
        node_costs);
    let mut best_solution = best_solution;
    let mut best_solution_cost = best_solution_cost;
    let ghost first = (best_solution@, best_solution_cost);
    loop
        invariant
            (best_solution@, best_solution_cost) == first,
        ensures
            (best_solution@, best_solution_cost) == first,
        decreases 0nat,
    {
        let passed = time_since(&start);
        let secs = whole_seconds(&passed);
        if secs >= MAX_RUNTIME_IN_SECONDS {
            break;
        }
        // A round only runs within a positive budget.
        let (new_solution, new_cost) = random_improvement_step(selected_function, current_solution,
            best_solution.as_slice(), best_solution_cost, vehicle_details, call_details, travel_costs, node_costs);
        best_solution = new_solution;
        best_solution_cost = new_cost;
    }
    match best_solution_cost {
        Some(cost) => Some((best_solution, cost)),
        None => None,
    }
}

/// The first solution of the exhaustive search, every call twice in a row,
/// and the calls the orders are drawn from, in the same order.
pub fn brute_force_start(ncalls: usize) -> (r: (Vec<i32>, Vec<usize>))
    requires
        ncalls < i32::MAX,
    ensures
        r.0@.len() == 2 * ncalls,
        r.1@.len() == 2 * ncalls,
        forall|k: int| 0 <= k < 2 * ncalls ==> #[trigger] r.0@[k] == k / 2 + 1,
        forall|k: int| 0 <= k < 2 * ncalls ==> #[trigger] r.1@[k] == k / 2 + 1,
{
    let mut current_solution: Vec<i32> = Vec::new();
    let mut call_vec: Vec<usize> = Vec::new();
    let mut i: usize = 0;
    while i < ncalls
        invariant
            i <= ncalls,
            ncalls < i32::MAX,
            current_solution@.len() == 2 * i,
            call_vec@.len() == 2 * i,
            forall|k: int| 0 <= k < 2 * i ==> #[trigger] current_solution@[k] == k / 2 + 1,
            forall|k: int| 0 <= k < 2 * i ==> #[trigger] call_vec@[k] == k / 2 + 1,
        decreases ncalls - i,
    {
        current_solution.push(i as i32 + 1);
        current_solution.push(i as i32 + 1);
        call_vec.push(i + 1);
        call_vec.push(i + 1);
        i = i + 1;
    }
    (current_solution, call_vec)
}

/// The solution with its first `k` entries replaced by those of the order.
pub open spec fn written(s: Seq<i32>, order: Seq<usize>, k: int) -> Seq<i32> {
    Seq::new(s.len(), |i: int| if i < k { order[i] as i32 } else { s[i] })
}

/// Writes the order into the solution entry by entry, checking the solution
/// after each write; stops at the first solution the check accepts and
/// returns whether there was one.
#[verifier::spinoff_prover]
#[verifier::rlimit(60)]
pub fn brute_force_try_order(
    current_solution: &mut Vec<i32>,
    possibility: &[usize],
    vehicle_details: &[[i32; 3]],
    call_details: &[[i32; 8]],
    travel_costs: &[[i32; 4]],
    node_costs: &[[i32; 5]],
) -> (found: bool)
    requires
        possibility@.len() <= old(current_solution)@.len(),
        forall|i: int| 0 <= i < possibility@.len() ==> #[trigger] possibility@[i] <= i32::MAX,
        tables_wf(old(current_solution)@, vehicle_details@, call_details@, travel_costs@, node_costs@),
        forall|k: int| 1 <= k <= possibility@.len() ==> check_safe(
            #[trigger] written(old(current_solution)@, possibility@, k),
            vehicle_details@,
            call_details@,
            travel_costs@,
        ),
    ensures
        found ==> exists|k: int| 1 <= k <= possibility@.len() && final(current_solution)@ == written(old(current_solution)@,
            possibility@, k) && correctness_result(final(current_solution)@, vehicle_details@, call_details@,
            travel_costs@) is Ok && forall|j: int| 1 <= j < k ==> correctness_result(
                #[trigger] written(old(current_solution)@, possibility@, j),
                vehicle_details@,
                call_details@,
                travel_costs@,
            ) is Err,
        !found ==> final(current_solution)@ == written(old(current_solution)@, possibility@, possibility@.len() as int)
            && forall|j: int| 1 <= j <= possibility@.len() ==> correctness_result(
                #[trigger] written(old(current_solution)@, possibility@, j),
                vehicle_details@,
                call_details@,
                travel_costs@,
            ) is Err,
{
    let ghost s0 = current_solution@;
    let mut index: usize = 0;
    proof {
        assert(current_solution@ =~= written(s0, possibility@, 0));
    }
    while index < possibility.len()
        invariant
            s0 == old(current_solution)@,
            index <= possibility@.len(),
            possibility@.len() <= s0.len(),
            forall|i: int| 0 <= i < possibility@.len() ==> #[trigger] possibility@[i] <= i32::MAX,
            tables_wf(s0, vehicle_details@, call_details@, travel_costs@, node_costs@),
            forall|k: int| 1 <= k <= possibility@.len() ==> check_safe(
                #[trigger] written(s0, possibility@, k),
                vehicle_details@,
                call_details@,
                travel_costs@,
            ),
            current_solution@ == written(s0, possibility@, index as int),
            forall|j: int| 1 <= j <= index ==> correctness_result(
                #[trigger] written(s0, possibility@, j),
                vehicle_details@,
                call_details@,
                travel_costs@,
            ) is Err,
        decreases possibility@.len() - index,
    {
        let element = possibility[index];
        current_solution.set(index, element as i32);
        let ghost before = index as int;
        index = index + 1;
        proof {
            assert(current_solution@ =~= written(s0, possibility@, index as int));
            assert(tables_wf(current_solution@, vehicle_details@, call_details@, travel_costs@, node_costs@));
        }
        let checked = correctness_check(current_solution.as_slice(), vehicle_details, call_details, travel_costs, node_costs);
        match checked {
            Ok(_val) => {
                proof {
                    assert(correctness_result(current_solution@, vehicle_details@, call_details@, travel_costs@) is Ok);
                    assert(s0 == old(current_solution)@);
                    assert(forall|j: int| 1 <= j < index ==> correctness_result(
                        #[trigger] written(s0, possibility@, j), vehicle_details@, call_details@, travel_costs@) is Err);
                    assert(current_solution@ == written(s0, possibility@, index as int));
                }
                return true;
            },
            Err(_err) => {},
        }
    }
    false
}


/// The best of the searches' results, in order: a result replaces the best
/// one when its cost is lower; a missing result is skipped.
pub open spec fn best_result(results: Seq<Option<(Vec<i32>, i32)>>, best: Seq<i32>, cost: i32, k: int) -> (Seq<i32>, i32)
    decreases k,
{
    if k <= 0 {
        (best, cost)
    } else {
        let prev = best_result(results, best, cost, k - 1);
        match results[k - 1] {
            Some((sol, val)) => if val < prev.1 { (sol@, val) } else { prev },
            None => prev,
        }
    }
}

/// The best of the searches' results and the solution they started from
/// (see [`best_result`]).
pub fn pick_best_result(results: &Vec<Option<(Vec<i32>, i32)>>, best_solution: Vec<i32>, lowest_cost: i32) -> (r: (
    Vec<i32>,
    i32,
))
    ensures
        (r.0@, r.1) == best_result(results@, best_solution@, lowest_cost, results@.len() as int),
{
    let mut best = best_solution;
    let mut cost = lowest_cost;
    let mut i: usize = 0;
    while i < results.len()
        invariant
            i <= results@.len(),
            (best@, cost) == best_result(results@, best_solution@, lowest_cost, i as int),
        decreases results@.len() - i,
    {
        match &results[i] {
            Some((sol, val)) => {
                if *val < cost {
                    best = vstd::slice::slice_to_vec(sol.as_slice());
                    cost = *val;
                }
            },
            None => {},
        }
        i = i + 1;
    }
    (best, cost)
}

} // verus!

