use sim_an::validity_check::{a_to_b_time, correctness_check, deconstruct_call, CorrectnessError};

const NNODES: usize = 39;

/// Travel table for `nvehicles` vehicles: time |a - b|, cost 2 |a - b|,
/// plus the vehicle's index to both.
fn travel_table(nvehicles: usize) -> Vec<[i32; 4]> {
    let mut t = vec![[0i32; 4]; NNODES * NNODES * nvehicles];
    for lo in 0..NNODES {
        for hi in 0..NNODES {
            for v in 0..nvehicles {
                let d = (hi as i32 - lo as i32).abs();
                t[v + (hi + lo * NNODES) * nvehicles] = [lo as i32 + 1, hi as i32 + 1, d + v as i32, 2 * d + v as i32];
            }
        }
    }
    t
}

fn one_vehicle_two_calls() -> (Vec<[i32; 3]>, Vec<[i32; 8]>, Vec<[i32; 4]>, Vec<[i32; 5]>) {
    let vehicles = vec![[1, 0, 10]];
    let calls = vec![[2, 3, 1, 100, 0, 50, 0, 60], [4, 5, 1, 100, 0, 50, 0, 60]];
    let travel = travel_table(1);
    let nodes = vec![[1, 0, 0, 0, 0], [2, 0, 0, 0, 0]];
    (vehicles, calls, travel, nodes)
}

#[test]
fn correct_adaptive_input_validity_check() {
    println!("correct_adaptive_input_validity_check()");
    let (vehicle_details, call_details, travel_costs, node_costs) = one_vehicle_two_calls();
    let solution: Vec<i32> = vec![1, 1, 2, 2];
    assert_eq!(correctness_check(&solution, &vehicle_details, &call_details, &travel_costs, &node_costs), Ok(4));
}

#[test]
fn travel_time_is_symmetric_and_per_vehicle() {
    let t = travel_table(3);
    assert_eq!(a_to_b_time(0, 2, 7, &t), 5);
    assert_eq!(a_to_b_time(0, 7, 2, &t), 5);
    assert_eq!(a_to_b_time(2, 7, 2, &t), 7);
    // The vehicle index wraps around the number of vehicles.
    assert_eq!(a_to_b_time(4, 1, 1, &t), 1);
}

#[test]
fn call_fields_read_size_as_zero() {
    let calls = vec![[2, 3, 7, 100, 1, 50, 2, 60], [4, 5, 9, 90, 3, 40, 4, 70]];
    assert_eq!(deconstruct_call(2, &calls), (4, 5, 0, 90, 3, 40, 4, 70));
    assert_eq!(deconstruct_call(1, &calls), (2, 3, 0, 100, 1, 50, 2, 60));
}

#[test]
fn call_number_too_low() {
    let (v, c, t, n) = one_vehicle_two_calls();
    assert_eq!(correctness_check(&[1, 0, 2, 2], &v, &c, &t, &n), Err(CorrectnessError::CallNumberTooLow { call_number: 0 }));
}

#[test]
fn call_number_too_high() {
    let (v, c, t, n) = one_vehicle_two_calls();
    assert_eq!(correctness_check(&[1, 3, 2, 2], &v, &c, &t, &n), Err(CorrectnessError::CallNumberTooHigh { call_number: 3 }));
}

#[test]
fn call_too_many_times() {
    let (v, c, t, n) = one_vehicle_two_calls();
    assert_eq!(correctness_check(&[1, 1, 1, 2], &v, &c, &t, &n), Err(CorrectnessError::CallTooManyTimes { call: 1 }));
}

#[test]
fn call_order_decides_the_cost() {
    let (v, c, t, n) = one_vehicle_two_calls();
    // 1 -> 4 costs 6, 4 -> 2 costs 4, 2 -> 2 costs 0 (ends at 3), 3 -> 4 costs 2.
    assert_eq!(correctness_check(&[2, 1, 1, 2], &v, &c, &t, &n), Ok(12));
}

#[test]
fn pickup_not_delivered_reports_first_call_met_once() {
    let (v, _c, t, _n) = one_vehicle_two_calls();
    let c2 = vec![[2, 3, 1, 100, 0, 50, 0, 60], [4, 5, 1, 100, 0, 50, 0, 60]];
    let n2 = vec![[1, 0, 0, 0, 0], [2, 0, 0, 0, 0]];
    // A solution shorter than two entries per call leaves call 2 picked up.
    assert_eq!(
        correctness_check(&[1, 1, 2], &v, &c2, &t, &n2),
        Err(CorrectnessError::PickupNotDelivered { idx: 1 })
    );
}

#[test]
fn pickup_too_late() {
    let v = vec![[1, 0, 10]];
    let c = vec![[9, 3, 1, 100, 0, 5, 0, 60], [4, 5, 1, 100, 0, 50, 0, 60]];
    let t = travel_table(1);
    let n = vec![[1, 0, 0, 0, 0], [2, 0, 0, 0, 0]];
    assert_eq!(
        correctness_check(&[1, 1, 2, 2], &v, &c, &t, &n),
        Err(CorrectnessError::PickUpTooLate { vehicle_idx: 0, call: 1, car_time: 0, arrival_time: 8, start_upper: 5 })
    );
}

#[test]
fn deliver_too_late() {
    // The delivery moves to the call's origin again: from 2 to 2 takes 0, so
    // the start time of the vehicle decides.
    let v = vec![[1, 0, 10]];
    let c = vec![[2, 3, 1, 100, 20, 50, 0, 10], [4, 5, 1, 100, 0, 50, 0, 60]];
    let t = travel_table(1);
    let n = vec![[1, 0, 0, 0, 0], [2, 0, 0, 0, 0]];
    assert_eq!(
        correctness_check(&[1, 1, 2, 2], &v, &c, &t, &n),
        Err(CorrectnessError::DeliverTooLate { vehicle_idx: 0, call: 1, car_time: 20, arrival_time: 20, end_upper: 10 })
    );
}

#[test]
fn overloaded_when_capacity_is_negative() {
    let v = vec![[1, 0, -1]];
    let (_, c, t, n) = one_vehicle_two_calls();
    assert_eq!(
        correctness_check(&[1, 1, 2, 2], &v, &c, &t, &n),
        Err(CorrectnessError::Overloaded { call: 1, car_weight: 0, loaded_weight: 0, car_capacity: -1 })
    );
}

#[test]
fn vehicle_free_earliest_serves_ties_go_to_last() {
    // Two vehicles free at the same time: the last one serves first.
    let v = vec![[1, 0, 10], [6, 0, 10]];
    let c = vec![[2, 3, 1, 100, 0, 50, 0, 60], [4, 5, 1, 100, 0, 50, 0, 60]];
    let t = travel_table(2);
    let n = vec![[1, 0, 0, 0, 0], [2, 0, 0, 0, 0], [1, 0, 0, 0, 0], [2, 0, 0, 0, 0]];
    // Vehicle 1 (home 6) takes call 1: 6 -> 2 costs 2*4 + 1 = 9, arrives at 5.
    // Vehicle 0 (free at 0) takes the delivery: 1 -> 2 costs 2.
    // Vehicle 0 (free at 1) picks up call 2: 3 -> 4 costs 2, arrives at 2.
    // Vehicle 0 (free at 2) delivers call 2: 4 -> 4 costs 0.
    assert_eq!(correctness_check(&[1, 1, 2, 2], &v, &c, &t, &n), Ok(13));
}
