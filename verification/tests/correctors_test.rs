use sim_an::correctors::{_correct_deliver_too_late, _correct_overcalling, _correct_pickup_too_late};

const NNODES: usize = 39;

fn travel_table(nvehicles: usize) -> Vec<[i32; 4]> {
    let mut t = vec![[0i32; 4]; NNODES * NNODES * nvehicles];
    for lo in 0..NNODES {
        for hi in 0..NNODES {
            for v in 0..nvehicles {
                let d = (hi as i32 - lo as i32).abs();
                t[v + (hi + lo * NNODES) * nvehicles] = [lo as i32 + 1, hi as i32 + 1, d, 2 * d];
            }
        }
    }
    t
}

#[test]
fn overcalling_unchanged_when_every_call_twice() {
    assert_eq!(_correct_overcalling(&[1, 2, 2, 1]), vec![1, 2, 2, 1]);
}

#[test]
fn overcalling_hands_surplus_entries_to_missing_calls() {
    // Call 1 occurs four times and call 2 never: the two surplus entries go to call 2.
    assert_eq!(_correct_overcalling(&[1, 1, 1, 1]), vec![1, 1, 2, 2]);
    // Call 1 occurs four times, call 3 never: both surplus entries go to call 3.
    assert_eq!(_correct_overcalling(&[1, 1, 1, 2, 2, 1]), vec![1, 1, 3, 2, 2, 3]);
}

#[test]
fn deliver_moved_back_until_on_time() {
    let t = travel_table(1);
    // Second occurrence of 7 is at position 3; stepping back over 5 -> 7
    // (time 2) brings 20 down to 18, within 18.
    let s = [7, 3, 5, 7, 9];
    assert_eq!(_correct_deliver_too_late(0, 7, 20, 18, &t, &s), vec![7, 3, 7, 5, 9]);
    // Already on time: unchanged.
    assert_eq!(_correct_deliver_too_late(0, 7, 10, 18, &t, &s), s.to_vec());
}

#[test]
fn pickup_moved_back_until_on_time() {
    let t = travel_table(1);
    let calls = vec![
        [2, 3, 1, 100, 0, 50, 0, 60],
        [4, 5, 1, 100, 0, 50, 0, 60],
        [6, 9, 1, 100, 0, 50, 0, 60],
    ];
    // First occurrence of 3 is at position 2; stepping back from it: from the
    // destination of call 2 (5) to the origin of call 3 (6) takes 1.
    let s = [1, 2, 3, 1, 2, 3];
    assert_eq!(_correct_pickup_too_late(0, 3, 10, 9, &t, &calls, &s), vec![1, 3, 2, 1, 2, 3]);
}

#[test]
fn overcalling_leaves_every_call_twice() {
    // Call 2 occurs four times, calls 1 and 3 once: the last surplus entry
    // goes to call 1, the one before to call 3.
    let s = [2, 2, 2, 2, 1, 3];
    let r = _correct_overcalling(&s);
    assert_eq!(r, vec![2, 2, 3, 1, 1, 3]);
    for c in 1..=3 {
        assert_eq!(r.iter().filter(|&&x| x == c).count(), 2);
    }
}

#[test]
fn moved_deliveries_keep_the_entries() {
    let t = travel_table(1);
    let s = [4, 7, 3, 5, 7, 9];
    let r = _correct_deliver_too_late(0, 7, 30, 26, &t, &s);
    // Stepping back over 5 -> 7 (2) and 3 -> 5 (2) brings 30 to 26.
    assert_eq!(r, vec![4, 7, 7, 3, 5, 9]);
    let mut a = r.clone();
    a.sort();
    let mut b = s.to_vec();
    b.sort();
    assert_eq!(a, b);
    assert_eq!(r[..2], s[..2]);
    assert_eq!(r[5], s[5]);
}
