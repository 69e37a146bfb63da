use vstd::prelude::*;
use crate::constants::{NNODES, SOLUTION_SIZE};
use crate::alter_solution::instance_wf;
use crate::validity_check::{fits, lemma_known_nodes_readable, node_known, travel_index, travel_position};

verus! {

/// A solution of the configured size holding the given entries first and
/// zeros after them.
pub fn _get_predefined_solution(predef: Vec<i32>) -> (r: Vec<i32>)
    requires
        predef@.len() <= SOLUTION_SIZE,
    ensures
        r@.len() == SOLUTION_SIZE,
        forall|i: int| 0 <= i < SOLUTION_SIZE ==> #[trigger] r@[i] == if i < predef@.len() { predef@[i] } else { 0 },
{
    let mut sol: Vec<i32> = Vec::new();
    let mut k: usize = 0;
    while k < SOLUTION_SIZE
        invariant
            k <= SOLUTION_SIZE,
            sol@.len() == k,
            forall|i: int| 0 <= i < k ==> #[trigger] sol@[i] == 0,
        decreases SOLUTION_SIZE - k,
    {
        sol.push(0);
        k = k + 1;
    }
    let mut idx: usize = 0;
    while idx < predef.len()
        invariant
            predef@.len() <= SOLUTION_SIZE,
            idx <= predef@.len(),
            sol@.len() == SOLUTION_SIZE,
            forall|i: int| 0 <= i < SOLUTION_SIZE ==> #[trigger] sol@[i] == if i < idx { predef@[i] } else { 0 },
        decreases predef@.len() - idx,
    {
        sol.set(idx, predef[idx]);
        idx = idx + 1;
    }
    sol
}

/// The name of the instance file for a number of vehicles and calls, empty
/// for a size no file holds.
pub open spec fn data_file_name_spec(nvehicles: usize, ncalls: usize) -> Seq<char> {
    if nvehicles == 1 && ncalls == 2 {
        "Call_2_Vehicle_1_Custom.txt"@
    } else if nvehicles == 2 && ncalls == 4 {
        "Call_4_Vehicle_2_Custom.txt"@
    } else if nvehicles == 3 && ncalls == 7 {
        "Call_7_Vehicle_3.txt"@
    } else if nvehicles == 5 && ncalls == 18 {
        "Call_18_Vehicle_5.txt"@
    } else if nvehicles == 7 && ncalls == 35 {
        "Call_35_Vehicle_7.txt"@
    } else if nvehicles == 20 && ncalls == 80 {
        "Call_80_Vehicle_20.txt"@
    } else if nvehicles == 40 && ncalls == 130 {
        "Call_130_Vehicle_40.txt"@
    } else {
        ""@
    }
}

/// The name of the instance file for a number of vehicles and calls, empty
/// for a size no file holds.
pub fn data_file_name(nvehicles: usize, ncalls: usize) -> (r: &'static str)
    ensures
        r@ == data_file_name_spec(nvehicles, ncalls),
{
    if nvehicles == 1 && ncalls == 2 {
        "Call_2_Vehicle_1_Custom.txt"
    } else if nvehicles == 2 && ncalls == 4 {
        "Call_4_Vehicle_2_Custom.txt"
    } else if nvehicles == 3 && ncalls == 7 {
        "Call_7_Vehicle_3.txt"
    } else if nvehicles == 5 && ncalls == 18 {
        "Call_18_Vehicle_5.txt"
    } else if nvehicles == 7 && ncalls == 35 {
        "Call_35_Vehicle_7.txt"
    } else if nvehicles == 20 && ncalls == 80 {
        "Call_80_Vehicle_20.txt"
    } else if nvehicles == 40 && ncalls == 130 {
        "Call_130_Vehicle_40.txt"
    } else {
        ""
    }
}


/// A vehicle row lists its index, home node, start time and capacity.
pub open spec fn vehicle_row_ok(r: Seq<i32>) -> bool {
    r.len() >= 4
}

/// A call row lists its index, origin, destination, size, cost of not
/// transporting it and its pickup and delivery windows.
pub open spec fn call_row_ok(r: Seq<i32>) -> bool {
    r.len() >= 9
}

/// A travel row lists a vehicle, an origin and a destination node of the
/// instance, a time and a cost.
pub open spec fn travel_row_ok(r: Seq<i32>, nvehicles: int) -> bool {
    &&& r.len() >= 5
    &&& 1 <= r[0] <= nvehicles
    &&& node_known(r[1] as int)
    &&& node_known(r[2] as int)
}

/// A node row lists a vehicle and a call of the instance, and the time and
/// cost at the call's origin and at its destination.
pub open spec fn node_row_ok(r: Seq<i32>, nvehicles: int, ncalls: int) -> bool {
    &&& r.len() >= 6
    &&& 1 <= r[0] <= nvehicles
    &&& 1 <= r[1] <= ncalls
}

/// Every row of the instance is complete and names vehicles, calls and nodes
/// of the instance.
pub open spec fn rows_ok(
    nvehicles: int,
    ncalls: int,
    vehicle_rows: Seq<Vec<i32>>,
    call_rows: Seq<Vec<i32>>,
    travel_rows: Seq<Vec<i32>>,
    node_rows: Seq<Vec<i32>>,
) -> bool {
    &&& vehicle_rows.len() == nvehicles
    &&& call_rows.len() == ncalls
    &&& forall|i: int| 0 <= i < vehicle_rows.len() ==> vehicle_row_ok(#[trigger] vehicle_rows[i]@)
    &&& forall|i: int| 0 <= i < call_rows.len() ==> call_row_ok(#[trigger] call_rows[i]@)
    &&& forall|i: int| 0 <= i < travel_rows.len() ==> travel_row_ok(#[trigger] travel_rows[i]@, nvehicles)
    &&& forall|i: int| 0 <= i < node_rows.len() ==> node_row_ok(#[trigger] node_rows[i]@, nvehicles, ncalls)
}

/// The travel table after the first `k` travel rows: each row fills the
/// position of its vehicle and pair of nodes; positions no row names hold
/// zeros.
pub open spec fn travel_table_from(rows: Seq<Vec<i32>>, k: int, nvehicles: int) -> Seq<[i32; 4]>
    decreases k,
{
    if k <= 0 {
        Seq::new((NNODES * NNODES * nvehicles) as nat, |i: int| [0i32, 0i32, 0i32, 0i32])
    } else {
        let r = rows[k - 1]@;
        travel_table_from(rows, k - 1, nvehicles).update(
            travel_index(nvehicles, r[0] - 1, r[1] as int, r[2] as int),
            [r[1], r[2], r[3], r[4]],
        )
    }
}

/// The node table after the first `k` node rows: each row fills the
/// position of its vehicle and call; positions no row names hold zeros.
pub open spec fn node_table_from(rows: Seq<Vec<i32>>, k: int, nvehicles: int, ncalls: int) -> Seq<[i32; 5]>
    decreases k,
{
    if k <= 0 {
        Seq::new((ncalls * nvehicles) as nat, |i: int| [0i32, 0i32, 0i32, 0i32, 0i32])
    } else {
        let r = rows[k - 1]@;
        node_table_from(rows, k - 1, nvehicles, ncalls).update(
            (r[1] - 1) + (r[0] - 1) * ncalls,
            [r[1], r[2], r[3], r[4], r[5]],
        )
    }
}

/// Builds the tables of an instance from the rows of its file: the vehicles
/// (home node, start time, capacity), the calls (every field after the
/// index), the travel table (one row per vehicle and pair of nodes, the
/// smaller node first) and the node table (one row per vehicle and call).
/// `None` when a row is incomplete or names a vehicle, call or node the
/// instance lacks, or the counts of vehicle and call rows are off.
pub fn build_tables(
    nvehicles: usize,
    ncalls: usize,
    vehicle_rows: &Vec<Vec<i32>>,
    call_rows: &Vec<Vec<i32>>,
    travel_rows: &Vec<Vec<i32>>,
    node_rows: &Vec<Vec<i32>>,
) -> (r: Option<(Vec<[i32; 3]>, Vec<[i32; 8]>, Vec<[i32; 4]>, Vec<[i32; 5]>)>)
    requires
        NNODES * NNODES * nvehicles <= usize::MAX,
        ncalls * nvehicles <= usize::MAX,
    ensures
        r is Some <==> rows_ok(nvehicles as int, ncalls as int, vehicle_rows@, call_rows@, travel_rows@, node_rows@),
        r matches Some((v, c, t, n)) ==> {
            &&& v@ == Seq::new(nvehicles as nat, |i: int| [vehicle_rows@[i]@[1], vehicle_rows@[i]@[2], vehicle_rows@[i]@[3]])
            &&& c@ == Seq::new(ncalls as nat, |i: int| {
                let row = call_rows@[i]@;
                [row[1], row[2], row[3], row[4], row[5], row[6], row[7], row[8]]
            })
            &&& t@ == travel_table_from(travel_rows@, travel_rows@.len() as int, nvehicles as int)
            &&& n@ == node_table_from(node_rows@, node_rows@.len() as int, nvehicles as int, ncalls as int)
            &&& instance_wf(v@, c@, t@, n@)
        },
{
    if vehicle_rows.len() != nvehicles || call_rows.len() != ncalls {
        return None;
    }
    let mut vehicles: Vec<[i32; 3]> = Vec::new();
    let mut i: usize = 0;
    while i < nvehicles
        invariant
            i <= nvehicles,
            vehicle_rows@.len() == nvehicles,
            vehicles@ == Seq::new(i as nat, |j: int| [vehicle_rows@[j]@[1], vehicle_rows@[j]@[2], vehicle_rows@[j]@[3]]),
            forall|j: int| 0 <= j < i ==> vehicle_row_ok(#[trigger] vehicle_rows@[j]@),
        decreases nvehicles - i,
    {
        let row = &vehicle_rows[i];
        if row.len() < 4 {
            return None;
        }
        vehicles.push([row[1], row[2], row[3]]);
        proof {
            assert(vehicles@ =~= Seq::new((i + 1) as nat, |j: int| [vehicle_rows@[j]@[1], vehicle_rows@[j]@[2], vehicle_rows@[j]@[3]]));
        }
        i = i + 1;
    }
    let mut calls: Vec<[i32; 8]> = Vec::new();
    let mut i: usize = 0;
    while i < ncalls
        invariant
            i <= ncalls,
            call_rows@.len() == ncalls,
            calls@ == Seq::new(i as nat, |j: int| {
                let row = call_rows@[j]@;
                [row[1], row[2], row[3], row[4], row[5], row[6], row[7], row[8]]
            }),
            forall|j: int| 0 <= j < i ==> call_row_ok(#[trigger] call_rows@[j]@),
        decreases ncalls - i,
    {
        let row = &call_rows[i];
        if row.len() < 9 {
            return None;
        }
        calls.push([row[1], row[2], row[3], row[4], row[5], row[6], row[7], row[8]]);
        proof {
            assert(calls@ =~= Seq::new((i + 1) as nat, |j: int| {
                let row = call_rows@[j]@;
                [row[1], row[2], row[3], row[4], row[5], row[6], row[7], row[8]]
            }));
        }
        i = i + 1;
    }
    let size = NNODES * NNODES * nvehicles;
    let mut travel: Vec<[i32; 4]> = Vec::new();
    let mut i: usize = 0;
    while i < size
        invariant
            i <= size,
            size == NNODES * NNODES * nvehicles,
            travel@ == Seq::new(i as nat, |j: int| [0i32, 0i32, 0i32, 0i32]),
        decreases size - i,
    {
        travel.push([0i32, 0i32, 0i32, 0i32]);
        proof {
            assert(travel@ =~= Seq::new((i + 1) as nat, |j: int| [0i32, 0i32, 0i32, 0i32]));
        }
        i = i + 1;
    }
    proof {
        assert(travel@ =~= travel_table_from(travel_rows@, 0, nvehicles as int));
    }
    let mut k: usize = 0;
    while k < travel_rows.len()
        invariant
            k <= travel_rows@.len(),
            size == NNODES * NNODES * nvehicles,
            travel@ == travel_table_from(travel_rows@, k as int, nvehicles as int),
            travel@.len() == size,
            forall|j: int| 0 <= j < k ==> travel_row_ok(#[trigger] travel_rows@[j]@, nvehicles as int),
        decreases travel_rows@.len() - k,
    {
        let row = &travel_rows[k];
        if row.len() < 5 || row[0] < 1 || row[0] as usize > nvehicles || row[1] < 1 || row[1] as usize > NNODES
            || row[2] < 1 || row[2] as usize > NNODES {
            return None;
        }
        let v = (row[0] - 1) as usize;
        proof {
            lemma_known_nodes_readable(travel@, nvehicles as int, v as int, row@[1] as int, row@[2] as int);
        }
        let index = travel_position(v, row[1], row[2], travel.as_slice());
        travel.set(index, [row[1], row[2], row[3], row[4]]);
        k = k + 1;
    }
    let nsize = ncalls * nvehicles;
    let mut nodes: Vec<[i32; 5]> = Vec::new();
    let mut i: usize = 0;
    while i < nsize
        invariant
            i <= nsize,
            nodes@ == Seq::new(i as nat, |j: int| [0i32, 0i32, 0i32, 0i32, 0i32]),
        decreases nsize - i,
    {
        nodes.push([0i32, 0i32, 0i32, 0i32, 0i32]);
        proof {
            assert(nodes@ =~= Seq::new((i + 1) as nat, |j: int| [0i32, 0i32, 0i32, 0i32, 0i32]));
        }
        i = i + 1;
    }
    proof {
        assert(nodes@ =~= node_table_from(node_rows@, 0, nvehicles as int, ncalls as int));
    }
    let mut k: usize = 0;
    while k < node_rows.len()
        invariant
            k <= node_rows@.len(),
            nsize == ncalls * nvehicles,
            nodes@ == node_table_from(node_rows@, k as int, nvehicles as int, ncalls as int),
            nodes@.len() == nsize,
            forall|j: int| 0 <= j < k ==> node_row_ok(#[trigger] node_rows@[j]@, nvehicles as int, ncalls as int),
        decreases node_rows@.len() - k,
    {
        let row = &node_rows[k];
        if row.len() < 6 || row[0] < 1 || row[0] as usize > nvehicles || row[1] < 1 || row[1] as usize > ncalls {
            return None;
        }
        let v = (row[0] - 1) as usize;
        let c = (row[1] - 1) as usize;
        proof {
            assert(c + v * ncalls < ncalls * nvehicles) by (nonlinear_arith)
                requires c < ncalls, v < nvehicles;
            assert(v * ncalls >= 0) by (nonlinear_arith) requires v >= 0, ncalls >= 0;
        }
        let index = c + v * ncalls;
        nodes.set(index, [row[1], row[2], row[3], row[4], row[5]]);
        k = k + 1;
    }
    proof {
        assert(rows_ok(nvehicles as int, ncalls as int, vehicle_rows@, call_rows@, travel_rows@, node_rows@));
        assert(ncalls * nvehicles == calls@.len() * vehicles@.len());
    }
    Some((vehicles, calls, travel, nodes))
}


/// The pieces of `s` between the separators, in order: one more than the
/// separators.
pub open spec fn split_on(s: Seq<u8>, sep: u8) -> Seq<Seq<u8>>
    decreases s.len(),
{
    if s.len() == 0 {
        seq![Seq::<u8>::empty()]
    } else {
        let p = split_on(s.drop_last(), sep);
        if s.last() == sep {
            p.push(Seq::<u8>::empty())
        } else {
            p.update(p.len() - 1, p.last().push(s.last()))
        }
    }
}

/// A space, a tab or a carriage return.
pub open spec fn is_blank(b: u8) -> bool {
    b == 32 || b == 9 || b == 13
}

/// The bytes without their trailing blanks.
pub open spec fn trim_end(f: Seq<u8>) -> Seq<u8>
    decreases f.len(),
{
    if f.len() > 0 && is_blank(f.last()) {
        trim_end(f.drop_last())
    } else {
        f
    }
}

/// The bytes without their leading blanks.
pub open spec fn trim_front(f: Seq<u8>) -> Seq<u8>
    decreases f.len(),
{
    if f.len() > 0 && is_blank(f[0]) {
        trim_front(f.drop_first())
    } else {
        f
    }
}

/// The byte is a decimal digit.
pub open spec fn is_digit(b: u8) -> bool {
    48 <= b <= 57
}

/// The number the decimal digits spell.
pub open spec fn digits_value(d: Seq<u8>) -> int
    decreases d.len(),
{
    if d.len() == 0 {
        0
    } else {
        digits_value(d.drop_last()) * 10 + (d.last() - 48)
    }
}

/// The number a field holds: blanks around an optional minus sign and at
/// least one digit; `None` for anything else.
pub open spec fn field_value(f: Seq<u8>) -> Option<int> {
    let t = trim_front(trim_end(f));
    if t.len() > 1 && t[0] == 45 && forall|i: int| 1 <= i < t.len() ==> is_digit(#[trigger] t[i]) {
        Some(-digits_value(t.drop_first()))
    } else if t.len() > 0 && forall|i: int| 0 <= i < t.len() ==> is_digit(#[trigger] t[i]) {
        Some(digits_value(t))
    } else {
        None
    }
}

/// The field holds a number that fits in an `i32`.
pub open spec fn field_ok(f: Seq<u8>) -> bool {
    field_value(f) matches Some(v) && fits(v)
}

/// The numbers of a line of comma-separated fields, or `None` when a field
/// holds no number or one that does not fit in an `i32`.
pub open spec fn fields_spec(line: Seq<u8>) -> Option<Seq<i32>> {
    let fs = split_on(line, 44);
    if forall|j: int| 0 <= j < fs.len() ==> field_ok(#[trigger] fs[j]) {
        Some(Seq::new(fs.len(), |j: int| field_value(fs[j])->Some_0 as i32))
    } else {
        None
    }
}

proof fn lemma_digits_value_grows(d: Seq<u8>, k: int)
    requires
        0 <= k <= d.len(),
        forall|i: int| 0 <= i < d.len() ==> is_digit(#[trigger] d[i]),
    ensures
        0 <= digits_value(d.take(k)) <= digits_value(d),
    decreases d.len(),
{
    if d.len() > 0 {
        if k == d.len() {
            assert(d.take(k) =~= d);
            lemma_digits_value_grows(d.drop_last(), d.len() - 1);
            assert(d.drop_last().take(d.len() - 1) =~= d.drop_last());
        } else {
            lemma_digits_value_grows(d.drop_last(), k);
            assert(d.drop_last().take(k) =~= d.take(k));
            lemma_digits_value_grows(d.drop_last(), d.len() - 1);
            assert(d.drop_last().take(d.len() - 1) =~= d.drop_last());
        }
    }
}

/// The number held by `line[lo..hi]` (see [`field_value`]), when it fits in
/// an `i32`.
fn parse_field(line: &[u8], lo: usize, hi: usize) -> (r: Option<i32>)
    requires
        lo <= hi <= line@.len(),
    ensures
        r matches Some(v) ==> field_value(line@.subrange(lo as int, hi as int)) == Some(v as int),
        r is None ==> !field_ok(line@.subrange(lo as int, hi as int)),
{
    let ghost f = line@.subrange(lo as int, hi as int);
    let mut e = hi;
    while e > lo && (line[e - 1] == 32 || line[e - 1] == 9 || line[e - 1] == 13)
        invariant
            lo <= e <= hi <= line@.len(),
            f == line@.subrange(lo as int, hi as int),
            trim_end(f) == trim_end(line@.subrange(lo as int, e as int)),
        decreases e,
    {
        proof {
            assert(line@.subrange(lo as int, e as int).drop_last() =~= line@.subrange(lo as int, e - 1));
        }
        e = e - 1;
    }
    proof {
        let g = line@.subrange(lo as int, e as int);
        assert(!(g.len() > 0 && is_blank(g.last())));
        assert(trim_end(g) == g);
    }
    let mut b = lo;
    while b < e && (line[b] == 32 || line[b] == 9 || line[b] == 13)
        invariant
            lo <= b <= e <= hi <= line@.len(),
            trim_front(trim_end(f)) == trim_front(line@.subrange(b as int, e as int)),
        decreases e - b,
    {
        proof {
            assert(line@.subrange(b as int, e as int).drop_first() =~= line@.subrange(b + 1, e as int));
        }
        b = b + 1;
    }
    let ghost t = line@.subrange(b as int, e as int);
    proof {
        assert(!(t.len() > 0 && is_blank(t[0])));
        assert(trim_front(t) == t);
    }
    if b == e {
        proof {
            assert(t.len() == 0);
        }
        return None;
    }
    let negative = line[b] == 45;
    let start = if negative { b + 1 } else { b };
    if start == e {
        proof {
            assert(t[0] == line@[b as int]);
        }
        return None;
    }
    let ghost d = line@.subrange(start as int, e as int);
    proof {
        if negative {
            assert(d =~= t.drop_first());
        } else {
            assert(d =~= t);
        }
    }
    let mut acc: i64 = 0;
    let mut i = start;
    while i < e
        invariant
            start <= i <= e <= line@.len(),
            d == line@.subrange(start as int, e as int),
            t == line@.subrange(b as int, e as int),
            f == line@.subrange(lo as int, hi as int),
            trim_front(trim_end(f)) == t,
            b < e,
            negative == (line@[b as int] == 45),
            start == if negative { b + 1 } else { b as int },
            forall|k: int| start <= k < i ==> is_digit(#[trigger] line@[k]),
            acc == digits_value(d.take(i - start)),
            0 <= acc <= 2147483648,
        decreases e - i,
    {
        let c = line[i];
        if c < 48 || c > 57 {
            proof {
                assert(t[0] == line@[b as int]);
                assert(t[i - b] == c);
            }
            return None;
        }
        proof {
            assert(d.take(i - start + 1).drop_last() =~= d.take(i - start));
        }
        let next = acc * 10 + (c - 48) as i64;
        if next > 2147483648 {
            proof {
                assert(t[0] == line@[b as int]);
                if forall|k: int| 0 <= k < d.len() ==> is_digit(#[trigger] d[k]) {
                    lemma_digits_value_grows(d, i - start + 1);
                    if negative {
                        assert(t.drop_first() =~= d);
                    }
                } else {
                    let k = choose|k: int| 0 <= k < d.len() && !is_digit(#[trigger] d[k]);
                    if negative {
                        assert(t[k + 1] == d[k]);
                    } else {
                        assert(t[k] == d[k]);
                    }
                }
            }
            return None;
        }
        acc = next;
        i = i + 1;
    }
    proof {
        assert(d.take(d.len() as int) =~= d);
        assert forall|k: int| 0 <= k < d.len() implies is_digit(#[trigger] d[k]) by {
            assert(d[k] == line@[start + k]);
        }
    }
    if negative {
        proof {
            assert forall|k: int| 1 <= k < t.len() implies is_digit(#[trigger] t[k]) by {
                assert(t[k] == d[k - 1]);
            }
        }
        Some((-acc) as i32)
    } else {
        if acc > 2147483647 {
            return None;
        }
        Some(acc as i32)
    }
}


proof fn lemma_split_prefix(s: Seq<u8>, sep: u8, k: int, n: int)
    requires
        0 <= k <= n <= s.len(),
    ensures
        split_on(s.take(k), sep).len() >= 1,
        split_on(s.take(k), sep).len() <= split_on(s.take(n), sep).len(),
        forall|j: int| 0 <= j < split_on(s.take(k), sep).len() - 1 ==> #[trigger] split_on(s.take(n), sep)[j]
            == split_on(s.take(k), sep)[j],
    decreases n,
{
    lemma_split_nonempty(s.take(k), sep);
    if n > k {
        lemma_split_prefix(s, sep, k, n - 1);
        assert(s.take(n).drop_last() =~= s.take(n - 1));
        lemma_split_nonempty(s.take(n - 1), sep);
    }
}

proof fn lemma_split_nonempty(s: Seq<u8>, sep: u8)
    ensures
        split_on(s, sep).len() >= 1,
    decreases s.len(),
{
    if s.len() > 0 {
        lemma_split_nonempty(s.drop_last(), sep);
    }
}

/// The numbers of a line of comma-separated fields (see [`fields_spec`]).
pub fn parse_fields(line: &[u8]) -> (r: Option<Vec<i32>>)
    ensures
        r matches Some(v) ==> fields_spec(line@) == Some(v@),
        r is None ==> fields_spec(line@) is None,
{
    let ghost s = line@;
    let ghost mut done: Seq<Seq<u8>> = Seq::empty();
    let mut values: Vec<i32> = Vec::new();
    let mut start: usize = 0;
    let mut i: usize = 0;
    proof {
        assert(s.take(0) =~= Seq::<u8>::empty());
        assert(split_on(s.take(0), 44) =~= done.push(s.subrange(0, 0)));
    }
    while i < line.len()
        invariant
            s == line@,
            start <= i <= s.len(),
            split_on(s.take(i as int), 44) == done.push(s.subrange(start as int, i as int)),
            values@.len() == done.len(),
            forall|j: int| 0 <= j < done.len() ==> field_ok(#[trigger] done[j]) && values@[j] == field_value(done[j])->Some_0,
        decreases s.len() - i,
    {
        proof {
            assert(s.take(i + 1).drop_last() =~= s.take(i as int));
        }
        if line[i] == 44 {
            match parse_field(line, start, i) {
                Some(v) => {
                    proof {
                        done = done.push(s.subrange(start as int, i as int));
                    }
                    values.push(v);
                    start = i + 1;
                    proof {
                        assert(s.take(i + 1).last() == 44);
                        assert(s.subrange(start as int, i + 1) =~= Seq::<u8>::empty());
                        assert(split_on(s.take(i + 1), 44) =~= split_on(s.take(i as int), 44).push(Seq::<u8>::empty()));
                        assert(split_on(s.take(i + 1), 44) =~= done.push(s.subrange(start as int, i + 1)));
                    }
                },
                None => {
                    proof {
                        lemma_split_prefix(s, 44, i + 1, s.len() as int);
                        assert(s.take(s.len() as int) =~= s);
                        let fs = split_on(s, 44);
                        assert(fs[done.len() as int] == s.subrange(start as int, i as int));
                        assert(!field_ok(fs[done.len() as int]));
                    }
                    return None;
                },
            }
        } else {
            proof {
                assert(s.subrange(start as int, i + 1) =~= s.subrange(start as int, i as int).push(s[i as int]));
                assert(split_on(s.take(i + 1), 44) =~= done.push(s.subrange(start as int, i + 1)));
            }
        }
        i = i + 1;
    }
    proof {
        assert(s.take(s.len() as int) =~= s);
    }
    let ghost fs = split_on(s, 44);
    match parse_field(line, start, line.len()) {
        Some(v) => {
            values.push(v);
            proof {
                assert forall|j: int| 0 <= j < fs.len() implies field_ok(#[trigger] fs[j]) by {
                    if j < done.len() {
                        assert(fs[j] == done[j]);
                    }
                }
                assert(values@ =~= Seq::new(fs.len(), |j: int| field_value(fs[j])->Some_0 as i32));
            }
            Some(values)
        },
        None => {
            proof {
                assert(fs[done.len() as int] == s.subrange(start as int, s.len() as int));
            }
            None
        },
    }
}

} // verus!
