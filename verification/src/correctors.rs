use vstd::prelude::*;
use crate::validity_check::{
    a_to_b_time, call_fields, deconstruct_call, fits, lemma_occurrences_bounds, occurrences, travel_readable, travel_row,
};

verus! {

/// Positions, among the first `n`, of the entries whose value already
/// occurred twice before them.
pub open spec fn excess_positions(solution: Seq<i32>, n: int) -> Seq<int>
    decreases n,
{
    if n <= 0 {
        Seq::empty()
    } else {
        let prev = excess_positions(solution, n - 1);
        if occurrences(solution.take(n - 1), solution[n - 1] as int) >= 2 {
            prev.push(n - 1)
        } else {
            prev
        }
    }
}

/// The entry at position `p` names a call that already occurred twice before
/// it.
pub open spec fn is_excess(s: Seq<i32>, p: int) -> bool {
    occurrences(s.take(p), s[p] as int) >= 2
}

/// A count, capped at two.
pub open spec fn at_most_two(x: int) -> int {
    if x >= 2 { 2 } else { x }
}

proof fn lemma_excess_positions(solution: Seq<i32>, n: int)
    requires
        0 <= n <= solution.len(),
    ensures
        excess_positions(solution, n).len() <= n,
        forall|j: int| 0 <= j < excess_positions(solution, n).len() ==> 0 <= #[trigger] excess_positions(solution, n)[j] < n,
        forall|i: int, j: int| 0 <= i < j < excess_positions(solution, n).len() ==> #[trigger] excess_positions(solution, n)[i]
            < #[trigger] excess_positions(solution, n)[j],
    decreases n,
{
    if n > 0 {
        lemma_excess_positions(solution, n - 1);
    }
}

proof fn lemma_excess_positions_exact(s: Seq<i32>, n: int)
    requires
        0 <= n <= s.len(),
    ensures
        forall|t: int| 0 <= t < excess_positions(s, n).len() ==> is_excess(s, #[trigger] excess_positions(s, n)[t]),
        forall|p: int| 0 <= p < n && is_excess(s, p) ==> exists|t: int|
            0 <= t < excess_positions(s, n).len() && #[trigger] excess_positions(s, n)[t] == p,
    decreases n,
{
    lemma_excess_positions(s, n);
    if n > 0 {
        lemma_excess_positions_exact(s, n - 1);
        let prev = excess_positions(s, n - 1);
        let cur = excess_positions(s, n);
        assert forall|p: int| 0 <= p < n && is_excess(s, p) implies exists|t: int|
            0 <= t < cur.len() && #[trigger] cur[t] == p by {
            if p == n - 1 {
                assert(cur[prev.len() as int] == p);
            } else {
                let t = choose|t: int| 0 <= t < prev.len() && #[trigger] prev[t] == p;
                assert(cur[t] == p);
            }
        }
    }
}

/// How often each call occurs, counting at most two: entry `i` is for call
/// `i + 1`.
pub open spec fn capped_counts(solution: Seq<i32>, ncalls: int) -> Seq<i32> {
    Seq::new(ncalls as nat, |i: int| at_most_two(occurrences(solution, i + 1)) as i32)
}

/// The calls among the first `c` that occur fewer than twice, in order, each
/// listed as many times as it is short of two.
pub open spec fn short_calls(counts: Seq<i32>, c: int) -> Seq<i32>
    decreases c,
{
    if c <= 0 {
        Seq::empty()
    } else {
        short_calls(counts, c - 1) + Seq::new((2 - counts[c - 1]) as nat, |k: int| c as i32)
    }
}

/// The excess positions, taken from the last, get the calls of `calls` in
/// order: the first `j` of them.
pub open spec fn fill_excess(s: Seq<i32>, open: Seq<int>, calls: Seq<i32>, j: int) -> Seq<i32>
    decreases j,
{
    if j <= 0 {
        s
    } else {
        fill_excess(s, open, calls, j - 1).update(open[open.len() - j], calls[j - 1])
    }
}

/// The solution with its surplus entries (those naming a call that already
/// occurred twice before them) handed to the calls that occur fewer than
/// twice: the last surplus entry gets the first short call, and so on, each
/// short call getting as many entries as it lacks, as long as entries last.
pub open spec fn overcalling_spec(solution: Seq<i32>) -> Seq<i32> {
    let ncalls = solution.len() as int / 2;
    let open = excess_positions(solution, solution.len() as int);
    let calls = short_calls(capped_counts(solution, ncalls), ncalls);
    fill_excess(solution, open, calls, if open.len() <= calls.len() { open.len() as int } else { calls.len() as int })
}

proof fn lemma_short_calls(counts: Seq<i32>, a: int, b: int)
    requires
        0 <= a <= b <= counts.len() <= i32::MAX,
        forall|i: int| 0 <= i < counts.len() ==> 0 <= #[trigger] counts[i] <= 2,
    ensures
        short_calls(counts, a).len() <= short_calls(counts, b).len(),
        forall|k: int| 0 <= k < short_calls(counts, a).len() ==> #[trigger] short_calls(counts, b)[k] == short_calls(
            counts,
            a,
        )[k],
        forall|k: int| 0 <= k < short_calls(counts, b).len() ==> 1 <= #[trigger] short_calls(counts, b)[k] <= b
            && counts[short_calls(counts, b)[k] - 1] < 2,
    decreases b,
{
    if b > 0 {
        if a < b {
            lemma_short_calls(counts, a, b - 1);
        } else {
            lemma_short_calls(counts, b - 1, b - 1);
        }
        let prev = short_calls(counts, b - 1);
        let cur = short_calls(counts, b);
        assert forall|k: int| 0 <= k < cur.len() implies 1 <= #[trigger] cur[k] <= b && counts[cur[k] - 1] < 2 by {
            if k < prev.len() {
                assert(cur[k] == prev[k]);
            } else {
                let tail = Seq::new((2 - counts[b - 1]) as nat, |i: int| b as i32);
                assert(cur == prev + tail);
                assert(cur[k] == tail[k - prev.len()]);
            }
        }
    }
}

proof fn lemma_fill_excess(s: Seq<i32>, open: Seq<int>, calls: Seq<i32>, j: int, ncalls: int)
    requires
        0 <= j <= open.len(),
        j <= calls.len(),
        forall|t: int| 0 <= t < open.len() ==> 0 <= #[trigger] open[t] < s.len(),
        forall|k: int| 0 <= k < calls.len() ==> 1 <= #[trigger] calls[k] <= ncalls && occurrences(s, calls[k] as int) < 2,
    ensures
        fill_excess(s, open, calls, j).len() == s.len(),
        forall|p: int| 0 <= p < s.len() && (forall|t: int| open.len() - j <= t < open.len() ==> #[trigger] open[t] != p)
            ==> fill_excess(s, open, calls, j)[p] == s[p],
        forall|p: int| 0 <= p < s.len() ==> #[trigger] fill_excess(s, open, calls, j)[p] == s[p] || (1
            <= fill_excess(s, open, calls, j)[p] <= ncalls && occurrences(s, fill_excess(s, open, calls, j)[p] as int)
            < 2),
    decreases j,
{
    if j > 0 {
        lemma_fill_excess(s, open, calls, j - 1, ncalls);
        let prev = fill_excess(s, open, calls, j - 1);
        let q = open[open.len() - j];
        assert forall|p: int| 0 <= p < s.len() && (forall|t: int| open.len() - j <= t < open.len() ==> #[trigger] open[t] != p)
            implies fill_excess(s, open, calls, j)[p] == s[p] by {
            assert(open[open.len() - j] != p);
            assert forall|t: int| open.len() - (j - 1) <= t < open.len() implies #[trigger] open[t] != p by {}
        }
        assert forall|p: int| 0 <= p < s.len() implies #[trigger] fill_excess(s, open, calls, j)[p] == s[p] || (1
            <= fill_excess(s, open, calls, j)[p] <= ncalls && occurrences(s, fill_excess(s, open, calls, j)[p] as int)
            < 2) by {
            if p != q {
                assert(fill_excess(s, open, calls, j)[p] == prev[p]);
            } else {
                assert(fill_excess(s, open, calls, j)[p] == calls[j - 1]);
            }
        }
    }
}

proof fn lemma_occurrences_update(s: Seq<i32>, p: int, v: i32, x: int)
    requires
        0 <= p < s.len(),
    ensures
        occurrences(s.update(p, v), x) == occurrences(s, x) - (if s[p] == x { 1int } else { 0int }) + (if v == x {
            1int
        } else {
            0int
        }),
    decreases s.len(),
{
    let u = s.update(p, v);
    if p == s.len() - 1 {
        assert(u.drop_last() =~= s.drop_last());
    } else {
        assert(u.drop_last() =~= s.drop_last().update(p, v));
        lemma_occurrences_update(s.drop_last(), p, v, x);
    }
}

proof fn lemma_occurrences_concat(a: Seq<i32>, b: Seq<i32>, x: int)
    ensures
        occurrences(a + b, x) == occurrences(a, x) + occurrences(b, x),
    decreases b.len(),
{
    if b.len() == 0 {
        assert(a + b =~= a);
    } else {
        assert((a + b).drop_last() =~= a + b.drop_last());
        lemma_occurrences_concat(a, b.drop_last(), x);
    }
}

proof fn lemma_occurrences_repeat(v: i32, k: nat, x: int)
    ensures
        occurrences(Seq::new(k, |i: int| v), x) == if v == x { k as int } else { 0int },
    decreases k,
{
    if k > 0 {
        assert(Seq::new(k, |i: int| v).drop_last() =~= Seq::new((k - 1) as nat, |i: int| v));
        lemma_occurrences_repeat(v, (k - 1) as nat, x);
    }
}

/// Total of the capped counts of the calls `1..=n`.
pub open spec fn capped_sum(s: Seq<i32>, n: int) -> int
    decreases n,
{
    if n <= 0 {
        0
    } else {
        capped_sum(s, n - 1) + at_most_two(occurrences(s, n))
    }
}

proof fn lemma_short_calls_count(s: Seq<i32>, ncalls: int, c: int, x: int)
    requires
        0 <= c <= ncalls <= i32::MAX,
    ensures
        short_calls(capped_counts(s, ncalls), c).len() == 2 * c - capped_sum(s, c),
        occurrences(short_calls(capped_counts(s, ncalls), c), x) == if 1 <= x <= c {
            2 - at_most_two(occurrences(s, x))
        } else {
            0
        },
    decreases c,
{
    if c > 0 {
        lemma_short_calls_count(s, ncalls, c - 1, x);
        let counts = capped_counts(s, ncalls);
        lemma_occurrences_bounds(s, c);
        let tail = Seq::new((2 - counts[c - 1]) as nat, |k: int| c as i32);
        assert(short_calls(counts, c) == short_calls(counts, c - 1) + tail);
        lemma_occurrences_concat(short_calls(counts, c - 1), tail, x);
        lemma_occurrences_repeat(c as i32, (2 - counts[c - 1]) as nat, x);
    }
}

proof fn lemma_capped_sum_push(t: Seq<i32>, v: i32, n: int)
    ensures
        capped_sum(t.push(v), n) == capped_sum(t, n) + if 1 <= v <= n && occurrences(t, v as int) < 2 { 1int } else { 0int },
    decreases n,
{
    assert(t.push(v).drop_last() =~= t);
    if n > 0 {
        lemma_capped_sum_push(t, v, n - 1);
    }
}

proof fn lemma_excess_and_capped(s: Seq<i32>, k: int, n: int)
    requires
        0 <= k <= s.len(),
        forall|i: int| 0 <= i < s.len() ==> 1 <= #[trigger] s[i] <= n,
    ensures
        excess_positions(s, k).len() + capped_sum(s.take(k), n) == k,
    decreases k,
{
    if k == 0 {
        lemma_capped_sum_empty(s.take(0), n);
    } else {
        lemma_excess_and_capped(s, k - 1, n);
        assert(s.take(k) =~= s.take(k - 1).push(s[k - 1]));
        lemma_capped_sum_push(s.take(k - 1), s[k - 1], n);
    }
}

proof fn lemma_capped_sum_empty(t: Seq<i32>, n: int)
    requires
        t.len() == 0,
    ensures
        capped_sum(t, n) == 0,
    decreases n,
{
    if n > 0 {
        lemma_capped_sum_empty(t, n - 1);
    }
}

/// How many of the positions `open[lo..]` hold `c` in `s`.
pub open spec fn count_from(s: Seq<i32>, open: Seq<int>, lo: int, c: int) -> int
    decreases open.len() - lo,
{
    if lo >= open.len() || lo < 0 {
        0
    } else {
        (if s[open[lo]] == c { 1int } else { 0int }) + count_from(s, open, lo + 1, c)
    }
}

proof fn lemma_count_from_push(s: Seq<i32>, open: Seq<int>, x: int, lo: int, c: int)
    requires
        0 <= lo <= open.len(),
    ensures
        count_from(s, open.push(x), lo, c) == count_from(s, open, lo, c) + if s[x] == c { 1int } else { 0int },
    decreases open.len() - lo,
{
    if lo < open.len() {
        lemma_count_from_push(s, open, x, lo + 1, c);
        assert(open.push(x)[lo] == open[lo]);
    } else {
        assert(open.push(x)[lo] == x);
        assert(count_from(s, open.push(x), lo + 1, c) == 0);
        assert(count_from(s, open, lo, c) == 0);
    }
}

proof fn lemma_excess_count(s: Seq<i32>, k: int, c: int)
    requires
        0 <= k <= s.len(),
    ensures
        count_from(s, excess_positions(s, k), 0, c) == occurrences(s.take(k), c) - at_most_two(occurrences(s.take(k), c)),
    decreases k,
{
    if k > 0 {
        lemma_excess_count(s, k - 1, c);
        assert(s.take(k).drop_last() =~= s.take(k - 1));
        if is_excess(s, k - 1) {
            lemma_count_from_push(s, excess_positions(s, k - 1), k - 1, 0, c);
        }
    }
}

proof fn lemma_fill_excess_count(s: Seq<i32>, open: Seq<int>, calls: Seq<i32>, j: int, c: int)
    requires
        0 <= j <= open.len(),
        j <= calls.len(),
        forall|t: int| 0 <= t < open.len() ==> 0 <= #[trigger] open[t] < s.len(),
        forall|a: int, b: int| 0 <= a < b < open.len() ==> #[trigger] open[a] < #[trigger] open[b],
    ensures
        fill_excess(s, open, calls, j).len() == s.len(),
        forall|t: int| 0 <= t < open.len() - j ==> #[trigger] fill_excess(s, open, calls, j)[open[t]] == s[open[t]],
        occurrences(fill_excess(s, open, calls, j), c) == occurrences(s, c) - count_from(s, open, open.len() - j, c)
            + occurrences(calls.take(j), c),
    decreases j,
{
    if j == 0 {
        assert(calls.take(0) =~= Seq::<i32>::empty());
    } else {
        lemma_fill_excess_count(s, open, calls, j - 1, c);
        let prev = fill_excess(s, open, calls, j - 1);
        let q = open[open.len() - j];
        assert(prev[q] == s[q]);
        lemma_occurrences_update(prev, q, calls[j - 1], c);
        assert(calls.take(j).drop_last() =~= calls.take(j - 1));
        assert forall|t: int| 0 <= t < open.len() - j implies #[trigger] fill_excess(s, open, calls, j)[open[t]]
            == s[open[t]] by {
            assert(open[t] < q);
            assert(prev[open[t]] == s[open[t]]);
        }
    }
}

/// After the repair every call occurs exactly twice: the surplus entries are
/// exactly as many as the missing ones, and each call short of two gets as
/// many as it lacks.
pub proof fn lemma_overcalling_leaves_every_call_twice(solution: Seq<i32>)
    requires
        solution.len() <= i32::MAX,
        solution.len() % 2 == 0,
        forall|k: int| 0 <= k < solution.len() ==> 1 <= #[trigger] solution[k] <= solution.len() / 2,
    ensures
        forall|c: int| 1 <= c <= solution.len() / 2 ==> #[trigger] occurrences(overcalling_spec(solution), c) == 2,
{
    let s = solution;
    let len = s.len() as int;
    let n = len / 2;
    let open = excess_positions(s, len);
    let calls = short_calls(capped_counts(s, n), n);
    assert(s.take(len) =~= s);
    lemma_excess_positions(s, len);
    lemma_excess_and_capped(s, len, n);
    lemma_short_calls_count(s, n, n, 0);
    assert(open.len() == calls.len());
    assert(calls.take(calls.len() as int) =~= calls);
    assert forall|c: int| 1 <= c <= n implies #[trigger] occurrences(overcalling_spec(s), c) == 2 by {
        lemma_fill_excess_count(s, open, calls, open.len() as int, c);
        lemma_excess_count(s, len, c);
        lemma_short_calls_count(s, n, n, c);
    }
}

/// Hands the surplus entries of a solution (those naming a call that already
/// occurred twice before them) to the calls that occur fewer than twice (see
/// [`overcalling_spec`]): every changed entry names a call that occurred
/// fewer than twice, every other entry stays, and every call ends up
/// occurring exactly twice. Calls are numbered from 1, and there are half as
/// many calls as entries.
#[verifier::spinoff_prover]
pub fn _correct_overcalling(solution: &[i32]) -> (r: Vec<i32>)
    requires
        solution@.len() <= i32::MAX,
        solution@.len() % 2 == 0,
        forall|k: int| 0 <= k < solution@.len() ==> 1 <= #[trigger] solution@[k] <= solution@.len() / 2,
    ensures
        r@ == overcalling_spec(solution@),
        r@.len() == solution@.len(),
        forall|p: int| 0 <= p < solution@.len() && !is_excess(solution@, p) ==> #[trigger] r@[p] == solution@[p],
        forall|p: int| 0 <= p < solution@.len() && r@[p] != solution@[p] ==> 1 <= #[trigger] r@[p] <= solution@.len() / 2
            && occurrences(solution@, r@[p] as int) < 2,
        forall|c: int| 1 <= c <= solution@.len() / 2 ==> #[trigger] occurrences(r@, c) == 2,
{
    let ghost sol = solution@;
    let ncalls = solution.len() / 2;
    let mut counter: Vec<i32> = Vec::new();
    let mut c: usize = 0;
    while c < ncalls
        invariant
            c <= ncalls,
            counter@.len() == c,
            forall|j: int| 0 <= j < c ==> #[trigger] counter@[j] == 0,
        decreases ncalls - c,
    {
        counter.push(0);
        c = c + 1;
    }
    let mut output = vstd::slice::slice_to_vec(solution);
    let mut open_indices: Vec<usize> = Vec::new();
    let mut idx: usize = 0;
    while idx < solution.len()
        invariant
            sol == solution@,
            ncalls == sol.len() / 2,
            idx <= sol.len(),
            forall|k: int| 0 <= k < sol.len() ==> 1 <= #[trigger] sol[k] <= ncalls,
            counter@.len() == ncalls,
            forall|j: int| 0 <= j < ncalls ==> #[trigger] counter@[j] == at_most_two(occurrences(sol.take(idx as int), j + 1)),
            forall|j: int| 0 <= j < ncalls ==> 0 <= #[trigger] occurrences(sol.take(idx as int), j + 1) <= idx,
            open_indices@.len() == excess_positions(sol, idx as int).len(),
            forall|j: int| 0 <= j < open_indices@.len() ==> #[trigger] open_indices@[j] as int == excess_positions(
                sol,
                idx as int,
            )[j],
        decreases sol.len() - idx,
    {
        let call = (solution[idx] - 1) as usize;
        proof {
            assert(sol.take(idx + 1).drop_last() =~= sol.take(idx as int));
            assert forall|j: int| 0 <= j < ncalls implies 0 <= #[trigger] occurrences(sol.take(idx + 1), j + 1) <= idx + 1 by {
                lemma_occurrences_bounds(sol.take(idx + 1), j + 1);
            }
        }
        if counter[call] <= 1 {
            let inc = counter[call] + 1;
            counter.set(call, inc);
        } else {
            open_indices.push(idx);
        }
        idx = idx + 1;
    }
    proof {
        assert(sol.take(sol.len() as int) =~= sol);
        assert(counter@ =~= capped_counts(sol, ncalls as int));
        lemma_excess_positions(sol, sol.len() as int);
        lemma_excess_positions_exact(sol, sol.len() as int);
        lemma_short_calls(counter@, 0, ncalls as int);
    }
    let ghost open = excess_positions(sol, sol.len() as int);
    let ghost m = open.len() as int;
    let ghost calls = short_calls(counter@, ncalls as int);
    let mut ci: usize = 0;
    while ci < ncalls
        invariant
            sol == solution@,
            ci <= ncalls,
            ncalls == sol.len() / 2,
            sol.len() <= i32::MAX,
            counter@.len() == ncalls,
            forall|j: int| 0 <= j < ncalls ==> 0 <= #[trigger] counter@[j] <= 2,
            calls == short_calls(counter@, ncalls as int),
            m == open.len(),
            m <= sol.len(),
            forall|j: int| 0 <= j < m ==> 0 <= #[trigger] open[j] < sol.len(),
            forall|j: int| 0 <= j < open_indices@.len() ==> #[trigger] open_indices@[j] as int == open[j],
            output@.len() == sol.len(),
            ({
                let done = short_calls(counter@, ci as int).len() as int;
                if done <= m {
                    open_indices@.len() == m - done && output@ == fill_excess(sol, open, calls, done)
                } else {
                    open_indices@.len() == 0 && output@ == fill_excess(sol, open, calls, m)
                }
            }),
        decreases ncalls - ci,
    {
        let c_num = (ci + 1) as i32;
        let mut count = counter[ci];
        let ghost before = short_calls(counter@, ci as int);
        let ghost after = short_calls(counter@, ci + 1);
        let ghost base = count as int;
        proof {
            lemma_short_calls(counter@, ci as int, ci + 1);
            lemma_short_calls(counter@, ci + 1, ncalls as int);
            assert(after =~= before + Seq::new((2 - counter@[ci as int]) as nat, |k: int| (ci + 1) as i32));
        }
        let mut done = false;
        while count < 2 && !done
            invariant
                sol == solution@,
                m == open.len(),
                m <= sol.len(),
                sol.len() <= i32::MAX,
                forall|j: int| 0 <= j < m ==> 0 <= #[trigger] open[j] < sol.len(),
                forall|j: int| 0 <= j < open_indices@.len() ==> #[trigger] open_indices@[j] as int == open[j],
                output@.len() == sol.len(),
                0 <= base <= count <= 2,
                c_num == ci + 1,
                after.len() == before.len() + 2 - base,
                forall|k: int| before.len() <= k < after.len() ==> #[trigger] after[k] == c_num,
                after.len() <= calls.len(),
                forall|k: int| 0 <= k < after.len() ==> #[trigger] calls[k] == after[k],
                ({
                    let k = before.len() + count - base;
                    if k <= m {
                        open_indices@.len() == m - k && output@ == fill_excess(sol, open, calls, k)
                    } else {
                        open_indices@.len() == 0 && output@ == fill_excess(sol, open, calls, m)
                    }
                }),
                done ==> open_indices@.len() == 0,
            decreases 2 - count + if done { 0int } else { 1int },
        {
            match open_indices.pop() {
                Some(i) => {
                    proof {
                        let k = before.len() + count - base;
                        assert(calls[k] == c_num);
                        assert(i as int == open[m - (k + 1)]);
                    }
                    output.set(i, c_num);
                    count = count + 1;
                },
                None => {
                    done = true;
                },
            }
        }
        ci = ci + 1;
    }
    proof {
        let j = if m <= calls.len() { m } else { calls.len() as int };
        assert(output@ == fill_excess(sol, open, calls, j));
        lemma_short_calls(counter@, ncalls as int, ncalls as int);
        assert forall|k: int| 0 <= k < calls.len() implies 1 <= #[trigger] calls[k] <= ncalls && occurrences(sol, calls[k] as int) < 2 by {
            assert(counter@[calls[k] - 1] < 2);
        }
        lemma_fill_excess(sol, open, calls, j, ncalls as int);
        assert forall|p: int| 0 <= p < sol.len() && !is_excess(sol, p) implies #[trigger] output@[p] == sol[p] by {
            assert forall|t: int| m - j <= t < m implies #[trigger] open[t] != p by {
                assert(is_excess(sol, open[t]));
            }
        }
        assert forall|p: int| 0 <= p < sol.len() && output@[p] != sol[p] implies 1 <= #[trigger] output@[p] <= sol.len() / 2
            && occurrences(sol, output@[p] as int) < 2 by {
            assert(output@[p] == fill_excess(sol, open, calls, j)[p]);
        }
        assert(output@ == overcalling_spec(sol));
        lemma_overcalling_leaves_every_call_twice(sol);
        assert forall|c: int| 1 <= c <= sol.len() / 2 implies #[trigger] occurrences(output@, c) == 2 by {
            assert(occurrences(overcalling_spec(sol), c) == 2);
        }
    }
    output
}

/// Position of the `n`-th occurrence (from 1) of `call` in the solution.
fn _get_nth_occurrences(n_occurrence: usize, call: i32, solution: &[i32]) -> (r: Option<usize>)
    requires
        n_occurrence >= 1,
    ensures
        match r {
            Some(i) => i < solution@.len() && solution@[i as int] == call && occurrences(solution@.take(i as int),
                call as int) == n_occurrence - 1,
            None => occurrences(solution@, call as int) < n_occurrence,
        },
{
    let ghost sol = solution@;
    let mut seen: usize = 0;
    let mut idx: usize = 0;
    while idx < solution.len()
        invariant
            sol == solution@,
            idx <= sol.len(),
            n_occurrence >= 1,
            seen == occurrences(sol.take(idx as int), call as int),
            seen < n_occurrence,
        decreases sol.len() - idx,
    {
        proof {
            assert(sol.take(idx + 1).drop_last() =~= sol.take(idx as int));
        }
        if solution[idx] == call {
            if seen == n_occurrence - 1 {
                return Some(idx);
            }
            seen = seen + 1;
        }
        idx = idx + 1;
    }
    proof {
        assert(sol.take(sol.len() as int) =~= sol);
    }
    None
}

/// Walking back from position `idx` with the given arrival time, taking off
/// the travel time between each entry and the next (read as nodes), until
/// the time is within the bound.
pub open spec fn deliver_walk(solution: Seq<i32>, travel_costs: Seq<[i32; 4]>, vehicle_idx: int, idx: int, time: int, upper: int) -> int
    decreases idx,
{
    if time <= upper || idx <= 0 {
        idx
    } else {
        deliver_walk(solution, travel_costs, vehicle_idx, idx - 1,
            time - travel_row(travel_costs, vehicle_idx, solution[idx - 1] as int, solution[idx] as int)[2], upper)
    }
}

/// The walk back raises no panic: it stops before the front, every move is
/// in the travel table, and every difference fits in an `i32`.
pub open spec fn deliver_walk_safe(solution: Seq<i32>, travel_costs: Seq<[i32; 4]>, vehicle_idx: int, idx: int, time: int, upper: int) -> bool
    decreases idx,
{
    time <= upper || {
        let t = travel_row(travel_costs, vehicle_idx, solution[idx - 1] as int, solution[idx] as int)[2];
        &&& idx > 0
        &&& idx < solution.len()
        &&& travel_readable(travel_costs, vehicle_idx, solution[idx - 1] as int, solution[idx] as int)
        &&& fits(time - t)
        &&& deliver_walk_safe(solution, travel_costs, vehicle_idx, idx - 1, time - t, upper)
    }
}

/// The solution with the entry at `from` moved to position `to`, the
/// entries in between moving one place on.
pub open spec fn move_entry(solution: Seq<i32>, to: int, from: int, call: i32) -> Seq<i32> {
    solution.take(to) + seq![call] + solution.subrange(to, from) + solution.skip(from + 1)
}

/// Moving an entry earlier keeps the solution's entries: the same length,
/// each value as often as before; the entries before its new place and after
/// its old one stay where they were, and the entries in between move one
/// place on.
pub proof fn lemma_move_entry_keeps_entries(solution: Seq<i32>, to: int, from: int)
    requires
        0 <= to <= from < solution.len(),
    ensures
        ({
            let m = move_entry(solution, to, from, solution[from]);
            &&& m.len() == solution.len()
            &&& m.to_multiset() == solution.to_multiset()
            &&& m[to] == solution[from]
            &&& forall|p: int| 0 <= p < to ==> #[trigger] m[p] == solution[p]
            &&& forall|p: int| to < p <= from ==> #[trigger] m[p] == solution[p - 1]
            &&& forall|p: int| from < p < solution.len() ==> #[trigger] m[p] == solution[p]
        }),
{
    let call = solution[from];
    let a = solution.take(to);
    let b = solution.subrange(to, from);
    let c = solution.skip(from + 1);
    let one = seq![call];
    assert(solution =~= a + b + one + c);
    assert(move_entry(solution, to, from, call) =~= a + one + b + c);
    vstd::seq_lib::lemma_multiset_commutative(a, b);
    vstd::seq_lib::lemma_multiset_commutative(a + b, one);
    vstd::seq_lib::lemma_multiset_commutative(a + b + one, c);
    vstd::seq_lib::lemma_multiset_commutative(a, one);
    vstd::seq_lib::lemma_multiset_commutative(a + one, b);
    vstd::seq_lib::lemma_multiset_commutative(a + one + b, c);
    assert(a.to_multiset().add(b.to_multiset()).add(one.to_multiset())
        =~= a.to_multiset().add(one.to_multiset()).add(b.to_multiset()));
}

/// Moves entry `initial_call_idx` (holding `call`) to position `call_idx`,
/// the entries in between moving one place on.
fn move_call_back(solution: &[i32], call_idx: usize, initial_call_idx: usize, call: i32) -> (r: Vec<i32>)
    requires
        call_idx <= initial_call_idx < solution@.len(),
    ensures
        r@ == move_entry(solution@, call_idx as int, initial_call_idx as int, call),
{
    let ghost sol = solution@;
    let mut output = vstd::slice::slice_to_vec(solution);
    let mut insert_idx: usize = initial_call_idx;
    while insert_idx > call_idx
        invariant
            sol == solution@,
            call_idx <= insert_idx <= initial_call_idx < sol.len(),
            output@.len() == sol.len(),
            forall|p: int| 0 <= p <= insert_idx ==> #[trigger] output@[p] == sol[p],
            forall|p: int| insert_idx < p <= initial_call_idx ==> #[trigger] output@[p] == sol[p - 1],
            forall|p: int| initial_call_idx < p < sol.len() ==> #[trigger] output@[p] == sol[p],
        decreases insert_idx,
    {
        let prev = output[insert_idx - 1];
        output.set(insert_idx, prev);
        insert_idx = insert_idx - 1;
    }
    output.set(call_idx, call);
    proof {
        assert(output@ =~= move_entry(sol, call_idx as int, initial_call_idx as int, call));
    }
    output
}

/// Moves the delivery (second occurrence) of `call` earlier: walking back
/// from it, the travel times between consecutive entries are taken off the
/// arrival time until it is within `end_upper`; the delivery is moved to
/// where the walk stops.
pub fn _correct_deliver_too_late(
    vehicle_idx: usize,
    call: i32,
    arrival_time: i32,
    end_upper: i32,
    travel_costs: &[[i32; 4]],
    solution: &[i32],
) -> (r: Vec<i32>)
    requires
        occurrences(solution@, call as int) >= 2,
        forall|i: int| 0 <= i < solution@.len() && solution@[i] == call && occurrences(solution@.take(i), call as int) == 1
            ==> deliver_walk_safe(solution@, travel_costs@, vehicle_idx as int, i, arrival_time as int, end_upper as int),
    ensures
        exists|i: int| 0 <= i < solution@.len() && solution@[i] == call && occurrences(solution@.take(i), call as int) == 1
            && r@ == move_entry(solution@, deliver_walk(solution@, travel_costs@, vehicle_idx as int, i,
                arrival_time as int, end_upper as int), i, call),
{
    let ghost sol = solution@;
    let initial_call_idx = _get_nth_occurrences(2, call, solution).unwrap();
    let mut call_idx = initial_call_idx;
    let mut current_time = arrival_time;
    while current_time > end_upper
        invariant
            sol == solution@,
            call_idx <= initial_call_idx < sol.len(),
            deliver_walk(sol, travel_costs@, vehicle_idx as int, call_idx as int, current_time as int, end_upper as int)
                == deliver_walk(sol, travel_costs@, vehicle_idx as int, initial_call_idx as int, arrival_time as int,
                end_upper as int),
            deliver_walk_safe(sol, travel_costs@, vehicle_idx as int, call_idx as int, current_time as int,
                end_upper as int),
        decreases call_idx,
    {
        call_idx = call_idx - 1;
        let call_time = a_to_b_time(vehicle_idx, solution[call_idx], solution[call_idx + 1], travel_costs);
        current_time = current_time - call_time;
    }
    move_call_back(solution, call_idx, initial_call_idx, call)
}


/// Walking back from position `idx` with the given arrival time, taking off
/// the travel time from the destination of each entry's call to the origin
/// of the next one's, until the time is within the bound or the front is
/// reached.
pub open spec fn pickup_walk(
    solution: Seq<i32>,
    call_details: Seq<[i32; 8]>,
    travel_costs: Seq<[i32; 4]>,
    vehicle_idx: int,
    idx: int,
    time: int,
    upper: int,
) -> int
    decreases idx,
{
    if time <= upper || idx <= 0 {
        idx
    } else {
        let from_node = call_fields(call_details, solution[idx - 1] as int).1;
        let to_node = call_fields(call_details, solution[idx] as int).0;
        pickup_walk(solution, call_details, travel_costs, vehicle_idx, idx - 1,
            time - travel_row(travel_costs, vehicle_idx, from_node as int, to_node as int)[2], upper)
    }
}

/// The walk back raises no panic: it never has to step back from the second
/// entry, the entries name calls, the nodes are real nodes of the travel
/// table, and every difference fits in an `i32`.
pub open spec fn pickup_walk_safe(
    solution: Seq<i32>,
    call_details: Seq<[i32; 8]>,
    travel_costs: Seq<[i32; 4]>,
    vehicle_idx: int,
    idx: int,
    time: int,
    upper: int,
) -> bool
    decreases idx,
{
    time <= upper || idx <= 0 || {
        let from_node = call_fields(call_details, solution[idx - 1] as int).1;
        let to_node = call_fields(call_details, solution[idx] as int).0;
        let t = travel_row(travel_costs, vehicle_idx, from_node as int, to_node as int)[2];
        &&& idx >= 2
        &&& idx < solution.len()
        &&& 1 <= solution[idx - 1] <= call_details.len()
        &&& 1 <= solution[idx] <= call_details.len()
        &&& from_node != 0
        &&& to_node != 0
        &&& travel_readable(travel_costs, vehicle_idx, from_node as int, to_node as int)
        &&& fits(time - t)
        &&& pickup_walk_safe(solution, call_details, travel_costs, vehicle_idx, idx - 1, time - t, upper)
    }
}

/// Position of the first occurrence of `call`.
fn first_position(call: i32, solution: &[i32]) -> (r: usize)
    requires
        occurrences(solution@, call as int) >= 1,
    ensures
        r < solution@.len(),
        solution@[r as int] == call,
        occurrences(solution@.take(r as int), call as int) == 0,
{
    _get_nth_occurrences(1, call, solution).unwrap()
}

/// Moves the pickup (first occurrence) of `call` earlier: walking back from
/// it, the travel times between consecutive calls are taken off the arrival
/// time until it is within `start_upper`; the pickup is moved to where the
/// walk stops. The result always differs from the solution.
pub fn _correct_pickup_too_late(
    vehicle_idx: usize,
    call: i32,
    arrival_time: i32,
    start_upper: i32,
    travel_costs: &[[i32; 4]],
    call_details: &[[i32; 8]],
    solution: &[i32],
) -> (r: Vec<i32>)
    requires
        occurrences(solution@, call as int) >= 1,
        forall|i: int| 0 <= i < solution@.len() && solution@[i] == call && occurrences(solution@.take(i), call as int) == 0
            ==> {
            &&& pickup_walk_safe(solution@, call_details@, travel_costs@, vehicle_idx as int, i, arrival_time as int,
                start_upper as int)
            &&& move_entry(solution@, pickup_walk(solution@, call_details@, travel_costs@, vehicle_idx as int, i,
                arrival_time as int, start_upper as int), i, call) != solution@
        },
    ensures
        exists|i: int| 0 <= i < solution@.len() && solution@[i] == call && occurrences(solution@.take(i), call as int) == 0
            && r@ == move_entry(solution@, pickup_walk(solution@, call_details@, travel_costs@, vehicle_idx as int, i,
                arrival_time as int, start_upper as int), i, call),
        r@ != solution@,
{
    let ghost sol = solution@;
    let ghost cd = call_details@;
    let ghost tc = travel_costs@;
    let initial_call_idx = first_position(call, solution);
    let mut call_idx = initial_call_idx;
    let mut current_time = arrival_time;
    while current_time > start_upper && call_idx > 0
        invariant
            sol == solution@,
            cd == call_details@,
            tc == travel_costs@,
            call_idx <= initial_call_idx < sol.len(),
            pickup_walk(sol, cd, tc, vehicle_idx as int, call_idx as int, current_time as int, start_upper as int)
                == pickup_walk(sol, cd, tc, vehicle_idx as int, initial_call_idx as int, arrival_time as int,
                start_upper as int),
            pickup_walk_safe(sol, cd, tc, vehicle_idx as int, call_idx as int, current_time as int, start_upper as int),
        decreases call_idx,
    {
        call_idx = call_idx - 1;
        let (_, from_node, _, _, _, _, _, _) = deconstruct_call(solution[call_idx], call_details);
        let (to_node, _, _, _, _, _, _, _) = deconstruct_call(solution[call_idx + 1], call_details);
        let call_time = a_to_b_time(vehicle_idx, from_node, to_node, travel_costs);
        current_time = current_time - call_time;
    }
    move_call_back(solution, call_idx, initial_call_idx, call)
}


/// Total travel time of the legs between positions `j` and `idx` when
/// walking back for a late pickup: the leg from position `k` to `k + 1`
/// runs from the destination of the call at `k` (call field 1) to the
/// origin of the call at `k + 1` (call field 0).
pub open spec fn pickup_legs(
    solution: Seq<i32>,
    call_details: Seq<[i32; 8]>,
    travel_costs: Seq<[i32; 4]>,
    vehicle_idx: int,
    j: int,
    idx: int,
) -> int
    decreases idx - j,
{
    if j >= idx {
        0
    } else {
        pickup_legs(solution, call_details, travel_costs, vehicle_idx, j, idx - 1) + travel_row(
            travel_costs,
            vehicle_idx,
            call_details[solution[idx - 1] - 1][1] as int,
            call_details[solution[idx] - 1][0] as int,
        )[2]
    }
}

/// The walk back for a late pickup stops at the latest position at which
/// the arrival time, less the travel times of the legs between the calls
/// from there on, is within the bound (or at the front): no position after
/// it brings the time within the bound.
pub proof fn lemma_pickup_walk_stops_at_latest_fitting_position(
    solution: Seq<i32>,
    call_details: Seq<[i32; 8]>,
    travel_costs: Seq<[i32; 4]>,
    vehicle_idx: int,
    idx: int,
    time: int,
    upper: int,
)
    requires
        0 <= idx,
    ensures
        ({
            let r = pickup_walk(solution, call_details, travel_costs, vehicle_idx, idx, time, upper);
            &&& 0 <= r <= idx
            &&& r == 0 || time - pickup_legs(solution, call_details, travel_costs, vehicle_idx, r, idx) <= upper
            &&& forall|j: int| r < j <= idx ==> time - #[trigger] pickup_legs(solution, call_details, travel_costs,
                vehicle_idx, j, idx) > upper
        }),
    decreases idx,
{
    if !(time <= upper || idx <= 0) {
        let t = travel_row(travel_costs, vehicle_idx, call_details[solution[idx - 1] - 1][1] as int,
            call_details[solution[idx] - 1][0] as int)[2];
        lemma_pickup_walk_stops_at_latest_fitting_position(solution, call_details, travel_costs, vehicle_idx, idx - 1,
            time - t, upper);
        let r = pickup_walk(solution, call_details, travel_costs, vehicle_idx, idx, time, upper);
        assert forall|j: int| r < j <= idx implies time - #[trigger] pickup_legs(solution, call_details, travel_costs,
            vehicle_idx, j, idx) > upper by {
            if j < idx {
                assert(pickup_legs(solution, call_details, travel_costs, vehicle_idx, j, idx) == pickup_legs(
                    solution, call_details, travel_costs, vehicle_idx, j, idx - 1) + t);
            }
        }
        if r > 0 {
            assert(pickup_legs(solution, call_details, travel_costs, vehicle_idx, r, idx) == pickup_legs(
                solution, call_details, travel_costs, vehicle_idx, r, idx - 1) + t);
        }
    }
}

/// Total travel time of the legs between positions `j` and `idx` when
/// walking back for a late delivery: the leg from position `k` to `k + 1`
/// runs between the entries read as nodes.
pub open spec fn deliver_legs(solution: Seq<i32>, travel_costs: Seq<[i32; 4]>, vehicle_idx: int, j: int, idx: int) -> int
    decreases idx - j,
{
    if j >= idx {
        0
    } else {
        deliver_legs(solution, travel_costs, vehicle_idx, j, idx - 1) + travel_row(
            travel_costs,
            vehicle_idx,
            solution[idx - 1] as int,
            solution[idx] as int,
        )[2]
    }
}

/// The walk back for a late delivery stops at the latest position at which
/// the arrival time, less the travel times of the legs from there on, is
/// within the bound (or at the front).
pub proof fn lemma_deliver_walk_stops_at_latest_fitting_position(
    solution: Seq<i32>,
    travel_costs: Seq<[i32; 4]>,
    vehicle_idx: int,
    idx: int,
    time: int,
    upper: int,
)
    requires
        0 <= idx,
    ensures
        ({
            let r = deliver_walk(solution, travel_costs, vehicle_idx, idx, time, upper);
            &&& 0 <= r <= idx
            &&& r == 0 || time - deliver_legs(solution, travel_costs, vehicle_idx, r, idx) <= upper
            &&& forall|j: int| r < j <= idx ==> time - #[trigger] deliver_legs(solution, travel_costs, vehicle_idx, j,
                idx) > upper
        }),
    decreases idx,
{
    if !(time <= upper || idx <= 0) {
        let t = travel_row(travel_costs, vehicle_idx, solution[idx - 1] as int, solution[idx] as int)[2];
        lemma_deliver_walk_stops_at_latest_fitting_position(solution, travel_costs, vehicle_idx, idx - 1, time - t,
            upper);
        let r = deliver_walk(solution, travel_costs, vehicle_idx, idx, time, upper);
        assert forall|j: int| r < j <= idx implies time - #[trigger] deliver_legs(solution, travel_costs, vehicle_idx,
            j, idx) > upper by {
            if j < idx {
                assert(deliver_legs(solution, travel_costs, vehicle_idx, j, idx) == deliver_legs(solution,
                    travel_costs, vehicle_idx, j, idx - 1) + t);
            }
        }
        if r > 0 {
            assert(deliver_legs(solution, travel_costs, vehicle_idx, r, idx) == deliver_legs(solution, travel_costs,
                vehicle_idx, r, idx - 1) + t);
        }
    }
}

} // verus!
