//! One tick of scrape synthesis: where the cursor reads the surface curves,
//! and which curve values each point of the sampling grid is blended from.
//!
//! A tick reads `num_points` values of each curve, from the cursor on, and
//! one value more as the upper boundary. The cursor moves on by `num_points`
//! per tick and starts over at the front of the curve when the next window
//! would run past its end.

use crate::buffer::{contents, length};
use crate::error::KernelError;
use crate::interpolation::{
    first_above, lemma_first_above_in_range, locate, lookup_at, next_start, Lookup,
};
use vstd::prelude::*;

verus! {

/// The number of points of the sampling grid, and of samples per tick.
pub const SCRAPE_LINEAR_SPACE_LEN: usize = 4410;

/// The window from `cursor` on would run past the end of the curve.
pub open spec fn wraps(cursor: int, num_points: int, curve_length: int) -> bool {
    cursor + num_points > curve_length
}

/// Where a tick that finds the cursor at `cursor` reads the curves from.
pub open spec fn tick_start(cursor: int, num_points: int, curve_length: int) -> int {
    if wraps(cursor, num_points, curve_length) {
        0
    } else {
        cursor
    }
}

/// The index behind the window of a tick: where it reads the upper boundary
/// values, and where it leaves the cursor.
pub open spec fn tick_end(cursor: int, num_points: int, curve_length: int) -> int {
    tick_start(cursor, num_points, curve_length) + num_points
}

/// A tick can be carried out: there is a point to read, the abscissa buffer
/// holds one abscissa per point, both curves reach past the window, and the
/// force buffer holds a query for every point of the grid.
pub open spec fn tick_accepted(
    cursor: int,
    num_points: int,
    dsdx_length: int,
    d2sdx2_length: int,
    space_length: int,
    grid_length: int,
    force_length: int,
) -> bool {
    &&& 1 <= num_points <= space_length
    &&& tick_end(cursor, num_points, dsdx_length) < dsdx_length
    &&& tick_end(cursor, num_points, dsdx_length) < d2sdx2_length
    &&& grid_length <= force_length
}

/// Where the search for query `n` of a run begins: at the front for the
/// first, and for each later one where the search before it left off.
pub open spec fn cache_before(queries: Seq<i64>, x: Seq<i64>, end: int, n: int) -> int
    decreases n,
{
    if n <= 0 {
        0
    } else {
        next_start(
            first_above(queries[n - 1], x, cache_before(queries, x, end, n - 1), end),
            end,
        )
    }
}

/// The answers to a run of queries among the first `end` abscissae of `x`.
pub open spec fn lookup_run(queries: Seq<i64>, x: Seq<i64>, end: int) -> Seq<Lookup> {
    Seq::new(
        queries.len(),
        |n: int| lookup_at(first_above(queries[n], x, cache_before(queries, x, end, n), end), end),
    )
}

/// An answer names only abscissae before `end`, and for a segment two
/// neighbours.
pub open spec fn lookup_within(lookup: Lookup, end: int) -> bool {
    match lookup {
        Lookup::Between { left, right } => left + 1 == right && right < end,
        _ => true,
    }
}

/// What a tick plans, as plain values.
pub struct PlannedTick {
    pub start: int,
    pub end: int,
    pub horizontal: Seq<Lookup>,
    pub vertical: Seq<Lookup>,
}

/// The plan of the tick that finds the cursor at `cursor`.
pub open spec fn planned(
    cursor: int,
    num_points: int,
    dsdx_length: int,
    linear_space: Seq<i64>,
    grid: Seq<i64>,
    force: Seq<i64>,
) -> PlannedTick {
    PlannedTick {
        start: tick_start(cursor, num_points, dsdx_length),
        end: tick_end(cursor, num_points, dsdx_length),
        horizontal: lookup_run(grid, linear_space, num_points),
        vertical: lookup_run(force.subrange(0, grid.len() as int), linear_space, num_points),
    }
}

/// The cursor after `ticks` ticks over a curve of `curve_length` values,
/// starting at the front.
pub open spec fn cursor_after(ticks: nat, num_points: int, curve_length: int) -> int
    decreases ticks,
{
    if ticks == 0 {
        0
    } else {
        tick_end(cursor_after((ticks - 1) as nat, num_points, curve_length), num_points, curve_length)
    }
}

/// What one tick reads: the curve values from `start` up to `end`, the value
/// at `end` as upper boundary, and for each point of the grid the lookup that
/// says which of them to blend, once for each curve.
pub struct ScrapePlan {
    pub start: usize,
    pub end: usize,
    pub horizontal: Vec<Lookup>,
    pub vertical: Vec<Lookup>,
}

impl View for ScrapePlan {
    type V = PlannedTick;

    open spec fn view(&self) -> PlannedTick {
        PlannedTick {
            start: self.start as int,
            end: self.end as int,
            horizontal: self.horizontal@,
            vertical: self.vertical@,
        }
    }
}

/// Every search of a run begins among the abscissae searched.
pub proof fn lemma_cache_in_range(queries: Seq<i64>, x: Seq<i64>, end: int, n: int)
    requires
        0 <= end,
    ensures
        0 <= cache_before(queries, x, end, n) <= end,
    decreases n,
{
    if n > 0 {
        lemma_cache_in_range(queries, x, end, n - 1);
        lemma_first_above_in_range(queries[n - 1], x, cache_before(queries, x, end, n - 1), end);
    }
}

/// No answer of a run names an abscissa outside the ones searched.
pub proof fn lemma_lookup_run_within(queries: Seq<i64>, x: Seq<i64>, end: int)
    requires
        0 <= end <= usize::MAX,
    ensures
        forall|n: int|
            0 <= n < queries.len() ==> lookup_within(#[trigger] lookup_run(queries, x, end)[n], end),
{
    assert forall|n: int| 0 <= n < queries.len() implies lookup_within(
        #[trigger] lookup_run(queries, x, end)[n],
        end,
    ) by {
        lemma_cache_in_range(queries, x, end, n);
        lemma_first_above_in_range(queries[n], x, cache_before(queries, x, end, n), end);
    }
}

/// No tick reads a curve outside its values: an accepted tick starts inside
/// the curve, reads its upper boundary inside it, and blends only values
/// before that boundary.
pub proof fn lemma_tick_reads_inside(
    cursor: int,
    num_points: int,
    dsdx_length: int,
    d2sdx2_length: int,
    linear_space: Seq<i64>,
    grid: Seq<i64>,
    force: Seq<i64>,
)
    requires
        0 <= cursor,
        num_points <= usize::MAX,
        tick_accepted(
            cursor,
            num_points,
            dsdx_length,
            d2sdx2_length,
            linear_space.len() as int,
            grid.len() as int,
            force.len() as int,
        ),
    ensures
        ({
            let plan = planned(cursor, num_points, dsdx_length, linear_space, grid, force);
            &&& 0 <= plan.start < plan.end
            &&& plan.end < dsdx_length
            &&& plan.end < d2sdx2_length
            &&& plan.horizontal.len() == grid.len()
            &&& plan.vertical.len() == grid.len()
            &&& forall|n: int|
                0 <= n < grid.len() ==> match #[trigger] plan.horizontal[n] {
                    Lookup::Between { left, right } => plan.start + left + 1 == plan.start
                        + right < plan.end,
                    _ => true,
                }
            &&& forall|n: int|
                0 <= n < grid.len() ==> match #[trigger] plan.vertical[n] {
                    Lookup::Between { left, right } => plan.start + left + 1 == plan.start
                        + right < plan.end,
                    _ => true,
                }
        }),
{
    let queries = force.subrange(0, grid.len() as int);
    lemma_lookup_run_within(grid, linear_space, num_points);
    lemma_lookup_run_within(queries, linear_space, num_points);
    let plan = planned(cursor, num_points, dsdx_length, linear_space, grid, force);
    assert forall|n: int| 0 <= n < grid.len() implies match #[trigger] plan.horizontal[n] {
        Lookup::Between { left, right } => plan.start + left + 1 == plan.start + right < plan.end,
        _ => true,
    } by {
        assert(lookup_within(lookup_run(grid, linear_space, num_points)[n], num_points));
    }
    assert forall|n: int| 0 <= n < grid.len() implies match #[trigger] plan.vertical[n] {
        Lookup::Between { left, right } => plan.start + left + 1 == plan.start + right < plan.end,
        _ => true,
    } by {
        assert(lookup_within(lookup_run(queries, linear_space, num_points)[n], num_points));
    }
}

/// Over a curve that the window does not divide, the cursor never gets
/// stuck: it stays a multiple of `num_points` inside the curve, and every
/// tick finds its upper boundary inside the curve.
pub proof fn lemma_cursor_stays_inside(ticks: nat, num_points: int, curve_length: int)
    requires
        0 < num_points < curve_length,
        curve_length % num_points != 0,
    ensures
        0 <= cursor_after(ticks, num_points, curve_length) < curve_length,
        cursor_after(ticks, num_points, curve_length) % num_points == 0,
        tick_end(cursor_after(ticks, num_points, curve_length), num_points, curve_length)
            < curve_length,
    decreases ticks,
{
    if ticks > 0 {
        let before = cursor_after((ticks - 1) as nat, num_points, curve_length);
        lemma_cursor_stays_inside((ticks - 1) as nat, num_points, curve_length);
        lemma_tick_end_inside(before, num_points, curve_length);
    } else {
        assert(0int % num_points == 0) by (nonlinear_arith)
            requires
                0 < num_points,
        ;
    }
    lemma_tick_end_inside(cursor_after(ticks, num_points, curve_length), num_points, curve_length);
}

proof fn lemma_tick_end_inside(cursor: int, num_points: int, curve_length: int)
    requires
        0 < num_points < curve_length,
        curve_length % num_points != 0,
        0 <= cursor < curve_length,
        cursor % num_points == 0,
    ensures
        0 < tick_end(cursor, num_points, curve_length) < curve_length,
        tick_end(cursor, num_points, curve_length) % num_points == 0,
{
    let start = tick_start(cursor, num_points, curve_length);
    assert(start % num_points == 0) by (nonlinear_arith)
        requires
            0 < num_points,
            start == 0 || start == cursor,
            cursor % num_points == 0,
    ;
    assert((start + num_points) % num_points == 0) by (nonlinear_arith)
        requires
            0 < num_points,
            start % num_points == 0,
    ;
}

/// The cursor wraps around: over a curve of `curve_length` values that the
/// window does not divide, the first ticks walk the curve window by window,
/// and tick number `ceil(curve_length / num_points)` is the first to start
/// over at the front, where it leaves the cursor as the first tick did.
pub proof fn lemma_cursor_wraps(num_points: int, curve_length: int)
    requires
        0 < num_points < curve_length,
        curve_length % num_points != 0,
    ensures
        ({
            let turn = curve_length / num_points + 1;
            &&& forall|t: int|
                0 <= t < turn ==> #[trigger] cursor_after(t as nat, num_points, curve_length) == t
                    * num_points
            &&& forall|t: int|
                0 <= t < turn - 1 ==> !wraps(
                    #[trigger] cursor_after(t as nat, num_points, curve_length),
                    num_points,
                    curve_length,
                )
            &&& wraps(
                cursor_after((turn - 1) as nat, num_points, curve_length),
                num_points,
                curve_length,
            )
            &&& tick_start(
                cursor_after((turn - 1) as nat, num_points, curve_length),
                num_points,
                curve_length,
            ) == 0
            &&& cursor_after(turn as nat, num_points, curve_length) == cursor_after(
                1,
                num_points,
                curve_length,
            )
        }),
{
    let turn = curve_length / num_points + 1;
    assert forall|t: int| 0 <= t < turn implies #[trigger] cursor_after(
        t as nat,
        num_points,
        curve_length,
    ) == t * num_points && (t < turn - 1 ==> !wraps(t * num_points, num_points, curve_length)) by {
        lemma_cursor_walks(t as nat, num_points, curve_length);
    }
    lemma_cursor_walks((turn - 1) as nat, num_points, curve_length);
    assert(wraps((turn - 1) * num_points, num_points, curve_length)) by (nonlinear_arith)
        requires
            0 < num_points,
            turn == curve_length / num_points + 1,
    ;
    assert(cursor_after(0, num_points, curve_length) == 0);
    assert(cursor_after(1, num_points, curve_length) == tick_end(0, num_points, curve_length));
    assert(cursor_after(turn as nat, num_points, curve_length) == tick_end(
        cursor_after((turn - 1) as nat, num_points, curve_length),
        num_points,
        curve_length,
    ));
}

proof fn lemma_cursor_walks(t: nat, num_points: int, curve_length: int)
    requires
        0 < num_points < curve_length,
        curve_length % num_points != 0,
        t <= curve_length / num_points,
    ensures
        cursor_after(t, num_points, curve_length) == t * num_points,
        t < curve_length / num_points ==> !wraps(t * num_points, num_points, curve_length),
    decreases t,
{
    if t > 0 {
        lemma_cursor_walks((t - 1) as nat, num_points, curve_length);
        assert((t - 1) * num_points + num_points == t * num_points) by (nonlinear_arith);
    }
    assert(t < curve_length / num_points ==> t * num_points + num_points <= curve_length)
        by (nonlinear_arith)
        requires
            0 < num_points,
            0 <= t,
    ;
}

/// A search depends on the abscissae it may read and on nothing else.
proof fn lemma_first_above_reads_range(v: i64, x: Seq<i64>, y: Seq<i64>, start: int, end: int)
    requires
        0 <= start,
        end <= x.len(),
        end <= y.len(),
        forall|i: int| start <= i < end ==> x[i] == y[i],
    ensures
        first_above(v, x, start, end) == first_above(v, y, start, end),
    decreases end - start,
{
    if start < end && !(v < x[start]) {
        lemma_first_above_reads_range(v, x, y, start + 1, end);
    }
}

proof fn lemma_cache_reads_range(queries: Seq<i64>, x: Seq<i64>, y: Seq<i64>, end: int, n: int)
    requires
        0 <= end <= x.len(),
        end <= y.len(),
        forall|i: int| 0 <= i < end ==> x[i] == y[i],
    ensures
        cache_before(queries, x, end, n) == cache_before(queries, y, end, n),
    decreases n,
{
    if n > 0 {
        lemma_cache_reads_range(queries, x, y, end, n - 1);
        lemma_cache_in_range(queries, x, end, n - 1);
        lemma_first_above_reads_range(
            queries[n - 1],
            x,
            y,
            cache_before(queries, x, end, n - 1),
            end,
        );
    }
}

/// A tick is repeatable: two ticks that find the cursor at the same place
/// and agree on the lengths, on the grid, on the abscissae of their points
/// and on the queries for the grid plan the same reads and leave the cursor
/// at the same place, whatever else their buffers hold.
pub proof fn lemma_tick_is_repeatable(
    cursor: int,
    num_points: int,
    dsdx_length: int,
    grid: Seq<i64>,
    first_space: Seq<i64>,
    first_force: Seq<i64>,
    second_space: Seq<i64>,
    second_force: Seq<i64>,
)
    requires
        0 <= num_points <= first_space.len(),
        num_points <= second_space.len(),
        grid.len() <= first_force.len(),
        grid.len() <= second_force.len(),
        first_space.subrange(0, num_points) == second_space.subrange(0, num_points),
        first_force.subrange(0, grid.len() as int) == second_force.subrange(0, grid.len() as int),
    ensures
        planned(cursor, num_points, dsdx_length, first_space, grid, first_force) == planned(
            cursor,
            num_points,
            dsdx_length,
            second_space,
            grid,
            second_force,
        ),
{
    let first_points = first_space.subrange(0, num_points);
    let second_points = second_space.subrange(0, num_points);
    assert forall|i: int| 0 <= i < num_points implies first_space[i] == second_space[i] by {
        assert(first_points[i] == first_space[i]);
        assert(second_points[i] == second_space[i]);
    }
    let queries = first_force.subrange(0, grid.len() as int);
    lemma_run_reads_range(grid, first_space, second_space, num_points);
    lemma_run_reads_range(queries, first_space, second_space, num_points);
}

proof fn lemma_run_reads_range(queries: Seq<i64>, x: Seq<i64>, y: Seq<i64>, end: int)
    requires
        0 <= end <= x.len(),
        end <= y.len(),
        forall|i: int| 0 <= i < end ==> x[i] == y[i],
    ensures
        lookup_run(queries, x, end) == lookup_run(queries, y, end),
{
    assert forall|n: int| 0 <= n < queries.len() implies #[trigger] lookup_run(queries, x, end)[n]
        == lookup_run(queries, y, end)[n] by {
        lemma_cache_reads_range(queries, x, y, end, n);
        lemma_cache_in_range(queries, x, end, n);
        lemma_first_above_reads_range(queries[n], x, y, cache_before(queries, x, end, n), end);
    }
    assert(lookup_run(queries, x, end) =~= lookup_run(queries, y, end));
}

/// Answers the first `count` of `queries` in turn, each search beginning
/// where the one before left off.
fn lookups(queries: &[i64], count: usize, x: &safer_ffi::Vec<i64>, end_x: usize) -> (run: Vec<
    Lookup,
>)
    requires
        count <= queries@.len(),
        end_x <= contents(*x).len(),
    ensures
        run@ == lookup_run(queries@.subrange(0, count as int), contents(*x), end_x as int),
{
    let ghost asked = queries@.subrange(0, count as int);
    let mut run: Vec<Lookup> = Vec::with_capacity(count);
    let mut start: usize = 0;
    let mut n: usize = 0;
    while n < count
        invariant
            n <= count <= queries@.len(),
            end_x <= contents(*x).len(),
            asked == queries@.subrange(0, count as int),
            start == cache_before(asked, contents(*x), end_x as int, n as int),
            start <= end_x,
            run@.len() == n,
            forall|k: int|
                0 <= k < n ==> run@[k] == lookup_run(asked, contents(*x), end_x as int)[k],
        decreases count - n,
    {
        let (lookup, next) = locate(queries[n], x, start, end_x);
        proof {
            lemma_first_above_in_range(queries[n as int], contents(*x), start as int, end_x as int);
            assert(asked[n as int] == queries[n as int]);
        }
        run.push(lookup);
        start = next;
        n = n + 1;
    }
    assert(run@ =~= lookup_run(asked, contents(*x), end_x as int));
    run
}

/// Plans one tick and moves the cursor on.
///
/// The tick reads the curves from the cursor on, or from the front if the
/// window would run past the end of the `dsdx` curve. For every point of the
/// grid it looks up the point itself among the first `num_points` abscissae
/// of `linear_space`, for the horizontal force, and the sample that `force`
/// holds at that point, for the vertical force. The cursor is left behind
/// the window.
///
/// A tick that is not [`tick_accepted`] is refused and leaves the cursor
/// alone.
pub fn get_scrape(
    scrape_index: &mut usize,
    num_points: usize,
    dsdx_length: usize,
    d2sdx2_length: usize,
    linear_space: &safer_ffi::Vec<i64>,
    grid: &Vec<i64>,
    force: &safer_ffi::Vec<i64>,
) -> (r: Result<ScrapePlan, KernelError>)
    ensures
        tick_accepted(
            *old(scrape_index) as int,
            num_points as int,
            dsdx_length as int,
            d2sdx2_length as int,
            contents(*linear_space).len() as int,
            grid@.len() as int,
            contents(*force).len() as int,
        ) ==> {
            &&& r is Ok
            &&& r->Ok_0@ == planned(
                *old(scrape_index) as int,
                num_points as int,
                dsdx_length as int,
                contents(*linear_space),
                grid@,
                contents(*force),
            )
            &&& *final(scrape_index) == r->Ok_0.end
        },
        !tick_accepted(
            *old(scrape_index) as int,
            num_points as int,
            dsdx_length as int,
            d2sdx2_length as int,
            contents(*linear_space).len() as int,
            grid@.len() as int,
            contents(*force).len() as int,
        ) ==> {
            &&& r is Err
            &&& r->Err_0 == KernelError::InvalidArgument
            &&& *final(scrape_index) == *old(scrape_index)
        },
{
    if num_points == 0 || num_points > length(linear_space) || grid.len() > length(force) {
        return Err(KernelError::InvalidArgument);
    }
    let start: usize = if num_points > dsdx_length || *scrape_index > dsdx_length - num_points {
        0
    } else {
        *scrape_index
    };
    if num_points >= dsdx_length || start >= dsdx_length - num_points {
        return Err(KernelError::InvalidArgument);
    }
    let end: usize = start + num_points;
    if end >= d2sdx2_length {
        return Err(KernelError::InvalidArgument);
    }
    let horizontal: Vec<Lookup> = lookups(grid.as_slice(), grid.len(), linear_space, num_points);
    let vertical: Vec<Lookup> = lookups(
        crate::buffer::as_slice(force),
        grid.len(),
        linear_space,
        num_points,
    );
    assert(grid@.subrange(0, grid@.len() as int) =~= grid@);
    *scrape_index = end;
    Ok(ScrapePlan { start, end, horizontal, vertical })
}

} // verus!
