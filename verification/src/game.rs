//! The per-round game state machine: an oscillating falling block, tap
//! commits with overlap trimming and a perfect-streak bonus, camera
//! scrolling, scoring and game-over detection.

use vstd::prelude::*;

use crate::block::Block;
use crate::color::Color;
use crate::color::abs_of;
use crate::num::tdiv;
use crate::renderer::Renderer;

verus! {

/// Frames per second the round loop aims for.
pub const FPS: i32 = 60;

/// Largest axis offset that still counts as a perfect fit.
pub const FIT_DISTANCE: i32 = 3;

/// Length of the run of identical commits that earns the bonus.
pub const IN_A_ROW: usize = 5;

/// How much each side of the footprint grows on a perfect streak.
pub const BONUS: i32 = 4;

/// Width or depth below this ends the round.
pub const MIN_SIZE: i32 = 4;

/// Height of every falling block.
pub const BLOCK_HEIGHT: i32 = 15;

/// Hard cap on the score, keeping all coordinate arithmetic in range.
pub const MAX_SCORE: i32 = 1000;

// ----------------------------------------------------------------------
// Oscillation
// ----------------------------------------------------------------------

/// Oscillation period for a block whose larger footprint side is `size`.
pub open spec fn osc_period(size: int) -> int {
    30 * size + 500
}

/// Triangle wave over one period, scaled by 2: ramps `0 -> period` over the
/// first half and back down over the second.
pub open spec fn osc_tri(t: int, period: int) -> int {
    if 2 * t <= period {
        2 * t
    } else {
        2 * period - 2 * t
    }
}

/// The eased progress `p' = -2p^3 + 3p^2` as a fraction with denominator
/// `period^3`: its numerator `v^2 (3 period - 2 v)` for `v = osc_tri(t)`.
pub open spec fn osc_profile(t: int, period: int) -> int {
    let v = osc_tri(t, period);
    v * v * (3 * period - 2 * v)
}

/// The falling block's offset from center: `3 len (p' - 1/2)`, with the
/// division truncated toward zero.
pub open spec fn osc_offset(len: int, t: int, period: int) -> int {
    tdiv(
        3 * len * (2 * osc_profile(t, period) - period * period * period),
        2 * (period * period * period),
    )
}

/// The falling block's coordinate on one axis: the offset centered over the
/// supporting block, snapped to even.
pub open spec fn osc_coord(len: int, t: int, period: int, last_c: int, last_len: int) -> int {
    tdiv(osc_offset(len, t, period) - tdiv(len, 2) + last_c + tdiv(last_len, 2), 2) * 2
}

/// The eased progress stays between 0 and 1, and reaches exactly 0 at the
/// start of the period and exactly 1 at the triangle wave's peak.
pub proof fn lemma_oscillation_bounds(t: int, period: int)
    requires
        0 <= t <= period,
        period >= 1,
    ensures
        0 <= osc_profile(t, period) <= period * period * period,
        t == 0 ==> osc_profile(t, period) == 0,
        2 * t == period ==> osc_profile(t, period) == period * period * period,
{
    let v = osc_tri(t, period);
    assert(0 <= v <= period);
    assert(v * v * (3 * period - 2 * v) >= 0) by (nonlinear_arith)
        requires
            0 <= v <= period,
            period >= 1,
    ;
    assert((period - v) * (period - v) * (period + 2 * v) == period * period * period - v * v * (3
        * period - 2 * v)) by (nonlinear_arith);
    assert((period - v) * (period - v) * (period + 2 * v) >= 0) by (nonlinear_arith)
        requires
            0 <= v <= period,
            period >= 1,
    ;
    if 2 * t == period {
        assert(v == period);
        assert(period * period * (3 * period - 2 * period) == period * period * period)
            by (nonlinear_arith);
    }
}

/// The eased progress is symmetric around the triangle wave's peak:
/// `p'(t) = p'(period - t)`.
pub proof fn lemma_oscillation_symmetry(t: int, period: int)
    requires
        0 <= t <= period,
    ensures
        osc_profile(period - t, period) == osc_profile(t, period),
{
    assert(osc_tri(period - t, period) == osc_tri(t, period));
}

/// The eased progress is periodic with the configured period.
pub proof fn lemma_oscillation_periodic(t: int, period: int)
    requires
        period > 0,
        t >= 0,
    ensures
        osc_profile((t + period) % period, period) == osc_profile(t % period, period),
{
    vstd::arithmetic::div_mod::lemma_mod_multiples_vanish(1, t, period);
}

/// Computes the falling block's coordinate on one axis from the elapsed
/// round time: triangle-waved, eased, scaled to `len` and centered over the
/// supporting block at `last_c` of length `last_len`.
pub fn osc_position(elapsed: u64, size: i32, len: i32, last_c: i32, last_len: i32) -> (r: i32)
    requires
        0 < len <= size <= 600,
        0 < last_len <= 600,
        -30000 <= last_c <= 30000,
    ensures
        r == osc_coord(
            len as int,
            (elapsed as int) % osc_period(size as int),
            osc_period(size as int),
            last_c as int,
            last_len as int,
        ),
        abs_of(r as int) <= abs_of(last_c as int) + 3 * len + last_len,
{
    let period: i64 = 30 * (size as i64) + 500;
    let t: i64 = (elapsed % (period as u64)) as i64;
    let v: i64 = if 2 * t <= period {
        2 * t
    } else {
        2 * period - 2 * t
    };
    proof {
        assert(0 <= v <= period);
        assert(period * period <= 18500 * 18500) by (nonlinear_arith)
            requires
                0 < period <= 18500,
        ;
        assert(period * period * period <= 18500 * 18500 * 18500) by (nonlinear_arith)
            requires
                0 < period <= 18500,
        ;
        assert(period * period * period >= 1) by (nonlinear_arith)
            requires
                period >= 1,
        ;
        assert(v * v <= 18500 * 18500) by (nonlinear_arith)
            requires
                0 <= v <= 18500,
        ;
        assert(v * v * (3 * period - 2 * v) <= 3 * (period * period * period))
            by (nonlinear_arith)
            requires
                0 <= v <= period,
                period >= 1,
        ;
        assert(v * v * (3 * period - 2 * v) >= 0) by (nonlinear_arith)
            requires
                0 <= v <= period,
                period >= 1,
        ;
    }
    let cube: i64 = period * period * period;
    let profile: i64 = v * v * (3 * period - 2 * v);
    proof {
        lemma_oscillation_bounds(t as int, period as int);
        assert(v as int == osc_tri(t as int, period as int));
        assert(profile as int == osc_profile(t as int, period as int));
        assert(0 <= profile <= cube);
        assert(3 * (len as int) * (2 * profile - cube) <= (2 * len as int) * (2 * cube))
            by (nonlinear_arith)
            requires
                0 < len as int <= 600,
                0 <= profile <= cube,
                cube >= 1,
        ;
        assert(3 * (len as int) * (2 * profile - cube) >= -((2 * len as int) * (2 * cube)))
            by (nonlinear_arith)
            requires
                0 < len as int <= 600,
                0 <= profile <= cube,
                cube >= 1,
        ;
        assert((2 * len as int) * (2 * cube) <= 20000000000000000) by (nonlinear_arith)
            requires
                0 < len as int <= 600,
                0 < cube <= 6331625000000,
        ;
    }
    let num: i64 = 3 * (len as i64) * (2 * profile - cube);
    proof {
        crate::num::lemma_tdiv_bound(
            3 * (len as int) * (2 * profile - cube),
            2 * cube,
            2 * len as int,
        );
        crate::num::lemma_tdiv_ordered(len as int, len as int, 2);
        crate::num::lemma_tdiv_ordered(last_len as int, last_len as int, 2);
    }
    let offset: i64 = crate::num::div_trunc(num, 2 * cube);
    let e: i64 = offset - (len as i64) / 2 + (last_c as i64) + (last_len as i64) / 2;
    proof {
        let ea = abs_of(e as int);
        vstd::arithmetic::div_mod::lemma_fundamental_div_mod(ea, 2);
        assert(2 * (ea / 2) <= ea);
        assert(tdiv(e as int, 2) == (if e as int >= 0 {
            ea / 2
        } else {
            -(ea / 2)
        }));
        assert(-ea <= 2 * tdiv(e as int, 2) <= ea);
        assert(ea <= abs_of(last_c as int) + 3 * len + last_len);
    }
    let r: i64 = crate::num::div_trunc(e, 2) * 2;
    proof {
        assert(elapsed % (period as u64) < period as u64);
        assert((elapsed % (period as u64)) as int == (elapsed as int) % (period as int));
        assert(t as int == (elapsed as int) % osc_period(size as int));
        assert(period as int == osc_period(size as int));
        assert(offset as int == osc_offset(
            len as int,
            t as int,
            period as int,
        ));
        assert(e as int == osc_offset(len as int, t as int, period as int) - tdiv(len as int, 2)
            + last_c + tdiv(last_len as int, 2));
        assert(r as int == osc_coord(
            len as int,
            t as int,
            period as int,
            last_c as int,
            last_len as int,
        ));
    }
        r as i32
}

// ----------------------------------------------------------------------
// Overlap trimming and the perfect streak
// ----------------------------------------------------------------------

/// One axis of overlap trimming: the start and length of the falling run
/// `[cur_start, cur_start + cur_len)` after clipping against the supporting
/// run `[sup_start, sup_start + sup_len)`. The length may come out zero or
/// negative.
pub open spec fn trim_axis_spec(cs: int, cl: int, ss: int, sl: int) -> (int, int) {
    let s1 = if cs < ss {
        ss
    } else {
        cs
    };
    let l1 = if cs < ss {
        cl - (ss - cs)
    } else {
        cl
    };
    let l2 = if s1 + l1 > ss + sl {
        l1 - (s1 + l1 - (ss + sl))
    } else {
        l1
    };
    (s1, l2)
}

/// Trims one axis of the falling block against the block beneath.
pub fn trim_axis(cur_start: i32, cur_len: i32, sup_start: i32, sup_len: i32) -> (r: (i32, i32))
    requires
        -40000 <= cur_start <= 40000,
        -40000 <= cur_len <= 40000,
        -40000 <= sup_start <= 40000,
        -40000 <= sup_len <= 40000,
    ensures
        (r.0 as int, r.1 as int) == trim_axis_spec(
            cur_start as int,
            cur_len as int,
            sup_start as int,
            sup_len as int,
        ),
{
    let mut s = cur_start;
    let mut l = cur_len;
    if s < sup_start {
        l = l - (sup_start - s);
        s = sup_start;
    }
    if s + l > sup_start + sup_len {
        l = l - (s + l - (sup_start + sup_len));
    }
    (s, l)
}

/// Trim monotonicity and containment: the trimmed run is never longer than
/// the falling one, its start never moves left, and when it is nonempty it
/// lies entirely inside the supporting run.
pub proof fn lemma_trim_within(cs: int, cl: int, ss: int, sl: int)
    ensures
        trim_axis_spec(cs, cl, ss, sl).1 <= cl,
        trim_axis_spec(cs, cl, ss, sl).0 >= cs,
        trim_axis_spec(cs, cl, ss, sl).1 > 0 ==> ss <= trim_axis_spec(cs, cl, ss, sl).0
            && trim_axis_spec(cs, cl, ss, sl).0 + trim_axis_spec(cs, cl, ss, sl).1 <= ss + sl,
{
}

/// Two blocks with the same position and size on both footprint axes.
pub open spec fn same_footprint(a: Block, b: Block) -> bool {
    a.x == b.x && a.z == b.z && a.width == b.width && a.depth == b.depth
}

/// The immediately preceding `IN_A_ROW` committed blocks are pairwise
/// identical in position and size.
pub open spec fn perfect_streak(s: Seq<Block>) -> bool {
    s.len() >= IN_A_ROW && (forall|i: int|
        s.len() - (IN_A_ROW as int) + 1 <= i < s.len() ==> same_footprint(
            s[i - 1],
            #[trigger] s[i],
        ))
}

/// Whether the last `IN_A_ROW` committed blocks form a perfect streak; a
/// single mismatched block anywhere in that run suppresses it.
pub fn check_streak(blocks: &Vec<Block>) -> (r: bool)
    ensures
        r == perfect_streak(blocks@),
{
    if blocks.len() < IN_A_ROW {
        return false;
    }
    let mut i: usize = blocks.len() - IN_A_ROW + 1;
    while i < blocks.len()
        invariant
            blocks.len() >= IN_A_ROW,
            blocks.len() - IN_A_ROW + 1 <= i <= blocks.len(),
            forall|j: int|
                blocks.len() - (IN_A_ROW as int) + 1 <= j < i ==> same_footprint(
                    blocks@[j - 1],
                    #[trigger] blocks@[j],
                ),
        decreases blocks.len() - i,
    {
        let lower = blocks[i - 1];
        let b = blocks[i];
        if b.x != lower.x || b.z != lower.z || b.width != lower.width || b.depth != lower.depth {
            return false;
        }
        i = i + 1;
    }
    true
}

// ----------------------------------------------------------------------
// The round state
// ----------------------------------------------------------------------

/// The state of one round: the committed stack, the falling block, scores,
/// the camera origin, the tap edge detector and the round clock.
pub struct GameState {
    /// Committed blocks, oldest first; the first is the base.
    pub blocks: Vec<Block>,
    /// The falling block.
    pub current: Block,
    pub score: i32,
    pub highscore: i32,
    pub base_x: i32,
    pub base_y: i32,
    pub xmax: i32,
    pub ymax: i32,
    /// Whether the previous touch sample was active (edge detection).
    pub last_tapped: bool,
    /// Round clock origin of the oscillation, in milliseconds.
    pub last_ms: u64,
    /// Hue, in degrees, for the next committed block.
    pub hue: i32,
    pub redraw_score: bool,
    pub redraw_highscore: bool,
    /// Terminal: a tap trimmed the block below the minimum size.
    pub over: bool,
}

/// Coordinate and size bounds on one committed block.
pub open spec fn block_wf(b: Block) -> bool {
    &&& -30000 <= b.x <= 30000
    &&& -30000 <= b.z <= 30000
    &&& 0 < b.width <= 300
    &&& 0 < b.depth <= 300
    &&& 0 < b.height <= 60
    &&& 0 <= b.hue < 360
}

impl GameState {
    /// The state's structural invariant: sizes, ranges and the stack's
    /// vertical layout. Holds even in the instant between trimming a tap
    /// and committing it.
    pub open spec fn wf_core(&self) -> bool {
        &&& 0 <= self.score <= MAX_SCORE
        &&& self.blocks.len() == self.score + 1
        &&& 0 <= self.highscore <= MAX_SCORE
        &&& 0 <= self.hue < 360
        &&& 1 <= self.xmax <= 4096
        &&& 1 <= self.ymax <= 4096
        &&& 0 <= self.base_x <= 4096
        &&& 0 <= self.base_y <= 30000
        &&& forall|i: int| 0 <= i < self.blocks.len() ==> block_wf(#[trigger] self.blocks[i])
        &&& forall|i: int|
            0 <= i < self.blocks.len() ==> (#[trigger] self.blocks[i]).y == -60 - 15 * i
        &&& block_wf(self.current)
        &&& self.current.y == -60 - 15 * self.blocks.len()
    }

    /// The round state's invariant: established by `new` and preserved by
    /// `step`. Beyond the structural part, the falling block always
    /// inherits its support's footprint — every spawn copies it.
    pub open spec fn wf(&self) -> bool {
        &&& self.wf_core()
        &&& self.current.width == self.support().width
        &&& self.current.depth == self.support().depth
    }

    /// The supporting block: the last committed one.
    pub open spec fn support(&self) -> Block {
        self.blocks@.last()
    }

    /// A fresh round over a logical screen of `xmax` by `ymax` pixels: the
    /// base block is in place and the first falling block hovers above it.
    pub fn new(xmax: i32, ymax: i32, start_ms: u64, highscore: i32) -> (g: GameState)
        requires
            1 <= xmax <= 4096,
            1 <= ymax <= 4096,
            0 <= highscore <= MAX_SCORE,
        ensures
            g.wf(),
            !g.over,
            g.score == 0,
            g.highscore == highscore,
            g.xmax == xmax,
            g.ymax == ymax,
            g.base_x == xmax / 2,
            g.base_y == ymax,
            g.blocks@.len() == 1,
            g.blocks@[0].x == -50 && g.blocks@[0].y == -60 && g.blocks@[0].z == -50,
            g.blocks@[0].width == 100 && g.blocks@[0].height == 60 && g.blocks@[0].depth == 100,
            g.blocks@[0].hue == 0,
            g.current.x == -50 && g.current.y == -60 - BLOCK_HEIGHT && g.current.z == -50,
            g.current.width == 100 && g.current.height == BLOCK_HEIGHT && g.current.depth == 100,
            g.current.hue == 0,
            g.hue == (start_ms % 360) as int,
            g.last_ms == start_ms,
            !g.last_tapped,
            g.redraw_score,
            g.redraw_highscore,
    {
        let base = Block::new(-50, -60, -50, 100, 60, 100, 0);
        let mut blocks: Vec<Block> = Vec::new();
        blocks.push(base);
        let current = Block::new(-50, -60 - BLOCK_HEIGHT, -50, 100, BLOCK_HEIGHT, 100, 0);
        GameState {
            blocks,
            current,
            score: 0,
            highscore,
            base_x: xmax / 2,
            base_y: ymax,
            xmax,
            ymax,
            last_tapped: false,
            last_ms: start_ms,
            hue: (start_ms % 360) as i32,
            redraw_score: true,
            redraw_highscore: true,
            over: false,
        }
    }
}

// ----------------------------------------------------------------------
// The step transition, specified
// ----------------------------------------------------------------------

/// The larger footprint side of the falling block.
pub open spec fn osc_size(g: GameState) -> int {
    if g.current.width >= g.current.depth {
        g.current.width as int
    } else {
        g.current.depth as int
    }
}

/// The falling block after the oscillation of one loop iteration at time
/// `now`: its x or z coordinate — alternating with the score's parity — is
/// recomputed from the elapsed round time, centered over the support.
pub open spec fn osc_current(g: GameState, now: int) -> Block {
    let last = g.support();
    let period = osc_period(osc_size(g));
    let t = (now - g.last_ms) % period;
    if g.score % 2 == 0 {
        Block {
            x: osc_coord(
                g.current.width as int,
                t,
                period,
                last.x as int,
                last.width as int,
            ) as i32,
            ..g.current
        }
    } else {
        Block {
            z: osc_coord(
                g.current.depth as int,
                t,
                period,
                last.z as int,
                last.depth as int,
            ) as i32,
            ..g.current
        }
    }
}

/// Whether both axis offsets are within the fit tolerance.
pub open spec fn fit_ok(cur: Block, last: Block) -> bool {
    abs_of(cur.x - last.x) <= FIT_DISTANCE && abs_of(cur.z - last.z) <= FIT_DISTANCE
}

/// The falling block's final geometry on a tap: snapped to the support on
/// a near-perfect fit — grown by the bonus when the preceding commits form
/// a perfect streak — and otherwise clipped to the support on each axis.
pub open spec fn resolved_block(cur: Block, last: Block, streak: bool) -> Block {
    if fit_ok(cur, last) {
        if streak {
            Block {
                x: (last.x - BONUS) as i32,
                z: (last.z - BONUS) as i32,
                width: (cur.width + 2 * BONUS) as i32,
                depth: (cur.depth + 2 * BONUS) as i32,
                ..cur
            }
        } else {
            Block { x: last.x, z: last.z, ..cur }
        }
    } else {
        let tx = trim_axis_spec(cur.x as int, cur.width as int, last.x as int, last.width as int);
        let tz = trim_axis_spec(cur.z as int, cur.depth as int, last.z as int, last.depth as int);
        Block { x: tx.0 as i32, width: tx.1 as i32, z: tz.0 as i32, depth: tz.1 as i32, ..cur }
    }
}

/// Trim monotonicity for the whole resolution: outside the perfect-fit
/// path the trimmed footprint is never larger than the falling one and,
/// when it survives, lies entirely inside the supporting footprint; on a
/// perfect fit without a streak the block snaps to the support unchanged;
/// and on a perfect streak it exceeds the support by exactly the bonus on
/// both sides of both axes.
pub proof fn lemma_resolved_within(cur: Block, last: Block, streak: bool)
    requires
        -30000 <= cur.x <= 30000,
        -30000 <= cur.z <= 30000,
        0 < cur.width <= 300,
        0 < cur.depth <= 300,
        -30000 <= last.x <= 30000,
        -30000 <= last.z <= 30000,
        0 < last.width <= 300,
        0 < last.depth <= 300,
    ensures
        ({
            let r = resolved_block(cur, last, streak);
            &&& (!fit_ok(cur, last) ==> r.width <= cur.width && r.depth <= cur.depth && r.x
                >= cur.x && r.z >= cur.z)
            &&& (!fit_ok(cur, last) && r.width > 0 ==> last.x <= r.x && r.x + r.width <= last.x
                + last.width)
            &&& (!fit_ok(cur, last) && r.depth > 0 ==> last.z <= r.z && r.z + r.depth <= last.z
                + last.depth)
            &&& (fit_ok(cur, last) && !streak ==> r.x == last.x && r.z == last.z && r.width
                == cur.width && r.depth == cur.depth)
            &&& (fit_ok(cur, last) && streak && cur.width == last.width && cur.depth == last.depth
                ==> r.x == last.x - BONUS && r.x + r.width == last.x + last.width + BONUS && r.z
                == last.z - BONUS && r.z + r.depth == last.z + last.depth + BONUS)
        }),
{
    if !fit_ok(cur, last) {
        lemma_trim_within(cur.x as int, cur.width as int, last.x as int, last.width as int);
        lemma_trim_within(cur.z as int, cur.depth as int, last.z as int, last.depth as int);
    }
}

/// Trim monotonicity for the game's own states, with no side conditions:
/// because `GameState::wf` carries the footprint every spawn inherits from
/// its support, a near-perfect fit without a streak commits exactly the
/// supporting footprint, the streak bonus exceeds it by exactly the bonus
/// on both sides of both axes, and the trim path never grows a side and
/// stays inside the support whenever it survives. `cur` stands for the
/// falling block after any oscillation, which moves it but never resizes
/// it.
pub proof fn lemma_resolved_within_game(g: GameState, cur: Block)
    requires
        g.wf(),
        cur.width == g.current.width,
        cur.depth == g.current.depth,
        -30000 <= cur.x <= 30000,
        -30000 <= cur.z <= 30000,
    ensures
        ({
            let last = g.support();
            let streak = perfect_streak(g.blocks@);
            let r = resolved_block(cur, last, streak);
            &&& (fit_ok(cur, last) && !streak ==> r.x == last.x && r.z == last.z && r.width
                == last.width && r.depth == last.depth)
            &&& (fit_ok(cur, last) && streak ==> r.x == last.x - BONUS && r.x + r.width == last.x
                + last.width + BONUS && r.z == last.z - BONUS && r.z + r.depth == last.z
                + last.depth + BONUS)
            &&& (!fit_ok(cur, last) ==> r.width <= cur.width && r.depth <= cur.depth)
            &&& (!fit_ok(cur, last) && r.width > 0 ==> last.x <= r.x && r.x + r.width <= last.x
                + last.width)
            &&& (!fit_ok(cur, last) && r.depth > 0 ==> last.z <= r.z && r.z + r.depth <= last.z
                + last.depth)
        }),
{
    let last = g.support();
    assert(block_wf(g.blocks[g.blocks.len() - 1]));
    assert(last == g.blocks[g.blocks.len() - 1]);
    lemma_resolved_within(cur, last, perfect_streak(g.blocks@));
}

/// Tighter bounds under which one step's arithmetic and drawing stay in
/// range; the round loop checks them through `can_step`.
pub open spec fn tight_block(b: Block) -> bool {
    -10000 <= b.x <= 10000 && -10000 <= b.z <= 10000 && b.width <= 220 && b.depth <= 220
}

/// Whether the state is ready for another `step`.
pub open spec fn step_ready(g: GameState) -> bool {
    &&& g.score < MAX_SCORE
    &&& g.blocks.len() <= 900
    &&& g.base_y <= 20000
    &&& (forall|i: int| 0 <= i < g.blocks.len() ==> tight_block(#[trigger] g.blocks[i]))
    &&& tight_block(g.current)
}

/// What one `step` reports back to the round loop.
#[derive(Clone, Copy, PartialEq, Eq, Structural, Debug)]
pub struct StepResult {
    /// The tap trimmed the block below the minimum size; the round is over
    /// and nothing was committed.
    pub game_over: bool,
    /// A block was committed this step.
    pub committed: bool,
    /// The displayed score changed and its text must be redrawn.
    pub redraw_score: bool,
    /// The displayed high score changed and its text must be redrawn.
    pub redraw_highscore: bool,
}

impl GameState {
    /// Whether the bounds `step` needs hold of every block.
    pub fn can_step(&self) -> (r: bool)
        requires
            self.wf(),
        ensures
            r == step_ready(*self),
    {
        if !(self.score < MAX_SCORE && self.blocks.len() <= 900 && self.base_y <= 20000) {
            return false;
        }
        if !(self.current.x >= -10000 && self.current.x <= 10000 && self.current.z >= -10000
            && self.current.z <= 10000 && self.current.width <= 220 && self.current.depth
            <= 220) {
            return false;
        }
        let mut i: usize = 0;
        while i < self.blocks.len()
            invariant
                i <= self.blocks.len(),
                forall|j: int| 0 <= j < i ==> tight_block(#[trigger] self.blocks[j]),
            decreases self.blocks.len() - i,
        {
            let b = self.blocks[i];
            if !(b.x >= -10000 && b.x <= 10000 && b.z >= -10000 && b.z <= 10000 && b.width <= 220
                && b.depth <= 220) {
                return false;
            }
            i = i + 1;
        }
        true
    }

    /// Recomputes the falling block's oscillating coordinate for time
    /// `now_ms`.
    fn move_current(&mut self, now_ms: u64)
        requires
            old(self).wf(),
            step_ready(*old(self)),
            now_ms >= old(self).last_ms,
        ensures
            final(self).wf(),
            final(self).current == osc_current(*old(self), now_ms as int),
            -11000 <= final(self).current.x <= 11000,
            -11000 <= final(self).current.z <= 11000,
            final(self).blocks == old(self).blocks,
            final(self).score == old(self).score,
            final(self).highscore == old(self).highscore,
            final(self).base_x == old(self).base_x,
            final(self).base_y == old(self).base_y,
            final(self).xmax == old(self).xmax,
            final(self).ymax == old(self).ymax,
            final(self).last_tapped == old(self).last_tapped,
            final(self).last_ms == old(self).last_ms,
            final(self).hue == old(self).hue,
            final(self).redraw_score == old(self).redraw_score,
            final(self).redraw_highscore == old(self).redraw_highscore,
            final(self).over == old(self).over,
    {
        let last = self.blocks[self.blocks.len() - 1];
        let size = if self.current.depth > self.current.width {
            self.current.depth
        } else {
            self.current.width
        };
        let elapsed = now_ms - self.last_ms;
        if self.score % 2 == 0 {
            let v = osc_position(elapsed, size, self.current.width, last.x, last.width);
            self.current.x = v;
        } else {
            let v = osc_position(elapsed, size, self.current.depth, last.z, last.depth);
            self.current.z = v;
        }
    }

    /// Applies the tap: snaps or trims the falling block against the block
    /// beneath and detects game over. Does not commit.
    fn resolve_tap(&mut self) -> (go: bool)
        requires
            old(self).wf(),
            -11000 <= old(self).current.x <= 11000,
            -11000 <= old(self).current.z <= 11000,
            old(self).current.width <= 220,
            old(self).current.depth <= 220,
            tight_block(old(self).support()),
        ensures
            -11000 <= final(self).current.x <= 11000,
            -11000 <= final(self).current.z <= 11000,
            final(self).current.width <= 230,
            final(self).current.depth <= 230,
            final(self).current.y == old(self).current.y,
            final(self).current.height == old(self).current.height,
            final(self).current.hue == old(self).current.hue,
            final(self).current == resolved_block(
                old(self).current,
                old(self).support(),
                perfect_streak(old(self).blocks@),
            ),
            go == (final(self).current.width < MIN_SIZE || final(self).current.depth < MIN_SIZE),
            final(self).over == (old(self).over || go),
            final(self).blocks == old(self).blocks,
            final(self).score == old(self).score,
            final(self).highscore == old(self).highscore,
            final(self).base_x == old(self).base_x,
            final(self).base_y == old(self).base_y,
            final(self).xmax == old(self).xmax,
            final(self).ymax == old(self).ymax,
            final(self).last_tapped == old(self).last_tapped,
            final(self).last_ms == old(self).last_ms,
            final(self).hue == old(self).hue,
            final(self).redraw_score == old(self).redraw_score,
            final(self).redraw_highscore == old(self).redraw_highscore,
    {
        let last = self.blocks[self.blocks.len() - 1];
        if crate::color::abs(self.current.x - last.x) <= FIT_DISTANCE && crate::color::abs(
            self.current.z - last.z,
        ) <= FIT_DISTANCE {
            self.current.x = last.x;
            self.current.z = last.z;
            if check_streak(&self.blocks) {
                self.current.x = self.current.x - BONUS;
                self.current.z = self.current.z - BONUS;
                self.current.width = self.current.width + 2 * BONUS;
                self.current.depth = self.current.depth + 2 * BONUS;
            }
        } else {
            let tx = trim_axis(self.current.x, self.current.width, last.x, last.width);
            self.current.x = tx.0;
            self.current.width = tx.1;
            let tz = trim_axis(self.current.z, self.current.depth, last.z, last.depth);
            self.current.z = tz.0;
            self.current.depth = tz.1;
        }
        let go = self.current.width < MIN_SIZE || self.current.depth < MIN_SIZE;
        if go {
            self.over = true;
        }
        go
    }

    /// Commits the resolved falling block: appends it to the stack, spawns
    /// the next block one level up with the current hue, restarts the round
    /// clock and updates score and high score.
    fn finish_commit(&mut self, now_ms: u64)
        requires
            old(self).wf_core(),
            old(self).score < MAX_SCORE,
            block_wf(old(self).current),
            0 <= old(self).current.hue < 360,
        ensures
            final(self).wf(),
            final(self).blocks@ == old(self).blocks@.push(old(self).current),
            final(self).score == old(self).score + 1,
            final(self).highscore == (if old(self).score + 1 > old(self).highscore {
                old(self).score + 1
            } else {
                old(self).highscore as int
            }),
            final(self).current.x == old(self).current.x,
            final(self).current.z == old(self).current.z,
            final(self).current.y == old(self).current.y - BLOCK_HEIGHT,
            final(self).current.width == old(self).current.width,
            final(self).current.depth == old(self).current.depth,
            final(self).current.height == BLOCK_HEIGHT,
            final(self).current.hue == old(self).hue,
            final(self).last_ms == now_ms - (now_ms as int % 100),
            final(self).redraw_score,
            final(self).redraw_highscore == (old(self).redraw_highscore || old(self).score + 1
                > old(self).highscore),
            final(self).base_x == old(self).base_x,
            final(self).base_y == old(self).base_y,
            final(self).xmax == old(self).xmax,
            final(self).ymax == old(self).ymax,
            final(self).last_tapped == old(self).last_tapped,
            final(self).hue == old(self).hue,
            final(self).over == old(self).over,
    {
        let committed = self.current;
        self.blocks.push(committed);
        self.current = Block::new(
            committed.x,
            committed.y - BLOCK_HEIGHT,
            committed.z,
            committed.width,
            BLOCK_HEIGHT,
            committed.depth,
            self.hue,
        );
        self.last_ms = now_ms - now_ms % 100;
        self.score = self.score + 1;
        if self.score > self.highscore {
            self.highscore = self.score;
            self.redraw_highscore = true;
        }
        self.redraw_score = true;
        proof {
            assert forall|i: int| 0 <= i < self.blocks.len() implies block_wf(
                #[trigger] self.blocks[i],
            ) by {
                if i < old(self).blocks.len() {
                    assert(self.blocks[i] == old(self).blocks[i]);
                }
            }
            assert forall|i: int| 0 <= i < self.blocks.len() implies (
            #[trigger] self.blocks[i]).y == -60 - 15 * i by {
                if i < old(self).blocks.len() {
                    assert(self.blocks[i] == old(self).blocks[i]);
                }
            }
        }
    }
}

/// Left-face color for a block of the given hue.
pub open spec fn left_shade(hue: int) -> Color {
    crate::color::fixed_color(
        crate::color::weighted_color(crate::color::hsv_to_color(hue as u32, 500, 1000), 1000),
    )
}

/// Right-face color for a block of the given hue.
pub open spec fn right_shade(hue: int) -> Color {
    crate::color::fixed_color(
        crate::color::weighted_color(crate::color::hsv_to_color(hue as u32, 500, 1000), 600),
    )
}

/// Top-face color for a block of the given hue.
pub open spec fn top_shade(hue: int) -> Color {
    crate::color::fixed_color(
        crate::color::weighted_color(crate::color::hsv_to_color(hue as u32, 500, 1000), 800),
    )
}

/// Draws one block solid, shaded from `hue`: a half-saturated full-value
/// base color, darkened per face and channel-order corrected.
pub fn draw_block(renderer: &mut Renderer, block: &Block, base_x: i32, base_y: i32, hue: i32)
    requires
        old(renderer).inv(),
        old(renderer).is_direct(),
        0 <= hue < 360,
        block.in_range(),
        1 <= block.width,
        1 <= block.depth,
        -46000 <= block.proj_x(base_x as int) <= 46000,
        -46000 <= block.proj_y(base_y as int) <= 46000,
        -100000 <= base_x <= 100000,
        -100000 <= base_y <= 100000,
    ensures
        final(renderer).inv(),
        final(renderer).is_direct(),
        Renderer::same_config(*old(renderer), *final(renderer)),
        Renderer::same_logs(*old(renderer), *final(renderer)),
        Renderer::same_marks(*old(renderer), *final(renderer)),
        crate::renderer::covers_paint(
            *old(renderer),
            *final(renderer),
            crate::renderer::block_face_paint(
                block.proj_x(base_x as int),
                block.proj_y(base_y as int),
                block.width as int,
                block.height as int,
                block.depth as int,
                left_shade(hue as int),
                right_shade(hue as int),
                top_shade(hue as int),
            ),
        ),
{
    let base_color = crate::color::hsv_color(hue as u32, 500, 1000);
    let left_color = crate::color::fix_color(crate::color::weight_color(base_color, 1000));
    let right_color = crate::color::fix_color(crate::color::weight_color(base_color, 600));
    let top_color = crate::color::fix_color(crate::color::weight_color(base_color, 800));
    block.draw_solid(renderer, base_x, base_y, left_color, right_color, top_color);
}

impl GameState {
    /// Draws the base block of a fresh round with the round's starting hue.
    pub fn draw_start(&self, renderer: &mut Renderer)
        requires
            old(renderer).inv(),
            old(renderer).is_direct(),
            self.wf(),
            step_ready(*self),
        ensures
            final(renderer).inv(),
            final(renderer).is_direct(),
            Renderer::same_config(*old(renderer), *final(renderer)),
            Renderer::same_logs(*old(renderer), *final(renderer)),
            Renderer::same_marks(*old(renderer), *final(renderer)),
            crate::renderer::covers_paint(
                *old(renderer),
                *final(renderer),
                crate::renderer::block_face_paint(
                    self.blocks[0].proj_x(self.base_x as int),
                    self.blocks[0].proj_y(self.base_y as int),
                    self.blocks[0].width as int,
                    self.blocks[0].height as int,
                    self.blocks[0].depth as int,
                    left_shade(self.hue as int),
                    right_shade(self.hue as int),
                    top_shade(self.hue as int),
                ),
            ),
    {
        let b = self.blocks[0];
        proof {
            crate::num::lemma_tdiv_bound(b.x as int, 2, 10000);
            crate::num::lemma_tdiv_bound(b.z as int, 2, 10000);
        }
        draw_block(renderer, &b, self.base_x, self.base_y, self.hue);
    }

    /// Scrolls the camera one large step down and repaints every committed
    /// block that is still visible, after clearing the stack's old
    /// bounding region.
    fn scroll_and_redraw(&mut self, renderer: &mut Renderer)
        requires
            old(self).wf_core(),
            old(self).blocks.len() <= 900,
            old(self).base_y <= 20000,
            forall|i: int| 0 <= i < old(self).blocks.len() ==> tight_block(#[trigger] old(self).blocks[i]),
            old(renderer).inv(),
            old(renderer).is_direct(),
        ensures
            final(self).base_y == old(self).base_y + old(self).ymax / 3,
            final(self).blocks == old(self).blocks,
            final(self).current == old(self).current,
            final(self).score == old(self).score,
            final(self).highscore == old(self).highscore,
            final(self).base_x == old(self).base_x,
            final(self).xmax == old(self).xmax,
            final(self).ymax == old(self).ymax,
            final(self).last_tapped == old(self).last_tapped,
            final(self).last_ms == old(self).last_ms,
            final(self).hue == old(self).hue,
            final(self).redraw_score == old(self).redraw_score,
            final(self).redraw_highscore == old(self).redraw_highscore,
            final(self).over == old(self).over,
            final(renderer).inv(),
            final(renderer).is_direct(),
            Renderer::same_config(*old(renderer), *final(renderer)),
            Renderer::same_logs(*old(renderer), *final(renderer)),
            Renderer::same_marks(*old(renderer), *final(renderer)),
    {
        let first = self.blocks[0];
        let last = self.blocks[self.blocks.len() - 1];
        let min_x = first.min_x(self.base_x, self.base_y) - 5;
        let min_y = last.min_y(self.base_x, self.base_y) - 5;
        let max_x = first.max_x(self.base_x, self.base_y) + 5;
        renderer.clear_area(min_x, min_y, max_x - min_x + 1, self.ymax - min_y);
        self.base_y = self.base_y + self.ymax / 3;
        let ghost r_mid = *renderer;
        let mut i: usize = 0;
        while i < self.blocks.len()
            invariant
                self.wf_core(),
                i <= self.blocks.len(),
                self.blocks.len() <= 900,
                forall|j: int| 0 <= j < self.blocks.len() ==> tight_block(#[trigger] self.blocks[j]),
                renderer.inv(),
                renderer.is_direct(),
                Renderer::same_config(r_mid, *renderer),
                Renderer::same_logs(r_mid, *renderer),
                Renderer::same_marks(r_mid, *renderer),
                0 <= self.base_y <= 22000,
            decreases self.blocks.len() - i,
        {
            let b = self.blocks[i];
            if b.min_y(self.base_x, self.base_y) < self.ymax {
                proof {
                    crate::num::lemma_tdiv_bound(b.x as int, 2, 10000);
                    crate::num::lemma_tdiv_bound(b.z as int, 2, 10000);
                }
                draw_block(renderer, &b, self.base_x, self.base_y, b.hue);
            }
            i = i + 1;
        }
    }

    /// One iteration of the round loop at time `now_ms` with the current
    /// touch sample: recomputes the falling block's oscillation, composes
    /// its frame on `top_renderer`, and, on a rising tap edge, resolves the
    /// tap — either ending the round or committing the block (scrolling
    /// the camera and repainting the stack on `renderer` when it has grown
    /// tall).
    #[verifier::rlimit(100)]
    pub fn step(
        &mut self,
        renderer: &mut Renderer,
        top_renderer: &mut Renderer,
        now_ms: u64,
        touch_active: bool,
    ) -> (r: StepResult)
        requires
            old(self).wf(),
            !old(self).over,
            step_ready(*old(self)),
            now_ms >= old(self).last_ms,
            old(renderer).inv(),
            old(renderer).is_direct(),
            old(top_renderer).inv(),
            old(top_renderer).is_direct(),
            !old(top_renderer).is_immediate(),
        ensures
            !r.game_over ==> final(self).wf(),
            ({
                let moved = osc_current(*old(self), now_ms as int);
                let resolved = resolved_block(
                    moved,
                    old(self).support(),
                    perfect_streak(old(self).blocks@),
                );
                let edge = touch_active && !old(self).last_tapped;
                let dies = edge && (resolved.width < MIN_SIZE || resolved.depth < MIN_SIZE);
                &&& r.game_over == dies
                &&& final(self).over == dies
                &&& r.committed == (edge && !dies)
                &&& (!edge ==> final(self).blocks == old(self).blocks && final(self).score == old(
                    self,
                ).score && final(self).highscore == old(self).highscore && final(self).current
                    == moved && final(self).base_y == old(self).base_y && final(self).hue == old(
                    self,
                ).hue && final(self).last_ms == old(self).last_ms)
                &&& (dies ==> final(self).blocks == old(self).blocks && final(self).score == old(
                    self,
                ).score && final(self).highscore == old(self).highscore && final(self).current
                    == resolved && final(self).base_y == old(self).base_y)
                &&& (edge && !dies ==> ({
                    &&& final(self).blocks@ == old(self).blocks@.push(resolved)
                    &&& final(self).score == old(self).score + 1
                    &&& final(self).highscore == (if old(self).score + 1 > old(self).highscore {
                        old(self).score + 1
                    } else {
                        old(self).highscore as int
                    })
                    &&& final(self).hue == (old(self).hue + 10) % 360
                    &&& final(self).current.x == resolved.x
                    &&& final(self).current.z == resolved.z
                    &&& final(self).current.width == resolved.width
                    &&& final(self).current.depth == resolved.depth
                    &&& final(self).current.height == BLOCK_HEIGHT
                    &&& final(self).current.y == resolved.y - BLOCK_HEIGHT
                    &&& final(self).current.hue == (old(self).hue + 10) % 360
                    &&& final(self).base_y == old(self).base_y + (
                    if old(self).base_y + moved.y < old(self).ymax / 3 {
                        old(self).ymax / 3
                    } else {
                        0
                    })
                    &&& final(self).last_ms == now_ms - (now_ms as int % 100)
                    &&& r.redraw_score
                    &&& r.redraw_highscore == (old(self).redraw_highscore || old(self).score + 1
                        > old(self).highscore)
                }))
                &&& (!edge || dies ==> r.redraw_score == old(self).redraw_score
                    && r.redraw_highscore == old(self).redraw_highscore)
                &&& (forall|qx: int, qy: int|
                    old(top_renderer).in_screen(qx, qy) && (crate::renderer::wire_trace_shape(
                        moved.proj_x(old(self).base_x as int),
                        moved.proj_y(old(self).base_y as int),
                        moved.width as int,
                        moved.height as int,
                        moved.depth as int,
                    ))(
                        old(top_renderer).logical_x(qx, qy),
                        old(top_renderer).logical_y(qx, qy),
                    ) ==> #[trigger] final(top_renderer).screen(qx, qy)
                        == crate::color::color_of_hex(0xffffff))
                &&& (edge && !dies ==> (forall|qx: int, qy: int|
                    old(renderer).in_screen(qx, qy) && (crate::renderer::block_face_paint(
                        resolved.proj_x(final(self).base_x as int),
                        resolved.proj_y(final(self).base_y as int),
                        resolved.width as int,
                        resolved.height as int,
                        resolved.depth as int,
                        left_shade(final(self).hue as int),
                        right_shade(final(self).hue as int),
                        top_shade(final(self).hue as int),
                    ))(
                        old(renderer).logical_x(qx, qy),
                        old(renderer).logical_y(qx, qy),
                    ).is_some() ==> #[trigger] final(renderer).screen(qx, qy)
                        == (crate::renderer::block_face_paint(
                        resolved.proj_x(final(self).base_x as int),
                        resolved.proj_y(final(self).base_y as int),
                        resolved.width as int,
                        resolved.height as int,
                        resolved.depth as int,
                        left_shade(final(self).hue as int),
                        right_shade(final(self).hue as int),
                        top_shade(final(self).hue as int),
                    ))(
                        old(renderer).logical_x(qx, qy),
                        old(renderer).logical_y(qx, qy),
                    ).unwrap()))
            }),
            final(self).last_tapped == touch_active,
            !final(self).redraw_score,
            !final(self).redraw_highscore,
            final(self).xmax == old(self).xmax,
            final(self).ymax == old(self).ymax,
            final(self).base_x == old(self).base_x,
            final(renderer).inv(),
            final(renderer).is_direct(),
            Renderer::same_config(*old(renderer), *final(renderer)),
            final(top_renderer).inv(),
            final(top_renderer).is_direct(),
            final(top_renderer).is_portrait() == old(top_renderer).is_portrait(),
            final(top_renderer).is_immediate() == old(top_renderer).is_immediate(),
            final(top_renderer).bg_of() == old(top_renderer).bg_of(),
            final(top_renderer).phys_w() == old(top_renderer).phys_w(),
            final(top_renderer).phys_h() == old(top_renderer).phys_h(),
    {
        self.move_current(now_ms);
        let white = Color::from_hex(0xffffff);
        let ghost t0 = *top_renderer;
        top_renderer.begin_frame();
        let ghost t1 = *top_renderer;
        proof {
            top_renderer.lemma_inv_facts();
            lemma_wire_budget_small(
                self.current.proj_x(self.base_x as int),
                self.current.proj_y(self.base_y as int),
                self.current.width as int,
                self.current.height as int,
                self.current.depth as int,
            );
        }
        self.current.draw(top_renderer, self.base_x, self.base_y, white);
        let ghost t2 = *top_renderer;
        top_renderer.end_frame();
        proof {
            let trace = crate::renderer::wire_trace_shape(
                self.current.proj_x(self.base_x as int),
                self.current.proj_y(self.base_y as int),
                self.current.width as int,
                self.current.height as int,
                self.current.depth as int,
            );
            assert forall|qx: int, qy: int|
                t0.in_screen(qx, qy) && trace(t0.logical_x(qx, qy), t0.logical_y(qx, qy))
                implies #[trigger] top_renderer.screen(qx, qy) == white by {
                assert(t1.in_screen(qx, qy) && trace(t1.logical_x(qx, qy), t1.logical_y(qx, qy)));
                assert(t2.in_log(t1.cur_buffer(), qx, qy) && t2.last_color(t1.cur_buffer(), qx, qy)
                    == white);
                assert(t2.in_log(t2.cur_buffer(), qx, qy));
            }
        }
        let mut result = StepResult {
            game_over: false,
            committed: false,
            redraw_score: false,
            redraw_highscore: false,
        };
        if touch_active && !self.last_tapped {
            proof {
                assert(tight_block(old(self).blocks[old(self).blocks.len() - 1]));
                assert(self.blocks@.last() == self.blocks@[self.blocks@.len() - 1]);
            }
            let go = self.resolve_tap();
            if go {
                result.game_over = true;
            } else {
                if self.base_y + self.current.y < self.ymax / 3 {
                    self.scroll_and_redraw(renderer);
                }
                self.hue = (self.hue + 10) % 360;
                proof {
                    crate::num::lemma_tdiv_bound(self.current.x as int, 2, 11000);
                    crate::num::lemma_tdiv_bound(self.current.z as int, 2, 11000);
                }
                let ghost r_pre_draw = *renderer;
                draw_block(renderer, &self.current, self.base_x, self.base_y, self.hue);
                proof {
                    let paint = crate::renderer::block_face_paint(
                        self.current.proj_x(self.base_x as int),
                        self.current.proj_y(self.base_y as int),
                        self.current.width as int,
                        self.current.height as int,
                        self.current.depth as int,
                        left_shade(self.hue as int),
                        right_shade(self.hue as int),
                        top_shade(self.hue as int),
                    );
                    assert forall|qx: int, qy: int|
                        old(renderer).in_screen(qx, qy) && paint(
                            old(renderer).logical_x(qx, qy),
                            old(renderer).logical_y(qx, qy),
                        ).is_some() implies #[trigger] renderer.screen(qx, qy) == paint(
                        old(renderer).logical_x(qx, qy),
                        old(renderer).logical_y(qx, qy),
                    ).unwrap() by {
                        assert(r_pre_draw.logical_x(qx, qy) == old(renderer).logical_x(qx, qy)
                            && r_pre_draw.logical_y(qx, qy) == old(renderer).logical_y(qx, qy));
                    }
                }
                proof {
                    crate::num::lemma_tdiv_bound(now_ms as int, 100, now_ms as int);
                }
                self.finish_commit(now_ms);
                result.committed = true;
            }
        }
        self.last_tapped = touch_active;
        result.redraw_score = self.redraw_score;
        result.redraw_highscore = self.redraw_highscore;
        self.redraw_score = false;
        self.redraw_highscore = false;
        result
    }
}

/// The wireframe budget of a block within the step bounds fits the pixel
/// log.
proof fn lemma_wire_budget_small(x: int, y: int, w: int, h: int, d: int)
    requires
        0 <= w <= 230,
        0 <= h <= 60,
        0 <= d <= 230,
    ensures
        crate::renderer::wire_budget(x, y, w, h, d) <= crate::renderer::PIXEL_BUFFER_SIZE as int,
{
    crate::num::lemma_tdiv_ordered(w, w, 2);
    crate::num::lemma_tdiv_ordered(d, d, 2);
    vstd::arithmetic::div_mod::lemma_fundamental_div_mod(w, 2);
    vstd::arithmetic::div_mod::lemma_fundamental_div_mod(d, 2);
}

} // verus!
