use vstd::prelude::*;
use vstd::string::*;
use crate::text::str_eq;

verus! {

/// One player slot; the server owns the mapping from endpoints to roles.
#[derive(Clone, Copy, PartialEq, Eq, Structural, Debug)]
pub enum Role {
    Left,
    Right,
}

pub open spec fn role_seq(r: Role) -> Seq<char> {
    match r {
        Role::Left => "left"@,
        Role::Right => "right"@,
    }
}

/// One directional command as it travels over the wire. The `side` field is
/// only a client-supplied hint: the server overwrites it with the role that
/// the session registry resolved before the input reaches the simulation.
#[derive(PartialEq, Eq, Debug)]
pub struct PaddleInput {
    pub side: String,
    pub direction: String,
    pub name: String,
}

/// Rejected directional command: a side that names no paddle, or a direction
/// outside Up/Down. Both are recoverable; the caller drops the message.
#[derive(Clone, Copy, PartialEq, Eq, Structural, Debug)]
pub enum StepError {
    UnknownSide,
    UnknownDirection,
}

/// Mathematical view of the whole game state. Lengths are in half-cell
/// units: one display cell is two half-units, so the game's finest
/// step (half a cell per tick) is one unit here.
#[verifier::ext_equal]
pub struct StateModel {
    pub ball_x: int,
    pub ball_y: int,
    pub vel_x: int,
    pub vel_y: int,
    pub paddle_left: int,
    pub paddle_right: int,
    pub screen_width: int,
    pub screen_height: int,
    pub tick: int,
    pub score_left: int,
    pub score_right: int,
    pub name_left: Seq<char>,
    pub name_right: Seq<char>,
}

/// Authoritative game state. Positions and velocities are in half-cell
/// units (`StateModel` explains the scale); `screen_width`/`screen_height`
/// are in whole cells; `tick` is the physics interval in milliseconds.
#[derive(PartialEq, Eq, Debug)]
pub struct GameState {
    pub ball_x: i64,
    pub ball_y: i64,
    pub vel_x: i64,
    pub vel_y: i64,
    pub paddle_left: i64,
    pub paddle_right: i64,
    pub screen_height: usize,
    pub screen_width: usize,
    pub tick: u64,
    pub score_left: u32,
    pub score_right: u32,
    pub player_left_name: String,
    pub player_right_name: String,
}

/// Largest velocity magnitude the state invariant admits, in half-units.
pub const VEL_LIMIT: i64 = 1048576;

/// Largest ball coordinate magnitude `update` accepts, in half-units.
/// Far beyond anything reachable; it only keeps the integration additions
/// inside `i64`.
pub const BALL_LIMIT: i64 = 1000000000000000;

pub open spec fn abs_val(v: int) -> int {
    if v < 0 {
        -v
    } else {
        v
    }
}

/// Paddle band: the paddle centre must stay at least half a paddle length
/// inside the walls, i.e. within [3, height - 4] cells = [6, 2h - 8]
/// half-units.
pub open spec fn in_band(p: int, h: int) -> bool {
    6 <= p <= 2 * h - 8
}

pub open spec fn clamp_band(p: int, h: int) -> int {
    if p < 6 {
        6
    } else if p > 2 * h - 8 {
        2 * h - 8
    } else {
        p
    }
}

/// Up moves the paddle one cell (two half-units) toward the top wall.
pub open spec fn paddle_delta(dir: Seq<char>) -> int {
    if dir == "Up"@ {
        -2
    } else {
        2
    }
}

/// The ball bounces off the top or bottom wall one cell inside the border:
/// at y <= 1 or y >= height - 2 cells.
pub open spec fn wall_hit(y: int, h: int) -> bool {
    y <= 2 || y >= 2 * h - 4
}

/// The left paddle returns the ball when it reaches x <= 3 cells and the
/// vertical offset to the paddle centre is strictly below 3 cells.
pub open spec fn left_paddle_hit(x: int, y: int, paddle: int) -> bool {
    x <= 6 && abs_val(y - paddle) < 6
}

/// Mirror rule for the right paddle at x >= width - 3 cells.
pub open spec fn right_paddle_hit(x: int, y: int, paddle: int, w: int) -> bool {
    x >= 2 * w - 6 && abs_val(y - paddle) < 6
}

/// The ball is out past the left edge below x = 1 cell.
pub open spec fn out_left(x: int) -> bool {
    x < 2
}

/// The ball is out past the right edge beyond x = width - 1 cells.
pub open spec fn out_right(x: int, w: int) -> bool {
    x > 2 * w - 2
}

/// Horizontal velocity after both paddle checks, given the integrated ball
/// position (x, y): the left paddle sends the ball rightward, then the
/// right paddle sends it leftward.
pub open spec fn vx_after_paddles(m: StateModel, x: int, y: int) -> int {
    let v1 = if left_paddle_hit(x, y, m.paddle_left) {
        abs_val(m.vel_x)
    } else {
        m.vel_x
    };
    if right_paddle_hit(x, y, m.paddle_right, m.screen_width) {
        -abs_val(v1)
    } else {
        v1
    }
}

/// One physics step: Euler integration, wall reflection, paddle
/// reflection, then scoring with a centre reset that serves toward the
/// side that was just scored against.
pub open spec fn spec_physics(m: StateModel) -> StateModel {
    let x = m.ball_x + m.vel_x;
    let y = m.ball_y + m.vel_y;
    let vy = if wall_hit(y, m.screen_height) {
        -m.vel_y
    } else {
        m.vel_y
    };
    let vx = vx_after_paddles(m, x, y);
    if out_left(x) {
        StateModel {
            ball_x: m.screen_width,
            ball_y: m.screen_height,
            vel_x: -vx,
            vel_y: vy,
            score_right: m.score_right + 1,
            ..m
        }
    } else if out_right(x, m.screen_width) {
        StateModel {
            ball_x: m.screen_width,
            ball_y: m.screen_height,
            vel_x: -vx,
            vel_y: vy,
            score_left: m.score_left + 1,
            ..m
        }
    } else {
        StateModel { ball_x: x, ball_y: y, vel_x: vx, vel_y: vy, ..m }
    }
}

pub open spec fn side_known(side: Seq<char>) -> bool {
    side == "left"@ || side == "right"@
}

pub open spec fn direction_known(dir: Seq<char>) -> bool {
    dir == "Up"@ || dir == "Down"@
}

/// A validated input moves the named paddle one cell and clamps it into
/// the band.
pub open spec fn spec_apply_input(m: StateModel, side: Seq<char>, dir: Seq<char>) -> StateModel {
    if side == "left"@ {
        StateModel {
            paddle_left: clamp_band(m.paddle_left + paddle_delta(dir), m.screen_height),
            ..m
        }
    } else {
        StateModel {
            paddle_right: clamp_band(m.paddle_right + paddle_delta(dir), m.screen_height),
            ..m
        }
    }
}

/// The physics step is gated on wall-clock time: it runs only when the
/// elapsed time since the last step exceeds the tick. Skipped time is
/// dropped, never caught up.
pub open spec fn spec_gate(m: StateModel, elapsed: int) -> StateModel {
    if elapsed > m.tick {
        spec_physics(m)
    } else {
        m
    }
}

/// What one call of `GameState::update` does to the state.
pub open spec fn spec_step(
    m: StateModel,
    input: Option<(Seq<char>, Seq<char>)>,
    elapsed: int,
) -> Result<StateModel, StepError> {
    match input {
        None => Ok(spec_gate(m, elapsed)),
        Some((side, dir)) => if !side_known(side) {
            Err(StepError::UnknownSide)
        } else if !direction_known(dir) {
            Err(StepError::UnknownDirection)
        } else {
            Ok(spec_gate(spec_apply_input(m, side, dir), elapsed))
        },
    }
}

pub open spec fn input_views(input: Option<PaddleInput>) -> Option<(Seq<char>, Seq<char>)> {
    match input {
        None => None,
        Some(p) => Some((p.side@, p.direction@)),
    }
}

pub open spec fn with_left_name(m: StateModel, n: Seq<char>) -> StateModel {
    StateModel { name_left: n, ..m }
}

pub open spec fn with_right_name(m: StateModel, n: Seq<char>) -> StateModel {
    StateModel { name_right: n, ..m }
}

fn clamp_paddle(p: i64, h: usize) -> (r: i64)
    requires
        7 <= h <= 65536,
        -1000000 <= p <= 1000000,
    ensures
        r == clamp_band(p as int, h as int),
        in_band(r as int, h as int),
{
    let hi: i64 = 2 * (h as i64) - 8;
    if p < 6 {
        6
    } else if p > hi {
        hi
    } else {
        p
    }
}

impl GameState {
    pub open spec fn model(&self) -> StateModel {
        StateModel {
            ball_x: self.ball_x as int,
            ball_y: self.ball_y as int,
            vel_x: self.vel_x as int,
            vel_y: self.vel_y as int,
            paddle_left: self.paddle_left as int,
            paddle_right: self.paddle_right as int,
            screen_width: self.screen_width as int,
            screen_height: self.screen_height as int,
            tick: self.tick as int,
            score_left: self.score_left as int,
            score_right: self.score_right as int,
            name_left: self.player_left_name@,
            name_right: self.player_right_name@,
        }
    }

    /// Structural invariant: sane playfield dimensions, bounded
    /// velocities, paddles inside their band. The ball position is
    /// deliberately unconstrained; only `update` bounds it, as a machine
    /// limit.
    pub open spec fn wf(&self) -> bool {
        &&& 7 <= self.screen_height <= 65536
        &&& 2 <= self.screen_width <= 65536
        &&& abs_val(self.vel_x as int) <= VEL_LIMIT
        &&& abs_val(self.vel_y as int) <= VEL_LIMIT
        &&& in_band(self.paddle_left as int, self.screen_height as int)
        &&& in_band(self.paddle_right as int, self.screen_height as int)
    }

    pub open spec fn initial_model() -> StateModel {
        StateModel {
            ball_x: 80,
            ball_y: 24,
            vel_x: 2,
            vel_y: 1,
            paddle_left: 20,
            paddle_right: 20,
            screen_width: 80,
            screen_height: 25,
            tick: 50,
            score_left: 0,
            score_right: 0,
            name_left: "Waiting..."@,
            name_right: "Waiting..."@,
        }
    }

    /// The fixed initial state: ball at the centre (40, 12) of an 80x25
    /// field moving (1, 0.5) cells per 50 ms tick, paddles at 10.
    pub fn new() -> (gs: GameState)
        ensures
            gs.wf(),
            gs.model() == GameState::initial_model(),
    {
        let gs = GameState {
            ball_x: 80,
            ball_y: 24,
            vel_x: 2,
            vel_y: 1,
            paddle_left: 20,
            paddle_right: 20,
            screen_height: 25,
            screen_width: 80,
            tick: 50,
            score_left: 0,
            score_right: 0,
            player_left_name: "Waiting...".to_owned(),
            player_right_name: "Waiting...".to_owned(),
        };
        proof {
            assert(gs.model() =~= GameState::initial_model());
        }
        gs
    }

    /// Puts the ball back at the playfield centre after a score and serves
    /// toward the player who conceded.
    fn reset_ball(&mut self)
        requires
            2 <= old(self).screen_width <= 65536,
            7 <= old(self).screen_height <= 65536,
            abs_val(old(self).vel_x as int) <= VEL_LIMIT,
        ensures
            *final(self) == (GameState {
                ball_x: old(self).screen_width as i64,
                ball_y: old(self).screen_height as i64,
                vel_x: (-(old(self).vel_x as int)) as i64,
                ..*old(self)
            }),
    {
        self.ball_x = self.screen_width as i64;
        self.ball_y = self.screen_height as i64;
        self.vel_x = -self.vel_x;
    }

    fn physics_step(&mut self)
        requires
            old(self).wf(),
            abs_val(old(self).ball_x as int) <= BALL_LIMIT,
            abs_val(old(self).ball_y as int) <= BALL_LIMIT,
            old(self).score_left < u32::MAX,
            old(self).score_right < u32::MAX,
    ensures
            final(self).wf(),
            final(self).model() == spec_physics(old(self).model()),
    {
        let w: i64 = self.screen_width as i64;
        let h: i64 = self.screen_height as i64;
        self.ball_x = self.ball_x + self.vel_x;
        self.ball_y = self.ball_y + self.vel_y;

        if self.ball_y <= 2 || self.ball_y >= 2 * h - 4 {
            self.vel_y = -self.vel_y;
        }

        let dl: i64 = self.ball_y - self.paddle_left;
        if self.ball_x <= 6 && -6 < dl && dl < 6 {
            if self.vel_x < 0 {
                self.vel_x = -self.vel_x;
            }
        }

        let dr: i64 = self.ball_y - self.paddle_right;
        if self.ball_x >= 2 * w - 6 && -6 < dr && dr < 6 {
            if self.vel_x > 0 {
                self.vel_x = -self.vel_x;
            }
        }

        if self.ball_x < 2 {
            self.score_right = self.score_right + 1;
            self.reset_ball();
        } else if self.ball_x > 2 * w - 2 {
            self.score_left = self.score_left + 1;
            self.reset_ball();
        }
        proof {
            assert(final(self).model() =~= spec_physics(old(self).model()));
        }
    }

    /// One call of the simulation engine: apply the optional directional
    /// input to its paddle, then run at most one time-gated physics step.
    /// `elapsed_ms` is the wall-clock time since the last physics step;
    /// `Ok(true)` tells the caller that a step ran and the reference
    /// instant must be renewed. A side that names no paddle or a direction
    /// outside Up/Down is a recoverable error and leaves the state
    /// untouched.
    pub fn update(&mut self, input: Option<PaddleInput>, elapsed_ms: u64) -> (r: Result<
        bool,
        StepError,
    >)
        requires
            old(self).wf(),
            abs_val(old(self).ball_x as int) <= BALL_LIMIT,
            abs_val(old(self).ball_y as int) <= BALL_LIMIT,
            old(self).score_left < u32::MAX,
            old(self).score_right < u32::MAX,
        ensures
            final(self).wf(),
            match r {
                Ok(stepped) => {
                    &&& spec_step(old(self).model(), input_views(input), elapsed_ms as int)
                        == Ok::<StateModel, StepError>(final(self).model())
                    &&& stepped == (elapsed_ms > old(self).tick)
                },
                Err(e) => {
                    &&& spec_step(old(self).model(), input_views(input), elapsed_ms as int)
                        == Err::<StateModel, StepError>(e)
                    &&& *final(self) == *old(self)
                },
            },
    {
        match &input {
            Some(p) => {
                let is_left = str_eq(p.side.as_str(), "left");
                let is_right = str_eq(p.side.as_str(), "right");
                if !is_left && !is_right {
                    return Err(StepError::UnknownSide);
                }
                let is_up = str_eq(p.direction.as_str(), "Up");
                let is_down = str_eq(p.direction.as_str(), "Down");
                if !is_up && !is_down {
                    return Err(StepError::UnknownDirection);
                }
                let delta: i64 = if is_up {
                    -2
                } else {
                    2
                };
                if is_left {
                    self.paddle_left = clamp_paddle(self.paddle_left + delta, self.screen_height);
                } else {
                    self.paddle_right = clamp_paddle(self.paddle_right + delta, self.screen_height);
                }
                proof {
                    assert(self.model() =~= spec_apply_input(
                        old(self).model(),
                        p.side@,
                        p.direction@,
                    ));
                }
            },
            None => {},
        }
        let stepped = elapsed_ms > self.tick;
        if stepped {
            self.physics_step();
        }
        Ok(stepped)
    }
}

/// For every valid directional input the targeted paddle moves by
/// exactly one cell (two half-units) and is then clamped into the band:
/// a step that stays in band is taken exactly, and a step that would
/// leave the band lands exactly on the band edge.
pub proof fn lemma_paddle_step(p: int, dir: Seq<char>, h: int)
    requires
        in_band(p, h),
        h >= 7,
        direction_known(dir),
    ensures
        ({
            let q = clamp_band(p + paddle_delta(dir), h);
            &&& abs_val(paddle_delta(dir)) == 2
            &&& in_band(q, h)
            &&& in_band(p + paddle_delta(dir), h) ==> q == p + paddle_delta(dir)
            &&& p + paddle_delta(dir) < 6 ==> q == 6
            &&& p + paddle_delta(dir) > 2 * h - 8 ==> q == 2 * h - 8
        }),
{
}

/// A valid input touches only the paddle its (server-resolved) side
/// names; every other field of the state is untouched.
pub proof fn lemma_input_targets_one_paddle(m: StateModel, side: Seq<char>, dir: Seq<char>)
    requires
        side_known(side),
    ensures
        side == "left"@ ==> spec_apply_input(m, side, dir) == (StateModel {
            paddle_left: clamp_band(m.paddle_left + paddle_delta(dir), m.screen_height),
            ..m
        }),
        side == "right"@ ==> spec_apply_input(m, side, dir) == (StateModel {
            paddle_right: clamp_band(m.paddle_right + paddle_delta(dir), m.screen_height),
            ..m
        }),
{
    reveal_strlit("left");
    reveal_strlit("right");
    assert("left"@.len() == 4);
    assert("right"@.len() == 5);
    if side == "right"@ {
        assert(side != "left"@);
    }
}

/// The vertical velocity flips sign exactly when the integrated ball
/// height reaches a wall bound, and only then (stated as an equation, so
/// both directions hold; the iff form needs a nonzero velocity, since a
/// zero velocity has no observable sign).
pub proof fn lemma_wall_reflection(m: StateModel)
    ensures
        spec_physics(m).vel_y == (if wall_hit(m.ball_y + m.vel_y, m.screen_height) {
            -m.vel_y
        } else {
            m.vel_y
        }),
        m.vel_y != 0 ==> ((spec_physics(m).vel_y == -m.vel_y) <==> wall_hit(
            m.ball_y + m.vel_y,
            m.screen_height,
        )),
{
}

/// The horizontal velocity flips to point away from a paddle exactly
/// when the integrated position crosses that paddle's threshold with a
/// vertical offset strictly inside the hit radius; with no hit it passes
/// through unchanged, toward the scoring check.
pub proof fn lemma_paddle_reflection(m: StateModel)
    ensures
        ({
            let x = m.ball_x + m.vel_x;
            let y = m.ball_y + m.vel_y;
            let stays = !out_left(x) && !out_right(x, m.screen_width);
            &&& (stays && left_paddle_hit(x, y, m.paddle_left) && !right_paddle_hit(
                x,
                y,
                m.paddle_right,
                m.screen_width,
            )) ==> spec_physics(m).vel_x == abs_val(m.vel_x)
            &&& (stays && right_paddle_hit(x, y, m.paddle_right, m.screen_width)) ==> spec_physics(
                m,
            ).vel_x == -abs_val(m.vel_x)
            &&& (stays && !left_paddle_hit(x, y, m.paddle_left) && !right_paddle_hit(
                x,
                y,
                m.paddle_right,
                m.screen_width,
            )) ==> spec_physics(m).vel_x == m.vel_x
        }),
{
}

/// When the ball exits a horizontal bound, the opposing score increments
/// by exactly one, the other score is unchanged, the ball returns to the
/// playfield centre, and the horizontal velocity inverts relative to its
/// value just before the reset (i.e. after any paddle reflection of the
/// same step); when the ball stays inside, both scores are unchanged.
pub proof fn lemma_scoring(m: StateModel)
    ensures
        ({
            let x = m.ball_x + m.vel_x;
            let y = m.ball_y + m.vel_y;
            let m2 = spec_physics(m);
            &&& out_left(x) ==> m2.score_right == m.score_right + 1 && m2.score_left
                == m.score_left && m2.ball_x == m.screen_width && m2.ball_y == m.screen_height
                && m2.vel_x == -vx_after_paddles(m, x, y)
            &&& (!out_left(x) && out_right(x, m.screen_width)) ==> m2.score_left == m.score_left
                + 1 && m2.score_right == m.score_right && m2.ball_x == m.screen_width && m2.ball_y
                == m.screen_height && m2.vel_x == -vx_after_paddles(m, x, y)
            &&& (!out_left(x) && !out_right(x, m.screen_width)) ==> m2.score_left == m.score_left
                && m2.score_right == m.score_right && m2.ball_x == x && m2.ball_y == y
        }),
{
}

/// Scores never decrease: a successful update leaves each score equal or
/// exactly one higher, and at most one of the two can grow in a step.
pub proof fn lemma_scores_monotonic(
    m: StateModel,
    input: Option<(Seq<char>, Seq<char>)>,
    elapsed: int,
)
    ensures
        spec_step(m, input, elapsed) matches Ok(m2) ==> m.score_left <= m2.score_left
            <= m.score_left + 1 && m.score_right <= m2.score_right <= m.score_right + 1 && (
        m2.score_left + m2.score_right) <= m.score_left + m.score_right + 1,
{
}

} // verus!
