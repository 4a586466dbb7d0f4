use pong::game::{GameState, PaddleInput, StepError};

fn input(side: &str, direction: &str, name: &str) -> PaddleInput {
    PaddleInput {
        side: String::from(side),
        direction: String::from(direction),
        name: String::from(name),
    }
}

#[test]
fn initial_state_values() {
    let gs = GameState::new();
    // half-units: ball (40, 12) cells, velocity (1, 0.5) cells per tick
    assert_eq!(gs.ball_x, 80);
    assert_eq!(gs.ball_y, 24);
    assert_eq!(gs.vel_x, 2);
    assert_eq!(gs.vel_y, 1);
    assert_eq!(gs.paddle_left, 20);
    assert_eq!(gs.paddle_right, 20);
    assert_eq!(gs.screen_width, 80);
    assert_eq!(gs.screen_height, 25);
    assert_eq!(gs.tick, 50);
    assert_eq!(gs.score_left, 0);
    assert_eq!(gs.score_right, 0);
    assert_eq!(gs.player_left_name, "Waiting...");
    assert_eq!(gs.player_right_name, "Waiting...");
}

#[test]
fn paddle_moves_up_and_down_one_cell() {
    let mut gs = GameState::new();
    let r = gs.update(Some(input("left", "Up", "")), 0);
    assert_eq!(r, Ok(false));
    assert_eq!(gs.paddle_left, 18);
    assert_eq!(gs.paddle_right, 20);
    let r = gs.update(Some(input("left", "Down", "")), 0);
    assert_eq!(r, Ok(false));
    assert_eq!(gs.paddle_left, 20);
    let r = gs.update(Some(input("right", "Down", "")), 0);
    assert_eq!(r, Ok(false));
    assert_eq!(gs.paddle_right, 22);
    assert_eq!(gs.paddle_left, 20);
}

#[test]
fn paddle_clamped_at_band_edges() {
    let mut gs = GameState::new();
    gs.paddle_left = 7;
    // 7 - 2 = 5 is below the band floor 6: lands exactly on the edge
    assert_eq!(gs.update(Some(input("left", "Up", "")), 0), Ok(false));
    assert_eq!(gs.paddle_left, 6);
    // already at the edge: stays there
    assert_eq!(gs.update(Some(input("left", "Up", "")), 0), Ok(false));
    assert_eq!(gs.paddle_left, 6);
    // band ceiling is 2*25 - 8 = 42
    gs.paddle_right = 41;
    assert_eq!(gs.update(Some(input("right", "Down", "")), 0), Ok(false));
    assert_eq!(gs.paddle_right, 42);
    assert_eq!(gs.update(Some(input("right", "Down", "")), 0), Ok(false));
    assert_eq!(gs.paddle_right, 42);
}

#[test]
fn unknown_side_is_recoverable() {
    let mut gs = GameState::new();
    let r = gs.update(Some(input("center", "Up", "")), 100);
    assert_eq!(r, Err(StepError::UnknownSide));
    // nothing moved, not even the time-gated physics
    assert_eq!(gs.ball_x, 80);
    assert_eq!(gs.ball_y, 24);
    assert_eq!(gs.paddle_left, 20);
    assert_eq!(gs.paddle_right, 20);
}

#[test]
fn unknown_direction_is_recoverable() {
    let mut gs = GameState::new();
    let r = gs.update(Some(input("left", "Sideways", "")), 100);
    assert_eq!(r, Err(StepError::UnknownDirection));
    assert_eq!(gs.ball_x, 80);
    assert_eq!(gs.paddle_left, 20);
}

#[test]
fn no_physics_before_tick_elapses() {
    let mut gs = GameState::new();
    let r = gs.update(None, 50);
    assert_eq!(r, Ok(false));
    assert_eq!(gs.ball_x, 80);
    assert_eq!(gs.ball_y, 24);
}

#[test]
fn ball_advances_one_step_per_gate() {
    let mut gs = GameState::new();
    let r = gs.update(None, 51);
    assert_eq!(r, Ok(true));
    assert_eq!(gs.ball_x, 82);
    assert_eq!(gs.ball_y, 25);
}

#[test]
fn wall_bounce_flips_vertical_velocity() {
    let mut gs = GameState::new();
    gs.ball_y = 45;
    gs.vel_y = 1;
    // 45 + 1 = 46 reaches the bottom bound 2*25 - 4
    assert_eq!(gs.update(None, 51), Ok(true));
    assert_eq!(gs.ball_y, 46);
    assert_eq!(gs.vel_y, -1);
}

#[test]
fn no_wall_bounce_inside_the_field() {
    let mut gs = GameState::new();
    gs.ball_y = 10;
    gs.vel_y = 1;
    assert_eq!(gs.update(None, 51), Ok(true));
    assert_eq!(gs.ball_y, 11);
    assert_eq!(gs.vel_y, 1);
}

#[test]
fn left_paddle_bounces_ball_rightward() {
    let mut gs = GameState::new();
    gs.ball_x = 8;
    gs.ball_y = 20;
    gs.vel_x = -2;
    gs.vel_y = 0;
    // 8 - 2 = 6 crosses the left threshold with offset |20 - 20| < 6
    assert_eq!(gs.update(None, 51), Ok(true));
    assert_eq!(gs.ball_x, 6);
    assert_eq!(gs.vel_x, 2);
}

#[test]
fn right_paddle_bounces_ball_leftward() {
    let mut gs = GameState::new();
    gs.ball_x = 152;
    gs.ball_y = 22;
    gs.vel_x = 2;
    gs.vel_y = 0;
    // 152 + 2 = 154 crosses the right threshold 2*80 - 6 with offset 2
    assert_eq!(gs.update(None, 51), Ok(true));
    assert_eq!(gs.ball_x, 154);
    assert_eq!(gs.vel_x, -2);
}

#[test]
fn ball_outside_hit_radius_passes_through() {
    let mut gs = GameState::new();
    gs.ball_x = 8;
    gs.ball_y = 30;
    gs.vel_x = -2;
    gs.vel_y = 0;
    // offset |30 - 20| is not strictly below the radius 6: no bounce
    assert_eq!(gs.update(None, 51), Ok(true));
    assert_eq!(gs.ball_x, 6);
    assert_eq!(gs.vel_x, -2);
    assert_eq!(gs.score_left, 0);
    assert_eq!(gs.score_right, 0);
}

#[test]
fn score_right_on_left_exit() {
    let mut gs = GameState::new();
    gs.ball_x = 2;
    gs.ball_y = 40;
    gs.vel_x = -2;
    gs.vel_y = 0;
    // 2 - 2 = 0 is out past the left bound; paddle is far away
    assert_eq!(gs.update(None, 51), Ok(true));
    assert_eq!(gs.score_right, 1);
    assert_eq!(gs.score_left, 0);
    // ball back at the centre, serving toward the left player
    assert_eq!(gs.ball_x, 80);
    assert_eq!(gs.ball_y, 25);
    assert_eq!(gs.vel_x, 2);
}

#[test]
fn score_left_on_right_exit() {
    let mut gs = GameState::new();
    gs.ball_x = 158;
    gs.ball_y = 40;
    gs.vel_x = 2;
    gs.vel_y = 0;
    assert_eq!(gs.update(None, 51), Ok(true));
    assert_eq!(gs.score_left, 1);
    assert_eq!(gs.score_right, 0);
    assert_eq!(gs.ball_x, 80);
    assert_eq!(gs.ball_y, 25);
    assert_eq!(gs.vel_x, -2);
}

#[test]
fn trajectory_reproducible_from_stated_rules() {
    // from the initial state with no input, ball_x advances one cell
    // (two half-units) per tick until the right exit on tick 40
    let mut gs = GameState::new();
    for n in 1..=39i64 {
        assert_eq!(gs.update(None, 51), Ok(true));
        assert_eq!(gs.ball_x, 80 + 2 * n);
        assert_eq!(gs.score_left, 0);
        assert_eq!(gs.score_right, 0);
    }
    assert_eq!(gs.update(None, 51), Ok(true));
    assert_eq!(gs.score_left, 1);
    assert_eq!(gs.ball_x, 80);
    assert_eq!(gs.ball_y, 25);
    assert_eq!(gs.vel_x, -2);
}

#[test]
fn left_paddle_bounce_keeps_outward_motion() {
    // a ball already moving rightward at the left threshold stays
    // rightward: the reflection is strictly outward, not a plain negation
    let mut gs = GameState::new();
    gs.ball_x = 4;
    gs.ball_y = 20;
    gs.vel_x = 2;
    gs.vel_y = 0;
    assert_eq!(gs.update(None, 51), Ok(true));
    assert_eq!(gs.ball_x, 6);
    assert_eq!(gs.vel_x, 2);
}

#[test]
fn paddle_bounce_and_exit_in_the_same_step() {
    // the ball crosses the left threshold and the left bound at once:
    // the paddle reflection applies first, then the reset inverts it, so
    // the serve goes back toward the left player
    let mut gs = GameState::new();
    gs.ball_x = 2;
    gs.ball_y = 20;
    gs.vel_x = -2;
    gs.vel_y = 0;
    assert_eq!(gs.update(None, 51), Ok(true));
    assert_eq!(gs.score_right, 1);
    assert_eq!(gs.ball_x, 80);
    assert_eq!(gs.ball_y, 25);
    assert_eq!(gs.vel_x, -2);
}

#[test]
fn name_field_is_ignored_by_update() {
    let mut gs = GameState::new();
    let r = gs.update(Some(input("left", "Up", "Someone")), 0);
    assert_eq!(r, Ok(false));
    assert_eq!(gs.player_left_name, "Waiting...");
    assert_eq!(gs.player_right_name, "Waiting...");
}
