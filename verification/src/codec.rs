use vstd::prelude::*;
use vstd::string::*;
use crate::digits::{
    dec_i64_at, dec_str_at, dec_u64_at, i_piece, lemma_concat_parts, lemma_u_digits_props,
    push_i64, push_str_piece, push_u_digits, rest_of, s_piece, u_digits,
};
use crate::game::{GameState, PaddleInput, StateModel};

verus! {

// Wire format: plain text, one message per datagram. A state snapshot is
// 'S' followed by the six signed coordinates, five unsigned fields and
// the two player names; an input message is 'I' followed by side,
// direction and name. Every value has exactly one encoding (fixed-width
// numbers, length-prefixed text), so decoding succeeds on precisely the
// strings the encoder can produce.
/// The datagram does not encode a message; it is dropped.
#[derive(Clone, Copy, PartialEq, Eq, Structural, Debug)]
pub struct DecodeError;

/// The field values a `GameState` can actually hold.
pub open spec fn state_in_range(m: StateModel) -> bool {
    &&& -0x8000000000000000 <= m.ball_x <= 0x7fffffffffffffff
    &&& -0x8000000000000000 <= m.ball_y <= 0x7fffffffffffffff
    &&& -0x8000000000000000 <= m.vel_x <= 0x7fffffffffffffff
    &&& -0x8000000000000000 <= m.vel_y <= 0x7fffffffffffffff
    &&& -0x8000000000000000 <= m.paddle_left <= 0x7fffffffffffffff
    &&& -0x8000000000000000 <= m.paddle_right <= 0x7fffffffffffffff
    &&& 0 <= m.screen_width <= usize::MAX
    &&& 0 <= m.screen_height <= usize::MAX
    &&& 0 <= m.tick <= 0xffffffffffffffff
    &&& 0 <= m.score_left <= 0xffffffff
    &&& 0 <= m.score_right <= 0xffffffff
}

pub open spec fn enc_names(m: StateModel) -> Seq<char> {
    s_piece(m.name_left) + s_piece(m.name_right)
}

pub open spec fn enc_scores(m: StateModel) -> Seq<char> {
    u_digits(m.score_left, 20) + (u_digits(m.score_right, 20) + enc_names(m))
}

pub open spec fn enc_dims(m: StateModel) -> Seq<char> {
    u_digits(m.screen_width, 20) + (u_digits(m.screen_height, 20) + (u_digits(m.tick, 20)
        + enc_scores(m)))
}

pub open spec fn enc_motion(m: StateModel) -> Seq<char> {
    i_piece(m.vel_x) + (i_piece(m.vel_y) + (i_piece(m.paddle_left) + (i_piece(m.paddle_right)
        + enc_dims(m))))
}

pub open spec fn spec_enc_state(m: StateModel) -> Seq<char> {
    seq!['S'] + (i_piece(m.ball_x) + (i_piece(m.ball_y) + enc_motion(m)))
}

pub open spec fn spec_enc_input(side: Seq<char>, dir: Seq<char>, name: Seq<char>) -> Seq<char> {
    seq!['I'] + (s_piece(side) + (s_piece(dir) + s_piece(name)))
}

/// A string holding a state snapshot splits into the marker and one
/// piece per field, at fixed offsets up to the names.
proof fn lemma_enc_state_parts(s: Seq<char>, m: StateModel)
    requires
        state_in_range(m),
        s == spec_enc_state(m),
    ensures
        s.len() == 267 + m.name_left.len() + m.name_right.len(),
        s[0] == 'S',
        rest_of(s, 1) == i_piece(m.ball_x) + rest_of(s, 22),
        rest_of(s, 22) == i_piece(m.ball_y) + rest_of(s, 43),
        rest_of(s, 43) == i_piece(m.vel_x) + rest_of(s, 64),
        rest_of(s, 64) == i_piece(m.vel_y) + rest_of(s, 85),
        rest_of(s, 85) == i_piece(m.paddle_left) + rest_of(s, 106),
        rest_of(s, 106) == i_piece(m.paddle_right) + rest_of(s, 127),
        rest_of(s, 127) == u_digits(m.screen_width, 20) + rest_of(s, 147),
        rest_of(s, 147) == u_digits(m.screen_height, 20) + rest_of(s, 167),
        rest_of(s, 167) == u_digits(m.tick, 20) + rest_of(s, 187),
        rest_of(s, 187) == u_digits(m.score_left, 20) + rest_of(s, 207),
        rest_of(s, 207) == u_digits(m.score_right, 20) + rest_of(s, 227),
        rest_of(s, 227) == s_piece(m.name_left) + rest_of(s, 247 + m.name_left.len() as int),
        rest_of(s, 247 + m.name_left.len() as int) == s_piece(m.name_right) + rest_of(
            s,
            267 + m.name_left.len() as int + m.name_right.len() as int,
        ),
        rest_of(s, 267 + m.name_left.len() as int + m.name_right.len() as int)
            == Seq::<char>::empty(),
{
    lemma_piece_lens(m);
    let t13 = enc_names(m);
    let t12 = u_digits(m.score_right, 20) + t13;
    let t11 = enc_scores(m);
    let t10 = u_digits(m.tick, 20) + t11;
    let t9 = u_digits(m.screen_height, 20) + t10;
    let t8 = enc_dims(m);
    let t7 = i_piece(m.paddle_right) + t8;
    let t6 = i_piece(m.paddle_left) + t7;
    let t5 = i_piece(m.vel_y) + t6;
    let t4 = enc_motion(m);
    let t3 = i_piece(m.ball_y) + t4;
    let t2 = i_piece(m.ball_x) + t3;
    assert(t12 == u_digits(m.score_right, 20) + t13);
    assert(t11 == u_digits(m.score_left, 20) + t12);
    assert(t8 == u_digits(m.screen_width, 20) + t9);
    assert(t4 == i_piece(m.vel_x) + t5);
    assert(s == seq!['S'] + t2);
    assert(rest_of(s, 0) =~= s);
    lemma_concat_parts(s, 0, seq!['S'], t2);
    lemma_concat_parts(s, 1, i_piece(m.ball_x), t3);
    lemma_concat_parts(s, 22, i_piece(m.ball_y), t4);
    lemma_concat_parts(s, 43, i_piece(m.vel_x), t5);
    lemma_concat_parts(s, 64, i_piece(m.vel_y), t6);
    lemma_concat_parts(s, 85, i_piece(m.paddle_left), t7);
    lemma_concat_parts(s, 106, i_piece(m.paddle_right), t8);
    lemma_concat_parts(s, 127, u_digits(m.screen_width, 20), t9);
    lemma_concat_parts(s, 147, u_digits(m.screen_height, 20), t10);
    lemma_concat_parts(s, 167, u_digits(m.tick, 20), t11);
    lemma_concat_parts(s, 187, u_digits(m.score_left, 20), t12);
    lemma_concat_parts(s, 207, u_digits(m.score_right, 20), t13);
    lemma_concat_parts(s, 227, s_piece(m.name_left), s_piece(m.name_right));
    assert(rest_of(s, 247 + m.name_left.len() as int) == s_piece(m.name_right) + Seq::<
        char,
    >::empty()) by {
        assert(s_piece(m.name_right) + Seq::<char>::empty() =~= s_piece(m.name_right));
    }
    assert(rest_of(s, 267 + m.name_left.len() as int + m.name_right.len() as int) =~= Seq::<
        char,
    >::empty());
}

proof fn lemma_piece_lens(m: StateModel)
    requires
        state_in_range(m),
    ensures
        i_piece(m.ball_x).len() == 21,
        i_piece(m.ball_y).len() == 21,
        i_piece(m.vel_x).len() == 21,
        i_piece(m.vel_y).len() == 21,
        i_piece(m.paddle_left).len() == 21,
        i_piece(m.paddle_right).len() == 21,
        u_digits(m.screen_width, 20).len() == 20,
        u_digits(m.screen_height, 20).len() == 20,
        u_digits(m.tick, 20).len() == 20,
        u_digits(m.score_left, 20).len() == 20,
        u_digits(m.score_right, 20).len() == 20,
        s_piece(m.name_left).len() == 20 + m.name_left.len(),
        s_piece(m.name_right).len() == 20 + m.name_right.len(),
{
    lemma_i_piece_len(m.ball_x);
    lemma_i_piece_len(m.ball_y);
    lemma_i_piece_len(m.vel_x);
    lemma_i_piece_len(m.vel_y);
    lemma_i_piece_len(m.paddle_left);
    lemma_i_piece_len(m.paddle_right);
    lemma_u_digits_props(m.screen_width, 20);
    lemma_u_digits_props(m.screen_height, 20);
    lemma_u_digits_props(m.tick, 20);
    lemma_u_digits_props(m.score_left, 20);
    lemma_u_digits_props(m.score_right, 20);
    lemma_u_digits_props(m.name_left.len() as int, 20);
    lemma_u_digits_props(m.name_right.len() as int, 20);
}

proof fn lemma_i_piece_len(v: int)
    ensures
        i_piece(v).len() == 21,
{
    if v < 0 {
        lemma_u_digits_props(-v, 20);
    } else {
        lemma_u_digits_props(v, 20);
    }
}

/// A string whose first character is `c` is that character followed by
/// its own tail.
proof fn lemma_cons_marker(s: Seq<char>, c: char)
    requires
        s.len() >= 1,
        s[0] == c,
    ensures
        s == seq![c] + rest_of(s, 1),
{
    assert(s =~= seq![c] + rest_of(s, 1));
}

/// Serializes the full game state for broadcast; no delta compression.
#[verifier::rlimit(60)]
pub fn encode_state(gs: &GameState) -> (out: String)
    ensures
        out@ == spec_enc_state(gs.model()),
{
    let ghost m = gs.model();
    let mut out = String::new();
    out.append("S");
    let ghost o0 = out@;
    push_i64(&mut out, gs.ball_x);
    let ghost o1 = out@;
    push_i64(&mut out, gs.ball_y);
    let ghost o2 = out@;
    push_i64(&mut out, gs.vel_x);
    let ghost o3 = out@;
    push_i64(&mut out, gs.vel_y);
    let ghost o4 = out@;
    push_i64(&mut out, gs.paddle_left);
    let ghost o5 = out@;
    push_i64(&mut out, gs.paddle_right);
    let ghost o6 = out@;
    push_u_digits(&mut out, gs.screen_width as u64, 20);
    let ghost o7 = out@;
    push_u_digits(&mut out, gs.screen_height as u64, 20);
    let ghost o8 = out@;
    push_u_digits(&mut out, gs.tick, 20);
    let ghost o9 = out@;
    push_u_digits(&mut out, gs.score_left as u64, 20);
    let ghost o10 = out@;
    push_u_digits(&mut out, gs.score_right as u64, 20);
    let ghost o11 = out@;
    push_str_piece(&mut out, gs.player_left_name.as_str());
    push_str_piece(&mut out, gs.player_right_name.as_str());
    proof {
        reveal_strlit("S");
        assert("S"@ =~= seq!['S']);
        // regroup the appended pieces from the right, one step at a time
        assert(out@ =~= o11 + enc_names(m));
        assert(out@ =~= o10 + (u_digits(m.score_right, 20) + enc_names(m)));
        assert(out@ =~= o9 + enc_scores(m));
        assert(out@ =~= o8 + (u_digits(m.tick, 20) + enc_scores(m)));
        assert(out@ =~= o7 + (u_digits(m.screen_height, 20) + (u_digits(m.tick, 20) + enc_scores(
            m,
        ))));
        assert(out@ =~= o6 + enc_dims(m));
        assert(out@ =~= o5 + (i_piece(m.paddle_right) + enc_dims(m)));
        assert(out@ =~= o4 + (i_piece(m.paddle_left) + (i_piece(m.paddle_right) + enc_dims(m))));
        assert(out@ =~= o3 + (i_piece(m.vel_y) + (i_piece(m.paddle_left) + (i_piece(
            m.paddle_right,
        ) + enc_dims(m)))));
        assert(out@ =~= o2 + enc_motion(m));
        assert(out@ =~= o1 + (i_piece(m.ball_y) + enc_motion(m)));
        assert(out@ =~= o0 + (i_piece(m.ball_x) + (i_piece(m.ball_y) + enc_motion(m))));
        assert(out@ =~= spec_enc_state(m));
    }
    out
}

/// Parses a state snapshot. Succeeds on exactly the strings
/// `encode_state` produces, and returns the encoded state unchanged:
/// encoding and decoding a snapshot round-trips field for field.
pub fn decode_state(s: &str) -> (r: Result<GameState, DecodeError>)
    ensures
        forall|m: StateModel|
            state_in_range(m) && s@ == #[trigger] spec_enc_state(m) ==> (r matches Ok(g)
                && g.model() == m),
        r matches Ok(g) ==> s@ == spec_enc_state(g.model()),
{
    let n = s.unicode_len();
    if n == 0 {
        proof {
            assert forall|m: StateModel|
                !(state_in_range(m) && s@ == spec_enc_state(m)) by {
                if state_in_range(m) && s@ == spec_enc_state(m) {
                    lemma_enc_state_parts(s@, m);
                }
            }
        }
        return Err(DecodeError);
    }
    if s.get_char(0) != 'S' {
        proof {
            assert forall|m: StateModel|
                !(state_in_range(m) && s@ == spec_enc_state(m)) by {
                if state_in_range(m) && s@ == spec_enc_state(m) {
                    lemma_enc_state_parts(s@, m);
                }
            }
        }
        return Err(DecodeError);
    }
    let bx = match dec_i64_at(s, 1) {
        Some(v) => v,
        None => {
            proof {
                assert forall|m: StateModel|
                    !(state_in_range(m) && s@ == spec_enc_state(m)) by {
                    if state_in_range(m) && s@ == spec_enc_state(m) {
                        lemma_enc_state_parts(s@, m);
                        let vv: i64 = m.ball_x as i64;
                        assert(rest_of(s@, 1) == i_piece(vv as int) + rest_of(s@, 22));
                    }
                }
            }
            return Err(DecodeError);
        },
    };
    let by = match dec_i64_at(s, 22) {
        Some(v) => v,
        None => {
            proof {
                assert forall|m: StateModel|
                    !(state_in_range(m) && s@ == spec_enc_state(m)) by {
                    if state_in_range(m) && s@ == spec_enc_state(m) {
                        lemma_enc_state_parts(s@, m);
                        let vv: i64 = m.ball_y as i64;
                        assert(rest_of(s@, 22) == i_piece(vv as int) + rest_of(s@, 43));
                    }
                }
            }
            return Err(DecodeError);
        },
    };
    let vx = match dec_i64_at(s, 43) {
        Some(v) => v,
        None => {
            proof {
                assert forall|m: StateModel|
                    !(state_in_range(m) && s@ == spec_enc_state(m)) by {
                    if state_in_range(m) && s@ == spec_enc_state(m) {
                        lemma_enc_state_parts(s@, m);
                        let vv: i64 = m.vel_x as i64;
                        assert(rest_of(s@, 43) == i_piece(vv as int) + rest_of(s@, 64));
                    }
                }
            }
            return Err(DecodeError);
        },
    };
    let vy = match dec_i64_at(s, 64) {
        Some(v) => v,
        None => {
            proof {
                assert forall|m: StateModel|
                    !(state_in_range(m) && s@ == spec_enc_state(m)) by {
                    if state_in_range(m) && s@ == spec_enc_state(m) {
                        lemma_enc_state_parts(s@, m);
                        let vv: i64 = m.vel_y as i64;
                        assert(rest_of(s@, 64) == i_piece(vv as int) + rest_of(s@, 85));
                    }
                }
            }
            return Err(DecodeError);
        },
    };
    let pl = match dec_i64_at(s, 85) {
        Some(v) => v,
        None => {
            proof {
                assert forall|m: StateModel|
                    !(state_in_range(m) && s@ == spec_enc_state(m)) by {
                    if state_in_range(m) && s@ == spec_enc_state(m) {
                        lemma_enc_state_parts(s@, m);
                        let vv: i64 = m.paddle_left as i64;
                        assert(rest_of(s@, 85) == i_piece(vv as int) + rest_of(s@, 106));
                    }
                }
            }
            return Err(DecodeError);
        },
    };
    let pr = match dec_i64_at(s, 106) {
        Some(v) => v,
        None => {
            proof {
                assert forall|m: StateModel|
                    !(state_in_range(m) && s@ == spec_enc_state(m)) by {
                    if state_in_range(m) && s@ == spec_enc_state(m) {
                        lemma_enc_state_parts(s@, m);
                        let vv: i64 = m.paddle_right as i64;
                        assert(rest_of(s@, 106) == i_piece(vv as int) + rest_of(s@, 127));
                    }
                }
            }
            return Err(DecodeError);
        },
    };
    let w_raw = match dec_u64_at(s, 127) {
        Some(v) => v,
        None => {
            proof {
                assert forall|m: StateModel|
                    !(state_in_range(m) && s@ == spec_enc_state(m)) by {
                    if state_in_range(m) && s@ == spec_enc_state(m) {
                        lemma_enc_state_parts(s@, m);
                        let vv: u64 = m.screen_width as u64;
                        assert(rest_of(s@, 127) == u_digits(vv as int, 20) + rest_of(s@, 147));
                    }
                }
            }
            return Err(DecodeError);
        },
    };
    let h_raw = match dec_u64_at(s, 147) {
        Some(v) => v,
        None => {
            proof {
                assert forall|m: StateModel|
                    !(state_in_range(m) && s@ == spec_enc_state(m)) by {
                    if state_in_range(m) && s@ == spec_enc_state(m) {
                        lemma_enc_state_parts(s@, m);
                        let vv: u64 = m.screen_height as u64;
                        assert(rest_of(s@, 147) == u_digits(vv as int, 20) + rest_of(s@, 167));
                    }
                }
            }
            return Err(DecodeError);
        },
    };
    let tick = match dec_u64_at(s, 167) {
        Some(v) => v,
        None => {
            proof {
                assert forall|m: StateModel|
                    !(state_in_range(m) && s@ == spec_enc_state(m)) by {
                    if state_in_range(m) && s@ == spec_enc_state(m) {
                        lemma_enc_state_parts(s@, m);
                        let vv: u64 = m.tick as u64;
                        assert(rest_of(s@, 167) == u_digits(vv as int, 20) + rest_of(s@, 187));
                    }
                }
            }
            return Err(DecodeError);
        },
    };
    let sl_raw = match dec_u64_at(s, 187) {
        Some(v) => v,
        None => {
            proof {
                assert forall|m: StateModel|
                    !(state_in_range(m) && s@ == spec_enc_state(m)) by {
                    if state_in_range(m) && s@ == spec_enc_state(m) {
                        lemma_enc_state_parts(s@, m);
                        let vv: u64 = m.score_left as u64;
                        assert(rest_of(s@, 187) == u_digits(vv as int, 20) + rest_of(s@, 207));
                    }
                }
            }
            return Err(DecodeError);
        },
    };
    let sr_raw = match dec_u64_at(s, 207) {
        Some(v) => v,
        None => {
            proof {
                assert forall|m: StateModel|
                    !(state_in_range(m) && s@ == spec_enc_state(m)) by {
                    if state_in_range(m) && s@ == spec_enc_state(m) {
                        lemma_enc_state_parts(s@, m);
                        let vv: u64 = m.score_right as u64;
                        assert(rest_of(s@, 207) == u_digits(vv as int, 20) + rest_of(s@, 227));
                    }
                }
            }
            return Err(DecodeError);
        },
    };
    if w_raw > usize::MAX as u64 || h_raw > usize::MAX as u64 || sl_raw > u32::MAX as u64
        || sr_raw > u32::MAX as u64 {
        proof {
            assert forall|m: StateModel|
                !(state_in_range(m) && s@ == spec_enc_state(m)) by {
                if state_in_range(m) && s@ == spec_enc_state(m) {
                    lemma_enc_state_parts(s@, m);
                    let u0: u64 = m.screen_width as u64;
                    assert(rest_of(s@, 127) == u_digits(u0 as int, 20) + rest_of(s@, 147));
                    let u1: u64 = m.screen_height as u64;
                    assert(rest_of(s@, 147) == u_digits(u1 as int, 20) + rest_of(s@, 167));
                    let u3: u64 = m.score_left as u64;
                    assert(rest_of(s@, 187) == u_digits(u3 as int, 20) + rest_of(s@, 207));
                    let u4: u64 = m.score_right as u64;
                    assert(rest_of(s@, 207) == u_digits(u4 as int, 20) + rest_of(s@, 227));
                }
            }
        }
        return Err(DecodeError);
    }
    let (name_l, p1) = match dec_str_at(s, 227) {
        Some(p) => p,
        None => {
            proof {
                assert forall|m: StateModel|
                    !(state_in_range(m) && s@ == spec_enc_state(m)) by {
                    if state_in_range(m) && s@ == spec_enc_state(m) {
                        lemma_enc_state_parts(s@, m);
                    }
                }
            }
            return Err(DecodeError);
        },
    };
    let (name_r, p2) = match dec_str_at(s, p1) {
        Some(p) => p,
        None => {
            proof {
                assert forall|m: StateModel|
                    !(state_in_range(m) && s@ == spec_enc_state(m)) by {
                    if state_in_range(m) && s@ == spec_enc_state(m) {
                        lemma_enc_state_parts(s@, m);
                    }
                }
            }
            return Err(DecodeError);
        },
    };
    if p2 != n {
        proof {
            assert forall|m: StateModel|
                !(state_in_range(m) && s@ == spec_enc_state(m)) by {
                if state_in_range(m) && s@ == spec_enc_state(m) {
                    lemma_enc_state_parts(s@, m);
                }
            }
        }
        return Err(DecodeError);
    }
    let gs = GameState {
        ball_x: bx,
        ball_y: by,
        vel_x: vx,
        vel_y: vy,
        paddle_left: pl,
        paddle_right: pr,
        screen_width: w_raw as usize,
        screen_height: h_raw as usize,
        tick,
        score_left: sl_raw as u32,
        score_right: sr_raw as u32,
        player_left_name: name_l,
        player_right_name: name_r,
    };
    proof {
        // the pieces read back reassemble to exactly the encoding of the
        // decoded state
        let v = gs.model();
        lemma_piece_lens(v);
        let t14 = rest_of(s@, p2 as int);
        assert(t14 =~= Seq::<char>::empty());
        assert(rest_of(s@, p1 as int) == s_piece(v.name_right)) by {
            assert(s_piece(v.name_right) + t14 =~= s_piece(v.name_right));
        }
        assert(rest_of(s@, 227) == s_piece(v.name_left) + rest_of(s@, p1 as int));
        lemma_cons_marker(s@, 'S');
        assert(s@ == spec_enc_state(v));
        assert forall|m: StateModel|
            state_in_range(m) && s@ == spec_enc_state(m) implies v == m by {
            lemma_enc_state_parts(s@, m);
            let i0: i64 = m.ball_x as i64;
            assert(rest_of(s@, 1) == i_piece(i0 as int) + rest_of(s@, 22));
            let i1: i64 = m.ball_y as i64;
            assert(rest_of(s@, 22) == i_piece(i1 as int) + rest_of(s@, 43));
            let i2: i64 = m.vel_x as i64;
            assert(rest_of(s@, 43) == i_piece(i2 as int) + rest_of(s@, 64));
            let i3: i64 = m.vel_y as i64;
            assert(rest_of(s@, 64) == i_piece(i3 as int) + rest_of(s@, 85));
            let i4: i64 = m.paddle_left as i64;
            assert(rest_of(s@, 85) == i_piece(i4 as int) + rest_of(s@, 106));
            let i5: i64 = m.paddle_right as i64;
            assert(rest_of(s@, 106) == i_piece(i5 as int) + rest_of(s@, 127));
            let u0: u64 = m.screen_width as u64;
            assert(rest_of(s@, 127) == u_digits(u0 as int, 20) + rest_of(s@, 147));
            let u1: u64 = m.screen_height as u64;
            assert(rest_of(s@, 147) == u_digits(u1 as int, 20) + rest_of(s@, 167));
            let u2: u64 = m.tick as u64;
            assert(rest_of(s@, 167) == u_digits(u2 as int, 20) + rest_of(s@, 187));
            let u3: u64 = m.score_left as u64;
            assert(rest_of(s@, 187) == u_digits(u3 as int, 20) + rest_of(s@, 207));
            let u4: u64 = m.score_right as u64;
            assert(rest_of(s@, 207) == u_digits(u4 as int, 20) + rest_of(s@, 227));
            assert(name_l@ == m.name_left);
            assert(p1 == 247 + m.name_left.len());
            assert(name_r@ == m.name_right);
            assert(v =~= m);
        }
    }
    Ok(gs)
}

/// A string holding an input message splits into the marker and the
/// three text pieces.
proof fn lemma_enc_input_parts(s: Seq<char>, sd: Seq<char>, dr: Seq<char>, nm: Seq<char>)
    requires
        s == spec_enc_input(sd, dr, nm),
    ensures
        s.len() == 61 + sd.len() + dr.len() + nm.len(),
        s[0] == 'I',
        rest_of(s, 1) == s_piece(sd) + rest_of(s, 21 + sd.len() as int),
        rest_of(s, 21 + sd.len() as int) == s_piece(dr) + rest_of(
            s,
            41 + sd.len() as int + dr.len() as int,
        ),
        rest_of(s, 41 + sd.len() as int + dr.len() as int) == s_piece(nm) + rest_of(
            s,
            61 + sd.len() as int + dr.len() as int + nm.len() as int,
        ),
        rest_of(s, 61 + sd.len() as int + dr.len() as int + nm.len() as int)
            == Seq::<char>::empty(),
{
    lemma_u_digits_props(sd.len() as int, 20);
    lemma_u_digits_props(dr.len() as int, 20);
    lemma_u_digits_props(nm.len() as int, 20);
    let t3 = s_piece(nm);
    let t2 = s_piece(dr) + t3;
    let t1 = s_piece(sd) + t2;
    assert(s == seq!['I'] + t1);
    assert(rest_of(s, 0) =~= s);
    lemma_concat_parts(s, 0, seq!['I'], t1);
    lemma_concat_parts(s, 1, s_piece(sd), t2);
    lemma_concat_parts(s, 21 + sd.len() as int, s_piece(dr), t3);
    assert(rest_of(s, 41 + sd.len() as int + dr.len() as int) == s_piece(nm) + Seq::<
        char,
    >::empty()) by {
        assert(s_piece(nm) + Seq::<char>::empty() =~= s_piece(nm));
    }
    assert(rest_of(s, 61 + sd.len() as int + dr.len() as int + nm.len() as int) =~= Seq::<
        char,
    >::empty());
}

/// Serializes one directional command for the wire.
pub fn encode_input(inp: &PaddleInput) -> (out: String)
    ensures
        out@ == spec_enc_input(inp.side@, inp.direction@, inp.name@),
{
    let mut out = String::new();
    out.append("I");
    push_str_piece(&mut out, inp.side.as_str());
    push_str_piece(&mut out, inp.direction.as_str());
    push_str_piece(&mut out, inp.name.as_str());
    proof {
        reveal_strlit("I");
        assert("I"@ =~= seq!['I']);
        assert(out@ =~= spec_enc_input(inp.side@, inp.direction@, inp.name@));
    }
    out
}

/// Parses one directional command. Succeeds on exactly the strings
/// `encode_input` produces, returning the encoded fields unchanged; on
/// anything else the datagram is reported malformed so the caller can
/// drop it.
pub fn decode_input(s: &str) -> (r: Result<PaddleInput, DecodeError>)
    ensures
        forall|sd: Seq<char>, dr: Seq<char>, nm: Seq<char>|
            s@ == #[trigger] spec_enc_input(sd, dr, nm) ==> (r matches Ok(p) && p.side@ == sd
                && p.direction@ == dr && p.name@ == nm),
        r matches Ok(p) ==> s@ == spec_enc_input(p.side@, p.direction@, p.name@),
{
    let n = s.unicode_len();
    if n == 0 {
        proof {
            assert forall|sd: Seq<char>, dr: Seq<char>, nm: Seq<char>|
                s@ != spec_enc_input(sd, dr, nm) by {
                if s@ == spec_enc_input(sd, dr, nm) {
                    lemma_enc_input_parts(s@, sd, dr, nm);
                }
            }
        }
        return Err(DecodeError);
    }
    if s.get_char(0) != 'I' {
        proof {
            assert forall|sd: Seq<char>, dr: Seq<char>, nm: Seq<char>|
                s@ != spec_enc_input(sd, dr, nm) by {
                if s@ == spec_enc_input(sd, dr, nm) {
                    lemma_enc_input_parts(s@, sd, dr, nm);
                }
            }
        }
        return Err(DecodeError);
    }
    let (side, q1) = match dec_str_at(s, 1) {
        Some(p) => p,
        None => {
            proof {
                assert forall|sd: Seq<char>, dr: Seq<char>, nm: Seq<char>|
                    s@ != spec_enc_input(sd, dr, nm) by {
                    if s@ == spec_enc_input(sd, dr, nm) {
                        lemma_enc_input_parts(s@, sd, dr, nm);
                    }
                }
            }
            return Err(DecodeError);
        },
    };
    let (direction, q2) = match dec_str_at(s, q1) {
        Some(p) => p,
        None => {
            proof {
                assert forall|sd: Seq<char>, dr: Seq<char>, nm: Seq<char>|
                    s@ != spec_enc_input(sd, dr, nm) by {
                    if s@ == spec_enc_input(sd, dr, nm) {
                        lemma_enc_input_parts(s@, sd, dr, nm);
                    }
                }
            }
            return Err(DecodeError);
        },
    };
    let (name, q3) = match dec_str_at(s, q2) {
        Some(p) => p,
        None => {
            proof {
                assert forall|sd: Seq<char>, dr: Seq<char>, nm: Seq<char>|
                    s@ != spec_enc_input(sd, dr, nm) by {
                    if s@ == spec_enc_input(sd, dr, nm) {
                        lemma_enc_input_parts(s@, sd, dr, nm);
                    }
                }
            }
            return Err(DecodeError);
        },
    };
    if q3 != n {
        proof {
            assert forall|sd: Seq<char>, dr: Seq<char>, nm: Seq<char>|
                s@ != spec_enc_input(sd, dr, nm) by {
                if s@ == spec_enc_input(sd, dr, nm) {
                    lemma_enc_input_parts(s@, sd, dr, nm);
                }
            }
        }
        return Err(DecodeError);
    }
    proof {
        assert(rest_of(s@, q3 as int) =~= Seq::<char>::empty());
        assert(rest_of(s@, q2 as int) == s_piece(name@)) by {
            assert(s_piece(name@) + Seq::<char>::empty() =~= s_piece(name@));
        }
        lemma_cons_marker(s@, 'I');
        assert(s@ == spec_enc_input(side@, direction@, name@));
        assert forall|sd: Seq<char>, dr: Seq<char>, nm: Seq<char>|
            s@ == spec_enc_input(sd, dr, nm) implies side@ == sd && direction@ == dr && name@
            == nm by {
            lemma_enc_input_parts(s@, sd, dr, nm);
        }
    }
    Ok(PaddleInput { side, direction, name })
}

} // verus!
