use vstd::prelude::*;
use vstd::string::*;
use crate::game::{GameState, PaddleInput, Role, role_seq, with_left_name, with_right_name};
use crate::registry::{Rejected, SessionRegistry, spec_resolve, spec_role_of};

verus! {

/// Feeds one decoded datagram into the session registry and the game
/// state: resolves (or assigns) the sender's role, stores the display
/// name on first registration, and overwrites the client-asserted side
/// with the server-resolved role — a client cannot move the other paddle
/// by lying about its side. `Rejected` means the server is full; the
/// message is dropped and nothing changes.
pub fn handle_input(
    reg: &mut SessionRegistry,
    gs: &mut GameState,
    endpoint: &str,
    input: PaddleInput,
) -> (r: Result<PaddleInput, Rejected>)
    requires
        old(reg).wf(),
    ensures
        final(reg).wf(),
        final(reg).model() == spec_resolve(old(reg).model(), endpoint@).0,
        match spec_resolve(old(reg).model(), endpoint@).1 {
            Err(rej) => {
                &&& r == Err::<PaddleInput, Rejected>(rej)
                &&& *final(gs) == *old(gs)
            },
            Ok(role) => {
                &&& r is Ok
                &&& r->Ok_0.side@ == role_seq(role)
                &&& r->Ok_0.direction@ == input.direction@
                &&& r->Ok_0.name@ == input.name@
                &&& final(gs).model() == if spec_role_of(old(reg).model(), endpoint@) is Some {
                    old(gs).model()
                } else if role == Role::Left {
                    with_left_name(old(gs).model(), input.name@)
                } else {
                    with_right_name(old(gs).model(), input.name@)
                }
                &&& final(gs).wf() == old(gs).wf()
                &&& final(gs).ball_x == old(gs).ball_x
                &&& final(gs).ball_y == old(gs).ball_y
            },
        },
{
    let known = reg.role_of(endpoint);
    match reg.resolve_or_assign(endpoint) {
        Err(rej) => Err(rej),
        Ok(role) => {
            if known.is_none() {
                match role {
                    Role::Left => {
                        gs.player_left_name = input.name.clone();
                    },
                    Role::Right => {
                        gs.player_right_name = input.name.clone();
                    },
                }
            }
            let side = match role {
                Role::Left => "left".to_owned(),
                Role::Right => "right".to_owned(),
            };
            proof {
                if spec_role_of(old(reg).model(), endpoint@) is None {
                    if role == Role::Left {
                        assert(gs.model() =~= with_left_name(old(gs).model(), input.name@));
                    } else {
                        assert(gs.model() =~= with_right_name(old(gs).model(), input.name@));
                    }
                }
            }
            Ok(PaddleInput { side, direction: input.direction, name: input.name })
        },
    }
}

} // verus!
