use vstd::prelude::*;
use vstd::string::*;
use crate::game::Role;
use crate::text::str_eq;

verus! {

/// The server is full: both roles are taken by other endpoints.
#[derive(Clone, Copy, PartialEq, Eq, Structural, Debug)]
pub struct Rejected;

/// Mathematical view of the registry: which endpoint, if any, holds each
/// role.
#[verifier::ext_equal]
pub struct RegistryModel {
    pub left: Option<Seq<char>>,
    pub right: Option<Seq<char>>,
}

pub open spec fn spec_role_of(rm: RegistryModel, ep: Seq<char>) -> Option<Role> {
    if rm.left == Some(ep) {
        Some(Role::Left)
    } else if rm.right == Some(ep) {
        Some(Role::Right)
    } else {
        None
    }
}

/// First-come-first-served, irrevocable assignment: a known endpoint keeps
/// its role, an unknown one takes the left slot, then the right slot, and
/// is rejected once both are taken. No slot is ever released: a third
/// distinct endpoint can never join, even if an earlier one has gone
/// silent. That permanent two-slot exhaustion is a deliberate limitation
/// of this design (there is no disconnect detection to base eviction on).
pub open spec fn spec_resolve(rm: RegistryModel, ep: Seq<char>) -> (RegistryModel, Result<
    Role,
    Rejected,
>) {
    match spec_role_of(rm, ep) {
        Some(role) => (rm, Ok(role)),
        None => if rm.left is None {
            (RegistryModel { left: Some(ep), right: rm.right }, Ok(Role::Left))
        } else if rm.right is None {
            (RegistryModel { left: rm.left, right: Some(ep) }, Ok(Role::Right))
        } else {
            (rm, Err(Rejected))
        },
    }
}

/// Maps a remote endpoint identity (its address rendered as text) to the
/// role it was assigned on its first well-formed message.
pub struct SessionRegistry {
    left_ep: Option<String>,
    right_ep: Option<String>,
}

impl SessionRegistry {
    pub closed spec fn model(&self) -> RegistryModel {
        RegistryModel {
            left: match self.left_ep {
                Some(e) => Some(e@),
                None => None,
            },
            right: match self.right_ep {
                Some(e) => Some(e@),
                None => None,
            },
        }
    }

    /// The left slot fills before the right one, and the two slots never
    /// hold the same endpoint.
    pub open spec fn wf(&self) -> bool {
        &&& self.model().right is Some ==> self.model().left is Some
        &&& (self.model().left is Some && self.model().right is Some) ==> self.model().left
            != self.model().right
    }

    pub fn new() -> (r: SessionRegistry)
        ensures
            r.wf(),
            r.model().left is None,
            r.model().right is None,
    {
        SessionRegistry { left_ep: None, right_ep: None }
    }

    /// Pure lookup: the role this endpoint already holds, if any.
    pub fn role_of(&self, endpoint: &str) -> (r: Option<Role>)
        ensures
            r == spec_role_of(self.model(), endpoint@),
    {
        match &self.left_ep {
            Some(e) => {
                if str_eq(e.as_str(), endpoint) {
                    return Some(Role::Left);
                }
            },
            None => {},
        }
        match &self.right_ep {
            Some(e) => {
                if str_eq(e.as_str(), endpoint) {
                    return Some(Role::Right);
                }
            },
            None => {},
        }
        None
    }

    /// Returns this endpoint's role, assigning one first-come-first-served
    /// if it is unknown; `Rejected` once both slots belong to others.
    pub fn resolve_or_assign(&mut self, endpoint: &str) -> (r: Result<Role, Rejected>)
        requires
            old(self).wf(),
        ensures
            final(self).wf(),
            (final(self).model(), r) == spec_resolve(old(self).model(), endpoint@),
    {
        let known = self.role_of(endpoint);
        match known {
            Some(role) => Ok(role),
            None => {
                if self.left_ep.is_none() {
                    self.left_ep = Some(endpoint.to_owned());
                    proof {
                        assert(self.model() =~= spec_resolve(old(self).model(), endpoint@).0);
                    }
                    Ok(Role::Left)
                } else if self.right_ep.is_none() {
                    self.right_ep = Some(endpoint.to_owned());
                    proof {
                        assert(self.model() =~= spec_resolve(old(self).model(), endpoint@).0);
                    }
                    Ok(Role::Right)
                } else {
                    Err(Rejected)
                }
            },
        }
    }

    /// Every registered endpoint, left slot first; the broadcaster sends
    /// one state copy to each.
    pub fn endpoints(&self) -> (eps: Vec<String>)
        ensures
            self.model().left is None && self.model().right is None ==> eps@.len() == 0,
            self.model().left is Some && self.model().right is None ==> eps@.len() == 1
                && eps@[0]@ == self.model().left->0,
            self.model().left is None && self.model().right is Some ==> eps@.len() == 1
                && eps@[0]@ == self.model().right->0,
            self.model().left is Some && self.model().right is Some ==> eps@.len() == 2
                && eps@[0]@ == self.model().left->0 && eps@[1]@ == self.model().right->0,
    {
        let mut eps: Vec<String> = Vec::new();
        match &self.left_ep {
            Some(e) => { eps.push(e.clone()) },
            None => {},
        }
        match &self.right_ep {
            Some(e) => { eps.push(e.clone()) },
            None => {},
        }
        eps
    }
}

/// Role assignment is first-come-first-served: starting from an empty
/// registry, the first endpoint is assigned left, a second distinct one
/// right, and a third distinct one is rejected without any registry
/// change.
pub proof fn lemma_first_come_first_served(e1: Seq<char>, e2: Seq<char>, e3: Seq<char>)
    requires
        e1 != e2,
        e1 != e3,
        e2 != e3,
    ensures
        ({
            let rm0 = RegistryModel { left: None, right: None };
            let (rm1, r1) = spec_resolve(rm0, e1);
            let (rm2, r2) = spec_resolve(rm1, e2);
            let (rm3, r3) = spec_resolve(rm2, e3);
            &&& r1 == Ok::<Role, Rejected>(Role::Left)
            &&& rm1 == (RegistryModel { left: Some(e1), right: None })
            &&& r2 == Ok::<Role, Rejected>(Role::Right)
            &&& rm2 == (RegistryModel { left: Some(e1), right: Some(e2) })
            &&& r3 == Err::<Role, Rejected>(Rejected)
            &&& rm3 == rm2
        }),
{
}

} // verus!
