//! The controller's answers to requests: which action a request names, and which status
//! an error is reported with.

use vstd::prelude::*;

use crate::registry::ControllerError;
use crate::text::chars_of;

verus! {

/// The text `s` in lower case, as Rust's `str::to_lowercase` gives it.
pub uninterp spec fn lowercase(s: Seq<char>) -> Seq<char>;

/// Calls `str::to_lowercase`, and claims only that its result is a function of the text.
#[verifier::external_body]
fn to_lowercase(s: &str) -> (res: String)
    ensures
        res@ == lowercase(s@),
{
    s.to_lowercase()
}

/// Whether two texts are equal.
pub fn same_text(a: &str, b: &str) -> (res: bool)
    ensures
        res == (a@ == b@),
{
    let x = chars_of(a);
    let y = chars_of(b);
    if x.len() != y.len() {
        return false;
    }
    let mut i: usize = 0;
    while i < x.len()
        invariant
            x@ == a@,
            y@ == b@,
            x@.len() == y@.len(),
            i <= x@.len(),
            forall|j: int| 0 <= j < i ==> x@[j] == y@[j],
        decreases x@.len() - i,
    {
        if x[i] != y[i] {
            return false;
        }
        i = i + 1;
    }
    assert(a@ =~= b@);
    true
}

/// What a registration request asks for.
#[derive(Debug, Clone, Copy, PartialEq, Eq)]
pub enum RegisterAction {
    Register,
    Deregister,
}

/// What a connection request asks for.
#[derive(Debug, Clone, Copy, PartialEq, Eq)]
pub enum ConnectionAction {
    Create,
    Destroy,
}

/// The action that registers.
pub open spec fn register_word() -> Seq<char> {
    seq!['r', 'e', 'g', 'i', 's', 't', 'e', 'r']
}

/// The action that deregisters.
pub open spec fn deregister_word() -> Seq<char> {
    seq!['d', 'e', 'r', 'e', 'g', 'i', 's', 't', 'e', 'r']
}

/// The action that creates a connection.
pub open spec fn create_word() -> Seq<char> {
    seq!['c', 'r', 'e', 'a', 't', 'e']
}

/// The action that destroys a connection.
pub open spec fn destroy_word() -> Seq<char> {
    seq!['d', 'e', 's', 't', 'r', 'o', 'y']
}

/// The registration action a lower-cased action text names.
pub open spec fn register_action_spec(lowered: Seq<char>) -> Option<RegisterAction> {
    if lowered == register_word() {
        Some(RegisterAction::Register)
    } else if lowered == deregister_word() {
        Some(RegisterAction::Deregister)
    } else {
        None
    }
}

/// The connection action a lower-cased action text names.
pub open spec fn connection_action_spec(lowered: Seq<char>) -> Option<ConnectionAction> {
    if lowered == create_word() {
        Some(ConnectionAction::Create)
    } else if lowered == destroy_word() {
        Some(ConnectionAction::Destroy)
    } else {
        None
    }
}

/// The registration action named by an already lower-cased text.
pub fn register_action_of(lowered: &str) -> (res: Option<RegisterAction>)
    ensures
        res == register_action_spec(lowered@),
{
    let r = "register";
    let d = "deregister";
    proof {
        reveal_strlit("register");
        reveal_strlit("deregister");
        assert(r@ =~= register_word());
        assert(d@ =~= deregister_word());
    }
    if same_text(lowered, r) {
        Some(RegisterAction::Register)
    } else if same_text(lowered, d) {
        Some(RegisterAction::Deregister)
    } else {
        None
    }
}

/// The connection action named by an already lower-cased text.
pub fn connection_action_of(lowered: &str) -> (res: Option<ConnectionAction>)
    ensures
        res == connection_action_spec(lowered@),
{
    let c = "create";
    let d = "destroy";
    proof {
        reveal_strlit("create");
        reveal_strlit("destroy");
        assert(c@ =~= create_word());
        assert(d@ =~= destroy_word());
    }
    if same_text(lowered, c) {
        Some(ConnectionAction::Create)
    } else if same_text(lowered, d) {
        Some(ConnectionAction::Destroy)
    } else {
        None
    }
}

/// The registration action a request's action text names, in any letter case.
pub fn parse_register_action(action: &str) -> (res: Option<RegisterAction>)
    ensures
        res == register_action_spec(lowercase(action@)),
{
    let lowered = to_lowercase(action);
    register_action_of(lowered.as_str())
}

/// The connection action a request's action text names, in any letter case.
pub fn parse_connection_action(action: &str) -> (res: Option<ConnectionAction>)
    ensures
        res == connection_action_spec(lowercase(action@)),
{
    let lowered = to_lowercase(action);
    connection_action_of(lowered.as_str())
}

/// The kind of status an error is answered with.
#[derive(Debug, Clone, Copy, PartialEq, Eq)]
pub enum StatusCode {
    NotFound,
    FailedPrecondition,
    ResourceExhausted,
    Internal,
}

/// The status each controller error is answered with: unknown applications are not
/// found, unregistered ones and bad settings fail a precondition, and clustering failures
/// exhaust a resource.
pub fn status_code(err: &ControllerError) -> (res: StatusCode)
    ensures
        res == match err {
            ControllerError::UnknownApplication(_) => StatusCode::NotFound,
            ControllerError::NotRegistered(_) => StatusCode::FailedPrecondition,
            ControllerError::Clustering(_) => StatusCode::ResourceExhausted,
            ControllerError::InvalidSettings(_) => StatusCode::FailedPrecondition,
        },
{
    match err {
        ControllerError::UnknownApplication(_) => StatusCode::NotFound,
        ControllerError::NotRegistered(_) => StatusCode::FailedPrecondition,
        ControllerError::Clustering(_) => StatusCode::ResourceExhausted,
        ControllerError::InvalidSettings(_) => StatusCode::FailedPrecondition,
    }
}

/// Whether the integer settings of the controller are usable: the queue budget and the
/// number of priority levels must both be positive, checked in that order.
pub fn check_settings(queue_budget: usize, max_priority_levels: usize) -> (res: Result<(), ControllerError>)
    ensures
        res is Ok <==> queue_budget > 0 && max_priority_levels > 0,
        queue_budget == 0 ==> res == Err::<(), ControllerError>(
            ControllerError::InvalidSettings("queue budget must be greater than zero"),
        ),
        queue_budget > 0 && max_priority_levels == 0 ==> res == Err::<(), ControllerError>(
            ControllerError::InvalidSettings("max priority levels must be greater than zero"),
        ),
{
    if queue_budget == 0 {
        return Err(ControllerError::InvalidSettings("queue budget must be greater than zero"));
    }
    if max_priority_levels == 0 {
        return Err(ControllerError::InvalidSettings("max priority levels must be greater than zero"));
    }
    Ok(())
}

} // verus!
