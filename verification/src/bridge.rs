//! Frontend bridge: emits an outbound notification carrying a fresh id and
//! correlates it with the completion that the external responder delivers
//! later. An id's completion slot can be taken exactly once; a completion
//! for an id never issued, or already taken, finds nothing.

use vstd::prelude::*;
use crate::value::{JVal, JsonValue, jval_of, jmembers_of};
use crate::session::AppState;
use crate::table::complete_lookup;
use crate::dispatch::{k_id, k_method, k_params, opt_view, opt_jval};

verus! {

broadcast use vstd::std_specs::vec::group_vec_axioms;

/// The outbound notification for a bridged request.
pub open spec fn notification_jval(id: Seq<u8>, method: Seq<u8>, params: Option<JVal>) -> JVal {
    JVal::Obj(
        seq![
            (k_id(), JVal::Str(id)),
            (k_method(), JVal::Str(method)),
            (k_params(), opt_jval(params)),
        ],
    )
}

/// Relies on uuid::Uuid::new_v4 and its Display form: a fresh random
/// identifier as 36 bytes of hyphenated lower-case hex text.
#[verifier::external_body]
fn fresh_request_id() -> (r: Vec<u8>)
    ensures
        r@.len() == 36,
{
    uuid::Uuid::new_v4().to_string().into_bytes()
}

fn kv_id_b() -> (r: Vec<u8>)
    ensures
        r@ == k_id(),
{
    let r: Vec<u8> = vec![105u8, 100u8];
    assert(r@ =~= k_id());
    r
}

fn kv_method_b() -> (r: Vec<u8>)
    ensures
        r@ == k_method(),
{
    let r: Vec<u8> = vec![109u8, 101u8, 116u8, 104u8, 111u8, 100u8];
    assert(r@ =~= k_method());
    r
}

fn kv_params_b() -> (r: Vec<u8>)
    ensures
        r@ == k_params(),
{
    let r: Vec<u8> = vec![112u8, 97u8, 114u8, 97u8, 109u8, 115u8];
    assert(r@ =~= k_params());
    r
}

/// Opens a bridged call: draws a fresh id, registers the completion slot
/// under it, and builds the notification for the external responder. The
/// caller emits the notification and then awaits the slot.
pub fn call_frontend<S>(
    state: &mut AppState<S>,
    slot: S,
    method: Vec<u8>,
    params: Option<JsonValue>,
) -> (r: (Vec<u8>, JsonValue))
    requires
        old(state).wf(),
    ensures
        final(state).wf(),
        final(state).session == old(state).session,
        final(state).pending_requests@ == old(state).pending_requests@.insert(r.0@, slot),
        r.0@.len() == 36,
        r.1@ == notification_jval(r.0@, method@, opt_view(params)),
{
    let id = fresh_request_id();
    let id_for_table = crate::value::clone_bytes(&id);
    let id_out = crate::value::clone_bytes(&id);
    state.pending_requests.register(id_for_table, slot);
    let pv = match params {
        Some(v) => v,
        None => JsonValue::Null,
    };
    let ghost gid = id@;
    let ghost gm = method@;
    let ghost gp = jval_of(pv);
    let mut ps: Vec<(Vec<u8>, JsonValue)> = Vec::new();
    ps.push((kv_id_b(), JsonValue::Str(id)));
    ps.push((kv_method_b(), JsonValue::Str(method)));
    ps.push((kv_params_b(), pv));
    proof {
        reveal_with_fuel(jmembers_of, 4);
        assert(jmembers_of(ps@) =~= seq![
            (k_id(), JVal::Str(gid)),
            (k_method(), JVal::Str(gm)),
            (k_params(), gp),
        ]);
    }
    let notification = JsonValue::Obj(ps);
    (id_out, notification)
}

/// The completion entry point: looks up and removes the slot registered
/// under `id` in one step. Success is owed exactly when the id is live;
/// a second call with the same id, or one with an id never issued, fails.
pub fn submit_mcp_response<S>(state: &mut AppState<S>, id: &[u8]) -> (r: Result<
    S,
    &'static str,
>)
    requires
        old(state).wf(),
    ensures
        final(state).wf(),
        final(state).session == old(state).session,
        final(state).pending_requests@ == old(state).pending_requests@.remove(id@),
        match r {
            Ok(slot) => complete_lookup(old(state).pending_requests@, id@) == Some(slot),
            Err(m) => complete_lookup(old(state).pending_requests@, id@) is None && m@
                == "Request ID not found"@,
        },
{
    match state.pending_requests.complete(id) {
        Some(slot) => Ok(slot),
        None => Err("Request ID not found"),
    }
}

} // verus!
