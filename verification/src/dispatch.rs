//! Request dispatcher: routes a parsed envelope to its local answer or to
//! the frontend bridge, and builds the reply envelope. Every reply carries
//! the request's id unchanged; application-level failures travel inside the
//! result field, as the existing caller expects.

use vstd::prelude::*;
use crate::value::{JVal, JsonValue, jval_of, jvals_of, jmembers_of, clone_value};
use crate::table::bytes_eq;
use crate::codec::{ser, serialize_value, parse_value_line, strip_ws, strip_ws_spec, single_line, lemma_ser_single_line, lemma_valid_jmembers_drop_first};

verus! {

pub open spec fn k_jsonrpc() -> Seq<u8> {
    seq![106u8, 115u8, 111u8, 110u8, 114u8, 112u8, 99u8]
}

fn kv_jsonrpc() -> (r: Vec<u8>)
    ensures
        r@ == k_jsonrpc(),
{
    let r: Vec<u8> = vec![106u8, 115u8, 111u8, 110u8, 114u8, 112u8, 99u8];
    assert(r@ =~= k_jsonrpc());
    r
}

pub open spec fn k_two_zero() -> Seq<u8> {
    seq![50u8, 46u8, 48u8]
}

fn kv_two_zero() -> (r: Vec<u8>)
    ensures
        r@ == k_two_zero(),
{
    let r: Vec<u8> = vec![50u8, 46u8, 48u8];
    assert(r@ =~= k_two_zero());
    r
}

pub open spec fn k_result() -> Seq<u8> {
    seq![114u8, 101u8, 115u8, 117u8, 108u8, 116u8]
}

fn kv_result() -> (r: Vec<u8>)
    ensures
        r@ == k_result(),
{
    let r: Vec<u8> = vec![114u8, 101u8, 115u8, 117u8, 108u8, 116u8];
    assert(r@ =~= k_result());
    r
}

pub open spec fn k_error() -> Seq<u8> {
    seq![101u8, 114u8, 114u8, 111u8, 114u8]
}

fn kv_error() -> (r: Vec<u8>)
    ensures
        r@ == k_error(),
{
    let r: Vec<u8> = vec![101u8, 114u8, 114u8, 111u8, 114u8];
    assert(r@ =~= k_error());
    r
}

pub open spec fn k_id() -> Seq<u8> {
    seq![105u8, 100u8]
}

fn kv_id() -> (r: Vec<u8>)
    ensures
        r@ == k_id(),
{
    let r: Vec<u8> = vec![105u8, 100u8];
    assert(r@ =~= k_id());
    r
}

pub open spec fn k_method() -> Seq<u8> {
    seq![109u8, 101u8, 116u8, 104u8, 111u8, 100u8]
}

fn kv_method() -> (r: Vec<u8>)
    ensures
        r@ == k_method(),
{
    let r: Vec<u8> = vec![109u8, 101u8, 116u8, 104u8, 111u8, 100u8];
    assert(r@ =~= k_method());
    r
}

pub open spec fn k_params() -> Seq<u8> {
    seq![112u8, 97u8, 114u8, 97u8, 109u8, 115u8]
}

fn kv_params() -> (r: Vec<u8>)
    ensures
        r@ == k_params(),
{
    let r: Vec<u8> = vec![112u8, 97u8, 114u8, 97u8, 109u8, 115u8];
    assert(r@ =~= k_params());
    r
}

pub open spec fn k_initialize() -> Seq<u8> {
    seq![105u8, 110u8, 105u8, 116u8, 105u8, 97u8, 108u8, 105u8, 122u8, 101u8]
}

fn kv_initialize() -> (r: Vec<u8>)
    ensures
        r@ == k_initialize(),
{
    let r: Vec<u8> = vec![105u8, 110u8, 105u8, 116u8, 105u8, 97u8, 108u8, 105u8, 122u8, 101u8];
    assert(r@ =~= k_initialize());
    r
}

pub open spec fn k_tools_list() -> Seq<u8> {
    seq![116u8, 111u8, 111u8, 108u8, 115u8, 47u8, 108u8, 105u8, 115u8, 116u8]
}

fn kv_tools_list() -> (r: Vec<u8>)
    ensures
        r@ == k_tools_list(),
{
    let r: Vec<u8> = vec![116u8, 111u8, 111u8, 108u8, 115u8, 47u8, 108u8, 105u8, 115u8, 116u8];
    assert(r@ =~= k_tools_list());
    r
}

pub open spec fn k_notifications_initialized() -> Seq<u8> {
    seq![110u8, 111u8, 116u8, 105u8, 102u8, 105u8, 99u8, 97u8, 116u8, 105u8, 111u8, 110u8, 115u8, 47u8, 105u8, 110u8, 105u8, 116u8, 105u8, 97u8, 108u8, 105u8, 122u8, 101u8, 100u8]
}

fn kv_notifications_initialized() -> (r: Vec<u8>)
    ensures
        r@ == k_notifications_initialized(),
{
    let r: Vec<u8> = vec![110u8, 111u8, 116u8, 105u8, 102u8, 105u8, 99u8, 97u8, 116u8, 105u8, 111u8, 110u8, 115u8, 47u8, 105u8, 110u8, 105u8, 116u8, 105u8, 97u8, 108u8, 105u8, 122u8, 101u8, 100u8];
    assert(r@ =~= k_notifications_initialized());
    r
}

pub open spec fn k_ping() -> Seq<u8> {
    seq![112u8, 105u8, 110u8, 103u8]
}

fn kv_ping() -> (r: Vec<u8>)
    ensures
        r@ == k_ping(),
{
    let r: Vec<u8> = vec![112u8, 105u8, 110u8, 103u8];
    assert(r@ =~= k_ping());
    r
}

pub open spec fn k_tools_call() -> Seq<u8> {
    seq![116u8, 111u8, 111u8, 108u8, 115u8, 47u8, 99u8, 97u8, 108u8, 108u8]
}

fn kv_tools_call() -> (r: Vec<u8>)
    ensures
        r@ == k_tools_call(),
{
    let r: Vec<u8> = vec![116u8, 111u8, 111u8, 108u8, 115u8, 47u8, 99u8, 97u8, 108u8, 108u8];
    assert(r@ =~= k_tools_call());
    r
}

pub open spec fn k_name() -> Seq<u8> {
    seq![110u8, 97u8, 109u8, 101u8]
}

fn kv_name() -> (r: Vec<u8>)
    ensures
        r@ == k_name(),
{
    let r: Vec<u8> = vec![110u8, 97u8, 109u8, 101u8];
    assert(r@ =~= k_name());
    r
}

pub open spec fn k_arguments() -> Seq<u8> {
    seq![97u8, 114u8, 103u8, 117u8, 109u8, 101u8, 110u8, 116u8, 115u8]
}

fn kv_arguments() -> (r: Vec<u8>)
    ensures
        r@ == k_arguments(),
{
    let r: Vec<u8> = vec![97u8, 114u8, 103u8, 117u8, 109u8, 101u8, 110u8, 116u8, 115u8];
    assert(r@ =~= k_arguments());
    r
}

pub open spec fn k_notebook_start() -> Seq<u8> {
    seq![110u8, 111u8, 116u8, 101u8, 98u8, 111u8, 111u8, 107u8, 95u8, 115u8, 116u8, 97u8, 114u8, 116u8]
}

fn kv_notebook_start() -> (r: Vec<u8>)
    ensures
        r@ == k_notebook_start(),
{
    let r: Vec<u8> = vec![110u8, 111u8, 116u8, 101u8, 98u8, 111u8, 111u8, 107u8, 95u8, 115u8, 116u8, 97u8, 114u8, 116u8];
    assert(r@ =~= k_notebook_start());
    r
}

pub open spec fn k_notebook_evaluate() -> Seq<u8> {
    seq![110u8, 111u8, 116u8, 101u8, 98u8, 111u8, 111u8, 107u8, 95u8, 101u8, 118u8, 97u8, 108u8, 117u8, 97u8, 116u8, 101u8]
}

fn kv_notebook_evaluate() -> (r: Vec<u8>)
    ensures
        r@ == k_notebook_evaluate(),
{
    let r: Vec<u8> = vec![110u8, 111u8, 116u8, 101u8, 98u8, 111u8, 111u8, 107u8, 95u8, 101u8, 118u8, 97u8, 108u8, 117u8, 97u8, 116u8, 101u8];
    assert(r@ =~= k_notebook_evaluate());
    r
}

pub open spec fn k_protocol_version() -> Seq<u8> {
    seq![112u8, 114u8, 111u8, 116u8, 111u8, 99u8, 111u8, 108u8, 86u8, 101u8, 114u8, 115u8, 105u8, 111u8, 110u8]
}

fn kv_protocol_version() -> (r: Vec<u8>)
    ensures
        r@ == k_protocol_version(),
{
    let r: Vec<u8> = vec![112u8, 114u8, 111u8, 116u8, 111u8, 99u8, 111u8, 108u8, 86u8, 101u8, 114u8, 115u8, 105u8, 111u8, 110u8];
    assert(r@ =~= k_protocol_version());
    r
}

pub open spec fn k_protocol_version_value() -> Seq<u8> {
    seq![50u8, 48u8, 50u8, 52u8, 45u8, 49u8, 49u8, 45u8, 48u8, 53u8]
}

fn kv_protocol_version_value() -> (r: Vec<u8>)
    ensures
        r@ == k_protocol_version_value(),
{
    let r: Vec<u8> = vec![50u8, 48u8, 50u8, 52u8, 45u8, 49u8, 49u8, 45u8, 48u8, 53u8];
    assert(r@ =~= k_protocol_version_value());
    r
}

pub open spec fn k_capabilities() -> Seq<u8> {
    seq![99u8, 97u8, 112u8, 97u8, 98u8, 105u8, 108u8, 105u8, 116u8, 105u8, 101u8, 115u8]
}

fn kv_capabilities() -> (r: Vec<u8>)
    ensures
        r@ == k_capabilities(),
{
    let r: Vec<u8> = vec![99u8, 97u8, 112u8, 97u8, 98u8, 105u8, 108u8, 105u8, 116u8, 105u8, 101u8, 115u8];
    assert(r@ =~= k_capabilities());
    r
}

pub open spec fn k_tools() -> Seq<u8> {
    seq![116u8, 111u8, 111u8, 108u8, 115u8]
}

fn kv_tools() -> (r: Vec<u8>)
    ensures
        r@ == k_tools(),
{
    let r: Vec<u8> = vec![116u8, 111u8, 111u8, 108u8, 115u8];
    assert(r@ =~= k_tools());
    r
}

pub open spec fn k_list_changed() -> Seq<u8> {
    seq![108u8, 105u8, 115u8, 116u8, 67u8, 104u8, 97u8, 110u8, 103u8, 101u8, 100u8]
}

fn kv_list_changed() -> (r: Vec<u8>)
    ensures
        r@ == k_list_changed(),
{
    let r: Vec<u8> = vec![108u8, 105u8, 115u8, 116u8, 67u8, 104u8, 97u8, 110u8, 103u8, 101u8, 100u8];
    assert(r@ =~= k_list_changed());
    r
}

pub open spec fn k_server_info() -> Seq<u8> {
    seq![115u8, 101u8, 114u8, 118u8, 101u8, 114u8, 73u8, 110u8, 102u8, 111u8]
}

fn kv_server_info() -> (r: Vec<u8>)
    ensures
        r@ == k_server_info(),
{
    let r: Vec<u8> = vec![115u8, 101u8, 114u8, 118u8, 101u8, 114u8, 73u8, 110u8, 102u8, 111u8];
    assert(r@ =~= k_server_info());
    r
}

pub open spec fn k_version() -> Seq<u8> {
    seq![118u8, 101u8, 114u8, 115u8, 105u8, 111u8, 110u8]
}

fn kv_version() -> (r: Vec<u8>)
    ensures
        r@ == k_version(),
{
    let r: Vec<u8> = vec![118u8, 101u8, 114u8, 115u8, 105u8, 111u8, 110u8];
    assert(r@ =~= k_version());
    r
}

pub open spec fn k_server_name() -> Seq<u8> {
    seq![110u8, 98u8, 114u8, 101u8, 97u8, 99u8, 116u8, 45u8, 116u8, 97u8, 117u8, 114u8, 105u8]
}

fn kv_server_name() -> (r: Vec<u8>)
    ensures
        r@ == k_server_name(),
{
    let r: Vec<u8> = vec![110u8, 98u8, 114u8, 101u8, 97u8, 99u8, 116u8, 45u8, 116u8, 97u8, 117u8, 114u8, 105u8];
    assert(r@ =~= k_server_name());
    r
}

pub open spec fn k_server_version() -> Seq<u8> {
    seq![49u8, 46u8, 48u8, 46u8, 48u8]
}

fn kv_server_version() -> (r: Vec<u8>)
    ensures
        r@ == k_server_version(),
{
    let r: Vec<u8> = vec![49u8, 46u8, 48u8, 46u8, 48u8];
    assert(r@ =~= k_server_version());
    r
}

pub open spec fn k_description() -> Seq<u8> {
    seq![100u8, 101u8, 115u8, 99u8, 114u8, 105u8, 112u8, 116u8, 105u8, 111u8, 110u8]
}

fn kv_description() -> (r: Vec<u8>)
    ensures
        r@ == k_description(),
{
    let r: Vec<u8> = vec![100u8, 101u8, 115u8, 99u8, 114u8, 105u8, 112u8, 116u8, 105u8, 111u8, 110u8];
    assert(r@ =~= k_description());
    r
}

pub open spec fn k_desc_start() -> Seq<u8> {
    seq![83u8, 116u8, 97u8, 114u8, 116u8, 32u8, 97u8, 32u8, 110u8, 101u8, 119u8, 32u8, 112u8, 114u8, 97u8, 99u8, 116u8, 105u8, 99u8, 101u8, 32u8, 115u8, 101u8, 115u8, 115u8, 105u8, 111u8, 110u8]
}

fn kv_desc_start() -> (r: Vec<u8>)
    ensures
        r@ == k_desc_start(),
{
    let r: Vec<u8> = vec![83u8, 116u8, 97u8, 114u8, 116u8, 32u8, 97u8, 32u8, 110u8, 101u8, 119u8, 32u8, 112u8, 114u8, 97u8, 99u8, 116u8, 105u8, 99u8, 101u8, 32u8, 115u8, 101u8, 115u8, 115u8, 105u8, 111u8, 110u8];
    assert(r@ =~= k_desc_start());
    r
}

pub open spec fn k_desc_evaluate() -> Seq<u8> {
    seq![69u8, 118u8, 97u8, 108u8, 117u8, 97u8, 116u8, 101u8, 32u8, 117u8, 115u8, 101u8, 114u8, 32u8, 99u8, 111u8, 100u8, 101u8]
}

fn kv_desc_evaluate() -> (r: Vec<u8>)
    ensures
        r@ == k_desc_evaluate(),
{
    let r: Vec<u8> = vec![69u8, 118u8, 97u8, 108u8, 117u8, 97u8, 116u8, 101u8, 32u8, 117u8, 115u8, 101u8, 114u8, 32u8, 99u8, 111u8, 100u8, 101u8];
    assert(r@ =~= k_desc_evaluate());
    r
}

pub open spec fn k_input_schema() -> Seq<u8> {
    seq![105u8, 110u8, 112u8, 117u8, 116u8, 83u8, 99u8, 104u8, 101u8, 109u8, 97u8]
}

fn kv_input_schema() -> (r: Vec<u8>)
    ensures
        r@ == k_input_schema(),
{
    let r: Vec<u8> = vec![105u8, 110u8, 112u8, 117u8, 116u8, 83u8, 99u8, 104u8, 101u8, 109u8, 97u8];
    assert(r@ =~= k_input_schema());
    r
}

pub open spec fn k_type() -> Seq<u8> {
    seq![116u8, 121u8, 112u8, 101u8]
}

fn kv_type() -> (r: Vec<u8>)
    ensures
        r@ == k_type(),
{
    let r: Vec<u8> = vec![116u8, 121u8, 112u8, 101u8];
    assert(r@ =~= k_type());
    r
}

pub open spec fn k_object() -> Seq<u8> {
    seq![111u8, 98u8, 106u8, 101u8, 99u8, 116u8]
}

fn kv_object() -> (r: Vec<u8>)
    ensures
        r@ == k_object(),
{
    let r: Vec<u8> = vec![111u8, 98u8, 106u8, 101u8, 99u8, 116u8];
    assert(r@ =~= k_object());
    r
}

pub open spec fn k_properties() -> Seq<u8> {
    seq![112u8, 114u8, 111u8, 112u8, 101u8, 114u8, 116u8, 105u8, 101u8, 115u8]
}

fn kv_properties() -> (r: Vec<u8>)
    ensures
        r@ == k_properties(),
{
    let r: Vec<u8> = vec![112u8, 114u8, 111u8, 112u8, 101u8, 114u8, 116u8, 105u8, 101u8, 115u8];
    assert(r@ =~= k_properties());
    r
}

pub open spec fn k_topic() -> Seq<u8> {
    seq![116u8, 111u8, 112u8, 105u8, 99u8]
}

fn kv_topic() -> (r: Vec<u8>)
    ensures
        r@ == k_topic(),
{
    let r: Vec<u8> = vec![116u8, 111u8, 112u8, 105u8, 99u8];
    assert(r@ =~= k_topic());
    r
}

pub open spec fn k_difficulty() -> Seq<u8> {
    seq![100u8, 105u8, 102u8, 102u8, 105u8, 99u8, 117u8, 108u8, 116u8, 121u8]
}

fn kv_difficulty() -> (r: Vec<u8>)
    ensures
        r@ == k_difficulty(),
{
    let r: Vec<u8> = vec![100u8, 105u8, 102u8, 102u8, 105u8, 99u8, 117u8, 108u8, 116u8, 121u8];
    assert(r@ =~= k_difficulty());
    r
}

pub open spec fn k_string() -> Seq<u8> {
    seq![115u8, 116u8, 114u8, 105u8, 110u8, 103u8]
}

fn kv_string() -> (r: Vec<u8>)
    ensures
        r@ == k_string(),
{
    let r: Vec<u8> = vec![115u8, 116u8, 114u8, 105u8, 110u8, 103u8];
    assert(r@ =~= k_string());
    r
}

pub open spec fn k_code() -> Seq<u8> {
    seq![99u8, 111u8, 100u8, 101u8]
}

fn kv_code() -> (r: Vec<u8>)
    ensures
        r@ == k_code(),
{
    let r: Vec<u8> = vec![99u8, 111u8, 100u8, 101u8];
    assert(r@ =~= k_code());
    r
}

pub open spec fn k_content() -> Seq<u8> {
    seq![99u8, 111u8, 110u8, 116u8, 101u8, 110u8, 116u8]
}

fn kv_content() -> (r: Vec<u8>)
    ensures
        r@ == k_content(),
{
    let r: Vec<u8> = vec![99u8, 111u8, 110u8, 116u8, 101u8, 110u8, 116u8];
    assert(r@ =~= k_content());
    r
}

pub open spec fn k_text() -> Seq<u8> {
    seq![116u8, 101u8, 120u8, 116u8]
}

fn kv_text() -> (r: Vec<u8>)
    ensures
        r@ == k_text(),
{
    let r: Vec<u8> = vec![116u8, 101u8, 120u8, 116u8];
    assert(r@ =~= k_text());
    r
}

pub open spec fn k_is_error() -> Seq<u8> {
    seq![105u8, 115u8, 69u8, 114u8, 114u8, 111u8, 114u8]
}

fn kv_is_error() -> (r: Vec<u8>)
    ensures
        r@ == k_is_error(),
{
    let r: Vec<u8> = vec![105u8, 115u8, 69u8, 114u8, 114u8, 111u8, 114u8];
    assert(r@ =~= k_is_error());
    r
}

pub open spec fn k_unknown_tool() -> Seq<u8> {
    seq![85u8, 110u8, 107u8, 110u8, 111u8, 119u8, 110u8, 32u8, 116u8, 111u8, 111u8, 108u8]
}

fn kv_unknown_tool() -> (r: Vec<u8>)
    ensures
        r@ == k_unknown_tool(),
{
    let r: Vec<u8> = vec![85u8, 110u8, 107u8, 110u8, 111u8, 119u8, 110u8, 32u8, 116u8, 111u8, 111u8, 108u8];
    assert(r@ =~= k_unknown_tool());
    r
}

pub open spec fn k_missing_params() -> Seq<u8> {
    seq![77u8, 105u8, 115u8, 115u8, 105u8, 110u8, 103u8, 32u8, 112u8, 97u8, 114u8, 97u8, 109u8, 115u8]
}

fn kv_missing_params() -> (r: Vec<u8>)
    ensures
        r@ == k_missing_params(),
{
    let r: Vec<u8> = vec![77u8, 105u8, 115u8, 115u8, 105u8, 110u8, 103u8, 32u8, 112u8, 97u8, 114u8, 97u8, 109u8, 115u8];
    assert(r@ =~= k_missing_params());
    r
}

pub open spec fn k_method_not_found() -> Seq<u8> {
    seq![77u8, 101u8, 116u8, 104u8, 111u8, 100u8, 32u8, 110u8, 111u8, 116u8, 32u8, 102u8, 111u8, 117u8, 110u8, 100u8]
}

fn kv_method_not_found() -> (r: Vec<u8>)
    ensures
        r@ == k_method_not_found(),
{
    let r: Vec<u8> = vec![77u8, 101u8, 116u8, 104u8, 111u8, 100u8, 32u8, 110u8, 111u8, 116u8, 32u8, 102u8, 111u8, 117u8, 110u8, 100u8];
    assert(r@ =~= k_method_not_found());
    r
}

// ---------------------------------------------------------------------------
// Fixed protocol payloads.
// ---------------------------------------------------------------------------

/// An object of one member.
pub open spec fn obj1(k: Seq<u8>, v: JVal) -> JVal {
    JVal::Obj(seq![(k, v)])
}

pub open spec fn type_string_obj() -> JVal {
    obj1(k_type(), JVal::Str(k_string()))
}

pub open spec fn initialize_result() -> JVal {
    JVal::Obj(
        seq![
            (k_protocol_version(), JVal::Str(k_protocol_version_value())),
            (k_capabilities(), obj1(k_tools(), obj1(k_list_changed(), JVal::Bool(true)))),
            (
                k_server_info(),
                JVal::Obj(
                    seq![
                        (k_name(), JVal::Str(k_server_name())),
                        (k_version(), JVal::Str(k_server_version())),
                    ],
                ),
            ),
        ],
    )
}

pub open spec fn start_schema() -> JVal {
    JVal::Obj(
        seq![
            (k_type(), JVal::Str(k_object())),
            (
                k_properties(),
                JVal::Obj(
                    seq![(k_topic(), type_string_obj()), (k_difficulty(), type_string_obj())],
                ),
            ),
        ],
    )
}

pub open spec fn evaluate_schema() -> JVal {
    JVal::Obj(
        seq![
            (k_type(), JVal::Str(k_object())),
            (k_properties(), obj1(k_code(), type_string_obj())),
        ],
    )
}

pub open spec fn tool_entry(name: Seq<u8>, desc: Seq<u8>, schema: JVal) -> JVal {
    JVal::Obj(
        seq![
            (k_name(), JVal::Str(name)),
            (k_description(), JVal::Str(desc)),
            (k_input_schema(), schema),
        ],
    )
}

pub open spec fn tools_list_result() -> JVal {
    obj1(
        k_tools(),
        JVal::Arr(
            seq![
                tool_entry(k_notebook_start(), k_desc_start(), start_schema()),
                tool_entry(k_notebook_evaluate(), k_desc_evaluate(), evaluate_schema()),
            ],
        ),
    )
}

fn build_obj1(k: Vec<u8>, v: JsonValue) -> (r: JsonValue)
    ensures
        r@ == obj1(k@, v@),
{
    let ghost gk = k@;
    let ghost gv = v@;
    let mut ps: Vec<(Vec<u8>, JsonValue)> = Vec::new();
    ps.push((k, v));
    proof {
        reveal_with_fuel(jmembers_of, 2);
        assert(jmembers_of(ps@) =~= seq![(gk, gv)]);
    }
    JsonValue::Obj(ps)
}

fn build_type_string() -> (r: JsonValue)
    ensures
        r@ == type_string_obj(),
{
    build_obj1(kv_type(), JsonValue::Str(kv_string()))
}

fn build_initialize() -> (r: JsonValue)
    ensures
        r@ == initialize_result(),
{
    let tools_caps = build_obj1(kv_list_changed(), JsonValue::Bool(true));
    let caps = build_obj1(kv_tools(), tools_caps);
    let mut si: Vec<(Vec<u8>, JsonValue)> = Vec::new();
    si.push((kv_name(), JsonValue::Str(kv_server_name())));
    si.push((kv_version(), JsonValue::Str(kv_server_version())));
    proof {
        reveal_with_fuel(jmembers_of, 3);
        assert(jmembers_of(si@) =~= seq![
            (k_name(), JVal::Str(k_server_name())),
            (k_version(), JVal::Str(k_server_version())),
        ]);
    }
    let server_info = JsonValue::Obj(si);
    let mut ps: Vec<(Vec<u8>, JsonValue)> = Vec::new();
    ps.push((kv_protocol_version(), JsonValue::Str(kv_protocol_version_value())));
    ps.push((kv_capabilities(), caps));
    ps.push((kv_server_info(), server_info));
    proof {
        reveal_with_fuel(jmembers_of, 4);
        assert(jmembers_of(ps@) =~= seq![
            (k_protocol_version(), JVal::Str(k_protocol_version_value())),
            (k_capabilities(), obj1(k_tools(), obj1(k_list_changed(), JVal::Bool(true)))),
            (k_server_info(), JVal::Obj(seq![
                (k_name(), JVal::Str(k_server_name())),
                (k_version(), JVal::Str(k_server_version())),
            ])),
        ]);
    }
    JsonValue::Obj(ps)
}

fn build_schema(prop_pairs: Vec<(Vec<u8>, JsonValue)>) -> (r: JsonValue)
    ensures
        r@ == JVal::Obj(seq![
            (k_type(), JVal::Str(k_object())),
            (k_properties(), JVal::Obj(jmembers_of(prop_pairs@))),
        ]),
{
    let ghost gp = jmembers_of(prop_pairs@);
    let props = JsonValue::Obj(prop_pairs);
    let mut ps: Vec<(Vec<u8>, JsonValue)> = Vec::new();
    ps.push((kv_type(), JsonValue::Str(kv_object())));
    ps.push((kv_properties(), props));
    proof {
        reveal_with_fuel(jmembers_of, 3);
        assert(jmembers_of(ps@) =~= seq![
            (k_type(), JVal::Str(k_object())),
            (k_properties(), JVal::Obj(gp)),
        ]);
    }
    JsonValue::Obj(ps)
}

fn build_tool_entry(name: Vec<u8>, desc: Vec<u8>, schema: JsonValue) -> (r: JsonValue)
    ensures
        r@ == tool_entry(name@, desc@, schema@),
{
    let ghost gn = name@;
    let ghost gd = desc@;
    let ghost gs = schema@;
    let mut ps: Vec<(Vec<u8>, JsonValue)> = Vec::new();
    ps.push((kv_name(), JsonValue::Str(name)));
    ps.push((kv_description(), JsonValue::Str(desc)));
    ps.push((kv_input_schema(), schema));
    proof {
        reveal_with_fuel(jmembers_of, 4);
        assert(jmembers_of(ps@) =~= seq![
            (k_name(), JVal::Str(gn)),
            (k_description(), JVal::Str(gd)),
            (k_input_schema(), gs),
        ]);
    }
    JsonValue::Obj(ps)
}

fn build_tools_list() -> (r: JsonValue)
    ensures
        r@ == tools_list_result(),
{
    let mut start_props: Vec<(Vec<u8>, JsonValue)> = Vec::new();
    start_props.push((kv_topic(), build_type_string()));
    start_props.push((kv_difficulty(), build_type_string()));
    proof {
        reveal_with_fuel(jmembers_of, 3);
        assert(jmembers_of(start_props@) =~= seq![
            (k_topic(), type_string_obj()),
            (k_difficulty(), type_string_obj()),
        ]);
    }
    let start_schema_v = build_schema(start_props);
    let mut eval_props: Vec<(Vec<u8>, JsonValue)> = Vec::new();
    eval_props.push((kv_code(), build_type_string()));
    proof {
        reveal_with_fuel(jmembers_of, 2);
        assert(jmembers_of(eval_props@) =~= seq![(k_code(), type_string_obj())]);
    }
    let eval_schema_v = build_schema(eval_props);
    assert(start_schema_v@ == start_schema());
    assert(eval_schema_v@ == evaluate_schema());
    let e0 = build_tool_entry(kv_notebook_start(), kv_desc_start(), start_schema_v);
    let e1 = build_tool_entry(kv_notebook_evaluate(), kv_desc_evaluate(), eval_schema_v);
    let mut entries: Vec<JsonValue> = Vec::new();
    entries.push(e0);
    entries.push(e1);
    proof {
        reveal_with_fuel(jvals_of, 3);
        assert(jvals_of(entries@) =~= seq![
            tool_entry(k_notebook_start(), k_desc_start(), start_schema()),
            tool_entry(k_notebook_evaluate(), k_desc_evaluate(), evaluate_schema()),
        ]);
    }
    build_obj1(kv_tools(), JsonValue::Arr(entries))
}

// ---------------------------------------------------------------------------
// Envelopes.
// ---------------------------------------------------------------------------

/// A request envelope: protocol tag, method, optional parameters, optional
/// id (absent for notifications; an id of null counts as absent).
pub struct JsonRpcRequest {
    pub jsonrpc: Vec<u8>,
    pub method: Vec<u8>,
    pub params: Option<JsonValue>,
    pub id: Option<JsonValue>,
}

/// Model of a request envelope.
pub struct ReqV {
    pub jsonrpc: Seq<u8>,
    pub method: Seq<u8>,
    pub params: Option<JVal>,
    pub id: Option<JVal>,
}

pub open spec fn opt_view(o: Option<JsonValue>) -> Option<JVal> {
    match o {
        Some(v) => Some(jval_of(v)),
        None => None,
    }
}

impl View for JsonRpcRequest {
    type V = ReqV;

    open spec fn view(&self) -> ReqV {
        ReqV {
            jsonrpc: self.jsonrpc@,
            method: self.method@,
            params: opt_view(self.params),
            id: opt_view(self.id),
        }
    }
}

/// A response envelope; its serialized form always carries all four
/// members, an absent part appearing as null.
pub struct JsonRpcResponse {
    pub result: Option<JsonValue>,
    pub error: Option<JsonValue>,
    pub id: Option<JsonValue>,
}

pub open spec fn opt_jval(o: Option<JVal>) -> JVal {
    match o {
        Some(v) => v,
        None => JVal::Null,
    }
}

pub open spec fn response_jval(result: Option<JVal>, error: Option<JVal>, id: Option<JVal>) -> JVal {
    JVal::Obj(
        seq![
            (k_jsonrpc(), JVal::Str(k_two_zero())),
            (k_result(), opt_jval(result)),
            (k_error(), opt_jval(error)),
            (k_id(), opt_jval(id)),
        ],
    )
}

pub open spec fn resp_jval(r: JsonRpcResponse) -> JVal {
    response_jval(opt_view(r.result), opt_view(r.error), opt_view(r.id))
}

/// One line of text for a response: its canonical serialized form.
pub fn serialize_response(resp: JsonRpcResponse) -> (r: Vec<u8>)
    ensures
        r@ == ser(resp_jval(resp)),
{
    let ghost g = resp_jval(resp);
    let mut ps: Vec<(Vec<u8>, JsonValue)> = Vec::new();
    ps.push((kv_jsonrpc(), JsonValue::Str(kv_two_zero())));
    let rv = match resp.result {
        Some(v) => v,
        None => JsonValue::Null,
    };
    ps.push((kv_result(), rv));
    let ev = match resp.error {
        Some(v) => v,
        None => JsonValue::Null,
    };
    ps.push((kv_error(), ev));
    let iv = match resp.id {
        Some(v) => v,
        None => JsonValue::Null,
    };
    ps.push((kv_id(), iv));
    proof {
        reveal_with_fuel(jmembers_of, 5);
        assert(jmembers_of(ps@) =~= g->Obj_0);
    }
    let out = serialize_value(&JsonValue::Obj(ps));
    assert(jval_of(JsonValue::Obj(ps)) == g);
    out
}

// ---------------------------------------------------------------------------
// Object member lookup.
// ---------------------------------------------------------------------------

/// The first member under `k`, if any.
pub open spec fn obj_lookup(ps: Seq<(Seq<u8>, JVal)>, k: Seq<u8>) -> Option<JVal>
    decreases ps.len(),
{
    if ps.len() == 0 {
        None
    } else if ps[0].0 == k {
        Some(ps[0].1)
    } else {
        obj_lookup(ps.drop_first(), k)
    }
}

proof fn lemma_obj_lookup_skip(ps: Seq<(Seq<u8>, JVal)>, k: Seq<u8>, i: int)
    requires
        0 <= i <= ps.len(),
        forall|j: int| 0 <= j < i ==> (#[trigger] ps[j]).0 != k,
    ensures
        obj_lookup(ps, k) == obj_lookup(ps.skip(i), k),
    decreases i,
{
    if i > 0 {
        assert(ps[0].0 != k);
        assert(ps.drop_first() =~= ps.skip(1));
        assert(forall|j: int|
            0 <= j < i - 1 ==> (#[trigger] ps.drop_first()[j]).0 == ps[j + 1].0);
        lemma_obj_lookup_skip(ps.drop_first(), k, i - 1);
        assert(ps.drop_first().skip(i - 1) =~= ps.skip(i));
    } else {
        assert(ps.skip(0) =~= ps);
    }
}

/// Looks a member up by key; the result is a copy of the stored value.
pub fn obj_get(ps: &Vec<(Vec<u8>, JsonValue)>, key: &[u8]) -> (r: Option<JsonValue>)
    ensures
        match r {
            Some(v) => obj_lookup(jmembers_of(ps@), key@) == Some(jval_of(v)),
            None => obj_lookup(jmembers_of(ps@), key@) is None,
        },
{
    proof {
        crate::value::lemma_jmembers_of(ps@);
    }
    let ghost jm = jmembers_of(ps@);
    let n = ps.len();
    let mut i: usize = 0;
    while i < n
        invariant
            n == ps@.len(),
            jm == jmembers_of(ps@),
            jm.len() == n,
            forall|k: int| 0 <= k < n ==> jm[k] == (ps@[k].0@, jval_of(ps@[k].1)),
            0 <= i <= n,
            forall|j: int| 0 <= j < i ==> (#[trigger] jm[j]).0 != key@,
        decreases n - i,
    {
        if bytes_eq(ps[i].0.as_slice(), key) {
            let v = clone_value(&ps[i].1);
            proof {
                lemma_obj_lookup_skip(jm, key@, i as int);
                assert(jm.skip(i as int)[0] == jm[i as int]);
                assert(jm.skip(i as int).len() > 0);
                assert(obj_lookup(jm.skip(i as int), key@) == Some(jm[i as int].1));
            }
            return Some(v);
        }
        i += 1;
    }
    proof {
        lemma_obj_lookup_skip(jm, key@, n as int);
        assert(jm.skip(n as int) =~= Seq::<(Seq<u8>, JVal)>::empty());
        assert(obj_lookup(Seq::<(Seq<u8>, JVal)>::empty(), key@) is None);
    }
    None
}

// ---------------------------------------------------------------------------
// Envelope extraction.
// ---------------------------------------------------------------------------

/// An optional member read as absent when it is null.
pub open spec fn norm_opt(o: Option<JVal>) -> Option<JVal> {
    match o {
        Some(v) => if v == JVal::Null {
            None
        } else {
            Some(v)
        },
        None => None,
    }
}

/// The request envelope a value holds, if it is one: an object whose
/// `jsonrpc` and `method` members are strings.
pub open spec fn req_of(v: JVal) -> Option<ReqV> {
    match v {
        JVal::Obj(ps) => match obj_lookup(ps, k_jsonrpc()) {
            Some(jv) => match jv {
                JVal::Str(j) => match obj_lookup(ps, k_method()) {
                    Some(mv) => match mv {
                        JVal::Str(m) => Some(
                            ReqV {
                                jsonrpc: j,
                                method: m,
                                params: norm_opt(obj_lookup(ps, k_params())),
                                id: norm_opt(obj_lookup(ps, k_id())),
                            },
                        ),
                        _ => None,
                    },
                    None => None,
                },
                _ => None,
            },
            None => None,
        },
        _ => None,
    }
}

/// Reads a parsed value as a request envelope.
pub fn parse_request(v: &JsonValue) -> (r: Option<JsonRpcRequest>)
    ensures
        match r {
            Some(req) => req_of(v@) == Some(req@),
            None => req_of(v@) is None,
        },
{
    match v {
        JsonValue::Obj(ps) => {
            let kj = kv_jsonrpc();
            let jb = match obj_get(ps, kj.as_slice()) {
                Some(jv) => match jv {
                    JsonValue::Str(j) => j,
                    _ => {
                        return None;
                    },
                },
                None => {
                    return None;
                },
            };
            let km = kv_method();
            let mb = match obj_get(ps, km.as_slice()) {
                Some(mv) => match mv {
                    JsonValue::Str(m) => m,
                    _ => {
                        return None;
                    },
                },
                None => {
                    return None;
                },
            };
            let kp = kv_params();
            let params = match obj_get(ps, kp.as_slice()) {
                Some(pv) => match pv {
                    JsonValue::Null => None,
                    other => Some(other),
                },
                None => None,
            };
            let ki = kv_id();
            let id = match obj_get(ps, ki.as_slice()) {
                Some(iv) => match iv {
                    JsonValue::Null => None,
                    other => Some(other),
                },
                None => None,
            };
            Some(JsonRpcRequest { jsonrpc: jb, method: mb, params, id })
        },
        _ => None,
    }
}

// ---------------------------------------------------------------------------
// Routing.
// ---------------------------------------------------------------------------

/// What the dispatcher decides for one request: a reply it can give
/// locally, or a tool call that the frontend bridge must answer.
pub enum DispatchAction {
    Respond(JsonRpcResponse),
    Bridge { tool: Vec<u8>, args: Option<JsonValue> },
}

pub open spec fn tool_name_of(p: JVal) -> Seq<u8> {
    match p {
        JVal::Obj(ps) => match obj_lookup(ps, k_name()) {
            Some(v) => match v {
                JVal::Str(s) => s,
                _ => Seq::empty(),
            },
            None => Seq::empty(),
        },
        _ => Seq::empty(),
    }
}

pub open spec fn tool_args_of(p: JVal) -> Option<JVal> {
    match p {
        JVal::Obj(ps) => obj_lookup(ps, k_arguments()),
        _ => None,
    }
}

pub open spec fn is_bridged_tool(name: Seq<u8>) -> bool {
    name == k_notebook_start() || name == k_notebook_evaluate()
}

/// The local answer for a method, or `None` where the frontend bridge must
/// supply it. Application-level failures are answers too, inside the
/// result value.
pub open spec fn local_result(m: Seq<u8>, params: Option<JVal>) -> Option<JVal> {
    if m == k_initialize() {
        Some(initialize_result())
    } else if m == k_tools_list() {
        Some(tools_list_result())
    } else if m == k_notifications_initialized() {
        Some(JVal::Null)
    } else if m == k_ping() {
        Some(JVal::Obj(Seq::empty()))
    } else if m == k_tools_call() {
        match params {
            None => Some(obj1(k_error(), JVal::Str(k_missing_params()))),
            Some(p) => if is_bridged_tool(tool_name_of(p)) {
                None
            } else {
                Some(obj1(k_error(), JVal::Str(k_unknown_tool())))
            },
        }
    } else {
        Some(obj1(k_error(), JVal::Str(k_method_not_found())))
    }
}

fn clone_opt_value(o: &Option<JsonValue>) -> (r: Option<JsonValue>)
    ensures
        opt_view(r) == opt_view(*o),
{
    match o {
        Some(v) => Some(clone_value(v)),
        None => None,
    }
}

fn make_response(result: JsonValue, id: Option<JsonValue>) -> (r: JsonRpcResponse)
    ensures
        opt_view(r.result) == Some(jval_of(result)),
        r.error is None,
        opt_view(r.id) == opt_view(id),
{
    JsonRpcResponse { result: Some(result), error: None, id }
}

/// Routes one request. A locally answerable method gets its reply, with
/// the request's id echoed unchanged; a bridged tool call is handed on
/// with its tool name and arguments.
pub fn handle_request(req: &JsonRpcRequest) -> (r: DispatchAction)
    ensures
        match local_result(req.method@, req@.params) {
            Some(res) => {
                &&& r matches DispatchAction::Respond(resp)
                &&& opt_view(resp.result) == Some(res)
                &&& resp.error is None
                &&& opt_view(resp.id) == req@.id
            },
            None => {
                &&& r matches DispatchAction::Bridge { tool, args }
                &&& req@.params matches Some(p) && tool@ == tool_name_of(p) && opt_view(args)
                    == tool_args_of(p)
                &&& is_bridged_tool(tool@)
            },
        },
{
    let m = req.method.as_slice();
    let id = clone_opt_value(&req.id);
    let kinit = kv_initialize();
    if bytes_eq(m, kinit.as_slice()) {
        return DispatchAction::Respond(make_response(build_initialize(), id));
    }
    let klist = kv_tools_list();
    if bytes_eq(m, klist.as_slice()) {
        return DispatchAction::Respond(make_response(build_tools_list(), id));
    }
    let knoti = kv_notifications_initialized();
    if bytes_eq(m, knoti.as_slice()) {
        return DispatchAction::Respond(make_response(JsonValue::Null, id));
    }
    let kping = kv_ping();
    if bytes_eq(m, kping.as_slice()) {
        let empty = JsonValue::Obj(Vec::new());
        assert(empty@ == JVal::Obj(Seq::<(Seq<u8>, JVal)>::empty())) by {
            assert(jmembers_of(Seq::<(Vec<u8>, JsonValue)>::empty())
                =~= Seq::<(Seq<u8>, JVal)>::empty());
        }
        return DispatchAction::Respond(make_response(empty, id));
    }
    let kcall = kv_tools_call();
    if bytes_eq(m, kcall.as_slice()) {
        match &req.params {
            Some(p) => {
                let name: Vec<u8> = match p {
                    JsonValue::Obj(ps) => {
                        let kn = kv_name();
                        match obj_get(ps, kn.as_slice()) {
                            Some(nv) => match nv {
                                JsonValue::Str(s) => s,
                                _ => Vec::new(),
                            },
                            None => Vec::new(),
                        }
                    },
                    _ => Vec::new(),
                };
                assert(name@ == tool_name_of(jval_of(*p)));
                let kns = kv_notebook_start();
                let kne = kv_notebook_evaluate();
                if bytes_eq(name.as_slice(), kns.as_slice()) || bytes_eq(
                    name.as_slice(),
                    kne.as_slice(),
                ) {
                    let args: Option<JsonValue> = match p {
                        JsonValue::Obj(ps) => {
                            let ka = kv_arguments();
                            obj_get(ps, ka.as_slice())
                        },
                        _ => None,
                    };
                    assert(opt_view(args) == tool_args_of(jval_of(*p)));
                    DispatchAction::Bridge { tool: name, args }
                } else {
                    DispatchAction::Respond(
                        make_response(
                            build_obj1(kv_error(), JsonValue::Str(kv_unknown_tool())),
                            id,
                        ),
                    )
                }
            },
            None => DispatchAction::Respond(
                make_response(build_obj1(kv_error(), JsonValue::Str(kv_missing_params())), id),
            ),
        }
    } else {
        DispatchAction::Respond(
            make_response(build_obj1(kv_error(), JsonValue::Str(kv_method_not_found())), id),
        )
    }
}

// ---------------------------------------------------------------------------
// The reply for a bridged call, from the bridge's outcome.
// ---------------------------------------------------------------------------

/// The result value wrapping a bridge success: one text content item whose
/// text is the resolved value's serialized form.
pub open spec fn bridged_ok_result(v: JVal) -> JVal {
    obj1(
        k_content(),
        JVal::Arr(
            seq![
                JVal::Obj(seq![(k_type(), JVal::Str(k_text())), (k_text(), JVal::Str(ser(v)))]),
            ],
        ),
    )
}

/// The result value reporting a bridge failure.
pub open spec fn bridged_err_result(m: Seq<u8>) -> JVal {
    JVal::Obj(seq![(k_error(), JVal::Str(m)), (k_is_error(), JVal::Bool(true))])
}

/// Both bridge outcomes wrap into well-formed result values.
proof fn lemma_bridged_results_valid(outcome: Result<JsonValue, Vec<u8>>)
    ensures
        match outcome {
            Ok(v) => valid_jval(bridged_ok_result(jval_of(v))),
            Err(m) => valid_jval(bridged_err_result(m@)),
        },
{
    match outcome {
        Ok(v) => {
            let item = JVal::Obj(
                seq![
                    (k_type(), JVal::Str(k_text())),
                    (k_text(), JVal::Str(ser(jval_of(v)))),
                ],
            );
            lemma_members2(
                (k_type(), JVal::Str(k_text())),
                (k_text(), JVal::Str(ser(jval_of(v)))),
            );
            assert(valid_jval(item));
            lemma_valid_jlist_push(Seq::<JVal>::empty(), item);
            assert(seq![item] =~= Seq::<JVal>::empty().push(item));
            assert(valid_jlist(seq![item]));
            lemma_members1((k_content(), JVal::Arr(seq![item])));
        },
        Err(m) => {
            lemma_members2((k_error(), JVal::Str(m@)), (k_is_error(), JVal::Bool(true)));
        },
    }
}

/// Builds the reply for a bridged tool call from what came back over the
/// bridge, echoing the request's id unchanged. When the echoed id is well
/// formed, the whole reply is, and its serialized line holds no newline.
pub fn bridged_response(id: Option<JsonValue>, outcome: Result<JsonValue, Vec<u8>>) -> (r:
    JsonRpcResponse)
    ensures
        r.error is None,
        opt_view(r.id) == opt_view(id),
        match outcome {
            Ok(v) => opt_view(r.result) == Some(bridged_ok_result(v@)),
            Err(m) => opt_view(r.result) == Some(bridged_err_result(m@)),
        },
        (id matches Some(x) ==> valid_jval(jval_of(x))) ==> valid_jval(resp_jval(r))
            && single_line(ser(resp_jval(r))),
{
    proof {
        lemma_bridged_results_valid(outcome);
    }
    match outcome {
        Ok(v) => {
            let ghost gv = v@;
            let text = serialize_value(&v);
            let mut item: Vec<(Vec<u8>, JsonValue)> = Vec::new();
            item.push((kv_type(), JsonValue::Str(kv_text())));
            item.push((kv_text(), JsonValue::Str(text)));
            proof {
                reveal_with_fuel(jmembers_of, 3);
                assert(jmembers_of(item@) =~= seq![
                    (k_type(), JVal::Str(k_text())),
                    (k_text(), JVal::Str(ser(gv))),
                ]);
            }
            let mut items: Vec<JsonValue> = Vec::new();
            items.push(JsonValue::Obj(item));
            proof {
                reveal_with_fuel(jvals_of, 2);
                assert(jvals_of(items@) =~= seq![
                    JVal::Obj(seq![(k_type(), JVal::Str(k_text())), (k_text(), JVal::Str(
                        ser(gv)))]),
                ]);
            }
            let result = build_obj1(kv_content(), JsonValue::Arr(items));
            proof {
                let gid = opt_view(id);
                if gid matches Some(x) ==> valid_jval(x) {
                    lemma_response_valid(Some(bridged_ok_result(gv)), None, gid);
                    lemma_ser_single_line(response_jval(Some(bridged_ok_result(gv)), None, gid));
                }
            }
            make_response(result, id)
        },
        Err(m) => {
            let ghost gm = m@;
            let mut ps: Vec<(Vec<u8>, JsonValue)> = Vec::new();
            ps.push((kv_error(), JsonValue::Str(m)));
            ps.push((kv_is_error(), JsonValue::Bool(true)));
            proof {
                reveal_with_fuel(jmembers_of, 3);
                assert(jmembers_of(ps@) =~= seq![
                    (k_error(), JVal::Str(gm)),
                    (k_is_error(), JVal::Bool(true)),
                ]);
            }
            proof {
                let gid = opt_view(id);
                if gid matches Some(x) ==> valid_jval(x) {
                    lemma_response_valid(Some(bridged_err_result(gm)), None, gid);
                    lemma_ser_single_line(response_jval(Some(bridged_err_result(gm)), None, gid));
                }
            }
            make_response(JsonValue::Obj(ps), id)
        },
    }
}

// ---------------------------------------------------------------------------
// One protocol-loop step: a line in, what to do about it.
// ---------------------------------------------------------------------------

/// What the protocol loop should do with one input line.
pub enum LineOutcome {
    /// Blank or unreadable: nothing is sent, the loop goes on.
    Skip,
    /// A locally answered request: the response line to write.
    Respond(Vec<u8>),
    /// A bridged tool call: hand it to the frontend bridge, then answer
    /// with `bridged_response` under this id.
    Bridge { tool: Vec<u8>, args: Option<JsonValue>, id: Option<JsonValue> },
}

/// A respond outcome explained: the line, with insignificant whitespace
/// removed, is the canonical form of a request envelope whose method the
/// dispatcher answers locally, and the output is that answer's response
/// line, id echoed. The response value is well formed, so by the parser's
/// completeness the output line parses back to exactly that value.
pub open spec fn respond_explained(line: Seq<u8>, out: Seq<u8>, v: JVal, rv: ReqV) -> bool {
    &&& ser(v) == strip_ws_spec(line, false, false)
    &&& req_of(v) == Some(rv)
    &&& match local_result(rv.method, rv.params) {
        Some(res) => out == ser(response_jval(Some(res), None, rv.id)) && valid_jval(
            response_jval(Some(res), None, rv.id),
        ),
        None => false,
    }
}

/// The line, with insignificant whitespace removed, is the canonical form
/// of a well-formed request envelope `rv`.
pub open spec fn canonical_request(line: Seq<u8>, v: JVal, rv: ReqV) -> bool {
    &&& valid_jval(v)
    &&& ser(v) == strip_ws_spec(line, false, false)
    &&& req_of(v) == Some(rv)
}

/// A bridge outcome explained: the line, with insignificant whitespace
/// removed, is the canonical form of a request envelope asking for a
/// bridged tool call.
pub open spec fn bridge_explained(
    line: Seq<u8>,
    tool: Seq<u8>,
    args: Option<JVal>,
    id: Option<JVal>,
    v: JVal,
    rv: ReqV,
) -> bool {
    &&& ser(v) == strip_ws_spec(line, false, false)
    &&& req_of(v) == Some(rv)
    &&& local_result(rv.method, rv.params) is None
    &&& rv.params matches Some(p) && tool == tool_name_of(p) && args == tool_args_of(p)
    &&& id == rv.id
}

/// Handles one input line: parses it (whitespace between tokens is
/// ignored), routes it, and serializes a local answer, which never holds
/// a newline. A blank or unreadable line is skipped and the loop goes on.
/// The ghost part of the result carries the request the line held, as the
/// explanation of a non-skip outcome.
pub fn process_line(line: &[u8]) -> (r: (LineOutcome, Ghost<(JVal, ReqV)>))
    ensures
        r.0 matches LineOutcome::Respond(out) ==> respond_explained(
            line@,
            out@,
            r.1@.0,
            r.1@.1,
        ),
        r.0 matches LineOutcome::Respond(out) ==> single_line(out@),
        r.0 matches LineOutcome::Bridge { tool, args, id } ==> bridge_explained(
            line@,
            tool@,
            opt_view(args),
            opt_view(id),
            r.1@.0,
            r.1@.1,
        ),
{
    let ghost dummy = (
        JVal::Null,
        ReqV { jsonrpc: Seq::empty(), method: Seq::empty(), params: None, id: None },
    );
    let stripped = strip_ws(line);
    if stripped.len() == 0 {
        proof {
            assert forall|v: JVal, rv: ReqV| !#[trigger] canonical_request(
                line@,
                v,
                rv,
            ) by {
                if canonical_request(line@, v, rv) {
                    crate::codec::lemma_ser_first(v);
                }
            }
        }
        return (LineOutcome::Skip, Ghost(dummy));
    }
    let parsed = match parse_value_line(stripped.as_slice()) {
        Some(v) => v,
        None => {
            proof {
                assert forall|v: JVal, rv: ReqV| !#[trigger] canonical_request(
                    line@,
                    v,
                    rv,
                ) by {
                    if canonical_request(line@, v, rv) {
                        assert(stripped@ == ser(v));
                    }
                }
            }
            return (LineOutcome::Skip, Ghost(dummy));
        },
    };
    proof {
        assert forall|v: JVal, rv: ReqV| #[trigger] canonical_request(line@, v, rv)
            implies parsed@ == v by {
            assert(stripped@ == ser(v));
        }
    }
    let req = match parse_request(&parsed) {
        Some(req) => req,
        None => {
            proof {
                assert forall|v: JVal, rv: ReqV| !#[trigger] canonical_request(
                    line@,
                    v,
                    rv,
                ) by {
                    if canonical_request(line@, v, rv) {
                        assert(parsed@ == v);
                        assert(req_of(v) is None);
                    }
                }
            }
            return (LineOutcome::Skip, Ghost(dummy));
        },
    };
    let ghost gv = parsed@;
    let ghost grv = req@;
    match handle_request(&req) {
        DispatchAction::Respond(resp) => {
            let ghost gres = local_result(grv.method, grv.params)->Some_0;
            let out = serialize_response(resp);
            proof {
                lemma_local_result_valid(grv.method, grv.params);
                lemma_req_of_valid(gv);
                let res = local_result(grv.method, grv.params)->Some_0;
                lemma_response_valid(Some(res), None, grv.id);
                lemma_ser_single_line(response_jval(Some(res), None, grv.id));
                assert(single_line(out@));
            }
            assert(respond_explained(line@, out@, gv, grv));
            (LineOutcome::Respond(out), Ghost((gv, grv)))
        },
        DispatchAction::Bridge { tool, args } => {
            let id = req.id;
            assert(bridge_explained(line@, tool@, opt_view(args), opt_view(id), gv, grv));
            (LineOutcome::Bridge { tool, args, id }, Ghost((gv, grv)))
        },
    }
}

// ---------------------------------------------------------------------------
// Validity of what the dispatcher emits, so that the single-line guarantee
// of the codec can be promised of every response line.
// ---------------------------------------------------------------------------

use crate::value::{valid_jval, valid_jmembers, valid_jlist, lemma_valid_jmembers_push, lemma_valid_jlist_push, lemma_obj_valid_elem};

proof fn lemma_members1(m0: (Seq<u8>, JVal))
    requires
        valid_jval(m0.1),
    ensures
        valid_jmembers(seq![m0]),
{
    lemma_valid_jmembers_push(Seq::<(Seq<u8>, JVal)>::empty(), m0);
    assert(seq![m0] =~= Seq::<(Seq<u8>, JVal)>::empty().push(m0));
}

proof fn lemma_members2(m0: (Seq<u8>, JVal), m1: (Seq<u8>, JVal))
    requires
        valid_jval(m0.1),
        valid_jval(m1.1),
    ensures
        valid_jmembers(seq![m0, m1]),
{
    lemma_valid_jmembers_push(Seq::<(Seq<u8>, JVal)>::empty(), m0);
    lemma_valid_jmembers_push(Seq::<(Seq<u8>, JVal)>::empty().push(m0), m1);
    assert(seq![m0, m1] =~= Seq::<(Seq<u8>, JVal)>::empty().push(m0).push(m1));
}

proof fn lemma_members3(m0: (Seq<u8>, JVal), m1: (Seq<u8>, JVal), m2: (Seq<u8>, JVal))
    requires
        valid_jval(m0.1),
        valid_jval(m1.1),
        valid_jval(m2.1),
    ensures
        valid_jmembers(seq![m0, m1, m2]),
{
    lemma_valid_jmembers_push(Seq::<(Seq<u8>, JVal)>::empty(), m0);
    lemma_valid_jmembers_push(Seq::<(Seq<u8>, JVal)>::empty().push(m0), m1);
    lemma_valid_jmembers_push(Seq::<(Seq<u8>, JVal)>::empty().push(m0).push(m1), m2);
    assert(seq![m0, m1, m2] =~= Seq::<(Seq<u8>, JVal)>::empty().push(m0).push(m1).push(m2));
}

proof fn lemma_payloads_valid()
    ensures
        valid_jval(initialize_result()),
        valid_jval(tools_list_result()),
        valid_jval(obj1(k_error(), JVal::Str(k_missing_params()))),
        valid_jval(obj1(k_error(), JVal::Str(k_unknown_tool()))),
        valid_jval(obj1(k_error(), JVal::Str(k_method_not_found()))),
        valid_jval(JVal::Obj(Seq::<(Seq<u8>, JVal)>::empty())),
        valid_jval(JVal::Null),
{
    lemma_members1((k_error(), JVal::Str(k_missing_params())));
    lemma_members1((k_error(), JVal::Str(k_unknown_tool())));
    lemma_members1((k_error(), JVal::Str(k_method_not_found())));
    // initialize: capabilities and serverInfo, then the whole object
    lemma_members1((k_list_changed(), JVal::Bool(true)));
    lemma_members1((k_tools(), obj1(k_list_changed(), JVal::Bool(true))));
    lemma_members2(
        (k_name(), JVal::Str(k_server_name())),
        (k_version(), JVal::Str(k_server_version())),
    );
    lemma_members3(
        (k_protocol_version(), JVal::Str(k_protocol_version_value())),
        (k_capabilities(), obj1(k_tools(), obj1(k_list_changed(), JVal::Bool(true)))),
        (
            k_server_info(),
            JVal::Obj(
                seq![
                    (k_name(), JVal::Str(k_server_name())),
                    (k_version(), JVal::Str(k_server_version())),
                ],
            ),
        ),
    );
    // tools/list: each schema, each entry, the entry list, the object
    lemma_members1((k_type(), JVal::Str(k_string())));
    assert(valid_jval(type_string_obj()));
    lemma_members2((k_topic(), type_string_obj()), (k_difficulty(), type_string_obj()));
    lemma_members1((k_code(), type_string_obj()));
    lemma_members2(
        (k_type(), JVal::Str(k_object())),
        (
            k_properties(),
            JVal::Obj(seq![(k_topic(), type_string_obj()), (k_difficulty(), type_string_obj())]),
        ),
    );
    lemma_members2(
        (k_type(), JVal::Str(k_object())),
        (k_properties(), obj1(k_code(), type_string_obj())),
    );
    assert(valid_jval(start_schema()));
    assert(valid_jval(evaluate_schema()));
    let t0 = tool_entry(k_notebook_start(), k_desc_start(), start_schema());
    let t1 = tool_entry(k_notebook_evaluate(), k_desc_evaluate(), evaluate_schema());
    lemma_members3(
        (k_name(), JVal::Str(k_notebook_start())),
        (k_description(), JVal::Str(k_desc_start())),
        (k_input_schema(), start_schema()),
    );
    lemma_members3(
        (k_name(), JVal::Str(k_notebook_evaluate())),
        (k_description(), JVal::Str(k_desc_evaluate())),
        (k_input_schema(), evaluate_schema()),
    );
    assert(valid_jval(t0));
    assert(valid_jval(t1));
    lemma_valid_jlist_push(Seq::<JVal>::empty(), t0);
    lemma_valid_jlist_push(Seq::<JVal>::empty().push(t0), t1);
    assert(seq![t0, t1] =~= Seq::<JVal>::empty().push(t0).push(t1));
    assert(valid_jlist(seq![t0, t1]));
    lemma_members1((k_tools(), JVal::Arr(seq![t0, t1])));
}

/// Every locally produced answer is a well-formed value.
proof fn lemma_local_result_valid(m: Seq<u8>, params: Option<JVal>)
    requires
        local_result(m, params) is Some,
    ensures
        valid_jval(local_result(m, params)->Some_0),
{
    lemma_payloads_valid();
}

/// What lookup finds when the first occurrence of the key is at `i`.
pub proof fn lemma_obj_lookup_at(ps: Seq<(Seq<u8>, JVal)>, k: Seq<u8>, i: int)
    requires
        0 <= i < ps.len(),
        ps[i].0 == k,
        forall|j: int| 0 <= j < i ==> (#[trigger] ps[j]).0 != k,
    ensures
        obj_lookup(ps, k) == Some(ps[i].1),
    decreases i,
{
    if i > 0 {
        assert(ps[0].0 != k);
        assert(forall|j: int|
            0 <= j < i - 1 ==> (#[trigger] ps.drop_first()[j]).0 == ps[j + 1].0);
        assert(ps.drop_first()[i - 1] == ps[i]);
        lemma_obj_lookup_at(ps.drop_first(), k, i - 1);
    }
}

/// A member looked up in a well-formed object is well formed.
pub proof fn lemma_obj_lookup_valid(ps: Seq<(Seq<u8>, JVal)>, k: Seq<u8>)
    requires
        valid_jmembers(ps),
        obj_lookup(ps, k) is Some,
    ensures
        valid_jval(obj_lookup(ps, k)->Some_0),
    decreases ps.len(),
{
    if ps.len() > 0 {
        if ps[0].0 == k {
            lemma_obj_valid_elem(ps, 0);
        } else {
            lemma_valid_jmembers_drop_first(ps);
            lemma_obj_lookup_valid(ps.drop_first(), k);
        }
    }
}

/// The parts pulled out of a well-formed request envelope are well formed.
pub proof fn lemma_req_of_valid(v: JVal)
    requires
        valid_jval(v),
        req_of(v) is Some,
    ensures
        req_of(v)->Some_0.id matches Some(x) ==> valid_jval(x),
        req_of(v)->Some_0.params matches Some(p) ==> valid_jval(p),
{
    let ps = v->Obj_0;
    if obj_lookup(ps, k_id()) is Some {
        lemma_obj_lookup_valid(ps, k_id());
    }
    if obj_lookup(ps, k_params()) is Some {
        lemma_obj_lookup_valid(ps, k_params());
    }
}

/// A response envelope over well-formed parts is well formed.
proof fn lemma_response_valid(result: Option<JVal>, error: Option<JVal>, id: Option<JVal>)
    requires
        result matches Some(x) ==> valid_jval(x),
        error matches Some(x) ==> valid_jval(x),
        id matches Some(x) ==> valid_jval(x),
    ensures
        valid_jval(response_jval(result, error, id)),
{
    let m0 = (k_jsonrpc(), JVal::Str(k_two_zero()));
    let m1 = (k_result(), opt_jval(result));
    let m2 = (k_error(), opt_jval(error));
    let m3 = (k_id(), opt_jval(id));
    assert(valid_jval(opt_jval(result)));
    assert(valid_jval(opt_jval(error)));
    assert(valid_jval(opt_jval(id)));
    let ms = Seq::<(Seq<u8>, JVal)>::empty().push(m0).push(m1).push(m2).push(m3);
    lemma_valid_jmembers_push(Seq::<(Seq<u8>, JVal)>::empty(), m0);
    lemma_valid_jmembers_push(Seq::<(Seq<u8>, JVal)>::empty().push(m0), m1);
    lemma_valid_jmembers_push(Seq::<(Seq<u8>, JVal)>::empty().push(m0).push(m1), m2);
    lemma_valid_jmembers_push(Seq::<(Seq<u8>, JVal)>::empty().push(m0).push(m1).push(m2), m3);
    assert(valid_jmembers(ms));
    assert(response_jval(result, error, id)->Obj_0 =~= ms);
    assert(valid_jval(response_jval(result, error, id)));
}

} // verus!
