//! Measurements, and the objects that scripts read them from.
//!
//! Times are in milliseconds, and are held by the bits of their double precision form.
use vstd::prelude::*;

use crate::js_output::{JsOutput, OutputView};
use crate::value::Float64Bits;

verus! {

/// The properties of an object.
pub open spec fn fields_view(fields: Seq<(String, JsOutput)>) -> Seq<(Seq<char>, OutputView)> {
    fields.map_values(|field: (String, JsOutput)| (field.0@, field.1.view()))
}

fn add_field(fields: &mut Vec<(String, JsOutput)>, name: &str, value: JsOutput)
    ensures
        fields_view(final(fields)@) == fields_view(old(fields)@).push((name@, value.view())),
{
    let ghost before = fields_view(fields@);
    let ghost added = (name@, value.view());
    fields.push((name.to_owned(), value));
    assert(fields_view(fields@) =~= before.push(added));
}

fn add_time(fields: &mut Vec<(String, JsOutput)>, name: &str, time: Float64Bits)
    ensures
        fields_view(final(fields)@) == fields_view(old(fields)@).push(
            (name@, OutputView::Number(time.bits)),
        ),
{
    add_field(fields, name, JsOutput::Number(time.bits));
}

fn add_count(fields: &mut Vec<(String, JsOutput)>, name: &str, count: usize)
    ensures
        fields_view(final(fields)@) == fields_view(old(fields)@).push(
            (name@, OutputView::Count(count as u64)),
        ),
{
    add_field(fields, name, JsOutput::Count(count as u64));
}

fn add_flag(fields: &mut Vec<(String, JsOutput)>, name: &str, flag: bool)
    ensures
        fields_view(final(fields)@) == fields_view(old(fields)@).push(
            (name@, OutputView::Boolean(flag)),
        ),
{
    add_field(fields, name, JsOutput::Boolean(flag));
}

fn no_fields() -> (fields: Vec<(String, JsOutput)>)
    ensures
        fields_view(fields@) == Seq::<(Seq<char>, OutputView)>::empty(),
{
    let fields: Vec<(String, JsOutput)> = Vec::new();
    assert(fields_view(fields@) =~= Seq::<(Seq<char>, OutputView)>::empty());
    fields
}

fn object_of(fields: Vec<(String, JsOutput)>) -> (output: JsOutput)
    ensures
        output.view() == OutputView::Object(fields_view(fields@)),
{
    let output = JsOutput::Object(fields);
    assert(output.view()->Object_0 =~= fields_view(fields@));
    output
}

/// How long a commit took and how much it changed.
#[derive(Clone, Copy, Debug, PartialEq, Eq, Structural)]
pub struct CommitProfile {
    pub storage_commit_ms: Float64Bits,
    pub registry_flush_ms: Float64Bits,
    pub total_commit_ms: Float64Bits,
    pub changed_table_count: usize,
    pub changed_row_count: usize,
    pub delta_row_count: usize,
}

/// The properties of the object of a measurement: times, counts and flags, by name.
pub open spec fn commit_profile_fields(profile: CommitProfile) -> Seq<(Seq<char>, OutputView)> {
    seq![
        ("storageCommitMs"@, OutputView::Number(profile.storage_commit_ms.bits)),
        ("registryFlushMs"@, OutputView::Number(profile.registry_flush_ms.bits)),
        ("totalCommitMs"@, OutputView::Number(profile.total_commit_ms.bits)),
        ("changedTableCount"@, OutputView::Count(profile.changed_table_count as u64)),
        ("changedRowCount"@, OutputView::Count(profile.changed_row_count as u64)),
        ("deltaRowCount"@, OutputView::Count(profile.delta_row_count as u64)),
    ]
}

/// The object of a measurement.
pub fn commit_profile_to_js_value(profile: CommitProfile) -> (output: JsOutput)
    ensures
        output.view() == OutputView::Object(commit_profile_fields(profile)),
{
    let mut fields = no_fields();
    add_time(&mut fields, "storageCommitMs", profile.storage_commit_ms);
    add_time(&mut fields, "registryFlushMs", profile.registry_flush_ms);
    add_time(&mut fields, "totalCommitMs", profile.total_commit_ms);
    add_count(&mut fields, "changedTableCount", profile.changed_table_count);
    add_count(&mut fields, "changedRowCount", profile.changed_row_count);
    add_count(&mut fields, "deltaRowCount", profile.delta_row_count);
    assert(fields_view(fields@) =~= commit_profile_fields(profile));
    object_of(fields)
}

/// How long handing changes to the queries that follow them took.
#[derive(Clone, Copy, Debug, PartialEq, Eq, Structural)]
pub struct DeltaFlushProfile {
    pub delta_table_count: usize,
    pub delta_query_count: usize,
    pub rows_query_count: usize,
    pub graphql_query_count: usize,
    pub delta_row_count: usize,
    pub clone_ms: Float64Bits,
    pub query_on_table_change_ms: Float64Bits,
    pub source_dispatch_ms: Float64Bits,
    pub unary_execute_ms: Float64Bits,
    pub join_execute_ms: Float64Bits,
    pub aggregate_execute_ms: Float64Bits,
    pub result_apply_ms: Float64Bits,
    pub graphql_view_update_ms: Float64Bits,
    pub graphql_invalidation_ms: Float64Bits,
    pub graphql_render_ms: Float64Bits,
    pub graphql_encode_ms: Float64Bits,
    pub graphql_emit_ms: Float64Bits,
    pub total_ms: Float64Bits,
}

/// The properties of the object of a measurement: times, counts and flags, by name.
pub open spec fn delta_flush_profile_fields(profile: DeltaFlushProfile) -> Seq<(Seq<char>, OutputView)> {
    seq![
        ("deltaTableCount"@, OutputView::Count(profile.delta_table_count as u64)),
        ("deltaQueryCount"@, OutputView::Count(profile.delta_query_count as u64)),
        ("rowsQueryCount"@, OutputView::Count(profile.rows_query_count as u64)),
        ("graphqlQueryCount"@, OutputView::Count(profile.graphql_query_count as u64)),
        ("deltaRowCount"@, OutputView::Count(profile.delta_row_count as u64)),
        ("cloneMs"@, OutputView::Number(profile.clone_ms.bits)),
        ("queryOnTableChangeMs"@, OutputView::Number(profile.query_on_table_change_ms.bits)),
        ("sourceDispatchMs"@, OutputView::Number(profile.source_dispatch_ms.bits)),
        ("unaryExecuteMs"@, OutputView::Number(profile.unary_execute_ms.bits)),
        ("joinExecuteMs"@, OutputView::Number(profile.join_execute_ms.bits)),
        ("aggregateExecuteMs"@, OutputView::Number(profile.aggregate_execute_ms.bits)),
        ("resultApplyMs"@, OutputView::Number(profile.result_apply_ms.bits)),
        ("totalMs"@, OutputView::Number(profile.total_ms.bits)),
    ]
}

/// The object of a measurement.
pub fn delta_flush_profile_to_js_value(profile: DeltaFlushProfile) -> (output: JsOutput)
    ensures
        output.view() == OutputView::Object(delta_flush_profile_fields(profile)),
{
    let mut fields = no_fields();
    add_count(&mut fields, "deltaTableCount", profile.delta_table_count);
    add_count(&mut fields, "deltaQueryCount", profile.delta_query_count);
    add_count(&mut fields, "rowsQueryCount", profile.rows_query_count);
    add_count(&mut fields, "graphqlQueryCount", profile.graphql_query_count);
    add_count(&mut fields, "deltaRowCount", profile.delta_row_count);
    add_time(&mut fields, "cloneMs", profile.clone_ms);
    add_time(&mut fields, "queryOnTableChangeMs", profile.query_on_table_change_ms);
    add_time(&mut fields, "sourceDispatchMs", profile.source_dispatch_ms);
    add_time(&mut fields, "unaryExecuteMs", profile.unary_execute_ms);
    add_time(&mut fields, "joinExecuteMs", profile.join_execute_ms);
    add_time(&mut fields, "aggregateExecuteMs", profile.aggregate_execute_ms);
    add_time(&mut fields, "resultApplyMs", profile.result_apply_ms);
    add_time(&mut fields, "totalMs", profile.total_ms);
    assert(fields_view(fields@) =~= delta_flush_profile_fields(profile));
    object_of(fields)
}

/// How long starting a query that follows changes took.
#[derive(Clone, Copy, Debug, PartialEq, Eq, Structural)]
pub struct TraceInitProfile {
    pub compile_plan_ms: Float64Bits,
    pub compile_to_dataflow_ms: Float64Bits,
    pub compile_ivm_plan_ms: Float64Bits,
    pub compile_trace_program_ms: Float64Bits,
    pub initial_query_ms: Float64Bits,
    pub source_bootstrap_ms: Float64Bits,
    pub source_access_ms: Float64Bits,
    pub source_emit_ms: Float64Bits,
    pub source_visit_ms: Float64Bits,
    pub source_handle_wrap_ms: Float64Bits,
    pub bootstrap_scan_ms: Float64Bits,
    pub bootstrap_execute_ms: Float64Bits,
    pub bootstrap_runtime_node_ms: Float64Bits,
    pub bootstrap_slot_ms: Float64Bits,
    pub filter_bootstrap_ms: Float64Bits,
    pub project_bootstrap_ms: Float64Bits,
    pub map_bootstrap_ms: Float64Bits,
    pub join_build_ms: Float64Bits,
    pub join_finalize_ms: Float64Bits,
    pub join_emit_ms: Float64Bits,
    pub join_bootstrap_ms: Float64Bits,
    pub aggregate_bootstrap_ms: Float64Bits,
    pub root_sink_ms: Float64Bits,
    pub visible_store_init_ms: Float64Bits,
    pub materialized_view_init_ms: Float64Bits,
    pub total_ms: Float64Bits,
    pub source_table_count: usize,
    pub initial_row_count: usize,
}

/// The properties of the object of a measurement: times, counts and flags, by name.
pub open spec fn trace_init_profile_fields(profile: TraceInitProfile) -> Seq<(Seq<char>, OutputView)> {
    seq![
        ("compilePlanMs"@, OutputView::Number(profile.compile_plan_ms.bits)),
        ("compileToDataflowMs"@, OutputView::Number(profile.compile_to_dataflow_ms.bits)),
        ("compileIvmPlanMs"@, OutputView::Number(profile.compile_ivm_plan_ms.bits)),
        ("compileTraceProgramMs"@, OutputView::Number(profile.compile_trace_program_ms.bits)),
        ("initialQueryMs"@, OutputView::Number(profile.initial_query_ms.bits)),
        ("sourceBootstrapMs"@, OutputView::Number(profile.source_bootstrap_ms.bits)),
        ("sourceAccessMs"@, OutputView::Number(profile.source_access_ms.bits)),
        ("sourceEmitMs"@, OutputView::Number(profile.source_emit_ms.bits)),
        ("bootstrapScanMs"@, OutputView::Number(profile.bootstrap_scan_ms.bits)),
        ("bootstrapExecuteMs"@, OutputView::Number(profile.bootstrap_execute_ms.bits)),
        ("filterBootstrapMs"@, OutputView::Number(profile.filter_bootstrap_ms.bits)),
        ("projectBootstrapMs"@, OutputView::Number(profile.project_bootstrap_ms.bits)),
        ("mapBootstrapMs"@, OutputView::Number(profile.map_bootstrap_ms.bits)),
        ("joinBootstrapMs"@, OutputView::Number(profile.join_bootstrap_ms.bits)),
        ("aggregateBootstrapMs"@, OutputView::Number(profile.aggregate_bootstrap_ms.bits)),
        ("rootSinkMs"@, OutputView::Number(profile.root_sink_ms.bits)),
        ("materializedViewInitMs"@, OutputView::Number(profile.materialized_view_init_ms.bits)),
        ("totalMs"@, OutputView::Number(profile.total_ms.bits)),
        ("sourceTableCount"@, OutputView::Count(profile.source_table_count as u64)),
        ("initialRowCount"@, OutputView::Count(profile.initial_row_count as u64)),
    ]
}

/// The object of a measurement.
pub fn trace_init_profile_to_js_value(profile: TraceInitProfile) -> (output: JsOutput)
    ensures
        output.view() == OutputView::Object(trace_init_profile_fields(profile)),
{
    let mut fields = no_fields();
    add_time(&mut fields, "compilePlanMs", profile.compile_plan_ms);
    add_time(&mut fields, "compileToDataflowMs", profile.compile_to_dataflow_ms);
    add_time(&mut fields, "compileIvmPlanMs", profile.compile_ivm_plan_ms);
    add_time(&mut fields, "compileTraceProgramMs", profile.compile_trace_program_ms);
    add_time(&mut fields, "initialQueryMs", profile.initial_query_ms);
    add_time(&mut fields, "sourceBootstrapMs", profile.source_bootstrap_ms);
    add_time(&mut fields, "sourceAccessMs", profile.source_access_ms);
    add_time(&mut fields, "sourceEmitMs", profile.source_emit_ms);
    add_time(&mut fields, "bootstrapScanMs", profile.bootstrap_scan_ms);
    add_time(&mut fields, "bootstrapExecuteMs", profile.bootstrap_execute_ms);
    add_time(&mut fields, "filterBootstrapMs", profile.filter_bootstrap_ms);
    add_time(&mut fields, "projectBootstrapMs", profile.project_bootstrap_ms);
    add_time(&mut fields, "mapBootstrapMs", profile.map_bootstrap_ms);
    add_time(&mut fields, "joinBootstrapMs", profile.join_bootstrap_ms);
    add_time(&mut fields, "aggregateBootstrapMs", profile.aggregate_bootstrap_ms);
    add_time(&mut fields, "rootSinkMs", profile.root_sink_ms);
    add_time(&mut fields, "materializedViewInitMs", profile.materialized_view_init_ms);
    add_time(&mut fields, "totalMs", profile.total_ms);
    add_count(&mut fields, "sourceTableCount", profile.source_table_count);
    add_count(&mut fields, "initialRowCount", profile.initial_row_count);
    assert(fields_view(fields@) =~= trace_init_profile_fields(profile));
    object_of(fields)
}

/// How long starting a query that is run anew took.
#[derive(Clone, Copy, Debug, PartialEq, Eq, Structural)]
pub struct SnapshotInitProfile {
    pub logical_plan_ms: Float64Bits,
    pub describe_output_ms: Float64Bits,
    pub binary_layout_ms: Float64Bits,
    pub partial_refresh_plan_ms: Float64Bits,
    pub compile_main_plan_ms: Float64Bits,
    pub root_subset_plan_ms: Float64Bits,
    pub initial_query_ms: Float64Bits,
    pub dependency_bindings_ms: Float64Bits,
    pub initial_result_adapt_ms: Float64Bits,
    pub observable_init_ms: Float64Bits,
    pub total_ms: Float64Bits,
    pub initial_row_count: usize,
    pub visible_row_count: usize,
    pub partial_refresh_enabled: bool,
    pub root_subset_enabled: bool,
}

/// The properties of the object of a measurement: times, counts and flags, by name.
pub open spec fn snapshot_init_profile_fields(profile: SnapshotInitProfile) -> Seq<(Seq<char>, OutputView)> {
    seq![
        ("logicalPlanMs"@, OutputView::Number(profile.logical_plan_ms.bits)),
        ("describeOutputMs"@, OutputView::Number(profile.describe_output_ms.bits)),
        ("binaryLayoutMs"@, OutputView::Number(profile.binary_layout_ms.bits)),
        ("partialRefreshPlanMs"@, OutputView::Number(profile.partial_refresh_plan_ms.bits)),
        ("compileMainPlanMs"@, OutputView::Number(profile.compile_main_plan_ms.bits)),
        ("rootSubsetPlanMs"@, OutputView::Number(profile.root_subset_plan_ms.bits)),
        ("initialQueryMs"@, OutputView::Number(profile.initial_query_ms.bits)),
        ("dependencyBindingsMs"@, OutputView::Number(profile.dependency_bindings_ms.bits)),
        ("initialResultAdaptMs"@, OutputView::Number(profile.initial_result_adapt_ms.bits)),
        ("observableInitMs"@, OutputView::Number(profile.observable_init_ms.bits)),
        ("totalMs"@, OutputView::Number(profile.total_ms.bits)),
        ("initialRowCount"@, OutputView::Count(profile.initial_row_count as u64)),
        ("visibleRowCount"@, OutputView::Count(profile.visible_row_count as u64)),
        ("partialRefreshEnabled"@, OutputView::Boolean(profile.partial_refresh_enabled)),
        ("rootSubsetEnabled"@, OutputView::Boolean(profile.root_subset_enabled)),
    ]
}

/// The object of a measurement.
pub fn snapshot_init_profile_to_js_value(profile: SnapshotInitProfile) -> (output: JsOutput)
    ensures
        output.view() == OutputView::Object(snapshot_init_profile_fields(profile)),
{
    let mut fields = no_fields();
    add_time(&mut fields, "logicalPlanMs", profile.logical_plan_ms);
    add_time(&mut fields, "describeOutputMs", profile.describe_output_ms);
    add_time(&mut fields, "binaryLayoutMs", profile.binary_layout_ms);
    add_time(&mut fields, "partialRefreshPlanMs", profile.partial_refresh_plan_ms);
    add_time(&mut fields, "compileMainPlanMs", profile.compile_main_plan_ms);
    add_time(&mut fields, "rootSubsetPlanMs", profile.root_subset_plan_ms);
    add_time(&mut fields, "initialQueryMs", profile.initial_query_ms);
    add_time(&mut fields, "dependencyBindingsMs", profile.dependency_bindings_ms);
    add_time(&mut fields, "initialResultAdaptMs", profile.initial_result_adapt_ms);
    add_time(&mut fields, "observableInitMs", profile.observable_init_ms);
    add_time(&mut fields, "totalMs", profile.total_ms);
    add_count(&mut fields, "initialRowCount", profile.initial_row_count);
    add_count(&mut fields, "visibleRowCount", profile.visible_row_count);
    add_flag(&mut fields, "partialRefreshEnabled", profile.partial_refresh_enabled);
    add_flag(&mut fields, "rootSubsetEnabled", profile.root_subset_enabled);
    assert(fields_view(fields@) =~= snapshot_init_profile_fields(profile));
    object_of(fields)
}

/// How long running queries anew took, and how they were refreshed.
#[derive(Clone, Copy, Debug, PartialEq, Eq, Structural)]
pub struct SnapshotFlushProfile {
    pub changed_table_count: usize,
    pub rows_query_count: usize,
    pub graphql_query_count: usize,
    pub invalidation_merge_ms: Float64Bits,
    pub rows_query_on_change_ms: Float64Bits,
    pub graphql_query_on_change_ms: Float64Bits,
    pub graphql_root_refresh_ms: Float64Bits,
    pub graphql_batch_invalidation_ms: Float64Bits,
    pub graphql_render_ms: Float64Bits,
    pub graphql_encode_ms: Float64Bits,
    pub graphql_emit_ms: Float64Bits,
    pub reactive_patch_attempt_count: usize,
    pub reactive_patch_hit_count: usize,
    pub reactive_patch_ms: Float64Bits,
    pub partial_refresh_attempt_count: usize,
    pub partial_refresh_hit_count: usize,
    pub partial_refresh_collect_ms: Float64Bits,
    pub partial_refresh_requery_ms: Float64Bits,
    pub partial_refresh_apply_ms: Float64Bits,
    pub partial_refresh_compare_ms: Float64Bits,
    pub root_subset_attempt_count: usize,
    pub root_subset_hit_count: usize,
    pub root_subset_collect_ms: Float64Bits,
    pub root_subset_requery_ms: Float64Bits,
    pub root_subset_apply_ms: Float64Bits,
    pub root_subset_compare_ms: Float64Bits,
    pub full_requery_count: usize,
    pub full_requery_ms: Float64Bits,
    pub full_requery_compare_ms: Float64Bits,
    pub callback_ms: Float64Bits,
    pub total_ms: Float64Bits,
}

/// The properties of the object of a measurement: times, counts and flags, by name.
pub open spec fn snapshot_flush_profile_fields(profile: SnapshotFlushProfile) -> Seq<(Seq<char>, OutputView)> {
    seq![
        ("changedTableCount"@, OutputView::Count(profile.changed_table_count as u64)),
        ("rowsQueryCount"@, OutputView::Count(profile.rows_query_count as u64)),
        ("graphqlQueryCount"@, OutputView::Count(profile.graphql_query_count as u64)),
        ("invalidationMergeMs"@, OutputView::Number(profile.invalidation_merge_ms.bits)),
        ("rowsQueryOnChangeMs"@, OutputView::Number(profile.rows_query_on_change_ms.bits)),
        ("graphqlQueryOnChangeMs"@, OutputView::Number(profile.graphql_query_on_change_ms.bits)),
        ("reactivePatchAttemptCount"@, OutputView::Count(profile.reactive_patch_attempt_count as u64)),
        ("reactivePatchHitCount"@, OutputView::Count(profile.reactive_patch_hit_count as u64)),
        ("reactivePatchMs"@, OutputView::Number(profile.reactive_patch_ms.bits)),
        ("partialRefreshAttemptCount"@, OutputView::Count(profile.partial_refresh_attempt_count as u64)),
        ("partialRefreshHitCount"@, OutputView::Count(profile.partial_refresh_hit_count as u64)),
        ("partialRefreshCollectMs"@, OutputView::Number(profile.partial_refresh_collect_ms.bits)),
        ("partialRefreshRequeryMs"@, OutputView::Number(profile.partial_refresh_requery_ms.bits)),
        ("partialRefreshApplyMs"@, OutputView::Number(profile.partial_refresh_apply_ms.bits)),
        ("partialRefreshCompareMs"@, OutputView::Number(profile.partial_refresh_compare_ms.bits)),
        ("rootSubsetAttemptCount"@, OutputView::Count(profile.root_subset_attempt_count as u64)),
        ("rootSubsetHitCount"@, OutputView::Count(profile.root_subset_hit_count as u64)),
        ("rootSubsetCollectMs"@, OutputView::Number(profile.root_subset_collect_ms.bits)),
        ("rootSubsetRequeryMs"@, OutputView::Number(profile.root_subset_requery_ms.bits)),
        ("rootSubsetApplyMs"@, OutputView::Number(profile.root_subset_apply_ms.bits)),
        ("rootSubsetCompareMs"@, OutputView::Number(profile.root_subset_compare_ms.bits)),
        ("fullRequeryCount"@, OutputView::Count(profile.full_requery_count as u64)),
        ("fullRequeryMs"@, OutputView::Number(profile.full_requery_ms.bits)),
        ("fullRequeryCompareMs"@, OutputView::Number(profile.full_requery_compare_ms.bits)),
        ("callbackMs"@, OutputView::Number(profile.callback_ms.bits)),
        ("totalMs"@, OutputView::Number(profile.total_ms.bits)),
    ]
}

/// The object of a measurement.
pub fn snapshot_flush_profile_to_js_value(profile: SnapshotFlushProfile) -> (output: JsOutput)
    ensures
        output.view() == OutputView::Object(snapshot_flush_profile_fields(profile)),
{
    let mut fields = no_fields();
    add_count(&mut fields, "changedTableCount", profile.changed_table_count);
    add_count(&mut fields, "rowsQueryCount", profile.rows_query_count);
    add_count(&mut fields, "graphqlQueryCount", profile.graphql_query_count);
    add_time(&mut fields, "invalidationMergeMs", profile.invalidation_merge_ms);
    add_time(&mut fields, "rowsQueryOnChangeMs", profile.rows_query_on_change_ms);
    add_time(&mut fields, "graphqlQueryOnChangeMs", profile.graphql_query_on_change_ms);
    add_count(&mut fields, "reactivePatchAttemptCount", profile.reactive_patch_attempt_count);
    add_count(&mut fields, "reactivePatchHitCount", profile.reactive_patch_hit_count);
    add_time(&mut fields, "reactivePatchMs", profile.reactive_patch_ms);
    add_count(&mut fields, "partialRefreshAttemptCount", profile.partial_refresh_attempt_count);
    add_count(&mut fields, "partialRefreshHitCount", profile.partial_refresh_hit_count);
    add_time(&mut fields, "partialRefreshCollectMs", profile.partial_refresh_collect_ms);
    add_time(&mut fields, "partialRefreshRequeryMs", profile.partial_refresh_requery_ms);
    add_time(&mut fields, "partialRefreshApplyMs", profile.partial_refresh_apply_ms);
    add_time(&mut fields, "partialRefreshCompareMs", profile.partial_refresh_compare_ms);
    add_count(&mut fields, "rootSubsetAttemptCount", profile.root_subset_attempt_count);
    add_count(&mut fields, "rootSubsetHitCount", profile.root_subset_hit_count);
    add_time(&mut fields, "rootSubsetCollectMs", profile.root_subset_collect_ms);
    add_time(&mut fields, "rootSubsetRequeryMs", profile.root_subset_requery_ms);
    add_time(&mut fields, "rootSubsetApplyMs", profile.root_subset_apply_ms);
    add_time(&mut fields, "rootSubsetCompareMs", profile.root_subset_compare_ms);
    add_count(&mut fields, "fullRequeryCount", profile.full_requery_count);
    add_time(&mut fields, "fullRequeryMs", profile.full_requery_ms);
    add_time(&mut fields, "fullRequeryCompareMs", profile.full_requery_compare_ms);
    add_time(&mut fields, "callbackMs", profile.callback_ms);
    add_time(&mut fields, "totalMs", profile.total_ms);
    assert(fields_view(fields@) =~= snapshot_flush_profile_fields(profile));
    object_of(fields)
}

/// How long handing changes to subscribers took.
#[derive(Clone, Copy, Debug, PartialEq, Eq, Structural)]
pub struct IvmBridgeProfile {
    pub callback_count: usize,
    pub added_row_count: usize,
    pub removed_row_count: usize,
    pub serialize_added_ms: Float64Bits,
    pub serialize_removed_ms: Float64Bits,
    pub assemble_delta_ms: Float64Bits,
    pub callback_call_ms: Float64Bits,
    pub total_ms: Float64Bits,
}

/// The properties of the object of a measurement: times, counts and flags, by name.
pub open spec fn ivm_bridge_profile_fields(profile: IvmBridgeProfile) -> Seq<(Seq<char>, OutputView)> {
    seq![
        ("callbackCount"@, OutputView::Count(profile.callback_count as u64)),
        ("addedRowCount"@, OutputView::Count(profile.added_row_count as u64)),
        ("removedRowCount"@, OutputView::Count(profile.removed_row_count as u64)),
        ("serializeAddedMs"@, OutputView::Number(profile.serialize_added_ms.bits)),
        ("serializeRemovedMs"@, OutputView::Number(profile.serialize_removed_ms.bits)),
        ("assembleDeltaMs"@, OutputView::Number(profile.assemble_delta_ms.bits)),
        ("callbackCallMs"@, OutputView::Number(profile.callback_call_ms.bits)),
        ("totalMs"@, OutputView::Number(profile.total_ms.bits)),
    ]
}

/// The object of a measurement.
pub fn ivm_bridge_profile_to_js_value(profile: IvmBridgeProfile) -> (output: JsOutput)
    ensures
        output.view() == OutputView::Object(ivm_bridge_profile_fields(profile)),
{
    let mut fields = no_fields();
    add_count(&mut fields, "callbackCount", profile.callback_count);
    add_count(&mut fields, "addedRowCount", profile.added_row_count);
    add_count(&mut fields, "removedRowCount", profile.removed_row_count);
    add_time(&mut fields, "serializeAddedMs", profile.serialize_added_ms);
    add_time(&mut fields, "serializeRemovedMs", profile.serialize_removed_ms);
    add_time(&mut fields, "assembleDeltaMs", profile.assemble_delta_ms);
    add_time(&mut fields, "callbackCallMs", profile.callback_call_ms);
    add_time(&mut fields, "totalMs", profile.total_ms);
    assert(fields_view(fields@) =~= ivm_bridge_profile_fields(profile));
    object_of(fields)
}

/// How long storing documents in their indexes took.
#[derive(Clone, Copy, Debug, PartialEq, Eq, Structural)]
pub struct GinInsertProfile {
    pub parse_json_ms: Float64Bits,
    pub path_lookup_ms: Float64Bits,
    pub scalar_emit_ms: Float64Bits,
    pub contains_stringify_ms: Float64Bits,
    pub contains_trigram_emit_ms: Float64Bits,
    pub parse_call_count: usize,
    pub selected_path_eval_count: usize,
    pub selected_path_hit_count: usize,
    pub path_key_emit_count: usize,
    pub scalar_value_count: usize,
    pub contains_value_count: usize,
    pub contains_trigram_count: usize,
}

/// The properties of the object of a measurement: times, counts and flags, by name.
pub open spec fn gin_profile_fields(profile: GinInsertProfile) -> Seq<(Seq<char>, OutputView)> {
    seq![
        ("parseJsonMs"@, OutputView::Number(profile.parse_json_ms.bits)),
        ("pathLookupMs"@, OutputView::Number(profile.path_lookup_ms.bits)),
        ("scalarEmitMs"@, OutputView::Number(profile.scalar_emit_ms.bits)),
        ("containsStringifyMs"@, OutputView::Number(profile.contains_stringify_ms.bits)),
        ("containsTrigramEmitMs"@, OutputView::Number(profile.contains_trigram_emit_ms.bits)),
        ("parseCallCount"@, OutputView::Count(profile.parse_call_count as u64)),
        ("selectedPathEvalCount"@, OutputView::Count(profile.selected_path_eval_count as u64)),
        ("selectedPathHitCount"@, OutputView::Count(profile.selected_path_hit_count as u64)),
        ("pathKeyEmitCount"@, OutputView::Count(profile.path_key_emit_count as u64)),
        ("scalarValueCount"@, OutputView::Count(profile.scalar_value_count as u64)),
        ("containsValueCount"@, OutputView::Count(profile.contains_value_count as u64)),
        ("containsTrigramCount"@, OutputView::Count(profile.contains_trigram_count as u64)),
    ]
}

/// The object of a measurement.
pub fn gin_profile_to_js_value(profile: GinInsertProfile) -> (output: JsOutput)
    ensures
        output.view() == OutputView::Object(gin_profile_fields(profile)),
{
    let mut fields = no_fields();
    add_time(&mut fields, "parseJsonMs", profile.parse_json_ms);
    add_time(&mut fields, "pathLookupMs", profile.path_lookup_ms);
    add_time(&mut fields, "scalarEmitMs", profile.scalar_emit_ms);
    add_time(&mut fields, "containsStringifyMs", profile.contains_stringify_ms);
    add_time(&mut fields, "containsTrigramEmitMs", profile.contains_trigram_emit_ms);
    add_count(&mut fields, "parseCallCount", profile.parse_call_count);
    add_count(&mut fields, "selectedPathEvalCount", profile.selected_path_eval_count);
    add_count(&mut fields, "selectedPathHitCount", profile.selected_path_hit_count);
    add_count(&mut fields, "pathKeyEmitCount", profile.path_key_emit_count);
    add_count(&mut fields, "scalarValueCount", profile.scalar_value_count);
    add_count(&mut fields, "containsValueCount", profile.contains_value_count);
    add_count(&mut fields, "containsTrigramCount", profile.contains_trigram_count);
    assert(fields_view(fields@) =~= gin_profile_fields(profile));
    object_of(fields)
}

/// How long storing rows took.
#[derive(Clone, Copy, Debug, PartialEq, Eq, Structural)]
pub struct StorageInsertProfile {
    pub row_count: usize,
    pub secondary_index_count: usize,
    pub gin_index_count: usize,
    pub validation_ms: Float64Bits,
    pub row_id_index_ms: Float64Bits,
    pub primary_index_ms: Float64Bits,
    pub secondary_index_ms: Float64Bits,
    pub gin_collect_ms: Float64Bits,
    pub gin_flush_ms: Float64Bits,
    pub row_slot_ms: Float64Bits,
    pub total_ms: Float64Bits,
    pub gin: GinInsertProfile,
}

/// The properties of the object of a measurement: times, counts and flags, by name.
pub open spec fn storage_insert_profile_fields(profile: StorageInsertProfile) -> Seq<(Seq<char>, OutputView)> {
    seq![
        ("rowCount"@, OutputView::Count(profile.row_count as u64)),
        ("secondaryIndexCount"@, OutputView::Count(profile.secondary_index_count as u64)),
        ("ginIndexCount"@, OutputView::Count(profile.gin_index_count as u64)),
        ("validationMs"@, OutputView::Number(profile.validation_ms.bits)),
        ("rowIdIndexMs"@, OutputView::Number(profile.row_id_index_ms.bits)),
        ("primaryIndexMs"@, OutputView::Number(profile.primary_index_ms.bits)),
        ("secondaryIndexMs"@, OutputView::Number(profile.secondary_index_ms.bits)),
        ("ginCollectMs"@, OutputView::Number(profile.gin_collect_ms.bits)),
        ("ginFlushMs"@, OutputView::Number(profile.gin_flush_ms.bits)),
        ("rowSlotMs"@, OutputView::Number(profile.row_slot_ms.bits)),
        ("totalMs"@, OutputView::Number(profile.total_ms.bits)),
        ("gin"@, OutputView::Object(gin_profile_fields(profile.gin))),
    ]
}

/// The object of a measurement.
pub fn storage_insert_profile_to_js_value(profile: StorageInsertProfile) -> (output: JsOutput)
    ensures
        output.view() == OutputView::Object(storage_insert_profile_fields(profile)),
{
    let mut fields = no_fields();
    add_count(&mut fields, "rowCount", profile.row_count);
    add_count(&mut fields, "secondaryIndexCount", profile.secondary_index_count);
    add_count(&mut fields, "ginIndexCount", profile.gin_index_count);
    add_time(&mut fields, "validationMs", profile.validation_ms);
    add_time(&mut fields, "rowIdIndexMs", profile.row_id_index_ms);
    add_time(&mut fields, "primaryIndexMs", profile.primary_index_ms);
    add_time(&mut fields, "secondaryIndexMs", profile.secondary_index_ms);
    add_time(&mut fields, "ginCollectMs", profile.gin_collect_ms);
    add_time(&mut fields, "ginFlushMs", profile.gin_flush_ms);
    add_time(&mut fields, "rowSlotMs", profile.row_slot_ms);
    add_time(&mut fields, "totalMs", profile.total_ms);
    add_field(&mut fields, "gin", gin_profile_to_js_value(profile.gin));
    assert(fields_view(fields@) =~= storage_insert_profile_fields(profile));
    object_of(fields)
}

/// The last measurements that nobody has read yet.
pub struct ProfileLog {
    pub commit: Option<CommitProfile>,
    pub delta_flush: Option<DeltaFlushProfile>,
    pub trace_init: Option<TraceInitProfile>,
    pub snapshot_init: Option<SnapshotInitProfile>,
    pub snapshot_flush: Option<SnapshotFlushProfile>,
    pub ivm_bridge: Option<IvmBridgeProfile>,
    pub insert: Option<StorageInsertProfile>,
}

/// What a script reads for a measurement: its object, or null without one.
pub open spec fn object_or_null(fields: Option<Seq<(Seq<char>, OutputView)>>) -> OutputView {
    match fields {
        Some(fields) => OutputView::Object(fields),
        None => OutputView::Null,
    }
}

impl ProfileLog {
    /// A log without measurements.
    pub fn new() -> (result: Self)
        ensures
            result.commit is None,
            result.delta_flush is None,
            result.trace_init is None,
            result.snapshot_init is None,
            result.snapshot_flush is None,
            result.ivm_bridge is None,
            result.insert is None,
    {
        ProfileLog {
            commit: None,
            delta_flush: None,
            trace_init: None,
            snapshot_init: None,
            snapshot_flush: None,
            ivm_bridge: None,
            insert: None,
        }
    }

    /// Keeps the measurement of a commit in place of the last one.
    pub fn record_commit_profile(&mut self, profile: CommitProfile)
        ensures
            *final(self) == (ProfileLog { commit: Some(profile), ..*old(self) }),
    {
        self.commit = Some(profile);
    }

    /// Hands out the measurement of a commit, once.
    pub fn take_last_commit_profile(&mut self) -> (output: JsOutput)
        ensures
            output.view() == object_or_null(
                match old(self).commit {
                    Some(profile) => Some(commit_profile_fields(profile)),
                    None => None,
                },
            ),
            *final(self) == (ProfileLog { commit: None, ..*old(self) }),
    {
        match self.commit.take() {
            Some(profile) => commit_profile_to_js_value(profile),
            None => JsOutput::Null,
        }
    }

    /// Keeps the measurement of handing changes to the queries that follow them in place of the last one.
    pub fn record_delta_flush_profile(&mut self, profile: DeltaFlushProfile)
        ensures
            *final(self) == (ProfileLog { delta_flush: Some(profile), ..*old(self) }),
    {
        self.delta_flush = Some(profile);
    }

    /// Hands out the measurement of handing changes to the queries that follow them, once.
    pub fn take_last_delta_flush_profile(&mut self) -> (output: JsOutput)
        ensures
            output.view() == object_or_null(
                match old(self).delta_flush {
                    Some(profile) => Some(delta_flush_profile_fields(profile)),
                    None => None,
                },
            ),
            *final(self) == (ProfileLog { delta_flush: None, ..*old(self) }),
    {
        match self.delta_flush.take() {
            Some(profile) => delta_flush_profile_to_js_value(profile),
            None => JsOutput::Null,
        }
    }

    /// Keeps the measurement of setting up a maintained query in place of the last one.
    pub fn record_trace_init_profile(&mut self, profile: TraceInitProfile)
        ensures
            *final(self) == (ProfileLog { trace_init: Some(profile), ..*old(self) }),
    {
        self.trace_init = Some(profile);
    }

    /// Hands out the measurement of setting up a maintained query, once.
    pub fn take_last_trace_init_profile(&mut self) -> (output: JsOutput)
        ensures
            output.view() == object_or_null(
                match old(self).trace_init {
                    Some(profile) => Some(trace_init_profile_fields(profile)),
                    None => None,
                },
            ),
            *final(self) == (ProfileLog { trace_init: None, ..*old(self) }),
    {
        match self.trace_init.take() {
            Some(profile) => trace_init_profile_to_js_value(profile),
            None => JsOutput::Null,
        }
    }

    /// Keeps the measurement of setting up a query that is run anew in place of the last one.
    pub fn record_snapshot_init_profile(&mut self, profile: SnapshotInitProfile)
        ensures
            *final(self) == (ProfileLog { snapshot_init: Some(profile), ..*old(self) }),
    {
        self.snapshot_init = Some(profile);
    }

    /// Hands out the measurement of setting up a query that is run anew, once.
    pub fn take_last_snapshot_init_profile(&mut self) -> (output: JsOutput)
        ensures
            output.view() == object_or_null(
                match old(self).snapshot_init {
                    Some(profile) => Some(snapshot_init_profile_fields(profile)),
                    None => None,
                },
            ),
            *final(self) == (ProfileLog { snapshot_init: None, ..*old(self) }),
    {
        match self.snapshot_init.take() {
            Some(profile) => snapshot_init_profile_to_js_value(profile),
            None => JsOutput::Null,
        }
    }

    /// Keeps the measurement of running queries anew in place of the last one.
    pub fn record_snapshot_flush_profile(&mut self, profile: SnapshotFlushProfile)
        ensures
            *final(self) == (ProfileLog { snapshot_flush: Some(profile), ..*old(self) }),
    {
        self.snapshot_flush = Some(profile);
    }

    /// Hands out the measurement of running queries anew, once.
    pub fn take_last_snapshot_flush_profile(&mut self) -> (output: JsOutput)
        ensures
            output.view() == object_or_null(
                match old(self).snapshot_flush {
                    Some(profile) => Some(snapshot_flush_profile_fields(profile)),
                    None => None,
                },
            ),
            *final(self) == (ProfileLog { snapshot_flush: None, ..*old(self) }),
    {
        match self.snapshot_flush.take() {
            Some(profile) => snapshot_flush_profile_to_js_value(profile),
            None => JsOutput::Null,
        }
    }

    /// Keeps the measurement of handing changed rows to scripts in place of the last one.
    pub fn record_ivm_bridge_profile(&mut self, profile: IvmBridgeProfile)
        ensures
            *final(self) == (ProfileLog { ivm_bridge: Some(profile), ..*old(self) }),
    {
        self.ivm_bridge = Some(profile);
    }

    /// Hands out the measurement of handing changed rows to scripts, once.
    pub fn take_last_ivm_bridge_profile(&mut self) -> (output: JsOutput)
        ensures
            output.view() == object_or_null(
                match old(self).ivm_bridge {
                    Some(profile) => Some(ivm_bridge_profile_fields(profile)),
                    None => None,
                },
            ),
            *final(self) == (ProfileLog { ivm_bridge: None, ..*old(self) }),
    {
        match self.ivm_bridge.take() {
            Some(profile) => ivm_bridge_profile_to_js_value(profile),
            None => JsOutput::Null,
        }
    }

    /// Keeps the measurement of storing rows in place of the last one.
    pub fn record_insert_profile(&mut self, profile: StorageInsertProfile)
        ensures
            *final(self) == (ProfileLog { insert: Some(profile), ..*old(self) }),
    {
        self.insert = Some(profile);
    }

    /// Hands out the measurement of storing rows, once.
    pub fn take_last_insert_profile(&mut self) -> (output: JsOutput)
        ensures
            output.view() == object_or_null(
                match old(self).insert {
                    Some(profile) => Some(storage_insert_profile_fields(profile)),
                    None => None,
                },
            ),
            *final(self) == (ProfileLog { insert: None, ..*old(self) }),
    {
        match self.insert.take() {
            Some(profile) => storage_insert_profile_to_js_value(profile),
            None => JsOutput::Null,
        }
    }
}

} // verus!
