//! Cost model for snapshot refresh fast paths.
//!
//! Planning and execution both have to decide whether a small set of dirty root rows drives the
//! execution, or whether indexes intersect that set with the normal access path. The answer
//! stands here once, so that the two cannot drift apart.
use vstd::prelude::*;

verus! {

/// Plans for few and for many affected root rows.
#[derive(Clone, Copy, Debug, PartialEq, Eq, Structural)]
pub enum RootSubsetPlanVariant {
    Small,
    Large,
}

/// How a restricted table is read: row by row from the subset, or through an index whose
/// rows are intersected with the subset.
#[derive(Clone, Copy, Debug, PartialEq, Eq, Structural)]
pub enum RestrictedAccessMode {
    SubsetDriven,
    IndexDrivenIntersect,
}

#[derive(Clone, Copy, Debug, PartialEq, Eq, Structural)]
pub enum RootSubsetDecisionReason {
    WithinAbsoluteSubsetCeiling,
    WithinSubsetFractionCeiling,
    PreferIndexDrivenIntersect,
    CompiledSmallProfile,
    CompiledLargeProfile,
}

#[derive(Clone, Copy, Debug, PartialEq, Eq, Structural)]
pub struct RootSubsetRefreshDecision {
    pub variant: RootSubsetPlanVariant,
    pub reason: RootSubsetDecisionReason,
    pub affected_row_count: usize,
    pub table_row_count: usize,
    pub preferred_access_mode: RestrictedAccessMode,
}

/// A planning decision. The fraction of the table that the subset stands for is the quotient of
/// `effective_subset_rows` and `table_row_count`; an empty table has none.
#[derive(Clone, Copy, Debug, PartialEq, Eq, Structural)]
pub struct RootSubsetPlanningDecision {
    pub variant: RootSubsetPlanVariant,
    pub reason: RootSubsetDecisionReason,
    pub effective_subset_rows: usize,
    pub table_row_count: usize,
    pub preferred_access_mode: RestrictedAccessMode,
}

/// The thresholds of the root subset decision.
#[derive(Clone, Copy, Debug, PartialEq, Eq, Structural)]
pub struct RootSubsetCostPolicy {
    /// Up to this number of rows the subset drives the execution, however large the table is.
    pub max_subset_driven_rows: usize,
    /// Above it, the subset drives while it is at most one part in so many of the table.
    pub subset_to_table_ratio_denominator: usize,
    /// The number of rows that the planner sees for the small profile.
    pub small_profile_effective_rows: usize,
}

/// The access mode that a plan variant is made for.
pub open spec fn mode_of(variant: RootSubsetPlanVariant) -> RestrictedAccessMode {
    match variant {
        RootSubsetPlanVariant::Small => RestrictedAccessMode::SubsetDriven,
        RootSubsetPlanVariant::Large => RestrictedAccessMode::IndexDrivenIntersect,
    }
}

impl RootSubsetPlanVariant {
    /// The access mode that the variant is made for.
    pub fn preferred_access_mode(self) -> (mode: RestrictedAccessMode)
        ensures
            mode == mode_of(self),
    {
        match self {
            RootSubsetPlanVariant::Small => RestrictedAccessMode::SubsetDriven,
            RootSubsetPlanVariant::Large => RestrictedAccessMode::IndexDrivenIntersect,
        }
    }
}

/// The product of two numbers, or the largest number if it is larger than that.
pub fn saturating_product(left: usize, right: usize) -> (product: usize)
    ensures
        product == (if left * right > usize::MAX {
            usize::MAX as int
        } else {
            left * right
        }),
{
    match left.checked_mul(right) {
        Some(product) => product,
        None => usize::MAX,
    }
}

pub open spec fn smaller(left: usize, right: usize) -> usize {
    if left < right {
        left
    } else {
        right
    }
}

pub open spec fn larger(left: usize, right: usize) -> usize {
    if left < right {
        right
    } else {
        left
    }
}

/// The smaller one of two numbers.
pub fn min_of(left: usize, right: usize) -> (result: usize)
    ensures
        result == smaller(left, right),
{
    if left < right {
        left
    } else {
        right
    }
}

/// The larger one of two numbers.
pub fn max_of(left: usize, right: usize) -> (result: usize)
    ensures
        result == larger(left, right),
{
    if left < right {
        right
    } else {
        left
    }
}

impl RootSubsetCostPolicy {
    /// The thresholds that the database uses.
    pub open spec fn standard_policy() -> RootSubsetCostPolicy {
        RootSubsetCostPolicy {
            max_subset_driven_rows: 8192,
            subset_to_table_ratio_denominator: 4,
            small_profile_effective_rows: 1024,
        }
    }

    /// The thresholds that the database uses.
    pub fn standard() -> (result: Self)
        ensures
            result == Self::standard_policy(),
    {
        RootSubsetCostPolicy {
            max_subset_driven_rows: 8192,
            subset_to_table_ratio_denominator: 4,
            small_profile_effective_rows: 1024,
        }
    }

    /// Why affected rows call for one variant or the other. A product that does not fit into a
    /// `usize` counts as the largest one.
    pub open spec fn reason_for(self, affected: usize, table: usize) -> RootSubsetDecisionReason {
        let product = affected * self.subset_to_table_ratio_denominator;
        if affected <= self.max_subset_driven_rows {
            RootSubsetDecisionReason::WithinAbsoluteSubsetCeiling
        } else if (if product > usize::MAX {
            usize::MAX as int
        } else {
            product
        }) <= table {
            RootSubsetDecisionReason::WithinSubsetFractionCeiling
        } else {
            RootSubsetDecisionReason::PreferIndexDrivenIntersect
        }
    }

    /// The variant that affected rows call for.
    pub open spec fn variant_for(self, affected: usize, table: usize) -> RootSubsetPlanVariant {
        if self.reason_for(affected, table)
            == RootSubsetDecisionReason::PreferIndexDrivenIntersect {
            RootSubsetPlanVariant::Large
        } else {
            RootSubsetPlanVariant::Small
        }
    }

    /// Decides which variant a refresh uses.
    pub fn decide_refresh(self, affected_row_count: usize, table_row_count: usize) -> (decision:
        RootSubsetRefreshDecision)
        ensures
            decision.variant == self.variant_for(affected_row_count, table_row_count),
            decision.reason == self.reason_for(affected_row_count, table_row_count),
            decision.affected_row_count == affected_row_count,
            decision.table_row_count == table_row_count,
            decision.preferred_access_mode == mode_of(decision.variant),
    {
        let (variant, reason) = if affected_row_count <= self.max_subset_driven_rows {
            (
                RootSubsetPlanVariant::Small,
                RootSubsetDecisionReason::WithinAbsoluteSubsetCeiling,
            )
        } else if saturating_product(affected_row_count, self.subset_to_table_ratio_denominator)
            <= table_row_count {
            (
                RootSubsetPlanVariant::Small,
                RootSubsetDecisionReason::WithinSubsetFractionCeiling,
            )
        } else {
            (
                RootSubsetPlanVariant::Large,
                RootSubsetDecisionReason::PreferIndexDrivenIntersect,
            )
        };
        RootSubsetRefreshDecision {
            variant,
            reason,
            affected_row_count,
            table_row_count,
            preferred_access_mode: variant.preferred_access_mode(),
        }
    }

    /// The number of rows that the planner sees for a variant. The large variant has none on an
    /// empty table.
    pub open spec fn effective_rows(self, variant: RootSubsetPlanVariant, table: usize) -> Option<
        usize,
    > {
        match variant {
            RootSubsetPlanVariant::Small => Some(
                smaller(table, self.small_profile_effective_rows),
            ),
            RootSubsetPlanVariant::Large => if table == 0 {
                None
            } else {
                Some(
                    larger(
                        smaller(self.max_subset_driven_rows.saturating_add(1), larger(table, 1)),
                        larger(
                            (table as int / self.subset_to_table_ratio_denominator as int) as usize,
                            1,
                        ),
                    ),
                )
            },
        }
    }

    /// The number of rows that the planner sees for a variant.
    pub fn effective_subset_rows(self, variant: RootSubsetPlanVariant, table_row_count: usize) -> (rows:
        Option<usize>)
        requires
            self.subset_to_table_ratio_denominator > 0,
        ensures
            rows == self.effective_rows(variant, table_row_count),
    {
        match variant {
            RootSubsetPlanVariant::Small => Some(
                min_of(table_row_count, self.small_profile_effective_rows),
            ),
            RootSubsetPlanVariant::Large => {
                if table_row_count == 0 {
                    return None;
                }
                let lower_bound = min_of(
                    self.max_subset_driven_rows.saturating_add(1),
                    max_of(table_row_count, 1),
                );
                let ratio_bound = max_of(
                    table_row_count / self.subset_to_table_ratio_denominator,
                    1,
                );
                Some(max_of(lower_bound, ratio_bound))
            },
        }
    }

    /// Decides what the planner is told about a variant.
    pub fn planning_decision(self, variant: RootSubsetPlanVariant, table_row_count: usize) -> (decision:
        Option<RootSubsetPlanningDecision>)
        requires
            self.subset_to_table_ratio_denominator > 0,
        ensures
            decision == (match self.effective_rows(variant, table_row_count) {
                Some(rows) => Some(
                    RootSubsetPlanningDecision {
                        variant,
                        reason: match variant {
                            RootSubsetPlanVariant::Small
                            => RootSubsetDecisionReason::CompiledSmallProfile,
                            RootSubsetPlanVariant::Large
                            => RootSubsetDecisionReason::CompiledLargeProfile,
                        },
                        effective_subset_rows: rows,
                        table_row_count,
                        preferred_access_mode: mode_of(variant),
                    },
                ),
                None => None,
            }),
    {
        match self.effective_subset_rows(variant, table_row_count) {
            Some(effective_subset_rows) => Some(
                RootSubsetPlanningDecision {
                    variant,
                    reason: match variant {
                        RootSubsetPlanVariant::Small
                        => RootSubsetDecisionReason::CompiledSmallProfile,
                        RootSubsetPlanVariant::Large
                        => RootSubsetDecisionReason::CompiledLargeProfile,
                    },
                    effective_subset_rows,
                    table_row_count,
                    preferred_access_mode: variant.preferred_access_mode(),
                },
            ),
            None => None,
        }
    }
}

/// How many candidate rows behind the visible ones are kept, and why.
#[derive(Clone, Copy, Debug, PartialEq, Eq, Structural)]
pub enum PartialRefreshWindowReason {
    MinimumFloor,
    ProportionalToVisibleLimit,
    MaximumCeiling,
}

#[derive(Clone, Copy, Debug, PartialEq, Eq, Structural)]
pub struct PartialRefreshWindowDecision {
    pub overscan: usize,
    pub reason: PartialRefreshWindowReason,
}

/// The bounds of the candidate window.
#[derive(Clone, Copy, Debug, PartialEq, Eq, Structural)]
pub struct PartialRefreshWindowPolicy {
    pub min_overscan: usize,
    pub max_overscan: usize,
    pub overscan_divisor: usize,
}

impl PartialRefreshWindowPolicy {
    /// The bounds that the database uses.
    pub open spec fn standard_policy() -> PartialRefreshWindowPolicy {
        PartialRefreshWindowPolicy { min_overscan: 256, max_overscan: 1024, overscan_divisor: 4 }
    }

    /// The bounds that the database uses.
    pub fn standard() -> (result: Self)
        ensures
            result == Self::standard_policy(),
    {
        PartialRefreshWindowPolicy { min_overscan: 256, max_overscan: 1024, overscan_divisor: 4 }
    }

    /// The share of a visible limit; a divisor of zero counts as one.
    pub open spec fn share(self, limit: usize) -> int {
        limit as int / larger(self.overscan_divisor, 1) as int
    }

    /// Decides the window for a visible limit.
    pub fn decide(self, limit: usize) -> (decision: PartialRefreshWindowDecision)
        ensures
            decision.overscan == larger(
                self.min_overscan,
                smaller(self.share(limit) as usize, self.max_overscan),
            ),
            decision.reason == (if self.share(limit) < self.min_overscan {
                PartialRefreshWindowReason::MinimumFloor
            } else if self.share(limit) > self.max_overscan {
                PartialRefreshWindowReason::MaximumCeiling
            } else {
                PartialRefreshWindowReason::ProportionalToVisibleLimit
            }),
    {
        let divisor = max_of(self.overscan_divisor, 1);
        let proportional = limit / divisor;
        let capped = min_of(proportional, self.max_overscan);
        let overscan = max_of(self.min_overscan, capped);
        let reason = if proportional < self.min_overscan {
            PartialRefreshWindowReason::MinimumFloor
        } else if proportional > self.max_overscan {
            PartialRefreshWindowReason::MaximumCeiling
        } else {
            PartialRefreshWindowReason::ProportionalToVisibleLimit
        };
        PartialRefreshWindowDecision { overscan, reason }
    }
}

/// Both policies.
#[derive(Clone, Copy, Debug, PartialEq, Eq, Structural)]
pub struct SnapshotRefreshCostModel {
    pub root_subset: RootSubsetCostPolicy,
    pub partial_window: PartialRefreshWindowPolicy,
}

impl SnapshotRefreshCostModel {
    /// The policies that the database uses.
    pub open spec fn standard_model() -> SnapshotRefreshCostModel {
        SnapshotRefreshCostModel {
            root_subset: RootSubsetCostPolicy::standard_policy(),
            partial_window: PartialRefreshWindowPolicy::standard_policy(),
        }
    }

    /// The policies that the database uses.
    pub fn standard() -> (result: Self)
        ensures
            result == Self::standard_model(),
    {
        SnapshotRefreshCostModel {
            root_subset: RootSubsetCostPolicy::standard(),
            partial_window: PartialRefreshWindowPolicy::standard(),
        }
    }

    /// Decides which variant a refresh uses.
    pub fn decide_root_subset_refresh(self, affected_row_count: usize, table_row_count: usize) -> (decision:
        RootSubsetRefreshDecision)
        ensures
            decision.variant == self.root_subset.variant_for(affected_row_count, table_row_count),
            decision.reason == self.root_subset.reason_for(affected_row_count, table_row_count),
            decision.affected_row_count == affected_row_count,
            decision.table_row_count == table_row_count,
            decision.preferred_access_mode == mode_of(decision.variant),
    {
        self.root_subset.decide_refresh(affected_row_count, table_row_count)
    }

    /// Decides what the planner is told about a variant.
    pub fn root_subset_planning_decision(
        self,
        variant: RootSubsetPlanVariant,
        table_row_count: usize,
    ) -> (decision: Option<RootSubsetPlanningDecision>)
        requires
            self.root_subset.subset_to_table_ratio_denominator > 0,
        ensures
            decision == (match self.root_subset.effective_rows(variant, table_row_count) {
                Some(rows) => Some(
                    RootSubsetPlanningDecision {
                        variant,
                        reason: match variant {
                            RootSubsetPlanVariant::Small
                            => RootSubsetDecisionReason::CompiledSmallProfile,
                            RootSubsetPlanVariant::Large
                            => RootSubsetDecisionReason::CompiledLargeProfile,
                        },
                        effective_subset_rows: rows,
                        table_row_count,
                        preferred_access_mode: mode_of(variant),
                    },
                ),
                None => None,
            }),
    {
        self.root_subset.planning_decision(variant, table_row_count)
    }

    /// Decides the window for a visible limit.
    pub fn decide_partial_refresh_window(self, visible_limit: usize) -> (decision:
        PartialRefreshWindowDecision)
        ensures
            decision.overscan == larger(
                self.partial_window.min_overscan,
                smaller(
                    self.partial_window.share(visible_limit) as usize,
                    self.partial_window.max_overscan,
                ),
            ),
            decision.reason == (if self.partial_window.share(visible_limit)
                < self.partial_window.min_overscan {
                PartialRefreshWindowReason::MinimumFloor
            } else if self.partial_window.share(visible_limit) > self.partial_window.max_overscan {
                PartialRefreshWindowReason::MaximumCeiling
            } else {
                PartialRefreshWindowReason::ProportionalToVisibleLimit
            }),
    {
        self.partial_window.decide(visible_limit)
    }
}

/// How a table that is restricted to a subset of its rows is read.
#[derive(Clone, Copy, Debug, PartialEq, Eq, Structural)]
pub enum SubsetExecutionMode {
    SubsetDriven,
    IndexDrivenIntersect,
}

/// The execution mode for a number of allowed rows.
pub open spec fn execution_mode(allowed: usize, table: usize) -> SubsetExecutionMode {
    if allowed <= 8192 || (if allowed * 4 > usize::MAX {
        usize::MAX as int
    } else {
        allowed * 4
    }) <= table {
        SubsetExecutionMode::SubsetDriven
    } else {
        SubsetExecutionMode::IndexDrivenIntersect
    }
}

impl SubsetExecutionMode {
    /// Chooses the mode for a number of allowed rows.
    pub fn choose_mode(allowed_row_count: usize, table_row_count: usize) -> (mode: Self)
        ensures
            mode == execution_mode(allowed_row_count, table_row_count),
    {
        if allowed_row_count <= 8192 || saturating_product(allowed_row_count, 4)
            <= table_row_count {
            SubsetExecutionMode::SubsetDriven
        } else {
            SubsetExecutionMode::IndexDrivenIntersect
        }
    }
}

/// The plan variant that the cost model picks for a refresh is made for the mode in which the
/// refresh is executed.
pub proof fn law_plan_and_execution_agree(affected: usize, table: usize)
    ensures
        (RootSubsetCostPolicy::standard_policy().variant_for(affected, table)
            == RootSubsetPlanVariant::Small) <==> (execution_mode(affected, table)
            == SubsetExecutionMode::SubsetDriven),
{
}

/// The planner never sees more rows than the table has, and never none of a table with rows.
pub proof fn law_effective_rows_within_table(variant: RootSubsetPlanVariant, table: usize)
    requires
        table > 0,
    ensures
        RootSubsetCostPolicy::standard_policy().effective_rows(variant, table) matches Some(rows)
            && 1 <= rows <= table,
{
}

/// The standard window lies between its bounds, and grows with the visible limit.
pub proof fn law_overscan_bounded_and_monotone(limit: usize, more: usize)
    requires
        limit <= more,
    ensures
        ({
            let policy = PartialRefreshWindowPolicy::standard_policy();
            let narrow = larger(
                policy.min_overscan,
                smaller(policy.share(limit) as usize, policy.max_overscan),
            );
            let wide = larger(
                policy.min_overscan,
                smaller(policy.share(more) as usize, policy.max_overscan),
            );
            256 <= narrow <= wide <= 1024
        }),
{
}

/// Few changed rows drive the execution, and so do those that are at most the given share of the
/// table; more of them are met with the access path of the query.
pub proof fn law_few_rows_drive_the_execution(
    policy: RootSubsetCostPolicy,
    affected: usize,
    table: usize,
)
    requires
        affected * policy.subset_to_table_ratio_denominator <= usize::MAX,
    ensures
        policy.variant_for(affected, table) is Small <==> affected <= policy.max_subset_driven_rows
            || affected * policy.subset_to_table_ratio_denominator <= table,
        policy.reason_for(affected, table) is WithinAbsoluteSubsetCeiling <==> affected
            <= policy.max_subset_driven_rows,
        policy.reason_for(affected, table) is PreferIndexDrivenIntersect <==> policy.variant_for(
            affected,
            table,
        ) is Large,
        mode_of(policy.variant_for(affected, table)) is SubsetDriven <==> policy.variant_for(
            affected,
            table,
        ) is Small,
{
}

/// A plan for few rows is made for at most the number of rows of that profile. A plan for many rows
/// is made for more rows than such as drive the execution, where the table has them, and for at
/// least the share of the table that does.
pub proof fn law_profiles_expect_their_rows(policy: RootSubsetCostPolicy, table: usize)
    requires
        policy.subset_to_table_ratio_denominator > 0,
        policy.max_subset_driven_rows < usize::MAX,
    ensures
        policy.effective_rows(RootSubsetPlanVariant::Small, table) matches Some(rows) && rows
            <= policy.small_profile_effective_rows && rows <= table && (rows == table || rows
            == policy.small_profile_effective_rows),
        policy.effective_rows(RootSubsetPlanVariant::Large, table) is None <==> table == 0,
        policy.effective_rows(RootSubsetPlanVariant::Large, table) matches Some(rows) ==> {
            &&& table > policy.max_subset_driven_rows ==> rows > policy.max_subset_driven_rows
            &&& rows >= table / policy.subset_to_table_ratio_denominator
            &&& rows <= policy.max_subset_driven_rows + 1 || rows == table
                / policy.subset_to_table_ratio_denominator
            &&& rows >= 1
        },
{
    assert(table as int / policy.subset_to_table_ratio_denominator as int <= table)
        by (nonlinear_arith)
        requires
            policy.subset_to_table_ratio_denominator > 0,
    ;
    assert(table as int / policy.subset_to_table_ratio_denominator as int >= 0)
        by (nonlinear_arith)
        requires
            policy.subset_to_table_ratio_denominator > 0,
    ;
}

} // verus!
