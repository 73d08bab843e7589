//! Enhancement post-filters, applied to the reconstructed YUV picture before the colour
//! transform: what the coded parameters mean, and which work they ask for.

use vstd::prelude::*;

use crate::header::ToolHeader;

pub mod efe_linear;
pub mod efe_nonlinear;
pub mod icci;
pub mod lef;

verus! {

/// One of the filters.
#[derive(Clone, Copy, Debug, PartialEq, Eq, Structural)]
pub enum FilterStep {
    EfeLinear,
    Icci,
    EfeNonlinear,
    Lef,
}

/// A step, where it is enabled.
pub open spec fn step_if(enabled: bool, step: FilterStep) -> Seq<FilterStep> {
    if enabled {
        seq![step]
    } else {
        seq![]
    }
}

/// The enabled filters in the normative order.
pub open spec fn spec_steps(tools: ToolHeader) -> Seq<FilterStep> {
    step_if(tools.efe_linear is Some, FilterStep::EfeLinear) + step_if(
        tools.icci is Some,
        FilterStep::Icci,
    ) + step_if(tools.efe_nonlinear is Some, FilterStep::EfeNonlinear) + step_if(
        tools.lef_channel is Some,
        FilterStep::Lef,
    )
}

/// The enabled filters in the normative order: EFE linear, eICCI, EFE non-linear, LEF.
pub fn steps(tools: &ToolHeader) -> (v: Vec<FilterStep>)
    ensures
        v@ == spec_steps(*tools),
{
    let mut v: Vec<FilterStep> = Vec::new();
    if tools.efe_linear.is_some() {
        v.push(FilterStep::EfeLinear);
    }
    if tools.icci.is_some() {
        v.push(FilterStep::Icci);
    }
    if tools.efe_nonlinear.is_some() {
        v.push(FilterStep::EfeNonlinear);
    }
    if tools.lef_channel.is_some() {
        v.push(FilterStep::Lef);
    }
    proof {
        assert(v@ =~= spec_steps(*tools));
    }
    v
}

} // verus!
