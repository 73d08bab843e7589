//! Which post-filters run, and on what.

use vstd::prelude::*;

use crate::filters;
use crate::filters::FilterStep;
use crate::header::ToolHeader;

verus! {

/// The place of a filter in the normative order.
pub open spec fn rank(step: FilterStep) -> int {
    match step {
        FilterStep::EfeLinear => 0,
        FilterStep::Icci => 1,
        FilterStep::EfeNonlinear => 2,
        FilterStep::Lef => 3,
    }
}

/// Each filter runs if and only if its own header is there, whatever the other three are, and the
/// filters that run do so in the normative order, each once.
pub proof fn law_filters_run_on_their_own(tools: ToolHeader)
    ensures
        ({
            let v = filters::spec_steps(tools);
            &&& v.contains(FilterStep::EfeLinear) <==> tools.efe_linear is Some
            &&& v.contains(FilterStep::Icci) <==> tools.icci is Some
            &&& v.contains(FilterStep::EfeNonlinear) <==> tools.efe_nonlinear is Some
            &&& v.contains(FilterStep::Lef) <==> tools.lef_channel is Some
            &&& forall|i: int, j: int|
                0 <= i < j < v.len() ==> rank(#[trigger] v[i]) < rank(#[trigger] v[j])
        }),
{
    let v = filters::spec_steps(tools);
    let a = filters::step_if(tools.efe_linear is Some, FilterStep::EfeLinear);
    let b = filters::step_if(tools.icci is Some, FilterStep::Icci);
    let c = filters::step_if(tools.efe_nonlinear is Some, FilterStep::EfeNonlinear);
    let d = filters::step_if(tools.lef_channel is Some, FilterStep::Lef);
    assert(v == a + b + c + d);
    if tools.efe_linear is Some {
        assert(v[0] == FilterStep::EfeLinear);
    }
    if tools.icci is Some {
        assert(v[a.len() as int] == FilterStep::Icci);
    }
    if tools.efe_nonlinear is Some {
        assert(v[(a + b).len() as int] == FilterStep::EfeNonlinear);
    }
    if tools.lef_channel is Some {
        assert(v[(a + b + c).len() as int] == FilterStep::Lef);
    }
}

} // verus!
