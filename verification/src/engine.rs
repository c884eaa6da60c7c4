//! The end-to-end pipeline: tokenize, analyze, parse, plan, render.

use vstd::prelude::*;
use crate::diagnostic::{Diagnostic, SpecDiag, diag_view, spec_format_of};
use crate::model::BaseContext;
use crate::planner::{ChangePlanner, spec_plan};
use crate::codegen::{generate_commands, spec_generate_commands};
use crate::input_parser::{parse_change_input, spec_parse_change_input};
use crate::semantics::{get_bridge_domains, spec_bridge_domains, bds_view, BridgeDomain};
use crate::parse::{tokenize, spec_tokenize_plain};
use crate::model::{spec_from_analysis, bc_view, cs_view, plan_view};

verus! {

/// Model of the whole pipeline: the rendered command text for the given
/// base configuration and change input, or the first diagnostic hit.
pub open spec fn spec_generate(base: Seq<char>, change: Seq<char>) -> Result<Seq<char>, SpecDiag> {
    let base_nodes = spec_tokenize_plain(base);
    let domains = match spec_bridge_domains(base_nodes) {
        Some(d) => d,
        None => Seq::empty(),
    };
    let bc = spec_from_analysis(domains, base_nodes);
    match spec_parse_change_input(change) {
        Err(e) => Err(e),
        Ok(cs) => match spec_plan(cs, bc) {
            Err(e) => Err(e),
            Ok(p) => Ok(spec_generate_commands(p, cs)),
        },
    }
}

/// High-level entry point for generating device commands.
pub struct ChangeEngine;

impl ChangeEngine {
    /// Generate CLI commands from base configuration text and simplified
    /// change input.
    pub fn generate(base_config: &str, change_input: &str) -> (r: Result<String, Diagnostic>)
        requires
            base_config@.len() < 0xFFFF_FFFFusize,
            change_input@.len() < 0xFFFF_FFFFusize,
        ensures
            match r {
                Ok(s) => spec_generate(base_config@, change_input@) == Ok::<_, SpecDiag>(s@),
                Err(d) => spec_generate(base_config@, change_input@) == Err::<Seq<char>, _>(
                    diag_view(d),
                ),
            },
    {
        let base_nodes = tokenize(base_config);
        let domains: Vec<BridgeDomain> = match get_bridge_domains(&base_nodes) {
            Some(ds) => ds,
            None => Vec::new(),
        };
        proof {
            if spec_bridge_domains(crate::parse::pnodes_view(base_nodes@)) is None {
                assert(bds_view(domains@) =~= Seq::<crate::semantics::SpecBridgeDomain>::empty());
            }
        }
        let base_ctx = BaseContext::from_analysis(&domains, &base_nodes);
        let change_spec = match parse_change_input(change_input) {
            Ok(cs) => cs,
            Err(d) => {
                return Err(d);
            },
        };
        let planner = ChangePlanner::new(&change_spec, &base_ctx);
        let plan = match planner.plan() {
            Ok(p) => p,
            Err(d) => {
                return Err(d);
            },
        };
        Ok(generate_commands(&plan, &change_spec))
    }
}

/// Generate commands, rendering any diagnostic to its message text.
pub fn generate_change(base_config: &str, change_input: &str) -> (r: Result<String, String>)
    requires
        base_config@.len() < 0xFFFF_FFFFusize,
        change_input@.len() < 0xFFFF_FFFFusize,
    ensures
        match r {
            Ok(s) => spec_generate(base_config@, change_input@) == Ok::<_, SpecDiag>(s@),
            Err(m) => spec_generate(base_config@, change_input@) matches Err(e) && m@
                == spec_format_of(e),
        },
{
    match ChangeEngine::generate(base_config, change_input) {
        Ok(s) => Ok(s),
        Err(d) => Err(d.format()),
    }
}

} // verus!
