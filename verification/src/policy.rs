//! The pinned external policy record shape: evaluator ceilings and defaults.

use vstd::prelude::*;
use vstd::string::*;

use crate::options::{ExecutionLimits, ExecutionOptionsError};

verus! {

/// Authored evaluator ceilings. Every value must be positive and fit the JSON
/// numeric profile when incorporated into a policy document.
#[derive(Clone, Copy, Debug, PartialEq, Eq, Structural)]
pub struct EvaluatorLimits {
    /// Maximum evaluator expression depth.
    pub max_expression_depth: u64,
    /// Maximum input value bytes.
    pub max_value_bytes: u64,
    /// Maximum collection elements visited.
    pub max_collection_visits: u64,
    /// Maximum regex pattern bytes.
    pub max_regex_bytes: u64,
    /// Maximum compiled regex representation bytes.
    pub max_regex_compiled_bytes: u64,
    /// Maximum evaluator output bytes.
    pub max_output_bytes: u64,
    /// Maximum deterministic work steps.
    pub max_steps: u64,
}

/// Authored policy fields, validated when a policy document is built.
#[derive(Debug)]
pub struct PolicyFields {
    /// Exact unit used for cost budgets.
    pub cost_unit: String,
    /// Must provide timeout, attempt timeout, and concurrency defaults.
    pub defaults: ExecutionLimits,
    /// Positive deterministic evaluator ceilings.
    pub evaluator_limits: EvaluatorLimits,
    /// Maximum semantic scope depth, root counted as one.
    pub maximum_scope_depth: u64,
    /// Maximum expanded invocation occurrences, including loop multipliers.
    pub maximum_expanded_nodes: u64,
}

/// Policy-schema error with redacted, static field descriptions.
#[derive(Debug)]
#[non_exhaustive]
pub enum PolicyError {
    /// Invalid execution-limit defaults.
    Options(ExecutionOptionsError),
    /// Incorrect native shape.
    InvalidShape(&'static str),
    /// Unknown policy/evaluator field.
    UnknownField,
    /// Missing required field.
    MissingField(&'static str),
    /// Invalid positive value.
    InvalidPositive(&'static str),
    /// Defaults omit a required timeout/attempt-timeout/concurrency field.
    IncompleteDefaults,
}

/// Policy defaults name a timeout, an attempt timeout and a concurrency ceiling.
pub open spec fn spec_defaults_complete(values: Seq<Option<u64>>) -> bool {
    values[5] is Some && values[0] is Some && values[1] is Some
}

/// Checks that policy defaults provide the timeout, attempt timeout and
/// concurrency ceilings.
pub fn validate_defaults(d: &ExecutionLimits) -> (res: Result<(), PolicyError>)
    ensures
        res is Ok <==> spec_defaults_complete(d.spec_values()),
        res is Err ==> res matches Err(PolicyError::IncompleteDefaults),
{
    if d.timeout_ms().is_none() || d.attempt_timeout_ms().is_none() || d.max_concurrency().is_none() {
        Err(PolicyError::IncompleteDefaults)
    } else {
        Ok(())
    }
}

/// A policy number: positive and within `i64`.
pub fn positive(n: u64, field: &'static str) -> (res: Result<i64, PolicyError>)
    ensures
        res is Ok <==> 0 < n <= 0x7fff_ffff_ffff_ffff,
        res matches Ok(x) ==> x == n,
        res is Err ==> (res matches Err(PolicyError::InvalidPositive(f)) && f == field),
{
    if n == 0 || n > 0x7fff_ffff_ffff_ffffu64 {
        Err(PolicyError::InvalidPositive(field))
    } else {
        Ok(n as i64)
    }
}

} // verus!
