//! Evaluation metric categories, aggregation strategies and evaluators.

use vstd::prelude::*;

verus! {

/// Categories of evaluation metrics.
#[derive(Debug, Clone, Copy, PartialEq, Eq, Structural, Hash)]
pub enum MetricCategory {
    /// How well the output aligns with the task goal.
    GoalAlignment,
    /// Quality of the output text.
    SemanticQuality,
    /// Efficiency of the reasoning process.
    ReasoningEfficiency,
    /// Accuracy of tool selection.
    ToolSelection,
    /// Quality of parameter extraction for tool calls.
    ParameterExtraction,
    /// Overall tool invocation correctness.
    ToolInvocation,
}

/// The human-readable title of a metric category.
pub open spec fn title_spec(c: MetricCategory) -> Seq<char> {
    match c {
        MetricCategory::GoalAlignment => "Goal Alignment"@,
        MetricCategory::SemanticQuality => "Semantic Quality"@,
        MetricCategory::ReasoningEfficiency => "Reasoning Efficiency"@,
        MetricCategory::ToolSelection => "Tool Selection"@,
        MetricCategory::ParameterExtraction => "Parameter Extraction"@,
        MetricCategory::ToolInvocation => "Tool Invocation"@,
    }
}

impl MetricCategory {
    /// The human-readable title of the category.
    pub fn title(&self) -> (s: &'static str)
        ensures
            s@ == title_spec(*self),
    {
        match self {
            MetricCategory::GoalAlignment => "Goal Alignment",
            MetricCategory::SemanticQuality => "Semantic Quality",
            MetricCategory::ReasoningEfficiency => "Reasoning Efficiency",
            MetricCategory::ToolSelection => "Tool Selection",
            MetricCategory::ParameterExtraction => "Parameter Extraction",
            MetricCategory::ToolInvocation => "Tool Invocation",
        }
    }
}

/// Strategy for aggregating scores across tasks.
#[derive(Debug, Clone, Copy, PartialEq, Eq, Structural)]
pub enum AggregationStrategy {
    /// Equal weight to all tasks.
    SimpleAverage,
    /// Weight by task complexity.
    WeightedByComplexity,
    /// Best scores across tasks.
    BestPerformance,
    /// Worst scores across tasks.
    WorstPerformance,
}

impl Default for AggregationStrategy {
    fn default() -> (s: Self)
        ensures
            s == AggregationStrategy::SimpleAverage,
    {
        AggregationStrategy::SimpleAverage
    }
}

/// Evaluates alignment with the task goal.
#[derive(Debug)]
pub struct GoalAlignmentEvaluator;

/// Evaluates the semantic quality of the output.
#[derive(Debug)]
pub struct SemanticQualityEvaluator;

/// Evaluates the efficiency of the reasoning process.
#[derive(Debug)]
pub struct ReasoningEfficiencyEvaluator;

/// Evaluates tool selection accuracy.
#[derive(Debug)]
pub struct ToolSelectionEvaluator;

/// Evaluates parameter extraction quality.
#[derive(Debug)]
pub struct ParameterExtractionEvaluator;

/// Evaluates overall tool invocation correctness.
#[derive(Debug)]
pub struct ToolInvocationEvaluator;

impl GoalAlignmentEvaluator {
    /// The category this evaluator measures.
    pub fn metric_category(&self) -> (c: MetricCategory)
        ensures
            c == MetricCategory::GoalAlignment,
    {
        MetricCategory::GoalAlignment
    }
}

impl SemanticQualityEvaluator {
    /// The category this evaluator measures.
    pub fn metric_category(&self) -> (c: MetricCategory)
        ensures
            c == MetricCategory::SemanticQuality,
    {
        MetricCategory::SemanticQuality
    }
}

impl ReasoningEfficiencyEvaluator {
    /// The category this evaluator measures.
    pub fn metric_category(&self) -> (c: MetricCategory)
        ensures
            c == MetricCategory::ReasoningEfficiency,
    {
        MetricCategory::ReasoningEfficiency
    }
}

impl ToolSelectionEvaluator {
    /// The category this evaluator measures.
    pub fn metric_category(&self) -> (c: MetricCategory)
        ensures
            c == MetricCategory::ToolSelection,
    {
        MetricCategory::ToolSelection
    }
}

impl ParameterExtractionEvaluator {
    /// The category this evaluator measures.
    pub fn metric_category(&self) -> (c: MetricCategory)
        ensures
            c == MetricCategory::ParameterExtraction,
    {
        MetricCategory::ParameterExtraction
    }
}

impl ToolInvocationEvaluator {
    /// The category this evaluator measures.
    pub fn metric_category(&self) -> (c: MetricCategory)
        ensures
            c == MetricCategory::ToolInvocation,
    {
        MetricCategory::ToolInvocation
    }
}

} // verus!
