//! The steps of an optimisation run, with its figures and recommendations.
//! Parsing the source and printing the result are left to the caller.

use vstd::prelude::*;
use crate::ast::{Node, NodeView};
use crate::feature_analyzer::{
    all_on, extract_feature_config, feature_config_spec, flags_of, should_skip_all_transformations,
    FeatureDetectionResult, FeatureDetectionView,
};
use crate::json::{Json, JsonView};
use crate::mutation_tracker::{
    analyze_variable_usage, compared, import_bindings, track_eliminated_dependencies, usages_of,
    MutationTracker, TrackerView,
};
use crate::text::{decimal, decimal_text, lemma_texts_push, texts};
use crate::webpack_tree_shaker::{
    perform_webpack_tree_shaking, shaken_unit, shaking_stats, StatsView, WebpackTreeShakingStats,
};

verus! {

/// The figures of an optimisation run.
#[derive(Debug)]
pub struct OptimizationStatistics {
    pub original_size: usize,
    pub optimized_size: usize,
    /// The original size less the optimised size; negative where the text
    /// has grown.
    pub size_reduction_bytes: i128,
    pub mutations_applied: usize,
    pub modules_eliminated: usize,
    pub imports_eliminated: usize,
    pub fast_path_used: bool,
}

impl OptimizationStatistics {
    /// The figures before anything was done.
    pub fn new(original_size: usize) -> (s: OptimizationStatistics)
        ensures
            s == (OptimizationStatistics {
                original_size,
                optimized_size: original_size,
                size_reduction_bytes: 0,
                mutations_applied: 0,
                modules_eliminated: 0,
                imports_eliminated: 0,
                fast_path_used: false,
            }),
    {
        OptimizationStatistics {
            original_size,
            optimized_size: original_size,
            size_reduction_bytes: 0,
            mutations_applied: 0,
            modules_eliminated: 0,
            imports_eliminated: 0,
            fast_path_used: false,
        }
    }

    /// Records the size of the optimised text.
    pub fn finalize(&mut self, optimized_size: usize)
        ensures
            *final(self) == (OptimizationStatistics {
                optimized_size,
                size_reduction_bytes: (old(self).original_size - optimized_size) as i128,
                ..*old(self)
            }),
            final(self).size_reduction_bytes == old(self).original_size as int
                - optimized_size as int,
    {
        self.optimized_size = optimized_size;
        self.size_reduction_bytes = self.original_size as i128 - optimized_size as i128;
    }

    /// Whether the text shrank by more than a fifth.
    pub open spec fn is_significant(self) -> bool {
        self.original_size > 0 && self.size_reduction_bytes * 100 > 20 * self.original_size
    }

    /// Whether the text shrank by less than a twentieth, or not at all.
    pub open spec fn is_limited(self) -> bool {
        self.original_size == 0 || self.size_reduction_bytes * 100 < 5 * self.original_size
    }

    /// The reduction in hundredths of a per cent of the original size,
    /// rounded towards zero. Zero where the text was empty.
    pub fn size_reduction_bp(&self) -> (r: i128)
        requires
            -(usize::MAX as int) <= self.size_reduction_bytes <= usize::MAX as int,
        ensures
            self.original_size == 0 ==> r == 0,
            self.original_size > 0 && self.size_reduction_bytes >= 0 ==> r == (
            self.size_reduction_bytes as int * 10000) / self.original_size as int,
            self.original_size > 0 && self.size_reduction_bytes < 0 ==> r == -((
            -self.size_reduction_bytes as int * 10000) / self.original_size as int),
    {
        if self.original_size == 0 {
            0
        } else if self.size_reduction_bytes >= 0 {
            (self.size_reduction_bytes * 10000) / (self.original_size as i128)
        } else {
            -(((-self.size_reduction_bytes) * 10000) / (self.original_size as i128))
        }
    }
}

/// How a run went.
#[derive(Debug)]
pub enum PipelineOutcome {
    /// Every feature is enabled: the unit was left as it is.
    FastPath,
    /// The unit was shaken; these are the figures.
    Shaken(WebpackTreeShakingStats),
}

pub ghost enum OutcomeView {
    FastPath,
    Shaken(StatsView),
    Failed(Seq<char>),
}

/// How a run went, as a plain value.
pub open spec fn outcome_view(r: Result<PipelineOutcome, String>) -> OutcomeView {
    match r {
        Ok(PipelineOutcome::FastPath) => OutcomeView::FastPath,
        Ok(PipelineOutcome::Shaken(stats)) => OutcomeView::Shaken(stats@),
        Err(e) => OutcomeView::Failed(e@),
    }
}

/// What a run does to the figures, the record and the unit, and how it
/// ends. Where the configuration has values and all are truthy, the unit
/// is left as it is and the figures note the fast path. Where the
/// configuration has no value at all, the run fails and changes nothing.
/// Otherwise the unit is shaken by its own graph, and every import that
/// the shaking took away is recorded.
pub open spec fn run_spec(
    statistics: OptimizationStatistics,
    tracker: TrackerView,
    config: JsonView,
    program: NodeView,
    statistics_after: OptimizationStatistics,
    tracker_after: TrackerView,
    program_after: NodeView,
    outcome: OutcomeView,
) -> bool {
    let flags = flags_of(config);
    if flags.len() > 0 && all_on(flags) {
        &&& outcome == OutcomeView::FastPath
        &&& program_after == program
        &&& tracker_after == tracker
        &&& statistics_after == (OptimizationStatistics { fast_path_used: true, ..statistics })
    } else if flags.len() == 0 {
        &&& outcome == OutcomeView::Failed("No configuration values found"@)
        &&& program_after == program
        &&& tracker_after == tracker
        &&& statistics_after == statistics
    } else {
        &&& outcome == OutcomeView::Shaken(shaking_stats(program))
        &&& program_after == shaken_unit(program)
        &&& tracker_after == compared(
            tracker,
            usages_of(import_bindings(program)),
            usages_of(import_bindings(program_after)),
            usages_of(import_bindings(program)).len() as int,
        )
        &&& statistics_after == statistics
    }
}

/// The steps of an optimisation run and what they found.
#[derive(Debug)]
pub struct OptimizationPipeline {
    pub feature_config: Option<FeatureDetectionResult>,
    pub mutation_tracker: MutationTracker,
    pub statistics: OptimizationStatistics,
}

/// The recommendations after a run: a note where something was optimised,
/// a note on the gain in size, and the numbers of modules and of changes
/// where there were any.
pub open spec fn run_recommendations(
    should_optimize: bool,
    statistics: OptimizationStatistics,
    has_mutations: bool,
) -> Seq<Seq<char>> {
    let a = if should_optimize {
        seq!["Code optimization was applied based on feature configuration"@]
    } else {
        seq![]
    };
    let b = if statistics.is_significant() {
        a.push(
            "Significant size reduction achieved - consider this configuration for production"@,
        )
    } else if statistics.is_limited() {
        a.push("Limited optimization benefit - review feature configuration"@)
    } else {
        a
    };
    let c = if statistics.modules_eliminated > 0 {
        b.push(
            "Successfully eliminated "@ + decimal(statistics.modules_eliminated as nat)
                + " unused modules"@,
        )
    } else {
        b
    };
    if has_mutations {
        c.push(
            "Applied "@ + decimal(statistics.mutations_applied as nat) + " targeted optimizations"@,
        )
    } else {
        c
    }
}

impl OptimizationPipeline {
    pub fn new(original_size: usize) -> (p: OptimizationPipeline)
        ensures
            p.feature_config is None,
            p.mutation_tracker@ == TrackerView::empty(),
            p.statistics == (OptimizationStatistics {
                original_size,
                optimized_size: original_size,
                size_reduction_bytes: 0,
                mutations_applied: 0,
                modules_eliminated: 0,
                imports_eliminated: 0,
                fast_path_used: false,
            }),
    {
        OptimizationPipeline {
            feature_config: None,
            mutation_tracker: MutationTracker::new(),
            statistics: OptimizationStatistics::new(original_size),
        }
    }

    /// Runs the steps on a unit. Where the configuration has values and all
    /// are truthy, the unit is left as it is. Where the configuration has no
    /// value at all, the run fails. Otherwise the unit is shaken, and the
    /// imports that the shaking eliminated are recorded.
    pub fn optimize(&mut self, config: &Json, program: &mut Node) -> (r: Result<
        PipelineOutcome,
        String,
    >)
        ensures
            run_spec(
                old(self).statistics,
                old(self).mutation_tracker@,
                config@,
                old(program)@,
                final(self).statistics,
                final(self).mutation_tracker@,
                final(program)@,
                outcome_view(r),
            ),
            r matches Ok(PipelineOutcome::Shaken(_)) ==> (final(self).feature_config matches Some(
                found,
            ) && feature_config_spec(config@) == Ok::<FeatureDetectionView, Seq<char>>(found@)),
            !(r matches Ok(PipelineOutcome::Shaken(_))) ==> final(self).feature_config == old(
                self,
            ).feature_config,
    {
        if should_skip_all_transformations(config) {
            self.statistics.fast_path_used = true;
            return Ok(PipelineOutcome::FastPath);
        }
        match extract_feature_config(config) {
            Err(e) => {
                return Err(e);
            },
            Ok(found) => {
                self.feature_config = Some(found);
            },
        }
        let before = analyze_variable_usage(program);
        let stats = perform_webpack_tree_shaking(program);
        let after = analyze_variable_usage(program);
        track_eliminated_dependencies(&before, &after, &mut self.mutation_tracker);
        Ok(PipelineOutcome::Shaken(stats))
    }

    /// Brings the figures up to date once the optimised text is known.
    pub fn update_statistics(
        &mut self,
        optimized_size: usize,
        tree_shaking_stats: &WebpackTreeShakingStats,
    )
        ensures
            final(self).statistics == (OptimizationStatistics {
                optimized_size,
                size_reduction_bytes: (old(self).statistics.original_size - optimized_size) as i128,
                mutations_applied: old(self).mutation_tracker.mutations@.len() as usize,
                modules_eliminated: tree_shaking_stats.unused_modules,
                imports_eliminated: old(self).mutation_tracker.eliminated_imports@.len() as usize,
                ..old(self).statistics
            }),
            final(self).mutation_tracker == old(self).mutation_tracker,
            final(self).feature_config == old(self).feature_config,
    {
        self.statistics.finalize(optimized_size);
        self.statistics.mutations_applied = self.mutation_tracker.mutations.len();
        self.statistics.modules_eliminated = tree_shaking_stats.unused_modules;
        self.statistics.imports_eliminated = self.mutation_tracker.eliminated_imports.len();
    }

    /// Writes the recommendations after a run.
    pub fn generate_recommendations(&self, feature_config: &FeatureDetectionResult) -> (out: Vec<
        String,
    >)
        ensures
            texts(out@) == run_recommendations(
                feature_config.should_optimize,
                self.statistics,
                self.mutation_tracker@.mutations.len() > 0,
            ),
    {
        let mut out: Vec<String> = Vec::new();
        assert(texts(out@) =~= seq![]);
        if feature_config.should_optimize {
            let line = "Code optimization was applied based on feature configuration".to_owned();
            proof {
                lemma_texts_push(out@, line);
            }
            out.push(line);
        }
        let size = self.statistics.original_size as i128;
        let gain = self.statistics.size_reduction_bytes;
        let significant = size > 0 && gain > 0 && (gain > size || gain * 100 > 20 * size);
        let limited = size == 0 || gain <= 0 || (gain <= size && gain * 100 < 5 * size);
        assert(significant == self.statistics.is_significant()) by (nonlinear_arith)
            requires
                0 <= size <= usize::MAX,
                size == self.statistics.original_size,
                gain == self.statistics.size_reduction_bytes,
                significant == (size > 0 && gain > 0 && (gain > size || gain * 100 > 20 * size)),
                self.statistics.is_significant() == (self.statistics.original_size > 0
                    && self.statistics.size_reduction_bytes * 100 > 20
                    * self.statistics.original_size),
        ;
        assert(limited == self.statistics.is_limited()) by (nonlinear_arith)
            requires
                0 <= size <= usize::MAX,
                size == self.statistics.original_size,
                gain == self.statistics.size_reduction_bytes,
                limited == (size == 0 || gain <= 0 || (gain <= size && gain * 100 < 5 * size)),
                self.statistics.is_limited() == (self.statistics.original_size == 0
                    || self.statistics.size_reduction_bytes * 100 < 5
                    * self.statistics.original_size),
        ;
        if significant {
            let line = "Significant size reduction achieved - consider this configuration for production".to_owned();
            proof {
                lemma_texts_push(out@, line);
            }
            out.push(line);
        } else if limited {
            let line = "Limited optimization benefit - review feature configuration".to_owned();
            proof {
                lemma_texts_push(out@, line);
            }
            out.push(line);
        }
        if self.statistics.modules_eliminated > 0 {
            let mut line = "Successfully eliminated ".to_owned();
            line.append(decimal_text(self.statistics.modules_eliminated as u128).as_str());
            line.append(" unused modules");
            proof {
                lemma_texts_push(out@, line);
            }
            out.push(line);
        }
        if self.mutation_tracker.has_mutations() {
            let mut line = "Applied ".to_owned();
            line.append(decimal_text(self.statistics.mutations_applied as u128).as_str());
            line.append(" targeted optimizations");
            proof {
                lemma_texts_push(out@, line);
            }
            out.push(line);
        }
        out
    }
}

/// Runs the steps of the pipeline on a unit, from fresh figures and an
/// empty record.
pub fn run_optimization_pipeline(original_size: usize, config: &Json, program: &mut Node) -> (r: (
    OptimizationPipeline,
    Result<PipelineOutcome, String>,
))
    ensures
        run_spec(
            OptimizationStatistics {
                original_size,
                optimized_size: original_size,
                size_reduction_bytes: 0,
                mutations_applied: 0,
                modules_eliminated: 0,
                imports_eliminated: 0,
                fast_path_used: false,
            },
            TrackerView::empty(),
            config@,
            old(program)@,
            r.0.statistics,
            r.0.mutation_tracker@,
            final(program)@,
            outcome_view(r.1),
        ),
{
    let mut pipeline = OptimizationPipeline::new(original_size);
    let outcome = pipeline.optimize(config, program);
    (pipeline, outcome)
}

/// Which steps an optimisation run may take.
#[derive(Debug)]
pub struct AdvancedOptimizationPipeline {
    pub enable_tree_shaking: bool,
    pub enable_dead_code_elimination: bool,
    pub enable_module_graph_analysis: bool,
    pub enable_variable_tracking: bool,
}

impl Default for AdvancedOptimizationPipeline {
    fn default() -> (p: AdvancedOptimizationPipeline)
        ensures
            p.enable_tree_shaking,
            p.enable_dead_code_elimination,
            p.enable_module_graph_analysis,
            p.enable_variable_tracking,
    {
        AdvancedOptimizationPipeline {
            enable_tree_shaking: true,
            enable_dead_code_elimination: true,
            enable_module_graph_analysis: true,
            enable_variable_tracking: true,
        }
    }
}

impl AdvancedOptimizationPipeline {
    /// A pipeline that takes every step.
    pub fn new() -> (p: AdvancedOptimizationPipeline)
        ensures
            p.enable_tree_shaking,
            p.enable_dead_code_elimination,
            p.enable_module_graph_analysis,
            p.enable_variable_tracking,
    {
        AdvancedOptimizationPipeline {
            enable_tree_shaking: true,
            enable_dead_code_elimination: true,
            enable_module_graph_analysis: true,
            enable_variable_tracking: true,
        }
    }

    /// Runs the steps of the pipeline on a unit. Whatever is enabled, the
    /// steps are those of `run_optimization_pipeline`.
    pub fn optimize_with_config(&self, original_size: usize, config: &Json, program: &mut Node) -> (r:
        (OptimizationPipeline, Result<PipelineOutcome, String>))
        ensures
            run_spec(
                OptimizationStatistics {
                    original_size,
                    optimized_size: original_size,
                    size_reduction_bytes: 0,
                    mutations_applied: 0,
                    modules_eliminated: 0,
                    imports_eliminated: 0,
                    fast_path_used: false,
                },
                TrackerView::empty(),
                config@,
                old(program)@,
                r.0.statistics,
                r.0.mutation_tracker@,
                final(program)@,
                outcome_view(r.1),
            ),
    {
        run_optimization_pipeline(original_size, config, program)
    }
}

} // verus!
