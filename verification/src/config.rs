//! Run configuration, as collected from the command line.
//!
//! The library receives the configuration as plain values; argument
//! parsing, path handling and file probing happen outside and hand in
//! strings and numbers.

use vstd::prelude::*;

verus! {

/// Everything a coverage run can be asked to do.
#[derive(Clone, Debug)]
pub struct Cli {
    /// Input alignment file path.
    pub input: String,
    /// Optional inclusion-BED path: restrict processing to these regions.
    pub bed: Option<String>,
    /// Optional chromosome-extent BED path: whole-chromosome ranges for
    /// chunking and for the plotted window.
    pub chrom_bed: Option<String>,
    /// Worker count override.
    pub threads: Option<usize>,
    /// Output report path.
    pub output: String,
    /// Target chunk size in bases for parallel processing.
    pub chunk_size: usize,
    /// Emit SVG plots instead of PNG.
    pub svg_output: bool,
    /// Color theme name for plots.
    pub theme: Option<String>,
    /// Show zero-coverage regions in plots.
    pub show_zero_regions: bool,
    /// Skip per-chromosome plotting.
    pub skip_plotting: bool,
    /// Skip the multi-chromosome summary plot.
    pub skip_multi_plot: bool,
    /// Use a logarithmic scale for the multi-chromosome plot.
    pub log_scale: bool,
    /// Also write the summary-statistics report.
    pub cramino_output: bool,
    /// Path for the summary-statistics report.
    pub cramino_output_path: Option<String>,
    /// Genome size in bases, for the report's mean-coverage figure.
    pub genome_size: Option<u64>,
    /// Force the memory-bounded streaming strategy.
    pub force_streaming: bool,
    /// File-size threshold in MB before streaming is chosen.
    pub memory_limit_mb: Option<u64>,
    /// Skip all plot generation.
    pub skip_all_plots: bool,
}

impl Cli {
    /// Whether this run uses the streaming strategy, given the input file's
    /// byte size.
    pub fn should_stream(&self, file_size_bytes: u64) -> (streaming: bool)
        ensures
            streaming == (self.force_streaming || file_size_bytes / crate::mode::BYTES_PER_MB
                > crate::mode::effective_memory_limit_mb(self.memory_limit_mb)),
    {
        crate::mode::should_use_streaming_mode(
            self.force_streaming,
            file_size_bytes,
            self.memory_limit_mb,
        )
    }
}

} // verus!
