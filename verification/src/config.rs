use vstd::prelude::*;

verus! {

/// Global pipeline configuration (loaded from pipeline.json or env).
#[derive(Debug, Clone)]
pub struct PipelineConfig {
    /// Maximum parallel threads for batch operations.
    pub max_threads: usize,
    /// Default asset root directory.
    pub asset_root: String,
    /// Enable verbose logging.
    pub verbose: bool,
}

/// The thread count used when the machine's parallelism is unknown.
pub const FALLBACK_THREADS: usize = 4;

/// The number of threads to use: the available parallelism when it is known
/// (never zero, as `std::thread::available_parallelism` gives it), else
/// `FALLBACK_THREADS`.
pub fn num_cpus(available: Option<usize>) -> (n: usize)
    requires
        available matches Some(k) ==> k > 0,
    ensures
        n > 0,
        n == match available {
            Some(k) => k,
            None => FALLBACK_THREADS,
        },
{
    match available {
        Some(k) => k,
        None => FALLBACK_THREADS,
    }
}

impl PipelineConfig {
    /// The default configuration on a machine whose available parallelism is
    /// `available`: that many threads (or the fallback), asset root `.`, not
    /// verbose.
    pub fn default_with(available: Option<usize>) -> (c: PipelineConfig)
        requires
            available matches Some(k) ==> k > 0,
        ensures
            c.max_threads == match available {
                Some(k) => k,
                None => FALLBACK_THREADS,
            },
            c.asset_root@ == "."@,
            !c.verbose,
    {
        PipelineConfig { max_threads: num_cpus(available), asset_root: ".".to_owned(), verbose: false }
    }

    /// The configuration read from a file when it parsed, else the default.
    pub fn or_default(parsed: Option<PipelineConfig>, available: Option<usize>) -> (c: PipelineConfig)
        requires
            available matches Some(k) ==> k > 0,
        ensures
            parsed matches Some(p) ==> c == p,
            parsed is None ==> {
                &&& c.max_threads == match available {
                    Some(k) => k,
                    None => FALLBACK_THREADS,
                }
                &&& c.asset_root@ == "."@
                &&& !c.verbose
            },
    {
        match parsed {
            Some(p) => p,
            None => PipelineConfig::default_with(available),
        }
    }
}

} // verus!
