use vstd::prelude::*;

use crate::error::PipelineError;
use crate::text::{eq_ignore_ascii_case, lower_ascii, same_ignoring_ascii_case};

verus! {

/// Result of processing a single file.
#[derive(Debug)]
pub struct ProcessResult {
    pub source: String,
    pub dest: String,
    pub bytes: u64,
}

/// Whether a directory entry is selected for processing: it is a regular
/// file whose extension equals `ext` up to ASCII case.
pub fn extension_matches(is_file: bool, extension: Option<&str>, ext: &str) -> (r: bool)
    ensures
        r == (is_file && (extension matches Some(e) && eq_ignore_ascii_case(e@, ext@))),
        r ==> (extension matches Some(e) && e@.len() == ext@.len() && lower_ascii(e@) == lower_ascii(ext@)),
{
    if !is_file {
        return false;
    }
    match extension {
        Some(e) => same_ignoring_ascii_case(e, ext),
        None => false,
    }
}

/// The successful results, in order, or the first failure.
pub fn collect_results(results: Vec<Result<ProcessResult, PipelineError>>) -> (r: Result<
    Vec<ProcessResult>,
    PipelineError,
>)
    ensures
        r matches Ok(v) ==> {
            &&& forall|i: int| 0 <= i < results@.len() ==> results@[i] is Ok
            &&& v@.len() == results@.len()
            &&& forall|i: int| 0 <= i < v@.len() ==> results@[i] == Ok::<ProcessResult, PipelineError>(#[trigger] v@[i])
        },
        r matches Err(e) ==> exists|i: int|
            0 <= i < results@.len() && results@[i] == Err::<ProcessResult, PipelineError>(e)
                && forall|j: int| 0 <= j < i ==> #[trigger] results@[j] is Ok,
{
    let ghost all = results@;
    let mut ok: Vec<ProcessResult> = Vec::new();
    for r in it: results.into_iter()
        invariant
            it.seq() == all,
            ok@.len() == it.index(),
            forall|j: int| 0 <= j < it.index() ==> #[trigger] all[j] == Ok::<ProcessResult, PipelineError>(ok@[j]),
    {
        match r {
            Ok(v) => {
                ok.push(v);
            },
            Err(e) => {
                assert(all[it.index()] == Err::<ProcessResult, PipelineError>(e));
                assert(forall|j: int| 0 <= j < it.index() ==> #[trigger] all[j] is Ok);
                return Err(e);
            },
        }
    }
    assert(ok@.len() == all.len());
    Ok(ok)
}

} // verus!
