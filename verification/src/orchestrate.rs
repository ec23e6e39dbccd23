//! The orchestration loop's decisions: the loop state (next chunk index
//! and cumulative URL count) and its transition per batch. The loop's
//! I/O — reading the master file, launching the crawl, spawning and
//! joining harvest tasks — stays outside the library and merely carries
//! these decisions out.

use vstd::prelude::*;

use crate::planner::LINES_PER_CHUNK;

verus! {

/// The orchestration loop's state: how many chunks are behind (the
/// chunk index counter) and how many URLs were attempted since startup.
pub struct LoopState {
    pub chunk_index: u64,
    pub urls_attempted: u64,
}

/// What one loop iteration decides: crawl the next chunk, or stop and
/// join the harvest tasks.
#[derive(PartialEq, Eq, Structural, Clone, Copy, Debug)]
pub enum StepAction {
    Crawl { chunk_index: u64 },
    Finish,
}

/// The state a run starts from: the chunk counter begins at the number
/// of skipped chunks, so the first produced chunk has the next index.
pub fn init_state(skipped_chunks: u64) -> (st: LoopState)
    ensures
        st.chunk_index == skipped_chunks,
        st.urls_attempted == 0,
{
    LoopState { chunk_index: skipped_chunks, urls_attempted: 0 }
}

/// How many raw input lines a resume point skips.
pub fn resume_skip_lines(skipped_chunks: u64) -> (r: u64)
    requires
        skipped_chunks * LINES_PER_CHUNK <= u64::MAX,
    ensures
        r == skipped_chunks * LINES_PER_CHUNK,
{
    skipped_chunks * (LINES_PER_CHUNK as u64)
}

/// One loop transition: an empty batch ends the dispatch phase; a
/// nonempty one advances the chunk counter exactly once (however many
/// lines were read), crawls under that index, and accounts the batch's
/// surviving URLs.
pub fn advance(st: &mut LoopState, batch_len: usize, kept_count: usize) -> (a: StepAction)
    requires
        old(st).chunk_index < u64::MAX,
        old(st).urls_attempted + kept_count <= u64::MAX,
    ensures
        batch_len == 0 ==> a == StepAction::Finish && *final(st) == *old(st),
        batch_len > 0 ==> {
            &&& a == (StepAction::Crawl { chunk_index: (old(st).chunk_index + 1) as u64 })
            &&& final(st).chunk_index == old(st).chunk_index + 1
            &&& final(st).urls_attempted == old(st).urls_attempted + kept_count
        },
{
    if batch_len == 0 {
        StepAction::Finish
    } else {
        st.chunk_index = st.chunk_index + 1;
        st.urls_attempted = st.urls_attempted + (kept_count as u64);
        StepAction::Crawl { chunk_index: st.chunk_index }
    }
}

} // verus!
