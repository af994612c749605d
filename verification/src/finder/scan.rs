//! How a scan of a directory is configured and shared out among threads.
use vstd::prelude::*;

verus! {

/// The command line of the word finder: whether words that differ in case are different, the
/// path to index, and how many worker threads read files.
#[derive(Debug)]
pub struct Checker {
    pub case_sensitive: bool,
    pub file_path: String,
    pub threads: usize,
}

impl Checker {
    /// There is at least one worker thread.
    pub open spec fn wf(&self) -> bool {
        self.threads >= 1
    }
}

/// How `n` entries are shared out among at most four threads: consecutive ranges of
/// `(n + 3) / 4` entries each, the last one possibly shorter, together covering `0..n`.
pub fn chunk_ranges(n: usize) -> (r: Vec<(usize, usize)>)
    requires
        n <= usize::MAX - 3,
    ensures
        n == 0 ==> r@.len() == 0,
        n > 0 ==> {
            let c = (n + 3) / 4;
            &&& r@.len() > 0
            &&& r@[0].0 == 0
            &&& r@.last().1 == n
            &&& forall|k: int| 0 <= k < r@.len() ==> (#[trigger] r@[k]).0 < r@[k].1 && r@[k].1 - r@[k].0 <= c
            &&& forall|k: int| 0 <= k < r@.len() - 1 ==> (#[trigger] r@[k]).1 == r@[k + 1].0 && r@[k].1 - r@[k].0 == c
        },
{
    let mut r: Vec<(usize, usize)> = Vec::new();
    if n == 0 {
        return r;
    }
    let c = (n + 3) / 4;
    let mut start: usize = 0;
    while start < n
        invariant
            0 < n <= usize::MAX - 3,
            c == (n + 3) / 4,
            c >= 1,
            start <= n,
            r@.len() == 0 ==> start == 0,
            r@.len() > 0 ==> r@[0].0 == 0 && r@.last().1 == start,
            forall|k: int| 0 <= k < r@.len() ==> (#[trigger] r@[k]).0 < r@[k].1 && r@[k].1 - r@[k].0 <= c,
            forall|k: int| 0 <= k < r@.len() - 1 ==> (#[trigger] r@[k]).1 == r@[k + 1].0 && r@[k].1 - r@[k].0 == c,
            r@.len() > 0 && start < n ==> r@.last().1 - r@.last().0 == c,
        decreases n - start,
    {
        let end = if n - start > c { start + c } else { n };
        let ghost before = r@;
        r.push((start, end));
        proof {
            assert forall|k: int| 0 <= k < r@.len() - 1 implies (#[trigger] r@[k]).1 == r@[k + 1].0 && r@[k].1 - r@[k].0 == c by {
                if k < before.len() - 1 {
                    assert(r@[k] == before[k] && r@[k + 1] == before[k + 1]);
                } else {
                    assert(r@[k] == before[k]);
                }
            }
        }
        start = end;
    }
    r
}

} // verus!
