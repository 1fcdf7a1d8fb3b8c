//! How many workers count the inputs.

use vstd::prelude::*;
use vstd::string::StrSliceExecFns;

verus! {

/// Up to this many inputs are counted one after another unless a worker count
/// is given.
const DEFAULT_PARALLEL_FILE_THRESHOLD: usize = 3;

/// Whether a path names standard input.
pub open spec fn is_stdin_path(path: Seq<char>) -> bool {
    path == seq!['-']
}

/// The number of workers for counting `paths`, or `None` to count them one
/// after another on the calling thread.
pub open spec fn worker_count_spec(
    paths: Seq<Seq<char>>,
    jobs: Option<usize>,
    available_parallelism: Option<usize>,
) -> Option<usize> {
    if paths.len() <= 1 || (exists|i: int| 0 <= i < paths.len() && is_stdin_path(#[trigger] paths[i]))
        || jobs == Some(1usize) {
        None
    } else if jobs is None && paths.len() <= 3 {
        None
    } else {
        let wanted = match jobs {
            Some(j) => j,
            None => match available_parallelism {
                Some(p) => p,
                None => 1,
            },
        };
        Some(if wanted <= paths.len() { wanted } else { paths.len() as usize })
    }
}

/// An explicit job count wins over the machine's parallelism: with `jobs` set to
/// `j`, any parallel plan uses `min(j, number of paths)` workers, and the plan
/// is the same whatever parallelism the machine offers.
pub proof fn lemma_jobs_win(
    paths: Seq<Seq<char>>,
    j: usize,
    available: Option<usize>,
    other: Option<usize>,
)
    ensures
        worker_count_spec(paths, Some(j), available) matches Some(w) ==> w as int == if j
            <= paths.len() {
            j as int
        } else {
            paths.len() as int
        },
        worker_count_spec(paths, Some(j), available) == worker_count_spec(paths, Some(j), other),
{
}

/// Without a job count, more than three paths (none of them standard input) are
/// counted by as many workers as the machine offers, or one when that is
/// unknown, but never more than there are paths; up to three are counted
/// serially.
pub proof fn lemma_default_workers(paths: Seq<Seq<char>>, available: Option<usize>)
    requires
        forall|i: int| 0 <= i < paths.len() ==> !is_stdin_path(#[trigger] paths[i]),
    ensures
        paths.len() <= 3 ==> worker_count_spec(paths, None, available) is None,
        paths.len() > 3 ==> worker_count_spec(paths, None, available) == Some(
            {
                let p: int = match available {
                    Some(p) => p as int,
                    None => 1,
                };
                if p <= paths.len() {
                    p as usize
                } else {
                    paths.len() as usize
                }
            },
        ),
{
}

fn is_stdin(path: &String) -> (r: bool)
    ensures
        r == is_stdin_path(path@),
{
    let s = path.as_str();
    if s.unicode_len() != 1 {
        return false;
    }
    let c = s.get_char(0);
    proof {
        if c == '-' {
            assert(s@ =~= seq!['-']);
        }
    }
    c == '-'
}

/// Decides how inputs are counted: one after another when there is at most one
/// path, when standard input (`-`) is among them, or when one job is asked for;
/// also when no job count is given and there are at most three paths. Otherwise
/// by as many workers as `jobs` asks for, or else as `available_parallelism`
/// (the parallelism the machine offers, when known) allows, or else one; never
/// more workers than paths.
pub fn worker_count(
    paths: &[String],
    jobs: Option<usize>,
    available_parallelism: Option<usize>,
) -> (r: Option<usize>)
    ensures
        r == worker_count_spec(paths.deep_view(), jobs, available_parallelism),
{
    let n = paths.len();
    let ghost cells = paths.deep_view();
    let mut has_stdin = false;
    let mut i: usize = 0;
    while i < n
        invariant
            n == paths@.len(),
            cells == paths.deep_view(),
            i <= n,
            has_stdin == exists|j: int| 0 <= j < i && is_stdin_path(#[trigger] cells[j]),
        decreases n - i,
    {
        assert(cells[i as int] == paths@[i as int]@);
        if is_stdin(&paths[i]) {
            has_stdin = true;
        }
        i = i + 1;
    }
    if n <= 1 || has_stdin || jobs == Some(1usize) {
        return None;
    }
    if jobs.is_none() && n <= DEFAULT_PARALLEL_FILE_THRESHOLD {
        return None;
    }
    let wanted = match jobs {
        Some(j) => j,
        None => match available_parallelism {
            Some(p) => p,
            None => 1,
        },
    };
    Some(if wanted <= n { wanted } else { n })
}

} // verus!
