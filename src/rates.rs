use vstd::prelude::*;

verus! {

/// Seconds between two samples of the remote rate series.
pub const REMOTE_FETCH_GRANULARITY: u64 = 60;

/// Samples that one remote request returns.
pub const DATA_POINTS_PER_API: u64 = 200;

/// Largest raw response expected from one remote request, in bytes.
pub const MAX_RESPONSE_BYTES: u64 = 12000;

/// Seconds that one remote request covers.
pub const JOB_SPAN: u64 = 12000;

/// A time range, in seconds since the epoch.
#[derive(Clone, Copy, Debug, PartialEq, Eq, Hash, Structural)]
pub struct TimeRange {
    pub start: u64,
    pub end: u64,
}

/// One HTTP header.
#[derive(Clone, Debug, PartialEq, Eq, Hash)]
pub struct HttpHeader {
    pub name: String,
    pub value: String,
}

/// The HTTP methods that an outgoing request may use.
#[derive(Clone, Copy, Debug, PartialEq, Eq, Hash, Structural)]
pub enum HttpMethod {
    GET,
    POST,
    HEAD,
}

/// An outgoing HTTP request as the host's management interface takes it.
#[derive(Clone, Debug)]
pub struct CanisterHttpRequestArgs {
    pub url: String,
    pub max_response_bytes: Option<u64>,
    pub headers: Vec<HttpHeader>,
    pub body: Option<Vec<u8>>,
    pub http_method: HttpMethod,
    pub transform_method_name: Option<String>,
}

/// The answer to an outgoing HTTP request.
#[derive(Clone, Debug, PartialEq, Eq, Hash)]
pub struct CanisterHttpResponsePayload {
    pub status: u64,
    pub headers: Vec<HttpHeader>,
    pub body: Vec<u8>,
}

/// The start of the request window that holds `t`.
pub open spec fn job_start(t: int) -> int {
    t / (JOB_SPAN as int) * (JOB_SPAN as int)
}

/// The timestamps still to fetch, each the start of a request window, each once.
pub struct JobSet {
    jobs: Vec<u64>,
}

impl View for JobSet {
    type V = Set<u64>;

    closed spec fn view(&self) -> Set<u64> {
        self.jobs@.to_set()
    }
}

impl JobSet {
    pub closed spec fn wf(&self) -> bool {
        self.jobs@.no_duplicates()
    }

    /// An empty set of jobs.
    pub fn new() -> (r: JobSet)
        ensures
            r.wf(),
            r@ == Set::<u64>::empty(),
    {
        let r = JobSet { jobs: Vec::new() };
        proof {
            assert(r.jobs@.to_set() =~= Set::<u64>::empty());
        }
        r
    }

    /// How many jobs are waiting.
    pub fn len(&self) -> (r: usize)
        requires
            self.wf(),
        ensures
            r == self@.len(),
    {
        proof {
            self.jobs@.unique_seq_to_set();
        }
        self.jobs.len()
    }

    /// Whether `job` is waiting.
    pub fn contains(&self, job: u64) -> (r: bool)
        ensures
            r == self@.contains(job),
    {
        let mut i: usize = 0;
        while i < self.jobs.len()
            invariant
                i <= self.jobs@.len(),
                forall|j: int| 0 <= j < i ==> self.jobs@[j] != job,
            decreases self.jobs@.len() - i,
        {
            if self.jobs[i] == job {
                proof {
                    assert(self.jobs@.contains(job));
                }
                return true;
            }
            i = i + 1;
        }
        false
    }
}

/// Queues the request window that holds `job`, so that one request fetches
/// every sample near it.
pub fn add_job_to_job_set(set: &mut JobSet, job: u64)
    requires
        old(set).wf(),
    ensures
        final(set).wf(),
        final(set)@ == old(set)@.insert(job_start(job as int) as u64),
{
    let normalized = job / JOB_SPAN * JOB_SPAN;
    if !set.contains(normalized) {
        set.jobs.push(normalized);
        proof {
            let o = old(set).jobs@;
            assert(set.jobs@ == o.push(normalized));
            assert forall|x: u64| set.jobs@.contains(x) == o.to_set().insert(normalized).contains(x) by {
                if x == normalized {
                    assert(set.jobs@[o.len() as int] == x);
                } else if o.contains(x) {
                    let j = choose|j: int| 0 <= j < o.len() && o[j] == x;
                    assert(set.jobs@[j] == x);
                } else if set.jobs@.contains(x) {
                    let j = choose|j: int| 0 <= j < set.jobs@.len() && set.jobs@[j] == x;
                    assert(o[j] == x);
                }
            }
            assert(set.jobs@.to_set() =~= o.to_set().insert(normalized));
        }
    } else {
        proof {
            assert(set.jobs@.to_set() =~= old(set).jobs@.to_set().insert(normalized));
        }
    }
}

} // verus!
