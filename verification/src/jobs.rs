//! Job records of the log-processing service: the status last reported
//! for each job, looked up by job id.
use vstd::prelude::*;
use crate::models::seq_eq_str;
use crate::storage::MinioConfig;
use crate::text::{chars_of, push_char};

verus! {

broadcast use vstd::string::group_string_axioms;

/// Stage of a log-processing job.
#[derive(Debug, Clone, Copy, PartialEq, Eq, Structural)]
pub enum ProgressStage {
    Downloading,
    Parsing,
    Converting,
    Uploading,
    Completed,
    Failed,
}

/// Progress of a job as reported to clients.
#[derive(Debug, Clone)]
pub struct JobStatus {
    pub job_id: String,
    pub stage: ProgressStage,
    pub message: String,
    pub progress_percent: i32,
    pub records_processed: i64,
    pub is_completed: bool,
    pub success: Option<bool>,
    pub error: Option<String>,
}

pub struct JobStatusView {
    pub job_id: Seq<char>,
    pub stage: ProgressStage,
    pub message: Seq<char>,
    pub progress_percent: i32,
    pub records_processed: i64,
    pub is_completed: bool,
    pub success: Option<bool>,
    pub error: Option<Seq<char>>,
}

impl View for JobStatus {
    type V = JobStatusView;

    open spec fn view(&self) -> JobStatusView {
        JobStatusView {
            job_id: self.job_id@,
            stage: self.stage,
            message: self.message@,
            progress_percent: self.progress_percent,
            records_processed: self.records_processed,
            is_completed: self.is_completed,
            success: self.success,
            error: match self.error {
                Some(e) => Some(e@),
                None => None,
            },
        }
    }
}

/// The service: object-store settings and the status of every job.
pub struct LogProcessorService {
    minio_config: MinioConfig,
    jobs: Vec<(String, JobStatus)>,
}

pub open spec fn keys_unique(l: Seq<(String, JobStatus)>) -> bool {
    forall|i: int, j: int| 0 <= i < l.len() && 0 <= j < l.len() && i != j ==> l[i].0@ != l[j].0@
}

pub open spec fn has_key(l: Seq<(String, JobStatus)>, k: Seq<char>) -> bool {
    exists|i: int| 0 <= i < l.len() && #[trigger] l[i].0@ == k
}

pub open spec fn key_index(l: Seq<(String, JobStatus)>, k: Seq<char>) -> int {
    choose|i: int| 0 <= i < l.len() && #[trigger] l[i].0@ == k
}

pub open spec fn table_view(l: Seq<(String, JobStatus)>) -> Map<Seq<char>, JobStatusView> {
    Map::new(|k: Seq<char>| has_key(l, k), |k: Seq<char>| l[key_index(l, k)].1@)
}

pub open spec fn not_found_message(job_id: Seq<char>) -> Seq<char> {
    "Job not found: "@ + job_id
}

impl LogProcessorService {
    pub closed spec fn config(&self) -> MinioConfig {
        self.minio_config
    }

    /// The status of each job, by job id.
    pub closed spec fn statuses(&self) -> Map<Seq<char>, JobStatusView> {
        table_view(self.jobs@)
    }

    pub closed spec fn wf(&self) -> bool {
        keys_unique(self.jobs@)
    }

    /// A service with no jobs.
    pub fn new(minio_config: MinioConfig) -> (s: Self)
        ensures
            s.wf(),
            s.statuses() == Map::<Seq<char>, JobStatusView>::empty(),
            s.config() == minio_config,
    {
        let s = LogProcessorService { minio_config, jobs: Vec::new() };
        assert(s.statuses() =~= Map::<Seq<char>, JobStatusView>::empty());
        s
    }

    /// Records `status` as the status of `job_id`, replacing an earlier one.
    pub fn update_job_status(&mut self, job_id: &str, status: JobStatus)
        requires
            old(self).wf(),
        ensures
            final(self).wf(),
            final(self).statuses() == old(self).statuses().insert(job_id@, status@),
            final(self).config() == old(self).config(),
    {
        let ghost old_l = self.jobs@;
        let ghost sv = status@;
        let mut i: usize = 0;
        while i < self.jobs.len()
            invariant
                self.jobs@ == old_l,
                old(self).jobs@ == old_l,
                self.minio_config == old(self).minio_config,
                sv == status@,
                keys_unique(old_l),
                0 <= i <= old_l.len(),
                forall|m: int| 0 <= m < i ==> old_l[m].0@ != job_id@,
            decreases old_l.len() - i,
        {
            if seq_eq_str(self.jobs[i].0.as_str(), job_id) {
                let mut entry = (job_id.to_owned(), status);
                self.jobs.set_and_swap(i, &mut entry);
                let ghost l = self.jobs@;
                assert(keys_unique(l)) by {
                    assert forall|a: int, b: int| 0 <= a < l.len() && 0 <= b < l.len() && a != b implies l[a].0@ != l[b].0@ by {
                        if a == i {
                            assert(l[b] == old_l[b]);
                        } else if b == i {
                            assert(l[a] == old_l[a]);
                        } else {
                            assert(l[a] == old_l[a] && l[b] == old_l[b]);
                        }
                    }
                }
                assert(table_view(l) =~= table_view(old_l).insert(job_id@, sv)) by {
                    assert forall|k: Seq<char>| #[trigger] has_key(l, k) == (has_key(old_l, k) || k == job_id@) by {
                        if has_key(old_l, k) {
                            let m = choose|m: int| 0 <= m < old_l.len() && #[trigger] old_l[m].0@ == k;
                            if m != i {
                                assert(l[m] == old_l[m]);
                            } else {
                                assert(l[m].0@ == k);
                            }
                        }
                        if has_key(l, k) {
                            let m = choose|m: int| 0 <= m < l.len() && #[trigger] l[m].0@ == k;
                            if m != i {
                                assert(old_l[m] == l[m]);
                            }
                        }
                        if k == job_id@ {
                            assert(l[i as int].0@ == k);
                        }
                    }
                    assert forall|k: Seq<char>| has_key(l, k) implies #[trigger] table_view(l)[k] == table_view(old_l).insert(job_id@, sv)[k] by {
                        let m = key_index(l, k);
                        if k == job_id@ {
                            assert(l[i as int].0@ == k);
                            assert(m == i);
                            assert(l[i as int].1@ == sv);
                        } else {
                            assert(m != i);
                            assert(old_l[m] == l[m]);
                            assert(has_key(old_l, k));
                            let m2 = key_index(old_l, k);
                            assert(m2 == m);
                        }
                    }
                }
                return;
            }
            i = i + 1;
        }
        self.jobs.push((job_id.to_owned(), status));
        let ghost l = self.jobs@;
        assert(keys_unique(l)) by {
            assert forall|a: int, b: int| 0 <= a < l.len() && 0 <= b < l.len() && a != b implies l[a].0@ != l[b].0@ by {
                if a < old_l.len() && b < old_l.len() {
                    assert(l[a] == old_l[a] && l[b] == old_l[b]);
                } else if a < old_l.len() {
                    assert(l[a] == old_l[a]);
                } else {
                    assert(l[b] == old_l[b]);
                }
            }
        }
        assert(table_view(l) =~= table_view(old_l).insert(job_id@, sv)) by {
            assert forall|k: Seq<char>| #[trigger] has_key(l, k) == (has_key(old_l, k) || k == job_id@) by {
                if has_key(old_l, k) {
                    let m = choose|m: int| 0 <= m < old_l.len() && #[trigger] old_l[m].0@ == k;
                    assert(l[m] == old_l[m]);
                }
                if has_key(l, k) {
                    let m = choose|m: int| 0 <= m < l.len() && #[trigger] l[m].0@ == k;
                    if m < old_l.len() {
                        assert(old_l[m] == l[m]);
                    }
                }
                if k == job_id@ {
                    assert(l[old_l.len() as int].0@ == k);
                }
            }
            assert forall|k: Seq<char>| has_key(l, k) implies #[trigger] table_view(l)[k] == table_view(old_l).insert(job_id@, sv)[k] by {
                let m = key_index(l, k);
                if k == job_id@ {
                    assert(l[old_l.len() as int].0@ == k);
                    assert(m == old_l.len());
                } else {
                    assert(m < old_l.len());
                    assert(old_l[m] == l[m]);
                    assert(has_key(old_l, k));
                    let m2 = key_index(old_l, k);
                    assert(m2 == m);
                }
            }
        }
    }

    /// The status last recorded for `job_id`, or the message `Job not found: <id>`.
    pub fn get_job_status(&self, job_id: &str) -> (r: Result<&JobStatus, String>)
        requires
            self.wf(),
        ensures
            match self.statuses().get(job_id@) {
                Some(v) => r matches Ok(st) && st@ == v,
                None => r matches Err(m) && m@ == not_found_message(job_id@),
            },
    {
        let mut i: usize = 0;
        while i < self.jobs.len()
            invariant
                keys_unique(self.jobs@),
                0 <= i <= self.jobs@.len(),
                forall|m: int| 0 <= m < i ==> self.jobs@[m].0@ != job_id@,
            decreases self.jobs@.len() - i,
        {
            if seq_eq_str(self.jobs[i].0.as_str(), job_id) {
                proof {
                    let l = self.jobs@;
                    assert(l[i as int].0@ == job_id@);
                    assert(has_key(l, job_id@));
                        let m = key_index(l, job_id@);
                    assert(m == i);
                }
                return Ok(&self.jobs[i].1);
            }
            i = i + 1;
        }
        assert(!has_key(self.jobs@, job_id@));
        let mut msg = String::new();
        let prefix = chars_of("Job not found: ");
        let id = chars_of(job_id);
        let mut k: usize = 0;
        while k < prefix.len()
            invariant
                0 <= k <= prefix@.len(),
                msg@ == prefix@.take(k as int),
            decreases prefix@.len() - k,
        {
            push_char(&mut msg, prefix[k]);
            assert(prefix@.take(k + 1) =~= prefix@.take(k as int).push(prefix@[k as int]));
            k = k + 1;
        }
        let mut j: usize = 0;
        while j < id.len()
            invariant
                0 <= j <= id@.len(),
                msg@ == prefix@ + id@.take(j as int),
            decreases id@.len() - j,
        {
            push_char(&mut msg, id[j]);
            assert(id@.take(j + 1) =~= id@.take(j as int).push(id@[j as int]));
            j = j + 1;
        }
        proof {
            assert(prefix@.take(prefix@.len() as int) =~= prefix@);
            assert(id@.take(id@.len() as int) =~= id@);
        }
        Err(msg)
    }
}

/// A status read after it is written gives what was written, and writing
/// one job's status leaves every other job's as it was.
pub proof fn law_status_read_after_write(
    m: Map<Seq<char>, JobStatusView>,
    id: Seq<char>,
    other: Seq<char>,
    v: JobStatusView,
)
    ensures
        m.insert(id, v).get(id) == Some(v),
        other != id ==> m.insert(id, v).get(other) == m.get(other),
{
}

} // verus!
