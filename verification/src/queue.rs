//! The worker pool's queue discipline: pending directory reads wait in
//! FIFO order, one job per distinct path. A submission for a path already
//! queued is coalesced into the existing job — its place in line is kept
//! and the newer generation token wins — instead of spawning a duplicate.
//! The threads that drain this queue live outside the library.

use vstd::prelude::*;
use crate::cache::{JobView, LoadJob};
use crate::entry::bytes_eq;

verus! {

/// The views of queued jobs.
pub open spec fn job_views(s: Seq<LoadJob>) -> Seq<JobView> {
    s.map_values(|j: LoadJob| j@)
}

/// Some queued job carries this path.
pub open spec fn queued_path(s: Seq<JobView>, p: Seq<u8>) -> bool {
    exists|i: int| 0 <= i < s.len() && s[i].path == p
}

/// The position of the queued job carrying this path.
pub open spec fn queue_idx(s: Seq<JobView>, p: Seq<u8>) -> int {
    choose|i: int| 0 <= i < s.len() && s[i].path == p
}

/// No two queued jobs carry the same path.
pub open spec fn unique_job_paths(s: Seq<JobView>) -> bool {
    forall|i: int, j: int| 0 <= i < j < s.len() ==> s[i].path != s[j].path
}

/// Pending load jobs, first submitted first out, one per path.
pub struct JobQueue {
    pub jobs: Vec<LoadJob>,
}

impl JobQueue {
    /// The views of the queue, front first.
    pub open spec fn qview(self) -> Seq<JobView> {
        job_views(self.jobs@)
    }

    /// Well-formed queue: one job per path.
    pub open spec fn wf(self) -> bool {
        unique_job_paths(self.qview())
    }

    /// An empty queue.
    pub fn new() -> (r: JobQueue)
        ensures
            r.wf(),
            r.qview() == Seq::<JobView>::empty(),
    {
        let r = JobQueue { jobs: Vec::new() };
        proof {
            assert(r.qview() =~= Seq::<JobView>::empty());
        }
        r
    }

    /// How many jobs wait.
    pub fn len(&self) -> (n: usize)
        ensures
            n == self.qview().len(),
    {
        self.jobs.len()
    }

    /// Queue a job. A job for a path already waiting is coalesced into the
    /// existing one: the queue position is kept and the newer generation
    /// token survives, so no duplicate read is ever spawned.
    pub fn submit(&mut self, job: LoadJob)
        requires
            old(self).wf(),
        ensures
            final(self).wf(),
            ({
                let q0 = old(self).qview();
                let q1 = final(self).qview();
                if queued_path(q0, job.path@) {
                    let i = queue_idx(q0, job.path@);
                    q1 == q0.update(
                        i,
                        (JobView {
                            path: job.path@,
                            token: if job.token > q0[i].token {
                                job.token
                            } else {
                                q0[i].token
                            },
                        }),
                    )
                } else {
                    q1 == q0.push(job@)
                }
            }),
    {
        let ghost q0 = self.qview();
        let mut i: usize = 0;
        while i < self.jobs.len()
            invariant
                i <= self.jobs@.len(),
                self.jobs@ == old(self).jobs@,
                q0 == self.qview(),
                unique_job_paths(q0),
                q0.len() == self.jobs@.len(),
                forall|k: int| 0 <= k < q0.len() ==> q0[k] == self.jobs@[k]@,
                forall|k: int| 0 <= k < i ==> q0[k].path != job.path@,
            decreases self.jobs@.len() - i,
        {
            if bytes_eq(&self.jobs[i].path, &job.path) {
                proof {
                    assert(q0[i as int] == self.jobs@[i as int]@);
                    assert(q0[i as int].path == job.path@);
                    assert(queued_path(q0, job.path@));
                    let k = queue_idx(q0, job.path@);
                    assert(0 <= k < q0.len() && q0[k].path == job.path@);
                    if k != i as int {
                        assert(q0[k].path != q0[i as int].path);
                    }
                    assert(queue_idx(q0, job.path@) == i as int);
                }
                proof {
                    assert((i as int) < q0.len());
                    assert(q0.len() == old(self).jobs@.len());
                }
                let mut waiting = self.jobs.remove(i);
                if job.token > waiting.token {
                    waiting.token = job.token;
                }
                let ghost nj = waiting@;
                self.jobs.insert(i, waiting);
                proof {
                    assert(self.jobs@.len() == old(self).jobs@.len());
                    assert(self.jobs@ =~= old(self).jobs@.update(
                        i as int,
                        self.jobs@[i as int],
                    ));
                    assert(self.qview() =~= q0.update(i as int, nj));
                    assert(unique_job_paths(self.qview())) by {
                        assert forall|a: int, b: int|
                            0 <= a < b < self.qview().len() implies self.qview()[a].path
                            != self.qview()[b].path by {
                            assert(q0[a].path != q0[b].path);
                            assert(self.qview()[a].path == q0[a].path);
                            assert(self.qview()[b].path == q0[b].path);
                        }
                    }
                }
                return ;
            }
            i = i + 1;
        }
        proof {
            if queued_path(q0, job.path@) {
                let k = queue_idx(q0, job.path@);
                assert(0 <= k < q0.len() && q0[k].path == job.path@);
            }
        }
        let ghost jv = job@;
        self.jobs.push(job);
        proof {
            assert(self.qview() =~= q0.push(jv));
            assert(unique_job_paths(self.qview())) by {
                assert forall|a: int, b: int|
                    0 <= a < b < self.qview().len() implies self.qview()[a].path
                    != self.qview()[b].path by {
                    if b < q0.len() {
                        assert(self.qview()[a] == q0[a]);
                        assert(self.qview()[b] == q0[b]);
                    } else {
                        assert(self.qview()[a] == q0[a]);
                        assert(self.qview()[b] == jv);
                    }
                }
            }
        }
    }

    /// Hand out the job that has waited longest, or nothing.
    pub fn pop(&mut self) -> (r: Option<LoadJob>)
        requires
            old(self).wf(),
        ensures
            final(self).wf(),
            ({
                let q0 = old(self).qview();
                let q1 = final(self).qview();
                if q0.len() == 0 {
                    q1 == q0 && r is None
                } else {
                    &&& (r matches Some(j) && j@ == q0[0])
                    &&& q1 == q0.drop_first()
                }
            }),
    {
        let ghost q0 = self.qview();
        if self.jobs.len() == 0 {
            proof {
                assert(self.qview() =~= q0);
            }
            return None;
        }
        let job = self.jobs.remove(0);
        proof {
            assert(self.qview() =~= q0.drop_first());
            assert(unique_job_paths(self.qview())) by {
                assert forall|a: int, b: int|
                    0 <= a < b < self.qview().len() implies self.qview()[a].path
                    != self.qview()[b].path by {
                    assert(self.qview()[a] == q0[a + 1]);
                    assert(self.qview()[b] == q0[b + 1]);
                }
            }
        }
        Some(job)
    }
}

} // verus!
