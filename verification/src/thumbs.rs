//! The bookkeeping of thumbnail decoding: which images are wanted, which
//! jobs wait, and which one a worker takes next. Cheap sources first for
//! everything on screen, real decodes after that; nearby jobs go first.
//! The workers, the lock around this state and the decoding are the
//! caller's.

use vstd::prelude::*;
use std::collections::HashSet;

use crate::model::ImageId;

verus! {

broadcast use vstd::std_specs::hash::group_hash_axioms;

/// Cheap sources first for everything on screen, real decodes after that.
#[derive(Clone, Copy, Debug, PartialEq, Eq, Structural)]
pub enum Stage {
    Quick,
    Full,
}

/// One image to make a thumbnail of.
#[derive(Clone, Debug, PartialEq, Eq)]
pub struct Job {
    pub id: ImageId,
    pub path: String,
    /// Grid position the thumbnail was requested for.
    pub position: usize,
    pub stage: Stage,
}

/// A job seen as values.
pub struct JobModel {
    pub id: ImageId,
    pub path: Seq<char>,
    pub position: usize,
    pub stage: Stage,
}

pub open spec fn job_model(j: Job) -> JobModel {
    JobModel { id: j.id, path: j.path@, position: j.position, stage: j.stage }
}

/// Quick before full.
pub open spec fn rank(s: Stage) -> nat {
    match s {
        Stage::Quick => 0,
        Stage::Full => 1,
    }
}

/// How far `position` is from `focus`.
pub open spec fn distance(position: usize, focus: usize) -> nat {
    if position >= focus {
        (position - focus) as nat
    } else {
        (focus - position) as nat
    }
}

/// Does job `a` go before job `b`: an earlier stage, or the same stage
/// nearer the focus?
pub open spec fn before(a: JobModel, b: JobModel, focus: usize) -> bool {
    rank(a.stage) < rank(b.stage) || (rank(a.stage) == rank(b.stage) && distance(a.position, focus) < distance(
        b.position,
        focus,
    ))
}

/// The place of the job among the first `k` of `q` that goes first; the
/// earliest of equals.
pub open spec fn best_of(q: Seq<JobModel>, focus: usize, k: nat) -> int
    decreases k,
{
    if k <= 1 {
        0
    } else {
        let b = best_of(q, focus, (k - 1) as nat);
        if before(q[k - 1], q[b], focus) {
            k - 1
        } else {
            b
        }
    }
}

/// The waiting jobs and the wanted images, shared by the workers.
pub struct Thumbnailer {
    queue: Vec<Job>,
    /// Requested and not cancelled; a worker may be busy with it right now.
    wanted: HashSet<ImageId>,
    /// Grid position at the centre of the viewport; nearby jobs go first.
    focus: usize,
}

impl Thumbnailer {
    /// The waiting jobs, in the order they were queued but for takes.
    pub closed spec fn jobs(&self) -> Seq<JobModel> {
        self.queue@.map_values(|j: Job| job_model(j))
    }

    /// The images requested and not cancelled or finished.
    pub closed spec fn wanted_ids(&self) -> Set<ImageId> {
        self.wanted@
    }

    /// The grid position jobs are taken nearest to.
    pub closed spec fn focus_at(&self) -> usize {
        self.focus
    }

    /// Nothing wanted, nothing waiting, the focus at the top.
    pub fn new() -> (t: Self)
        ensures
            t.jobs() == Seq::<JobModel>::empty(),
            t.wanted_ids() == Set::<ImageId>::empty(),
            t.focus_at() == 0,
    {
        let t = Thumbnailer { queue: Vec::new(), wanted: HashSet::new(), focus: 0 };
        assert(t.jobs() =~= Seq::<JobModel>::empty());
        t
    }

    /// Centre the order of work on grid position `position`.
    pub fn set_focus(&mut self, position: usize)
        ensures
            final(self).focus_at() == position,
            final(self).jobs() == old(self).jobs(),
            final(self).wanted_ids() == old(self).wanted_ids(),
    {
        self.focus = position;
    }

    /// Ask for a thumbnail of image `id` at grid position `position`.
    /// `have_standin`: a placeholder is already showing, go straight to the
    /// real decode. An image already asked for is not queued again; its
    /// waiting job, if any, moves to the new position. Returns whether a
    /// job was queued, for the caller to wake a worker.
    pub fn request(&mut self, id: ImageId, path: String, position: usize, have_standin: bool) -> (queued: bool)
        ensures
            queued == !old(self).wanted_ids().contains(id),
            final(self).wanted_ids() == old(self).wanted_ids().insert(id),
            final(self).focus_at() == old(self).focus_at(),
            queued ==> final(self).jobs() == old(self).jobs().push(
                JobModel { id, path: path@, position, stage: if have_standin { Stage::Full } else { Stage::Quick } },
            ),
            !queued ==> match first_with_id(old(self).jobs(), id) {
                Some(k) => final(self).jobs() == old(self).jobs().update(
                    k,
                    JobModel { position, ..old(self).jobs()[k] },
                ),
                None => final(self).jobs() == old(self).jobs(),
            },
    {
        let stage = if have_standin {
            Stage::Full
        } else {
            Stage::Quick
        };
        let ghost before = self.queue@;
        if self.wanted.insert(id) {
            let job = Job { id, path, position, stage };
            self.queue.push(job);
            proof {
                crate::text::lemma_map_push(before, job, |j: Job| job_model(j));
            }
            return true;
        }
        let mut k: usize = 0;
        while k < self.queue.len()
            invariant
                k <= self.queue.len(),
                self.queue@ == before,
                before == old(self).queue@,
                self.wanted@ == old(self).wanted@,
                old(self).wanted@.contains(id),
                self.focus == old(self).focus,
                forall|j: int| 0 <= j < k ==> before[j].id != id,
            decreases self.queue.len() - k,
        {
            if self.queue[k].id == id {
                proof {
                    let q = before.map_values(|j: Job| job_model(j));
                    assert forall|j: int| 0 <= j < k implies q[j].id != id by {
                        assert(q[j] == job_model(before[j]));
                    }
                    lemma_first_id(q, id, k as int);
                }
                let mut job = copy_job(&self.queue[k]);
                job.position = position;
                self.queue.set(k, job);
                proof {
                    assert(self.queue@.map_values(|j: Job| job_model(j)) =~= before.map_values(|j: Job| job_model(j)).update(
                        k as int,
                        JobModel { position, ..before.map_values(|j: Job| job_model(j))[k as int] },
                    ));
                }
                return false;
            }
            k = k + 1;
        }
        proof {
            let q = before.map_values(|j: Job| job_model(j));
            assert forall|j: int| 0 <= j < q.len() implies q[j].id != id by {
                assert(q[j] == job_model(before[j]));
            }
            lemma_no_id(q, id);
        }
        false
    }

    /// Forget a request that scrolled out of view before a worker got to it.
    pub fn cancel(&mut self, id: ImageId)
        ensures
            final(self).wanted_ids() == old(self).wanted_ids().remove(id),
            final(self).jobs() == old(self).jobs().filter(|j: JobModel| j.id != id),
            final(self).focus_at() == old(self).focus_at(),
    {
        self.wanted.remove(&id);
        let ghost all = self.jobs();
        let ghost keep = |j: JobModel| j.id != id;
        let mut kept: Vec<Job> = Vec::new();
        let mut k: usize = 0;
        while k < self.queue.len()
            invariant
                k <= self.queue.len(),
                all == self.queue@.map_values(|j: Job| job_model(j)),
                keep == (|j: JobModel| j.id != id),
                kept@.map_values(|j: Job| job_model(j)) == all.subrange(0, k as int).filter(keep),
            decreases self.queue.len() - k,
        {
            proof {
                all.subrange(0, k as int).lemma_filter_push(all[k as int], keep);
                assert(all.subrange(0, k + 1) =~= all.subrange(0, k as int).push(all[k as int]));
            }
            if self.queue[k].id != id {
                let ghost before = kept@;
                let job = copy_job(&self.queue[k]);
                kept.push(job);
                proof {
                    crate::text::lemma_map_push(before, job, |j: Job| job_model(j));
                }
            }
            k = k + 1;
        }
        assert(all.subrange(0, self.queue.len() as int) =~= all);
        self.queue = kept;
    }

    /// The next job for a worker: quick ones before full decodes, nearest
    /// the focus first, the earliest queued of equals. It leaves the queue,
    /// the last job taking its place. `None` when nothing waits: the worker
    /// then sleeps until a request wakes it.
    pub fn next_job(&mut self) -> (job: Option<Job>)
        ensures
            final(self).wanted_ids() == old(self).wanted_ids(),
            final(self).focus_at() == old(self).focus_at(),
            old(self).jobs().len() == 0 ==> job is None && final(self).jobs() == old(self).jobs(),
            old(self).jobs().len() > 0 ==> {
                let q = old(self).jobs();
                let b = best_of(q, old(self).focus_at(), q.len());
                &&& job matches Some(j) && job_model(j) == q[b]
                &&& final(self).jobs() == q.update(b, q.last()).drop_last()
            },
    {
        if self.queue.len() == 0 {
            return None;
        }
        let ghost q = self.jobs();
        let mut best: usize = 0;
        let mut k: usize = 1;
        while k < self.queue.len()
            invariant
                1 <= k <= self.queue.len(),
                best < k,
                q == self.queue@.map_values(|j: Job| job_model(j)),
                best == best_of(q, self.focus, k as nat),
            decreases self.queue.len() - k,
        {
            let a = &self.queue[k];
            let b = &self.queue[best];
            let ra: u8 = match a.stage {
                Stage::Quick => 0,
                Stage::Full => 1,
            };
            let rb: u8 = match b.stage {
                Stage::Quick => 0,
                Stage::Full => 1,
            };
            let da = if a.position >= self.focus {
                a.position - self.focus
            } else {
                self.focus - a.position
            };
            let db = if b.position >= self.focus {
                b.position - self.focus
            } else {
                self.focus - b.position
            };
            assert(q[k as int] == job_model(self.queue@[k as int]));
            assert(q[best as int] == job_model(self.queue@[best as int]));
            if ra < rb || (ra == rb && da < db) {
                best = k;
            }
            k = k + 1;
        }
        let ghost before = self.queue@;
        let job = self.queue.swap_remove(best);
        proof {
            assert(self.queue@.map_values(|j: Job| job_model(j)) =~= q.update(best as int, q.last()).drop_last());
        }
        Some(job)
    }

    /// A worker is done with image `id`: it is no longer wanted.
    pub fn finish(&mut self, id: ImageId)
        ensures
            final(self).wanted_ids() == old(self).wanted_ids().remove(id),
            final(self).jobs() == old(self).jobs(),
            final(self).focus_at() == old(self).focus_at(),
    {
        self.wanted.remove(&id);
    }

    /// The quick look wasn't enough: line the image up for a real decode,
    /// unless it scrolled away in the meantime. Returns whether a job was
    /// queued, for the caller to wake a worker.
    pub fn requeue(&mut self, job: &Job) -> (queued: bool)
        ensures
            queued == old(self).wanted_ids().contains(job.id),
            final(self).wanted_ids() == old(self).wanted_ids(),
            final(self).focus_at() == old(self).focus_at(),
            queued ==> final(self).jobs() == old(self).jobs().push(
                JobModel { id: job.id, path: job.path@, position: job.position, stage: Stage::Full },
            ),
            !queued ==> final(self).jobs() == old(self).jobs(),
    {
        if self.wanted.contains(&job.id) {
            let ghost before = self.queue@;
            let again = Job { id: job.id, path: job.path.clone(), position: job.position, stage: Stage::Full };
            self.queue.push(again);
            proof {
                crate::text::lemma_map_push(before, again, |j: Job| job_model(j));
            }
            true
        } else {
            false
        }
    }
}

/// Is `c` the place of the first job for image `id`?
pub open spec fn first_at(q: Seq<JobModel>, id: ImageId, c: int) -> bool {
    0 <= c < q.len() && q[c].id == id && forall|j: int| 0 <= j < c ==> q[j].id != id
}

/// Where the first job for image `id` waits.
pub open spec fn first_with_id(q: Seq<JobModel>, id: ImageId) -> Option<int> {
    if exists|c: int| #[trigger] first_at(q, id, c) {
        Some(choose|c: int| #[trigger] first_at(q, id, c))
    } else {
        None
    }
}

proof fn lemma_first_id(q: Seq<JobModel>, id: ImageId, k: int)
    requires
        first_at(q, id, k),
    ensures
        first_with_id(q, id) == Some(k),
{
    let c = choose|c: int| #[trigger] first_at(q, id, c);
    assert(first_at(q, id, c));
    if c < k {
        assert(q[c].id != id);
    } else if c > k {
        assert(q[k].id != id);
    }
}

proof fn lemma_no_id(q: Seq<JobModel>, id: ImageId)
    requires
        forall|j: int| 0 <= j < q.len() ==> q[j].id != id,
    ensures
        first_with_id(q, id) is None,
{
    assert forall|c: int| !first_at(q, id, c) by {
        if 0 <= c < q.len() {
            assert(q[c].id != id);
        }
    }
}

/// An independent copy of `j`.
fn copy_job(j: &Job) -> (r: Job)
    ensures
        job_model(r) == job_model(*j),
{
    Job { id: j.id, path: j.path.clone(), position: j.position, stage: j.stage }
}

} // verus!
