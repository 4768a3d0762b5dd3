//! The daemon's state machine: device registry, job queue and active set,
//! admission policy, reap and start transitions, enforcement selection, and
//! the control-protocol dispatcher.
//!
//! The single safety invariant is [`SharedState::wf`]: no device is claimed by
//! two active jobs at once, job ids are pairwise distinct, devices are numbered
//! by their index, and every active job carries a container handle.

use crate::codec::{
    dec_command, decode_command, enc_response, encode_response, CommandModel, ResponseModel,
};
use crate::comms::{ClobberConfig, Command, JobDesc, QueuedJobDesc, Response, User};
use crate::gpu::GPUprocess;
use crate::pings::Ping;
use vstd::prelude::*;

verus! {

/// One schedulable GPU and its enforcement flag. `watching == false` suspends
/// enforcement (not admission) on the device.
#[derive(Clone, Debug)]
pub struct DeviceState {
    pub device_number: u32,
    pub watching: bool,
}

/// A unit of work: owner, container image, requested devices, and the
/// container handle once the job has been started.
#[derive(Clone, Debug)]
pub struct Job {
    pub id: u16,
    pub owner: User,
    pub image_id: String,
    pub requested_gpus: Vec<u32>,
    pub container: Option<String>,
}

impl Job {
    /// Does this job claim device `d`?
    pub open spec fn claims(self, d: u32) -> bool {
        self.requested_gpus@.contains(d)
    }
}

impl PartialEq for Job {
    fn eq(&self, other: &Job) -> (r: bool) {
        self.id == other.id
    }
}

impl vstd::std_specs::cmp::PartialEqSpecImpl for Job {
    open spec fn obeys_eq_spec() -> bool {
        true
    }

    open spec fn eq_spec(&self, other: &Job) -> bool {
        self.id == other.id
    }
}

/// Some active job among `jobs` claims device `d`.
pub open spec fn seq_occupied(jobs: Seq<Job>, d: u32) -> bool {
    exists|i: int| 0 <= i < jobs.len() && (#[trigger] jobs[i]).claims(d)
}

/// `j` can be admitted next to `active`: none of its requested devices is
/// claimed by an active job.
pub open spec fn admissible(j: Job, active: Seq<Job>) -> bool {
    forall|d: u32| #[trigger] j.claims(d) ==> !seq_occupied(active, d)
}

/// No two distinct jobs of `a` and `b` (taken across both sequences) claim a
/// common device.
pub open spec fn pairwise_disjoint(jobs: Seq<Job>) -> bool {
    forall|i: int, j: int, d: u32|
        #![trigger jobs[i].claims(d), jobs[j].claims(d)]
        0 <= i < jobs.len() && 0 <= j < jobs.len() && i != j && jobs[i].claims(d)
            ==> !jobs[j].claims(d)
}

/// The ids of a sequence of jobs, in order.
pub open spec fn job_ids(jobs: Seq<Job>) -> Seq<u16> {
    jobs.map_values(|j: Job| j.id)
}

/// The whole mutable state of the daemon, owned by its single control loop.
pub struct SharedState {
    pub devices: Vec<DeviceState>,
    pub queued_jobs: Vec<Job>,
    pub active_jobs: Vec<Job>,
    pub config: ClobberConfig,
}

impl SharedState {
    /// Device `d` is currently claimed by an active job.
    pub open spec fn occupied(self, d: u32) -> bool {
        seq_occupied(self.active_jobs@, d)
    }

    /// Some job, queued or active, already carries id `id`.
    pub open spec fn uses_id(self, id: u16) -> bool {
        job_ids(self.queued_jobs@).contains(id) || job_ids(self.active_jobs@).contains(id)
    }

    /// Devices are numbered by their position in the registry, as they are
    /// created once at startup from the device count.
    pub open spec fn devices_wf(self) -> bool {
        &&& self.devices@.len() <= u32::MAX as int + 1
        &&& forall|i: int|
            0 <= i < self.devices@.len() ==> (#[trigger] self.devices@[i]).device_number == i as u32
    }

    /// Job ids are pairwise distinct across the queue and the active set.
    pub open spec fn ids_unique(self) -> bool {
        &&& job_ids(self.queued_jobs@).no_duplicates()
        &&& job_ids(self.active_jobs@).no_duplicates()
        &&& forall|i: int, k: int|
            0 <= i < self.queued_jobs@.len() && 0 <= k < self.active_jobs@.len()
                ==> (#[trigger] self.queued_jobs@[i]).id != (#[trigger] self.active_jobs@[k]).id
    }

    /// Every active job has been given a container handle.
    pub open spec fn active_have_containers(self) -> bool {
        forall|i: int|
            0 <= i < self.active_jobs@.len() ==> (#[trigger] self.active_jobs@[i]).container
                is Some
    }

    /// The state invariant, established at startup and preserved by every
    /// mutating operation of this module.
    pub open spec fn wf(self) -> bool {
        &&& self.devices_wf()
        &&& pairwise_disjoint(self.active_jobs@)
        &&& self.ids_unique()
        &&& self.active_have_containers()
    }

    /// Build the startup state: `device_count` devices numbered from 0, all
    /// watched, with no job queued or active.
    pub fn new(device_count: u32, config: ClobberConfig) -> (s: SharedState)
        ensures
            s.wf(),
            s.devices@.len() == device_count as int,
            forall|i: int|
                0 <= i < device_count as int ==> (#[trigger] s.devices@[i]).watching,
            s.queued_jobs@.len() == 0,
            s.active_jobs@.len() == 0,
            s.config == config,
    {
        let mut devices: Vec<DeviceState> = Vec::new();
        let mut n: u32 = 0;
        while n < device_count
            invariant
                n <= device_count,
                devices@.len() == n as int,
                forall|i: int|
                    0 <= i < n as int ==> (#[trigger] devices@[i]).device_number == i as u32
                        && devices@[i].watching,
            decreases device_count - n,
        {
            devices.push(DeviceState { device_number: n, watching: true });
            n = n + 1;
        }
        SharedState { devices, queued_jobs: Vec::new(), active_jobs: Vec::new(), config }
    }

    /// The index of the active job that claims device `device_number`, if any:
    /// a device's owner is derived from the active set, never stored.
    pub fn device_owner(&self, device_number: u32) -> (r: Option<usize>)
        ensures
            match r {
                Some(i) => i < self.active_jobs@.len()
                    && self.active_jobs@[i as int].claims(device_number) && forall|k: int|
                    0 <= k < i as int ==> !(#[trigger] self.active_jobs@[k]).claims(device_number),
                None => !self.occupied(device_number),
            },
    {
        let mut i: usize = 0;
        while i < self.active_jobs.len()
            invariant
                i <= self.active_jobs@.len(),
                forall|k: int|
                    0 <= k < i as int ==> !(#[trigger] self.active_jobs@[k]).claims(device_number),
            decreases self.active_jobs@.len() - i,
        {
            if gpus_contain(&self.active_jobs[i].requested_gpus, device_number) {
                return Some(i);
            }
            i = i + 1;
        }
        None
    }
}

impl SharedState {
    /// Set the enforcement flag of the device numbered `device_number`.
    /// Returns false, changing nothing, when no such device exists.
    pub fn set_watching(&mut self, device_number: u32, watching: bool) -> (r: bool)
        requires
            old(self).wf(),
        ensures
            final(self).wf(),
            final(self).queued_jobs@ == old(self).queued_jobs@,
            final(self).active_jobs@ == old(self).active_jobs@,
            final(self).config == old(self).config,
            r == ((device_number as int) < old(self).devices@.len()),
            r ==> final(self).devices@ == old(self).devices@.update(
                device_number as int,
                DeviceState { device_number, watching },
            ),
            !r ==> final(self).devices@ == old(self).devices@,
    {
        let mut i: usize = 0;
        while i < self.devices.len()
            invariant
                self.queued_jobs@ == old(self).queued_jobs@,
                self.active_jobs@ == old(self).active_jobs@,
                self.config == old(self).config,
                self.devices@ == old(self).devices@,
                old(self).wf(),
                i <= self.devices@.len(),
                forall|k: int|
                    0 <= k < i as int ==> (#[trigger] self.devices@[k]).device_number
                        != device_number,
            decreases self.devices@.len() - i,
        {
            if self.devices[i].device_number == device_number {
                proof {
                    assert(self.devices@[i as int].device_number == i as u32);
                    assert(i as int == device_number as int);
                }
                self.devices.set(i, DeviceState { device_number, watching });
                return true;
            }
            i = i + 1;
        }
        proof {
            if (device_number as int) < self.devices@.len() {
                assert(self.devices@[device_number as int].device_number == device_number);
            }
        }
        false
    }

    /// Is `id` already carried by some queued or active job?
    pub fn id_in_use(&self, id: u16) -> (r: bool)
        ensures
            r == self.uses_id(id),
    {
        let a = seq_has_id(&self.queued_jobs, id);
        let b = seq_has_id(&self.active_jobs, id);
        a || b
    }

    /// An id carried by no current job. A random id is tried first; on a
    /// collision the candidates `0..=n` are scanned, of which one must be
    /// free, as only `n` jobs exist.
    fn fresh_job_id(&self) -> (id: u16)
        requires
            self.queued_jobs@.len() + self.active_jobs@.len() < 65535,
        ensures
            !self.uses_id(id),
    {
        let drawn = random_u16();
        if !self.id_in_use(drawn) {
            return drawn;
        }
        let n = self.queued_jobs.len() + self.active_jobs.len();
        let mut c: usize = 0;
        while c <= n
            invariant
                self.queued_jobs@.len() + self.active_jobs@.len() < 65535,
                n == self.queued_jobs@.len() + self.active_jobs@.len(),
                c <= n + 1,
                forall|k: u16| (k as int) < c as int ==> self.uses_id(k),
            decreases n - c + 1,
        {
            if !self.id_in_use(c as u16) {
                return c as u16;
            }
            proof {
                assert forall|k: u16| (k as int) < c as int + 1 implies self.uses_id(k) by {
                    if k as int == c as int {
                        assert(k == c as u16);
                    }
                }
            }
            c = c + 1;
        }
        proof {
            lemma_some_id_free(*self);
        }
        assert(false);
        vstd::pervasive::unreached()
    }

    /// Append a new job to the tail of the queue, under a fresh id. This
    /// always succeeds; the requested devices are deliberately not checked
    /// against the registry.
    pub fn enqueue_job(&mut self, user: User, image_id: String, gpus: Vec<u32>) -> (id: u16)
        requires
            old(self).wf(),
            old(self).queued_jobs@.len() + old(self).active_jobs@.len() < 65535,
        ensures
            final(self).wf(),
            final(self).devices@ == old(self).devices@,
            final(self).active_jobs@ == old(self).active_jobs@,
            final(self).config == old(self).config,
            !old(self).uses_id(id),
            final(self).queued_jobs@ == old(self).queued_jobs@.push(
                Job { id, owner: user, image_id, requested_gpus: gpus, container: None },
            ),
    {
        let id = self.fresh_job_id();
        let job = Job { id, owner: user, image_id, requested_gpus: gpus, container: None };
        self.queued_jobs.push(job);
        proof {
            let q0 = old(self).queued_jobs@;
            let q1 = self.queued_jobs@;
            assert(job_ids(q1) =~= job_ids(q0).push(id));
            assert forall|i: int, j: int|
                0 <= i < q1.len() && 0 <= j < q1.len() && i != j implies job_ids(q1)[i] != job_ids(
                q1,
            )[j] by {
                let lo = if i < j {
                    i
                } else {
                    j
                };
                let hi = if i < j {
                    j
                } else {
                    i
                };
                if hi < q0.len() {
                    assert(job_ids(q0)[lo] != job_ids(q0)[hi]);
                } else {
                    assert(job_ids(q1)[hi] == id);
                    assert(!job_ids(q0).contains(id));
                    assert(job_ids(q0)[lo] == job_ids(q1)[lo]);
                }
            }
            assert forall|i: int, k: int|
                0 <= i < q1.len() && 0 <= k < self.active_jobs@.len() implies (q1[i]).id != (
            self.active_jobs@[k]).id by {
                if i < q0.len() {
                    assert(old(self).queued_jobs@[i].id != old(self).active_jobs@[k].id);
                } else {
                    assert(q1[i].id == id);
                    assert(!job_ids(self.active_jobs@).contains(id));
                    assert(job_ids(self.active_jobs@)[k] == self.active_jobs@[k].id);
                }
            }
        }
        id
    }
}

impl SharedState {
    /// First-fit-by-arrival admission: remove and return the first queued job
    /// whose requested devices are all free, scanning in FIFO order. A job
    /// behind a non-qualifying head may overtake it; at most one job is
    /// admitted per call.
    pub fn pop_first_qualified_job(&mut self) -> (r: Option<Job>)
        requires
            old(self).wf(),
        ensures
            final(self).wf(),
            final(self).devices@ == old(self).devices@,
            final(self).active_jobs@ == old(self).active_jobs@,
            final(self).config == old(self).config,
            match r {
                Some(job) => exists|i: int|
                    #![auto]
                    0 <= i < old(self).queued_jobs@.len() && job == old(self).queued_jobs@[i]
                        && admissible(job, old(self).active_jobs@) && (forall|k: int|
                        0 <= k < i ==> !admissible(
                            #[trigger] old(self).queued_jobs@[k],
                            old(self).active_jobs@,
                        )) && final(self).queued_jobs@ == old(self).queued_jobs@.remove(i)
                        && !final(self).uses_id(job.id),
                None => final(self).queued_jobs@ == old(self).queued_jobs@ && forall|k: int|
                    0 <= k < old(self).queued_jobs@.len() ==> !admissible(
                        #[trigger] old(self).queued_jobs@[k],
                        old(self).active_jobs@,
                    ),
            },
    {
        let mut idx: usize = 0;
        while idx < self.queued_jobs.len()
            invariant
                old(self).wf(),
                self.devices@ == old(self).devices@,
                self.queued_jobs@ == old(self).queued_jobs@,
                self.active_jobs@ == old(self).active_jobs@,
                self.config == old(self).config,
                idx <= self.queued_jobs@.len(),
                forall|k: int|
                    0 <= k < idx as int ==> !admissible(
                        #[trigger] self.queued_jobs@[k],
                        self.active_jobs@,
                    ),
            decreases self.queued_jobs@.len() - idx,
        {
            if admissible_now(&self.queued_jobs[idx], &self.active_jobs) {
                proof {
                    lemma_job_ids_remove(self.queued_jobs@, idx as int);
                }
                let job = self.queued_jobs.remove(idx);
                proof {
                    let q0 = old(self).queued_jobs@;
                    let q1 = self.queued_jobs@;
                    let a = self.active_jobs@;
                    assert(job_ids(q1) =~= job_ids(q0).remove(idx as int));
                    assert(job == q0[idx as int]);
                    assert(!job_ids(q1).contains(job.id));
                    if job_ids(a).contains(job.id) {
                        let k = choose|k: int| 0 <= k < job_ids(a).len() && job_ids(a)[k] == job.id;
                        assert(q0[idx as int].id == a[k].id);
                        assert(false);
                    }
                    assert forall|i2: int, k: int|
                        0 <= i2 < q1.len() && 0 <= k < a.len() implies (#[trigger] q1[i2]).id != (
                    #[trigger] a[k]).id by {
                        if i2 < idx as int {
                            assert(q0[i2].id != a[k].id);
                        } else {
                            assert(q1[i2] == q0[i2 + 1]);
                        }
                    }
                }
                return Some(job);
            }
            idx = idx + 1;
        }
        None
    }
}

/// Can `job` run now: is none of its requested devices claimed by a job of
/// `active`?
fn admissible_now(job: &Job, active: &Vec<Job>) -> (r: bool)
    ensures
        r == admissible(*job, active@),
{
    let mut i: usize = 0;
    while i < job.requested_gpus.len()
        invariant
            i <= job.requested_gpus@.len(),
            forall|k: int|
                0 <= k < i as int ==> !seq_occupied(active@, #[trigger] job.requested_gpus@[k]),
        decreases job.requested_gpus@.len() - i,
    {
        let d = job.requested_gpus[i];
        if seq_claims(active, d) {
            proof {
                assert(job.requested_gpus@[i as int] == d);
                assert(job.claims(d));
            }
            return false;
        }
        i = i + 1;
    }
    proof {
        assert forall|d: u32| #[trigger] job.claims(d) implies !seq_occupied(active@, d) by {
            let k = choose|k: int| 0 <= k < job.requested_gpus@.len() && job.requested_gpus@[k] == d;
            assert(!seq_occupied(active@, job.requested_gpus@[k]));
        }
    }
    true
}

/// Does some job of `active` claim device `d`?
fn seq_claims(active: &Vec<Job>, d: u32) -> (r: bool)
    ensures
        r == seq_occupied(active@, d),
{
    let mut i: usize = 0;
    while i < active.len()
        invariant
            i <= active@.len(),
            forall|k: int| 0 <= k < i as int ==> !(#[trigger] active@[k]).claims(d),
        decreases active@.len() - i,
    {
        if gpus_contain(&active[i].requested_gpus, d) {
            return true;
        }
        i = i + 1;
    }
    false
}

/// Removing one job keeps the remaining ids in order, keeps them pairwise
/// distinct, and drops the removed id entirely when ids were distinct.
proof fn lemma_job_ids_remove(q: Seq<Job>, i: int)
    requires
        0 <= i < q.len(),
        job_ids(q).no_duplicates(),
    ensures
        job_ids(q.remove(i)) =~= job_ids(q).remove(i),
        job_ids(q.remove(i)).no_duplicates(),
        !job_ids(q.remove(i)).contains(q[i].id),
{
    let q1 = q.remove(i);
    let ids0 = job_ids(q);
    let ids1 = job_ids(q1);
    assert forall|k: int| 0 <= k < ids1.len() implies ids1[k] == ids0.remove(i)[k] by {
        if k < i {
            assert(q1[k] == q[k]);
        } else {
            assert(q1[k] == q[k + 1]);
        }
    }
    assert(ids1 =~= ids0.remove(i));
    assert forall|k: int, l: int|
        0 <= k < ids1.len() && 0 <= l < ids1.len() && k != l implies ids1[k] != ids1[l] by {
        let k0 = if k < i {
            k
        } else {
            k + 1
        };
        let l0 = if l < i {
            l
        } else {
            l + 1
        };
        assert(ids1[k] == ids0[k0]);
        assert(ids1[l] == ids0[l0]);
    }
    if job_ids(q1).contains(q[i].id) {
        let k = choose|k: int| 0 <= k < ids1.len() && ids1[k] == q[i].id;
        let k0 = if k < i {
            k
        } else {
            k + 1
        };
        assert(ids1[k] == ids0[k0]);
        assert(ids0[i] == q[i].id);
        assert(false);
    }
}

/// The position of the first job of `jobs`, at `k` or later, that claims
/// device `d`.
pub open spec fn first_claim_from(jobs: Seq<Job>, d: u32, k: int) -> Option<int>
    decreases jobs.len() - k,
    when 0 <= k <= jobs.len()
{
    if k >= jobs.len() {
        None
    } else if jobs[k].claims(d) {
        Some(k)
    } else {
        first_claim_from(jobs, d, k + 1)
    }
}

/// What `first_claim_from` finds: the first claiming position, or nothing
/// when no job claims the device.
proof fn lemma_first_claim_from(jobs: Seq<Job>, d: u32, k: int)
    requires
        0 <= k <= jobs.len(),
    ensures
        match first_claim_from(jobs, d, k) {
            Some(i) => k <= i < jobs.len() && jobs[i].claims(d) && forall|m: int|
                k <= m < i ==> !(#[trigger] jobs[m]).claims(d),
            None => forall|m: int| k <= m < jobs.len() ==> !(#[trigger] jobs[m]).claims(d),
        },
    decreases jobs.len() - k,
{
    if k < jobs.len() && !jobs[k].claims(d) {
        lemma_first_claim_from(jobs, d, k + 1);
    }
}

/// `d` and `j` describe the same job.
pub open spec fn desc_matches(d: JobDesc, j: Job) -> bool {
    d.id == j.id && d.owner == j.owner && d.requested_gpus@ == j.requested_gpus@
}

/// The entries owed to user `uid` among the first `k` queued jobs: each of
/// the user's jobs with its 1-based position among all queued jobs.
pub open spec fn my_jobs_upto(q: Seq<Job>, uid: usize, k: int) -> Seq<(int, Job)>
    decreases k,
    when 0 <= k <= q.len()
{
    if k <= 0 {
        Seq::empty()
    } else if q[k - 1].owner.uid == uid {
        my_jobs_upto(q, uid, k - 1) + seq![(k, q[k - 1])]
    } else {
        my_jobs_upto(q, uid, k - 1)
    }
}

/// `v` reports exactly the entries of `entries`, in order.
pub open spec fn entries_match(v: Seq<QueuedJobDesc>, entries: Seq<(int, Job)>) -> bool {
    v.len() == entries.len() && forall|i: int|
        0 <= i < v.len() ==> (#[trigger] v[i]).queue_position as int == entries[i].0
            && desc_matches(v[i].job, entries[i].1)
}

impl SharedState {
    /// The user owning device `d`, derived from the active set: the owner of
    /// the (at most one, given `wf`) active job claiming it.
    pub open spec fn spec_owner(self, d: u32) -> Option<User> {
        match first_claim_from(self.active_jobs@, d, 0) {
            Some(i) => Some(self.active_jobs@[i].owner),
            None => None,
        }
    }

    /// One entry per device, in device order: who owns it, if anyone.
    pub fn status_locks(&self) -> (locks: Vec<Option<User>>)
        ensures
            locks@.len() == self.devices@.len(),
            forall|i: int|
                0 <= i < locks@.len() ==> locks@[i] == self.spec_owner(
                    (#[trigger] self.devices@[i]).device_number,
                ),
    {
        let mut locks: Vec<Option<User>> = Vec::new();
        let mut i: usize = 0;
        while i < self.devices.len()
            invariant
                i <= self.devices@.len(),
                locks@.len() == i as int,
                forall|k: int|
                    0 <= k < i as int ==> locks@[k] == self.spec_owner(
                        (#[trigger] self.devices@[k]).device_number,
                    ),
            decreases self.devices@.len() - i,
        {
            let d = self.devices[i].device_number;
            proof {
                lemma_first_claim_from(self.active_jobs@, d, 0);
            }
            let entry = match self.device_owner(d) {
                Some(j) => Some(self.active_jobs[j].owner.duplicate()),
                None => None,
            };
            locks.push(entry);
            i = i + 1;
        }
        locks
    }

    /// A description of every active job, in order.
    pub fn active_descs(&self) -> (v: Vec<JobDesc>)
        ensures
            v@.len() == self.active_jobs@.len(),
            forall|i: int|
                0 <= i < v@.len() ==> desc_matches(#[trigger] v@[i], self.active_jobs@[i]),
    {
        let mut v: Vec<JobDesc> = Vec::new();
        let mut i: usize = 0;
        while i < self.active_jobs.len()
            invariant
                i <= self.active_jobs@.len(),
                v@.len() == i as int,
                forall|k: int|
                    0 <= k < i as int ==> desc_matches(#[trigger] v@[k], self.active_jobs@[k]),
            decreases self.active_jobs@.len() - i,
        {
            let job = &self.active_jobs[i];
            v.push(
                JobDesc {
                    id: job.id,
                    owner: job.owner.duplicate(),
                    requested_gpus: copy_gpus(&job.requested_gpus),
                },
            );
            i = i + 1;
        }
        v
    }

    /// The queued jobs of user `uid`, each with its 1-based position among
    /// all queued jobs, in queue order.
    pub fn my_jobs(&self, uid: usize) -> (v: Vec<QueuedJobDesc>)
        ensures
            entries_match(v@, my_jobs_upto(self.queued_jobs@, uid, self.queued_jobs@.len() as int)),
    {
        let mut v: Vec<QueuedJobDesc> = Vec::new();
        let mut k: usize = 0;
        while k < self.queued_jobs.len()
            invariant
                k <= self.queued_jobs@.len(),
                entries_match(v@, my_jobs_upto(self.queued_jobs@, uid, k as int)),
            decreases self.queued_jobs@.len() - k,
        {
            let job = &self.queued_jobs[k];
            if job.owner.uid == uid {
                v.push(
                    QueuedJobDesc {
                        queue_position: k + 1,
                        job: JobDesc {
                            id: job.id,
                            owner: job.owner.duplicate(),
                            requested_gpus: copy_gpus(&job.requested_gpus),
                        },
                    },
                );
            }
            k = k + 1;
        }
        v
    }
}

/// An element-for-element copy of a device list.
fn copy_gpus(v: &Vec<u32>) -> (r: Vec<u32>)
    ensures
        r@ == v@,
{
    let mut r: Vec<u32> = Vec::new();
    let mut i: usize = 0;
    while i < v.len()
        invariant
            i <= v@.len(),
            r@ == v@.subrange(0, i as int),
        decreases v@.len() - i,
    {
        r.push(v[i]);
        proof {
            assert(r@ =~= v@.subrange(0, i as int + 1));
        }
        i = i + 1;
    }
    proof {
        assert(v@.subrange(0, v@.len() as int) =~= v@);
    }
    r
}

/// The runtime's answer to the attempt to start one admitted job.
#[derive(Clone, Debug)]
pub enum RuntimeEvent {
    /// The owner's image store has no such image.
    ImageMissing,
    /// Asking whether the image exists failed; the runtime's error text.
    ImageQueryFailed(String),
    /// Creating or starting the container failed; the full error text.
    StartFailed(String),
    /// The container was created and started, under this handle.
    Started(String),
}

impl SharedState {
    /// Remove every active job whose verdict is not `Running`, freeing its
    /// devices. The removed jobs are returned; the caller owes each one a
    /// finish notification. A failed runtime query removes its job as well.
    pub fn remove_finished_jobs(&mut self, verdicts: &Vec<ReapVerdict>) -> (removed: Vec<Job>)
        requires
            old(self).wf(),
            verdicts@.len() == old(self).active_jobs@.len(),
        ensures
            final(self).wf(),
            final(self).devices@ == old(self).devices@,
            final(self).queued_jobs@ == old(self).queued_jobs@,
            final(self).config == old(self).config,
            final(self).active_jobs@ == keep_running(old(self).active_jobs@, verdicts@),
            removed@ == drop_running(old(self).active_jobs@, verdicts@),
    {
        let ghost a0 = old(self).active_jobs@;
        let ghost v = verdicts@;
        let n = self.active_jobs.len();
        let mut kept: Vec<Job> = Vec::new();
        let mut removed: Vec<Job> = Vec::new();
        let mut i: usize = 0;
        while i < n
            invariant
                old(self).wf(),
                n == a0.len(),
                v == verdicts@,
                v.len() == n,
                i <= n,
                self.devices@ == old(self).devices@,
                self.queued_jobs@ == old(self).queued_jobs@,
                self.config == old(self).config,
                self.active_jobs@ == a0.subrange(i as int, n as int),
                kept@ == keep_running(a0.subrange(0, i as int), v.subrange(0, i as int)),
                removed@ == drop_running(a0.subrange(0, i as int), v.subrange(0, i as int)),
            decreases n - i,
        {
            let job = self.active_jobs.remove(0);
            proof {
                assert(job == a0[i as int]);
                assert(self.active_jobs@ =~= a0.subrange(i as int + 1, n as int));
            }
            let keep = match verdicts[i] {
                ReapVerdict::Running => true,
                ReapVerdict::Finished => false,
                ReapVerdict::Failed => false,
            };
            if keep {
                kept.push(job);
            } else {
                removed.push(job);
            }
            proof {
                let p0 = a0.subrange(0, i as int);
                let p1 = a0.subrange(0, i as int + 1);
                let w0 = v.subrange(0, i as int);
                let w1 = v.subrange(0, i as int + 1);
                assert(p1 =~= p0 + seq![a0[i as int]]);
                assert(w1 =~= w0 + seq![v[i as int]]);
                lemma_keep_drop_concat(p0, seq![a0[i as int]], w0, seq![v[i as int]]);
                lemma_keep_drop_singleton(a0[i as int], v[i as int]);
                if v[i as int] is Running {
                    assert(kept@ =~= keep_running(p0, w0) + seq![a0[i as int]]);
                    assert(removed@ =~= drop_running(p0, w0) + Seq::<Job>::empty());
                } else {
                    assert(kept@ =~= keep_running(p0, w0) + Seq::<Job>::empty());
                    assert(removed@ =~= drop_running(p0, w0) + seq![a0[i as int]]);
                }
            }
            i = i + 1;
        }
        proof {
            assert(a0.subrange(0, n as int) =~= a0);
            assert(v.subrange(0, n as int) =~= v);
            lemma_keep_running_props(a0, v);
            let kf = keep_running(a0, v);
            // ids of kept jobs stay clear of the queue's ids
            assert forall|q: int, k: int|
                0 <= q < self.queued_jobs@.len() && 0 <= k < kf.len() implies (
            #[trigger] self.queued_jobs@[q]).id != (#[trigger] kf[k]).id by {
                if self.queued_jobs@[q].id == kf[k].id {
                    assert(job_ids(kf)[k] == kf[k].id);
                    assert(job_ids(kf).contains(kf[k].id));
                    assert(job_ids(a0).contains(kf[k].id));
                    let w = choose|w: int| 0 <= w < job_ids(a0).len() && job_ids(a0)[w] == kf[k].id;
                    assert(old(self).queued_jobs@[q].id != a0[w].id);
                }
            }
            // every kept job still carries its container handle
            assert forall|k: int| 0 <= k < kf.len() implies (#[trigger] kf[k]).container
                is Some by {
                let w = choose|w: int| 0 <= w < a0.len() && v[w] is Running && kf[k] == a0[w];
                assert(a0[w].container is Some);
            }
        }
        self.active_jobs = kept;
        removed
    }

    /// Apply the runtime's answer for a job taken from the queue by
    /// [`Self::pop_first_qualified_job`]: on `Started` the job becomes active
    /// under its container handle; on every other event the job is dropped
    /// for good, never requeued. The returned ping is the notification owed
    /// for the outcome.
    pub fn apply_start_event(&mut self, job: Job, event: RuntimeEvent) -> (p: Ping)
        requires
            old(self).wf(),
            admissible(job, old(self).active_jobs@),
            !old(self).uses_id(job.id),
        ensures
            final(self).wf(),
            final(self).devices@ == old(self).devices@,
            final(self).queued_jobs@ == old(self).queued_jobs@,
            final(self).config == old(self).config,
            match event {
                RuntimeEvent::Started(c) => final(self).active_jobs@ == old(self).active_jobs@.push(
                    Job {
                        id: job.id,
                        owner: job.owner,
                        image_id: job.image_id,
                        requested_gpus: job.requested_gpus,
                        container: Some(c),
                    },
                ) && p == (Ping::JobStarted { id: job.id }),
                RuntimeEvent::ImageMissing => final(self).active_jobs@ == old(self).active_jobs@
                    && (p matches Ping::JobCancelled { id, reason } && id == job.id && reason@
                    == "Cannot find image "@ + job.image_id@),
                RuntimeEvent::ImageQueryFailed(e) => final(self).active_jobs@ == old(
                    self,
                ).active_jobs@ && (p matches Ping::JobCancelled { id, reason } && id == job.id
                    && reason@ == "Error finding image "@ + job.image_id@ + ": "@ + e@),
                RuntimeEvent::StartFailed(e) => final(self).active_jobs@ == old(self).active_jobs@
                    && (p matches Ping::JobCancelled { id, reason } && id == job.id && reason@
                    == e@),
            },
    {
        match event {
            RuntimeEvent::Started(c) => {
                let started = Job {
                    id: job.id,
                    owner: job.owner,
                    image_id: job.image_id,
                    requested_gpus: job.requested_gpus,
                    container: Some(c),
                };
                proof {
                    let a0 = old(self).active_jobs@;
                    let a1 = a0.push(started);
                    assert forall|i: int, j: int, d: u32|
                        #![trigger a1[i].claims(d), a1[j].claims(d)]
                        0 <= i < a1.len() && 0 <= j < a1.len() && i != j && a1[i].claims(d) implies
                        !(a1[j].claims(d)) by {
                        if i < a0.len() && j < a0.len() {
                            assert(a0[i].claims(d) && 0 <= j < a0.len());
                        } else if j == a0.len() {
                            // the new job claims nothing that was occupied
                            assert(a1[i] == a0[i]);
                            if a1[j].claims(d) {
                                assert(started.claims(d));
                                assert(job.claims(d));
                                assert(!seq_occupied(a0, d));
                            }
                        } else {
                            assert(i == a0.len());
                            assert(started.claims(d));
                            assert(job.claims(d));
                            assert(!seq_occupied(a0, d));
                            assert(a1[j] == a0[j]);
                        }
                    }
                    assert(job_ids(a1) =~= job_ids(a0).push(job.id));
                    assert forall|i: int, j: int|
                        0 <= i < a1.len() && 0 <= j < a1.len() && i != j implies job_ids(a1)[i]
                        != job_ids(a1)[j] by {
                        let lo = if i < j {
                            i
                        } else {
                            j
                        };
                        let hi = if i < j {
                            j
                        } else {
                            i
                        };
                        if hi < a0.len() {
                            assert(job_ids(a0)[lo] != job_ids(a0)[hi]);
                        } else {
                            assert(job_ids(a1)[hi] == job.id);
                            assert(!job_ids(a0).contains(job.id));
                            assert(job_ids(a0)[lo] == job_ids(a1)[lo]);
                        }
                    }
                    assert forall|q: int, k: int|
                        0 <= q < self.queued_jobs@.len() && 0 <= k < a1.len() implies (
                    #[trigger] self.queued_jobs@[q]).id != (#[trigger] a1[k]).id by {
                        if k < a0.len() {
                            assert(self.queued_jobs@[q].id != a0[k].id);
                        } else {
                            assert(a1[k].id == job.id);
                            assert(!job_ids(self.queued_jobs@).contains(job.id));
                            assert(job_ids(self.queued_jobs@)[q] == self.queued_jobs@[q].id);
                        }
                    }
                }
                self.active_jobs.push(started);
                Ping::JobStarted { id: job.id }
            },
            RuntimeEvent::ImageMissing => Ping::JobCancelled {
                id: job.id,
                reason: "Cannot find image ".to_owned().concat(job.image_id.as_str()),
            },
            RuntimeEvent::ImageQueryFailed(e) => Ping::JobCancelled {
                id: job.id,
                reason: "Error finding image ".to_owned().concat(job.image_id.as_str()).concat(
                    ": ",
                ).concat(e.as_str()),
            },
            RuntimeEvent::StartFailed(e) => Ping::JobCancelled { id: job.id, reason: e },
        }
    }
}

/// How one control command changes the state and what it answers. `Kill` is
/// the only command without a response: the caller must shut the daemon down.
/// `SetWatch` on an unknown device fails and changes nothing; `QueueJob`
/// always succeeds and appends one job with a fresh id to the queue's tail.
pub open spec fn sock_step(
    pre: SharedState,
    command: Command,
    post: SharedState,
    r: Option<Response>,
) -> bool {
    match command {
        Command::Status => post == pre && (match r {
            Some(Response::GPUStatus { locks }) => locks@.len() == pre.devices@.len() && forall|
                i: int,
            |
                0 <= i < locks@.len() ==> locks@[i] == pre.spec_owner(
                    (#[trigger] pre.devices@[i]).device_number,
                ),
            _ => false,
        }),
        Command::Kill => post == pre && r is None,
        Command::SetWatch { device_number, watching } => if (device_number as int)
            < pre.devices@.len() {
            &&& post.devices@ == pre.devices@.update(
                device_number as int,
                DeviceState { device_number, watching },
            )
            &&& post.queued_jobs@ == pre.queued_jobs@
            &&& post.active_jobs@ == pre.active_jobs@
            &&& post.config == pre.config
            &&& r == Some(Response::Success)
        } else {
            &&& post.devices@ == pre.devices@
            &&& post.queued_jobs@ == pre.queued_jobs@
            &&& post.active_jobs@ == pre.active_jobs@
            &&& post.config == pre.config
            &&& match r {
                Some(Response::Error(m)) => m@ == "Invalid device number"@,
                _ => false,
            }
        },
        Command::QueueJob { user, image_id, gpus } => {
            &&& post.devices@ == pre.devices@
            &&& post.active_jobs@ == pre.active_jobs@
            &&& post.config == pre.config
            &&& r == Some(Response::Success)
            &&& exists|id: u16|
                #![auto]
                !pre.uses_id(id) && post.queued_jobs@ == pre.queued_jobs@.push(
                    Job { id, owner: user, image_id, requested_gpus: gpus, container: None },
                )
        },
        Command::ActiveJobs => post == pre && (match r {
            Some(Response::ActiveJobs(v)) => v@.len() == pre.active_jobs@.len() && forall|i: int|
                0 <= i < v@.len() ==> desc_matches(#[trigger] v@[i], pre.active_jobs@[i]),
            _ => false,
        }),
        Command::MyJobs { uid } => post == pre && (match r {
            Some(Response::MyJobs(v)) => entries_match(
                v@,
                my_jobs_upto(pre.queued_jobs@, uid, pre.queued_jobs@.len() as int),
            ),
            _ => false,
        }),
    }
}

impl SharedState {
    /// Service one control command: dispatch on its kind, mutate the state
    /// where the command asks for it, and return the response owed, or
    /// nothing for `Kill`, on which the caller exits.
    pub fn sock_communicate(&mut self, command: Command) -> (r: Option<Response>)
        requires
            old(self).wf(),
            (command matches Command::QueueJob { .. }) ==> old(self).queued_jobs@.len() + old(
                self,
            ).active_jobs@.len() < 65535,
        ensures
            final(self).wf(),
            sock_step(*old(self), command, *final(self), r),
    {
        match command {
            Command::Status => {
                let locks = self.status_locks();
                Some(Response::GPUStatus { locks })
            },
            Command::Kill => None,
            Command::SetWatch { device_number, watching } => {
                if self.set_watching(device_number, watching) {
                    Some(Response::Success)
                } else {
                    Some(Response::Error("Invalid device number".to_owned()))
                }
            },
            Command::QueueJob { user, image_id, gpus } => {
                let id = self.enqueue_job(user, image_id, gpus);
                proof {
                    assert(!old(self).uses_id(id) && self.queued_jobs@
                        == old(self).queued_jobs@.push(
                        Job { id, owner: user, image_id, requested_gpus: gpus, container: None },
                    ));
                }
                Some(Response::Success)
            },
            Command::ActiveJobs => {
                let v = self.active_descs();
                Some(Response::ActiveJobs(v))
            },
            Command::MyJobs { uid } => {
                let v = self.my_jobs(uid);
                Some(Response::MyJobs(v))
            },
        }
    }
}

impl SharedState {
    /// Disjointness: in a well-formed state no device is claimed by two
    /// distinct active jobs. Well-formedness is established by
    /// [`SharedState::new`] and kept by every mutating operation, so this
    /// holds of every reachable state.
    pub proof fn lemma_active_disjoint(s: SharedState, i: int, j: int, d: u32)
        requires
            s.wf(),
            0 <= i < s.active_jobs@.len(),
            0 <= j < s.active_jobs@.len(),
            i != j,
            s.active_jobs@[i].claims(d),
        ensures
            !s.active_jobs@[j].claims(d),
    {
    }

    /// With no active job, no device has an owner: a fresh daemon reports an
    /// all-empty lock table.
    pub proof fn lemma_status_empty(s: SharedState, d: u32)
        requires
            s.active_jobs@.len() == 0,
        ensures
            s.spec_owner(d) is None,
    {
    }

    /// May `job` be started now: are its requested devices all free, and is
    /// its id carried by no current job? The control loop tests this before
    /// applying a start event for a job it popped earlier.
    pub fn can_start(&self, job: &Job) -> (r: bool)
        ensures
            r == (admissible(*job, self.active_jobs@) && !self.uses_id(job.id)),
    {
        let adm = admissible_now(job, &self.active_jobs);
        let used = self.id_in_use(job.id);
        adm && !used
    }

    /// Service one inbound request document: decode it, dispatch through
    /// [`Self::sock_communicate`], and encode the reply. A malformed request
    /// changes nothing and earns an error reply; `None` means the command was
    /// `Kill` and the caller must shut the daemon down without replying.
    /// `QueueJob` alone is refused, with an error reply and no change, while
    /// 65535 jobs are in flight and the 16-bit id space has no room; every
    /// other command is served whatever the load.
    pub fn handle_request(&mut self, request: &str) -> (reply: Option<String>)
        requires
            old(self).wf(),
        ensures
            final(self).wf(),
            match dec_command(request@) {
                Some(cm) => if (cm matches CommandModel::QueueJob { .. }) && old(
                    self,
                ).queued_jobs@.len() + old(self).active_jobs@.len() >= 65535 {
                    &&& *final(self) == *old(self)
                    &&& match reply {
                        Some(out) => out@ == enc_response(ResponseModel::Error("Too many jobs"@)),
                        None => false,
                    }
                } else {
                    match reply {
                        None => exists|c: Command|
                            #![auto]
                            c@ == cm && sock_step(*old(self), c, *final(self), None),
                        Some(out) => exists|c: Command, resp: Response|
                            #![auto]
                            c@ == cm && sock_step(*old(self), c, *final(self), Some(resp)) && out@
                                == enc_response(resp@),
                    }
                },
                None => *final(self) == *old(self) && match reply {
                    Some(out) => out@ == enc_response(
                        ResponseModel::Error("Error parsing command"@),
                    ),
                    None => false,
                },
            },
    {
        match decode_command(request) {
            Some(c) => {
                let ghost cg = c;
                let q = self.queued_jobs.len();
                let a = self.active_jobs.len();
                let full = q >= 65535 || a >= 65535 || q + a >= 65535;
                if full && matches!(c, Command::QueueJob { .. }) {
                    let resp = Response::Error("Too many jobs".to_owned());
                    let out = encode_response(&resp);
                    proof {
                        assert(resp@ == ResponseModel::Error("Too many jobs"@));
                        assert(cg@ == dec_command(request@)->Some_0);
                        assert(cg@ matches CommandModel::QueueJob { .. });
                    }
                    return Some(out);
                }
                match self.sock_communicate(c) {
                    Some(resp) => {
                        let ghost rg = resp;
                        let out = encode_response(&resp);
                        proof {
                            assert(cg@ == dec_command(request@)->Some_0 && sock_step(
                                *old(self),
                                cg,
                                *self,
                                Some(rg),
                            ) && out@ == enc_response(rg@));
                        }
                        Some(out)
                    },
                    None => {
                        proof {
                            assert(cg@ == dec_command(request@)->Some_0 && sock_step(
                                *old(self),
                                cg,
                                *self,
                                None,
                            ));
                        }
                        None
                    },
                }
            },
            None => {
                let resp = Response::Error("Error parsing command".to_owned());
                let out = encode_response(&resp);
                proof {
                    assert(resp@ == ResponseModel::Error("Error parsing command"@));
                }
                Some(out)
            },
        }
    }
}

/// What the container runtime reported of one active job when asked whether
/// its container has finished.
#[derive(Clone, Copy, Debug)]
pub enum ReapVerdict {
    /// The container is still running; the job keeps its devices.
    Running,
    /// The container has finished.
    Finished,
    /// The query failed. The job is removed anyway, so that a stuck query
    /// cannot starve its devices forever: availability over correctness.
    Failed,
}

/// The jobs whose verdict is `Running`, in order.
pub open spec fn keep_running(jobs: Seq<Job>, v: Seq<ReapVerdict>) -> Seq<Job>
    decreases jobs.len(),
{
    if jobs.len() == 0 {
        Seq::empty()
    } else {
        let rest = keep_running(jobs.drop_first(), v.drop_first());
        if v[0] is Running {
            seq![jobs[0]] + rest
        } else {
            rest
        }
    }
}

/// The jobs whose verdict is not `Running`, in order: those to reap.
pub open spec fn drop_running(jobs: Seq<Job>, v: Seq<ReapVerdict>) -> Seq<Job>
    decreases jobs.len(),
{
    if jobs.len() == 0 {
        Seq::empty()
    } else {
        let rest = drop_running(jobs.drop_first(), v.drop_first());
        if v[0] is Running {
            rest
        } else {
            seq![jobs[0]] + rest
        }
    }
}

/// A reap scan of one job keeps or drops exactly that job.
proof fn lemma_keep_drop_singleton(j: Job, w: ReapVerdict)
    ensures
        w is Running ==> keep_running(seq![j], seq![w]) == seq![j] && drop_running(
            seq![j],
            seq![w],
        ) == Seq::<Job>::empty(),
        !(w is Running) ==> keep_running(seq![j], seq![w]) == Seq::<Job>::empty() && drop_running(
            seq![j],
            seq![w],
        ) == seq![j],
{
    let sj = seq![j];
    let sv = seq![w];
    assert(sj.drop_first() =~= Seq::<Job>::empty());
    assert(sv.drop_first() =~= Seq::<ReapVerdict>::empty());
    assert(keep_running(Seq::<Job>::empty(), Seq::<ReapVerdict>::empty()) == Seq::<Job>::empty());
    assert(drop_running(Seq::<Job>::empty(), Seq::<ReapVerdict>::empty()) == Seq::<Job>::empty());
    assert(sj[0] == j && sv[0] == w);
    if w is Running {
        assert(keep_running(sj, sv) == seq![j] + Seq::<Job>::empty());
        assert(seq![j] + Seq::<Job>::empty() =~= seq![j]);
        assert(drop_running(sj, sv) == Seq::<Job>::empty());
    } else {
        assert(keep_running(sj, sv) == Seq::<Job>::empty());
        assert(drop_running(sj, sv) == seq![j] + Seq::<Job>::empty());
        assert(seq![j] + Seq::<Job>::empty() =~= seq![j]);
    }
}

/// Splitting a reap scan at any point splits its results.
proof fn lemma_keep_drop_concat(
    s1: Seq<Job>,
    s2: Seq<Job>,
    v1: Seq<ReapVerdict>,
    v2: Seq<ReapVerdict>,
)
    requires
        s1.len() == v1.len(),
    ensures
        keep_running(s1 + s2, v1 + v2) == keep_running(s1, v1) + keep_running(s2, v2),
        drop_running(s1 + s2, v1 + v2) == drop_running(s1, v1) + drop_running(s2, v2),
    decreases s1.len(),
{
    if s1.len() == 0 {
        assert(s1 + s2 =~= s2);
        assert(v1 + v2 =~= v2);
        assert(keep_running(s1, v1) + keep_running(s2, v2) =~= keep_running(s2, v2));
        assert(drop_running(s1, v1) + drop_running(s2, v2) =~= drop_running(s2, v2));
    } else {
        assert((s1 + s2).drop_first() =~= s1.drop_first() + s2);
        assert((v1 + v2).drop_first() =~= v1.drop_first() + v2);
        lemma_keep_drop_concat(s1.drop_first(), s2, v1.drop_first(), v2);
        assert((s1 + s2)[0] == s1[0]);
        assert((v1 + v2)[0] == v1[0]);
        if v1[0] is Running {
            assert(seq![s1[0]] + (keep_running(s1.drop_first(), v1.drop_first()) + keep_running(
                s2,
                v2,
            )) =~= (seq![s1[0]] + keep_running(s1.drop_first(), v1.drop_first())) + keep_running(
                s2,
                v2,
            ));
        } else {
            assert(seq![s1[0]] + (drop_running(s1.drop_first(), v1.drop_first()) + drop_running(
                s2,
                v2,
            )) =~= (seq![s1[0]] + drop_running(s1.drop_first(), v1.drop_first())) + drop_running(
                s2,
                v2,
            ));
        }
    }
}

/// What survives a reap scan: every kept job stands somewhere in the input
/// under a `Running` verdict, kept ids come from input ids, and distinct ids
/// and pairwise-disjoint claims are preserved.
proof fn lemma_keep_running_props(s: Seq<Job>, v: Seq<ReapVerdict>)
    requires
        v.len() == s.len(),
    ensures
        forall|k: int|
            0 <= k < keep_running(s, v).len() ==> exists|j: int|
                0 <= j < s.len() && v[j] is Running && #[trigger] keep_running(s, v)[k] == s[j],
        forall|x: u16| #[trigger]
            job_ids(keep_running(s, v)).contains(x) ==> job_ids(s).contains(x),
        job_ids(s).no_duplicates() ==> job_ids(keep_running(s, v)).no_duplicates(),
        pairwise_disjoint(s) && job_ids(s).no_duplicates() ==> pairwise_disjoint(
            keep_running(s, v),
        ),
    decreases s.len(),
{
    if s.len() == 0 {
    } else {
        let st = s.drop_first();
        let vt = v.drop_first();
        let rest = keep_running(st, vt);
        lemma_keep_running_props(st, vt);
        let kept = keep_running(s, v);
        // membership, lifted from the tail by shifting the witness
        assert forall|k: int| 0 <= k < kept.len() implies exists|j: int|
            0 <= j < s.len() && v[j] is Running && #[trigger] kept[k] == s[j] by {
            if v[0] is Running && k == 0 {
                assert(kept[0] == s[0] && v[0] is Running);
            } else {
                let kt = if v[0] is Running {
                    k - 1
                } else {
                    k
                };
                assert(kept[k] == rest[kt]);
                let j = choose|j: int| 0 <= j < st.len() && vt[j] is Running && rest[kt] == st[j];
                assert(st[j] == s[j + 1] && vt[j] == v[j + 1]);
                assert(kept[k] == s[j + 1] && v[j + 1] is Running);
            }
        }
        // id subset, from tail ids
        assert forall|x: u16| #[trigger] job_ids(kept).contains(x) implies job_ids(s).contains(
            x,
        ) by {
            let k = choose|k: int| 0 <= k < job_ids(kept).len() && job_ids(kept)[k] == x;
            assert(kept[k].id == x);
            let j = choose|j: int| 0 <= j < s.len() && v[j] is Running && kept[k] == s[j];
            assert(job_ids(s)[j] == x);
        }
        // distinct ids
        if job_ids(s).no_duplicates() {
            assert forall|i: int, j: int|
                0 <= i < st.len() && 0 <= j < st.len() && i != j implies job_ids(st)[i]
                != job_ids(st)[j] by {
                assert(st[i] == s[i + 1] && st[j] == s[j + 1]);
                assert(job_ids(s)[i + 1] != job_ids(s)[j + 1]);
            }
            assert(job_ids(st).no_duplicates());
            assert forall|i: int, j: int|
                0 <= i < kept.len() && 0 <= j < kept.len() && i != j implies job_ids(kept)[i]
                != job_ids(kept)[j] by {
                if v[0] is Running && (i == 0 || j == 0) {
                    let t = if i == 0 {
                        j
                    } else {
                        i
                    };
                    assert(kept[t] == rest[t - 1]);
                    assert(job_ids(rest).contains(rest[t - 1].id)) by {
                        assert(job_ids(rest)[t - 1] == rest[t - 1].id);
                    }
                    assert(job_ids(st).contains(kept[t].id));
                    let j2 = choose|j2: int| 0 <= j2 < st.len() && job_ids(st)[j2] == kept[t].id;
                    assert(job_ids(s)[j2 + 1] == kept[t].id);
                    assert(job_ids(s)[0] != job_ids(s)[j2 + 1]);
                    assert(kept[0] == s[0]);
                } else {
                    let off = if v[0] is Running {
                        1int
                    } else {
                        0int
                    };
                    assert(kept[i] == rest[i - off] && kept[j] == rest[j - off]);
                    assert(job_ids(rest)[i - off] != job_ids(rest)[j - off]);
                }
            }
        }
        // pairwise disjoint claims; distinct ids rule out one kept job
        // standing at two positions
        if pairwise_disjoint(s) && job_ids(s).no_duplicates() {
            assert forall|i: int, j: int, d: u32|
                #![trigger kept[i].claims(d), kept[j].claims(d)]
                0 <= i < kept.len() && 0 <= j < kept.len() && i != j && kept[i].claims(d) implies !(
                kept[j].claims(d)) by {
                let wi = choose|w: int| 0 <= w < s.len() && v[w] is Running && kept[i] == s[w];
                let wj = choose|w: int| 0 <= w < s.len() && v[w] is Running && kept[j] == s[w];
                if wi == wj {
                    assert(kept[i].id == kept[j].id);
                    assert(job_ids(kept)[i] == job_ids(kept)[j]);
                    assert(false);
                } else {
                    assert(s[wi].claims(d));
                    assert(!s[wj].claims(d));
                }
            }
        }
    }
}

/// Reaping frees its devices: a device claimed by a job whose verdict was not
/// `Running` is claimed by no job that survives the reap.
pub proof fn lemma_reap_frees_device(s: Seq<Job>, v: Seq<ReapVerdict>, i: int, d: u32)
    requires
        pairwise_disjoint(s),
        v.len() == s.len(),
        0 <= i < s.len(),
        s[i].claims(d),
        !(v[i] is Running),
    ensures
        !seq_occupied(keep_running(s, v), d),
{
    lemma_keep_running_props(s, v);
    let kept = keep_running(s, v);
    if seq_occupied(kept, d) {
        let k = choose|k: int| 0 <= k < kept.len() && (#[trigger] kept[k]).claims(d);
        let j = choose|j: int| 0 <= j < s.len() && v[j] is Running && kept[k] == s[j];
        assert(s[j].claims(d));
        assert(j != i);
        assert(!s[j].claims(d));
    }
}

/// The pids among the first `k` processes of `ps` whose uid is neither 0
/// (system) nor `owner_uid`, in order: the unauthorized processes.
pub open spec fn rogue_upto(ps: Seq<GPUprocess>, owner_uid: usize, k: int) -> Seq<usize>
    decreases k,
    when 0 <= k <= ps.len()
{
    if k <= 0 {
        Seq::empty()
    } else if ps[k - 1].user.uid != 0 && ps[k - 1].user.uid != owner_uid {
        rogue_upto(ps, owner_uid, k - 1).push(ps[k - 1].pid)
    } else {
        rogue_upto(ps, owner_uid, k - 1)
    }
}

/// The enforcement decision for one device, given the processes resident on
/// it: nothing is killed on an unknown or unwatched device, nor on a device
/// no active job claims; on a watched, owned device exactly the processes
/// whose uid is neither 0 nor the owner's are killed.
pub open spec fn enforcement_kills(s: SharedState, device_number: u32, ps: Seq<GPUprocess>) -> Seq<
    usize,
> {
    if (device_number as int) < s.devices@.len() && s.devices@[device_number as int].watching {
        match first_claim_from(s.active_jobs@, device_number, 0) {
            Some(i) => rogue_upto(ps, s.active_jobs@[i].owner.uid, ps.len() as int),
            None => Seq::empty(),
        }
    } else {
        Seq::empty()
    }
}

impl SharedState {
    /// Select the processes to kill on device `device_number`, per
    /// [`enforcement_kills`]. The caller delivers the signals; a process
    /// that survives is simply found again on the next pass.
    pub fn rogue_pids(&self, device_number: u32, processes: &Vec<GPUprocess>) -> (pids: Vec<usize>)
        requires
            self.wf(),
        ensures
            pids@ == enforcement_kills(*self, device_number, processes@),
    {
        if (device_number as usize) >= self.devices.len() {
            return Vec::new();
        }
        if !self.devices[device_number as usize].watching {
            return Vec::new();
        }
        proof {
            lemma_first_claim_from(self.active_jobs@, device_number, 0);
        }
        match self.device_owner(device_number) {
            None => Vec::new(),
            Some(j) => {
                proof {
                    if first_claim_from(self.active_jobs@, device_number, 0) != Some(j as int) {
                        let i0 = first_claim_from(self.active_jobs@, device_number, 0)->Some_0;
                        assert(self.active_jobs@[i0].claims(device_number));
                        assert(self.active_jobs@[j as int].claims(device_number));
                        assert(false);
                    }
                }
                let owner_uid = self.active_jobs[j].owner.uid;
                let mut pids: Vec<usize> = Vec::new();
                let mut k: usize = 0;
                while k < processes.len()
                    invariant
                        k <= processes@.len(),
                        pids@ == rogue_upto(processes@, owner_uid, k as int),
                    decreases processes@.len() - k,
                {
                    let p = &processes[k];
                    if p.user.uid != 0 && p.user.uid != owner_uid {
                        pids.push(p.pid);
                    }
                    k = k + 1;
                }
                pids
            },
        }
    }
}

/// Every foreign process is selected: a process whose uid is neither 0 nor
/// the owner's stands in the rogue list.
proof fn lemma_rogue_upto_contains(ps: Seq<GPUprocess>, owner_uid: usize, k: int, n: int)
    requires
        0 <= k < n <= ps.len(),
        ps[k].user.uid != 0,
        ps[k].user.uid != owner_uid,
    ensures
        rogue_upto(ps, owner_uid, n).contains(ps[k].pid),
    decreases n,
{
    if k == n - 1 {
        assert(rogue_upto(ps, owner_uid, n).last() == ps[k].pid);
    } else {
        lemma_rogue_upto_contains(ps, owner_uid, k, n - 1);
        let r0 = rogue_upto(ps, owner_uid, n - 1);
        let m = choose|m: int| 0 <= m < r0.len() && r0[m] == ps[k].pid;
        assert(rogue_upto(ps, owner_uid, n)[m] == ps[k].pid);
    }
}

/// Watch gating: with `watching` off, the enforcement pass selects nothing
/// on the device, whatever runs there; with the flag flipped on and the
/// device owned by an active job, the next pass selects every process whose
/// uid is neither 0 nor the owner's.
pub proof fn lemma_watch_gating(
    s: SharedState,
    s2: SharedState,
    device_number: u32,
    ps: Seq<GPUprocess>,
    k: int,
)
    requires
        (device_number as int) < s.devices@.len(),
        !s.devices@[device_number as int].watching,
        s2.devices@ == s.devices@.update(
            device_number as int,
            DeviceState { device_number, watching: true },
        ),
        s2.active_jobs@ == s.active_jobs@,
        0 <= k < ps.len(),
        ps[k].user.uid != 0,
        match s.spec_owner(device_number) {
            Some(u) => ps[k].user.uid != u.uid,
            None => false,
        },
    ensures
        enforcement_kills(s, device_number, ps) == Seq::<usize>::empty(),
        enforcement_kills(s2, device_number, ps).contains(ps[k].pid),
{
    let i = first_claim_from(s.active_jobs@, device_number, 0)->Some_0;
    lemma_rogue_upto_contains(ps, s.active_jobs@[i].owner.uid, k, ps.len() as int);
}

/// Among the candidate ids `0..=n`, where `n` is the number of current jobs,
/// at least one is free: `n` jobs carry at most `n` distinct ids.
proof fn lemma_some_id_free(s: SharedState)
    requires
        s.queued_jobs@.len() + s.active_jobs@.len() < 65535,
    ensures
        exists|k: u16|
            (k as int) <= s.queued_jobs@.len() + s.active_jobs@.len() && !s.uses_id(k),
{
    broadcast use vstd::seq_lib::seq_to_set_is_finite;

    let n = (s.queued_jobs@.len() + s.active_jobs@.len()) as int;
    if !(exists|k: u16| (k as int) <= n && !s.uses_id(k)) {
        let all = job_ids(s.queued_jobs@) + job_ids(s.active_jobs@);
        let alli = all.map_values(|x: u16| x as int);
        assert(alli.len() == n);
        assert forall|k: int| 0 <= k <= n implies alli.to_set().contains(k) by {
            let ku = k as u16;
            assert(!((ku as int) <= n && !s.uses_id(ku)));
            assert(s.uses_id(ku));
            if job_ids(s.queued_jobs@).contains(ku) {
                let i = choose|i: int|
                    0 <= i < job_ids(s.queued_jobs@).len() && job_ids(s.queued_jobs@)[i] == ku;
                assert(all[i] == ku);
                assert(alli[i] == k);
                assert(alli.contains(k));
            } else {
                let i = choose|i: int|
                    0 <= i < job_ids(s.active_jobs@).len() && job_ids(s.active_jobs@)[i] == ku;
                assert(all[i + job_ids(s.queued_jobs@).len()] == ku);
                assert(alli[i + job_ids(s.queued_jobs@).len()] == k);
                assert(alli.contains(k));
            }
        }
        let r = vstd::set_lib::set_int_range(0, n + 1);
        vstd::set_lib::lemma_int_range(0, n + 1);
        alli.lemma_cardinality_of_set();
        vstd::set_lib::lemma_len_subset(r, alli.to_set());
        assert(false);
    }
}

/// Relies on rand::random: draws a machine-random 16-bit value; nothing is
/// promised of it.
#[verifier::external_body]
fn random_u16() -> u16 {
    rand::random()
}

/// Does some job of `jobs` carry id `id`?
fn seq_has_id(jobs: &Vec<Job>, id: u16) -> (r: bool)
    ensures
        r == job_ids(jobs@).contains(id),
{
    let mut i: usize = 0;
    while i < jobs.len()
        invariant
            i <= jobs@.len(),
            forall|k: int| 0 <= k < i as int ==> job_ids(jobs@)[k] != id,
        decreases jobs@.len() - i,
    {
        if jobs[i].id == id {
            proof {
                assert(job_ids(jobs@)[i as int] == id);
            }
            return true;
        }
        i = i + 1;
    }
    proof {
        assert forall|k: int| 0 <= k < job_ids(jobs@).len() implies job_ids(jobs@)[k] != id by {}
    }
    false
}

/// Does the device list `v` name device `d`?
fn gpus_contain(v: &Vec<u32>, d: u32) -> (r: bool)
    ensures
        r == v@.contains(d),
{
    let mut i: usize = 0;
    while i < v.len()
        invariant
            i <= v@.len(),
            forall|k: int| 0 <= k < i as int ==> v@[k] != d,
        decreases v@.len() - i,
    {
        if v[i] == d {
            return true;
        }
        i = i + 1;
    }
    false
}

} // verus!
