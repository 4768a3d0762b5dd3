//! Data types of the control protocol: commands a client may send, responses
//! the daemon returns, and the configuration record.

use vstd::prelude::*;

verus! {

/// Daemon configuration: the API key used for outbound notifications.
#[derive(Clone, Debug, PartialEq)]
pub struct ClobberConfig {
    pub pings_api_key: String,
}

/// A user of the shared machine. Two records with the same uid denote the
/// same user, whatever their `name` fields say.
#[derive(Clone, Eq, Debug)]
pub struct User {
    pub name: String,
    pub uid: usize,
}

impl User {
    /// A copy of this record, equal to it field for field.
    pub fn duplicate(&self) -> (r: User)
        ensures
            r == *self,
    {
        User { name: self.name.clone(), uid: self.uid }
    }
}

impl PartialEq for User {
    fn eq(&self, other: &User) -> (r: bool) {
        self.uid == other.uid
    }
}

impl vstd::std_specs::cmp::PartialEqSpecImpl for User {
    open spec fn obeys_eq_spec() -> bool {
        true
    }

    open spec fn eq_spec(&self, other: &User) -> bool {
        self.uid == other.uid
    }
}

/// One request to the daemon.
#[derive(Clone, Debug, PartialEq)]
pub enum Command {
    Status,
    Kill,
    SetWatch { device_number: u32, watching: bool },
    QueueJob { user: User, image_id: String, gpus: Vec<u32> },
    ActiveJobs,
    MyJobs { uid: usize },
}

/// What the daemon reports about one active job.
#[derive(Clone, Debug, PartialEq)]
pub struct JobDesc {
    pub id: u16,
    pub owner: User,
    pub requested_gpus: Vec<u32>,
}

/// One queued job of a user, with its 1-based position among all queued jobs.
#[derive(Clone, Debug, PartialEq)]
pub struct QueuedJobDesc {
    pub queue_position: usize,
    pub job: JobDesc,
}

/// One reply from the daemon.
#[derive(Clone, Debug, PartialEq)]
pub enum Response {
    Success,
    Error(String),
    GPUStatus { locks: Vec<Option<User>> },
    ActiveJobs(Vec<JobDesc>),
    MyJobs(Vec<QueuedJobDesc>),
}

} // verus!
