//! The queue of tile jobs that workers take from.
use vstd::prelude::*;

verus! {

/// Jobs waiting to be taken; the most recently added is taken first.
pub struct JobQueue<T> {
    jobs: Vec<T>,
}

impl<T> JobQueue<T> {
    /// The jobs, oldest first.
    pub closed spec fn jobs(&self) -> Seq<T> {
        self.jobs@
    }

    /// A queue holding `jobs`.
    pub fn new(jobs: Vec<T>) -> (r: Self)
        ensures
            r.jobs() == jobs@,
    {
        JobQueue { jobs }
    }

    /// Adds `job` to the queue.
    pub fn add_job(&mut self, job: T)
        ensures
            final(self).jobs() == old(self).jobs().push(job),
    {
        self.jobs.push(job);
    }

    /// Takes the most recently added job, if any is left; a job is handed out once.
    pub fn get_job(&mut self) -> (r: Option<T>)
        ensures
            old(self).jobs().len() == 0 ==> r is None && final(self).jobs() == old(self).jobs(),
            old(self).jobs().len() > 0 ==> r == Some(old(self).jobs().last()) && final(self).jobs()
                == old(self).jobs().drop_last(),
    {
        self.jobs.pop()
    }

    /// Whether no job is left.
    pub fn is_empty(&self) -> (r: bool)
        ensures
            r == (self.jobs().len() == 0),
    {
        self.jobs.len() == 0
    }
}

} // verus!
