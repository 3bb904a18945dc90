//! Work instructions, their results, and the pool of worker threads that
//! executes them asynchronously. The pool assigns monotonically increasing
//! job ids, buffers results that arrive before they are asked for, and
//! correlates every result with the job id under which its instruction was
//! scheduled. The threads, the result channel and the executor run outside
//! the verified world; everything the pool decides about ids and buffered
//! results is verified.
use vstd::prelude::*;

verus! {

/// One subprocess invocation: compile a source file into an object file, or
/// link object files into an executable.
#[derive(Debug)]
pub enum WorkInstruction {
    Link { object_files: Vec<String>, link_libraries: Vec<String>, output_file: String },
    Compile { source_file: String, include_dirs: Vec<String>, output_file: String },
}

/// Mathematical model of a `WorkInstruction`.
pub enum WorkInstructionView {
    Link { object_files: Seq<Seq<char>>, link_libraries: Seq<Seq<char>>, output_file: Seq<char> },
    Compile { source_file: Seq<char>, include_dirs: Seq<Seq<char>>, output_file: Seq<char> },
}

impl View for WorkInstruction {
    type V = WorkInstructionView;

    open spec fn view(&self) -> WorkInstructionView {
        match self {
            WorkInstruction::Link { object_files, link_libraries, output_file } => WorkInstructionView::Link {
                object_files: object_files.deep_view(),
                link_libraries: link_libraries.deep_view(),
                output_file: output_file@,
            },
            WorkInstruction::Compile { source_file, include_dirs, output_file } => WorkInstructionView::Compile {
                source_file: source_file@,
                include_dirs: include_dirs.deep_view(),
                output_file: output_file@,
            },
        }
    }
}

impl DeepView for WorkInstruction {
    type V = WorkInstructionView;

    open spec fn deep_view(&self) -> WorkInstructionView {
        self.view()
    }
}

impl WorkInstruction {
    /// A copy that models the same value.
    pub fn duplicate(&self) -> (r: WorkInstruction)
        ensures
            r@ == self@,
    {
        match self {
            WorkInstruction::Link { object_files, link_libraries, output_file } => WorkInstruction::Link {
                object_files: object_files.clone(),
                link_libraries: link_libraries.clone(),
                output_file: output_file.clone(),
            },
            WorkInstruction::Compile { source_file, include_dirs, output_file } => WorkInstruction::Compile {
                source_file: source_file.clone(),
                include_dirs: include_dirs.clone(),
                output_file: output_file.clone(),
            },
        }
    }
}

/// The outcome of one job: its id, and the captured standard output on
/// success or a formatted failure message on error.
#[derive(Debug)]
pub struct WorkResult {
    pub job_id: usize,
    pub result: Result<String, String>,
}

#[verifier::external_type_specification]
#[verifier::external_body]
pub struct ExThreadPool(threadpool::ThreadPool);

#[verifier::external_type_specification]
#[verifier::external_body]
#[verifier::reject_recursive_types(T)]
pub struct ExSender<T>(std::sync::mpsc::Sender<T>);

#[verifier::external_type_specification]
#[verifier::external_body]
#[verifier::reject_recursive_types(T)]
pub struct ExReceiver<T>(std::sync::mpsc::Receiver<T>);

/// Relies on `threadpool::ThreadPool::new`: builds a pool of exactly
/// `num_workers` OS threads, which bounds the number of jobs in flight at any
/// moment. It panics when `num_workers` is zero, so that input is excluded.
#[verifier::external_body]
fn pool_new(num_workers: usize) -> threadpool::ThreadPool
    requires
        num_workers >= 1,
{
    threadpool::ThreadPool::new(num_workers)
}

/// Relies on `std::sync::mpsc::channel`: a connected sender/receiver pair for
/// worker results.
#[verifier::external_body]
fn result_channel() -> (std::sync::mpsc::Sender<WorkResult>, std::sync::mpsc::Receiver<
    WorkResult,
>) {
    std::sync::mpsc::channel()
}

/// Relies on `threadpool::ThreadPool::execute` and `mpsc::Sender::send`: runs
/// the executor on one of the pool's worker threads, which tags the outcome
/// with `job_id` and sends it into the result channel. Nothing is promised
/// here: results surface only through the receiving end.
#[verifier::external_body]
fn dispatch<F: FnOnce(WorkInstruction) -> Result<String, String> + Send + 'static>(
    pool: &threadpool::ThreadPool,
    sender: &std::sync::mpsc::Sender<WorkResult>,
    job_id: usize,
    instruction: WorkInstruction,
    executor: F,
) {
    let tx = sender.clone();
    pool.execute(
        move ||
            {
                let result = executor(instruction);
                let _ = tx.send(WorkResult { job_id, result });
            },
    );
}

/// Relies on `mpsc::Receiver::recv`: blocks until some worker's result
/// arrives. Aborts when every sender is gone, which cannot happen while the
/// pool holds its own sending end. Nothing is promised of the received value.
#[verifier::external_body]
fn recv_result(receiver: &std::sync::mpsc::Receiver<WorkResult>) -> WorkResult {
    receiver.recv().expect("could not receive job result from channel")
}

/// First index at or after `from` in `results` whose entry carries `job_id`,
/// or `-1` if there is none.
pub open spec fn first_match_from(results: Seq<WorkResult>, from: int, job_id: nat) -> int
    decreases results.len() - from,
{
    if from < 0 || from >= results.len() {
        -1
    } else if results[from].job_id == job_id {
        from
    } else {
        first_match_from(results, from + 1, job_id)
    }
}

/// First index in `results` whose entry carries `job_id`, or `-1`.
pub open spec fn first_match(results: Seq<WorkResult>, job_id: nat) -> int {
    first_match_from(results, 0, job_id)
}

/// Where `first_match_from` lands: either `-1` and no entry from `j` on
/// carries the id, or the first in-range index that does.
pub proof fn lemma_first_match_from_props(results: Seq<WorkResult>, j: int, job_id: nat)
    requires
        0 <= j,
    ensures
        -1 <= first_match_from(results, j, job_id) < results.len(),
        first_match_from(results, j, job_id) < 0 ==> forall|k: int|
            j <= k < results.len() ==> (#[trigger] results[k]).job_id != job_id,
        first_match_from(results, j, job_id) >= 0 ==> j <= first_match_from(results, j, job_id)
            < results.len() && results[first_match_from(results, j, job_id)].job_id == job_id
            && forall|k: int|
            j <= k < first_match_from(results, j, job_id) ==> (#[trigger] results[k]).job_id
                != job_id,
    decreases results.len() - j,
{
    if j < results.len() && results[j].job_id != job_id {
        lemma_first_match_from_props(results, j + 1, job_id);
    }
}

/// Every entry of `rec` carries a job id other than `job_id`.
pub open spec fn all_miss(rec: Seq<WorkResult>, job_id: nat) -> bool {
    forall|k: int| 0 <= k < rec.len() ==> (#[trigger] rec[k]).job_id != job_id
}

/// `wr` is the awaited result and `rec` holds only results for other jobs.
pub open spec fn late_hit(rec: Seq<WorkResult>, wr: WorkResult, job_id: nat) -> bool {
    all_miss(rec, job_id) && wr.job_id == job_id
}

/// A fixed-size pool of worker threads executing compile and link
/// instructions as subprocesses, delivering results correlated by job id.
/// `F` is the executor that app code supplies: it turns one instruction into
/// its outcome and runs on a worker thread.
pub struct WorkPool<F> {
    pub pool: threadpool::ThreadPool,
    pub channel_sender: std::sync::mpsc::Sender<WorkResult>,
    pub channel_receiver: std::sync::mpsc::Receiver<WorkResult>,
    pub executor: F,
    pub results: Vec<WorkResult>,
    pub next_job_id: usize,
    pub number_of_jobs_waiting: usize,
    /// The instruction dispatched under each job id, in id order: job `k`
    /// runs the instruction modeled by `dispatched@[k]`.
    pub dispatched: Ghost<Seq<WorkInstructionView>>,
    /// The job ids received from the channel, in arrival order.
    pub received: Ghost<Seq<usize>>,
}

impl<F: Fn(WorkInstruction) -> Result<String, String> + Send + Clone + 'static> WorkPool<F> {
    /// Results not yet received from the channel never outnumber the jobs
    /// scheduled so far, and the dispatch log holds one entry per assigned
    /// job id.
    pub open spec fn wf(&self) -> bool {
        &&& self.number_of_jobs_waiting <= self.next_job_id
        &&& self.dispatched@.len() == self.next_job_id
    }

    /// A pool of exactly `num_workers` worker threads; `executor` runs each
    /// instruction on one of them.
    pub fn new(num_workers: usize, executor: F) -> (r: WorkPool<F>)
        requires
            num_workers >= 1,
        ensures
            r.wf(),
            r.next_job_id == 0,
            r.number_of_jobs_waiting == 0,
            r.results@.len() == 0,
            r.dispatched@.len() == 0,
            r.received@.len() == 0,
    {
        let (tx, rx) = result_channel();
        WorkPool {
            pool: pool_new(num_workers),
            number_of_jobs_waiting: 0,
            next_job_id: 0,
            channel_sender: tx,
            channel_receiver: rx,
            executor,
            results: Vec::new(),
            dispatched: Ghost(Seq::empty()),
            received: Ghost(Seq::empty()),
        }
    }

    /// Schedules the instruction and returns the job id under which its
    /// result will be delivered. Ids are assigned in increasing order, one
    /// per call; the call itself never blocks on the job.
    pub fn schedule_work(&mut self, instruction: WorkInstruction) -> (job_id: usize)
        requires
            old(self).wf(),
            old(self).next_job_id < usize::MAX,
        ensures
            final(self).wf(),
            job_id == old(self).next_job_id,
            final(self).next_job_id == old(self).next_job_id + 1,
            final(self).number_of_jobs_waiting == old(self).number_of_jobs_waiting + 1,
            final(self).results@ == old(self).results@,
            final(self).dispatched@ == old(self).dispatched@.push(instruction@),
            final(self).received@ == old(self).received@,
    {
        let ghost instruction_view = instruction@;
        let job_id = self.next_job_id;
        dispatch(&self.pool, &self.channel_sender, job_id, instruction, self.executor.clone());
        self.number_of_jobs_waiting += 1;
        self.next_job_id += 1;
        proof {
            self.dispatched@ = self.dispatched@.push(instruction_view);
        }
        job_id
    }

    /// Blocks for the next result from the channel. Its payload is whatever
    /// the worker produced; only the bookkeeping is specified.
    fn wait_for_result_from_channel(&mut self) -> (result: WorkResult)
        requires
            old(self).number_of_jobs_waiting >= 1,
        ensures
            final(self).number_of_jobs_waiting == old(self).number_of_jobs_waiting - 1,
            final(self).results@ == old(self).results@,
            final(self).next_job_id == old(self).next_job_id,
            final(self).dispatched@ == old(self).dispatched@,
            final(self).received@ == old(self).received@.push(result.job_id),
    {
        let result = recv_result(&self.channel_receiver);
        self.number_of_jobs_waiting -= 1;
        proof {
            self.received@ = self.received@.push(result.job_id);
        }
        result
    }

    /// First buffered result carrying `job_id`, if any.
    fn find_first_match(&self, job_id: usize) -> (r: Option<usize>)
        ensures
            match r {
                Some(i) => i == first_match(self.results@, job_id as nat),
                None => first_match(self.results@, job_id as nat) == -1,
            },
    {
        let n = self.results.len();
        let mut k: usize = 0;
        while k < n
            invariant
                n == self.results@.len(),
                k <= n,
                first_match(self.results@, job_id as nat) == first_match_from(
                    self.results@,
                    k as int,
                    job_id as nat,
                ),
            decreases n - k,
        {
            if self.results[k].job_id == job_id {
                return Some(k);
            }
            k += 1;
        }
        None
    }

    /// Blocks until the result for exactly `job_id` is available and returns
    /// its payload. A result buffered earlier is taken from the buffer; any
    /// result received for another job is buffered, never dropped. When the
    /// requested id is neither buffered nor outstanding, no worker can ever
    /// deliver it, and the call reports that as an error of its own.
    pub fn get_result_blocking(&mut self, job_id: usize) -> (r: Result<String, String>)
        requires
            old(self).wf(),
        ensures
            final(self).wf(),
            final(self).next_job_id == old(self).next_job_id,
            final(self).dispatched@ == old(self).dispatched@,
            old(self).received@.len() <= final(self).received@.len() && (forall|k: int|
                0 <= k < old(self).received@.len() ==> final(self).received@[k] == old(
                    self,
                ).received@[k]),
            ({
                let buf = old(self).results@;
                let i = first_match(buf, job_id as nat);
                if i >= 0 {
                    &&& r == buf[i].result
                    &&& final(self).results@ == buf.remove(i)
                    &&& final(self).number_of_jobs_waiting == old(self).number_of_jobs_waiting
                } else {
                    ||| exists|rec: Seq<WorkResult>, wr: WorkResult|
                        #[trigger] late_hit(rec, wr, job_id as nat)
                            && old(self).number_of_jobs_waiting
                            == final(self).number_of_jobs_waiting + rec.len() + 1
                            && final(self).results@ == buf + rec && r == wr.result
                    ||| exists|rec: Seq<WorkResult>|
                        #[trigger] all_miss(rec, job_id as nat)
                            && final(self).number_of_jobs_waiting == 0
                            && old(self).number_of_jobs_waiting == rec.len()
                            && final(self).results@ == buf + rec && r is Err
                }
            }),
    {
        let ghost buf = self.results@;
        let ghost w0 = self.number_of_jobs_waiting;
        let ghost received: Seq<WorkResult> = Seq::empty();
        let mut received = Ghost(received);
        loop
            invariant
                self.wf(),
                buf == old(self).results@,
                w0 == old(self).number_of_jobs_waiting,
                self.next_job_id == old(self).next_job_id,
                self.dispatched@ == old(self).dispatched@,
                old(self).received@.len() <= self.received@.len() && (forall|k: int|
                    0 <= k < old(self).received@.len() ==> self.received@[k] == old(
                        self,
                    ).received@[k]),
                first_match(buf, job_id as nat) >= 0 ==> self.results@ == buf
                    && self.number_of_jobs_waiting == w0,
                first_match(buf, job_id as nat) < 0 ==> {
                    &&& self.results@ == buf + received@
                    &&& all_miss(received@, job_id as nat)
                    &&& w0 == self.number_of_jobs_waiting + received@.len()
                },
            decreases self.number_of_jobs_waiting,
        {
            proof {
                lemma_first_match_from_props(self.results@, 0, job_id as nat);
                lemma_first_match_from_props(buf, 0, job_id as nat);
            }
            match self.find_first_match(job_id) {
                Some(i) => {
                    let ghost pre = self.results@;
                    let wr = self.results.remove(i);
                    let ghost wrg = wr;
                    proof {
                        let ib = first_match(buf, job_id as nat);
                        if ib >= 0 {
                            assert(self.results@ == buf.remove(ib));
                        } else {
                            // The match lies in the received part: every
                            // entry of `buf` misses the id, so the hit sits
                            // past `buf` and removing it leaves `buf` + the
                            // other received entries.
                            assert(pre[i as int].job_id == job_id);
                            if (i as int) < buf.len() {
                                assert(pre[i as int] == buf[i as int]);
                                assert(false);
                            }
                            let rec_rest = received@.remove(i - buf.len());
                            assert forall|k: int| 0 <= k < rec_rest.len() implies (
                            #[trigger] rec_rest[k]).job_id != job_id by {
                                if k < i - buf.len() {
                                    assert(rec_rest[k] == received@[k]);
                                } else {
                                    assert(rec_rest[k] == received@[k + 1]);
                                }
                            }
                            assert(self.results@ =~= buf + rec_rest);
                            assert(late_hit(rec_rest, wrg, job_id as nat));
                            assert(w0 == self.number_of_jobs_waiting + rec_rest.len() + 1);
                        }
                    }
                    return wr.result;
                },
                None => {
                    if self.number_of_jobs_waiting == 0 {
                        proof {
                            assert(first_match(buf, job_id as nat) < 0);
                            assert(all_miss(received@, job_id as nat));
                            assert(self.results@ == buf + received@);
                            assert(w0 == received@.len());
                        }
                        return Err("no outstanding job carries this job id".to_owned());
                    }
                    let result = self.wait_for_result_from_channel();
                    if result.job_id == job_id {
                        let ghost wrg = result;
                        proof {
                            assert(first_match(buf, job_id as nat) < 0);
                            assert(late_hit(received@, wrg, job_id as nat));
                            assert(self.results@ == buf + received@);
                            assert(w0 == self.number_of_jobs_waiting + received@.len() + 1);
                        }
                        return result.result;
                    }
                    proof {
                        received@ = received@.push(result);
                    }
                    self.results.push(result);
                },
            }
        }
    }

    /// Blocks until any outstanding job completes and returns its result;
    /// buffered results are handed out first, newest first. Returns `None`
    /// exactly when no result is buffered and no job is outstanding.
    pub fn get_next_result_blocking(&mut self) -> (r: Option<WorkResult>)
        requires
            old(self).wf(),
        ensures
            final(self).wf(),
            final(self).next_job_id == old(self).next_job_id,
            final(self).dispatched@ == old(self).dispatched@,
            match r {
                Some(wr) => {
                    if old(self).results@.len() > 0 {
                        &&& wr == old(self).results@.last()
                        &&& final(self).results@ == old(self).results@.drop_last()
                        &&& final(self).number_of_jobs_waiting == old(self).number_of_jobs_waiting
                        &&& final(self).received@ == old(self).received@
                    } else {
                        &&& old(self).number_of_jobs_waiting >= 1
                        &&& final(self).number_of_jobs_waiting == old(self).number_of_jobs_waiting - 1
                        &&& final(self).results@ == old(self).results@
                        &&& final(self).received@ == old(self).received@.push(wr.job_id)
                    }
                },
                None => {
                    &&& old(self).results@.len() == 0
                    &&& old(self).number_of_jobs_waiting == 0
                    &&& final(self).results@ == old(self).results@
                    &&& final(self).number_of_jobs_waiting == old(self).number_of_jobs_waiting
                    &&& final(self).received@ == old(self).received@
                },
            },
    {
        match self.results.pop() {
            Some(result) => Some(result),
            None => {
                if self.number_of_jobs_waiting > 0 {
                    let result = self.wait_for_result_from_channel();
                    Some(result)
                } else {
                    None
                }
            },
        }
    }
}

} // verus!
