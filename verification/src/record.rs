use vstd::prelude::*;

verus! {

/// Mathematical model of one sampled process: the value the contracts
/// speak about.
pub struct RecordModel {
    pub pid: u32,
    pub name: Seq<u8>,
    pub cpu_centi_percent: u64,
    pub memory_kb: u64,
    pub timestamp: Seq<u8>,
}

/// One process at sample time. CPU usage is held in hundredths of a
/// percent so that the ranking order and the wire encoding are exact;
/// the name and the timestamp are held as UTF-8 bytes.
pub struct ProcessRecord {
    pub pid: u32,
    pub name: Vec<u8>,
    pub cpu_centi_percent: u64,
    pub memory_kb: u64,
    pub timestamp: Vec<u8>,
}

impl View for ProcessRecord {
    type V = RecordModel;

    open spec fn view(&self) -> RecordModel {
        RecordModel {
            pid: self.pid,
            name: self.name@,
            cpu_centi_percent: self.cpu_centi_percent,
            memory_kb: self.memory_kb,
            timestamp: self.timestamp@,
        }
    }
}

/// The models of a sequence of records.
pub open spec fn models(s: Seq<ProcessRecord>) -> Seq<RecordModel> {
    s.map_values(|p: ProcessRecord| p@)
}

/// A byte copy of a vector, equal as a sequence.
pub fn clone_bytes(v: &Vec<u8>) -> (r: Vec<u8>)
    ensures
        r@ == v@,
{
    let r = v.clone();
    proof {
        assert forall|i: int| 0 <= i < v@.len() implies r@[i] == v@[i] by {
            assert(cloned::<u8>(v@[i], r@[i]));
        }
        assert(r@ =~= v@);
    }
    r
}

impl ProcessRecord {
    /// Builds a record from the plain values of one OS process sample;
    /// memory arrives in bytes and is kept in kilobytes, rounded down.
    pub fn from_sample(
        pid: u32,
        name: Vec<u8>,
        cpu_centi_percent: u64,
        memory_bytes: u64,
        timestamp: Vec<u8>,
    ) -> (r: ProcessRecord)
        ensures
            r@ == (RecordModel {
                pid,
                name: name@,
                cpu_centi_percent,
                memory_kb: memory_bytes / 1024,
                timestamp: timestamp@,
            }),
    {
        ProcessRecord { pid, name, cpu_centi_percent, memory_kb: memory_bytes / 1024, timestamp }
    }

    /// A copy with the same model.
    pub fn duplicate(&self) -> (r: ProcessRecord)
        ensures
            r@ == self@,
    {
        ProcessRecord {
            pid: self.pid,
            name: clone_bytes(&self.name),
            cpu_centi_percent: self.cpu_centi_percent,
            memory_kb: self.memory_kb,
            timestamp: clone_bytes(&self.timestamp),
        }
    }
}

/// CPU usage never increases along the sequence.
pub open spec fn sorted_non_increasing(s: Seq<RecordModel>) -> bool {
    forall|i: int, j: int|
        0 <= i <= j < s.len() ==> s[i].cpu_centi_percent >= s[j].cpu_centi_percent
}

/// Mathematical model of one report.
pub struct ReportModel {
    pub module: Seq<u8>,
    pub process_count: u64,
    pub top_processes: Seq<RecordModel>,
    pub timestamp: Seq<u8>,
}

impl ReportModel {
    /// A report is well formed when it counts at least the processes it
    /// lists and lists them in non-increasing CPU order.
    pub open spec fn wf(self) -> bool {
        &&& self.process_count >= self.top_processes.len()
        &&& sorted_non_increasing(self.top_processes)
    }
}

/// One full snapshot, as sent or logged: immutable once built.
pub struct Report {
    pub module: Vec<u8>,
    pub process_count: u64,
    pub top_processes: Vec<ProcessRecord>,
    pub timestamp: Vec<u8>,
}

impl View for Report {
    type V = ReportModel;

    open spec fn view(&self) -> ReportModel {
        ReportModel {
            module: self.module@,
            process_count: self.process_count,
            top_processes: models(self.top_processes@),
            timestamp: self.timestamp@,
        }
    }
}

/// Pure construction of a report: no failure mode, and the result is
/// well formed whenever the inputs are.
pub fn build_report(
    module: Vec<u8>,
    process_count: u64,
    top_processes: Vec<ProcessRecord>,
    timestamp: Vec<u8>,
) -> (r: Report)
    requires
        process_count >= top_processes@.len(),
        sorted_non_increasing(models(top_processes@)),
    ensures
        r@ == (ReportModel {
            module: module@,
            process_count,
            top_processes: models(top_processes@),
            timestamp: timestamp@,
        }),
        r@.wf(),
{
    Report { module, process_count, top_processes, timestamp }
}

/// Every well-formed report counts at least the processes it lists.
pub proof fn lemma_report_count_covers_top(r: ReportModel)
    requires
        r.wf(),
    ensures
        r.process_count >= r.top_processes.len(),
{
}

} // verus!
