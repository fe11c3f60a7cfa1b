use crate::clock;
use crate::rank::{rank, rank_spec};
use crate::record::{build_report, models, ProcessRecord, Report};
use crate::sched::TOP_PROCESS_COUNT;
use vstd::math::min;
use vstd::prelude::*;

verus! {

/// The agent's constant name, `process_monitor`, as UTF-8 bytes.
pub open spec fn module_name_spec() -> Seq<u8> {
    seq![112u8, 114u8, 111u8, 99u8, 101u8, 115u8, 115u8, 95u8, 109u8, 111u8, 110u8, 105u8, 116u8, 111u8, 114u8]
}

/// The constant module name as a vector.
pub fn module_name() -> (v: Vec<u8>)
    ensures
        v@ == module_name_spec(),
{
    let mut v: Vec<u8> = Vec::new();
    v.push(112);
    v.push(114);
    v.push(111);
    v.push(99);
    v.push(101);
    v.push(115);
    v.push(115);
    v.push(95);
    v.push(109);
    v.push(111);
    v.push(110);
    v.push(105);
    v.push(116);
    v.push(111);
    v.push(114);
    proof {
        assert(v@ =~= module_name_spec());
    }
    v
}

/// One tick's computation, between the OS sample and the delivery:
/// rank the sampled records, stamp the time, and build the report. The
/// count is what the sampler observed in total, never below the
/// sample's own length.
pub fn make_report(records: &Vec<ProcessRecord>, total_count: u64) -> (r: Report)
    requires
        records@.len() <= total_count,
    ensures
        r@.module == module_name_spec(),
        r@.process_count == total_count,
        r@.top_processes == rank_spec(models(records@), TOP_PROCESS_COUNT as int),
        r@.top_processes.len() == min(TOP_PROCESS_COUNT as int, records@.len() as int),
        r@.timestamp.len() >= 25,
        forall|i: int| 0 <= i < r@.timestamp.len() ==> clock::json_plain(#[trigger] r@.timestamp[i]),
        r@.wf(),
{
    let top = rank(records, TOP_PROCESS_COUNT);
    let stamp = clock::now_rfc3339();
    build_report(module_name(), total_count, top, stamp)
}

} // verus!
