//! Decisions of the standalone GPU-usage reporter: which processes crowd a
//! device, which users share one, and which processes an operator may signal
//! so that on each device only the process with the latest start time stays.
//! Querying the hardware and delivering signals happen outside the library.

use vstd::prelude::*;

verus! {

/// One process resident on a GPU, as the reporter sees it: identity, start
/// time, and the owning account resolved to a name.
#[derive(Clone, Debug)]
pub struct GPUprocess {
    pub name: String,
    pub pid: usize,
    pub start_time: u64,
    pub device_number: usize,
    pub uid: usize,
    pub user: String,
}

/// Process `i` is outranked: some process on the same device has a greater
/// start time, so `i` is not the device's latest arrival.
pub open spec fn outranked(ps: Seq<GPUprocess>, i: int) -> bool {
    exists|j: int|
        0 <= j < ps.len() && (#[trigger] ps[j]).device_number == ps[i].device_number
            && ps[j].start_time > ps[i].start_time
}

/// The pids among the first `k` processes that are outranked on their
/// device, in order.
pub open spec fn offenders_upto(ps: Seq<GPUprocess>, k: int) -> Seq<usize>
    decreases k,
    when 0 <= k <= ps.len()
{
    if k <= 0 {
        Seq::empty()
    } else if outranked(ps, k - 1) {
        offenders_upto(ps, k - 1).push(ps[k - 1].pid)
    } else {
        offenders_upto(ps, k - 1)
    }
}

/// How many of the processes sit on device `d`.
pub open spec fn device_count(ps: Seq<GPUprocess>, d: usize) -> int
    decreases ps.len(),
{
    if ps.len() == 0 {
        0
    } else {
        (if ps[0].device_number == d {
            1int
        } else {
            0int
        }) + device_count(ps.drop_first(), d)
    }
}

/// Is `i`'s start time greater than every other start time on its device?
fn process_outranked(ps: &Vec<GPUprocess>, i: usize) -> (r: bool)
    requires
        i < ps@.len(),
    ensures
        r == outranked(ps@, i as int),
{
    let mut j: usize = 0;
    while j < ps.len()
        invariant
            i < ps@.len(),
            j <= ps@.len(),
            forall|k: int|
                0 <= k < j as int ==> !((#[trigger] ps@[k]).device_number
                    == ps@[i as int].device_number && ps@[k].start_time
                    > ps@[i as int].start_time),
        decreases ps@.len() - j,
    {
        if ps[j].device_number == ps[i].device_number && ps[j].start_time > ps[i].start_time {
            return true;
        }
        j = j + 1;
    }
    false
}

/// The processes to signal so that on each device only the latest arrival
/// stays: every process outranked on its device, in input order.
pub fn select_offenders(processes: &Vec<GPUprocess>) -> (pids: Vec<usize>)
    ensures
        pids@ == offenders_upto(processes@, processes@.len() as int),
{
    let mut pids: Vec<usize> = Vec::new();
    let mut k: usize = 0;
    while k < processes.len()
        invariant
            k <= processes@.len(),
            pids@ == offenders_upto(processes@, k as int),
        decreases processes@.len() - k,
    {
        if process_outranked(processes, k) {
            pids.push(processes[k].pid);
        }
        k = k + 1;
    }
    pids
}

/// Count the resident processes of device `d`.
fn count_on_device(ps: &Vec<GPUprocess>, d: usize) -> (n: usize)
    ensures
        n as int == device_count(ps@, d),
{
    let mut n: usize = 0;
    let mut i: usize = 0;
    while i < ps.len()
        invariant
            i <= ps@.len(),
            n as int == device_count(ps@.subrange(0, i as int), d),
            n <= i,
        decreases ps@.len() - i,
    {
        proof {
            lemma_device_count_push(ps@.subrange(0, i as int), ps@[i as int], d);
            assert(ps@.subrange(0, i as int + 1) =~= ps@.subrange(0, i as int).push(
                ps@[i as int],
            ));
        }
        if ps[i].device_number == d {
            n = n + 1;
        }
        i = i + 1;
    }
    proof {
        assert(ps@.subrange(0, ps@.len() as int) =~= ps@);
    }
    n
}

/// Counting distributes over appending one process.
proof fn lemma_device_count_push(ps: Seq<GPUprocess>, p: GPUprocess, d: usize)
    ensures
        device_count(ps.push(p), d) == device_count(ps, d) + (if p.device_number == d {
            1int
        } else {
            0int
        }),
    decreases ps.len(),
{
    let b = ps.push(p);
    assert(device_count(Seq::<GPUprocess>::empty(), d) == 0);
    if ps.len() == 0 {
        assert(b.drop_first() =~= Seq::<GPUprocess>::empty());
        assert(b[0] == p);
        assert(device_count(b, d) == (if b[0].device_number == d { 1int } else { 0int })
            + device_count(b.drop_first(), d));
    } else {
        assert(b.drop_first() =~= ps.drop_first().push(p));
        lemma_device_count_push(ps.drop_first(), p, d);
        assert(b[0] == ps[0]);
    }
}

/// The devices crowded by more than one resident process: each exactly once,
/// each with at least two processes, and every such device listed.
pub fn crowded_devices(processes: &Vec<GPUprocess>) -> (devs: Vec<usize>)
    ensures
        forall|a: int, b: int|
            0 <= a < devs@.len() && 0 <= b < devs@.len() && a != b ==> devs@[a] != devs@[b],
        forall|a: int| 0 <= a < devs@.len() ==> device_count(processes@, #[trigger] devs@[a]) >= 2,
        forall|d: usize| device_count(processes@, d) >= 2 ==> devs@.contains(d),
{
    let mut devs: Vec<usize> = Vec::new();
    let mut i: usize = 0;
    while i < processes.len()
        invariant
            i <= processes@.len(),
            forall|a: int, b: int|
                0 <= a < devs@.len() && 0 <= b < devs@.len() && a != b ==> devs@[a] != devs@[b],
            forall|a: int|
                0 <= a < devs@.len() ==> device_count(processes@, #[trigger] devs@[a]) >= 2,
            forall|k: int|
                0 <= k < i as int && device_count(
                    processes@,
                    (#[trigger] processes@[k]).device_number,
                ) >= 2 ==> devs@.contains(processes@[k].device_number),
        decreases processes@.len() - i,
    {
        let d = processes[i].device_number;
        if !devices_contain(&devs, d) {
            if count_on_device(processes, d) >= 2 {
                let ghost devs0 = devs@;
                devs.push(d);
                proof {
                    assert forall|k: int|
                        0 <= k < i as int + 1 && device_count(
                            processes@,
                            (#[trigger] processes@[k]).device_number,
                        ) >= 2 implies devs@.contains(processes@[k].device_number) by {
                        if k < i as int {
                            let m = choose|m: int|
                                0 <= m < devs0.len() && devs0[m] == processes@[k].device_number;
                            assert(devs@[m] == processes@[k].device_number);
                        } else {
                            assert(devs@[devs@.len() - 1] == d);
                        }
                    }
                }
            }
        }
        proof {
            assert forall|k: int|
                0 <= k < i as int + 1 && device_count(
                    processes@,
                    (#[trigger] processes@[k]).device_number,
                ) >= 2 implies devs@.contains(processes@[k].device_number) by {}
        }
        i = i + 1;
    }
    proof {
        assert forall|d: usize| device_count(processes@, d) >= 2 implies devs@.contains(d) by {
            lemma_device_count_witness(processes@, d);
            let k = choose|k: int|
                0 <= k < processes@.len() && (#[trigger] processes@[k]).device_number == d;
        }
    }
    devs
}

/// A device with resident processes has at least one resident process.
proof fn lemma_device_count_witness(ps: Seq<GPUprocess>, d: usize)
    requires
        device_count(ps, d) >= 1,
    ensures
        exists|k: int| 0 <= k < ps.len() && (#[trigger] ps[k]).device_number == d,
    decreases ps.len(),
{
    if ps.len() > 0 {
        if ps[0].device_number == d {
            assert(ps[0].device_number == d);
        } else {
            lemma_device_count_witness(ps.drop_first(), d);
            let k = choose|k: int|
                0 <= k < ps.drop_first().len() && (#[trigger] ps.drop_first()[k]).device_number
                    == d;
            assert(ps[k + 1].device_number == d);
        }
    }
}

/// Does the device list name `d`?
fn devices_contain(v: &Vec<usize>, d: usize) -> (r: bool)
    ensures
        r == v@.contains(d),
{
    let mut i: usize = 0;
    while i < v.len()
        invariant
            i <= v@.len(),
            forall|k: int| 0 <= k < i as int ==> v@[k] != d,
        decreases v@.len() - i,
    {
        if v[i] == d {
            return true;
        }
        i = i + 1;
    }
    false
}

/// Some process of `ps` on device `d` belongs to a user with name `nm`.
pub open spec fn name_on_device(ps: Seq<GPUprocess>, d: usize, nm: Seq<char>) -> bool {
    exists|k: int|
        0 <= k < ps.len() && (#[trigger] ps[k]).device_number == d && ps[k].user@ == nm
}

/// The list `v` holds a name with text `nm`.
pub open spec fn name_listed(v: Seq<String>, nm: Seq<char>) -> bool {
    exists|a: int| 0 <= a < v.len() && (#[trigger] v[a])@ == nm
}

/// The distinct names of the users with a process on device `d`, each once,
/// in order of first appearance.
pub fn users_on_device(processes: &Vec<GPUprocess>, d: usize) -> (names: Vec<String>)
    ensures
        forall|a: int, b: int|
            0 <= a < names@.len() && 0 <= b < names@.len() && a != b ==> (#[trigger] names@[a])@
                != (#[trigger] names@[b])@,
        forall|a: int|
            0 <= a < names@.len() ==> name_on_device(processes@, d, (#[trigger] names@[a])@),
        forall|k: int|
            0 <= k < processes@.len() && (#[trigger] processes@[k]).device_number == d
                ==> name_listed(names@, processes@[k].user@),
{
    let mut names: Vec<String> = Vec::new();
    let mut i: usize = 0;
    while i < processes.len()
        invariant
            i <= processes@.len(),
            forall|a: int, b: int|
                0 <= a < names@.len() && 0 <= b < names@.len() && a != b ==> (
                #[trigger] names@[a])@ != (#[trigger] names@[b])@,
            forall|a: int|
                0 <= a < names@.len() ==> name_on_device(processes@, d, (#[trigger] names@[a])@),
            forall|k: int|
                0 <= k < i as int && (#[trigger] processes@[k]).device_number == d
                    ==> name_listed(names@, processes@[k].user@),
        decreases processes@.len() - i,
    {
        if processes[i].device_number == d {
            if !names_contain(&names, &processes[i].user) {
                let ghost names0 = names@;
                names.push(processes[i].user.clone());
                proof {
                    assert(names@[names@.len() - 1]@ == processes@[i as int].user@);
                    assert forall|a: int|
                        0 <= a < names@.len() implies name_on_device(
                        processes@,
                        d,
                        (#[trigger] names@[a])@,
                    ) by {
                        if a < names0.len() {
                            assert(names@[a] == names0[a]);
                        } else {
                            assert((#[trigger] processes@[i as int]).device_number == d
                                && processes@[i as int].user@ == names@[a]@);
                        }
                    }
                    assert forall|k: int|
                        0 <= k < i as int + 1 && (#[trigger] processes@[k]).device_number == d
                            implies name_listed(names@, processes@[k].user@) by {
                        if k < i as int {
                            let a = choose|a: int|
                                0 <= a < names0.len() && (#[trigger] names0[a])@
                                    == processes@[k].user@;
                            assert((#[trigger] names@[a])@ == processes@[k].user@);
                        } else {
                            assert((#[trigger] names@[names@.len() - 1])@
                                == processes@[k].user@);
                        }
                    }
                }
            } else {
                proof {
                    assert(name_listed(names@, processes@[i as int].user@));
                    assert forall|k: int|
                        0 <= k < i as int + 1 && (#[trigger] processes@[k]).device_number == d
                            implies name_listed(names@, processes@[k].user@) by {}
                }
            }
        }
        i = i + 1;
    }
    names
}

/// Does the name list hold a name with this text?
fn names_contain(v: &Vec<String>, name: &String) -> (r: bool)
    ensures
        r == name_listed(v@, name@),
{
    let mut i: usize = 0;
    while i < v.len()
        invariant
            i <= v@.len(),
            forall|k: int| 0 <= k < i as int ==> (#[trigger] v@[k])@ != name@,
        decreases v@.len() - i,
    {
        if v[i].eq(name) {
            proof {
                assert((#[trigger] v@[i as int])@ == name@);
            }
            return true;
        }
        i = i + 1;
    }
    false
}

} // verus!
