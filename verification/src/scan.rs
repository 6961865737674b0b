//! The scan engine: configuration, the aggregator's spawn plan, and the
//! whole connect-and-report protocol run against a fixed listener set.
//!
//! A scan is the composition of three verified steps: plan one worker
//! per residue class, probe every port of every class exactly once, and
//! aggregate the reported ports into one ascending result set.  The TCP
//! connect attempt itself is the only unverified ingredient; here it is
//! abstracted to membership in a given listener set, so that the whole
//! protocol can be stated and proved end to end.

use vstd::prelude::*;
use vstd::arithmetic::div_mod::lemma_mod_division_less_than_divisor;
use crate::aggregate::aggregate;
use crate::aggregate::lemma_strictly_sorted_same_values_equal;
use crate::aggregate::strictly_sorted;
use crate::aggregate::ResultSet;
use crate::partition::owns;
use crate::partition::valid_port;
use crate::partition::worker_ports;

verus! {

/// An immutable network address, IPv4 or IPv6, shared read-only by all
/// workers of a scan and never mutated after the scan starts.
#[derive(Clone, Copy, PartialEq, Eq, Structural, Debug)]
pub enum Target {
    /// The four dotted-quad octets of an IPv4 address.
    V4(u8, u8, u8, u8),
    /// The eight 16-bit groups of an IPv6 address.
    V6(u16, u16, u16, u16, u16, u16, u16, u16),
}

/// Why a scan cannot start.  A worker count of zero admits no partition
/// of the port space, so it is rejected before any worker is created and
/// before any connection is attempted.
#[derive(Clone, Copy, PartialEq, Eq, Structural, Debug)]
pub enum ScanError {
    ConfigurationError,
}

/// What one worker owns at spawn time: its id, the shared target, and
/// the total worker count.  Id and count determine the worker's residue
/// class of ports.
#[derive(Clone, Copy, PartialEq, Eq, Structural, Debug)]
pub struct WorkerConfig {
    pub id: u16,
    pub target: Target,
    pub worker_count: u16,
}

impl WorkerConfig {
    /// A usable worker configuration: at least one worker in the scan,
    /// and this worker's id within range.
    pub open spec fn wf(self) -> bool {
        1 <= self.worker_count && self.id < self.worker_count
    }
}

/// Check a scan's worker count before any worker exists: zero is
/// refused with the configuration error, anything else is accepted
/// unchanged.
pub fn validate_worker_count(worker_count: u16) -> (r: Result<u16, ScanError>)
    ensures
        r is Ok <==> worker_count >= 1,
        r matches Ok(n) ==> n == worker_count,
        r matches Err(e) ==> e == ScanError::ConfigurationError,
{
    if worker_count == 0 {
        Err(ScanError::ConfigurationError)
    } else {
        Ok(worker_count)
    }
}

/// The aggregator's spawn plan: exactly `worker_count` workers, with ids
/// `0` up to `worker_count - 1`, every one sharing the same target.  A
/// zero worker count yields the configuration error and an empty plan.
pub fn plan_workers(target: Target, worker_count: u16) -> (r: Result<
    Vec<WorkerConfig>,
    ScanError,
>)
    ensures
        r is Ok <==> worker_count >= 1,
        r matches Ok(plan) ==> {
            &&& plan@.len() == worker_count
            &&& forall|i: int|
                0 <= i < plan@.len() ==> plan@[i] == (WorkerConfig {
                    id: i as u16,
                    target,
                    worker_count,
                })
            &&& forall|i: int| 0 <= i < plan@.len() ==> plan@[i].wf()
        },
        r matches Err(e) ==> e == ScanError::ConfigurationError,
{
    if worker_count == 0 {
        return Err(ScanError::ConfigurationError);
    }
    let mut plan: Vec<WorkerConfig> = Vec::new();
    let mut id: u16 = 0;
    while id < worker_count
        invariant
            id <= worker_count,
            plan@.len() == id,
            forall|i: int|
                0 <= i < plan@.len() ==> plan@[i] == (WorkerConfig {
                    id: i as u16,
                    target,
                    worker_count,
                }),
        decreases worker_count - id,
    {
        plan.push(WorkerConfig { id, target, worker_count });
        id = id + 1;
    }
    Ok(plan)
}

/// Linear membership test: whether `p` is among `ports`.
fn contains_port(ports: &Vec<u16>, p: u16) -> (r: bool)
    ensures
        r == ports@.contains(p),
{
    let mut i: usize = 0;
    while i < ports.len()
        invariant
            i <= ports@.len(),
            forall|k: int| 0 <= k < i ==> ports@[k] != p,
        decreases ports@.len() - i,
    {
        if ports[i] == p {
            proof {
                assert(ports@[i as int] == p);
            }
            return true;
        }
        i = i + 1;
    }
    false
}

/// The ports a scan must report: those inside the port space that are
/// listening.
pub open spec fn should_report(listeners: Seq<u16>, p: u16) -> bool {
    valid_port(p as int) && listeners.contains(p)
}

/// The ports already collected once every worker id below `bound` has
/// finished: the reportable ports whose residue class falls below the
/// bound.
spec fn collected_below(ni: int, bound: int, listeners: Seq<u16>, p: u16) -> bool {
    should_report(listeners, p) && (p as int - 1) % ni < bound
}

/// One whole scan against a fixed set of listening ports: the partition
/// into residue classes, each worker's probe schedule, the fan-in
/// collection and the final sort, with every connect attempt answered by
/// membership in `listeners` instead of the network.  A zero worker
/// count is rejected before anything is probed; otherwise the result set
/// holds exactly the listening ports inside `1..=65535`, each once, in
/// strictly ascending order.
#[verifier::loop_isolation(false)]
#[verifier::rlimit(50)]
pub fn scan_static(worker_count: u16, listeners: &Vec<u16>) -> (r: Result<ResultSet, ScanError>)
    ensures
        r is Ok <==> worker_count >= 1,
        r matches Err(e) ==> e == ScanError::ConfigurationError,
        r matches Ok(ports) ==> {
            &&& strictly_sorted(ports@)
            &&& ports@.no_duplicates()
            &&& forall|p: u16| #[trigger] ports@.contains(p) <==> should_report(listeners@, p)
        },
{
    if worker_count == 0 {
        return Err(ScanError::ConfigurationError);
    }
    let ghost ni: int = worker_count as int;
    proof {
        assert forall|p: u16| valid_port(p as int) implies 0 <= (p as int - 1) % ni < ni by {
            lemma_mod_division_less_than_divisor(p as int - 1, ni);
        }
    }
    let mut collected: Vec<u16> = Vec::new();
    let mut id: u16 = 0;
    while id < worker_count
        invariant
            id <= worker_count,
            collected@.no_duplicates(),
            forall|p: u16|
                #[trigger] collected@.contains(p) <==> collected_below(
                    ni,
                    id as int,
                    listeners@,
                    p,
                ),
        decreases worker_count - id,
    {
        let ports = worker_ports(id, worker_count);
        let mut j: usize = 0;
        while j < ports.len()
            invariant
                j <= ports@.len(),
                collected@.no_duplicates(),
                forall|p: u16|
                    #[trigger] collected@.contains(p) <==> collected_below(
                        ni,
                        id as int,
                        listeners@,
                        p,
                    ) || (ports@.subrange(0, j as int).contains(p) && listeners@.contains(p)),
            decreases ports@.len() - j,
        {
            let p = ports[j];
            let ghost old_collected: Seq<u16> = collected@;
            if contains_port(listeners, p) {
                proof {
                    assert(owns(id as int, ni, p as int));
                    assert(!old_collected.contains(p)) by {
                        if old_collected.contains(p) {
                            if ports@.subrange(0, j as int).contains(p) {
                                let k = choose|k: int|
                                    0 <= k < j && ports@.subrange(0, j as int)[k] == p;
                                assert(ports@[k] == p);
                                assert(ports@[k] < ports@[j as int]);
                            }
                        }
                    }
                }
                collected.push(p);
                proof {
                    assert forall|q: u16|
                        #[trigger] collected@.contains(q)
                            == (old_collected.contains(q) || q == p) by {
                        if collected@.contains(q) {
                            let k = choose|k: int| 0 <= k < collected@.len() && collected@[k] == q;
                            if k < old_collected.len() {
                                assert(old_collected[k] == q);
                            }
                        }
                        if old_collected.contains(q) {
                            let k = choose|k: int|
                                0 <= k < old_collected.len() && old_collected[k] == q;
                            assert(collected@[k] == q);
                        }
                        if q == p {
                            assert(collected@[old_collected.len() as int] == q);
                        }
                    }
                    assert forall|a: int, b: int|
                        0 <= a < collected@.len() && 0 <= b < collected@.len() && a
                            != b implies collected@[a] != collected@[b] by {
                        if a < old_collected.len() && b < old_collected.len() {
                            assert(old_collected[a] == collected@[a]);
                            assert(old_collected[b] == collected@[b]);
                        } else if b == old_collected.len() {
                            assert(collected@[b] == p);
                            if collected@[a] == p {
                                assert(old_collected[a] == p);
                                assert(old_collected.contains(p));
                            }
                        } else {
                            assert(collected@[a] == p);
                            if collected@[b] == p {
                                assert(old_collected[b] == p);
                                assert(old_collected.contains(p));
                            }
                        }
                    }
                }
            }
            proof {
                assert(ports@.subrange(0, j as int + 1) =~= ports@.subrange(0, j as int).push(
                    ports@[j as int],
                ));
                assert forall|q: u16|
                    #[trigger] ports@.subrange(0, j as int + 1).contains(q) == (ports@.subrange(
                        0,
                        j as int,
                    ).contains(q) || q == p) by {
                    let pre = ports@.subrange(0, j as int);
                    if pre.push(p).contains(q) {
                        let k = choose|k: int| 0 <= k < pre.len() + 1 && pre.push(p)[k] == q;
                        if k < pre.len() {
                            assert(pre[k] == q);
                        }
                    }
                    if pre.contains(q) {
                        let k = choose|k: int| 0 <= k < pre.len() && pre[k] == q;
                        assert(pre.push(p)[k] == q);
                    }
                    if q == p {
                        assert(pre.push(p)[pre.len() as int] == q);
                    }
                }
            }
            j = j + 1;
        }
        proof {
            assert(ports@.subrange(0, ports@.len() as int) =~= ports@);
            assert forall|p: u16| #[trigger]
                collected@.contains(p) == collected_below(ni, id as int + 1, listeners@, p) by {
                if ports@.contains(p) {
                    let k = choose|k: int| 0 <= k < ports@.len() && ports@[k] == p;
                    assert(owns(id as int, ni, ports@[k] as int));
                }
                if valid_port(p as int) && (p as int - 1) % ni == id as int {
                    assert(owns(id as int, ni, p as int));
                    assert(ports@.contains(p));
                }
            }
        }
        id = id + 1;
    }
    let result = aggregate(&collected);
    proof {
        assert forall|p: u16| #[trigger] result@.contains(p) == should_report(listeners@, p) by {
            if valid_port(p as int) {
                assert(0 <= (p as int - 1) % ni < ni);
            }
        }
        assert(strictly_sorted(result@));
        assert(result@.no_duplicates());
    }
    Ok(result)
}

/// Idempotence of scanning: a result set is determined by the listener
/// set alone, so repeating a scan of an unchanged target — with any
/// worker counts — yields the identical result set.  The two premises
/// are exactly what `scan_static` ensures of each run's result.
pub proof fn lemma_scan_deterministic(x: Seq<u16>, y: Seq<u16>, listeners: Seq<u16>)
    requires
        strictly_sorted(x),
        forall|p: u16| #[trigger] x.contains(p) <==> should_report(listeners, p),
        strictly_sorted(y),
        forall|p: u16| #[trigger] y.contains(p) <==> should_report(listeners, p),
    ensures
        x == y,
{
    lemma_strictly_sorted_same_values_equal(x, y);
}

} // verus!
