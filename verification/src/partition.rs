//! Partition of the TCP port space into per-worker residue classes.
//!
//! A scan with `n` workers gives worker `id` the ports
//! `id + 1, id + 1 + n, id + 1 + 2n, ...` up to 65535: the classes are
//! disjoint and together cover every port in `1..=65535`, so each port is
//! probed by exactly one worker exactly once.

use vstd::prelude::*;
use vstd::arithmetic::div_mod::lemma_fundamental_div_mod;
use vstd::arithmetic::div_mod::lemma_mod_add_multiples_vanish;
use vstd::arithmetic::div_mod::lemma_fundamental_div_mod_converse_div;
use vstd::arithmetic::div_mod::lemma_fundamental_div_mod_converse_mod;
use vstd::arithmetic::div_mod::lemma_mod_decreases;
use vstd::arithmetic::div_mod::lemma_mod_division_less_than_divisor;
use vstd::arithmetic::div_mod::lemma_small_mod;

verus! {

/// The port numbers a scan may probe: TCP ports `1..=65535`.
pub open spec fn valid_port(p: int) -> bool {
    1 <= p <= 65535
}

/// Worker `id` of `n` owns port `p`: the classes are residues modulo the
/// worker count, worker `id` starting at port `id + 1`.
pub open spec fn owns(id: int, n: int, p: int) -> bool {
    &&& valid_port(p)
    &&& 0 <= id < n
    &&& (p - 1) % n == id
}

/// Two numbers with the same residue and less than one modulus apart are
/// equal.
proof fn lemma_same_residue_close(a: int, b: int, n: int)
    requires
        1 <= n,
        0 <= a <= b,
        b < a + n,
        a % n == b % n,
    ensures
        a == b,
{
    let qa = a / n;
    let qb = b / n;
    lemma_fundamental_div_mod(a, n);
    lemma_fundamental_div_mod(b, n);
    assert(b - a == n * (qb - qa)) by (nonlinear_arith)
        requires
            a == n * qa + a % n,
            b == n * qb + b % n,
            a % n == b % n,
    ;
    assert(qb - qa == 0) by (nonlinear_arith)
        requires
            n >= 1,
            0 <= n * (qb - qa) < n,
    ;
}

/// Every valid port is owned by exactly one worker id, namely
/// `(p - 1) % n`: the partition is total and non-overlapping.
pub proof fn lemma_partition(n: int, p: int)
    requires
        1 <= n <= 65535,
        valid_port(p),
    ensures
        owns((p - 1) % n, n, p),
        forall|id: int| owns(id, n, p) ==> id == (p - 1) % n,
{
    lemma_mod_division_less_than_divisor(p - 1, n);
}

/// A single worker's class is the whole port space.
pub proof fn lemma_single_worker_covers_all(p: int)
    requires
        valid_port(p),
    ensures
        owns(0, 1, p),
{
    lemma_mod_division_less_than_divisor(p - 1, 1);
}

/// With the maximal worker count, each worker owns exactly the one port
/// `id + 1`.
pub proof fn lemma_max_workers_single_port(id: int, p: int)
    requires
        0 <= id < 65535,
    ensures
        owns(id, 65535, p) <==> p == id + 1,
{
    if owns(id, 65535, p) {
        lemma_small_mod((p - 1) as nat, 65535 as nat);
    }
    if p == id + 1 {
        lemma_small_mod(id as nat, 65535 as nat);
    }
}

/// One worker's probe schedule as a lazy, finite generated sequence over
/// its residue class: it yields `id + 1`, `id + 1 + n`, and so on while
/// they stay within the port space, then ends.  Not restartable.  The
/// termination condition lives in the sequence itself, not in the
/// consumer's arithmetic.
pub struct PortSequence {
    cursor: u32,
    step: u32,
}

impl PortSequence {
    /// The sequence is well formed: the stride is a worker count, and
    /// the cursor never runs more than one stride past the port space.
    pub closed spec fn wf(self) -> bool {
        &&& 1 <= self.step <= 65535
        &&& 1 <= self.cursor <= 65535 + self.step
    }

    /// The next port the sequence will yield, if any is left.
    pub closed spec fn peek(self) -> Option<u16> {
        if self.cursor <= 65535 {
            Some(self.cursor as u16)
        } else {
            None
        }
    }

    /// The stride between yielded ports: the scan's worker count.
    pub closed spec fn stride(self) -> int {
        self.step as int
    }

    /// The residue class the sequence walks: the id of the worker whose
    /// schedule it is.
    pub closed spec fn class_id(self) -> int {
        (self.cursor - 1) % (self.step as int)
    }

    /// The schedule of worker `id` out of `n`, poised at its first port.
    pub fn new(id: u16, n: u16) -> (s: Self)
        requires
            1 <= n,
            id < n,
        ensures
            s.wf(),
            s.stride() == n,
            s.class_id() == id,
            s.peek() == Some((id + 1) as u16),
    {
        proof {
            lemma_small_mod(id as nat, n as nat);
        }
        PortSequence { cursor: id as u32 + 1, step: n as u32 }
    }

    /// Yield the next port of the residue class and advance one stride;
    /// `None` once the class is exhausted, and forever after.  Every
    /// yielded port is one the worker owns, and they come in strictly
    /// increasing order.
    pub fn next(&mut self) -> (r: Option<u16>)
        requires
            old(self).wf(),
        ensures
            final(self).wf(),
            final(self).stride() == old(self).stride(),
            final(self).class_id() == old(self).class_id(),
            r == old(self).peek(),
            r matches Some(p) ==> {
                &&& owns(old(self).class_id(), old(self).stride(), p as int)
                &&& final(self).peek() == (if p as int + old(self).stride() <= 65535 {
                    Some((p as int + old(self).stride()) as u16)
                } else {
                    None::<u16>
                })
            },
            r is None ==> final(self).peek() is None && *final(self) == *old(self),
    {
        if self.cursor <= 65535 {
            let p = self.cursor as u16;
            proof {
                lemma_mod_add_multiples_vanish(self.cursor as int - 1, self.step as int);
                lemma_mod_division_less_than_divisor(self.cursor as int - 1, self.step as int);
            }
            self.cursor = self.cursor + self.step;
            Some(p)
        } else {
            None
        }
    }
}

/// The ports worker `id` probes, in the order it probes them,
/// materialized as one vector: `id + 1, id + 1 + n, ...` capped at
/// 65535.  The schedule is strictly increasing and complete: every port
/// the worker owns is in it.
pub fn worker_ports(id: u16, n: u16) -> (r: Vec<u16>)
    requires
        1 <= n,
        id < n,
    ensures
        forall|k: int| 0 <= k < r@.len() ==> r@[k] as int == id as int + 1 + k * (n as int),
        forall|i: int, j: int| 0 <= i < j < r@.len() ==> r@[i] < r@[j],
        forall|k: int| 0 <= k < r@.len() ==> owns(id as int, n as int, r@[k] as int),
        forall|q: u16| owns(id as int, n as int, q as int) ==> r@.contains(q),
        r@.len() == (65534 - id as int) / (n as int) + 1,
{
    let mut r: Vec<u16> = Vec::new();
    let mut port: u32 = id as u32 + 1;
    proof {
        assert(r@.len() * (n as int) == 0) by (nonlinear_arith)
            requires
                r@.len() == 0,
        ;
        assert forall|q: u16|
            owns(id as int, n as int, q as int) && (q as int) < port as int implies r@.contains(
            q,
        ) by {
            lemma_mod_decreases((q as int - 1) as nat, n as nat);
        }
    }
    while port <= 65535
        invariant
            1 <= n,
            id < n,
            port as int == id as int + 1 + r@.len() * (n as int),
            port as int <= 65535 + n as int,
            forall|k: int| 0 <= k < r@.len() ==> r@[k] as int == id as int + 1 + k * (n as int),
            forall|k: int| 0 <= k < r@.len() ==> (r@[k] as int) < port as int,
            forall|i: int, j: int| 0 <= i < j < r@.len() ==> r@[i] < r@[j],
            forall|k: int| 0 <= k < r@.len() ==> owns(id as int, n as int, r@[k] as int),
            forall|q: u16|
                owns(id as int, n as int, q as int) && (q as int) < port as int
                    ==> r@.contains(q),
        decreases 65536 + n as int - port as int,
    {
        let ghost old_r: Seq<u16> = r@;
        let ghost len: int = r@.len() as int;
        let ghost ni: int = n as int;
        let ghost idi: int = id as int;
        r.push(port as u16);
        proof {
            assert((len + 1) * ni == len * ni + ni) by (nonlinear_arith);
            lemma_fundamental_div_mod_converse_mod(port as int - 1, ni, len, idi);
            assert(r@[len] as int == port as int);
            assert forall|q: u16|
                owns(idi, ni, q as int) && (q as int) < port as int + ni implies r@.contains(
                q,
            ) by {
                if (q as int) < port as int {
                    let i = choose|i: int| 0 <= i < old_r.len() && old_r[i] == q;
                    assert(r@[i] == q);
                } else {
                    lemma_same_residue_close(port as int - 1, q as int - 1, ni);
                    assert(r@[len] == q);
                }
            }
        }
        port = port + n as u32;
    }
    proof {
        let ni: int = n as int;
        let idi: int = id as int;
        let len: int = r@.len() as int;
        if len == 0 {
            assert(port as int == idi + 1);
        }
        assert((len - 1) * ni == len * ni - ni) by (nonlinear_arith);
        let x: int = 65534 - idi;
        let s: int = x - (len - 1) * ni;
        lemma_fundamental_div_mod_converse_div(x, ni, len - 1, s);
    }
    r
}

} // verus!
