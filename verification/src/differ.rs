//! Snapshot differ: structural equality of two ordered port sequences. Any
//! difference in length or in any field of any port counts as a change.

use vstd::prelude::*;

use crate::grammar::{Port, PortV, views_of, ports_scan};

verus! {

/// Two snapshots are equal when they have the same length and hold the same
/// port values in the same order.
pub open spec fn snapshots_equal(a: Seq<PortV>, b: Seq<PortV>) -> bool {
    a.len() == b.len() && forall|i: int| 0 <= i < a.len() ==> a[i] == b[i]
}

/// Field-wise equality of two ports.
fn port_eq(x: &Port, y: &Port) -> (r: bool)
    ensures
        r == (x@ == y@),
{
    let name_eq = x.port == y.port;
    let res_eq = match (x.resolution, y.resolution) {
        (Some(p), Some(q)) => p.0 == q.0 && p.1 == q.1,
        (None, None) => true,
        _ => false,
    };
    name_eq && x.connected == y.connected && x.primary == y.primary && res_eq
}

/// Structural equality of two snapshots.
pub fn equal(prev: &Vec<Port>, curr: &Vec<Port>) -> (r: bool)
    ensures
        r == snapshots_equal(views_of(prev@), views_of(curr@)),
{
    if prev.len() != curr.len() {
        return false;
    }
    let n = prev.len();
    let mut i: usize = 0;
    loop
        invariant
            n == prev@.len(),
            n == curr@.len(),
            0 <= i as int <= n as int,
            forall|j: int| 0 <= j < i as int ==> views_of(prev@)[j] == views_of(curr@)[j],
        ensures
            i as int == n as int,
            forall|j: int| 0 <= j < i as int ==> views_of(prev@)[j] == views_of(curr@)[j],
        decreases n as int - i as int,
    {
        if i >= n {
            break ;
        }
        if !port_eq(&prev[i], &curr[i]) {
            proof {
                assert(views_of(prev@)[i as int] != views_of(curr@)[i as int]);
            }
            return false;
        }
        i = i + 1;
    }
    true
}

/// Every snapshot equals itself.
pub proof fn lemma_equal_reflexive(s: Seq<PortV>)
    ensures
        snapshots_equal(s, s),
{
}

/// Snapshots that differ in length, or in any field of any port, are unequal.
pub proof fn lemma_unequal_differs(a: Seq<PortV>, b: Seq<PortV>)
    requires
        a.len() != b.len() || exists|i: int| 0 <= i < a.len() && a[i] != b[i],
    ensures
        !snapshots_equal(a, b),
{
}

/// Parsing is a function of the text alone: any two port sequences read from
/// the same status text are equal.
pub proof fn lemma_parse_idempotent(s: Seq<char>, r1: Seq<PortV>, r2: Seq<PortV>)
    requires
        r1 == ports_scan(s, 0),
        r2 == ports_scan(s, 0),
    ensures
        snapshots_equal(r1, r2),
{
}

} // verus!
