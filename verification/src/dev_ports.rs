//! Telling common development ports apart from the rest.

use vstd::prelude::*;
use crate::inventory::models_of;
use crate::record::{Port, PortModel};

verus! {

/// The port ranges that development tooling commonly listens on:
/// web-framework dev servers, the usual databases and caches, and the
/// common web-server ports.
pub open spec fn is_dev_port_spec(port: u32) -> bool {
    ||| (3000 <= port && port <= 3010)
    ||| (4000 <= port && port <= 4010)
    ||| (5000 <= port && port <= 5010)
    ||| port == 5173
    ||| port == 5432
    ||| port == 6379
    ||| (8000 <= port && port <= 8010)
    ||| (8080 <= port && port <= 8090)
    ||| (9000 <= port && port <= 9010)
    ||| port == 9200
    ||| port == 27017
    ||| port == 1420
}

/// Does the port fall in one of the common development ranges?
pub fn is_dev_port(port: u32) -> (b: bool)
    ensures
        b == is_dev_port_spec(port),
{
    (3000 <= port && port <= 3010) || (4000 <= port && port <= 4010)
        || (5000 <= port && port <= 5010) || port == 5173 || port == 5432 || port == 6379
        || (8000 <= port && port <= 8010) || (8080 <= port && port <= 8090)
        || (9000 <= port && port <= 9010) || port == 9200 || port == 27017 || port == 1420
}

/// The records on development ports, in their original order.
pub open spec fn dev_only(s: Seq<PortModel>) -> Seq<PortModel>
    decreases s.len(),
{
    if s.len() == 0 {
        Seq::empty()
    } else {
        dev_only(s.drop_last()) + (if is_dev_port_spec(s.last().port) {
            seq![s.last()]
        } else {
            Seq::empty()
        })
    }
}

/// Keeps only the records whose port is a development port.
pub fn filter_dev_ports(ports: Vec<Port>) -> (devs: Vec<Port>)
    ensures
        models_of(devs@) == dev_only(models_of(ports@)),
{
    let ghost all = models_of(ports@);
    let mut rest = ports;
    let mut devs: Vec<Port> = Vec::new();
    proof {
        assert(all.take(0) =~= Seq::<PortModel>::empty());
        assert(models_of(devs@) =~= dev_only(all.take(0)));
        assert(models_of(rest@) =~= all.skip(0));
    }
    let ghost total = all.len();
    while rest.len() > 0
        invariant
            total == all.len(),
            rest@.len() <= total,
            models_of(rest@) == all.skip(total - rest@.len()),
            models_of(devs@) == dev_only(all.take(total - rest@.len())),
        decreases rest@.len(),
    {
        let ghost k = total - rest@.len();
        let p = rest.remove(0);
        proof {
            assert(models_of(rest@) =~= all.skip(k).drop_first());
            assert(all.skip(k).drop_first() =~= all.skip(k + 1));
            assert(p@ == all.skip(k)[0]);
            assert(all.skip(k)[0] == all[k]);
            assert(all.take(k + 1).drop_last() =~= all.take(k));
            assert(all.take(k + 1).last() == all[k]);
        }
        let ghost devs_before = devs@;
        if is_dev_port(p.port) {
            devs.push(p);
            proof {
                assert(models_of(devs@) =~= models_of(devs_before).push(p@));
                assert(dev_only(all.take(k)) + seq![all[k]]
                    =~= dev_only(all.take(k)).push(all[k]));
            }
        } else {
            proof {
                assert(dev_only(all.take(k)) + Seq::<PortModel>::empty()
                    =~= dev_only(all.take(k)));
            }
        }
    }
    proof {
        assert(all.take(total as int) =~= all);
    }
    devs
}

} // verus!
