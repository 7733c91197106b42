use vstd::prelude::*;
use vstd::string::StringSliceAdditionalSpecFns;

use super::{CpuView, Scheduler, SchedulerState, SchedulerView};
use crate::device_tree::{
    first_named_property, lemma_reg_name, node_children, node_properties, reg_name, u32_at, Node,
    NodeView,
};
use crate::utils::nul_from;
use vstd::utf8::valid_utf8;

verus! {

/// How the name of a core's node starts: `cpu@`.
pub open spec fn cpu_prefix() -> Seq<u8> {
    seq![99u8, 112, 117, 64]
}

/// "enable-method", the property that says how a core is started.
pub open spec fn enable_method_name() -> Seq<u8> {
    seq![101u8, 110, 97, 98, 108, 101, 45, 109, 101, 116, 104, 111, 100]
}

/// "psci", the only enable method supported.
pub open spec fn psci_name() -> Seq<u8> {
    seq![112u8, 115, 99, 105]
}

pub open spec fn is_cpu_node(n: NodeView) -> bool {
    cpu_prefix().len() <= n.0.len() && n.0.subrange(0, 4) == cpu_prefix()
}

/// The id of the core node `n`: the first cell of its `reg`.
pub open spec fn cpu_id_of(n: NodeView, strs: Seq<u8>) -> Option<u32> {
    match first_named_property(node_properties(n, strs), reg_name()) {
        Some(reg) => match u32_at(reg.1, 0) {
            Some((id, _)) => Some(id),
            None => None,
        },
        None => None,
    }
}

/// The ids of the core nodes among `s`, in order; `None` if one of them has no id.
pub open spec fn cpu_ids_from(s: Seq<NodeView>, strs: Seq<u8>) -> Option<Seq<u32>>
    decreases s.len(),
{
    if s.len() == 0 {
        Some(Seq::empty())
    } else {
        let rest = cpu_ids_from(s.drop_first(), strs);
        if is_cpu_node(s[0]) {
            match (cpu_id_of(s[0], strs), rest) {
                (Some(id), Some(r)) => Some(seq![id] + r),
                _ => None,
            }
        } else {
            rest
        }
    }
}

/// The ids of the cores under the `/cpus` node `cpus`, which must use one address cell and no
/// size cell.
pub open spec fn cpu_ids_spec(cpus: NodeView, strs: Seq<u8>) -> Option<Seq<u32>> {
    if cpus.2 == 1 && cpus.3 == 0 {
        cpu_ids_from(node_children(cpus, strs), strs)
    } else {
        None
    }
}

/// The id of each core the device tree's `/cpus` node lists, in order; `None` when the node
/// uses other cells sizes or a core has no id.
#[verifier::rlimit(40)]
pub fn cpu_ids(cpus: &Node) -> (r: Option<Vec<u32>>)
    requires
        cpus.wf(),
    ensures
        match cpu_ids_spec(cpus@, cpus.strs()) {
            Some(ids) => r matches Some(v) && v@ == ids,
            None => r is None,
        },
{
    if cpus.address_cells() != 1 || cpus.size_cells() != 0 {
        return None;
    }
    proof {
        lemma_reg_name();
    }
    let prefix: [u8; 4] = [99, 112, 117, 64];
    proof {
        assert(prefix@ =~= cpu_prefix());
    }
    let ghost strs = cpus.strs();
    let mut ids: Vec<u32> = Vec::new();
    let mut it = cpus.children();
    loop
        invariant
            it.wf(),
            it.strs() == strs,
            strs == cpus.strs(),
            prefix@ == cpu_prefix(),
            reg_name() == "reg".spec_bytes(),
            cpus@.2 == 1 && cpus@.3 == 0,
            cpu_ids_from(node_children(cpus@, strs), strs) == match cpu_ids_from(
                it.remaining(),
                strs,
            ) {
                Some(r) => Some(ids@ + r),
                None => None::<Seq<u32>>,
            },
        decreases it.remaining().len(),
    {
        let ghost rem = it.remaining();
        match it.next() {
            None => {
                proof {
                    assert(ids@ + Seq::<u32>::empty() =~= ids@);
                }
                return Some(ids);
            },
            Some(c) => {
                proof {
                    assert(rem.drop_first() == it.remaining());
                    assert(c@ == rem[0]);
                }
                if crate::utils::bytes_starts_with(c.name().as_bytes(), &prefix) {
                    assert(is_cpu_node(c@));
                    let reg = match c.get_property("reg") {
                        Some(p) => p,
                        None => return None,
                    };
                    let mut b = reg.buff();
                    let id = match b.consume_be_u32() {
                        Some(v) => v,
                        None => return None,
                    };
                    assert(cpu_id_of(c@, strs) == Some(id));
                    proof {
                        match cpu_ids_from(it.remaining(), strs) {
                            Some(r) => {
                                assert(ids@.push(id) + r =~= ids@ + (seq![id] + r));
                            },
                            None => {},
                        }
                    }
                    ids.push(id);
                }
            },
        }
    }
}

/// Register each core of `ids`; the one whose id is `boot_cpu_id` is the main core.
pub fn register_cpus(sched: &mut Scheduler, ids: &Vec<u32>, boot_cpu_id: u32)
    requires
        old(sched).wf(),
        old(sched)@.state == SchedulerState::Initing,
        forall|i: int, j: int| 0 <= i < j < ids@.len() ==> ids@[i] != ids@[j],
        forall|i: int, c: int|
            0 <= i < ids@.len() && 0 <= c < old(sched)@.cpus.len() ==> #[trigger] ids@[i] != (
            #[trigger] old(sched)@.cpus[c]).id,
        forall|c: int| 0 <= c < old(sched)@.cpus.len() ==> !(#[trigger] old(sched)@.cpus[c]).is_main_cpu,
    ensures
        final(sched).wf(),
        final(sched)@ == (SchedulerView {
            cpus: old(sched)@.cpus + ids@.map_values(
                |id: u32|
                    CpuView {
                        id,
                        is_main_cpu: id == boot_cpu_id,
                        queue: Seq::empty(),
                        idle: None,
                        current: None,
                        irqs_depth: 1,
                    },
            ),
            ..old(sched)@
        }),
{
    let ghost start = sched@;
    let mut i: usize = 0;
    while i < ids.len()
        invariant
            sched.wf(),
            i <= ids@.len(),
            forall|a: int, b: int| 0 <= a < b < ids@.len() ==> ids@[a] != ids@[b],
            forall|a: int, c: int|
                0 <= a < ids@.len() && 0 <= c < start.cpus.len() ==> #[trigger] ids@[a] != (
                #[trigger] start.cpus[c]).id,
            forall|c: int| 0 <= c < start.cpus.len() ==> !(#[trigger] start.cpus[c]).is_main_cpu,
            sched@ == (SchedulerView {
                cpus: start.cpus + ids@.subrange(0, i as int).map_values(
                    |id: u32|
                        CpuView {
                            id,
                            is_main_cpu: id == boot_cpu_id,
                            queue: Seq::empty(),
                            idle: None,
                            current: None,
                            irqs_depth: 1,
                        },
                ),
                ..start
            }),
            start == old(sched)@,
            start.state == SchedulerState::Initing,
        decreases ids@.len() - i,
    {
        let id = ids[i];
        proof {
            assert forall|c: int| 0 <= c < sched@.cpus.len() implies (#[trigger] sched@.cpus[c]).id
                != id && !(id == boot_cpu_id && sched@.cpus[c].is_main_cpu) by {
                if c >= start.cpus.len() {
                    let k = c - start.cpus.len();
                    assert(sched@.cpus[c].id == ids@[k]);
                }
            }
        }
        sched.register_cpu(id, id == boot_cpu_id);
        proof {
            let f = |id: u32|
                CpuView {
                    id,
                    is_main_cpu: id == boot_cpu_id,
                    queue: Seq::empty(),
                    idle: None,
                    current: None,
                    irqs_depth: 1,
                };
            assert(ids@.subrange(0, i + 1).map_values(f) =~= ids@.subrange(0, i as int).map_values(
                f,
            ).push(f(id)));
            assert(start.cpus + ids@.subrange(0, i + 1).map_values(f) =~= (start.cpus
                + ids@.subrange(0, i as int).map_values(f)).push(f(id)));
        }
        i += 1;
    }
    proof {
        assert(ids@.subrange(0, ids@.len() as int) =~= ids@);
    }
}

/// Whether the value `v` of a core's `enable-method` is the string "psci".
pub open spec fn is_psci(v: Seq<u8>) -> bool {
    let e = nul_from(v, 0);
    &&& e < v.len()
    &&& valid_utf8(v.subrange(0, e))
    &&& v.subrange(0, e) == psci_name()
}

/// The ids of the core nodes among `s` other than `boot`, in order; `None` if one of the
/// cores has no id, or if one to start is not started with PSCI.
pub open spec fn cpus_to_start_from(s: Seq<NodeView>, strs: Seq<u8>, boot: u32) -> Option<
    Seq<u32>,
>
    decreases s.len(),
{
    if s.len() == 0 {
        Some(Seq::empty())
    } else {
        let rest = cpus_to_start_from(s.drop_first(), strs, boot);
        if is_cpu_node(s[0]) {
            match (cpu_id_of(s[0], strs), rest) {
                (Some(id), Some(r)) => if id == boot {
                    Some(r)
                } else {
                    match first_named_property(node_properties(s[0], strs), enable_method_name()) {
                        Some(m) => if is_psci(m.1) {
                            Some(seq![id] + r)
                        } else {
                            None
                        },
                        None => None,
                    }
                },
                _ => None,
            }
        } else {
            rest
        }
    }
}

proof fn lemma_names()
    ensures
        "reg".spec_bytes() == reg_name(),
        "enable-method".spec_bytes() == enable_method_name(),
{
    lemma_reg_name();
    reveal_strlit("enable-method");
    vstd::string::is_ascii_spec_bytes("enable-method");
    assert("enable-method".spec_bytes() =~= enable_method_name());
}

/// The cores that the boot core `boot_cpu_id` starts, in the order of the `/cpus` node
/// `cpus`: every other core, each with PSCI. `None` when the node uses other cells sizes, a
/// core has no id, or a core to start has another enable method.
#[verifier::rlimit(60)]
pub fn start_cpus(cpus: &Node, boot_cpu_id: u32) -> (r: Option<Vec<u32>>)
    requires
        cpus.wf(),
    ensures
        match (if cpus@.2 == 1 && cpus@.3 == 0 {
            cpus_to_start_from(node_children(cpus@, cpus.strs()), cpus.strs(), boot_cpu_id)
        } else {
            None
        }) {
            Some(ids) => r matches Some(v) && v@ == ids,
            None => r is None,
        },
{
    if cpus.address_cells() != 1 || cpus.size_cells() != 0 {
        return None;
    }
    proof {
        lemma_names();
    }
    let prefix: [u8; 4] = [99, 112, 117, 64];
    let psci: [u8; 4] = [112, 115, 99, 105];
    proof {
        assert(prefix@ =~= cpu_prefix());
        assert(psci@ =~= psci_name());
    }
    let ghost strs = cpus.strs();
    let mut ids: Vec<u32> = Vec::new();
    let mut it = cpus.children();
    loop
        invariant
            it.wf(),
            it.strs() == strs,
            strs == cpus.strs(),
            prefix@ == cpu_prefix(),
            psci@ == psci_name(),
            reg_name() == "reg".spec_bytes(),
            enable_method_name() == "enable-method".spec_bytes(),
            cpus@.2 == 1 && cpus@.3 == 0,
            cpus_to_start_from(node_children(cpus@, strs), strs, boot_cpu_id) == match cpus_to_start_from(
                it.remaining(),
                strs,
                boot_cpu_id,
            ) {
                Some(r) => Some(ids@ + r),
                None => None::<Seq<u32>>,
            },
        decreases it.remaining().len(),
    {
        let ghost rem = it.remaining();
        match it.next() {
            None => {
                proof {
                    assert(ids@ + Seq::<u32>::empty() =~= ids@);
                }
                return Some(ids);
            },
            Some(c) => {
                proof {
                    assert(rem.drop_first() == it.remaining());
                    assert(c@ == rem[0]);
                }
                if crate::utils::bytes_starts_with(c.name().as_bytes(), &prefix) {
                    assert(is_cpu_node(c@));
                    let reg = match c.get_property("reg") {
                        Some(p) => p,
                        None => return None,
                    };
                    let mut b = reg.buff();
                    let id = match b.consume_be_u32() {
                        Some(v) => v,
                        None => return None,
                    };
                    assert(cpu_id_of(c@, strs) == Some(id));
                    if id != boot_cpu_id {
                        let method = match c.get_property("enable-method") {
                            Some(p) => p,
                            None => return None,
                        };
                        let mut mb = method.buff();
                        let name = match mb.consume_str() {
                            Some(s) => s,
                            None => return None,
                        };
                        if !crate::utils::bytes_eq(name.as_bytes(), &psci) {
                            return None;
                        }
                        proof {
                            match cpus_to_start_from(it.remaining(), strs, boot_cpu_id) {
                                Some(r) => {
                                    assert(ids@.push(id) + r =~= ids@ + (seq![id] + r));
                                },
                                None => {},
                            }
                        }
                        ids.push(id);
                    }
                }
            },
        }
    }
}

} // verus!
