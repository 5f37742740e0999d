//! Access to the physical memory of a QEMU guest through the hypervisor's
//! host process.
//!
//! The crate holds the guest-to-host address translation layer and the
//! batched scatter/gather transfer planner of a QEMU connector: discovering
//! where the hypervisor process has placed guest RAM inside its own address
//! space (from a monitor-protocol memory-tree report, or from fixed
//! per-chipset fallback tables), and resolving batches of read or write
//! requests against that mapping within the host's vector-count ceiling.
//! The surrounding process inspection and the actual system calls are left
//! to the embedding program.

use vstd::prelude::*;

pub mod mem_map;
pub mod mtree;
pub mod qemu_args;
pub mod strutil;
pub mod transfer;

verus! {

/// Why a vectored transfer against the target process failed, derived from
/// the operating system's error code.
#[derive(Clone, Copy, Debug, PartialEq, Eq, Structural)]
pub enum TransferReason {
    /// The remote (host-side) address was not mapped in the target process.
    InvalidAddress,
    /// The kernel could not allocate internal buffers for the copy.
    AllocationFailed,
    /// The caller lacks permission to inspect the target process.
    PermissionDenied,
    /// The target process no longer exists.
    ProcessNotFound,
    /// A malformed argument was handed to the call.
    InvalidArgument,
}

/// The error kinds of the connector.
#[derive(Clone, Copy, Debug, PartialEq, Eq, Structural)]
pub enum ConnectorError {
    /// No matching hypervisor process, or no guest of the requested name.
    TargetNotFound,
    /// No usable guest-RAM mapping could be discovered.
    MappingNotFound,
    /// Malformed configuration: socket address, override argument, or a
    /// disabled optional feature.
    Configuration,
    /// A transfer-stage failure, carrying the diagnostic reason.
    TransferFailed(TransferReason),
}

} // verus!

use crate::mem_map::{
    spec_build_table, spec_chosen_mappings, spec_total_size, wf_ranges, MappingTable,
    RangeMapping, GIB,
};
use crate::strutil::{
    hex_run_end, hex_value, matches_at, parse_hex_run, parse_hex_u64,
    spec_parse_hex_u64, str_matches_at,
};
use crate::transfer::{
    spec_all_resolve, spec_flatten, spec_resolved, TransferEngine, TransferPlan, TransferRequest,
};
use vstd::string::*;

verus! {

/// What the transfer primitive reports upward: the total addressable
/// guest-physical size and whether the connector is read-only.
#[derive(Clone, Copy, Debug, PartialEq, Eq, Structural)]
pub struct ConnectorMetadata {
    pub total_size: u64,
    pub readonly: bool,
}

/// The connector core: the mapping table that discovery produced, held
/// read-only for the connector's lifetime, and the transfer engine
/// around it.
pub struct QemuProcfs {
    mem_map: MappingTable,
    engine: TransferEngine,
}

impl QemuProcfs {
    /// The rows of the table discovery produced.
    pub closed spec fn spec_table(&self) -> Seq<RangeMapping> {
        self.mem_map@
    }

    /// The host's per-call vector-count ceiling.
    pub closed spec fn spec_ceiling(&self) -> int {
        self.engine.ceiling()
    }

    /// A usable connector: a well-formed table and a positive ceiling.
    pub open spec fn wf(&self) -> bool {
        wf_ranges(self.spec_table()) && self.spec_ceiling() >= 1
    }

    /// Builds the connector core from the hypervisor's launch command
    /// line, the base and size of its guest-RAM backing region,
    /// optionally the monitor's memory-tree report, and the host's
    /// vector-count ceiling. Fails when discovery yields no usable
    /// region.
    pub fn with_cmdline_and_mem(
        cmdline: &str,
        map_base: u64,
        map_size: u64,
        mtree: Option<&str>,
        max_vectors: usize,
    ) -> (r: Result<QemuProcfs, ConnectorError>)
        requires
            map_size + 2 * GIB <= u64::MAX,
            max_vectors >= 1,
        ensures
            ({
                let chosen = spec_chosen_mappings(
                    cmdline@,
                    map_size,
                    match mtree {
                        Some(t) => Some(t@),
                        None => None,
                    },
                );
                match r {
                    Ok(q) => q.wf() && q.spec_table() == spec_build_table(chosen, map_base)
                        && q.spec_table().len() > 0 && q.spec_ceiling() == max_vectors,
                    Err(e) => e == ConnectorError::MappingNotFound && spec_build_table(
                        chosen,
                        map_base,
                    ).len() == 0,
                }
            }),
    {
        match crate::mem_map::qemu_mem_mappings(cmdline, map_base, map_size, mtree) {
            Ok(table) => Ok(
                QemuProcfs { mem_map: table, engine: TransferEngine::new(max_vectors) },
            ),
            Err(e) => Err(e),
        }
    }

    /// The discovered mapping table.
    pub fn mapping_table(&self) -> (r: &MappingTable)
        ensures
            r@ == self.spec_table(),
    {
        &self.mem_map
    }

    /// What this connector reports upward: the end of the last mapped
    /// range as the total size; never read-only.
    pub fn metadata(&self) -> (r: ConnectorMetadata)
        ensures
            r.total_size as int == spec_total_size(self.spec_table()),
            r.readonly == false,
    {
        ConnectorMetadata { total_size: self.mem_map.total_size(), readonly: false }
    }

    /// Resolves and chunks one batch of read or write requests; the
    /// embedding program dispatches the chunks with the matching
    /// vectored call. See `TransferEngine::plan`.
    pub fn plan_transfers(&self, reqs: &Vec<TransferRequest>) -> (r: Result<
        TransferPlan,
        ConnectorError,
    >)
        requires
            self.wf(),
        ensures
            match r {
                Ok(p) => spec_all_resolve(self.spec_table(), reqs@) && p.wf() && p.spec_failed()
                    is None && p.spec_next() == 0 && spec_flatten(p.spec_batches())
                    == spec_resolved(self.spec_table(), reqs@) && p.spec_batches().len() == (
                reqs@.len() + self.spec_ceiling() - 1) / self.spec_ceiling() && (forall|k: int|
                    0 <= k < p.spec_batches().len() ==> 1 <= (
                    #[trigger] p.spec_batches()[k])@.len() <= self.spec_ceiling()) && (forall|
                    k: int,
                |
                    0 <= k < p.spec_batches().len() - 1 ==> (
                    #[trigger] p.spec_batches()[k])@.len() == self.spec_ceiling()),
                Err(e) => e == ConnectorError::TransferFailed(TransferReason::InvalidAddress)
                    && !spec_all_resolve(self.spec_table(), reqs@),
            },
    {
        self.engine.plan(&self.mem_map, reqs)
    }
}

} // verus!

verus! {

/// The explicit guest-RAM override: present only when both the base
/// and the size argument are given and parse as hexadecimal numbers.
pub open spec fn spec_parse_map_override(
    base: Option<Seq<char>>,
    size: Option<Seq<char>>,
) -> Option<(u64, u64)> {
    match base {
        Some(bs) => match spec_parse_hex_u64(bs) {
            Some(bv) => match size {
                Some(ss) => match spec_parse_hex_u64(ss) {
                    Some(sv) => Some((bv, sv)),
                    None => None,
                },
                None => None,
            },
            None => None,
        },
        None => None,
    }
}

/// Reads the optional `map_base`/`map_size` override arguments, both
/// hexadecimal; one missing or malformed drops the override.
pub fn parse_map_override(base: Option<&str>, size: Option<&str>) -> (r: Option<(u64, u64)>)
    ensures
        r == spec_parse_map_override(
            match base {
                Some(b) => Some(b@),
                None => None,
            },
            match size {
                Some(s) => Some(s@),
                None => None,
            },
        ),
{
    match base {
        Some(b) => match parse_hex_u64(b) {
            Some(bv) => match size {
                Some(s) => match parse_hex_u64(s) {
                    Some(sv) => Some((bv, sv)),
                    None => None,
                },
                None => None,
            },
            None => None,
        },
        None => None,
    }
}

/// The first region of greatest length, scanned in order: a later
/// region replaces the choice only when strictly longer.
pub open spec fn spec_biggest_region(rs: Seq<(u64, u64)>) -> Option<(u64, u64)>
    decreases rs.len(),
{
    if rs.len() == 0 {
        None
    } else {
        match spec_biggest_region(rs.drop_last()) {
            None => Some(rs.last()),
            Some(b) => if b.1 < rs.last().1 {
                Some(rs.last())
            } else {
                Some(b)
            },
        }
    }
}

/// Picks the guest-RAM backing region among the target process's
/// mapped regions, as `(base, length)` pairs: an explicit override
/// wins; else the first longest region. This is a best-effort
/// heuristic: the largest contiguous region of a hypervisor process is
/// taken for the guest's RAM.
pub fn select_biggest_region(regions: &Vec<(u64, u64)>, map_override: Option<(u64, u64)>) -> (r:
    Option<(u64, u64)>)
    ensures
        match map_override {
            Some(o) => r == Some(o),
            None => r == spec_biggest_region(regions@),
        },
{
    if let Some(o) = map_override {
        return Some(o);
    }
    let n = regions.len();
    let mut best: Option<(u64, u64)> = None;
    let mut i: usize = 0;
    proof {
        assert(regions@.take(0) =~= Seq::<(u64, u64)>::empty());
    }
    while i < n
        invariant
            n == regions@.len(),
            i <= n,
            best == spec_biggest_region(regions@.take(i as int)),
        decreases n - i,
    {
        let r = regions[i];
        proof {
            assert(regions@.take(i + 1).drop_last() =~= regions@.take(i as int));
            assert(regions@.take(i + 1).last() == r);
        }
        let replace = match best {
            Some(b) => b.1 < r.1,
            None => true,
        };
        if replace {
            best = Some(r);
        }
        i += 1;
    }
    proof {
        assert(regions@.take(n as int) =~= regions@);
    }
    best
}

/// Where the monitor protocol listens, read off the `-qmp` argument:
/// a Unix-domain socket path or a TCP address.
pub enum QmpSocketAddr {
    Unix(String),
    Tcp(String),
}

/// Splits a monitor socket address into its transport and endpoint:
/// `unix:PATH` or `tcp:ADDR`; anything else is a configuration error.
pub fn parse_qmp_socket_addr(addr: &str) -> (r: Result<QmpSocketAddr, ConnectorError>)
    ensures
        match r {
            Ok(QmpSocketAddr::Unix(p)) => matches_at(addr@, "unix:"@, 0) && p@ == addr@.subrange(
                "unix:"@.len() as int,
                addr@.len() as int,
            ),
            Ok(QmpSocketAddr::Tcp(p)) => !matches_at(addr@, "unix:"@, 0) && matches_at(
                addr@,
                "tcp:"@,
                0,
            ) && p@ == addr@.subrange("tcp:"@.len() as int, addr@.len() as int),
            Err(e) => e == ConnectorError::Configuration && !matches_at(addr@, "unix:"@, 0)
                && !matches_at(addr@, "tcp:"@, 0),
        },
{
    let n = addr.unicode_len();
    let unix_prefix = "unix:";
    let tcp_prefix = "tcp:";
    if str_matches_at(addr, unix_prefix, 0) {
        let pl = unix_prefix.unicode_len();
        Ok(QmpSocketAddr::Unix(String::from_str(addr.substring_char(pl, n))))
    } else if str_matches_at(addr, tcp_prefix, 0) {
        let pl = tcp_prefix.unicode_len();
        Ok(QmpSocketAddr::Tcp(String::from_str(addr.substring_char(pl, n))))
    } else {
        Err(ConnectorError::Configuration)
    }
}

/// The guest name a hypervisor process advertises: for a recognised
/// process name, the `-name guest=` option of its command line.
pub fn qemu_guest_name(name: &str, cmdline: &str) -> (r: Option<String>)
    ensures
        match r {
            Some(v) => crate::qemu_args::spec_is_qemu(name@) && crate::qemu_args::spec_qemu_arg_opt(
                crate::strutil::spec_split_ws(cmdline@),
                "-name"@,
                "guest"@,
            ) == Some(v@),
            None => !crate::qemu_args::spec_is_qemu(name@) || crate::qemu_args::spec_qemu_arg_opt(
                crate::strutil::spec_split_ws(cmdline@),
                "-name"@,
                "guest"@,
            ) is None,
        },
{
    if !crate::qemu_args::is_qemu(name) {
        return None;
    }
    let tokens = crate::strutil::split_ws(cmdline);
    crate::qemu_args::qemu_arg_opt(&tokens, "-name", "guest")
}

/// One line of the target process's mapped-region list: two
/// hexadecimal addresses separated by `-`, the region's start and its
/// exclusive end; yields `(base, length)`. Serves the process
/// inspection that feeds `select_biggest_region`.
pub open spec fn spec_proc_maps_region(l: Seq<char>) -> Option<(u64, u64)> {
    let e1 = hex_run_end(l, 0);
    let v1 = hex_value(l.subrange(0, e1));
    if e1 == 0 || e1 >= l.len() || l[e1] != '-' || v1 > u64::MAX as int {
        None
    } else {
        let e2 = hex_run_end(l, e1 + 1);
        let v2 = hex_value(l.subrange(e1 + 1, e2));
        if e2 == e1 + 1 || v2 > u64::MAX as int || v2 < v1 {
            None
        } else {
            Some((v1 as u64, (v2 - v1) as u64))
        }
    }
}

/// Reads the start and length of one mapped region off a region-list
/// line.
pub fn parse_proc_maps_region(l: &str) -> (r: Option<(u64, u64)>)
    ensures
        r == spec_proc_maps_region(l@),
{
    let n = l.unicode_len();
    let (e1, v1o) = parse_hex_run(l, 0);
    if e1 == 0 || e1 >= n {
        return None;
    }
    if l.get_char(e1) != '-' {
        return None;
    }
    let v1 = match v1o {
        Some(v) => v,
        None => {
            return None;
        },
    };
    let (e2, v2o) = parse_hex_run(l, e1 + 1);
    if e2 == e1 + 1 {
        return None;
    }
    let v2 = match v2o {
        Some(v) => v,
        None => {
            return None;
        },
    };
    if v2 < v1 {
        return None;
    }
    Some((v1, v2 - v1))
}

/// The connector's help text.
pub fn help() -> (r: String)
    ensures
        r@
            == "The qemu connector reads a virtual machine's physical memory through the hypervisor process on the host.\n\nIt requires access to the qemu process; loading it requires at least ptrace permissions.\n\nThe `target` argument names the target qemu virtual machine, as given to qemu with `-name`; a number is taken for a process id instead.\n\nAvailable arguments are:\nmap_base: override of VM memory base (hexadecimal)\nmap_size: override of VM memory size (hexadecimal)"@,
{
    String::from_str(
        "The qemu connector reads a virtual machine's physical memory through the hypervisor process on the host.\n\nIt requires access to the qemu process; loading it requires at least ptrace permissions.\n\nThe `target` argument names the target qemu virtual machine, as given to qemu with `-name`; a number is taken for a process id instead.\n\nAvailable arguments are:\nmap_base: override of VM memory base (hexadecimal)\nmap_size: override of VM memory size (hexadecimal)",
    )
}

} // verus!
