use vstd::prelude::*;

verus! {

/// The version numbers and generation layout reported to the runtime's
/// diagnostics at start-up.
pub struct GcDescVars {
    pub major_version_number: u8,
    pub minor_version_number: u8,
    pub generation_size: isize,
    pub total_generation_count: isize,
}

/// The state of a root scan that the runtime passes to every reported root.
#[allow(non_snake_case)]
pub struct ScanContext {
    pub thread_under_crawl: isize,
    pub thread_number: i32,
    pub thread_count: i32,
    pub stack_limit: usize,
    /// Whether the scan marks (true) or updates moved references (false).
    pub promotion: bool,
    pub concurrent: bool,
    pub _unused1: usize,
    pub pMD: usize,
    pub _unused3: i32,
}

/// The scan context with every field zero or false.
pub open spec fn zero_scan_context() -> ScanContext {
    ScanContext {
        thread_under_crawl: 0,
        thread_number: 0,
        thread_count: 0,
        stack_limit: 0,
        promotion: false,
        concurrent: false,
        _unused1: 0,
        pMD: 0,
        _unused3: 0,
    }
}

impl Default for ScanContext {
    fn default() -> (r: ScanContext)
        ensures
            r == zero_scan_context(),
    {
        ScanContext {
            thread_under_crawl: 0,
            thread_number: 0,
            thread_count: 0,
            stack_limit: 0,
            promotion: false,
            concurrent: false,
            _unused1: 0,
            pMD: 0,
            _unused3: 0,
        }
    }
}

impl ScanContext {
    /// The context for a root scan: zero everywhere but the promotion flag,
    /// set for the scan that marks and clear for the one that updates moved
    /// references.
    pub fn for_scan(promotion: bool) -> (r: ScanContext)
        ensures
            r == (ScanContext { promotion, ..zero_scan_context() }),
    {
        let mut sc = ScanContext::default();
        sc.promotion = promotion;
        sc
    }
}

/// Why the runtime is asked to suspend its threads.
#[derive(Clone, Copy, PartialEq, Eq, Structural, Debug)]
pub enum SuspendReason {
    GC,
    GCPrep,
}

impl SuspendReason {
    /// The reason's number in the runtime's interface.
    pub fn to_i32(self) -> (r: i32)
        ensures
            r == match self {
                SuspendReason::GC => 1i32,
                SuspendReason::GCPrep => 6i32,
            },
    {
        match self {
            SuspendReason::GC => 1,
            SuspendReason::GCPrep => 6,
        }
    }
}

/// What a write-barrier update asks the runtime to do.
#[derive(Clone, Copy, PartialEq, Eq, Structural, Debug)]
pub enum WriteBarrierOp {
    StompResize,
    StompEphemeral,
    Initialize,
    SwitchToWriteWatch,
    SwitchToNonWriteWatch,
}

impl WriteBarrierOp {
    /// The operation's number in the runtime's interface.
    pub fn to_i32(self) -> (r: i32)
        ensures
            r == match self {
                WriteBarrierOp::StompResize => 0i32,
                WriteBarrierOp::StompEphemeral => 1i32,
                WriteBarrierOp::Initialize => 2i32,
                WriteBarrierOp::SwitchToWriteWatch => 3i32,
                WriteBarrierOp::SwitchToNonWriteWatch => 4i32,
            },
    {
        match self {
            WriteBarrierOp::StompResize => 0,
            WriteBarrierOp::StompEphemeral => 1,
            WriteBarrierOp::Initialize => 2,
            WriteBarrierOp::SwitchToWriteWatch => 3,
            WriteBarrierOp::SwitchToNonWriteWatch => 4,
        }
    }
}

impl Default for WriteBarrierOp {
    fn default() -> (r: WriteBarrierOp)
        ensures
            r == WriteBarrierOp::StompResize,
    {
        WriteBarrierOp::StompResize
    }
}

/// The arguments of a write-barrier update.
pub struct WriteBarrierParameters {
    pub operation: WriteBarrierOp,
    pub is_runtime_suspended: bool,
    pub requires_upper_bounds_check: bool,
    pub card_table: usize,
    pub card_bundle_table: usize,
    pub lowest_address: usize,
    pub highest_address: usize,
    pub ephemeral_low: usize,
    pub ephemeral_high: usize,
    pub write_watch_table: usize,
    pub region_to_generation_table: usize,
    pub region_shr: usize,
    pub region_use_bitwise_write_barrier: bool,
}

/// The write-barrier arguments with operation `StompResize` and every other
/// field zero or false.
pub open spec fn default_write_barrier() -> WriteBarrierParameters {
    WriteBarrierParameters {
        operation: WriteBarrierOp::StompResize,
        is_runtime_suspended: false,
        requires_upper_bounds_check: false,
        card_table: 0,
        card_bundle_table: 0,
        lowest_address: 0,
        highest_address: 0,
        ephemeral_low: 0,
        ephemeral_high: 0,
        write_watch_table: 0,
        region_to_generation_table: 0,
        region_shr: 0,
        region_use_bitwise_write_barrier: false,
    }
}

impl Default for WriteBarrierParameters {
    fn default() -> (r: WriteBarrierParameters)
        ensures
            r == default_write_barrier(),
    {
        WriteBarrierParameters {
            operation: WriteBarrierOp::default(),
            is_runtime_suspended: false,
            requires_upper_bounds_check: false,
            card_table: 0,
            card_bundle_table: 0,
            lowest_address: 0,
            highest_address: 0,
            ephemeral_low: 0,
            ephemeral_high: 0,
            write_watch_table: 0,
            region_to_generation_table: 0,
            region_shr: 0,
            region_use_bitwise_write_barrier: false,
        }
    }
}

impl WriteBarrierParameters {
    /// The update the collector sends at start-up: the ephemeral range is
    /// made empty (its low end at the top of the address space), so that the
    /// barrier never writes the card table, which this collector does not use.
    pub fn initialization() -> (r: WriteBarrierParameters)
        ensures
            r == (WriteBarrierParameters {
                operation: WriteBarrierOp::Initialize,
                is_runtime_suspended: true,
                ephemeral_low: usize::MAX,
                ..default_write_barrier()
            }),
    {
        let mut args = WriteBarrierParameters::default();
        args.operation = WriteBarrierOp::Initialize;
        args.is_runtime_suspended = true;
        args.ephemeral_low = usize::MAX;
        args
    }
}

/// The collector's interface version and name, as reported to the runtime.
#[allow(non_snake_case)]
pub struct VersionInfo {
    pub MajorVersion: u32,
    pub MinorVersion: u32,
    pub BuildVersion: u32,
    pub Name: &'static str,
}

impl VersionInfo {
    /// Interface version 5.8.0, name "Rust GC".
    pub fn current() -> (r: VersionInfo)
        ensures
            r.MajorVersion == 5,
            r.MinorVersion == 8,
            r.BuildVersion == 0,
            r.Name@ == "Rust GC"@,
    {
        VersionInfo { MajorVersion: 5, MinorVersion: 8, BuildVersion: 0, Name: "Rust GC" }
    }
}

} // verus!

verus! {

/// The levels of the collector's log.
#[derive(Clone, Copy, PartialEq, Eq, Structural, Debug)]
pub enum LogLevel {
    Off,
    Error,
    Warn,
    Info,
    Debug,
    Trace,
}

/// Whether `s` spells the word whose lower-case letters are `lower` and
/// upper-case letters `upper`, each letter in either case.
pub open spec fn spells(s: Seq<char>, lower: Seq<char>, upper: Seq<char>) -> bool {
    &&& s.len() == lower.len()
    &&& forall|i: int| 0 <= i < s.len() ==> #[trigger] s[i] == lower[i] || s[i] == upper[i]
}

/// The log level named by `s` (`trace`, `debug`, `info`, `warn` or
/// `error`, each letter in either ASCII case); any other name turns the log
/// off.
pub open spec fn level_of_name(s: Seq<char>) -> LogLevel {
    if spells(s, seq!['t', 'r', 'a', 'c', 'e'], seq!['T', 'R', 'A', 'C', 'E']) {
        LogLevel::Trace
    } else if spells(s, seq!['d', 'e', 'b', 'u', 'g'], seq!['D', 'E', 'B', 'U', 'G']) {
        LogLevel::Debug
    } else if spells(s, seq!['i', 'n', 'f', 'o'], seq!['I', 'N', 'F', 'O']) {
        LogLevel::Info
    } else if spells(s, seq!['w', 'a', 'r', 'n'], seq!['W', 'A', 'R', 'N']) {
        LogLevel::Warn
    } else if spells(s, seq!['e', 'r', 'r', 'o', 'r'], seq!['E', 'R', 'R', 'O', 'R']) {
        LogLevel::Error
    } else {
        LogLevel::Off
    }
}

fn spells_word(s: &Vec<char>, lower: &Vec<char>, upper: &Vec<char>) -> (r: bool)
    requires
        lower@.len() == upper@.len(),
    ensures
        r == spells(s@, lower@, upper@),
{
    if s.len() != lower.len() {
        return false;
    }
    let mut i: usize = 0;
    while i < s.len()
        invariant
            s@.len() == lower@.len(),
            lower@.len() == upper@.len(),
            i <= s@.len(),
            forall|j: int| 0 <= j < i ==> #[trigger] s@[j] == lower@[j] || s@[j] == upper@[j],
        decreases s@.len() - i,
    {
        if s[i] != lower[i] && s[i] != upper[i] {
            return false;
        }
        i = i + 1;
    }
    true
}

/// The log level for the name that the environment gives, if any: `None`
/// and unknown names turn the log off.
pub fn log_level_from_name(name: Option<&str>) -> (r: LogLevel)
    ensures
        name is None ==> r == LogLevel::Off,
        name matches Some(s) ==> r == level_of_name(s@),
{
    let s = match name {
        None => { return LogLevel::Off; },
        Some(s) => s,
    };
    let mut chars: Vec<char> = Vec::new();
    for c in it: s.chars()
        invariant
            chars@ == it.seq().take(it.index() as int),
    {
        chars.push(c);
    }
    proof {
        broadcast use vstd::string::axiom_spec_iter;
        assert(chars@ == s@);
    }
    if spells_word(&chars, &vec!['t', 'r', 'a', 'c', 'e'], &vec!['T', 'R', 'A', 'C', 'E']) {
        LogLevel::Trace
    } else if spells_word(&chars, &vec!['d', 'e', 'b', 'u', 'g'], &vec!['D', 'E', 'B', 'U', 'G']) {
        LogLevel::Debug
    } else if spells_word(&chars, &vec!['i', 'n', 'f', 'o'], &vec!['I', 'N', 'F', 'O']) {
        LogLevel::Info
    } else if spells_word(&chars, &vec!['w', 'a', 'r', 'n'], &vec!['W', 'A', 'R', 'N']) {
        LogLevel::Warn
    } else if spells_word(&chars, &vec!['e', 'r', 'r', 'o', 'r'], &vec!['E', 'R', 'R', 'O', 'R']) {
        LogLevel::Error
    } else {
        LogLevel::Off
    }
}

} // verus!
