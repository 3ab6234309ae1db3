//! The `jobs` command: how many parallel jobs a host can afford, from its
//! memory, its CPUs and the environment's overrides.
use crate::utils::text::{
    first_word, first_word_of, is_prefix, lines_of, owned, parse_u64, parse_unsigned, parse_usize,
    strip_prefix, text_lines, trim, trim_str, views,
};
use vstd::prelude::*;

verus! {

/// Memory budget per job, carried over from the 4gb/thread limit in agave's
/// `ci/common/limit-threads.sh`.
pub const BYTES_PER_JOB: u64 = 4 * 1024 * 1024 * 1024;

/// Why the number of jobs could not be worked out.
#[derive(Debug)]
pub enum JobsError {
    /// An environment variable holds no count.
    BadCount { name: String, value: String },
    /// `/proc/meminfo` has no `MemTotal` line.
    NoMemTotal,
    /// The `MemTotal` line holds no number.
    EmptyMemTotal,
    /// The `MemTotal` figure is no number.
    BadMemTotal { kilobytes: String },
    /// The `MemTotal` figure does not fit in bytes.
    MemTotalOverflow { kilobytes: String },
    /// The job count that memory allows does not fit a `usize`.
    TooManyJobs,
    /// `sysctl -n hw.memsize` failed, with what it printed to stderr.
    SysctlFailed { stderr: String },
    /// `sysctl` printed something that is not UTF-8.
    SysctlNotUtf8,
    /// `sysctl` printed no number.
    BadMemsize { text: String },
}

/// The message for a `MemTotal` figure that is no number.
pub open spec fn bad_memtotal(kilobytes: Seq<char>) -> Seq<char> {
    "failed to parse MemTotal `"@ + kilobytes + "`"@
}

/// The message for a `MemTotal` figure too large for bytes.
pub open spec fn memtotal_overflow(kilobytes: Seq<char>) -> Seq<char> {
    "MemTotal `"@ + kilobytes + "` kB overflows"@
}

impl JobsError {
    /// The error's message.
    pub open spec fn message(&self) -> Seq<char> {
        match self {
            JobsError::BadCount { name, value } => "failed to parse "@ + name@ + "=`"@ + value@
                + "`"@,
            JobsError::NoMemTotal => "no MemTotal in /proc/meminfo"@,
            JobsError::EmptyMemTotal => "empty MemTotal in /proc/meminfo"@,
            JobsError::BadMemTotal { kilobytes } => bad_memtotal(kilobytes@),
            JobsError::MemTotalOverflow { kilobytes } => memtotal_overflow(kilobytes@),
            JobsError::TooManyJobs => "out of range integral type conversion attempted"@,
            JobsError::SysctlFailed { stderr } => "`sysctl -n hw.memsize` failed: "@ + stderr@,
            JobsError::SysctlNotUtf8 => "`sysctl` output is not utf-8"@,
            JobsError::BadMemsize { text } => "failed to parse hw.memsize `"@ + text@ + "`"@,
        }
    }

    /// The error's message.
    pub fn to_string(&self) -> (r: String)
        ensures
            r@ == self.message(),
    {
        match self {
            JobsError::BadCount { name, value } => {
                let mut r = owned("failed to parse ");
                r.append(name.as_str());
                r.append("=`");
                r.append(value.as_str());
                r.append("`");
                r
            },
            JobsError::NoMemTotal => owned("no MemTotal in /proc/meminfo"),
            JobsError::EmptyMemTotal => owned("empty MemTotal in /proc/meminfo"),
            JobsError::BadMemTotal { kilobytes } => {
                let mut r = owned("failed to parse MemTotal `");
                r.append(kilobytes.as_str());
                r.append("`");
                r
            },
            JobsError::MemTotalOverflow { kilobytes } => {
                let mut r = owned("MemTotal `");
                r.append(kilobytes.as_str());
                r.append("` kB overflows");
                r
            },
            JobsError::TooManyJobs => owned("out of range integral type conversion attempted"),
            JobsError::SysctlFailed { stderr } => {
                let mut r = owned("`sysctl -n hw.memsize` failed: ");
                r.append(stderr.as_str());
                r
            },
            JobsError::SysctlNotUtf8 => owned("`sysctl` output is not utf-8"),
            JobsError::BadMemsize { text } => {
                let mut r = owned("failed to parse hw.memsize `");
                r.append(text.as_str());
                r.append("`");
                r
            },
        }
    }
}

// ---------------------------------------------------------------------------
// Counts from the environment
// ---------------------------------------------------------------------------

/// What an environment variable's value gives as a count: nothing when it
/// is unset or empty, else its trimmed text read as a `usize`; `None` when
/// that text is no count.
pub open spec fn count_of(value: Option<&str>) -> Option<Option<nat>> {
    match value {
        None => Some(None),
        Some(v) => if v@.len() == 0 {
            Some(None)
        } else {
            match parse_unsigned(trim(v@), usize::MAX as nat) {
                Some(n) => Some(Some(n)),
                None => None,
            }
        },
    }
}

/// Reads a count from the value `value` of the environment variable `name`
/// (`None` when it is unset or not Unicode).
pub fn env_count(value: Option<&str>, name: &str) -> (r: Result<Option<usize>, JobsError>)
    ensures
        match count_of(value) {
            None => (r matches Err(e) && (e matches JobsError::BadCount { name: n, value: v } && n@
                == name@ && (value matches Some(s) && v@ == s@))),
            Some(None) => r matches Ok(None),
            Some(Some(c)) => (r matches Ok(Some(x)) && x == c),
        },
{
    match value {
        None => Ok(None),
        Some(v) => {
            if v.is_empty() {
                return Ok(None);
            }
            let trimmed = trim_str(v);
            match parse_usize(trimmed.as_str()) {
                Some(n) => Ok(Some(n)),
                None => Err(JobsError::BadCount { name: owned(name), value: owned(v) }),
            }
        },
    }
}

// ---------------------------------------------------------------------------
// Memory
// ---------------------------------------------------------------------------

/// What follows `MemTotal:` on the first line of `lines` that starts so.
pub open spec fn memtotal_rest(lines: Seq<Seq<char>>) -> Option<Seq<char>>
    decreases lines.len(),
{
    if lines.len() == 0 {
        None
    } else if is_prefix("MemTotal:"@, lines[0]) {
        Some(lines[0].skip("MemTotal:"@.len() as int))
    } else {
        memtotal_rest(lines.drop_first())
    }
}

/// The total memory in bytes that `/proc/meminfo` reports: the first word
/// after `MemTotal:`, read as kilobytes; or the message saying why not.
pub open spec fn meminfo_bytes(meminfo: Seq<char>) -> Result<nat, Seq<char>> {
    match memtotal_rest(text_lines(meminfo)) {
        None => Err("no MemTotal in /proc/meminfo"@),
        Some(rest) => match first_word(rest) {
            None => Err("empty MemTotal in /proc/meminfo"@),
            Some(kb) => match parse_unsigned(kb, u64::MAX as nat) {
                None => Err(bad_memtotal(kb)),
                Some(n) => if n * 1024 <= u64::MAX {
                    Ok(n * 1024)
                } else {
                    Err(memtotal_overflow(kb))
                },
            },
        },
    }
}

/// A memory size of `n` bytes.
pub open spec fn bytes(n: u64) -> Result<nat, Seq<char>> {
    Ok(n as nat)
}

/// A refusal with `message`.
pub open spec fn refused(message: Seq<char>) -> Result<nat, Seq<char>> {
    Err(message)
}

/// Parses `/proc/meminfo`; `MemTotal` is reported in kB.
pub fn parse_meminfo(meminfo: &str) -> (r: Result<u64, JobsError>)
    ensures
        r matches Ok(n) ==> meminfo_bytes(meminfo@) == bytes(n),
        r matches Err(e) ==> meminfo_bytes(meminfo@) == refused(e.message()),
{
    let lines = lines_of(meminfo);
    let ghost ls = views(lines@);
    let mut rest: Option<String> = None;
    let mut i: usize = 0;
    assert(ls.skip(0) == ls);
    while i < lines.len()
        invariant_except_break
            rest is None,
        invariant
            ls == views(lines@),
            ls == text_lines(meminfo@),
            i <= ls.len(),
            memtotal_rest(ls) == memtotal_rest(ls.skip(i as int)),
        ensures
            match rest {
                None => memtotal_rest(ls) is None,
                Some(r) => memtotal_rest(ls) == Some(r@),
            },
        decreases ls.len() - i,
    {
        proof {
            let t = ls.skip(i as int);
            assert(t[0] == lines@[i as int]@);
            assert(t.drop_first() == ls.skip(i + 1));
        }
        match strip_prefix(lines[i].as_str(), "MemTotal:") {
            Some(r) => {
                rest = Some(r);
                break;
            },
            None => {},
        }
        i = i + 1;
    }
    let rest = match rest {
        Some(r) => r,
        None => return Err(JobsError::NoMemTotal),
    };
    let kilobytes = match first_word_of(rest.as_str()) {
        Some(w) => w,
        None => return Err(JobsError::EmptyMemTotal),
    };
    match parse_u64(kilobytes.as_str()) {
        None => Err(JobsError::BadMemTotal { kilobytes }),
        Some(n) => match n.checked_mul(1024) {
            Some(b) => Ok(b),
            None => Err(JobsError::MemTotalOverflow { kilobytes }),
        },
    }
}

/// What `sysctl -n hw.memsize` reports: its failure (with its trimmed
/// stderr), output that is not UTF-8 (`stdout` is `None`), or its trimmed
/// output read as a number of bytes.
pub open spec fn memsize_bytes(success: bool, stdout: Option<&str>, stderr: &str) -> Result<
    nat,
    Seq<char>,
> {
    if !success {
        Err("`sysctl -n hw.memsize` failed: "@ + trim(stderr@))
    } else {
        match stdout {
            None => Err("`sysctl` output is not utf-8"@),
            Some(out) => match parse_unsigned(trim(out@), u64::MAX as nat) {
                Some(n) => Ok(n),
                None => Err("failed to parse hw.memsize `"@ + trim(out@) + "`"@),
            },
        }
    }
}

/// Reads the memory size from what `sysctl -n hw.memsize` gave: whether it
/// succeeded, its stdout when that is UTF-8, and its stderr.
pub fn memsize_from_sysctl(success: bool, stdout: Option<&str>, stderr: &str) -> (r: Result<
    u64,
    JobsError,
>)
    ensures
        r matches Ok(n) ==> memsize_bytes(success, stdout, stderr) == bytes(n),
        r matches Err(e) ==> memsize_bytes(success, stdout, stderr) == refused(e.message()),
{
    if !success {
        return Err(JobsError::SysctlFailed { stderr: trim_str(stderr) });
    }
    match stdout {
        None => Err(JobsError::SysctlNotUtf8),
        Some(out) => {
            let text = trim_str(out);
            match parse_u64(text.as_str()) {
                Some(n) => Ok(n),
                None => Err(JobsError::BadMemsize { text }),
            }
        },
    }
}

// ---------------------------------------------------------------------------
// The count
// ---------------------------------------------------------------------------

/// `numerator / denominator` rounded to nearest, as the shell version's
/// `printf "%.0f"` did (the halfway addition saturating); 0 for a zero
/// denominator.
pub open spec fn div_round_spec(numerator: u64, denominator: u64) -> u64 {
    if denominator == 0 {
        0
    } else if numerator + denominator / 2 <= u64::MAX {
        ((numerator + denominator / 2) / (denominator as int)) as u64
    } else {
        (u64::MAX / denominator) as u64
    }
}

/// Rounds `numerator / denominator` to nearest.
pub fn div_round(numerator: u64, denominator: u64) -> (r: u64)
    ensures
        r == div_round_spec(numerator, denominator),
{
    match numerator.saturating_add(denominator / 2).checked_div(denominator) {
        Some(q) => q,
        None => 0,
    }
}

/// `a / b` rounded up.
pub open spec fn ceil_div(a: nat, b: nat) -> nat {
    if a % b == 0 {
        a / b
    } else {
        a / b + 1
    }
}

/// The jobs that memory and CPUs allow, split across `slots` host slots
/// when there are more than one, and at least one.
pub open spec fn shared_jobs(by_memory: nat, cpus: nat, slots: nat) -> nat {
    let base = if by_memory < cpus {
        by_memory
    } else {
        cpus
    };
    let split = if slots > 1 {
        ceil_div(base, slots)
    } else {
        base
    };
    if split < 1 {
        1
    } else {
        split
    }
}

/// Whether `e` is the error for the variable `name` whose value `value`
/// holds no count.
pub open spec fn bad_count(e: JobsError, name: Seq<char>, value: Option<&str>) -> bool {
    e matches JobsError::BadCount { name: n, value: v } && n@ == name && (value matches Some(s)
        && v@ == s@)
}

/// Number of parallel jobs a host can afford, capped by both memory and
/// CPUs: `jobs_var` and `slots_var` are the values of `JOBS` and
/// `CI_HOST_SLOTS`, `memory` the host's bytes and `cpus` its CPUs (neither is
/// read when `JOBS` is set). A set `JOBS` wins outright so callers can pin
/// the value; `CI_HOST_SLOTS` splits the budget between jobs sharing the
/// host.
pub fn jobs(jobs_var: Option<&str>, memory: u64, cpus: usize, slots_var: Option<&str>) -> (r: Result<
    usize,
    JobsError,
>)
    ensures
        match count_of(jobs_var) {
            None => (r matches Err(e) && bad_count(e, "JOBS"@, jobs_var)),
            Some(Some(n)) => (r matches Ok(x) && x == n),
            Some(None) => {
                let by_memory = div_round_spec(memory, BYTES_PER_JOB);
                if by_memory > usize::MAX {
                    r matches Err(e) && e is TooManyJobs
                } else {
                    match count_of(slots_var) {
                        None => (r matches Err(e) && bad_count(e, "CI_HOST_SLOTS"@, slots_var)),
                        Some(slots) => (r matches Ok(x) && x == shared_jobs(
                            by_memory as nat,
                            cpus as nat,
                            match slots {
                                Some(s) => s,
                                None => 1,
                            },
                        )),
                    }
                }
            },
        },
{
    match env_count(jobs_var, "JOBS") {
        Err(e) => return Err(e),
        Ok(Some(n)) => return Ok(n),
        Ok(None) => {},
    }
    let by_memory = div_round(memory, BYTES_PER_JOB);
    if by_memory > usize::MAX as u64 {
        return Err(JobsError::TooManyJobs);
    }
    let by_memory = by_memory as usize;
    let mut count = if by_memory < cpus {
        by_memory
    } else {
        cpus
    };
    let slots = match env_count(slots_var, "CI_HOST_SLOTS") {
        Err(e) => return Err(e),
        Ok(Some(s)) => s,
        Ok(None) => 1,
    };
    if slots > 1 {
        assert(count / slots < count || count == 0) by (nonlinear_arith)
            requires
                slots > 1,
        ;
        count = if count % slots == 0 {
            count / slots
        } else {
            count / slots + 1
        };
    }
    if count < 1 {
        Ok(1)
    } else {
        Ok(count)
    }
}

// ---------------------------------------------------------------------------
// Laws
// ---------------------------------------------------------------------------

/// A host always gets at least one job, and never more than both its memory
/// and its CPUs allow (or one, when either allows none).
pub proof fn jobs_are_capped_and_positive(by_memory: nat, cpus: nat, slots: nat)
    ensures
        1 <= shared_jobs(by_memory, cpus, slots),
        shared_jobs(by_memory, cpus, slots) <= by_memory || shared_jobs(by_memory, cpus, slots) == 1,
        shared_jobs(by_memory, cpus, slots) <= cpus || shared_jobs(by_memory, cpus, slots) == 1,
{
    let base = if by_memory < cpus {
        by_memory
    } else {
        cpus
    };
    if slots > 1 {
        assert(ceil_div(base, slots) <= base) by (nonlinear_arith)
            requires
                slots > 1,
                ceil_div(base, slots) == if base % slots == 0 {
                    base / slots
                } else {
                    base / slots + 1
                },
        {
            if base % slots != 0 {
                assert(base == slots * (base / slots) + base % slots);
                assert(base / slots < base) by {
                    assert(base > 0);
                }
            }
        }
    }
}

/// Rounding to nearest: with a positive denominator and no saturation, the
/// result `q` is the integer with `q * d <= n + d / 2 < (q + 1) * d`; half a
/// job rounds up (15.5 GiB gives 4 jobs of 4 GiB, 29 GiB gives 7).
pub proof fn div_round_is_nearest(numerator: u64, denominator: u64)
    requires
        denominator > 0,
        numerator + denominator / 2 <= u64::MAX,
    ensures
        div_round_spec(numerator, denominator) * denominator <= numerator + denominator / 2,
        numerator + denominator / 2 < (div_round_spec(numerator, denominator) + 1) * denominator,
{
    let h = numerator + denominator / 2;
    let q = div_round_spec(numerator, denominator);
    assert(q == h / (denominator as int));
    assert(q * denominator <= h && h < (q + 1) * denominator) by (nonlinear_arith)
        requires
            denominator > 0,
            h >= 0,
            q == h / (denominator as int),
    ;
}

} // verus!
