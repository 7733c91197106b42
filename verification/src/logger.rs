use vstd::prelude::*;
use vstd::string::{StrSliceExecFns, StringExecFns, StringSliceAdditionalSpecFns};

use crate::utils::bytes_eq;

verus! {

/// The importance of a log record, from the most to the least important.
#[derive(PartialEq, Eq, Structural, Clone, Copy, Debug)]
pub enum Level {
    Error,
    Warn,
    Info,
    Debug,
    Trace,
}

/// The rank of a level: the more verbose, the higher.
pub open spec fn level_rank(l: Level) -> int {
    match l {
        Level::Error => 1,
        Level::Warn => 2,
        Level::Info => 3,
        Level::Debug => 4,
        Level::Trace => 5,
    }
}

fn rank(l: Level) -> (r: u8)
    ensures
        r == level_rank(l),
{
    match l {
        Level::Error => 1,
        Level::Warn => 2,
        Level::Info => 3,
        Level::Debug => 4,
        Level::Trace => 5,
    }
}

/// The targets whose trace records are never shown.
pub open spec fn trace_blacklist() -> Seq<Seq<u8>> {
    seq![
        seq![112u8, 109, 109],
        seq![118u8, 109, 109],
        seq![107u8, 101, 114, 110, 101, 108, 95, 104, 101, 97, 112],
        seq![105u8, 110, 116, 101, 114, 114, 117, 112, 116, 115],
        seq![115u8, 99, 104, 101, 100, 117, 108, 101, 114],
        seq![116u8, 105, 109, 101, 114],
        seq![115u8, 109, 112],
        seq![102u8, 115],
    ]
}

/// The index of the first `::` at or after `i` in `s`, or the length of `s`.
pub open spec fn first_sep(s: Seq<char>, i: int) -> int
    decreases s.len() - i,
{
    if i < 0 || i + 1 >= s.len() {
        s.len() as int
    } else if s[i] == ':' && s[i + 1] == ':' {
        i
    } else {
        first_sep(s, i + 1)
    }
}

/// "modules/", the directory of the loadable modules' sources.
pub open spec fn modules_dir() -> Seq<char> {
    seq!['m', 'o', 'd', 'u', 'l', 'e', 's', '/']
}

/// The terminal escape that colors the records of `level`.
pub open spec fn color(level: Level) -> Seq<char> {
    match level {
        Level::Error => "\x1B[91m"@,
        Level::Warn => "\x1B[93m"@,
        Level::Info => "\x1B[97m"@,
        Level::Debug => "\x1B[37m"@,
        Level::Trace => "\x1B[37m"@,
    }
}

pub open spec fn level_name(level: Level) -> Seq<char> {
    match level {
        Level::Error => "ERROR"@,
        Level::Warn => "WARN"@,
        Level::Info => "INFO"@,
        Level::Debug => "DEBUG"@,
        Level::Trace => "TRACE"@,
    }
}

/// What comes before the message of a record of `level` from `target`, written by the source
/// file `file` of the module `modpath`: the level's color; the level's name in brackets
/// but for `Info`; then, for a record of a loadable module, the first component of its
/// module path, and otherwise, but for `Info`, the target when it is not a module path.
pub open spec fn prefix_spec(
    level: Level,
    target: Seq<char>,
    file: Option<Seq<char>>,
    modpath: Option<Seq<char>>,
) -> Seq<char> {
    let tag = if level != Level::Info {
        "["@ + level_name(level) + "] "@
    } else {
        Seq::empty()
    };
    let origin = if file matches Some(f) && 8 <= f.len() && f.subrange(0, 8) == modules_dir() {
        match modpath {
            Some(m) => m.subrange(0, first_sep(m, 0)) + ": "@,
            None => Seq::empty(),
        }
    } else if first_sep(target, 0) == target.len() && level != Level::Info {
        target + ": "@
    } else {
        Seq::empty()
    };
    color(level) + tag + origin
}

/// The terminal escape that ends a record.
pub const RESET: &'static str = "\x1B[0m";

/// The kernel's logger: records up to `max_level` are shown, but for the trace records of
/// the blacklisted targets.
pub struct KernelLogger {
    pub max_level: Level,
}

/// The index of the first `::` at or after `i` in `s`.
fn find_sep(s: &str, i: usize) -> (r: usize)
    requires
        i <= s@.len(),
    ensures
        r == first_sep(s@, i as int),
        r <= s@.len(),
{
    let n = s.unicode_len();
    let mut k = i;
    while n - k > 1
        invariant
            n == s@.len(),
            i <= k <= n,
            first_sep(s@, i as int) == first_sep(s@, k as int),
        decreases n - k,
    {
        if s.get_char(k) == ':' && s.get_char(k + 1) == ':' {
            return k;
        }
        k += 1;
    }
    n
}

/// Whether `s` starts with "modules/".
fn in_modules_dir(s: &str) -> (r: bool)
    ensures
        r == (8 <= s@.len() && s@.subrange(0, 8) == modules_dir()),
{
    let n = s.unicode_len();
    if n < 8 {
        return false;
    }
    let dir: [char; 8] = ['m', 'o', 'd', 'u', 'l', 'e', 's', '/'];
    proof {
        assert(dir@ =~= modules_dir());
    }
    let mut k: usize = 0;
    while k < 8
        invariant
            n == s@.len(),
            8 <= n,
            k <= 8,
            dir@ == modules_dir(),
            forall|j: int| 0 <= j < k ==> s@[j] == dir@[j],
        decreases 8 - k,
    {
        if s.get_char(k) != dir[k] {
            proof {
                assert(s@.subrange(0, 8)[k as int] != modules_dir()[k as int]);
            }
            return false;
        }
        k += 1;
    }
    proof {
        assert(s@.subrange(0, 8) =~= modules_dir());
    }
    true
}

impl KernelLogger {
    pub fn new(max_level: Level) -> (r: Self)
        ensures
            r.max_level == max_level,
    {
        KernelLogger { max_level }
    }

    /// Whether the records of `level` from `target` are shown.
    pub fn enabled(&self, level: Level, target: &str) -> (r: bool)
        ensures
            r == (!(level == Level::Trace && trace_blacklist().contains(target.spec_bytes()))
                && level_rank(level) <= level_rank(self.max_level)),
    {
        if level == Level::Trace {
            let t = target.as_bytes();
            let names: [&str; 8] = ["pmm", "vmm", "kernel_heap", "interrupts", "scheduler", "timer", "smp", "fs"];
            proof {
                reveal_strlit("pmm");
                reveal_strlit("vmm");
                reveal_strlit("kernel_heap");
                reveal_strlit("interrupts");
                reveal_strlit("scheduler");
                reveal_strlit("timer");
                reveal_strlit("smp");
                reveal_strlit("fs");
                vstd::string::is_ascii_spec_bytes("pmm");
                vstd::string::is_ascii_spec_bytes("vmm");
                vstd::string::is_ascii_spec_bytes("kernel_heap");
                vstd::string::is_ascii_spec_bytes("interrupts");
                vstd::string::is_ascii_spec_bytes("scheduler");
                vstd::string::is_ascii_spec_bytes("timer");
                vstd::string::is_ascii_spec_bytes("smp");
                vstd::string::is_ascii_spec_bytes("fs");
                assert forall|k: int| 0 <= k < 8 implies #[trigger] names@[k].spec_bytes()
                    == trace_blacklist()[k] by {
                    assert(names@[0].spec_bytes() =~= trace_blacklist()[0]);
                    assert(names@[1].spec_bytes() =~= trace_blacklist()[1]);
                    assert(names@[2].spec_bytes() =~= trace_blacklist()[2]);
                    assert(names@[3].spec_bytes() =~= trace_blacklist()[3]);
                    assert(names@[4].spec_bytes() =~= trace_blacklist()[4]);
                    assert(names@[5].spec_bytes() =~= trace_blacklist()[5]);
                    assert(names@[6].spec_bytes() =~= trace_blacklist()[6]);
                    assert(names@[7].spec_bytes() =~= trace_blacklist()[7]);
                }
            }
            let mut k: usize = 0;
            while k < 8
                invariant
                    k <= 8,
                    level == Level::Trace,
                    t@ == target.spec_bytes(),
                    forall|j: int| 0 <= j < 8 ==> #[trigger] names@[j].spec_bytes()
                        == trace_blacklist()[j],
                    forall|j: int| 0 <= j < k ==> trace_blacklist()[j] != t@,
                decreases 8 - k,
            {
                if bytes_eq(t, names[k].as_bytes()) {
                    proof {
                        assert(trace_blacklist()[k as int] == t@);
                        assert(trace_blacklist().contains(t@));
                    }
                    return false;
                }
                k += 1;
            }
            proof {
                assert(trace_blacklist().len() == 8);
                if trace_blacklist().contains(t@) {
                    let j = choose|j: int| 0 <= j < 8 && trace_blacklist()[j] == t@;
                    assert(false);
                }
            }
        }
        rank(level) <= rank(self.max_level)
    }

    /// What is written before the message of a record; see `prefix_spec`.
    pub fn prefix(level: Level, target: &str, file: Option<&str>, modpath: Option<&str>) -> (r:
        String)
        ensures
            r@ == prefix_spec(
                level,
                target@,
                match file {
                    Some(f) => Some(f@),
                    None => None,
                },
                match modpath {
                    Some(m) => Some(m@),
                    None => None,
                },
            ),
    {
        let mut out = String::new();
        let c: &str = match level {
            Level::Error => "\x1B[91m",
            Level::Warn => "\x1B[93m",
            Level::Info => "\x1B[97m",
            Level::Debug => "\x1B[37m",
            Level::Trace => "\x1B[37m",
        };
        out.append(c);
        if level != Level::Info {
            let name: &str = match level {
                Level::Error => "ERROR",
                Level::Warn => "WARN",
                Level::Info => "INFO",
                Level::Debug => "DEBUG",
                Level::Trace => "TRACE",
            };
            out.append("[");
            out.append(name);
            out.append("] ");
        }
        let ghost tag = out@;
        let from_module = match file {
            Some(f) => in_modules_dir(f),
            None => false,
        };
        if from_module {
            match modpath {
                Some(m) => {
                    let e = find_sep(m, 0);
                    out.append(m.substring_char(0, e));
                    out.append(": ");
                },
                None => {},
            }
        } else if find_sep(target, 0) == target.unicode_len() && level != Level::Info {
            out.append(target);
            out.append(": ");
        }
        proof {
            assert(out@ =~= prefix_spec(
                level,
                target@,
                match file {
                    Some(f) => Some(f@),
                    None => None,
                },
                match modpath {
                    Some(m) => Some(m@),
                    None => None,
                },
            ));
        }
        out
    }
}

} // verus!
