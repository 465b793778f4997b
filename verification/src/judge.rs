//! The application test harness's decisions: which build to run for a
//! payload application, and whether a run passed. A run fails exactly when
//! some line of its captured output carries the failure marker; the first
//! such line is the verdict.

use vstd::prelude::*;
use crate::abi::bytes_eq;

verus! {

/// The failure marker the runner prints on a failing check: `FAIL` wrapped
/// in the red-background and reset escapes.
pub open spec fn fail_marker_spec() -> Seq<u8> {
    seq![27u8, 91u8, 52u8, 49u8, 109u8, 70u8, 65u8, 73u8, 76u8, 27u8, 91u8, 48u8, 109u8]
}

/// The failure marker as bytes.
pub fn fail_marker() -> (r: Vec<u8>)
    ensures
        r@ == fail_marker_spec(),
{
    let r: Vec<u8> = vec![27u8, 91u8, 52u8, 49u8, 109u8, 70u8, 65u8, 73u8, 76u8, 27u8, 91u8, 48u8, 109u8];
    proof {
        assert(r@ =~= fail_marker_spec());
    }
    r
}

/// The first position of byte `b` in `s` at or after `i` (the length when
/// none follows).
pub open spec fn find_byte(s: Seq<u8>, i: int, b: u8) -> int
    decreases s.len() - i,
{
    if !(0 <= i < s.len()) {
        s.len() as int
    } else if s[i] == b {
        i
    } else {
        find_byte(s, i + 1, b)
    }
}

/// Where the next occurrence sits: at or after `i`, no later than the end,
/// on the byte if inside, with nothing matching before it.
pub proof fn lemma_find_byte(s: Seq<u8>, i: int, b: u8)
    requires
        0 <= i <= s.len(),
    ensures
        i <= find_byte(s, i, b) <= s.len(),
        find_byte(s, i, b) < s.len() ==> s[find_byte(s, i, b)] == b,
        forall|k: int| i <= k < find_byte(s, i, b) ==> s[k] != b,
    decreases s.len() - i,
{
    if i < s.len() && s[i] != b {
        lemma_find_byte(s, i + 1, b);
    }
}

/// `m` occurs somewhere inside `line`.
pub open spec fn contains_marker(line: Seq<u8>, m: Seq<u8>) -> bool {
    exists|k: int|
        0 <= k && k + m.len() <= line.len() && (#[trigger] line.subrange(k, k + m.len())) == m
}

/// The verdict of the output from `start` on: the first newline-terminated
/// line carrying the marker, else the trailing partial line if it carries
/// it, else nothing.
pub open spec fn judge_from(s: Seq<u8>, start: int, m: Seq<u8>) -> Option<Seq<u8>>
    decreases s.len() - start,
    via judge_from_dec
{
    if !(0 <= start < s.len()) {
        None
    } else {
        let j = find_byte(s, start, 10);
        let line = s.subrange(start, j);
        if contains_marker(line, m) {
            Some(line)
        } else if j < s.len() {
            judge_from(s, j + 1, m)
        } else {
            None
        }
    }
}

#[via_fn]
proof fn judge_from_dec(s: Seq<u8>, start: int, m: Seq<u8>) {
    if 0 <= start < s.len() {
        lemma_find_byte(s, start, 10);
    }
}

/// Whether `[s, e)` of `hay` holds the marker `m` somewhere.
#[verifier::loop_isolation(false)]
pub fn range_contains(hay: &[u8], s: usize, e: usize, m: &Vec<u8>) -> (r: bool)
    requires
        s <= e <= hay@.len(),
    ensures
        r == contains_marker(hay@.subrange(s as int, e as int), m@),
{
    let ghost line = hay@.subrange(s as int, e as int);
    let mlen = m.len();
    if mlen > e - s {
        proof {
            assert(!contains_marker(line, m@));
        }
        return false;
    }
    if mlen == 0 {
        proof {
            assert(line.subrange(0, 0 + m@.len() as int) =~= m@);
            assert(contains_marker(line, m@));
        }
        return true;
    }
    let mut k: usize = s;
    while k <= e - mlen
        invariant
            s <= k,
            k <= e - mlen + 1,
            1 <= mlen == m@.len(),
            mlen <= e - s,
            line == hay@.subrange(s as int, e as int),
            forall|k2: int|
                0 <= k2 < k - s ==> (#[trigger] line.subrange(k2, k2 + m@.len())) != m@,
        decreases e - k,
    {
        if bytes_eq(&hay[k..k + mlen], m.as_slice()) {
            proof {
                assert(hay@.subrange(k as int, (k + mlen) as int) == m@);
                let k2 = k - s;
                assert(line.subrange(k2 as int, k2 + m@.len()) =~= hay@.subrange(
                    k as int,
                    (k + mlen) as int,
                ));
                assert(contains_marker(line, m@));
            }
            return true;
        }
        proof {
            assert(hay@.subrange(k as int, (k + mlen) as int) != m@);
            let k2 = k - s;
            assert(line.subrange(k2 as int, k2 + m@.len()) =~= hay@.subrange(
                k as int,
                (k + mlen) as int,
            ));
        }
        k = k + 1;
    }
    proof {
        assert forall|k2: int|
            0 <= k2 && k2 + m@.len() <= line.len() implies (#[trigger] line.subrange(
            k2,
            k2 + m@.len(),
        )) != m@ by {
            assert(k2 < k - s + 1);
        }
    }
    false
}

/// What a byte string of an unknown encoding reads as when decoded
/// permissively to text.
pub uninterp spec fn lossy_utf8(bytes: Seq<u8>) -> Seq<char>;

/// Relies on String::from_utf8_lossy: the text depends on the bytes alone,
/// and plain ASCII bytes come through one to one.
#[verifier::external_body]
fn bytes_to_lossy_string(bytes: &Vec<u8>) -> (r: String)
    ensures
        r@ == lossy_utf8(bytes@),
        (forall|i: int| 0 <= i < bytes@.len() ==> bytes@[i] < 128) ==> (r@.len() == bytes@.len()
            && forall|i: int| 0 <= i < bytes@.len() ==> r@[i] == bytes@[i] as char),
{
    String::from_utf8_lossy(bytes).into_owned()
}

/// Scans a run's captured output for the failure marker, line by line
/// (the trailing partial line counts), and hands back the first line
/// carrying it, decoded to text.
#[verifier::loop_isolation(false)]
pub fn test_judge(stdout: &[u8]) -> (r: Option<String>)
    ensures
        ({
            match judge_from(stdout@, 0, fail_marker_spec()) {
                None => r is None,
                Some(line) => r matches Some(s) && s@ == lossy_utf8(line) && ((forall|i: int|
                    0 <= i < line.len() ==> line[i] < 128) ==> (s@.len() == line.len() && forall|
                    i: int,
                |
                    0 <= i < line.len() ==> s@[i] == line[i] as char)),
            }
        }),
{
    let marker = fail_marker();
    let n = stdout.len();
    let mut start: usize = 0;
    while start < n
        invariant
            start <= n || n == 0,
            n == stdout@.len(),
            marker@ == fail_marker_spec(),
            judge_from(stdout@, 0, fail_marker_spec()) == judge_from(
                stdout@,
                start as int,
                fail_marker_spec(),
            ),
        decreases n - start,
    {
        let mut j: usize = start;
        while j < n && stdout[j] != 10
            invariant
                start <= j <= n,
                n == stdout@.len(),
                find_byte(stdout@, start as int, 10) == find_byte(stdout@, j as int, 10),
            decreases n - j,
        {
            j = j + 1;
        }
        proof {
            assert(find_byte(stdout@, start as int, 10) == j);
        }
        if range_contains(stdout, start, j, &marker) {
            let mut line: Vec<u8> = Vec::new();
            let mut t: usize = start;
            while t < j
                invariant
                    start <= t <= j <= n,
                    n == stdout@.len(),
                    line@ =~= stdout@.subrange(start as int, t as int),
                decreases j - t,
            {
                line.push(stdout[t]);
                t = t + 1;
                proof {
                    assert(line@ =~= stdout@.subrange(start as int, t as int));
                }
            }
            proof {
                assert(line@ =~= stdout@.subrange(start as int, j as int));
            }
            return Some(bytes_to_lossy_string(&line));
        }
        if j == n {
            return None;
        }
        start = j + 1;
    }
    None
}

/// Judges a run's captured output: the run passed unless some line
/// carries the failure marker, and the first such line is the error.
pub fn run_verdict(stdout: &[u8]) -> (r: Result<(), String>)
    ensures
        ({
            match judge_from(stdout@, 0, fail_marker_spec()) {
                None => r is Ok,
                Some(line) => r matches Err(s) && s@ == lossy_utf8(line),
            }
        }),
{
    match test_judge(stdout) {
        Some(line) => Err(line),
        None => Ok(()),
    }
}

/// The link flavours a payload application can be built and run with.
#[derive(Clone, Copy, Debug, PartialEq, Eq, Structural)]
pub enum TType {
    /// Statically linked.
    Static,
    /// Dynamically linked.
    Dynamic,
    /// Both flavours.
    All,
}

/// The bytes of the word naming the static flavour.
pub open spec fn static_word() -> Seq<u8> {
    seq![115u8, 116u8, 97u8, 116u8, 105u8, 99u8]
}

/// The bytes of the word naming the dynamic flavour.
pub open spec fn dynamic_word() -> Seq<u8> {
    seq![100u8, 121u8, 110u8, 97u8, 109u8, 105u8, 99u8]
}

/// The bytes of the word naming both flavours.
pub open spec fn all_word() -> Seq<u8> {
    seq![97u8, 108u8, 108u8]
}

/// Which flavour a configuration word names, if any.
pub open spec fn spec_parse_ttype(s: Seq<u8>) -> Option<TType> {
    if s == static_word() {
        Some(TType::Static)
    } else if s == dynamic_word() {
        Some(TType::Dynamic)
    } else if s == all_word() {
        Some(TType::All)
    } else {
        None
    }
}

/// Parses a configuration word into a link flavour.
pub fn parse_ttype(s: &Vec<u8>) -> (r: Option<TType>)
    ensures
        r == spec_parse_ttype(s@),
{
    let st: Vec<u8> = vec![115u8, 116u8, 97u8, 116u8, 105u8, 99u8];
    let dy: Vec<u8> = vec![100u8, 121u8, 110u8, 97u8, 109u8, 105u8, 99u8];
    let al: Vec<u8> = vec![97u8, 108u8, 108u8];
    proof {
        assert(st@ =~= static_word());
        assert(dy@ =~= dynamic_word());
        assert(al@ =~= all_word());
    }
    if bytes_eq(s.as_slice(), st.as_slice()) {
        Some(TType::Static)
    } else if bytes_eq(s.as_slice(), dy.as_slice()) {
        Some(TType::Dynamic)
    } else if bytes_eq(s.as_slice(), al.as_slice()) {
        Some(TType::All)
    } else {
        None
    }
}

/// The flavour actually run: the configuration's (both when it names none),
/// narrowed by the command line where the two agree; a command-line flavour
/// that contradicts the configuration is refused.
pub open spec fn spec_resolve_ttype(cfg: Option<TType>, arg: Option<TType>) -> Result<
    TType,
    TType,
> {
    let effective = match cfg {
        Some(t) => t,
        None => TType::All,
    };
    match arg {
        Some(a) => if a == effective || effective == TType::All {
            Ok(a)
        } else {
            Err(a)
        },
        None => Ok(effective),
    }
}

/// Resolves the requested link flavour against the configuration.
pub fn resolve_ttype(cfg: Option<TType>, arg: Option<TType>) -> (r: Result<TType, TType>)
    ensures
        r == spec_resolve_ttype(cfg, arg),
{
    let effective = match cfg {
        Some(t) => t,
        None => TType::All,
    };
    match arg {
        Some(a) => if a == effective || effective == TType::All {
            Ok(a)
        } else {
            Err(a)
        },
        None => Ok(effective),
    }
}

/// Which flavours a resolved choice makes run.
pub fn tests_to_run(t: TType) -> (r: (bool, bool))
    ensures
        r.0 == (t == TType::Static || t == TType::All),
        r.1 == (t == TType::Dynamic || t == TType::All),
{
    match t {
        TType::Static => (true, false),
        TType::Dynamic => (false, true),
        TType::All => (true, true),
    }
}

/// A payload application's configuration, as far as the build decisions
/// read it.
pub struct AppConfig {
    pub rename: Option<Vec<u8>>,
    pub ttype: Option<TType>,
    pub dynamic_flags: Option<Vec<String>>,
    pub static_flags: Option<Vec<String>>,
    pub snapshot: Option<bool>,
}

/// What one build-and-run does: whether to compile at all, which flavour,
/// the output name the compiler is given, the extra compiler flags, and
/// whether to record snapshots.
pub struct BuildPlan {
    pub build: bool,
    pub dynamic: bool,
    pub output_name: Vec<u8>,
    pub flags: Vec<String>,
    pub snapshot: bool,
}

/// The application's base name: its directory name up to the first
/// underscore.
pub open spec fn spec_base_name(s: Seq<u8>) -> Seq<u8> {
    s.subrange(0, find_byte(s, 0, 95))
}

/// Cuts the application directory name at the first underscore.
#[verifier::loop_isolation(false)]
pub fn app_base_name(app_dir: &Vec<u8>) -> (r: Vec<u8>)
    ensures
        r@ == spec_base_name(app_dir@),
{
    let n = app_dir.len();
    let mut r: Vec<u8> = Vec::new();
    let mut i: usize = 0;
    while i < n && app_dir[i] != 95
        invariant
            i <= n,
            n == app_dir@.len(),
            find_byte(app_dir@, 0, 95) == find_byte(app_dir@, i as int, 95),
            r@ =~= app_dir@.subrange(0, i as int),
        decreases n - i,
    {
        r.push(app_dir[i]);
        i = i + 1;
        proof {
            assert(r@ =~= app_dir@.subrange(0, i as int));
        }
    }
    proof {
        assert(find_byte(app_dir@, i as int, 95) == i);
        assert(r@ =~= spec_base_name(app_dir@));
    }
    r
}

/// The plan for building one flavour of an application: the output is
/// named by the configuration's rename or the directory's base name, the
/// flags are the configuration's for that flavour (none by default), and
/// snapshots follow the configuration.
pub fn build_plan(app_dir: &Vec<u8>, dynamic: bool, config: AppConfig) -> (r: BuildPlan)
    ensures
        r.build,
        r.dynamic == dynamic,
        r.output_name@ == (match config.rename {
            Some(n) => n@,
            None => spec_base_name(app_dir@),
        }),
        r.flags@ == (if dynamic {
            match config.dynamic_flags {
                Some(f) => f@,
                None => Seq::<String>::empty(),
            }
        } else {
            match config.static_flags {
                Some(f) => f@,
                None => Seq::<String>::empty(),
            }
        }),
        r.snapshot == (config.snapshot == Some(true)),
{
    let output_name = match config.rename {
        Some(n) => n,
        None => app_base_name(app_dir),
    };
    let flags = if dynamic {
        match config.dynamic_flags {
            Some(f) => f,
            None => Vec::new(),
        }
    } else {
        match config.static_flags {
            Some(f) => f,
            None => Vec::new(),
        }
    };
    let snapshot = match config.snapshot {
        Some(b) => b,
        None => false,
    };
    proof {
        if flags@.len() == 0 {
            assert(flags@ =~= Seq::<String>::empty());
        }
    }
    BuildPlan { build: true, dynamic, output_name, flags, snapshot }
}

/// The plan of a static test: build the static flavour, then run it.
pub fn static_test(app_dir: &Vec<u8>, config: AppConfig) -> (r: BuildPlan)
    ensures
        r.build,
        !r.dynamic,
        r.output_name@ == (match config.rename {
            Some(n) => n@,
            None => spec_base_name(app_dir@),
        }),
        r.flags@ == (match config.static_flags {
            Some(f) => f@,
            None => Seq::<String>::empty(),
        }),
        r.snapshot == (config.snapshot == Some(true)),
{
    build_plan(app_dir, false, config)
}

/// The plan of a dynamic test: build the dynamic flavour unless the build
/// is skipped, then run it.
pub fn dynamic_test(app_dir: &Vec<u8>, skip: bool, config: AppConfig) -> (r: BuildPlan)
    ensures
        r.build == !skip,
        r.dynamic,
        r.output_name@ == (match config.rename {
            Some(n) => n@,
            None => spec_base_name(app_dir@),
        }),
        r.flags@ == (match config.dynamic_flags {
            Some(f) => f@,
            None => Seq::<String>::empty(),
        }),
        r.snapshot == (config.snapshot == Some(true)),
{
    let mut r = build_plan(app_dir, true, config);
    if skip {
        r.build = false;
    }
    r
}

/// Whether every application run came back clean.
#[verifier::loop_isolation(false)]
pub fn all_passed(oks: &Vec<bool>) -> (b: bool)
    ensures
        b <==> (forall|i: int| 0 <= i < oks@.len() ==> oks@[i]),
{
    let n = oks.len();
    let mut i: usize = 0;
    while i < n
        invariant
            i <= n,
            forall|k: int| 0 <= k < i ==> oks@[k],
        decreases n - i,
    {
        if !oks[i] {
            return false;
        }
        i = i + 1;
    }
    true
}

} // verus!
