//! The live configuration of a search run: the recognized settings, their
//! parser, and the formula the run works on.

use crate::cnf::{clauses_view, parse_cnf_spec, Cnf};
use crate::cube::Cube;
use crate::num::{prop_wf, ratio_wf, Ratio};
use crate::strings::{all_ascii, ascii_string, ascii_view, char_bytes, str_to_bytes};
use crate::text::{split_bytes, split_lines, trim_bytes};
use crate::wcnf::{max_var_clauses, parse_wcnf_spec, wclauses_view, Wcnf};
use vstd::prelude::*;

verus! {

/// The direction and aggregator of optimization across a class:
/// maximize the minimum metric, or minimize the maximum.
#[derive(Debug, Clone, Copy, PartialEq, Eq, Structural)]
pub enum Comparator {
    MaxOfMin,
    MinOfMax,
}

impl Comparator {
    /// The display name of this comparator.
    pub fn name(&self) -> (r: &'static str)
        ensures
            *self is MaxOfMin ==> r@ == "max of mins"@,
            *self is MinOfMax ==> r@ == "min of maxs"@,
    {
        match *self {
            Comparator::MaxOfMin => "max of mins",
            Comparator::MinOfMax => "min of maxs",
        }
    }
}

/// The formula a run splits: CNF or WCNF, told apart by parsing.
#[derive(Debug, Clone)]
pub enum SatType {
    Cnf(Cnf),
    Wcnf(Wcnf),
}

/// A structured error for a text that is neither CNF nor WCNF.
#[derive(Debug, Clone)]
pub struct SatTypeError(pub String);

impl SatType {
    /// The formula denoted by a text: first read as CNF, then as WCNF.
    pub fn from_text(s: &str) -> (r: Result<SatType, SatTypeError>)
        ensures
            match r {
                Ok(SatType::Cnf(c)) => all_ascii(s@) && parse_cnf_spec(char_bytes(s@)) == Some(
                    (c.num_vars, c.num_clauses as u64, clauses_view(c.clauses@)),
                ),
                Ok(SatType::Wcnf(w)) => all_ascii(s@) && parse_cnf_spec(char_bytes(s@)) is None
                    && parse_wcnf_spec(char_bytes(s@)) == Some(
                    (w.num_clauses, w.hard_weight, wclauses_view(w.clauses@)),
                ) && w.num_vars == max_var_clauses(wclauses_view(w.clauses@)),
                Err(_) => !all_ascii(s@) || (parse_cnf_spec(char_bytes(s@)) is None
                    && parse_wcnf_spec(char_bytes(s@)) is None),
            },
    {
        match Cnf::from_text(s) {
            Ok(c) => Ok(SatType::Cnf(c)),
            Err(_) => match Wcnf::from_text(s) {
                Ok(w) => Ok(SatType::Wcnf(w)),
                Err(_) => Err(
                    SatTypeError(String::from_str("failed to parse the text as CNF or WCNF")),
                ),
            },
        }
    }

    /// The text of this formula conjoined with a cube.
    pub fn extend_cube_str(&self, cube: &Cube) -> (r: String)
        requires
            match self {
                SatType::Cnf(c) => c.num_clauses + cube.0@.len() <= usize::MAX,
                SatType::Wcnf(w) => w.num_clauses + cube.0@.len() <= u32::MAX,
            },
        ensures
            match self {
                SatType::Cnf(c) => r@ == crate::strings::ascii_view(
                    crate::cnf::cnf_bytes(
                        crate::cnf::grown_vars(c.num_vars as int, cube.0@),
                        c.num_clauses + cube.0@.len(),
                        clauses_view(c.clauses@) + crate::cnf::unit_clauses(cube.0@),
                    ),
                ),
                SatType::Wcnf(w) => r@ == crate::strings::ascii_view(
                    crate::wcnf::wcnf_bytes(
                        crate::cnf::grown_vars(w.num_vars as int, cube.0@),
                        w.num_clauses + cube.0@.len(),
                        w.hard_weight as int,
                        wclauses_view(w.clauses@) + crate::wcnf::hard_unit_clauses(
                            w.hard_weight,
                            cube.0@,
                        ),
                    ),
                ),
            },
    {
        match self {
            SatType::Cnf(c) => c.extend_cube_str(cube),
            SatType::Wcnf(w) => w.extend_cube_str(cube),
        }
    }
}

/// A structured configuration error, carrying a human-readable message.
#[derive(Debug, Clone)]
pub struct ConfigError(pub String);

impl ConfigError {
    /// The error's message.
    pub fn message(&self) -> (r: &String)
        ensures
            r == &self.0,
    {
        &self.0
    }
}

/// The textual settings of a run, as read from the configuration file;
/// the formula itself is not yet loaded. Paths are kept as text: whether
/// they exist is for the caller to find out.
#[derive(Debug, Clone)]
pub struct Settings {
    pub variables: Vec<u32>,
    pub multitree_variables: Option<Vec<u32>>,
    pub comparator: Comparator,
    pub timeout: u32,
    pub solver: String,
    pub formula_path: String,
    pub output_dir: String,
    pub tmp_dir: String,
    pub evaluation_metric: String,
    pub thread_count: usize,
    pub search_depth: u32,
    pub preserve_cnf: bool,
    pub preserve_logs: bool,
    pub cutoff_proportion: Ratio,
    pub time_proportion: Ratio,
    pub cutoff: Ratio,
    pub preproc_count: Option<usize>,
    pub debug: bool,
}

/// Candidate variables must be usable as literals: positive and within
/// `i32` range.
pub open spec fn vars_ok(vs: Seq<u32>) -> bool {
    forall|i: int| 0 <= i < vs.len() ==> 0 < (#[trigger] vs[i]) <= i32::MAX
}

/// What every well-formed settings value guarantees to the engine.
pub open spec fn settings_wf(s: Settings) -> bool {
    &&& s.variables@.len() >= 1
    &&& vars_ok(s.variables@)
    &&& match s.multitree_variables {
        Some(mv) => mv@.len() >= 1 && vars_ok(mv@),
        None => true,
    }
    &&& s.search_depth >= 1
    &&& s.thread_count >= 1
    &&& prop_wf(s.cutoff_proportion)
    &&& prop_wf(s.time_proportion)
    &&& ratio_wf(s.cutoff) && s.cutoff.num > 0
    &&& match s.preproc_count {
        Some(n) => n >= 1,
        None => true,
    }
}

fn str_is(name: &String, lit: &str) -> (r: bool)
    ensures
        r == (name@ == lit@),
{
    let other = String::from_str(lit);
    name.eq(&other)
}

/// An ASCII byte with any upper-case letter lowered.
pub open spec fn lower_byte(b: u8) -> u8 {
    if 65 <= b <= 90 {
        (b + 32) as u8
    } else {
        b
    }
}

pub open spec fn lower_bytes(s: Seq<u8>) -> Seq<u8> {
    Seq::new(s.len(), |i: int| lower_byte(s[i]))
}

/// Lowercase the ASCII letters of a byte string.
fn lowercase_bytes(v: &Vec<u8>) -> (r: Vec<u8>)
    requires
        forall|i: int| 0 <= i < v@.len() ==> (#[trigger] v@[i]) < 128,
    ensures
        r@ == lower_bytes(v@),
        forall|i: int| 0 <= i < r@.len() ==> (#[trigger] r@[i]) < 128,
{
    let mut out: Vec<u8> = Vec::new();
    let n = v.len();
    for i in 0..n
        invariant
            n == v@.len(),
            forall|x: int| 0 <= x < v@.len() ==> (#[trigger] v@[x]) < 128,
            out@.len() == i,
            forall|x: int| 0 <= x < i ==> (#[trigger] out@[x]) == lower_byte(v@[x]) && out@[x]
                < 128,
    {
        let b = v[i];
        if 65 <= b && b <= 90 {
            out.push(b + 32);
        } else {
            out.push(b);
        }
    }
    proof {
        assert(out@ =~= lower_bytes(v@));
    }
    out
}

fn contains_byte(v: &Vec<u8>, b: u8) -> (r: bool)
    ensures
        r == v@.contains(b),
{
    let n = v.len();
    for i in 0..n
        invariant
            n == v@.len(),
            forall|j: int| 0 <= j < i ==> v@[j] != b,
    {
        if v[i] == b {
            return true;
        }
    }
    false
}

// ---------------------------------------------------------------------------
// The configuration grammar
// ---------------------------------------------------------------------------

/// The candidate variables denoted by a token list: every token a
/// positive integer small enough to be a literal.
pub open spec fn parse_vars_toks(toks: Seq<Seq<u8>>) -> Option<Seq<u32>>
    decreases toks.len(),
{
    if toks.len() == 0 {
        Some(Seq::<u32>::empty())
    } else {
        match crate::text::parse_u32_spec(toks[0]) {
            Some(u) => if 0 < u <= 0x7fff_ffff {
                match parse_vars_toks(toks.drop_first()) {
                    Some(rest) => Some(seq![u] + rest),
                    None => None,
                }
            } else {
                None
            },
            None => None,
        }
    }
}

/// A space-separated list of candidate variables.
pub open spec fn parse_var_list_spec(arg: Seq<u8>) -> Option<Seq<u32>> {
    parse_vars_toks(crate::text::split_on(arg, crate::text::SP))
}

/// A positive decimal bounded so that it can scale any metric: the
/// proportions and the cutoff.
pub open spec fn parse_positive_ratio_spec(arg: Seq<u8>) -> Option<Ratio> {
    match crate::num::parse_ratio_spec(arg) {
        Some(q) => if 1 <= q.num <= 1_000_000_000 {
            Some(q)
        } else {
            None
        },
        None => None,
    }
}

/// A positive count that fits the machine: the thread count and the
/// preprocess count.
pub open spec fn parse_count_spec(arg: Seq<u8>) -> Option<usize> {
    match crate::text::parse_u64_spec(arg) {
        Some(u) => if 0 < u <= usize::MAX as u64 {
            Some(u as usize)
        } else {
            None
        },
        None => None,
    }
}

/// `true` or `false`, spelled out.
pub open spec fn parse_bool_spec(t: Seq<char>) -> Option<bool> {
    if t == "true"@ {
        Some(true)
    } else if t == "false"@ {
        Some(false)
    } else {
        None
    }
}

/// The value of each setting while the lines are read: the required ones
/// still unset, the optional ones at their defaults.
pub struct PendingSettings {
    pub variables: Option<Seq<u32>>,
    pub multitree_variables: Option<Seq<u32>>,
    pub comparator: Comparator,
    pub timeout: u32,
    pub solver: Option<Seq<char>>,
    pub formula_path: Option<Seq<char>>,
    pub output_dir: Seq<char>,
    pub tmp_dir: Seq<char>,
    pub evaluation_metric: Option<Seq<char>>,
    pub thread_count: usize,
    pub search_depth: u32,
    pub preserve_cnf: bool,
    pub preserve_logs: bool,
    pub cutoff_proportion: Ratio,
    pub time_proportion: Ratio,
    pub cutoff: Option<Ratio>,
    pub preproc_count: Option<usize>,
    pub debug: bool,
}

/// The state before any line is read: the documented defaults.
pub open spec fn initial_settings(default_thread_count: usize) -> PendingSettings {
    PendingSettings {
        variables: None,
        multitree_variables: None,
        comparator: Comparator::MinOfMax,
        timeout: 600,
        solver: None,
        formula_path: None,
        output_dir: "splits_output_directory"@,
        tmp_dir: "splits_working_directory"@,
        evaluation_metric: None,
        thread_count: default_thread_count,
        search_depth: 1,
        preserve_cnf: false,
        preserve_logs: false,
        cutoff_proportion: Ratio { num: 1, scale: 0 },
        time_proportion: Ratio { num: 1, scale: 0 },
        cutoff: None,
        preproc_count: None,
        debug: false,
    }
}

/// One recognized `key: value` pair applied to the state; `None` for an
/// unknown key or a malformed value.
pub open spec fn apply_setting(p: PendingSettings, name: Seq<char>, arg: Seq<u8>) -> Option<
    PendingSettings,
> {
    if name == "variables"@ {
        match parse_var_list_spec(arg) {
            Some(vs) => Some(PendingSettings { variables: Some(vs), ..p }),
            None => None,
        }
    } else if name == "multitree variables"@ {
        match parse_var_list_spec(arg) {
            Some(vs) => Some(PendingSettings { multitree_variables: Some(vs), ..p }),
            None => None,
        }
    } else if name == "comparator"@ {
        if ascii_view(arg) == "minmax"@ {
            Some(PendingSettings { comparator: Comparator::MinOfMax, ..p })
        } else if ascii_view(arg) == "maxmin"@ {
            Some(PendingSettings { comparator: Comparator::MaxOfMin, ..p })
        } else {
            None
        }
    } else if name == "timeout"@ {
        match crate::text::parse_u32_spec(arg) {
            Some(t) => Some(PendingSettings { timeout: t, ..p }),
            None => None,
        }
    } else if name == "solver"@ {
        Some(PendingSettings { solver: Some(ascii_view(arg)), ..p })
    } else if name == "cnf"@ || name == "wcnf"@ {
        Some(PendingSettings { formula_path: Some(ascii_view(arg)), ..p })
    } else if name == "output dir"@ {
        Some(PendingSettings { output_dir: ascii_view(arg), ..p })
    } else if name == "tmp dir"@ {
        Some(PendingSettings { tmp_dir: ascii_view(arg), ..p })
    } else if name == "evaluation metric"@ {
        Some(PendingSettings { evaluation_metric: Some(ascii_view(arg)), ..p })
    } else if name == "search depth"@ {
        match crate::text::parse_u32_spec(arg) {
            Some(u) => if u >= 1 {
                Some(PendingSettings { search_depth: u, ..p })
            } else {
                None
            },
            None => None,
        }
    } else if name == "thread count"@ {
        match parse_count_spec(arg) {
            Some(u) => Some(PendingSettings { thread_count: u, ..p }),
            None => None,
        }
    } else if name == "preserve cnf"@ || name == "preserve wcnf"@ {
        match parse_bool_spec(ascii_view(arg)) {
            Some(b) => Some(PendingSettings { preserve_cnf: b, ..p }),
            None => None,
        }
    } else if name == "cutoff proportion"@ {
        match parse_positive_ratio_spec(arg) {
            Some(q) => Some(PendingSettings { cutoff_proportion: q, ..p }),
            None => None,
        }
    } else if name == "time proportion"@ {
        match parse_positive_ratio_spec(arg) {
            Some(q) => Some(PendingSettings { time_proportion: q, ..p }),
            None => None,
        }
    } else if name == "cutoff"@ {
        match parse_positive_ratio_spec(arg) {
            Some(q) => Some(PendingSettings { cutoff: Some(q), ..p }),
            None => None,
        }
    } else if name == "preserve logs"@ {
        match parse_bool_spec(ascii_view(arg)) {
            Some(b) => Some(PendingSettings { preserve_logs: b, ..p }),
            None => None,
        }
    } else if name == "preprocess count"@ {
        match parse_count_spec(arg) {
            Some(u) => Some(PendingSettings { preproc_count: Some(u), ..p }),
            None => None,
        }
    } else if name == "debug"@ {
        match parse_bool_spec(ascii_view(arg)) {
            Some(b) => Some(PendingSettings { debug: b, ..p }),
            None => None,
        }
    } else {
        None
    }
}

/// One line applied to the state: blank lines and lines whose key holds a
/// `#` change nothing; a line without `:` is malformed; otherwise the
/// trimmed, lowercased key names the setting and the trimmed remainder of
/// the first `:` is its value.
pub open spec fn apply_line(p: PendingSettings, line: Seq<u8>) -> Option<PendingSettings> {
    if crate::text::trim_spec(line).len() == 0 {
        Some(p)
    } else {
        let parts = crate::text::split_on(line, 58u8);
        let lname = lower_bytes(crate::text::trim_spec(parts[0]));
        if lname.contains(35u8) {
            Some(p)
        } else if parts.len() < 2 {
            None
        } else {
            apply_setting(p, ascii_view(lname), crate::text::trim_spec(parts[1]))
        }
    }
}

/// All lines applied in order.
pub open spec fn apply_lines(p: PendingSettings, lines: Seq<Seq<u8>>) -> Option<PendingSettings>
    decreases lines.len(),
{
    if lines.len() == 0 {
        Some(p)
    } else {
        match apply_line(p, lines[0]) {
            Some(q) => apply_lines(q, lines.drop_first()),
            None => None,
        }
    }
}

/// Applying lines splits at any prefix.
proof fn lemma_apply_lines_split(p: PendingSettings, s: Seq<Seq<u8>>, i: int)
    requires
        0 <= i <= s.len(),
    ensures
        apply_lines(p, s) == (match apply_lines(p, s.take(i)) {
            Some(q) => apply_lines(q, s.skip(i)),
            None => None,
        }),
    decreases s.len(),
{
    if i == 0 {
        assert(s.take(0) =~= Seq::<Seq<u8>>::empty());
        assert(s.take(0).len() == 0);
        assert(apply_lines(p, s.take(0)) == Some(p));
        assert(s.skip(0) == s);
    } else {
        assert(s.len() >= 1);
        assert(s.take(i)[0] == s[0]);
        assert(s.take(i).len() >= 1);
        match apply_line(p, s[0]) {
            None => {
                assert(apply_lines(p, s) is None);
                assert(apply_lines(p, s.take(i)) is None);
            },
            Some(q) => {
                assert(apply_lines(p, s) == apply_lines(q, s.drop_first()));
                assert(s.take(i).drop_first() =~= s.drop_first().take(i - 1));
                assert(apply_lines(p, s.take(i)) == apply_lines(q, s.drop_first().take(i - 1)));
                lemma_apply_lines_split(q, s.drop_first(), i - 1);
                assert(s.skip(i) =~= s.drop_first().skip(i - 1));
            },
        }
    }
}

/// The five settings without a default must be present.
pub open spec fn settings_complete(p: PendingSettings) -> bool {
    &&& p.variables is Some
    &&& p.solver is Some
    &&& p.formula_path is Some
    &&& p.evaluation_metric is Some
    &&& p.cutoff is Some
}

/// The settings denoted by the configuration text: the lines folded over
/// the defaults, with the required keys all present.
pub open spec fn parse_settings_spec(text: Seq<u8>, default_thread_count: usize) -> Option<
    PendingSettings,
> {
    match apply_lines(initial_settings(default_thread_count), crate::text::split_lines_spec(text)) {
        Some(p) => if settings_complete(p) {
            Some(p)
        } else {
            None
        },
        None => None,
    }
}

/// Whether a settings value carries exactly the parsed state.
pub open spec fn settings_match(s: Settings, p: PendingSettings) -> bool {
    &&& p.variables == Some(s.variables@)
    &&& (match (s.multitree_variables, p.multitree_variables) {
        (Some(v), Some(w)) => v@ == w,
        (None, None) => true,
        _ => false,
    })
    &&& s.comparator == p.comparator
    &&& s.timeout == p.timeout
    &&& p.solver == Some(s.solver@)
    &&& p.formula_path == Some(s.formula_path@)
    &&& s.output_dir@ == p.output_dir
    &&& s.tmp_dir@ == p.tmp_dir
    &&& p.evaluation_metric == Some(s.evaluation_metric@)
    &&& s.thread_count == p.thread_count
    &&& s.search_depth == p.search_depth
    &&& s.preserve_cnf == p.preserve_cnf
    &&& s.preserve_logs == p.preserve_logs
    &&& s.cutoff_proportion == p.cutoff_proportion
    &&& s.time_proportion == p.time_proportion
    &&& p.cutoff == Some(s.cutoff)
    &&& s.preproc_count == p.preproc_count
    &&& s.debug == p.debug
}

/// The candidate variables named by a space-separated list of positive
/// integers, each small enough to be a literal.
fn parse_var_list(arg: &Vec<u8>) -> (r: Result<Vec<u32>, ConfigError>)
    ensures
        match r {
            Ok(vs) => parse_var_list_spec(arg@) == Some(vs@) && vs@.len() >= 1 && vars_ok(vs@),
            Err(_) => parse_var_list_spec(arg@) is None,
        },
{
    let toks = crate::text::split_bytes(arg, crate::text::SP);
    let ghost gtoks = crate::text::split_on(arg@, crate::text::SP);
    proof {
        crate::text::lemma_split_len(arg@, crate::text::SP);
    }
    let mut out: Vec<u32> = Vec::new();
    let n = toks.len();
    proof {
        assert(gtoks.skip(0) == gtoks);
        match parse_vars_toks(gtoks) {
            Some(rest) => {
                assert(out@ + rest =~= rest);
            },
            None => {},
        }
    }
    for i in 0..n
        invariant
            n == toks@.len(),
            n >= 1,
            crate::text::seq2(toks@) == gtoks,
            gtoks == crate::text::split_on(arg@, crate::text::SP),
            out@.len() == i,
            vars_ok(out@),
            parse_vars_toks(gtoks.skip(i as int)) matches Some(rest) ==> parse_vars_toks(gtoks)
                == Some(out@ + rest),
            parse_vars_toks(gtoks.skip(i as int)) is None ==> parse_vars_toks(gtoks) is None,
    {
        proof {
            assert(toks@[i as int]@ == gtoks[i as int]);
            assert(gtoks.skip(i as int)[0] == gtoks[i as int]);
            assert(gtoks.skip(i as int).drop_first() == gtoks.skip(i + 1));
        }
        match crate::text::parse_u32(&toks[i]) {
            Some(u) => {
                if u == 0 {
                    return Err(ConfigError(String::from_str("0 is not a valid cnf variable")));
                }
                if u > 0x7fff_ffff {
                    return Err(
                        ConfigError(
                            String::from_str("a splitting variable does not fit a signed literal"),
                        ),
                    );
                }
                let ghost prev = out@;
                out.push(u);
                proof {
                    let tail = gtoks.skip(i as int);
                    if parse_vars_toks(gtoks.skip(i + 1)) is Some {
                        let rest = parse_vars_toks(gtoks.skip(i + 1)).unwrap();
                        assert(parse_vars_toks(tail) == Some(seq![u] + rest));
                        assert(prev + (seq![u] + rest) =~= out@ + rest);
                    }
                }
            },
            None => {
                return Err(
                    ConfigError(
                        String::from_str(
                            "cannot parse a variable; please make sure they are all positive integers",
                        ),
                    ),
                );
            },
        }
    }
    proof {
        assert(gtoks.skip(n as int) =~= Seq::<Seq<u8>>::empty());
        assert(gtoks.skip(n as int).len() == 0);
        assert(parse_vars_toks(gtoks.skip(n as int)) == Some(Seq::<u32>::empty()));
        assert(out@ + Seq::<u32>::empty() =~= out@);
    }
    Ok(out)
}

/// `true` or `false`, spelled out.
fn parse_bool_text(t: &String) -> (r: Option<bool>)
    ensures
        r == parse_bool_spec(t@),
{
    if str_is(t, "true") {
        Some(true)
    } else if str_is(t, "false") {
        Some(false)
    } else {
        None
    }
}

/// A positive decimal setting, bounded so that it can scale any metric.
fn parse_positive_ratio(arg: &Vec<u8>) -> (r: Option<Ratio>)
    ensures
        r == parse_positive_ratio_spec(arg@),
        r matches Some(q) ==> prop_wf(q),
{
    match Ratio::from_bytes(arg) {
        Some(q) => {
            if q.num >= 1 && q.num <= 1_000_000_000 {
                Some(q)
            } else {
                None
            }
        },
        None => None,
    }
}

/// The settings while the lines are read, as the parser holds them.
struct PartialSettings {
    variables: Option<Vec<u32>>,
    multitree_variables: Option<Vec<u32>>,
    comparator: Comparator,
    timeout: u32,
    solver: Option<String>,
    formula_path: Option<String>,
    output_dir: String,
    tmp_dir: String,
    evaluation_metric: Option<String>,
    thread_count: usize,
    search_depth: u32,
    preserve_cnf: bool,
    preserve_logs: bool,
    cutoff_proportion: Ratio,
    time_proportion: Ratio,
    cutoff: Option<Ratio>,
    preproc_count: Option<usize>,
    debug: bool,
}

/// The parse state a partial settings value stands for.
spec fn partial_view(st: PartialSettings) -> PendingSettings {
    PendingSettings {
        variables: match st.variables {
            Some(v) => Some(v@),
            None => None,
        },
        multitree_variables: match st.multitree_variables {
            Some(v) => Some(v@),
            None => None,
        },
        comparator: st.comparator,
        timeout: st.timeout,
        solver: match st.solver {
            Some(s) => Some(s@),
            None => None,
        },
        formula_path: match st.formula_path {
            Some(s) => Some(s@),
            None => None,
        },
        output_dir: st.output_dir@,
        tmp_dir: st.tmp_dir@,
        evaluation_metric: match st.evaluation_metric {
            Some(s) => Some(s@),
            None => None,
        },
        thread_count: st.thread_count,
        search_depth: st.search_depth,
        preserve_cnf: st.preserve_cnf,
        preserve_logs: st.preserve_logs,
        cutoff_proportion: st.cutoff_proportion,
        time_proportion: st.time_proportion,
        cutoff: st.cutoff,
        preproc_count: st.preproc_count,
        debug: st.debug,
    }
}

/// What the parser keeps true of its state throughout.
spec fn partial_wf(st: PartialSettings) -> bool {
    &&& (match st.variables {
        Some(vs) => vs@.len() >= 1 && vars_ok(vs@),
        None => true,
    })
    &&& (match st.multitree_variables {
        Some(vs) => vs@.len() >= 1 && vars_ok(vs@),
        None => true,
    })
    &&& st.search_depth >= 1
    &&& st.thread_count >= 1
    &&& prop_wf(st.cutoff_proportion)
    &&& prop_wf(st.time_proportion)
    &&& (match st.cutoff {
        Some(c) => ratio_wf(c) && c.num > 0,
        None => true,
    })
    &&& (match st.preproc_count {
        Some(c) => c >= 1,
        None => true,
    })
}

/// Apply one recognized `key: value` pair to the state, or say why it is
/// not one.
#[verifier::rlimit(80)]
fn apply_setting_exec(
    st: &mut PartialSettings,
    name: &String,
    arg: &Vec<u8>,
    arg_text: &String,
) -> (r: Result<(), ConfigError>)
    requires
        arg_text@ == ascii_view(arg@),
        partial_wf(*old(st)),
    ensures
        match r {
            Ok(_) => apply_setting(partial_view(*old(st)), name@, arg@) == Some(
                partial_view(*final(st)),
            ) && partial_wf(*final(st)),
            Err(_) => apply_setting(partial_view(*old(st)), name@, arg@) is None,
        },
{
    if str_is(name, "variables") {
        match parse_var_list(arg) {
            Ok(vs) => {
                st.variables = Some(vs);
                Ok(())
            },
            Err(e) => Err(e),
        }
    } else if str_is(name, "multitree variables") {
        match parse_var_list(arg) {
            Ok(vs) => {
                st.multitree_variables = Some(vs);
                Ok(())
            },
            Err(e) => Err(e),
        }
    } else if str_is(name, "comparator") {
        if str_is(arg_text, "minmax") {
            st.comparator = Comparator::MinOfMax;
            Ok(())
        } else if str_is(arg_text, "maxmin") {
            st.comparator = Comparator::MaxOfMin;
            Ok(())
        } else {
            Err(
                ConfigError(
                    String::from_str(
                        "failed to recognize the comparator; please use either 'minmax' or 'maxmin'",
                    ),
                ),
            )
        }
    } else if str_is(name, "timeout") {
        match crate::text::parse_u32(arg) {
            Some(t) => {
                st.timeout = t;
                Ok(())
            },
            None => Err(
                ConfigError(
                    String::from_str(
                        "failed to parse the timeout; please provide a positive integer number of seconds",
                    ),
                ),
            ),
        }
    } else if str_is(name, "solver") {
        st.solver = Some(arg_text.clone());
        Ok(())
    } else if str_is(name, "cnf") || str_is(name, "wcnf") {
        st.formula_path = Some(arg_text.clone());
        Ok(())
    } else if str_is(name, "output dir") {
        st.output_dir = arg_text.clone();
        Ok(())
    } else if str_is(name, "tmp dir") {
        st.tmp_dir = arg_text.clone();
        Ok(())
    } else if str_is(name, "evaluation metric") {
        st.evaluation_metric = Some(arg_text.clone());
        Ok(())
    } else if str_is(name, "search depth") {
        match crate::text::parse_u32(arg) {
            Some(u) => {
                if u == 0 {
                    return Err(ConfigError(String::from_str("0 is not a valid search depth")));
                }
                st.search_depth = u;
                Ok(())
            },
            None => Err(
                ConfigError(
                    String::from_str(
                        "cannot parse the search depth; please make sure it is a positive integer",
                    ),
                ),
            ),
        }
    } else if str_is(name, "thread count") {
        match crate::text::parse_u64(arg) {
            Some(u) => {
                if u == 0 {
                    return Err(
                        ConfigError(String::from_str("0 is not a valid number of threads")),
                    );
                }
                if u > usize::MAX as u64 {
                    return Err(ConfigError(String::from_str("the thread count is too large")));
                }
                st.thread_count = u as usize;
                Ok(())
            },
            None => Err(
                ConfigError(
                    String::from_str(
                        "cannot parse the thread count; please make sure it is a positive integer",
                    ),
                ),
            ),
        }
    } else if str_is(name, "preserve cnf") || str_is(name, "preserve wcnf") {
        match parse_bool_text(arg_text) {
            Some(b) => {
                st.preserve_cnf = b;
                Ok(())
            },
            None => Err(
                ConfigError(
                    String::from_str(
                        "cannot parse the value as a boolean; please use 'true' or 'false'",
                    ),
                ),
            ),
        }
    } else if str_is(name, "cutoff proportion") {
        match parse_positive_ratio(arg) {
            Some(q) => {
                st.cutoff_proportion = q;
                Ok(())
            },
            None => Err(
                ConfigError(
                    String::from_str(
                        "cannot parse the cutoff proportion; please provide a positive decimal",
                    ),
                ),
            ),
        }
    } else if str_is(name, "time proportion") {
        match parse_positive_ratio(arg) {
            Some(q) => {
                st.time_proportion = q;
                Ok(())
            },
            None => Err(
                ConfigError(
                    String::from_str(
                        "cannot parse the time proportion; please provide a positive decimal",
                    ),
                ),
            ),
        }
    } else if str_is(name, "cutoff") {
        match parse_positive_ratio(arg) {
            Some(q) => {
                st.cutoff = Some(q);
                Ok(())
            },
            None => Err(
                ConfigError(
                    String::from_str(
                        "cannot parse the cutoff; please provide a positive decimal",
                    ),
                ),
            ),
        }
    } else if str_is(name, "preserve logs") {
        match parse_bool_text(arg_text) {
            Some(b) => {
                st.preserve_logs = b;
                Ok(())
            },
            None => Err(
                ConfigError(String::from_str("cannot parse the value for preserving logs")),
            ),
        }
    } else if str_is(name, "preprocess count") {
        match crate::text::parse_u64(arg) {
            Some(u) => {
                if u == 0 {
                    return Err(
                        ConfigError(
                            String::from_str("the preprocess count needs to be a positive number"),
                        ),
                    );
                }
                if u > usize::MAX as u64 {
                    return Err(
                        ConfigError(String::from_str("the preprocess count is too large")),
                    );
                }
                st.preproc_count = Some(u as usize);
                Ok(())
            },
            None => Err(
                ConfigError(
                    String::from_str(
                        "cannot parse the preprocess count; please make sure it is a positive number",
                    ),
                ),
            ),
        }
    } else if str_is(name, "debug") {
        match parse_bool_text(arg_text) {
            Some(b) => {
                st.debug = b;
                Ok(())
            },
            None => Err(ConfigError(String::from_str("cannot parse the value for debugging"))),
        }
    } else {
        Err(ConfigError(String::from_str("unknown config setting")))
    }
}

impl Settings {
    /// Read the settings from the configuration text: one `key: value`
    /// pair per line, case-insensitive keys, `#` lines and blank lines
    /// skipped, defaults as `initial_settings` gives them. `Ok` exactly
    /// when the text is ASCII, no line is malformed, no key is unknown
    /// and the five required settings are present; the result then
    /// carries exactly the parsed values.
    #[verifier::rlimit(80)]
    pub fn parse(config_string: &str, default_thread_count: usize) -> (r: Result<
        Settings,
        ConfigError,
    >)
        requires
            default_thread_count >= 1,
        ensures
            match r {
                Ok(s) => all_ascii(config_string@) && settings_wf(s) && (match parse_settings_spec(
                    char_bytes(config_string@),
                    default_thread_count,
                ) {
                    Some(p) => settings_match(s, p),
                    None => false,
                }),
                Err(_) => !all_ascii(config_string@) || parse_settings_spec(
                    char_bytes(config_string@),
                    default_thread_count,
                ) is None,
            },
    {
        let bytes = match str_to_bytes(config_string) {
            Some(b) => b,
            None => {
                return Err(ConfigError(String::from_str("the configuration is not ASCII text")));
            },
        };
        let lines = split_lines(&bytes);
        let ghost glines = crate::text::split_lines_spec(bytes@);
        proof {
            assert(forall|x: int| 0 <= x < bytes@.len() ==> (#[trigger] bytes@[x]) < 128) by {
                assert forall|x: int| 0 <= x < bytes@.len() implies (#[trigger] bytes@[x])
                    < 128 by {
                    assert(bytes@[x] == config_string@[x] as u8);
                    assert('\0' <= config_string@[x] <= '\u{7f}');
                }
            }
            crate::text::lemma_split_ascii(bytes@, crate::text::NL);
            let raw = crate::text::split_on(bytes@, crate::text::NL);
            assert(crate::text::seq2(lines@) == glines);
            assert(crate::text::seq2(lines@).len() == lines@.len());
            assert(glines.len() == lines@.len());
            assert(raw.len() >= lines@.len());
            assert forall|k: int, x: int|
                #![trigger lines@[k]@[x]]
                0 <= k < lines@.len() && 0 <= x < lines@[k]@.len() implies lines@[k]@[x] < 128 by {
                assert(crate::text::seq2(lines@)[k] == lines@[k]@);
                assert(lines@[k]@ == glines[k]);
                assert(glines[k] == raw[k]);
                assert(raw[k][x] < 128);
            }
        }
        let mut st = PartialSettings {
            variables: None,
            multitree_variables: None,
            comparator: Comparator::MinOfMax,
            timeout: 600,
            solver: None,
            formula_path: None,
            output_dir: String::from_str("splits_output_directory"),
            tmp_dir: String::from_str("splits_working_directory"),
            evaluation_metric: None,
            thread_count: default_thread_count,
            search_depth: 1,
            preserve_cnf: false,
            preserve_logs: false,
            cutoff_proportion: Ratio { num: 1, scale: 0 },
            time_proportion: Ratio { num: 1, scale: 0 },
            cutoff: None,
            preproc_count: None,
            debug: false,
        };
        let n = lines.len();
        proof {
            assert(glines.take(0) =~= Seq::<Seq<u8>>::empty());
            assert(glines.take(0).len() == 0);
            assert(partial_view(st) == initial_settings(default_thread_count));
        }
        for li in 0..n
            invariant
                n == lines@.len(),
                all_ascii(config_string@),
                bytes@ == char_bytes(config_string@),
                crate::text::seq2(lines@) == glines,
                glines == crate::text::split_lines_spec(bytes@),
                forall|k: int, x: int|
                    #![trigger lines@[k]@[x]]
                    0 <= k < lines@.len() && 0 <= x < lines@[k]@.len() ==> lines@[k]@[x] < 128,
                partial_wf(st),
                (apply_lines(initial_settings(default_thread_count), glines.take(li as int))
                    == Some(partial_view(st))),
        {
            let ghost gline = glines[li as int];
            let ghost before = partial_view(st);
            proof {
                assert(crate::text::seq2(lines@)[li as int] == lines@[li as int]@);
                assert(lines@[li as int]@ == gline);
                assert(glines.take(li + 1) =~= glines.take(li as int).push(gline));
                lemma_apply_lines_split(
                    initial_settings(default_thread_count),
                    glines.take(li + 1),
                    li as int,
                );
                assert(glines.take(li + 1).take(li as int) =~= glines.take(li as int));
                assert(glines.take(li + 1).skip(li as int) =~= seq![gline]);
                assert(seq![gline][0] == gline);
                assert(seq![gline].drop_first() =~= Seq::<Seq<u8>>::empty());
                assert(seq![gline].drop_first().len() == 0);
                match apply_line(before, gline) {
                    Some(q) => {
                        assert(apply_lines(q, seq![gline].drop_first()) == Some(q));
                        assert(apply_lines(before, seq![gline]) == Some(q));
                    },
                    None => {
                        assert(apply_lines(before, seq![gline]) is None);
                    },
                }
                lemma_apply_lines_split(initial_settings(default_thread_count), glines, li as int);
                assert(glines.skip(li as int)[0] == gline);
                assert(glines.skip(li as int).len() >= 1);
            }
            let trimmed_line = trim_bytes(&lines[li]);
            if trimmed_line.len() == 0 {
                // a blank line is skipped
                proof {
                    assert(apply_line(before, gline) == Some(before));
                }
            } else {
                let parts = split_bytes(&lines[li], 58u8);
                let ghost gparts = crate::text::split_on(gline, 58u8);
                proof {
                    crate::text::lemma_split_len(gline, 58u8);
                    assert(crate::text::seq2(parts@) == gparts);
                    assert(parts@[0]@ == gparts[0]);
                }
                let raw_name = trim_bytes(&parts[0]);
                proof {
                    assert(forall|x: int|
                        0 <= x < raw_name@.len() ==> (#[trigger] raw_name@[x]) < 128) by {
                        crate::text::lemma_split_ascii(gline, 58u8);
                        crate::text::lemma_trim_ascii(gparts[0]);
                    }
                }
                let lower_name = lowercase_bytes(&raw_name);
                if contains_byte(&lower_name, 35u8) {
                    // a comment line is skipped
                    proof {
                        assert(apply_line(before, gline) == Some(before));
                    }
                } else {
                    if parts.len() < 2 {
                        proof {
                            assert(gparts.len() < 2);
                            assert(apply_line(before, gline) is None);
                            assert(apply_lines(before, glines.skip(li as int)) is None);
                        }
                        return Err(
                            ConfigError(
                                String::from_str("a setting line is missing a `:` separator"),
                            ),
                        );
                    }
                    let arg = trim_bytes(&parts[1]);
                    proof {
                        assert(parts@[1]@ == gparts[1]);
                        assert(forall|x: int|
                            0 <= x < arg@.len() ==> (#[trigger] arg@[x]) < 128) by {
                            crate::text::lemma_split_ascii(gline, 58u8);
                            crate::text::lemma_trim_ascii(gparts[1]);
                        }
                    }
                    let arg_copy = crate::text::copy_range(&arg, 0, arg.len());
                    proof {
                        assert(arg_copy@ =~= arg@);
                    }
                    let arg_text = ascii_string(arg_copy);
                    let name = ascii_string(lower_name);
                    proof {
                        assert(name@ == ascii_view(lower_bytes(crate::text::trim_spec(
                            gparts[0],
                        ))));
                        assert(arg_text@ == ascii_view(arg@));
                    }
                    match apply_setting_exec(&mut st, &name, &arg, &arg_text) {
                        Ok(_) => {
                            proof {
                                assert(apply_line(before, gline) == Some(partial_view(st)));
                            }
                        },
                        Err(e) => {
                            proof {
                                assert(apply_line(before, gline) is None);
                                assert(apply_lines(before, glines.skip(li as int)) is None);
                            }
                            return Err(e);
                        },
                    }
                }
            }
        }
        proof {
            assert(glines.take(n as int) == glines);
        }
        let variables = match st.variables {
            Some(vs) => vs,
            None => {
                return Err(
                    ConfigError(String::from_str("please provide variables in the config")),
                );
            },
        };
        let solver = match st.solver {
            Some(s) => s,
            None => {
                return Err(
                    ConfigError(
                        String::from_str("please provide the path of the solver in the config"),
                    ),
                );
            },
        };
        let formula_path = match st.formula_path {
            Some(p) => p,
            None => {
                return Err(
                    ConfigError(
                        String::from_str("please provide the path of the cnf file in the config"),
                    ),
                );
            },
        };
        let evaluation_metric = match st.evaluation_metric {
            Some(m) => m,
            None => {
                return Err(
                    ConfigError(
                        String::from_str("please provide the evaluation metric in the config"),
                    ),
                );
            },
        };
        let cutoff = match st.cutoff {
            Some(c) => c,
            None => {
                return Err(
                    ConfigError(
                        String::from_str("please make sure there is a cutoff in the config"),
                    ),
                );
            },
        };
        Ok(
            Settings {
                variables,
                multitree_variables: st.multitree_variables,
                comparator: st.comparator,
                timeout: st.timeout,
                solver,
                formula_path,
                output_dir: st.output_dir,
                tmp_dir: st.tmp_dir,
                evaluation_metric,
                thread_count: st.thread_count,
                search_depth: st.search_depth,
                preserve_cnf: st.preserve_cnf,
                preserve_logs: st.preserve_logs,
                cutoff_proportion: st.cutoff_proportion,
                time_proportion: st.time_proportion,
                cutoff,
                preproc_count: st.preproc_count,
                debug: st.debug,
            },
        )
    }
}

/// The live configuration: the settings together with the parsed formula.
#[derive(Debug, Clone)]
pub struct Config {
    pub variables: Vec<u32>,
    pub multitree_variables: Option<Vec<u32>>,
    pub comparator: Comparator,
    pub timeout: u32,
    pub solver: String,
    pub cnf: SatType,
    pub output_dir: String,
    pub tmp_dir: String,
    pub evaluation_metric: String,
    pub thread_count: usize,
    pub search_depth: u32,
    pub preserve_cnf: bool,
    pub preserve_logs: bool,
    pub cutoff_proportion: Ratio,
    pub time_proportion: Ratio,
    pub cutoff: Ratio,
    pub preproc_count: Option<usize>,
    pub debug: bool,
}

/// What every well-formed configuration guarantees to the engine.
pub open spec fn config_wf(c: Config) -> bool {
    &&& c.variables@.len() >= 1
    &&& vars_ok(c.variables@)
    &&& match c.multitree_variables {
        Some(mv) => mv@.len() >= 1 && vars_ok(mv@),
        None => true,
    }
    &&& c.search_depth >= 1
    &&& c.thread_count >= 1
    &&& prop_wf(c.cutoff_proportion)
    &&& prop_wf(c.time_proportion)
    &&& ratio_wf(c.cutoff) && c.cutoff.num > 0
}

/// Whether a configuration carries exactly a parsed settings state (the
/// formula aside).
pub open spec fn config_matches(c: Config, p: PendingSettings) -> bool {
    &&& p.variables == Some(c.variables@)
    &&& (match (c.multitree_variables, p.multitree_variables) {
        (Some(v), Some(w)) => v@ == w,
        (None, None) => true,
        _ => false,
    })
    &&& c.comparator == p.comparator
    &&& c.timeout == p.timeout
    &&& p.solver == Some(c.solver@)
    &&& c.output_dir@ == p.output_dir
    &&& c.tmp_dir@ == p.tmp_dir
    &&& p.evaluation_metric == Some(c.evaluation_metric@)
    &&& c.thread_count == p.thread_count
    &&& c.search_depth == p.search_depth
    &&& c.preserve_cnf == p.preserve_cnf
    &&& c.preserve_logs == p.preserve_logs
    &&& c.cutoff_proportion == p.cutoff_proportion
    &&& c.time_proportion == p.time_proportion
    &&& p.cutoff == Some(c.cutoff)
    &&& c.preproc_count == p.preproc_count
    &&& c.debug == p.debug
}

impl Config {
    /// The configuration denoted by the configuration text together with
    /// the loaded formula text. The caller reads the formula file at
    /// `Settings::parse(...).formula_path` and hands its content over.
    /// `Ok` exactly when the settings text parses and the formula text is
    /// a CNF or a WCNF; the result then carries exactly the parsed
    /// settings and formula.
    pub fn parse_config(config_string: &str, formula_text: &str, default_thread_count: usize) -> (r:
        Result<Config, ConfigError>)
        requires
            default_thread_count >= 1,
        ensures
            match r {
                Ok(c) => all_ascii(config_string@) && config_wf(c) && (match parse_settings_spec(
                    char_bytes(config_string@),
                    default_thread_count,
                ) {
                    Some(p) => config_matches(c, p),
                    None => false,
                }) && (match c.cnf {
                    SatType::Cnf(f) => all_ascii(formula_text@) && parse_cnf_spec(
                        char_bytes(formula_text@),
                    ) == Some((f.num_vars, f.num_clauses as u64, clauses_view(f.clauses@))),
                    SatType::Wcnf(w) => all_ascii(formula_text@) && parse_cnf_spec(
                        char_bytes(formula_text@),
                    ) is None && parse_wcnf_spec(char_bytes(formula_text@)) == Some(
                        (w.num_clauses, w.hard_weight, wclauses_view(w.clauses@)),
                    ) && w.num_vars == max_var_clauses(wclauses_view(w.clauses@)),
                }),
                Err(_) => !all_ascii(config_string@) || parse_settings_spec(
                    char_bytes(config_string@),
                    default_thread_count,
                ) is None || !all_ascii(formula_text@) || (parse_cnf_spec(
                    char_bytes(formula_text@),
                ) is None && parse_wcnf_spec(char_bytes(formula_text@)) is None),
            },
    {
        let settings = match Settings::parse(config_string, default_thread_count) {
            Ok(s) => s,
            Err(e) => {
                return Err(e);
            },
        };
        let cnf = match SatType::from_text(formula_text) {
            Ok(f) => f,
            Err(SatTypeError(msg)) => {
                let mut m = String::from_str("failed to parse: ");
                m.append(msg.as_str());
                return Err(ConfigError(m));
            },
        };
        Ok(Config::from_parts(settings, cnf))
    }

    /// The configuration assembled from parsed settings and a parsed
    /// formula.
    pub fn from_parts(settings: Settings, cnf: SatType) -> (r: Config)
        ensures
            settings_wf(settings) ==> config_wf(r),
            r.cnf == cnf,
            r.variables == settings.variables,
            r.multitree_variables == settings.multitree_variables,
            r.comparator == settings.comparator,
            r.timeout == settings.timeout,
            r.solver == settings.solver,
            r.output_dir == settings.output_dir,
            r.tmp_dir == settings.tmp_dir,
            r.evaluation_metric == settings.evaluation_metric,
            r.thread_count == settings.thread_count,
            r.search_depth == settings.search_depth,
            r.preserve_cnf == settings.preserve_cnf,
            r.preserve_logs == settings.preserve_logs,
            r.cutoff_proportion == settings.cutoff_proportion,
            r.time_proportion == settings.time_proportion,
            r.cutoff == settings.cutoff,
            r.preproc_count == settings.preproc_count,
            r.debug == settings.debug,
    {
        Config {
            variables: settings.variables,
            multitree_variables: settings.multitree_variables,
            comparator: settings.comparator,
            timeout: settings.timeout,
            solver: settings.solver,
            cnf,
            output_dir: settings.output_dir,
            tmp_dir: settings.tmp_dir,
            evaluation_metric: settings.evaluation_metric,
            thread_count: settings.thread_count,
            search_depth: settings.search_depth,
            preserve_cnf: settings.preserve_cnf,
            preserve_logs: settings.preserve_logs,
            cutoff_proportion: settings.cutoff_proportion,
            time_proportion: settings.time_proportion,
            cutoff: settings.cutoff,
            preproc_count: settings.preproc_count,
            debug: settings.debug,
        }
    }
}

} // verus!
