//! The command line of the sample generator:
//!
//! ```text
//! fandango-rs [fuzz] -f <grammar.fan> [--count N] [--seed SEED] [--output PATH]
//! ```

use vstd::prelude::*;
use crate::text;

verus! {

/// The help text.
pub fn usage() -> (r: &'static str)
    ensures
        r@ == usage_text(),
{
    "Usage:\n  fandango-rs -f <grammar.fan> [--count N] [--seed SEED] [--output PATH]\n  fandango-rs fuzz -f <grammar.fan> [--count N] [--seed SEED] [--output PATH]\n\nOptions:\n  -f, --file <path>   Fandango grammar file to generate from\n  -n, --count <N>     Number of samples to print [default: 1]\n  -s, --seed <SEED>   Deterministic RNG seed [default: current Unix time in milliseconds]\n  -o, --output <path> Write generated samples to a file [default: stdout]\n  -h, --help          Print this help text"
}

/// The help text, as the specifications speak of it.
pub open spec fn usage_text() -> Seq<char> {
    "Usage:\n  fandango-rs -f <grammar.fan> [--count N] [--seed SEED] [--output PATH]\n  fandango-rs fuzz -f <grammar.fan> [--count N] [--seed SEED] [--output PATH]\n\nOptions:\n  -f, --file <path>   Fandango grammar file to generate from\n  -n, --count <N>     Number of samples to print [default: 1]\n  -s, --seed <SEED>   Deterministic RNG seed [default: current Unix time in milliseconds]\n  -o, --output <path> Write generated samples to a file [default: stdout]\n  -h, --help          Print this help text"@
}

/// What a run of the generator is asked to do.
#[derive(Debug, PartialEq, Eq)]
pub struct FuzzArgs {
    /// The grammar file.
    pub file: String,
    /// How many samples to print.
    pub count: usize,
    /// The seed of the random generator; without one, the current time in
    /// milliseconds is used.
    pub seed: Option<u64>,
    /// Where to write the samples; without a path, to standard output.
    pub output: Option<String>,
}

/// A command.
#[derive(Debug, PartialEq, Eq)]
pub enum Command {
    Help,
    Fuzz(FuzzArgs),
}

/// The mathematical content of [`FuzzArgs`].
#[verifier::ext_equal]
pub struct FuzzArgsView {
    pub file: Seq<char>,
    pub count: usize,
    pub seed: Option<u64>,
    pub output: Option<Seq<char>>,
}

impl View for FuzzArgs {
    type V = FuzzArgsView;

    open spec fn view(&self) -> FuzzArgsView {
        FuzzArgsView {
            file: self.file@,
            count: self.count,
            seed: self.seed,
            output: match self.output {
                Some(o) => Some(o@),
                None => None,
            },
        }
    }
}

/// The options read so far.
#[verifier::ext_equal]
pub struct ScanState {
    pub file: Option<Seq<char>>,
    pub count: usize,
    pub seed: Option<u64>,
    pub output: Option<Seq<char>>,
}

/// What a command line asks for.
pub enum ArgsOutcome {
    Help,
    Fuzz(FuzzArgsView),
    Fail(Seq<char>),
}

/// The options before any is read.
pub open spec fn initial_scan() -> ScanState {
    ScanState { file: None, count: 1, seed: None, output: None }
}

/// The outcome once every option has been read.
pub open spec fn finish_scan(st: ScanState) -> ArgsOutcome {
    match st.file {
        None => ArgsOutcome::Fail("missing required -f/--file argument"@),
        Some(f) => ArgsOutcome::Fuzz(
            FuzzArgsView { file: f, count: st.count, seed: st.seed, output: st.output },
        ),
    }
}

/// The outcome of reading the options from `args[i]` on.
pub open spec fn scan_options(args: Seq<Seq<char>>, i: int, st: ScanState) -> ArgsOutcome
    decreases args.len() - i,
{
    if i < 0 || i >= args.len() {
        finish_scan(st)
    } else {
        let a = args[i];
        if a == "-f"@ || a == "--file"@ {
            if i + 1 >= args.len() {
                ArgsOutcome::Fail("missing value for -f/--file"@)
            } else {
                scan_options(args, i + 2, ScanState { file: Some(args[i + 1]), ..st })
            }
        } else if a == "-n"@ || a == "--count"@ {
            if i + 1 >= args.len() {
                ArgsOutcome::Fail("missing value for -n/--count"@)
            } else {
                let v = args[i + 1];
                match text::parse_unsigned(v, usize::MAX as int) {
                    Some(n) => scan_options(args, i + 2, ScanState { count: n as usize, ..st }),
                    None => ArgsOutcome::Fail(
                        "invalid count "@ + text::os_debug_text(v) + ": "@ + text::number_error_text(
                            text::number_error(v, usize::MAX as int),
                        ),
                    ),
                }
            }
        } else if a == "-s"@ || a == "--seed"@ {
            if i + 1 >= args.len() {
                ArgsOutcome::Fail("missing value for -s/--seed"@)
            } else {
                let v = args[i + 1];
                match text::parse_unsigned(v, u64::MAX as int) {
                    Some(n) => scan_options(args, i + 2, ScanState { seed: Some(n as u64), ..st }),
                    None => ArgsOutcome::Fail(
                        "invalid seed "@ + text::os_debug_text(v) + ": "@ + text::number_error_text(
                            text::number_error(v, u64::MAX as int),
                        ),
                    ),
                }
            }
        } else if a == "-o"@ || a == "--output"@ {
            if i + 1 >= args.len() {
                ArgsOutcome::Fail("missing value for -o/--output"@)
            } else {
                scan_options(args, i + 2, ScanState { output: Some(args[i + 1]), ..st })
            }
        } else if a == "-h"@ || a == "--help"@ {
            ArgsOutcome::Help
        } else {
            ArgsOutcome::Fail("unknown argument "@ + text::debug_text(a) + "\n\n"@ + usage_text())
        }
    }
}

/// What a command line (without the program's name) asks for: help when it
/// is empty or starts with `-h`/`--help`; otherwise the options after a
/// leading `fuzz`, or all of them when the first is an option.
pub open spec fn args_outcome(args: Seq<Seq<char>>) -> ArgsOutcome {
    if args.len() == 0 || args[0] == "-h"@ || args[0] == "--help"@ {
        ArgsOutcome::Help
    } else if args[0] == "fuzz"@ {
        scan_options(args, 1, initial_scan())
    } else if text::has_prefix(args[0], "-"@) {
        scan_options(args, 0, initial_scan())
    } else {
        ArgsOutcome::Fail("unknown command "@ + text::os_debug_text(args[0]) + "\n\n"@ + usage_text())
    }
}

/// The texts of the arguments.
pub open spec fn arg_texts(args: Seq<String>) -> Seq<Seq<char>> {
    args.map_values(|a: String| a@)
}

fn is_one_of(a: &Vec<char>, short: &str, long: &str) -> (r: bool)
    ensures
        r == (a@ == short@ || a@ == long@),
{
    text::equals_str(a, short) || text::equals_str(a, long)
}

fn message_with_value(head: &str, value: &Vec<char>, e: text::NumberError) -> (m: String)
    ensures
        m@ == head@ + text::os_debug_text(value@) + ": "@ + text::number_error_text(e),
{
    let mut m = text::string_from(head);
    text::push_os_debug_chars(&mut m, value);
    text::push_str(&mut m, ": ");
    text::push_str(&mut m, e.message());
    m
}

fn os_message_with_usage(head: &str, value: &Vec<char>) -> (m: String)
    ensures
        m@ == head@ + text::os_debug_text(value@) + "\n\n"@ + usage_text(),
{
    let mut m = text::string_from(head);
    text::push_os_debug_chars(&mut m, value);
    text::push_str(&mut m, "\n\n");
    text::push_str(&mut m, usage());
    m
}

fn message_with_usage(head: &str, value: &Vec<char>) -> (m: String)
    ensures
        m@ == head@ + text::debug_text(value@) + "\n\n"@ + usage_text(),
{
    let mut m = text::string_from(head);
    text::push_debug_chars(&mut m, value);
    text::push_str(&mut m, "\n\n");
    text::push_str(&mut m, usage());
    m
}

/// Reads the options from `args[start]` on.
fn scan(args: &Vec<Vec<char>>, start: usize) -> (r: Result<Command, String>)
    requires
        start <= args@.len(),
    ensures
        match scan_options(args.deep_view(), start as int, initial_scan()) {
            ArgsOutcome::Help => r matches Ok(Command::Help),
            ArgsOutcome::Fuzz(v) => r matches Ok(Command::Fuzz(a)) && a@ == v,
            ArgsOutcome::Fail(m) => r matches Err(e) && e@ == m,
        },
{
    let ghost av = args.deep_view();
    let mut file: Option<String> = None;
    let mut count: usize = 1;
    let mut seed: Option<u64> = None;
    let mut output: Option<String> = None;
    let mut i: usize = start;
    while i < args.len()
        invariant
            av == args.deep_view(),
            start <= i,
            scan_options(av, i as int, ScanState {
                file: match file {
                    Some(f) => Some(f@),
                    None => None,
                },
                count,
                seed,
                output: match output {
                    Some(o) => Some(o@),
                    None => None,
                },
            }) == scan_options(av, start as int, initial_scan()),
        decreases args.len() - i,
    {
        let a = &args[i];
        assert(av[i as int] == a@);
        if i + 1 < args.len() {
            assert(av[i + 1] == args@[i + 1]@);
        }
        if is_one_of(a, "-f", "--file") {
            if i + 1 >= args.len() {
                return Err(text::string_from("missing value for -f/--file"));
            }
            let mut f = String::new();
            text::push_chars(&mut f, &args[i + 1]);
            file = Some(f);
            i += 2;
        } else if is_one_of(a, "-n", "--count") {
            if i + 1 >= args.len() {
                return Err(text::string_from("missing value for -n/--count"));
            }
            match text::parse_unsigned_max(&args[i + 1], usize::MAX as u64) {
                Ok(n) => {
                    count = n as usize;
                },
                Err(e) => {
                    return Err(message_with_value("invalid count ", &args[i + 1], e));
                },
            }
            i += 2;
        } else if is_one_of(a, "-s", "--seed") {
            if i + 1 >= args.len() {
                return Err(text::string_from("missing value for -s/--seed"));
            }
            match text::parse_unsigned_max(&args[i + 1], u64::MAX) {
                Ok(n) => {
                    seed = Some(n);
                },
                Err(e) => {
                    return Err(message_with_value("invalid seed ", &args[i + 1], e));
                },
            }
            i += 2;
        } else if is_one_of(a, "-o", "--output") {
            if i + 1 >= args.len() {
                return Err(text::string_from("missing value for -o/--output"));
            }
            let mut o = String::new();
            text::push_chars(&mut o, &args[i + 1]);
            output = Some(o);
            i += 2;
        } else if is_one_of(a, "-h", "--help") {
            return Ok(Command::Help);
        } else {
            return Err(message_with_usage("unknown argument ", a));
        }
    }
    match file {
        None => Err(text::string_from("missing required -f/--file argument")),
        Some(f) => {
            let args = FuzzArgs { file: f, count, seed, output };
            assert(args@ =~= FuzzArgsView {
                file: args.file@,
                count,
                seed,
                output: args@.output,
            });
            Ok(Command::Fuzz(args))
        },
    }
}

/// Reads a command line, without the program's name.
pub fn parse_args(args: &Vec<String>) -> (r: Result<Command, String>)
    ensures
        match args_outcome(arg_texts(args@)) {
            ArgsOutcome::Help => r matches Ok(Command::Help),
            ArgsOutcome::Fuzz(v) => r matches Ok(Command::Fuzz(a)) && a@ == v,
            ArgsOutcome::Fail(m) => r matches Err(e) && e@ == m,
        },
{
    let mut texts: Vec<Vec<char>> = Vec::new();
    let mut k: usize = 0;
    while k < args.len()
        invariant
            k <= args@.len(),
            texts.deep_view() == arg_texts(args@).take(k as int),
        decreases args.len() - k,
    {
        let t = text::as_chars(&args[k]);
        let ghost before = texts.deep_view();
        assert(t.deep_view() =~= t@);
        texts.push(t);
        assert(texts.deep_view() =~= arg_texts(args@).take(k + 1)) by {
            assert(texts.deep_view() =~= before.push(args@[k as int]@));
        }
        k += 1;
    }
    assert(arg_texts(args@).take(k as int) =~= arg_texts(args@));
    let ghost av = texts.deep_view();
    if texts.len() == 0 {
        return Ok(Command::Help);
    }
    assert(av[0] == texts@[0]@);
    if is_one_of(&texts[0], "-h", "--help") {
        return Ok(Command::Help);
    }
    if text::equals_str(&texts[0], "fuzz") {
        return scan(&texts, 1);
    }
    proof {
        reveal_strlit("-");
    }
    if texts[0].len() > 0 && texts[0][0] == '-' {
        assert(texts[0]@.take(1) =~= "-"@);
        return scan(&texts, 0);
    }
    proof {
        if text::has_prefix(av[0], "-"@) {
            assert(av[0].take(1)[0] == '-');
        }
    }
    Err(os_message_with_usage("unknown command ", &texts[0]))
}

proof fn lemma_option_literals()
    ensures
        "-f"@ == seq!['-', 'f'],
        "--file"@ == seq!['-', '-', 'f', 'i', 'l', 'e'],
        "-n"@ == seq!['-', 'n'],
        "--count"@ == seq!['-', '-', 'c', 'o', 'u', 'n', 't'],
        "-s"@ == seq!['-', 's'],
        "--seed"@ == seq!['-', '-', 's', 'e', 'e', 'd'],
        "-o"@ == seq!['-', 'o'],
        "--output"@ == seq!['-', '-', 'o', 'u', 't', 'p', 'u', 't'],
        "-h"@ == seq!['-', 'h'],
        "--help"@ == seq!['-', '-', 'h', 'e', 'l', 'p'],
        "fuzz"@ == seq!['f', 'u', 'z', 'z'],
        "-"@ == seq!['-'],
{
    reveal_strlit("-f");
    reveal_strlit("--file");
    reveal_strlit("-n");
    reveal_strlit("--count");
    reveal_strlit("-s");
    reveal_strlit("--seed");
    reveal_strlit("-o");
    reveal_strlit("--output");
    reveal_strlit("-h");
    reveal_strlit("--help");
    reveal_strlit("fuzz");
    reveal_strlit("-");
}

/// What is read from position `j` on depends on the arguments from `j` on
/// alone.
proof fn lemma_scan_suffix(args: Seq<Seq<char>>, other: Seq<Seq<char>>, j: int, st: ScanState)
    requires
        args.len() == other.len(),
        forall|k: int| j <= k < args.len() ==> #[trigger] args[k] == other[k],
    ensures
        scan_options(args, j, st) == scan_options(other, j, st),
    decreases args.len() - j,
{
    if 0 <= j < args.len() {
        if j + 1 < args.len() {
            assert(args[j + 1] == other[j + 1]);
            let v = args[j + 1];
            lemma_scan_suffix(args, other, j + 2, ScanState { file: Some(v), ..st });
            match text::parse_unsigned(v, usize::MAX as int) {
                Some(n) => lemma_scan_suffix(args, other, j + 2, ScanState { count: n as usize, ..st }),
                None => {},
            }
            match text::parse_unsigned(v, u64::MAX as int) {
                Some(n) => lemma_scan_suffix(args, other, j + 2, ScanState { seed: Some(n as u64), ..st }),
                None => {},
            }
            lemma_scan_suffix(args, other, j + 2, ScanState { output: Some(v), ..st });
        }
    }
}

proof fn lemma_long_short_scan(
    args: Seq<Seq<char>>,
    i: int,
    st: ScanState,
    long: Seq<char>,
    short: Seq<char>,
)
    requires
        0 <= i < args.len(),
        args[i] == long,
        (long == seq!['-', '-', 'f', 'i', 'l', 'e'] && short == seq!['-', 'f'])
            || (long == seq!['-', '-', 'c', 'o', 'u', 'n', 't'] && short == seq!['-', 'n'])
            || (long == seq!['-', '-', 's', 'e', 'e', 'd'] && short == seq!['-', 's'])
            || (long == seq!['-', '-', 'o', 'u', 't', 'p', 'u', 't'] && short == seq!['-', 'o'])
            || (long == seq!['-', '-', 'h', 'e', 'l', 'p'] && short == seq!['-', 'h']),
    ensures
        scan_options(args, i, st) == scan_options(args.update(i, short), i, st),
{
    lemma_option_literals();
    let other = args.update(i, short);
    assert(other[i] == short);
    assert forall|k: int| i + 1 <= k < args.len() implies #[trigger] args[k] == other[k] by {}
    if i + 1 < args.len() {
        let v = args[i + 1];
        assert(other[i + 1] == v);
        lemma_scan_suffix(args, other, i + 2, ScanState { file: Some(v), ..st });
        match text::parse_unsigned(v, usize::MAX as int) {
            Some(n) => lemma_scan_suffix(args, other, i + 2, ScanState { count: n as usize, ..st }),
            None => {},
        }
        match text::parse_unsigned(v, u64::MAX as int) {
            Some(n) => lemma_scan_suffix(args, other, i + 2, ScanState { seed: Some(n as u64), ..st }),
            None => {},
        }
        lemma_scan_suffix(args, other, i + 2, ScanState { output: Some(v), ..st });
    }
}

/// Each long option means the same as its short form: `--file` as `-f`,
/// `--count` as `-n`, `--seed` as `-s`, `--output` as `-o` and `--help` as
/// `-h`. Writing the short form in place of the long one, wherever an
/// option is read, never changes what the command line asks for.
pub proof fn lemma_long_options_are_short(
    args: Seq<Seq<char>>,
    i: int,
    st: ScanState,
    long: Seq<char>,
    short: Seq<char>,
)
    requires
        0 <= i < args.len(),
        args[i] == long,
        (long == seq!['-', '-', 'f', 'i', 'l', 'e'] && short == seq!['-', 'f'])
            || (long == seq!['-', '-', 'c', 'o', 'u', 'n', 't'] && short == seq!['-', 'n'])
            || (long == seq!['-', '-', 's', 'e', 'e', 'd'] && short == seq!['-', 's'])
            || (long == seq!['-', '-', 'o', 'u', 't', 'p', 'u', 't'] && short == seq!['-', 'o'])
            || (long == seq!['-', '-', 'h', 'e', 'l', 'p'] && short == seq!['-', 'h']),
    ensures
        scan_options(args, i, st) == scan_options(args.update(i, short), i, st),
        i == 0 ==> args_outcome(args) == args_outcome(args.update(0, short)),
{
    lemma_option_literals();
    lemma_long_short_scan(args, i, st, long, short);
    if i == 0 {
        let other = args.update(0, short);
        assert(other[0] == short);
        assert(args[0].take(1) =~= seq!['-']);
        assert(other[0].take(1) =~= seq!['-']);
        lemma_long_short_scan(args, 0, initial_scan(), long, short);
    }
}

/// A file and an output path, given in either form, are read as they are:
/// the count stays one and no seed is set.
pub proof fn lemma_file_and_output(f: Seq<char>, p: Seq<char>)
    ensures
        ({
            let want = ArgsOutcome::Fuzz(FuzzArgsView { file: f, count: 1, seed: None, output: Some(p) });
            &&& args_outcome(seq![seq!['-', 'f'], f, seq!['-', '-', 'o', 'u', 't', 'p', 'u', 't'], p]) == want
            &&& args_outcome(seq![seq!['-', '-', 'f', 'i', 'l', 'e'], f, seq!['-', 'o'], p]) == want
            &&& args_outcome(
                seq![seq!['f', 'u', 'z', 'z'], seq!['-', '-', 'f', 'i', 'l', 'e'], f, seq!['-', '-', 'o', 'u', 't', 'p', 'u', 't'], p],
            ) == want
        }),
{
    lemma_option_literals();
    let a1 = seq![seq!['-', 'f'], f, seq!['-', '-', 'o', 'u', 't', 'p', 'u', 't'], p];
    let a2 = seq![seq!['-', '-', 'f', 'i', 'l', 'e'], f, seq!['-', 'o'], p];
    let a3 = seq![seq!['f', 'u', 'z', 'z'], seq!['-', '-', 'f', 'i', 'l', 'e'], f, seq!['-', '-', 'o', 'u', 't', 'p', 'u', 't'], p];
    assert(a1[0].take(1) =~= seq!['-']);
    assert(a2[0].take(1) =~= seq!['-']);
    let s1 = ScanState { file: Some(f), ..initial_scan() };
    let s2 = ScanState { output: Some(p), ..s1 };
    assert(scan_options(a1, 4, s2) == finish_scan(s2));
    assert(scan_options(a2, 4, s2) == finish_scan(s2));
    assert(scan_options(a3, 5, s2) == finish_scan(s2));
    assert(scan_options(a1, 2, s1) == scan_options(a1, 4, s2));
    assert(scan_options(a2, 2, s1) == scan_options(a2, 4, s2));
    assert(scan_options(a3, 3, s1) == scan_options(a3, 5, s2));
}

} // verus!
