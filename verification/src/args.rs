//! Command-line argument handling: the pure decision logic.
//!
//! The walk over the argument vector mirrors [`spec_parse_args`]: arguments
//! not starting with `-` (and everything after a bare `--`) are input files,
//! `--help`/`-h` and `--version` set their flags, `-o` takes the following
//! argument as the output file, and any other `-` argument is an error —
//! after consuming the following argument as its would-be value, so a
//! trailing unknown flag reports a missing value instead.

use vstd::prelude::*;

use vstd::string::StrSliceExecFns;

verus! {

/// The parsed command line.
#[derive(Debug, PartialEq, Eq)]
pub struct Args {
    pub input: Vec<String>,
    pub output: String,
    pub help: bool,
    pub version: bool,
}

/// The parsed command line, at the specification level.
#[verifier::ext_equal]
pub struct ArgsView {
    pub input: Seq<Seq<char>>,
    pub output: Seq<char>,
    pub help: bool,
    pub version: bool,
}

impl View for Args {
    type V = ArgsView;

    open spec fn view(&self) -> ArgsView {
        ArgsView {
            input: self.input.deep_view(),
            output: self.output@,
            help: self.help,
            version: self.version,
        }
    }
}

/// A command line that cannot be parsed: a flag without its value, or an
/// unknown flag.
#[derive(Debug, PartialEq, Eq)]
pub enum ArgsError {
    MissingValue(String),
    UnknownArgument(String),
}

/// The error, at the specification level.
#[verifier::ext_equal]
pub enum ArgsErrorView {
    MissingValue(Seq<char>),
    UnknownArgument(Seq<char>),
}

impl View for ArgsError {
    type V = ArgsErrorView;

    open spec fn view(&self) -> ArgsErrorView {
        match self {
            ArgsError::MissingValue(a) => ArgsErrorView::MissingValue(a@),
            ArgsError::UnknownArgument(a) => ArgsErrorView::UnknownArgument(a@),
        }
    }
}

/// The empty parse result: no inputs, no output file, no flags.
pub open spec fn empty_args() -> ArgsView {
    ArgsView { input: Seq::empty(), output: Seq::empty(), help: false, version: false }
}

/// One walk over the arguments from index `i` on, folding into `acc`;
/// `dash_dash` records that a bare `--` was seen.
pub open spec fn spec_parse_args(
    argv: Seq<Seq<char>>,
    i: int,
    acc: ArgsView,
    dash_dash: bool,
) -> Result<ArgsView, ArgsErrorView>
    decreases argv.len() - i,
{
    if i < 0 || i >= argv.len() {
        Ok(acc)
    } else {
        let a = argv[i];
        if (a.len() == 0 || a[0] != '-') || dash_dash {
            spec_parse_args(
                argv,
                i + 1,
                ArgsView { input: acc.input.push(a), ..acc },
                dash_dash,
            )
        } else if a == "--"@ {
            spec_parse_args(argv, i + 1, acc, true)
        } else if a == "--help"@ || a == "-h"@ {
            spec_parse_args(argv, i + 1, ArgsView { help: true, ..acc }, dash_dash)
        } else if a == "--version"@ {
            spec_parse_args(argv, i + 1, ArgsView { version: true, ..acc }, dash_dash)
        } else if i + 1 >= argv.len() {
            Err(ArgsErrorView::MissingValue(a))
        } else if a == "-o"@ {
            spec_parse_args(argv, i + 2, ArgsView { output: argv[i + 1], ..acc }, dash_dash)
        } else {
            Err(ArgsErrorView::UnknownArgument(a))
        }
    }
}

/// The parse of a whole argument vector: the first argument is the program's
/// own name and is skipped.
pub open spec fn spec_parse(argv: Seq<Seq<char>>) -> Result<ArgsView, ArgsErrorView> {
    spec_parse_args(argv, 1, empty_args(), false)
}

/// String equality against a known flag.
fn str_is(a: &String, s: &str) -> (r: bool)
    ensures
        r == (a@ == s@),
{
    let b: &str = a.as_str();
    if b.unicode_len() != s.unicode_len() {
        return false;
    }
    let n = b.unicode_len();
    let mut i: usize = 0;
    while i < n
        invariant
            i <= n,
            n == a@.len(),
            n == s@.len(),
            b@ == a@,
            forall|k: int| 0 <= k < i ==> a@[k] == s@[k],
        decreases n - i,
    {
        if b.get_char(i) != s.get_char(i) {
            return false;
        }
        i = i + 1;
    }
    proof {
        assert(a@ =~= s@);
    }
    true
}

/// Whether the argument begins a flag: a leading `-`.
fn starts_dash(a: &String) -> (r: bool)
    ensures
        r == (a@.len() > 0 && a@[0] == '-'),
{
    let b: &str = a.as_str();
    if b.unicode_len() == 0 {
        false
    } else {
        b.get_char(0) == '-'
    }
}

impl Args {
    /// The empty parse result.
    pub fn new() -> (r: Self)
        ensures
            r@ == empty_args(),
    {
        let a = Args { input: Vec::new(), output: String::new(), help: false, version: false };
        proof {
            assert(a@.input =~= Seq::<Seq<char>>::empty());
            assert(a@ =~= empty_args());
        }
        a
    }
}

/// Parses the argument vector, program name first.
pub fn parse(argv: Vec<String>) -> (r: Result<Args, ArgsError>)
    ensures
        ({
            match spec_parse(argv.deep_view()) {
                Ok(av) => r matches Ok(a) && a@ == av,
                Err(ev) => r matches Err(e) && e@ == ev,
            }
        }),
{
    let mut result = Args::new();
    let mut dash_dash = false;
    let mut i: usize = 1;
    while i < argv.len()
        invariant
            1 <= i,
            i <= argv@.len() || i == 1,
            spec_parse(argv.deep_view()) == spec_parse_args(
                argv.deep_view(),
                i as int,
                result@,
                dash_dash,
            ),
        decreases argv@.len() - i,
    {
        let arg = &argv[i];
        let ghost a = argv.deep_view()[i as int];
        proof {
            assert(a =~= arg@);
        }
        let ghost before = result@;
        if !starts_dash(arg) || dash_dash {
            result.input.push(arg.clone());
            proof {
                assert(result@.input =~~= before.input.push(a));
                assert(result@ =~= ArgsView { input: before.input.push(a), ..before });
            }
            i = i + 1;
        } else if str_is(arg, "--") {
            dash_dash = true;
            i = i + 1;
        } else if str_is(arg, "--help") || str_is(arg, "-h") {
            result.help = true;
            proof {
                assert(result@ =~= ArgsView { help: true, ..before });
            }
            i = i + 1;
        } else if str_is(arg, "--version") {
            result.version = true;
            proof {
                assert(result@ =~= ArgsView { version: true, ..before });
            }
            i = i + 1;
        } else if i + 1 >= argv.len() {
            return Err(ArgsError::MissingValue(arg.clone()));
        } else if str_is(arg, "-o") {
            result.output = argv[i + 1].clone();
            proof {
                assert(argv.deep_view()[i + 1] =~= argv@[i + 1]@);
                assert(result@ =~= ArgsView { output: argv.deep_view()[i + 1], ..before });
            }
            i = i + 2;
        } else {
            return Err(ArgsError::UnknownArgument(arg.clone()));
        }
    }
    Ok(result)
}

} // verus!
