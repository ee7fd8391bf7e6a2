//! The configuration model: the command grammar read from a token list.
use vstd::prelude::*;
use vstd::utf8::*;
use vstd::string::*;

verus! {

broadcast use {encode_utf8_decode_utf8};

/// One invocation's configuration. Exactly one of the help, version, stats
/// and search modes is selected (search when none of the first three is
/// set); the search decorations apply to search mode alone.
pub struct Arguments {
    pub query: String,
    pub file_name: String,
    pub help_option: bool,
    pub view_version: bool,
    pub case_ignore: bool,
    pub line_number: bool,
    pub query_count: bool,
    pub non_match: bool,
    pub line_count: bool,
    pub view_stats: bool,
}

/// The value of an `Arguments`, with its texts as characters.
pub struct ArgumentsView {
    pub query: Seq<char>,
    pub file_name: Seq<char>,
    pub help_option: bool,
    pub view_version: bool,
    pub case_ignore: bool,
    pub line_number: bool,
    pub query_count: bool,
    pub non_match: bool,
    pub line_count: bool,
    pub view_stats: bool,
}

impl View for Arguments {
    type V = ArgumentsView;

    open spec fn view(&self) -> ArgumentsView {
        ArgumentsView {
            query: self.query@,
            file_name: self.file_name@,
            help_option: self.help_option,
            view_version: self.view_version,
            case_ignore: self.case_ignore,
            line_number: self.line_number,
            query_count: self.query_count,
            non_match: self.non_match,
            line_count: self.line_count,
            view_stats: self.view_stats,
        }
    }
}

/// A configuration in one of the four modes, with the given texts and
/// search options.
pub open spec fn config(
    help_option: bool,
    view_version: bool,
    view_stats: bool,
    query: Seq<char>,
    file_name: Seq<char>,
    case_ignore: bool,
    line_number: bool,
    query_count: bool,
    line_count: bool,
    non_match: bool,
) -> ArgumentsView {
    ArgumentsView {
        query,
        file_name,
        help_option,
        view_version,
        case_ignore,
        line_number,
        query_count,
        non_match,
        line_count,
        view_stats,
    }
}

/// The configuration with empty texts and every switch off.
pub open spec fn default_view() -> ArgumentsView {
    config(false, false, false, Seq::empty(), Seq::empty(), false, false, false, false, false)
}

/// Some token of `opts` spells an option in its short or its long form.
pub open spec fn has_option(opts: Seq<Seq<char>>, short: Seq<char>, long: Seq<char>) -> bool {
    exists|i: int| 0 <= i < opts.len() && (opts[i] == short || opts[i] == long)
}

/// The configuration that the tokens `args` (the program's name first)
/// select, or `None` for a form that the grammar does not accept:
/// the help trigger alone; the meta trigger with a version switch; a
/// target with a stats switch; a query and a target; or a query, a target
/// and option tokens, each option set where any token spells it and other
/// tokens ignored.
pub open spec fn parse(args: Seq<Seq<char>>) -> Option<ArgumentsView> {
    if args.len() == 2 {
        if args[1] == "minigrep_help"@ {
            Some(config(true, false, false, Seq::empty(), Seq::empty(), false, false, false, false, false))
        } else {
            None
        }
    } else if args.len() == 3 {
        if args[1] == "minigrep"@ && (args[2] == "-v"@ || args[2] == "--version"@) {
            Some(config(false, true, false, Seq::empty(), Seq::empty(), false, false, false, false, false))
        } else if args[2] == "-S"@ || args[2] == "--stats"@ {
            Some(config(false, false, true, Seq::empty(), args[1], false, false, false, false, false))
        } else {
            Some(config(false, false, false, args[1], args[2], false, false, false, false, false))
        }
    } else if args.len() >= 4 {
        let opts = args.subrange(3, args.len() as int);
        Some(
            config(
                false,
                false,
                false,
                args[1],
                args[2],
                has_option(opts, "-i"@, "--ignore-case"@),
                has_option(opts, "-n"@, "--line-number"@),
                has_option(opts, "-c"@, "--query-count"@),
                has_option(opts, "-lc"@, "--line-count"@),
                has_option(opts, "-I"@, "--invert-match"@),
            ),
        )
    } else {
        None
    }
}

/// The characters of each token.
pub open spec fn token_views(args: Seq<String>) -> Seq<Seq<char>> {
    args.map_values(|s: String| s@)
}

/// Whether the texts `a` and `b` are equal.
pub fn same_text(a: &str, b: &str) -> (r: bool)
    ensures
        r == (a@ == b@),
{
    let x = a.as_bytes();
    let y = b.as_bytes();
    if x.len() != y.len() {
        return false;
    }
    let mut i: usize = 0;
    while i < x.len()
        invariant
            x@ == a.spec_bytes(),
            y@ == b.spec_bytes(),
            x@.len() == y@.len(),
            i <= x@.len(),
            forall|j: int| 0 <= j < i ==> x@[j] == y@[j],
        decreases x@.len() - i,
    {
        if x[i] != y[i] {
            return false;
        }
        i = i + 1;
    }
    assert(x@ =~= y@);
    assert(a@ == decode_utf8(x@));
    true
}

/// Whether some token of `args` from position `from` on is `short` or `long`.
fn option_given(args: &[String], from: usize, short: &str, long: &str) -> (r: bool)
    requires
        from <= args@.len(),
    ensures
        r == has_option(token_views(args@).subrange(from as int, args@.len() as int), short@, long@),
{
    let ghost opts = token_views(args@).subrange(from as int, args@.len() as int);
    let mut i: usize = from;
    while i < args.len()
        invariant
            from <= i <= args@.len(),
            opts == token_views(args@).subrange(from as int, args@.len() as int),
            forall|j: int| 0 <= j < i - from ==> !(opts[j] == short@ || opts[j] == long@),
        decreases args@.len() - i,
    {
        let t = args[i].as_str();
        if same_text(t, short) || same_text(t, long) {
            assert(opts[i - from] == args@[i as int]@);
            return true;
        }
        i = i + 1;
    }
    false
}

impl Default for Arguments {
    fn default() -> (r: Arguments)
        ensures
            r@ == default_view(),
    {
        Arguments {
            query: String::new(),
            file_name: String::new(),
            help_option: false,
            view_version: false,
            case_ignore: false,
            line_number: false,
            query_count: false,
            non_match: false,
            line_count: false,
            view_stats: false,
        }
    }
}

/// The message of an invocation that the grammar does not accept.
pub const USAGE_ERROR: &'static str = "Unknown command, run 'cargo new minigrep_help' to learn more\n";

impl Arguments {
    /// Reads the configuration from the tokens `args`, the program's name
    /// first; fails with a usage message on a form the grammar does not
    /// accept.
    pub fn new(args: &[String]) -> (r: Result<Arguments, &'static str>)
        ensures
            match r {
                Ok(a) => parse(token_views(args@)) == Some(a@),
                Err(e) => parse(token_views(args@)) is None && e == USAGE_ERROR,
            },
    {
        let ghost v = token_views(args@);
        if args.len() == 2 {
            assert(v[1] == args@[1]@);
            if same_text(args[1].as_str(), "minigrep_help") {
                let mut a = Arguments::default();
                a.help_option = true;
                return Ok(a);
            }
        } else if args.len() == 3 {
            assert(v[1] == args@[1]@ && v[2] == args@[2]@);
            if same_text(args[1].as_str(), "minigrep") && (same_text(args[2].as_str(), "-v")
                || same_text(args[2].as_str(), "--version")) {
                let mut a = Arguments::default();
                a.view_version = true;
                return Ok(a);
            } else if same_text(args[2].as_str(), "-S") || same_text(args[2].as_str(), "--stats") {
                let mut a = Arguments::default();
                a.file_name = args[1].clone();
                a.view_stats = true;
                return Ok(a);
            } else {
                let mut a = Arguments::default();
                a.query = args[1].clone();
                a.file_name = args[2].clone();
                return Ok(a);
            }
        } else if args.len() >= 4 {
            assert(v[1] == args@[1]@ && v[2] == args@[2]@);
            let mut a = Arguments::default();
            a.query = args[1].clone();
            a.file_name = args[2].clone();
            a.case_ignore = option_given(args, 3, "-i", "--ignore-case");
            a.line_number = option_given(args, 3, "-n", "--line-number");
            a.query_count = option_given(args, 3, "-c", "--query-count");
            a.line_count = option_given(args, 3, "-lc", "--line-count");
            a.non_match = option_given(args, 3, "-I", "--invert-match");
            return Ok(a);
        }
        Err(USAGE_ERROR)
    }
}

/// What an invocation does.
#[derive(PartialEq, Eq, Structural, Clone, Copy, Debug)]
pub enum Mode {
    Help,
    Version,
    Stats,
    Search,
}

/// The mode that a configuration selects: help, then version, then stats
/// take precedence; search otherwise.
pub open spec fn mode_of(a: ArgumentsView) -> Mode {
    if a.help_option {
        Mode::Help
    } else if a.view_version {
        Mode::Version
    } else if a.view_stats {
        Mode::Stats
    } else {
        Mode::Search
    }
}

/// Which scan a search runs.
#[derive(PartialEq, Eq, Structural, Clone, Copy, Debug)]
pub enum Scan {
    CaseInsensitive,
    Invert,
    Exact,
}

/// The scan that a configuration selects: case-insensitive whenever that
/// switch is on, else inverted whenever that one is, else exact.
pub open spec fn scan_of(a: ArgumentsView) -> Scan {
    if a.case_ignore {
        Scan::CaseInsensitive
    } else if a.non_match {
        Scan::Invert
    } else {
        Scan::Exact
    }
}

impl Arguments {
    /// The mode this configuration selects.
    pub fn mode(&self) -> (r: Mode)
        ensures
            r == mode_of(self@),
    {
        if self.help_option {
            Mode::Help
        } else if self.view_version {
            Mode::Version
        } else if self.view_stats {
            Mode::Stats
        } else {
            Mode::Search
        }
    }

    /// The scan this configuration selects.
    pub fn scan(&self) -> (r: Scan)
        ensures
            r == scan_of(self@),
    {
        if self.case_ignore {
            Scan::CaseInsensitive
        } else if self.non_match {
            Scan::Invert
        } else {
            Scan::Exact
        }
    }
}

} // verus!
