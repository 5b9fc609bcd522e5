//! Command line arguments.

use vstd::prelude::*;
use vstd::string::*;
use vstd::utf8::encode_utf8;

use crate::text::{concat, number_value, parse_number, same_text, split, split_at_each, texts};

verus! {

/// Where the results of runs come from.
#[derive(Debug, Clone, Copy, PartialEq, Eq, Structural)]
pub enum Source {
    /// Cache when available, otherwise wpt.fyi summary files.
    Auto,
    /// results-analysis-cache only; skip runs that aren't cached.
    Cache,
    /// wpt.fyi summary files only.
    Summary,
}

/// What the command line asks for.
pub struct Args {
    /// Path to a (bare or regular) clone of results-analysis-cache.
    pub cache: Option<String>,
    /// Output directory; each product is written to `<out>/<product>`.
    pub out: String,
    pub products: Vec<String>,
    /// Labels every run must have (wpt.fyi `labels=` param).
    pub labels: Vec<String>,
    pub from: Option<String>,
    pub to: Option<String>,
    /// Keep at most one run per product per UTC day (the earliest).
    pub daily: bool,
    /// Stop after this many runs per product.
    pub max_runs: Option<usize>,
    /// Only score this subtree of WPT (e.g. `css`).
    pub subtree: Option<String>,
    pub source: Source,
    /// Pause between requests to wpt.fyi, in milliseconds.
    pub fetch_delay: u64,
    /// Score runs again that are already present, and replace their scores.
    pub rescore: bool,
}

/// Arguments as a mathematical value.
pub struct ArgsView {
    pub cache: Option<Seq<char>>,
    pub out: Seq<char>,
    pub products: Seq<Seq<char>>,
    pub labels: Seq<Seq<char>>,
    pub from: Option<Seq<char>>,
    pub to: Option<Seq<char>>,
    pub daily: bool,
    pub max_runs: Option<nat>,
    pub subtree: Option<Seq<char>>,
    pub source: Source,
    pub fetch_delay: nat,
    pub rescore: bool,
}

/// The view of an optional string.
pub open spec fn text_in(o: Option<String>) -> Option<Seq<char>> {
    match o {
        Some(s) => Some(s@),
        None => None,
    }
}

impl View for Args {
    type V = ArgsView;

    open spec fn view(&self) -> ArgsView {
        ArgsView {
            cache: text_in(self.cache),
            out: self.out@,
            products: texts(self.products@),
            labels: texts(self.labels@),
            from: text_in(self.from),
            to: text_in(self.to),
            daily: self.daily,
            max_runs: match self.max_runs {
                Some(n) => Some(n as nat),
                None => None,
            },
            subtree: text_in(self.subtree),
            source: self.source,
            fetch_delay: self.fetch_delay as nat,
            rescore: self.rescore,
        }
    }
}

/// How the program is used.
pub const USAGE: &'static str = "\
Usage: process [options]

  --cache <path>       Clone of web-platform-tests/results-analysis-cache
  --out <dir>          Output directory (default: ./summary)
  --product <name>     wpt.fyi product, repeatable (default: chrome firefox safari servo)
  --labels <a,b>       Required run labels (default: master,experimental)
  --from <date>        Only runs starting after this RFC 3339 / YYYY-MM-DD date
  --to <date>          Only runs starting before this date
  --daily              Keep only the first run per product per UTC day
  --max-runs <n>       Process at most n runs per product
  --subtree <dir>      Only score this WPT directory (e.g. css)
  --source <mode>      auto (default) | cache | summary
  --fetch-delay <ms>   Pause between wpt.fyi requests (default: 1000)
  --rescore            Re-score runs that are already present
";

/// What is wrong with arguments.
#[derive(Debug)]
pub enum UsageError {
    /// Nothing follows a flag that takes a value.
    MissingValue(String),
    /// There is no such flag.
    UnknownArgument(String),
    /// There is no such source.
    UnknownSource(String),
    /// The value of `--max-runs` is no number.
    MaxRuns,
    /// The value of `--fetch-delay` is no number.
    FetchDelay,
    /// The cache is needed, but its path is not given.
    MissingCache,
}

/// What is wrong with arguments, as a mathematical value.
pub enum UsageErrorView {
    MissingValue(Seq<char>),
    UnknownArgument(Seq<char>),
    UnknownSource(Seq<char>),
    MaxRuns,
    FetchDelay,
    MissingCache,
}

impl View for UsageError {
    type V = UsageErrorView;

    open spec fn view(&self) -> UsageErrorView {
        match self {
            UsageError::MissingValue(flag) => UsageErrorView::MissingValue(flag@),
            UsageError::UnknownArgument(flag) => UsageErrorView::UnknownArgument(flag@),
            UsageError::UnknownSource(value) => UsageErrorView::UnknownSource(value@),
            UsageError::MaxRuns => UsageErrorView::MaxRuns,
            UsageError::FetchDelay => UsageErrorView::FetchDelay,
            UsageError::MissingCache => UsageErrorView::MissingCache,
        }
    }
}

impl UsageErrorView {
    /// What is wrong, in words.
    pub open spec fn message(self) -> Seq<char> {
        match self {
            UsageErrorView::MissingValue(flag) => flag + " requires a value\n\n"@ + USAGE@,
            UsageErrorView::UnknownArgument(flag) => "unknown argument "@ + flag + "\n\n"@ + USAGE@,
            UsageErrorView::UnknownSource(value) => "unknown --source "@ + value + "\n\n"@ + USAGE@,
            UsageErrorView::MaxRuns => "--max-runs number"@,
            UsageErrorView::FetchDelay => "--fetch-delay milliseconds"@,
            UsageErrorView::MissingCache => "--cache is required unless --source summary\n\n"@
                + USAGE@,
        }
    }
}

impl UsageError {
    /// What is wrong, in words.
    pub fn message(&self) -> (r: String)
        ensures
            r@ == self@.message(),
    {
        match self {
            UsageError::MissingValue(flag) => {
                let mut r = concat(flag.as_str(), " requires a value\n\n");
                r.append(USAGE);
                r
            },
            UsageError::UnknownArgument(flag) => {
                let mut r = concat("unknown argument ", flag.as_str());
                r.append("\n\n");
                r.append(USAGE);
                r
            },
            UsageError::UnknownSource(value) => {
                let mut r = concat("unknown --source ", value.as_str());
                r.append("\n\n");
                r.append(USAGE);
                r
            },
            UsageError::MaxRuns => "--max-runs number".to_owned(),
            UsageError::FetchDelay => "--fetch-delay milliseconds".to_owned(),
            UsageError::MissingCache => concat(
                "--cache is required unless --source summary\n\n",
                USAGE,
            ),
        }
    }
}

/// What the command line comes to.
pub enum Command {
    /// Print how the program is used.
    Help,
    /// Process runs.
    Process(Args),
}

/// What the command line comes to, as a mathematical value.
pub enum CommandView {
    Help,
    Process(ArgsView),
}

impl View for Command {
    type V = CommandView;

    open spec fn view(&self) -> CommandView {
        match self {
            Command::Help => CommandView::Help,
            Command::Process(args) => CommandView::Process(args@),
        }
    }
}

/// The view of a parse result.
pub open spec fn command_view(r: Result<Command, UsageError>) -> Result<
    CommandView,
    UsageErrorView,
> {
    match r {
        Ok(command) => Ok(command@),
        Err(error) => Err(error@),
    }
}

/// A date to the second: a bare `YYYY-MM-DD` date, which is ten bytes long, stands for the
/// beginning of that day in UTC.
pub open spec fn normalized(date: Seq<char>) -> Seq<char> {
    if encode_utf8(date).len() == 10 {
        date + "T00:00:00Z"@
    } else {
        date
    }
}

/// Accept bare `YYYY-MM-DD` dates as well as RFC 3339 timestamps.
pub fn normalize_date(date: &str) -> (r: String)
    ensures
        r@ == normalized(date@),
{
    if date.as_bytes().len() == 10 {
        concat(date, "T00:00:00Z")
    } else {
        date.to_owned()
    }
}

/// The source of a name.
pub open spec fn source_named(name: Seq<char>) -> Option<Source> {
    if name == "auto"@ {
        Some(Source::Auto)
    } else if name == "cache"@ {
        Some(Source::Cache)
    } else if name == "summary"@ {
        Some(Source::Summary)
    } else {
        None
    }
}

/// The source of a name.
fn parse_source(name: &str) -> (r: Option<Source>)
    ensures
        r == source_named(name@),
{
    if same_text(name, "auto") {
        Some(Source::Auto)
    } else if same_text(name, "cache") {
        Some(Source::Cache)
    } else if same_text(name, "summary") {
        Some(Source::Summary)
    } else {
        None
    }
}

/// Whether a flag takes a value.
pub open spec fn takes_value(flag: Seq<char>) -> bool {
    ||| flag == "--cache"@
    ||| flag == "--out"@
    ||| flag == "--product"@
    ||| flag == "--labels"@
    ||| flag == "--from"@
    ||| flag == "--to"@
    ||| flag == "--max-runs"@
    ||| flag == "--subtree"@
    ||| flag == "--fetch-delay"@
    ||| flag == "--source"@
}

impl ArgsView {
    /// The arguments of an empty command line, before defaults for products and labels.
    pub open spec fn initial() -> ArgsView {
        ArgsView {
            cache: None,
            out: "summary"@,
            products: Seq::empty(),
            labels: Seq::empty(),
            from: None,
            to: None,
            daily: false,
            max_runs: None,
            subtree: None,
            source: Source::Auto,
            fetch_delay: 1000,
            rescore: false,
        }
    }

    /// The arguments with a flag that takes a value.
    pub open spec fn with_value(self, flag: Seq<char>, value: Seq<char>) -> Result<
        ArgsView,
        UsageErrorView,
    > {
        if flag == "--cache"@ {
            Ok(ArgsView { cache: Some(value), ..self })
        } else if flag == "--out"@ {
            Ok(ArgsView { out: value, ..self })
        } else if flag == "--product"@ {
            Ok(ArgsView { products: self.products.push(value), ..self })
        } else if flag == "--labels"@ {
            Ok(ArgsView { labels: split_at_each(value, ','), ..self })
        } else if flag == "--from"@ {
            Ok(ArgsView { from: Some(normalized(value)), ..self })
        } else if flag == "--to"@ {
            Ok(ArgsView { to: Some(normalized(value)), ..self })
        } else if flag == "--subtree"@ {
            Ok(ArgsView { subtree: Some(value), ..self })
        } else if flag == "--max-runs"@ {
            match number_value(value) {
                Some(n) => if n <= usize::MAX {
                    Ok(ArgsView { max_runs: Some(n), ..self })
                } else {
                    Err(UsageErrorView::MaxRuns)
                },
                None => Err(UsageErrorView::MaxRuns),
            }
        } else if flag == "--fetch-delay"@ {
            match number_value(value) {
                Some(n) => if n <= u64::MAX {
                    Ok(ArgsView { fetch_delay: n, ..self })
                } else {
                    Err(UsageErrorView::FetchDelay)
                },
                None => Err(UsageErrorView::FetchDelay),
            }
        } else {
            match source_named(value) {
                Some(source) => Ok(ArgsView { source, ..self }),
                None => Err(UsageErrorView::UnknownSource(value)),
            }
        }
    }

    /// What flags come to, read from the first to the last; what is asked for first, help or
    /// an error, decides.
    pub open spec fn with_flags(self, flags: Seq<Seq<char>>) -> Result<CommandView, UsageErrorView>
        decreases flags.len(),
    {
        if flags.len() == 0 {
            self.completed()
        } else {
            let flag = flags[0];
            if flag == "--daily"@ {
                (ArgsView { daily: true, ..self }).with_flags(flags.skip(1))
            } else if flag == "--rescore"@ {
                (ArgsView { rescore: true, ..self }).with_flags(flags.skip(1))
            } else if flag == "--help"@ || flag == "-h"@ {
                Ok(CommandView::Help)
            } else if !takes_value(flag) {
                Err(UsageErrorView::UnknownArgument(flag))
            } else if flags.len() < 2 {
                Err(UsageErrorView::MissingValue(flag))
            } else {
                match self.with_value(flag, flags[1]) {
                    Ok(args) => args.with_flags(flags.skip(2)),
                    Err(error) => Err(error),
                }
            }
        }
    }

    /// The arguments with defaults for the products and labels where none are given; the path
    /// of the cache is needed unless only summary files are used.
    pub open spec fn completed(self) -> Result<CommandView, UsageErrorView> {
        if self.source != Source::Summary && self.cache is None {
            Err(UsageErrorView::MissingCache)
        } else {
            Ok(
                CommandView::Process(
                    ArgsView {
                        products: if self.products.len() == 0 {
                            seq!["chrome"@, "firefox"@, "safari"@, "servo"@]
                        } else {
                            self.products
                        },
                        labels: if self.labels.len() == 0 {
                            seq!["master"@, "experimental"@]
                        } else {
                            self.labels
                        },
                        ..self
                    },
                ),
            )
        }
    }
}

impl Args {
    /// Sets what a flag with a value asks for.
    fn set_value(&mut self, flag: &str, value: &str) -> (r: Result<(), UsageError>)
        requires
            takes_value(flag@),
        ensures
            r is Ok ==> old(self)@.with_value(flag@, value@) == Ok::<ArgsView, UsageErrorView>(
                final(self)@,
            ),
            r matches Err(e) ==> old(self)@.with_value(flag@, value@) == Err::<
                ArgsView,
                UsageErrorView,
            >(e@),
    {
        if same_text(flag, "--cache") {
            self.cache = Some(value.to_owned());
        } else if same_text(flag, "--out") {
            self.out = value.to_owned();
        } else if same_text(flag, "--product") {
            let ghost before = self.products@;
            self.products.push(value.to_owned());
            assert(texts(self.products@) =~= texts(before).push(value@));
        } else if same_text(flag, "--labels") {
            self.labels = split(value, ',');
        } else if same_text(flag, "--from") {
            self.from = Some(normalize_date(value));
        } else if same_text(flag, "--to") {
            self.to = Some(normalize_date(value));
        } else if same_text(flag, "--subtree") {
            self.subtree = Some(value.to_owned());
        } else if same_text(flag, "--max-runs") {
            match parse_number(value) {
                Some(n) => {
                    if n > usize::MAX as u64 {
                        return Err(UsageError::MaxRuns);
                    }
                    self.max_runs = Some(n as usize);
                },
                None => {
                    return Err(UsageError::MaxRuns);
                },
            }
        } else if same_text(flag, "--fetch-delay") {
            match parse_number(value) {
                Some(n) => {
                    self.fetch_delay = n;
                },
                None => {
                    return Err(UsageError::FetchDelay);
                },
            }
        } else {
            match parse_source(value) {
                Some(source) => {
                    self.source = source;
                },
                None => {
                    return Err(UsageError::UnknownSource(value.to_owned()));
                },
            }
        }
        Ok(())
    }

    /// Fills in defaults, and requires the path of the cache where it is needed.
    fn complete(self) -> (r: Result<Command, UsageError>)
        ensures
            command_view(r) == self@.completed(),
    {
        let mut args = self;
        if args.products.len() == 0 {
            args.products.push("chrome".to_owned());
            args.products.push("firefox".to_owned());
            args.products.push("safari".to_owned());
            args.products.push("servo".to_owned());
            assert(texts(args.products@) =~= seq!["chrome"@, "firefox"@, "safari"@, "servo"@]);
        }
        if args.labels.len() == 0 {
            args.labels.push("master".to_owned());
            args.labels.push("experimental".to_owned());
            assert(texts(args.labels@) =~= seq!["master"@, "experimental"@]);
        }
        if args.source != Source::Summary && args.cache.is_none() {
            return Err(UsageError::MissingCache);
        }
        Ok(Command::Process(args))
    }
}

/// Whether a flag takes a value.
fn is_value_flag(flag: &str) -> (r: bool)
    ensures
        r == takes_value(flag@),
{
    same_text(flag, "--cache") || same_text(flag, "--out") || same_text(flag, "--product")
        || same_text(flag, "--labels") || same_text(flag, "--from") || same_text(flag, "--to")
        || same_text(flag, "--max-runs") || same_text(flag, "--subtree") || same_text(
        flag,
        "--fetch-delay",
    ) || same_text(flag, "--source")
}

/// Reads the command line, without the name of the program.
pub fn parse_args(flags: &Vec<String>) -> (r: Result<Command, UsageError>)
    ensures
        command_view(r) == ArgsView::initial().with_flags(texts(flags@)),
{
    let mut args = Args {
        cache: None,
        out: "summary".to_owned(),
        products: Vec::new(),
        labels: Vec::new(),
        from: None,
        to: None,
        daily: false,
        max_runs: None,
        subtree: None,
        source: Source::Auto,
        fetch_delay: 1000,
        rescore: false,
    };
    let ghost all = texts(flags@);
    let ghost whole = ArgsView::initial().with_flags(all);
    let mut i: usize = 0;
    proof {
        assert(args@.products =~= Seq::<Seq<char>>::empty());
        assert(args@.labels =~= Seq::<Seq<char>>::empty());
        assert(all.skip(0) =~= all);
    }
    while i < flags.len()
        invariant
            i <= flags@.len(),
            all == texts(flags@),
            whole == ArgsView::initial().with_flags(all),
            whole == args@.with_flags(all.skip(i as int)),
        decreases flags.len() - i,
    {
        let flag = flags[i].as_str();
        let ghost rest = all.skip(i as int);
        proof {
            assert(rest[0] == flag@);
            assert(rest.skip(1) =~= all.skip(i + 1));
        }
        if same_text(flag, "--daily") {
            args.daily = true;
            i = i + 1;
        } else if same_text(flag, "--rescore") {
            args.rescore = true;
            i = i + 1;
        } else if same_text(flag, "--help") || same_text(flag, "-h") {
            return Ok(Command::Help);
        } else if !is_value_flag(flag) {
            return Err(UsageError::UnknownArgument(flag.to_owned()));
        } else if flags.len() - i < 2 {
            return Err(UsageError::MissingValue(flag.to_owned()));
        } else {
            let value = flags[i + 1].as_str();
            assert(rest[1] == value@);
            assert(rest.skip(2) =~= all.skip(i + 2));
            match args.set_value(flag, value) {
                Ok(()) => {},
                Err(e) => {
                    return Err(e);
                },
            }
            i = i + 2;
        }
    }
    assert(all.skip(all.len() as int) =~= Seq::<Seq<char>>::empty());
    args.complete()
}

}
