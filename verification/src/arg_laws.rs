//! What holds of the command line: what each flag asks for, and what decides.

use vstd::prelude::*;
use vstd::string::*;
use vstd::utf8::encode_utf8;

use crate::args::{command_view, normalized, takes_value, Args, ArgsView, Command, CommandView};
use crate::args::{Source, UsageError, UsageErrorView, USAGE};
use crate::text::{decimal_text, law_number_round_trip, number_value, split_at_each, texts};
use crate::text_laws::law_split_and_join;

verus! {

proof fn lemma_flags_differ()
    ensures
        "--cache"@ != "--out"@,
        "--cache"@ != "--product"@,
        "--cache"@ != "--labels"@,
        "--cache"@ != "--from"@,
        "--cache"@ != "--to"@,
        "--cache"@ != "--daily"@,
        "--cache"@ != "--max-runs"@,
        "--cache"@ != "--subtree"@,
        "--cache"@ != "--source"@,
        "--cache"@ != "--fetch-delay"@,
        "--cache"@ != "--rescore"@,
        "--cache"@ != "--help"@,
        "--cache"@ != "-h"@,
        "--out"@ != "--product"@,
        "--out"@ != "--labels"@,
        "--out"@ != "--from"@,
        "--out"@ != "--to"@,
        "--out"@ != "--daily"@,
        "--out"@ != "--max-runs"@,
        "--out"@ != "--subtree"@,
        "--out"@ != "--source"@,
        "--out"@ != "--fetch-delay"@,
        "--out"@ != "--rescore"@,
        "--out"@ != "--help"@,
        "--out"@ != "-h"@,
        "--product"@ != "--labels"@,
        "--product"@ != "--from"@,
        "--product"@ != "--to"@,
        "--product"@ != "--daily"@,
        "--product"@ != "--max-runs"@,
        "--product"@ != "--subtree"@,
        "--product"@ != "--source"@,
        "--product"@ != "--fetch-delay"@,
        "--product"@ != "--rescore"@,
        "--product"@ != "--help"@,
        "--product"@ != "-h"@,
        "--labels"@ != "--from"@,
        "--labels"@ != "--to"@,
        "--labels"@ != "--daily"@,
        "--labels"@ != "--max-runs"@,
        "--labels"@ != "--subtree"@,
        "--labels"@ != "--source"@,
        "--labels"@ != "--fetch-delay"@,
        "--labels"@ != "--rescore"@,
        "--labels"@ != "--help"@,
        "--labels"@ != "-h"@,
        "--from"@ != "--to"@,
        "--from"@ != "--daily"@,
        "--from"@ != "--max-runs"@,
        "--from"@ != "--subtree"@,
        "--from"@ != "--source"@,
        "--from"@ != "--fetch-delay"@,
        "--from"@ != "--rescore"@,
        "--from"@ != "--help"@,
        "--from"@ != "-h"@,
        "--to"@ != "--daily"@,
        "--to"@ != "--max-runs"@,
        "--to"@ != "--subtree"@,
        "--to"@ != "--source"@,
        "--to"@ != "--fetch-delay"@,
        "--to"@ != "--rescore"@,
        "--to"@ != "--help"@,
        "--to"@ != "-h"@,
        "--daily"@ != "--max-runs"@,
        "--daily"@ != "--subtree"@,
        "--daily"@ != "--source"@,
        "--daily"@ != "--fetch-delay"@,
        "--daily"@ != "--rescore"@,
        "--daily"@ != "--help"@,
        "--daily"@ != "-h"@,
        "--max-runs"@ != "--subtree"@,
        "--max-runs"@ != "--source"@,
        "--max-runs"@ != "--fetch-delay"@,
        "--max-runs"@ != "--rescore"@,
        "--max-runs"@ != "--help"@,
        "--max-runs"@ != "-h"@,
        "--subtree"@ != "--source"@,
        "--subtree"@ != "--fetch-delay"@,
        "--subtree"@ != "--rescore"@,
        "--subtree"@ != "--help"@,
        "--subtree"@ != "-h"@,
        "--source"@ != "--fetch-delay"@,
        "--source"@ != "--rescore"@,
        "--source"@ != "--help"@,
        "--source"@ != "-h"@,
        "--fetch-delay"@ != "--rescore"@,
        "--fetch-delay"@ != "--help"@,
        "--fetch-delay"@ != "-h"@,
        "--rescore"@ != "--help"@,
        "--rescore"@ != "-h"@,
        "--help"@ != "-h"@,
{
    reveal_strlit("--cache");
    assert("--cache"@.len() == 7);
    reveal_strlit("--out");
    assert("--out"@.len() == 5);
    reveal_strlit("--product");
    assert("--product"@.len() == 9);
    reveal_strlit("--labels");
    assert("--labels"@.len() == 8);
    reveal_strlit("--from");
    assert("--from"@.len() == 6);
    reveal_strlit("--to");
    assert("--to"@.len() == 4);
    reveal_strlit("--daily");
    assert("--daily"@.len() == 7);
    reveal_strlit("--max-runs");
    assert("--max-runs"@.len() == 10);
    reveal_strlit("--subtree");
    assert("--subtree"@.len() == 9);
    reveal_strlit("--source");
    assert("--source"@.len() == 8);
    reveal_strlit("--fetch-delay");
    assert("--fetch-delay"@.len() == 13);
    reveal_strlit("--rescore");
    assert("--rescore"@.len() == 9);
    reveal_strlit("--help");
    assert("--help"@.len() == 6);
    reveal_strlit("-h");
    assert("-h"@.len() == 2);
    assert("--cache"@[2] != "--daily"@[2]);
    assert("--product"@[2] != "--subtree"@[2]);
    assert("--product"@[2] != "--rescore"@[2]);
    assert("--labels"@[2] != "--source"@[2]);
    assert("--from"@[2] != "--help"@[2]);
    assert("--subtree"@[2] != "--rescore"@[2]);
}

proof fn lemma_sources_differ()
    ensures
        "auto"@ != "cache"@,
        "auto"@ != "summary"@,
        "cache"@ != "summary"@,
{
    reveal_strlit("auto");
    assert("auto"@.len() == 4);
    reveal_strlit("cache");
    assert("cache"@.len() == 5);
    reveal_strlit("summary");
    assert("summary"@.len() == 7);
}

/// The arguments that flags come to, before defaults, where they come to some.
proof fn lemma_flags_then(
    args: ArgsView,
    flags: Seq<Seq<char>>,
    more: Seq<Seq<char>>,
) -> (raw: ArgsView)
    requires
        args.with_flags(flags) matches Ok(CommandView::Process(_)),
    ensures
        raw.completed() == args.with_flags(flags),
        args.with_flags(flags + more) == raw.with_flags(more),
    decreases flags.len(),
{
    if flags.len() == 0 {
        assert(flags + more =~= more);
        args
    } else {
        let all = flags + more;
        let flag = flags[0];
        assert(all[0] == flag);
        assert(all.skip(1) =~= flags.skip(1) + more);
        if flag == "--daily"@ {
            lemma_flags_then(ArgsView { daily: true, ..args }, flags.skip(1), more)
        } else if flag == "--rescore"@ {
            lemma_flags_then(ArgsView { rescore: true, ..args }, flags.skip(1), more)
        } else {
            assert(all[1] == flags[1]);
            assert(all.skip(2) =~= flags.skip(2) + more);
            lemma_flags_then(args.with_value(flag, flags[1])->Ok_0, flags.skip(2), more)
        }
    }
}

proof fn lemma_one_value(args: ArgsView, flag: Seq<char>, value: Seq<char>)
    requires
        takes_value(flag),
    ensures
        args.with_flags(seq![flag, value]) == match args.with_value(flag, value) {
            Ok(next) => next.completed(),
            Err(error) => Err(error),
        },
{
    lemma_flags_differ();
    let pair = seq![flag, value];
    assert(pair[0] == flag);
    assert(pair[1] == value);
    assert(pair.skip(2) =~= Seq::<Seq<char>>::empty());
    reveal_with_fuel(ArgsView::with_flags, 2);
}

/// Whether flags come to these arguments.
pub open spec fn comes_to(flags: Seq<Seq<char>>, args: ArgsView) -> bool {
    ArgsView::initial().with_flags(flags) == Ok::<CommandView, UsageErrorView>(
        CommandView::Process(args),
    )
}

/// `--cache`, `--out` and `--subtree` set what they name to the value that follows, and nothing
/// else, whatever was given before.
pub proof fn law_text_flags(flags: Seq<Seq<char>>, args: ArgsView, value: Seq<char>)
    requires
        comes_to(flags, args),
    ensures
        comes_to(flags + seq!["--cache"@, value], (ArgsView { cache: Some(value), ..args })),
        comes_to(flags + seq!["--out"@, value], (ArgsView { out: value, ..args })),
        comes_to(flags + seq!["--subtree"@, value], (ArgsView { subtree: Some(value), ..args })),
{
    lemma_flags_differ();
    let start = ArgsView::initial();
    let raw = lemma_flags_then(start, flags, seq!["--cache"@, value]);
    lemma_one_value(raw, "--cache"@, value);
    let raw = lemma_flags_then(start, flags, seq!["--out"@, value]);
    lemma_one_value(raw, "--out"@, value);
    let raw = lemma_flags_then(start, flags, seq!["--subtree"@, value]);
    lemma_one_value(raw, "--subtree"@, value);
}

/// `--from` and `--to` set the bounds, each its own: a date of ten bytes is the beginning of that
/// day in UTC, and any other text stays as it is.
pub proof fn law_date_flags(flags: Seq<Seq<char>>, args: ArgsView, date: Seq<char>)
    requires
        comes_to(flags, args),
    ensures
        encode_utf8(date).len() == 10 ==> comes_to(
            flags + seq!["--from"@, date],
            (ArgsView { from: Some(date + "T00:00:00Z"@), ..args }),
        ) && comes_to(
            flags + seq!["--to"@, date],
            (ArgsView { to: Some(date + "T00:00:00Z"@), ..args }),
        ),
        encode_utf8(date).len() != 10 ==> comes_to(
            flags + seq!["--from"@, date],
            (ArgsView { from: Some(date), ..args }),
        ) && comes_to(flags + seq!["--to"@, date], (ArgsView { to: Some(date), ..args })),
{
    lemma_flags_differ();
    let start = ArgsView::initial();
    let raw = lemma_flags_then(start, flags, seq!["--from"@, date]);
    lemma_one_value(raw, "--from"@, date);
    let raw = lemma_flags_then(start, flags, seq!["--to"@, date]);
    lemma_one_value(raw, "--to"@, date);
}

/// `--daily` and `--rescore` each switch on what they name, and nothing else.
pub proof fn law_switches(flags: Seq<Seq<char>>, args: ArgsView)
    requires
        comes_to(flags, args),
    ensures
        comes_to(flags + seq!["--daily"@], (ArgsView { daily: true, ..args })),
        comes_to(flags + seq!["--rescore"@], (ArgsView { rescore: true, ..args })),
{
    lemma_flags_differ();
    let start = ArgsView::initial();
    reveal_with_fuel(ArgsView::with_flags, 2);
    let raw = lemma_flags_then(start, flags, seq!["--daily"@]);
    assert(seq!["--daily"@].skip(1) =~= Seq::<Seq<char>>::empty());
    let raw = lemma_flags_then(start, flags, seq!["--rescore"@]);
    assert(seq!["--rescore"@].skip(1) =~= Seq::<Seq<char>>::empty());
}

/// `--max-runs` and `--fetch-delay` each set the number that follows in decimal notation, as far as
/// it can be held, and are refused with anything that is no number.
pub proof fn law_number_flags(flags: Seq<Seq<char>>, args: ArgsView, n: nat, value: Seq<char>)
    requires
        comes_to(flags, args),
    ensures
        n <= usize::MAX ==> comes_to(
            flags + seq!["--max-runs"@, decimal_text(n)],
            (ArgsView { max_runs: Some(n), ..args }),
        ),
        n <= u64::MAX ==> comes_to(
            flags + seq!["--fetch-delay"@, decimal_text(n)],
            (ArgsView { fetch_delay: n, ..args }),
        ),
        n > usize::MAX ==> ArgsView::initial().with_flags(
            flags + seq!["--max-runs"@, decimal_text(n)],
        ) == Err::<CommandView, UsageErrorView>(UsageErrorView::MaxRuns),
        n > u64::MAX ==> ArgsView::initial().with_flags(
            flags + seq!["--fetch-delay"@, decimal_text(n)],
        ) == Err::<CommandView, UsageErrorView>(UsageErrorView::FetchDelay),
        number_value(value) is None ==> ArgsView::initial().with_flags(
            flags + seq!["--max-runs"@, value],
        ) == Err::<CommandView, UsageErrorView>(UsageErrorView::MaxRuns),
        number_value(value) is None ==> ArgsView::initial().with_flags(
            flags + seq!["--fetch-delay"@, value],
        ) == Err::<CommandView, UsageErrorView>(UsageErrorView::FetchDelay),
{
    lemma_flags_differ();
    law_number_round_trip(n);
    let start = ArgsView::initial();
    let raw = lemma_flags_then(start, flags, seq!["--max-runs"@, decimal_text(n)]);
    lemma_one_value(raw, "--max-runs"@, decimal_text(n));
    let raw = lemma_flags_then(start, flags, seq!["--fetch-delay"@, decimal_text(n)]);
    lemma_one_value(raw, "--fetch-delay"@, decimal_text(n));
    let raw = lemma_flags_then(start, flags, seq!["--max-runs"@, value]);
    lemma_one_value(raw, "--max-runs"@, value);
    let raw = lemma_flags_then(start, flags, seq!["--fetch-delay"@, value]);
    lemma_one_value(raw, "--fetch-delay"@, value);
}

/// `--source` sets the source of its name, where the path of the cache is given or not needed; no
/// other name is one of a source.
pub proof fn law_source_flag(flags: Seq<Seq<char>>, args: ArgsView, value: Seq<char>)
    requires
        comes_to(flags, args),
    ensures
        comes_to(
            flags + seq!["--source"@, "summary"@],
            (ArgsView { source: Source::Summary, ..args }),
        ),
        args.cache is Some ==> comes_to(
            flags + seq!["--source"@, "auto"@],
            (ArgsView { source: Source::Auto, ..args }),
        ) && comes_to(
            flags + seq!["--source"@, "cache"@],
            (ArgsView { source: Source::Cache, ..args }),
        ),
        args.cache is None ==> ArgsView::initial().with_flags(
            flags + seq!["--source"@, "cache"@],
        ) == Err::<CommandView, UsageErrorView>(UsageErrorView::MissingCache)
            && ArgsView::initial().with_flags(flags + seq!["--source"@, "auto"@]) == Err::<
            CommandView,
            UsageErrorView,
        >(UsageErrorView::MissingCache),
        value != "auto"@ && value != "cache"@ && value != "summary"@
            ==> ArgsView::initial().with_flags(flags + seq!["--source"@, value]) == Err::<
            CommandView,
            UsageErrorView,
        >(UsageErrorView::UnknownSource(value)),
{
    lemma_flags_differ();
    lemma_sources_differ();
    let start = ArgsView::initial();
    let raw = lemma_flags_then(start, flags, seq!["--source"@, "summary"@]);
    lemma_one_value(raw, "--source"@, "summary"@);
    let raw = lemma_flags_then(start, flags, seq!["--source"@, "auto"@]);
    lemma_one_value(raw, "--source"@, "auto"@);
    let raw = lemma_flags_then(start, flags, seq!["--source"@, "cache"@]);
    lemma_one_value(raw, "--source"@, "cache"@);
    let raw = lemma_flags_then(start, flags, seq!["--source"@, value]);
    lemma_one_value(raw, "--source"@, value);
}

/// `--product` adds a product after those that were given, or is the first to be given; `--labels`
/// sets the labels, which are split at commas, in place of those that were given.
pub proof fn law_list_flags(flags: Seq<Seq<char>>, args: ArgsView, value: Seq<char>)
    requires
        comes_to(flags, args),
    ensures
        comes_to(
            flags + seq!["--product"@, value],
            (ArgsView { products: args.products.push(value), ..args }),
        ) || comes_to(
            flags + seq!["--product"@, value],
            (ArgsView { products: seq![value], ..args }),
        ),
        args.products != seq!["chrome"@, "firefox"@, "safari"@, "servo"@] ==> comes_to(
            flags + seq!["--product"@, value],
            (ArgsView { products: args.products.push(value), ..args }),
        ),
        comes_to(
            flags + seq!["--labels"@, value],
            (ArgsView { labels: split_at_each(value, ','), ..args }),
        ),
{
    lemma_flags_differ();
    let start = ArgsView::initial();
    let raw = lemma_flags_then(start, flags, seq!["--product"@, value]);
    lemma_one_value(raw, "--product"@, value);
    if raw.products.len() == 0 {
        assert(raw.products.push(value) =~= seq![value]);
    }
    let raw = lemma_flags_then(start, flags, seq!["--labels"@, value]);
    lemma_one_value(raw, "--labels"@, value);
    law_split_and_join(value, ',');
}

/// What flags that take a value are refused with: nothing after them. What is no flag at all is
/// refused too, and help is given where it is asked for.
pub proof fn law_other_flags(flags: Seq<Seq<char>>, args: ArgsView, flag: Seq<char>)
    requires
        comes_to(flags, args),
    ensures
        ArgsView::initial().with_flags(flags + seq!["--help"@]) == Ok::<
            CommandView,
            UsageErrorView,
        >(CommandView::Help),
        ArgsView::initial().with_flags(flags + seq!["-h"@]) == Ok::<CommandView, UsageErrorView>(
            CommandView::Help,
        ),
        flag == "--cache"@ || flag == "--out"@ || flag == "--product"@ || flag == "--labels"@
            || flag == "--from"@ || flag == "--to"@ || flag == "--max-runs"@ || flag
            == "--subtree"@ || flag == "--fetch-delay"@ || flag == "--source"@
            ==> ArgsView::initial().with_flags(flags + seq![flag]) == Err::<
            CommandView,
            UsageErrorView,
        >(UsageErrorView::MissingValue(flag)),
        !(flag == "--cache"@ || flag == "--out"@ || flag == "--product"@ || flag == "--labels"@
            || flag == "--from"@ || flag == "--to"@ || flag == "--max-runs"@ || flag
            == "--subtree"@ || flag == "--fetch-delay"@ || flag == "--source"@ || flag
            == "--daily"@ || flag == "--rescore"@ || flag == "--help"@ || flag == "-h"@)
            ==> ArgsView::initial().with_flags(flags + seq![flag]) == Err::<
            CommandView,
            UsageErrorView,
        >(UsageErrorView::UnknownArgument(flag)),
{
    lemma_flags_differ();
    let start = ArgsView::initial();
    let raw = lemma_flags_then(start, flags, seq!["--help"@]);
    assert(seq!["--help"@][0] == "--help"@);
    let raw = lemma_flags_then(start, flags, seq!["-h"@]);
    assert(seq!["-h"@][0] == "-h"@);
    let raw = lemma_flags_then(start, flags, seq![flag]);
    assert(seq![flag][0] == flag);
}

/// What decides first, decides: help, or an error other than that something is missing at the end,
/// stays what it is whatever follows.
pub proof fn law_first_decides(args: ArgsView, flags: Seq<Seq<char>>, more: Seq<Seq<char>>)
    requires
        match args.with_flags(flags) {
            Ok(command) => command is Help,
            Err(error) => !(error is MissingValue) && !(error is MissingCache),
        },
    ensures
        args.with_flags(flags + more) == args.with_flags(flags),
    decreases flags.len(),
{
    if flags.len() > 0 {
        let all = flags + more;
        let flag = flags[0];
        assert(all[0] == flag);
        assert(all.skip(1) =~= flags.skip(1) + more);
        if flag == "--daily"@ {
            law_first_decides(ArgsView { daily: true, ..args }, flags.skip(1), more);
        } else if flag == "--rescore"@ {
            law_first_decides(ArgsView { rescore: true, ..args }, flags.skip(1), more);
        } else if flag == "--help"@ || flag == "-h"@ || !takes_value(flag) {
        } else if flags.len() >= 2 {
            assert(all[1] == flags[1]);
            assert(all.skip(2) =~= flags.skip(2) + more);
            if args.with_value(flag, flags[1]) is Ok {
                law_first_decides(
                    args.with_value(flag, flags[1])->Ok_0,
                    flags.skip(2),
                    more,
                );
            }
        }
    }
}

/// What is asked for without any flag but the one that makes the cache unnecessary, or with the path
/// of the cache alone; without both the path of the cache is missing.
pub proof fn law_defaults(path: Seq<char>)
    ensures
        comes_to(
            seq!["--cache"@, path],
            (ArgsView {
                cache: Some(path),
                out: "summary"@,
                products: seq!["chrome"@, "firefox"@, "safari"@, "servo"@],
                labels: seq!["master"@, "experimental"@],
                from: None,
                to: None,
                daily: false,
                max_runs: None,
                subtree: None,
                source: Source::Auto,
                fetch_delay: 1000,
                rescore: false,
            }),
        ),
        comes_to(
            seq!["--source"@, "summary"@],
            (ArgsView {
                cache: None,
                out: "summary"@,
                products: seq!["chrome"@, "firefox"@, "safari"@, "servo"@],
                labels: seq!["master"@, "experimental"@],
                from: None,
                to: None,
                daily: false,
                max_runs: None,
                subtree: None,
                source: Source::Summary,
                fetch_delay: 1000,
                rescore: false,
            }),
        ),
        ArgsView::initial().with_flags(Seq::empty()) == Err::<CommandView, UsageErrorView>(
            UsageErrorView::MissingCache,
        ),
{
    lemma_flags_differ();
    lemma_sources_differ();
    lemma_one_value(ArgsView::initial(), "--cache"@, path);
    lemma_one_value(ArgsView::initial(), "--source"@, "summary"@);
}

/// A date of ten bytes is given the beginning of the day, and any other text is kept.
pub proof fn law_normalized(date: Seq<char>)
    ensures
        encode_utf8(date).len() == 10 ==> normalized(date) == date + "T00:00:00Z"@,
        encode_utf8(date).len() != 10 ==> normalized(date) == date,
{
}

/// What arguments ask for is what their fields hold.
pub proof fn law_arguments(args: Args)
    ensures
        args@.cache is Some <==> args.cache is Some,
        args.cache is Some ==> args@.cache->0 == args.cache->0@,
        args@.out == args.out@,
        args@.products == texts(args.products@),
        args@.labels == texts(args.labels@),
        args@.from is Some <==> args.from is Some,
        args.from is Some ==> args@.from->0 == args.from->0@,
        args@.to is Some <==> args.to is Some,
        args.to is Some ==> args@.to->0 == args.to->0@,
        args@.daily == args.daily,
        args@.max_runs is Some <==> args.max_runs is Some,
        args.max_runs is Some ==> args@.max_runs->0 == args.max_runs->0,
        args@.subtree is Some <==> args.subtree is Some,
        args.subtree is Some ==> args@.subtree->0 == args.subtree->0@,
        args@.source == args.source,
        args@.fetch_delay == args.fetch_delay,
        args@.rescore == args.rescore,
{
}

/// What is said of an error names what it is about, and how the program is used.
pub proof fn law_messages(text: Seq<char>)
    ensures
        UsageErrorView::MissingValue(text).message() == text + " requires a value\n\n"@ + USAGE@,
        UsageErrorView::UnknownArgument(text).message() == "unknown argument "@ + text + "\n\n"@
            + USAGE@,
        UsageErrorView::UnknownSource(text).message() == "unknown --source "@ + text + "\n\n"@
            + USAGE@,
        UsageErrorView::MaxRuns.message() == "--max-runs number"@,
        UsageErrorView::FetchDelay.message() == "--fetch-delay milliseconds"@,
        UsageErrorView::MissingCache.message()
            == "--cache is required unless --source summary\n\n"@ + USAGE@,
{
}

/// What reading the command line gives: help, the arguments, or an error with the text that it is
/// about.
pub proof fn law_command_lines(args: Args, text: String)
    ensures
        command_view(Ok(Command::Help)) == Ok::<CommandView, UsageErrorView>(CommandView::Help),
        command_view(Ok(Command::Process(args))) == Ok::<CommandView, UsageErrorView>(
            CommandView::Process(args@),
        ),
        command_view(Err(UsageError::MissingValue(text))) == Err::<CommandView, UsageErrorView>(
            UsageErrorView::MissingValue(text@),
        ),
        command_view(Err(UsageError::UnknownArgument(text))) == Err::<CommandView, UsageErrorView>(
            UsageErrorView::UnknownArgument(text@),
        ),
        command_view(Err(UsageError::UnknownSource(text))) == Err::<CommandView, UsageErrorView>(
            UsageErrorView::UnknownSource(text@),
        ),
        command_view(Err(UsageError::MaxRuns)) == Err::<CommandView, UsageErrorView>(
            UsageErrorView::MaxRuns,
        ),
        command_view(Err(UsageError::FetchDelay)) == Err::<CommandView, UsageErrorView>(
            UsageErrorView::FetchDelay,
        ),
        command_view(Err(UsageError::MissingCache)) == Err::<CommandView, UsageErrorView>(
            UsageErrorView::MissingCache,
        ),
{
}

}
