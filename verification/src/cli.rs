//! The command line of the server.

use crate::storage::group_commit::{GroupCommitConfig, SyncMode};
use crate::text::{decimal, parse_number, parsed_number, push_decimal, same_text};
use vstd::prelude::*;

verus! {

/// An option that is followed by a value.
#[derive(Debug, Clone, Copy, PartialEq, Eq, Structural)]
pub enum Flag {
    HttpWorkers,
    BatchWindowMs,
    MaxBatchSize,
    IdleCommitThresholdUs,
    SyncMode,
    DataDir,
    Bind,
}

/// How the server is to run.
#[derive(Debug)]
pub struct CliOptions {
    /// The number of threads that serve requests.
    pub http_workers: usize,
    pub batch_window_ms: u64,
    pub max_batch_size: usize,
    pub idle_commit_threshold_us: u64,
    pub sync_mode: SyncMode,
    /// The directory of the queues. Without it, `nesso_data` in the current
    /// directory is used.
    pub data_dir: Option<String>,
    pub bind_addr: String,
}

/// The value of [`CliOptions`].
#[verifier::ext_equal]
pub struct CliOptionsView {
    pub http_workers: usize,
    pub batch_window_ms: u64,
    pub max_batch_size: usize,
    pub idle_commit_threshold_us: u64,
    pub sync_mode: SyncMode,
    pub data_dir: Option<Seq<char>>,
    pub bind_addr: Seq<char>,
}

impl View for CliOptions {
    type V = CliOptionsView;

    open spec fn view(&self) -> CliOptionsView {
        CliOptionsView {
            http_workers: self.http_workers,
            batch_window_ms: self.batch_window_ms,
            max_batch_size: self.max_batch_size,
            idle_commit_threshold_us: self.idle_commit_threshold_us,
            sync_mode: self.sync_mode,
            data_dir: match self.data_dir {
                Some(dir) => Some(dir@),
                None => None,
            },
            bind_addr: self.bind_addr@,
        }
    }
}

/// What the command line asks for.
#[derive(Debug)]
pub enum CliCommand {
    /// To print how the program is used.
    Help,
    /// To run the server.
    Serve(CliOptions),
}

/// What is wrong with a command line.
#[derive(Debug)]
pub enum CliError {
    /// An option without its value.
    MissingValue(Flag),
    /// A value that is not a number, or a number that is too large.
    InvalidNumber(String),
    /// A sync mode that does not exist, in lower case.
    UnknownSyncMode(String),
}

/// The value of a [`CliError`].
#[verifier::ext_equal]
pub enum CliErrorView {
    MissingValue(Flag),
    InvalidNumber(Seq<char>),
    UnknownSyncMode(Seq<char>),
}

impl View for CliError {
    type V = CliErrorView;

    open spec fn view(&self) -> CliErrorView {
        match self {
            CliError::MissingValue(flag) => CliErrorView::MissingValue(*flag),
            CliError::InvalidNumber(text) => CliErrorView::InvalidNumber(text@),
            CliError::UnknownSyncMode(mode) => CliErrorView::UnknownSyncMode(mode@),
        }
    }
}

/// What a text becomes in lower case.
pub uninterp spec fn lowercase(text: Seq<char>) -> Seq<char>;

/// Calls `str::to_lowercase`. The result depends on the text alone, and is named
/// by [`lowercase`].
#[verifier::external_body]
fn to_lowercase(text: &str) -> (lower: String)
    ensures
        lower@ == lowercase(text@),
{
    text.to_lowercase()
}

impl Flag {
    pub open spec fn name_spec(self) -> Seq<char> {
        match self {
            Flag::HttpWorkers => "--http-workers"@,
            Flag::BatchWindowMs => "--batch-window-ms"@,
            Flag::MaxBatchSize => "--max-batch-size"@,
            Flag::IdleCommitThresholdUs => "--idle-commit-threshold-us"@,
            Flag::SyncMode => "--sync-mode"@,
            Flag::DataDir => "--data-dir"@,
            Flag::Bind => "--bind"@,
        }
    }

    /// The option that an argument names.
    pub open spec fn named(text: Seq<char>) -> Option<Flag> {
        if text == "--http-workers"@ {
            Some(Flag::HttpWorkers)
        } else if text == "--batch-window-ms"@ {
            Some(Flag::BatchWindowMs)
        } else if text == "--max-batch-size"@ {
            Some(Flag::MaxBatchSize)
        } else if text == "--idle-commit-threshold-us"@ {
            Some(Flag::IdleCommitThresholdUs)
        } else if text == "--sync-mode"@ {
            Some(Flag::SyncMode)
        } else if text == "--data-dir"@ {
            Some(Flag::DataDir)
        } else if text == "--bind"@ {
            Some(Flag::Bind)
        } else {
            None
        }
    }

    pub fn name(&self) -> (name: &'static str)
        ensures
            name@ == self.name_spec(),
    {
        match self {
            Flag::HttpWorkers => "--http-workers",
            Flag::BatchWindowMs => "--batch-window-ms",
            Flag::MaxBatchSize => "--max-batch-size",
            Flag::IdleCommitThresholdUs => "--idle-commit-threshold-us",
            Flag::SyncMode => "--sync-mode",
            Flag::DataDir => "--data-dir",
            Flag::Bind => "--bind",
        }
    }

    pub fn of_name(text: &str) -> (flag: Option<Flag>)
        ensures
            flag == Flag::named(text@),
    {
        if same_text(text, "--http-workers") {
            Some(Flag::HttpWorkers)
        } else if same_text(text, "--batch-window-ms") {
            Some(Flag::BatchWindowMs)
        } else if same_text(text, "--max-batch-size") {
            Some(Flag::MaxBatchSize)
        } else if same_text(text, "--idle-commit-threshold-us") {
            Some(Flag::IdleCommitThresholdUs)
        } else if same_text(text, "--sync-mode") {
            Some(Flag::SyncMode)
        } else if same_text(text, "--data-dir") {
            Some(Flag::DataDir)
        } else if same_text(text, "--bind") {
            Some(Flag::Bind)
        } else {
            None
        }
    }
}

/// The sync mode of a name in lower case.
pub open spec fn sync_mode_named(mode: Seq<char>) -> Option<SyncMode> {
    if mode == "standard"@ || mode == "posix"@ {
        Some(SyncMode::Standard)
    } else if mode == "full"@ || mode == "hardware"@ {
        Some(SyncMode::FullHardware)
    } else {
        None
    }
}

/// The sync mode of a name in lower case.
pub fn sync_mode_of(mode: &str) -> (sync_mode: Option<SyncMode>)
    ensures
        sync_mode == sync_mode_named(mode@),
{
    if same_text(mode, "standard") || same_text(mode, "posix") {
        Some(SyncMode::Standard)
    } else if same_text(mode, "full") || same_text(mode, "hardware") {
        Some(SyncMode::FullHardware)
    } else {
        None
    }
}

impl CliOptionsView {
    /// The options without any argument.
    pub open spec fn defaults(default_workers: usize) -> CliOptionsView {
        CliOptionsView {
            http_workers: default_workers,
            batch_window_ms: 2,
            max_batch_size: 64,
            idle_commit_threshold_us: 0,
            sync_mode: SyncMode::Standard,
            data_dir: None,
            bind_addr: "127.0.0.1:8080"@,
        }
    }

    /// The options after one more option with its value. `mode` is the value in
    /// lower case.
    pub open spec fn with(
        self,
        flag: Flag,
        value: Seq<char>,
        mode: Seq<char>,
    ) -> Result<CliOptionsView, CliErrorView> {
        match flag {
            Flag::HttpWorkers => match parsed_number(value, usize::MAX as u64) {
                Some(n) => Ok(CliOptionsView { http_workers: n as usize, ..self }),
                None => Err(CliErrorView::InvalidNumber(value)),
            },
            Flag::BatchWindowMs => match parsed_number(value, u64::MAX) {
                Some(n) => Ok(CliOptionsView { batch_window_ms: n, ..self }),
                None => Err(CliErrorView::InvalidNumber(value)),
            },
            Flag::MaxBatchSize => match parsed_number(value, usize::MAX as u64) {
                Some(n) => Ok(CliOptionsView { max_batch_size: n as usize, ..self }),
                None => Err(CliErrorView::InvalidNumber(value)),
            },
            Flag::IdleCommitThresholdUs => match parsed_number(value, u64::MAX) {
                Some(n) => Ok(CliOptionsView { idle_commit_threshold_us: n, ..self }),
                None => Err(CliErrorView::InvalidNumber(value)),
            },
            Flag::SyncMode => match sync_mode_named(mode) {
                Some(sync_mode) => Ok(CliOptionsView { sync_mode, ..self }),
                None => Err(CliErrorView::UnknownSyncMode(mode)),
            },
            Flag::DataDir => Ok(CliOptionsView { data_dir: Some(value), ..self }),
            Flag::Bind => Ok(CliOptionsView { bind_addr: value, ..self }),
        }
    }
}

/// The arguments as texts.
pub open spec fn texts(args: Seq<String>) -> Seq<Seq<char>> {
    args.map_values(|arg: String| arg@)
}

/// Whether an argument asks for help.
pub open spec fn asks_for_help(arg: Seq<char>) -> bool {
    arg == "--help"@ || arg == "-h"@
}

/// What the arguments from position `i` on make of some options. They are read
/// from left to right: a later value of an option replaces an earlier one, the
/// first error counts, and a request for help ends the reading. An argument that
/// is neither an option nor its value is passed over. Nothing means help.
pub open spec fn read_from(args: Seq<Seq<char>>, i: int, options: CliOptionsView) -> Result<
    Option<CliOptionsView>,
    CliErrorView,
>
    decreases args.len() - i,
{
    if i >= args.len() {
        Ok(Some(options))
    } else {
        match Flag::named(args[i]) {
            Some(flag) => if i + 1 >= args.len() {
                Err(CliErrorView::MissingValue(flag))
            } else {
                match options.with(flag, args[i + 1], lowercase(args[i + 1])) {
                    Ok(next) => read_from(args, i + 2, next),
                    Err(e) => Err(e),
                }
            },
            None => if asks_for_help(args[i]) {
                Ok(None)
            } else {
                read_from(args, i + 1, options)
            },
        }
    }
}

impl CliOptions {
    /// The options without any argument.
    pub fn defaults(default_workers: usize) -> (options: Self)
        ensures
            options@ == CliOptionsView::defaults(default_workers),
    {
        CliOptions {
            http_workers: default_workers,
            batch_window_ms: 2,
            max_batch_size: 64,
            idle_commit_threshold_us: 0,
            sync_mode: SyncMode::Standard,
            data_dir: None,
            bind_addr: String::from_str("127.0.0.1:8080"),
        }
    }

    /// Takes one more option into account. `mode` is its value in lower case.
    pub fn set(&mut self, flag: Flag, value: &str, mode: &str) -> (result: Result<(), CliError>)
        ensures
            match result {
                Ok(_) => old(self)@.with(flag, value@, mode@) == Ok::<_, CliErrorView>(final(self)@),
                Err(e) => old(self)@.with(flag, value@, mode@) == Err::<CliOptionsView, _>(e@)
                    && final(self)@ == old(self)@,
            },
    {
        match flag {
            Flag::HttpWorkers => match parse_number(value, usize::MAX as u64) {
                Some(n) => {
                    self.http_workers = n as usize;
                    Ok(())
                },
                None => Err(CliError::InvalidNumber(String::from_str(value))),
            },
            Flag::BatchWindowMs => match parse_number(value, u64::MAX) {
                Some(n) => {
                    self.batch_window_ms = n;
                    Ok(())
                },
                None => Err(CliError::InvalidNumber(String::from_str(value))),
            },
            Flag::MaxBatchSize => match parse_number(value, usize::MAX as u64) {
                Some(n) => {
                    self.max_batch_size = n as usize;
                    Ok(())
                },
                None => Err(CliError::InvalidNumber(String::from_str(value))),
            },
            Flag::IdleCommitThresholdUs => match parse_number(value, u64::MAX) {
                Some(n) => {
                    self.idle_commit_threshold_us = n;
                    Ok(())
                },
                None => Err(CliError::InvalidNumber(String::from_str(value))),
            },
            Flag::SyncMode => match sync_mode_of(mode) {
                Some(sync_mode) => {
                    self.sync_mode = sync_mode;
                    Ok(())
                },
                None => Err(CliError::UnknownSyncMode(String::from_str(mode))),
            },
            Flag::DataDir => {
                self.data_dir = Some(String::from_str(value));
                Ok(())
            },
            Flag::Bind => {
                self.bind_addr = String::from_str(value);
                Ok(())
            },
        }
    }

    /// When a batch closes.
    pub fn group_commit_config(&self) -> (config: GroupCommitConfig)
        ensures
            config.batch_window == self.batch_window_ms * 1_000_000,
            config.max_batch_size == self.max_batch_size,
            config.idle_commit_threshold == self.idle_commit_threshold_us * 1_000,
            config.sync_mode == self.sync_mode,
    {
        GroupCommitConfig {
            batch_window: self.batch_window_ms as u128 * 1_000_000,
            max_batch_size: self.max_batch_size,
            idle_commit_threshold: self.idle_commit_threshold_us as u128 * 1_000,
            sync_mode: self.sync_mode,
        }
    }
}

/// Reads a command line, whose first argument is the name of the program.
pub fn parse_args(args: &Vec<String>, default_workers: usize) -> (result: Result<
    CliCommand,
    CliError,
>)
    ensures
        match (
            result,
            read_from(texts(args@), 1, CliOptionsView::defaults(default_workers)),
        ) {
            (Ok(CliCommand::Serve(options)), Ok(Some(expected))) => options@ == expected,
            (Ok(CliCommand::Help), Ok(None)) => true,
            (Err(e), Err(expected)) => e@ == expected,
            _ => false,
        },
{
    let mut options = CliOptions::defaults(default_workers);
    let ghost all = texts(args@);
    let count: usize = args.len();
    let mut i: usize = 1;
    while i < count
        invariant
            count == args@.len(),
            i <= count || i == 1,
            all == texts(args@),
            read_from(all, i as int, options@) == read_from(
                all,
                1,
                CliOptionsView::defaults(default_workers),
            ),
        decreases count - i,
    {
        let arg = args[i].as_str();
        assert(arg@ == all[i as int]);
        match Flag::of_name(arg) {
            Some(flag) => {
                if count - i < 2 {
                    return Err(CliError::MissingValue(flag));
                }
                let value = args[i + 1].as_str();
                assert(value@ == all[i + 1]);
                let mode = to_lowercase(value);
                match options.set(flag, value, mode.as_str()) {
                    Ok(_) => {},
                    Err(e) => {
                        return Err(e);
                    },
                }
                i = i + 2;
            },
            None => {
                if same_text(arg, "--help") || same_text(arg, "-h") {
                    return Ok(CliCommand::Help);
                }
                i = i + 1;
            },
        }
    }
    Ok(CliCommand::Serve(options))
}

impl CliError {
    pub open spec fn message_spec(self) -> Option<Seq<char>> {
        match self@ {
            CliErrorView::MissingValue(flag) => Some(
                "Error: missing value for "@ + flag.name_spec(),
            ),
            CliErrorView::InvalidNumber(_) => None,
            CliErrorView::UnknownSyncMode(mode) => Some(
                "Error: unknown sync mode '"@ + mode + "'. Valid values: standard, full"@,
            ),
        }
    }

    /// What is wrong, in words. There are none for a value that is not a number:
    /// the program ends with the error that reading the number gives.
    pub fn message(&self) -> (message: Option<String>)
        ensures
            match message {
                Some(text) => self.message_spec() == Some(text@),
                None => self.message_spec() is None,
            },
    {
        match self {
            CliError::MissingValue(flag) => {
                let mut message = String::from_str("Error: missing value for ");
                message.append(flag.name());
                Some(message)
            },
            CliError::InvalidNumber(_) => None,
            CliError::UnknownSyncMode(mode) => {
                let mut message = String::from_str("Error: unknown sync mode '");
                message.append(mode.as_str());
                message.append("'. Valid values: standard, full");
                Some(message)
            },
        }
    }
}

/// How the program is used.
pub open spec fn usage_text(default_workers: usize) -> Seq<char> {
    "Usage: nesso [OPTIONS]\nOptions:\n  --http-workers <N>              Tokio runtime HTTP worker threads (default: available CPU cores, "@
        + decimal(default_workers as nat)
        + ")\n  --batch-window-ms <N>           Group commit batch window in milliseconds (default: 2)\n  --max-batch-size <N>            Group commit maximum batch size (default: 64)\n  --idle-commit-threshold-us <N>  Adaptive early commit idle threshold in microseconds (default: 0)\n  --sync-mode <standard|full>     Durability sync mode (default: standard [POSIX fsync])\n  --data-dir <PATH>               Directory for queue data (default: ./nesso_data)\n  --bind <ADDR>                   Address to bind to (default: 127.0.0.1:8080)\n"@
}

/// How the program is used, for the terminal.
pub fn usage(default_workers: usize) -> (text: String)
    ensures
        text@ == usage_text(default_workers),
{
    let mut text = String::from_str(
        "Usage: nesso [OPTIONS]\nOptions:\n  --http-workers <N>              Tokio runtime HTTP worker threads (default: available CPU cores, ",
    );
    push_decimal(&mut text, default_workers as u64);
    text.append(
        ")\n  --batch-window-ms <N>           Group commit batch window in milliseconds (default: 2)\n  --max-batch-size <N>            Group commit maximum batch size (default: 64)\n  --idle-commit-threshold-us <N>  Adaptive early commit idle threshold in microseconds (default: 0)\n  --sync-mode <standard|full>     Durability sync mode (default: standard [POSIX fsync])\n  --data-dir <PATH>               Directory for queue data (default: ./nesso_data)\n  --bind <ADDR>                   Address to bind to (default: 127.0.0.1:8080)\n",
    );
    text
}

/// A command line without options gives the defaults.
pub proof fn law_no_options_give_the_defaults(args: Seq<Seq<char>>, default_workers: usize)
    requires
        forall|i: int|
            1 <= i < args.len() ==> Flag::named(#[trigger] args[i]) is None && !asks_for_help(
                args[i],
            ),
    ensures
        read_from(args, 1, CliOptionsView::defaults(default_workers)) == Ok::<_, CliErrorView>(
            Some(CliOptionsView::defaults(default_workers)),
        ),
{
    lemma_passed_over(args, 1, CliOptionsView::defaults(default_workers));
}

proof fn lemma_passed_over(args: Seq<Seq<char>>, i: int, options: CliOptionsView)
    requires
        1 <= i,
        forall|j: int|
            1 <= j < args.len() ==> Flag::named(#[trigger] args[j]) is None && !asks_for_help(
                args[j],
            ),
    ensures
        read_from(args, i, options) == Ok::<_, CliErrorView>(Some(options)),
    decreases args.len() - i,
{
    if i < args.len() {
        lemma_passed_over(args, i + 1, options);
    }
}

/// No two names are the same.
proof fn lemma_names_differ()
    ensures
        "--http-workers"@.len() == 14,
        "--batch-window-ms"@.len() == 17,
        "--max-batch-size"@.len() == 16,
        "--idle-commit-threshold-us"@.len() == 26,
        "--sync-mode"@.len() == 11,
        "--data-dir"@.len() == 10,
        "--bind"@.len() == 6,
        "--help"@.len() == 6,
        "--help"@ != "--bind"@,
        "-h"@.len() == 2,
{
    reveal_strlit("--http-workers");
    reveal_strlit("--batch-window-ms");
    reveal_strlit("--max-batch-size");
    reveal_strlit("--idle-commit-threshold-us");
    reveal_strlit("--sync-mode");
    reveal_strlit("--data-dir");
    reveal_strlit("--bind");
    reveal_strlit("--help");
    reveal_strlit("-h");
    assert("--help"@[2] == 'h');
    assert("--bind"@[2] == 'b');
}

/// Each option is found under its own name and under no other.
pub proof fn law_options_have_names(text: Seq<char>, flag: Flag)
    ensures
        Flag::named(text) == Some(flag) <==> text == flag.name_spec(),
        flag == Flag::HttpWorkers <==> flag.name_spec() == "--http-workers"@,
        flag == Flag::BatchWindowMs <==> flag.name_spec() == "--batch-window-ms"@,
        flag == Flag::MaxBatchSize <==> flag.name_spec() == "--max-batch-size"@,
        flag == Flag::IdleCommitThresholdUs <==> flag.name_spec() == "--idle-commit-threshold-us"@,
        flag == Flag::SyncMode <==> flag.name_spec() == "--sync-mode"@,
        flag == Flag::DataDir <==> flag.name_spec() == "--data-dir"@,
        flag == Flag::Bind <==> flag.name_spec() == "--bind"@,
{
    lemma_names_differ();
}

/// Each option sets its own value, and leaves all others alone. A number that cannot be
/// read, and a sync mode that does not exist, are errors that name the value.
pub proof fn law_each_option_sets_its_own_value(
    options: CliOptionsView,
    flag: Flag,
    value: Seq<char>,
    mode: Seq<char>,
)
    ensures
        ({
            let next = options.with(flag, value, mode);
            let after = next->Ok_0;
            let number = match flag {
                Flag::HttpWorkers | Flag::MaxBatchSize => parsed_number(value, usize::MAX as u64),
                _ => parsed_number(value, u64::MAX),
            };
            let numeric = flag == Flag::HttpWorkers || flag == Flag::BatchWindowMs || flag
                == Flag::MaxBatchSize || flag == Flag::IdleCommitThresholdUs;
            let standard = mode == "standard"@ || mode == "posix"@;
            let full = mode == "full"@ || mode == "hardware"@;
            &&& numeric && number is None ==> next == Err::<CliOptionsView, _>(
                CliErrorView::InvalidNumber(value),
            )
            &&& flag == Flag::SyncMode && !standard && !full ==> next == Err::<CliOptionsView, _>(
                CliErrorView::UnknownSyncMode(mode),
            )
            &&& next is Ok <==> (numeric ==> number is Some) && (flag == Flag::SyncMode ==> standard
                || full)
            &&& next is Ok ==> {
                &&& flag == Flag::HttpWorkers ==> after.http_workers == number->0
                &&& flag != Flag::HttpWorkers ==> after.http_workers == options.http_workers
                &&& flag == Flag::BatchWindowMs ==> after.batch_window_ms == number->0
                &&& flag != Flag::BatchWindowMs ==> after.batch_window_ms
                    == options.batch_window_ms
                &&& flag == Flag::MaxBatchSize ==> after.max_batch_size == number->0
                &&& flag != Flag::MaxBatchSize ==> after.max_batch_size == options.max_batch_size
                &&& flag == Flag::IdleCommitThresholdUs ==> after.idle_commit_threshold_us
                    == number->0
                &&& flag != Flag::IdleCommitThresholdUs ==> after.idle_commit_threshold_us
                    == options.idle_commit_threshold_us
                &&& flag == Flag::SyncMode && standard ==> after.sync_mode == SyncMode::Standard
                &&& flag == Flag::SyncMode && !standard ==> after.sync_mode
                    == SyncMode::FullHardware
                &&& flag != Flag::SyncMode ==> after.sync_mode == options.sync_mode
                &&& flag == Flag::DataDir ==> after.data_dir == Some(value)
                &&& flag != Flag::DataDir ==> after.data_dir == options.data_dir
                &&& flag == Flag::Bind ==> after.bind_addr == value
                &&& flag != Flag::Bind ==> after.bind_addr == options.bind_addr
            }
        }),
{
}

/// The arguments are read from left to right. The end of them leaves the options as they
/// are. A request for help ends the reading. An option takes the argument behind it as
/// its value, and it is an error if there is none, or if the value is wrong. Any other
/// argument is passed over.
pub proof fn law_arguments_are_read_from_left_to_right(
    args: Seq<Seq<char>>,
    i: int,
    options: CliOptionsView,
    flag: Flag,
)
    requires
        0 <= i,
    ensures
        i >= args.len() ==> read_from(args, i, options) == Ok::<_, CliErrorView>(Some(options)),
        i < args.len() && (args[i] == "--help"@ || args[i] == "-h"@) ==> read_from(args, i, options)
            == Ok::<Option<CliOptionsView>, CliErrorView>(None),
        i + 1 == args.len() && args[i] == flag.name_spec() ==> read_from(args, i, options) == Err::<
            Option<CliOptionsView>,
            _,
        >(CliErrorView::MissingValue(flag)),
        i + 1 < args.len() && args[i] == flag.name_spec() ==> match options.with(
            flag,
            args[i + 1],
            lowercase(args[i + 1]),
        ) {
            Ok(next) => read_from(args, i, options) == read_from(args, i + 2, next),
            Err(e) => read_from(args, i, options) == Err::<Option<CliOptionsView>, _>(e),
        },
        i < args.len() && args[i] != "--help"@ && args[i] != "-h"@ && (forall|f: Flag|
            args[i] != #[trigger] f.name_spec()) ==> read_from(args, i, options) == read_from(
            args,
            i + 1,
            options,
        ),
{
    lemma_names_differ();
    if i < args.len() && (forall|f: Flag| args[i] != #[trigger] f.name_spec()) {
        assert(args[i] != Flag::HttpWorkers.name_spec());
        assert(args[i] != Flag::BatchWindowMs.name_spec());
        assert(args[i] != Flag::MaxBatchSize.name_spec());
        assert(args[i] != Flag::IdleCommitThresholdUs.name_spec());
        assert(args[i] != Flag::SyncMode.name_spec());
        assert(args[i] != Flag::DataDir.name_spec());
        assert(args[i] != Flag::Bind.name_spec());
    }
    law_options_have_names(args[i], flag);
}

/// Without options the server commits at once, in batches of at most 64 callers within
/// two milliseconds, syncs in the standard way, keeps its data where it was started, and
/// listens on port 8080 of this machine.
pub proof fn law_defaults(default_workers: usize)
    ensures
        ({
            let options = CliOptionsView::defaults(default_workers);
            &&& options.http_workers == default_workers
            &&& options.batch_window_ms == 2
            &&& options.max_batch_size == 64
            &&& options.idle_commit_threshold_us == 0
            &&& options.sync_mode == SyncMode::Standard
            &&& options.data_dir is None
            &&& options.bind_addr == "127.0.0.1:8080"@
        }),
{
}

/// A missing value is reported with the name of its option, and a sync mode that does
/// not exist with its own name. A value that is not a number is reported by nothing but
/// the error itself.
pub proof fn law_errors_are_reported(e: CliError)
    ensures
        match e@ {
            CliErrorView::MissingValue(flag) => e.message_spec() == Some(
                "Error: missing value for "@ + flag.name_spec(),
            ),
            CliErrorView::InvalidNumber(_) => e.message_spec() is None,
            CliErrorView::UnknownSyncMode(mode) => e.message_spec() == Some(
                "Error: unknown sync mode '"@ + mode + "'. Valid values: standard, full"@,
            ),
        },
{
}

/// The text on how the program is used names every option with its default, and the
/// number of threads that this machine has as the default of the first.
pub proof fn law_usage_names_the_defaults(default_workers: usize)
    ensures
        usage_text(default_workers)
            == "Usage: nesso [OPTIONS]\nOptions:\n  --http-workers <N>              Tokio runtime HTTP worker threads (default: available CPU cores, "@
            + decimal(default_workers as nat)
            + ")\n  --batch-window-ms <N>           Group commit batch window in milliseconds (default: 2)\n  --max-batch-size <N>            Group commit maximum batch size (default: 64)\n  --idle-commit-threshold-us <N>  Adaptive early commit idle threshold in microseconds (default: 0)\n  --sync-mode <standard|full>     Durability sync mode (default: standard [POSIX fsync])\n  --data-dir <PATH>               Directory for queue data (default: ./nesso_data)\n  --bind <ADDR>                   Address to bind to (default: 127.0.0.1:8080)\n"@,
{
}

/// The arguments are taken as they are, each as one text, in their order.
pub proof fn law_arguments_are_taken_as_they_are(args: Seq<String>, i: int)
    requires
        0 <= i < args.len(),
    ensures
        texts(args).len() == args.len(),
        texts(args)[i] == args[i]@,
{
}

} // verus!
