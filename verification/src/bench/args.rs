//! The command line of the benchmark.
use vstd::prelude::*;

use crate::text::{
    decimal, parse_number, parsed_number, same_text, to_chars, written_number_is_read_back,
};

verus! {

/// How a benchmark is to be run.
#[derive(Debug)]
pub struct BenchmarkArgs {
    /// The directory to scan.
    pub path: String,
    pub runs: usize,
    /// Whether caches are cleared before each run.
    pub cold_cache: bool,
    /// How many thumbnails to make at most; zero means all.
    pub thumb_limit: usize,
    /// How long to wait for a thumbnail; zero means for ever.
    pub thumb_timeout_ms: u64,
    pub thumb_workers: usize,
    /// How many thumbnails count as visible at first.
    pub thumb_visible_count: usize,
    pub thumb_fast_resize: bool,
    pub thumb_nv_offload: bool,
    pub gpu_telemetry: bool,
    pub gpu_sample_ms: u64,
}

/// An option that takes a value.
#[derive(Clone, Copy, PartialEq, Eq, Structural, Debug)]
pub enum ValueFlag {
    Path,
    Runs,
    ThumbLimit,
    ThumbTimeoutMs,
    ThumbWorkers,
    ThumbVisibleCount,
    GpuSampleMs,
}

/// Why a command line is not accepted.
#[derive(Clone, Copy, PartialEq, Eq, Structural, Debug)]
pub enum ArgsError {
    MissingValue(ValueFlag),
    BadNumber(ValueFlag),
    ZeroRuns,
    ZeroSampleMs,
    ZeroWorkers,
    NoPath,
}

impl ArgsError {
    /// The message for the user.
    pub fn message(self) -> (r: &'static str)
        ensures
            r@ == error_message(self),
    {
        match self {
            ArgsError::MissingValue(ValueFlag::Path) => "Missing value for --path in benchmark mode",
            ArgsError::MissingValue(ValueFlag::Runs) => "Missing value for --runs in benchmark mode",
            ArgsError::MissingValue(ValueFlag::ThumbLimit) =>
            "Missing value for --thumb-limit in benchmark mode",
            ArgsError::MissingValue(ValueFlag::ThumbTimeoutMs) =>
            "Missing value for --thumb-timeout-ms in benchmark mode",
            ArgsError::MissingValue(ValueFlag::ThumbWorkers) =>
            "Missing value for --thumb-workers in benchmark mode",
            ArgsError::MissingValue(ValueFlag::ThumbVisibleCount) =>
            "Missing value for --thumb-visible-count in benchmark mode",
            ArgsError::MissingValue(ValueFlag::GpuSampleMs) =>
            "Missing value for --gpu-sample-ms in benchmark mode",
            ArgsError::BadNumber(ValueFlag::Path) | ArgsError::NoPath =>
            "Benchmark mode requires --path <directory> (or positional path)",
            ArgsError::BadNumber(ValueFlag::Runs) =>
            "Failed to parse --runs as a positive integer",
            ArgsError::BadNumber(ValueFlag::ThumbLimit) =>
            "Failed to parse --thumb-limit as a non-negative integer",
            ArgsError::BadNumber(ValueFlag::ThumbTimeoutMs) =>
            "Failed to parse --thumb-timeout-ms as a non-negative integer",
            ArgsError::BadNumber(ValueFlag::ThumbWorkers) =>
            "Failed to parse --thumb-workers as a positive integer",
            ArgsError::BadNumber(ValueFlag::ThumbVisibleCount) =>
            "Failed to parse --thumb-visible-count as a non-negative integer",
            ArgsError::BadNumber(ValueFlag::GpuSampleMs) =>
            "Failed to parse --gpu-sample-ms as a positive integer",
            ArgsError::ZeroRuns => "--runs must be greater than 0",
            ArgsError::ZeroSampleMs => "--gpu-sample-ms must be greater than 0",
            ArgsError::ZeroWorkers => "--thumb-workers must be greater than 0",
        }
    }
}

/// The message for each way in which a command line is not accepted.
pub open spec fn error_message(e: ArgsError) -> Seq<char> {
    match e {
        ArgsError::MissingValue(ValueFlag::Path) => "Missing value for --path in benchmark mode"@,
        ArgsError::MissingValue(ValueFlag::Runs) => "Missing value for --runs in benchmark mode"@,
        ArgsError::MissingValue(ValueFlag::ThumbLimit) =>
        "Missing value for --thumb-limit in benchmark mode"@,
        ArgsError::MissingValue(ValueFlag::ThumbTimeoutMs) =>
        "Missing value for --thumb-timeout-ms in benchmark mode"@,
        ArgsError::MissingValue(ValueFlag::ThumbWorkers) =>
        "Missing value for --thumb-workers in benchmark mode"@,
        ArgsError::MissingValue(ValueFlag::ThumbVisibleCount) =>
        "Missing value for --thumb-visible-count in benchmark mode"@,
        ArgsError::MissingValue(ValueFlag::GpuSampleMs) =>
        "Missing value for --gpu-sample-ms in benchmark mode"@,
        ArgsError::BadNumber(ValueFlag::Path) | ArgsError::NoPath =>
        "Benchmark mode requires --path <directory> (or positional path)"@,
        ArgsError::BadNumber(ValueFlag::Runs) => "Failed to parse --runs as a positive integer"@,
        ArgsError::BadNumber(ValueFlag::ThumbLimit) =>
        "Failed to parse --thumb-limit as a non-negative integer"@,
        ArgsError::BadNumber(ValueFlag::ThumbTimeoutMs) =>
        "Failed to parse --thumb-timeout-ms as a non-negative integer"@,
        ArgsError::BadNumber(ValueFlag::ThumbWorkers) =>
        "Failed to parse --thumb-workers as a positive integer"@,
        ArgsError::BadNumber(ValueFlag::ThumbVisibleCount) =>
        "Failed to parse --thumb-visible-count as a non-negative integer"@,
        ArgsError::BadNumber(ValueFlag::GpuSampleMs) =>
        "Failed to parse --gpu-sample-ms as a positive integer"@,
        ArgsError::ZeroRuns => "--runs must be greater than 0"@,
        ArgsError::ZeroSampleMs => "--gpu-sample-ms must be greater than 0"@,
        ArgsError::ZeroWorkers => "--thumb-workers must be greater than 0"@,
    }
}

/// What a command line has said so far.
pub struct Settings {
    pub benchmark: bool,
    pub path: Option<Seq<char>>,
    pub runs: nat,
    pub cold_cache: bool,
    pub thumb_limit: nat,
    pub thumb_timeout_ms: nat,
    pub thumb_workers: nat,
    pub thumb_visible_count: nat,
    pub thumb_fast_resize: bool,
    pub thumb_nv_offload: bool,
    pub gpu_telemetry: bool,
    pub gpu_sample_ms: nat,
}

/// What holds where a command line says nothing.
pub open spec fn default_settings() -> Settings {
    Settings {
        benchmark: false,
        path: None,
        runs: 1,
        cold_cache: false,
        thumb_limit: 0,
        thumb_timeout_ms: 0,
        thumb_workers: 2,
        thumb_visible_count: 24,
        thumb_fast_resize: false,
        thumb_nv_offload: false,
        gpu_telemetry: false,
        gpu_sample_ms: 200,
    }
}

/// The option with a value that a word stands for.
pub open spec fn value_flag(word: Seq<char>) -> Option<ValueFlag> {
    if word == "--path"@ {
        Some(ValueFlag::Path)
    } else if word == "--runs"@ {
        Some(ValueFlag::Runs)
    } else if word == "--thumb-limit"@ {
        Some(ValueFlag::ThumbLimit)
    } else if word == "--thumb-timeout-ms"@ {
        Some(ValueFlag::ThumbTimeoutMs)
    } else if word == "--thumb-workers"@ {
        Some(ValueFlag::ThumbWorkers)
    } else if word == "--thumb-visible-count"@ {
        Some(ValueFlag::ThumbVisibleCount)
    } else if word == "--gpu-sample-ms"@ {
        Some(ValueFlag::GpuSampleMs)
    } else {
        None
    }
}

/// The greatest number that an option takes.
pub open spec fn flag_max(flag: ValueFlag) -> nat {
    match flag {
        ValueFlag::ThumbTimeoutMs | ValueFlag::GpuSampleMs => u64::MAX as nat,
        _ => usize::MAX as nat,
    }
}

/// The settings with the value of one option filled in.
pub open spec fn with_value(s: Settings, flag: ValueFlag, value: Seq<char>) -> Result<
    Settings,
    ArgsError,
> {
    match flag {
        ValueFlag::Path => Ok(Settings { path: Some(value), ..s }),
        _ => match parsed_number(value, flag_max(flag)) {
            None => Err(ArgsError::BadNumber(flag)),
            Some(n) => Ok(
                match flag {
                    ValueFlag::Runs => Settings { runs: n, ..s },
                    ValueFlag::ThumbLimit => Settings { thumb_limit: n, ..s },
                    ValueFlag::ThumbTimeoutMs => Settings { thumb_timeout_ms: n, ..s },
                    ValueFlag::ThumbWorkers => Settings { thumb_workers: n, ..s },
                    ValueFlag::ThumbVisibleCount => Settings { thumb_visible_count: n, ..s },
                    _ => Settings { gpu_sample_ms: n, ..s },
                },
            ),
        },
    }
}

/// The settings after a word that takes no value. A word that is no option and
/// does not look like one is the directory, once benchmark mode is on and as
/// long as no directory is known.
pub open spec fn with_word(s: Settings, word: Seq<char>) -> Settings {
    if word == "--benchmark"@ {
        Settings { benchmark: true, ..s }
    } else if word == "--thumb-fast-resize"@ {
        Settings { thumb_fast_resize: true, ..s }
    } else if word == "--thumb-nv-offload"@ {
        Settings { thumb_nv_offload: true, ..s }
    } else if word == "--gpu-telemetry"@ {
        Settings { gpu_telemetry: true, ..s }
    } else if word == "--cold-cache"@ {
        Settings { cold_cache: true, ..s }
    } else if s.benchmark && s.path is None && !(word.len() > 0 && word[0] == '-') {
        Settings { path: Some(word), ..s }
    } else {
        s
    }
}

/// The settings after all words from `i` on.
pub open spec fn settings_from(words: Seq<Seq<char>>, i: int, s: Settings) -> Result<
    Settings,
    ArgsError,
>
    decreases words.len() - i,
{
    if i < 0 || i >= words.len() {
        Ok(s)
    } else {
        match value_flag(words[i]) {
            None => settings_from(words, i + 1, with_word(s, words[i])),
            Some(flag) => if i + 1 >= words.len() {
                Err(ArgsError::MissingValue(flag))
            } else {
                match with_value(s, flag, words[i + 1]) {
                    Ok(next) => settings_from(words, i + 2, next),
                    Err(e) => Err(e),
                }
            },
        }
    }
}

/// What a whole command line asks for: a benchmark, or none.
pub open spec fn parsed_args(words: Seq<Seq<char>>) -> Result<Option<Settings>, ArgsError> {
    match settings_from(words, 0, default_settings()) {
        Err(e) => Err(e),
        Ok(s) => if !s.benchmark {
            Ok(None)
        } else if s.runs == 0 {
            Err(ArgsError::ZeroRuns)
        } else if s.gpu_sample_ms == 0 {
            Err(ArgsError::ZeroSampleMs)
        } else if s.thumb_workers == 0 {
            Err(ArgsError::ZeroWorkers)
        } else if s.path is None {
            Err(ArgsError::NoPath)
        } else {
            Ok(Some(s))
        },
    }
}

/// The words of a command line as character sequences.
pub open spec fn words_view(words: Seq<String>) -> Seq<Seq<char>> {
    Seq::new(words.len(), |i: int| words[i]@)
}

struct Parsed {
    benchmark: bool,
    path: Option<String>,
    runs: usize,
    cold_cache: bool,
    thumb_limit: usize,
    thumb_timeout_ms: u64,
    thumb_workers: usize,
    thumb_visible_count: usize,
    thumb_fast_resize: bool,
    thumb_nv_offload: bool,
    gpu_telemetry: bool,
    gpu_sample_ms: u64,
}

impl Parsed {
    spec fn settings(self) -> Settings {
        Settings {
            benchmark: self.benchmark,
            path: match self.path {
                Some(p) => Some(p@),
                None => None,
            },
            runs: self.runs as nat,
            cold_cache: self.cold_cache,
            thumb_limit: self.thumb_limit as nat,
            thumb_timeout_ms: self.thumb_timeout_ms as nat,
            thumb_workers: self.thumb_workers as nat,
            thumb_visible_count: self.thumb_visible_count as nat,
            thumb_fast_resize: self.thumb_fast_resize,
            thumb_nv_offload: self.thumb_nv_offload,
            gpu_telemetry: self.gpu_telemetry,
            gpu_sample_ms: self.gpu_sample_ms as nat,
        }
    }

    fn set_value(&mut self, flag: ValueFlag, value: &String) -> (r: Result<(), ArgsError>)
        ensures
            match r {
                Ok(_) => with_value(old(self).settings(), flag, value@) == Ok::<_, ArgsError>(
                    final(self).settings(),
                ),
                Err(e) => with_value(old(self).settings(), flag, value@) == Err::<Settings, _>(e),
            },
    {
        if flag == ValueFlag::Path {
            self.path = Some(value.clone());
            return Ok(());
        }
        let max: u64 = if flag == ValueFlag::ThumbTimeoutMs || flag == ValueFlag::GpuSampleMs {
            u64::MAX
        } else {
            usize::MAX as u64
        };
        let n: u64 = match parse_number(value, max) {
            Some(n) => n,
            None => return Err(ArgsError::BadNumber(flag)),
        };
        match flag {
            ValueFlag::Path => {},
            ValueFlag::Runs => {
                self.runs = n as usize;
            },
            ValueFlag::ThumbLimit => {
                self.thumb_limit = n as usize;
            },
            ValueFlag::ThumbTimeoutMs => {
                self.thumb_timeout_ms = n;
            },
            ValueFlag::ThumbWorkers => {
                self.thumb_workers = n as usize;
            },
            ValueFlag::ThumbVisibleCount => {
                self.thumb_visible_count = n as usize;
            },
            ValueFlag::GpuSampleMs => {
                self.gpu_sample_ms = n;
            },
        }
        Ok(())
    }

    fn set_word(&mut self, word: &String)
        ensures
            final(self).settings() == with_word(old(self).settings(), word@),
    {
        if same_text(word, "--benchmark") {
            self.benchmark = true;
        } else if same_text(word, "--thumb-fast-resize") {
            self.thumb_fast_resize = true;
        } else if same_text(word, "--thumb-nv-offload") {
            self.thumb_nv_offload = true;
        } else if same_text(word, "--gpu-telemetry") {
            self.gpu_telemetry = true;
        } else if same_text(word, "--cold-cache") {
            self.cold_cache = true;
        } else if self.benchmark && self.path.is_none() {
            let chars = to_chars(word);
            if !(chars.len() > 0 && chars[0] == '-') {
                self.path = Some(word.clone());
            }
        }
    }
}

fn find_value_flag(word: &str) -> (r: Option<ValueFlag>)
    ensures
        r == value_flag(word@),
{
    if same_text(word, "--path") {
        Some(ValueFlag::Path)
    } else if same_text(word, "--runs") {
        Some(ValueFlag::Runs)
    } else if same_text(word, "--thumb-limit") {
        Some(ValueFlag::ThumbLimit)
    } else if same_text(word, "--thumb-timeout-ms") {
        Some(ValueFlag::ThumbTimeoutMs)
    } else if same_text(word, "--thumb-workers") {
        Some(ValueFlag::ThumbWorkers)
    } else if same_text(word, "--thumb-visible-count") {
        Some(ValueFlag::ThumbVisibleCount)
    } else if same_text(word, "--gpu-sample-ms") {
        Some(ValueFlag::GpuSampleMs)
    } else {
        None
    }
}

impl BenchmarkArgs {
    /// The arguments as the settings of a command line in benchmark mode.
    pub open spec fn settings(self) -> Settings {
        Settings {
            benchmark: true,
            path: Some(self.path@),
            runs: self.runs as nat,
            cold_cache: self.cold_cache,
            thumb_limit: self.thumb_limit as nat,
            thumb_timeout_ms: self.thumb_timeout_ms as nat,
            thumb_workers: self.thumb_workers as nat,
            thumb_visible_count: self.thumb_visible_count as nat,
            thumb_fast_resize: self.thumb_fast_resize,
            thumb_nv_offload: self.thumb_nv_offload,
            gpu_telemetry: self.gpu_telemetry,
            gpu_sample_ms: self.gpu_sample_ms as nat,
        }
    }
}

/// Reads a command line, without the name of the program: the arguments of a
/// benchmark, or nothing where none is asked for.
pub fn maybe_parse_args(words: &Vec<String>) -> (r: Result<Option<BenchmarkArgs>, ArgsError>)
    ensures
        match r {
            Ok(Some(a)) => parsed_args(words_view(words@)) == Ok::<_, ArgsError>(
                Some(a.settings()),
            ),
            Ok(None) => parsed_args(words_view(words@)) == Ok::<Option<Settings>, ArgsError>(None),
            Err(e) => parsed_args(words_view(words@)) == Err::<Option<Settings>, _>(e),
        },
{
    let mut s = Parsed {
        benchmark: false,
        path: None,
        runs: 1,
        cold_cache: false,
        thumb_limit: 0,
        thumb_timeout_ms: 0,
        thumb_workers: 2,
        thumb_visible_count: 24,
        thumb_fast_resize: false,
        thumb_nv_offload: false,
        gpu_telemetry: false,
        gpu_sample_ms: 200,
    };
    let ghost view = words_view(words@);
    let mut i: usize = 0;
    while i < words.len()
        invariant
            i <= words@.len(),
            view == words_view(words@),
            settings_from(view, i as int, s.settings()) == settings_from(
                view,
                0,
                default_settings(),
            ),
        decreases words@.len() - i,
    {
        assert(view[i as int] == words@[i as int]@);
        match find_value_flag(&words[i]) {
            None => {
                s.set_word(&words[i]);
                i = i + 1;
            },
            Some(flag) => {
                if words.len() - i < 2 {
                    return Err(ArgsError::MissingValue(flag));
                }
                assert(view[i + 1] == words@[i + 1]@);
                match s.set_value(flag, &words[i + 1]) {
                    Ok(_) => {},
                    Err(e) => return Err(e),
                }
                i = i + 2;
            },
        }
    }
    if !s.benchmark {
        return Ok(None);
    }
    if s.runs == 0 {
        return Err(ArgsError::ZeroRuns);
    }
    if s.gpu_sample_ms == 0 {
        return Err(ArgsError::ZeroSampleMs);
    }
    if s.thumb_workers == 0 {
        return Err(ArgsError::ZeroWorkers);
    }
    match s.path {
        None => Err(ArgsError::NoPath),
        Some(path) => Ok(
            Some(
                BenchmarkArgs {
                    path,
                    runs: s.runs,
                    cold_cache: s.cold_cache,
                    thumb_limit: s.thumb_limit,
                    thumb_timeout_ms: s.thumb_timeout_ms,
                    thumb_workers: s.thumb_workers,
                    thumb_visible_count: s.thumb_visible_count,
                    thumb_fast_resize: s.thumb_fast_resize,
                    thumb_nv_offload: s.thumb_nv_offload,
                    gpu_telemetry: s.gpu_telemetry,
                    gpu_sample_ms: s.gpu_sample_ms,
                },
            ),
        ),
    }
}

/// Accepted arguments can be run: at least one run, one worker, and a sampling
/// interval that is not zero.
pub proof fn accepted_args_are_positive(words: Seq<Seq<char>>)
    ensures
        parsed_args(words) matches Ok(Some(s)) ==> s.benchmark && s.runs > 0 && s.thumb_workers > 0
            && s.gpu_sample_ms > 0 && s.path is Some,
{
}

/// The word for each option that takes a value.
pub open spec fn flag_word(flag: ValueFlag) -> Seq<char> {
    match flag {
        ValueFlag::Path => "--path"@,
        ValueFlag::Runs => "--runs"@,
        ValueFlag::ThumbLimit => "--thumb-limit"@,
        ValueFlag::ThumbTimeoutMs => "--thumb-timeout-ms"@,
        ValueFlag::ThumbWorkers => "--thumb-workers"@,
        ValueFlag::ThumbVisibleCount => "--thumb-visible-count"@,
        ValueFlag::GpuSampleMs => "--gpu-sample-ms"@,
    }
}

/// Each option is asked for by its own word, and by no other.
pub proof fn options_have_their_words(flag: ValueFlag, word: Seq<char>)
    ensures
        value_flag(word) == Some(flag) <==> word == flag_word(flag),
{
    reveal_strlit("--path");
    reveal_strlit("--runs");
    reveal_strlit("--thumb-limit");
    reveal_strlit("--thumb-timeout-ms");
    reveal_strlit("--thumb-workers");
    reveal_strlit("--thumb-visible-count");
    reveal_strlit("--gpu-sample-ms");
    assert("--path"@[2] == 'p');
    assert("--runs"@[2] == 'r');
    assert("--gpu-sample-ms"@[2] == 'g');
    assert("--thumb-limit"@[8] == 'l');
    assert("--thumb-timeout-ms"@[8] == 't');
    assert("--thumb-workers"@[8] == 'w');
    assert("--thumb-visible-count"@[8] == 'v');
}

/// A number that is written behind an option becomes the value of that option, and no
/// other setting changes.
pub proof fn number_sets_its_option(s: Settings, flag: ValueFlag, n: nat)
    requires
        flag != ValueFlag::Path,
        n <= flag_max(flag),
    ensures
        with_value(s, flag, decimal(n)) matches Ok(t) && {
            &&& t.runs == if flag == ValueFlag::Runs { n } else { s.runs }
            &&& t.thumb_limit == if flag == ValueFlag::ThumbLimit { n } else { s.thumb_limit }
            &&& t.thumb_timeout_ms == if flag == ValueFlag::ThumbTimeoutMs { n } else { s.thumb_timeout_ms }
            &&& t.thumb_workers == if flag == ValueFlag::ThumbWorkers { n } else { s.thumb_workers }
            &&& t.thumb_visible_count == if flag == ValueFlag::ThumbVisibleCount { n } else { s.thumb_visible_count }
            &&& t.gpu_sample_ms == if flag == ValueFlag::GpuSampleMs { n } else { s.gpu_sample_ms }
            &&& t.benchmark == s.benchmark
            &&& t.path == s.path
            &&& t.cold_cache == s.cold_cache
            &&& t.thumb_fast_resize == s.thumb_fast_resize
            &&& t.thumb_nv_offload == s.thumb_nv_offload
            &&& t.gpu_telemetry == s.gpu_telemetry
        },
{
    written_number_is_read_back(n, flag_max(flag));
}

/// A switch turns on what it names and changes nothing else.
pub proof fn switches_turn_on_what_they_name(s: Settings)
    ensures
        with_word(s, "--benchmark"@) == (Settings { benchmark: true, ..s }),
        with_word(s, "--thumb-fast-resize"@) == (Settings { thumb_fast_resize: true, ..s }),
        with_word(s, "--thumb-nv-offload"@) == (Settings { thumb_nv_offload: true, ..s }),
        with_word(s, "--gpu-telemetry"@) == (Settings { gpu_telemetry: true, ..s }),
        with_word(s, "--cold-cache"@) == (Settings { cold_cache: true, ..s }),
{
    reveal_strlit("--benchmark");
    reveal_strlit("--thumb-fast-resize");
    reveal_strlit("--thumb-nv-offload");
    reveal_strlit("--gpu-telemetry");
    reveal_strlit("--cold-cache");
    assert("--benchmark"@[2] == 'b');
    assert("--gpu-telemetry"@[2] == 'g');
    assert("--cold-cache"@[2] == 'c');
    assert("--thumb-fast-resize"@[2] == 't');
    assert("--thumb-nv-offload"@[2] == 't');
    assert("--thumb-fast-resize"@[8] == 'f');
    assert("--thumb-nv-offload"@[8] == 'n');
}

/// A command line that asks for a benchmark of a directory with one option gives the
/// directory and the option, and for the rest one run, all thumbnails, no time limit, two
/// workers, twenty-four visible thumbnails, two hundred milliseconds and no switch.
pub proof fn line_with_one_option_is_read(path: Seq<char>, flag: ValueFlag, n: nat)
    requires
        path.len() > 0 && path[0] != '-',
        flag != ValueFlag::Path,
        0 < n <= flag_max(flag),
    ensures
        parsed_args(seq!["--benchmark"@, path, flag_word(flag), decimal(n)]) matches Ok(Some(t)) && {
            &&& t.path == Some(path)
            &&& t.runs == if flag == ValueFlag::Runs { n } else { 1nat }
            &&& t.thumb_limit == if flag == ValueFlag::ThumbLimit { n } else { 0nat }
            &&& t.thumb_timeout_ms == if flag == ValueFlag::ThumbTimeoutMs { n } else { 0nat }
            &&& t.thumb_workers == if flag == ValueFlag::ThumbWorkers { n } else { 2nat }
            &&& t.thumb_visible_count == if flag == ValueFlag::ThumbVisibleCount { n } else { 24nat }
            &&& t.gpu_sample_ms == if flag == ValueFlag::GpuSampleMs { n } else { 200nat }
            &&& !t.cold_cache && !t.thumb_fast_resize && !t.thumb_nv_offload && !t.gpu_telemetry
        },
{
    reveal_strlit("--path");
    reveal_strlit("--runs");
    reveal_strlit("--thumb-limit");
    reveal_strlit("--thumb-timeout-ms");
    reveal_strlit("--thumb-workers");
    reveal_strlit("--thumb-visible-count");
    reveal_strlit("--gpu-sample-ms");
    reveal_strlit("--benchmark");
    reveal_strlit("--thumb-fast-resize");
    reveal_strlit("--thumb-nv-offload");
    reveal_strlit("--gpu-telemetry");
    reveal_strlit("--cold-cache");
    assert("--benchmark"@[2] == 'b');
    let words = seq!["--benchmark"@, path, flag_word(flag), decimal(n)];
    options_have_their_words(ValueFlag::Path, "--benchmark"@);
    options_have_their_words(flag, flag_word(flag));
    assert(value_flag("--benchmark"@) is None) by {
        assert("--path"@[2] == 'p');
        assert("--runs"@[2] == 'r');
        assert("--gpu-sample-ms"@[2] == 'g');
        assert("--thumb-limit"@[2] == 't');
        assert("--thumb-timeout-ms"@[2] == 't');
        assert("--thumb-workers"@[2] == 't');
        assert("--thumb-visible-count"@[2] == 't');
    }
    assert(value_flag(path) is None);
    let a = Settings { benchmark: true, ..default_settings() };
    let b = Settings { path: Some(path), ..a };
    assert(with_word(a, path) == b);
    number_sets_its_option(b, flag, n);
    let c = with_value(b, flag, decimal(n))->Ok_0;
    assert(settings_from(words, 4, c) == Ok::<Settings, ArgsError>(c));
    assert(settings_from(words, 2, b) == Ok::<Settings, ArgsError>(c));
    assert(settings_from(words, 1, a) == Ok::<Settings, ArgsError>(c));
    assert(settings_from(words, 0, default_settings()) == Ok::<Settings, ArgsError>(c));
}

/// A message names the option that it is about.
pub proof fn messages_name_their_options(flag: ValueFlag)
    ensures
        error_message(ArgsError::MissingValue(flag)) == "Missing value for "@ + flag_word(flag)
            + " in benchmark mode"@,
        flag != ValueFlag::Path ==> error_message(ArgsError::BadNumber(flag)) == "Failed to parse "@
            + flag_word(flag) + (if flag == ValueFlag::Runs || flag == ValueFlag::ThumbWorkers || flag
            == ValueFlag::GpuSampleMs {
            " as a positive integer"@
        } else {
            " as a non-negative integer"@
        }),
        error_message(ArgsError::ZeroRuns) == flag_word(ValueFlag::Runs) + " must be greater than 0"@,
        error_message(ArgsError::ZeroSampleMs) == flag_word(ValueFlag::GpuSampleMs)
            + " must be greater than 0"@,
        error_message(ArgsError::ZeroWorkers) == flag_word(ValueFlag::ThumbWorkers)
            + " must be greater than 0"@,
{
    reveal_strlit("--path");
    reveal_strlit("--runs");
    reveal_strlit("--thumb-limit");
    reveal_strlit("--thumb-timeout-ms");
    reveal_strlit("--thumb-workers");
    reveal_strlit("--thumb-visible-count");
    reveal_strlit("--gpu-sample-ms");
    reveal_strlit("Missing value for ");
    reveal_strlit(" in benchmark mode");
    reveal_strlit("Failed to parse ");
    reveal_strlit(" as a positive integer");
    reveal_strlit(" as a non-negative integer");
    reveal_strlit(" must be greater than 0");
    reveal_strlit("Missing value for --path in benchmark mode");
    reveal_strlit("Missing value for --runs in benchmark mode");
    reveal_strlit("Missing value for --thumb-limit in benchmark mode");
    reveal_strlit("Missing value for --thumb-timeout-ms in benchmark mode");
    reveal_strlit("Missing value for --thumb-workers in benchmark mode");
    reveal_strlit("Missing value for --thumb-visible-count in benchmark mode");
    reveal_strlit("Missing value for --gpu-sample-ms in benchmark mode");
    reveal_strlit("Failed to parse --runs as a positive integer");
    reveal_strlit("Failed to parse --thumb-limit as a non-negative integer");
    reveal_strlit("Failed to parse --thumb-timeout-ms as a non-negative integer");
    reveal_strlit("Failed to parse --thumb-workers as a positive integer");
    reveal_strlit("Failed to parse --thumb-visible-count as a non-negative integer");
    reveal_strlit("Failed to parse --gpu-sample-ms as a positive integer");
    reveal_strlit("--runs must be greater than 0");
    reveal_strlit("--thumb-workers must be greater than 0");
    reveal_strlit("--gpu-sample-ms must be greater than 0");
    assert(error_message(ArgsError::MissingValue(flag)) =~= "Missing value for "@ + flag_word(flag)
        + " in benchmark mode"@);
}

} // verus!
