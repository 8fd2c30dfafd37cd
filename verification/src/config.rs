//! Configuration: defaults, the INI file and the command line.
use vstd::prelude::*;

pub use crate::wildcard::wildcard_match;

use crate::text;
use crate::text::{
    decimal_string, find, from_chars, join, parse_u32, parse_u64, same_text, split_at, to_chars, trim,
    CharClass,
};

verus! {

/// The settings of the agent.
#[derive(Debug, Clone, PartialEq, Eq)]
pub struct Config {
    pub target_patterns: Vec<String>,
    pub output_path: String,
    pub sample_interval_secs: u64,
    pub discovery_interval_secs: u64,
    pub aggregation_interval_secs: u64,
    pub max_bytes: u64,
    pub max_files: u32,
}

/// What a `Config` says, as mathematical values.
#[verifier::ext_equal]
pub struct ConfigModel {
    pub target_patterns: Seq<Seq<char>>,
    pub output_path: Seq<char>,
    pub sample_interval_secs: nat,
    pub discovery_interval_secs: nat,
    pub aggregation_interval_secs: nat,
    pub max_bytes: nat,
    pub max_files: nat,
}

impl View for Config {
    type V = ConfigModel;

    open spec fn view(&self) -> ConfigModel {
        ConfigModel {
            target_patterns: text::texts(self.target_patterns@),
            output_path: self.output_path@,
            sample_interval_secs: self.sample_interval_secs as nat,
            discovery_interval_secs: self.discovery_interval_secs as nat,
            aggregation_interval_secs: self.aggregation_interval_secs as nat,
            max_bytes: self.max_bytes as nat,
            max_files: self.max_files as nat,
        }
    }
}

/// The settings that hold before any file or argument is read.
pub open spec fn default_config() -> ConfigModel {
    ConfigModel {
        target_patterns: Seq::empty(),
        output_path: "procpulse_metrics.csv"@,
        sample_interval_secs: 2,
        discovery_interval_secs: 6,
        aggregation_interval_secs: 60,
        max_bytes: 2_097_152,
        max_files: 5,
    }
}

impl Default for Config {
    fn default() -> (c: Self)
        ensures
            c@ == default_config(),
    {
        let c = Config {
            target_patterns: Vec::new(),
            output_path: "procpulse_metrics.csv".to_owned(),
            sample_interval_secs: 2,
            discovery_interval_secs: 6,
            aggregation_interval_secs: 60,
            max_bytes: 2_097_152,
            max_files: 5,
        };
        assert(c@ == default_config());
        c
    }
}

/// The things that can be set.
#[derive(Debug, Clone, Copy, PartialEq, Eq, Structural)]
pub enum Setting {
    Targets,
    Output,
    SampleInterval,
    DiscoveryInterval,
    AggregationInterval,
    MaxBytes,
    MaxSizeMb,
    MaxFiles,
}

/// The entry that a piece of a target list stands for: without white space and
/// then without quotation marks around it.
pub open spec fn target_item(piece: Seq<char>) -> Seq<char> {
    text::trimmed(text::trimmed(piece, CharClass::Whitespace), CharClass::Quote)
}

/// The entries of a target list, in order; empty ones do not count.
pub open spec fn target_items(list: Seq<char>) -> Seq<Seq<char>> {
    text::split(list, CharClass::ListSeparator).map_values(|p: Seq<char>| target_item(p)).filter(
        |item: Seq<char>| item.len() > 0,
    )
}

/// `n`, or one in place of zero.
pub open spec fn at_least_one(n: nat) -> nat {
    if n == 0 {
        1
    } else {
        n
    }
}

/// `n` mebibytes in bytes, or the largest number that a `u64` holds.
pub open spec fn mebibytes(n: nat) -> nat {
    if n * 1_048_576 <= u64::MAX {
        n * 1_048_576
    } else {
        u64::MAX as nat
    }
}

/// The configuration after `setting` got the value `value`; `None` where a
/// number is wanted and `value` is none.
pub open spec fn with_setting(c: ConfigModel, setting: Setting, value: Seq<char>) -> Option<
    ConfigModel,
> {
    let number = text::parsed(value, u64::MAX as nat);
    match setting {
        Setting::Targets => Some(ConfigModel { target_patterns: target_items(value), ..c }),
        Setting::Output => Some(ConfigModel { output_path: value, ..c }),
        Setting::SampleInterval => match number {
            Some(n) => Some(ConfigModel { sample_interval_secs: at_least_one(n), ..c }),
            None => None,
        },
        Setting::DiscoveryInterval => match number {
            Some(n) => Some(ConfigModel { discovery_interval_secs: at_least_one(n), ..c }),
            None => None,
        },
        Setting::AggregationInterval => match number {
            Some(n) => Some(ConfigModel { aggregation_interval_secs: at_least_one(n), ..c }),
            None => None,
        },
        Setting::MaxBytes => match number {
            Some(n) => Some(ConfigModel { max_bytes: n, ..c }),
            None => None,
        },
        Setting::MaxSizeMb => match number {
            Some(n) => Some(ConfigModel { max_bytes: mebibytes(n), ..c }),
            None => None,
        },
        Setting::MaxFiles => match text::parsed(value, u32::MAX as nat) {
            Some(n) => Some(ConfigModel { max_files: n, ..c }),
            None => None,
        },
    }
}

impl Config {
    /// Appends the entries of the target list `list`.
    pub fn add_targets(&mut self, list: &[char])
        ensures
            final(self)@ == (ConfigModel {
                target_patterns: old(self)@.target_patterns + target_items(list@),
                ..old(self)@
            }),
    {
        let parts: Vec<Vec<char>> = split_at(list, CharClass::ListSeparator);
        let ghost item_of = |p: Seq<char>| target_item(p);
        let ghost keep = |item: Seq<char>| item.len() > 0;
        let ghost all = text::split(list@, CharClass::ListSeparator).map_values(item_of);
        let ghost before = self@;
        let mut i: usize = 0;
        proof {
            reveal(Seq::filter);
            assert(all.take(0).filter(keep) == Seq::<Seq<char>>::empty());
            assert(before.target_patterns + all.take(0).filter(keep) == before.target_patterns);
        }
        while i < parts.len()
            invariant
                text::pieces(parts@) == text::split(list@, CharClass::ListSeparator),
                all == text::split(list@, CharClass::ListSeparator).map_values(item_of),
                item_of == (|p: Seq<char>| target_item(p)),
                keep == (|item: Seq<char>| item.len() > 0),
                i <= parts@.len() == all.len(),
                self@ == (ConfigModel {
                    target_patterns: before.target_patterns + all.take(i as int).filter(keep),
                    ..before
                }),
            decreases parts@.len() - i,
        {
            let item: &[char] = trim(trim(&parts[i], CharClass::Whitespace), CharClass::Quote);
            let ghost done = all.take(i as int);
            let ghost had = self.target_patterns@;
            proof {
                assert(text::pieces(parts@)[i as int] == parts@[i as int]@);
                assert(all[i as int] == item@);
                reveal(Seq::filter);
                assert(all.take(i + 1).drop_last() == done);
                assert(all.take(i + 1).last() == item@);
            }
            if item.len() > 0 {
                let entry: String = from_chars(item);
                self.target_patterns.push(entry);
                assert(text::texts(had.push(entry)) == text::texts(had).push(item@));
                assert(before.target_patterns + done.filter(keep).push(item@) == (
                before.target_patterns + done.filter(keep)).push(item@));
            }
            i = i + 1;
        }
        assert(all.take(i as int) == all);
    }

    /// Gives `setting` the value `value`. Tells whether the value was one that
    /// the setting can have; otherwise nothing changes.
    pub fn apply_setting(&mut self, setting: Setting, value: &[char]) -> (ok: bool)
        ensures
            ok == (with_setting(old(self)@, setting, value@) is Some),
            ok ==> with_setting(old(self)@, setting, value@) == Some(final(self)@),
            !ok ==> final(self)@ == old(self)@,
    {
        match setting {
            Setting::Targets => {
                self.target_patterns.clear();
                assert(text::texts(self.target_patterns@) == Seq::<Seq<char>>::empty());
                let ghost items = target_items(value@);
                assert(Seq::<Seq<char>>::empty() + items == items);
                self.add_targets(value);
                true
            },
            Setting::Output => {
                self.output_path = from_chars(value);
                true
            },
            Setting::SampleInterval => match parse_u64(value) {
                Some(n) => {
                    self.sample_interval_secs = if n == 0 {
                        1
                    } else {
                        n
                    };
                    true
                },
                None => false,
            },
            Setting::DiscoveryInterval => match parse_u64(value) {
                Some(n) => {
                    self.discovery_interval_secs = if n == 0 {
                        1
                    } else {
                        n
                    };
                    true
                },
                None => false,
            },
            Setting::AggregationInterval => match parse_u64(value) {
                Some(n) => {
                    self.aggregation_interval_secs = if n == 0 {
                        1
                    } else {
                        n
                    };
                    true
                },
                None => false,
            },
            Setting::MaxBytes => match parse_u64(value) {
                Some(n) => {
                    self.max_bytes = n;
                    true
                },
                None => false,
            },
            Setting::MaxSizeMb => match parse_u64(value) {
                Some(n) => {
                    self.max_bytes = match n.checked_mul(1_048_576) {
                        Some(bytes) => bytes,
                        None => u64::MAX,
                    };
                    true
                },
                None => false,
            },
            Setting::MaxFiles => match parse_u32(value) {
                Some(n) => {
                    self.max_files = n;
                    true
                },
                None => false,
            },
        }
    }
}

/// The setting that an INI key names, the key in lower case.
pub open spec fn setting_of_key(key: Seq<char>) -> Option<Setting> {
    if key == "target"@ || key == "targets"@ || key == "target_executable"@ || key
        == "executable"@ {
        Some(Setting::Targets)
    } else if key == "output"@ || key == "output_path"@ || key == "csv"@ {
        Some(Setting::Output)
    } else if key == "sample_interval_secs"@ || key == "sample_interval"@ {
        Some(Setting::SampleInterval)
    } else if key == "discovery_interval_secs"@ || key == "discovery_interval"@ {
        Some(Setting::DiscoveryInterval)
    } else if key == "aggregation_interval_secs"@ || key == "aggregation_interval"@ {
        Some(Setting::AggregationInterval)
    } else if key == "max_bytes"@ || key == "max_size_bytes"@ || key == "max_size"@ {
        Some(Setting::MaxBytes)
    } else if key == "max_size_mb"@ {
        Some(Setting::MaxSizeMb)
    } else if key == "max_files"@ || key == "max_backups"@ {
        Some(Setting::MaxFiles)
    } else {
        None
    }
}

/// Looks up the setting that an INI key in lower case names.
pub fn ini_setting(key: &str) -> (r: Option<Setting>)
    ensures
        r == setting_of_key(key@),
{
    if same_text(key, "target") || same_text(key, "targets") || same_text(key, "target_executable")
        || same_text(key, "executable") {
        Some(Setting::Targets)
    } else if same_text(key, "output") || same_text(key, "output_path") || same_text(key, "csv") {
        Some(Setting::Output)
    } else if same_text(key, "sample_interval_secs") || same_text(key, "sample_interval") {
        Some(Setting::SampleInterval)
    } else if same_text(key, "discovery_interval_secs") || same_text(key, "discovery_interval") {
        Some(Setting::DiscoveryInterval)
    } else if same_text(key, "aggregation_interval_secs") || same_text(
        key,
        "aggregation_interval",
    ) {
        Some(Setting::AggregationInterval)
    } else if same_text(key, "max_bytes") || same_text(key, "max_size_bytes") || same_text(
        key,
        "max_size",
    ) {
        Some(Setting::MaxBytes)
    } else if same_text(key, "max_size_mb") {
        Some(Setting::MaxSizeMb)
    } else if same_text(key, "max_files") || same_text(key, "max_backups") {
        Some(Setting::MaxFiles)
    } else {
        None
    }
}

/// `value` without a pair of quotation marks of the same kind around it.
pub open spec fn unquoted(value: Seq<char>) -> Seq<char> {
    if value.len() >= 2 && ((value[0] == '"' && value.last() == '"') || (value[0] == '\''
        && value.last() == '\'')) {
        value.subrange(1, value.len() - 1)
    } else {
        value
    }
}

/// Cuts off a pair of quotation marks of the same kind.
fn unquote<'a>(value: &'a [char]) -> (r: &'a [char])
    ensures
        r@ == unquoted(value@),
{
    let n: usize = value.len();
    if n >= 2 && ((value[0] == '"' && value[n - 1] == '"') || (value[0] == '\'' && value[n - 1]
        == '\'')) {
        vstd::slice::slice_subrange(value, 1, n - 1)
    } else {
        value
    }
}

/// The key and the value that an INI line holds, if it holds any: empty lines,
/// comments, section headings and lines without an equals sign hold none.
pub open spec fn ini_entry(raw: Seq<char>) -> Option<(Seq<char>, Seq<char>)> {
    let line = text::trimmed(raw, CharClass::Whitespace);
    let eq = text::find_from(line, CharClass::One('='), 0);
    if line.len() == 0 || line[0] == '#' || line[0] == ';' || line[0] == '[' || eq >= line.len() {
        None
    } else {
        Some(
            (
                text::trimmed(line.take(eq), CharClass::Whitespace),
                unquoted(text::trimmed(line.skip(eq + 1), CharClass::Whitespace)),
            ),
        )
    }
}

/// Takes an INI line apart.
pub fn split_ini_line(raw: &[char]) -> (r: Option<(String, Vec<char>)>)
    ensures
        match r {
            Some((key, value)) => ini_entry(raw@) == Some((key@, value@)),
            None => ini_entry(raw@) is None,
        },
{
    let line: &[char] = trim(raw, CharClass::Whitespace);
    if line.len() == 0 || line[0] == '#' || line[0] == ';' || line[0] == '[' {
        return None;
    }
    let eq: usize = find(line, CharClass::One('='), 0);
    if eq >= line.len() {
        return None;
    }
    let key: &[char] = trim(vstd::slice::slice_subrange(line, 0, eq), CharClass::Whitespace);
    let after: &[char] = vstd::slice::slice_subrange(line, eq + 1, line.len());
    let value: &[char] = unquote(trim(after, CharClass::Whitespace));
    assert(line@.subrange(0, eq as int) == line@.take(eq as int));
    assert(line@.subrange(eq + 1, line@.len() as int) == line@.skip(eq + 1));
    Some((from_chars(key), vstd::slice::slice_to_vec(value)))
}

/// What an INI entry, its key in lower case, makes of a configuration; `Err`
/// names the setting whose value is no number. Unknown keys change nothing.
pub open spec fn with_entry(c: ConfigModel, key: Seq<char>, value: Seq<char>) -> Result<
    ConfigModel,
    Setting,
> {
    match setting_of_key(key) {
        None => Ok(c),
        Some(setting) => match with_setting(c, setting, value) {
            Some(next) => Ok(next),
            None => Err(setting),
        },
    }
}

/// What a line of an INI file makes of a configuration.
pub open spec fn with_ini_line(c: ConfigModel, raw: Seq<char>) -> Result<ConfigModel, Setting> {
    match ini_entry(raw) {
        None => Ok(c),
        Some((key, value)) => with_entry(c, text::lowercase(key), value),
    }
}

/// How an error message names a setting of an INI file.
pub open spec fn ini_name(setting: Setting) -> Seq<char> {
    match setting {
        Setting::Targets => "target"@,
        Setting::Output => "output"@,
        Setting::SampleInterval => "sample_interval_secs"@,
        Setting::DiscoveryInterval => "discovery_interval_secs"@,
        Setting::AggregationInterval => "aggregation_interval_secs"@,
        Setting::MaxBytes => "max_bytes"@,
        Setting::MaxSizeMb => "max_size_mb"@,
        Setting::MaxFiles => "max_files"@,
    }
}

/// The message for a value that is no number, on the line with number `line`.
pub open spec fn ini_error(setting: Setting, line: nat) -> Seq<char> {
    "Invalid "@ + ini_name(setting) + " at line "@ + text::decimal(line)
}

/// The configuration after the lines from `from` on, and the message of the
/// first error, which ends the reading. Lines are counted from one.
pub open spec fn with_ini_lines(c: ConfigModel, lines: Seq<Seq<char>>, from: int) -> (
    ConfigModel,
    Option<Seq<char>>,
)
    decreases lines.len() - from,
{
    if from >= lines.len() {
        (c, None)
    } else {
        match with_ini_line(c, lines[from]) {
            Ok(next) => with_ini_lines(next, lines, from + 1),
            Err(setting) => (c, Some(ini_error(setting, (from + 1) as nat))),
        }
    }
}

/// What the INI text `content` makes of a configuration. A carriage return
/// before a line feed is white space at the end of its line.
pub open spec fn with_ini(c: ConfigModel, content: Seq<char>) -> (ConfigModel, Option<Seq<char>>) {
    with_ini_lines(c, text::split(content, CharClass::One('\n')), 0)
}

impl Setting {
    /// The name of the setting in messages about an INI file.
    pub fn ini_key(&self) -> (name: &'static str)
        ensures
            name@ == ini_name(*self),
    {
        match *self {
            Setting::Targets => "target",
            Setting::Output => "output",
            Setting::SampleInterval => "sample_interval_secs",
            Setting::DiscoveryInterval => "discovery_interval_secs",
            Setting::AggregationInterval => "aggregation_interval_secs",
            Setting::MaxBytes => "max_bytes",
            Setting::MaxSizeMb => "max_size_mb",
            Setting::MaxFiles => "max_files",
        }
    }
}

impl Config {
    /// Applies an INI entry whose key is already in lower case.
    pub fn apply_entry(&mut self, key: &str, value: &[char]) -> (r: Result<(), Setting>)
        ensures
            match r {
                Ok(()) => with_entry(old(self)@, key@, value@) == Ok::<ConfigModel, Setting>(
                    final(self)@,
                ),
                Err(setting) => final(self)@ == old(self)@ && with_entry(old(self)@, key@, value@)
                    == Err::<ConfigModel, Setting>(setting),
            },
    {
        match ini_setting(key) {
            None => Ok(()),
            Some(setting) => if self.apply_setting(setting, value) {
                Ok(())
            } else {
                Err(setting)
            },
        }
    }

    /// Reads settings from the text of an INI file. Keys are not case-sensitive
    /// and unknown ones are ignored; the first value that should be a number and
    /// is none ends the reading.
    pub fn parse_ini_content(&mut self, content: &str) -> (r: Result<(), String>)
        ensures
            final(self)@ == with_ini(old(self)@, content@).0,
            match r {
                Ok(()) => with_ini(old(self)@, content@).1 is None,
                Err(message) => with_ini(old(self)@, content@).1 == Some(message@),
            },
    {
        let chars: Vec<char> = to_chars(content);
        let lines: Vec<Vec<char>> = split_at(&chars, CharClass::One('\n'));
        let ghost all = text::split(content@, CharClass::One('\n'));
        let ghost before = self@;
        let mut i: usize = 0;
        while i < lines.len()
            invariant
                before == old(self)@,
                all == text::split(content@, CharClass::One('\n')),
                text::pieces(lines@) == all,
                i <= lines@.len() == all.len(),
                with_ini(before, content@) == with_ini_lines(self@, all, i as int),
            decreases lines@.len() - i,
        {
            assert(all[i as int] == text::pieces(lines@)[i as int]);
            if let Some((key, value)) = split_ini_line(&lines[i]) {
                let lowered: String = key.as_str().to_lowercase();
                if let Err(setting) = self.apply_entry(lowered.as_str(), &value) {
                    let mut message: String = "Invalid ".to_owned();
                    message.append(setting.ini_key());
                    message.append(" at line ");
                    message.append(decimal_string(i as u64 + 1).as_str());
                    return Err(message);
                }
            }
            i = i + 1;
        }
        Ok(())
    }
}

/// The options of the command line that take a value.
#[derive(Debug, Clone, Copy, PartialEq, Eq, Structural)]
pub enum CliOption {
    Target,
    Output,
    SampleInterval,
    FlushInterval,
    MaxBytes,
    MaxSizeMb,
    MaxFiles,
}

/// The kinds of command-line arguments.
#[derive(Debug, Clone, Copy, PartialEq, Eq, Structural)]
pub enum CliArg {
    Help,
    Valued(CliOption),
    Unknown,
    Positional,
}

/// What kind of argument `arg` is.
pub open spec fn cli_arg(arg: Seq<char>) -> CliArg {
    if arg == "-h"@ || arg == "--help"@ {
        CliArg::Help
    } else if arg == "--target"@ {
        CliArg::Valued(CliOption::Target)
    } else if arg == "--output"@ {
        CliArg::Valued(CliOption::Output)
    } else if arg == "--sample-interval"@ {
        CliArg::Valued(CliOption::SampleInterval)
    } else if arg == "--flush-interval"@ || arg == "--aggregation-interval"@ {
        CliArg::Valued(CliOption::FlushInterval)
    } else if arg == "--max-bytes"@ || arg == "--max-size-bytes"@ || arg == "--max-size"@ {
        CliArg::Valued(CliOption::MaxBytes)
    } else if arg == "--max-size-mb"@ {
        CliArg::Valued(CliOption::MaxSizeMb)
    } else if arg == "--max-files"@ || arg == "--max-backups"@ {
        CliArg::Valued(CliOption::MaxFiles)
    } else if arg.len() > 0 && arg[0] == '-' {
        CliArg::Unknown
    } else {
        CliArg::Positional
    }
}

/// Tells the kind of a command-line argument.
pub fn classify_arg(arg: &str) -> (r: CliArg)
    ensures
        r == cli_arg(arg@),
{
    if same_text(arg, "-h") || same_text(arg, "--help") {
        CliArg::Help
    } else if same_text(arg, "--target") {
        CliArg::Valued(CliOption::Target)
    } else if same_text(arg, "--output") {
        CliArg::Valued(CliOption::Output)
    } else if same_text(arg, "--sample-interval") {
        CliArg::Valued(CliOption::SampleInterval)
    } else if same_text(arg, "--flush-interval") || same_text(arg, "--aggregation-interval") {
        CliArg::Valued(CliOption::FlushInterval)
    } else if same_text(arg, "--max-bytes") || same_text(arg, "--max-size-bytes") || same_text(
        arg,
        "--max-size",
    ) {
        CliArg::Valued(CliOption::MaxBytes)
    } else if same_text(arg, "--max-size-mb") {
        CliArg::Valued(CliOption::MaxSizeMb)
    } else if same_text(arg, "--max-files") || same_text(arg, "--max-backups") {
        CliArg::Valued(CliOption::MaxFiles)
    } else {
        let chars: Vec<char> = to_chars(arg);
        if chars.len() > 0 && chars[0] == '-' {
            CliArg::Unknown
        } else {
            CliArg::Positional
        }
    }
}

/// The setting that an option of the command line changes.
pub open spec fn option_setting(option: CliOption) -> Setting {
    match option {
        CliOption::Target => Setting::Targets,
        CliOption::Output => Setting::Output,
        CliOption::SampleInterval => Setting::SampleInterval,
        CliOption::FlushInterval => Setting::AggregationInterval,
        CliOption::MaxBytes => Setting::MaxBytes,
        CliOption::MaxSizeMb => Setting::MaxSizeMb,
        CliOption::MaxFiles => Setting::MaxFiles,
    }
}

/// The message for an option that is the last argument.
pub open spec fn missing_value(option: CliOption) -> Seq<char> {
    match option {
        CliOption::Target => "--target requires a value"@,
        CliOption::Output => "--output requires a file path"@,
        CliOption::SampleInterval => "--sample-interval requires seconds"@,
        CliOption::FlushInterval => "--flush-interval requires seconds"@,
        CliOption::MaxBytes => "--max-bytes requires an integer in bytes"@,
        CliOption::MaxSizeMb => "--max-size-mb requires an integer in MB"@,
        CliOption::MaxFiles => "--max-files requires an integer count"@,
    }
}

/// The message for a value that should be a number and is none. Targets and the
/// output path can be any text, so there is no message for them.
pub open spec fn invalid_value(option: CliOption) -> Seq<char> {
    match option {
        CliOption::Target | CliOption::Output => Seq::empty(),
        CliOption::SampleInterval => "Invalid sample-interval integer"@,
        CliOption::FlushInterval => "Invalid flush-interval integer"@,
        CliOption::MaxBytes => "Invalid max-bytes integer"@,
        CliOption::MaxSizeMb => "Invalid max-size-mb integer"@,
        CliOption::MaxFiles => "Invalid max-files integer"@,
    }
}

impl CliOption {
    /// The setting that the option changes.
    pub fn setting(&self) -> (r: Setting)
        ensures
            r == option_setting(*self),
    {
        match *self {
            CliOption::Target => Setting::Targets,
            CliOption::Output => Setting::Output,
            CliOption::SampleInterval => Setting::SampleInterval,
            CliOption::FlushInterval => Setting::AggregationInterval,
            CliOption::MaxBytes => Setting::MaxBytes,
            CliOption::MaxSizeMb => Setting::MaxSizeMb,
            CliOption::MaxFiles => Setting::MaxFiles,
        }
    }

    /// The message for a missing value.
    pub fn missing_message(&self) -> (r: String)
        ensures
            r@ == missing_value(*self),
    {
        match *self {
            CliOption::Target => "--target requires a value".to_owned(),
            CliOption::Output => "--output requires a file path".to_owned(),
            CliOption::SampleInterval => "--sample-interval requires seconds".to_owned(),
            CliOption::FlushInterval => "--flush-interval requires seconds".to_owned(),
            CliOption::MaxBytes => "--max-bytes requires an integer in bytes".to_owned(),
            CliOption::MaxSizeMb => "--max-size-mb requires an integer in MB".to_owned(),
            CliOption::MaxFiles => "--max-files requires an integer count".to_owned(),
        }
    }

    /// The message for a value that is no number.
    pub fn invalid_message(&self) -> (r: String)
        ensures
            r@ == invalid_value(*self),
    {
        match *self {
            CliOption::Target | CliOption::Output => String::new(),
            CliOption::SampleInterval => "Invalid sample-interval integer".to_owned(),
            CliOption::FlushInterval => "Invalid flush-interval integer".to_owned(),
            CliOption::MaxBytes => "Invalid max-bytes integer".to_owned(),
            CliOption::MaxSizeMb => "Invalid max-size-mb integer".to_owned(),
            CliOption::MaxFiles => "Invalid max-files integer".to_owned(),
        }
    }
}

/// The help text up to the first place of the program's name.
pub const USAGE_INTRO: &'static str = "Ultra-Light Windows Process Telemetry & Load Diagnostics (procpulse)\n\nUsage: ";

/// The help text between the two places of the program's name.
pub const USAGE_MIDDLE: &'static str = " [TARGET_EXE/WILDCARDS] [OUTPUT_CSV]\nUsage: ";

/// The help text after the second place of the program's name.
pub const USAGE_OPTIONS: &'static str = " --target <TARGETS> [OPTIONS]\n\nOptions:\n--target <EXE/WILDCARDS>    Executable name(s) or wildcard pattern(s) to monitor (e.g. \"worker-*.exe, server.exe\")\n--output <FILE>             Output CSV file path (default: procpulse_metrics.csv)\n--sample-interval <SECS>    Metric sampling interval in seconds (default: 2)\n--flush-interval <SECS>     Aggregation flush interval in seconds (default: 60)\n--max-bytes <BYTES>         Maximum CSV file size in bytes before rotation (default: 2097152 [2 MB], 0 to disable)\n--max-files <COUNT>         Maximum number of rotated backup files to retain (default: 5)\n-h, --help                  Print this help message\n\nConfiguration file:\nIf present, 'procpulse.ini' placed next to the executable is automatically loaded.\nCommand-line arguments override settings from the configuration file.";

/// The help text for a program that is called `bin_name`.
pub open spec fn usage(bin_name: Seq<char>) -> Seq<char> {
    USAGE_INTRO@ + bin_name + USAGE_MIDDLE@ + bin_name + USAGE_OPTIONS@
}

/// The message for an option that there is not.
pub open spec fn unknown_option(arg: Seq<char>) -> Seq<char> {
    "Unknown option '"@ + arg + "'. Use --help for usage."@
}

/// How far the reading of the command line has come: the configuration, the
/// number of positional arguments seen, and whether targets were given yet.
#[verifier::ext_equal]
pub struct CliModel {
    pub config: ConfigModel,
    pub positionals: nat,
    pub targets_given: bool,
}

/// The state after a target list of the command line. The first one takes the
/// place of the targets from elsewhere, the others are added.
pub open spec fn with_cli_targets(st: CliModel, list: Seq<char>) -> CliModel {
    let kept = if st.targets_given {
        st.config.target_patterns
    } else {
        Seq::empty()
    };
    CliModel {
        config: ConfigModel { target_patterns: kept + target_items(list), ..st.config },
        targets_given: true,
        ..st
    }
}

/// The state after an option and its value; `None` where a number is wanted and
/// the value is none.
pub open spec fn with_cli_option(st: CliModel, option: CliOption, value: Seq<char>) -> Option<
    CliModel,
> {
    if option == CliOption::Target {
        Some(with_cli_targets(st, value))
    } else {
        match with_setting(st.config, option_setting(option), value) {
            Some(config) => Some(CliModel { config, ..st }),
            None => None,
        }
    }
}

/// The state after a positional argument: the first is a target list, the second
/// the output path, and further ones change nothing.
pub open spec fn with_positional(st: CliModel, arg: Seq<char>) -> CliModel {
    let next = if st.positionals == 0 {
        with_cli_targets(st, arg)
    } else if st.positionals == 1 {
        CliModel { config: ConfigModel { output_path: arg, ..st.config }, ..st }
    } else {
        st
    };
    CliModel { positionals: st.positionals + 1, ..next }
}

/// The configuration after the arguments from `idx` on, and the message of the
/// first error, which ends the reading.
pub open spec fn with_cli_args(st: CliModel, args: Seq<Seq<char>>, idx: int) -> (
    ConfigModel,
    Option<Seq<char>>,
)
    decreases args.len() - idx,
{
    if idx >= args.len() {
        (st.config, None)
    } else {
        match cli_arg(args[idx]) {
            CliArg::Help => (st.config, Some(usage(args[0]))),
            CliArg::Unknown => (st.config, Some(unknown_option(args[idx]))),
            CliArg::Positional => with_cli_args(with_positional(st, args[idx]), args, idx + 1),
            CliArg::Valued(option) => if idx + 1 >= args.len() {
                (st.config, Some(missing_value(option)))
            } else {
                match with_cli_option(st, option, args[idx + 1]) {
                    Some(next) => with_cli_args(next, args, idx + 2),
                    None => (st.config, Some(invalid_value(option))),
                }
            },
        }
    }
}

/// What a command line makes of a configuration; its first argument is the name
/// of the program.
pub open spec fn with_cli(c: ConfigModel, args: Seq<Seq<char>>) -> (
    ConfigModel,
    Option<Seq<char>>,
) {
    with_cli_args(CliModel { config: c, positionals: 0, targets_given: false }, args, 1)
}

impl Config {
    /// The help text for a program that is called `bin_name`.
    pub fn usage_string(bin_name: &str) -> (s: String)
        ensures
            s@ == usage(bin_name@),
    {
        let mut s: String = USAGE_INTRO.to_owned();
        s.append(bin_name);
        s.append(USAGE_MIDDLE);
        s.append(bin_name);
        s.append(USAGE_OPTIONS);
        s
    }

    /// Takes a target list from the command line; `given` tells whether it is
    /// not the first one.
    fn take_cli_targets(&mut self, given: bool, list: &str)
        ensures
            final(self)@ == (ConfigModel {
                target_patterns: (if given {
                    old(self)@.target_patterns
                } else {
                    Seq::empty()
                }) + target_items(list@),
                ..old(self)@
            }),
    {
        if !given {
            self.target_patterns.clear();
            assert(text::texts(self.target_patterns@) == Seq::<Seq<char>>::empty());
        }
        let chars: Vec<char> = to_chars(list);
        self.add_targets(&chars);
    }

    /// Reads settings from a command line, the program's name first. Options
    /// override what was set before. `Err` holds a message, or the help text
    /// where it is asked for.
    pub fn merge_cli_args(&mut self, args: &[String]) -> (r: Result<(), String>)
        ensures
            final(self)@ == with_cli(old(self)@, text::texts(args@)).0,
            match r {
                Ok(()) => with_cli(old(self)@, text::texts(args@)).1 is None,
                Err(message) => with_cli(old(self)@, text::texts(args@)).1 == Some(message@),
            },
    {
        let ghost all = text::texts(args@);
        let ghost outcome = with_cli(self@, all);
        let mut idx: usize = 1;
        let mut positionals: usize = 0;
        let mut targets_given: bool = false;
        while idx < args.len()
            invariant
                all == text::texts(args@),
                outcome == with_cli(old(self)@, all),
                1 <= idx,
                positionals < idx,
                idx <= args@.len() || args@.len() <= 1,
                outcome == with_cli_args(
                    CliModel { config: self@, positionals: positionals as nat, targets_given },
                    all,
                    idx as int,
                ),
            decreases args@.len() - idx,
        {
            let ghost st = CliModel {
                config: self@,
                positionals: positionals as nat,
                targets_given,
            };
            let arg: &str = args[idx].as_str();
            assert(all[idx as int] == arg@);
            match classify_arg(arg) {
                CliArg::Help => {
                    assert(all[0] == args@[0]@);
                    return Err(Self::usage_string(args[0].as_str()));
                },
                CliArg::Unknown => {
                    let mut message: String = "Unknown option '".to_owned();
                    message.append(arg);
                    message.append("'. Use --help for usage.");
                    return Err(message);
                },
                CliArg::Positional => {
                    if positionals == 0 {
                        self.take_cli_targets(targets_given, arg);
                        targets_given = true;
                    } else if positionals == 1 {
                        self.output_path = arg.to_owned();
                    }
                    positionals = positionals + 1;
                    idx = idx + 1;
                },
                CliArg::Valued(option) => {
                    if idx + 1 >= args.len() {
                        return Err(option.missing_message());
                    }
                    let value: &str = args[idx + 1].as_str();
                    assert(all[idx + 1] == value@);
                    if let CliOption::Target = option {
                        self.take_cli_targets(targets_given, value);
                        targets_given = true;
                    } else {
                        let chars: Vec<char> = to_chars(value);
                        if !self.apply_setting(option.setting(), &chars) {
                            return Err(option.invalid_message());
                        }
                    }
                    idx = idx + 2;
                },
            }
        }
        Ok(())
    }
}

/// The message where no target is configured.
pub const NO_TARGET: &'static str = "No target executable or pattern specified. Provide it via CLI argument or 'target = ...' in procpulse.ini.";

/// The configuration that the INI text, if there is one, and the command line
/// make of the defaults, in this order; or the message of the first error.
pub open spec fn loaded(ini: Option<Seq<char>>, args: Seq<Seq<char>>) -> Result<
    ConfigModel,
    Seq<char>,
> {
    let from_ini = match ini {
        Some(content) => with_ini(default_config(), content),
        None => (default_config(), None),
    };
    let from_cli = with_cli(from_ini.0, args);
    if from_ini.1 is Some {
        Err(from_ini.1->0)
    } else if from_cli.1 is Some {
        Err(from_cli.1->0)
    } else if from_cli.0.target_patterns.len() == 0 {
        Err(NO_TARGET@)
    } else {
        Ok(from_cli.0)
    }
}

/// The configuration file to read.
#[derive(Debug, Clone, Copy, PartialEq, Eq, Structural)]
pub enum IniFile {
    /// `procpulse.ini`.
    Current,
    /// `procmon.ini`, the name of earlier versions.
    Legacy,
    /// There is none.
    Absent,
}

/// Chooses the configuration file among those that are present.
pub fn choose_ini(current_present: bool, legacy_present: bool) -> (r: IniFile)
    ensures
        r == (if current_present {
            IniFile::Current
        } else if legacy_present {
            IniFile::Legacy
        } else {
            IniFile::Absent
        }),
{
    if current_present {
        IniFile::Current
    } else if legacy_present {
        IniFile::Legacy
    } else {
        IniFile::Absent
    }
}

impl Config {
    /// Returns a comma-separated summary of configured target patterns.
    pub fn target_summary(&self) -> (s: String)
        ensures
            s@ == (if self.target_patterns@.len() == 0 {
                "[none]"@
            } else {
                text::joined(self@.target_patterns, ", "@)
            }),
    {
        if self.target_patterns.len() == 0 {
            return "[none]".to_owned();
        }
        join(&self.target_patterns, ", ")
    }

    /// Returns the primary target pattern (first entry), or empty string if none.
    pub fn target_executable(&self) -> (s: &str)
        ensures
            self.target_patterns@.len() > 0 ==> s@ == self.target_patterns@[0]@,
            self.target_patterns@.len() == 0 ==> s@ == ""@,
    {
        if self.target_patterns.len() == 0 {
            ""
        } else {
            self.target_patterns[0].as_str()
        }
    }

    /// Builds the configuration from the defaults, the text of the INI file (if
    /// present) and the command line, where the later override the earlier. At
    /// least one target must come out.
    pub fn load(ini: Option<&str>, args: &[String]) -> (r: Result<Config, String>)
        ensures
            match r {
                Ok(c) => loaded(
                    match ini {
                        Some(content) => Some(content@),
                        None => None,
                    },
                    text::texts(args@),
                ) == Ok::<ConfigModel, Seq<char>>(c@),
                Err(message) => loaded(
                    match ini {
                        Some(content) => Some(content@),
                        None => None,
                    },
                    text::texts(args@),
                ) == Err::<ConfigModel, Seq<char>>(message@),
            },
    {
        let mut config: Config = Config::default();
        if let Some(content) = ini {
            if let Err(message) = config.parse_ini_content(content) {
                return Err(message);
            }
        }
        if let Err(message) = config.merge_cli_args(args) {
            return Err(message);
        }
        if config.target_patterns.len() == 0 {
            return Err(NO_TARGET.to_owned());
        }
        Ok(config)
    }
}

/// Whether a configuration is one to run with: no interval is zero, and no target
/// is an empty text.
pub open spec fn is_sound(c: ConfigModel) -> bool {
    &&& c.sample_interval_secs >= 1
    &&& c.discovery_interval_secs >= 1
    &&& c.aggregation_interval_secs >= 1
    &&& forall|i: int|
        0 <= i < c.target_patterns.len() ==> (#[trigger] c.target_patterns[i]).len() > 0
}

/// No entry of a target list is empty.
proof fn lemma_target_items(list: Seq<char>)
    ensures
        forall|i: int|
            0 <= i < target_items(list).len() ==> (#[trigger] target_items(list)[i]).len() > 0,
{
    let all = text::split(list, CharClass::ListSeparator).map_values(
        |p: Seq<char>| target_item(p),
    );
    let keep = |item: Seq<char>| item.len() > 0;
    assert forall|i: int| 0 <= i < target_items(list).len() implies (#[trigger] target_items(
        list,
    )[i]).len() > 0 by {
        all.lemma_filter_pred(keep, i);
    }
}

/// A sound configuration stays sound when something is set.
proof fn lemma_setting_keeps_sound(c: ConfigModel, setting: Setting, value: Seq<char>)
    requires
        is_sound(c),
    ensures
        with_setting(c, setting, value) matches Some(next) ==> is_sound(next),
{
    lemma_target_items(value);
}

/// A sound configuration stays sound while lines of an INI file are read.
proof fn lemma_ini_lines_keep_sound(c: ConfigModel, lines: Seq<Seq<char>>, from: int)
    requires
        is_sound(c),
    ensures
        is_sound(with_ini_lines(c, lines, from).0),
    decreases lines.len() - from,
{
    if from < lines.len() {
        if let Some((key, value)) = ini_entry(lines[from]) {
            if let Some(setting) = setting_of_key(text::lowercase(key)) {
                lemma_setting_keeps_sound(c, setting, value);
            }
        }
        if let Ok(next) = with_ini_line(c, lines[from]) {
            lemma_ini_lines_keep_sound(next, lines, from + 1);
        }
    }
}

/// A sound configuration stays sound while arguments are read.
proof fn lemma_cli_args_keep_sound(st: CliModel, args: Seq<Seq<char>>, idx: int)
    requires
        is_sound(st.config),
    ensures
        is_sound(with_cli_args(st, args, idx).0),
    decreases args.len() - idx,
{
    if idx < args.len() {
        match cli_arg(args[idx]) {
            CliArg::Positional => {
                lemma_target_items(args[idx]);
                lemma_cli_args_keep_sound(with_positional(st, args[idx]), args, idx + 1);
            },
            CliArg::Valued(option) => {
                if idx + 1 < args.len() {
                    lemma_target_items(args[idx + 1]);
                    lemma_setting_keeps_sound(st.config, option_setting(option), args[idx + 1]);
                    if let Some(next) = with_cli_option(st, option, args[idx + 1]) {
                        lemma_cli_args_keep_sound(next, args, idx + 2);
                    }
                }
            },
            _ => {},
        }
    }
}

/// Whatever an INI file and a command line say, a sound configuration stays sound,
/// even where the reading ends with an error. Zero as an interval counts as one.
pub proof fn law_configurations_stay_sound(
    c: ConfigModel,
    content: Seq<char>,
    args: Seq<Seq<char>>,
)
    requires
        is_sound(c),
    ensures
        is_sound(with_ini(c, content).0),
        is_sound(with_cli(c, args).0),
{
    lemma_ini_lines_keep_sound(c, text::split(content, CharClass::One('\n')), 0);
    lemma_cli_args_keep_sound(
        CliModel { config: c, positionals: 0, targets_given: false },
        args,
        1,
    );
}

/// A configuration that was loaded is sound and has a target.
pub proof fn law_loaded_configuration_has_targets(ini: Option<Seq<char>>, args: Seq<Seq<char>>)
    ensures
        loaded(ini, args) matches Ok(c) ==> is_sound(c) && c.target_patterns.len() > 0,
{
    let from_ini = match ini {
        Some(content) => with_ini(default_config(), content).0,
        None => default_config(),
    };
    law_configurations_stay_sound(default_config(), ini.unwrap_or(Seq::empty()), args);
    law_configurations_stay_sound(from_ini, Seq::empty(), args);
}

/// Whether two settings are about the same field: the size limit can be given in
/// bytes and in MB.
pub open spec fn same_field(a: Setting, b: Setting) -> bool {
    a == b || (a is MaxBytes && b is MaxSizeMb) || (a is MaxSizeMb && b is MaxBytes)
}

/// Whether two configurations agree on what a setting is about.
pub open spec fn agree_on(a: ConfigModel, b: ConfigModel, setting: Setting) -> bool {
    match setting {
        Setting::Targets => a.target_patterns == b.target_patterns,
        Setting::Output => a.output_path == b.output_path,
        Setting::SampleInterval => a.sample_interval_secs == b.sample_interval_secs,
        Setting::DiscoveryInterval => a.discovery_interval_secs == b.discovery_interval_secs,
        Setting::AggregationInterval => a.aggregation_interval_secs
            == b.aggregation_interval_secs,
        Setting::MaxBytes | Setting::MaxSizeMb => a.max_bytes == b.max_bytes,
        Setting::MaxFiles => a.max_files == b.max_files,
    }
}

/// Whether a line of an INI file, from `from` on, gives `setting`.
pub open spec fn ini_gives(lines: Seq<Seq<char>>, from: int, setting: Setting) -> bool
    decreases lines.len() - from,
{
    from < lines.len() && ({
        ||| match ini_entry(lines[from]) {
            Some((key, _)) => match setting_of_key(text::lowercase(key)) {
                Some(given) => same_field(given, setting),
                None => false,
            },
            None => false,
        }
        ||| ini_gives(lines, from + 1, setting)
    })
}

/// Whether an argument of a command line, from `idx` on and after `positionals`
/// positional ones, gives `setting`.
pub open spec fn cli_gives(args: Seq<Seq<char>>, idx: int, positionals: nat, setting: Setting) -> bool
    decreases args.len() - idx,
{
    idx < args.len() && match cli_arg(args[idx]) {
        CliArg::Help | CliArg::Unknown => false,
        CliArg::Positional => {
            ||| positionals == 0 && setting is Targets
            ||| positionals == 1 && setting is Output
            ||| cli_gives(args, idx + 1, positionals + 1, setting)
        },
        CliArg::Valued(option) => idx + 1 < args.len() && (same_field(
            option_setting(option),
            setting,
        ) || cli_gives(args, idx + 2, positionals, setting)),
    }
}

/// How the lines of an INI file act on two configurations.
proof fn lemma_ini_lines_override(
    a: ConfigModel,
    b: ConfigModel,
    lines: Seq<Seq<char>>,
    from: int,
    setting: Setting,
)
    ensures
        with_ini_lines(a, lines, from).1 == with_ini_lines(b, lines, from).1,
        with_ini_lines(a, lines, from).1 is None && (ini_gives(lines, from, setting) || agree_on(
            a,
            b,
            setting,
        )) ==> agree_on(
            with_ini_lines(a, lines, from).0,
            with_ini_lines(b, lines, from).0,
            setting,
        ),
        !ini_gives(lines, from, setting) ==> agree_on(
            with_ini_lines(a, lines, from).0,
            a,
            setting,
        ),
    decreases lines.len() - from,
{
    if from < lines.len() {
        if let (Ok(next_a), Ok(next_b)) = (
            with_ini_line(a, lines[from]),
            with_ini_line(b, lines[from]),
        ) {
            lemma_ini_lines_override(next_a, next_b, lines, from + 1, setting);
        }
    }
}

/// The configuration file overrides the defaults: what a line of it gives does not
/// depend on what was there before, and what no line gives stays as it was.
pub proof fn law_ini_overrides(a: ConfigModel, b: ConfigModel, content: Seq<char>, setting: Setting)
    ensures
        with_ini(a, content).1 == with_ini(b, content).1,
        with_ini(a, content).1 is None && ini_gives(
            text::split(content, CharClass::One('\n')),
            0,
            setting,
        ) ==> agree_on(with_ini(a, content).0, with_ini(b, content).0, setting),
        !ini_gives(text::split(content, CharClass::One('\n')), 0, setting) ==> agree_on(
            with_ini(a, content).0,
            a,
            setting,
        ),
{
    lemma_ini_lines_override(a, b, text::split(content, CharClass::One('\n')), 0, setting);
}

/// How the arguments of a command line act on two configurations.
proof fn lemma_cli_args_override(
    a: CliModel,
    b: CliModel,
    args: Seq<Seq<char>>,
    idx: int,
    setting: Setting,
)
    requires
        a.positionals == b.positionals,
        a.targets_given == b.targets_given,
        a.targets_given ==> a.config.target_patterns == b.config.target_patterns,
    ensures
        with_cli_args(a, args, idx).1 == with_cli_args(b, args, idx).1,
        with_cli_args(a, args, idx).1 is None && (cli_gives(args, idx, a.positionals, setting)
            || agree_on(a.config, b.config, setting)) ==> agree_on(
            with_cli_args(a, args, idx).0,
            with_cli_args(b, args, idx).0,
            setting,
        ),
        !cli_gives(args, idx, a.positionals, setting) ==> agree_on(
            with_cli_args(a, args, idx).0,
            a.config,
            setting,
        ),
    decreases args.len() - idx,
{
    if idx < args.len() {
        match cli_arg(args[idx]) {
            CliArg::Positional => {
                lemma_cli_args_override(
                    with_positional(a, args[idx]),
                    with_positional(b, args[idx]),
                    args,
                    idx + 1,
                    setting,
                );
            },
            CliArg::Valued(option) => {
                if idx + 1 < args.len() {
                    if let (Some(next_a), Some(next_b)) = (
                        with_cli_option(a, option, args[idx + 1]),
                        with_cli_option(b, option, args[idx + 1]),
                    ) {
                        lemma_cli_args_override(next_a, next_b, args, idx + 2, setting);
                    }
                }
            },
            _ => {},
        }
    }
}

/// The command line overrides all that was set before: what an argument gives does
/// not depend on it, what no argument gives stays as it was, and neither do the
/// errors depend on it.
pub proof fn law_command_line_overrides(
    a: ConfigModel,
    b: ConfigModel,
    args: Seq<Seq<char>>,
    setting: Setting,
)
    ensures
        with_cli(a, args).1 == with_cli(b, args).1,
        with_cli(a, args).1 is None && cli_gives(args, 1, 0, setting) ==> agree_on(
            with_cli(a, args).0,
            with_cli(b, args).0,
            setting,
        ),
        !cli_gives(args, 1, 0, setting) ==> agree_on(with_cli(a, args).0, a, setting),
{
    lemma_cli_args_override(
        CliModel { config: a, positionals: 0, targets_given: false },
        CliModel { config: b, positionals: 0, targets_given: false },
        args,
        1,
        setting,
    );
}

/// Lines of an INI file that are empty, begin with `#`, `;` or `[`, have no equals
/// sign or have an unknown key change nothing.
pub proof fn law_other_ini_lines_are_ignored(c: ConfigModel, raw: Seq<char>)
    requires
        ({
            let line = text::trimmed(raw, CharClass::Whitespace);
            ||| line.len() == 0
            ||| line[0] == '#'
            ||| line[0] == ';'
            ||| line[0] == '['
            ||| !line.contains('=')
            ||| match ini_entry(raw) {
                Some((key, _)) => setting_of_key(text::lowercase(key)) is None,
                None => false,
            }
        }),
    ensures
        with_ini_line(c, raw) == Ok::<ConfigModel, Setting>(c),
{
    let line = text::trimmed(raw, CharClass::Whitespace);
    if !line.contains('=') {
        text::lemma_find_from(line, CharClass::One('='), 0);
    }
}

/// Two target lists with a comma or a semicolon between them are one list with the
/// entries of both.
pub proof fn law_target_lists_join(a: Seq<char>, sep: char, b: Seq<char>)
    requires
        sep == ',' || sep == ';',
    ensures
        target_items(a.push(sep) + b) == target_items(a) + target_items(b),
{
    let class = CharClass::ListSeparator;
    let item_of = |p: Seq<char>| target_item(p);
    let keep = |item: Seq<char>| item.len() > 0;
    text::lemma_split_concat(a, sep, b, class);
    let x = text::split(a, class).map_values(item_of);
    let y = text::split(b, class).map_values(item_of);
    assert((text::split(a, class) + text::split(b, class)).map_values(item_of) == x + y);
    Seq::filter_distributes_over_add(x, y, keep);
}

/// Whether a text is written as a target stands for itself: there is something, no
/// comma or semicolon, and neither white space nor a quotation mark at an end.
pub open spec fn is_bare_target(list: Seq<char>) -> bool {
    &&& list.len() > 0
    &&& forall|i: int| 0 <= i < list.len() ==> #[trigger] list[i] != ',' && list[i] != ';'
    &&& !text::is_whitespace(list[0]) && !text::is_whitespace(list.last())
    &&& list[0] != '"' && list[0] != '\'' && list.last() != '"' && list.last() != '\''
}

/// The entries of a list of one piece.
proof fn lemma_one_target(list: Seq<char>)
    requires
        forall|i: int| 0 <= i < list.len() ==> #[trigger] list[i] != ',' && list[i] != ';',
    ensures
        target_item(list).len() > 0 ==> target_items(list) == seq![target_item(list)],
        target_item(list).len() == 0 ==> target_items(list) == Seq::<Seq<char>>::empty(),
{
    let class = CharClass::ListSeparator;
    assert forall|i: int| 0 <= i < list.len() implies !class.has(#[trigger] list[i]) by {
        assert(list[i] != ',' && list[i] != ';');
    }
    text::lemma_split_one_piece(list, class);
    let item_of = |p: Seq<char>| target_item(p);
    let keep = |item: Seq<char>| item.len() > 0;
    let all = seq![target_item(list)];
    assert(seq![list].map_values(item_of) =~= all);
    assert(all.drop_last() =~= Seq::<Seq<char>>::empty());
    reveal(Seq::filter);
    assert(Seq::<Seq<char>>::empty().filter(keep) =~= Seq::<Seq<char>>::empty());
    assert(all.filter(keep) =~= if target_item(list).len() > 0 {
        all
    } else {
        Seq::<Seq<char>>::empty()
    });
}

/// Whether a text is a target between the quotation marks `q` and `u`, of which there may
/// be none: it neither begins nor ends with one, and white space at an end of it stands
/// behind or before one.
pub open spec fn is_quotable_target(q: Seq<char>, x: Seq<char>, u: Seq<char>) -> bool {
    &&& x.len() > 0
    &&& x[0] != '"' && x[0] != '\'' && x.last() != '"' && x.last() != '\''
    &&& forall|i: int| 0 <= i < x.len() ==> #[trigger] x[i] != ',' && x[i] != ';'
    &&& forall|i: int| 0 <= i < q.len() ==> #[trigger] q[i] == '"' || q[i] == '\''
    &&& forall|i: int| 0 <= i < u.len() ==> #[trigger] u[i] == '"' || u[i] == '\''
    &&& q.len() > 0 || !text::is_whitespace(x[0])
    &&& u.len() > 0 || !text::is_whitespace(x.last())
}

/// Such a text with white space around it, and quotation marks inside of that.
proof fn lemma_target_item(a: Seq<char>, q: Seq<char>, x: Seq<char>, u: Seq<char>, b: Seq<char>)
    requires
        is_quotable_target(q, x, u),
        forall|i: int| 0 <= i < a.len() ==> text::is_whitespace(#[trigger] a[i]),
        forall|i: int| 0 <= i < b.len() ==> text::is_whitespace(#[trigger] b[i]),
    ensures
        target_item(a + (q + x + u) + b) == x,
{
    let inner = q + x + u;
    let ws = CharClass::Whitespace;
    let quote = CharClass::Quote;
    assert(!text::is_whitespace('"') && !text::is_whitespace('\''));
    assert(inner[0] == if q.len() > 0 {
        q[0]
    } else {
        x[0]
    });
    assert(inner.last() == if u.len() > 0 {
        u.last()
    } else {
        x.last()
    });
    assert(q.len() > 0 ==> q[0] == '"' || q[0] == '\'');
    assert(u.len() > 0 ==> u[u.len() - 1] == '"' || u[u.len() - 1] == '\'');
    assert forall|i: int| 0 <= i < a.len() implies ws.has(#[trigger] a[i]) by {}
    assert forall|i: int| 0 <= i < b.len() implies ws.has(#[trigger] b[i]) by {}
    text::lemma_trimmed_between(a, inner, b, ws);
    assert forall|i: int| 0 <= i < q.len() implies quote.has(#[trigger] q[i]) by {}
    assert forall|i: int| 0 <= i < u.len() implies quote.has(#[trigger] u[i]) by {}
    text::lemma_trimmed_between(q, x, u, quote);
}

/// A target list that is one bare text, such as `C:\Apps\Service.exe`, has that text
/// as its only entry, unchanged. Nothing else of the configuration changes.
pub proof fn law_bare_target_is_kept_as_it_is(c: &mut Config, list: &[char])
    requires
        call_ensures(Config::add_targets, (c, list), ()),
        is_bare_target(list@),
    ensures
        final(c)@.target_patterns == old(c)@.target_patterns.push(list@),
        final(c)@.output_path == old(c)@.output_path,
        final(c)@.sample_interval_secs == old(c)@.sample_interval_secs,
        final(c)@.discovery_interval_secs == old(c)@.discovery_interval_secs,
        final(c)@.aggregation_interval_secs == old(c)@.aggregation_interval_secs,
        final(c)@.max_bytes == old(c)@.max_bytes,
        final(c)@.max_files == old(c)@.max_files,
{
    lemma_bare_target(list@);
    assert(old(c)@.target_patterns + seq![list@] =~= old(c)@.target_patterns.push(list@));
}

/// The entries of a list that is one bare text.
proof fn lemma_bare_target(list: Seq<char>)
    requires
        is_bare_target(list),
    ensures
        target_items(list) == seq![list],
{
    let e = Seq::<char>::empty();
    lemma_one_target(list);
    lemma_target_item(e, e, list, e, e);
    assert(e + (e + list + e) + e =~= list);
}

/// White space around a target has no meaning, nor have quotation marks around it. What
/// stands between quotation marks is kept as it is, with white space.
pub proof fn law_padding_around_a_target_is_dropped(
    c: &mut Config,
    list: &[char],
    a: Seq<char>,
    q: Seq<char>,
    x: Seq<char>,
    u: Seq<char>,
    b: Seq<char>,
)
    requires
        call_ensures(Config::add_targets, (c, list), ()),
        list@ == a + (q + x + u) + b,
        is_quotable_target(q, x, u),
        forall|i: int| 0 <= i < a.len() ==> text::is_whitespace(#[trigger] a[i]),
        forall|i: int| 0 <= i < b.len() ==> text::is_whitespace(#[trigger] b[i]),
    ensures
        final(c)@.target_patterns == old(c)@.target_patterns.push(x),
{
    lemma_target_item(a, q, x, u, b);
    let s = list@;
    assert(!text::is_whitespace(',') && !text::is_whitespace(';'));
    assert forall|i: int| 0 <= i < s.len() implies #[trigger] s[i] != ',' && s[i] != ';' by {
        let n = a.len() as int;
        let m = (q.len() + x.len() + u.len()) as int;
        if i < n {
            assert(s[i] == a[i]);
        } else if i < n + q.len() {
            assert(s[i] == q[i - n]);
        } else if i < n + q.len() + x.len() {
            assert(s[i] == x[i - n - q.len()]);
        } else if i < n + m {
            assert(s[i] == u[i - n - q.len() - x.len()]);
        } else {
            assert(s[i] == b[i - n - m]);
        }
    }
    lemma_one_target(s);
    assert(old(c)@.target_patterns + seq![x] =~= old(c)@.target_patterns.push(x));
}

/// A list of nothing but white space with quotation marks inside of it has no entries.
pub proof fn law_empty_targets_are_dropped(
    c: &mut Config,
    list: &[char],
    a: Seq<char>,
    q: Seq<char>,
    b: Seq<char>,
)
    requires
        call_ensures(Config::add_targets, (c, list), ()),
        list@ == a + q + b,
        forall|i: int| 0 <= i < a.len() ==> text::is_whitespace(#[trigger] a[i]),
        forall|i: int| 0 <= i < q.len() ==> #[trigger] q[i] == '"' || q[i] == '\'',
        forall|i: int| 0 <= i < b.len() ==> text::is_whitespace(#[trigger] b[i]),
    ensures
        final(c)@.target_patterns == old(c)@.target_patterns,
{
    let s = list@;
    let e = Seq::<char>::empty();
    let n = a.len() as int;
    let m = n + q.len();
    assert(!text::is_whitespace(',') && !text::is_whitespace(';'));
    assert(!text::is_whitespace('"') && !text::is_whitespace('\''));
    assert forall|i: int| 0 <= i < s.len() implies #[trigger] s[i] != ',' && s[i] != ';' by {
        if i < n {
            assert(s[i] == a[i]);
        } else if i < m {
            assert(s[i] == q[i - n]);
        } else {
            assert(s[i] == b[i - m]);
        }
    }
    if q.len() > 0 {
        assert(q[0] == '"' || q[0] == '\'');
        assert(q[q.len() - 1] == '"' || q[q.len() - 1] == '\'');
    }
    assert forall|i: int| 0 <= i < a.len() implies CharClass::Whitespace.has(#[trigger] a[i]) by {}
    assert forall|i: int| 0 <= i < b.len() implies CharClass::Whitespace.has(#[trigger] b[i]) by {}
    assert forall|i: int| 0 <= i < q.len() implies CharClass::Quote.has(#[trigger] q[i]) by {}
    text::lemma_trimmed_between(a, q, b, CharClass::Whitespace);
    text::lemma_trimmed_between(q, e, e, CharClass::Quote);
    assert(q + e + e =~= q);
    lemma_one_target(s);
    assert(old(c)@.target_patterns + Seq::<Seq<char>>::empty() =~= old(c)@.target_patterns);
}

/// A list of two lists with a comma or a semicolon between them adds the entries of the
/// first and then those of the second.
pub proof fn law_target_lists_are_added_in_order(
    c: &mut Config,
    d: &mut Config,
    e: &mut Config,
    list: &[char],
    parts: (&[char], &[char]),
    sep: char,
)
    requires
        call_ensures(Config::add_targets, (c, list), ()),
        call_ensures(Config::add_targets, (d, parts.0), ()),
        call_ensures(Config::add_targets, (e, parts.1), ()),
        *old(d) == *old(c),
        *old(e) == *final(d),
        sep == ',' || sep == ';',
        list@ == parts.0@.push(sep) + parts.1@,
    ensures
        final(c)@ == final(e)@,
{
    law_target_lists_join(parts.0@, sep, parts.1@);
    let (a, b) = (target_items(parts.0@), target_items(parts.1@));
    assert(old(c)@.target_patterns + (a + b) =~= (old(c)@.target_patterns + a) + b);
}

/// A target on the command line is the only one, whatever was configured before, and
/// is kept as it is written: `--target C:\Apps\Service.exe` monitors that very path.
/// The first positional argument says the same.
pub proof fn law_target_on_the_command_line(
    c: &mut Config,
    args: &[String],
    r: Result<(), String>,
)
    requires
        call_ensures(Config::merge_cli_args, (c, args), r),
        ({
            ||| args@.len() == 3 && args@[1]@ == "--target"@
            ||| args@.len() == 2 && args@[1]@[0] != '-'
        }),
        is_bare_target(args@.last()@),
    ensures
        r is Ok,
        final(c)@.target_patterns == seq![args@.last()@],
        final(c)@.output_path == old(c)@.output_path,
        final(c)@.sample_interval_secs == old(c)@.sample_interval_secs,
        final(c)@.discovery_interval_secs == old(c)@.discovery_interval_secs,
        final(c)@.aggregation_interval_secs == old(c)@.aggregation_interval_secs,
        final(c)@.max_bytes == old(c)@.max_bytes,
        final(c)@.max_files == old(c)@.max_files,
{
    let all = text::texts(args@);
    assert(all.last() == args@.last()@);
    assert(all[1] == args@[1]@);
    lemma_option_names();
    lemma_bare_target(args@.last()@);
    reveal_with_fuel(with_cli_args, 3);
    assert(Seq::<Seq<char>>::empty() + seq![all.last()] =~= seq![all.last()]);
}

/// The options of the command line are texts that begin with a minus sign, and no two
/// of them are the same.
proof fn lemma_option_names()
    ensures
        "-h"@[0] == '-' && "--help"@[0] == '-' && "--target"@[0] == '-' && "--output"@[0] == '-',
        "--sample-interval"@[0] == '-' && "--flush-interval"@[0] == '-',
        "--aggregation-interval"@[0] == '-' && "--max-bytes"@[0] == '-',
        "--max-size-bytes"@[0] == '-' && "--max-size"@[0] == '-' && "--max-size-mb"@[0] == '-',
        "--max-files"@[0] == '-' && "--max-backups"@[0] == '-',
        cli_arg("-h"@) == CliArg::Help,
        cli_arg("--help"@) == CliArg::Help,
        cli_arg("--target"@) == CliArg::Valued(CliOption::Target),
        cli_arg("--output"@) == CliArg::Valued(CliOption::Output),
        cli_arg("--sample-interval"@) == CliArg::Valued(CliOption::SampleInterval),
        cli_arg("--flush-interval"@) == CliArg::Valued(CliOption::FlushInterval),
        cli_arg("--aggregation-interval"@) == CliArg::Valued(CliOption::FlushInterval),
        cli_arg("--max-bytes"@) == CliArg::Valued(CliOption::MaxBytes),
        cli_arg("--max-size-bytes"@) == CliArg::Valued(CliOption::MaxBytes),
        cli_arg("--max-size"@) == CliArg::Valued(CliOption::MaxBytes),
        cli_arg("--max-size-mb"@) == CliArg::Valued(CliOption::MaxSizeMb),
        cli_arg("--max-files"@) == CliArg::Valued(CliOption::MaxFiles),
        cli_arg("--max-backups"@) == CliArg::Valued(CliOption::MaxFiles),
{
    reveal_strlit("-h");
    reveal_strlit("--help");
    reveal_strlit("--target");
    reveal_strlit("--output");
    reveal_strlit("--sample-interval");
    reveal_strlit("--flush-interval");
    reveal_strlit("--aggregation-interval");
    reveal_strlit("--max-bytes");
    reveal_strlit("--max-size-bytes");
    reveal_strlit("--max-size");
    reveal_strlit("--max-size-mb");
    reveal_strlit("--max-files");
    reveal_strlit("--max-backups");
    assert("-h"@.len() == 2 && "--help"@.len() == 6 && "--target"@.len() == 8);
    assert("--output"@.len() == 8 && "--sample-interval"@.len() == 17);
    assert("--flush-interval"@.len() == 16 && "--aggregation-interval"@.len() == 22);
    assert("--max-files"@.len() == 11);
    assert("--target"@[2] == 't' && "--output"@[2] == 'o' && "--sample-interval"@[2] == 's'
        && "--flush-interval"@[2] == 'f' && "--aggregation-interval"@[2] == 'a' && "--help"@[2]
        == 'h' && "--max-bytes"@[2] == 'm' && "--max-files"@[2] == 'm');
    assert("--max-bytes"@[6] == 'b' && "--max-backups"@[6] == 'b' && "--max-files"@[6] == 'f'
        && "--max-size"@[6] == 's' && "--max-size-mb"@[6] == 's' && "--max-size-bytes"@[6] == 's');
    assert("--max-bytes"@.len() == 11 && "--max-backups"@.len() == 13 && "--max-size"@.len() == 10
        && "--max-size-mb"@.len() == 13 && "--max-size-bytes"@.len() == 16);
}

/// The field of a configuration that a setting is about gets the number that is read
/// from the value: intervals are at least one second, megabytes are counted as 1024
/// times 1024 bytes up to the largest number that a `u64` holds, and the rest stands as
/// it is. A value that is no number is refused, and changes nothing.
pub proof fn law_numbers_set_their_field(
    c: &mut Config,
    setting: Setting,
    value: &[char],
    number: Option<u64>,
    small: Option<u32>,
    ok: bool,
)
    requires
        call_ensures(Config::apply_setting, (c, setting, value), ok),
        call_ensures(text::parse_u64, (value,), number),
        call_ensures(text::parse_u32, (value,), small),
        setting != Setting::Targets,
        setting != Setting::Output,
    ensures
        setting != Setting::MaxFiles ==> ok == (number is Some),
        setting == Setting::MaxFiles ==> ok == (small is Some),
        !ok ==> final(c)@ == old(c)@,
        ok ==> ({
            let n = number->0;
            let seconds = if n == 0 {
                1
            } else {
                n as nat
            };
            let bytes = if n * 1024 * 1024 <= u64::MAX {
                (n * 1024 * 1024) as nat
            } else {
                u64::MAX as nat
            };
            &&& final(c)@.target_patterns == old(c)@.target_patterns
            &&& final(c)@.output_path == old(c)@.output_path
            &&& final(c)@.sample_interval_secs == (if setting == Setting::SampleInterval {
                seconds
            } else {
                old(c)@.sample_interval_secs
            })
            &&& final(c)@.discovery_interval_secs == (if setting == Setting::DiscoveryInterval {
                seconds
            } else {
                old(c)@.discovery_interval_secs
            })
            &&& final(c)@.aggregation_interval_secs == (if setting
                == Setting::AggregationInterval {
                seconds
            } else {
                old(c)@.aggregation_interval_secs
            })
            &&& final(c)@.max_bytes == (if setting == Setting::MaxBytes {
                n as nat
            } else if setting == Setting::MaxSizeMb {
                bytes
            } else {
                old(c)@.max_bytes
            })
            &&& final(c)@.max_files == (if setting == Setting::MaxFiles {
                small->0 as nat
            } else {
                old(c)@.max_files
            })
        }),
{
}

/// The output path is the value as it is written, and targets take the place of those
/// that were there. Neither can be refused, and nothing else changes.
pub proof fn law_texts_set_their_field(
    c: &mut Config,
    d: &mut Config,
    value: &[char],
    ok: (bool, bool),
)
    requires
        call_ensures(Config::apply_setting, (c, Setting::Output, value), ok.0),
        call_ensures(Config::apply_setting, (d, Setting::Targets, value), ok.1),
    ensures
        ok.0 && ok.1,
        final(c)@.output_path == value@,
        final(c)@ == (ConfigModel { output_path: final(c)@.output_path, ..old(c)@ }),
        is_bare_target(value@) ==> final(d)@.target_patterns == seq![value@],
        final(d)@ == (ConfigModel { target_patterns: final(d)@.target_patterns, ..old(d)@ }),
{
    if is_bare_target(value@) {
        lemma_bare_target(value@);
    }
}

/// An option of the command line gives its value to the setting of the same name, just
/// as that setting takes it; a value that is refused is an error and changes nothing.
pub proof fn law_options_set_their_setting(
    c: &mut Config,
    d: &mut Config,
    args: &[String],
    value: &[char],
    setting: Setting,
    ok: bool,
    r: Result<(), String>,
)
    requires
        call_ensures(Config::merge_cli_args, (c, args), r),
        call_ensures(Config::apply_setting, (d, setting, value), ok),
        *old(d) == *old(c),
        args@.len() == 3,
        value@ == args@[2]@,
        ({
            let name = args@[1]@;
            ||| name == "--target"@ && setting == Setting::Targets
            ||| name == "--output"@ && setting == Setting::Output
            ||| name == "--sample-interval"@ && setting == Setting::SampleInterval
            ||| name == "--flush-interval"@ && setting == Setting::AggregationInterval
            ||| name == "--aggregation-interval"@ && setting == Setting::AggregationInterval
            ||| name == "--max-bytes"@ && setting == Setting::MaxBytes
            ||| name == "--max-size-bytes"@ && setting == Setting::MaxBytes
            ||| name == "--max-size"@ && setting == Setting::MaxBytes
            ||| name == "--max-size-mb"@ && setting == Setting::MaxSizeMb
            ||| name == "--max-files"@ && setting == Setting::MaxFiles
            ||| name == "--max-backups"@ && setting == Setting::MaxFiles
        }),
    ensures
        r is Ok <==> ok,
        final(c)@ == final(d)@,
{
    let all = text::texts(args@);
    assert(all[1] == args@[1]@ && all[2] == args@[2]@);
    lemma_option_names();
    reveal_with_fuel(with_cli_args, 3);
    let items = target_items(value@);
    assert(Seq::<Seq<char>>::empty() + items =~= items);
}

/// Target lists of one command line add up, and a second positional argument is the
/// output path.
pub proof fn law_targets_and_output_of_a_command_line(
    c: &mut Config,
    args: &[String],
    r: Result<(), String>,
)
    requires
        call_ensures(Config::merge_cli_args, (c, args), r),
        ({
            ||| args@.len() == 5 && args@[1]@ == "--target"@ && args@[3]@ == "--target"@
                && is_bare_target(args@[2]@) && is_bare_target(args@[4]@)
            ||| args@.len() == 3 && is_bare_target(args@[1]@) && args@[1]@[0] != '-'
                && args@[2]@.len() > 0 && args@[2]@[0] != '-'
        }),
    ensures
        r is Ok,
        args@.len() == 5 ==> final(c)@.target_patterns == seq![args@[2]@, args@[4]@]
            && final(c)@.output_path == old(c)@.output_path,
        args@.len() == 3 ==> final(c)@.target_patterns == seq![args@[1]@]
            && final(c)@.output_path == args@[2]@,
{
    let all = text::texts(args@);
    let e = Seq::<Seq<char>>::empty();
    assert(all[1] == args@[1]@ && all[2] == args@[2]@);
    lemma_option_names();
    reveal_with_fuel(with_cli_args, 4);
    if args@.len() == 5 {
        assert(all[3] == args@[3]@ && all[4] == args@[4]@);
        lemma_bare_target(all[2]);
        lemma_bare_target(all[4]);
        assert(e + seq![all[2]] + seq![all[4]] =~= seq![all[2], all[4]]);
    } else {
        lemma_bare_target(all[1]);
        assert(e + seq![all[1]] =~= seq![all[1]]);
    }
}

/// An option without its value, an option that there is not, and a request for help end
/// the reading with an error. What came before stays, and what comes after is not read.
pub proof fn law_command_line_errors(c: &mut Config, args: &[String], r: Result<(), String>)
    requires
        call_ensures(Config::merge_cli_args, (c, args), r),
        args@.len() >= 2,
        ({
            let name = args@[1]@;
            ||| name == "-h"@ || name == "--help"@
            ||| args@.len() == 2 && (name == "--target"@ || name == "--output"@ || name
                == "--sample-interval"@ || name == "--flush-interval"@ || name == "--max-bytes"@
                || name == "--max-size-mb"@ || name == "--max-files"@)
            ||| name.len() > 0 && name[0] == '-' && name.len() == 2
        }),
    ensures
        r is Err,
        final(c)@ == old(c)@,
        args@[1]@ == "--help"@ ==> r->Err_0@ == USAGE_INTRO@ + args@[0]@ + USAGE_MIDDLE@ + args@[0]@
            + USAGE_OPTIONS@,
        args@[1]@.len() == 2 && args@[1]@ != "-h"@ ==> r->Err_0@ == "Unknown option '"@ + args@[1]@
            + "'. Use --help for usage."@,
{
    let all = text::texts(args@);
    assert(all[1] == args@[1]@ && all[0] == args@[0]@);
    lemma_option_names();
    reveal_strlit("-h");
    reveal_strlit("--help");
    reveal_strlit("--target");
    reveal_strlit("--output");
    reveal_strlit("--sample-interval");
    reveal_strlit("--flush-interval");
    reveal_strlit("--aggregation-interval");
    reveal_strlit("--max-bytes");
    reveal_strlit("--max-size-bytes");
    reveal_strlit("--max-size");
    reveal_strlit("--max-size-mb");
    reveal_strlit("--max-files");
    reveal_strlit("--max-backups");
    reveal_with_fuel(with_cli_args, 2);
}

/// Without a configuration file and options, the settings are the documented ones: a
/// sample every 2 seconds, discovery every 6, a row every 60, and files of up to 2 MB
/// with 5 backups.
pub proof fn law_default_settings(c: Config)
    requires
        call_ensures(Config::default, (), c),
    ensures
        c@.target_patterns.len() == 0,
        c@.output_path == "procpulse_metrics.csv"@,
        c@.sample_interval_secs == 2,
        c@.discovery_interval_secs == 6,
        c@.aggregation_interval_secs == 60,
        c@.max_bytes == 2 * 1024 * 1024,
        c@.max_files == 5,
{
}

/// What a line of an INI file is made of that gives a value: a key, an equals sign and a
/// value, with white space around each of them.
proof fn lemma_ini_line(
    a: Seq<char>,
    key: Seq<char>,
    b: Seq<char>,
    d: Seq<char>,
    value: Seq<char>,
    e: Seq<char>,
)
    requires
        forall|i: int| 0 <= i < a.len() ==> text::is_whitespace(#[trigger] a[i]),
        forall|i: int| 0 <= i < b.len() ==> text::is_whitespace(#[trigger] b[i]),
        forall|i: int| 0 <= i < d.len() ==> text::is_whitespace(#[trigger] d[i]),
        forall|i: int| 0 <= i < e.len() ==> text::is_whitespace(#[trigger] e[i]),
        is_ini_key(key),
        value.len() > 0,
        !text::is_whitespace(value[0]) && !text::is_whitespace(value.last()),
    ensures
        ini_entry(a + (key + b + seq!['='] + d + value) + e) == Some((key, unquoted(value))),
{
    let ws = CharClass::Whitespace;
    let one = CharClass::One('=');
    let line = key + b + seq!['='] + d + value;
    let empty = Seq::<char>::empty();
    assert(line[0] == key[0] && line.last() == value.last());
    text::lemma_trimmed_between(a, line, e, ws);
    let eq = (key.len() + b.len()) as int;
    assert(!text::is_whitespace('='));
    assert(line[eq] == '=');
    assert forall|i: int| 0 <= i < eq implies #[trigger] line[i] != '=' by {
        if i < key.len() {
            assert(line[i] == key[i]);
        } else {
            assert(line[i] == b[i - key.len()]);
        }
    }
    text::lemma_find_from(line, one, 0);
    assert(text::find_from(line, one, 0) == eq);
    assert(line.take(eq) =~= empty + key + b);
    text::lemma_trimmed_between(empty, key, b, ws);
    assert(line.skip(eq + 1) =~= d + value + empty);
    text::lemma_trimmed_between(d, value, empty, ws);
}

/// Whether a text can be a key of an INI file: there is something, it holds no equals
/// sign, no white space at an end, and does not begin like a comment or a section.
pub open spec fn is_ini_key(key: Seq<char>) -> bool {
    &&& key.len() > 0
    &&& forall|i: int| 0 <= i < key.len() ==> #[trigger] key[i] != '='
    &&& key[0] != '#' && key[0] != ';' && key[0] != '['
    &&& !text::is_whitespace(key[0]) && !text::is_whitespace(key.last())
}

/// A line `key = value` of an INI file does what its entry does, whatever white space
/// stands around key and value, in whatever case the key is written, and whether or not
/// the value stands between two quotation marks of one kind.
pub proof fn law_ini_line_gives_its_entry(
    c: &mut Config,
    d: &mut Config,
    content: &str,
    key: &str,
    name: &str,
    lowered: String,
    written: Seq<char>,
    value: &[char],
    pads: (Seq<char>, Seq<char>, Seq<char>, Seq<char>),
    r: (Result<(), String>, Result<(), Setting>),
)
    requires
        call_ensures(Config::parse_ini_content, (c, content), r.0),
        call_ensures(str::to_lowercase, (key,), lowered),
        name@ == lowered@,
        call_ensures(Config::apply_entry, (d, name, value), r.1),
        *old(d) == *old(c),
        content@ == pads.0 + (key@ + pads.1 + seq!['='] + pads.2 + written) + pads.3,
        forall|i: int| 0 <= i < content@.len() ==> #[trigger] content@[i] != '\n',
        forall|i: int| 0 <= i < pads.0.len() ==> text::is_whitespace(#[trigger] pads.0[i]),
        forall|i: int| 0 <= i < pads.1.len() ==> text::is_whitespace(#[trigger] pads.1[i]),
        forall|i: int| 0 <= i < pads.2.len() ==> text::is_whitespace(#[trigger] pads.2[i]),
        forall|i: int| 0 <= i < pads.3.len() ==> text::is_whitespace(#[trigger] pads.3[i]),
        is_ini_key(key@),
        ({
            ||| written == seq!['"'] + value@ + seq!['"']
            ||| written == seq!['\''] + value@ + seq!['\'']
            ||| written == value@ && value@.len() > 0 && !text::is_whitespace(value@[0])
                && !text::is_whitespace(value@.last()) && (value@.len() == 1 || value@[0]
                != value@.last() || value@[0] != '"' && value@[0] != '\'')
        }),
    ensures
        r.0 is Ok <==> r.1 is Ok,
        final(c)@ == final(d)@,
        r.0 is Err ==> final(c)@ == old(c)@,
{
    assert(!text::is_whitespace('"') && !text::is_whitespace('\''));
    assert(written[0] == '"' || written[0] == '\'' || written[0] == value@[0]);
    lemma_ini_line(pads.0, key@, pads.1, pads.2, written, pads.3);
    if written != value@ {
        assert(written.subrange(1, written.len() - 1) =~= value@);
    } else if written.len() >= 2 && written[0] == '"' {
        assert(written.subrange(1, written.len() - 1).len() == value@.len() - 2);
    }
    if written == value@ && written.len() >= 2 && written[0] == '\'' {
        assert(written.last() != '\'');
    }
    assert(unquoted(written) == value@);
    let class = CharClass::One('\n');
    assert forall|i: int| 0 <= i < content@.len() implies !class.has(#[trigger] content@[i]) by {
        assert(content@[i] != '\n');
    }
    text::lemma_split_one_piece(content@, class);
    reveal_with_fuel(with_ini_lines, 2);
}

/// The keys of an INI file, in lower case, and what they set. A key that is not among
/// them changes nothing.
pub proof fn law_ini_keys_set_their_setting(
    c: &mut Config,
    d: &mut Config,
    key: &str,
    value: &[char],
    setting: Setting,
    ok: bool,
    r: Result<(), Setting>,
)
    requires
        call_ensures(Config::apply_entry, (c, key, value), r),
        call_ensures(Config::apply_setting, (d, setting, value), ok),
        *old(d) == *old(c),
    ensures
        ({
            let k = key@;
            let known = {
                ||| setting == Setting::Targets && (k == "target"@ || k == "targets"@ || k
                    == "target_executable"@ || k == "executable"@)
                ||| setting == Setting::Output && (k == "output"@ || k == "output_path"@ || k
                    == "csv"@)
                ||| setting == Setting::SampleInterval && (k == "sample_interval_secs"@ || k
                    == "sample_interval"@)
                ||| setting == Setting::DiscoveryInterval && (k == "discovery_interval_secs"@ || k
                    == "discovery_interval"@)
                ||| setting == Setting::AggregationInterval && (k == "aggregation_interval_secs"@
                    || k == "aggregation_interval"@)
                ||| setting == Setting::MaxBytes && (k == "max_bytes"@ || k == "max_size_bytes"@
                    || k == "max_size"@)
                ||| setting == Setting::MaxSizeMb && k == "max_size_mb"@
                ||| setting == Setting::MaxFiles && (k == "max_files"@ || k == "max_backups"@)
            };
            known ==> final(c)@ == final(d)@ && (r is Ok <==> ok) && (r is Err ==> r->Err_0
                == setting)
        }),
        ({
            let k = key@;
            let unknown = {
                &&& k != "target"@
                &&& k != "targets"@
                &&& k != "target_executable"@
                &&& k != "executable"@
                &&& k != "output"@
                &&& k != "output_path"@
                &&& k != "csv"@
                &&& k != "sample_interval_secs"@
                &&& k != "sample_interval"@
                &&& k != "discovery_interval_secs"@
                &&& k != "discovery_interval"@
                &&& k != "aggregation_interval_secs"@
                &&& k != "aggregation_interval"@
                &&& k != "max_bytes"@
                &&& k != "max_size_bytes"@
                &&& k != "max_size"@
                &&& k != "max_size_mb"@
                &&& k != "max_files"@
                &&& k != "max_backups"@
            };
            unknown ==> r is Ok && final(c)@ == old(c)@
        }),
{
    lemma_key_names();
}

/// The keys of an INI file are different texts.
proof fn lemma_key_names()
    ensures
        setting_of_key("target"@) == Some(Setting::Targets),
        setting_of_key("targets"@) == Some(Setting::Targets),
        setting_of_key("target_executable"@) == Some(Setting::Targets),
        setting_of_key("executable"@) == Some(Setting::Targets),
        setting_of_key("output"@) == Some(Setting::Output),
        setting_of_key("output_path"@) == Some(Setting::Output),
        setting_of_key("csv"@) == Some(Setting::Output),
        setting_of_key("sample_interval_secs"@) == Some(Setting::SampleInterval),
        setting_of_key("sample_interval"@) == Some(Setting::SampleInterval),
        setting_of_key("discovery_interval_secs"@) == Some(Setting::DiscoveryInterval),
        setting_of_key("discovery_interval"@) == Some(Setting::DiscoveryInterval),
        setting_of_key("aggregation_interval_secs"@) == Some(Setting::AggregationInterval),
        setting_of_key("aggregation_interval"@) == Some(Setting::AggregationInterval),
        setting_of_key("max_bytes"@) == Some(Setting::MaxBytes),
        setting_of_key("max_size_bytes"@) == Some(Setting::MaxBytes),
        setting_of_key("max_size"@) == Some(Setting::MaxBytes),
        setting_of_key("max_size_mb"@) == Some(Setting::MaxSizeMb),
        setting_of_key("max_files"@) == Some(Setting::MaxFiles),
        setting_of_key("max_backups"@) == Some(Setting::MaxFiles),
{
    reveal_strlit("target");
    reveal_strlit("targets");
    reveal_strlit("target_executable");
    reveal_strlit("executable");
    reveal_strlit("output");
    reveal_strlit("output_path");
    reveal_strlit("csv");
    reveal_strlit("sample_interval_secs");
    reveal_strlit("sample_interval");
    reveal_strlit("discovery_interval_secs");
    reveal_strlit("discovery_interval");
    reveal_strlit("aggregation_interval_secs");
    reveal_strlit("aggregation_interval");
    reveal_strlit("max_bytes");
    reveal_strlit("max_size_bytes");
    reveal_strlit("max_size");
    reveal_strlit("max_size_mb");
    reveal_strlit("max_files");
    reveal_strlit("max_backups");
    assert("target"@[0] == 't' && "targets"@[0] == 't' && "target_executable"@[0] == 't'
        && "executable"@[0] == 'e' && "output"@[0] == 'o' && "output_path"@[0] == 'o' && "csv"@[0]
        == 'c' && "sample_interval"@[0] == 's' && "sample_interval_secs"@[0] == 's'
        && "discovery_interval"@[0] == 'd' && "discovery_interval_secs"@[0] == 'd'
        && "aggregation_interval"@[0] == 'a' && "aggregation_interval_secs"@[0] == 'a'
        && "max_bytes"@[0] == 'm' && "max_size_bytes"@[0] == 'm' && "max_size"@[0] == 'm'
        && "max_size_mb"@[0] == 'm' && "max_files"@[0] == 'm' && "max_backups"@[0] == 'm');
    assert("max_bytes"@[4] == 'b' && "max_size_bytes"@[4] == 's' && "max_size"@[4] == 's'
        && "max_size_mb"@[4] == 's' && "max_files"@[4] == 'f' && "max_backups"@[4] == 'b');
    assert("max_bytes"@.len() == 9 && "max_backups"@.len() == 11 && "max_size"@.len() == 8
        && "max_size_mb"@.len() == 11 && "max_size_bytes"@.len() == 14);
}

/// Every setting is set by the key that messages name it with.
pub proof fn law_messages_name_keys(setting: Setting, name: &str, r: Option<Setting>)
    requires
        call_ensures(Setting::ini_key, (&setting,), name),
        call_ensures(ini_setting, (name,), r),
    ensures
        r == Some(setting),
        setting == Setting::Targets ==> name@ == "target"@,
        setting == Setting::Output ==> name@ == "output"@,
        setting == Setting::SampleInterval ==> name@ == "sample_interval_secs"@,
        setting == Setting::DiscoveryInterval ==> name@ == "discovery_interval_secs"@,
        setting == Setting::AggregationInterval ==> name@ == "aggregation_interval_secs"@,
        setting == Setting::MaxBytes ==> name@ == "max_bytes"@,
        setting == Setting::MaxSizeMb ==> name@ == "max_size_mb"@,
        setting == Setting::MaxFiles ==> name@ == "max_files"@,
{
    lemma_key_names();
}

/// How lines act that stand behind others.
proof fn lemma_later_lines(c: ConfigModel, a: Seq<Seq<char>>, b: Seq<Seq<char>>, j: int)
    requires
        0 <= j <= b.len(),
    ensures
        with_ini_lines(c, a + b, a.len() + j).0 == with_ini_lines(c, b, j).0,
        with_ini_lines(c, a + b, a.len() + j).1 is None <==> with_ini_lines(c, b, j).1 is None,
    decreases b.len() - j,
{
    if j < b.len() {
        assert((a + b)[a.len() + j] == b[j]);
        if let Ok(next) = with_ini_line(c, b[j]) {
            lemma_later_lines(next, a, b, j + 1);
        }
    }
}

/// How lines act that stand before others.
proof fn lemma_earlier_lines(c: ConfigModel, a: Seq<Seq<char>>, b: Seq<Seq<char>>, i: int)
    requires
        0 <= i <= a.len(),
    ensures
        ({
            let first = with_ini_lines(c, a, i);
            let both = with_ini_lines(c, a + b, i);
            &&& first.1 is Some ==> both == first
            &&& first.1 is None ==> both == with_ini_lines(first.0, a + b, a.len() as int)
        }),
    decreases a.len() - i,
{
    if i < a.len() {
        assert((a + b)[i] == a[i]);
        if let Ok(next) = with_ini_line(c, a[i]) {
            lemma_earlier_lines(next, a, b, i + 1);
        }
    }
}

/// The lines of an INI file are read in order, and each goes on from what the ones
/// before have made: to read two texts one after the other is to read both with a line
/// break between them. The first error ends the reading, and what was set until then
/// stays.
pub proof fn law_ini_lines_are_read_in_order(
    c: &mut Config,
    d: &mut Config,
    e: &mut Config,
    content: &str,
    parts: (&str, &str),
    r: (Result<(), String>, Result<(), String>, Result<(), String>),
)
    requires
        call_ensures(Config::parse_ini_content, (c, content), r.0),
        call_ensures(Config::parse_ini_content, (d, parts.0), r.1),
        call_ensures(Config::parse_ini_content, (e, parts.1), r.2),
        *old(d) == *old(c),
        *old(e) == *final(d),
        content@ == parts.0@.push('\n') + parts.1@,
    ensures
        r.1 is Err ==> r.0 is Err && final(c)@ == final(d)@ && r.0->Err_0@ == r.1->Err_0@,
        r.1 is Ok ==> (r.0 is Ok <==> r.2 is Ok) && final(c)@ == final(e)@,
{
    let class = CharClass::One('\n');
    let (a, b) = (text::split(parts.0@, class), text::split(parts.1@, class));
    text::lemma_split_concat(parts.0@, '\n', parts.1@, class);
    lemma_earlier_lines(old(c)@, a, b, 0);
    lemma_later_lines(final(d)@, a, b, 0);
}

/// An empty line, a comment and a section heading change nothing, and neither does a
/// line without an equals sign.
pub proof fn law_ini_lines_without_entry_are_ignored(
    c: &mut Config,
    content: &str,
    pad: Seq<char>,
    rest: Seq<char>,
    r: Result<(), String>,
)
    requires
        call_ensures(Config::parse_ini_content, (c, content), r),
        forall|i: int| 0 <= i < content@.len() ==> #[trigger] content@[i] != '\n',
        content@ == pad + rest,
        forall|i: int| 0 <= i < pad.len() ==> text::is_whitespace(#[trigger] pad[i]),
        ({
            ||| rest.len() == 0
            ||| rest[0] == '#' || rest[0] == ';' || rest[0] == '['
            ||| forall|i: int| 0 <= i < rest.len() ==> #[trigger] rest[i] != '='
        }),
    ensures
        r is Ok,
        final(c)@ == old(c)@,
{
    let s = content@;
    let class = CharClass::One('\n');
    let ws = CharClass::Whitespace;
    assert forall|i: int| 0 <= i < s.len() implies !class.has(#[trigger] s[i]) by {
        assert(s[i] != '\n');
    }
    text::lemma_split_one_piece(s, class);
    let line = text::trimmed(s, ws);
    let (i, j) = text::lemma_trimmed_place(s, ws);
    assert(!text::is_whitespace('#') && !text::is_whitespace(';') && !text::is_whitespace('['));
    assert(!text::is_whitespace('='));
    let n = pad.len() as int;
    if rest.len() > 0 && (rest[0] == '#' || rest[0] == ';' || rest[0] == '[') {
        assert(s[n] == rest[0]);
        if i > n {
            assert(ws.has(s[n]));
        }
        if j <= n {
            assert(ws.has(s[n]));
        }
        if i < n {
            assert(s[i] == pad[i]);
        }
        assert(line[0] == s[n]);
    } else {
        assert(!line.contains('=')) by {
            if line.contains('=') {
                let k = choose|k: int| 0 <= k < line.len() && line[k] == '=';
                assert(s[i + k] == '=');
                if i + k < n {
                    assert(s[i + k] == pad[i + k]);
                } else {
                    assert(s[i + k] == rest[i + k - n]);
                }
            }
        }
    }
    law_other_ini_lines_are_ignored(old(c)@, s);
    reveal_with_fuel(with_ini_lines, 2);
}

/// A value that should be a number and is none is reported with the name of its setting
/// and the number of its line, counted from one.
pub proof fn law_ini_errors_tell_the_line(
    c: &mut Config,
    d: &mut Config,
    content: &str,
    before: &str,
    lines: Vec<Vec<char>>,
    raw: &[char],
    entry: Option<(String, Vec<char>)>,
    key: &str,
    value: &[char],
    lowered: String,
    setting: Setting,
    name: &str,
    r: (Result<(), String>, Result<(), String>, bool),
    e: &mut Config,
)
    requires
        call_ensures(Config::parse_ini_content, (c, content), r.0),
        call_ensures(Config::parse_ini_content, (d, before), r.1),
        *old(d) == *old(c),
        r.1 is Ok,
        content@ == before@.push('\n') + raw@,
        forall|i: int| 0 <= i < raw@.len() ==> #[trigger] raw@[i] != '\n',
        text::pieces(lines@) == text::split(before@, CharClass::One('\n')),
        call_ensures(split_ini_line, (raw,), entry),
        entry matches Some(pair) && pair.0@ == key@ && pair.1@ == value@,
        call_ensures(str::to_lowercase, (key,), lowered),
        setting_of_key(lowered@) == Some(setting),
        call_ensures(Config::apply_setting, (e, setting, value), r.2),
        *old(e) == *final(d),
        !r.2,
        call_ensures(Setting::ini_key, (&setting,), name),
    ensures
        r.0 is Err,
        r.0->Err_0@ == "Invalid "@ + name@ + " at line "@ + text::decimal(
            (lines@.len() + 1) as nat,
        ),
{
    let class = CharClass::One('\n');
    let (a, b) = (text::split(before@, class), text::split(raw@, class));
    assert forall|i: int| 0 <= i < raw@.len() implies !class.has(#[trigger] raw@[i]) by {
        assert(raw@[i] != '\n');
    }
    text::lemma_split_one_piece(raw@, class);
    text::lemma_split_concat(before@, '\n', raw@, class);
    lemma_earlier_lines(old(c)@, a, b, 0);
    assert((a + b)[a.len() as int] == raw@);
    assert(text::pieces(lines@).len() == lines@.len());
    reveal_with_fuel(with_ini_lines, 2);
}

/// A configuration is loaded from the defaults by reading first the INI text, if there
/// is one, and then the command line, so that the command line has the last word. It
/// is there just where neither has an error and a target has come out.
pub proof fn law_loading_reads_file_and_command_line(
    ini: Option<&str>,
    args: &[String],
    first: Config,
    c: &mut Config,
    d: &mut Config,
    r: (Result<Config, String>, Result<(), String>, Result<(), String>),
)
    requires
        call_ensures(Config::load, (ini, args), r.0),
        call_ensures(Config::default, (), first),
        *old(c) == first,
        match ini {
            Some(content) => call_ensures(Config::parse_ini_content, (c, content), r.1),
            None => *final(c) == *old(c) && r.1 is Ok,
        },
        *old(d) == *final(c),
        call_ensures(Config::merge_cli_args, (d, args), r.2),
    ensures
        r.0 is Ok <==> r.1 is Ok && r.2 is Ok && final(d)@.target_patterns.len() > 0,
        r.0 is Ok ==> r.0->Ok_0@ == final(d)@,
        r.1 is Err ==> r.0->Err_0@ == r.1->Err_0@,
        r.1 is Ok && r.2 is Err ==> r.0->Err_0@ == r.2->Err_0@,
        r.1 is Ok && r.2 is Ok && r.0 is Err ==> r.0->Err_0@
            == "No target executable or pattern specified. Provide it via CLI argument or 'target = ...' in procpulse.ini."@,
{
}

/// The file with the current name comes before the one with the name of earlier
/// versions, and a file that is not there is never chosen.
pub proof fn law_present_files_are_chosen(current: bool, legacy: bool, r: IniFile)
    requires
        call_ensures(choose_ini, (current, legacy), r),
    ensures
        current <==> r == IniFile::Current,
        !current && legacy <==> r == IniFile::Legacy,
        !current && !legacy <==> r == IniFile::Absent,
{
}

/// The summary names all targets in order, with commas between them, and the primary
/// target is the first one.
pub proof fn law_summary_names_the_targets(
    c: Config,
    s: String,
    first: &str,
    list: &[String],
    sep: &str,
    joined: String,
)
    requires
        call_ensures(Config::target_summary, (&c,), s),
        call_ensures(Config::target_executable, (&c,), first),
        call_ensures(text::join, (list, sep), joined),
        text::texts(list@) == c@.target_patterns,
        sep@ == ", "@,
    ensures
        c@.target_patterns.len() == 0 ==> s@ == "[none]"@ && first@ == ""@,
        c@.target_patterns.len() > 0 ==> first@ == c@.target_patterns[0] && s@ == joined@,
        c@.target_patterns.len() == 1 ==> s@ == c@.target_patterns[0],
        c@.target_patterns.len() == 2 ==> s@ == c@.target_patterns[0] + ", "@
            + c@.target_patterns[1],
{
    reveal_with_fuel(text::joined, 3);
    let all = c@.target_patterns;
    if all.len() == 2 {
        assert(all.drop_last()[0] == all[0]);
    }
}

/// What is read of a command line from some place on depends on the arguments there and
/// on the name of the program alone.
proof fn lemma_same_arguments(
    st: CliModel,
    a: Seq<Seq<char>>,
    i: int,
    b: Seq<Seq<char>>,
    j: int,
)
    requires
        0 <= i <= a.len(),
        0 <= j <= b.len(),
        a.skip(i) == b.skip(j),
        a[0] == b[0],
    ensures
        with_cli_args(st, a, i) == with_cli_args(st, b, j),
    decreases a.len() - i,
{
    assert(a.skip(i).len() == a.len() - i && b.skip(j).len() == b.len() - j);
    if i < a.len() {
        assert(a.skip(i)[0] == a[i] && b.skip(j)[0] == b[j]);
        let arg = a[i];
        assert(a.skip(i).skip(1) == a.skip(i + 1) && b.skip(j).skip(1) == b.skip(j + 1));
        if let CliArg::Positional = cli_arg(arg) {
            lemma_same_arguments(with_positional(st, arg), a, i + 1, b, j + 1);
        }
        if let CliArg::Valued(option) = cli_arg(arg) {
            if i + 1 < a.len() {
                assert(a.skip(i)[1] == a[i + 1] && b.skip(j)[1] == b[j + 1]);
                assert(a.skip(i).skip(2) == a.skip(i + 2) && b.skip(j).skip(2) == b.skip(j + 2));
                if let Some(next) = with_cli_option(st, option, a[i + 1]) {
                    lemma_same_arguments(next, a, i + 2, b, j + 2);
                }
            }
        }
    }
}

/// Where a command line has no error, what is appended to it is read from where it ends.
proof fn lemma_arguments_appended(
    st: CliModel,
    a: Seq<Seq<char>>,
    i: int,
    b: Seq<Seq<char>>,
) -> (end: CliModel)
    requires
        0 < i <= a.len(),
        with_cli_args(st, a, i).1 is None,
    ensures
        end.config == with_cli_args(st, a, i).0,
        with_cli_args(st, a + b, i) == with_cli_args(end, a + b, a.len() as int),
    decreases a.len() - i,
{
    if i >= a.len() {
        st
    } else {
        assert((a + b)[i] == a[i]);
        if let CliArg::Positional = cli_arg(a[i]) {
            lemma_arguments_appended(with_positional(st, a[i]), a, i + 1, b)
        } else if let CliArg::Valued(option) = cli_arg(a[i]) {
            assert(i + 1 < a.len());
            assert((a + b)[i + 1] == a[i + 1]);
            lemma_arguments_appended(with_cli_option(st, option, a[i + 1])->0, a, i + 2, b)
        } else {
            st
        }
    }
}

/// The texts of two lists of arguments are those of the first and of the second.
proof fn lemma_texts_of_both(all: Seq<String>, a: Seq<String>, b: Seq<String>)
    requires
        all == a + b,
    ensures
        text::texts(all) == text::texts(a) + text::texts(b),
{
    assert(text::texts(all) =~= text::texts(a) + text::texts(b));
}

/// An option and its value change nothing but their setting, wherever they stand: to
/// read a command line that begins with them is to read them alone and then the rest.
pub proof fn law_options_are_read_in_order(
    c: &mut Config,
    d: &mut Config,
    e: &mut Config,
    args: &[String],
    first: &[String],
    rest: &[String],
    r: (Result<(), String>, Result<(), String>, Result<(), String>),
)
    requires
        call_ensures(Config::merge_cli_args, (c, args), r.0),
        call_ensures(Config::merge_cli_args, (d, first), r.1),
        call_ensures(Config::merge_cli_args, (e, rest), r.2),
        *old(d) == *old(c),
        *old(e) == *final(d),
        first@.len() == 3,
        rest@.len() > 0,
        rest@[0]@ == first@[0]@,
        args@ == first@ + rest@.skip(1),
        ({
            let name = first@[1]@;
            ||| name == "--output"@ || name == "--sample-interval"@ || name == "--flush-interval"@
            ||| name == "--aggregation-interval"@ || name == "--max-bytes"@
            ||| name == "--max-size-bytes"@ || name == "--max-size"@ || name == "--max-size-mb"@
            ||| name == "--max-files"@ || name == "--max-backups"@
        }),
    ensures
        r.1 is Err ==> r.0 is Err && r.0->Err_0@ == r.1->Err_0@ && final(c)@ == final(d)@,
        r.1 is Ok ==> {
            &&& final(c)@ == final(e)@
            &&& r.0 is Ok <==> r.2 is Ok
            &&& r.0 is Err ==> r.0->Err_0@ == r.2->Err_0@
        },
{
    lemma_option_names();
    let all = text::texts(args@);
    let one = text::texts(first@);
    let more = text::texts(rest@);
    assert(all =~= one + more.skip(1));
    assert(all[0] == one[0] && all[1] == one[1] && all[2] == one[2]);
    assert(all.skip(3) =~= more.skip(1));
    assert(one[0] == first@[0]@ && one[1] == first@[1]@ && more[0] == rest@[0]@);
    let st = CliModel { config: old(c)@, positionals: 0, targets_given: false };
    reveal_with_fuel(with_cli_args, 3);
    if r.1 is Ok {
        let next = CliModel { config: final(d)@, ..st };
        assert(with_cli_args(st, all, 1) == with_cli_args(next, all, 3));
        lemma_same_arguments(next, all, 3, more, 1);
    }
}

/// An option at the end of a command line without errors sets its setting on top of all
/// that came before; where its value is refused, all that came before stays. A target at
/// the end is the last target, behind those of the command line.
pub proof fn law_last_option_has_the_last_word(
    c: &mut Config,
    d: &mut Config,
    e: &mut Config,
    args: &[String],
    before: &[String],
    last: (String, String),
    setting: Setting,
    value: &[char],
    ok: bool,
    r: (Result<(), String>, Result<(), String>),
)
    requires
        call_ensures(Config::merge_cli_args, (c, args), r.0),
        call_ensures(Config::merge_cli_args, (d, before), r.1),
        call_ensures(Config::apply_setting, (e, setting, value), ok),
        *old(d) == *old(c),
        *old(e) == *final(d),
        r.1 is Ok,
        before@.len() > 0,
        args@ == before@ + seq![last.0, last.1],
        value@ == last.1@,
        ({
            let name = last.0@;
            ||| name == "--target"@ && setting == Setting::Targets && is_bare_target(value@)
            ||| name == "--output"@ && setting == Setting::Output
            ||| name == "--sample-interval"@ && setting == Setting::SampleInterval
            ||| name == "--flush-interval"@ && setting == Setting::AggregationInterval
            ||| name == "--aggregation-interval"@ && setting == Setting::AggregationInterval
            ||| name == "--max-bytes"@ && setting == Setting::MaxBytes
            ||| name == "--max-size-bytes"@ && setting == Setting::MaxBytes
            ||| name == "--max-size"@ && setting == Setting::MaxBytes
            ||| name == "--max-size-mb"@ && setting == Setting::MaxSizeMb
            ||| name == "--max-files"@ && setting == Setting::MaxFiles
            ||| name == "--max-backups"@ && setting == Setting::MaxFiles
        }),
    ensures
        r.0 is Ok <==> ok,
        setting != Setting::Targets ==> final(c)@ == final(e)@,
        setting == Setting::Targets ==> {
            &&& final(c)@ == (ConfigModel {
                target_patterns: final(c)@.target_patterns,
                ..final(d)@
            })
            &&& {
                ||| final(c)@.target_patterns == seq![value@]
                ||| final(c)@.target_patterns == final(d)@.target_patterns.push(value@)
            }
        },
{
    lemma_option_names();
    let tail = seq![last.0, last.1];
    lemma_texts_of_both(args@, before@, tail);
    let all = text::texts(args@);
    let a = text::texts(before@);
    let b = text::texts(tail);
    let n = a.len() as int;
    assert(all == a + b);
    assert(b[0] == last.0@ && b[1] == last.1@);
    assert(all[n] == last.0@ && all[n + 1] == last.1@);
    let st = CliModel { config: old(c)@, positionals: 0, targets_given: false };
    let end = lemma_arguments_appended(st, a, 1, b);
    reveal_with_fuel(with_cli_args, 3);
    if setting == Setting::Targets {
        lemma_bare_target(value@);
        assert(Seq::<Seq<char>>::empty() + seq![value@] =~= seq![value@]);
        let had = end.config.target_patterns;
        assert(had + seq![value@] =~= had.push(value@));
    }
}

/// Positional arguments from the third on are not read.
pub proof fn law_third_argument_is_not_read(
    c: &mut Config,
    d: &mut Config,
    args: &[String],
    before: &[String],
    r: (Result<(), String>, Result<(), String>),
)
    requires
        call_ensures(Config::merge_cli_args, (c, args), r.0),
        call_ensures(Config::merge_cli_args, (d, before), r.1),
        *old(d) == *old(c),
        args@.len() == 4,
        before@ == args@.take(3),
        args@[1]@.len() > 0 ==> args@[1]@[0] != '-',
        args@[2]@.len() > 0 ==> args@[2]@[0] != '-',
        args@[3]@.len() > 0 ==> args@[3]@[0] != '-',
    ensures
        r.0 is Ok && r.1 is Ok,
        final(c)@ == final(d)@,
        final(c)@.output_path == args@[2]@,
{
    lemma_option_names();
    lemma_option_lengths();
    let all = text::texts(args@);
    let some = text::texts(before@);
    assert(all[1] == args@[1]@ && all[2] == args@[2]@ && all[3] == args@[3]@);
    assert(some[1] == all[1] && some[2] == all[2]);
    reveal_with_fuel(with_cli_args, 4);
}

/// No option is an empty text.
proof fn lemma_option_lengths()
    ensures
        "-h"@.len() > 0 && "--help"@.len() > 0 && "--target"@.len() > 0 && "--output"@.len() > 0,
        "--sample-interval"@.len() > 0 && "--flush-interval"@.len() > 0,
        "--aggregation-interval"@.len() > 0 && "--max-bytes"@.len() > 0,
        "--max-size-bytes"@.len() > 0 && "--max-size"@.len() > 0 && "--max-size-mb"@.len() > 0,
        "--max-files"@.len() > 0 && "--max-backups"@.len() > 0,
{
    reveal_strlit("-h");
    reveal_strlit("--help");
    reveal_strlit("--target");
    reveal_strlit("--output");
    reveal_strlit("--sample-interval");
    reveal_strlit("--flush-interval");
    reveal_strlit("--aggregation-interval");
    reveal_strlit("--max-bytes");
    reveal_strlit("--max-size-bytes");
    reveal_strlit("--max-size");
    reveal_strlit("--max-size-mb");
    reveal_strlit("--max-files");
    reveal_strlit("--max-backups");
}

/// An argument that begins with a minus sign and is none of the options is refused under
/// its name, and what was set until then stays.
pub proof fn law_unknown_options_are_refused(
    c: &mut Config,
    d: &mut Config,
    args: &[String],
    before: &[String],
    last: String,
    r: (Result<(), String>, Result<(), String>),
)
    requires
        call_ensures(Config::merge_cli_args, (c, args), r.0),
        call_ensures(Config::merge_cli_args, (d, before), r.1),
        *old(d) == *old(c),
        r.1 is Ok,
        before@.len() > 0,
        args@ == before@ + seq![last],
        ({
            let name = last@;
            &&& name.len() > 0 && name[0] == '-'
            &&& name != "-h"@ && name != "--help"@ && name != "--target"@ && name != "--output"@
            &&& name != "--sample-interval"@ && name != "--flush-interval"@
            &&& name != "--aggregation-interval"@ && name != "--max-bytes"@
            &&& name != "--max-size-bytes"@ && name != "--max-size"@ && name != "--max-size-mb"@
            &&& name != "--max-files"@ && name != "--max-backups"@
        }),
    ensures
        r.0 is Err,
        r.0->Err_0@ == "Unknown option '"@ + last@ + "'. Use --help for usage."@,
        final(c)@ == final(d)@,
{
    let tail = seq![last];
    lemma_texts_of_both(args@, before@, tail);
    let all = text::texts(args@);
    let a = text::texts(before@);
    let b = text::texts(tail);
    assert(b[0] == last@);
    assert(all[a.len() as int] == last@);
    let st = CliModel { config: old(c)@, positionals: 0, targets_given: false };
    let end = lemma_arguments_appended(st, a, 1, b);
}

/// An option at the end of a command line, without a value, is refused with a message
/// that says what is wanting, and what was set until then stays.
pub proof fn law_missing_values_are_refused(
    c: &mut Config,
    d: &mut Config,
    args: &[String],
    before: &[String],
    last: String,
    r: (Result<(), String>, Result<(), String>),
)
    requires
        call_ensures(Config::merge_cli_args, (c, args), r.0),
        call_ensures(Config::merge_cli_args, (d, before), r.1),
        *old(d) == *old(c),
        r.1 is Ok,
        before@.len() > 0,
        args@ == before@ + seq![last],
    ensures
        last@ == "--target"@ ==> r.0 is Err && r.0->Err_0@ == "--target requires a value"@,
        last@ == "--output"@ ==> r.0 is Err && r.0->Err_0@ == "--output requires a file path"@,
        last@ == "--sample-interval"@ ==> r.0 is Err && r.0->Err_0@
            == "--sample-interval requires seconds"@,
        last@ == "--flush-interval"@ || last@ == "--aggregation-interval"@ ==> r.0 is Err
            && r.0->Err_0@ == "--flush-interval requires seconds"@,
        last@ == "--max-bytes"@ || last@ == "--max-size-bytes"@ || last@ == "--max-size"@
            ==> r.0 is Err && r.0->Err_0@ == "--max-bytes requires an integer in bytes"@,
        last@ == "--max-size-mb"@ ==> r.0 is Err && r.0->Err_0@
            == "--max-size-mb requires an integer in MB"@,
        last@ == "--max-files"@ || last@ == "--max-backups"@ ==> r.0 is Err && r.0->Err_0@
            == "--max-files requires an integer count"@,
        r.0 is Err ==> final(c)@ == final(d)@,
{
    lemma_option_names();
    let tail = seq![last];
    lemma_texts_of_both(args@, before@, tail);
    let all = text::texts(args@);
    let a = text::texts(before@);
    let b = text::texts(tail);
    assert(b[0] == last@);
    assert(all[a.len() as int] == last@);
    let st = CliModel { config: old(c)@, positionals: 0, targets_given: false };
    let end = lemma_arguments_appended(st, a, 1, b);
    reveal_with_fuel(with_cli_args, 2);
}

/// A value that is no number is refused under the name of its option, and what was set
/// until then stays.
pub proof fn law_wrong_numbers_are_refused(
    c: &mut Config,
    d: &mut Config,
    args: &[String],
    before: &[String],
    last: (String, String),
    r: (Result<(), String>, Result<(), String>),
)
    requires
        call_ensures(Config::merge_cli_args, (c, args), r.0),
        call_ensures(Config::merge_cli_args, (d, before), r.1),
        *old(d) == *old(c),
        r.1 is Ok,
        r.0 is Err,
        before@.len() > 0,
        args@ == before@ + seq![last.0, last.1],
    ensures
        final(c)@ == final(d)@ || last.0@.len() == 0 || last.0@[0] != '-',
        last.0@ != "--target"@ && last.0@ != "--output"@,
        last.0@ == "--sample-interval"@ ==> r.0->Err_0@ == "Invalid sample-interval integer"@,
        last.0@ == "--flush-interval"@ || last.0@ == "--aggregation-interval"@ ==> r.0->Err_0@
            == "Invalid flush-interval integer"@,
        last.0@ == "--max-bytes"@ || last.0@ == "--max-size-bytes"@ || last.0@ == "--max-size"@
            ==> r.0->Err_0@ == "Invalid max-bytes integer"@,
        last.0@ == "--max-size-mb"@ ==> r.0->Err_0@ == "Invalid max-size-mb integer"@,
        last.0@ == "--max-files"@ || last.0@ == "--max-backups"@ ==> r.0->Err_0@
            == "Invalid max-files integer"@,
{
    lemma_option_names();
    lemma_option_lengths();
    let tail = seq![last.0, last.1];
    lemma_texts_of_both(args@, before@, tail);
    let all = text::texts(args@);
    let a = text::texts(before@);
    let b = text::texts(tail);
    let n = a.len() as int;
    assert(b[0] == last.0@ && b[1] == last.1@);
    assert(all[n] == last.0@ && all[n + 1] == last.1@);
    let st = CliModel { config: old(c)@, positionals: 0, targets_given: false };
    let end = lemma_arguments_appended(st, a, 1, b);
    reveal_with_fuel(with_cli_args, 3);
}

/// What each argument is taken for.
pub proof fn law_arguments_are_told_apart(arg: &str, r: CliArg)
    requires
        call_ensures(classify_arg, (arg,), r),
    ensures
        r == CliArg::Help <==> arg@ == "-h"@ || arg@ == "--help"@,
        r == CliArg::Positional <==> arg@.len() == 0 || arg@[0] != '-',
        r == CliArg::Valued(CliOption::Target) <==> arg@ == "--target"@,
        r == CliArg::Valued(CliOption::Output) <==> arg@ == "--output"@,
        r == CliArg::Valued(CliOption::SampleInterval) <==> arg@ == "--sample-interval"@,
        r == CliArg::Valued(CliOption::FlushInterval) <==> arg@ == "--flush-interval"@ || arg@
            == "--aggregation-interval"@,
        r == CliArg::Valued(CliOption::MaxBytes) <==> arg@ == "--max-bytes"@ || arg@
            == "--max-size-bytes"@ || arg@ == "--max-size"@,
        r == CliArg::Valued(CliOption::MaxSizeMb) <==> arg@ == "--max-size-mb"@,
        r == CliArg::Valued(CliOption::MaxFiles) <==> arg@ == "--max-files"@ || arg@
            == "--max-backups"@,
{
    lemma_option_names();
    lemma_option_lengths();
}

/// Help shows the name of the program in both lines of usage.
pub proof fn law_help_names_the_program(bin_name: &str, s: String)
    requires
        call_ensures(Config::usage_string, (bin_name,), s),
    ensures
        s@ == USAGE_INTRO@ + bin_name@ + USAGE_MIDDLE@ + bin_name@ + USAGE_OPTIONS@,
{
}

/// What options say of themselves: their setting, and what is wrong with their value.
pub proof fn law_options_know_their_setting(
    option: CliOption,
    setting: Setting,
    missing: String,
    invalid: String,
)
    requires
        call_ensures(CliOption::setting, (&option,), setting),
        call_ensures(CliOption::missing_message, (&option,), missing),
        call_ensures(CliOption::invalid_message, (&option,), invalid),
    ensures
        option == CliOption::Target <==> setting == Setting::Targets,
        option == CliOption::Output <==> setting == Setting::Output,
        option == CliOption::SampleInterval <==> setting == Setting::SampleInterval,
        option == CliOption::FlushInterval <==> setting == Setting::AggregationInterval,
        option == CliOption::MaxBytes <==> setting == Setting::MaxBytes,
        option == CliOption::MaxSizeMb <==> setting == Setting::MaxSizeMb,
        option == CliOption::MaxFiles <==> setting == Setting::MaxFiles,
        option == CliOption::Target ==> missing@ == "--target requires a value"@,
        option == CliOption::Output ==> missing@ == "--output requires a file path"@,
        option == CliOption::SampleInterval ==> missing@ == "--sample-interval requires seconds"@
            && invalid@ == "Invalid sample-interval integer"@,
        option == CliOption::FlushInterval ==> missing@ == "--flush-interval requires seconds"@
            && invalid@ == "Invalid flush-interval integer"@,
        option == CliOption::MaxBytes ==> missing@ == "--max-bytes requires an integer in bytes"@
            && invalid@ == "Invalid max-bytes integer"@,
        option == CliOption::MaxSizeMb ==> missing@ == "--max-size-mb requires an integer in MB"@
            && invalid@ == "Invalid max-size-mb integer"@,
        option == CliOption::MaxFiles ==> missing@ == "--max-files requires an integer count"@
            && invalid@ == "Invalid max-files integer"@,
{
}

/// Targets that are set take the place of those that were there: it is as if they were
/// added where there are none.
pub proof fn law_set_targets_replace_the_others(
    c: &mut Config,
    d: &mut Config,
    value: &[char],
    ok: bool,
)
    requires
        call_ensures(Config::apply_setting, (c, Setting::Targets, value), ok),
        call_ensures(Config::add_targets, (d, value), ()),
        old(d)@.target_patterns.len() == 0,
        old(d)@ == (ConfigModel { target_patterns: old(d)@.target_patterns, ..old(c)@ }),
    ensures
        ok,
        final(c)@ == final(d)@,
{
    let items = target_items(value@);
    assert(old(d)@.target_patterns + items =~= items);
}

/// The first positional argument is read like the value of `--target`.
pub proof fn law_first_argument_is_the_target(
    c: &mut Config,
    d: &mut Config,
    args: &[String],
    named: &[String],
    r: (Result<(), String>, Result<(), String>),
)
    requires
        call_ensures(Config::merge_cli_args, (c, args), r.0),
        call_ensures(Config::merge_cli_args, (d, named), r.1),
        *old(d) == *old(c),
        args@.len() == 2,
        named@.len() == 3,
        named@[1]@ == "--target"@,
        named@[2]@ == args@[1]@,
        args@[1]@.len() > 0 ==> args@[1]@[0] != '-',
    ensures
        r.0 is Ok && r.1 is Ok,
        final(c)@ == final(d)@,
{
    lemma_option_names();
    lemma_option_lengths();
    let all = text::texts(args@);
    let other = text::texts(named@);
    assert(all[1] == args@[1]@ && other[1] == named@[1]@ && other[2] == named@[2]@);
    reveal_with_fuel(with_cli_args, 3);
}

/// Once targets were given on the command line they stay given.
proof fn lemma_targets_stay_given(
    st: CliModel,
    a: Seq<Seq<char>>,
    i: int,
    b: Seq<Seq<char>>,
) -> (end: CliModel)
    requires
        0 < i <= a.len(),
        st.targets_given,
        with_cli_args(st, a, i).1 is None,
    ensures
        end.targets_given,
        end.config == with_cli_args(st, a, i).0,
        with_cli_args(st, a + b, i) == with_cli_args(end, a + b, a.len() as int),
    decreases a.len() - i,
{
    if i >= a.len() {
        st
    } else {
        assert((a + b)[i] == a[i]);
        if let CliArg::Positional = cli_arg(a[i]) {
            lemma_targets_stay_given(with_positional(st, a[i]), a, i + 1, b)
        } else if let CliArg::Valued(option) = cli_arg(a[i]) {
            assert((a + b)[i + 1] == a[i + 1]);
            lemma_targets_stay_given(with_cli_option(st, option, a[i + 1])->0, a, i + 2, b)
        } else {
            st
        }
    }
}

/// A target list that is not the first one on the command line is added to the targets,
/// whatever stands between the two.
pub proof fn law_later_targets_are_added(
    c: &mut Config,
    d: &mut Config,
    e: &mut Config,
    args: &[String],
    before: &[String],
    last: (String, String),
    list: &[char],
    r: (Result<(), String>, Result<(), String>),
)
    requires
        call_ensures(Config::merge_cli_args, (c, args), r.0),
        call_ensures(Config::merge_cli_args, (d, before), r.1),
        call_ensures(Config::add_targets, (e, list), ()),
        *old(d) == *old(c),
        *old(e) == *final(d),
        r.1 is Ok,
        before@.len() > 1,
        before@[1]@ == "--target"@ || before@[1]@.len() == 0 || before@[1]@[0] != '-',
        args@ == before@ + seq![last.0, last.1],
        last.0@ == "--target"@,
        list@ == last.1@,
    ensures
        r.0 is Ok,
        final(c)@ == final(e)@,
{
    lemma_option_names();
    lemma_option_lengths();
    let tail = seq![last.0, last.1];
    lemma_texts_of_both(args@, before@, tail);
    let all = text::texts(args@);
    let a = text::texts(before@);
    let b = text::texts(tail);
    let n = a.len() as int;
    assert(all == a + b);
    assert(b[0] == last.0@ && b[1] == last.1@);
    assert(all[n] == last.0@ && all[n + 1] == last.1@);
    assert(a[1] == before@[1]@ && all[1] == a[1]);
    let st = CliModel { config: old(c)@, positionals: 0, targets_given: false };
    if let CliArg::Positional = cli_arg(a[1]) {
        let next = with_positional(st, a[1]);
        assert(with_cli_args(st, a, 1) == with_cli_args(next, a, 2));
        assert(with_cli_args(st, all, 1) == with_cli_args(next, all, 2));
        let end = lemma_targets_stay_given(next, a, 2, b);
        assert(with_cli_args(end, all, n) == with_cli_args(
            with_cli_targets(end, last.1@),
            all,
            n + 2,
        ));
    } else {
        assert(n > 2);
        assert(all[2] == a[2]);
        let next = with_cli_targets(st, a[2]);
        assert(with_cli_args(st, a, 1) == with_cli_args(next, a, 3));
        assert(with_cli_args(st, all, 1) == with_cli_args(next, all, 3));
        let end = lemma_targets_stay_given(next, a, 3, b);
        assert(with_cli_args(end, all, n) == with_cli_args(
            with_cli_targets(end, last.1@),
            all,
            n + 2,
        ));
    }
}

/// A key of an INI file without a value has an empty one.
pub proof fn law_ini_key_without_value_is_empty(
    c: &mut Config,
    d: &mut Config,
    content: &str,
    key: &str,
    name: &str,
    lowered: String,
    value: &[char],
    pads: (Seq<char>, Seq<char>, Seq<char>),
    r: (Result<(), String>, Result<(), Setting>),
)
    requires
        call_ensures(Config::parse_ini_content, (c, content), r.0),
        call_ensures(str::to_lowercase, (key,), lowered),
        name@ == lowered@,
        call_ensures(Config::apply_entry, (d, name, value), r.1),
        *old(d) == *old(c),
        content@ == pads.0 + (key@ + pads.1 + seq!['=']) + pads.2,
        forall|i: int| 0 <= i < content@.len() ==> #[trigger] content@[i] != '\n',
        forall|i: int| 0 <= i < pads.0.len() ==> text::is_whitespace(#[trigger] pads.0[i]),
        forall|i: int| 0 <= i < pads.1.len() ==> text::is_whitespace(#[trigger] pads.1[i]),
        forall|i: int| 0 <= i < pads.2.len() ==> text::is_whitespace(#[trigger] pads.2[i]),
        is_ini_key(key@),
        value@.len() == 0,
    ensures
        r.0 is Ok <==> r.1 is Ok,
        final(c)@ == final(d)@,
        r.0 is Err ==> final(c)@ == old(c)@,
{
    let ws = CharClass::Whitespace;
    let one = CharClass::One('=');
    let empty = Seq::<char>::empty();
    let k = key@;
    let line = k + pads.1 + seq!['='];
    assert(!text::is_whitespace('='));
    assert(line[0] == k[0] && line.last() == '=');
    text::lemma_trimmed_between(pads.0, line, pads.2, ws);
    let eq = line.len() - 1;
    assert forall|i: int| 0 <= i < eq implies #[trigger] line[i] != '=' by {
        if i < k.len() {
            assert(line[i] == k[i]);
        } else {
            assert(line[i] == pads.1[i - k.len()]);
        }
    }
    text::lemma_find_from(line, one, 0);
    assert(text::find_from(line, one, 0) == eq);
    assert(line.take(eq) =~= empty + k + pads.1);
    text::lemma_trimmed_between(empty, k, pads.1, ws);
    assert(line.skip(eq + 1) =~= empty);
    assert(empty + empty + empty =~= empty);
    text::lemma_trimmed_between(empty, empty, empty, ws);
    assert(value@ =~= empty);
    let class = CharClass::One('\n');
    assert forall|i: int| 0 <= i < content@.len() implies !class.has(#[trigger] content@[i]) by {
        assert(content@[i] != '\n');
    }
    text::lemma_split_one_piece(content@, class);
    reveal_with_fuel(with_ini_lines, 2);
}

/// Options may stand behind the first positional argument as well as before it.
pub proof fn law_options_may_follow_the_target(
    c: &mut Config,
    d: &mut Config,
    args: &[String],
    moved: &[String],
    r: (Result<(), String>, Result<(), String>),
    e: &mut Config,
    setting: Setting,
    value: &[char],
    ok: bool,
)
    requires
        call_ensures(Config::merge_cli_args, (c, args), r.0),
        call_ensures(Config::merge_cli_args, (d, moved), r.1),
        call_ensures(Config::apply_setting, (e, setting, value), ok),
        *old(d) == *old(c),
        *old(e) == *old(c),
        ok,
        args@.len() >= 4,
        moved@ == seq![args@[0], args@[2], args@[3], args@[1]] + args@.skip(4),
        args@[1]@.len() > 0 ==> args@[1]@[0] != '-',
        value@ == args@[3]@,
        ({
            let name = args@[2]@;
            ||| name == "--output"@ && setting == Setting::Output
            ||| name == "--sample-interval"@ && setting == Setting::SampleInterval
            ||| name == "--flush-interval"@ && setting == Setting::AggregationInterval
            ||| name == "--max-bytes"@ && setting == Setting::MaxBytes
            ||| name == "--max-size-mb"@ && setting == Setting::MaxSizeMb
            ||| name == "--max-files"@ && setting == Setting::MaxFiles
        }),
    ensures
        r.0 is Ok <==> r.1 is Ok,
        final(c)@ == final(d)@,
{
    lemma_option_names();
    lemma_option_lengths();
    let all = text::texts(args@);
    let other = text::texts(moved@);
    assert(all[0] == args@[0]@ && all[1] == args@[1]@ && all[2] == args@[2]@ && all[3]
        == args@[3]@);
    assert(moved@[0] == args@[0] && moved@[1] == args@[2] && moved@[2] == args@[3] && moved@[3]
        == args@[1]);
    assert(other[0] == all[0] && other[1] == all[2] && other[2] == all[3] && other[3] == all[1]);
    assert(all.skip(4) =~= other.skip(4));
    let st = CliModel { config: old(c)@, positionals: 0, targets_given: false };
    let option = cli_arg(all[2])->Valued_0;
    let one = with_positional(st, all[1]);
    let next = with_cli_option(one, option, all[3])->0;
    assert(with_cli_args(st, all, 1) == with_cli_args(one, all, 2));
    assert(with_cli_args(one, all, 2) == with_cli_args(next, all, 4));
    let two = with_cli_option(st, option, all[3])->0;
    assert(with_cli_args(st, other, 1) == with_cli_args(two, other, 3));
    assert(with_positional(two, all[1]) == next);
    assert(with_cli_args(two, other, 3) == with_cli_args(next, other, 4));
    lemma_same_arguments(next, all, 4, other, 4);
}

/// What a configuration says is what its fields hold.
pub proof fn law_settings_are_in_the_fields(c: Config, i: int)
    ensures
        c@.target_patterns.len() == c.target_patterns@.len(),
        0 <= i < c.target_patterns@.len() ==> c@.target_patterns[i] == c.target_patterns@[i]@,
        c@.output_path == c.output_path@,
        c@.sample_interval_secs == c.sample_interval_secs,
        c@.discovery_interval_secs == c.discovery_interval_secs,
        c@.aggregation_interval_secs == c.aggregation_interval_secs,
        c@.max_bytes == c.max_bytes,
        c@.max_files == c.max_files,
{
}

/// An INI line is taken apart at its first equals sign into key and value, without the
/// white space around them and without a pair of quotation marks around the value.
pub proof fn law_ini_line_is_taken_apart(
    raw: &[char],
    key: Seq<char>,
    written: Seq<char>,
    value: Seq<char>,
    pads: (Seq<char>, Seq<char>, Seq<char>, Seq<char>),
    r: Option<(String, Vec<char>)>,
)
    requires
        call_ensures(split_ini_line, (raw,), r),
        raw@ == pads.0 + (key + pads.1 + seq!['='] + pads.2 + written) + pads.3,
        forall|i: int| 0 <= i < pads.0.len() ==> text::is_whitespace(#[trigger] pads.0[i]),
        forall|i: int| 0 <= i < pads.1.len() ==> text::is_whitespace(#[trigger] pads.1[i]),
        forall|i: int| 0 <= i < pads.2.len() ==> text::is_whitespace(#[trigger] pads.2[i]),
        forall|i: int| 0 <= i < pads.3.len() ==> text::is_whitespace(#[trigger] pads.3[i]),
        is_ini_key(key),
        ({
            ||| written == seq!['"'] + value + seq!['"']
            ||| written == seq!['\''] + value + seq!['\'']
            ||| written == value && value.len() > 0 && !text::is_whitespace(value[0])
                && !text::is_whitespace(value.last()) && (value.len() == 1 || value[0]
                != value.last() || value[0] != '"' && value[0] != '\'')
        }),
    ensures
        r matches Some(pair) && pair.0@ == key && pair.1@ == value,
{
    assert(!text::is_whitespace('"') && !text::is_whitespace('\''));
    assert(written[0] == '"' || written[0] == '\'' || written[0] == value[0]);
    lemma_ini_line(pads.0, key, pads.1, pads.2, written, pads.3);
    if written != value {
        assert(written.subrange(1, written.len() - 1) =~= value);
    } else if written.len() >= 2 && written[0] == '"' {
        assert(written.subrange(1, written.len() - 1).len() == value.len() - 2);
    }
    assert(unquoted(written) == value);
}

/// A request for help ends the reading: what came before stays, what comes after is not
/// read, and the help text names the program as it was called.
pub proof fn law_help_ends_the_reading(
    c: &mut Config,
    d: &mut Config,
    args: &[String],
    before: &[String],
    asked: String,
    rest: Seq<String>,
    program: &str,
    help: String,
    r: (Result<(), String>, Result<(), String>),
)
    requires
        call_ensures(Config::merge_cli_args, (c, args), r.0),
        call_ensures(Config::merge_cli_args, (d, before), r.1),
        call_ensures(Config::usage_string, (program,), help),
        *old(d) == *old(c),
        r.1 is Ok,
        before@.len() > 0,
        program@ == before@[0]@,
        asked@ == "-h"@ || asked@ == "--help"@,
        args@ == before@ + (seq![asked] + rest),
    ensures
        r.0 is Err,
        r.0->Err_0@ == help@,
        final(c)@ == final(d)@,
{
    lemma_option_names();
    let tail = seq![asked] + rest;
    lemma_texts_of_both(args@, before@, tail);
    let all = text::texts(args@);
    let a = text::texts(before@);
    let b = text::texts(tail);
    assert(tail[0] == asked);
    assert(b[0] == asked@);
    assert(all[a.len() as int] == asked@);
    assert(all[0] == a[0] && a[0] == before@[0]@);
    let st = CliModel { config: old(c)@, positionals: 0, targets_given: false };
    let end = lemma_arguments_appended(st, a, 1, b);
}

/// Nothing is read behind an option that there is not: it is refused under its name,
/// whatever follows.
pub proof fn law_unknown_option_ends_the_reading(
    c: &mut Config,
    d: &mut Config,
    args: &[String],
    before: &[String],
    unknown: String,
    rest: Seq<String>,
    kind: CliArg,
    name: &str,
    r: (Result<(), String>, Result<(), String>),
)
    requires
        call_ensures(Config::merge_cli_args, (c, args), r.0),
        call_ensures(Config::merge_cli_args, (d, before), r.1),
        call_ensures(classify_arg, (name,), kind),
        *old(d) == *old(c),
        r.1 is Ok,
        before@.len() > 0,
        name@ == unknown@,
        kind == CliArg::Unknown,
        args@ == before@ + (seq![unknown] + rest),
    ensures
        r.0 is Err,
        r.0->Err_0@ == "Unknown option '"@ + unknown@ + "'. Use --help for usage."@,
        final(c)@ == final(d)@,
{
    let tail = seq![unknown] + rest;
    lemma_texts_of_both(args@, before@, tail);
    let all = text::texts(args@);
    let a = text::texts(before@);
    let b = text::texts(tail);
    assert(tail[0] == unknown);
    assert(b[0] == unknown@);
    assert(all[a.len() as int] == unknown@);
    let st = CliModel { config: old(c)@, positionals: 0, targets_given: false };
    let end = lemma_arguments_appended(st, a, 1, b);
}

} // verus!
