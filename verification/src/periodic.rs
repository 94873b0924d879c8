//! Periodic notes: date format conversion, daily/weekly/monthly note resolution.
use crate::models::{NotePeriod, PeriodicNoteConfig};
use crate::path;
use crate::pattern;
use crate::text;
use std::fmt::Write;
use vstd::prelude::*;

verus! {

/// A day of the calendar.
#[derive(Clone, Copy, Debug, PartialEq, Eq, Structural)]
pub struct Date {
    pub year: i32,
    pub month: u32,
    pub day: u32,
}

// ---------------------------------------------------------------------------
// Moment.js formats
// ---------------------------------------------------------------------------

/// Stands for the quarter of the year in a format, which has no specifier for it.
pub open spec fn quarter_mark() -> Seq<char> {
    seq!['\u{1}', 'Q', '\u{1}']
}

/// The tokens of Moment.js formats with what they become, longer tokens first.
pub open spec fn tokens() -> Seq<(Seq<char>, Seq<char>)> {
    seq![
        ("GGGG"@, "%G"@),
        ("MMMM"@, "%B"@),
        ("YYYY"@, "%Y"@),
        ("dddd"@, "%A"@),
        ("gggg"@, "%G"@),
        ("MMM"@, "%b"@),
        ("ddd"@, "%a"@),
        ("DD"@, "%d"@),
        ("Do"@, "%-d"@),
        ("GG"@, "%G"@),
        ("HH"@, "%H"@),
        ("MM"@, "%m"@),
        ("WW"@, "%V"@),
        ("YY"@, "%y"@),
        ("ZZ"@, "%z"@),
        ("dd"@, "%a"@),
        ("gg"@, "%G"@),
        ("hh"@, "%I"@),
        ("mm"@, "%M"@),
        ("ss"@, "%S"@),
        ("ww"@, "%V"@),
        ("A"@, "%p"@),
        ("D"@, "%-d"@),
        ("E"@, "%u"@),
        ("H"@, "%-H"@),
        ("M"@, "%-m"@),
        ("Q"@, "\u{1}Q\u{1}"@),
        ("S"@, ""@),
        ("W"@, "%V"@),
        ("X"@, "%s"@),
        ("Z"@, "%:z"@),
        ("a"@, "%p"@),
        ("d"@, "%w"@),
        ("e"@, "%w"@),
        ("h"@, "%-I"@),
        ("m"@, "%-M"@),
        ("s"@, "%-S"@),
        ("w"@, "%V"@),
    ]
}

/// Place, from `k` on, of the first token that a text starts with; the number of tokens if
/// there is none.
pub open spec fn token_from(s: Seq<char>, k: nat) -> nat
    decreases tokens().len() - k,
{
    if k >= tokens().len() {
        tokens().len()
    } else if tokens()[k as int].0.is_prefix_of(s) {
        k
    } else {
        token_from(s, k + 1)
    }
}

/// Number of characters before the first closing bracket; all if there is none.
pub open spec fn before_bracket(s: Seq<char>) -> nat
    decreases s.len(),
{
    if s.len() == 0 || s[0] == ']' {
        0
    } else {
        1 + before_bracket(s.drop_first())
    }
}

/// What a Moment.js format becomes: text in brackets stands for itself, tokens are replaced, the
/// longest first, and everything else is kept.
pub open spec fn converted(s: Seq<char>) -> Seq<char>
    decreases s.len(),
{
    if s.len() == 0 {
        Seq::empty()
    } else if s[0] == '[' {
        let rest = s.drop_first();
        let n = before_bracket(rest) as int;
        if n < rest.len() {
            rest.take(n) + converted(rest.skip(n + 1))
        } else {
            rest
        }
    } else {
        let k = token_from(s, 0) as int;
        if k < tokens().len() && 0 < tokens()[k].0.len() <= s.len() {
            tokens()[k].1 + converted(s.skip(tokens()[k].0.len() as int))
        } else {
            seq![s[0]] + converted(s.drop_first())
        }
    }
}

/// The table of [`tokens`].
fn token_table() -> (r: Vec<(&'static str, &'static str)>)
    ensures
        r.len() == tokens().len(),
        forall|k: int|
            0 <= k < r.len() ==> (#[trigger] r[k]).0@ == tokens()[k].0 && r[k].1@ == tokens()[k].1,
{
    vec![
        ("GGGG", "%G"),
        ("MMMM", "%B"),
        ("YYYY", "%Y"),
        ("dddd", "%A"),
        ("gggg", "%G"),
        ("MMM", "%b"),
        ("ddd", "%a"),
        ("DD", "%d"),
        ("Do", "%-d"),
        ("GG", "%G"),
        ("HH", "%H"),
        ("MM", "%m"),
        ("WW", "%V"),
        ("YY", "%y"),
        ("ZZ", "%z"),
        ("dd", "%a"),
        ("gg", "%G"),
        ("hh", "%I"),
        ("mm", "%M"),
        ("ss", "%S"),
        ("ww", "%V"),
        ("A", "%p"),
        ("D", "%-d"),
        ("E", "%u"),
        ("H", "%-H"),
        ("M", "%-m"),
        ("Q", "\u{1}Q\u{1}"),
        ("S", ""),
        ("W", "%V"),
        ("X", "%s"),
        ("Z", "%:z"),
        ("a", "%p"),
        ("d", "%w"),
        ("e", "%w"),
        ("h", "%-I"),
        ("m", "%-M"),
        ("s", "%-S"),
        ("w", "%V"),
    ]
}

/// Finds the first token, in the order of the table, that a text starts with.
fn find_token(table: &Vec<(&'static str, &'static str)>, s: &[char]) -> (r: Option<usize>)
    requires
        table.len() == tokens().len(),
        forall|k: int|
            0 <= k < table.len() ==> (#[trigger] table[k]).0@ == tokens()[k].0 && table[k].1@
                == tokens()[k].1,
    ensures
        match r {
            Some(k) => k < table.len() && token_from(s@, 0) == k && tokens()[k as int].0.is_prefix_of(
                s@,
            ),
            None => token_from(s@, 0) == tokens().len(),
        },
{
    let mut k: usize = 0;
    while k < table.len()
        invariant
            k <= table.len(),
            table.len() == tokens().len(),
            forall|j: int|
                0 <= j < table.len() ==> (#[trigger] table[j]).0@ == tokens()[j].0 && table[j].1@
                    == tokens()[j].1,
            token_from(s@, 0) == token_from(s@, k as nat),
        decreases table.len() - k,
    {
        let token = text::to_chars(table[k].0);
        if text::has_prefix(s, &token) {
            return Some(k);
        }
        k = k + 1;
    }
    None
}

/// Converts a Moment.js date format string to a chrono format string.
///
/// Text in brackets is taken literally. The quarter token `Q`, for which chrono has no
/// specifier, becomes a mark that [`format_date`] resolves.
pub fn momentjs_to_chrono(moment_format: &str) -> (r: String)
    ensures
        r@ == converted(moment_format@),
{
    let s = text::to_chars(moment_format);
    let table = token_table();
    let mut out: Vec<char> = Vec::new();
    let mut pos: usize = 0;
    assert(s@.skip(0) =~= s@);
    assert(out@ + converted(s@) =~= converted(s@));
    while pos < s.len()
        invariant
            pos <= s.len(),
            table.len() == tokens().len(),
            forall|j: int|
                0 <= j < table.len() ==> (#[trigger] table[j]).0@ == tokens()[j].0 && table[j].1@
                    == tokens()[j].1,
            converted(s@) == out@ + converted(s@.skip(pos as int)),
        decreases s.len() - pos,
    {
        let rest = vstd::slice::slice_subrange(&s, pos, s.len());
        assert(rest@ =~= s@.skip(pos as int));
        let ghost before = out@;
        if s[pos] == '[' {
            let mut end: usize = pos + 1;
            let ghost inner = rest@.drop_first();
            assert(inner.skip(0) =~= inner);
            while end < s.len() && s[end] != ']'
                invariant
                    pos < end <= s.len(),
                    inner == s@.skip(pos as int + 1),
                    before_bracket(inner) == (end - pos - 1) + before_bracket(
                        inner.skip(end - pos - 1),
                    ),
                decreases s.len() - end,
            {
                assert(inner.skip(end - pos - 1).drop_first() =~= inner.skip(end - pos));
                end = end + 1;
            }
            let literal = vstd::slice::slice_subrange(&s, pos + 1, end);
            text::append_chars(&mut out, literal);
            let ghost n = before_bracket(inner) as int;
            assert(n == end - pos - 1);
            if end < s.len() {
                assert(inner.take(n) =~= literal@);
                assert(inner.skip(n + 1) =~= s@.skip(end as int + 1));
                assert(before + (literal@ + converted(s@.skip(end as int + 1))) =~= before
                    + literal@ + converted(s@.skip(end as int + 1)));
                pos = end + 1;
            } else {
                assert(inner =~= literal@);
                assert(s@.skip(end as int).len() == 0);
                assert(out@ + converted(s@.skip(end as int)) =~= out@);
                pos = end;
            }
        } else {
            let found = find_token(&table, rest);
            let mut advanced: bool = false;
            if let Some(k) = found {
                let token = text::to_chars(table[k].0);
                let replacement = text::to_chars(table[k].1);
                if token.len() > 0 {
                    text::append_chars(&mut out, &replacement);
                    proof {
                        let tail = converted(s@.skip(pos + token@.len()));
                        assert(rest@.skip(token@.len() as int) =~= s@.skip(pos + token@.len()));
                        assert(converted(rest@) == replacement@ + tail);
                        assert(before + (replacement@ + tail) =~= before + replacement@ + tail);
                    }
                    pos = pos + token.len();
                    advanced = true;
                }
            }
            if !advanced {
                out.push(s[pos]);
                proof {
                    let tail = converted(s@.skip(pos as int + 1));
                    assert(rest@.drop_first() =~= s@.skip(pos as int + 1));
                    assert(converted(rest@) == seq![rest@[0]] + tail);
                    assert(before + (seq![rest@[0]] + tail) =~= before.push(rest@[0]) + tail);
                }
                pos = pos + 1;
            }
        }
    }
    assert(s@.skip(pos as int).len() == 0);
    assert(out@ + converted(s@.skip(pos as int)) =~= out@);
    text::from_chars(&out)
}

// ---------------------------------------------------------------------------
// Dates as text
// ---------------------------------------------------------------------------

/// The text of a date in a chrono format; nothing if there is no such date or the format asks
/// for what a date does not have.
pub uninterp spec fn date_text(date: Date, format: Seq<char>) -> Option<Seq<char>>;

/// The date that a text stands for in a chrono format.
pub uninterp spec fn date_of(text: Seq<char>, format: Seq<char>) -> Option<Date>;

/// `NaiveDate::format` of `chrono`, written out: what comes out depends on the date and the
/// format alone. A date that the calendar does not have and a format that cannot be written
/// give nothing.
#[verifier::external_body]
fn write_date(date: Date, format: &str) -> (r: Option<String>)
    ensures
        match r {
            Some(t) => date_text(date, format@) == Some(t@),
            None => date_text(date, format@) is None,
        },
{
    let day = chrono::NaiveDate::from_ymd_opt(date.year, date.month, date.day)?;
    let mut out = String::new();
    match write!(out, "{}", day.format(format)) {
        Ok(()) => Some(out),
        Err(_) => None,
    }
}

/// `NaiveDate::parse_from_str` of `chrono`: what comes out depends on the text and the format
/// alone.
#[verifier::external_body]
fn read_date(text: &str, format: &str) -> (r: Option<Date>)
    ensures
        r == date_of(text@, format@),
{
    match chrono::NaiveDate::parse_from_str(text, format) {
        Ok(d) => Some(
            Date {
                year: chrono::Datelike::year(&d),
                month: chrono::Datelike::month(&d),
                day: chrono::Datelike::day(&d),
            },
        ),
        Err(_) => None,
    }
}

/// The digit of the quarter that a month lies in.
pub open spec fn quarter_digit(month: u32) -> Seq<char> {
    if month <= 3 {
        seq!['1']
    } else if month <= 6 {
        seq!['2']
    } else if month <= 9 {
        seq!['3']
    } else {
        seq!['4']
    }
}

/// The text of a date in a Moment.js format.
pub open spec fn formatted(date: Date, moment_format: Seq<char>) -> Option<Seq<char>> {
    match date_text(date, converted(moment_format)) {
        Some(t) => Some(text::replace(t, quarter_mark(), quarter_digit(date.month))),
        None => None,
    }
}

/// Puts the quarter of a month in the place of its marks.
pub fn fill_quarter(formatted: &str, month: u32) -> (r: String)
    ensures
        r@ == text::replace(formatted@, quarter_mark(), quarter_digit(month)),
{
    let chars = text::to_chars(formatted);
    let mark: [char; 3] = ['\u{1}', 'Q', '\u{1}'];
    assert(mark@ == quarter_mark());
    let digit: [char; 1] = [
        if month <= 3 {
            '1'
        } else if month <= 6 {
            '2'
        } else if month <= 9 {
            '3'
        } else {
            '4'
        },
    ];
    assert(digit@ == quarter_digit(month));
    text::from_chars(&text::replace_in(&chars, &mark, &digit))
}

/// Formats a date using a Moment.js format string.
pub fn format_date(date: &Date, moment_format: &str) -> (r: String)
    requires
        date_text(*date, converted(moment_format@)) is Some,
    ensures
        formatted(*date, moment_format@) == Some(r@),
{
    let chrono_format = momentjs_to_chrono(moment_format);
    match write_date(*date, &chrono_format) {
        Some(t) => fill_quarter(&t, date.month),
        None => String::new(),
    }
}

/// Formats a date using a Moment.js format string; `None` where the format asks for what a date
/// does not have.
pub fn try_format_date(date: &Date, moment_format: &str) -> (r: Option<String>)
    ensures
        match r {
            Some(t) => formatted(*date, moment_format@) == Some(t@),
            None => formatted(*date, moment_format@) is None,
        },
{
    let chrono_format = momentjs_to_chrono(moment_format);
    match write_date(*date, &chrono_format) {
        Some(_) => Some(format_date(date, moment_format)),
        None => None,
    }
}

// ---------------------------------------------------------------------------
// Configuration
// ---------------------------------------------------------------------------

/// Settings of the core daily notes.
#[derive(Clone, Debug)]
pub struct CoreDailyNotesConfig {
    pub format: Option<String>,
    pub folder: Option<String>,
    pub template: Option<String>,
}

/// Settings of one period in the Periodic Notes plugin.
#[derive(Clone, Debug)]
pub struct PluginPeriodEntry {
    pub enabled: Option<bool>,
    pub format: Option<String>,
    pub folder: Option<String>,
    pub template: Option<String>,
}

/// One calendar set of the Periodic Notes plugin.
#[derive(Clone, Debug)]
pub struct CalendarSet {
    pub day: Option<PluginPeriodEntry>,
    pub week: Option<PluginPeriodEntry>,
    pub month: Option<PluginPeriodEntry>,
    pub quarter: Option<PluginPeriodEntry>,
    pub year: Option<PluginPeriodEntry>,
}

/// Settings of the Periodic Notes plugin without calendar sets.
#[derive(Clone, Debug)]
pub struct LegacyPluginConfig {
    pub daily: Option<PluginPeriodEntry>,
    pub weekly: Option<PluginPeriodEntry>,
    pub monthly: Option<PluginPeriodEntry>,
    pub quarterly: Option<PluginPeriodEntry>,
    pub yearly: Option<PluginPeriodEntry>,
}

/// Settings of the Periodic Notes plugin.
#[derive(Clone, Debug)]
pub enum PluginPeriodicConfig {
    CalendarSets { calendar_sets: Vec<CalendarSet> },
    Legacy(Box<LegacyPluginConfig>),
}

/// The mathematical form of a [`PeriodicNoteConfig`].
pub struct ConfigView {
    pub format: Seq<char>,
    pub folder: Option<Seq<char>>,
    pub template: Option<Seq<char>>,
}

/// The text in an option, where it is not empty.
pub open spec fn filled(o: Option<String>) -> Option<Seq<char>> {
    match o {
        Some(s) => if s@.len() > 0 {
            Some(s@)
        } else {
            None
        },
        None => None,
    }
}

impl View for PeriodicNoteConfig {
    type V = ConfigView;

    open spec fn view(&self) -> ConfigView {
        ConfigView {
            format: self.format@,
            folder: crate::models::option_text(self.folder),
            template: crate::models::option_text(self.template),
        }
    }
}

/// The format of a period for which none is set.
pub open spec fn standard_format(period: NotePeriod) -> Seq<char> {
    match period {
        NotePeriod::Daily => "YYYY-MM-DD"@,
        NotePeriod::Weekly => "gggg-[W]ww"@,
        NotePeriod::Monthly => "YYYY-MM"@,
        NotePeriod::Quarterly => "YYYY-[Q]Q"@,
        NotePeriod::Yearly => "YYYY"@,
    }
}

/// Settings in which empty texts count as not set.
pub open spec fn settings(
    format: Option<String>,
    folder: Option<String>,
    template: Option<String>,
    standard: Seq<char>,
) -> ConfigView {
    ConfigView {
        format: match filled(format) {
            Some(f) => f,
            None => standard,
        },
        folder: filled(folder),
        template: filled(template),
    }
}

/// The entry of a period in the settings of the plugin: in its first calendar set, if it has
/// calendar sets.
pub open spec fn plugin_entry(plugin: PluginPeriodicConfig, period: NotePeriod) -> Option<
    PluginPeriodEntry,
> {
    match plugin {
        PluginPeriodicConfig::CalendarSets { calendar_sets } => if calendar_sets@.len() > 0 {
            let set = calendar_sets@[0];
            match period {
                NotePeriod::Daily => set.day,
                NotePeriod::Weekly => set.week,
                NotePeriod::Monthly => set.month,
                NotePeriod::Quarterly => set.quarter,
                NotePeriod::Yearly => set.year,
            }
        } else {
            None
        },
        PluginPeriodicConfig::Legacy(legacy) => match period {
            NotePeriod::Daily => legacy.daily,
            NotePeriod::Weekly => legacy.weekly,
            NotePeriod::Monthly => legacy.monthly,
            NotePeriod::Quarterly => legacy.quarterly,
            NotePeriod::Yearly => legacy.yearly,
        },
    }
}

/// The settings of a period from the plugin, where it is enabled there.
pub open spec fn plugin_settings(plugin: Option<PluginPeriodicConfig>, period: NotePeriod) -> Option<
    ConfigView,
> {
    match plugin {
        None => None,
        Some(p) => match plugin_entry(p, period) {
            Some(e) => if e.enabled == Some(true) {
                Some(settings(e.format, e.folder, e.template, standard_format(period)))
            } else {
                None
            },
            None => None,
        },
    }
}

/// The settings that hold for a period: those of the plugin, else, for daily notes, those of the
/// core, else the built-in ones.
pub open spec fn effective(
    plugin: Option<PluginPeriodicConfig>,
    core: Option<CoreDailyNotesConfig>,
    period: NotePeriod,
) -> ConfigView {
    match plugin_settings(plugin, period) {
        Some(c) => c,
        None => match core {
            Some(c) => if period == NotePeriod::Daily {
                settings(c.format, c.folder, c.template, "YYYY-MM-DD"@)
            } else {
                ConfigView { format: standard_format(period), folder: None, template: None }
            },
            None => ConfigView { format: standard_format(period), folder: None, template: None },
        },
    }
}

/// The format of a period for which none is set.
fn default_format(period: NotePeriod) -> (r: &'static str)
    ensures
        r@ == standard_format(period),
{
    match period {
        NotePeriod::Daily => "YYYY-MM-DD",
        NotePeriod::Weekly => "gggg-[W]ww",
        NotePeriod::Monthly => "YYYY-MM",
        NotePeriod::Quarterly => "YYYY-[Q]Q",
        NotePeriod::Yearly => "YYYY",
    }
}

/// The built-in settings of a period.
fn default_config(period: NotePeriod) -> (r: PeriodicNoteConfig)
    ensures
        r@ == (ConfigView { format: standard_format(period), folder: None, template: None }),
{
    PeriodicNoteConfig {
        format: default_format(period).to_owned(),
        folder: None,
        template: None,
    }
}

/// Drops an empty text.
fn non_empty(o: Option<String>) -> (r: Option<String>)
    ensures
        crate::models::option_text(r) == filled(o),
{
    match o {
        Some(s) => {
            let chars = text::to_chars(&s);
            if chars.len() > 0 {
                Some(s)
            } else {
                None
            }
        },
        None => None,
    }
}

/// Settings in which empty texts count as not set.
fn make_config(
    format: Option<String>,
    folder: Option<String>,
    template: Option<String>,
    standard: &str,
) -> (r: PeriodicNoteConfig)
    ensures
        r@ == settings(format, folder, template, standard@),
{
    PeriodicNoteConfig {
        format: match non_empty(format) {
            Some(f) => f,
            None => standard.to_owned(),
        },
        folder: non_empty(folder),
        template: non_empty(template),
    }
}

/// The entry of a period in a calendar set.
fn extract_from_calendar_set(set: CalendarSet, period: NotePeriod) -> (r: Option<PluginPeriodEntry>)
    ensures
        r == match period {
            NotePeriod::Daily => set.day,
            NotePeriod::Weekly => set.week,
            NotePeriod::Monthly => set.month,
            NotePeriod::Quarterly => set.quarter,
            NotePeriod::Yearly => set.year,
        },
{
    match period {
        NotePeriod::Daily => set.day,
        NotePeriod::Weekly => set.week,
        NotePeriod::Monthly => set.month,
        NotePeriod::Quarterly => set.quarter,
        NotePeriod::Yearly => set.year,
    }
}

/// The entry of a period in settings without calendar sets.
fn extract_from_legacy(legacy: LegacyPluginConfig, period: NotePeriod) -> (r: Option<
    PluginPeriodEntry,
>)
    ensures
        r == match period {
            NotePeriod::Daily => legacy.daily,
            NotePeriod::Weekly => legacy.weekly,
            NotePeriod::Monthly => legacy.monthly,
            NotePeriod::Quarterly => legacy.quarterly,
            NotePeriod::Yearly => legacy.yearly,
        },
{
    match period {
        NotePeriod::Daily => legacy.daily,
        NotePeriod::Weekly => legacy.weekly,
        NotePeriod::Monthly => legacy.monthly,
        NotePeriod::Quarterly => legacy.quarterly,
        NotePeriod::Yearly => legacy.yearly,
    }
}

/// The mathematical form of settings that may be missing.
pub open spec fn option_config(o: Option<PeriodicNoteConfig>) -> Option<ConfigView> {
    match o {
        Some(c) => Some(c@),
        None => None,
    }
}

/// The settings of a period from the plugin, where it is enabled there.
pub fn try_read_plugin_config(plugin: Option<PluginPeriodicConfig>, period: NotePeriod) -> (r: Option<
    PeriodicNoteConfig,
>)
    ensures
        option_config(r) == plugin_settings(plugin, period),
{
    let entry = match plugin {
        None => None,
        Some(PluginPeriodicConfig::CalendarSets { calendar_sets }) => {
            let mut sets = calendar_sets;
            if sets.len() > 0 {
                extract_from_calendar_set(sets.remove(0), period)
            } else {
                None
            }
        },
        Some(PluginPeriodicConfig::Legacy(legacy)) => extract_from_legacy(*legacy, period),
    };
    match entry {
        Some(e) => {
            let enabled = match e.enabled {
                Some(b) => b,
                None => false,
            };
            if enabled {
                Some(make_config(e.format, e.folder, e.template, default_format(period)))
            } else {
                None
            }
        },
        None => None,
    }
}

/// Chooses the settings of a period from what Obsidian's config files hold.
///
/// Resolution order:
/// 1. Periodic Notes community plugin
/// 2. Core daily notes, only for `Daily`
/// 3. Built-in defaults
pub fn read_periodic_config(
    plugin: Option<PluginPeriodicConfig>,
    core: Option<CoreDailyNotesConfig>,
    period: NotePeriod,
) -> (r: PeriodicNoteConfig)
    ensures
        r@ == effective(plugin, core, period),
{
    if let Some(config) = try_read_plugin_config(plugin, period) {
        return config;
    }
    if period == NotePeriod::Daily {
        if let Some(c) = core {
            return make_config(c.format, c.folder, c.template, "YYYY-MM-DD");
        }
    }
    default_config(period)
}

// ---------------------------------------------------------------------------
// Paths
// ---------------------------------------------------------------------------

/// A path in the folder of some settings.
pub open spec fn in_folder(config: ConfigView, name: Seq<char>) -> Seq<char> {
    match config.folder {
        Some(folder) => if folder.len() > 0 {
            path::joined_path(folder, name)
        } else {
            name
        },
        None => name,
    }
}

/// The path of the note of a date.
pub open spec fn note_path(config: ConfigView, date: Date) -> Option<Seq<char>> {
    match formatted(date, config.format) {
        Some(t) => Some(in_folder(config, t + seq!['.', 'm', 'd'])),
        None => None,
    }
}

/// Puts a file into the folder of some settings.
fn place_in_folder(config: &PeriodicNoteConfig, name: &str) -> (r: String)
    ensures
        r@ == in_folder(config@, name@),
{
    match &config.folder {
        Some(folder) => {
            let chars = text::to_chars(folder);
            if chars.len() > 0 {
                path::join_path(folder, name)
            } else {
                name.to_owned()
            }
        },
        None => name.to_owned(),
    }
}

/// Derives the file path, relative to the vault root, for a periodic note given a date.
pub fn periodic_note_path(config: &PeriodicNoteConfig, date: &Date) -> (r: String)
    requires
        date_text(*date, converted(config.format@)) is Some,
    ensures
        note_path(config@, *date) == Some(r@),
{
    let stem = format_date(date, &config.format);
    let mut name = text::to_chars(&stem);
    let md: [char; 3] = ['.', 'm', 'd'];
    text::append_chars(&mut name, &md);
    assert(md@ == seq!['.', 'm', 'd']);
    place_in_folder(config, &text::from_chars(&name))
}

/// Derives the file path for a periodic note given a date; `None` where the format asks for
/// what a date does not have.
pub fn try_periodic_note_path(config: &PeriodicNoteConfig, date: &Date) -> (r: Option<String>)
    ensures
        match r {
            Some(p) => note_path(config@, *date) == Some(p@),
            None => note_path(config@, *date) is None,
        },
{
    match try_format_date(date, &config.format) {
        Some(_) => Some(periodic_note_path(config, date)),
        None => None,
    }
}

/// The folder in which the notes of some settings are kept; empty for the root of the vault.
pub fn folder_to_scan(config: &PeriodicNoteConfig) -> (r: &str)
    ensures
        r@ == match config.folder {
            Some(f) => f@,
            None => ""@,
        },
{
    match &config.folder {
        Some(f) => f,
        None => "",
    }
}

/// The file of a template: the path itself, with `.md` where it ends in a name without an
/// extension.
pub open spec fn file_of_template(template: Seq<char>) -> Seq<char> {
    let name = path::file_name(template);
    if name.len() > 0 && path::extension_of(name) is None {
        path::tidy(template) + seq!['.', 'm', 'd']
    } else {
        template
    }
}

/// Computes [`file_of_template`].
pub fn template_file(template: &str) -> (r: String)
    ensures
        r@ == file_of_template(template@),
{
    let name = path::name_of(template);
    if name.len() == 0 || path::extension(&name).is_some() {
        return template.to_owned();
    }
    let mut out = text::to_chars(&path::tidied(template));
    let md: [char; 3] = ['.', 'm', 'd'];
    text::append_chars(&mut out, &md);
    assert(md@ == seq!['.', 'm', 'd']);
    text::from_chars(&out)
}

// ---------------------------------------------------------------------------
// Dates in file names
// ---------------------------------------------------------------------------

/// The value of a text of ASCII digits; nothing for any other text.
pub open spec fn decimal(s: Seq<char>) -> Option<nat>
    decreases s.len(),
{
    if s.len() == 0 {
        Some(0)
    } else {
        match decimal(s.drop_last()) {
            Some(n) => if '0' <= s.last() <= '9' {
                Some(10 * n + (s.last() as nat - '0' as nat) as nat)
            } else {
                None
            },
            None => None,
        }
    }
}

/// The value of up to four characters, where they are ASCII digits.
pub open spec fn number_of(s: Seq<char>) -> Option<nat> {
    if 0 < s.len() <= 4 {
        decimal(s)
    } else {
        None
    }
}

/// A format with markers in place of the quarter and the year.
pub open spec fn with_markers(format: Seq<char>) -> Seq<char> {
    text::replace(
        text::replace(text::replace(format, quarter_mark(), "<<Q>>"@), "%Y"@, "<<Y4>>"@),
        "%y"@,
        "<<Y2>>"@,
    )
}

/// The pattern of the file names in a format with the quarter in it.
pub open spec fn quarter_pattern(format: Seq<char>) -> Seq<char> {
    let groups = text::replace(
        text::replace(
            text::replace(pattern::escaped(with_markers(format)), "<<Q>>"@, "(\\d)"@),
            "<<Y4>>"@,
            "(\\d{4})"@,
        ),
        "<<Y2>>"@,
        "(\\d{2})"@,
    );
    seq!['^'] + groups + seq!['$']
}

/// The part of a date that a group of a file name holds.
#[derive(Clone, Copy, Debug, PartialEq, Eq, Structural)]
pub enum Part {
    LongYear,
    ShortYear,
    Quarter,
}

/// A list of places with one more, in the order of the places.
pub open spec fn with_place(list: Seq<(nat, Part)>, x: (nat, Part)) -> Seq<(nat, Part)>
    decreases list.len(),
{
    if list.len() == 0 || list.last().0 <= x.0 {
        list.push(x)
    } else {
        with_place(list.drop_last(), x).push(list.last())
    }
}

/// A list of places with that of a marker, if the text holds it.
pub open spec fn with_marker(
    list: Seq<(nat, Part)>,
    marked: Seq<char>,
    marker: Seq<char>,
    part: Part,
) -> Seq<(nat, Part)> {
    match text::find(marked, marker) {
        Some(i) => with_place(list, (i, part)),
        None => list,
    }
}

/// The parts of a date in the order in which their markers first stand in a text.
pub open spec fn part_places(marked: Seq<char>) -> Seq<(nat, Part)> {
    with_marker(
        with_marker(
            with_marker(Seq::empty(), marked, "<<Y4>>"@, Part::LongYear),
            marked,
            "<<Y2>>"@,
            Part::ShortYear,
        ),
        marked,
        "<<Q>>"@,
        Part::Quarter,
    )
}

/// Year and quarter that the first `k` groups hold, each if it is a number.
pub open spec fn read_parts(
    places: Seq<(nat, Part)>,
    groups: Seq<Option<Seq<char>>>,
    k: nat,
) -> Option<(Option<nat>, Option<nat>)>
    decreases k,
{
    if k == 0 {
        Some((None, None))
    } else {
        match read_parts(places, groups, (k - 1) as nat) {
            None => None,
            Some((year, quarter)) => if k >= groups.len() || groups[k as int] is None {
                None
            } else {
                let n = number_of(groups[k as int]->0);
                match places[k - 1].1 {
                    Part::LongYear => Some((n, quarter)),
                    Part::ShortYear => Some(
                        (
                            match n {
                                Some(y) => Some(2000 + y),
                                None => None,
                            },
                            quarter,
                        ),
                    ),
                    Part::Quarter => Some((year, n)),
                }
            },
        }
    }
}

/// The first day of a quarter of a year.
pub open spec fn quarter_start(parts: Option<(Option<nat>, Option<nat>)>) -> Option<Date> {
    match parts {
        Some((Some(year), Some(quarter))) => if 1 <= quarter <= 4 {
            Some(Date { year: year as i32, month: ((quarter - 1) * 3 + 1) as u32, day: 1 })
        } else {
            None
        },
        _ => None,
    }
}

/// The texts of the groups of a match.
pub open spec fn group_texts(text: Seq<char>, spans: Seq<Option<(usize, usize)>>) -> Seq<
    Option<Seq<char>>,
> {
    spans.map_values(
        |g: Option<(usize, usize)>|
            match g {
                Some((a, b)) => Some(text::byte_slice(text, a as int, b as int)),
                None => None,
            },
    )
}

/// The date that a file name stands for in a format with the quarter in it.
pub open spec fn quarter_date(stem: Seq<char>, format: Seq<char>) -> Option<Date> {
    let found = pattern::matches_of(quarter_pattern(format), stem);
    if found.len() > 0 {
        let places = part_places(with_markers(format));
        quarter_start(read_parts(places, group_texts(stem, found[0]), places.len()))
    } else {
        None
    }
}

/// The first of two dates that is there.
pub open spec fn or_date(a: Option<Date>, b: Option<Date>) -> Option<Date> {
    if a is Some {
        a
    } else {
        b
    }
}

/// The date that a file name stands for: as a whole date, else as an ISO week, whose Monday is
/// taken, else as a month, else as a year, whose first day is taken.
pub open spec fn stem_date(stem: Seq<char>, format: Seq<char>) -> Option<Date> {
    if text::find(format, quarter_mark()) is Some {
        quarter_date(stem, format)
    } else {
        or_date(
            date_of(stem, format),
            or_date(
                if text::find(format, "%G"@) is Some || text::find(format, "%V"@) is Some {
                    date_of(stem + "-1"@, format + "-%u"@)
                } else {
                    None
                },
                or_date(
                    date_of(stem + "-01"@, format + "-%d"@),
                    date_of(stem + "-01-01"@, format + "-%m-%d"@),
                ),
            ),
        )
    }
}

proof fn lemma_decimal(s: Seq<char>)
    requires
        s.len() <= 4,
    ensures
        decimal(s) matches Some(n) ==> (s.len() == 0 ==> n == 0) && (s.len() == 1 ==> n < 10) && (
        s.len() == 2 ==> n < 100) && (s.len() == 3 ==> n < 1000) && n < 10000,
{
    reveal_with_fuel(decimal, 6);
}

/// Computes [`number_of`].
fn parse_number(s: &[char]) -> (r: Option<u32>)
    ensures
        match r {
            Some(n) => number_of(s@) == Some(n as nat) && n < 10000,
            None => number_of(s@) is None,
        },
{
    if s.len() == 0 || s.len() > 4 {
        return None;
    }
    let mut n: u32 = 0;
    let mut i: usize = 0;
    while i < s.len()
        invariant
            i <= s.len() <= 4,
            decimal(s@.take(i as int)) == Some(n as nat),
        decreases s.len() - i,
    {
        proof {
            lemma_decimal(s@.take(i as int));
            assert(s@.take(i as int + 1).drop_last() =~= s@.take(i as int));
            assert(s@.take(i as int + 1).last() == s@[i as int]);
        }
        let c = s[i];
        if c < '0' || c > '9' {
            proof {
                lemma_decimal_none(s@, i as int + 1);
            }
            return None;
        }
        n = 10 * n + (c as u32 - '0' as u32);
        i = i + 1;
    }
    proof {
        assert(s@.take(i as int) =~= s@);
        lemma_decimal(s@);
    }
    Some(n)
}

proof fn lemma_decimal_none(s: Seq<char>, k: int)
    requires
        0 <= k <= s.len(),
        decimal(s.take(k)) is None,
    ensures
        decimal(s) is None,
    decreases s.len() - k,
{
    if k < s.len() {
        assert(s.take(k + 1).drop_last() =~= s.take(k));
        lemma_decimal_none(s, k + 1);
    } else {
        assert(s.take(k) =~= s);
    }
}

/// Replaces a text in another one.
fn replace_text(s: &[char], from: &str, to: &str) -> (r: Vec<char>)
    requires
        from@.len() > 0,
    ensures
        r@ == text::replace(s@, from@, to@),
{
    let f = text::to_chars(from);
    let t = text::to_chars(to);
    text::replace_in(s, &f, &t)
}

/// Computes [`with_markers`].
fn mark_format(format: &str) -> (r: Vec<char>)
    ensures
        r@ == with_markers(format@),
{
    proof {
        reveal_strlit("%Y");
        reveal_strlit("%y");
    }
    let chars = text::to_chars(format);
    let mark: [char; 3] = ['\u{1}', 'Q', '\u{1}'];
    assert(mark@ == quarter_mark());
    let q = text::to_chars("<<Q>>");
    let step = text::replace_in(&chars, &mark, &q);
    let step = replace_text(&step, "%Y", "<<Y4>>");
    replace_text(&step, "%y", "<<Y2>>")
}

/// Computes [`with_place`] on the first of two parallel lists.
fn add_place(places: &mut Vec<(usize, Part)>, at: usize, part: Part)
    ensures
        place_views(final(places)@) == with_place(place_views(old(places)@), (at as nat, part)),
{
    let mut i: usize = places.len();
    let ghost all = place_views(places@);
    let ghost x = (at as nat, part);
    assert(all.take(i as int) =~= all);
    assert(with_place(all, x) + all.skip(i as int) =~= with_place(all, x));
    while i > 0 && places[i - 1].0 > at
        invariant
            i <= places.len(),
            all == place_views(places@),
            x == (at as nat, part),
            *old(places) == *places,
            with_place(all, x) == with_place(all.take(i as int), x) + all.skip(i as int),
        decreases i,
    {
        proof {
            let head = all.take(i as int);
            assert(head.last() == all[i as int - 1]);
            assert(head.drop_last() =~= all.take(i as int - 1));
            assert(with_place(head, x) == with_place(head.drop_last(), x).push(head.last()));
            assert(with_place(head, x) + all.skip(i as int) =~= with_place(head.drop_last(), x)
                + all.skip(i as int - 1));
        }
        i = i - 1;
    }
    proof {
        let head = all.take(i as int);
        if i > 0 {
            assert(head.last() == all[i as int - 1]);
        }
        assert(with_place(head, x) == head.push(x));
        assert(all.insert(i as int, x) =~= head.push(x) + all.skip(i as int));
    }
    places.insert(i, (at, part));
    assert(place_views(places@) =~= all.insert(i as int, x));
}

/// The mathematical form of places.
spec fn place_views(v: Seq<(usize, Part)>) -> Seq<(nat, Part)> {
    v.map_values(|x: (usize, Part)| (x.0 as nat, x.1))
}

/// Adds the place of a marker, if a text holds it.
fn add_marker(places: &mut Vec<(usize, Part)>, marked: &[char], marker: &str, part: Part)
    ensures
        place_views(final(places)@) == with_marker(
            place_views(old(places)@),
            marked@,
            marker@,
            part,
        ),
{
    let m = text::to_chars(marker);
    if let Some(i) = text::find_in(marked, &m) {
        add_place(places, i, part);
    }
}

/// Parses a date from a file name stem that holds the quarter: the first day of the quarter.
pub fn try_parse_quarter_date(stem: &str, chrono_format: &str) -> (r: Option<Date>)
    ensures
        r == quarter_date(stem@, chrono_format@),
{
    proof {
        reveal_strlit("<<Q>>");
        reveal_strlit("<<Y4>>");
        reveal_strlit("<<Y2>>");
    }
    let marked = mark_format(chrono_format);
    let escaped = pattern::escape(&text::from_chars(&marked));
    let step = text::to_chars(&escaped);
    let step = replace_text(&step, "<<Q>>", "(\\d)");
    let step = replace_text(&step, "<<Y4>>", "(\\d{4})");
    let step = replace_text(&step, "<<Y2>>", "(\\d{2})");
    let mut whole: Vec<char> = Vec::new();
    whole.push('^');
    text::append_chars(&mut whole, &step);
    whole.push('$');
    assert(whole@ =~= quarter_pattern(chrono_format@));
    let found = pattern::find_matches(&text::from_chars(&whole), stem);
    assert(pattern::spans(found@).len() == found@.len());
    if found.len() == 0 {
        return None;
    }
    let spans = &found[0];
    assert(pattern::spans(found@)[0] == spans@);
    let mut places: Vec<(usize, Part)> = Vec::new();
    assert(place_views(places@) =~= Seq::<(nat, Part)>::empty());
    add_marker(&mut places, &marked, "<<Y4>>", Part::LongYear);
    add_marker(&mut places, &marked, "<<Y2>>", Part::ShortYear);
    add_marker(&mut places, &marked, "<<Q>>", Part::Quarter);
    let chars = text::to_chars(stem);
    let ghost ps = place_views(places@);
    let ghost groups = group_texts(stem@, spans@);
    let mut year: Option<u32> = None;
    let mut quarter: Option<u32> = None;
    let mut k: usize = 0;
    while k < places.len()
        invariant
            k <= places.len(),
            ps == place_views(places@),
            ps == part_places(with_markers(chrono_format@)),
            groups == group_texts(stem@, spans@),
            chars@ == stem@,
            pattern::spans_fit(pattern::spans(found@), text::byte_len(stem@)),
            pattern::spans(found@).len() > 0 && pattern::spans(found@)[0] == spans@,
            pattern::spans(found@) == pattern::matches_of(
                quarter_pattern(chrono_format@),
                stem@,
            ),
            read_parts(ps, groups, k as nat) == Some(
                (
                    match year {
                        Some(y) => Some(y as nat),
                        None => None,
                    },
                    match quarter {
                        Some(q) => Some(q as nat),
                        None => None,
                    },
                ),
            ),
            year matches Some(y) ==> y < 12000,
        decreases places.len() - k,
    {
        let here: Option<(usize, usize)> = if k + 1 < spans.len() {
            spans[k + 1]
        } else {
            None
        };
        assert(groups.len() == spans@.len());
        let (from, to) = match here {
            None => {
                proof {
                    lemma_read_parts_none(ps, groups, (k + 1) as nat, places.len() as nat);
                }
                return None;
            },
            Some(span) => span,
        };
        proof {
            assert(pattern::spans(found@)[0][k + 1] == Some((from, to)));
            text::lemma_chars_before(stem@, from as int, to as int);
        }
        let a = text::char_index(&chars, from);
        let b = text::char_index(&chars, to);
        let value = vstd::slice::slice_subrange(&chars, a, b);
        assert(groups[k + 1] == Some(value@));
        let n = parse_number(value);
        assert(ps[k as int].1 == places@[k as int].1);
        match places[k].1 {
            Part::LongYear => {
                year = n;
            },
            Part::ShortYear => {
                year = match n {
                    Some(y) => Some(2000 + y),
                    None => None,
                };
            },
            Part::Quarter => {
                quarter = n;
            },
        }
        k = k + 1;
    }
    match (year, quarter) {
        (Some(y), Some(q)) => if 1 <= q && q <= 4 {
            Some(Date { year: y as i32, month: (q - 1) * 3 + 1, day: 1 })
        } else {
            None
        },
        _ => None,
    }
}

proof fn lemma_read_parts_none(
    places: Seq<(nat, Part)>,
    groups: Seq<Option<Seq<char>>>,
    k: nat,
    n: nat,
)
    requires
        read_parts(places, groups, k) is None,
        k <= n,
    ensures
        read_parts(places, groups, n) is None,
    decreases n,
{
    if k < n {
        lemma_read_parts_none(places, groups, k, (n - 1) as nat);
    }
}

/// Two texts one after the other.
fn join_two(a: &str, b: &str) -> (r: String)
    ensures
        r@ == a@ + b@,
{
    let mut out = a.to_owned();
    out.push_str(b);
    out
}

/// Whether a text holds another one.
fn holds(s: &str, p: &str) -> (r: bool)
    ensures
        r == text::find(s@, p@) is Some,
{
    let chars = text::to_chars(s);
    let part = text::to_chars(p);
    text::find_in(&chars, &part).is_some()
}

/// Tries to parse a filename stem into a date, which may be a full date, an ISO week, a month,
/// a quarter or a year.
pub fn try_parse_date(stem: &str, chrono_format: &str) -> (r: Option<Date>)
    ensures
        r == stem_date(stem@, chrono_format@),
{
    let chars = text::to_chars(chrono_format);
    let mark: [char; 3] = ['\u{1}', 'Q', '\u{1}'];
    assert(mark@ == quarter_mark());
    if text::find_in(&chars, &mark).is_some() {
        return try_parse_quarter_date(stem, chrono_format);
    }
    let whole = read_date(stem, chrono_format);
    if whole.is_some() {
        return whole;
    }
    if holds(chrono_format, "%G") || holds(chrono_format, "%V") {
        let monday = read_date(&join_two(stem, "-1"), &join_two(chrono_format, "-%u"));
        if monday.is_some() {
            return monday;
        }
    }
    let first = read_date(&join_two(stem, "-01"), &join_two(chrono_format, "-%d"));
    if first.is_some() {
        return first;
    }
    read_date(&join_two(stem, "-01-01"), &join_two(chrono_format, "-%m-%d"))
}

// ---------------------------------------------------------------------------
// Recent notes
// ---------------------------------------------------------------------------

/// Whether a date lies before another one.
pub open spec fn earlier(a: Date, b: Date) -> bool {
    a.year < b.year || (a.year == b.year && (a.month < b.month || (a.month == b.month && a.day
        < b.day)))
}

/// A list that starts with the newest date, with one more note; among notes of the same date the
/// new one comes last.
pub open spec fn with_dated(list: Seq<(Date, Seq<char>)>, x: (Date, Seq<char>)) -> Seq<
    (Date, Seq<char>),
>
    decreases list.len(),
{
    if list.len() == 0 || !earlier(list.last().0, x.0) {
        list.push(x)
    } else {
        with_dated(list.drop_last(), x).push(list.last())
    }
}

/// The date that a file below the folder of the notes stands for: a file with the extension
/// `md` whose path without it is a date in the format.
pub open spec fn file_date(file: Seq<char>, format: Seq<char>) -> Option<Date> {
    if path::extension_of(path::file_name(file)) == Some(seq!['m', 'd']) && file.len() >= 3 {
        stem_date(path::forward_slashes(file.take(file.len() - 3)), format)
    } else {
        None
    }
}

/// The dated notes among the first `k` files, the newest first.
pub open spec fn dated(files: Seq<Seq<char>>, config: ConfigView, k: nat) -> Seq<(Date, Seq<char>)>
    decreases k,
{
    if k == 0 {
        Seq::empty()
    } else {
        let before = dated(files, config, (k - 1) as nat);
        match file_date(files[k - 1], converted(config.format)) {
            Some(date) => with_dated(before, (date, in_folder(config, files[k - 1]))),
            None => before,
        }
    }
}

/// The paths of the first notes of a list.
pub open spec fn first_paths(list: Seq<(Date, Seq<char>)>, limit: nat) -> Seq<Seq<char>> {
    list.take(
        if limit < list.len() {
            limit as int
        } else {
            list.len() as int
        },
    ).map_values(|x: (Date, Seq<char>)| x.1)
}

/// The mathematical form of dated notes.
spec fn dated_views(v: Seq<(Date, String)>) -> Seq<(Date, Seq<char>)> {
    v.map_values(|x: (Date, String)| (x.0, x.1@))
}

/// Computes [`earlier`].
fn is_earlier(a: &Date, b: &Date) -> (r: bool)
    ensures
        r == earlier(*a, *b),
{
    a.year < b.year || (a.year == b.year && (a.month < b.month || (a.month == b.month && a.day
        < b.day)))
}

/// Computes [`with_dated`].
fn add_dated(list: &mut Vec<(Date, String)>, date: Date, note: String)
    ensures
        dated_views(final(list)@) == with_dated(dated_views(old(list)@), (date, note@)),
{
    let mut i: usize = list.len();
    let ghost all = dated_views(list@);
    let ghost x = (date, note@);
    assert(all.take(i as int) =~= all);
    assert(with_dated(all, x) + all.skip(i as int) =~= with_dated(all, x));
    while i > 0 && is_earlier(&list[i - 1].0, &date)
        invariant
            i <= list.len(),
            all == dated_views(list@),
            x == (date, note@),
            *old(list) == *list,
            with_dated(all, x) == with_dated(all.take(i as int), x) + all.skip(i as int),
        decreases i,
    {
        proof {
            let head = all.take(i as int);
            assert(head.last() == all[i as int - 1]);
            assert(head.drop_last() =~= all.take(i as int - 1));
            assert(with_dated(head, x) + all.skip(i as int) =~= with_dated(head.drop_last(), x)
                + all.skip(i as int - 1));
        }
        i = i - 1;
    }
    proof {
        let head = all.take(i as int);
        if i > 0 {
            assert(head.last() == all[i as int - 1]);
        }
        assert(with_dated(head, x) == head.push(x));
        assert(all.insert(i as int, x) =~= head.push(x) + all.skip(i as int));
    }
    list.insert(i, (date, note));
    assert(dated_views(list@) =~= all.insert(i as int, x));
}

/// Parses the date of a file below the folder of the notes.
fn parse_file_date(file: &str, chrono_format: &str) -> (r: Option<Date>)
    ensures
        r == file_date(file@, chrono_format@),
{
    let name = path::name_of(file);
    let dot: [char; 1] = ['.'];
    assert(dot@ == seq!['.'] && dot@.len() == 1);
    let md: [char; 2] = ['m', 'd'];
    assert(md@ == seq!['m', 'd']);
    let is_md = match text::rfind_in(&name, &dot) {
        Some(i) => if i > 0 {
            let ext = vstd::slice::slice_subrange(&name, i + 1, name.len());
            assert(ext@ =~= name@.skip(i + 1));
            text::same_chars(ext, &md)
        } else {
            false
        },
        None => false,
    };
    let chars = text::to_chars(file);
    if !is_md || chars.len() < 3 {
        return None;
    }
    let stem = vstd::slice::slice_subrange(&chars, 0, chars.len() - 3);
    assert(stem@ =~= chars@.take(chars@.len() - 3));
    let stem = path::with_forward_slashes(stem);
    try_parse_date(&text::from_chars(&stem), chrono_format)
}

/// Picks the most recent periodic notes among the files below the configured folder, parsing
/// filenames back to dates. Newest first.
pub fn list_recent_periodic_notes(
    files: &Vec<String>,
    config: &PeriodicNoteConfig,
    limit: usize,
) -> (r: Vec<String>)
    ensures
        text::strings(r@) == first_paths(
            dated(text::strings(files@), config@, files.len() as nat),
            limit as nat,
        ),
{
    let chrono_format = momentjs_to_chrono(&config.format);
    let ghost fs = text::strings(files@);
    let mut list: Vec<(Date, String)> = Vec::new();
    assert(dated_views(list@) =~= Seq::<(Date, Seq<char>)>::empty());
    let mut k: usize = 0;
    while k < files.len()
        invariant
            k <= files.len(),
            fs == text::strings(files@),
            chrono_format@ == converted(config.format@),
            dated_views(list@) == dated(fs, config@, k as nat),
        decreases files.len() - k,
    {
        assert(fs[k as int] == files@[k as int]@);
        if let Some(date) = parse_file_date(&files[k], &chrono_format) {
            let note = place_in_folder(config, &files[k]);
            add_dated(&mut list, date, note);
        }
        k = k + 1;
    }
    let ghost all = dated_views(list@);
    let n: usize = if limit < list.len() {
        limit
    } else {
        list.len()
    };
    let mut r: Vec<String> = Vec::new();
    let mut i: usize = 0;
    while i < n
        invariant
            i <= n <= list.len(),
            all == dated_views(list@),
            text::strings(r@) =~= all.take(i as int).map_values(|x: (Date, Seq<char>)| x.1),
        decreases n - i,
    {
        let ghost before = r@;
        r.push(list[i].1.clone());
        assert(text::strings(r@) =~= text::strings(before).push(list@[i as int].1@));
        assert(all[i as int].1 == list@[i as int].1@);
        i = i + 1;
    }
    r
}

// ---------------------------------------------------------------------------
// Templates
// ---------------------------------------------------------------------------

/// The pattern of a date variable with its own format.
pub open spec fn date_variable() -> Seq<char> {
    "\\{\\{date:([^}]+)\\}\\}"@
}

/// A template up to the end of the first `k` matches, with the date in the place of each; nothing
/// if a format cannot be written.
pub open spec fn dates_filled(
    content: Seq<char>,
    found: Seq<Seq<Option<(usize, usize)>>>,
    k: nat,
    date: Date,
) -> Option<Seq<char>>
    decreases k,
{
    if k == 0 {
        Some(Seq::empty())
    } else {
        let from = if k == 1 {
            0
        } else {
            pattern::end_of(found[k - 2][0])
        };
        let groups = group_texts(content, found[k - 1]);
        match dates_filled(content, found, (k - 1) as nat, date) {
            None => None,
            Some(before) => if groups.len() < 2 || groups[1] is None {
                None
            } else {
                match formatted(date, groups[1]->0) {
                    None => None,
                    Some(t) => Some(
                        before + text::byte_slice(content, from, pattern::start_of(found[k - 1][0]))
                            + t,
                    ),
                }
            },
        }
    }
}

/// What stands after the last match.
pub open spec fn after_matches(content: Seq<char>, found: Seq<Seq<Option<(usize, usize)>>>) -> Seq<
    char,
> {
    if found.len() == 0 {
        content
    } else {
        content.skip(
            text::chars_before(content, pattern::end_of(found[found.len() - 1][0])) as int,
        )
    }
}

/// A template in which the date variables with a format were filled, with the other variables
/// filled too.
pub open spec fn variables_filled(
    content: Seq<char>,
    title: Seq<char>,
    day: Seq<char>,
    time: Seq<char>,
) -> Seq<char> {
    text::replace(
        text::replace(text::replace(content, "{{title}}"@, title), "{{date}}"@, day),
        "{{time}}"@,
        time,
    )
}

/// A template with its variables filled; nothing if a date format cannot be written.
pub open spec fn expanded(
    content: Seq<char>,
    date: Date,
    title: Seq<char>,
    time: Seq<char>,
) -> Option<Seq<char>> {
    let found = pattern::matches_of(date_variable(), content);
    match (dates_filled(content, found, found.len(), date), formatted(date, "YYYY-MM-DD"@)) {
        (Some(head), Some(day)) => Some(
            variables_filled(head + after_matches(content, found), title, day, time),
        ),
        _ => None,
    }
}

/// Fills the variables `{{title}}`, `{{date}}` and `{{time}}` of a template.
pub fn fill_variables(content: &str, title: &str, day: &str, time: &str) -> (r: String)
    ensures
        r@ == variables_filled(content@, title@, day@, time@),
{
    proof {
        reveal_strlit("{{title}}");
        reveal_strlit("{{date}}");
        reveal_strlit("{{time}}");
    }
    let step = text::to_chars(content);
    let step = replace_text(&step, "{{title}}", title);
    let step = replace_text(&step, "{{date}}", day);
    let step = replace_text(&step, "{{time}}", time);
    text::from_chars(&step)
}

proof fn lemma_dates_filled_none(
    content: Seq<char>,
    found: Seq<Seq<Option<(usize, usize)>>>,
    k: nat,
    n: nat,
    date: Date,
)
    requires
        dates_filled(content, found, k, date) is None,
        k <= n,
    ensures
        dates_filled(content, found, n, date) is None,
    decreases n,
{
    if k < n {
        lemma_dates_filled_none(content, found, k, (n - 1) as nat, date);
    }
}

/// Expands the variables of a template: `{{date}}`, `{{date:FORMAT}}`, `{{title}}` and
/// `{{time}}`, for which the time of day is handed in. `None` where a format asks for what a
/// date does not have.
pub fn expand_template_string(content: &str, date: &Date, title: &str, time: &str) -> (r: Option<
    String,
>)
    ensures
        match r {
            Some(t) => expanded(content@, *date, title@, time@) == Some(t@),
            None => expanded(content@, *date, title@, time@) is None,
        },
{
    let chars = text::to_chars(content);
    let matches = pattern::find_matches("\\{\\{date:([^}]+)\\}\\}", content);
    let ghost found = pattern::spans(matches@);
    let mut out: Vec<char> = Vec::new();
    let mut at: usize = 0;
    let mut k: usize = 0;
    while k < matches.len()
        invariant
            k <= matches.len(),
            chars@ == content@,
            found == pattern::spans(matches@),
            found == pattern::matches_of(date_variable(), content@),
            pattern::spans_fit(found, text::byte_len(content@)),
            dates_filled(content@, found, k as nat, *date) == Some(out@),
            at == if k == 0 {
                0
            } else {
                pattern::end_of(found[k - 1][0])
            },
        decreases matches.len() - k,
    {
        let spans = &matches[k];
        assert(found[k as int] == spans@);
        assert(found[k as int].len() > 0 && found[k as int][0] is Some);
        let (start, end) = match spans[0] {
            Some(s) => s,
            None => (0, 0),
        };
        let group: Option<(usize, usize)> = if spans.len() > 1 {
            spans[1]
        } else {
            None
        };
        let ghost groups = group_texts(content@, spans@);
        assert(groups.len() == spans@.len());
        let (from, to) = match group {
            Some(s) => s,
            None => {
                proof {
                    lemma_dates_filled_none(
                        content@,
                        found,
                        (k + 1) as nat,
                        matches.len() as nat,
                        *date,
                    );
                }
                return None;
            },
        };
        proof {
            assert(found[k as int][1] == Some((from, to)));
            text::lemma_chars_before(content@, from as int, to as int);
            assert(at <= start) by {
                if k > 0 {
                    assert(pattern::end_of(found[k - 1][0]) <= pattern::start_of(
                        found[k as int][0],
                    ));
                }
            }
            text::lemma_chars_before(content@, at as int, start as int);
        }
        let a = text::char_index(&chars, from);
        let b = text::char_index(&chars, to);
        let format = text::from_chars(vstd::slice::slice_subrange(&chars, a, b));
        assert(groups[1] == Some(format@));
        match try_format_date(date, &format) {
            None => {
                proof {
                    lemma_dates_filled_none(
                        content@,
                        found,
                        (k + 1) as nat,
                        matches.len() as nat,
                        *date,
                    );
                }
                return None;
            },
            Some(t) => {
                let c = text::char_index(&chars, at);
                let d = text::char_index(&chars, start);
                text::append_chars(&mut out, vstd::slice::slice_subrange(&chars, c, d));
                text::append_chars(&mut out, &text::to_chars(&t));
            },
        }
        at = end;
        k = k + 1;
    }
    let rest = text::char_index(&chars, at);
    text::append_chars(&mut out, vstd::slice::slice_subrange(&chars, rest, chars.len()));
    assert(found.len() == matches@.len());
    assert(chars@.subrange(rest as int, chars@.len() as int) =~= after_matches(content@, found));
    match try_format_date(date, "YYYY-MM-DD") {
        Some(day) => Some(fill_variables(&text::from_chars(&out), title, &day, time)),
        None => None,
    }
}

// ---------------------------------------------------------------------------
// Laws
// ---------------------------------------------------------------------------

/// The quarter of a month is one more than the number of whole quarters before the month.
pub proof fn law_quarter_of_month(month: u32)
    requires
        1 <= month <= 12,
    ensures
        quarter_digit(month) == seq![('0' as u32 + (month - 1) / 3 + 1) as char],
{
}

/// A month and the first month of its quarter lie in the same quarter, and the quarters of a
/// year start in January, April, July and October.
pub proof fn law_quarter_start(year: nat, quarter: nat)
    requires
        1 <= quarter <= 4,
    ensures
        quarter_start(Some((Some(year), Some(quarter)))) matches Some(date) && date.day == 1
            && date.month == 3 * quarter - 2 && quarter_digit(date.month) == seq![
            ('0' as u32 + quarter) as char,
        ],
{
}

/// Settings of the plugin go before those of the core, and those of the core, which are for
/// daily notes alone, go before the built-in ones.
pub proof fn law_settings_precedence(
    plugin: Option<PluginPeriodicConfig>,
    core: Option<CoreDailyNotesConfig>,
    period: NotePeriod,
)
    ensures
        plugin_settings(plugin, period) matches Some(c) ==> effective(plugin, core, period) == c,
        period != NotePeriod::Daily ==> effective(plugin, core, period) == effective(
            plugin,
            None,
            period,
        ),
        plugin_settings(plugin, period) is None && core is None ==> effective(plugin, core, period)
            == (ConfigView { format: standard_format(period), folder: None, template: None }),
        effective(plugin, core, period).folder matches Some(f) ==> f.len() > 0,
        effective(plugin, core, period).template matches Some(t) ==> t.len() > 0,
{
}

/// Whether a list starts with the newest date.
pub open spec fn newest_first(list: Seq<(Date, Seq<char>)>) -> bool {
    forall|i: int, j: int|
        0 <= i < j < list.len() ==> !earlier((#[trigger] list[i]).0, (#[trigger] list[j]).0)
}

proof fn lemma_with_dated(list: Seq<(Date, Seq<char>)>, x: (Date, Seq<char>))
    requires
        newest_first(list),
    ensures
        newest_first(with_dated(list, x)),
        with_dated(list, x).len() == list.len() + 1,
        with_dated(list, x).to_multiset() == list.to_multiset().insert(x),
        forall|i: int|
            0 <= i < with_dated(list, x).len() ==> (#[trigger] with_dated(list, x)[i] == x
                || list.contains(with_dated(list, x)[i])),
    decreases list.len(),
{
    broadcast use vstd::seq_lib::group_to_multiset_ensures;

    let r = with_dated(list, x);
    if list.len() == 0 || !earlier(list.last().0, x.0) {
        assert forall|i: int, j: int| 0 <= i < j < r.len() implies !earlier(
            (#[trigger] r[i]).0,
            (#[trigger] r[j]).0,
        ) by {
            if j == list.len() && i < list.len() - 1 {
                assert(!earlier(list[i].0, list[list.len() - 1].0));
            }
        }
    } else {
        let d = list.drop_last();
        lemma_with_dated(d, x);
        let s = with_dated(d, x);
        assert forall|i: int, j: int| 0 <= i < j < r.len() implies !earlier(
            (#[trigger] r[i]).0,
            (#[trigger] r[j]).0,
        ) by {
            if j == s.len() {
                assert(s[i] == r[i]);
                if s[i] != x {
                    let q = choose|q: int| 0 <= q < d.len() && d[q] == s[i];
                    assert(list[q] == r[i]);
                }
            }
        }
        assert(list =~= d.push(list.last()));
        assert forall|i: int| 0 <= i < r.len() implies (#[trigger] r[i] == x || list.contains(
            r[i],
        )) by {
            if i < s.len() {
                assert(s[i] == r[i]);
                if s[i] != x {
                    let q = choose|q: int| 0 <= q < d.len() && d[q] == s[i];
                    assert(list[q] == r[i]);
                }
            } else {
                assert(list[list.len() - 1] == r[i]);
            }
        }
    }
}

/// The dated notes come with the newest first.
pub proof fn law_recent_notes_are_sorted(files: Seq<Seq<char>>, config: ConfigView, k: nat)
    requires
        k <= files.len(),
    ensures
        newest_first(dated(files, config, k)),
        dated(files, config, k).len() <= k,
    decreases k,
{
    if k > 0 {
        law_recent_notes_are_sorted(files, config, (k - 1) as nat);
        if let Some(date) = file_date(files[k - 1], converted(config.format)) {
            lemma_with_dated(
                dated(files, config, (k - 1) as nat),
                (date, in_folder(config, files[k - 1])),
            );
        }
    }
}

/// A format without brackets and tokens is kept as it is.
pub proof fn law_text_without_tokens_is_kept(s: Seq<char>)
    requires
        !s.contains('['),
        forall|i: int| 0 <= i <= s.len() ==> token_from(#[trigger] s.skip(i), 0) == tokens().len(),
    ensures
        converted(s) == s,
    decreases s.len(),
{
    if s.len() > 0 {
        assert(s.skip(0) =~= s);
        assert(s.contains(s[0]));
        let d = s.drop_first();
        if d.contains('[') {
            let i = choose|i: int| 0 <= i < d.len() && d[i] == '[';
            assert(s[i + 1] == '[');
        }
        assert forall|i: int| 0 <= i <= d.len() implies token_from(#[trigger] d.skip(i), 0)
            == tokens().len() by {
            assert(d.skip(i) =~= s.skip(i + 1));
        }
        law_text_without_tokens_is_kept(d);
        assert(seq![s[0]] + d =~= s);
    }
}

/// Text in brackets stands for itself, whatever it holds.
pub proof fn law_bracketed_text_is_kept(literal: Seq<char>, rest: Seq<char>)
    requires
        !literal.contains(']'),
    ensures
        converted(seq!['['] + literal + seq![']'] + rest) == literal + converted(rest),
{
    let s = seq!['['] + literal + seq![']'] + rest;
    let inner = s.drop_first();
    assert(inner =~= literal + seq![']'] + rest);
    lemma_before_bracket(literal, rest);
    assert(inner.take(literal.len() as int) =~= literal);
    assert(inner.skip(literal.len() as int + 1) =~= rest);
}

proof fn lemma_before_bracket(literal: Seq<char>, rest: Seq<char>)
    requires
        !literal.contains(']'),
    ensures
        before_bracket(literal + seq![']'] + rest) == literal.len(),
    decreases literal.len(),
{
    let s = literal + seq![']'] + rest;
    if literal.len() > 0 {
        assert(literal.contains(literal[0]));
        let d = literal.drop_first();
        if d.contains(']') {
            let i = choose|i: int| 0 <= i < d.len() && d[i] == ']';
            assert(literal[i + 1] == ']');
        }
        lemma_before_bracket(d, rest);
        assert(s.drop_first() =~= d + seq![']'] + rest);
    }
}

/// Whether a month and a day can be those of a calendar date.
pub open spec fn is_calendar(d: Date) -> bool {
    1 <= d.month <= 12 && 1 <= d.day <= 31
}

/// A number that grows from one day to the next.
pub open spec fn day_number(d: Date) -> int {
    372 * d.year + 31 * d.month + d.day
}

/// Of two calendar dates the one with the smaller number is the earlier one.
pub proof fn law_dates_are_ordered_by_day(a: Date, b: Date)
    requires
        is_calendar(a),
        is_calendar(b),
    ensures
        earlier(a, b) <==> day_number(a) < day_number(b),
{
}

proof fn lemma_dated_members(files: Seq<Seq<char>>, config: ConfigView, k: nat, x: (Date, Seq<char>))
    requires
        k <= files.len(),
    ensures
        dated(files, config, k).contains(x) <==> exists|i: int|
            0 <= i < k && file_date(#[trigger] files[i], converted(config.format)) == Some(x.0)
                && x.1 == in_folder(config, files[i]),
    decreases k,
{
    let all = dated(files, config, k);
    if k > 0 {
        let n = (k - 1) as nat;
        let before = dated(files, config, n);
        let f = files[k - 1];
        lemma_dated_members(files, config, n, x);
        law_recent_notes_are_sorted(files, config, n);
        if let Some(date) = file_date(f, converted(config.format)) {
            let y = (date, in_folder(config, f));
            lemma_with_dated_members(before, y, x);
            if x == y {
                assert(file_date(files[k - 1], converted(config.format)) == Some(x.0));
            }
        }
        if before.contains(x) {
            let i = choose|i: int|
                0 <= i < n && file_date(#[trigger] files[i], converted(config.format)) == Some(x.0)
                    && x.1 == in_folder(config, files[i]);
            assert(0 <= i < k && file_date(files[i], converted(config.format)) == Some(x.0));
        }
    }
}

proof fn lemma_with_dated_members(
    list: Seq<(Date, Seq<char>)>,
    y: (Date, Seq<char>),
    x: (Date, Seq<char>),
)
    ensures
        with_dated(list, y).contains(x) <==> list.contains(x) || x == y,
    decreases list.len(),
{
    let r = with_dated(list, y);
    let n = list.len() as int;
    if list.len() == 0 || !earlier(list.last().0, y.0) {
        if list.contains(x) {
            let i = choose|i: int| 0 <= i < n && list[i] == x;
            assert(r[i] == x);
        }
        assert(r[n] == y);
    } else {
        let d = list.drop_last();
        let s = with_dated(d, y);
        lemma_with_dated_members(d, y, x);
        assert(r[s.len() as int] == list[n - 1]);
        if s.contains(x) {
            let i = choose|i: int| 0 <= i < s.len() && s[i] == x;
            assert(r[i] == x);
        }
        if d.contains(x) {
            let i = choose|i: int| 0 <= i < d.len() && d[i] == x;
            assert(list[i] == x);
        }
        if list.contains(x) {
            let i = choose|i: int| 0 <= i < n && list[i] == x;
            if i < n - 1 {
                assert(d[i] == x);
            }
        }
        if r.contains(x) {
            let i = choose|i: int| 0 <= i < r.len() && r[i] == x;
            if i < s.len() {
                assert(s[i] == x);
            }
        }
    }
}

/// The recent notes are the files whose names are dates, each with its path in the folder, from
/// the newest day to the oldest, cut off at the limit: what is left out is no newer than what is
/// listed.
pub proof fn law_recent_notes(
    files: Seq<Seq<char>>,
    config: ConfigView,
    limit: nat,
    x: (Date, Seq<char>),
    i: int,
    j: int,
)
    ensures
        ({
            let all = dated(files, config, files.len());
            let listed = first_paths(all, limit);
            &&& all.contains(x) <==> exists|f: int|
                0 <= f < files.len() && file_date(#[trigger] files[f], converted(config.format))
                    == Some(x.0) && x.1 == in_folder(config, files[f])
            &&& 0 <= i < j < all.len() && is_calendar(all[i].0) && is_calendar(all[j].0)
                ==> day_number(all[i].0) >= day_number(all[j].0)
            &&& listed.len() <= limit
            &&& listed.len() <= all.len()
            &&& listed.len() == limit || listed.len() == all.len()
            &&& 0 <= i < listed.len() ==> listed[i] == all[i].1
        }),
{
    let n = files.len();
    let all = dated(files, config, n);
    lemma_dated_members(files, config, n, x);
    law_recent_notes_are_sorted(files, config, n);
    if 0 <= i < j < all.len() && is_calendar(all[i].0) && is_calendar(all[j].0) {
        assert(!earlier(all[i].0, all[j].0));
        law_dates_are_ordered_by_day(all[i].0, all[j].0);
    }
}

/// The name of a dated file is its date and `.md`; other files have no date.
pub proof fn law_dated_names(stem: Seq<char>, format: Seq<char>)
    requires
        path::extension_of(path::file_name(stem + seq!['.', 'm', 'd'])) == Some(seq!['m', 'd']),
    ensures
        file_date(stem + seq!['.', 'm', 'd'], format) == stem_date(
            path::forward_slashes(stem),
            format,
        ),
        forall|file: Seq<char>|
            path::extension_of(path::file_name(file)) != Some(seq!['m', 'd'])
                ==> #[trigger] file_date(file, format) is None,
{
    let file = stem + seq!['.', 'm', 'd'];
    assert(file.take(file.len() - 3) =~= stem);
}

/// A name that is a date in its format is that date. One that is less, a week, a month or a year,
/// is the first day of it; a full date goes before that.
pub proof fn law_date_of_name(stem: Seq<char>, format: Seq<char>)
    requires
        text::find(format, quarter_mark()) is None,
    ensures
        date_of(stem, format) matches Some(d) ==> stem_date(stem, format) == Some(d),
        date_of(stem, format) is None && text::find(format, "%G"@) is None && text::find(
            format,
            "%V"@,
        ) is None ==> {
            &&& date_of(stem + "-01"@, format + "-%d"@) matches Some(d) ==> stem_date(stem, format)
                == Some(d)
            &&& date_of(stem + "-01"@, format + "-%d"@) is None ==> stem_date(stem, format)
                == date_of(stem + "-01-01"@, format + "-%m-%d"@)
        },
        date_of(stem, format) is None && (text::find(format, "%G"@) is Some || text::find(
            format,
            "%V"@,
        ) is Some) ==> (date_of(stem + "-1"@, format + "-%u"@) matches Some(d) ==> stem_date(
            stem,
            format,
        ) == Some(d)),
{
}

/// A note lies in its folder: the folder, a `/` and the name, or the name alone where there is no
/// folder.
pub proof fn law_note_in_folder(config: ConfigView, name: Seq<char>, folder: Seq<char>)
    requires
        name.len() > 0 ==> name[0] != '/',
    ensures
        config.folder is None ==> in_folder(config, name) == name,
        config.folder == Some(folder) && folder.len() == 0 ==> in_folder(config, name) == name,
        config.folder == Some(folder) && folder.len() > 0 && folder.last() != '/' ==> in_folder(
            config,
            name,
        ) == folder + seq!['/'] + name,
        forall|date: Date| #[trigger]
            note_path(config, date) == match formatted(date, config.format) {
                Some(t) => Some(in_folder(config, t + ".md"@)),
                None => None,
            },
{
    reveal_strlit(".md");
    assert(".md"@ =~= seq!['.', 'm', 'd']);
}

/// The mark of the quarter in a written date becomes the number of the quarter; a date without it
/// stays as it is written.
pub proof fn law_written_dates(date: Date, format: Seq<char>, a: Seq<char>, b: Seq<char>)
    requires
        !a.contains('\u{1}'),
        !b.contains('\u{1}'),
        1 <= date.month <= 12,
    ensures
        date_text(date, converted(format)) is None ==> formatted(date, format) is None,
        date_text(date, converted(format)) == Some(a) ==> formatted(date, format) == Some(a),
        date_text(date, converted(format)) == Some(a + seq!['\u{1}', 'Q', '\u{1}'] + b)
            ==> formatted(date, format) == Some(
            a + seq![('0' as u32 + (date.month - 1) / 3 + 1) as char] + b,
        ),
{
    let mark = quarter_mark();
    let q = quarter_digit(date.month);
    text::law_replaced_once(a, mark, b, q);
    text::law_replaced_once(b, mark, a, q);
    law_quarter_of_month(date.month);
}

proof fn lemma_replaced_no_other(
    a: Seq<char>,
    v: Seq<char>,
    b: Seq<char>,
    from: Seq<char>,
    to: Seq<char>,
)
    requires
        from.len() >= 3,
        v.len() >= 3,
        from[0] == '{' && from[1] == '{' && from[2] != '{',
        v[0] == '{' && v[1] == '{' && v[2] != from[2],
        forall|i: int| 2 <= i < v.len() ==> v[i] != '{',
        !a.contains('{'),
        !b.contains('{'),
    ensures
        text::replace(a + v + b, from, to) == a + v + b,
{
    let t = a + v + b;
    let n = a.len() as int;
    assert forall|j: int| !#[trigger] text::stands_at(t, from, j) by {
        if text::stands_at(t, from, j) {
            assert(t.subrange(j, j + from.len())[0] == t[j]);
            assert(t.subrange(j, j + from.len())[1] == t[j + 1]);
            assert(t.subrange(j, j + from.len())[2] == t[j + 2]);
            if j < n {
                assert(a.contains(a[j]));
            } else if j >= n + v.len() {
                assert(b.contains(b[j - n - v.len()]));
            } else if j == n {
                assert(t[j + 2] == v[2]);
            } else {
                if j == n + 1 {
                    assert(t[j + 1] == v[2]);
                } else {
                    assert(t[j] == v[j - n]);
                }
            }
        }
    }
    text::law_replaced_text(t, from, to);
}

/// A template keeps its text, and each variable in it becomes what it stands for: the title, the
/// date and the time. (Texts with a `{` of their own are left out: what they hold could be taken
/// for a variable.)
pub proof fn law_template_variables(
    a: Seq<char>,
    b: Seq<char>,
    title: Seq<char>,
    day: Seq<char>,
    time: Seq<char>,
)
    requires
        !a.contains('{'),
        !b.contains('{'),
        !title.contains('{'),
        !day.contains('{'),
        !time.contains('{'),
    ensures
        variables_filled(a, title, day, time) == a,
        variables_filled(a + "{{title}}"@ + b, title, day, time) == a + title + b,
        variables_filled(a + "{{date}}"@ + b, title, day, time) == a + day + b,
        variables_filled(a + "{{time}}"@ + b, title, day, time) == a + time + b,
{
    reveal_strlit("{{title}}");
    reveal_strlit("{{date}}");
    reveal_strlit("{{time}}");
    let vt = "{{title}}"@;
    let vd = "{{date}}"@;
    let vm = "{{time}}"@;
    lemma_filled_apart(a, title, b);
    lemma_filled_apart(a, day, b);
    lemma_filled_apart(a, time, b);
    text::law_replaced_once(a, vt, a, title);
    text::law_replaced_once(a, vd, a, day);
    text::law_replaced_once(a, vm, a, time);
    // the title
    text::law_replaced_once(a, vt, b, title);
    text::law_replaced_once(a, vd, a + title + b, day);
    text::law_replaced_once(a, vm, a + title + b, time);
    // the date
    lemma_replaced_no_other(a, vd, b, vt, title);
    text::law_replaced_once(a, vd, b, day);
    text::law_replaced_once(a, vm, a + day + b, time);
    // the time
    lemma_replaced_time(a, vm, b, vt, title);
    lemma_replaced_no_other(a, vm, b, vd, day);
    text::law_replaced_once(a, vm, b, time);
}

/// `{{time}}` and `{{title}}` differ behind their first letters.
proof fn lemma_replaced_time(
    a: Seq<char>,
    v: Seq<char>,
    b: Seq<char>,
    from: Seq<char>,
    to: Seq<char>,
)
    requires
        v == "{{time}}"@,
        from == "{{title}}"@,
        !a.contains('{'),
        !b.contains('{'),
    ensures
        text::replace(a + v + b, from, to) == a + v + b,
{
    reveal_strlit("{{title}}");
    reveal_strlit("{{time}}");
    let t = a + v + b;
    let n = a.len() as int;
    assert forall|j: int| !#[trigger] text::stands_at(t, from, j) by {
        if text::stands_at(t, from, j) {
            let s = t.subrange(j, j + from.len());
            assert(s[0] == t[j] && s[1] == t[j + 1] && s[2] == t[j + 2] && s[4] == t[j + 4]);
            if j < n {
                assert(a.contains(a[j]));
            } else if j >= n + v.len() {
                assert(b.contains(b[j - n - v.len()]));
            } else if j == n {
                assert(t[j + 4] == v[4]);
            } else if j == n + 1 {
                assert(t[j + 1] == v[2]);
            } else {
                assert(t[j] == v[j - n]);
            }
        }
    }
    text::law_replaced_text(t, from, to);
}

proof fn lemma_filled_apart(a: Seq<char>, x: Seq<char>, b: Seq<char>)
    requires
        !a.contains('{'),
        !x.contains('{'),
        !b.contains('{'),
    ensures
        !(a + x + b).contains('{'),
{
    let t = a + x + b;
    if t.contains('{') {
        let i = choose|i: int| 0 <= i < t.len() && t[i] == '{';
        if i < a.len() {
            assert(a[i] == '{');
        } else if i < a.len() + x.len() {
            assert(x[i - a.len()] == '{');
        } else {
            assert(b[i - a.len() - x.len()] == '{');
        }
    }
}

/// Each period has its own entry in the settings of the plugin, in the first calendar set or in
/// the older form; only an entry that is switched on counts, and what it leaves empty is standard.
pub proof fn law_entries_of_periods(
    plugin: PluginPeriodicConfig,
    period: NotePeriod,
    set: CalendarSet,
    legacy: LegacyPluginConfig,
)
    ensures
        plugin matches PluginPeriodicConfig::CalendarSets { calendar_sets } && calendar_sets@.len()
            > 0 && calendar_sets@[0] == set ==> {
            &&& plugin_entry(plugin, NotePeriod::Daily) == set.day
            &&& plugin_entry(plugin, NotePeriod::Weekly) == set.week
            &&& plugin_entry(plugin, NotePeriod::Monthly) == set.month
            &&& plugin_entry(plugin, NotePeriod::Quarterly) == set.quarter
            &&& plugin_entry(plugin, NotePeriod::Yearly) == set.year
        },
        plugin matches PluginPeriodicConfig::Legacy(old_form) && *old_form == legacy ==> {
            &&& plugin_entry(plugin, NotePeriod::Daily) == legacy.daily
            &&& plugin_entry(plugin, NotePeriod::Weekly) == legacy.weekly
            &&& plugin_entry(plugin, NotePeriod::Monthly) == legacy.monthly
            &&& plugin_entry(plugin, NotePeriod::Quarterly) == legacy.quarterly
            &&& plugin_entry(plugin, NotePeriod::Yearly) == legacy.yearly
        },
        plugin_entry(plugin, period) matches Some(e) ==> (plugin_settings(Some(plugin), period)
            is Some <==> e.enabled == Some(true)),
        plugin_entry(plugin, period) is None ==> plugin_settings(Some(plugin), period) is None,
        plugin_settings(None, period) is None,
        plugin_settings(Some(plugin), period) matches Some(c) ==> {
            let e = plugin_entry(plugin, period)->0;
            &&& (e.format matches Some(f) ==> (f@.len() > 0 ==> c.format == f@))
            &&& (e.format is None || e.format->0@.len() == 0) ==> c.format == standard_format(period)
            &&& (e.folder matches Some(f) ==> (f@.len() > 0 ==> c.folder == Some(f@)))
            &&& (e.folder is None || e.folder->0@.len() == 0) ==> c.folder is None
            &&& (e.template matches Some(f) ==> (f@.len() > 0 ==> c.template == Some(f@)))
            &&& (e.template is None || e.template->0@.len() == 0) ==> c.template is None
        },
{
}

/// Daily notes that the plugin does not settle are settled by the core, as far as it says
/// something.
pub proof fn law_core_settings(plugin: Option<PluginPeriodicConfig>, core: CoreDailyNotesConfig)
    requires
        plugin_settings(plugin, NotePeriod::Daily) is None,
    ensures
        ({
            let c = effective(plugin, Some(core), NotePeriod::Daily);
            &&& (core.format matches Some(f) ==> (f@.len() > 0 ==> c.format == f@))
            &&& (core.folder matches Some(f) ==> (f@.len() > 0 ==> c.folder == Some(f@)))
            &&& (core.template matches Some(f) ==> (f@.len() > 0 ==> c.template == Some(f@)))
            &&& (core.format is None || core.format->0@.len() == 0) ==> c.format
                == standard_format(NotePeriod::Daily)
            &&& (core.folder is None || core.folder->0@.len() == 0) ==> c.folder is None
            &&& (core.template is None || core.template->0@.len() == 0) ==> c.template is None
        }),
{
}

/// Year and quarter are read from the groups of a match in the order in which they stand in the
/// format; a year of two digits is one of this century.
pub proof fn law_year_and_quarter(
    i: nat,
    j: nat,
    whole: Option<Seq<char>>,
    year: Seq<char>,
    quarter: Seq<char>,
)
    ensures
        read_parts(
            seq![(i, Part::LongYear), (j, Part::Quarter)],
            seq![whole, Some(year), Some(quarter)],
            2,
        ) == Some((number_of(year), number_of(quarter))),
        read_parts(
            seq![(i, Part::Quarter), (j, Part::LongYear)],
            seq![whole, Some(quarter), Some(year)],
            2,
        ) == Some((number_of(year), number_of(quarter))),
        number_of(year) matches Some(y) ==> read_parts(
            seq![(i, Part::ShortYear), (j, Part::Quarter)],
            seq![whole, Some(year), Some(quarter)],
            2,
        ) == Some((Some(2000 + y), number_of(quarter))),
        1 <= year.len() <= 4 ==> number_of(year) == text::digits_value(year),
{
    reveal_with_fuel(read_parts, 3);
    lemma_decimal_is_value(year);
}

proof fn lemma_decimal_is_value(s: Seq<char>)
    ensures
        s.len() > 0 ==> decimal(s) == text::digits_value(s),
    decreases s.len(),
{
    if s.len() > 1 {
        lemma_decimal_is_value(s.drop_last());
    } else if s.len() == 1 {
        reveal_with_fuel(decimal, 2);
        assert(s.drop_last() =~= Seq::<char>::empty());
    }
}

proof fn lemma_with_place(list: Seq<(nat, Part)>, x: (nat, Part))
    requires
        forall|i: int, j: int| 0 <= i < j < list.len() ==> (#[trigger] list[i]).0 <= (
        #[trigger] list[j]).0,
    ensures
        ({
            let r = with_place(list, x);
            &&& r.len() == list.len() + 1
            &&& forall|i: int, j: int| 0 <= i < j < r.len() ==> (#[trigger] r[i]).0 <= (
            #[trigger] r[j]).0
            &&& forall|y: (nat, Part)| #[trigger] r.contains(y) <==> list.contains(y) || y == x
        }),
    decreases list.len(),
{
    let r = with_place(list, x);
    let n = list.len() as int;
    if list.len() == 0 || list.last().0 <= x.0 {
        assert forall|y: (nat, Part)| #[trigger] r.contains(y) <==> list.contains(y) || y == x by {
            if list.contains(y) {
                let i = choose|i: int| 0 <= i < n && list[i] == y;
                assert(r[i] == y);
            }
            assert(r[n] == x);
        }
        assert forall|i: int, j: int| 0 <= i < j < r.len() implies (#[trigger] r[i]).0 <= (
        #[trigger] r[j]).0 by {
            if j == n && i < n - 1 {
                assert(list[i].0 <= list[n - 1].0);
            }
        }
    } else {
        let d = list.drop_last();
        let s = with_place(d, x);
        lemma_with_place(d, x);
        assert forall|y: (nat, Part)| #[trigger] r.contains(y) <==> list.contains(y) || y == x by {
            assert(s.contains(y) <==> d.contains(y) || y == x);
            if s.contains(y) {
                let i = choose|i: int| 0 <= i < s.len() && s[i] == y;
                assert(r[i] == y);
            }
            if d.contains(y) {
                let i = choose|i: int| 0 <= i < d.len() && d[i] == y;
                assert(list[i] == y);
            }
            assert(r[n] == list[n - 1]);
            if list.contains(y) {
                let i = choose|i: int| 0 <= i < n && list[i] == y;
                if i < n - 1 {
                    assert(d[i] == y);
                }
            }
            if r.contains(y) {
                let i = choose|i: int| 0 <= i < r.len() && r[i] == y;
                if i < s.len() {
                    assert(s[i] == y);
                }
            }
        }
        assert forall|i: int, j: int| 0 <= i < j < r.len() implies (#[trigger] r[i]).0 <= (
        #[trigger] r[j]).0 by {
            if j == n {
                assert(s.contains(s[i]));
                if s[i] != x {
                    let h = choose|h: int| 0 <= h < d.len() && d[h] == s[i];
                    assert(list[h].0 <= list[n - 1].0);
                }
            } else {
                assert(s[i] == r[i] && s[j] == r[j]);
            }
        }
    }
}

/// The parts of a format are known in the order in which their markers stand in it: the long year,
/// the short year and the quarter, as far as they are there.
pub proof fn law_places_of_parts(marked: Seq<char>, at: nat, i: int, j: int)
    ensures
        ({
            let places = part_places(marked);
            &&& 0 <= i < j < places.len() ==> places[i].0 <= places[j].0
            &&& places.contains((at, Part::LongYear)) <==> text::find(marked, "<<Y4>>"@) == Some(at)
            &&& places.contains((at, Part::ShortYear)) <==> text::find(marked, "<<Y2>>"@) == Some(
                at,
            )
            &&& places.contains((at, Part::Quarter)) <==> text::find(marked, "<<Q>>"@) == Some(at)
        }),
{
    let none = Seq::<(nat, Part)>::empty();
    let a = with_marker(none, marked, "<<Y4>>"@, Part::LongYear);
    let b = with_marker(a, marked, "<<Y2>>"@, Part::ShortYear);
    let c = with_marker(b, marked, "<<Q>>"@, Part::Quarter);
    if let Some(x) = text::find(marked, "<<Y4>>"@) {
        lemma_with_place(none, (x, Part::LongYear));
    }
    if let Some(x) = text::find(marked, "<<Y2>>"@) {
        lemma_with_place(a, (x, Part::ShortYear));
    }
    if let Some(x) = text::find(marked, "<<Q>>"@) {
        lemma_with_place(b, (x, Part::Quarter));
    }
    assert(part_places(marked) == c);
    let l = (at, Part::LongYear);
    let s = (at, Part::ShortYear);
    let q = (at, Part::Quarter);
    assert(!none.contains(l) && !none.contains(s) && !none.contains(q));
    assert(a.contains(l) <==> text::find(marked, "<<Y4>>"@) == Some(at));
    assert(!a.contains(s) && !a.contains(q));
    assert(b.contains(l) <==> a.contains(l));
    assert(b.contains(s) <==> text::find(marked, "<<Y2>>"@) == Some(at));
    assert(!b.contains(q));
    assert(c.contains(l) <==> b.contains(l));
    assert(c.contains(s) <==> b.contains(s));
    assert(c.contains(q) <==> text::find(marked, "<<Q>>"@) == Some(at));
}

/// A template is named with its extension or without; without one it is a Markdown file.
pub proof fn law_template_file(template: Seq<char>)
    ensures
        path::extension_of(path::file_name(template)) is Some ==> file_of_template(template)
            == template,
        path::extension_of(path::file_name(template)) is None && path::file_name(template).len()
            > 0 ==> file_of_template(template) == path::tidy(template) + seq!['.', 'm', 'd'],
{
}

/// Whether a text does not go on with a letter.
pub open spec fn starts_apart(rest: Seq<char>) -> bool {
    rest.len() == 0 || !('a' <= rest[0] <= 'z' || 'A' <= rest[0] <= 'Z')
}

/// A number by which tokens are ordered: longer ones first, then by their letters.
spec fn token_rank(t: Seq<char>) -> int {
    (4 - t.len()) * 1000000 + 1000 * (t[0] as int) + if t.len() > 1 {
        t[1] as int
    } else {
        0
    }
}

proof fn lemma_token_letters(k: int)
    requires
        0 <= k < 38,
    ensures
        tokens().len() == 38,
        1 <= tokens()[k].0.len() <= 4,
        forall|i: int|
            0 <= i < tokens()[k].0.len() ==> ('a' <= #[trigger] tokens()[k].0[i] <= 'z' || 'A'
                <= tokens()[k].0[i] <= 'Z'),
        k < 37 ==> token_rank(tokens()[k].0) < token_rank(tokens()[k + 1].0),
{
    reveal_strlit("GGGG");
    reveal_strlit("MMMM");
    reveal_strlit("YYYY");
    reveal_strlit("dddd");
    reveal_strlit("gggg");
    reveal_strlit("MMM");
    reveal_strlit("ddd");
    reveal_strlit("DD");
    reveal_strlit("Do");
    reveal_strlit("GG");
    reveal_strlit("HH");
    reveal_strlit("MM");
    reveal_strlit("WW");
    reveal_strlit("YY");
    reveal_strlit("ZZ");
    reveal_strlit("dd");
    reveal_strlit("gg");
    reveal_strlit("hh");
    reveal_strlit("mm");
    reveal_strlit("ss");
    reveal_strlit("ww");
    reveal_strlit("A");
    reveal_strlit("D");
    reveal_strlit("E");
    reveal_strlit("H");
    reveal_strlit("M");
    reveal_strlit("Q");
    reveal_strlit("S");
    reveal_strlit("W");
    reveal_strlit("X");
    reveal_strlit("Z");
    reveal_strlit("a");
    reveal_strlit("d");
    reveal_strlit("e");
    reveal_strlit("h");
    reveal_strlit("m");
    reveal_strlit("s");
    reveal_strlit("w");
    if k == 0 {
        assert(tokens()[0].0 =~= seq!['G', 'G', 'G', 'G']);
        assert(tokens()[1].0 =~= seq!['M', 'M', 'M', 'M']);
    } else if k == 1 {
        assert(tokens()[1].0 =~= seq!['M', 'M', 'M', 'M']);
        assert(tokens()[2].0 =~= seq!['Y', 'Y', 'Y', 'Y']);
    } else if k == 2 {
        assert(tokens()[2].0 =~= seq!['Y', 'Y', 'Y', 'Y']);
        assert(tokens()[3].0 =~= seq!['d', 'd', 'd', 'd']);
    } else if k == 3 {
        assert(tokens()[3].0 =~= seq!['d', 'd', 'd', 'd']);
        assert(tokens()[4].0 =~= seq!['g', 'g', 'g', 'g']);
    } else if k == 4 {
        assert(tokens()[4].0 =~= seq!['g', 'g', 'g', 'g']);
        assert(tokens()[5].0 =~= seq!['M', 'M', 'M']);
    } else if k == 5 {
        assert(tokens()[5].0 =~= seq!['M', 'M', 'M']);
        assert(tokens()[6].0 =~= seq!['d', 'd', 'd']);
    } else if k == 6 {
        assert(tokens()[6].0 =~= seq!['d', 'd', 'd']);
        assert(tokens()[7].0 =~= seq!['D', 'D']);
    } else if k == 7 {
        assert(tokens()[7].0 =~= seq!['D', 'D']);
        assert(tokens()[8].0 =~= seq!['D', 'o']);
    } else if k == 8 {
        assert(tokens()[8].0 =~= seq!['D', 'o']);
        assert(tokens()[9].0 =~= seq!['G', 'G']);
    } else if k == 9 {
        assert(tokens()[9].0 =~= seq!['G', 'G']);
        assert(tokens()[10].0 =~= seq!['H', 'H']);
    } else if k == 10 {
        assert(tokens()[10].0 =~= seq!['H', 'H']);
        assert(tokens()[11].0 =~= seq!['M', 'M']);
    } else if k == 11 {
        assert(tokens()[11].0 =~= seq!['M', 'M']);
        assert(tokens()[12].0 =~= seq!['W', 'W']);
    } else if k == 12 {
        assert(tokens()[12].0 =~= seq!['W', 'W']);
        assert(tokens()[13].0 =~= seq!['Y', 'Y']);
    } else if k == 13 {
        assert(tokens()[13].0 =~= seq!['Y', 'Y']);
        assert(tokens()[14].0 =~= seq!['Z', 'Z']);
    } else if k == 14 {
        assert(tokens()[14].0 =~= seq!['Z', 'Z']);
        assert(tokens()[15].0 =~= seq!['d', 'd']);
    } else if k == 15 {
        assert(tokens()[15].0 =~= seq!['d', 'd']);
        assert(tokens()[16].0 =~= seq!['g', 'g']);
    } else if k == 16 {
        assert(tokens()[16].0 =~= seq!['g', 'g']);
        assert(tokens()[17].0 =~= seq!['h', 'h']);
    } else if k == 17 {
        assert(tokens()[17].0 =~= seq!['h', 'h']);
        assert(tokens()[18].0 =~= seq!['m', 'm']);
    } else if k == 18 {
        assert(tokens()[18].0 =~= seq!['m', 'm']);
        assert(tokens()[19].0 =~= seq!['s', 's']);
    } else if k == 19 {
        assert(tokens()[19].0 =~= seq!['s', 's']);
        assert(tokens()[20].0 =~= seq!['w', 'w']);
    } else if k == 20 {
        assert(tokens()[20].0 =~= seq!['w', 'w']);
        assert(tokens()[21].0 =~= seq!['A']);
    } else if k == 21 {
        assert(tokens()[21].0 =~= seq!['A']);
        assert(tokens()[22].0 =~= seq!['D']);
    } else if k == 22 {
        assert(tokens()[22].0 =~= seq!['D']);
        assert(tokens()[23].0 =~= seq!['E']);
    } else if k == 23 {
        assert(tokens()[23].0 =~= seq!['E']);
        assert(tokens()[24].0 =~= seq!['H']);
    } else if k == 24 {
        assert(tokens()[24].0 =~= seq!['H']);
        assert(tokens()[25].0 =~= seq!['M']);
    } else if k == 25 {
        assert(tokens()[25].0 =~= seq!['M']);
        assert(tokens()[26].0 =~= seq!['Q']);
    } else if k == 26 {
        assert(tokens()[26].0 =~= seq!['Q']);
        assert(tokens()[27].0 =~= seq!['S']);
    } else if k == 27 {
        assert(tokens()[27].0 =~= seq!['S']);
        assert(tokens()[28].0 =~= seq!['W']);
    } else if k == 28 {
        assert(tokens()[28].0 =~= seq!['W']);
        assert(tokens()[29].0 =~= seq!['X']);
    } else if k == 29 {
        assert(tokens()[29].0 =~= seq!['X']);
        assert(tokens()[30].0 =~= seq!['Z']);
    } else if k == 30 {
        assert(tokens()[30].0 =~= seq!['Z']);
        assert(tokens()[31].0 =~= seq!['a']);
    } else if k == 31 {
        assert(tokens()[31].0 =~= seq!['a']);
        assert(tokens()[32].0 =~= seq!['d']);
    } else if k == 32 {
        assert(tokens()[32].0 =~= seq!['d']);
        assert(tokens()[33].0 =~= seq!['e']);
    } else if k == 33 {
        assert(tokens()[33].0 =~= seq!['e']);
        assert(tokens()[34].0 =~= seq!['h']);
    } else if k == 34 {
        assert(tokens()[34].0 =~= seq!['h']);
        assert(tokens()[35].0 =~= seq!['m']);
    } else if k == 35 {
        assert(tokens()[35].0 =~= seq!['m']);
        assert(tokens()[36].0 =~= seq!['s']);
    } else if k == 36 {
        assert(tokens()[36].0 =~= seq!['s']);
        assert(tokens()[37].0 =~= seq!['w']);
    } else if k == 37 {
        assert(tokens()[37].0 =~= seq!['w']);
    }
}

proof fn lemma_token_ranks(i: int, k: int)
    requires
        0 <= i < k < 38,
    ensures
        token_rank(tokens()[i].0) < token_rank(tokens()[k].0),
    decreases k - i,
{
    lemma_token_letters(i);
    if i + 1 < k {
        lemma_token_ranks(i + 1, k);
    }
}

proof fn lemma_token_from(s: Seq<char>, j: nat, k: nat)
    requires
        j <= k < tokens().len(),
        tokens()[k as int].0.is_prefix_of(s),
        forall|i: int| j <= i < k ==> !(#[trigger] tokens()[i]).0.is_prefix_of(s),
    ensures
        token_from(s, j) == k,
    decreases k - j,
{
    if j < k {
        assert(!tokens()[j as int].0.is_prefix_of(s));
        lemma_token_from(s, j + 1, k);
    }
}

proof fn lemma_token_used(k: int, rest: Seq<char>)
    requires
        0 <= k < 38,
        starts_apart(rest),
    ensures
        converted(tokens()[k].0 + rest) == tokens()[k].1 + converted(rest),
{
    let t = tokens()[k].0;
    let s = t + rest;
    let n = t.len() as int;
    lemma_token_letters(k);
    assert(s.take(n) =~= t);
    assert(s.skip(n) =~= rest);
    assert(t.is_prefix_of(s));
    assert forall|i: int| 0 <= i < k implies !(#[trigger] tokens()[i]).0.is_prefix_of(s) by {
        let u = tokens()[i].0;
        lemma_token_letters(i);
        lemma_token_ranks(i, k);
        if u.is_prefix_of(s) {
            if u.len() > n {
                assert(u[n] == s[n]);
                assert(s[n] == rest[0]);
            } else {
                assert(u.len() == n);
                assert(u =~= t);
            }
        }
    }
    lemma_token_from(s, 0, k as nat);
    assert(s[0] == t[0]);
}

/// What the letters of a format stand for, wherever they are not followed by another letter: years,
/// months, days, hours, minutes and seconds, the weeks and the days of a week, the quarter, the time
/// zone and the half of the day.
pub proof fn law_letters_of_formats(rest: Seq<char>)
    requires
        starts_apart(rest),
    ensures
        converted("GGGG"@ + rest) == "%G"@ + converted(rest),
        converted("MMMM"@ + rest) == "%B"@ + converted(rest),
        converted("YYYY"@ + rest) == "%Y"@ + converted(rest),
        converted("dddd"@ + rest) == "%A"@ + converted(rest),
        converted("gggg"@ + rest) == "%G"@ + converted(rest),
        converted("MMM"@ + rest) == "%b"@ + converted(rest),
        converted("ddd"@ + rest) == "%a"@ + converted(rest),
        converted("DD"@ + rest) == "%d"@ + converted(rest),
        converted("Do"@ + rest) == "%-d"@ + converted(rest),
        converted("GG"@ + rest) == "%G"@ + converted(rest),
        converted("HH"@ + rest) == "%H"@ + converted(rest),
        converted("MM"@ + rest) == "%m"@ + converted(rest),
        converted("WW"@ + rest) == "%V"@ + converted(rest),
        converted("YY"@ + rest) == "%y"@ + converted(rest),
        converted("ZZ"@ + rest) == "%z"@ + converted(rest),
        converted("dd"@ + rest) == "%a"@ + converted(rest),
        converted("gg"@ + rest) == "%G"@ + converted(rest),
        converted("hh"@ + rest) == "%I"@ + converted(rest),
        converted("mm"@ + rest) == "%M"@ + converted(rest),
        converted("ss"@ + rest) == "%S"@ + converted(rest),
        converted("ww"@ + rest) == "%V"@ + converted(rest),
        converted("A"@ + rest) == "%p"@ + converted(rest),
        converted("D"@ + rest) == "%-d"@ + converted(rest),
        converted("E"@ + rest) == "%u"@ + converted(rest),
        converted("H"@ + rest) == "%-H"@ + converted(rest),
        converted("M"@ + rest) == "%-m"@ + converted(rest),
        converted("Q"@ + rest) == quarter_mark() + converted(rest),
        converted("S"@ + rest) == converted(rest),
        converted("W"@ + rest) == "%V"@ + converted(rest),
        converted("X"@ + rest) == "%s"@ + converted(rest),
        converted("Z"@ + rest) == "%:z"@ + converted(rest),
        converted("a"@ + rest) == "%p"@ + converted(rest),
        converted("d"@ + rest) == "%w"@ + converted(rest),
        converted("e"@ + rest) == "%w"@ + converted(rest),
        converted("h"@ + rest) == "%-I"@ + converted(rest),
        converted("m"@ + rest) == "%-M"@ + converted(rest),
        converted("s"@ + rest) == "%-S"@ + converted(rest),
        converted("w"@ + rest) == "%V"@ + converted(rest),
{
    reveal_strlit("\u{1}Q\u{1}");
    assert("\u{1}Q\u{1}"@ =~= quarter_mark());
    reveal_strlit("");
    assert(""@ + converted(rest) =~= converted(rest));
    lemma_token_used(0, rest);
    lemma_token_used(1, rest);
    lemma_token_used(2, rest);
    lemma_token_used(3, rest);
    lemma_token_used(4, rest);
    lemma_token_used(5, rest);
    lemma_token_used(6, rest);
    lemma_token_used(7, rest);
    lemma_token_used(8, rest);
    lemma_token_used(9, rest);
    lemma_token_used(10, rest);
    lemma_token_used(11, rest);
    lemma_token_used(12, rest);
    lemma_token_used(13, rest);
    lemma_token_used(14, rest);
    lemma_token_used(15, rest);
    lemma_token_used(16, rest);
    lemma_token_used(17, rest);
    lemma_token_used(18, rest);
    lemma_token_used(19, rest);
    lemma_token_used(20, rest);
    lemma_token_used(21, rest);
    lemma_token_used(22, rest);
    lemma_token_used(23, rest);
    lemma_token_used(24, rest);
    lemma_token_used(25, rest);
    lemma_token_used(26, rest);
    lemma_token_used(27, rest);
    lemma_token_used(28, rest);
    lemma_token_used(29, rest);
    lemma_token_used(30, rest);
    lemma_token_used(31, rest);
    lemma_token_used(32, rest);
    lemma_token_used(33, rest);
    lemma_token_used(34, rest);
    lemma_token_used(35, rest);
    lemma_token_used(36, rest);
    lemma_token_used(37, rest);
}

/// Of all tokens that a text starts with, the longest is the one that counts.
pub proof fn law_longest_token_counts(s: Seq<char>, k: int)
    requires
        s.len() > 0,
        s[0] != '[',
        0 <= k < tokens().len(),
        tokens()[k].0.is_prefix_of(s),
        forall|j: int|
            0 <= j < tokens().len() && (#[trigger] tokens()[j]).0.is_prefix_of(s)
                ==> tokens()[j].0.len() <= tokens()[k].0.len(),
    ensures
        converted(s) == tokens()[k].1 + converted(s.skip(tokens()[k].0.len() as int)),
{
    lemma_token_letters(k);
    assert forall|i: int| 0 <= i < k implies !(#[trigger] tokens()[i]).0.is_prefix_of(s) by {
        if tokens()[i].0.is_prefix_of(s) {
            lemma_token_letters(i);
            lemma_token_ranks(i, k);
            assert(tokens()[i].0 =~= tokens()[k].0);
        }
    }
    lemma_token_from(s, 0, k as nat);
}

/// A date variable with a format of its own becomes the date in that format; what stands between
/// it and the variable before it stays, and so does what stands behind the last one.
pub proof fn law_dates_in_templates(
    content: Seq<char>,
    found: Seq<Seq<Option<(usize, usize)>>>,
    k: nat,
    date: Date,
    from: int,
    start: int,
    end: int,
    first: int,
    last: int,
)
    requires
        text::byte_len(content) <= usize::MAX,
        k < found.len(),
        0 <= from <= start <= end <= content.len(),
        0 <= first <= last <= content.len(),
        found[k as int].len() == 2,
        found[k as int][0] == Some(
            (
                text::byte_len(content.take(start)) as usize,
                text::byte_len(content.take(end)) as usize,
            ),
        ),
        found[k as int][1] == Some(
            (
                text::byte_len(content.take(first)) as usize,
                text::byte_len(content.take(last)) as usize,
            ),
        ),
        k == 0 ==> from == 0,
        k > 0 ==> pattern::end_of(found[k - 1][0]) == text::byte_len(content.take(from)),
    ensures
        dates_filled(content, found, k + 1, date) == match (
            dates_filled(content, found, k, date),
            formatted(date, content.subrange(first, last)),
        ) {
            (Some(before), Some(t)) => Some(before + content.subrange(from, start) + t),
            _ => None,
        },
        k + 1 == found.len() ==> after_matches(content, found) == content.skip(end),
        after_matches(content, Seq::empty()) == content,
{
    text::lemma_byte_len_prefix(content, start);
    text::lemma_byte_len_prefix(content, end);
    text::lemma_byte_len_prefix(content, first);
    text::lemma_byte_len_prefix(content, last);
    text::law_characters_and_bytes(content, from, start);
    text::law_characters_and_bytes(content, start, end);
    text::law_characters_and_bytes(content, end, end);
    text::law_characters_and_bytes(content, first, last);
    assert(content.take(0) =~= Seq::<char>::empty());
    let groups = group_texts(content, found[k as int]);
    assert(groups[1] == Some(content.subrange(first, last)));
}

/// The standard formats go together: a day is a month and a day, a month is a year and a month,
/// and weeks and quarters are named within a year.
pub proof fn law_standard_formats()
    ensures
        standard_format(NotePeriod::Daily) == standard_format(NotePeriod::Monthly) + seq!['-', 'D', 'D'],
        standard_format(NotePeriod::Monthly) == standard_format(NotePeriod::Yearly) + seq!['-', 'M', 'M'],
        standard_format(NotePeriod::Quarterly) == standard_format(NotePeriod::Yearly) + seq![
            '-', '[', 'Q', ']', 'Q',
        ],
        standard_format(NotePeriod::Weekly) == seq!['g', 'g', 'g', 'g', '-', '[', 'W', ']', 'w', 'w'],
        standard_format(NotePeriod::Yearly) == seq!['Y', 'Y', 'Y', 'Y'],
{
    reveal_strlit("YYYY-MM-DD");
    reveal_strlit("gggg-[W]ww");
    reveal_strlit("YYYY-MM");
    reveal_strlit("YYYY-[Q]Q");
    reveal_strlit("YYYY");
}

/// Whether a text holds nothing that has a meaning of its own in a format with a quarter.
pub open spec fn is_plain(s: Seq<char>) -> bool {
    !s.contains('%') && !s.contains('\u{1}') && !s.contains('<')
}

proof fn lemma_apart(x: Seq<char>, y: Seq<char>, c: char)
    ensures
        (x + y).contains(c) <==> x.contains(c) || y.contains(c),
{
    let s = x + y;
    if x.contains(c) {
        let i = choose|i: int| 0 <= i < x.len() && x[i] == c;
        assert(s[i] == c);
    }
    if y.contains(c) {
        let i = choose|i: int| 0 <= i < y.len() && y[i] == c;
        assert(s[x.len() + i] == c);
    }
    if s.contains(c) {
        let i = choose|i: int| 0 <= i < s.len() && s[i] == c;
        if i < x.len() {
            assert(x[i] == c);
        } else {
            assert(y[i - x.len()] == c);
        }
    }
}

proof fn lemma_marked(a: Seq<char>, b: Seq<char>, c: Seq<char>)
    requires
        is_plain(a),
        is_plain(b),
        is_plain(c),
    ensures
        with_markers(a + "%Y"@ + b + quarter_mark() + c) == a + "<<Y4>>"@ + b + "<<Q>>"@ + c,
{
    reveal_strlit("%Y");
    reveal_strlit("%y");
    reveal_strlit("<<Q>>");
    reveal_strlit("<<Y4>>");
    reveal_strlit("<<Y2>>");
    let y = "%Y"@;
    let q = "<<Q>>"@;
    let y4 = "<<Y4>>"@;
    let mark = quarter_mark();
    let one = '\u{1}';
    let head = a + y + b;
    lemma_apart(a, y, one);
    lemma_apart(a + y, b, one);
    assert(!y.contains(one));
    text::law_replaced_once(head, mark, c, q);
    let r1 = head + q + c;
    let tail = b + q + c;
    assert(r1 =~= a + y + tail);
    lemma_apart(b, q, '%');
    lemma_apart(b + q, c, '%');
    assert(!q.contains('%'));
    text::law_replaced_once(a, y, tail, y4);
    let r2 = a + y4 + tail;
    lemma_apart(a, y4, '%');
    lemma_apart(a + y4, tail, '%');
    assert(!y4.contains('%'));
    text::law_replaced_once(a, "%y"@, r2, "<<Y2>>"@);
    assert(r2 =~= a + y4 + b + q + c);
}

proof fn lemma_find_behind(x: Seq<char>, s: Seq<char>, p: Seq<char>)
    requires
        p.len() > 0,
        !x.contains(p[0]),
        text::find(s, p) is Some,
    ensures
        text::find(x + s, p) == Some((x.len() + text::find(s, p)->0) as nat),
    decreases x.len(),
{
    if x.len() == 0 {
        assert(x + s =~= s);
    } else {
        let d = x.drop_first();
        assert(x.contains(x[0]));
        assert(!d.contains(p[0])) by {
            if d.contains(p[0]) {
                let i = choose|i: int| 0 <= i < d.len() && d[i] == p[0];
                assert(x[i + 1] == p[0]);
            }
        }
        lemma_find_behind(d, s, p);
        assert((x + s).drop_first() =~= d + s);
        assert(!p.is_prefix_of(x + s)) by {
            assert((x + s)[0] == x[0]);
        }
    }
}

proof fn lemma_first_quarter(x: Seq<char>, b: Seq<char>, c: Seq<char>)
    requires
        !x.contains('<'),
        !b.contains('<'),
        !c.contains('<'),
    ensures
        text::find(x + "<<Y4>>"@ + b + "<<Q>>"@ + c, "<<Q>>"@) == Some(x.len() + 6 + b.len()),
{
    reveal_strlit("<<Q>>");
    reveal_strlit("<<Y4>>");
    let q = "<<Q>>"@;
    let y4 = "<<Y4>>"@;
    let t = b + q + c;
    text::lemma_found_behind(b, q, c);
    let end = seq!['Y', '4', '>', '>'];
    assert(!end.contains('<'));
    lemma_find_behind(end, t, q);
    let s2 = end + t;
    let s1 = seq!['<'] + s2;
    let s0 = seq!['<'] + s1;
    assert(s1.drop_first() =~= s2);
    assert(s0.drop_first() =~= s1);
    assert(!q.is_prefix_of(s1)) by {
        assert(s1[1] == 'Y');
        assert(q[1] == '<');
    }
    assert(!q.is_prefix_of(s0)) by {
        assert(s0[2] == 'Y');
        assert(q[2] == 'Q');
    }
    assert(text::find(s2, q) == Some((4 + b.len()) as nat));
    assert(text::find(s1, q) == Some((5 + b.len()) as nat));
    assert(text::find(s0, q) == Some((6 + b.len()) as nat));
    lemma_find_behind(x, s0, q);
    assert(x + s0 =~= x + y4 + b + q + c);
}

/// A name with a year and a quarter is looked for as it is written, with four digits for the year
/// and one for the quarter, and must be nothing else.
pub proof fn law_pattern_of_quarters(a: Seq<char>, b: Seq<char>, c: Seq<char>)
    requires
        is_plain(a),
        is_plain(b),
        is_plain(c),
    ensures
        quarter_pattern(a + "%Y"@ + b + quarter_mark() + c) == seq!['^'] + pattern::escaped(a)
            + "(\\d{4})"@ + pattern::escaped(b) + "(\\d)"@ + pattern::escaped(c) + seq!['$'],
        pattern::literal_of(pattern::escaped(a)) == Some(a),
        pattern::literal_of(pattern::escaped(b)) == Some(b),
        pattern::literal_of(pattern::escaped(c)) == Some(c),
{
    reveal_strlit("<<Q>>");
    reveal_strlit("<<Y4>>");
    reveal_strlit("<<Y2>>");
    reveal_strlit("(\\d)");
    reveal_strlit("(\\d{4})");
    let q = "<<Q>>"@;
    let y4 = "<<Y4>>"@;
    let d1 = "(\\d)"@;
    let d4 = "(\\d{4})"@;
    let ea = pattern::escaped(a);
    let eb = pattern::escaped(b);
    let ec = pattern::escaped(c);
    lemma_marked(a, b, c);
    pattern::lemma_escaped_plain(q);
    pattern::lemma_escaped_plain(y4);
    pattern::lemma_escaped_add(a, y4);
    pattern::lemma_escaped_add(a + y4, b);
    pattern::lemma_escaped_add(a + y4 + b, q);
    pattern::lemma_escaped_add(a + y4 + b + q, c);
    pattern::lemma_escaped_lacks(a, '<');
    pattern::lemma_escaped_lacks(b, '<');
    pattern::lemma_escaped_lacks(c, '<');
    pattern::law_escaped_text_is_literal(a);
    pattern::law_escaped_text_is_literal(b);
    pattern::law_escaped_text_is_literal(c);
    let s = ea + y4 + eb + q + ec;
    lemma_first_quarter(ea, eb, ec);
    let n = (ea.len() + 6 + eb.len()) as int;
    text::lemma_not_found(ec, q);
    assert(s.take(n) =~= ea + y4 + eb);
    assert(s.skip(n + 5) =~= ec);
    assert(text::replace(ec, q, d1) == ec);
    let g1 = ea + y4 + eb + d1 + ec;
    assert(text::replace(s, q, d1) =~= g1) by {
        assert(text::replace(s, q, d1) == s.take(n) + d1 + text::replace(s.skip(n + 5), q, d1));
    }
    let tail = eb + d1 + ec;
    assert(g1 =~= ea + y4 + tail);
    lemma_apart(eb, d1, '<');
    lemma_apart(eb + d1, ec, '<');
    assert(!d1.contains('<'));
    text::law_replaced_once(ea, y4, tail, d4);
    let g2 = ea + d4 + tail;
    lemma_apart(ea, d4, '<');
    lemma_apart(ea + d4, tail, '<');
    assert(!d4.contains('<'));
    text::law_replaced_once(ea, "<<Y2>>"@, g2, "(\\d{2})"@);
    assert(seq!['^'] + g2 + seq!['$'] =~= seq!['^'] + ea + d4 + eb + d1 + ec + seq!['$']);
}

/// A template without dates in a format of their own keeps its text, and its variables become the
/// title, the day as year, month and day, and the time.
pub proof fn law_expanded_template(
    a: Seq<char>,
    b: Seq<char>,
    date: Date,
    title: Seq<char>,
    day: Seq<char>,
    time: Seq<char>,
)
    requires
        !a.contains('{'),
        !b.contains('{'),
        !title.contains('{'),
        !day.contains('{'),
        !time.contains('{'),
        formatted(date, standard_format(NotePeriod::Daily)) == Some(day),
    ensures
        pattern::matches_of(date_variable(), a).len() == 0 ==> expanded(a, date, title, time)
            == Some(a),
        pattern::matches_of(date_variable(), a + "{{title}}"@ + b).len() == 0 ==> expanded(
            a + "{{title}}"@ + b,
            date,
            title,
            time,
        ) == Some(a + title + b),
        pattern::matches_of(date_variable(), a + "{{date}}"@ + b).len() == 0 ==> expanded(
            a + "{{date}}"@ + b,
            date,
            title,
            time,
        ) == Some(a + day + b),
        pattern::matches_of(date_variable(), a + "{{time}}"@ + b).len() == 0 ==> expanded(
            a + "{{time}}"@ + b,
            date,
            title,
            time,
        ) == Some(a + time + b),
{
    law_template_variables(a, b, title, day, time);
    lemma_without_dates(a);
    lemma_without_dates(a + "{{title}}"@ + b);
    lemma_without_dates(a + "{{date}}"@ + b);
    lemma_without_dates(a + "{{time}}"@ + b);
}

proof fn lemma_without_dates(content: Seq<char>)
    ensures
        forall|found: Seq<Seq<Option<(usize, usize)>>>|
            found.len() == 0 ==> Seq::<char>::empty() + #[trigger] after_matches(content, found)
                == content,
{
    assert(Seq::<char>::empty() + content =~= content);
}

/// A date in a format of its own is looked for between two braces on each side, behind the word
/// `date` and a colon.
pub proof fn law_dates_that_are_looked_for()
    ensures
        date_variable() == seq!['\\', '{', '\\', '{'] + seq!['d', 'a', 't', 'e', ':'] + seq!['(']
            + seq!['[', '^', '}', ']', '+'] + seq![')'] + seq!['\\', '}', '\\', '}'],
{
    reveal_strlit("\\{\\{date:([^}]+)\\}\\}");
}

} // verus!
