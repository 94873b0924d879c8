//! Periodic notes.
use obsidian_vault::models::{NotePeriod, PeriodicNoteConfig};
use obsidian_vault::periodic::{
    expand_template_string, fill_variables, folder_to_scan, format_date,
    list_recent_periodic_notes, momentjs_to_chrono, periodic_note_path, read_periodic_config,
    template_file, try_format_date, try_parse_date, try_parse_quarter_date,
    try_periodic_note_path, CalendarSet, CoreDailyNotesConfig, Date, LegacyPluginConfig, PluginPeriodEntry, PluginPeriodicConfig,
};

fn date(year: i32, month: u32, day: u32) -> Date {
    Date { year, month, day }
}

// ── momentjs_to_chrono ─────────────────────────────────────────────

#[test]
fn momentjs_daily_format() {
    assert_eq!(momentjs_to_chrono("YYYY-MM-DD"), "%Y-%m-%d");
}

#[test]
fn momentjs_full_month_and_weekday() {
    assert_eq!(momentjs_to_chrono("dddd, MMMM D, YYYY"), "%A, %B %-d, %Y");
}

#[test]
fn momentjs_time_tokens() {
    assert_eq!(momentjs_to_chrono("HH:mm:ss"), "%H:%M:%S");
}

#[test]
fn momentjs_bracket_escaping() {
    assert_eq!(momentjs_to_chrono("gggg-[W]ww"), "%G-W%V");
}

#[test]
fn momentjs_quarter_format() {
    let result = momentjs_to_chrono("YYYY-[Q]Q");
    assert!(result.starts_with("%Y-Q"));
    assert!(result.contains("\u{1}Q\u{1}"));
}

#[test]
fn momentjs_two_digit_year() {
    assert_eq!(momentjs_to_chrono("YY"), "%y");
}

#[test]
fn momentjs_short_month() {
    assert_eq!(momentjs_to_chrono("MMM"), "%b");
}

#[test]
fn momentjs_12hour_format() {
    assert_eq!(momentjs_to_chrono("hh:mm A"), "%I:%M %p");
}

#[test]
fn momentjs_multiple_brackets() {
    assert_eq!(
        momentjs_to_chrono("[Today is] dddd [the] Do [of] MMMM"),
        "Today is %A the %-d of %B"
    );
}

#[test]
fn momentjs_monthly() {
    assert_eq!(momentjs_to_chrono("YYYY-MM"), "%Y-%m");
}

#[test]
fn momentjs_yearly() {
    assert_eq!(momentjs_to_chrono("YYYY"), "%Y");
}

// ── format_date ────────────────────────────────────────────────────

#[test]
fn format_date_daily() {
    let d = date(2026, 3, 19);
    assert_eq!(format_date(&d, "YYYY-MM-DD"), "2026-03-19");
}

#[test]
fn format_date_quarter_q1() {
    let d = date(2026, 3, 19);
    assert_eq!(format_date(&d, "YYYY-[Q]Q"), "2026-Q1");
}

#[test]
fn format_date_quarter_q2() {
    let d = date(2026, 6, 15);
    assert_eq!(format_date(&d, "YYYY-[Q]Q"), "2026-Q2");
}

#[test]
fn format_date_quarter_q3() {
    let d = date(2026, 9, 1);
    assert_eq!(format_date(&d, "YYYY-[Q]Q"), "2026-Q3");
}

#[test]
fn format_date_quarter_q4() {
    let d = date(2026, 12, 31);
    assert_eq!(format_date(&d, "YYYY-[Q]Q"), "2026-Q4");
}

#[test]
fn format_date_monthly() {
    let d = date(2026, 3, 19);
    assert_eq!(format_date(&d, "YYYY-MM"), "2026-03");
}

#[test]
fn format_date_yearly() {
    let d = date(2026, 3, 19);
    assert_eq!(format_date(&d, "YYYY"), "2026");
}

#[test]
fn format_date_full_text() {
    let d = date(2026, 3, 19);
    assert_eq!(
        format_date(&d, "dddd, MMMM D, YYYY"),
        "Thursday, March 19, 2026"
    );
}

// ── periodic_note_path ─────────────────────────────────────────────

#[test]
fn path_with_folder() {
    let config = PeriodicNoteConfig {
        format: "YYYY-MM-DD".to_string(),
        folder: Some("Daily".to_string()),
        template: None,
    };
    let d = date(2026, 3, 19);
    assert_eq!(
        periodic_note_path(&config, &d),
        "Daily/2026-03-19.md"
    );
}

#[test]
fn path_without_folder() {
    let config = PeriodicNoteConfig {
        format: "YYYY-MM-DD".to_string(),
        folder: None,
        template: None,
    };
    let d = date(2026, 3, 19);
    assert_eq!(
        periodic_note_path(&config, &d),
        "2026-03-19.md"
    );
}

#[test]
fn path_quarterly() {
    let config = PeriodicNoteConfig {
        format: "YYYY-[Q]Q".to_string(),
        folder: Some("Quarterly".to_string()),
        template: None,
    };
    let d = date(2026, 7, 1);
    assert_eq!(
        periodic_note_path(&config, &d),
        "Quarterly/2026-Q3.md"
    );
}

#[test]
fn path_empty_folder_treated_as_none() {
    let config = PeriodicNoteConfig {
        format: "YYYY-MM-DD".to_string(),
        folder: Some(String::new()),
        template: None,
    };
    let d = date(2026, 1, 1);
    assert_eq!(
        periodic_note_path(&config, &d),
        "2026-01-01.md"
    );
}

// ── read_periodic_config ───────────────────────────────────────────

#[test]
fn config_defaults_when_no_files() {
    let config = read_periodic_config(None, None, NotePeriod::Daily);
    assert_eq!(config.format, "YYYY-MM-DD");
    assert!(config.folder.is_none());
    assert!(config.template.is_none());
}

#[test]
fn config_defaults_weekly() {
    let config = read_periodic_config(None, None, NotePeriod::Weekly);
    assert_eq!(config.format, "gggg-[W]ww");
}

#[test]
fn config_defaults_monthly() {
    let config = read_periodic_config(None, None, NotePeriod::Monthly);
    assert_eq!(config.format, "YYYY-MM");
}

#[test]
fn config_defaults_quarterly() {
    let config = read_periodic_config(None, None, NotePeriod::Quarterly);
    assert_eq!(config.format, "YYYY-[Q]Q");
}

#[test]
fn config_defaults_yearly() {
    let config = read_periodic_config(None, None, NotePeriod::Yearly);
    assert_eq!(config.format, "YYYY");
}

fn some(s: &str) -> Option<String> {
    Some(s.to_string())
}

#[test]
fn config_core_daily() {
    let core = CoreDailyNotesConfig {
        format: some("DD-MM-YYYY"),
        folder: some("Journal"),
        template: some("Templates/Day"),
    };
    let config = read_periodic_config(None, Some(core), NotePeriod::Daily);
    assert_eq!(config.format, "DD-MM-YYYY");
    assert_eq!(config.folder.as_deref(), Some("Journal"));
    assert_eq!(config.template.as_deref(), Some("Templates/Day"));
}

#[test]
fn config_core_daily_empty_format_uses_default() {
    let core = CoreDailyNotesConfig { format: some(""), folder: some("Journal"), template: None };
    let config = read_periodic_config(None, Some(core), NotePeriod::Daily);
    assert_eq!(config.format, "YYYY-MM-DD");
    assert_eq!(config.folder.as_deref(), Some("Journal"));
}

#[test]
fn config_plugin_legacy_overrides_core() {
    let core =
        CoreDailyNotesConfig { format: some("DD-MM-YYYY"), folder: some("Journal"), template: None };
    let plugin = PluginPeriodicConfig::Legacy(Box::new(LegacyPluginConfig {
        daily: Some(PluginPeriodEntry {
            enabled: Some(true),
            format: some("YYYY/MM/DD"),
            folder: some("Daily"),
            template: some(""),
        }),
        weekly: None,
        monthly: None,
        quarterly: None,
        yearly: None,
    }));
    let config = read_periodic_config(Some(plugin), Some(core), NotePeriod::Daily);
    assert_eq!(config.format, "YYYY/MM/DD");
    assert_eq!(config.folder.as_deref(), Some("Daily"));
    assert!(config.template.is_none());
}

#[test]
fn config_plugin_calendar_sets() {
    let plugin = PluginPeriodicConfig::CalendarSets {
        calendar_sets: vec![CalendarSet {
            day: None,
            week: Some(PluginPeriodEntry {
                enabled: Some(true),
                format: some("GGGG-[W]WW"),
                folder: some("Weekly"),
                template: None,
            }),
            month: None,
            quarter: None,
            year: None,
        }],
    };
    let config = read_periodic_config(Some(plugin), None, NotePeriod::Weekly);
    assert_eq!(config.format, "GGGG-[W]WW");
    assert_eq!(config.folder.as_deref(), Some("Weekly"));
}

#[test]
fn config_plugin_disabled_falls_to_default() {
    let plugin = PluginPeriodicConfig::Legacy(Box::new(LegacyPluginConfig {
        daily: None,
        weekly: Some(PluginPeriodEntry {
            enabled: Some(false),
            format: some("gggg-[W]ww"),
            folder: some("W"),
            template: None,
        }),
        monthly: None,
        quarterly: None,
        yearly: None,
    }));
    let config = read_periodic_config(Some(plugin), None, NotePeriod::Weekly);
    assert_eq!(config.format, "gggg-[W]ww");
    assert!(config.folder.is_none());
}

// ── list_recent_periodic_notes ─────────────────────────────────────

fn strings(names: &[&str]) -> Vec<String> {
    names.iter().map(|s| s.to_string()).collect()
}

#[test]
fn list_daily_sorted_and_limited() {
    let files = strings(&["2026-03-17.md", "2026-03-19.md", "not-a-date.md", "readme.txt", "2026-03-18.md"]);
    let config = PeriodicNoteConfig {
        format: "YYYY-MM-DD".to_string(),
        folder: Some("Daily".to_string()),
        template: None,
    };
    let result = list_recent_periodic_notes(&files, &config, 2);
    assert_eq!(result.len(), 2);
    assert_eq!(result[0], "Daily/2026-03-19.md");
    assert_eq!(result[1], "Daily/2026-03-18.md");
}

#[test]
fn list_monthly() {
    let files = strings(&["2026-03.md", "2026-02.md", "2026-01.md"]);
    let config = PeriodicNoteConfig {
        format: "YYYY-MM".to_string(),
        folder: Some("Monthly".to_string()),
        template: None,
    };
    let result = list_recent_periodic_notes(&files, &config, 10);
    assert_eq!(result.len(), 3);
    assert_eq!(result[0], "Monthly/2026-03.md");
    assert_eq!(result[1], "Monthly/2026-02.md");
    assert_eq!(result[2], "Monthly/2026-01.md");
}

#[test]
fn list_quarterly() {
    let files = strings(&["2026-Q1.md", "2025-Q4.md"]);
    let config = PeriodicNoteConfig {
        format: "YYYY-[Q]Q".to_string(),
        folder: Some("Q".to_string()),
        template: None,
    };
    let result = list_recent_periodic_notes(&files, &config, 10);
    assert_eq!(result.len(), 2);
    assert_eq!(result[0], "Q/2026-Q1.md");
    assert_eq!(result[1], "Q/2025-Q4.md");
}

#[test]
fn list_yearly() {
    let files = strings(&["2026.md", "2025.md", "2024.md"]);
    let config = PeriodicNoteConfig {
        format: "YYYY".to_string(),
        folder: Some("Yearly".to_string()),
        template: None,
    };
    let result = list_recent_periodic_notes(&files, &config, 2);
    assert_eq!(result.len(), 2);
    assert_eq!(result[0], "Yearly/2026.md");
    assert_eq!(result[1], "Yearly/2025.md");
}

#[test]
fn list_nonexistent_folder_returns_empty() {
    let files = strings(&[]);
    let config = PeriodicNoteConfig {
        format: "YYYY-MM-DD".to_string(),
        folder: Some("Nonexistent".to_string()),
        template: None,
    };
    let result = list_recent_periodic_notes(&files, &config, 10);
    assert!(result.is_empty());
}

#[test]
fn list_no_folder_scans_vault_root() {
    let files = strings(&["2026-03-19.md", "2026-03-18.md"]);
    let config = PeriodicNoteConfig {
        format: "YYYY-MM-DD".to_string(),
        folder: None,
        template: None,
    };
    let result = list_recent_periodic_notes(&files, &config, 10);
    assert_eq!(result, vec!["2026-03-19.md", "2026-03-18.md"]);
}

// ── expand_template ────────────────────────────────────────────────

#[test]
fn template_title_replacement() {
    let d = date(2026, 1, 1);
    let result = expand_template_string("Hello {{title}}!", &d, "World", "09:30").unwrap();
    assert_eq!(result, "Hello World!");
}

#[test]
fn template_date_replacement() {
    let d = date(2026, 3, 19);
    let result = expand_template_string("Date: {{date}}", &d, "", "09:30").unwrap();
    assert_eq!(result, "Date: 2026-03-19");
}

#[test]
fn template_date_with_custom_format() {
    let d = date(2026, 12, 25);
    let result = expand_template_string("{{date:MMMM DD, YYYY}}", &d, "", "09:30").unwrap();
    assert_eq!(result, "December 25, 2026");
}

#[test]
fn template_time_has_hh_mm_pattern() {
    let d = date(2026, 1, 1);
    let result = expand_template_string("Time: {{time}}", &d, "", "09:30").unwrap();
    let time_part = result.strip_prefix("Time: ").unwrap();
    assert_eq!(time_part.len(), 5);
    assert_eq!(&time_part[2..3], ":");
}

#[test]
fn template_combined_variables() {
    let d = date(2026, 3, 19);
    let result = expand_template_string(
        "# {{title}}\nDate: {{date}}\n{{date:dddd, MMMM D}}",
        &d,
        "2026-03-19",
        "09:30",
    )
    .unwrap();
    assert!(result.contains("# 2026-03-19"));
    assert!(result.contains("Date: 2026-03-19"));
    assert!(result.contains("Thursday, March 19"));
}

// ── try_parse_quarter_date ─────────────────────────────────────────

#[test]
fn parse_quarter_date_standard() {
    let chrono_fmt = momentjs_to_chrono("YYYY-[Q]Q");
    assert_eq!(
        try_parse_quarter_date("2026-Q1", &chrono_fmt),
        Some(date(2026, 1, 1))
    );
    assert_eq!(
        try_parse_quarter_date("2025-Q4", &chrono_fmt),
        Some(date(2025, 10, 1))
    );
}

#[test]
fn parse_quarter_date_invalid() {
    let chrono_fmt = momentjs_to_chrono("YYYY-[Q]Q");
    assert!(try_parse_quarter_date("2026-Q5", &chrono_fmt).is_none());
    assert!(try_parse_quarter_date("2026-Q0", &chrono_fmt).is_none());
    assert!(try_parse_quarter_date("not-a-date", &chrono_fmt).is_none());
}

#[test]
fn formats_that_ask_for_a_time_of_day_are_refused() {
    let d = date(2026, 1, 1);
    assert_eq!(try_format_date(&d, "HH:mm"), None);
    assert_eq!(try_format_date(&d, "YYYY"), Some("2026".to_string()));
    assert_eq!(expand_template_string("{{date:HH}}", &d, "t", "09:30"), None);
    let config = PeriodicNoteConfig { format: "HH".to_string(), folder: None, template: None };
    assert_eq!(try_periodic_note_path(&config, &d), None);
}

#[test]
fn variables_are_filled() {
    assert_eq!(fill_variables("{{title}} {{date}} {{time}}", "T", "D", "09:30"), "T D 09:30");
}

#[test]
fn dates_are_read_back() {
    assert_eq!(try_parse_date("2026-03-19", "%Y-%m-%d"), Some(date(2026, 3, 19)));
    assert_eq!(try_parse_date("2026-03", "%Y-%m"), Some(date(2026, 3, 1)));
    assert_eq!(try_parse_date("2026", "%Y"), Some(date(2026, 1, 1)));
    assert_eq!(try_parse_date("note", "%Y-%m-%d"), None);
}

#[test]
fn text_without_tokens_stays() {
    assert_eq!(momentjs_to_chrono("[YYYY] - 7"), "YYYY - 7");
}

#[test]
fn a_template_without_extension_is_markdown() {
    assert_eq!(template_file("Templates/Daily"), "Templates/Daily.md");
    assert_eq!(template_file("Templates/Daily/"), "Templates/Daily.md");
    assert_eq!(template_file("/Templates/.Daily"), "/Templates/.Daily.md");
    assert_eq!(template_file("Templates/Daily.txt"), "Templates/Daily.txt");
    assert_eq!(template_file(".."), "..");
}

#[test]
fn notes_without_a_folder_are_in_the_root() {
    let mut config = PeriodicNoteConfig {
        format: "YYYY".to_string(),
        folder: Some("Yearly".to_string()),
        template: None,
    };
    assert_eq!(folder_to_scan(&config), "Yearly");
    config.folder = None;
    assert_eq!(folder_to_scan(&config), "");
}
