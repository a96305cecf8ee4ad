use tread::config::DisplayMode;
use tread::settings::{Settings, TemplatePreset};

fn preset(name: &str, template: &str) -> TemplatePreset {
    TemplatePreset {
        name: name.to_string(),
        template: template.to_string(),
    }
}

#[test]
fn find_template_returns_the_first_preset_of_that_name() {
    let settings = Settings {
        default_mode: None,
        display_lines: Some(2),
        templates: vec![
            preset("log", "[{time}] {text}"),
            preset("java", "at {module}.{text}"),
            preset("log", "second {text}"),
        ],
    };
    assert_eq!(settings.find_template("log"), Some("[{time}] {text}"));
    assert_eq!(settings.find_template("java"), Some("at {module}.{text}"));
    assert_eq!(settings.find_template("LOG"), None);
}

#[test]
fn default_settings_have_no_templates() {
    let settings = Settings::default();
    assert!(settings.default_mode.is_none());
    assert!(settings.display_lines.is_none());
    assert_eq!(settings.find_template("log"), None);
}

#[test]
fn next_cycles_log_minimal_comment() {
    assert_eq!(DisplayMode::Log.next(), DisplayMode::Minimal);
    assert_eq!(DisplayMode::Minimal.next(), DisplayMode::Comment);
    assert_eq!(DisplayMode::Comment.next(), DisplayMode::Log);
    let mut m = DisplayMode::Minimal;
    for _ in 0..3 {
        m = m.next();
    }
    assert_eq!(m, DisplayMode::Minimal);
}

#[test]
fn next_leads_other_modes_back_to_log() {
    let order = [
        DisplayMode::GitLog,
        DisplayMode::NpmInstall,
        DisplayMode::Pytest,
        DisplayMode::DockerLogs,
        DisplayMode::KubectlLogs,
        DisplayMode::Log,
    ];
    for i in 0..order.len() - 1 {
        assert_eq!(order[i].next(), order[i + 1]);
    }
}
