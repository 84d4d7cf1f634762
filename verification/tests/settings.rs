use mdglimpse::settings::{Settings, MAX_RECENT, STORAGE_KEY};

fn paths(settings: &Settings) -> Vec<String> {
    settings.recent.clone()
}

#[test]
fn newest_goes_first() {
    let mut settings = Settings::default();
    settings.remember("a.md");
    settings.remember("b.md");
    settings.remember("c.md");

    assert_eq!(paths(&settings), vec!["c.md", "b.md", "a.md"]);
}

#[test]
fn reopening_moves_to_top_without_duplicating() {
    let mut settings = Settings::default();
    for name in ["a.md", "b.md", "c.md"] {
        settings.remember(name);
    }
    settings.remember("a.md");

    assert_eq!(paths(&settings), vec!["a.md", "c.md", "b.md"]);
    assert_eq!(settings.recent.len(), 3, "дубликат не должен появляться");
}

#[test]
fn list_is_capped() {
    let mut settings = Settings::default();
    for index in 0..(MAX_RECENT + 5) {
        settings.remember(&format!("file{index}.md"));
    }

    assert_eq!(settings.recent.len(), MAX_RECENT);
    assert_eq!(settings.recent[0], format!("file{}.md", MAX_RECENT + 4));
}

#[test]
fn missing_files_are_pruned() {
    let mut settings = Settings::default();
    for name in ["есть.md", "нет.md", "тоже есть.md"] {
        settings.remember(name);
    }

    settings.prune(|path: &String| path.contains("есть"));

    assert_eq!(paths(&settings), vec!["тоже есть.md", "есть.md"]);
}

#[test]
fn defaults_are_sane() {
    let settings = Settings::default();
    assert!(settings.outline_open, "оглавление по умолчанию открыто");
    assert!(!settings.source_mode, "по умолчанию показываем рендер");
    assert!(settings.auto_reload, "слежение по умолчанию включено");
    assert!(settings.recent.is_empty());
}

#[test]
fn remembering_keeps_the_switches() {
    let mut settings = Settings::default();
    settings.source_mode = true;
    settings.remember("a.md");
    settings.prune(|_: &String| true);
    assert!(settings.source_mode);
    assert_eq!(paths(&settings), vec!["a.md"]);
    assert_eq!(STORAGE_KEY, "settings");
}

#[test]
fn remembering_the_same_file_twice_changes_nothing_more() {
    let mut settings = Settings::default();
    settings.remember("/a.md");
    settings.remember("/b.md");
    settings.remember("/b.md");
    let once = paths(&settings);
    settings.remember("/b.md");
    assert_eq!(paths(&settings), once);
    assert_eq!(once, vec!["/b.md".to_string(), "/a.md".to_string()]);
}

#[test]
fn the_same_path_written_twice_is_one_entry() {
    let mut settings = Settings::default();
    settings.remember("dir/a.md");
    settings.remember("dir//a.md");
    assert_eq!(paths(&settings), vec!["dir//a.md".to_string()]);
}

#[test]
fn absolute_paths_keep_their_order() {
    let mut settings = Settings::default();
    settings.remember("/home/u/a.md");
    settings.remember("/home/u/b.md");
    settings.remember("/home/u/c.md");
    settings.remember("/home/u/b.md");
    assert_eq!(paths(&settings), vec!["/home/u/b.md", "/home/u/c.md", "/home/u/a.md"]);
}
