use mdglimpse::icons::{Icon, Segment};
use mdglimpse::probe::{locate_in_texts, Mark, ProbeBroken, Spot};
use mdglimpse::search::Options;

#[test]
fn spots_are_counted_in_characters() {
    let texts = vec!["Ёжик и ёжик".to_string(), "нет".to_string(), "ЁЖИК".to_string()];
    let spots = locate_in_texts(&texts, "ёжик", Options::default()).expect("текст нарисован");
    assert_eq!(
        spots,
        vec![
            Spot { text: 0, start: 0, end: 4 },
            Spot { text: 0, start: 7, end: 11 },
            Spot { text: 2, start: 0, end: 4 },
        ]
    );
}

#[test]
fn no_drawn_text_means_the_probe_broke() {
    let nothing: Vec<String> = Vec::new();
    assert!(matches!(locate_in_texts(&nothing, "слово", Options::default()), Err(ProbeBroken)));
    // Nothing to look for is no matches, whatever was drawn.
    assert_eq!(locate_in_texts(&nothing, "", Options::default()).unwrap(), Vec::new());
    let texts = vec![String::new()];
    assert_eq!(locate_in_texts(&texts, "слово", Options::default()).unwrap(), Vec::new());
    let mark = Mark(3);
    assert_eq!(mark.0, 3);
}

#[test]
fn icons_have_names() {
    let all = Icon::all();
    assert_eq!(all.len(), 10);
    let names: Vec<&str> = all.iter().map(|icon| icon.name()).collect();
    assert_eq!(
        names,
        vec!["Eye", "Code", "Folder", "Reload", "Sun", "Moon", "Waves", "Sidebar", "Close", "Search"]
    );
    let segment = Segment { icon: Icon::Eye, tooltip: "Просмотр" };
    assert_eq!(segment.icon, Icon::Eye);
    assert_eq!(segment.tooltip, "Просмотр");
}
