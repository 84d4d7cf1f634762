use mdglimpse::outline::extract;
use mdglimpse::view::{
    association_notice, current_heading, extension_list, extra_files_notice, heading_before,
    line_pieces, outline_jump, plural, search_status, window_title, OutlineJump, Piece, PieceStyle,
    SearchCursor, ViewMode, Actions, Switches, Zoom, apply_switches, SearchState,
};
use mdglimpse::platform::Error;

#[test]
fn plural_follows_russian_rules() {
    let form = |n| plural(n, "строка", "строки", "строк");

    assert_eq!(form(1), "строка");
    assert_eq!(form(2), "строки");
    assert_eq!(form(5), "строк");
    assert_eq!(form(21), "строка");
    assert_eq!(form(22), "строки");
    assert_eq!(form(11), "строк");
    assert_eq!(form(12), "строк");
    assert_eq!(form(14), "строк");
    assert_eq!(form(111), "строк");
    assert_eq!(form(121), "строка");
    assert_eq!(form(0), "строк");
}

#[test]
fn plural_depends_on_last_two_digits() {
    for n in 0..300usize {
        assert_eq!(
            plural(n, "one", "few", "many"),
            plural(n % 100, "one", "few", "many"),
            "{n}"
        );
    }
}

#[test]
fn view_mode_flips_back() {
    for mode in [ViewMode::Rendered, ViewMode::Source] {
        assert_ne!(mode.flipped(), mode);
        assert_eq!(mode.flipped().flipped(), mode);
    }
    assert_eq!(ViewMode::Rendered.segment(), 0);
    assert_eq!(ViewMode::Source.segment(), 1);
}

#[test]
fn stepping_wraps_around_and_back() {
    let mut cursor = SearchCursor::new();
    cursor.step(true);
    assert_eq!(cursor.current(), 0);
    assert_eq!(cursor.current_match(), None);

    cursor.set_matches(vec![0..1, 5..6, 9..10]);
    assert_eq!(cursor.len(), 3);
    cursor.step(false);
    assert_eq!(cursor.current(), 2, "назад с первого — на последнее");
    cursor.step(true);
    assert_eq!(cursor.current(), 0, "вперёд с последнего — на первое");
    cursor.step(true);
    cursor.step(false);
    assert_eq!(cursor.current(), 0);
    cursor.step(true);
    cursor.step(true);
    assert_eq!(cursor.current_match(), Some(9..10));

    // A shorter result moves the current match to the last one.
    cursor.set_matches(vec![3..4]);
    assert_eq!(cursor.current(), 0);
    cursor.set_matches(vec![0..1, 2..3, 4..5]);
    cursor.step(true);
    cursor.set_matches(vec![0..1, 2..3, 4..5, 6..7]);
    assert_eq!(cursor.current(), 1, "номер сохраняется, пока совпадение есть");
    cursor.clear();
    assert_eq!(cursor.len(), 0);
    assert_eq!(cursor.current(), 0);
    assert!(cursor.matches().is_empty());
}

#[test]
fn status_line_texts() {
    let mut cursor = SearchCursor::new();
    let status = search_status(true, &cursor, ViewMode::Source, false, 0);
    assert_eq!(status.label, "в исходнике");
    assert!(status.weak);
    assert_eq!(status.hint, None);

    let status = search_status(false, &cursor, ViewMode::Rendered, false, 0);
    assert_eq!(status.label, "нет совпадений · в тексте");
    assert!(status.weak);

    cursor.set_matches(vec![0..1, 2..3, 4..5, 6..7, 8..9]);
    cursor.step(true);
    let status = search_status(false, &cursor, ViewMode::Source, false, 0);
    assert_eq!(status.label, "2 из 5 · в исходнике");
    assert!(!status.weak);
    assert_eq!(status.hint, None);

    let status = search_status(false, &cursor, ViewMode::Rendered, false, 3);
    assert_eq!(status.label, "2 из 5 · в тексте · 2 без подсветки");
    assert!(status.hint.unwrap().starts_with("2 совпадения попало внутрь разметки"));

    let status = search_status(false, &cursor, ViewMode::Rendered, false, 5);
    assert_eq!(status.label, "2 из 5 · в тексте");

    let status = search_status(false, &cursor, ViewMode::Rendered, true, 5);
    assert_eq!(status.label, "2 из 5 · в тексте · подсветка не работает");
    assert!(status.hint.unwrap().starts_with("Подсветка в режиме «Рендер»"));
}

#[test]
fn current_heading_follows_the_line() {
    let headings = extract("вступление\n\n# Первый\n\nтекст\n\n## Второй\n");
    assert_eq!(current_heading(&headings, 0), None);
    assert_eq!(current_heading(&headings, 2), Some(0));
    assert_eq!(current_heading(&headings, 5), Some(0));
    assert_eq!(current_heading(&headings, 6), Some(1));
    assert_eq!(current_heading(&headings, 100), Some(1));
    assert_eq!(current_heading(&[], 3), None);
}

#[test]
fn extensions_are_listed_for_people() {
    assert_eq!(extension_list(), ".md и .markdown");
}

#[test]
fn pieces_split_a_line_around_matches() {
    let matches = vec![0..2, 5..8, 9..15, 20..22];
    // The line 4..12: the second match whole, the third cut at the line's end.
    let pieces = line_pieces(&(4..12), &matches, 2);
    assert_eq!(
        pieces,
        vec![
            Piece { start: 4, end: 5, style: PieceStyle::Plain },
            Piece { start: 5, end: 8, style: PieceStyle::Match },
            Piece { start: 8, end: 9, style: PieceStyle::Plain },
            Piece { start: 9, end: 12, style: PieceStyle::Current },
        ]
    );
    // A match that starts before the line is cut at its start.
    assert_eq!(
        line_pieces(&(10..17), &matches, 0),
        vec![
            Piece { start: 10, end: 15, style: PieceStyle::Match },
            Piece { start: 15, end: 17, style: PieceStyle::Plain },
        ]
    );
    // No match on the line: one plain piece; an empty line: nothing.
    assert_eq!(
        line_pieces(&(16..19), &matches, 0),
        vec![Piece { start: 16, end: 19, style: PieceStyle::Plain }]
    );
    assert_eq!(line_pieces(&(16..16), &matches, 0), Vec::new());
    assert_eq!(
        line_pieces(&(0..3), &[], 0),
        vec![Piece { start: 0, end: 3, style: PieceStyle::Plain }]
    );
}

#[test]
fn scrolling_in_the_rendered_view_finds_the_section() {
    let headings = extract("# Первый\n\nтекст\n\nПодчёркнутый\n====\n\n## Второй\n\nещё\n");
    let plain = "Первый\nтекст\nПодчёркнутый\nВторой\nещё\n";
    let at = |needle: &str| plain.find(needle).unwrap();
    assert_eq!(heading_before(&headings, plain, at("текст")), Some("первый".to_string()));
    // The underlined heading has no anchor, so the section above it is chosen.
    assert_eq!(heading_before(&headings, plain, at("Второй")), Some("первый".to_string()));
    assert_eq!(heading_before(&headings, plain, at("ещё")), Some("второй".to_string()));
    assert_eq!(heading_before(&headings, plain, 0), None);
}

#[test]
fn titles_and_notices() {
    assert_eq!(window_title(Some("заметка.md")), "заметка.md — MdGlimpse");
    assert_eq!(window_title(None), "MdGlimpse");
    assert_eq!(
        extra_files_notice("a.md", 2),
        "Открыт только «a.md». Ещё 2 файла осталось неоткрытым: вкладок в MdGlimpse пока нет, откройте их по одному."
    );
    assert!(extra_files_notice("a.md", 5).contains("Ещё 5 файлов"));
    assert!(extra_files_notice("a.md", 21).contains("Ещё 21 файл "));
    assert_eq!(ViewMode::for_document(true, false), ViewMode::Rendered);
    assert_eq!(ViewMode::for_document(true, true), ViewMode::Source);
    assert_eq!(ViewMode::for_document(false, false), ViewMode::Source);
}

#[test]
fn outline_clicks_lead_to_anchor_or_line() {
    let headings = extract("Подчёркнутый\n====\n\n# Обычный\n");
    assert_eq!(outline_jump(&headings[0], ViewMode::Rendered), OutlineJump::NoAnchor);
    assert_eq!(outline_jump(&headings[0], ViewMode::Source), OutlineJump::Line(0));
    assert_eq!(
        outline_jump(&headings[1], ViewMode::Rendered),
        OutlineJump::Anchor("обычный".to_string())
    );
    assert_eq!(outline_jump(&headings[1], ViewMode::Source), OutlineJump::Line(3));
}

#[test]
fn association_notices() {
    assert_eq!(
        association_notice(false, &Ok(())),
        "Регистрация для .md и .markdown снята."
    );
    assert!(association_notice(true, &Ok(()))
        .starts_with("MdGlimpse зарегистрирован для .md и .markdown. Чтобы открывать их двойным щелчком"));
    assert_eq!(
        association_notice(true, &Err(Error::Os("нет доступа".to_string()))),
        "Не получилось: нет доступа"
    );
    assert_eq!(
        association_notice(false, &Err(Error::Unsupported)),
        "Не получилось: на этой системе ассоциация файлов не поддерживается"
    );
}

fn switches() -> Switches {
    Switches {
        mode: ViewMode::Rendered,
        select_all: false,
        gallery_open: false,
        outline_open: true,
        search_open: false,
        request_focus: false,
        auto_reload: true,
        about_open: false,
        shortcuts_open: false,
    }
}

#[test]
fn keyboard_requests_win_when_merged_with_the_toolbar() {
    let keys = Actions { toggle: true, mode: Some(ViewMode::Source), ..Actions::default() };
    let toolbar = Actions { mode: Some(ViewMode::Rendered), open: true, zoom: Some(Zoom::In), ..Actions::default() };
    let merged = keys.merge(toolbar);
    assert_eq!(merged.mode, Some(ViewMode::Source));
    assert!(merged.toggle && merged.open);
    assert_eq!(merged.zoom, Some(Zoom::In));
    assert_eq!(Actions::default().merge(Actions::default()), Actions::default());
}

#[test]
fn applying_requests_to_the_switches() {
    let s = switches();
    assert_eq!(apply_switches(s, &Actions::default(), true), s);

    let flip = apply_switches(s, &Actions { toggle: true, ..Actions::default() }, true);
    assert_eq!(flip.mode, ViewMode::Source);
    let chosen = apply_switches(s, &Actions { toggle: true, mode: Some(ViewMode::Rendered), ..Actions::default() }, true);
    assert_eq!(chosen.mode, ViewMode::Rendered);

    assert!(!apply_switches(s, &Actions { select_all: true, ..Actions::default() }, false).select_all);
    assert!(apply_switches(s, &Actions { select_all: true, ..Actions::default() }, true).select_all);
    let find = apply_switches(s, &Actions { select_all: true, find: true, ..Actions::default() }, true);
    assert!(!find.select_all && find.search_open && find.request_focus);
    let both = apply_switches(s, &Actions { find: true, close_find: true, ..Actions::default() }, true);
    assert!(!both.search_open);

    let panels = apply_switches(
        s,
        &Actions { gallery: true, toggle_outline: true, watch: Some(false), about: true, ..Actions::default() },
        true,
    );
    assert!(panels.gallery_open && !panels.outline_open && !panels.auto_reload && panels.about_open);
}

#[test]
fn search_state_searches_the_text_of_the_mode() {
    let source = "# Кот\n\nКот [кот](кот.md) и кот\n".to_string();
    let mut state = SearchState::new();
    state.query = "кот".to_string();
    state.refresh(&source, ViewMode::Source);
    assert_eq!(state.cursor().len(), 5);
    state.step(true);
    state.step(true);
    assert_eq!(state.cursor().current(), 2);

    state.refresh(&source, ViewMode::Rendered);
    let plain = state.text(&source).to_string();
    assert_eq!(state.cursor().len(), 4, "{plain:?}");
    assert_eq!(state.cursor().current(), 2);
    for range in state.cursor().matches() {
        assert_eq!(plain[range.clone()].to_lowercase(), "кот");
    }

    state.query = "котёл".to_string();
    state.refresh(&source, ViewMode::Rendered);
    assert_eq!(state.cursor().len(), 0);
    assert_eq!(state.cursor().current(), 0);

    state.invalidate();
    assert_eq!(state.cursor().len(), 0);
    assert_eq!(state.query, "котёл");
}

#[test]
fn search_state_notices_a_changed_document() {
    let mut state = SearchState::new();
    state.query = "a".to_string();
    state.refresh(&"a a".to_string(), ViewMode::Source);
    assert_eq!(state.cursor().len(), 2);
    state.refresh(&"a a a".to_string(), ViewMode::Source);
    assert_eq!(state.cursor().len(), 3);
    state.refresh(&"b b b".to_string(), ViewMode::Source);
    assert_eq!(state.cursor().len(), 0);
}
