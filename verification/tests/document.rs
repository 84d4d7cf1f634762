use mdglimpse::document::{
    absolutize_links, check_head, check_size, decode_text, file_name, has_markdown_extension,
    is_markdown_name, line_ranges, link_target, links, max_line_columns, name_extension, resolve_link,
    sniff_binary, Document,
    DocumentError, Draft, NotTextReason, MAX_FILE_BYTES, SNIFF_BYTES,
};

/// Admits and reads a file given as bytes, as the window does after reading
/// the disk; links are left unresolved.
fn load_bytes(name: &str, bytes: &[u8]) -> Result<Document, DocumentError> {
    check_size(bytes.len() as u64)?;
    let head = &bytes[..bytes.len().min(SNIFF_BYTES)];
    check_head(head)?;
    let draft = Draft::new(name, bytes);
    let canonical: Vec<Option<String>> = draft.link_targets().iter().map(|_| None).collect();
    Ok(Document::open(draft, &canonical, None))
}

#[test]
fn external_links_are_untouched() {
    let md = "[сайт](https://example.com) и [якорь](#glava-1)";
    let canonical = vec![None, None];
    assert_eq!(absolutize_links(md, &canonical), md);
}

#[test]
fn missing_files_are_untouched() {
    let md = "![схема](nope-does-not-exist.png)";
    assert_eq!(absolutize_links(md, &vec![None]), md);
}

#[test]
fn existing_file_becomes_file_uri() {
    let md = "![схема](picture.png)";
    assert_eq!(links(md), vec!["picture.png".to_string()]);
    assert_eq!(link_target("picture.png"), Some("picture.png".to_string()));

    for canonical in ["/tmp/mdglimpse-test/picture.png", "//?/C:/Users/me/picture.png"] {
        let out = absolutize_links(md, &vec![Some(canonical.replace('/', "\\"))]);
        let uri = out
            .strip_prefix("![схема](")
            .and_then(|rest| rest.strip_suffix(')'))
            .expect("разметка вокруг ссылки поехала");

        assert!(uri.starts_with("file:///"), "нет схемы file://: {uri}");
        assert!(uri.ends_with("/picture.png"), "потерялось имя файла: {uri}");
        assert!(!uri.contains('\\'), "остались обратные слэши: {uri}");
        assert!(!uri.contains('?'), "не срезан extended-length префикс: {uri}");
    }
    let out = absolutize_links(md, &vec![Some("\\\\?\\C:\\Users\\me\\picture.png".to_string())]);
    assert_eq!(out, "![схема](file:///C:/Users/me/picture.png)");
}

#[test]
fn binary_file_is_rejected() {
    let mut bytes = b"MZ\x90\x00\x03".to_vec();
    bytes.extend(std::iter::repeat_n(0u8, 512));

    let Err(err) = load_bytes("fake.exe", &bytes) else {
        panic!("бинарник должен быть отвергнут");
    };
    assert!(
        matches!(err, DocumentError::NotText(NotTextReason::NulByte)),
        "ожидали отказ по нулевому байту, получили {err:?}"
    );
}

#[test]
fn control_bytes_are_rejected() {
    let bytes: Vec<u8> = (1u8..=31).cycle().take(1024).collect();

    let Err(err) = load_bytes("noise.bin", &bytes) else {
        panic!("мусор должен быть отвергнут");
    };
    assert!(
        matches!(err, DocumentError::NotText(NotTextReason::ControlBytes)),
        "ожидали отказ по управляющим символам, получили {err:?}"
    );
}

#[test]
fn utf8_cyrillic_is_accepted() {
    let document = load_bytes("text.md", "# Заголовок\n\nПривет, мир!\n".as_bytes())
        .expect("UTF-8 с кириллицей должен читаться");

    assert!(document.source().contains("Привет, мир!"));
    assert!(document.is_markdown());
}

#[test]
fn single_broken_byte_is_tolerated() {
    let mut bytes = "Обычный русский текст, в котором ".as_bytes().to_vec();
    bytes.push(0xff);
    bytes.extend_from_slice(" один байт испорчен.".as_bytes());

    let document =
        load_bytes("text.md", &bytes).expect("один битый байт не делает файл бинарным");

    assert!(document.source().contains("Обычный русский текст"));
    assert!(document.source().contains("один байт испорчен"));
}

#[test]
fn cp1251_russian_text_is_accepted() {
    let bytes: Vec<u8> = vec![
        0xcf, 0xf0, 0xe8, 0xe2, 0xe5, 0xf2, 0x2c, 0x20, 0xec, 0xe8, 0xf0, 0x21, 0x20, 0xdd, 0xf2,
        0xee, 0x20, 0xf2, 0xe5, 0xea, 0xf1, 0xf2, 0x20, 0xe2, 0x20, 0xea, 0xee, 0xe4, 0xe8, 0xf0,
        0xee, 0xe2, 0xea, 0xe5, 0x20, 0x43, 0x50, 0x31, 0x32, 0x35, 0x31, 0x2e, 0x0a,
    ];

    let document = load_bytes("text.md", &bytes)
        .expect("текст в CP1251 не бинарник, отвергать его нельзя");

    assert!(document.source().contains("CP1251"));
}

#[test]
fn line_index_handles_crlf_and_tail() {
    let text = "первая\nвторая\r\n\nхвост";
    let ranges = line_ranges(text);
    let lines: Vec<&str> = ranges.iter().map(|r| &text[r.clone()]).collect();

    assert_eq!(lines, vec!["первая", "вторая", "", "хвост"]);
    assert!(!lines.iter().any(|line| line.contains('\r')));
}

#[test]
fn trailing_newline_does_not_add_empty_line() {
    assert_eq!(line_ranges("одна\n").len(), 1);
    assert_eq!(line_ranges("одна\nдве\n").len(), 2);
    assert_eq!(line_ranges("").len(), 0);
}

#[test]
fn tabs_count_as_four_columns() {
    let text = "ab\tc";
    let ranges = line_ranges(text);
    assert_eq!(max_line_columns(text, &ranges), 2 + 4 + 1);

    let text = "1234567890\n\t\t\tx";
    let ranges = line_ranges(text);
    assert_eq!(max_line_columns(text, &ranges), 13);
}

#[test]
fn max_line_columns_counts_characters_not_bytes() {
    let text = "привет";
    let ranges = line_ranges(text);
    assert_eq!(max_line_columns(text, &ranges), 6);
}

#[test]
fn non_markdown_extension_is_detected() {
    let document = load_bytes("Cargo.toml", b"[package]\nname = \"mdglimpse\"\n")
        .expect("toml — это текст, открывать можно");

    assert!(!document.is_markdown(), "Cargo.toml не должен считаться markdown");
}

#[test]
fn too_large_file_is_refused_before_reading() {
    assert!(check_size(MAX_FILE_BYTES).is_ok());
    let Err(err) = check_size(MAX_FILE_BYTES + 1) else {
        panic!("файл больше потолка должен быть отвергнут");
    };
    match err {
        DocumentError::TooLarge { size, limit } => {
            assert_eq!(size, MAX_FILE_BYTES + 1);
            assert_eq!(limit, 67_108_864);
        }
        other => panic!("ожидали TooLarge, получили {other:?}"),
    }
}

#[test]
fn broken_encoding_is_refused() {
    // Nothing but continuation bytes: every byte decodes to U+FFFD.
    let bytes = vec![0x80u8; 100];
    assert_eq!(sniff_binary(&bytes), Some(NotTextReason::BrokenEncoding));
    assert!(matches!(
        check_head(&bytes),
        Err(DocumentError::NotText(NotTextReason::BrokenEncoding))
    ));
    assert_eq!(sniff_binary(b""), None);
    assert_eq!(NotTextReason::NulByte.message(), "внутри нулевые байты");
}

#[test]
fn control_share_threshold_is_five_percent() {
    // 5 stray controls in 100 bytes is exactly 5 %: still text.
    let mut bytes = vec![b'a'; 95];
    bytes.extend([1u8; 5]);
    assert_eq!(sniff_binary(&bytes), None);
    // One more makes it 6 of 100.
    bytes[0] = 2;
    assert_eq!(sniff_binary(&bytes), Some(NotTextReason::ControlBytes));
    // Tab, line feed, carriage return and form feed are legitimate.
    let legit = vec![b'\t', b'\n', b'\r', 0x0c].repeat(25);
    assert_eq!(sniff_binary(&legit), None);
}

#[test]
fn full_window_drops_a_cut_character() {
    // A window of exactly SNIFF_BYTES that ends in the middle of a character.
    let mut bytes = "ж".repeat(SNIFF_BYTES / 2 - 1).into_bytes();
    bytes.push(b'a');
    bytes.push(0xd0);
    assert_eq!(bytes.len(), SNIFF_BYTES);
    assert_eq!(sniff_binary(&bytes), None);
}

#[test]
fn byte_order_mark_is_dropped() {
    let bytes = "\u{feff}# Заголовок\n".as_bytes();
    assert_eq!(decode_text(bytes), "# Заголовок\n");
    assert_eq!(decode_text(b"abc"), "abc");
    assert_eq!(decode_text(&[b'a', 0xff, b'b']), "a\u{fffd}b");
    // Only one mark is dropped.
    assert_eq!(decode_text("\u{feff}\u{feff}x".as_bytes()), "\u{feff}x");
}

#[test]
fn markdown_extensions_ignore_ascii_case() {
    assert!(has_markdown_extension("notes/README.MD"));
    assert!(has_markdown_extension("a.markdown"));
    assert!(has_markdown_extension("a.mkdn"));
    assert!(!has_markdown_extension("a.txt"));
    assert!(!has_markdown_extension("README"));
    assert!(!has_markdown_extension("a.md.bak"));
}

#[test]
fn file_name_takes_the_last_component() {
    assert_eq!(file_name("/home/user/docs/заметка.md"), "заметка.md");
    assert_eq!(file_name("заметка.md"), "заметка.md");
    assert_eq!(file_name("/"), "/");
}

#[test]
fn link_targets_skip_anchors_urls_and_mail() {
    assert_eq!(link_target("  picture.png "), Some("picture.png".to_string()));
    assert_eq!(link_target("#glava-1"), None);
    assert_eq!(link_target("https://example.com"), None);
    assert_eq!(link_target("mailto:me@example.com"), None);
    assert_eq!(link_target("   "), None);
    assert_eq!(resolve_link("pic.png", Some("/a/pic.png")), Some("file:///a/pic.png".to_string()));
    assert_eq!(resolve_link("pic.png", None), None);
    assert_eq!(resolve_link("#x", Some("/a/x")), None);
}

#[test]
fn document_lines_and_offsets() {
    let document = load_bytes("notes.md", "раз\r\nдва\n\nтри".as_bytes()).expect("текст");
    assert_eq!(document.line_count(), 4);
    assert_eq!(document.line(0), "раз");
    assert_eq!(document.line(1), "два");
    assert_eq!(document.line(2), "");
    assert_eq!(document.line(3), "три");
    assert_eq!(document.line(4), "");
    assert_eq!(document.line_range(1), 8..14);
    assert_eq!(document.line_range(9), 0..0);
    // Every offset of a line, and the line break after it, maps to it.
    for index in 0..document.line_count() {
        let range = document.line_range(index);
        for offset in range.start..=range.end {
            assert_eq!(document.line_of_offset(offset), index);
        }
    }
    assert_eq!(document.line_of_offset(1000), 3);
    assert_eq!(document.max_line_columns(), 3);
    assert_eq!(document.size_bytes(), "раз\r\nдва\n\nтри".len() as u64);
    assert!(!document.is_large());
    assert_eq!(document.title(), "notes.md");
    assert_eq!(document.path(), "notes.md");
}

#[test]
fn document_renders_anchors_and_links() {
    let source = "# Глава\n\n![схема](pic.png) и [сайт](https://example.com)\n";
    let draft = Draft::new("/docs/notes.md", source.as_bytes());
    let targets = draft.link_targets();
    assert_eq!(targets, vec![Some("pic.png".to_string()), None]);
    let canonical = vec![Some("/docs/pic.png".to_string()), None];
    let document = Document::open(draft, &canonical, Some(7));
    assert_eq!(
        document.rendered(),
        "# Глава {#глава}\n\n![схема](file:///docs/pic.png) и [сайт](https://example.com)\n"
    );
    assert_eq!(document.source(), source);
    assert_eq!(document.headings().len(), 1);
    assert_eq!(document.headings()[0].slug, "глава");
}

#[test]
fn reload_keeps_path_and_takes_new_text() {
    let mut document = load_bytes("a.md", b"# One\n").expect("text");
    assert!(!document.needs_reload(None));
    assert!(document.needs_reload(Some(5)));
    let draft = Draft::new("ignored.md", b"# Two\n\ntext\n");
    document.reload(draft, &Vec::new(), Some(5));
    assert_eq!(document.path(), "a.md");
    assert_eq!(document.source(), "# Two\n\ntext\n");
    assert_eq!(document.rendered(), "# Two {#two}\n\ntext\n");
    assert_eq!(document.line_count(), 3);
    assert!(!document.needs_reload(Some(5)));
    assert!(document.needs_reload(Some(6)));
    assert!(!document.needs_reload(None));
}

#[test]
fn extension_follows_the_last_dot_of_the_name() {
    assert_eq!(name_extension("notes.tar.md"), Some("md".to_string()));
    assert_eq!(name_extension(".bashrc"), None);
    assert_eq!(name_extension("README"), None);
    assert_eq!(name_extension("archive."), Some(String::new()));
    assert_eq!(name_extension(".hidden.Markdown"), Some("Markdown".to_string()));
}

#[test]
fn markdown_names_ignore_ascii_case() {
    assert!(is_markdown_name("README.MD"));
    assert!(is_markdown_name("a.mkdn"));
    assert!(!is_markdown_name("Cargo.toml"));
    assert!(!is_markdown_name(".md"));
    assert!(has_markdown_extension("заметки.markdown"));
    assert!(!has_markdown_extension("заметки.txt"));
}

#[test]
fn the_whole_head_is_judged() {
    // A zero byte anywhere in what was handed in counts, past SNIFF_BYTES too.
    let mut bytes = vec![b'a'; SNIFF_BYTES + 10];
    assert_eq!(sniff_binary(&bytes), None);
    bytes[SNIFF_BYTES + 5] = 0;
    assert_eq!(sniff_binary(&bytes), Some(NotTextReason::NulByte));
}

#[test]
fn file_names_of_slash_paths() {
    assert_eq!(file_name("/home/пользователь/мои файлы/моя заметка.md"), "моя заметка.md");
    assert_eq!(file_name("docs/readme.md/"), "readme.md");
    assert_eq!(file_name("/"), "/");
    assert!(has_markdown_extension("/home/u/README.MD"));
    assert!(!has_markdown_extension("/home/u/Cargo.toml"));
    assert!(!has_markdown_extension("/"));
}
