use mdglimpse::outline::{extract, inject_anchors, plain_text, slug, Heading};

fn slugs(source: &str) -> Vec<String> {
    extract(source).into_iter().map(|h: Heading| h.slug).collect()
}

#[test]
fn levels_and_nesting() {
    let headings = extract("# Один\n\n## Два\n\n### Три\n\n## Ещё два\n");
    let levels: Vec<u8> = headings.iter().map(|h| h.level).collect();
    let texts: Vec<&str> = headings.iter().map(|h| h.text.as_str()).collect();

    assert_eq!(levels, vec![1, 2, 3, 2]);
    assert_eq!(texts, vec!["Один", "Два", "Три", "Ещё два"]);
}

#[test]
fn line_numbers_are_zero_based() {
    let headings = extract("вступление\n\n# Первый\n\nтекст\n\n## Второй\n");
    let lines: Vec<usize> = headings.iter().map(|h| h.line).collect();
    assert_eq!(lines, vec![2, 6]);
}

#[test]
fn cyrillic_slug_matches_convention() {
    assert_eq!(slug("Проверочный документ MdGlimpse"), "проверочный-документ-mdglimpse");
    assert_eq!(slug("Кириллица в разных начертаниях"), "кириллица-в-разных-начертаниях");
    assert_eq!(slug("Ёлки-Палки, ЖУРНАЛ!"), "ёлки-палки-журнал");
}

#[test]
fn punctuation_is_dropped_not_replaced() {
    assert_eq!(slug("Что делать?"), "что-делать");
    assert_eq!(slug("A/B: тест (v2)"), "ab-тест-v2");
    assert_eq!(slug("под_чёрк-и-дефис"), "под_чёрк-и-дефис");
}

#[test]
fn duplicate_headings_get_suffixes() {
    assert_eq!(
        slugs("# Раздел\n\n# Раздел\n\n# Раздел\n"),
        vec!["раздел", "раздел-1", "раздел-2"]
    );
}

#[test]
fn code_and_links_inside_heading() {
    let headings = extract("# Запуск `cargo test` и [ссылка](http://example.com/path)\n");
    assert_eq!(headings.len(), 1);
    assert_eq!(headings[0].text, "Запуск cargo test и ссылка");
    assert_eq!(headings[0].slug, "запуск-cargo-test-и-ссылка");
}

#[test]
fn empty_heading_survives() {
    let headings = extract("#\n\n##   \n");
    assert_eq!(headings.len(), 2);
    assert!(headings.iter().all(|h| h.text.is_empty()));
    assert_eq!(headings[0].slug, "");
    assert_eq!(headings[1].slug, "-1");
}

#[test]
fn heading_inside_code_block_is_not_a_heading() {
    let source = "# Настоящий\n\n```\n# Не заголовок\n```\n\n## Тоже настоящий\n";
    assert_eq!(slugs(source), vec!["настоящий", "тоже-настоящий"]);
}

#[test]
fn setext_heading_is_listed_without_anchor() {
    let headings = extract("Подчёркнутый\n============\n\n# Обычный\n");
    assert_eq!(headings.len(), 2);

    assert_eq!(headings[0].text, "Подчёркнутый");
    assert!(!headings[0].is_atx, "setext должен опознаваться");
    assert!(
        headings[0].slug.is_empty(),
        "у setext якоря быть не может: синтаксис {{#id}} к нему неприменим"
    );

    assert!(headings[1].is_atx);
    assert_eq!(headings[1].slug, "обычный");
}

#[test]
fn anchors_are_injected_into_atx_only() {
    let source = "# Первый\n\nтекст\n\nПодчёркнутый\n============\n\n## Второй\n";
    let out = inject_anchors(source);

    assert!(out.contains("# Первый {#первый}"));
    assert!(out.contains("## Второй {#второй}"));
    assert!(out.contains("Подчёркнутый\n============"));
    assert!(out.contains("\nтекст\n"));
}

#[test]
fn injection_leaves_code_blocks_alone() {
    let source = "```\n# Не заголовок\n```\n\n# Заголовок\n";
    let out = inject_anchors(source);

    assert!(out.contains("# Не заголовок\n```"), "код тронут: {out}");
    assert!(out.contains("# Заголовок {#заголовок}"));
}

#[test]
fn injection_survives_crlf() {
    let source = "# Заголовок\r\n\r\nтекст\r\n";
    let out = inject_anchors(source);
    assert!(out.contains("# Заголовок {#заголовок}\r\n"), "{out:?}");
}

#[test]
fn plain_text_drops_markup_and_urls() {
    let source = "# Заголовок\n\nТекст со [ссылкой](https://example.com/src/path) и **жирным**.\n";
    let plain = plain_text(source);

    assert!(plain.contains("Заголовок"));
    assert!(plain.contains("Текст со ссылкой и жирным."));
    assert!(!plain.contains("src"), "адрес ссылки попал в текст: {plain}");
    assert!(!plain.contains('*'));
}

#[test]
fn text_without_atx_headings_is_not_changed() {
    let source = "Подчёркнутый\n============\n\nпросто текст\n";
    assert_eq!(inject_anchors(source), source);
    assert_eq!(inject_anchors(""), "");
}

#[test]
fn slug_folds_whitespace_into_hyphens() {
    assert_eq!(slug("a  b\tc"), "a--b-c");
    assert_eq!(slug(""), "");
}

#[test]
fn deleting_the_anchors_gives_the_source_back() {
    let source = "# Один\r\n\r\nтекст\n\n## Два\n\n# Один\n\nПодчёркнутый\n---\n";
    let out = inject_anchors(source);
    let mut back = out.clone();
    for heading in extract(source) {
        if !heading.slug.is_empty() {
            back = back.replacen(&format!(" {{#{}}}", heading.slug), "", 1);
        }
    }
    assert_eq!(back, source);
    assert!(out.contains("# Один {#один}\r\n"));
    assert!(out.contains("# Один {#один-1}\n"));
}

#[test]
fn unicode_white_space_becomes_a_hyphen() {
    assert_eq!(slug("a\u{3000}b\u{a0}c"), "a-b-c");
    assert_eq!(slug("a\u{200b}b"), "ab");
}

#[test]
fn ascii_slug_is_lower_case_and_stable() {
    let once = slug("Hello, World! 2_x-y\tZ");
    assert_eq!(once, "hello-world-2_x-y-z");
    assert!(once.chars().all(|c| c.is_ascii_lowercase() || c.is_ascii_digit() || c == '-' || c == '_'));
    assert_eq!(slug(&once), once);
}

#[test]
fn every_heading_with_a_slug_gets_its_anchor() {
    let source = "# A\n## B\r\nтекст\n### C";
    let out = inject_anchors(source);
    assert_eq!(out, "# A {#a}\n## B {#b}\r\nтекст\n### C {#c}");
}
