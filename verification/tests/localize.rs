use metainfo_l10n::{App, Context, FluentString, LocalizeError};

fn two_lang_context() -> Context {
    Context::new(vec![
        ("fr".to_string(), "title = Bonjour".to_string()),
        ("en".to_string(), "title = Hello".to_string()),
    ])
    .expect("registry builds")
    .0
}

#[test]
fn registry_orders_languages() {
    let ctx = two_lang_context();
    assert_eq!(ctx.languages(), vec!["en".to_string(), "fr".to_string()]);
    assert_eq!(ctx.len(), 2);
}

#[test]
fn registry_keeps_language_with_broken_catalog() {
    let (ctx, diagnostics) = Context::new(vec![
        ("en".to_string(), "title = Hello\n??? broken !!!".to_string()),
        ("de".to_string(), "title = Hallo".to_string()),
    ])
    .expect("registry builds despite catalog syntax errors");
    assert_eq!(ctx.languages(), vec!["de".to_string(), "en".to_string()]);
    assert!(!diagnostics.is_empty());
}

#[test]
fn registry_normalizes_tags() {
    let ctx = Context::new(vec![("en-us".to_string(), "title = Howdy".to_string())])
        .expect("registry builds")
        .0;
    assert_eq!(ctx.languages(), vec!["en-US".to_string()]);
}

#[test]
fn registry_rejects_invalid_language_tag() {
    let err = match Context::new(vec![("not a tag!".to_string(), "title = x".to_string())]) {
        Ok(_) => panic!("invalid tag must be fatal"),
        Err(e) => e,
    };
    match err {
        LocalizeError::InvalidLanguageTag { name } => assert_eq!(name, "not a tag!"),
        other => panic!("unexpected error: {:?}", other),
    }
}

#[test]
fn resolver_skips_missing_message() {
    let ctx = Context::new(vec![
        ("en".to_string(), "title = Hello".to_string()),
        ("fr".to_string(), "other = Bonjour".to_string()),
    ])
    .expect("registry builds")
    .0;
    let resolved = FluentString("title").get(&ctx).0;
    assert_eq!(resolved, vec![("en".to_string(), "Hello".to_string())]);
    let absent = FluentString("nowhere").get(&ctx).0;
    assert!(absent.is_empty());
}

#[test]
fn resolver_orders_by_language() {
    let ctx = two_lang_context();
    let resolved = FluentString("title").get(&ctx).0;
    assert_eq!(
        resolved,
        vec![
            ("en".to_string(), "Hello".to_string()),
            ("fr".to_string(), "Bonjour".to_string()),
        ]
    );
}

#[test]
fn catalog_file_name_underscores_domain() {
    assert_eq!(
        metainfo_l10n::catalog_file_name("com.example.my-app"),
        "com.example.my_app.ftl"
    );
}

#[test]
fn desktop_appends_localized_names_in_order() {
    let ctx = two_lang_context();
    let app = App::new(FluentString("title"));
    let out = app
        .expand_desktop(b"[Desktop Entry]\nName=Default\n", &ctx)
        .expect("expansion succeeds")
        .0;
    assert_eq!(
        out,
        "[Desktop Entry]\nName=Default\nName[en]=Hello\nName[fr]=Bonjour\n"
    );
}

#[test]
fn desktop_underscores_locale_suffix() {
    let ctx = Context::new(vec![("en-US".to_string(), "title = Howdy".to_string())])
        .expect("registry builds")
        .0;
    let app = App::new(FluentString("title"));
    let out = app
        .expand_desktop(b"[Desktop Entry]\nName=Default\n", &ctx)
        .expect("expansion succeeds")
        .0;
    assert!(out.contains("Name[en_US]=Howdy\n"));
}

#[test]
fn desktop_keeps_unrecognized_lines() {
    let ctx = two_lang_context();
    let app = App::new(FluentString("title"));
    let template = b"[Desktop Entry]\nType=Application\nName=Default\nExec=run %u\n\
[Desktop Action new-window]\nName=New Window\n";
    let out = app.expand_desktop(template, &ctx).expect("expansion succeeds").0;
    // stripping the appended localized lines restores the template byte for byte
    let stripped: String = out
        .lines()
        .filter(|line| !(line.starts_with("Name[") ))
        .map(|line| format!("{}\n", line))
        .collect();
    assert_eq!(stripped, String::from_utf8_lossy(template));
    // the secondary section is not localized
    let action_part = &out[out.find("[Desktop Action new-window]").unwrap()..];
    assert!(!action_part.contains("Name[en]"));
}

#[test]
fn desktop_localizes_comment_and_keywords() {
    let ctx = Context::new(vec![(
        "en".to_string(),
        "title = Hello\ndesc = Greets\nkeys = alpha;beta;".to_string(),
    )])
    .expect("registry builds")
    .0;
    let app = App::new(FluentString("title"))
        .comment(FluentString("desc"))
        .keywords(FluentString("keys"));
    let out = app
        .expand_desktop(
            b"[Desktop Entry]\nName=Default\nComment=A thing\nKeywords=a;b;\n",
            &ctx,
        )
        .expect("expansion succeeds")
        .0;
    assert!(out.contains("Comment[en]=Greets\n"));
    assert!(out.contains("Keywords[en]=alpha;beta;\n"));
}

#[test]
fn desktop_rejects_existing_localized_key() {
    let ctx = two_lang_context();
    let app = App::new(FluentString("title"));
    let err = app
        .expand_desktop(b"[Desktop Entry]\nName=Default\nName[de]=Standard\n", &ctx)
        .expect_err("double localization is fatal");
    match err {
        LocalizeError::LocalizedKey { key, param } => {
            assert_eq!(key, "Name");
            assert_eq!(param, "de");
        },
        other => panic!("unexpected error: {:?}", other),
    }
}

#[test]
fn desktop_rerun_on_own_output_fails() {
    let ctx = two_lang_context();
    let app = App::new(FluentString("title"));
    let out = app
        .expand_desktop(b"[Desktop Entry]\nName=Default\n", &ctx)
        .expect("first expansion succeeds")
        .0;
    let err = app
        .expand_desktop(out.as_bytes(), &ctx)
        .expect_err("re-running on localized output is fatal");
    assert!(matches!(err, LocalizeError::LocalizedKey { .. }));
}

#[test]
fn desktop_rejects_unparseable_template() {
    let ctx = two_lang_context();
    let app = App::new(FluentString("title"));
    let err = app
        .expand_desktop(b"Name=no section header\n", &ctx)
        .expect_err("parse failure is fatal");
    assert!(matches!(err, LocalizeError::TemplateSyntax { .. }));
}
