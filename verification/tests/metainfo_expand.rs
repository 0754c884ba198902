use metainfo_l10n::{App, Context, FluentString, LocalizeError};

fn two_lang_context() -> Context {
    Context::new(vec![
        ("fr".to_string(), "title = Bonjour".to_string()),
        ("en".to_string(), "title = Hello".to_string()),
    ])
    .expect("registry builds")
    .0
}

#[test]
fn metainfo_inserts_localized_names_in_order() {
    let ctx = two_lang_context();
    let app = App::new(FluentString("title"));
    let out = app
        .expand_metainfo(b"<component><name>Default</name></component>", &ctx)
        .expect("expansion succeeds")
        .0;
    let base = out.find("<name>Default</name>").expect("anchor kept");
    let en = out
        .find("<name xml:lang=\"en\">Hello</name>")
        .expect("english sibling present");
    let fr = out
        .find("<name xml:lang=\"fr\">Bonjour</name>")
        .expect("french sibling present");
    assert!(base < en && en < fr);
    assert!(!out.contains(" lang=\"en\""));
}

#[test]
fn metainfo_localizes_summary_and_keywords() {
    let ctx = Context::new(vec![(
        "en".to_string(),
        "title = Hello\ndesc = Greets\nkeys = alpha;beta;".to_string(),
    )])
    .expect("registry builds")
    .0;
    let app = App::new(FluentString("title"))
        .comment(FluentString("desc"))
        .keywords(FluentString("keys"));
    let out = app
        .expand_metainfo(
            b"<component><name>Default</name><summary>A thing</summary>\
<keywords><keyword>plain</keyword></keywords></component>",
            &ctx,
        )
        .expect("expansion succeeds")
        .0;
    assert!(out.contains("<summary xml:lang=\"en\">Greets</summary>"));
    assert_eq!(out.matches("<keyword xml:lang=\"en\">").count(), 2);
    assert!(out.contains("<keyword xml:lang=\"en\">alpha</keyword>"));
    assert!(out.contains("<keyword xml:lang=\"en\">beta</keyword>"));
    let plain = out.find("<keyword>plain</keyword>").expect("original keyword kept");
    let alpha = out.find("<keyword xml:lang=\"en\">alpha</keyword>").unwrap();
    let beta = out.find("<keyword xml:lang=\"en\">beta</keyword>").unwrap();
    assert!(plain < alpha && alpha < beta);
}

#[test]
fn metainfo_missing_name_is_fatal() {
    let ctx = two_lang_context();
    let app = App::new(FluentString("title"));
    let err = app
        .expand_metainfo(b"<component><summary>A</summary></component>", &ctx)
        .expect_err("missing anchor is fatal");
    match err {
        LocalizeError::MissingTag { tag } => assert_eq!(tag, "name"),
        other => panic!("unexpected error: {:?}", other),
    }
}

#[test]
fn metainfo_redefined_name_is_fatal() {
    let ctx = two_lang_context();
    let app = App::new(FluentString("title"));
    let err = app
        .expand_metainfo(
            b"<component><name>One</name><name>Two</name></component>",
            &ctx,
        )
        .expect_err("redefined anchor is fatal");
    match err {
        LocalizeError::RedefinedTag { tag } => assert_eq!(tag, "name"),
        other => panic!("unexpected error: {:?}", other),
    }
}

#[test]
fn metainfo_attributed_name_is_fatal() {
    let ctx = two_lang_context();
    let app = App::new(FluentString("title"));
    let err = app
        .expand_metainfo(
            b"<component><name other=\"x\">One</name><name>Two</name></component>",
            &ctx,
        )
        .expect_err("attributed anchor is fatal");
    match err {
        LocalizeError::LocalizedTag { tag } => assert_eq!(tag, "name"),
        other => panic!("unexpected error: {:?}", other),
    }
}

#[test]
fn metainfo_missing_keywords_is_fatal() {
    let ctx = two_lang_context();
    let app = App::new(FluentString("title")).keywords(FluentString("title"));
    let err = app
        .expand_metainfo(b"<component><name>Default</name></component>", &ctx)
        .expect_err("missing keywords element is fatal");
    assert!(matches!(err, LocalizeError::MissingKeywords));
}

#[test]
fn metainfo_rerun_on_own_output_fails() {
    let ctx = two_lang_context();
    let app = App::new(FluentString("title"));
    let out = app
        .expand_metainfo(b"<component><name>Default</name></component>", &ctx)
        .expect("first expansion succeeds")
        .0;
    let err = app
        .expand_metainfo(out.as_bytes(), &ctx)
        .expect_err("re-running on localized output is fatal");
    assert!(matches!(err, LocalizeError::LocalizedTag { .. }));
}

#[test]
fn metainfo_rejects_unparseable_template() {
    let ctx = two_lang_context();
    let app = App::new(FluentString("title"));
    let err = app
        .expand_metainfo(b"<component><name>unclosed", &ctx)
        .expect_err("parse failure is fatal");
    assert!(matches!(err, LocalizeError::TemplateSyntax { .. }));
}

#[test]
fn metainfo_underscores_locale_attribute() {
    let ctx = Context::new(vec![("en-US".to_string(), "title = Howdy".to_string())])
        .expect("registry builds")
        .0;
    let app = App::new(FluentString("title"));
    let out = app
        .expand_metainfo(b"<component><name>Default</name></component>", &ctx)
        .expect("expansion succeeds")
        .0;
    assert!(out.contains("<name xml:lang=\"en_US\">Howdy</name>"));
}
