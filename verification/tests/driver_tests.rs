use tmglel::driver::{expand_all, expand_language, HostLanguage, SupportEntry};
use tmglel::errors::TemplateErrorKind;
use tmglel::expand::Label;

fn b(s: &str) -> Vec<u8> {
    s.as_bytes().to_vec()
}

fn label(id: &str, scope: &str, list: &str, patterns: &str) -> Label {
    Label { id: b(id), scope: b(scope), list: b(list), patterns: b(patterns) }
}

fn lang(id: &str, name: &str, content: &str, dry_1: &str, dry_2: &str) -> HostLanguage {
    HostLanguage {
        id: b(id),
        name: b(name),
        scope: b(&format!("source.{id}")),
        prelude: b(""),
        content: b(content),
        dry_1: b(dry_1),
        dry_2: b(dry_2),
    }
}

fn table() -> Vec<Label> {
    vec![
        label("css", "source.css", "css|css.erb", ""),
        label("html", "text.html.basic", "html|htm", ""),
        label("go", "source.go", "go|golang", ""),
        label("lua", "source.lua", "lua", ""),
    ]
}

#[test]
fn language_expands_supported_labels_in_table_order() {
    // The support list names lua before css, but the output follows the
    // global table order: css first, then go, then lua.
    let l = lang("toml", "TOML", "<@_ID>", "", "");
    let supported = vec![b("lua"), b("go"), b("css")];
    let out = expand_language(&l, &table(), &supported).unwrap();
    assert_eq!(out.body, b("<css><go><lua>"));
    assert_eq!(out.label_ids, vec![b("css"), b("go"), b("lua")]);
    assert_eq!(out.id, b("toml"));
}

#[test]
fn support_order_does_not_change_output() {
    let l = lang("toml", "TOML", "@_ID;", "", "");
    let forward = vec![b("css"), b("html"), b("go"), b("lua")];
    let reverse = vec![b("lua"), b("go"), b("html"), b("css")];
    let a = expand_language(&l, &table(), &forward).unwrap();
    let c = expand_language(&l, &table(), &reverse).unwrap();
    assert_eq!(a.body, c.body);
    assert_eq!(a.label_ids, c.label_ids);
    assert_eq!(a.body, b("css;html;go;lua;"));
}

#[test]
fn unknown_support_ids_are_ignored() {
    let l = lang("toml", "TOML", "@_ID", "", "");
    let supported = vec![b("nosuch"), b("go")];
    let out = expand_language(&l, &table(), &supported).unwrap();
    assert_eq!(out.body, b("go"));
    assert_eq!(out.label_ids, vec![b("go")]);
}

#[test]
fn driver_produces_one_output_per_supported_language() {
    let langs = vec![
        lang("yaml", "YAML", "y[@_ID]", "", ""),
        lang("toml", "TOML", "t[@_SCOPE]", "", ""),
    ];
    let support = vec![
        SupportEntry { lang_id: b("toml"), label_ids: vec![b("go")] },
        SupportEntry { lang_id: b("yaml"), label_ids: vec![b("css"), b("lua")] },
    ];
    let outs = expand_all(&langs, &table(), &support).unwrap();
    assert_eq!(outs.len(), 2);
    assert_eq!(outs[0].id, b("yaml"));
    assert_eq!(outs[0].body, b("y[css]y[lua]"));
    assert_eq!(outs[0].label_ids, vec![b("css"), b("lua")]);
    assert_eq!(outs[1].id, b("toml"));
    assert_eq!(outs[1].body, b("t[source.go]"));
    assert_eq!(outs[1].label_ids, vec![b("go")]);
}

#[test]
fn language_without_entry_is_skipped() {
    // No support entry for yaml: no output and no label registrations.
    let langs = vec![lang("yaml", "YAML", "@_ID", "", ""), lang("toml", "TOML", "@_ID", "", "")];
    let support = vec![SupportEntry { lang_id: b("toml"), label_ids: vec![b("css")] }];
    let outs = expand_all(&langs, &table(), &support).unwrap();
    assert_eq!(outs.len(), 1);
    assert_eq!(outs[0].id, b("toml"));
}

#[test]
fn language_with_empty_entry_is_skipped() {
    let langs = vec![lang("yaml", "YAML", "@_ID", "", "")];
    let support = vec![SupportEntry { lang_id: b("yaml"), label_ids: vec![] }];
    let outs = expand_all(&langs, &table(), &support).unwrap();
    assert_eq!(outs.len(), 0);
}

#[test]
fn skipped_language_templates_are_not_tokenized() {
    // A malformed template in a language with no support entry never aborts
    // the run, because skipping happens before tokenization.
    let langs = vec![lang("yaml", "YAML", "@_BROKEN", "", ""), lang("toml", "TOML", "ok", "", "")];
    let support = vec![SupportEntry { lang_id: b("toml"), label_ids: vec![b("css")] }];
    let outs = expand_all(&langs, &table(), &support).unwrap();
    assert_eq!(outs.len(), 1);
    assert_eq!(outs[0].body, b("ok"));
}

#[test]
fn malformed_template_aborts_with_language_name() {
    let langs = vec![
        lang("yaml", "YAML", "fine", "", ""),
        lang("toml", "TOML", "@_BROKEN", "", ""),
    ];
    let support = vec![
        SupportEntry { lang_id: b("yaml"), label_ids: vec![b("css")] },
        SupportEntry { lang_id: b("toml"), label_ids: vec![b("css")] },
    ];
    let err = expand_all(&langs, &table(), &support).unwrap_err();
    assert!(matches!(err.kind, TemplateErrorKind::MalformedTemplate));
    assert_eq!(err.lang, b("TOML"));
}

#[test]
fn malformed_dry_fragment_is_detected() {
    let langs = vec![lang("toml", "TOML", "fine", "@_NOPE", "")];
    let support = vec![SupportEntry { lang_id: b("toml"), label_ids: vec![b("css")] }];
    let err = expand_all(&langs, &table(), &support).unwrap_err();
    assert!(matches!(err.kind, TemplateErrorKind::MalformedTemplate));
    assert_eq!(err.lang, b("TOML"));
}

#[test]
fn nested_dry_aborts_with_language_name() {
    // Content references dry-1, and dry-1 references dry-2: the run stops
    // with an illegal-nested-dry error naming the language.
    let langs = vec![lang("js", "JavaScript", "use @_DRY_1", "@_DRY_2", "deep")];
    let support = vec![SupportEntry { lang_id: b("js"), label_ids: vec![b("css")] }];
    let err = expand_all(&langs, &table(), &support).unwrap_err();
    assert!(matches!(err.kind, TemplateErrorKind::IllegalNestedDry));
    assert_eq!(err.lang, b("JavaScript"));
}

#[test]
fn nested_dry_with_no_matching_label_is_not_reached() {
    // The support entry names only an identifier missing from the table, so
    // no label is expanded and the nested dry marker is never encountered.
    let langs = vec![lang("js", "JavaScript", "use @_DRY_1", "@_DRY_2", "deep")];
    let support = vec![SupportEntry { lang_id: b("js"), label_ids: vec![b("nosuch")] }];
    let outs = expand_all(&langs, &table(), &support).unwrap();
    assert_eq!(outs.len(), 1);
    assert_eq!(outs[0].body, b(""));
    assert_eq!(outs[0].label_ids.len(), 0);
}

#[test]
fn repeated_runs_are_identical() {
    let langs = vec![lang("rhai", "Rhai", "@_ID:@_LIST@_DRY_1", "(@_SCOPE)", "")];
    let support = vec![
        SupportEntry { lang_id: b("rhai"), label_ids: vec![b("go"), b("css"), b("lua")] },
    ];
    let first = expand_all(&langs, &table(), &support).unwrap();
    let second = expand_all(&langs, &table(), &support).unwrap();
    assert_eq!(first.len(), second.len());
    assert_eq!(first[0].body, second[0].body);
    assert_eq!(
        first[0].body,
        b("css:css|css.erb(source.css)go:go|golang(source.go)lua:lua(source.lua)")
    );
}
