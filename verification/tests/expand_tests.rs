use tmglel::errors::TemplateErrorKind;
use tmglel::expand::{expand_label, Label};
use tmglel::tokenizer::{tokenize, Fragment};

fn b(s: &str) -> Vec<u8> {
    s.as_bytes().to_vec()
}

fn frag(s: &str) -> Fragment {
    tokenize(&b(s)).unwrap()
}

fn label(id: &str, scope: &str, list: &str, patterns: &str) -> Label {
    Label { id: b(id), scope: b(scope), list: b(list), patterns: b(patterns) }
}

#[test]
fn expands_id_and_scope() {
    // Content "X:@_ID,@_SCOPE;" with empty dry fragments and the css label
    // expands to exactly "X:css,source.css;".
    let content = frag("X:@_ID,@_SCOPE;");
    let dry_1 = frag("");
    let dry_2 = frag("");
    let lab = label("css", "source.css", "", "");
    let out = expand_label(&content, &dry_1, &dry_2, &lab).unwrap();
    assert_eq!(out, b("X:css,source.css;"));
}

#[test]
fn expands_list_and_patterns() {
    let content = frag("begin=@_LIST end@_PATTERNS");
    let dry_1 = frag("");
    let dry_2 = frag("");
    let lab = label("css", "source.css", "css|css.erb", "\n  - extra");
    let out = expand_label(&content, &dry_1, &dry_2, &lab).unwrap();
    assert_eq!(out, b("begin=css|css.erb end\n  - extra"));
}

#[test]
fn empty_patterns_block_adds_nothing() {
    let content = frag("a@_PATTERNSb");
    let out = expand_label(&content, &frag(""), &frag(""), &label("x", "y", "z", "")).unwrap();
    assert_eq!(out, b("ab"));
}

#[test]
fn expands_dry_fragment_in_place() {
    // Content "@_DRY_1!" with dry-1 "[@_ID]" and the go label yields "[go]!".
    let content = frag("@_DRY_1!");
    let dry_1 = frag("[@_ID]");
    let dry_2 = frag("");
    let lab = label("go", "source.go", "go|golang", "");
    let out = expand_label(&content, &dry_1, &dry_2, &lab).unwrap();
    assert_eq!(out, b("[go]!"));
}

#[test]
fn expands_second_dry_fragment() {
    let content = frag("<@_DRY_2>");
    let dry_1 = frag("unused");
    let dry_2 = frag("{@_SCOPE}");
    let lab = label("go", "source.go", "go", "");
    let out = expand_label(&content, &dry_1, &dry_2, &lab).unwrap();
    assert_eq!(out, b("<{source.go}>"));
}

#[test]
fn dry_fragment_used_twice() {
    let content = frag("@_DRY_1 and @_DRY_1");
    let dry_1 = frag("(@_ID)");
    let out = expand_label(&content, &dry_1, &frag(""), &label("c", "source.c", "c|h", ""))
        .unwrap();
    assert_eq!(out, b("(c) and (c)"));
}

#[test]
fn nested_dry_is_rejected() {
    // A dry fragment that itself contains a dry marker is an
    // illegal-nested-dry error rather than a second level of expansion.
    let content = frag("start @_DRY_1 end");
    let dry_1 = frag("inner @_DRY_2");
    let dry_2 = frag("deep");
    let lab = label("go", "source.go", "go", "");
    let r = expand_label(&content, &dry_1, &dry_2, &lab);
    assert!(matches!(r, Err(TemplateErrorKind::IllegalNestedDry)));
}

#[test]
fn self_referencing_dry_is_rejected() {
    let content = frag("@_DRY_1");
    let dry_1 = frag("@_DRY_1");
    let r = expand_label(&content, &dry_1, &frag(""), &label("go", "s", "l", ""));
    assert!(matches!(r, Err(TemplateErrorKind::IllegalNestedDry)));
}

#[test]
fn unused_dry_fragment_may_contain_dry_markers() {
    // The content never names dry-2, so a dry marker inside dry-2 is never
    // reached and causes no error.
    let content = frag("only @_DRY_1");
    let dry_1 = frag("ok");
    let dry_2 = frag("@_DRY_1");
    let out = expand_label(&content, &dry_1, &dry_2, &label("go", "s", "l", "")).unwrap();
    assert_eq!(out, b("only ok"));
}

#[test]
fn expansion_is_repeatable() {
    let content = frag("@_ID/@_DRY_1");
    let dry_1 = frag("@_SCOPE");
    let lab = label("lua", "source.lua", "lua", "");
    let first = expand_label(&content, &dry_1, &frag(""), &lab).unwrap();
    let second = expand_label(&content, &dry_1, &frag(""), &lab).unwrap();
    assert_eq!(first, second);
    assert_eq!(first, b("lua/source.lua"));
}
