use tmglel::errors::TemplateErrorKind;
use tmglel::marker::Marker;
use tmglel::tokenizer::tokenize;

fn b(s: &str) -> Vec<u8> {
    s.as_bytes().to_vec()
}

#[test]
fn tokenize_plain_text_is_all_trailing() {
    let f = tokenize(&b("no markers here")).unwrap();
    assert_eq!(f.pairs.len(), 0);
    assert_eq!(f.trailing, b("no markers here"));
}

#[test]
fn tokenize_empty_text() {
    let f = tokenize(&b("")).unwrap();
    assert_eq!(f.pairs.len(), 0);
    assert_eq!(f.trailing, b(""));
}

#[test]
fn tokenize_splits_literals_and_markers() {
    let f = tokenize(&b("X:@_ID,@_SCOPE;")).unwrap();
    assert_eq!(f.pairs.len(), 2);
    assert_eq!(f.pairs[0].0, b("X:"));
    assert!(matches!(f.pairs[0].1, Marker::Id));
    assert_eq!(f.pairs[1].0, b(","));
    assert!(matches!(f.pairs[1].1, Marker::Scope));
    assert_eq!(f.trailing, b(";"));
}

#[test]
fn tokenize_recognizes_all_six_keywords() {
    let f = tokenize(&b("@_ID@_SCOPE@_LIST@_PATTERNS@_DRY_1@_DRY_2")).unwrap();
    let kinds: Vec<Marker> = f.pairs.iter().map(|p| p.1).collect();
    assert_eq!(
        kinds,
        vec![
            Marker::Id,
            Marker::Scope,
            Marker::List,
            Marker::Patterns,
            Marker::Dry1,
            Marker::Dry2,
        ]
    );
    for p in &f.pairs {
        assert_eq!(p.0, b(""));
    }
    assert_eq!(f.trailing, b(""));
}

#[test]
fn tokenize_round_trip_reassembles_original() {
    // Reassembling literals with the marker keywords put back gives the
    // original text, for a template that exercises every marker kind.
    let text = b("a@_IDb@_SCOPEc@_LISTd@_PATTERNSe@_DRY_1f@_DRY_2g@");
    let f = tokenize(&text).unwrap();
    let mut rebuilt: Vec<u8> = Vec::new();
    for (lit, m) in &f.pairs {
        rebuilt.extend_from_slice(lit);
        rebuilt.extend_from_slice(b"@_");
        rebuilt.extend_from_slice(match m {
            Marker::Id => b"ID".as_slice(),
            Marker::Scope => b"SCOPE".as_slice(),
            Marker::List => b"LIST".as_slice(),
            Marker::Patterns => b"PATTERNS".as_slice(),
            Marker::Dry1 => b"DRY_1".as_slice(),
            Marker::Dry2 => b"DRY_2".as_slice(),
        });
    }
    rebuilt.extend_from_slice(&f.trailing);
    assert_eq!(rebuilt, text);
}

#[test]
fn tokenize_rejects_unknown_keyword() {
    let r = tokenize(&b("text @_BOGUS more"));
    assert!(matches!(r, Err(TemplateErrorKind::MalformedTemplate)));
}

#[test]
fn tokenize_rejects_lowercase_keyword() {
    let r = tokenize(&b("@_id"));
    assert!(matches!(r, Err(TemplateErrorKind::MalformedTemplate)));
}

#[test]
fn tokenize_rejects_sentinel_at_end() {
    let r = tokenize(&b("trailing sentinel @_"));
    assert!(matches!(r, Err(TemplateErrorKind::MalformedTemplate)));
}

#[test]
fn tokenize_rejects_second_bad_marker() {
    let r = tokenize(&b("@_ID then @_WHAT"));
    assert!(matches!(r, Err(TemplateErrorKind::MalformedTemplate)));
}

#[test]
fn lone_at_sign_is_literal() {
    let f = tokenize(&b("a@b @c")).unwrap();
    assert_eq!(f.pairs.len(), 0);
    assert_eq!(f.trailing, b("a@b @c"));
}

#[test]
fn keyword_without_sentinel_is_literal() {
    let f = tokenize(&b("ID SCOPE DRY_1")).unwrap();
    assert_eq!(f.pairs.len(), 0);
    assert_eq!(f.trailing, b("ID SCOPE DRY_1"));
}
