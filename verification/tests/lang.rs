//! Translation keys.

use plouf_rs::lang::{scan, write_index};

fn keys(code: &str) -> Vec<String> {
    scan("f", code).into_iter().filter_map(|e| e.name).collect()
}

#[test]
fn captures_php_translation_calls() {
    let code = "<?php echo __('invoice.title'); trans_choice('invoice.lines', 2); trans(\"a.b\");";
    let k = keys(code);
    assert!(k.contains(&"invoice.title".to_string()));
    assert!(k.contains(&"invoice.lines".to_string()));
    assert!(k.contains(&"a.b".to_string()));
}

#[test]
fn captures_gettext_and_pgettext_second_arg() {
    let code = "<?php _gettext('Hello'); _pgettext('menu', 'Open');";
    let k = keys(code);
    assert!(k.contains(&"Hello".to_string()));
    assert!(k.contains(&"Open".to_string())); // pgettext key is the 2nd arg
    assert!(!k.contains(&"menu".to_string())); // ...not the context
}

#[test]
fn captures_vue_and_ts_i18n_calls() {
    let code = "const s = t('nav.home'); $t('nav.away'); i18n.global.t('deep.key');";
    let k = keys(code);
    assert!(k.contains(&"nav.home".to_string()));
    assert!(k.contains(&"nav.away".to_string()));
    assert!(k.contains(&"deep.key".to_string()));
}

#[test]
fn ignores_lookalike_identifiers_and_nonliteral_args() {
    // __construct is not __, trans_choice is not trans, sort(...) is not t(...)
    let code = "<?php function __construct() {} sort($items); $x = translate($v); t($dynamic);";
    assert!(keys(code).is_empty());
}

#[test]
fn handles_spaces_and_escaped_quotes() {
    let code = "__(  'a.b'  ); __('it\\'s')";
    let k = keys(code);
    assert!(k.contains(&"a.b".to_string()));
    assert!(k.contains(&"it's".to_string()));
}

#[test]
fn captures_angular_ngx_translate_forms() {
    // TS service call + HTML pipe (both interpolation and binding).
    let code = "this.translate.instant('nav.home'); tpl = `{{ 'nav.away' | translate }} [x]=\"'form.ok' | translate\"`;";
    let k = keys(code);
    assert!(k.contains(&"nav.home".to_string())); // .instant('KEY')
    assert!(k.contains(&"nav.away".to_string())); // 'KEY' | translate (interpolation)
    assert!(k.contains(&"form.ok".to_string())); // 'KEY' | translate (binding)
}

#[test]
fn pipe_ignores_logical_or_and_other_pipes() {
    let code = "a = 'x' || 'y'; b = 'z' | uppercase;";
    assert!(keys(code).is_empty());
}

#[test]
fn writes_grouped_sorted_index() {
    let usages = vec![
        ("b.php".to_string(), "k".to_string()),
        ("a.php".to_string(), "k".to_string()),
        ("a.php".to_string(), "k".to_string()), // dup collapses
    ];
    let (text, count) = write_index(&usages);
    assert_eq!(count, 1);
    assert_eq!(text, r#"{"k":["a.php","b.php"]}"#);
}
