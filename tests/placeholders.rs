use xtomate::executor::{push_resolved_env, template_context};
use xtomate::placeholders::{ConfigValue, Context};

fn text(s: &str) -> ConfigValue {
    ConfigValue::Text(s.to_string())
}

fn lookup<'a>(table: &'a [(String, ConfigValue)], key: &str) -> &'a ConfigValue {
    &table.iter().find(|(k, _)| k == key).unwrap().1
}

#[test]
fn test_context() {
    let mut context = Context::new();
    context.set("key".to_string(), "value".to_string());
    assert_eq!(context.resolve("{{key}}"), "value");
    assert_eq!(context.resolve("{{key}} {{key}}"), "value value");
    assert_eq!(context.resolve("{{key}} {{key2}}"), "value {{key2}}");
}

#[test]
fn test_context_table() {
    let mut context = Context::new();
    context.set("key".to_string(), "value".to_string());
    let table = vec![
        ("key".to_string(), text("{{key}}")),
        ("key2".to_string(), text("{{key2}}")),
    ];
    let resolved = context.resolve_table(&table);
    assert_eq!(lookup(&resolved, "key"), &text("value"));
    assert_eq!(lookup(&resolved, "key2"), &text("{{key2}}"));
}

#[test]
fn set_overwrites_earlier_value() {
    let mut context = Context::new();
    context.set("k".to_string(), "one".to_string());
    context.set("k".to_string(), "two".to_string());
    assert_eq!(context.resolve("{{k}}"), "two");
}

#[test]
fn resolve_without_bindings_keeps_text() {
    let context = Context::new();
    assert_eq!(context.resolve("a {{x}} b"), "a {{x}} b");
    assert_eq!(context.resolve(""), "");
}

#[test]
fn resolve_is_idempotent_on_resolved_text() {
    let mut context = Context::new();
    context.set("who".to_string(), "world".to_string());
    let once = context.resolve("hello {{who}}, {{other}}");
    assert_eq!(once, "hello world, {{other}}");
    assert_eq!(context.resolve(&once), once);
}

#[test]
fn resolve_handles_adjacent_and_partial_tokens() {
    let mut context = Context::new();
    context.set("a".to_string(), "1".to_string());
    assert_eq!(context.resolve("{{a}}{{a}}{a}{{a}"), "11{a}{{a}");
    assert_eq!(context.resolve("{{{a}}}"), "{1}");
}

#[test]
fn resolve_table_keeps_keys_other_leaves_and_recurses() {
    let mut context = Context::new();
    context.set("x".to_string(), "X".to_string());
    let inner = vec![("deep".to_string(), text("<{{x}}>"))];
    let table = vec![
        ("n".to_string(), ConfigValue::Other(toml::Value::Integer(7))),
        ("flag".to_string(), ConfigValue::Other(toml::Value::Boolean(true))),
        ("nested".to_string(), ConfigValue::Table(inner)),
        ("s".to_string(), text("{{x}}{{y}}")),
    ];
    let resolved = context.resolve_table(&table);
    let keys: Vec<&str> = resolved.iter().map(|(k, _)| k.as_str()).collect();
    assert_eq!(keys, vec!["n", "flag", "nested", "s"]);
    assert_eq!(lookup(&resolved, "n"), &ConfigValue::Other(toml::Value::Integer(7)));
    assert_eq!(lookup(&resolved, "flag"), &ConfigValue::Other(toml::Value::Boolean(true)));
    assert_eq!(
        lookup(&resolved, "nested"),
        &ConfigValue::Table(vec![("deep".to_string(), text("<X>"))])
    );
    assert_eq!(lookup(&resolved, "s"), &text("X{{y}}"));
}

#[test]
fn template_env_substitutes_config_placeholders() {
    let config = vec![("who".to_string(), text("world"))];
    let env = vec![("GREET".to_string(), text("hello {{who}}"))];
    let ctx = template_context(Some(&config));
    let mut built: Vec<(String, String)> = Vec::new();
    push_resolved_env(&mut built, &env, &ctx);
    assert_eq!(built, vec![("GREET".to_string(), "hello world".to_string())]);
}

#[test]
fn env_skips_values_that_are_not_strings() {
    let env = vec![
        ("A".to_string(), text("a")),
        ("N".to_string(), ConfigValue::Other(toml::Value::Integer(1))),
        ("B".to_string(), text("{{q}}")),
    ];
    let mut built = vec![("FIRST".to_string(), "1".to_string())];
    push_resolved_env(&mut built, &env, &template_context(None));
    assert_eq!(
        built,
        vec![
            ("FIRST".to_string(), "1".to_string()),
            ("A".to_string(), "a".to_string()),
            ("B".to_string(), "{{q}}".to_string()),
        ]
    );
}

#[test]
fn resolve_twice_equals_once_with_brace_free_bindings() {
    let mut context = Context::new();
    context.set("b".to_string(), "y".to_string());
    context.set("a".to_string(), "b".to_string());
    let s = "{{a}}-{{b}}-{{c}} plain";
    let once = context.resolve(s);
    assert_eq!(once, "b-y-{{c}} plain");
    assert_eq!(context.resolve(&once), once);
}
