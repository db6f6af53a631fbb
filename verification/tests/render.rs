use servery::render::replace_vars;
use servery::vars::VarMap;

fn vars_of(pairs: &[(&str, &str)]) -> VarMap {
    let mut vars = VarMap::new();
    for (k, v) in pairs {
        vars.insert(k, v);
    }
    vars
}

#[test]
fn test_replace_vars() {
    let vars = vars_of(&[("name", "Mike"), ("ME", "Peter"), ("age", "31")]);
    assert_eq!(
        "Hi Mike, this is Peter. I am 31y/o",
        replace_vars("Hi {name}, this is {ME}. I am {age}y/o", &vars)
    );
    assert_eq!(
        "Hi {Name}, this is Peter31. {31{{}}{",
        replace_vars("Hi {Name}, this is {ME}{age}. {{age}{{}}{", &vars)
    );
}

#[test]
fn adjacent_placeholders_resolve_independently() {
    let vars = vars_of(&[("a", "1"), ("b", "2")]);
    assert_eq!("12", replace_vars("{a}{b}", &vars));
}

#[test]
fn unbound_placeholder_is_kept_verbatim() {
    let vars = VarMap::new();
    assert_eq!("{a}", replace_vars("{a}", &vars));
}

#[test]
fn outer_brace_untouched_inner_token_resolved() {
    let vars = vars_of(&[("a", "X")]);
    assert_eq!("{X}", replace_vars("{{a}}", &vars));
}

#[test]
fn greeting_renders_every_binding() {
    let vars = vars_of(&[("name", "Mike"), ("ME", "Peter"), ("age", "31")]);
    assert_eq!(
        "Hi Mike, Peter is 31",
        replace_vars("Hi {name}, {ME} is {age}", &vars)
    );
}

#[test]
fn template_without_placeholders_is_unchanged() {
    let vars = vars_of(&[("a", "1")]);
    assert_eq!("plain text", replace_vars("plain text", &vars));
    assert_eq!("", replace_vars("", &vars));
}

#[test]
fn unterminated_brace_is_kept_to_end_of_string() {
    let vars = vars_of(&[("a", "1")]);
    assert_eq!("tail {a", replace_vars("tail {a", &vars));
}

#[test]
fn key_lookup_is_case_sensitive() {
    let vars = vars_of(&[("name", "Mike")]);
    assert_eq!("{Name}", replace_vars("{Name}", &vars));
}

#[test]
fn replacement_value_is_not_rescanned() {
    let vars = vars_of(&[("a", "{b}"), ("b", "2")]);
    assert_eq!("{b}", replace_vars("{a}", &vars));
}

#[test]
fn config_template_braces_pass_through_and_name_resolves() {
    let name = format!("{}_{}", "servery", 0);
    let mut vars = VarMap::new();
    vars.insert("name", &name);
    let rendered = replace_vars(
        "Main = {} \nHost = { Binds = [\"{name}_data:/data\"] }",
        &vars,
    );
    assert_eq!(rendered, "Main = {} \nHost = { Binds = [\"servery_0_data:/data\"] }");
    assert!(rendered.contains(&format!("{}_data:/data", name)));
}

#[test]
fn later_binding_overrides_earlier_one() {
    let vars = vars_of(&[("x", "first"), ("x", "second")]);
    assert_eq!("second", replace_vars("{x}", &vars));
}
