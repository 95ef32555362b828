use confgen::binder::{bind_references, Binding, SchemaBinder, PLACEHOLDER_PATTERN};
use confgen::coerce::OptionType;
use confgen::error::ConfigError;
use confgen::schema::OptionDeclaration;

fn option(id: &str, declared_type: Option<&str>) -> OptionDeclaration {
    OptionDeclaration {
        name: format!("The {}", id),
        id: id.to_string(),
        default: None,
        declared_type: declared_type.map(|name| name.to_string()),
        description: format!("describes {}", id),
    }
}

fn ids(bindings: &[Binding<'_>]) -> Vec<String> {
    bindings.iter().map(|binding| binding.declaration.id.clone()).collect()
}

fn some(id: &str) -> Option<String> {
    Some(id.to_string())
}

#[test]
fn placeholder_pattern_is_the_known_one() {
    assert_eq!(PLACEHOLDER_PATTERN, "\\$\\{\\{(.+)}}");
}

#[test]
fn references_finds_one_placeholder() {
    let binder = SchemaBinder::new().unwrap();
    assert_eq!(binder.references("Hello ${{who}}!"), vec![some("who")]);
}

#[test]
fn references_finds_nothing_without_placeholders() {
    let binder = SchemaBinder::new().unwrap();
    assert_eq!(binder.references(""), Vec::<Option<String>>::new());
    assert_eq!(binder.references("plain $text {{x}} ${x} ${{}}"), Vec::<Option<String>>::new());
}

#[test]
fn references_takes_placeholders_line_by_line() {
    let binder = SchemaBinder::new().unwrap();
    assert_eq!(
        binder.references("a = ${{a}}\nb = ${{b}}\nagain = ${{a}}\n"),
        vec![some("a"), some("b"), some("a")]
    );
}

#[test]
fn references_captures_the_id_verbatim() {
    let binder = SchemaBinder::new().unwrap();
    assert_eq!(binder.references("${{ spaced id }}"), vec![some(" spaced id ")]);
    assert_eq!(binder.references("${{a.b-c_d}}"), vec![some("a.b-c_d")]);
}

#[test]
fn references_garbles_two_placeholders_on_one_line() {
    // The id runs to the last `}}` of the line.
    let binder = SchemaBinder::new().unwrap();
    assert_eq!(binder.references("${{a}} and ${{b}}"), vec![some("a}} and ${{b")]);
    assert_eq!(binder.references("${{a}}}}"), vec![some("a}}")]);
}

#[test]
fn bind_resolves_each_reference_once_in_order_of_first_occurrence() {
    let binder = SchemaBinder::new().unwrap();
    let options = vec![
        option("c", Some("Boolean")),
        option("a", None),
        option("b", Some("Number")),
        option("unused", Some("String")),
    ];
    let bindings = binder.bind("${{b}}\n${{a}}\n${{b}}\n${{c}}\n${{a}}\n", &options).unwrap();
    assert_eq!(ids(&bindings), ["b", "a", "c"]);
    assert_eq!(bindings[0].kind, OptionType::Number);
    assert_eq!(bindings[1].kind, OptionType::String);
    assert_eq!(bindings[2].kind, OptionType::Boolean);
    assert_eq!(bindings[0].declaration, &options[2]);
    assert_eq!(bindings[1].declaration, &options[1]);
    assert_eq!(bindings[2].declaration, &options[0]);
}

#[test]
fn bind_without_placeholders_binds_nothing() {
    let binder = SchemaBinder::new().unwrap();
    let options = vec![option("a", None)];
    assert_eq!(binder.bind("no placeholders", &options), Ok(vec![]));
    assert_eq!(binder.bind("", &[]), Ok(vec![]));
}

#[test]
fn bind_fails_on_an_undeclared_id() {
    let binder = SchemaBinder::new().unwrap();
    let options = vec![option("a", None)];
    assert_eq!(
        binder.bind("${{a}}\n${{missing}}\n", &options),
        Err(ConfigError::UnknownOption("missing".to_string()))
    );
}

#[test]
fn bind_matches_ids_exactly() {
    let binder = SchemaBinder::new().unwrap();
    let options = vec![option("who", None)];
    assert_eq!(
        binder.bind("${{Who}}", &options),
        Err(ConfigError::UnknownOption("Who".to_string()))
    );
    assert_eq!(
        binder.bind("${{ who}}", &options),
        Err(ConfigError::UnknownOption(" who".to_string()))
    );
}

#[test]
fn bind_fails_on_a_garbled_reference() {
    let binder = SchemaBinder::new().unwrap();
    let options = vec![option("a", None), option("b", None)];
    assert_eq!(
        binder.bind("${{a}} ${{b}}", &options),
        Err(ConfigError::UnknownOption("a}} ${{b".to_string()))
    );
}

#[test]
fn bind_fails_on_an_unknown_type() {
    let binder = SchemaBinder::new().unwrap();
    let options = vec![option("a", Some("Float"))];
    assert_eq!(
        binder.bind("${{a}}", &options),
        Err(ConfigError::InvalidOptionType {
            id: "a".to_string(),
            declared_type: "Float".to_string()
        })
    );
    let options = vec![option("a", Some("number"))];
    assert_eq!(
        binder.bind("${{a}}", &options),
        Err(ConfigError::InvalidOptionType {
            id: "a".to_string(),
            declared_type: "number".to_string()
        })
    );
}

#[test]
fn bind_ignores_the_type_of_an_option_that_is_not_referred_to() {
    let binder = SchemaBinder::new().unwrap();
    let options = vec![option("a", None), option("b", Some("Float"))];
    let bindings = binder.bind("${{a}}", &options).unwrap();
    assert_eq!(ids(&bindings), ["a"]);
}

#[test]
fn bind_reports_the_first_failing_reference() {
    let binder = SchemaBinder::new().unwrap();
    let options = vec![option("bad", Some("Float"))];
    assert_eq!(
        binder.bind("${{gone}}\n${{bad}}\n", &options),
        Err(ConfigError::UnknownOption("gone".to_string()))
    );
    assert_eq!(
        binder.bind("${{bad}}\n${{gone}}\n", &options),
        Err(ConfigError::InvalidOptionType {
            id: "bad".to_string(),
            declared_type: "Float".to_string()
        })
    );
}

#[test]
fn bind_fails_on_options_that_share_an_id() {
    let binder = SchemaBinder::new().unwrap();
    let options = vec![option("a", None), option("b", None), option("b", None), option("a", None)];
    assert_eq!(
        binder.bind("${{a}}", &options),
        Err(ConfigError::DuplicateOption("b".to_string()))
    );
    // also where nothing refers to them, and before any reference is looked at
    assert_eq!(
        binder.bind("${{missing}}", &options),
        Err(ConfigError::DuplicateOption("b".to_string()))
    );
    assert_eq!(binder.bind("", &options), Err(ConfigError::DuplicateOption("b".to_string())));
}

#[test]
fn bind_references_takes_the_references_as_given() {
    let options = vec![option("a", Some("Number")), option("b", None)];
    let bindings = bind_references(&vec![some("b"), some("a"), some("b")], &options).unwrap();
    assert_eq!(ids(&bindings), ["b", "a"]);
    assert_eq!(
        bind_references(&vec![some("b"), some("a}}")], &options),
        Err(ConfigError::UnknownOption("a}}".to_string()))
    );
}

#[test]
fn bind_references_fails_on_a_reference_without_an_id() {
    let options = vec![option("a", None)];
    assert_eq!(
        bind_references(&vec![some("a"), None], &options),
        Err(ConfigError::UnknownOption(String::new()))
    );
}
