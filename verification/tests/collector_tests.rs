use confgen::binder::Binding;
use confgen::coerce::{OptionType, TypedValue};
use confgen::collector::{collect, resolve, ResolvedValue};
use confgen::error::ConfigError;
use confgen::schema::OptionDeclaration;
use std::cell::RefCell;

fn option(id: &str, default: Option<&str>) -> OptionDeclaration {
    OptionDeclaration {
        name: id.to_uppercase(),
        id: id.to_string(),
        default: default.map(|text| text.to_string()),
        declared_type: None,
        description: String::new(),
    }
}

fn resolved(id: &str, raw_input: &str, value: TypedValue) -> ResolvedValue {
    ResolvedValue { id: id.to_string(), raw_input: raw_input.to_string(), value }
}

#[test]
fn empty_input_takes_the_default() {
    let declaration = option("name", Some("Bob"));
    let bindings = [Binding { declaration: &declaration, kind: OptionType::String }];
    let values = collect(&bindings, |_| String::new()).unwrap();
    assert_eq!(values.len(), 1);
    assert_eq!(values[0].raw_input, "Bob");
    assert_eq!(values[0], resolved("name", "Bob", TypedValue::String("Bob".to_string())));
}

#[test]
fn empty_input_without_a_default_is_a_missing_value() {
    let declaration = option("name", None);
    let bindings = [Binding { declaration: &declaration, kind: OptionType::String }];
    assert_eq!(
        collect(&bindings, |_| String::new()),
        Err(ConfigError::MissingRequiredValue("name".to_string()))
    );
}

#[test]
fn resolve_prefers_the_answer_to_the_default() {
    let declaration = option("name", Some("Bob"));
    let binding = Binding { declaration: &declaration, kind: OptionType::String };
    assert_eq!(
        resolve(&binding, "Alice"),
        Ok(resolved("name", "Alice", TypedValue::String("Alice".to_string())))
    );
}

#[test]
fn resolve_takes_an_empty_default() {
    let declaration = option("name", Some(""));
    let binding = Binding { declaration: &declaration, kind: OptionType::String };
    assert_eq!(resolve(&binding, ""), Ok(resolved("name", "", TypedValue::String(String::new()))));
}

#[test]
fn resolve_does_not_trim_the_answer() {
    let declaration = option("name", Some("Bob"));
    let binding = Binding { declaration: &declaration, kind: OptionType::String };
    assert_eq!(
        resolve(&binding, " "),
        Ok(resolved("name", " ", TypedValue::String(" ".to_string())))
    );
}

#[test]
fn resolve_coerces_the_answer_to_the_kind() {
    let declaration = option("port", Some("80"));
    let binding = Binding { declaration: &declaration, kind: OptionType::Number };
    assert_eq!(resolve(&binding, "8080"), Ok(resolved("port", "8080", TypedValue::Integer(8080))));
    assert_eq!(resolve(&binding, ""), Ok(resolved("port", "80", TypedValue::Integer(80))));
    let binding = Binding { declaration: &declaration, kind: OptionType::Boolean };
    assert_eq!(resolve(&binding, "Yep"), Ok(resolved("port", "Yep", TypedValue::Boolean(true))));
}

#[test]
fn resolve_tags_a_coercion_failure_with_the_id() {
    let declaration = option("port", None);
    let binding = Binding { declaration: &declaration, kind: OptionType::Number };
    assert_eq!(
        resolve(&binding, "eighty"),
        Err(ConfigError::NotANumber { id: "port".to_string(), raw: "eighty".to_string() })
    );
    let binding = Binding { declaration: &declaration, kind: OptionType::Boolean };
    assert_eq!(
        resolve(&binding, "perhaps"),
        Err(ConfigError::NotABoolean { id: "port".to_string(), raw: "perhaps".to_string() })
    );
}

#[test]
fn resolve_coerces_the_default_too() {
    let declaration = option("port", Some("eighty"));
    let binding = Binding { declaration: &declaration, kind: OptionType::Number };
    assert_eq!(
        resolve(&binding, ""),
        Err(ConfigError::NotANumber { id: "port".to_string(), raw: "eighty".to_string() })
    );
}

#[test]
fn collect_asks_once_for_each_binding_in_order() {
    let first = option("first", None);
    let second = option("second", Some("2"));
    let third = option("third", None);
    let bindings = [
        Binding { declaration: &first, kind: OptionType::String },
        Binding { declaration: &second, kind: OptionType::Number },
        Binding { declaration: &third, kind: OptionType::Boolean },
    ];
    let asked = RefCell::new(Vec::new());
    let values = collect(&bindings, |declaration: &OptionDeclaration| {
        asked.borrow_mut().push(declaration.id.clone());
        match declaration.id.as_str() {
            "first" => "one".to_string(),
            "second" => String::new(),
            _ => "on".to_string(),
        }
    })
    .unwrap();
    assert_eq!(*asked.borrow(), ["first", "second", "third"]);
    assert_eq!(
        values,
        [
            resolved("first", "one", TypedValue::String("one".to_string())),
            resolved("second", "2", TypedValue::Integer(2)),
            resolved("third", "on", TypedValue::Boolean(true)),
        ]
    );
}

#[test]
fn collect_stops_at_the_first_failure() {
    let first = option("first", None);
    let second = option("second", None);
    let third = option("third", None);
    let bindings = [
        Binding { declaration: &first, kind: OptionType::String },
        Binding { declaration: &second, kind: OptionType::Number },
        Binding { declaration: &third, kind: OptionType::Number },
    ];
    let asked = RefCell::new(Vec::new());
    let outcome = collect(&bindings, |declaration: &OptionDeclaration| {
        asked.borrow_mut().push(declaration.id.clone());
        "text".to_string()
    });
    assert_eq!(
        outcome,
        Err(ConfigError::NotANumber { id: "second".to_string(), raw: "text".to_string() })
    );
    assert_eq!(*asked.borrow(), ["first", "second"]);
}

#[test]
fn collect_of_nothing_asks_nothing() {
    let asked = RefCell::new(0);
    let values = collect(&[], |_| {
        *asked.borrow_mut() += 1;
        String::new()
    });
    assert_eq!(values, Ok(vec![]));
    assert_eq!(*asked.borrow(), 0);
}

#[test]
fn collect_hands_the_declaration_to_the_prompt() {
    let declaration = OptionDeclaration {
        name: "Who".to_string(),
        id: "who".to_string(),
        default: Some("World".to_string()),
        declared_type: Some("String".to_string()),
        description: "whom to greet".to_string(),
    };
    let bindings = [Binding { declaration: &declaration, kind: OptionType::String }];
    let values = collect(&bindings, |seen: &OptionDeclaration| {
        assert_eq!(seen, &declaration);
        format!("{} {}", seen.name, seen.description)
    })
    .unwrap();
    assert_eq!(values[0].raw_input, "Who whom to greet");
}
