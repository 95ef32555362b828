use confgen::coerce::TypedValue;
use confgen::collector::ResolvedValue;
use confgen::render::{placeholder, render};

fn text(id: &str, value: &str) -> ResolvedValue {
    ResolvedValue {
        id: id.to_string(),
        raw_input: value.to_string(),
        value: TypedValue::String(value.to_string()),
    }
}

fn integer(id: &str, value: i32) -> ResolvedValue {
    ResolvedValue { id: id.to_string(), raw_input: value.to_string(), value: TypedValue::Integer(value) }
}

fn boolean(id: &str, raw_input: &str, value: bool) -> ResolvedValue {
    ResolvedValue {
        id: id.to_string(),
        raw_input: raw_input.to_string(),
        value: TypedValue::Boolean(value),
    }
}

#[test]
fn placeholder_wraps_the_id() {
    let pattern: String = placeholder("who").into_iter().collect();
    assert_eq!(pattern, "${{who}}");
    let pattern: String = placeholder("").into_iter().collect();
    assert_eq!(pattern, "${{}}");
}

#[test]
fn render_replaces_a_placeholder() {
    assert_eq!(render("Hello ${{who}}!", &[text("who", "World")]), "Hello World!");
}

#[test]
fn render_replaces_every_occurrence() {
    assert_eq!(
        render("${{a}} ${{b}} ${{a}}\n${{a}}${{a}}", &[text("a", "x"), text("b", "y")]),
        "x y x\nxx"
    );
}

#[test]
fn render_writes_numbers_and_booleans_canonically() {
    let values = [integer("port", 8080), integer("offset", -3), boolean("tls", "YES", true), boolean("debug", "nope", false)];
    assert_eq!(
        render("port=${{port}} offset=${{offset}} tls=${{tls}} debug=${{debug}}", &values),
        "port=8080 offset=-3 tls=true debug=false"
    );
}

#[test]
fn render_writes_the_value_not_the_raw_input() {
    let value = ResolvedValue {
        id: "n".to_string(),
        raw_input: "+007".to_string(),
        value: TypedValue::Integer(7),
    };
    assert_eq!(render("${{n}}", &[value]), "7");
}

#[test]
fn render_without_values_returns_the_template() {
    assert_eq!(render("Hello ${{who}}!", &[]), "Hello ${{who}}!");
    assert_eq!(render("", &[]), "");
}

#[test]
fn render_leaves_other_placeholders() {
    assert_eq!(render("${{a}} ${{b}}", &[text("a", "x")]), "x ${{b}}");
}

#[test]
fn render_ignores_values_that_nothing_refers_to() {
    assert_eq!(render("plain", &[text("a", "x")]), "plain");
}

#[test]
fn render_matches_ids_literally() {
    assert_eq!(render("${{a}} ${{ a }} ${{A}} ${a} {{a}}", &[text("a", "x")]), "x ${{ a }} ${{A}} ${a} {{a}}");
    assert_eq!(render("${{a.b}} ${{aXb}}", &[text("a.b", "x")]), "x ${{aXb}}");
}

#[test]
fn render_twice_gives_the_same_text() {
    let values = [text("a", "x"), integer("b", 2), boolean("c", "y", true)];
    let template = "${{a}}-${{b}}-${{c}}-${{a}}\n";
    let first = render(template, &values);
    let second = render(template, &values);
    assert_eq!(first, second);
    assert_eq!(first.as_bytes(), second.as_bytes());
    assert_eq!(first, "x-2-true-x\n");
}

#[test]
fn render_leaves_no_placeholder_of_a_value() {
    let values = [text("host", "example.org"), integer("port", 443), boolean("tls", "on", true)];
    let output = render(
        "server ${{host}}:${{port}}\ntls ${{tls}}\nagain ${{host}}\n",
        &values,
    );
    assert_eq!(output, "server example.org:443\ntls true\nagain example.org\n");
    for value in &values {
        assert!(!output.contains(&format!("${{{{{}}}}}", value.id)));
    }
    assert!(!output.contains('$'));
}

#[test]
fn render_applies_later_values_to_earlier_ones() {
    // The value of `a` holds the placeholder of `b`, and `b` comes after `a`.
    assert_eq!(render("${{a}}", &[text("a", "${{b}}"), text("b", "x")]), "x");
    // The other way round the placeholder stays.
    assert_eq!(render("${{a}}", &[text("b", "x"), text("a", "${{b}}")]), "${{b}}");
}

#[test]
fn render_can_leave_a_placeholder_that_a_value_brought() {
    assert_eq!(render("${{a}}", &[text("a", "${{a}}")]), "${{a}}");
    assert_eq!(render("$${{a}}{{a}}", &[text("a", "")]), "${{a}}");
}

#[test]
fn render_takes_the_first_of_two_values_with_one_id() {
    assert_eq!(render("${{a}}", &[text("a", "x"), text("a", "y")]), "x");
}

#[test]
fn render_keeps_text_outside_ascii() {
    assert_eq!(render("grüß ${{wen}} ✓", &[text("wen", "Zoë")]), "grüß Zoë ✓");
}

#[test]
fn render_keeps_a_dollar_that_begins_no_placeholder() {
    let values = [text("dir", "etc"), text("user", "")];
    assert_eq!(
        render("$HOME/${{dir}} ${USER}${{user}} $$ ${ {{x}} 5$", &values),
        "$HOME/etc ${USER} $$ ${ {{x}} 5$"
    );
}

#[test]
fn render_does_not_depend_on_the_order_of_the_values() {
    let template = "path=$HOME/${{dir}}\nuser=${USER:-${{user}}}\nport=${{port}}\n$$ ${{dir}}${{user}}";
    let make = |id: &str| match id {
        "dir" => text("dir", "var/lib"),
        "user" => text("user", ""),
        _ => integer("port", 8080),
    };
    let expected = "path=$HOME/var/lib\nuser=${USER:-}\nport=8080\n$$ var/lib";
    let orders = [
        ["dir", "user", "port"],
        ["dir", "port", "user"],
        ["user", "dir", "port"],
        ["user", "port", "dir"],
        ["port", "dir", "user"],
        ["port", "user", "dir"],
    ];
    for order in orders {
        let values: Vec<ResolvedValue> = order.iter().map(|id| make(id)).collect();
        assert_eq!(render(template, &values), expected, "{:?}", order);
    }
}

#[test]
fn render_depends_on_the_order_where_a_placeholder_begins_another() {
    // The placeholder of `a` is the beginning of the placeholder of `a}}b`.
    let template = "${{a}}b}}";
    assert_eq!(render(template, &[text("a", "x"), text("a}}b", "y")]), "xb}}");
    assert_eq!(render(template, &[text("a}}b", "y"), text("a", "x")]), "y");
}

#[test]
fn render_depends_on_the_order_where_a_value_holds_a_dollar() {
    let template = "${{a}}{{b}}";
    assert_eq!(render(template, &[text("a", "$"), text("b", "x")]), "x");
    assert_eq!(render(template, &[text("b", "x"), text("a", "$")]), "${{b}}");
    let template = "${{a}} ${{b}}";
    assert_eq!(render(template, &[text("a", "${{b}}"), text("b", "x")]), "x x");
    assert_eq!(render(template, &[text("b", "x"), text("a", "${{b}}")]), "${{b}} x");
}

#[test]
fn render_of_plain_values_leaves_no_placeholder() {
    // A `$` that begins no placeholder stands right before one.
    assert_eq!(render("$${{a}}", &[text("a", "x")]), "$x");
    let values = [text("a", "x}"), integer("n", -7), boolean("b", "on", true)];
    let output = render("$${{a}}{{a}} ${${{n}}{ $${{b}}{{ ${{a}}${{n}}", &values);
    assert_eq!(output, "$x}{{a}} ${-7{ $true{{ x}-7");
    assert!(!output.contains("${{"));
}
