use relay::template::{
    apply_template, render_sections, render_sections_within, render_template, render_vars,
    Sections, TemplateContext, TemplateError, Templates, Vars,
};

fn vars(pairs: &[(&str, &str)]) -> Vars {
    let mut v = Vars::new();
    for (key, value) in pairs {
        v.insert(key, value.to_string());
    }
    v
}

fn items(rows: &[&str]) -> Sections {
    let mut s = Sections::new();
    s.insert("items", rows.iter().map(|r| vars(&[("label", r)])).collect());
    s
}

#[test]
fn placeholders_are_replaced_by_escaped_values() {
    assert_eq!(render_vars("<h1>{{title}}</h1>", &vars(&[("title", "a<b")])), "<h1>a&lt;b</h1>");
}

#[test]
fn raw_placeholders_are_replaced_by_values_as_they_are() {
    assert_eq!(render_vars("<h1>{{{title}}}</h1>", &vars(&[("title", "a<b")])), "<h1>a<b</h1>");
}

#[test]
fn raw_values_are_searched_for_the_safe_placeholder() {
    assert_eq!(render_vars("{{{k}}}", &vars(&[("k", "{{k}}<")])), "{{k}}&lt;<");
}

#[test]
fn every_placeholder_of_a_key_is_replaced() {
    assert_eq!(render_vars("{{k}}-{{k}}{{{k}}}", &vars(&[("k", "v")])), "v-vv");
}

#[test]
fn unknown_placeholders_stay() {
    assert_eq!(render_vars("{{other}} {{{other}}}", &vars(&[("k", "v")])), "{{other}} {{{other}}}");
    assert_eq!(render_vars("{{k}}", &Vars::new()), "{{k}}");
}

#[test]
fn a_key_bound_twice_has_its_last_value() {
    let v = vars(&[("a", "1"), ("b", "2"), ("a", "3")]);
    assert_eq!(render_vars("{{a}}{{b}}", &v), "32");
}

#[test]
fn keys_are_put_in_one_after_the_other() {
    assert_eq!(render_vars("{{a}}", &vars(&[("a", "{{b}}"), ("b", "x")])), "x");
    assert_eq!(render_vars("{{a}}", &vars(&[("b", "x"), ("a", "{{b}}")])), "{{b}}");
}

#[test]
fn sections_are_repeated_for_each_row() {
    let s = items(&["a", "b"]);
    assert_eq!(
        render_sections("<ul>{{#items}}<li>{{label}}</li>{{/items}}</ul>", &s),
        "<ul><li>a</li><li>b</li></ul>"
    );
}

#[test]
fn sections_without_rows_vanish() {
    assert_eq!(render_sections("x{{#items}}y{{/items}}z", &items(&[])), "xz");
}

#[test]
fn all_sections_of_a_name_are_expanded() {
    assert_eq!(
        render_sections("{{#items}}{{label}}{{/items}}|{{#items}}[{{label}}]{{/items}}", &items(&["a", "b"])),
        "ab|[a][b]"
    );
}

#[test]
fn sections_that_are_never_closed_stay() {
    assert_eq!(render_sections("a{{#items}}b", &items(&["x"])), "a{{#items}}b");
    assert_eq!(render_sections("a{{/items}}b{{#items}}c", &items(&["x"])), "a{{/items}}b{{#items}}c");
}

#[test]
fn sections_without_a_name_in_the_context_stay() {
    assert_eq!(render_sections("{{#other}}x{{/other}}", &items(&["a"])), "{{#other}}x{{/other}}");
    assert_eq!(render_sections("{{#items}}x{{/items}}", &Sections::new()), "{{#items}}x{{/items}}");
}

#[test]
fn a_section_set_twice_has_its_last_rows() {
    let mut s = items(&["a"]);
    s.insert("items", vec![vars(&[("label", "b")]), vars(&[("label", "c")])]);
    assert_eq!(render_sections("{{#items}}{{label}}{{/items}}", &s), "bc");
}

#[test]
fn what_a_row_opens_is_expanded_too() {
    let s = items(&["{{#items}}!{{/items}}"]);
    // The row opens a section whose block does not use the row.
    assert_eq!(render_sections("[{{#items}}{{label}}{{/items}}]", &s), "[!]");
    assert!(render_sections_within("[{{#items}}{{label}}{{/items}}]", &s, 1).is_none());
    assert_eq!(
        render_sections_within("[{{#items}}{{label}}{{/items}}]", &s, 2).unwrap(),
        "[!]"
    );
}

#[test]
fn an_expansion_without_end_is_given_up() {
    // What is put in opens the same section again.
    let s = items(&["{{#items}}{{label}}{{/items}}"]);
    assert!(render_sections_within("{{#items}}{{label}}{{/items}}", &s, 50).is_none());
}

#[test]
fn more_steps_than_needed_change_nothing() {
    let s = items(&["a", "b"]);
    let template = "{{#items}}{{label}}{{/items}}";
    assert!(render_sections_within(template, &s, 0).is_none());
    assert_eq!(render_sections_within(template, &s, 1).unwrap(), "ab");
    assert_eq!(render_sections_within(template, &s, usize::MAX).unwrap(), "ab");
    assert_eq!(render_sections(template, &s), "ab");
}

#[test]
fn nothing_to_expand_takes_no_steps() {
    assert_eq!(render_sections_within("plain", &items(&["a"]), 0).unwrap(), "plain");
}

#[test]
fn pages_have_their_sections_expanded_before_their_values_are_put_in() {
    let mut ctx = TemplateContext::new();
    ctx.vars.insert("title", "T & U".to_string());
    ctx.sections.insert("items", vec![vars(&[("label", "{{title}}")]), vars(&[("label", "<")])]);
    let template = "{{title}}: {{#items}}({{label}}){{/items}}";
    assert_eq!(apply_template(template, &ctx), "T &amp; U: (T &amp; U)(&lt;)");
}

#[test]
fn an_empty_context_changes_nothing() {
    let template = "{{title}} {{#items}}x{{/items}}";
    assert_eq!(apply_template(template, &TemplateContext::new()), template);
}

#[test]
fn templates_are_found_by_name() {
    let templates = Templates { listing: "L {{x}}".to_string(), speedtest: "S {{x}}".to_string() };
    let mut ctx = TemplateContext::new();
    ctx.vars.insert("x", "1".to_string());
    assert_eq!(templates.get("listing.html"), Some("L {{x}}"));
    assert_eq!(templates.get("speedtest.html"), Some("S {{x}}"));
    assert_eq!(templates.get("listing"), None);
    assert_eq!(render_template(&templates, "listing.html", &ctx).unwrap(), "L 1");
    assert_eq!(render_template(&templates, "speedtest.html", &ctx).unwrap(), "S 1");
}

#[test]
fn a_template_that_is_not_there_is_an_error() {
    let templates = Templates { listing: String::new(), speedtest: String::new() };
    let ctx = TemplateContext::new();
    let error = render_template(&templates, "other.html", &ctx).unwrap_err();
    assert_eq!(error, TemplateError::NotFound);
    assert_eq!(error.message(), "template not found");
    assert_eq!(render_template(&templates, "", &ctx).unwrap_err(), TemplateError::NotFound);
}

#[test]
fn the_order_of_values_does_not_matter_in_plain_templates() {
    let template = "<{{a}}> text {{{b}}}{{b}} {{c}} {{{a}}}";
    let one = render_vars(template, &vars(&[("a", "x&y"), ("b", "'")]));
    let other = render_vars(template, &vars(&[("b", "'"), ("a", "x&y")]));
    assert_eq!(one, "<x&amp;y> text '&#39; {{c}} x&y");
    assert_eq!(one, other);
}

#[test]
fn the_order_of_values_can_matter_elsewhere() {
    // The value of `b` completes a placeholder of `ax`.
    let template = "{{a{{b}}}}";
    assert_eq!(render_vars(template, &vars(&[("b", "x"), ("ax", "!")])), "!");
    assert_eq!(render_vars(template, &vars(&[("ax", "!"), ("b", "x")])), "{{ax}}");
}
