use lattice::ir::IR;
use lattice::prompt::{convert_dollar_syntax, PromptRenderer};

#[test]
fn dollar_variables_become_template_variables() {
    assert_eq!(convert_dollar_syntax("Hello ${name}!"), "Hello {{ name }}!");
    assert_eq!(convert_dollar_syntax("${a} and ${b}"), "{{ a }} and {{ b }}");
}

#[test]
fn other_text_is_kept() {
    assert_eq!(convert_dollar_syntax("cost: $5 {x}"), "cost: $5 {x}");
    assert_eq!(convert_dollar_syntax("{{ already }}"), "{{ already }}");
    assert_eq!(convert_dollar_syntax(""), "");
}

#[test]
fn unclosed_variable_takes_the_rest() {
    assert_eq!(convert_dollar_syntax("x ${tail"), "x {{ tail }}");
    assert_eq!(convert_dollar_syntax("end $"), "end $");
}

#[test]
fn renderer_keeps_its_registry() {
    let ir = IR::new();
    let renderer = PromptRenderer::new(&ir);
    let _ = renderer;
}
