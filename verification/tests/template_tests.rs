use lattice::template::{parse_template, template_source, TemplateSegment};

#[test]
fn text_and_interpolations() {
    let segs = parse_template("Hello, ${name}! You are ${age} years old").unwrap();
    assert_eq!(segs.len(), 5);
    assert!(matches!(&segs[0], TemplateSegment::Text(t) if t == "Hello, "));
    assert!(matches!(&segs[1], TemplateSegment::Interpolation(e) if e == "name"));
    assert!(matches!(&segs[4], TemplateSegment::Text(t) if t == " years old"));
}

#[test]
fn adjacent_interpolations_have_no_empty_text() {
    let segs = parse_template("${a}${b}").unwrap();
    assert_eq!(segs.len(), 2);
    assert!(segs.iter().all(|s| matches!(s, TemplateSegment::Interpolation(_))));
}

#[test]
fn writing_back_gives_the_text() {
    for text in ["plain", "${x}", "a ${b.c} d", "$ {not} $", ""] {
        let segs = parse_template(text).unwrap();
        assert_eq!(template_source(&segs), text);
    }
}

#[test]
fn unclosed_interpolation_is_an_error() {
    assert_eq!(parse_template("ok ${oops").unwrap_err(), 3);
}
