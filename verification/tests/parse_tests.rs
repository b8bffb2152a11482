use quagga::template::parse::{parse_template, text_inside_tag, trim_indentation};
use quagga::template::validator::validate;

#[test]
fn test_parse_template_success() {
    let text = r#"
<template>
  <prompt>
    <header>Header</header>
    <file>File</file>
    <footer>Footer</footer>
  </prompt>

  <part>
    <header>Part start</header>
    <footer>Part end</footer>
    <pending>If part pending</pending>
  </part>
</template>
"#;

    let result = parse_template(text);

    assert!(result.is_ok());
    let template = result.unwrap();

    // Prompt
    assert_eq!(template.prompt.header, "Header");
    assert_eq!(template.prompt.file, "File");
    assert_eq!(template.prompt.footer, "Footer");

    // Parts
    assert_eq!(template.part.header, "Part start");
    assert_eq!(template.part.footer, "Part end");
    assert_eq!(template.part.pending, "If part pending");
}

#[test]
fn test_parse_template_missing_tag() {
    let text = r#"
<template>
  <prompt>
    <header>Header</header>
    <file>File</file>
    <footer>Footer</footer>

  <part>
    <header>Part start</header>
    <footer>Part end</footer>
    <pending>If part pending</pending>
  </part>
</template>
"#;

    let result = parse_template(text);

    assert!(result.is_err());
    assert_eq!(
        result.unwrap_err(),
        "Closing tag </prompt> not found in the provided text."
    );
}

#[test]
fn test_text_inside_tag_success() {
    let text = "before
<template>
Content inside template.
</template> after";

    let result = text_inside_tag(text, "template").unwrap();

    let expected = "
Content inside template.
";

    assert_eq!(result, expected);
}

#[test]
fn test_text_inside_tag_remove_indentation_spaces() {
    let text = "
        <template>
          Content inside template.
        </template>";

    let result = text_inside_tag(text, "template").unwrap();

    let expected = "
Content inside template.
";

    assert_eq!(result, expected);
}

#[test]
fn test_text_inside_tag_mixed_indentation() {
    let text = r#"
<template>
    <prompt>
        Line one
          Line two with extra spaces
        Line three
    </prompt>
</template>
"#;

    let result = text_inside_tag(text, "prompt").unwrap();

    let expected = "
Line one
  Line two with extra spaces
Line three
";

    assert_eq!(result, expected);
}

#[test]
fn test_text_inside_tag_missing_opening() {
    let text = "Content without opening tag.\n</template>";
    let result = text_inside_tag(text, "template");
    assert!(result.is_err());
    assert_eq!(
        result.unwrap_err(),
        "Opening tag <template> not found in the provided text."
    );
}

#[test]
fn test_text_inside_tag_missing_closing() {
    let text = "<template>\nContent without closing tag.";
    let result = text_inside_tag(text, "template");
    assert!(result.is_err());
    assert_eq!(
        result.unwrap_err(),
        "Closing tag </template> not found in the provided text."
    );
}

#[test]
fn test_text_inside_tag_closing_before_opening() {
    let text = "</template>\nContent before opening tag.\n<template>";
    let result = text_inside_tag(text, "template");
    assert!(result.is_err());
    assert_eq!(
        result.unwrap_err(),
        "Closing tag </template> found before opening tag <template>."
    );
}

#[test]
fn test_text_inside_tag_multiple_tags() {
    let text = "<template>First content.<template>Some other text.</template> Second content.</template>";
    let result = text_inside_tag(text, "template").unwrap();
    assert_eq!(
        result,
        "First content.<template>Some other text.</template> Second content."
    );
}

#[test]
fn test_text_inside_tag_empty_content() {
    let text = "<template></template>";
    let result = text_inside_tag(text, "template").unwrap();
    assert_eq!(result, "");
}

#[test]
fn test_trim_indentation_uniform() {
    let content = "
          Line one
          Line two
          Line three
        ";

    let result = trim_indentation(content);

    let expected = "
Line one
Line two
Line three
";

    assert_eq!(result, expected);
}

#[test]
fn test_trim_indentation_varying() {
    let content = "
            Line one
              Line two with extra spaces
            Line three";

    let expected = "
Line one
  Line two with extra spaces
Line three";

    let result = trim_indentation(content);
    assert_eq!(result, expected);
}

#[test]
fn test_valid_template() {
    let template = "Global header\n{{HEADER}}\nItem\n{{FOOTER}}\nGlobal footer";
    assert!(validate(template).is_ok());
}

#[test]
fn test_missing_header_and_footer() {
    let template = "some text";
    let result = validate(template);
    assert!(result.is_err());
    assert_eq!(
        result.unwrap_err().to_string(),
        "Template is invalid: Missing {{HEADER}} tag."
    );
}

#[test]
fn test_missing_header() {
    let template = "Global header\nItem\n{{FOOTER}}\nGlobal footer";
    let result = validate(template);
    assert!(result.is_err());
    assert_eq!(
        result.unwrap_err().to_string(),
        "Template is invalid: Missing {{HEADER}} tag."
    );
}

#[test]
fn test_missing_footer() {
    let template = "Global header\n{{HEADER}}\nItem\nGlobal footer";
    let result = validate(template);
    assert!(result.is_err());
    assert_eq!(
        result.unwrap_err().to_string(),
        "Template is invalid: Missing {{FOOTER}} tag."
    );
}

#[test]
fn test_multiple_headers() {
    let template = "{{HEADER}}\nItem\n{{HEADER}}\n{{FOOTER}}";
    let result = validate(template);
    assert!(result.is_err());
    assert_eq!(
        result.unwrap_err().to_string(),
        "Template is invalid: Multiple {{HEADER}} tags found."
    );
}

#[test]
fn test_multiple_footers() {
    let template = "{{HEADER}}\nItem\n{{FOOTER}}\n{{FOOTER}}";
    let result = validate(template);
    assert!(result.is_err());
    assert_eq!(
        result.unwrap_err().to_string(),
        "Template is invalid: Multiple {{FOOTER}} tags found."
    );
}
