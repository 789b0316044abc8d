use rs_template::{generate_file, Part, TextCodeFSA};

#[test]
fn file_generator_it_works() {
    let file = "<h1><?rs let title = \"hi\"; ?>x</h1>\r\n".to_string();
    let mut fsa = TextCodeFSA::new();
    let result = fsa.run(file);
    let generated_file = generate_file("test_template", vec![], result);
    let code = generated_file.join("\r\n");
    assert_eq!(
        code,
        "fn test_template() -> Result<String, Box<dyn std::error::Error>> {\r\n\
         use std::fmt::Write;\r\n\
         let mut output_buffer = String::new();\r\n\
         write!(output_buffer, \"{}\", \"<h1>\")?;\r\n \
         let title = \"hi\"; \r\n\
         write!(output_buffer, \"{}\", \"x</h1>\\r\\n\")?;\r\n\
         Ok(output_buffer)\r\n\
         }"
    );
}

#[test]
fn generates_each_fragment_in_order() {
    let data = vec![
        Part::Text("a\"b\n".to_string()),
        Part::Code(" let x = 1; ".to_string()),
        Part::EchoCode("x".to_string()),
    ];
    let lines = generate_file(
        "page",
        vec!["name: &str".to_string(), "n: u32".to_string()],
        &data,
    );
    assert_eq!(
        lines,
        vec![
            "fn page(name: &str, n: u32) -> Result<String, Box<dyn std::error::Error>> {",
            "use std::fmt::Write;",
            "let mut output_buffer = String::new();",
            "write!(output_buffer, \"{}\", \"a\\\"b\\n\")?;",
            " let x = 1; ",
            "\twrite!(output_buffer, \"{}\", { x })?;",
            "Ok(output_buffer)",
            "}",
        ]
    );
}

#[test]
fn text_is_escaped_for_a_string_literal() {
    let data = vec![Part::Text("\t'\\é~ ".to_string())];
    let lines = generate_file("f", vec!["a: i32".to_string()], &data);
    assert_eq!(lines[0], "fn f(a: i32) -> Result<String, Box<dyn std::error::Error>> {");
    assert_eq!(lines[3], "write!(output_buffer, \"{}\", \"\\t\\'\\\\\\u{e9}~ \")?;");
}

#[test]
fn empty_fragment_list_gives_the_frame_only() {
    let lines = generate_file("empty", vec![], &vec![]);
    assert_eq!(lines.len(), 5);
    assert_eq!(lines[3], "Ok(output_buffer)");
    assert_eq!(lines[4], "}");
}

#[test]
fn generation_is_deterministic() {
    let mut fsa = TextCodeFSA::new();
    let data = fsa.run("a<?rs b ?>c".to_string()).clone();
    let args = vec!["x: u8".to_string()];
    let first = generate_file("g", args.clone(), &data);
    let second = generate_file("g", args, &data);
    assert_eq!(first, second);
}
