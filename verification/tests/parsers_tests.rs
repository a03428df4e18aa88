use codeflow::parsers::{
    infer_output, run_extract, run_render, ExtractArgs, RenderArgs, LanguageKind, OctaveSourceParser, ParseRequest, PythonSourceParser,
    RustSourceParser, SourceParser,
};

fn req(function: &str, no_compact: bool, m: usize) -> ParseRequest {
    ParseRequest {
        input_file: "in.src".to_string(),
        output_file: "out.graph".to_string(),
        function: function.to_string(),
        no_compact,
        compact_max_stmts: m,
    }
}

#[test]
fn octave_parser_command() {
    let p = OctaveSourceParser;
    assert_eq!(p.binary_name(), "codeflow-extract-octave");
    assert_eq!(p.parser_args(&req("f", true, 3)), vec!["in.src", "--output", "out.graph"]);
}

#[test]
fn python_parser_command() {
    let p = PythonSourceParser;
    assert_eq!(p.binary_name(), "codeflow-extract-python");
    assert_eq!(
        p.parser_args(&req("", false, 5)),
        vec!["in.src", "--output", "out.graph", "--function", "", "--compact-max-stmts", "5"]
    );
    assert_eq!(
        p.parser_args(&req("main", true, 12)),
        vec!["in.src", "--output", "out.graph", "--function", "main", "--compact-max-stmts", "12", "--no-compact"]
    );
}

#[test]
fn rust_parser_command() {
    let p = RustSourceParser;
    assert_eq!(p.binary_name(), "codeflow-extract-rust");
    assert_eq!(p.parser_args(&req("", false, 5)), vec!["in.src", "--output", "out.graph"]);
    assert_eq!(
        p.parser_args(&req("f", true, 3)),
        vec!["in.src", "--output", "out.graph", "--function", "f", "--no-compact", "--compact-max-stmts", "3"]
    );
}

#[test]
fn extract_command_line() {
    let a = ExtractArgs {
        input_file: "a.py".to_string(),
        output: Some("o.graph".to_string()),
        lang: LanguageKind::Python,
        function: String::new(),
        no_compact: false,
        compact_max_stmts: 5,
    };
    let (bin, args) = run_extract(&a);
    assert_eq!(bin, "codeflow-extract");
    assert_eq!(args, vec!["a.py", "--lang", "python", "-o", "o.graph"]);
    let b = ExtractArgs { lang: LanguageKind::OctaveMatlab, output: None, function: "g".to_string(), no_compact: true, compact_max_stmts: 7, ..a };
    assert_eq!(run_extract(&b).1, vec!["a.py", "--lang", "octave", "--function", "g", "--no-compact", "--compact-max-stmts", "7"]);
    assert_ne!(LanguageKind::Rust, LanguageKind::Python);
}

#[test]
fn inferred_graph_paths() {
    assert_eq!(infer_output("dir/a.py", Some("dir"), Some("a"), None), "dir/a.graph");
    assert_eq!(infer_output("dir/a.py", Some("dir"), Some("a"), Some("x.json".to_string())), "x.json");
    assert_eq!(infer_output("a.py", Some(""), Some("a"), None), "a.graph");
    assert_eq!(infer_output("/", None, None, None), "/");
}

#[test]
fn render_command_passes_output_font_and_flags() {
    let a = RenderArgs {
        graph_json: "g.graph".to_string(),
        output: Some("out.png".to_string()),
        font_size: Some("14.5".to_string()),
        strict_report: true,
        hide_labels: false,
        transparent_bg: true,
        separate_layers: false,
    };
    let (bin, args) = run_render(&a);
    assert_eq!(bin, "codeflow-render");
    assert_eq!(args, vec!["g.graph", "-o", "out.png", "--font-size", "14.5", "--strict-report", "--transparent-bg"]);
    let b = RenderArgs {
        graph_json: "x.graph".to_string(),
        output: None,
        font_size: None,
        strict_report: false,
        hide_labels: true,
        transparent_bg: false,
        separate_layers: true,
    };
    assert_eq!(run_render(&b).1, vec!["x.graph", "--hide-labels", "--separate-layers"]);
}
