//! The source-language front ends: which parser program handles a
//! language, and the command line each one is given for a request.
use vstd::prelude::*;
use crate::text::{chars_of, string_of, spec_decimal, decimal};
use crate::octave_flow::strs_view;
use crate::render::{join_path, or_default, opt_str_view};

verus! {

broadcast use vstd::string::group_string_axioms;

/// A source language with a parser.
#[derive(Debug, Clone, Copy, PartialEq, Eq, Structural)]
pub enum LanguageKind {
    Python,
    OctaveMatlab,
    Rust,
}

/// What to parse and where to write the graph.
#[derive(Debug, Clone)]
pub struct ParseRequest {
    pub input_file: String,
    pub output_file: String,
    pub function: String,
    pub no_compact: bool,
    pub compact_max_stmts: usize,
}

/// A language front end: the parser program it runs and the arguments it
/// passes for a request.
pub trait SourceParser {
    fn binary_name(&self) -> (r: String);

    fn parser_args(&self, req: &ParseRequest) -> (r: Vec<String>);
}

/// The Octave/MATLAB front end.
#[derive(Debug, Clone)]
pub struct OctaveSourceParser;

/// The Python front end.
#[derive(Debug, Clone)]
pub struct PythonSourceParser;

/// The Rust front end.
#[derive(Debug, Clone)]
pub struct RustSourceParser;

fn push_lit(v: &mut Vec<String>, s: &str)
    ensures strs_view(final(v)@) == strs_view(old(v)@).push(s@),
{
    let ghost v0 = strs_view(v@);
    v.push(String::from_str(s));
    assert(strs_view(v@) =~= v0.push(s@));
}

fn push_owned(v: &mut Vec<String>, s: String)
    ensures strs_view(final(v)@) == strs_view(old(v)@).push(s@),
{
    let ghost v0 = strs_view(v@);
    v.push(s);
    assert(strs_view(v@) =~= v0.push(s@));
}

fn usize_string(n: usize) -> (r: String)
    ensures r@ == spec_decimal(n as nat),
{
    string_of(&decimal(n))
}

/// The input file, then `--output` and the output file.
pub open spec fn io_args(req: ParseRequest) -> Seq<Seq<char>> {
    seq![req.input_file@, "--output"@, req.output_file@]
}

fn io_args_exec(req: &ParseRequest) -> (r: Vec<String>)
    ensures strs_view(r@) == io_args(*req),
{
    let mut v: Vec<String> = Vec::new();
    push_owned(&mut v, req.input_file.clone());
    push_lit(&mut v, "--output");
    push_owned(&mut v, req.output_file.clone());
    assert(strs_view(v@) =~= io_args(*req));
    v
}

pub open spec fn octave_args(req: ParseRequest) -> Seq<Seq<char>> {
    io_args(req)
}

/// The Python parser always gets the function and the block size.
pub open spec fn python_args(req: ParseRequest) -> Seq<Seq<char>> {
    io_args(req) + seq!["--function"@, req.function@, "--compact-max-stmts"@, spec_decimal(req.compact_max_stmts as nat)]
        + if req.no_compact { seq!["--no-compact"@] } else { Seq::empty() }
}

/// The Rust parser gets the function only when one is named, and the block
/// size only when it is not the default 5.
pub open spec fn rust_args(req: ParseRequest) -> Seq<Seq<char>> {
    io_args(req)
        + (if req.function@.len() > 0 { seq!["--function"@, req.function@] } else { Seq::empty() })
        + (if req.no_compact { seq!["--no-compact"@] } else { Seq::empty() })
        + (if req.compact_max_stmts != 5 { seq!["--compact-max-stmts"@, spec_decimal(req.compact_max_stmts as nat)] } else { Seq::empty() })
}

impl SourceParser for OctaveSourceParser {
    fn binary_name(&self) -> (r: String)
        ensures r@ == "codeflow-extract-octave"@,
    {
        String::from_str("codeflow-extract-octave")
    }

    fn parser_args(&self, req: &ParseRequest) -> (r: Vec<String>)
        ensures strs_view(r@) == octave_args(*req),
    {
        io_args_exec(req)
    }
}

impl SourceParser for PythonSourceParser {
    fn binary_name(&self) -> (r: String)
        ensures r@ == "codeflow-extract-python"@,
    {
        String::from_str("codeflow-extract-python")
    }

    fn parser_args(&self, req: &ParseRequest) -> (r: Vec<String>)
        ensures strs_view(r@) == python_args(*req),
    {
        let mut v = io_args_exec(req);
        let ghost v0 = strs_view(v@);
        push_lit(&mut v, "--function");
        push_owned(&mut v, req.function.clone());
        push_lit(&mut v, "--compact-max-stmts");
        push_owned(&mut v, usize_string(req.compact_max_stmts));
        let ghost v1 = strs_view(v@);
        if req.no_compact {
            push_lit(&mut v, "--no-compact");
        }
        assert(strs_view(v@) =~= python_args(*req));
        v
    }
}

impl SourceParser for RustSourceParser {
    fn binary_name(&self) -> (r: String)
        ensures r@ == "codeflow-extract-rust"@,
    {
        String::from_str("codeflow-extract-rust")
    }

    fn parser_args(&self, req: &ParseRequest) -> (r: Vec<String>)
        ensures strs_view(r@) == rust_args(*req),
    {
        let mut v = io_args_exec(req);
        let ghost v0 = strs_view(v@);
        if chars_of(req.function.as_str()).len() > 0 {
            push_lit(&mut v, "--function");
            push_owned(&mut v, req.function.clone());
        }
        let ghost v1 = strs_view(v@);
        if req.no_compact {
            push_lit(&mut v, "--no-compact");
        }
        let ghost v2 = strs_view(v@);
        if req.compact_max_stmts != 5 {
            push_lit(&mut v, "--compact-max-stmts");
            push_owned(&mut v, usize_string(req.compact_max_stmts));
        }
        assert(strs_view(v@) =~= rust_args(*req));
        v
    }
}

/// The arguments of the `extract` command.
#[derive(Debug, Clone)]
pub struct ExtractArgs {
    pub input_file: String,
    pub output: Option<String>,
    pub lang: LanguageKind,
    pub function: String,
    pub no_compact: bool,
    pub compact_max_stmts: usize,
}

pub open spec fn lang_name(l: LanguageKind) -> Seq<char> {
    match l {
        LanguageKind::Python => "python"@,
        LanguageKind::OctaveMatlab => "octave"@,
        LanguageKind::Rust => "rust"@,
    }
}

/// The extractor's command line for `extract`: the input and language,
/// then the output, function, `--no-compact` and block size when given
/// (the block size only when not the default 5).
pub open spec fn extract_cmd_args(a: ExtractArgs) -> Seq<Seq<char>> {
    seq![a.input_file@, "--lang"@, lang_name(a.lang)]
        + (match a.output { Some(o) => seq!["-o"@, o@], None => Seq::empty() })
        + (if a.function@.len() > 0 { seq!["--function"@, a.function@] } else { Seq::empty() })
        + (if a.no_compact { seq!["--no-compact"@] } else { Seq::empty() })
        + (if a.compact_max_stmts != 5 { seq!["--compact-max-stmts"@, spec_decimal(a.compact_max_stmts as nat)] } else { Seq::empty() })
}

/// The program the `extract` command runs (`codeflow-extract`) and its
/// arguments (`extract_cmd_args`).
pub fn run_extract(a: &ExtractArgs) -> (r: (String, Vec<String>))
    ensures r.0@ == "codeflow-extract"@, strs_view(r.1@) == extract_cmd_args(*a),
{
    let mut v: Vec<String> = Vec::new();
    push_owned(&mut v, a.input_file.clone());
    push_lit(&mut v, "--lang");
    match a.lang {
        LanguageKind::Python => push_lit(&mut v, "python"),
        LanguageKind::OctaveMatlab => push_lit(&mut v, "octave"),
        LanguageKind::Rust => push_lit(&mut v, "rust"),
    }
    let ghost v0 = strs_view(v@);
    match &a.output {
        Some(o) => {
            push_lit(&mut v, "-o");
            push_owned(&mut v, o.clone());
        },
        None => {},
    }
    let ghost v1 = strs_view(v@);
    if chars_of(a.function.as_str()).len() > 0 {
        push_lit(&mut v, "--function");
        push_owned(&mut v, a.function.clone());
    }
    let ghost v2 = strs_view(v@);
    if a.no_compact {
        push_lit(&mut v, "--no-compact");
    }
    let ghost v3 = strs_view(v@);
    if a.compact_max_stmts != 5 {
        push_lit(&mut v, "--compact-max-stmts");
        push_owned(&mut v, usize_string(a.compact_max_stmts));
    }
    assert(strs_view(v@) =~= extract_cmd_args(*a));
    (String::from_str("codeflow-extract"), v)
}

/// The arguments of the `render` command; the font size is passed on as
/// the text it was given in.
#[derive(Debug, Clone)]
pub struct RenderArgs {
    pub graph_json: String,
    pub output: Option<String>,
    pub font_size: Option<String>,
    pub strict_report: bool,
    pub hide_labels: bool,
    pub transparent_bg: bool,
    pub separate_layers: bool,
}

/// The renderer's command line for `render`: the graph, then the output
/// and font size when given, then each flag that is set.
pub open spec fn render_cmd_args(a: RenderArgs) -> Seq<Seq<char>> {
    seq![a.graph_json@]
        + (match a.output { Some(o) => seq!["-o"@, o@], None => Seq::empty() })
        + (match a.font_size { Some(f) => seq!["--font-size"@, f@], None => Seq::empty() })
        + (if a.strict_report { seq!["--strict-report"@] } else { Seq::empty() })
        + (if a.hide_labels { seq!["--hide-labels"@] } else { Seq::empty() })
        + (if a.transparent_bg { seq!["--transparent-bg"@] } else { Seq::empty() })
        + (if a.separate_layers { seq!["--separate-layers"@] } else { Seq::empty() })
}

/// The program the `render` command runs (`codeflow-render`) and its
/// arguments (`render_cmd_args`).
pub fn run_render(a: &RenderArgs) -> (r: (String, Vec<String>))
    ensures r.0@ == "codeflow-render"@, strs_view(r.1@) == render_cmd_args(*a),
{
    let mut v: Vec<String> = Vec::new();
    push_owned(&mut v, a.graph_json.clone());
    let ghost v0 = strs_view(v@);
    match &a.output {
        Some(o) => {
            push_lit(&mut v, "-o");
            push_owned(&mut v, o.clone());
        },
        None => {},
    }
    let ghost v1 = strs_view(v@);
    match &a.font_size {
        Some(f) => {
            push_lit(&mut v, "--font-size");
            push_owned(&mut v, f.clone());
        },
        None => {},
    }
    let ghost v2 = strs_view(v@);
    if a.strict_report {
        push_lit(&mut v, "--strict-report");
    }
    let ghost v3 = strs_view(v@);
    if a.hide_labels {
        push_lit(&mut v, "--hide-labels");
    }
    let ghost v4 = strs_view(v@);
    if a.transparent_bg {
        push_lit(&mut v, "--transparent-bg");
    }
    let ghost v5 = strs_view(v@);
    if a.separate_layers {
        push_lit(&mut v, "--separate-layers");
    }
    assert(strs_view(v@) =~= render_cmd_args(*a));
    (String::from_str("codeflow-render"), v)
}

/// The graph file written for an input: the explicit output if given,
/// else the input with its extension replaced by `graph` (the input's
/// directory `parent` and name without extension `stem`); an input with no
/// file name stays as it is.
pub fn infer_output(input: &str, parent: Option<&str>, stem: Option<&str>, explicit: Option<String>) -> (r: String)
    ensures
        r@ == match explicit {
            Some(o) => o@,
            None => match stem {
                Some(s) => join_path(or_default(opt_str_view(parent), Seq::empty()), s@ + ".graph"@),
                None => input@,
            },
        },
{
    match explicit {
        Some(o) => o,
        None => match stem {
            Some(s) => {
                let mut name = chars_of(s);
                crate::text::append_chars(&mut name, &chars_of(".graph"));
                let d = match parent { Some(p) => p, None => "" };
                proof { reveal_strlit(""); }
                assert(d@ == or_default(opt_str_view(parent), Seq::empty()));
                let mut dv = chars_of(d);
                if dv.len() == 0 {
                    return string_of(&name);
                }
                if dv[dv.len() - 1] != '/' {
                    dv.push('/');
                    proof { reveal_strlit("/"); }
                    assert(dv@ =~= d@ + "/"@);
                }
                crate::text::append_chars(&mut dv, &name);
                string_of(&dv)
            },
            None => String::from_str(input),
        },
    }
}

} // verus!
