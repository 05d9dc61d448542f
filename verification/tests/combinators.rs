//! The grammar once more, written with parser combinators, and the
//! library's parser held against it on fixed and on generated inputs.

use wgsl_bindings::ast::{Resource, WgslFile};
use wgsl_bindings::parser::{parse_document, wgsl_file};
use winnow::ascii::{digit1, multispace0};
use winnow::combinator::{
    alt, delimited, fail, not, opt, preceded, repeat, separated0, terminated,
};
use winnow::stream::AsChar;
use winnow::token::{take_till0, take_till1, take_until0, take_while};
use winnow::{PResult, Parser};

#[derive(Debug, PartialEq, Eq, Clone)]
enum Node {
    IfDef { name: String, first: Vec<Node>, second: Option<Vec<Node>> },
    Binding { group: u32, binding: u32, decl: String },
    Import(String),
    Def(String),
}

#[derive(Debug, PartialEq, Eq, Clone)]
struct Document {
    name: Option<String>,
    nodes: Vec<Node>,
}

fn text(bytes: &[u8]) -> String {
    String::from_utf8(bytes.to_vec()).expect("the parser cuts between characters")
}

fn node_of(r: &Resource) -> Node {
    match r {
        Resource::IfDef(d) => Node::IfDef {
            name: text(&d.name),
            first: d.resources.iter().map(node_of).collect(),
            second: d.else_branch.as_ref().map(|b| b.iter().map(node_of).collect()),
        },
        Resource::Binding(b) => {
            Node::Binding { group: b.group, binding: b.binding, decl: text(&b.decl) }
        }
        Resource::OilImport(n) => Node::Import(text(n)),
        Resource::Def(n) => Node::Def(text(n)),
    }
}

fn document_of(file: &WgslFile) -> Document {
    Document {
        name: file.pub_name.as_ref().map(|n| text(n)),
        nodes: file.resources.iter().map(node_of).collect(),
    }
}

fn ident<'a>(input: &mut &'a str) -> PResult<&'a str> {
    take_while(1.., |c: char| c.is_alphanum() || ['#', '@', '_', ':'].contains(&c))
        .parse_next(input)
}

fn line_comment(input: &mut &str) -> PResult<()> {
    ("//", take_till1(['\n', '\r'])).void().parse_next(input)
}

fn block_comment(input: &mut &str) -> PResult<()> {
    ("/*", take_until0("*/"), "*/").void().parse_next(input)
}

fn skipped(input: &mut &str) -> PResult<()> {
    let code = take_till0(['/', '#', '@']);
    let other_attribute = ("@", not("group")).void();
    separated0(
        code,
        alt((
            other_attribute,
            line_comment,
            block_comment,
            "/".void(),
            "#{".void(),
            "#SLICE_COUNT".void(),
            "#SAMPLES_PER_SLICE_SIDE".void(),
        )),
    )
    .parse_next(input)
}

// The grammar comes in two forms. The wide form is the grammar itself. The
// narrow form is the layout that sources are usually written in: one space
// between the two attributes of a binding, one space behind a comma and
// none before it, one space behind `#else ifdef`, and a line feed right
// behind an import and a module name.

fn gap<const NARROW: bool>(input: &mut &str) -> PResult<()> {
    if NARROW {
        ") @binding(".void().parse_next(input)
    } else {
        (")", multispace0, "@binding(").void().parse_next(input)
    }
}

fn comma<const NARROW: bool>(input: &mut &str) -> PResult<()> {
    if NARROW {
        ", ".void().parse_next(input)
    } else {
        (take_while(0.., ' '), ",", take_while(0.., ' ')).void().parse_next(input)
    }
}

fn line_end<const NARROW: bool>(input: &mut &str) -> PResult<()> {
    if NARROW {
        "\n".void().parse_next(input)
    } else {
        Ok(())
    }
}

fn module_decl<'a, const NARROW: bool>(input: &mut &'a str) -> PResult<&'a str> {
    delimited(("#define_import_path", multispace0), ident, line_end::<NARROW>).parse_next(input)
}

fn import_tail<'a, const NARROW: bool>(input: &mut &'a str) -> PResult<&'a str> {
    let alias = (delimited(multispace0, "as", multispace0), ident).void();
    let list = preceded(
        repeat::<_, _, (), _, _>(.., " "),
        separated0::<_, _, (), _, _, _, _>(ident, comma::<NARROW>),
    );
    delimited(multispace0, ident, (alt((alias, list)), line_end::<NARROW>)).parse_next(input)
}

fn conditional<const NARROW: bool>(
    input: &mut &str,
) -> PResult<(String, Vec<Node>, Option<Vec<Node>>)> {
    (delimited(multispace0, ident, skipped), repeat(.., resource::<NARROW>), tail::<NARROW>)
        .map(|(name, first, second): (&str, Vec<Node>, Option<Vec<Node>>)| {
            (name.to_string(), first, second)
        })
        .parse_next(input)
}

fn if_def<const NARROW: bool>(input: &mut &str) -> PResult<Node> {
    conditional::<NARROW>
        .map(|(name, first, second)| Node::IfDef { name, first, second })
        .parse_next(input)
}

fn if_not_def<const NARROW: bool>(input: &mut &str) -> PResult<Node> {
    conditional::<NARROW>
        .map(|(name, first, second)| Node::IfDef {
            name,
            first: second.unwrap_or(vec![]),
            second: Some(first),
        })
        .parse_next(input)
}

fn flag<'a>(input: &mut &'a str) -> PResult<&'a str> {
    preceded(multispace0, ident).parse_next(input)
}

fn resource<const NARROW: bool>(input: &mut &str) -> PResult<Node> {
    let word = ident.parse_next(input)?;
    match word {
        "@group" => terminated(binding::<NARROW>, skipped).parse_next(input),
        "#define" => {
            terminated(flag, skipped).map(|n: &str| Node::Def(n.to_string())).parse_next(input)
        }
        "#ifdef" => terminated(if_def::<NARROW>, skipped).parse_next(input),
        "#ifndef" => terminated(if_not_def::<NARROW>, skipped).parse_next(input),
        "#if" => terminated(if_def::<NARROW>, skipped).parse_next(input),
        "#import" => terminated(import_tail::<NARROW>, skipped)
            .map(|n: &str| Node::Import(n.to_string()))
            .parse_next(input),
        _ => fail.parse_next(input),
    }
}

fn chain<const NARROW: bool>(input: &mut &str) -> PResult<()> {
    if NARROW {
        " ifdef ".void().parse_next(input)
    } else {
        (" ifdef", take_while(1.., (' ', '\t', '\r', '\n'))).void().parse_next(input)
    }
}

fn else_part<const NARROW: bool>(input: &mut &str) -> PResult<Vec<Node>> {
    alt((
        preceded(chain::<NARROW>, terminated(if_def::<NARROW>, skipped).map(|d| vec![d])),
        delimited(skipped, repeat(.., resource::<NARROW>), "#endif"),
    ))
    .parse_next(input)
}

fn tail<const NARROW: bool>(input: &mut &str) -> PResult<Option<Vec<Node>>> {
    let word = ident.parse_next(input)?;
    match word {
        "#else" => else_part::<NARROW>.map(Some).parse_next(input),
        "#endif" => Ok(None),
        _ => fail.parse_next(input),
    }
}

fn binding<const NARROW: bool>(input: &mut &str) -> PResult<Node> {
    (
        preceded("(", digit1).map(|i: &str| i.parse::<u32>().unwrap()),
        delimited(gap::<NARROW>, digit1, (")", multispace0)).map(|i: &str| i.parse::<u32>().unwrap()),
        declaration::<NARROW>.recognize(),
    )
        .map(|(group, binding, decl): (u32, u32, &str)| Node::Binding {
            group,
            binding,
            decl: decl.to_string(),
        })
        .parse_next(input)
}

fn named_type<const NARROW: bool>(input: &mut &str) -> PResult<()> {
    (ident, opt(("<", ident, opt((comma::<NARROW>, type_param)), ">"))).void().parse_next(input)
}

fn type_param(input: &mut &str) -> PResult<()> {
    let constant = delimited("#{", ident, ("}", opt("u")));
    alt(("write", constant)).void().parse_next(input)
}

fn var(input: &mut &str) -> PResult<()> {
    alt(("var<uniform>", "var<storage>", "var")).void().parse_next(input)
}

fn declaration<'a, const NARROW: bool>(input: &mut &'a str) -> PResult<&'a str> {
    preceded(delimited(multispace0, var, multispace0), (ident, " ", named_type::<NARROW>))
        .recognize()
        .parse_next(input)
}

fn document<const NARROW: bool>(input: &mut &str) -> PResult<Document> {
    (
        preceded(skipped, opt(terminated(module_decl::<NARROW>, skipped))),
        repeat(.., resource::<NARROW>),
    )
        .map(|(name, nodes): (Option<&str>, Vec<Node>)| Document {
            name: name.map(|n| n.to_string()),
            nodes,
        })
        .parse_next(input)
}

/// Holds the library against the combinators on one input: the whole
/// input as a document, and the longest document at its start.
fn agree(input: &str) {
    let expected = document::<false>.parse(input).ok();
    let found = parse_document(input.as_bytes()).ok().map(|f| document_of(&f));
    assert_eq!(found, expected, "as a whole document: {:?}", input);

    let mut rest = input;
    let expected =
        document::<false>.parse_next(&mut rest).expect("a document can always be started");
    let (file, end) = wgsl_file(input.as_bytes()).expect("no index is too large");
    assert_eq!(document_of(&file), expected, "from the start: {:?}", input);
    assert_eq!(end, input.len() - rest.len(), "end of the document: {:?}", input);
}

/// Holds the library against the narrow form on one input: a source in
/// the usual layout reads as the same document. Says whether the input is
/// such a source.
fn usual_layout_reads_the_same(input: &str) -> bool {
    match document::<true>.parse(input) {
        Ok(expected) => {
            let found = parse_document(input.as_bytes()).ok().map(|f| document_of(&f));
            assert_eq!(found, Some(expected), "in the usual layout: {:?}", input);
            true
        }
        Err(_) => false,
    }
}

const PIECES: [&str; 65] = [
    "#ifdef A",
    "#ifdef B\n",
    "#ifndef A\n",
    "#ifndef C ",
    "#if A\n",
    "#if D",
    "#else",
    "#else\n",
    "#else ifdef B\n",
    "#else ifdef\t",
    " ifdef ",
    "#endif",
    "#endif\n",
    "#define A\n",
    "#define ",
    "#import m\n",
    "#import m",
    "#import m a, b\n",
    "#import m a,b , c",
    "#import m as n\n",
    "#import m as\n",
    "#import m   x, y, \n",
    "#define_import_path p::q\n",
    "#define_import_path p ",
    "@group(1) @binding(2) var<uniform> x: T",
    "@group(0) @binding(0) var<storage> y: array<U, #{N}u>",
    "@group(3) @binding(4) var z: texture_storage_2d<f, write>",
    "@group(7) @binding(8)\n  var  w: V<W>",
    "@group(1) @binding(2) var<uniform> x:T",
    "@group(1)  @binding(2) var x: T",
    "@group(1)\n@binding(2) var x: T<U,write>",
    "@group(",
    "@group",
    "@binding(5)",
    "@vertex",
    "@",
    "#",
    "#{",
    "#{N}",
    "#SLICE_COUNT",
    "#SAMPLES_PER_SLICE_SIDE",
    "#unknown",
    "/",
    "//",
    "// note\n",
    "// #endif\n",
    "/*",
    "*/",
    "/* note */",
    "/* #else */",
    "\n",
    "\r\n",
    " ",
    "\t",
    ";",
    ":",
    "<",
    ">",
    ", ",
    "fn f() {}",
    "x",
    "as",
    ",",
    "\u{e9}t\u{e9}",
    "var",
];

struct Picker(u64);

impl Picker {
    fn next(&mut self, bound: usize) -> usize {
        self.0 = self.0.wrapping_mul(6364136223846793005).wrapping_add(1442695040888963407);
        ((self.0 >> 33) as usize) % bound
    }
}

fn composed(picker: &mut Picker, longest: usize, pieces: &[&str]) -> String {
    let count = 1 + picker.next(longest);
    let mut input = String::new();
    for _ in 0..count {
        input.push_str(pieces[picker.next(pieces.len())]);
    }
    input
}

fn generated(seed: u64, count: usize, longest: usize) {
    let mut picker = Picker(seed);
    for _ in 0..count {
        agree(&composed(&mut picker, longest, &PIECES));
    }
}

#[test]
fn agrees_on_documents_in_the_usual_layout() {
    agree("");
    agree("fn main() {}\n");
    agree("#define_import_path a::b\n\n#import c::d\n@group(0) @binding(0) var<uniform> v: View;\n");
    agree("#ifdef A\n@group(0) @binding(0) var a: A;\n#else\n@group(0) @binding(1) var b: B;\n#endif\n");
    agree("#ifndef A\n@group(0) @binding(0) var a: A;\n#else\n@group(0) @binding(1) var b: B;\n#endif\n");
    agree("#ifdef A\n#else ifdef B\n#define X\n#else ifdef C\n#define Y\n#else\n#define Z\n#endif\nrest");
    agree("#if A\n#ifdef B\n#ifndef C\n#endif\n#endif\n#endif");
    agree("#import m as n\n#import m a, b, c\n#import m   a\n#import m\n");
    agree("// c #ifdef\n/* @group(0) */ @location(0) #{X}u #SLICE_COUNT / x\n#define A");
}

#[test]
fn agrees_on_documents_in_other_layouts() {
    agree("@group(0)\n@binding(1) var<uniform> x: T;");
    agree("@group(0)@binding(1) var<uniform> x: T;");
    agree("@group(0) \t\r\n  @binding(1)\nvar x: T<U,write>;");
    agree("@group(0) @binding(1) var x: T<U ,  #{N}u>;");
    agree("@group(0) @binding(1) var x: T<U,\nwrite>;");
    agree("#import m");
    agree("#import m\r\n#import n\r\n");
    agree("#import m a,b ,c , d\n");
    agree("#import m a,\n#define X\n");
    agree("#import m as n #define X\n");
    agree("#import m x y z\n#define A\n");
    agree("#define_import_path p");
    agree("#define_import_path p\r\n#define A\r\n");
    agree("#define_import_path p #define A\n");
    agree("#import m\nas n\n");
    agree("#import m\nassets\n");
    agree("#import m as\n#define A\n");
    agree("#ifdef A\n#else ifdef\tB\n#define X\n#endif\n");
    agree("#ifdef A\n#else ifdef\nB\n#define X\n#endif\n");
    agree("#ifdef A\n#else ifdefB\n#define X\n#endif\n");
    agree("#ifdef A\n#else  ifdef B\n#define X\n#endif\n");
}

#[test]
fn agrees_on_documents_that_do_not_parse() {
    agree("#ifdef A\n");
    agree("#endif");
    agree("#else\n#endif");
    agree("#define A\n#define_import_path late\n");
    agree("@group(0) @binding(0) var<storage, read_write> a: A;");
    agree("@group (0) @binding(0) var a: A;");
    agree("@group(0) x @binding(0) var a: A;");
    agree("@group(0) // one\n@binding(0) var a: A;");
    agree("@groups(0)");
    agree("#ifdefA\n#endif");
    agree("#ifdef A #endif_x");
    agree("#ifdef A\n#else ifdef B\n#unknown\n#endif\n#endif");
    agree("#ifdef A\n#else ifdef B\n#endif\n#endif");
    agree("/* open\n#define A\n");
    agree("//\n#define A\n");
    agree("#define");
    agree("#import");
    agree("#define_import_path");
    agree("#");
    agree("@");
}

#[test]
fn agrees_on_short_generated_inputs() {
    generated(1, 4000, 3);
}

#[test]
fn agrees_on_generated_inputs() {
    generated(2, 4000, 8);
}

#[test]
fn agrees_on_long_generated_inputs() {
    generated(3, 2000, 24);
}

#[test]
fn sources_in_the_usual_layout_read_the_same() {
    assert!(usual_layout_reads_the_same(""));
    assert!(usual_layout_reads_the_same(
        "#define_import_path a::b\n#import c::d e, f\n#import g as h\n@group(0) @binding(1) var<uniform> v: array<V, #{N}u>;\n"
    ));
    assert!(usual_layout_reads_the_same(
        "#ifdef A\n#import m\n#else ifdef B\n@group(2) @binding(3) var t: texture_storage_2d<f, write>;\n#endif\n"
    ));
    assert!(!usual_layout_reads_the_same("@group(0)\n@binding(1) var<uniform> x: T;"));
    assert!(!usual_layout_reads_the_same("#import m"));

    let pieces: Vec<&str> = PIECES.iter().copied().filter(|p| !p.starts_with(',')).collect();
    let mut picker = Picker(4);
    let mut usual = 0;
    for _ in 0..12000 {
        if usual_layout_reads_the_same(&composed(&mut picker, 6, &pieces)) {
            usual += 1;
        }
    }
    assert!(usual > 1000, "only {} generated sources were in the usual layout", usual);
}
