use wgsl_bindings::ast::{Binding, IfDef, Resource, WgslFile};
use wgsl_bindings::parser::{parse_document, wgsl_file, ParseError};

fn parse(text: &str) -> WgslFile {
    parse_document(text.as_bytes()).expect("the text is a document")
}

fn binding(r: &Resource) -> (u32, u32, String) {
    match r {
        Resource::Binding(Binding { group, binding, decl }) => {
            (*group, *binding, String::from_utf8(decl.clone()).unwrap())
        }
        other => panic!("not a binding: {:?}", other),
    }
}

fn if_def(r: &Resource) -> &IfDef {
    match r {
        Resource::IfDef(d) => d,
        other => panic!("not a conditional: {:?}", other),
    }
}

fn import(r: &Resource) -> String {
    match r {
        Resource::OilImport(name) => String::from_utf8(name.clone()).unwrap(),
        other => panic!("not an import: {:?}", other),
    }
}

fn def(r: &Resource) -> String {
    match r {
        Resource::Def(name) => String::from_utf8(name.clone()).unwrap(),
        other => panic!("not a definition: {:?}", other),
    }
}

#[test]
fn empty_input_is_an_empty_document() {
    let file = parse("");
    assert!(file.pub_name.is_none());
    assert!(file.resources.is_empty());
}

#[test]
fn host_code_alone_is_an_empty_document() {
    let file = parse("fn main() -> vec4<f32> {\n    return vec4<f32>(1.0);\n}\n");
    assert!(file.pub_name.is_none());
    assert!(file.resources.is_empty());
}

#[test]
fn a_binding_keeps_its_indices_and_its_declaration() {
    let file = parse("@group(0) @binding(1) var<uniform> view: View;\n");
    assert_eq!(file.resources.len(), 1);
    assert_eq!(binding(&file.resources[0]), (0, 1, "var<uniform> view: View".to_string()));
}

#[test]
fn the_three_var_keywords_are_read() {
    let file = parse(
        "@group(1) @binding(0) var<uniform> a: A;\n\
         @group(1) @binding(1) var<storage> b: B;\n\
         @group(1) @binding(2) var c: C;\n",
    );
    assert_eq!(file.resources.len(), 3);
    assert_eq!(binding(&file.resources[0]), (1, 0, "var<uniform> a: A".to_string()));
    assert_eq!(binding(&file.resources[1]), (1, 1, "var<storage> b: B".to_string()));
    assert_eq!(binding(&file.resources[2]), (1, 2, "var c: C".to_string()));
}

#[test]
fn white_space_inside_a_declaration_is_kept() {
    let file = parse("@group(0) @binding(0)\n    var<uniform>\t  lights: Lights;");
    assert_eq!(binding(&file.resources[0]), (0, 0, "var<uniform>\t  lights: Lights".to_string()));
}

#[test]
fn type_parameters_are_part_of_the_declaration() {
    let file = parse(
        "@group(2) @binding(3) var tex: texture_storage_2d<rgba8unorm, write>;\n\
         @group(2) @binding(4) var<uniform> m: array<Mesh, #{PER_OBJECT_BUFFER_BATCH_SIZE}u>;\n\
         @group(2) @binding(5) var<storage> n: array<Mesh, #{COUNT}>;\n\
         @group(2) @binding(6) var t: texture_2d<f32>;\n",
    );
    assert_eq!(
        binding(&file.resources[0]),
        (2, 3, "var tex: texture_storage_2d<rgba8unorm, write>".to_string())
    );
    assert_eq!(
        binding(&file.resources[1]),
        (2, 4, "var<uniform> m: array<Mesh, #{PER_OBJECT_BUFFER_BATCH_SIZE}u>".to_string())
    );
    assert_eq!(binding(&file.resources[2]), (2, 5, "var<storage> n: array<Mesh, #{COUNT}>".to_string()));
    assert_eq!(binding(&file.resources[3]), (2, 6, "var t: texture_2d<f32>".to_string()));
}

#[test]
fn type_parameters_that_cannot_be_read_are_left_to_the_host_code() {
    let file = parse("@group(0) @binding(0) var<uniform> a: array<Foo, 4>;\n");
    assert_eq!(binding(&file.resources[0]), (0, 0, "var<uniform> a: array".to_string()));
}

#[test]
fn the_module_name_is_read_when_it_comes_first() {
    let file = parse("// prelude\n#define_import_path bevy_pbr::mesh_view_bindings\n\n@group(0) @binding(0) var<uniform> view: View;\n");
    assert_eq!(file.pub_name, Some(b"bevy_pbr::mesh_view_bindings".to_vec()));
    assert_eq!(file.resources.len(), 1);
}

#[test]
fn a_module_name_behind_a_directive_is_refused() {
    let r = parse_document(b"#define A\n#define_import_path late\n");
    assert_eq!(r.err(), Some(ParseError::Unparsed { offset: 10 }));
}

#[test]
fn a_definition_gives_its_flag() {
    let file = parse("#define  SHADOWS\nfn f() {}\n");
    assert_eq!(file.resources.len(), 1);
    assert_eq!(def(&file.resources[0]), "SHADOWS");
}

#[test]
fn imports_keep_the_module_name_only() {
    let file = parse("#import foo\n#import bar a\n#import baz a, b, c\n#import qux as q\n");
    assert_eq!(file.resources.len(), 4);
    assert_eq!(import(&file.resources[0]), "foo");
    assert_eq!(import(&file.resources[1]), "bar");
    assert_eq!(import(&file.resources[2]), "baz");
    assert_eq!(import(&file.resources[3]), "qux");
}

#[test]
fn an_import_needs_no_line_feed() {
    let file = parse("#import foo");
    assert_eq!(file.resources.len(), 1);
    assert_eq!(import(&file.resources[0]), "foo");
    let file = parse("#import foo\r\n#import bar a, b\r\n#import baz as z");
    assert_eq!(file.resources.len(), 3);
    assert_eq!(import(&file.resources[0]), "foo");
    assert_eq!(import(&file.resources[1]), "bar");
    assert_eq!(import(&file.resources[2]), "baz");
}

#[test]
fn the_symbols_of_an_import_may_be_spaced_freely() {
    let file = parse("#import foo a,b ,c , d\n#define X\n");
    assert_eq!(file.resources.len(), 2);
    assert_eq!(import(&file.resources[0]), "foo");
    assert_eq!(def(&file.resources[1]), "X");
}

#[test]
fn a_comma_at_the_end_of_an_import_does_not_reach_into_the_next_line() {
    let file = parse("#import foo a,\n#define X\n");
    assert_eq!(file.resources.len(), 2);
    assert_eq!(import(&file.resources[0]), "foo");
    assert_eq!(def(&file.resources[1]), "X");
}

#[test]
fn an_import_needs_a_module_name() {
    let r = parse_document(b"#import");
    assert_eq!(r.err(), Some(ParseError::Unparsed { offset: 0 }));
    let r = parse_document(b"#define A\n#import \n{}");
    assert_eq!(r.err(), Some(ParseError::Unparsed { offset: 10 }));
}

#[test]
fn the_two_attributes_of_a_binding_may_stand_on_two_lines() {
    let file = parse("@group(0)\n@binding(1) var<uniform> x: T;");
    assert_eq!(file.resources.len(), 1);
    assert_eq!(binding(&file.resources[0]), (0, 1, "var<uniform> x: T".to_string()));
    let (file, end) = wgsl_file(b"@group(0)\n@binding(1) var<uniform> x: T;").unwrap();
    assert_eq!(binding(&file.resources[0]), (0, 1, "var<uniform> x: T".to_string()));
    assert_eq!(end, 40);
}

#[test]
fn white_space_between_the_two_attributes_is_free() {
    for gap in ["", " ", "  ", "\t", "\n", "\r\n", " \n\t \r\n  "] {
        let text = format!("@group(3){}@binding(4) var s: sampler;", gap);
        let file = parse(&text);
        assert_eq!(file.resources.len(), 1, "{:?}", text);
        assert_eq!(binding(&file.resources[0]), (3, 4, "var s: sampler".to_string()), "{:?}", text);
    }
}

#[test]
fn only_white_space_may_stand_between_the_two_attributes() {
    let r = parse_document(b"@group(0) x @binding(1) var a: A;");
    assert_eq!(r.err(), Some(ParseError::Unparsed { offset: 0 }));
    let r = parse_document(b"@group(0) /* one */ @binding(1) var a: A;");
    assert_eq!(r.err(), Some(ParseError::Unparsed { offset: 0 }));
    let r = parse_document(b"@group(0) @location(1) var a: A;");
    assert_eq!(r.err(), Some(ParseError::Unparsed { offset: 0 }));
}

#[test]
fn the_comma_of_a_type_may_be_spaced_freely() {
    let file = parse(
        "@group(0) @binding(0) var a: texture_storage_2d<rgba8unorm,write>;\n\
         @group(0) @binding(1) var b: array<Mesh , #{N}u>;\n\
         @group(0) @binding(2) var c: array<Mesh   ,#{N}>;\n",
    );
    assert_eq!(
        binding(&file.resources[0]),
        (0, 0, "var a: texture_storage_2d<rgba8unorm,write>".to_string())
    );
    assert_eq!(binding(&file.resources[1]), (0, 1, "var b: array<Mesh , #{N}u>".to_string()));
    assert_eq!(binding(&file.resources[2]), (0, 2, "var c: array<Mesh   ,#{N}>".to_string()));
}

#[test]
fn the_module_name_needs_no_line_feed() {
    let file = parse("#define_import_path solo");
    assert_eq!(file.pub_name, Some(b"solo".to_vec()));
    assert!(file.resources.is_empty());
    let file = parse("#define_import_path a::b\r\n#define A\r\n");
    assert_eq!(file.pub_name, Some(b"a::b".to_vec()));
    assert_eq!(file.resources.len(), 1);
    assert_eq!(def(&file.resources[0]), "A");
    let file = parse("#define_import_path m // the name\n@group(0) @binding(0) var a: A;");
    assert_eq!(file.pub_name, Some(b"m".to_vec()));
    assert_eq!(file.resources.len(), 1);
}

#[test]
fn sources_without_a_final_line_feed_are_read() {
    let file = parse("#define_import_path m\n#ifdef A\n#import n\n#endif\n#import o x");
    assert_eq!(file.pub_name, Some(b"m".to_vec()));
    assert_eq!(file.resources.len(), 2);
    assert_eq!(import(&if_def(&file.resources[0]).resources[0]), "n");
    assert_eq!(import(&file.resources[1]), "o");
}

#[test]
fn ifdef_without_else_has_no_second_branch() {
    let file = parse("#ifdef A\n@group(0) @binding(0) var a: A;\n#endif\n");
    let d = if_def(&file.resources[0]);
    assert_eq!(d.name, b"A".to_vec());
    assert_eq!(d.resources.len(), 1);
    assert!(d.else_branch.is_none());
}

#[test]
fn ifdef_with_else_has_both_branches() {
    let file = parse(
        "#ifdef A\n@group(0) @binding(0) var a: A;\n#else\n@group(0) @binding(1) var b: B;\n@group(0) @binding(2) var c: C;\n#endif\n",
    );
    let d = if_def(&file.resources[0]);
    assert_eq!(d.resources.len(), 1);
    assert_eq!(binding(&d.resources[0]).1, 0);
    let second = d.else_branch.as_ref().expect("a second branch");
    assert_eq!(second.len(), 2);
    assert_eq!(binding(&second[0]).1, 1);
    assert_eq!(binding(&second[1]).1, 2);
}

#[test]
fn an_empty_else_is_not_a_missing_else() {
    let file = parse("#ifdef A\n#else\n#endif\n");
    let d = if_def(&file.resources[0]);
    assert!(d.resources.is_empty());
    assert_eq!(d.else_branch.as_ref().map(|b| b.len()), Some(0));
}

#[test]
fn ifndef_swaps_the_branches() {
    let file = parse(
        "#ifndef F\n@group(0) @binding(1) var first_binding: T;\n#else\n@group(0) @binding(2) var second_binding: T;\n#endif\n",
    );
    let d = if_def(&file.resources[0]);
    assert_eq!(d.name, b"F".to_vec());
    assert_eq!(d.resources.len(), 1);
    assert_eq!(binding(&d.resources[0]).1, 2);
    let second = d.else_branch.as_ref().expect("a second branch");
    assert_eq!(second.len(), 1);
    assert_eq!(binding(&second[0]).1, 1);
}

#[test]
fn ifndef_without_else_has_an_empty_first_branch() {
    let file = parse("#ifndef F\n@group(0) @binding(1) var first_binding: T;\n#endif\n");
    let d = if_def(&file.resources[0]);
    assert!(d.resources.is_empty());
    let second = d.else_branch.as_ref().expect("a second branch");
    assert_eq!(second.len(), 1);
    assert_eq!(binding(&second[0]).1, 1);
}

#[test]
fn if_reads_as_ifdef() {
    let file = parse("#if A\n#define B\n#else\n#define C\n#endif\n");
    let d = if_def(&file.resources[0]);
    assert_eq!(d.name, b"A".to_vec());
    assert_eq!(def(&d.resources[0]), "B");
    assert_eq!(def(&d.else_branch.as_ref().unwrap()[0]), "C");
}

#[test]
fn else_ifdef_nests_a_conditional_in_the_second_branch() {
    let file = parse(
        "#ifdef A\n#define X\n#else ifdef B\n#define Y\n#else\n#define Z\n#endif\n@group(0) @binding(0) var a: A;\n",
    );
    assert_eq!(file.resources.len(), 2);
    let outer = if_def(&file.resources[0]);
    assert_eq!(outer.name, b"A".to_vec());
    assert_eq!(def(&outer.resources[0]), "X");
    let second = outer.else_branch.as_ref().expect("a second branch");
    assert_eq!(second.len(), 1);
    let inner = if_def(&second[0]);
    assert_eq!(inner.name, b"B".to_vec());
    assert_eq!(def(&inner.resources[0]), "Y");
    assert_eq!(def(&inner.else_branch.as_ref().unwrap()[0]), "Z");
}

#[test]
fn any_white_space_may_follow_else_ifdef() {
    for gap in [" ", "\t", "  ", "\n", " \r\n "] {
        let text = format!("#ifdef A\n#else ifdef{}B\n#define Y\n#endif\n", gap);
        let file = parse(&text);
        let outer = if_def(&file.resources[0]);
        let second = outer.else_branch.as_ref().expect("a second branch");
        assert_eq!(second.len(), 1, "{:?}", text);
        let inner = if_def(&second[0]);
        assert_eq!(inner.name, b"B".to_vec(), "{:?}", text);
        assert_eq!(def(&inner.resources[0]), "Y");
    }
}

#[test]
fn else_ifdef_without_white_space_behind_it_is_a_plain_else() {
    let file = parse("#ifdef A\n#else ifdefB\n#define Y\n#endif\n");
    let outer = if_def(&file.resources[0]);
    let second = outer.else_branch.as_ref().expect("a second branch");
    assert_eq!(second.len(), 1);
    assert_eq!(def(&second[0]), "Y");
}

#[test]
fn conditionals_nest() {
    let file = parse("#ifdef A\n#ifdef B\n#define AB\n#endif\n#define A_ONLY\n#endif\n");
    let outer = if_def(&file.resources[0]);
    assert_eq!(outer.resources.len(), 2);
    let inner = if_def(&outer.resources[0]);
    assert_eq!(def(&inner.resources[0]), "AB");
    assert_eq!(def(&outer.resources[1]), "A_ONLY");
}

#[test]
fn source_order_is_kept() {
    let file = parse("#define A\n#import m\n@group(0) @binding(0) var a: A;\n#ifdef A\n#endif\n#define B\n");
    assert_eq!(file.resources.len(), 5);
    assert_eq!(def(&file.resources[0]), "A");
    assert_eq!(import(&file.resources[1]), "m");
    assert_eq!(binding(&file.resources[2]).0, 0);
    assert_eq!(if_def(&file.resources[3]).name, b"A".to_vec());
    assert_eq!(def(&file.resources[4]), "B");
}

#[test]
fn comments_hide_directives() {
    let file = parse(
        "// #ifdef HIDDEN\n/* @group(9) @binding(9) var x: X; #endif */\n@group(0) @binding(0) var a: A; // @group(1)\n",
    );
    assert_eq!(file.resources.len(), 1);
    assert_eq!(binding(&file.resources[0]), (0, 0, "var a: A".to_string()));
}

#[test]
fn other_attributes_and_placeholders_are_skipped() {
    let file = parse(
        "@vertex\nfn vs(@location(0) p: vec3<f32>) -> @builtin(position) vec4<f32> {\n  let n = #{COUNT}u / 2u;\n  let s = #SLICE_COUNT + #SAMPLES_PER_SLICE_SIDE;\n}\n@group(3) @binding(7) var s: sampler;\n",
    );
    assert_eq!(file.resources.len(), 1);
    assert_eq!(binding(&file.resources[0]), (3, 7, "var s: sampler".to_string()));
}

#[test]
fn an_unknown_directive_is_refused_where_it_stands() {
    let text = "#define A\n#pragma once\n";
    let r = parse_document(text.as_bytes());
    assert_eq!(r.err(), Some(ParseError::Unparsed { offset: 10 }));
}

#[test]
fn a_conditional_without_end_is_refused() {
    let r = parse_document(b"fn f() {}\n#ifdef A\n#define B\n");
    assert_eq!(r.err(), Some(ParseError::Unparsed { offset: 10 }));
}

#[test]
fn a_stray_endif_is_refused() {
    let r = parse_document(b"#endif\n");
    assert_eq!(r.err(), Some(ParseError::Unparsed { offset: 0 }));
}

#[test]
fn a_binding_without_declaration_is_refused() {
    let r = parse_document(b"@group(0) @binding(0) let x = 1;");
    assert_eq!(r.err(), Some(ParseError::Unparsed { offset: 0 }));
}

#[test]
fn the_largest_index_is_read() {
    let file = parse("@group(4294967295) @binding(0004294967295) var a: A;");
    assert_eq!(binding(&file.resources[0]), (4294967295, 4294967295, "var a: A".to_string()));
}

#[test]
fn an_index_beyond_32_bits_is_refused() {
    let r = parse_document(b"@group(4294967296) @binding(0) var a: A;");
    assert_eq!(r.err(), Some(ParseError::IndexTooLarge));
    let r = parse_document(b"@group(0) @binding(99999999999999999999999999) var a: A;");
    assert_eq!(r.err(), Some(ParseError::IndexTooLarge));
}

#[test]
fn an_index_too_large_is_refused_even_inside_a_branch_that_could_be_read_otherwise() {
    let r = parse_document(b"#ifdef A\n#else ifdef B\n@group(4294967296) @binding(0) var a: A;\n#endif\n");
    assert_eq!(r.err(), Some(ParseError::IndexTooLarge));
    let r = wgsl_file(b"#ifdef A\n#else ifdef B\n@group(4294967296) @binding(0) var a: A;\n#endif\n");
    assert_eq!(r.err(), Some(ParseError::IndexTooLarge));
}

#[test]
fn wgsl_file_says_where_reading_stopped() {
    let text = b"#define A\nfn f() {}\n#unknown\n";
    let (file, end) = wgsl_file(text).expect("no index is too large");
    assert_eq!(file.resources.len(), 1);
    assert_eq!(end, 20);
    let (file, end) = wgsl_file(b"#define A\nfn f() {}\n").expect("no index is too large");
    assert_eq!(file.resources.len(), 1);
    assert_eq!(end, 20);
}
