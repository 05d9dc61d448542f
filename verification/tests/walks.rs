//! The two queries held against a plain interpreter of the document tree,
//! on generated corpora.

use std::collections::{BTreeSet, HashSet};

use wgsl_bindings::analyze::{ParsedWgslFiles, WgslFiles};
use wgsl_bindings::ast::Resource;
use wgsl_bindings::flags::FlagSet;

type Found = (u32, u32, Vec<u8>);

fn target(files: &ParsedWgslFiles, module: &[u8]) -> usize {
    let mut found = None;
    for i in 0..files.len() {
        if files.file(i).document.pub_name.as_deref() == Some(module) {
            found = Some(i);
        }
    }
    found.expect("generated imports name modules that exist")
}

fn active(files: &ParsedWgslFiles, list: &[Resource], flags: &mut HashSet<Vec<u8>>) -> Vec<Found> {
    let mut out = Vec::new();
    for r in list {
        match r {
            Resource::Def(name) => {
                flags.insert(name.clone());
            }
            Resource::Binding(b) => out.push((b.group, b.binding, b.decl.clone())),
            Resource::IfDef(d) => {
                if flags.contains(&d.name) {
                    out.extend(active(files, &d.resources, flags));
                } else if let Some(second) = &d.else_branch {
                    out.extend(active(files, second, flags));
                }
            }
            Resource::OilImport(module) => {
                let document = &files.file(target(files, module)).document;
                out.extend(active(files, &document.resources, flags));
            }
        }
    }
    out
}

fn reachable(files: &ParsedWgslFiles, list: &[Resource], out: &mut BTreeSet<Vec<u8>>) {
    for r in list {
        match r {
            Resource::Def(_) | Resource::Binding(_) => {}
            Resource::IfDef(d) => {
                out.insert(d.name.clone());
                reachable(files, &d.resources, out);
                if let Some(second) = &d.else_branch {
                    reachable(files, second, out);
                }
            }
            Resource::OilImport(module) => {
                let document = &files.file(target(files, module)).document;
                reachable(files, &document.resources, out);
            }
        }
    }
}

struct Picker(u64);

impl Picker {
    fn next(&mut self, bound: usize) -> usize {
        self.0 = self.0.wrapping_mul(6364136223846793005).wrapping_add(1442695040888963407);
        ((self.0 >> 33) as usize) % bound
    }
}

const FLAGS: [&str; 5] = ["A", "B", "C", "D", "E"];

/// Writes the resources of a document. Module `own` out of `modules`
/// imports only modules behind it, so that every walk ends.
fn write_resources(picker: &mut Picker, text: &mut String, own: usize, modules: usize, nesting: usize) {
    let count = picker.next(5);
    for _ in 0..count {
        match picker.next(if nesting < 3 { 7 } else { 4 }) {
            0 => text.push_str(&format!("#define {}\n", FLAGS[picker.next(FLAGS.len())])),
            1 | 2 => text.push_str(&format!(
                "@group({}) @binding({}) var<uniform> v{}: T{};\n",
                picker.next(3),
                picker.next(3),
                picker.next(2),
                picker.next(2)
            )),
            3 => {
                if own + 1 < modules {
                    let other = own + 1 + picker.next(modules - own - 1);
                    text.push_str(&format!("#import m{}\n", other));
                } else {
                    text.push_str("// no module behind this one\n");
                }
            }
            kind => {
                let head = ["#ifdef", "#ifndef", "#if"][kind - 4];
                text.push_str(&format!("{} {}\n", head, FLAGS[picker.next(FLAGS.len())]));
                write_resources(picker, text, own, modules, nesting + 1);
                match picker.next(3) {
                    0 => text.push_str("#endif\n"),
                    1 => {
                        text.push_str("#else\n");
                        write_resources(picker, text, own, modules, nesting + 1);
                        text.push_str("#endif\n");
                    }
                    _ => {
                        text.push_str(&format!("#else ifdef {}\n", FLAGS[picker.next(FLAGS.len())]));
                        write_resources(picker, text, own, modules, nesting + 1);
                        text.push_str("#endif\n");
                    }
                }
            }
        }
    }
}

fn corpus(picker: &mut Picker) -> (ParsedWgslFiles, usize) {
    let modules = 1 + picker.next(4);
    let mut sources = WgslFiles::new();
    for own in 0..modules {
        let mut text = format!("#define_import_path m{}\n", own);
        write_resources(picker, &mut text, own, modules, 0);
        let name = format!("m{}.wgsl", own);
        sources.insert(name.clone().into_bytes(), Some(name.into_bytes()), text.into_bytes());
    }
    (sources.parse_all().expect("generated files are documents"), modules)
}

fn compare(seed: u64, rounds: usize) {
    let mut picker = Picker(seed);
    for _ in 0..rounds {
        let (files, modules) = corpus(&mut picker);
        let entries: Vec<Vec<u8>> = (0..1 + picker.next(3))
            .map(|_| format!("m{}.wgsl", picker.next(modules + 1)).into_bytes())
            .collect();
        let enabled: Vec<Vec<u8>> = FLAGS
            .iter()
            .filter(|_| picker.next(2) == 0)
            .map(|f| f.as_bytes().to_vec())
            .collect();

        let mut expected_flags: HashSet<Vec<u8>> = enabled.iter().cloned().collect();
        let mut expected: BTreeSet<Found> = BTreeSet::new();
        let mut expected_reachable: BTreeSet<Vec<u8>> = BTreeSet::new();
        let mut expected_invalid = Vec::new();
        for entry in &entries {
            let mut found = None;
            for i in 0..files.len() {
                if files.file(i).file_name.as_ref() == Some(entry) {
                    found = Some(i);
                }
            }
            match found {
                Some(i) => {
                    let document = &files.file(i).document;
                    expected.extend(active(&files, &document.resources, &mut expected_flags));
                    reachable(&files, &document.resources, &mut expected_reachable);
                }
                None => expected_invalid.push(entry.clone()),
            }
        }

        let mut flags = FlagSet::new();
        for flag in &enabled {
            flags.insert(flag.clone());
        }
        let answer = files.bindings(&mut flags, &entries, modules).expect("the walk ends");
        let found: Vec<Found> = (0..answer.found.len())
            .map(|i| {
                let b = answer.found.get(i);
                (b.group, b.binding, b.decl.clone())
            })
            .collect();
        assert_eq!(found, expected.into_iter().collect::<Vec<_>>());
        assert_eq!(answer.invalid, expected_invalid);
        assert_eq!(answer.list_valid, !expected_invalid.is_empty());
        let left: BTreeSet<Vec<u8>> = expected_flags.into_iter().collect();
        assert_eq!(flags.names(), left.into_iter().collect::<Vec<_>>());

        let listed = files.defines(&entries, modules).expect("the walk ends");
        assert_eq!(listed.found, expected_reachable.into_iter().collect::<Vec<_>>());
        assert_eq!(listed.invalid, expected_invalid);
    }
}

#[test]
fn queries_agree_with_a_plain_walk() {
    compare(11, 1500);
}

#[test]
fn queries_agree_with_a_plain_walk_on_other_corpora() {
    compare(12, 1500);
}
