//! The parser: reads the grammar from the bytes of one source file and
//! builds its document tree.

use vstd::prelude::*;
use crate::ast::{
    branch_view, lemma_resources_view_push, resources_view, Binding, IfDef, Resource, WgslFile,
};
use crate::grammar;
use crate::grammar::Parsed;
use crate::scan::{copy_range, find, scan_run, slice_is, starts_with_at, ByteClass};

verus! {

/// Why an input is refused.
#[derive(Clone, Copy, Debug, PartialEq, Eq, Structural)]
pub enum ParseError {
    /// A group or binding index does not fit in 32 bits.
    IndexTooLarge,
    /// No directive can be read at `offset`, and the input does not end
    /// there.
    Unparsed { offset: usize },
}

/// What a parsing function reads at a position: a value and the offset
/// where it ends, no match, or an index too large for 32 bits.
enum Step<T> {
    Match(T, usize),
    NoMatch,
    Overflow,
}

impl<T> Step<T> {
    /// Whether this is what the grammar reads, `model` giving the
    /// mathematical value of what was built.
    spec fn agrees<V>(self, p: Parsed<V>, model: spec_fn(T) -> V) -> bool {
        match self {
            Step::Match(v, e) => p == (Parsed::Match { value: model(v), end: e as int }),
            Step::NoMatch => p is NoMatch,
            Step::Overflow => p is Overflow,
        }
    }

    /// Whether a match ends between `from` and `len`.
    spec fn ends_within(self, from: int, len: int) -> bool {
        self matches Step::Match(_, e) ==> from <= e <= len
    }
}

/// Whether an end offset is the one that the grammar gives.
spec fn same_end(r: Option<usize>, p: Option<int>) -> bool {
    match r {
        Some(e) => p == Some(e as int),
        None => p is None,
    }
}

/// Reads the text `t` at `pos`.
fn lit(input: &[u8], pos: usize, t: &str) -> (r: Option<usize>)
    requires
        pos <= input@.len(),
    ensures
        same_end(r, grammar::lit(input@, pos as int, t)),
        r matches Some(e) ==> pos <= e <= input@.len(),
{
    let bytes = t.as_bytes();
    if starts_with_at(input, pos, bytes) {
        Some(pos + bytes.len())
    } else {
        None
    }
}

/// Reads a word at `pos`: a directive's name, a flag, a module, a type.
fn ident(input: &[u8], pos: usize) -> (r: Option<usize>)
    requires
        pos <= input@.len(),
    ensures
        same_end(r, grammar::word(input@, pos as int)),
        r matches Some(e) ==> pos < e <= input@.len(),
{
    let end = scan_run(input, pos, ByteClass::Word);
    if end > pos {
        Some(end)
    } else {
        None
    }
}

/// Skips white space from `pos`.
fn ws(input: &[u8], pos: usize) -> (end: usize)
    requires
        pos <= input@.len(),
    ensures
        end == grammar::space(input@, pos as int),
        pos <= end <= input@.len(),
{
    scan_run(input, pos, ByteClass::Space)
}

/// Reads a line comment at `pos`.
fn peol_comment(input: &[u8], pos: usize) -> (r: Option<usize>)
    requires
        pos <= input@.len(),
    ensures
        same_end(r, grammar::line_comment(input@, pos as int)),
        r matches Some(e) ==> pos < e <= input@.len(),
{
    match lit(input, pos, "//") {
        Some(e1) => {
            let end = scan_run(input, e1, ByteClass::Line);
            if end > e1 {
                Some(end)
            } else {
                None
            }
        },
        None => None,
    }
}

/// Reads a block comment at `pos`.
fn pinline_comment(input: &[u8], pos: usize) -> (r: Option<usize>)
    requires
        pos <= input@.len(),
    ensures
        same_end(r, grammar::block_comment(input@, pos as int)),
        r matches Some(e) ==> pos <= e <= input@.len(),
{
    match lit(input, pos, "/*") {
        Some(e1) => match find(input, e1, "*/".as_bytes()) {
            Some(e2) => lit(input, e2, "*/"),
            None => None,
        },
        None => None,
    }
}

/// Reads an `@` that does not start `@group`.
fn non_group(input: &[u8], pos: usize) -> (r: Option<usize>)
    requires
        pos <= input@.len(),
    ensures
        same_end(r, grammar::other_attribute(input@, pos as int)),
        r matches Some(e) ==> pos <= e <= input@.len(),
{
    match lit(input, pos, "@") {
        Some(e1) => match lit(input, e1, "group") {
            Some(_) => None,
            None => Some(e1),
        },
        None => None,
    }
}

/// Reads one filler at `pos`.
fn filler(input: &[u8], pos: usize) -> (r: Option<usize>)
    requires
        pos <= input@.len(),
    ensures
        same_end(r, grammar::filler(input@, pos as int)),
        r matches Some(e) ==> pos < e <= input@.len(),
{
    proof {
        grammar::lemma_filler_bounds(input@, pos as int);
    }
    if let Some(e) = non_group(input, pos) {
        return Some(e);
    }
    if let Some(e) = peol_comment(input, pos) {
        return Some(e);
    }
    if let Some(e) = pinline_comment(input, pos) {
        return Some(e);
    }
    if let Some(e) = lit(input, pos, "/") {
        return Some(e);
    }
    if let Some(e) = lit(input, pos, "#{") {
        return Some(e);
    }
    if let Some(e) = lit(input, pos, "#SLICE_COUNT") {
        return Some(e);
    }
    lit(input, pos, "#SAMPLES_PER_SLICE_SIDE")
}

/// Skips the host-language text that starts at `pos`: everything but the
/// directives and the binding declarations.
fn ignore(input: &[u8], pos: usize) -> (end: usize)
    requires
        pos <= input@.len(),
    ensures
        end == grammar::ignore(input@, pos as int),
        pos <= end <= input@.len(),
{
    let mut at: usize = pos;
    loop
        invariant
            pos <= at <= input@.len(),
            grammar::ignore(input@, pos as int) == grammar::ignore(input@, at as int),
        decreases input@.len() - at,
    {
        let code_end = scan_run(input, at, ByteClass::Code);
        match filler(input, code_end) {
            Some(next) => {
                at = next;
            },
            None => {
                return code_end;
            },
        }
    }
}

/// Reads one or more decimal digits at `pos` as a 32-bit number.
fn number(input: &[u8], pos: usize) -> (r: Step<u32>)
    requires
        pos <= input@.len(),
    ensures
        r.agrees(grammar::number(input@, pos as int), |v: u32| v),
        r.ends_within(pos as int, input@.len() as int),
{
    let end = scan_run(input, pos, ByteClass::Digit);
    if end <= pos {
        return Step::NoMatch;
    }
    proof {
        crate::scan::lemma_run_end(input@, pos as int, ByteClass::Digit);
    }
    let mut value: u64 = 0;
    let mut fits = true;
    let mut i: usize = pos;
    while i < end
        invariant
            pos <= i <= end <= input@.len(),
            forall|k: int| pos <= k < end ==> ByteClass::Digit.has(#[trigger] input@[k]),
            fits ==> value == grammar::decimal(input@.subrange(pos as int, i as int)),
            fits ==> value <= u32::MAX,
            !fits ==> grammar::decimal(input@.subrange(pos as int, i as int)) > u32::MAX,
        decreases end - i,
    {
        let digit = input[i] - '0' as u8;
        proof {
            let before = input@.subrange(pos as int, i as int);
            let now = input@.subrange(pos as int, i + 1);
            assert(now.drop_last() =~= before);
            assert(now.last() == input@[i as int]);
        }
        if fits {
            value = value * 10 + digit as u64;
            if value > u32::MAX as u64 {
                fits = false;
            }
        }
        i = i + 1;
    }
    if fits {
        Step::Match(value as u32, end)
    } else {
        Step::Overflow
    }
}

/// Reads the keyword of a declaration at `pos`.
fn var(input: &[u8], pos: usize) -> (r: Option<usize>)
    requires
        pos <= input@.len(),
    ensures
        same_end(r, grammar::var_keyword(input@, pos as int)),
        r matches Some(e) ==> pos <= e <= input@.len(),
{
    if let Some(e) = lit(input, pos, "var<uniform>") {
        return Some(e);
    }
    if let Some(e) = lit(input, pos, "var<storage>") {
        return Some(e);
    }
    lit(input, pos, "var")
}

/// Reads a comma with the spaces around it.
fn comma(input: &[u8], pos: usize) -> (r: Option<usize>)
    requires
        pos <= input@.len(),
    ensures
        same_end(r, grammar::comma(input@, pos as int)),
        r matches Some(e) ==> pos < e <= input@.len(),
{
    proof {
        grammar::lemma_comma_bounds(input@, pos as int);
    }
    match lit(input, scan_run(input, pos, ByteClass::Blank), ",") {
        Some(e1) => Some(scan_run(input, e1, ByteClass::Blank)),
        None => None,
    }
}

/// Reads the second parameter of a type at `pos`.
fn wgsl_param2(input: &[u8], pos: usize) -> (r: Option<usize>)
    requires
        pos <= input@.len(),
    ensures
        same_end(r, grammar::type_param(input@, pos as int)),
        r matches Some(e) ==> pos <= e <= input@.len(),
{
    if let Some(e) = lit(input, pos, "write") {
        return Some(e);
    }
    let e1 = match lit(input, pos, "#{") {
        Some(p) => p,
        None => {
            return None;
        },
    };
    let e2 = match ident(input, e1) {
        Some(p) => p,
        None => {
            return None;
        },
    };
    let e3 = match lit(input, e2, "}") {
        Some(p) => p,
        None => {
            return None;
        },
    };
    match lit(input, e3, "u") {
        Some(e) => Some(e),
        None => Some(e3),
    }
}

/// Reads the parameters of a type at `pos`, angle brackets included.
fn wgsl_type_args(input: &[u8], pos: usize) -> (r: Option<usize>)
    requires
        pos <= input@.len(),
    ensures
        same_end(r, grammar::type_args(input@, pos as int)),
        r matches Some(e) ==> pos <= e <= input@.len(),
{
    let e1 = match lit(input, pos, "<") {
        Some(p) => p,
        None => {
            return None;
        },
    };
    let e2 = match ident(input, e1) {
        Some(p) => p,
        None => {
            return None;
        },
    };
    let e3 = match comma(input, e2) {
        Some(q) => match wgsl_param2(input, q) {
            Some(q2) => q2,
            None => e2,
        },
        None => e2,
    };
    lit(input, e3, ">")
}

/// Reads a type at `pos`.
fn wgsl_type(input: &[u8], pos: usize) -> (r: Option<usize>)
    requires
        pos <= input@.len(),
    ensures
        same_end(r, grammar::wgsl_type(input@, pos as int)),
        r matches Some(e) ==> pos <= e <= input@.len(),
{
    match ident(input, pos) {
        Some(e1) => match wgsl_type_args(input, e1) {
            Some(e2) => Some(e2),
            None => Some(e1),
        },
        None => None,
    }
}

/// Reads a variable declaration at `pos` and returns where it ends.
fn wgsl_declaration(input: &[u8], pos: usize) -> (r: Option<usize>)
    requires
        pos <= input@.len(),
    ensures
        same_end(r, grammar::declaration(input@, pos as int)),
        r matches Some(e) ==> pos <= e <= input@.len(),
{
    let e0 = ws(input, pos);
    let e1 = match var(input, e0) {
        Some(p) => p,
        None => {
            return None;
        },
    };
    let e2 = match ident(input, ws(input, e1)) {
        Some(p) => p,
        None => {
            return None;
        },
    };
    match lit(input, e2, " ") {
        Some(e3) => wgsl_type(input, e3),
        None => None,
    }
}

/// Reads what stands between the two indices of a binding.
fn attribute_gap(input: &[u8], pos: usize) -> (r: Option<usize>)
    requires
        pos <= input@.len(),
    ensures
        same_end(r, grammar::attribute_gap(input@, pos as int)),
        r matches Some(e) ==> pos <= e <= input@.len(),
{
    match lit(input, pos, ")") {
        Some(e1) => lit(input, ws(input, e1), "@binding("),
        None => None,
    }
}

/// Reads what follows `@group`: both indices and the declaration.
fn binding(input: &[u8], pos: usize) -> (r: Step<Binding>)
    requires
        pos <= input@.len(),
    ensures
        r.agrees(grammar::binding(input@, pos as int), |b: Binding| b@),
        r.ends_within(pos as int, input@.len() as int),
{
    let e1 = match lit(input, pos, "(") {
        Some(p) => p,
        None => {
            return Step::NoMatch;
        },
    };
    let (group, e2) = match number(input, e1) {
        Step::Match(v, p) => (v, p),
        Step::NoMatch => {
            return Step::NoMatch;
        },
        Step::Overflow => {
            return Step::Overflow;
        },
    };
    let e3 = match attribute_gap(input, e2) {
        Some(p) => p,
        None => {
            return Step::NoMatch;
        },
    };
    let (index, e4) = match number(input, e3) {
        Step::Match(v, p) => (v, p),
        Step::NoMatch => {
            return Step::NoMatch;
        },
        Step::Overflow => {
            return Step::Overflow;
        },
    };
    let e5 = match lit(input, e4, ")") {
        Some(p) => p,
        None => {
            return Step::NoMatch;
        },
    };
    let start = ws(input, e5);
    match wgsl_declaration(input, start) {
        Some(end) => {
            let decl = copy_range(input, start, end);
            Step::Match(Binding { group, binding: index, decl }, end)
        },
        None => Step::NoMatch,
    }
}

/// Reads what follows `#define`: the flag's name.
fn define(input: &[u8], pos: usize) -> (r: Step<Vec<u8>>)
    requires
        pos <= input@.len(),
    ensures
        r.agrees(grammar::define(input@, pos as int), |v: Vec<u8>| v@),
        r.ends_within(pos as int, input@.len() as int),
{
    let start = ws(input, pos);
    match ident(input, start) {
        Some(end) => Step::Match(copy_range(input, start, end), end),
        None => Step::NoMatch,
    }
}

/// Reads the module's own name at `pos`.
fn import_define(input: &[u8], pos: usize) -> (r: Step<Vec<u8>>)
    requires
        pos <= input@.len(),
    ensures
        r.agrees(grammar::module_decl(input@, pos as int), |v: Vec<u8>| v@),
        r.ends_within(pos as int, input@.len() as int),
{
    let e1 = match lit(input, pos, "#define_import_path") {
        Some(p) => p,
        None => {
            return Step::NoMatch;
        },
    };
    let start = ws(input, e1);
    let e2 = match ident(input, start) {
        Some(p) => p,
        None => {
            return Step::NoMatch;
        },
    };
    Step::Match(copy_range(input, start, e2), e2)
}

/// Reads an alias behind an imported name.
fn as_import(input: &[u8], pos: usize) -> (r: Option<usize>)
    requires
        pos <= input@.len(),
    ensures
        same_end(r, grammar::import_alias(input@, pos as int)),
        r matches Some(e) ==> pos <= e <= input@.len(),
{
    match lit(input, ws(input, pos), "as") {
        Some(e1) => ident(input, ws(input, e1)),
        None => None,
    }
}

/// Reads a list of imported symbols, which may be empty.
fn multi_import(input: &[u8], pos: usize) -> (end: usize)
    requires
        pos <= input@.len(),
    ensures
        end == grammar::import_list(input@, pos as int),
        pos <= end <= input@.len(),
{
    let start = scan_run(input, pos, ByteClass::Blank);
    let mut at: usize = match ident(input, start) {
        Some(p) => p,
        None => {
            return start;
        },
    };
    loop
        invariant
            pos <= at <= input@.len(),
            grammar::import_list(input@, pos as int) == grammar::more_names(input@, at as int),
        decreases input@.len() - at,
    {
        let e1 = match comma(input, at) {
            Some(p) => p,
            None => {
                return at;
            },
        };
        match ident(input, e1) {
            Some(e2) => {
                at = e2;
            },
            None => {
                return at;
            },
        }
    }
}

/// Reads what follows `#import`: the module's name, and an alias or a list
/// of symbols that is dropped.
fn oil_import(input: &[u8], pos: usize) -> (r: Step<Vec<u8>>)
    requires
        pos <= input@.len(),
    ensures
        r.agrees(grammar::import(input@, pos as int), |v: Vec<u8>| v@),
        r.ends_within(pos as int, input@.len() as int),
{
    let start = ws(input, pos);
    let e1 = match ident(input, start) {
        Some(p) => p,
        None => {
            return Step::NoMatch;
        },
    };
    let e2 = match as_import(input, e1) {
        Some(q) => q,
        None => multi_import(input, e1),
    };
    Step::Match(copy_range(input, start, e1), e2)
}

/// Reads one directive at `pos` and skips the host-language text behind
/// it.
fn resource(input: &[u8], pos: usize) -> (r: Step<Resource>)
    requires
        pos <= input@.len(),
    ensures
        r.agrees(grammar::resource(input@, pos as int), |v: Resource| v@),
        r matches Step::Match(_, e) ==> pos < e <= input@.len(),
    decreases input@.len() - pos, 0nat,
{
    let e1 = match ident(input, pos) {
        Some(p) => p,
        None => {
            return Step::NoMatch;
        },
    };
    if slice_is(input, pos, e1, "@group".as_bytes()) {
        match binding(input, e1) {
            Step::Match(b, end) => Step::Match(Resource::Binding(b), ignore(input, end)),
            Step::NoMatch => Step::NoMatch,
            Step::Overflow => Step::Overflow,
        }
    } else if slice_is(input, pos, e1, "#define".as_bytes()) {
        match define(input, e1) {
            Step::Match(name, end) => Step::Match(Resource::Def(name), ignore(input, end)),
            Step::NoMatch => Step::NoMatch,
            Step::Overflow => Step::Overflow,
        }
    } else if slice_is(input, pos, e1, "#ifdef".as_bytes()) {
        match if_def(input, e1) {
            Step::Match(d, end) => Step::Match(Resource::IfDef(d), ignore(input, end)),
            Step::NoMatch => Step::NoMatch,
            Step::Overflow => Step::Overflow,
        }
    } else if slice_is(input, pos, e1, "#ifndef".as_bytes()) {
        match if_not_def(input, e1) {
            Step::Match(d, end) => Step::Match(Resource::IfDef(d), ignore(input, end)),
            Step::NoMatch => Step::NoMatch,
            Step::Overflow => Step::Overflow,
        }
    } else if slice_is(input, pos, e1, "#if".as_bytes()) {
        match if_cond(input, e1) {
            Step::Match(d, end) => Step::Match(Resource::IfDef(d), ignore(input, end)),
            Step::NoMatch => Step::NoMatch,
            Step::Overflow => Step::Overflow,
        }
    } else if slice_is(input, pos, e1, "#import".as_bytes()) {
        match oil_import(input, e1) {
            Step::Match(name, end) => Step::Match(Resource::OilImport(name), ignore(input, end)),
            Step::NoMatch => Step::NoMatch,
            Step::Overflow => Step::Overflow,
        }
    } else {
        Step::NoMatch
    }
}

/// Reads directives from `pos` on, until none matches.
fn resources(input: &[u8], pos: usize) -> (r: Step<Vec<Resource>>)
    requires
        pos <= input@.len(),
    ensures
        r.agrees(grammar::resources(input@, pos as int), |v: Vec<Resource>| resources_view(v@)),
        r.ends_within(pos as int, input@.len() as int),
        !(r is NoMatch),
    decreases input@.len() - pos, 1nat,
{
    let mut list: Vec<Resource> = Vec::new();
    let mut at: usize = pos;
    loop
        invariant
            pos <= at <= input@.len(),
            grammar::resources(input@, pos as int) == grammar::prepend(
                resources_view(list@),
                grammar::resources(input@, at as int),
            ),
        decreases input@.len() - at,
    {
        match resource(input, at) {
            Step::Match(first, next) => {
                proof {
                    let front = resources_view(list@);
                    lemma_resources_view_push(list@, first);
                    let rest = grammar::resources(input@, next as int);
                    assert(grammar::resources(input@, at as int) == grammar::prepend(
                        seq![first@],
                        rest,
                    ));
                    if let Parsed::Match { value, end } = rest {
                        assert(front + (seq![first@] + value) =~= front.push(first@) + value);
                    }
                }
                list.push(first);
                at = next;
            },
            Step::NoMatch => {
                proof {
                    assert(resources_view(list@) + Seq::<crate::ast::ResourceView>::empty()
                        =~= resources_view(list@));
                }
                return Step::Match(list, at);
            },
            Step::Overflow => {
                return Step::Overflow;
            },
        }
    }
}

/// Reads how a conditional ends: `#endif`, or `#else` and the second
/// branch.
fn if_def_end(input: &[u8], pos: usize) -> (r: Step<Option<Vec<Resource>>>)
    requires
        pos <= input@.len(),
    ensures
        r.agrees(grammar::tail(input@, pos as int), |b: Option<Vec<Resource>>| branch_view(b)),
        r.ends_within(pos as int, input@.len() as int),
    decreases input@.len() - pos, 2nat,
{
    let e1 = match ident(input, pos) {
        Some(p) => p,
        None => {
            return Step::NoMatch;
        },
    };
    if slice_is(input, pos, e1, "#else".as_bytes()) {
        match else_if(input, e1) {
            Step::Match(branch, end) => Step::Match(Some(branch), end),
            Step::NoMatch => Step::NoMatch,
            Step::Overflow => Step::Overflow,
        }
    } else if slice_is(input, pos, e1, "#endif".as_bytes()) {
        Step::Match(None, e1)
    } else {
        Step::NoMatch
    }
}

/// Reads what follows `#ifdef`: the flag, the first branch and the tail.
fn if_def(input: &[u8], pos: usize) -> (r: Step<IfDef>)
    requires
        pos <= input@.len(),
    ensures
        r.agrees(grammar::conditional(input@, pos as int), |d: IfDef| d@),
        r.ends_within(pos as int, input@.len() as int),
    decreases input@.len() - pos, 3nat,
{
    let start = ws(input, pos);
    let e1 = match ident(input, start) {
        Some(p) => p,
        None => {
            return Step::NoMatch;
        },
    };
    let body = ignore(input, e1);
    let (first, e2) = match resources(input, body) {
        Step::Match(list, p) => (list, p),
        Step::NoMatch => vstd::pervasive::unreached(),
        Step::Overflow => {
            return Step::Overflow;
        },
    };
    match if_def_end(input, e2) {
        Step::Match(second, end) => {
            let name = copy_range(input, start, e1);
            Step::Match(IfDef { name, resources: first, else_branch: second }, end)
        },
        Step::NoMatch => Step::NoMatch,
        Step::Overflow => Step::Overflow,
    }
}

/// Reads what follows `#ifndef`, as `#ifdef` is read, and lets the two
/// branches change places.
fn if_not_def(input: &[u8], pos: usize) -> (r: Step<IfDef>)
    requires
        pos <= input@.len(),
    ensures
        r.agrees(
            grammar::conditional(input@, pos as int).map(
                |d: crate::ast::IfDefView| grammar::negated(d),
            ),
            |d: IfDef| d@,
        ),
        r.ends_within(pos as int, input@.len() as int),
    decreases input@.len() - pos, 4nat,
{
    match if_def(input, pos) {
        Step::Match(d, end) => {
            let IfDef { name, resources, else_branch } = d;
            let first = match else_branch {
                Some(list) => list,
                None => Vec::new(),
            };
            proof {
                assert(resources_view(Seq::<Resource>::empty()) =~= Seq::empty());
            }
            Step::Match(IfDef { name, resources: first, else_branch: Some(resources) }, end)
        },
        Step::NoMatch => Step::NoMatch,
        Step::Overflow => Step::Overflow,
    }
}

/// Reads what follows `#if`: a single flag, as behind `#ifdef`.
fn if_cond(input: &[u8], pos: usize) -> (r: Step<IfDef>)
    requires
        pos <= input@.len(),
    ensures
        r.agrees(grammar::conditional(input@, pos as int), |d: IfDef| d@),
        r.ends_within(pos as int, input@.len() as int),
    decreases input@.len() - pos, 4nat,
{
    if_def(input, pos)
}

/// Reads what follows `#else`: a chained ` ifdef`, or the second branch
/// and `#endif`.
fn else_if(input: &[u8], pos: usize) -> (r: Step<Vec<Resource>>)
    requires
        pos <= input@.len(),
    ensures
        r.agrees(grammar::else_part(input@, pos as int), |v: Vec<Resource>| resources_view(v@)),
        r.ends_within(pos as int, input@.len() as int),
    decreases input@.len() - pos, 5nat,
{
    let chained = match lit(input, pos, " ifdef") {
        Some(e1) => if ws(input, e1) > e1 {
            Some(e1)
        } else {
            None
        },
        None => None,
    };
    if let Some(e1) = chained {
        match if_def(input, e1) {
            Step::Match(d, end) => {
                let mut branch: Vec<Resource> = Vec::new();
                branch.push(Resource::IfDef(d));
                proof {
                    assert(resources_view(branch@) =~= seq![crate::ast::ResourceView::IfDef(d@)]);
                }
                return Step::Match(branch, ignore(input, end));
            },
            Step::NoMatch => {},
            Step::Overflow => {
                return Step::Overflow;
            },
        }
    }
    let start = ignore(input, pos);
    match resources(input, start) {
        Step::Match(list, e1) => match lit(input, e1, "#endif") {
            Some(end) => Step::Match(list, end),
            None => Step::NoMatch,
        },
        Step::NoMatch => vstd::pervasive::unreached(),
        Step::Overflow => Step::Overflow,
    }
}

/// Reads a document from the start of `input`: its module name, where it
/// declares one, and its directives in source order.
///
/// On success the second component is the offset where reading stopped:
/// the end of the last directive that matches, with the host-language text
/// behind it. The only failure is an index too large for 32 bits.
pub fn wgsl_file(input: &[u8]) -> (r: Result<(WgslFile, usize), ParseError>)
    ensures
        match r {
            Ok((file, end)) => grammar::document(input@) == (Parsed::Match {
                value: file@,
                end: end as int,
            }) && end <= input@.len(),
            Err(e) => e == ParseError::IndexTooLarge && grammar::document(input@) is Overflow,
        },
{
    let start = ignore(input, 0);
    let (pub_name, e1) = match import_define(input, start) {
        Step::Match(name, end) => (Some(name), ignore(input, end)),
        _ => (None, start),
    };
    match resources(input, e1) {
        Step::Match(list, end) => Ok((WgslFile { pub_name, resources: list }, end)),
        Step::NoMatch => vstd::pervasive::unreached(),
        Step::Overflow => Err(ParseError::IndexTooLarge),
    }
}

/// What parsing a whole source file gives: the document that the grammar
/// reads from the start, if it ends with the input; otherwise the offset
/// where reading stopped, or that an index was too large. (Reading a
/// document never ends in no match, so that arm stands for no input.)
pub open spec fn complete_document(s: Seq<u8>) -> Result<crate::ast::WgslFileView, ParseError> {
    match grammar::document(s) {
        Parsed::Match { value, end } => if end == s.len() {
            Ok(value)
        } else {
            Err(ParseError::Unparsed { offset: end as usize })
        },
        Parsed::NoMatch => Err(ParseError::Unparsed { offset: 0 }),
        Parsed::Overflow => Err(ParseError::IndexTooLarge),
    }
}

/// Parses a whole source file.
///
/// Succeeds when the document read from the start of `input` ends at its
/// last byte. Otherwise the error says where reading stopped, or that an
/// index was too large.
pub fn parse_document(input: &[u8]) -> (r: Result<WgslFile, ParseError>)
    ensures
        match r {
            Ok(file) => complete_document(input@) == Ok::<_, ParseError>(file@),
            Err(e) => complete_document(input@) == Err::<crate::ast::WgslFileView, _>(e),
        },
{
    proof {
        grammar::lemma_document_bounds(input@);
    }
    match wgsl_file(input) {
        Ok((file, end)) => if end == input.len() {
            Ok(file)
        } else {
            Err(ParseError::Unparsed { offset: end })
        },
        Err(e) => Err(e),
    }
}

} // verus!
