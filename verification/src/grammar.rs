//! The grammar of a shader source file, as functions from the input bytes
//! and a position to what is read there.
//!
//! ```text
//! Document    = skip ('#define_import_path' ws Word skip)? Resource*
//! Resource    = ( '@group' Binding | '#define' ws Word | '#import' Import
//!               | ('#ifdef' | '#ifndef' | '#if') Conditional ) skip
//! Conditional = ws Word skip Resource* Tail
//! Tail        = '#endif'
//!             | '#else ifdef' Conditional skip
//!             | '#else' skip Resource* '#endif'
//! Binding     = '(' Digits ')' ws '@binding(' Digits ')' ws Declaration
//! Declaration = ws ('var<uniform>' | 'var<storage>' | 'var') ws Word ' ' Type
//! Type        = Word ('<' Word (Comma ('write' | '#{' Word '}' 'u'?))? '>')?
//! Import      = ws Word (ws 'as' ws Word | ' '* (Word (Comma Word)*)?)
//! Comma       = ' '* ',' ' '*
//! ```
//!
//! `ws` is white space, line ends included, and may be empty; behind
//! `#else ifdef` there is at least one byte of it. Nothing is asked of how
//! a line ends: a directive may be the last thing of a file, and a line
//! may end in a carriage return and a line feed.
//!
//! Every choice is ordered and every repetition takes as much as it can:
//! an alternative is tried only where those before it do not match, and
//! what a repetition has taken is not given back. `skip` is the
//! host-language code between directives. It is passed over up to the next
//! directive, so that a `#` or an `@group` inside a comment is not one.

use vstd::prelude::*;
use crate::ast::{BindingView, IfDefView, ResourceView, WgslFileView};
use crate::scan::{
    find_from, has_at, lemma_find_from, lemma_run_end, lemma_text_len, run_end, text, ByteClass,
};

verus! {

/// What a production reads at a position of the input.
pub enum Parsed<T> {
    /// The production matches and ends at byte offset `end`.
    Match { value: T, end: int },
    /// The production does not match at this position.
    NoMatch,
    /// A group or binding index that does not fit in 32 bits was read.
    /// Nothing is tried after that: the whole input is refused.
    Overflow,
}

impl<T> Parsed<T> {
    /// The same outcome, with `f` applied to the value of a match.
    pub open spec fn map<U>(self, f: spec_fn(T) -> U) -> Parsed<U> {
        match self {
            Parsed::Match { value, end } => Parsed::Match { value: f(value), end },
            Parsed::NoMatch => Parsed::NoMatch,
            Parsed::Overflow => Parsed::Overflow,
        }
    }

    /// The same outcome, a match extended over the host-language text
    /// behind it.
    pub open spec fn then_ignore(self, s: Seq<u8>) -> Parsed<T> {
        match self {
            Parsed::Match { value, end } => Parsed::Match { value, end: ignore(s, end) },
            Parsed::NoMatch => Parsed::NoMatch,
            Parsed::Overflow => Parsed::Overflow,
        }
    }
}

/// The end of the text `t`, if it stands at `pos`.
pub open spec fn lit(s: Seq<u8>, pos: int, t: &str) -> Option<int> {
    if has_at(s, pos, text(t)) {
        Some(pos + text(t).len())
    } else {
        None
    }
}

/// The end of the word that starts at `pos`: one or more word bytes.
pub open spec fn word(s: Seq<u8>, pos: int) -> Option<int> {
    if run_end(s, pos, ByteClass::Word) > pos {
        Some(run_end(s, pos, ByteClass::Word))
    } else {
        None
    }
}

/// The end of the white space that starts at `pos`.
pub open spec fn space(s: Seq<u8>, pos: int) -> int {
    run_end(s, pos, ByteClass::Space)
}

/// A line comment: `//` and at least one byte before the end of the line.
pub open spec fn line_comment(s: Seq<u8>, pos: int) -> Option<int> {
    match lit(s, pos, "//") {
        Some(e1) => if run_end(s, e1, ByteClass::Line) > e1 {
            Some(run_end(s, e1, ByteClass::Line))
        } else {
            None
        },
        None => None,
    }
}

/// A block comment: `/*`, up to and with the first `*/` behind it.
pub open spec fn block_comment(s: Seq<u8>, pos: int) -> Option<int> {
    match lit(s, pos, "/*") {
        Some(e1) => match find_from(s, e1, text("*/")) {
            Some(e2) => lit(s, e2, "*/"),
            None => None,
        },
        None => None,
    }
}

/// An `@` that does not start `@group`.
pub open spec fn other_attribute(s: Seq<u8>, pos: int) -> Option<int> {
    match lit(s, pos, "@") {
        Some(e1) => if lit(s, e1, "group") is None {
            Some(e1)
        } else {
            None
        },
        None => None,
    }
}

/// One piece of skipped text that is not plain code, from `pos` to the
/// position returned. The forms are tried in this order: an `@` that does
/// not start `@group`, a line comment, a block comment, a lone `/`, and the
/// placeholder tokens `#{`, `#SLICE_COUNT`, `#SAMPLES_PER_SLICE_SIDE`.
pub open spec fn filler(s: Seq<u8>, pos: int) -> Option<int> {
    if other_attribute(s, pos) is Some {
        other_attribute(s, pos)
    } else if line_comment(s, pos) is Some {
        line_comment(s, pos)
    } else if block_comment(s, pos) is Some {
        block_comment(s, pos)
    } else if lit(s, pos, "/") is Some {
        lit(s, pos, "/")
    } else if lit(s, pos, "#{") is Some {
        lit(s, pos, "#{")
    } else if lit(s, pos, "#SLICE_COUNT") is Some {
        lit(s, pos, "#SLICE_COUNT")
    } else {
        lit(s, pos, "#SAMPLES_PER_SLICE_SIDE")
    }
}

/// The end of the host-language text that starts at `pos`: plain code and
/// fillers, up to the first `#` or `@group` that no filler covers.
pub open spec fn ignore(s: Seq<u8>, pos: int) -> int
    decreases s.len() - pos,
{
    let p = run_end(s, pos, ByteClass::Code);
    match filler(s, p) {
        Some(q) => {
            proof {
                lemma_run_bounds(s, pos, ByteClass::Code);
                lemma_filler_bounds(s, p);
            }
            ignore(s, q)
        },
        None => p,
    }
}

/// The number that a sequence of decimal digits writes.
pub open spec fn decimal(digits: Seq<u8>) -> nat
    decreases digits.len(),
{
    if digits.len() == 0 {
        0
    } else {
        decimal(digits.drop_last()) * 10 + (digits.last() - '0' as u8) as nat
    }
}

/// One or more decimal digits at `pos`, read as a 32-bit number.
pub open spec fn number(s: Seq<u8>, pos: int) -> Parsed<u32> {
    let end = run_end(s, pos, ByteClass::Digit);
    if end <= pos {
        Parsed::NoMatch
    } else if decimal(s.subrange(pos, end)) > u32::MAX {
        Parsed::Overflow
    } else {
        Parsed::Match { value: decimal(s.subrange(pos, end)) as u32, end }
    }
}

/// `var<uniform>`, `var<storage>` or `var`, tried in this order.
pub open spec fn var_keyword(s: Seq<u8>, pos: int) -> Option<int> {
    if lit(s, pos, "var<uniform>") is Some {
        lit(s, pos, "var<uniform>")
    } else if lit(s, pos, "var<storage>") is Some {
        lit(s, pos, "var<storage>")
    } else {
        lit(s, pos, "var")
    }
}

/// A comma between the items of a list, with the spaces around it.
pub open spec fn comma(s: Seq<u8>, pos: int) -> Option<int> {
    match lit(s, run_end(s, pos, ByteClass::Blank), ",") {
        Some(e1) => Some(run_end(s, e1, ByteClass::Blank)),
        None => None,
    }
}

/// The second parameter of a type: `write`, or `#{NAME}` with an optional
/// `u` behind it.
pub open spec fn type_param(s: Seq<u8>, pos: int) -> Option<int> {
    if lit(s, pos, "write") is Some {
        lit(s, pos, "write")
    } else {
        match lit(s, pos, "#{") {
            Some(e1) => match word(s, e1) {
                Some(e2) => match lit(s, e2, "}") {
                    Some(e3) => if lit(s, e3, "u") is Some {
                        lit(s, e3, "u")
                    } else {
                        Some(e3)
                    },
                    None => None,
                },
                None => None,
            },
            None => None,
        }
    }
}

/// The parameters of a type: `<NAME>` or `<NAME, PARAM>`. Where the
/// comma and the second parameter cannot be read, `>` has to follow the
/// name.
pub open spec fn type_args(s: Seq<u8>, pos: int) -> Option<int> {
    match lit(s, pos, "<") {
        Some(e1) => match word(s, e1) {
            Some(e2) => {
                let e3 = match comma(s, e2) {
                    Some(q) => match type_param(s, q) {
                        Some(q2) => q2,
                        None => e2,
                    },
                    None => e2,
                };
                lit(s, e3, ">")
            },
            None => None,
        },
        None => None,
    }
}

/// A type: a name, with its parameters where they can be read.
pub open spec fn wgsl_type(s: Seq<u8>, pos: int) -> Option<int> {
    match word(s, pos) {
        Some(e1) => match type_args(s, e1) {
            Some(e2) => Some(e2),
            None => Some(e1),
        },
        None => None,
    }
}

/// A variable declaration: the `var` keyword between optional white space,
/// a name, one space, and a type.
pub open spec fn declaration(s: Seq<u8>, pos: int) -> Option<int> {
    match var_keyword(s, space(s, pos)) {
        Some(e1) => match word(s, space(s, e1)) {
            Some(e2) => match lit(s, e2, " ") {
                Some(e3) => wgsl_type(s, e3),
                None => None,
            },
            None => None,
        },
        None => None,
    }
}

/// What stands between the two indices of a binding: `)`, white space,
/// and `@binding(`. The two attributes may stand on one line or on two.
pub open spec fn attribute_gap(s: Seq<u8>, pos: int) -> Option<int> {
    match lit(s, pos, ")") {
        Some(e1) => lit(s, space(s, e1), "@binding("),
        None => None,
    }
}

/// What follows `@group`: `(G)`, white space, `@binding(B)`, white space,
/// and a declaration whose text is kept.
pub open spec fn binding(s: Seq<u8>, pos: int) -> Parsed<BindingView> {
    match lit(s, pos, "(") {
        None => Parsed::NoMatch,
        Some(e1) => match number(s, e1) {
            Parsed::NoMatch => Parsed::NoMatch,
            Parsed::Overflow => Parsed::Overflow,
            Parsed::Match { value: group, end: e2 } => match attribute_gap(s, e2) {
                None => Parsed::NoMatch,
                Some(e3) => match number(s, e3) {
                    Parsed::NoMatch => Parsed::NoMatch,
                    Parsed::Overflow => Parsed::Overflow,
                    Parsed::Match { value: index, end: e4 } => match lit(s, e4, ")") {
                        None => Parsed::NoMatch,
                        Some(e5) => match declaration(s, space(s, e5)) {
                            None => Parsed::NoMatch,
                            Some(e6) => Parsed::Match {
                                value: BindingView {
                                    group,
                                    binding: index,
                                    decl: s.subrange(space(s, e5), e6),
                                },
                                end: e6,
                            },
                        },
                    },
                },
            },
        },
    }
}

/// What follows `#define`: white space and the flag's name.
pub open spec fn define(s: Seq<u8>, pos: int) -> Parsed<Seq<u8>> {
    match word(s, space(s, pos)) {
        Some(end) => Parsed::Match { value: s.subrange(space(s, pos), end), end },
        None => Parsed::NoMatch,
    }
}

/// An alias behind an imported name: `as NAME` between optional white space.
pub open spec fn import_alias(s: Seq<u8>, pos: int) -> Option<int> {
    match lit(s, space(s, pos), "as") {
        Some(e1) => word(s, space(s, e1)),
        None => None,
    }
}

/// The end of the names that follow the first of a list, each behind a
/// comma.
pub open spec fn more_names(s: Seq<u8>, pos: int) -> int
    decreases s.len() - pos,
{
    match comma(s, pos) {
        Some(e1) => match word(s, e1) {
            Some(e2) => {
                proof {
                    lemma_comma_bounds(s, pos);
                    lemma_run_bounds(s, e1, ByteClass::Word);
                }
                more_names(s, e2)
            },
            None => pos,
        },
        None => pos,
    }
}

/// A list of imported symbols: spaces, then names separated by commas.
/// The list may be empty.
pub open spec fn import_list(s: Seq<u8>, pos: int) -> int {
    match word(s, run_end(s, pos, ByteClass::Blank)) {
        Some(e1) => more_names(s, e1),
        None => run_end(s, pos, ByteClass::Blank),
    }
}

/// What follows `#import`: white space, the module's name, and an alias
/// or a list of symbols. The alias and the list are read and dropped.
pub open spec fn import(s: Seq<u8>, pos: int) -> Parsed<Seq<u8>> {
    match word(s, space(s, pos)) {
        Some(e1) => {
            let e2 = match import_alias(s, e1) {
                Some(q) => q,
                None => import_list(s, e1),
            };
            Parsed::Match { value: s.subrange(space(s, pos), e1), end: e2 }
        },
        None => Parsed::NoMatch,
    }
}

/// `#define_import_path`, white space, and the module's own name.
pub open spec fn module_decl(s: Seq<u8>, pos: int) -> Parsed<Seq<u8>> {
    match lit(s, pos, "#define_import_path") {
        Some(e1) => match word(s, space(s, e1)) {
            Some(end) => Parsed::Match { value: s.subrange(space(s, e1), end), end },
            None => Parsed::NoMatch,
        },
        None => Parsed::NoMatch,
    }
}

/// The conditional that `#ifndef` stands for: the block read behind the
/// name is what holds when the flag is absent, so the two branches change
/// places, and a missing `#else` gives an empty first branch.
pub open spec fn negated(d: IfDefView) -> IfDefView {
    IfDefView {
        name: d.name,
        resources: match d.else_branch {
            Some(e) => e,
            None => Seq::empty(),
        },
        else_branch: Some(d.resources),
    }
}

/// One directive at `pos`, and the host-language text behind it. The word
/// at `pos` decides which directive is read; any other word is no match.
/// `#if` reads as `#ifdef` does.
pub open spec fn resource(s: Seq<u8>, pos: int) -> Parsed<ResourceView>
    decreases s.len() - pos, 0nat,
{
    match word(s, pos) {
        None => Parsed::NoMatch,
        Some(e1) => {
            proof {
                lemma_word_bounds(s, pos);
            }
            let w = s.subrange(pos, e1);
            if w == text("@group") {
                binding(s, e1).map(|b: BindingView| ResourceView::Binding(b)).then_ignore(s)
            } else if w == text("#define") {
                define(s, e1).map(|n: Seq<u8>| ResourceView::Def(n)).then_ignore(s)
            } else if w == text("#ifdef") {
                conditional(s, e1).map(|d: IfDefView| ResourceView::IfDef(d)).then_ignore(s)
            } else if w == text("#ifndef") {
                conditional(s, e1).map(|d: IfDefView| ResourceView::IfDef(negated(d))).then_ignore(
                    s,
                )
            } else if w == text("#if") {
                conditional(s, e1).map(|d: IfDefView| ResourceView::IfDef(d)).then_ignore(s)
            } else if w == text("#import") {
                import(s, e1).map(|n: Seq<u8>| ResourceView::OilImport(n)).then_ignore(s)
            } else {
                Parsed::NoMatch
            }
        },
    }
}

/// A list of directives followed by what `rest` holds: the outcome of
/// reading on behind the list.
pub open spec fn prepend(front: Seq<ResourceView>, rest: Parsed<Seq<ResourceView>>) -> Parsed<
    Seq<ResourceView>,
> {
    rest.map(|back: Seq<ResourceView>| front + back)
}

/// The directives from `pos` on, as many as can be read one behind the
/// other. The list ends, without failing, where no directive matches.
///
/// A directive is never empty (`lemma_resource_bounds`); that this is
/// tested here is what makes the definition well-founded.
pub open spec fn resources(s: Seq<u8>, pos: int) -> Parsed<Seq<ResourceView>>
    decreases s.len() - pos, 1nat,
{
    match resource(s, pos) {
        Parsed::Match { value: first, end: e1 } => if pos < e1 <= s.len() {
            prepend(seq![first], resources(s, e1))
        } else {
            Parsed::Match { value: Seq::empty(), end: pos }
        },
        Parsed::NoMatch => Parsed::Match { value: Seq::empty(), end: pos },
        Parsed::Overflow => Parsed::Overflow,
    }
}

/// How a conditional ends, from `pos` on: `#endif` for one without a second
/// branch, or `#else` and what follows it.
pub open spec fn tail(s: Seq<u8>, pos: int) -> Parsed<Option<Seq<ResourceView>>>
    decreases s.len() - pos, 2nat,
{
    match word(s, pos) {
        None => Parsed::NoMatch,
        Some(e1) => {
            let w = s.subrange(pos, e1);
            if w == text("#else") {
                proof {
                    lemma_word_bounds(s, pos);
                }
                else_part(s, e1).map(|branch: Seq<ResourceView>| Some(branch))
            } else if w == text("#endif") {
                Parsed::Match { value: None, end: e1 }
            } else {
                Parsed::NoMatch
            }
        },
    }
}

/// What follows the name of a conditional's directive: white space, the
/// flag's name, skipped text, the directives of the first branch, and the
/// tail.
///
/// The first branch never ends before it starts
/// (`lemma_resources_bounds`); that this is tested here is what makes the
/// definition well-founded.
pub open spec fn conditional(s: Seq<u8>, pos: int) -> Parsed<IfDefView>
    decreases s.len() - pos, 3nat,
{
    match word(s, space(s, pos)) {
        None => Parsed::NoMatch,
        Some(e1) => {
            proof {
                lemma_run_bounds(s, pos, ByteClass::Space);
                lemma_word_bounds(s, space(s, pos));
                lemma_ignore_bounds(s, e1);
            }
            match resources(s, ignore(s, e1)) {
                Parsed::Match { value: first, end: e2 } => if pos <= e2 <= s.len() {
                    tail(s, e2).map(
                        |second: Option<Seq<ResourceView>>|
                            IfDefView {
                                name: s.subrange(space(s, pos), e1),
                                resources: first,
                                else_branch: second,
                            },
                    )
                } else {
                    Parsed::NoMatch
                },
                Parsed::NoMatch => Parsed::NoMatch,
                Parsed::Overflow => Parsed::Overflow,
            }
        },
    }
}

/// The second branch as a chained conditional: ` ifdef` with white space
/// behind it, a conditional that brings the closing `#endif` with it, and
/// skipped text. The branch then holds that conditional alone.
pub open spec fn else_chain(s: Seq<u8>, pos: int) -> Parsed<Seq<ResourceView>>
    decreases s.len() - pos, 4nat,
{
    match lit(s, pos, " ifdef") {
        None => Parsed::NoMatch,
        Some(e1) => if space(s, e1) > e1 {
            conditional(s, e1).map(|d: IfDefView| seq![ResourceView::IfDef(d)]).then_ignore(s)
        } else {
            Parsed::NoMatch
        },
    }
}

/// What follows `#else`: a chained conditional where one can be read, else
/// skipped text, directives and `#endif`.
pub open spec fn else_part(s: Seq<u8>, pos: int) -> Parsed<Seq<ResourceView>>
    decreases s.len() - pos, 5nat,
{
    match else_chain(s, pos) {
        Parsed::NoMatch => {
            proof {
                lemma_ignore_bounds(s, pos);
            }
            match resources(s, ignore(s, pos)) {
                Parsed::Match { value, end: e1 } => match lit(s, e1, "#endif") {
                    Some(end) => Parsed::Match { value, end },
                    None => Parsed::NoMatch,
                },
                Parsed::NoMatch => Parsed::NoMatch,
                Parsed::Overflow => Parsed::Overflow,
            }
        },
        chained => chained,
    }
}

/// Where the directives of a document start, and the module's own name
/// if the document declares one first: skipped text, the declaration where
/// it can be read, and skipped text again.
pub open spec fn document_start(s: Seq<u8>) -> (Option<Seq<u8>>, int) {
    match module_decl(s, ignore(s, 0)) {
        Parsed::Match { value, end } => (Some(value), ignore(s, end)),
        _ => (None, ignore(s, 0)),
    }
}

/// A whole document from the start of the input: the module's own name
/// where it is declared first, and the directives. `end` is where the last
/// directive that could be read ends.
pub open spec fn document(s: Seq<u8>) -> Parsed<WgslFileView> {
    let (pub_name, e1) = document_start(s);
    resources(s, e1).map(|list: Seq<ResourceView>| WgslFileView { pub_name, resources: list })
}

/// A run from a position within the input ends at or after it and within
/// the input; from any other position it is empty.
pub proof fn lemma_run_bounds(s: Seq<u8>, pos: int, class: ByteClass)
    ensures
        0 <= pos <= s.len() ==> pos <= run_end(s, pos, class) <= s.len(),
        !(0 <= pos <= s.len()) ==> run_end(s, pos, class) == pos,
{
    if 0 <= pos <= s.len() {
        lemma_run_end(s, pos, class);
    }
}

/// A filler is not empty and ends within the input.
pub proof fn lemma_filler_bounds(s: Seq<u8>, pos: int)
    ensures
        filler(s, pos) matches Some(q) ==> 0 <= pos < q <= s.len(),
{
    lemma_text_len("@");
    lemma_text_len("//");
    lemma_text_len("/*");
    lemma_text_len("/");
    lemma_text_len("#{");
    lemma_text_len("#SLICE_COUNT");
    lemma_text_len("#SAMPLES_PER_SLICE_SIDE");
    reveal_strlit("@");
    reveal_strlit("//");
    reveal_strlit("/*");
    reveal_strlit("/");
    reveal_strlit("#{");
    reveal_strlit("#SLICE_COUNT");
    reveal_strlit("#SAMPLES_PER_SLICE_SIDE");
    if let Some(e1) = lit(s, pos, "//") {
        lemma_run_bounds(s, e1, ByteClass::Line);
    }
    if let Some(e1) = lit(s, pos, "/*") {
        lemma_find_from(s, e1, text("*/"));
    }
}

/// A word is not empty and ends within the input.
pub proof fn lemma_word_bounds(s: Seq<u8>, pos: int)
    ensures
        word(s, pos) matches Some(end) ==> 0 <= pos < end <= s.len(),
{
    lemma_run_bounds(s, pos, ByteClass::Word);
}

/// Skipped text that starts within the input ends at or after its start
/// and within the input; from any other position nothing is skipped.
pub proof fn lemma_ignore_bounds(s: Seq<u8>, pos: int)
    ensures
        0 <= pos <= s.len() ==> pos <= ignore(s, pos) <= s.len(),
        !(0 <= pos <= s.len()) ==> ignore(s, pos) == pos,
    decreases s.len() - pos,
{
    let p = run_end(s, pos, ByteClass::Code);
    lemma_run_bounds(s, pos, ByteClass::Code);
    lemma_filler_bounds(s, p);
    if let Some(q) = filler(s, p) {
        lemma_ignore_bounds(s, q);
    }
}

/// A declaration that is read from within the input ends within it.
pub proof fn lemma_declaration_bounds(s: Seq<u8>, pos: int)
    requires
        0 <= pos <= s.len(),
    ensures
        declaration(s, pos) matches Some(end) ==> pos <= end <= s.len(),
{
    lemma_run_bounds(s, pos, ByteClass::Space);
    if let Some(e1) = var_keyword(s, space(s, pos)) {
        lemma_run_bounds(s, e1, ByteClass::Space);
        lemma_word_bounds(s, space(s, e1));
        if let Some(e2) = word(s, space(s, e1)) {
            if let Some(e3) = lit(s, e2, " ") {
                lemma_word_bounds(s, e3);
                if let Some(e4) = word(s, e3) {
                    if let Some(e5) = lit(s, e4, "<") {
                        lemma_word_bounds(s, e5);
                        if let Some(e6) = word(s, e5) {
                            lemma_comma_bounds(s, e6);
                            if let Some(e7) = comma(s, e6) {
                                if let Some(e8) = lit(s, e7, "#{") {
                                    lemma_word_bounds(s, e8);
                                }
                            }
                        }
                    }
                }
            }
        }
    }
}

/// A comma is not empty and ends within the input.
pub proof fn lemma_comma_bounds(s: Seq<u8>, pos: int)
    ensures
        comma(s, pos) matches Some(end) ==> 0 <= pos < end <= s.len(),
{
    lemma_text_len(",");
    reveal_strlit(",");
    lemma_run_bounds(s, pos, ByteClass::Blank);
    if let Some(e1) = lit(s, run_end(s, pos, ByteClass::Blank), ",") {
        lemma_run_bounds(s, e1, ByteClass::Blank);
    }
}

/// A list of imported symbols that is read from within the input ends
/// within it.
pub proof fn lemma_more_names_bounds(s: Seq<u8>, pos: int)
    requires
        0 <= pos <= s.len(),
    ensures
        pos <= more_names(s, pos) <= s.len(),
    decreases s.len() - pos,
{
    lemma_comma_bounds(s, pos);
    if let Some(e1) = comma(s, pos) {
        lemma_word_bounds(s, e1);
        if let Some(e2) = word(s, e1) {
            lemma_more_names_bounds(s, e2);
        }
    }
}

/// What is read behind `@group`, `#define` or `#import` from within the
/// input ends within it.
pub proof fn lemma_directive_bounds(s: Seq<u8>, pos: int)
    requires
        0 <= pos <= s.len(),
    ensures
        binding(s, pos) matches Parsed::Match { end, .. } ==> pos <= end <= s.len(),
        define(s, pos) matches Parsed::Match { end, .. } ==> pos <= end <= s.len(),
        import(s, pos) matches Parsed::Match { end, .. } ==> pos <= end <= s.len(),
{
    lemma_run_bounds(s, pos, ByteClass::Space);
    lemma_word_bounds(s, space(s, pos));
    if let Some(e1) = word(s, space(s, pos)) {
        lemma_run_bounds(s, e1, ByteClass::Space);
        if let Some(e2) = lit(s, space(s, e1), "as") {
            lemma_run_bounds(s, e2, ByteClass::Space);
            lemma_word_bounds(s, space(s, e2));
        }
        lemma_run_bounds(s, e1, ByteClass::Blank);
        lemma_word_bounds(s, run_end(s, e1, ByteClass::Blank));
        if let Some(e3) = word(s, run_end(s, e1, ByteClass::Blank)) {
            lemma_more_names_bounds(s, e3);
        }
    }
    if let Some(e1) = lit(s, pos, "(") {
        lemma_run_bounds(s, e1, ByteClass::Digit);
        if let Parsed::Match { end: e2, .. } = number(s, e1) {
            if let Some(e2b) = lit(s, e2, ")") {
                lemma_run_bounds(s, e2b, ByteClass::Space);
            }
            if let Some(e3) = attribute_gap(s, e2) {
                lemma_run_bounds(s, e3, ByteClass::Digit);
                if let Parsed::Match { end: e4, .. } = number(s, e3) {
                    if let Some(e5) = lit(s, e4, ")") {
                        lemma_run_bounds(s, e5, ByteClass::Space);
                        lemma_declaration_bounds(s, space(s, e5));
                    }
                }
            }
        }
    }
}

/// A directive that is read from within the input is not empty and ends
/// within the input, and so does everything that is read with it. The
/// tests of this in `resources` and `conditional` therefore never fail.
pub proof fn lemma_resource_bounds(s: Seq<u8>, pos: int)
    requires
        0 <= pos <= s.len(),
    ensures
        resource(s, pos) matches Parsed::Match { end, .. } ==> pos < end <= s.len(),
    decreases s.len() - pos, 0nat,
{
    lemma_word_bounds(s, pos);
    if let Some(e1) = word(s, pos) {
        lemma_directive_bounds(s, e1);
        lemma_conditional_bounds(s, e1);
        if let Parsed::Match { end, .. } = binding(s, e1) {
            lemma_ignore_bounds(s, end);
        }
        if let Parsed::Match { end, .. } = define(s, e1) {
            lemma_ignore_bounds(s, end);
        }
        if let Parsed::Match { end, .. } = import(s, e1) {
            lemma_ignore_bounds(s, end);
        }
        if let Parsed::Match { end, .. } = conditional(s, e1) {
            lemma_ignore_bounds(s, end);
        }
    }
}

/// A list of directives that is read from within the input ends within
/// it.
pub proof fn lemma_resources_bounds(s: Seq<u8>, pos: int)
    requires
        0 <= pos <= s.len(),
    ensures
        resources(s, pos) matches Parsed::Match { end, .. } ==> pos <= end <= s.len(),
        !(resources(s, pos) is NoMatch),
    decreases s.len() - pos, 1nat,
{
    lemma_resource_bounds(s, pos);
    if let Parsed::Match { end: e1, .. } = resource(s, pos) {
        lemma_resources_bounds(s, e1);
    }
}

/// The tail of a conditional that is read from within the input ends
/// within it.
pub proof fn lemma_tail_bounds(s: Seq<u8>, pos: int)
    requires
        0 <= pos <= s.len(),
    ensures
        tail(s, pos) matches Parsed::Match { end, .. } ==> pos <= end <= s.len(),
    decreases s.len() - pos, 2nat,
{
    lemma_word_bounds(s, pos);
    if let Some(e1) = word(s, pos) {
        lemma_else_part_bounds(s, e1);
    }
}

/// A conditional that is read from within the input ends within it.
pub proof fn lemma_conditional_bounds(s: Seq<u8>, pos: int)
    requires
        0 <= pos <= s.len(),
    ensures
        conditional(s, pos) matches Parsed::Match { end, .. } ==> pos <= end <= s.len(),
    decreases s.len() - pos, 3nat,
{
    lemma_run_bounds(s, pos, ByteClass::Space);
    lemma_word_bounds(s, space(s, pos));
    if let Some(e1) = word(s, space(s, pos)) {
        lemma_ignore_bounds(s, e1);
        lemma_resources_bounds(s, ignore(s, e1));
        if let Parsed::Match { end: e2, .. } = resources(s, ignore(s, e1)) {
            lemma_tail_bounds(s, e2);
        }
    }
}

/// What is read behind `#else` from within the input ends within it.
pub proof fn lemma_else_part_bounds(s: Seq<u8>, pos: int)
    requires
        0 <= pos <= s.len(),
    ensures
        else_part(s, pos) matches Parsed::Match { end, .. } ==> pos <= end <= s.len(),
    decreases s.len() - pos, 5nat,
{
    if let Some(e1) = lit(s, pos, " ifdef") {
        lemma_conditional_bounds(s, e1);
        if let Parsed::Match { end, .. } = conditional(s, e1) {
            lemma_ignore_bounds(s, end);
        }
    }
    lemma_ignore_bounds(s, pos);
    lemma_resources_bounds(s, ignore(s, pos));
}

/// A document is read to an offset within the input, and reading one
/// never ends in no match.
pub proof fn lemma_document_bounds(s: Seq<u8>)
    ensures
        document(s) matches Parsed::Match { end, .. } ==> 0 <= end <= s.len(),
        !(document(s) is NoMatch),
{
    lemma_ignore_bounds(s, 0);
    let start = ignore(s, 0);
    if let Some(e1) = lit(s, start, "#define_import_path") {
        lemma_run_bounds(s, e1, ByteClass::Space);
        lemma_word_bounds(s, space(s, e1));
        if let Parsed::Match { end, .. } = module_decl(s, start) {
            lemma_ignore_bounds(s, end);
        }
    }
    lemma_resources_bounds(s, document_start(s).1);
}

} // verus!
