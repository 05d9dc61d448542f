//! What resolution means: which bindings are active under a set of flags,
//! and which flags can matter at all.
//!
//! Documents are walked in source order. A flag definition takes effect
//! for everything that is walked after it, in whichever document, so the
//! set of flags is handed from each resource to the next, into an imported
//! document and back out of it.
//!
//! Imports may run in a circle, and whether a walk comes out of one can
//! depend on the flags: a module may import itself inside a conditional
//! that its own definition closes. So every walk is given a `depth`, the
//! number of imports that may stand inside one another, and is abandoned
//! at an import that would go deeper. With a depth that the corpus does
//! not reach, the limit is never felt.

use vstd::prelude::*;
use crate::ast::{BindingView, ResourceView, WgslFileView};

verus! {

/// Model of a parsed file in the registry.
pub struct ParsedFileView {
    pub path: Seq<u8>,
    pub file_name: Option<Seq<u8>>,
    pub document: WgslFileView,
}

/// The last position of `names` that holds `name`.
pub open spec fn last_named(names: Seq<Option<Seq<u8>>>, name: Seq<u8>) -> Option<int>
    decreases names.len(),
{
    if names.len() == 0 {
        None
    } else if names.last() == Some(name) {
        Some(names.len() - 1)
    } else {
        last_named(names.drop_last(), name)
    }
}

/// The names that the files of a registry are found by, in order: their
/// base names where `by_file_name` is set, else the names that they
/// declare as their own.
pub open spec fn names_of(files: Seq<ParsedFileView>, by_file_name: bool) -> Seq<Option<Seq<u8>>> {
    Seq::new(
        files.len(),
        |i: int|
            if by_file_name {
                files[i].file_name
            } else {
                files[i].document.pub_name
            },
    )
}

/// The file that an import of `name` leads to: the last one that declares
/// `name` as its own.
pub open spec fn import_target(files: Seq<ParsedFileView>, name: Seq<u8>) -> Option<int> {
    last_named(names_of(files, false), name)
}

/// The file that the entry selector `name` leads to: the last one whose
/// base name is `name`.
pub open spec fn entry_target(files: Seq<ParsedFileView>, name: Seq<u8>) -> Option<int> {
    last_named(names_of(files, true), name)
}

/// Why a walk is abandoned.
pub enum Failure {
    /// An import names a module that no file declares.
    MissingImport(Seq<u8>),
    /// An import stands deeper inside other imports than the limit allows.
    TooDeep,
}

/// What a walk gives: the bindings met, in the order of the walk, and the
/// flags that are defined at its end.
pub struct Resolved {
    pub bindings: Seq<BindingView>,
    pub flags: Set<Seq<u8>>,
}

/// The outcome of a walk that goes on behind bindings already met.
pub open spec fn after(front: Seq<BindingView>, rest: Result<Resolved, Failure>) -> Result<
    Resolved,
    Failure,
> {
    match rest {
        Ok(r) => Ok(Resolved { bindings: front + r.bindings, flags: r.flags }),
        Err(e) => Err(e),
    }
}

/// The walk of the module that declares `name` as its own, with `depth`
/// levels of imports allowed inside it.
pub open spec fn active_module(
    files: Seq<ParsedFileView>,
    name: Seq<u8>,
    flags: Set<Seq<u8>>,
    depth: nat,
) -> Result<Resolved, Failure> {
    match import_target(files, name) {
        Some(target) => active_list(files, files[target].document.resources, 0, flags, depth),
        None => Err(Failure::MissingImport(name)),
    }
}

/// The flags that the module which declares `name` as its own can test.
pub open spec fn reachable_module(files: Seq<ParsedFileView>, name: Seq<u8>, depth: nat) -> Result<
    Seq<Seq<u8>>,
    Failure,
> {
    match import_target(files, name) {
        Some(target) => reachable_list(files, files[target].document.resources, 0, depth),
        None => Err(Failure::MissingImport(name)),
    }
}

/// The walk of one resource under `flags`, with `depth` more levels of
/// imports allowed. A definition adds its flag; a binding gives itself; a
/// conditional gives its first branch if its flag is defined, else its
/// second branch if it has one; an import gives the walk of the whole
/// module, with the flags as they are, and hands back the flags that the
/// module leaves.
pub open spec fn active_one(
    files: Seq<ParsedFileView>,
    r: ResourceView,
    flags: Set<Seq<u8>>,
    depth: nat,
) -> Result<Resolved, Failure>
    decreases depth, r, 0nat,
{
    match r {
        ResourceView::Def(name) => Ok(Resolved { bindings: Seq::empty(), flags: flags.insert(name) }),
        ResourceView::Binding(b) => Ok(Resolved { bindings: seq![b], flags }),
        ResourceView::IfDef(d) => if flags.contains(d.name) {
            active_list(files, d.resources, 0, flags, depth)
        } else {
            match d.else_branch {
                Some(second) => active_list(files, second, 0, flags, depth),
                None => Ok(Resolved { bindings: Seq::empty(), flags }),
            }
        },
        ResourceView::OilImport(name) => if depth == 0 {
            Err(Failure::TooDeep)
        } else {
            match import_target(files, name) {
                Some(target) => active_list(
                    files,
                    files[target].document.resources,
                    0,
                    flags,
                    (depth - 1) as nat,
                ),
                None => Err(Failure::MissingImport(name)),
            }
        },
    }
}

/// The walk of the resources of `list` from position `from` on.
pub open spec fn active_list(
    files: Seq<ParsedFileView>,
    list: Seq<ResourceView>,
    from: int,
    flags: Set<Seq<u8>>,
    depth: nat,
) -> Result<Resolved, Failure>
    decreases depth, list, list.len() - from,
{
    if 0 <= from < list.len() {
        match active_one(files, list[from], flags, depth) {
            Ok(first) => after(first.bindings, active_list(files, list, from + 1, first.flags, depth)),
            Err(e) => Err(e),
        }
    } else {
        Ok(Resolved { bindings: Seq::empty(), flags })
    }
}

/// The walk of the entry files that `entries` selects, from position
/// `from` on, one behind the other with the flags handed on. A selector
/// that leads to no file is passed over.
pub open spec fn active_entries(
    files: Seq<ParsedFileView>,
    entries: Seq<Seq<u8>>,
    from: int,
    flags: Set<Seq<u8>>,
    depth: nat,
) -> Result<Resolved, Failure>
    decreases entries.len() - from,
{
    if 0 <= from < entries.len() {
        match entry_target(files, entries[from]) {
            Some(target) => match active_list(
                files,
                files[target].document.resources,
                0,
                flags,
                depth,
            ) {
                Ok(first) => after(
                    first.bindings,
                    active_entries(files, entries, from + 1, first.flags, depth),
                ),
                Err(e) => Err(e),
            },
            None => active_entries(files, entries, from + 1, flags, depth),
        }
    } else {
        Ok(Resolved { bindings: Seq::empty(), flags })
    }
}

/// The flags that one resource can test, whatever flags are defined: those
/// of its conditionals, of both their branches, and of every module that
/// it imports, in the order of a walk that enters everything.
pub open spec fn reachable_one(files: Seq<ParsedFileView>, r: ResourceView, depth: nat) -> Result<
    Seq<Seq<u8>>,
    Failure,
>
    decreases depth, r, 0nat,
{
    match r {
        ResourceView::Def(_) => Ok(Seq::empty()),
        ResourceView::Binding(_) => Ok(Seq::empty()),
        ResourceView::IfDef(d) => match reachable_list(files, d.resources, 0, depth) {
            Ok(first) => match d.else_branch {
                Some(branch) => match reachable_list(files, branch, 0, depth) {
                    Ok(second) => Ok(seq![d.name] + first + second),
                    Err(e) => Err(e),
                },
                None => Ok(seq![d.name] + first),
            },
            Err(e) => Err(e),
        },
        ResourceView::OilImport(name) => if depth == 0 {
            Err(Failure::TooDeep)
        } else {
            match import_target(files, name) {
                Some(target) => reachable_list(
                    files,
                    files[target].document.resources,
                    0,
                    (depth - 1) as nat,
                ),
                None => Err(Failure::MissingImport(name)),
            }
        },
    }
}

/// The flags that the resources of `list` from position `from` on can
/// test.
pub open spec fn reachable_list(
    files: Seq<ParsedFileView>,
    list: Seq<ResourceView>,
    from: int,
    depth: nat,
) -> Result<Seq<Seq<u8>>, Failure>
    decreases depth, list, list.len() - from,
{
    if 0 <= from < list.len() {
        match reachable_one(files, list[from], depth) {
            Ok(first) => match reachable_list(files, list, from + 1, depth) {
                Ok(rest) => Ok(first + rest),
                Err(e) => Err(e),
            },
            Err(e) => Err(e),
        }
    } else {
        Ok(Seq::empty())
    }
}

/// The flags that the entry files which `entries` selects can test, from
/// position `from` on.
pub open spec fn reachable_entries(
    files: Seq<ParsedFileView>,
    entries: Seq<Seq<u8>>,
    from: int,
    depth: nat,
) -> Result<Seq<Seq<u8>>, Failure>
    decreases entries.len() - from,
{
    if 0 <= from < entries.len() {
        match entry_target(files, entries[from]) {
            Some(target) => match reachable_list(files, files[target].document.resources, 0, depth) {
                Ok(first) => match reachable_entries(files, entries, from + 1, depth) {
                    Ok(rest) => Ok(first + rest),
                    Err(e) => Err(e),
                },
                Err(e) => Err(e),
            },
            None => reachable_entries(files, entries, from + 1, depth),
        }
    } else {
        Ok(Seq::empty())
    }
}

/// The selectors of `entries` that lead to no file, in order.
pub open spec fn invalid_entries(files: Seq<ParsedFileView>, entries: Seq<Seq<u8>>) -> Seq<Seq<u8>> {
    entries.filter(|name: Seq<u8>| entry_target(files, name) is None)
}

/// The flags that the walk of one resource tests: those of the
/// conditionals that it comes to, in the branches that it takes and in the
/// modules that it enters.
pub open spec fn tested_one(
    files: Seq<ParsedFileView>,
    r: ResourceView,
    flags: Set<Seq<u8>>,
    depth: nat,
) -> Set<Seq<u8>>
    decreases depth, r, 0nat,
{
    match r {
        ResourceView::Def(_) => Set::empty(),
        ResourceView::Binding(_) => Set::empty(),
        ResourceView::IfDef(d) => if flags.contains(d.name) {
            tested_list(files, d.resources, 0, flags, depth).insert(d.name)
        } else {
            match d.else_branch {
                Some(second) => tested_list(files, second, 0, flags, depth).insert(d.name),
                None => set![d.name],
            }
        },
        ResourceView::OilImport(name) => if depth == 0 {
            Set::empty()
        } else {
            match import_target(files, name) {
                Some(target) => tested_list(
                    files,
                    files[target].document.resources,
                    0,
                    flags,
                    (depth - 1) as nat,
                ),
                None => Set::empty(),
            }
        },
    }
}

/// The flags that the walk of `list` from position `from` on tests. Where
/// the walk is abandoned, these are the flags tested up to there.
pub open spec fn tested_list(
    files: Seq<ParsedFileView>,
    list: Seq<ResourceView>,
    from: int,
    flags: Set<Seq<u8>>,
    depth: nat,
) -> Set<Seq<u8>>
    decreases depth, list, list.len() - from,
{
    if 0 <= from < list.len() {
        tested_one(files, list[from], flags, depth).union(
            match active_one(files, list[from], flags, depth) {
                Ok(first) => tested_list(files, list, from + 1, first.flags, depth),
                Err(_) => Set::empty(),
            },
        )
    } else {
        Set::empty()
    }
}

/// The flags that the walk of the entry files tests, from position `from`
/// of `entries` on.
pub open spec fn tested_entries(
    files: Seq<ParsedFileView>,
    entries: Seq<Seq<u8>>,
    from: int,
    flags: Set<Seq<u8>>,
    depth: nat,
) -> Set<Seq<u8>>
    decreases entries.len() - from,
{
    if 0 <= from < entries.len() {
        match entry_target(files, entries[from]) {
            Some(target) => tested_list(files, files[target].document.resources, 0, flags, depth).union(
                match active_list(files, files[target].document.resources, 0, flags, depth) {
                    Ok(first) => tested_entries(files, entries, from + 1, first.flags, depth),
                    Err(_) => Set::empty(),
                },
            ),
            None => tested_entries(files, entries, from + 1, flags, depth),
        }
    } else {
        Set::empty()
    }
}

} // verus!
