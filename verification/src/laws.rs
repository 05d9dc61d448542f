//! Laws of resolution, proved of the definitions that the queries'
//! contracts are stated in.

use vstd::prelude::*;
use crate::ast::{BindingView, IfDefView, ResourceView};
use crate::grammar::{conditional, import, negated, resource, space, word, Parsed};
use crate::scan::{lemma_text_len, text, ByteClass};
use crate::order::{ascending, binding_keys, lemma_ascending_unique, lemma_key_order};
use crate::resolve::{
    active_entries, active_list, active_one, after, entry_target, import_target,
    reachable_entries, reachable_list, reachable_one, tested_entries, tested_list, tested_one,
    Failure, ParsedFileView, Resolved,
};

verus! {

/// A walk only adds flags: what is defined before a resource is walked is
/// defined behind it.
pub proof fn lemma_flags_grow_one(
    files: Seq<ParsedFileView>,
    r: ResourceView,
    flags: Set<Seq<u8>>,
    depth: nat,
)
    ensures
        active_one(files, r, flags, depth) matches Ok(walk) ==> flags.subset_of(walk.flags),
    decreases depth, r, 0nat,
{
    match r {
        ResourceView::IfDef(d) => {
            lemma_flags_grow(files, d.resources, 0, flags, depth);
            if let Some(second) = d.else_branch {
                lemma_flags_grow(files, second, 0, flags, depth);
            }
        },
        ResourceView::OilImport(name) => {
            if depth > 0 {
                if let Some(target) = import_target(files, name) {
                    lemma_flags_grow(
                        files,
                        files[target].document.resources,
                        0,
                        flags,
                        (depth - 1) as nat,
                    );
                }
            }
        },
        _ => {},
    }
}

/// A walk only adds flags: what is defined before a list is walked is
/// defined behind it.
pub proof fn lemma_flags_grow(
    files: Seq<ParsedFileView>,
    list: Seq<ResourceView>,
    from: int,
    flags: Set<Seq<u8>>,
    depth: nat,
)
    ensures
        active_list(files, list, from, flags, depth) matches Ok(walk) ==> flags.subset_of(
            walk.flags,
        ),
    decreases depth, list, list.len() - from,
{
    if 0 <= from < list.len() {
        lemma_flags_grow_one(files, list[from], flags, depth);
        if let Ok(first) = active_one(files, list[from], flags, depth) {
            lemma_flags_grow(files, list, from + 1, first.flags, depth);
        }
    }
}

/// The limit on the depth of imports is felt only where it is reached: a
/// walk of a resource that is not abandoned for its depth gives the same
/// with any greater depth.
pub proof fn lemma_depth_one(
    files: Seq<ParsedFileView>,
    r: ResourceView,
    flags: Set<Seq<u8>>,
    depth: nat,
    deeper: nat,
)
    requires
        depth <= deeper,
        active_one(files, r, flags, depth) != Err::<Resolved, _>(Failure::TooDeep),
    ensures
        active_one(files, r, flags, deeper) == active_one(files, r, flags, depth),
    decreases depth, r, 0nat,
{
    match r {
        ResourceView::IfDef(d) => {
            if flags.contains(d.name) {
                lemma_depth(files, d.resources, 0, flags, depth, deeper);
            } else if let Some(second) = d.else_branch {
                lemma_depth(files, second, 0, flags, depth, deeper);
            }
        },
        ResourceView::OilImport(name) => {
            if let Some(target) = import_target(files, name) {
                lemma_depth(
                    files,
                    files[target].document.resources,
                    0,
                    flags,
                    (depth - 1) as nat,
                    (deeper - 1) as nat,
                );
            }
        },
        _ => {},
    }
}

/// The limit on the depth of imports is felt only where it is reached: a
/// walk of a list that is not abandoned for its depth gives the same with
/// any greater depth.
pub proof fn lemma_depth(
    files: Seq<ParsedFileView>,
    list: Seq<ResourceView>,
    from: int,
    flags: Set<Seq<u8>>,
    depth: nat,
    deeper: nat,
)
    requires
        depth <= deeper,
        active_list(files, list, from, flags, depth) != Err::<Resolved, _>(Failure::TooDeep),
    ensures
        active_list(files, list, from, flags, deeper) == active_list(
            files,
            list,
            from,
            flags,
            depth,
        ),
    decreases depth, list, list.len() - from,
{
    if 0 <= from < list.len() {
        lemma_depth_one(files, list[from], flags, depth, deeper);
        if let Ok(first) = active_one(files, list[from], flags, depth) {
            lemma_depth(files, list, from + 1, first.flags, depth, deeper);
        }
    }
}

/// The limit on the depth of imports is felt only where it is reached: a
/// query that is not abandoned for its depth gives the same with any
/// greater depth.
pub proof fn lemma_depth_of_query(
    files: Seq<ParsedFileView>,
    entries: Seq<Seq<u8>>,
    from: int,
    flags: Set<Seq<u8>>,
    depth: nat,
    deeper: nat,
)
    requires
        depth <= deeper,
        active_entries(files, entries, from, flags, depth) != Err::<Resolved, _>(Failure::TooDeep),
    ensures
        active_entries(files, entries, from, flags, deeper) == active_entries(
            files,
            entries,
            from,
            flags,
            depth,
        ),
    decreases entries.len() - from,
{
    if 0 <= from < entries.len() {
        match entry_target(files, entries[from]) {
            Some(target) => {
                let list = files[target].document.resources;
                lemma_depth(files, list, 0, flags, depth, deeper);
                if let Ok(first) = active_list(files, list, 0, flags, depth) {
                    lemma_depth_of_query(files, entries, from + 1, first.flags, depth, deeper);
                }
            },
            None => {
                lemma_depth_of_query(files, entries, from + 1, flags, depth, deeper);
            },
        }
    }
}

/// A walk can be cut anywhere: the walk of a list is the walk of its first
/// `cut` resources, followed by the walk of the others under the flags
/// that the first part leaves.
pub proof fn lemma_walk_splits(
    files: Seq<ParsedFileView>,
    list: Seq<ResourceView>,
    from: int,
    cut: int,
    flags: Set<Seq<u8>>,
    depth: nat,
)
    requires
        0 <= from <= cut <= list.len(),
    ensures
        active_list(files, list, from, flags, depth) == match active_list(
            files,
            list.take(cut),
            from,
            flags,
            depth,
        ) {
            Ok(walk) => after(walk.bindings, active_list(files, list, cut, walk.flags, depth)),
            Err(e) => Err(e),
        },
    decreases cut - from,
{
    let head = list.take(cut);
    let rest = active_list(files, list, cut, flags, depth);
    if from == cut {
        if let Ok(w) = rest {
            assert(Seq::<BindingView>::empty() + w.bindings =~= w.bindings);
        }
    } else {
        assert(head[from] == list[from]);
        if let Ok(first) = active_one(files, list[from], flags, depth) {
            lemma_walk_splits(files, list, from + 1, cut, first.flags, depth);
            if let Ok(w) = active_list(files, head, from + 1, first.flags, depth) {
                if let Ok(x) = active_list(files, list, cut, w.flags, depth) {
                    assert(first.bindings + (w.bindings + x.bindings) =~= (first.bindings
                        + w.bindings) + x.bindings);
                }
            }
        }
    }
}

/// A definition holds behind the place where it stands: a walk that
/// passes `#define F` ends with `F` defined.
pub proof fn lemma_defined_behind(
    files: Seq<ParsedFileView>,
    list: Seq<ResourceView>,
    from: int,
    at: int,
    flags: Set<Seq<u8>>,
    depth: nat,
)
    requires
        0 <= from <= at < list.len(),
        list[at] is Def,
    ensures
        active_list(files, list, from, flags, depth) matches Ok(walk) ==> walk.flags.contains(
            list[at]->Def_0,
        ),
    decreases at - from,
{
    if let Ok(first) = active_one(files, list[from], flags, depth) {
        if from == at {
            lemma_flags_grow(files, list, from + 1, first.flags, depth);
        } else {
            lemma_defined_behind(files, list, from + 1, at, first.flags, depth);
        }
    }
}

/// A definition reaches the conditionals behind it: where `#define F`
/// stands in a document somewhere before a conditional on `F`, the walk
/// takes the first branch of the conditional when it comes to it, whether
/// or not `F` was defined from outside.
pub proof fn lemma_definition_reaches_later_test(
    files: Seq<ParsedFileView>,
    list: Seq<ResourceView>,
    definition: int,
    test: int,
    flags: Set<Seq<u8>>,
    depth: nat,
)
    requires
        0 <= definition < test < list.len(),
        list[definition] is Def,
        list[test] matches ResourceView::IfDef(d) && d.name == list[definition]->Def_0,
    ensures
        active_list(files, list.take(test), 0, flags, depth) matches Ok(before)
            ==> active_list(files, list, 0, flags, depth) == after(
            before.bindings,
            match active_list(files, list[test]->IfDef_0.resources, 0, before.flags, depth) {
                Ok(branch) => after(
                    branch.bindings,
                    active_list(files, list, test + 1, branch.flags, depth),
                ),
                Err(e) => Err(e),
            },
        ),
{
    if let Ok(before) = active_list(files, list.take(test), 0, flags, depth) {
        lemma_walk_splits(files, list, 0, test, flags, depth);
        assert(list.take(test)[definition] == list[definition]);
        lemma_defined_behind(files, list.take(test), 0, definition, flags, depth);
        let d = list[test]->IfDef_0;
        assert(before.flags.contains(d.name));
        assert(active_one(files, list[test], before.flags, depth) == active_list(
            files,
            d.resources,
            0,
            before.flags,
            depth,
        ));
        assert(active_list(files, list, test, before.flags, depth) == match active_one(
            files,
            list[test],
            before.flags,
            depth,
        ) {
            Ok(first) => after(
                first.bindings,
                active_list(files, list, test + 1, first.flags, depth),
            ),
            Err(e) => Err(e),
        });
    }
}

/// A definition does not reach back: a conditional on `F` without a
/// second branch gives nothing when `F` is not defined as the walk comes
/// to it, whatever stands behind it, `#define F` included. The walk goes
/// on behind the conditional with the flags unchanged.
pub proof fn lemma_definition_misses_earlier_test(
    files: Seq<ParsedFileView>,
    list: Seq<ResourceView>,
    test: int,
    flags: Set<Seq<u8>>,
    depth: nat,
)
    requires
        0 <= test < list.len(),
        list[test] matches ResourceView::IfDef(d) && d.else_branch is None,
    ensures
        active_list(files, list.take(test), 0, flags, depth) matches Ok(before) ==> (
        !before.flags.contains(list[test]->IfDef_0.name) ==> active_list(
            files,
            list,
            0,
            flags,
            depth,
        ) == after(before.bindings, active_list(files, list, test + 1, before.flags, depth))),
{
    if let Ok(before) = active_list(files, list.take(test), 0, flags, depth) {
        if !before.flags.contains(list[test]->IfDef_0.name) {
            lemma_walk_splits(files, list, 0, test, flags, depth);
            let skipped = Resolved { bindings: Seq::empty(), flags: before.flags };
            assert(active_one(files, list[test], before.flags, depth) == Ok::<
                _,
                Failure,
            >(skipped));
            let behind = active_list(files, list, test + 1, before.flags, depth);
            assert(active_list(files, list, test, before.flags, depth) == after(
                skipped.bindings,
                behind,
            ));
            if let Ok(w) = behind {
                assert(Seq::<BindingView>::empty() + w.bindings =~= w.bindings);
            }
        }
    }
}

/// `#ifndef` is none of the words that are looked for before it.
proof fn lemma_ifndef_is_no_other_word()
    ensures
        text("#ifndef") != text("@group"),
        text("#ifndef") != text("#define"),
        text("#ifndef") != text("#ifdef"),
{
    assert(text("#ifndef").len() == 7) by {
        lemma_text_len("#ifndef");
        reveal_strlit("#ifndef");
    }
    assert(text("@group").len() == 6) by {
        lemma_text_len("@group");
        reveal_strlit("@group");
    }
    assert(text("#ifdef").len() == 6) by {
        lemma_text_len("#ifdef");
        reveal_strlit("#ifdef");
    }
    assert(text("#ifndef")[1] == 'i' as u8) by {
        reveal_strlit("#ifndef");
        vstd::utf8::is_ascii_chars_encode_utf8("#ifndef"@);
    }
    assert(text("#define")[1] == 'd' as u8) by {
        reveal_strlit("#define");
        vstd::utf8::is_ascii_chars_encode_utf8("#define"@);
    }
}

/// What is read for `#ifndef` is the conditional with its branches in
/// each other's place.
pub proof fn lemma_ifndef_reads_negated(s: Seq<u8>, pos: int)
    requires
        word(s, pos) matches Some(end) && s.subrange(pos, end) == text("#ifndef"),
    ensures
        resource(s, pos) == conditional(s, word(s, pos)->0).map(
            |d: IfDefView| ResourceView::IfDef(negated(d)),
        ).then_ignore(s),
{
    lemma_ifndef_is_no_other_word();
}

/// An import is read for its module name alone: the word behind the white
/// space. The alias or the symbols that follow it are no part of what is
/// read, so they cannot change what the import resolves to.
pub proof fn lemma_import_reads_name_only(s: Seq<u8>, pos: int)
    ensures
        import(s, pos) matches Parsed::Match { value, .. } ==> value == s.subrange(
            space(s, pos),
            crate::scan::run_end(s, space(s, pos), ByteClass::Word),
        ),
{
}

/// `#ifndef` inverts: of `#ifndef F block #else other #endif` the walk
/// takes `other` where `F` is defined, and `block` where it is not.
pub proof fn lemma_ifndef_inverts(
    files: Seq<ParsedFileView>,
    name: Seq<u8>,
    block: Seq<ResourceView>,
    other: Seq<ResourceView>,
    flags: Set<Seq<u8>>,
    depth: nat,
)
    ensures
        active_one(
            files,
            ResourceView::IfDef(
                negated(IfDefView { name, resources: block, else_branch: Some(other) }),
            ),
            flags,
            depth,
        ) == if flags.contains(name) {
            active_list(files, other, 0, flags, depth)
        } else {
            active_list(files, block, 0, flags, depth)
        },
{
}

/// Flags go into an import: a module imported behind `#define F` is
/// walked with `F` defined.
pub proof fn lemma_flags_enter_import(
    files: Seq<ParsedFileView>,
    flag: Seq<u8>,
    module: Seq<u8>,
    flags: Set<Seq<u8>>,
    depth: nat,
)
    requires
        depth > 0,
        import_target(files, module) is Some,
    ensures
        active_list(
            files,
            seq![ResourceView::Def(flag), ResourceView::OilImport(module)],
            0,
            flags,
            depth,
        ) == active_list(
            files,
            files[import_target(files, module)->0].document.resources,
            0,
            flags.insert(flag),
            (depth - 1) as nat,
        ),
{
    let list = seq![ResourceView::Def(flag), ResourceView::OilImport(module)];
    let defined = flags.insert(flag);
    let inside = active_list(
        files,
        files[import_target(files, module)->0].document.resources,
        0,
        defined,
        (depth - 1) as nat,
    );
    assert(active_one(files, list[0], flags, depth) == Ok::<_, Failure>(
        Resolved { bindings: Seq::empty(), flags: defined },
    ));
    assert(active_one(files, list[1], defined, depth) == inside);
    match inside {
        Ok(w) => {
            assert(active_list(files, list, 2, w.flags, depth) == Ok::<_, Failure>(
                Resolved { bindings: Seq::empty(), flags: w.flags },
            ));
            assert(w.bindings + Seq::<BindingView>::empty() =~= w.bindings);
            assert(active_list(files, list, 1, defined, depth) == inside);
            assert(Seq::<BindingView>::empty() + w.bindings =~= w.bindings);
        },
        Err(e) => {
            assert(active_list(files, list, 1, defined, depth) == inside);
        },
    }
}

/// Flags come out of an import: what stands behind an import is walked
/// under the flags that the imported module leaves.
pub proof fn lemma_flags_leave_import(
    files: Seq<ParsedFileView>,
    module: Seq<u8>,
    next: ResourceView,
    flags: Set<Seq<u8>>,
    depth: nat,
)
    requires
        active_one(files, ResourceView::OilImport(module), flags, depth) is Ok,
    ensures
        active_list(files, seq![ResourceView::OilImport(module), next], 0, flags, depth) == after(
            active_one(files, ResourceView::OilImport(module), flags, depth)->Ok_0.bindings,
            active_one(
                files,
                next,
                active_one(files, ResourceView::OilImport(module), flags, depth)->Ok_0.flags,
                depth,
            ),
        ),
{
    let list = seq![ResourceView::OilImport(module), next];
    let inside = active_one(files, ResourceView::OilImport(module), flags, depth)->Ok_0;
    let behind = active_one(files, next, inside.flags, depth);
    assert(list[0] == ResourceView::OilImport(module) && list[1] == next);
    match behind {
        Ok(w) => {
            assert(active_list(files, list, 2, w.flags, depth) == Ok::<_, Failure>(
                Resolved { bindings: Seq::empty(), flags: w.flags },
            ));
            assert(w.bindings + Seq::<BindingView>::empty() =~= w.bindings);
            assert(active_list(files, list, 1, inside.flags, depth) == behind);
        },
        Err(e) => {
            assert(active_list(files, list, 1, inside.flags, depth) == behind);
        },
    }
}

/// The answer of a query is determined by its inputs: two ascending lists
/// that hold the bindings of the same walk are the same list. The walk
/// depends on the flags as a set, so the order in which they were given
/// does not matter.
pub proof fn lemma_answer_determined(
    files: Seq<ParsedFileView>,
    entries: Seq<Seq<u8>>,
    flags: Set<Seq<u8>>,
    depth: nat,
    first: Seq<BindingView>,
    second: Seq<BindingView>,
)
    requires
        active_entries(files, entries, 0, flags, depth) matches Ok(walk) && first.to_set()
            == walk.bindings.to_set() && second.to_set() == walk.bindings.to_set(),
        ascending(binding_keys(first)),
        ascending(binding_keys(second)),
    ensures
        first == second,
{
    let a = binding_keys(first);
    let b = binding_keys(second);
    assert forall|k: crate::order::SortKey| a.to_set().contains(k) <==> b.to_set().contains(k) by {
        if a.contains(k) {
            let i = choose|i: int| 0 <= i < a.len() && a[i] == k;
            assert(first.to_set().contains(first[i]));
            assert(second.contains(first[i]));
            let j = choose|j: int| 0 <= j < second.len() && second[j] == first[i];
            assert(b[j] == k);
        }
        if b.contains(k) {
            let i = choose|i: int| 0 <= i < b.len() && b[i] == k;
            assert(second.to_set().contains(second[i]));
            assert(first.contains(second[i]));
            let j = choose|j: int| 0 <= j < first.len() && first[j] == second[i];
            assert(a[j] == k);
        }
    }
    assert(a.to_set() =~= b.to_set());
    lemma_ascending_unique(a, b);
    assert forall|i: int| 0 <= i < first.len() implies first[i] == second[i] by {
        assert(a[i] == b[i]);
    }
    assert(first.len() == a.len() && second.len() == b.len());
    assert(first =~= second);
}

/// An ascending list holds no binding twice.
pub proof fn lemma_ascending_once(list: Seq<BindingView>)
    requires
        ascending(binding_keys(list)),
    ensures
        forall|i: int, j: int| 0 <= i < j < list.len() ==> list[i] != list[j],
{
    assert forall|i: int, j: int| 0 <= i < j < list.len() implies list[i] != list[j] by {
        let keys = binding_keys(list);
        assert(crate::order::key_lt(keys[i], keys[j]));
        lemma_key_order(keys[i], keys[i], keys[i]);
    }
}

/// Every flag that the walk of a resource tests is among those that the
/// resource can test.
pub proof fn lemma_tested_one_reachable(
    files: Seq<ParsedFileView>,
    r: ResourceView,
    flags: Set<Seq<u8>>,
    depth: nat,
)
    ensures
        reachable_one(files, r, depth) matches Ok(names) ==> tested_one(
            files,
            r,
            flags,
            depth,
        ).subset_of(names.to_set()),
    decreases depth, r, 0nat,
{
    if let Ok(names) = reachable_one(files, r, depth) {
        match r {
            ResourceView::IfDef(d) => {
                let first = reachable_list(files, d.resources, 0, depth)->Ok_0;
                lemma_tested_list_reachable(files, d.resources, 0, flags, depth);
                assert(names[0] == d.name);
                match d.else_branch {
                    Some(branch) => {
                        let second = reachable_list(files, branch, 0, depth)->Ok_0;
                        lemma_tested_list_reachable(files, branch, 0, flags, depth);
                        assert(names =~= seq![d.name] + first + second);
                        assert forall|x: Seq<u8>|
                            tested_one(files, r, flags, depth).contains(x) implies names.contains(
                            x,
                        ) by {
                            if x != d.name {
                                if flags.contains(d.name) {
                                    assert(first.to_set().contains(x));
                                    let i = choose|i: int| 0 <= i < first.len() && first[i] == x;
                                    assert(names[1 + i] == x);
                                } else {
                                    assert(second.to_set().contains(x));
                                    let i = choose|i: int| 0 <= i < second.len() && second[i] == x;
                                    assert(names[1 + first.len() + i] == x);
                                }
                            }
                        }
                    },
                    None => {
                        assert(names =~= seq![d.name] + first);
                        assert forall|x: Seq<u8>|
                            tested_one(files, r, flags, depth).contains(x) implies names.contains(
                            x,
                        ) by {
                            if x != d.name {
                                assert(first.to_set().contains(x));
                                let i = choose|i: int| 0 <= i < first.len() && first[i] == x;
                                assert(names[1 + i] == x);
                            }
                        }
                    },
                }
            },
            ResourceView::OilImport(name) => {
                let target = import_target(files, name)->0;
                lemma_tested_list_reachable(
                    files,
                    files[target].document.resources,
                    0,
                    flags,
                    (depth - 1) as nat,
                );
            },
            _ => {},
        }
    }
}

/// Every flag that the walk of a list tests is among those that the list
/// can test.
pub proof fn lemma_tested_list_reachable(
    files: Seq<ParsedFileView>,
    list: Seq<ResourceView>,
    from: int,
    flags: Set<Seq<u8>>,
    depth: nat,
)
    ensures
        reachable_list(files, list, from, depth) matches Ok(names) ==> tested_list(
            files,
            list,
            from,
            flags,
            depth,
        ).subset_of(names.to_set()),
    decreases depth, list, list.len() - from,
{
    if let Ok(names) = reachable_list(files, list, from, depth) {
        if 0 <= from < list.len() {
            let first = reachable_one(files, list[from], depth)->Ok_0;
            let rest = reachable_list(files, list, from + 1, depth)->Ok_0;
            lemma_tested_one_reachable(files, list[from], flags, depth);
            if let Ok(walk) = active_one(files, list[from], flags, depth) {
                lemma_tested_list_reachable(files, list, from + 1, walk.flags, depth);
            }
            assert forall|x: Seq<u8>|
                tested_list(files, list, from, flags, depth).contains(x) implies names.contains(
                x,
            ) by {
                if tested_one(files, list[from], flags, depth).contains(x) {
                    assert(first.to_set().contains(x));
                    let i = choose|i: int| 0 <= i < first.len() && first[i] == x;
                    assert(names[i] == x);
                } else {
                    assert(rest.to_set().contains(x));
                    let i = choose|i: int| 0 <= i < rest.len() && rest[i] == x;
                    assert(names[first.len() + i] == x);
                }
            }
        }
    }
}

/// The reachable flags cover the tested ones: whatever flags are enabled,
/// every flag that the walk of the entry files tests is among the flags
/// that are reachable from the same entry files.
pub proof fn lemma_tested_flags_reachable(
    files: Seq<ParsedFileView>,
    entries: Seq<Seq<u8>>,
    from: int,
    flags: Set<Seq<u8>>,
    depth: nat,
)
    ensures
        reachable_entries(files, entries, from, depth) matches Ok(names) ==> tested_entries(
            files,
            entries,
            from,
            flags,
            depth,
        ).subset_of(names.to_set()),
    decreases entries.len() - from,
{
    if let Ok(names) = reachable_entries(files, entries, from, depth) {
        if 0 <= from < entries.len() {
            match entry_target(files, entries[from]) {
                Some(target) => {
                    let list = files[target].document.resources;
                    let first = reachable_list(files, list, 0, depth)->Ok_0;
                    let rest = reachable_entries(files, entries, from + 1, depth)->Ok_0;
                    lemma_tested_list_reachable(files, list, 0, flags, depth);
                    if let Ok(walk) = active_list(files, list, 0, flags, depth) {
                        lemma_tested_flags_reachable(files, entries, from + 1, walk.flags, depth);
                    }
                    assert forall|x: Seq<u8>|
                        tested_entries(files, entries, from, flags, depth).contains(
                            x,
                        ) implies names.contains(x) by {
                        if tested_list(files, list, 0, flags, depth).contains(x) {
                            assert(first.to_set().contains(x));
                            let i = choose|i: int| 0 <= i < first.len() && first[i] == x;
                            assert(names[i] == x);
                        } else {
                            assert(rest.to_set().contains(x));
                            let i = choose|i: int| 0 <= i < rest.len() && rest[i] == x;
                            assert(names[first.len() + i] == x);
                        }
                    }
                },
                None => {
                    lemma_tested_flags_reachable(files, entries, from + 1, flags, depth);
                },
            }
        }
    }
}

/// Whether two sets of flags hold the same flags of `scope`.
pub open spec fn agree_on(first: Set<Seq<u8>>, second: Set<Seq<u8>>, scope: Set<Seq<u8>>) -> bool {
    forall|name: Seq<u8>| scope.contains(name) ==> (first.contains(name) <==> second.contains(name))
}

/// Whether two walks both end, give the same bindings, and leave flags
/// that agree on `scope`.
pub open spec fn same_walk(
    first: Result<Resolved, Failure>,
    second: Result<Resolved, Failure>,
    scope: Set<Seq<u8>>,
) -> bool {
    first matches Ok(a) && second matches Ok(b) && a.bindings == b.bindings && agree_on(
        a.flags,
        b.flags,
        scope,
    )
}

/// The names of a part of a list are names of the list.
proof fn lemma_part_in_scope(
    whole: Seq<Seq<u8>>,
    part: Seq<Seq<u8>>,
    offset: int,
    scope: Set<Seq<u8>>,
)
    requires
        0 <= offset,
        offset + part.len() <= whole.len(),
        forall|i: int| 0 <= i < part.len() ==> whole[offset + i] == part[i],
        whole.to_set().subset_of(scope),
    ensures
        part.to_set().subset_of(scope),
{
    assert forall|x: Seq<u8>| part.to_set().contains(x) implies scope.contains(x) by {
        let i = choose|i: int| 0 <= i < part.len() && part[i] == x;
        assert(whole[offset + i] == x);
        assert(whole.to_set().contains(x));
    }
}

/// Only the flags that a resource can test matter to its walk: under two
/// sets of flags that agree on them, the walk gives the same bindings.
pub proof fn lemma_one_sees_reachable_flags(
    files: Seq<ParsedFileView>,
    r: ResourceView,
    first: Set<Seq<u8>>,
    second: Set<Seq<u8>>,
    scope: Set<Seq<u8>>,
    depth: nat,
)
    requires
        reachable_one(files, r, depth) matches Ok(names) && names.to_set().subset_of(scope),
        agree_on(first, second, scope),
    ensures
        same_walk(
            active_one(files, r, first, depth),
            active_one(files, r, second, depth),
            scope,
        ),
    decreases depth, r, 0nat,
{
    let names = reachable_one(files, r, depth)->Ok_0;
    match r {
        ResourceView::IfDef(d) => {
            let then_names = reachable_list(files, d.resources, 0, depth)->Ok_0;
            assert(names[0] == d.name);
            assert(names.to_set().contains(d.name));
            lemma_part_in_scope(names, then_names, 1, scope);
            lemma_list_sees_reachable_flags(files, d.resources, 0, first, second, scope, depth);
            if let Some(branch) = d.else_branch {
                let else_names = reachable_list(files, branch, 0, depth)->Ok_0;
                lemma_part_in_scope(names, else_names, 1 + then_names.len() as int, scope);
                lemma_list_sees_reachable_flags(files, branch, 0, first, second, scope, depth);
            }
        },
        ResourceView::OilImport(name) => {
            let target = import_target(files, name)->0;
            lemma_list_sees_reachable_flags(
                files,
                files[target].document.resources,
                0,
                first,
                second,
                scope,
                (depth - 1) as nat,
            );
        },
        ResourceView::Def(name) => {
            assert(agree_on(first.insert(name), second.insert(name), scope));
        },
        ResourceView::Binding(_) => {},
    }
}

/// Only the flags that a list can test matter to its walk.
pub proof fn lemma_list_sees_reachable_flags(
    files: Seq<ParsedFileView>,
    list: Seq<ResourceView>,
    from: int,
    first: Set<Seq<u8>>,
    second: Set<Seq<u8>>,
    scope: Set<Seq<u8>>,
    depth: nat,
)
    requires
        reachable_list(files, list, from, depth) matches Ok(names) && names.to_set().subset_of(
            scope,
        ),
        agree_on(first, second, scope),
    ensures
        same_walk(
            active_list(files, list, from, first, depth),
            active_list(files, list, from, second, depth),
            scope,
        ),
    decreases depth, list, list.len() - from,
{
    if 0 <= from < list.len() {
        let names = reachable_list(files, list, from, depth)->Ok_0;
        let head = reachable_one(files, list[from], depth)->Ok_0;
        let rest = reachable_list(files, list, from + 1, depth)->Ok_0;
        lemma_part_in_scope(names, head, 0, scope);
        lemma_part_in_scope(names, rest, head.len() as int, scope);
        lemma_one_sees_reachable_flags(files, list[from], first, second, scope, depth);
        let a = active_one(files, list[from], first, depth)->Ok_0;
        let b = active_one(files, list[from], second, depth)->Ok_0;
        lemma_list_sees_reachable_flags(files, list, from + 1, a.flags, b.flags, scope, depth);
    }
}

/// Only the reachable flags matter: under two sets of flags that agree on
/// the flags reachable from the entry files, the walk of the entry files
/// gives the same bindings.
pub proof fn lemma_entries_see_reachable_flags(
    files: Seq<ParsedFileView>,
    entries: Seq<Seq<u8>>,
    from: int,
    first: Set<Seq<u8>>,
    second: Set<Seq<u8>>,
    scope: Set<Seq<u8>>,
    depth: nat,
)
    requires
        reachable_entries(files, entries, from, depth) matches Ok(names)
            && names.to_set().subset_of(scope),
        agree_on(first, second, scope),
    ensures
        same_walk(
            active_entries(files, entries, from, first, depth),
            active_entries(files, entries, from, second, depth),
            scope,
        ),
    decreases entries.len() - from,
{
    if 0 <= from < entries.len() {
        let names = reachable_entries(files, entries, from, depth)->Ok_0;
        match entry_target(files, entries[from]) {
            Some(target) => {
                let list = files[target].document.resources;
                let head = reachable_list(files, list, 0, depth)->Ok_0;
                let rest = reachable_entries(files, entries, from + 1, depth)->Ok_0;
                lemma_part_in_scope(names, head, 0, scope);
                lemma_part_in_scope(names, rest, head.len() as int, scope);
                lemma_list_sees_reachable_flags(files, list, 0, first, second, scope, depth);
                let a = active_list(files, list, 0, first, depth)->Ok_0;
                let b = active_list(files, list, 0, second, depth)->Ok_0;
                lemma_entries_see_reachable_flags(
                    files,
                    entries,
                    from + 1,
                    a.flags,
                    b.flags,
                    scope,
                    depth,
                );
            },
            None => {
                lemma_entries_see_reachable_flags(
                    files,
                    entries,
                    from + 1,
                    first,
                    second,
                    scope,
                    depth,
                );
            },
        }
    }
}

} // verus!
