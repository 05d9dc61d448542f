//! The corpus of source files, the registry of parsed documents, and the
//! two queries over it: the flags that can matter, and the bindings that
//! are active under a set of flags.

use vstd::prelude::*;
use crate::ast::{
    resources_view, Binding, BindingView, IfDef, Resource, ResourceView, WgslFile,
};
use crate::flags::FlagSet;
use crate::order::{
    ascending, binding_keys, copy_binding, gather, keys_of, lemma_concat_to_set,
    lemma_same_bindings, lemma_same_names, name_keys,
};
use crate::parser::{complete_document, parse_document, ParseError};
use crate::render::{lines_of, push_line};
use crate::resolve::{
    active_entries, active_list, active_module, active_one, after, entry_target, import_target,
    invalid_entries, last_named, names_of, reachable_entries, reachable_list, reachable_module,
    reachable_one, Failure, ParsedFileView, Resolved,
};
use crate::scan::{copy_range, slice_is};

verus! {

/// A source file as it was read: its path, its base name where it has one,
/// and its content.
pub struct SourceFile {
    pub path: Vec<u8>,
    pub file_name: Option<Vec<u8>>,
    pub content: Vec<u8>,
}

/// Model of a [`SourceFile`].
pub struct SourceFileView {
    pub path: Seq<u8>,
    pub file_name: Option<Seq<u8>>,
    pub content: Seq<u8>,
}

/// The model of an optional text.
pub open spec fn text_view(t: Option<Vec<u8>>) -> Option<Seq<u8>> {
    match t {
        Some(v) => Some(v@),
        None => None,
    }
}

impl View for SourceFile {
    type V = SourceFileView;

    open spec fn view(&self) -> SourceFileView {
        SourceFileView {
            path: self.path@,
            file_name: text_view(self.file_name),
            content: self.content@,
        }
    }
}

/// The source files of a corpus, in the order in which they were added,
/// each path once.
pub struct WgslFiles {
    files: Vec<SourceFile>,
}

/// Whether no two files of the list have the same path.
pub open spec fn distinct_paths(files: Seq<SourceFileView>) -> bool {
    forall|i: int, j: int| 0 <= i < j < files.len() ==> files[i].path != files[j].path
}

/// Whether a file of the list has the path `path`.
pub open spec fn has_path(files: Seq<SourceFileView>, path: Seq<u8>) -> bool {
    exists|i: int| 0 <= i < files.len() && files[i].path == path
}

impl View for WgslFiles {
    type V = Seq<SourceFileView>;

    closed spec fn view(&self) -> Seq<SourceFileView> {
        Seq::new(self.files@.len(), |i: int| self.files@[i]@)
    }
}

impl WgslFiles {
    #[verifier::type_invariant]
    spec fn each_path_once(self) -> bool {
        distinct_paths(self@)
    }

    /// A corpus without files.
    pub fn new() -> (r: Self)
        ensures
            r@ == Seq::<SourceFileView>::empty(),
    {
        let r = WgslFiles { files: Vec::new() };
        assert(r@ =~= Seq::<SourceFileView>::empty());
        r
    }

    /// The number of files.
    pub fn len(&self) -> (n: usize)
        ensures
            n == self@.len(),
    {
        self.files.len()
    }

    /// The file at position `index`.
    pub fn file(&self, index: usize) -> (r: &SourceFile)
        requires
            index < self@.len(),
        ensures
            r@ == self@[index as int],
    {
        &self.files[index]
    }

    /// Tests whether a file with the path `path` was added.
    pub fn contains_path(&self, path: &[u8]) -> (r: bool)
        ensures
            r == has_path(self@, path@),
    {
        let mut i: usize = 0;
        while i < self.files.len()
            invariant
                i <= self.files@.len(),
                forall|k: int| 0 <= k < i ==> self@[k].path != path@,
            decreases self.files@.len() - i,
        {
            let p = &self.files[i].path;
            assert(p@.subrange(0, p@.len() as int) =~= p@);
            if slice_is(p.as_slice(), 0, p.len(), path) {
                assert(self@[i as int].path == path@);
                return true;
            }
            i = i + 1;
        }
        false
    }

    /// Adds a file, unless one with the same path was added before, and
    /// says whether it was added.
    pub fn insert(&mut self, path: Vec<u8>, file_name: Option<Vec<u8>>, content: Vec<u8>) -> (r:
        bool)
        ensures
            r == !has_path(old(self)@, path@),
            r ==> final(self)@ == old(self)@.push(
                SourceFileView { path: path@, file_name: text_view(file_name), content: content@ },
            ),
            !r ==> final(self)@ == old(self)@,
            distinct_paths(final(self)@),
    {
        proof {
            use_type_invariant(&*self);
        }
        if self.contains_path(path.as_slice()) {
            return false;
        }
        let ghost before = self@;
        let mut taken = WgslFiles::new();
        core::mem::swap(self, &mut taken);
        assert(taken@ == before);
        let WgslFiles { files: mut files } = taken;
        let file = SourceFile { path, file_name, content };
        files.push(file);
        proof {
            let now = Seq::new(files@.len(), |i: int| files@[i]@);
            assert(now =~= before.push(file@));
            assert forall|i: int, j: int| 0 <= i < j < now.len() implies now[i].path
                != now[j].path by {
                if j < before.len() {
                    assert(before[i].path != before[j].path);
                } else {
                    assert(now[i] == before[i]);
                }
            }
        }
        *self = WgslFiles { files };
        true
    }
}

impl Default for WgslFiles {
    fn default() -> (r: Self)
        ensures
            r@ == Seq::<SourceFileView>::empty(),
    {
        WgslFiles::new()
    }
}

/// A parsed file in the registry: where it came from and its document.
pub struct ParsedFile {
    pub path: Vec<u8>,
    pub file_name: Option<Vec<u8>>,
    pub document: WgslFile,
}

impl View for ParsedFile {
    type V = ParsedFileView;

    open spec fn view(&self) -> ParsedFileView {
        ParsedFileView {
            path: self.path@,
            file_name: text_view(self.file_name),
            document: self.document@,
        }
    }
}

/// The registry: every file of a corpus with its document, in the order of
/// the corpus. A later file wins where two share a module name or a base
/// name.
pub struct ParsedWgslFiles {
    files: Vec<ParsedFile>,
}

impl View for ParsedWgslFiles {
    type V = Seq<ParsedFileView>;

    closed spec fn view(&self) -> Seq<ParsedFileView> {
        Seq::new(self.files@.len(), |i: int| self.files@[i]@)
    }
}

/// The file of a corpus that could not be parsed, and why.
#[derive(Clone, Copy, Debug, PartialEq, Eq, Structural)]
pub struct ParseFailure {
    /// The position of the file in the corpus.
    pub file: usize,
    pub error: ParseError,
}

/// What parsing the files of a corpus from position `from` on gives: the
/// documents in order, or the first file that is refused.
pub open spec fn parsed_from(files: Seq<SourceFileView>, from: int) -> Result<
    Seq<ParsedFileView>,
    ParseFailure,
>
    decreases files.len() - from,
{
    if 0 <= from < files.len() {
        match complete_document(files[from].content) {
            Ok(document) => match parsed_from(files, from + 1) {
                Ok(rest) => Ok(
                    seq![
                        ParsedFileView {
                            path: files[from].path,
                            file_name: files[from].file_name,
                            document,
                        },
                    ] + rest,
                ),
                Err(e) => Err(e),
            },
            Err(error) => Err(ParseFailure { file: from as usize, error }),
        }
    } else {
        Ok(Seq::empty())
    }
}

/// Copies an optional text.
fn copy_text(t: &Option<Vec<u8>>) -> (r: Option<Vec<u8>>)
    ensures
        text_view(r) == text_view(*t),
{
    match t {
        Some(v) => {
            assert(v@.subrange(0, v@.len() as int) =~= v@);
            Some(copy_range(v.as_slice(), 0, v.len()))
        },
        None => None,
    }
}

impl WgslFiles {
    /// Parses every file of the corpus and builds the registry.
    ///
    /// Fails on the first file, in the order of the corpus, that is not a
    /// document from its first byte to its last.
    pub fn parse_all(&self) -> (r: Result<ParsedWgslFiles, ParseFailure>)
        ensures
            match r {
                Ok(parsed) => parsed_from(self@, 0) == Ok::<_, ParseFailure>(parsed@),
                Err(e) => parsed_from(self@, 0) == Err::<Seq<ParsedFileView>, _>(e),
            },
    {
        let mut parsed: Vec<ParsedFile> = Vec::new();
        let mut i: usize = 0;
        while i < self.files.len()
            invariant
                i <= self.files@.len(),
                parsed@.len() == i,
                parsed_from(self@, 0) == match parsed_from(self@, i as int) {
                    Ok(rest) => Ok::<_, ParseFailure>(
                        Seq::new(parsed@.len(), |k: int| parsed@[k]@) + rest,
                    ),
                    Err(e) => Err(e),
                },
            decreases self.files@.len() - i,
        {
            let file = &self.files[i];
            assert(self@[i as int] == file@);
            match parse_document(file.content.as_slice()) {
                Ok(document) => {
                    let ghost before = Seq::new(parsed@.len(), |k: int| parsed@[k]@);
                    let entry = ParsedFile {
                        path: copy_range(file.path.as_slice(), 0, file.path.len()),
                        file_name: copy_text(&file.file_name),
                        document,
                    };
                    proof {
                        assert(file.path@.subrange(0, file.path@.len() as int) =~= file.path@);
                    }
                    parsed.push(entry);
                    proof {
                        let now = Seq::new(parsed@.len(), |k: int| parsed@[k]@);
                        assert(now =~= before.push(entry@));
                        if let Ok(rest) = parsed_from(self@, i + 1) {
                            assert(before + (seq![entry@] + rest) =~= now + rest);
                        }
                    }
                },
                Err(error) => {
                    return Err(ParseFailure { file: i, error });
                },
            }
            i = i + 1;
        }
        let r = ParsedWgslFiles { files: parsed };
        proof {
            assert(r@ + Seq::<ParsedFileView>::empty() =~= r@);
        }
        Ok(r)
    }
}

/// Tests whether an optional text is the text `name`.
fn is_text(t: &Option<Vec<u8>>, name: &[u8]) -> (r: bool)
    ensures
        r == (text_view(*t) == Some(name@)),
{
    match t {
        Some(v) => {
            assert(v@.subrange(0, v@.len() as int) =~= v@);
            slice_is(v.as_slice(), 0, v.len(), name)
        },
        None => false,
    }
}

impl ParsedWgslFiles {
    /// The selectors that lead to a file: the base names of the files, in
    /// ascending order, each once.
    pub fn file_names(&self) -> (r: Vec<Vec<u8>>)
        ensures
            ascending(name_keys(texts(r@))),
            forall|name: Seq<u8>|
                texts(r@).contains(name) <==> exists|i: int|
                    0 <= i < self@.len() && self@[i].file_name == Some(name),
    {
        let mut sorted: Vec<Vec<u8>> = Vec::new();
        let mut i: usize = 0;
        assert(keys_of(sorted@).to_set() =~= Set::empty());
        while i < self.files.len()
            invariant
                i <= self.files@.len(),
                ascending(keys_of(sorted@)),
                forall|k: crate::order::SortKey|
                    keys_of(sorted@).to_set().contains(k) <==> exists|j: int|
                        0 <= j < i && self@[j].file_name == Some(k.text) && k
                            == crate::order::name_key(k.text),
            decreases self.files@.len() - i,
        {
            let ghost had = keys_of(sorted@).to_set();
            match &self.files[i].file_name {
                Some(name) => {
                    assert(self@[i as int].file_name == Some(name@));
                    crate::order::insert_sorted(&mut sorted, copy_name(name.as_slice()));
                    assert(keys_of(sorted@).to_set() == had.insert(crate::order::name_key(name@)));
                },
                None => {
                    assert(self@[i as int].file_name is None);
                },
            }
            i = i + 1;
        }
        proof {
            assert(name_keys(texts(sorted@)) =~= keys_of(sorted@));
            assert forall|name: Seq<u8>|
                texts(sorted@).contains(name) <==> exists|i: int|
                    0 <= i < self@.len() && self@[i].file_name == Some(name) by {
                let k = crate::order::name_key(name);
                if texts(sorted@).contains(name) {
                    let j = choose|j: int| 0 <= j < texts(sorted@).len() && texts(sorted@)[j] == name;
                    assert(keys_of(sorted@)[j] == k);
                    assert(keys_of(sorted@).to_set().contains(k));
                }
                if exists|i: int| 0 <= i < self@.len() && self@[i].file_name == Some(name) {
                    assert(keys_of(sorted@).to_set().contains(k));
                    let j = choose|j: int| 0 <= j < keys_of(sorted@).len() && keys_of(sorted@)[j] == k;
                    assert(texts(sorted@)[j] == name);
                }
            }
        }
        sorted
    }

    /// The number of files.
    pub fn len(&self) -> (n: usize)
        ensures
            n == self@.len(),
    {
        self.files.len()
    }

    /// The file at position `index`.
    pub fn file(&self, index: usize) -> (r: &ParsedFile)
        requires
            index < self@.len(),
        ensures
            r@ == self@[index as int],
    {
        &self.files[index]
    }

    /// Finds the last file whose module name, or whose base name where
    /// `by_file_name` is set, is `name`.
    fn last_index(&self, name: &[u8], by_file_name: bool) -> (r: Option<usize>)
        ensures
            match r {
                Some(i) => i < self@.len() && last_named(names_of(self@, by_file_name), name@)
                    == Some(i as int),
                None => last_named(names_of(self@, by_file_name), name@) is None,
            },
    {
        let ghost names = names_of(self@, by_file_name);
        let mut i: usize = self.files.len();
        assert(names.take(i as int) =~= names);
        while i > 0
            invariant
                i <= self.files@.len(),
                names == names_of(self@, by_file_name),
                last_named(names, name@) == last_named(names.take(i as int), name@),
            decreases i,
        {
            i = i - 1;
            proof {
                let upto = names.take(i + 1);
                assert(upto.last() == names[i as int]);
                assert(upto.drop_last() =~= names.take(i as int));
            }
            let file = &self.files[i];
            let found = if by_file_name {
                is_text(&file.file_name, name)
            } else {
                is_text(&file.document.pub_name, name)
            };
            if found {
                return Some(i);
            }
        }
        None
    }

    /// Finds the file that an import of the module `name` leads to.
    pub fn import_index(&self, name: &[u8]) -> (r: Option<usize>)
        ensures
            match r {
                Some(i) => import_target(self@, name@) == Some(i as int) && i < self@.len(),
                None => import_target(self@, name@) is None,
            },
    {
        self.last_index(name, false)
    }

    /// Finds the file that the entry selector `name` leads to.
    pub fn entry_index(&self, name: &[u8]) -> (r: Option<usize>)
        ensures
            match r {
                Some(i) => entry_target(self@, name@) == Some(i as int) && i < self@.len(),
                None => entry_target(self@, name@) is None,
            },
    {
        self.last_index(name, true)
    }
}

/// Why a query is refused.
#[derive(Debug, PartialEq, Eq)]
pub enum ResolveError {
    /// An import names a module that no file of the registry declares.
    MissingImport { name: Vec<u8> },
    /// An import stands deeper inside other imports than the limit allows.
    TooDeep,
}

impl View for ResolveError {
    type V = Failure;

    open spec fn view(&self) -> Failure {
        match self {
            ResolveError::MissingImport { name } => Failure::MissingImport(name@),
            ResolveError::TooDeep => Failure::TooDeep,
        }
    }
}

/// The resolution context of one query: the flags that are defined at
/// this point of the walk, and the registry that imports are looked up in.
pub struct DefList<'a> {
    pub def_list: FlagSet,
    pub files: &'a ParsedWgslFiles,
}

/// The models of a list of bindings, in order.
pub open spec fn bindings_view(list: Seq<Binding>) -> Seq<BindingView> {
    Seq::new(list.len(), |i: int| list[i]@)
}

/// The models of a list of texts, in order.
pub open spec fn texts(list: Seq<Vec<u8>>) -> Seq<Seq<u8>> {
    Seq::new(list.len(), |i: int| list[i]@)
}

/// Whether `r`, with the flags `flags` left behind, is what the walk
/// `walk` gives.
pub open spec fn walked(
    r: Result<Vec<Binding>, ResolveError>,
    flags: Set<Seq<u8>>,
    walk: Result<Resolved, Failure>,
) -> bool {
    match r {
        Ok(list) => walk == Ok::<_, Failure>(Resolved { bindings: bindings_view(list@), flags }),
        Err(e) => walk == Err::<Resolved, _>(e@),
    }
}

/// Whether `r` holds the flags that `can` lists.
pub open spec fn reached(
    r: Result<Vec<Vec<u8>>, ResolveError>,
    can: Result<Seq<Seq<u8>>, Failure>,
) -> bool {
    match r {
        Ok(names) => can == Ok::<_, Failure>(texts(names@)),
        Err(e) => can == Err::<Seq<Seq<u8>>, _>(e@),
    }
}

/// Copies a text.
fn copy_name(name: &[u8]) -> (r: Vec<u8>)
    ensures
        r@ == name@,
{
    assert(name@.subrange(0, name@.len() as int) =~= name@);
    copy_range(name, 0, name.len())
}

/// Walks the resources of `list` in order and collects the active
/// bindings.
fn bindings_of<'a>(list: &Vec<Resource>, def_list: &mut DefList<'a>, depth: usize) -> (r: Result<
    Vec<Binding>,
    ResolveError,
>)
    ensures
        walked(
            r,
            final(def_list).def_list@,
            active_list(
                old(def_list).files@,
                resources_view(list@),
                0,
                old(def_list).def_list@,
                depth as nat,
            ),
        ),
        final(def_list).files == old(def_list).files,
    decreases 4 * depth + 1, *list, 1nat,
{
    let ghost files = def_list.files@;
    let ghost start = def_list.def_list@;
    let ghost views = resources_view(list@);
    let ghost registry = def_list.files;
    let mut out: Vec<Binding> = Vec::new();
    let mut i: usize = 0;
    assert(bindings_view(out@) =~= Seq::empty());
    assert(active_list(files, views, 0, start, depth as nat) == after(
        bindings_view(out@),
        active_list(files, views, 0, start, depth as nat),
    )) by {
        if let Ok(w) = active_list(files, views, 0, start, depth as nat) {
            assert(Seq::<BindingView>::empty() + w.bindings =~= w.bindings);
        }
    }
    while i < list.len()
        invariant
            i <= list@.len(),
            views == resources_view(list@),
            def_list.files == registry,
            registry == old(def_list).files,
            start == old(def_list).def_list@,
            files == registry@,
            active_list(files, views, 0, start, depth as nat) == after(
                bindings_view(out@),
                active_list(files, views, i as int, def_list.def_list@, depth as nat),
            ),
        decreases list@.len() - i,
    {
        let ghost flags = def_list.def_list@;
        let ghost so_far = bindings_view(out@);
        proof {
            vstd::std_specs::vec::axiom_vec_index_decreases(*list, i as int);
        }
        match list[i].bindings_for(def_list, depth) {
            Ok(mut found) => {
                let ghost first = bindings_view(found@);
                out.append(&mut found);
                proof {
                    assert(bindings_view(out@) =~= so_far + first);
                    let rest = active_list(files, views, i + 1, def_list.def_list@, depth as nat);
                    assert(active_list(files, views, i as int, flags, depth as nat) == after(
                        first,
                        rest,
                    ));
                    if let Ok(w) = rest {
                        assert(so_far + (first + w.bindings) =~= (so_far + first) + w.bindings);
                    }
                }
            },
            Err(e) => {
                return Err(e);
            },
        }
        i = i + 1;
    }
    proof {
        assert(bindings_view(out@) + Seq::<BindingView>::empty() =~= bindings_view(out@));
    }
    Ok(out)
}

impl Resource {
    /// The bindings that are active in this resource, with the flags of
    /// `def_list` as they stand and `depth` more levels of imports
    /// allowed. The flags that the walk defines are added to `def_list`.
    pub fn bindings_for<'a>(&self, def_list: &mut DefList<'a>, depth: usize) -> (r: Result<
        Vec<Binding>,
        ResolveError,
    >)
        ensures
            walked(
                r,
                final(def_list).def_list@,
                active_one(old(def_list).files@, self@, old(def_list).def_list@, depth as nat),
            ),
            final(def_list).files == old(def_list).files,
        decreases 4 * depth + 1, *self, 0nat,
    {
        match self {
            Resource::IfDef(ifdef) => ifdef.bindings_for(def_list, depth),
            Resource::Binding(b) => {
                let mut out: Vec<Binding> = Vec::new();
                out.push(copy_binding(b));
                assert(bindings_view(out@) =~= seq![b@]);
                Ok(out)
            },
            Resource::OilImport(import_name) => {
                if depth == 0 {
                    Err(ResolveError::TooDeep)
                } else {
                    def_list.bindings_for(import_name.as_slice(), depth - 1)
                }
            },
            Resource::Def(define) => {
                def_list.def_list.insert(copy_name(define.as_slice()));
                let out: Vec<Binding> = Vec::new();
                assert(bindings_view(out@) =~= Seq::empty());
                Ok(out)
            },
        }
    }
}

impl IfDef {
    /// The bindings that are active in the branch that the flags of
    /// `def_list` select: the first if the flag is defined, else the
    /// second if there is one.
    pub fn bindings_for<'a>(&self, def_list: &mut DefList<'a>, depth: usize) -> (r: Result<
        Vec<Binding>,
        ResolveError,
    >)
        ensures
            walked(
                r,
                final(def_list).def_list@,
                active_one(
                    old(def_list).files@,
                    ResourceView::IfDef(self@),
                    old(def_list).def_list@,
                    depth as nat,
                ),
            ),
            final(def_list).files == old(def_list).files,
        decreases 4 * depth + 1, *self, 0nat,
    {
        if def_list.def_list.contains(self.name.as_slice()) {
            bindings_of(&self.resources, def_list, depth)
        } else {
            match &self.else_branch {
                Some(else_branch) => bindings_of(else_branch, def_list, depth),
                None => {
                    let out: Vec<Binding> = Vec::new();
                    assert(bindings_view(out@) =~= Seq::empty());
                    Ok(out)
                },
            }
        }
    }
}

impl WgslFile {
    /// The bindings that are active in this document.
    pub fn bindings_for<'a>(&self, def_list: &mut DefList<'a>, depth: usize) -> (r: Result<
        Vec<Binding>,
        ResolveError,
    >)
        ensures
            walked(
                r,
                final(def_list).def_list@,
                active_list(
                    old(def_list).files@,
                    self@.resources,
                    0,
                    old(def_list).def_list@,
                    depth as nat,
                ),
            ),
            final(def_list).files == old(def_list).files,
        decreases 4 * depth + 2, *self, 0nat,
    {
        bindings_of(&self.resources, def_list, depth)
    }
}

impl<'a> DefList<'a> {
    /// The bindings that are active in the module `import_name`, with
    /// `depth` levels of imports allowed inside it.
    pub fn bindings_for(&mut self, import_name: &[u8], depth: usize) -> (r: Result<
        Vec<Binding>,
        ResolveError,
    >)
        ensures
            walked(
                r,
                final(self).def_list@,
                active_module(old(self).files@, import_name@, old(self).def_list@, depth as nat),
            ),
            final(self).files == old(self).files,
        decreases 4 * depth + 4, *old(self).files, 0nat,
    {
        let files = self.files;
        files.bindings_for(import_name, &mut self.def_list, depth)
    }
}

impl ParsedWgslFiles {
    /// The bindings that are active in the module that declares
    /// `import_path` as its own name, under the flags of `def_list` and
    /// with `depth` levels of imports allowed inside it. The flags that
    /// the walk defines are added to `def_list`.
    pub fn bindings_for(&self, import_path: &[u8], def_list: &mut FlagSet, depth: usize) -> (r:
        Result<Vec<Binding>, ResolveError>)
        ensures
            walked(
                r,
                final(def_list)@,
                active_module(self@, import_path@, old(def_list)@, depth as nat),
            ),
        decreases 4 * depth + 3, *self, 0nat,
    {
        match self.import_index(import_path) {
            Some(target) => {
                let mut flags = FlagSet::new();
                core::mem::swap(def_list, &mut flags);
                let mut context = DefList { def_list: flags, files: self };
                let file = &self.files[target];
                assert(file@ == self@[target as int]);
                let r = file.document.bindings_for(&mut context, depth);
                *def_list = context.def_list;
                r
            },
            None => Err(ResolveError::MissingImport { name: copy_name(import_path) }),
        }
    }
}

/// Collects the flags that the resources of `list` can test.
fn defines_of(list: &Vec<Resource>, files: &ParsedWgslFiles, depth: usize) -> (r: Result<
    Vec<Vec<u8>>,
    ResolveError,
>)
    ensures
        reached(r, reachable_list(files@, resources_view(list@), 0, depth as nat)),
    decreases 2 * depth + 1, *list, 1nat,
{
    let ghost views = resources_view(list@);
    let mut out: Vec<Vec<u8>> = Vec::new();
    let mut i: usize = 0;
    assert(texts(out@) =~= Seq::empty());
    assert(reachable_list(files@, views, 0, depth as nat) matches Ok(w) ==> Seq::<
        Seq<u8>,
    >::empty() + w =~= w);
    while i < list.len()
        invariant
            i <= list@.len(),
            views == resources_view(list@),
            reachable_list(files@, views, 0, depth as nat) == match reachable_list(
                files@,
                views,
                i as int,
                depth as nat,
            ) {
                Ok(rest) => Ok::<_, Failure>(texts(out@) + rest),
                Err(e) => Err(e),
            },
        decreases list@.len() - i,
    {
        let ghost so_far = texts(out@);
        proof {
            vstd::std_specs::vec::axiom_vec_index_decreases(*list, i as int);
        }
        match list[i].defines(files, depth) {
            Ok(mut found) => {
                let ghost first = texts(found@);
                out.append(&mut found);
                proof {
                    assert(texts(out@) =~= so_far + first);
                    if let Ok(rest) = reachable_list(files@, views, i + 1, depth as nat) {
                        assert(so_far + (first + rest) =~= (so_far + first) + rest);
                    }
                }
            },
            Err(e) => {
                return Err(e);
            },
        }
        i = i + 1;
    }
    proof {
        assert(texts(out@) + Seq::<Seq<u8>>::empty() =~= texts(out@));
    }
    Ok(out)
}

impl Resource {
    /// The flags that this resource can test, whatever flags are defined,
    /// with `depth` more levels of imports allowed.
    pub fn defines(&self, files: &ParsedWgslFiles, depth: usize) -> (r: Result<
        Vec<Vec<u8>>,
        ResolveError,
    >)
        ensures
            reached(r, reachable_one(files@, self@, depth as nat)),
        decreases 2 * depth + 1, *self, 0nat,
    {
        match self {
            Resource::IfDef(ifdef) => ifdef.defines(files, depth),
            Resource::Binding(_) => {
                let out: Vec<Vec<u8>> = Vec::new();
                assert(texts(out@) =~= Seq::empty());
                Ok(out)
            },
            Resource::OilImport(import_name) => {
                if depth == 0 {
                    Err(ResolveError::TooDeep)
                } else {
                    files.defines_named(import_name.as_slice(), depth - 1)
                }
            },
            Resource::Def(_) => {
                let out: Vec<Vec<u8>> = Vec::new();
                assert(texts(out@) =~= Seq::empty());
                Ok(out)
            },
        }
    }
}

impl IfDef {
    /// The flags that this conditional can test: its own, then those of
    /// its first branch, then those of its second.
    pub fn defines(&self, files: &ParsedWgslFiles, depth: usize) -> (r: Result<
        Vec<Vec<u8>>,
        ResolveError,
    >)
        ensures
            reached(r, reachable_one(files@, ResourceView::IfDef(self@), depth as nat)),
        decreases 2 * depth + 1, *self, 0nat,
    {
        let mut out: Vec<Vec<u8>> = Vec::new();
        out.push(copy_name(self.name.as_slice()));
        let mut then_branch = match defines_of(&self.resources, files, depth) {
            Ok(found) => found,
            Err(e) => {
                return Err(e);
            },
        };
        let ghost first = texts(then_branch@);
        out.append(&mut then_branch);
        assert(texts(out@) =~= seq![self.name@] + first);
        match &self.else_branch {
            Some(branch) => {
                let mut else_branch = match defines_of(branch, files, depth) {
                    Ok(found) => found,
                    Err(e) => {
                        return Err(e);
                    },
                };
                let ghost second = texts(else_branch@);
                out.append(&mut else_branch);
                assert(texts(out@) =~= seq![self.name@] + first + second);
            },
            None => {},
        }
        Ok(out)
    }
}

impl ParsedWgslFiles {
    /// The flags that the module which declares `import_path` as its own
    /// name can test, with `depth` levels of imports allowed inside it.
    pub fn defines_named(&self, import_path: &[u8], depth: usize) -> (r: Result<
        Vec<Vec<u8>>,
        ResolveError,
    >)
        ensures
            reached(r, reachable_module(self@, import_path@, depth as nat)),
        decreases 2 * depth + 2, *self, 0nat,
    {
        match self.import_index(import_path) {
            Some(target) => {
                let file = &self.files[target];
                assert(file@ == self@[target as int]);
                defines_of(&file.document.resources, self, depth)
            },
            None => Err(ResolveError::MissingImport { name: copy_name(import_path) }),
        }
    }
}

/// The bindings that a query gives: in ascending order, each once.
pub struct Bindings {
    bindings: Vec<Binding>,
}

impl View for Bindings {
    type V = Seq<BindingView>;

    closed spec fn view(&self) -> Seq<BindingView> {
        bindings_view(self.bindings@)
    }
}

impl Bindings {
    #[verifier::type_invariant]
    spec fn sorted(self) -> bool {
        ascending(keys_of(self.bindings@))
    }

    /// The number of bindings.
    pub fn len(&self) -> (n: usize)
        ensures
            n == self@.len(),
    {
        self.bindings.len()
    }

    /// The binding at position `index`.
    pub fn get(&self, index: usize) -> (r: &Binding)
        requires
            index < self@.len(),
        ensures
            r@ == self@[index as int],
    {
        &self.bindings[index]
    }

    /// The answer as text: a line for each binding, in order.
    pub fn to_text(&self) -> (r: Vec<u8>)
        ensures
            r@ == lines_of(self@),
    {
        let mut out: Vec<u8> = Vec::new();
        let mut i: usize = 0;
        assert(self@.take(0) =~= Seq::<BindingView>::empty());
        while i < self.bindings.len()
            invariant
                i <= self.bindings@.len(),
                out@ == lines_of(self@.take(i as int)),
            decreases self.bindings@.len() - i,
        {
            push_line(&mut out, &self.bindings[i]);
            proof {
                let upto = self@.take(i + 1);
                assert(upto.drop_last() =~= self@.take(i as int));
                assert(upto.last() == self.bindings@[i as int]@);
            }
            i = i + 1;
        }
        assert(self@.take(i as int) =~= self@);
        out
    }
}

/// What a query over entry files gives, with what is to be said of the
/// selectors.
pub struct Answer<T> {
    /// What was asked for.
    pub found: T,
    /// The selectors that lead to no file, in the order given.
    pub invalid: Vec<Vec<u8>>,
    /// Whether the valid selectors are to be listed: when a selector was
    /// invalid, or none was given.
    pub list_valid: bool,
}

/// Whether the selectors of an answer are those that `entries` asks for.
pub open spec fn selectors_answered<T>(
    answer: Answer<T>,
    files: Seq<ParsedFileView>,
    entries: Seq<Seq<u8>>,
) -> bool {
    &&& texts(answer.invalid@) == invalid_entries(files, entries)
    &&& answer.list_valid == (entries.len() == 0 || answer.invalid@.len() > 0)
}

/// The invalid selectors of a list grow with the list.
proof fn lemma_invalid_step(files: Seq<ParsedFileView>, entries: Seq<Seq<u8>>, i: int)
    requires
        0 <= i < entries.len(),
    ensures
        invalid_entries(files, entries.take(i + 1)) == if entry_target(files, entries[i]) is None {
            invalid_entries(files, entries.take(i)).push(entries[i])
        } else {
            invalid_entries(files, entries.take(i))
        },
        invalid_entries(files, entries.take(0)) == Seq::<Seq<u8>>::empty(),
{
    reveal(Seq::filter);
    assert(entries.take(i + 1).drop_last() =~= entries.take(i));
    assert(entries.take(i + 1).last() == entries[i]);
    assert(entries.take(0) =~= Seq::<Seq<u8>>::empty());
}

impl ParsedWgslFiles {
    /// The bindings that are active in the entry files which `file_paths`
    /// selects by base name, under the flags of `def_list`, with `depth`
    /// levels of imports allowed.
    ///
    /// The entry files are walked in the order given, and the flags that
    /// one defines hold for those behind it. On success `def_list` holds
    /// the flags as the walk leaves them; where the walk is abandoned it
    /// is left as it was.
    pub fn bindings(&self, def_list: &mut FlagSet, file_paths: &[Vec<u8>], depth: usize) -> (r:
        Result<Answer<Bindings>, ResolveError>)
        ensures
            match r {
                Ok(answer) => {
                    &&& active_entries(
                        self@,
                        texts(file_paths@),
                        0,
                        old(def_list)@,
                        depth as nat,
                    ) matches Ok(walk)
                    &&& final(def_list)@ == walk.flags
                    &&& answer.found@.to_set() == walk.bindings.to_set()
                    &&& ascending(binding_keys(answer.found@))
                    &&& selectors_answered(answer, self@, texts(file_paths@))
                },
                Err(e) => {
                    &&& active_entries(self@, texts(file_paths@), 0, old(def_list)@, depth as nat)
                        == Err::<Resolved, _>(e@)
                    &&& final(def_list)@ == old(def_list)@
                },
            },
    {
        let ghost entries = texts(file_paths@);
        let ghost start = def_list@;
        let ghost mut seen: Seq<BindingView> = Seq::empty();
        let mut context = DefList { def_list: def_list.copy(), files: self };
        let mut sorted: Vec<Binding> = Vec::new();
        let mut invalid: Vec<Vec<u8>> = Vec::new();
        let mut i: usize = 0;
        proof {
            assert(keys_of(sorted@) =~= binding_keys(seen));
            assert(texts(invalid@) =~= Seq::empty());
            if file_paths@.len() > 0 {
                lemma_invalid_step(self@, entries, 0);
            } else {
                reveal(Seq::filter);
                assert(entries.take(0) =~= entries);
            }
            if let Ok(w) = active_entries(self@, entries, 0, start, depth as nat) {
                assert(seen + w.bindings =~= w.bindings);
            }
        }
        while i < file_paths.len()
            invariant
                i <= file_paths@.len(),
                entries == texts(file_paths@),
                start == old(def_list)@,
                def_list@ == start,
                context.files@ == self@,
                active_entries(self@, entries, 0, start, depth as nat) == after(
                    seen,
                    active_entries(self@, entries, i as int, context.def_list@, depth as nat),
                ),
                ascending(keys_of(sorted@)),
                keys_of(sorted@).to_set() == binding_keys(seen).to_set(),
                texts(invalid@) == invalid_entries(self@, entries.take(i as int)),
            decreases file_paths@.len() - i,
        {
            let path = &file_paths[i];
            proof {
                lemma_invalid_step(self@, entries, i as int);
                assert(entries[i as int] == path@);
            }
            match self.entry_index(path.as_slice()) {
                Some(target) => {
                    let file = &self.files[target];
                    assert(file@ == self@[target as int]);
                    match file.document.bindings_for(&mut context, depth) {
                        Ok(found) => {
                            let ghost first = bindings_view(found@);
                            let ghost had = keys_of(sorted@).to_set();
                            proof {
                                assert(keys_of(found@) =~= binding_keys(first));
                                assert(binding_keys(seen + first) =~= binding_keys(seen)
                                    + binding_keys(first));
                                lemma_concat_to_set(binding_keys(seen), binding_keys(first));
                                if let Ok(w) = active_entries(
                                    self@,
                                    entries,
                                    i + 1,
                                    context.def_list@,
                                    depth as nat,
                                ) {
                                    assert(seen + (first + w.bindings) =~= (seen + first)
                                        + w.bindings);
                                }
                            }
                            gather(&mut sorted, found);
                            proof {
                                seen = seen + first;
                            }
                        },
                        Err(e) => {
                            return Err(e);
                        },
                    }
                },
                None => {
                    let ghost before = texts(invalid@);
                    invalid.push(copy_name(path.as_slice()));
                    assert(texts(invalid@) =~= before.push(path@));
                },
            }
            i = i + 1;
        }
        proof {
            assert(entries.take(i as int) =~= entries);
            assert(seen + Seq::<BindingView>::empty() =~= seen);
            assert(binding_keys(bindings_view(sorted@)) =~= keys_of(sorted@));
            lemma_same_bindings(bindings_view(sorted@), seen);
        }
        *def_list = context.def_list;
        let list_valid = file_paths.len() == 0 || invalid.len() > 0;
        Ok(Answer { found: Bindings { bindings: sorted }, invalid, list_valid })
    }

    /// The flags that the entry files which `file_paths` selects by base
    /// name can test, whatever flags are defined, with `depth` levels of
    /// imports allowed: in ascending order, each once.
    pub fn defines(&self, file_paths: &[Vec<u8>], depth: usize) -> (r: Result<
        Answer<Vec<Vec<u8>>>,
        ResolveError,
    >)
        ensures
            match r {
                Ok(answer) => {
                    &&& reachable_entries(self@, texts(file_paths@), 0, depth as nat) matches Ok(
                        names,
                    )
                    &&& texts(answer.found@).to_set() == names.to_set()
                    &&& ascending(name_keys(texts(answer.found@)))
                    &&& selectors_answered(answer, self@, texts(file_paths@))
                },
                Err(e) => reachable_entries(self@, texts(file_paths@), 0, depth as nat) == Err::<
                    Seq<Seq<u8>>,
                    _,
                >(e@),
            },
    {
        let ghost entries = texts(file_paths@);
        let ghost mut seen: Seq<Seq<u8>> = Seq::empty();
        let mut sorted: Vec<Vec<u8>> = Vec::new();
        let mut invalid: Vec<Vec<u8>> = Vec::new();
        let mut i: usize = 0;
        proof {
            assert(keys_of(sorted@) =~= name_keys(seen));
            assert(texts(invalid@) =~= Seq::empty());
            if file_paths@.len() > 0 {
                lemma_invalid_step(self@, entries, 0);
            } else {
                reveal(Seq::filter);
                assert(entries.take(0) =~= entries);
            }
            if let Ok(w) = reachable_entries(self@, entries, 0, depth as nat) {
                assert(seen + w =~= w);
            }
        }
        while i < file_paths.len()
            invariant
                i <= file_paths@.len(),
                entries == texts(file_paths@),
                reachable_entries(self@, entries, 0, depth as nat) == match reachable_entries(
                    self@,
                    entries,
                    i as int,
                    depth as nat,
                ) {
                    Ok(rest) => Ok::<_, Failure>(seen + rest),
                    Err(e) => Err(e),
                },
                ascending(keys_of(sorted@)),
                keys_of(sorted@).to_set() == name_keys(seen).to_set(),
                texts(invalid@) == invalid_entries(self@, entries.take(i as int)),
            decreases file_paths@.len() - i,
        {
            let path = &file_paths[i];
            proof {
                lemma_invalid_step(self@, entries, i as int);
                assert(entries[i as int] == path@);
            }
            match self.entry_index(path.as_slice()) {
                Some(target) => {
                    let file = &self.files[target];
                    assert(file@ == self@[target as int]);
                    match defines_of(&file.document.resources, self, depth) {
                        Ok(found) => {
                            let ghost first = texts(found@);
                            proof {
                                assert(keys_of(found@) =~= name_keys(first));
                                assert(name_keys(seen + first) =~= name_keys(seen) + name_keys(
                                    first,
                                ));
                                lemma_concat_to_set(name_keys(seen), name_keys(first));
                                if let Ok(w) = reachable_entries(
                                    self@,
                                    entries,
                                    i + 1,
                                    depth as nat,
                                ) {
                                    assert(seen + (first + w) =~= (seen + first) + w);
                                }
                            }
                            gather(&mut sorted, found);
                            proof {
                                seen = seen + first;
                            }
                        },
                        Err(e) => {
                            return Err(e);
                        },
                    }
                },
                None => {
                    let ghost before = texts(invalid@);
                    invalid.push(copy_name(path.as_slice()));
                    assert(texts(invalid@) =~= before.push(path@));
                },
            }
            i = i + 1;
        }
        proof {
            assert(entries.take(i as int) =~= entries);
            assert(seen + Seq::<Seq<u8>>::empty() =~= seen);
            assert(name_keys(texts(sorted@)) =~= keys_of(sorted@));
            lemma_same_names(texts(sorted@), seen);
        }
        let list_valid = file_paths.len() == 0 || invalid.len() > 0;
        Ok(Answer { found: sorted, invalid, list_valid })
    }
}

} // verus!
