//! Loading of the files that a program imports.
//!
//! The loader decides which file comes next; whoever drives it finds the files
//! and reads them.

use vstd::prelude::*;

use crate::directives;
use crate::names::NameSet;
use crate::text;

verus! {

/// A source file.
#[derive(Debug)]
pub struct SourceFile {
    pub path: String,
    pub source: String,
}

impl View for SourceFile {
    type V = (Seq<char>, Seq<char>);

    open spec fn view(&self) -> (Seq<char>, Seq<char>) {
        (self.path@, self.source@)
    }
}

/// The views of a list of files.
pub open spec fn files_view(v: Seq<SourceFile>) -> Seq<(Seq<char>, Seq<char>)> {
    v.map_values(|f: SourceFile| f@)
}

/// The imports of one file that are still to be loaded.
#[derive(Debug)]
struct Pending {
    from: String,
    paths: Vec<String>,
    next: usize,
}

impl Pending {
    /// The file, and the paths it still imports.
    spec fn model(self) -> (Seq<char>, Seq<Seq<char>>) {
        (self.from@, text::texts(self.paths@).skip(self.next as int))
    }
}

/// An import to be found: a path written in the file `from`.
#[derive(Debug)]
pub struct Request {
    pub from: String,
    pub path: String,
}

/// The state of a loader: the names of the files seen, the files loaded, and
/// the files whose imports are still to be loaded, innermost last.
#[verifier::ext_equal]
pub struct Loading {
    pub seen: Set<Seq<char>>,
    pub files: Seq<(Seq<char>, Seq<char>)>,
    pub pending: Seq<(Seq<char>, Seq<Seq<char>>)>,
}

/// The next import: the first one left of the innermost file that has one.
pub open spec fn next_import(pending: Seq<(Seq<char>, Seq<Seq<char>>)>) -> Option<
    (Seq<char>, Seq<char>),
>
    decreases pending.len(),
{
    if pending.len() == 0 {
        None
    } else {
        let (from, paths) = pending.last();
        if paths.len() == 0 {
            next_import(pending.drop_last())
        } else {
            Some((from, paths[0]))
        }
    }
}

/// What is left when the next import has been taken.
pub open spec fn without_next(pending: Seq<(Seq<char>, Seq<Seq<char>>)>) -> Seq<
    (Seq<char>, Seq<Seq<char>>),
>
    decreases pending.len(),
{
    if pending.len() == 0 {
        Seq::empty()
    } else {
        let (from, paths) = pending.last();
        if paths.len() == 0 {
            without_next(pending.drop_last())
        } else {
            pending.drop_last().push((from, paths.skip(1)))
        }
    }
}

/// Loads the imports of a program, each file once and the imports of a file
/// before what its importer imports next.
#[derive(Debug)]
pub struct ImportLoader {
    seen: NameSet,
    files: Vec<SourceFile>,
    pending: Vec<Pending>,
}

spec fn pending_model(s: Seq<Pending>) -> Seq<(Seq<char>, Seq<Seq<char>>)> {
    s.map_values(|p: Pending| p.model())
}

spec fn cursors_in_range(s: Seq<Pending>) -> bool {
    forall|i: int| 0 <= i < s.len() ==> (#[trigger] s[i]).next <= s[i].paths@.len()
}

impl ImportLoader {
    #[verifier::type_invariant]
    spec fn inv(self) -> bool {
        cursors_in_range(self.pending@)
    }

    /// The state of the loader.
    pub closed spec fn state(&self) -> Loading {
        Loading {
            seen: self.seen@,
            files: files_view(self.files@),
            pending: pending_model(self.pending@),
        }
    }

    /// A loader for the imports of an entry file.
    pub fn new(entry_path: &str, entry_source: &str) -> (r: Self)
        ensures
            r.state() == at_entry(entry_path@, directives::imports_of(entry_source@)),
    {
        let mut seen = NameSet::new();
        let _ = seen.insert(entry_path);
        let paths = directives::parse_imports(entry_source);
        let mut pending: Vec<Pending> = Vec::new();
        let first = Pending { from: entry_path.to_owned(), paths, next: 0 };
        pending.push(first);
        let r = ImportLoader { seen, files: Vec::new(), pending };
        proof {
            assert(text::texts(first.paths@).skip(0) =~= text::texts(first.paths@));
            assert(r.state().seen =~= set![entry_path@]);
            assert(r.state().files =~= Seq::empty());
            assert(r.state().pending =~= seq![
                (entry_path@, directives::imports_of(entry_source@)),
            ]);
        }
        r
    }

    /// The next import to be found, or `None` when all are loaded.
    pub fn next_request(&mut self) -> (r: Option<Request>)
        ensures
            match r {
                Some(req) => next_import(old(self).state().pending) == Some(
                    (req.from@, req.path@),
                ),
                None => next_import(old(self).state().pending) is None,
            },
            final(self).state() == (Loading {
                pending: without_next(old(self).state().pending),
                ..old(self).state()
            }),
    {
        proof {
            use_type_invariant(&*self);
        }
        let mut pending: Vec<Pending> = Vec::new();
        std::mem::swap(&mut pending, &mut self.pending);
        let ghost before = old(self).state();
        let mut found: Option<Request> = None;
        while pending.len() > 0
            invariant_except_break
                next_import(pending_model(pending@)) == next_import(before.pending),
                without_next(pending_model(pending@)) == without_next(before.pending),
                found is None,
            invariant
                cursors_in_range(pending@),
                cursors_in_range(self.pending@),
                before == old(self).state(),
                self.seen@ == before.seen,
                files_view(self.files@) == before.files,
            ensures
                pending_model(pending@) == without_next(before.pending),
                match found {
                    Some(req) => next_import(before.pending) == Some((req.from@, req.path@)),
                    None => next_import(before.pending) is None,
                },
            decreases pending@.len(),
        {
            let ghost current = pending_model(pending@);
            let top = match pending.pop() {
                Some(top) => top,
                None => {
                    break;
                },
            };
            assert(current.last() == top.model());
            assert(current.drop_last() =~= pending_model(pending@));
            if top.next < top.paths.len() {
                let path = top.paths[top.next].clone();
                let from = top.from.clone();
                assert(top.model().1[0] == path@);
                found = Some(Request { from, path });
                let ghost taken = top.model();
                let advanced = Pending { from: top.from, paths: top.paths, next: top.next + 1 };
                pending.push(advanced);
                assert(advanced.model().1 =~= taken.1.skip(1));
                assert(pending_model(pending@) =~= current.drop_last().push(advanced.model()));
                break;
            }
            assert(top.model().1.len() == 0);
        }
        self.pending = pending;
        assert(self.state().pending =~= without_next(before.pending));
        found
    }

    /// Note a file by its canonical name; tells whether it is new and so to be
    /// read.
    pub fn note(&mut self, canonical: &str) -> (new: bool)
        ensures
            new == !old(self).state().seen.contains(canonical@),
            final(self).state() == (Loading {
                seen: old(self).state().seen.insert(canonical@),
                ..old(self).state()
            }),
    {
        proof {
            use_type_invariant(&*self);
        }
        let mut seen = NameSet::new();
        std::mem::swap(&mut seen, &mut self.seen);
        let new = seen.insert(canonical);
        self.seen = seen;
        new
    }

    /// Take in a file that was read; its imports come next.
    pub fn provide(&mut self, path: &str, source: String)
        ensures
            final(self).state() == (Loading {
                seen: old(self).state().seen,
                files: old(self).state().files.push((path@, source@)),
                pending: old(self).state().pending.push(
                    (path@, directives::imports_of(source@)),
                ),
            }),
    {
        proof {
            use_type_invariant(&*self);
        }
        let ghost before = self.state();
        let paths = directives::parse_imports(source.as_str());
        let next = Pending { from: path.to_owned(), paths, next: 0 };
        let file = SourceFile { path: path.to_owned(), source };
        let mut pending: Vec<Pending> = Vec::new();
        std::mem::swap(&mut pending, &mut self.pending);
        pending.push(next);
        self.pending = pending;
        let mut files: Vec<SourceFile> = Vec::new();
        std::mem::swap(&mut files, &mut self.files);
        files.push(file);
        self.files = files;
        proof {
            assert(text::texts(next.paths@).skip(0) =~= text::texts(next.paths@));
            assert(self.state().files =~= before.files.push(file@));
            assert(self.state().pending =~= before.pending.push(
                (path@, directives::imports_of(source@)),
            ));
        }
    }

    /// The files loaded, in order.
    pub fn into_files(self) -> (r: Vec<SourceFile>)
        ensures
            files_view(r@) == self.state().files,
    {
        self.files
    }
}

/// The state behind one import: it was found under a canonical name and, if
/// that is new, read, which gives a path and a source unless reading fails.
pub open spec fn import_done(
    st: Loading,
    canonical: Seq<char>,
    read: Option<(Seq<char>, Seq<char>)>,
) -> Loading {
    let asked = Loading { pending: without_next(st.pending), ..st };
    if asked.seen.contains(canonical) {
        asked
    } else {
        let noted = Loading { seen: asked.seen.insert(canonical), ..asked };
        match read {
            Some((path, source)) => Loading {
                files: noted.files.push((path, source)),
                pending: noted.pending.push((path, directives::imports_of(source))),
                ..noted
            },
            None => noted,
        }
    }
}

/// The state behind some imports.
pub open spec fn imports_done(
    st: Loading,
    found: Seq<(Seq<char>, Option<(Seq<char>, Seq<char>)>)>,
) -> Loading
    decreases found.len(),
{
    if found.len() == 0 {
        st
    } else {
        let (canonical, read) = found.last();
        import_done(imports_done(st, found.drop_last()), canonical, read)
    }
}

/// The canonical names of the files that some imports loaded, in order.
pub open spec fn names_loaded(
    st: Loading,
    found: Seq<(Seq<char>, Option<(Seq<char>, Seq<char>)>)>,
) -> Seq<Seq<char>>
    decreases found.len(),
{
    if found.len() == 0 {
        Seq::empty()
    } else {
        let names = names_loaded(st, found.drop_last());
        let (canonical, read) = found.last();
        if read is Some && !imports_done(st, found.drop_last()).seen.contains(canonical) {
            names.push(canonical)
        } else {
            names
        }
    }
}

/// The state in which the imports of an entry file are to be loaded.
pub open spec fn at_entry(entry: Seq<char>, imports: Seq<Seq<char>>) -> Loading {
    Loading { seen: set![entry], files: Seq::empty(), pending: seq![(entry, imports)] }
}

/// Each file is loaded once, also where files import each other: whatever
/// imports are found, the loaded files have different canonical names, and none
/// of them is the entry file.
pub proof fn law_files_load_once(
    entry: Seq<char>,
    imports: Seq<Seq<char>>,
    found: Seq<(Seq<char>, Option<(Seq<char>, Seq<char>)>)>,
)
    ensures
        ({
            let first = at_entry(entry, imports);
            let names = names_loaded(first, found);
            &&& names.len() == imports_done(first, found).files.len()
            &&& names.no_duplicates()
            &&& !names.contains(entry)
        }),
{
    lemma_loaded_are_seen(entry, imports, found);
}

proof fn lemma_loaded_are_seen(
    entry: Seq<char>,
    imports: Seq<Seq<char>>,
    found: Seq<(Seq<char>, Option<(Seq<char>, Seq<char>)>)>,
)
    ensures
        ({
            let st = imports_done(at_entry(entry, imports), found);
            let names = names_loaded(at_entry(entry, imports), found);
            &&& st.seen.contains(entry)
            &&& names.len() == st.files.len()
            &&& names.no_duplicates()
            &&& forall|i: int| 0 <= i < names.len() ==> st.seen.contains(#[trigger] names[i])
            &&& forall|i: int| 0 <= i < names.len() ==> #[trigger] names[i] != entry
        }),
    decreases found.len(),
{
    if found.len() > 0 {
        lemma_loaded_are_seen(entry, imports, found.drop_last());
    }
}

/// The imports to come, in order: those left of the innermost file first.
pub open spec fn imports_left(pending: Seq<(Seq<char>, Seq<Seq<char>>)>) -> Seq<
    (Seq<char>, Seq<char>),
>
    decreases pending.len(),
{
    if pending.len() == 0 {
        Seq::empty()
    } else {
        let (from, paths) = pending.last();
        paths.map_values(|path: Seq<char>| (from, path)) + imports_left(pending.drop_last())
    }
}

/// The import that is asked for is the first of those to come, and the others
/// are left. There is none exactly where none is left.
pub proof fn law_imports_are_asked_for_in_order(pending: Seq<(Seq<char>, Seq<Seq<char>>)>)
    ensures
        ({
            let left = imports_left(pending);
            &&& next_import(pending) is Some <==> left.len() > 0
            &&& left.len() > 0 ==> next_import(pending) == Some(left[0])
            &&& left.len() > 0 ==> imports_left(without_next(pending)) == left.skip(1)
            &&& left.len() == 0 ==> imports_left(without_next(pending)).len() == 0
        }),
    decreases pending.len(),
{
    if pending.len() > 0 {
        let (from, paths) = pending.last();
        let own = paths.map_values(|path: Seq<char>| (from, path));
        let below = pending.drop_last();
        if paths.len() == 0 {
            law_imports_are_asked_for_in_order(below);
            assert(own + imports_left(below) =~= imports_left(below));
        } else {
            let after = below.push((from, paths.skip(1)));
            assert(after.drop_last() =~= below);
            assert(paths.skip(1).map_values(|path: Seq<char>| (from, path)) =~= own.skip(1));
            assert(imports_left(after) =~= imports_left(pending).skip(1));
        }
    }
}

/// A file that is found and new is loaded behind the others, and its imports
/// come before what its importer imports next. One that was seen before, or
/// that cannot be read, changes neither.
pub proof fn law_imports_of_a_file_come_next(
    st: Loading,
    canonical: Seq<char>,
    read: Option<(Seq<char>, Seq<char>)>,
)
    requires
        imports_left(st.pending).len() > 0,
    ensures
        ({
            let done = import_done(st, canonical, read);
            let next = imports_left(st.pending).skip(1);
            &&& done.seen.contains(canonical)
            &&& st.seen.contains(canonical) || read is None ==> done.files == st.files
                && imports_left(done.pending) == next
            &&& !st.seen.contains(canonical) && read is Some ==> {
                let (path, source) = read->0;
                let own = directives::imports_of(source).map_values(|p: Seq<char>| (path, p));
                done.files == st.files.push((path, source)) && imports_left(done.pending) == own
                    + next
            }
        }),
{
    law_imports_are_asked_for_in_order(st.pending);
    let asked = without_next(st.pending);
    if let Some((path, source)) = read {
        let pending = asked.push((path, directives::imports_of(source)));
        assert(pending.drop_last() =~= asked);
    }
}

} // verus!
