//! The decisions of import resolution. The caller reads files and resolves
//! paths; a `Loader` decides which files to open, in which order, and how
//! their functions merge into one program. Each canonical path is opened at
//! most once, so cyclic imports terminate.
use vstd::prelude::*;
use crate::ast::{function_views, Function, FunctionV, Program, ProgramV};
use crate::diagnostics::VoltError;
use crate::parser::{parse_program, parse_program_spec, program_result};
use crate::text::{
    chars_of, lemma_rfind_before_occurs, rfind_before, rfind_exec, slice, starts_with,
    starts_with_exec, to_string,
};

verus! {

/// A module specifier that names a file relative to the importing one.
pub open spec fn is_relative(m: Seq<char>) -> bool {
    starts_with(m, "./"@) || starts_with(m, "../"@)
}

pub fn is_relative_import(module: &String) -> (r: bool)
    ensures
        r == is_relative(module@),
{
    let m = chars_of(module.as_str());
    starts_with_exec(&m, &chars_of("./")) || starts_with_exec(&m, &chars_of("../"))
}

/// The position of the last `c` in `s`.
pub open spec fn last_index(s: Seq<char>, c: char) -> Option<int> {
    rfind_before(s, seq![c], s.len() as int)
}

/// The text after the last `/`.
pub open spec fn last_segment(s: Seq<char>) -> Seq<char> {
    match last_index(s, '/') {
        Some(k) => s.skip(k + 1),
        None => s,
    }
}

/// A file name has an extension when a `.` stands after its first
/// character.
pub open spec fn has_extension(name: Seq<char>) -> bool {
    last_index(name, '.') matches Some(k) && k > 0
}

/// The file a relative import names: the module joined to the directory of
/// the importing file (the text before its last `/`), with `.vts` added when
/// the last segment has no extension.
pub open spec fn import_path(importer: Seq<char>, module: Seq<char>) -> Seq<char> {
    let joined = match last_index(importer, '/') {
        Some(k) => importer.take(k) + seq!['/'] + module,
        None => module,
    };
    if has_extension(last_segment(joined)) {
        joined
    } else {
        joined + ".vts"@
    }
}

fn last_index_exec(s: &Vec<char>, c: char) -> (r: Option<usize>)
    ensures
        r is Some <==> last_index(s@, c) is Some,
        r matches Some(k) ==> last_index(s@, c) == Some(k as int) && k < s@.len(),
{
    let p = vec![c];
    assert(p@ =~= seq![c]);
    proof {
        lemma_rfind_before_occurs(s@, seq![c], s@.len() as int);
    }
    rfind_exec(s, &p)
}

/// The path of the file that `module`, imported by the file at `importer`,
/// names.
pub fn resolve_import_path(importer: &String, module: &String) -> (r: String)
    ensures
        r@ == import_path(importer@, module@),
{
    let imp = chars_of(importer.as_str());
    let m = chars_of(module.as_str());
    let mut joined = match last_index_exec(&imp, '/') {
        Some(k) => {
            let mut d = slice(&imp, 0, k);
            d.push('/');
            let mut i: usize = 0;
            let ghost head = d@;
            while i < m.len()
                invariant
                    i <= m.len(),
                    d@ == head + m@.take(i as int),
                decreases m.len() - i,
            {
                d.push(m[i]);
                i = i + 1;
                assert(d@ =~= head + m@.take(i as int));
            }
            assert(m@.take(m@.len() as int) =~= m@);
            assert(d@ =~= imp@.take(k as int) + seq!['/'] + m@);
            d
        },
        None => m,
    };
    let seg = match last_index_exec(&joined, '/') {
        Some(k) => {
            let n = joined.len();
            let t = slice(&joined, k + 1, n);
            assert(t@ =~= joined@.skip(k + 1));
            t
        },
        None => slice(&joined, 0, joined.len()),
    };
    assert(joined@.subrange(0, joined@.len() as int) =~= joined@);
    let has_ext = match last_index_exec(&seg, '.') {
        Some(k) => k > 0,
        None => false,
    };
    if !has_ext {
        let ext = chars_of(".vts");
        let ghost before = joined@;
        let mut i: usize = 0;
        while i < ext.len()
            invariant
                i <= ext.len(),
                joined@ == before + ext@.take(i as int),
            decreases ext.len() - i,
        {
            joined.push(ext[i]);
            i = i + 1;
            assert(joined@ =~= before + ext@.take(i as int));
        }
        assert(ext@.take(ext@.len() as int) =~= ext@);
    }
    to_string(&joined)
}

/// An opened file: its canonical path, its parse, how many of its imports
/// have been handed out, and the functions gathered from the files it
/// imported.
pub struct Frame {
    pub path: String,
    pub program: Program,
    pub next_import: usize,
    pub extra: Vec<Function>,
}

pub struct FrameV {
    pub path: Seq<char>,
    pub program: ProgramV,
    pub next_import: nat,
    pub extra: Seq<FunctionV>,
}

impl View for Frame {
    type V = FrameV;

    open spec fn view(&self) -> FrameV {
        FrameV {
            path: self.path@,
            program: self.program@,
            next_import: self.next_import as nat,
            extra: function_views(self.extra@),
        }
    }
}

pub open spec fn frame_views(v: Seq<Frame>) -> Seq<FrameV> {
    v.map_values(|f: Frame| f@)
}

pub open spec fn string_seq(v: Seq<String>) -> Seq<Seq<char>> {
    v.map_values(|s: String| s@)
}

/// The paths opened so far, in order, and the files still open, innermost
/// last.
pub struct Loader {
    visited: Vec<String>,
    frames: Vec<Frame>,
}

pub struct LoaderV {
    pub visited: Seq<Seq<char>>,
    pub frames: Seq<FrameV>,
}

impl View for Loader {
    type V = LoaderV;

    closed spec fn view(&self) -> LoaderV {
        LoaderV { visited: string_seq(self.visited@), frames: frame_views(self.frames@) }
    }
}

/// The invariant of a loader: no path is visited twice, and every open file
/// was visited.
pub open spec fn loader_wf(l: LoaderV) -> bool {
    &&& l.visited.no_duplicates()
    &&& forall|i: int| 0 <= i < l.frames.len() ==> l.visited.contains(#[trigger] l.frames[i].path)
    &&& forall|i: int|
        0 <= i < l.frames.len() ==> (#[trigger] l.frames[i]).next_import
            <= l.frames[i].program.imports.len()
}

/// The functions a closed file contributes: its own, then those of the files
/// it imported.
pub open spec fn contribution(f: FrameV) -> Seq<FunctionV> {
    f.program.functions + f.extra
}

/// The index of the first relative import at or after `k`.
pub open spec fn next_relative(p: ProgramV, k: int) -> Option<int>
    decreases p.imports.len() - k,
{
    if k < 0 || k >= p.imports.len() {
        None
    } else if is_relative(p.imports[k].module) {
        Some(k)
    } else {
        next_relative(p, k + 1)
    }
}

impl Loader {
    pub fn new() -> (r: Loader)
        ensures
            r@.visited.len() == 0,
            r@.frames.len() == 0,
            loader_wf(r@),
    {
        let r = Loader { visited: Vec::new(), frames: Vec::new() };
        assert(r@.visited =~= Seq::<Seq<char>>::empty());
        r
    }

    /// How many files are open.
    pub fn depth(&self) -> (r: usize)
        ensures
            r == self@.frames.len(),
    {
        self.frames.len()
    }

    /// The canonical path of the innermost open file.
    pub fn current_path(&self) -> (r: Option<&String>)
        ensures
            self@.frames.len() == 0 ==> r is None,
            self@.frames.len() > 0 ==> (r matches Some(p) && p@ == self@.frames.last().path),
    {
        if self.frames.len() == 0 {
            None
        } else {
            let k = self.frames.len() - 1;
            assert(self@.frames[k as int] == self.frames@[k as int]@);
            Some(&self.frames[k].path)
        }
    }

    /// Marks a canonical path as visited. True when it was not yet: the
    /// caller then reads it and opens it with `enter`; otherwise that import
    /// contributes nothing.
    pub fn visit(&mut self, path: &String) -> (r: bool)
        requires
            loader_wf(old(self)@),
        ensures
            r == !old(self)@.visited.contains(path@),
            r ==> final(self)@.visited == old(self)@.visited.push(path@),
            !r ==> final(self)@.visited == old(self)@.visited,
            final(self)@.frames == old(self)@.frames,
            loader_wf(final(self)@),
    {
        let ghost before = self@;
        let mut i: usize = 0;
        while i < self.visited.len()
            invariant
                i <= self.visited.len(),
                self@ == before,
                loader_wf(before),
                forall|j: int| 0 <= j < i ==> self@.visited[j] != path@,
            decreases self.visited.len() - i,
        {
            assert(self@.visited[i as int] == self.visited@[i as int]@);
            if equals_string(&self.visited[i], path) {
                return false;
            }
            i = i + 1;
        }
        assert(!before.visited.contains(path@));
        let p = path.clone();
        self.visited.push(p);
        assert(self@.visited =~= before.visited.push(path@));
        assert(self@.frames =~= before.frames);
        proof {
            let v = self@.visited;
            assert forall|a: int, b: int|
                0 <= a < v.len() && 0 <= b < v.len() && a != b implies v[a] != v[b] by {
                if a < before.visited.len() && b < before.visited.len() {
                    assert(v[a] == before.visited[a] && v[b] == before.visited[b]);
                }
            }
            assert forall|k: int| 0 <= k < self@.frames.len() implies self@.visited.contains(
                #[trigger] self@.frames[k].path,
            ) by {
                assert(before.visited.contains(before.frames[k].path));
                let j = choose|j: int|
                    0 <= j < before.visited.len() && before.visited[j] == before.frames[k].path;
                assert(self@.visited[j] == before.visited[j]);
            }
        }
        true
    }

    /// Parses the file at a path just visited and opens it.
    pub fn enter(&mut self, path: &String, source: &str) -> (r: Result<(), VoltError>)
        requires
            loader_wf(old(self)@),
            old(self)@.visited.contains(path@),
        ensures
            r is Ok <==> parse_program_spec(source@) is Ok,
            r is Ok ==> final(self)@.frames == old(self)@.frames.push(
                FrameV {
                    path: path@,
                    program: parse_program_spec(source@)->Ok_0,
                    next_import: 0,
                    extra: Seq::empty(),
                },
            ),
            r matches Err(e) ==> program_result(Err(e)) == parse_program_spec(source@),
            r is Err ==> final(self)@.frames == old(self)@.frames,
            final(self)@.visited == old(self)@.visited,
            loader_wf(final(self)@),
    {
        let ghost before = self@;
        match parse_program(source) {
            Ok(program) => {
                let frame = Frame {
                    path: path.clone(),
                    program,
                    next_import: 0,
                    extra: Vec::new(),
                };
                assert(function_views(frame.extra@) =~= Seq::<FunctionV>::empty());
                self.frames.push(frame);
                assert(self@.frames =~= before.frames.push(frame@));
                assert(self@.visited =~= before.visited);
                proof {
                    let l = self@;
                    assert forall|i: int| 0 <= i < l.frames.len() implies l.visited.contains(
                        #[trigger] l.frames[i].path,
                    ) by {
                        if i < before.frames.len() {
                            assert(l.frames[i] == before.frames[i]);
                        }
                    }
                    assert forall|i: int| 0 <= i < l.frames.len() implies (
                    #[trigger] l.frames[i]).next_import <= l.frames[i].program.imports.len() by {
                        if i < before.frames.len() {
                            assert(l.frames[i] == before.frames[i]);
                        }
                    }
                }
                Ok(())
            },
            Err(e) => Err(e),
        }
    }

    /// The module of the next relative import of the innermost open file,
    /// which is then counted as handed out; `None` when it has no more.
    pub fn next_import(&mut self) -> (r: Option<String>)
        requires
            loader_wf(old(self)@),
            old(self)@.frames.len() > 0,
        ensures
            loader_wf(final(self)@),
            final(self)@.visited == old(self)@.visited,
            final(self)@.frames.len() == old(self)@.frames.len(),
            ({
                let top = old(self)@.frames.last();
                match next_relative(top.program, top.next_import as int) {
                    Some(k) => (r matches Some(m) && m@ == top.program.imports[k].module)
                        && final(self)@.frames == old(self)@.frames.update(
                        old(self)@.frames.len() - 1,
                        FrameV { next_import: (k + 1) as nat, ..top },
                    ),
                    None => r is None && final(self)@.frames == old(self)@.frames.update(
                        old(self)@.frames.len() - 1,
                        FrameV { next_import: top.program.imports.len(), ..top },
                    ),
                }
            }),
    {
        let ghost before = self@;
        let mut frame = self.frames.pop().unwrap();
        assert(frame@ == before.frames.last());
        let n = frame.program.imports.len();
        let start = frame.next_import;
        let mut k = start;
        let mut found: Option<String> = None;
        while found.is_none() && k < n
            invariant
                frame@ == before.frames.last(),
                frame.next_import == start,
                n == frame.program.imports@.len(),
                start <= k <= n,
                found is None ==> next_relative(frame@.program, start as int) == next_relative(
                    frame@.program,
                    k as int,
                ),
                found matches Some(m) ==> k >= 1 && next_relative(frame@.program, start as int)
                    == Some(k - 1) && m@ == frame@.program.imports[k - 1].module,
            decreases n - k,
        {
            assert(frame@.program.imports[k as int] == frame.program.imports@[k as int]@);
            if is_relative_import(&frame.program.imports[k].module) {
                found = Some(frame.program.imports[k].module.clone());
            }
            k = k + 1;
        }
        let ghost top = frame@;
        frame.next_import = k;
        self.frames.push(frame);
        assert(self@.frames =~= before.frames.update(
            before.frames.len() - 1,
            FrameV { next_import: frame.next_import as nat, ..top },
        ));
        assert(self@.visited =~= before.visited);
        found
    }

    /// Closes the innermost open file. Its functions, then those of the
    /// files it imported, are added to the file that imported it; when it is
    /// the entry file they make the merged program, which is returned.
    pub fn close(&mut self) -> (r: Option<Program>)
        requires
            loader_wf(old(self)@),
            old(self)@.frames.len() > 0,
        ensures
            loader_wf(final(self)@),
            final(self)@.visited == old(self)@.visited,
            final(self)@.frames.len() == old(self)@.frames.len() - 1,
            ({
                let n = old(self)@.frames.len();
                let top = old(self)@.frames[n - 1];
                if n == 1 {
                    (r matches Some(p) && p@ == ProgramV {
                        imports: top.program.imports,
                        functions: contribution(top),
                    })
                } else {
                    let parent = old(self)@.frames[n - 2];
                    r is None && final(self)@.frames == old(self)@.frames.take(n - 2).push(
                        FrameV { extra: parent.extra + contribution(top), ..parent },
                    )
                }
            }),
    {
        let ghost before = self@;
        let top = self.frames.pop().unwrap();
        assert(top@ == before.frames.last());
        assert(self@.frames =~= before.frames.take(before.frames.len() - 1));
        let Frame { path: _, program, next_import: _, extra } = top;
        let Program { imports, functions } = program;
        let mut functions = functions;
        let mut extra = extra;
        let ghost own = function_views(functions@);
        let ghost gathered = function_views(extra@);
        functions.append(&mut extra);
        assert(function_views(functions@) =~= own + gathered);
        if self.frames.len() == 0 {
            let merged = Program { imports, functions };
            assert(self@.frames =~= Seq::<FrameV>::empty());
            assert(self@.visited =~= before.visited);
            return Some(merged);
        }
        let ghost mid = self@;
        assert(mid.frames =~= before.frames.take(before.frames.len() - 1));
        let mut parent = self.frames.pop().unwrap();
        let ghost p0 = parent@;
        assert(p0 == before.frames[before.frames.len() - 2]);
        parent.extra.append(&mut functions);
        assert(function_views(parent.extra@) =~= p0.extra + (own + gathered));
        assert(parent@ == FrameV { extra: p0.extra + (own + gathered), ..p0 });
        self.frames.push(parent);
        assert(self@.frames =~= before.frames.take(before.frames.len() - 2).push(
            FrameV { extra: p0.extra + (own + gathered), ..p0 },
        ));
        assert(self@.visited =~= before.visited);
        None
    }
}

/// Whether two strings hold the same characters.
fn equals_string(a: &String, b: &String) -> (r: bool)
    ensures
        r == (a@ == b@),
{
    crate::text::equals_exec(&chars_of(a.as_str()), &chars_of(b.as_str()))
}

/// A loader opens each canonical path at most once: however the imports
/// cycle, the files it has opened are distinct, so it opens no more files
/// than there are paths.
pub proof fn lemma_opens_each_path_once(l: LoaderV, paths: Set<Seq<char>>)
    requires
        loader_wf(l),
        paths.finite(),
        forall|i: int| 0 <= i < l.visited.len() ==> paths.contains(#[trigger] l.visited[i]),
    ensures
        l.visited.len() <= paths.len(),
        l.visited.to_set().len() == l.visited.len(),
{
    l.visited.unique_seq_to_set();
    assert(l.visited.to_set().subset_of(paths));
    vstd::set_lib::lemma_len_subset(l.visited.to_set(), paths);
}

} // verus!
