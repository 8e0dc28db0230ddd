//! No space left on device: rebuild a directory tree from a shell session
//! (`$ cd`, `$ ls` and their output) and add up directory sizes.
use vstd::prelude::*;
use crate::common::string_views;
use crate::text::{find_char, find_spec, parse_int, parse_usize, str_equal};

verus! {

/// Errors of this puzzle.
pub enum Error {
    /// `cd ..` at the root.
    AboveRoot,
    /// A command other than `cd` and `ls`; the text is the command line.
    UnknownCommand(String),
    /// An output line without a space; the text is the line.
    InvalidOutput(String),
    /// A file size that is not a number; the text is the line.
    InvalidSize(String),
}

/// A file and its size.
pub struct KFile {
    pub name: String,
    pub size: usize,
}

impl KFile {
    /// A file named `name` of `size` bytes.
    pub fn new(name: String, size: usize) -> (r: KFile)
        ensures
            r.name == name,
            r.size == size,
    {
        KFile { name, size }
    }
}

/// A directory: its subdirectories (by name and index in the disk), its
/// files, and its total size once computed.
pub struct KDirectory {
    pub name: String,
    pub directories: Vec<(String, usize)>,
    pub files: Vec<KFile>,
    pub size: usize,
}

impl KDirectory {
    /// An empty directory named `name`.
    pub fn new(name: String) -> (r: KDirectory)
        ensures
            r.name == name,
            r.directories@.len() == 0,
            r.files@.len() == 0,
            r.size == 0,
    {
        KDirectory { name, directories: Vec::new(), files: Vec::new(), size: 0 }
    }
}

/// All directories of a session; index 0 is the root.
pub struct Disk {
    pub dirs: Vec<KDirectory>,
}

/// What a directory holds: its name, its subdirectories (name and index)
/// and its files (name and size).
pub struct DirView {
    pub name: Seq<char>,
    pub children: Seq<(Seq<char>, int)>,
    pub files: Seq<(Seq<char>, int)>,
}

/// The contents of a directory.
pub open spec fn dir_view(d: KDirectory) -> DirView {
    DirView {
        name: d.name@,
        children: d.directories@.map_values(|c: (String, usize)| (c.0@, c.1 as int)),
        files: d.files@.map_values(|f: KFile| (f.name@, f.size as int)),
    }
}

/// The contents of every directory of a disk.
pub open spec fn disk_view(disk: &Disk) -> Seq<DirView> {
    disk.dirs@.map_values(|d: KDirectory| dir_view(d))
}

/// The position of the first entry named `name`, if any.
pub open spec fn lookup(entries: Seq<(Seq<char>, int)>, name: Seq<char>) -> Option<int> {
    if exists|k: int| 0 <= k < entries.len() && (#[trigger] entries[k]).0 == name {
        Some(choose|k: int| 0 <= k < entries.len() && (#[trigger] entries[k]).0 == name)
    } else {
        None
    }
}

/// No two entries share a name.
pub open spec fn unique_names(entries: Seq<(Seq<char>, int)>) -> bool {
    forall|a: int, b: int| 0 <= a < b < entries.len() ==> (#[trigger] entries[a]).0 != (#[trigger] entries[b]).0
}

/// The shape every disk keeps: a root exists, every subdirectory index
/// points past its parent and into the disk, and names are unique within a
/// directory.
pub open spec fn wf(v: Seq<DirView>) -> bool {
    &&& v.len() > 0
    &&& forall|d: int, k: int| 0 <= d < v.len() && 0 <= k < v[d].children.len()
        ==> d < (#[trigger] v[d].children[k]).1 < v.len()
    &&& forall|d: int| 0 <= d < v.len() ==> unique_names(#[trigger] v[d].children)
    &&& forall|d: int| 0 <= d < v.len() ==> unique_names(#[trigger] v[d].files)
}

/// The current directory path is a chain of valid indices from the root.
pub open spec fn valid_cwd(v: Seq<DirView>, cwd: Seq<usize>) -> bool {
    &&& cwd.len() > 0
    &&& cwd[0] == 0
    &&& forall|k: int| 0 <= k < cwd.len() ==> #[trigger] cwd[k] < v.len()
}

/// The state after `cd name`: `None` when `..` is used at the root.
pub open spec fn cd_spec(v: Seq<DirView>, cwd: Seq<usize>, name: Seq<char>) -> Option<(Seq<DirView>, Seq<usize>)> {
    if name == ".."@ {
        if cwd.len() == 1 { None } else { Some((v, cwd.drop_last())) }
    } else if name == "/"@ {
        Some((v, seq![0usize]))
    } else {
        let d = cwd.last() as int;
        match lookup(v[d].children, name) {
            Some(k) => Some((v, cwd.push(v[d].children[k].1 as usize))),
            None => {
                let c = v.len();
                let parent = DirView { children: v[d].children.push((name, c as int)), ..v[d] };
                let child = DirView { name, children: Seq::empty(), files: Seq::empty() };
                Some((v.update(d, parent).push(child), cwd.push(c as usize)))
            },
        }
    }
}

/// The state after one output line of `ls`, or the error it raises.
pub open spec fn output_spec(v: Seq<DirView>, cwd: Seq<usize>, line: Seq<char>) -> Result<Seq<DirView>, ErrKind> {
    match find_spec(line, ' ') {
        None => Err(ErrKind::InvalidOutput(line)),
        Some(i) => if line.take(i) == "dir"@ {
            Ok(v)
        } else {
            match parse_int(line.take(i), false, 0, usize::MAX as int) {
                None => Err(ErrKind::InvalidSize(line)),
                Some(size) => {
                    let d = cwd.last() as int;
                    let name = line.skip(i + 1);
                    let files = match lookup(v[d].files, name) {
                        Some(k) => v[d].files.update(k, (name, size)),
                        None => v[d].files.push((name, size)),
                    };
                    Ok(v.update(d, DirView { files, ..v[d] }))
                },
            }
        },
    }
}

/// The errors of a session, as text.
pub enum ErrKind {
    AboveRoot,
    UnknownCommand(Seq<char>),
    InvalidOutput(Seq<char>),
    InvalidSize(Seq<char>),
}

/// `e` is the error that `k` describes.
pub open spec fn reports(e: Error, k: ErrKind) -> bool {
    match k {
        ErrKind::AboveRoot => e is AboveRoot,
        ErrKind::UnknownCommand(t) => e matches Error::UnknownCommand(s) && s@ == t,
        ErrKind::InvalidOutput(t) => e matches Error::InvalidOutput(s) && s@ == t,
        ErrKind::InvalidSize(t) => e matches Error::InvalidSize(s) && s@ == t,
    }
}

/// The state after the command `cmd` (the text after `$ `).
pub open spec fn command_spec(v: Seq<DirView>, cwd: Seq<usize>, cmd: Seq<char>) -> Result<(Seq<DirView>, Seq<usize>), ErrKind> {
    if cmd.take(2) == "cd"@ {
        match cd_spec(v, cwd, cmd.skip(3)) {
            None => Err(ErrKind::AboveRoot),
            Some(s) => Ok(s),
        }
    } else if cmd.take(2) == "ls"@ {
        Ok((v, cwd))
    } else {
        Err(ErrKind::UnknownCommand(cmd))
    }
}

/// The state after one line of the session.
pub open spec fn line_spec(v: Seq<DirView>, cwd: Seq<usize>, line: Seq<char>) -> Result<(Seq<DirView>, Seq<usize>), ErrKind> {
    if line[0] == '$' {
        command_spec(v, cwd, line.skip(2))
    } else {
        match output_spec(v, cwd, line) {
            Ok(w) => Ok((w, cwd)),
            Err(e) => Err(e),
        }
    }
}

/// The state after the first `n` lines, blank ones skipped, or the first
/// error.
pub open spec fn session_spec(v: Seq<DirView>, cwd: Seq<usize>, lines: Seq<Seq<char>>, n: nat) -> Result<(Seq<DirView>, Seq<usize>), ErrKind>
    decreases n,
{
    if n == 0 {
        Ok((v, cwd))
    } else {
        match session_spec(v, cwd, lines, (n - 1) as nat) {
            Err(e) => Err(e),
            Ok(s) => if lines[n - 1].len() == 0 { Ok(s) } else { line_spec(s.0, s.1, lines[n - 1]) },
        }
    }
}

proof fn lemma_lookup_found(entries: Seq<(Seq<char>, int)>, name: Seq<char>, k: int)
    requires
        unique_names(entries),
        0 <= k < entries.len(),
        entries[k].0 == name,
    ensures
        lookup(entries, name) == Some(k),
{
    let k2 = choose|k: int| 0 <= k < entries.len() && (#[trigger] entries[k]).0 == name;
    if k2 != k {
        if k2 < k {
            assert(entries[k2].0 != entries[k].0);
        } else {
            assert(entries[k].0 != entries[k2].0);
        }
    }
}

/// A disk holding only an empty root directory.
pub open spec fn empty_view() -> Seq<DirView> {
    seq![DirView { name: Seq::empty(), children: Seq::empty(), files: Seq::empty() }]
}

/// An empty disk with the root as current directory.
pub fn new_disk() -> (r: (Disk, Vec<usize>))
    ensures
        disk_view(&r.0) == empty_view(),
        r.1@ == seq![0usize],
{
    let mut dirs: Vec<KDirectory> = Vec::new();
    dirs.push(KDirectory::new(String::new()));
    let mut cwd: Vec<usize> = Vec::new();
    cwd.push(0);
    let disk = Disk { dirs };
    proof {
        assert(dir_view(disk.dirs@[0]).children =~= Seq::empty());
        assert(dir_view(disk.dirs@[0]).files =~= Seq::empty());
        assert(disk_view(&disk) =~= empty_view());
    }
    (disk, cwd)
}

/// Changes directory: `..` goes up (failing at the root), `/` goes to the
/// root, and any other name enters that subdirectory, creating it when it
/// is not known yet.
pub fn process_cd(line: &str, cwd: &mut Vec<usize>, disk: &mut Disk) -> (r: Result<(), Error>)
    requires
        wf(disk_view(old(disk))),
        valid_cwd(disk_view(old(disk)), old(cwd)@),
    ensures
        wf(disk_view(final(disk))),
        valid_cwd(disk_view(final(disk)), final(cwd)@),
        cd_spec(disk_view(old(disk)), old(cwd)@, line@) matches Some(s) ==> r is Ok && disk_view(final(disk)) == s.0
            && final(cwd)@ == s.1,
        cd_spec(disk_view(old(disk)), old(cwd)@, line@) is None ==> (r matches Err(Error::AboveRoot)
            && disk_view(final(disk)) == disk_view(old(disk)) && final(cwd)@ == old(cwd)@),
{
    let ghost v = disk_view(disk);
    if str_equal(line, "..") {
        if cwd.len() == 1 {
            Err(Error::AboveRoot)
        } else {
            cwd.pop();
            Ok(())
        }
    } else if str_equal(line, "/") {
        while cwd.len() > 1
            invariant
                cwd@.len() >= 1,
                valid_cwd(disk_view(disk), cwd@),
                disk_view(disk) == disk_view(old(disk)),
            decreases cwd@.len(),
        {
            cwd.pop();
        }
        proof {
            assert(cwd@ =~= seq![0usize]);
        }
        Ok(())
    } else {
        let d = cwd[cwd.len() - 1];
        let n = disk.dirs[d].directories.len();
        proof {
            assert(v[d as int].children.len() == n);
        }
        let mut k: usize = 0;
        while k < n
            invariant
                v == disk_view(disk),
                v == disk_view(old(disk)),
                cwd@ == old(cwd)@,
                valid_cwd(v, cwd@),
                d == cwd@.last(),
                line@ != ".."@,
                line@ != "/"@,
                wf(v),
                n == disk.dirs@[d as int].directories@.len(),
                d < disk.dirs@.len(),
                k <= n,
                forall|j: int| 0 <= j < k ==> (#[trigger] v[d as int].children[j]).0 != line@,
            decreases n - k,
        {
            proof {
                assert(v[d as int].children[k as int] == (disk.dirs@[d as int].directories@[k as int].0@,
                    disk.dirs@[d as int].directories@[k as int].1 as int));
            }
            if str_equal(disk.dirs[d].directories[k].0.as_str(), line) {
                let c = disk.dirs[d].directories[k].1;
                proof {
                    lemma_lookup_found(v[d as int].children, line@, k as int);
                }
                cwd.push(c);
                return Ok(());
            }
            k = k + 1;
        }
        proof {
            if exists|j: int| 0 <= j < v[d as int].children.len() && (#[trigger] v[d as int].children[j]).0 == line@ {
                let j = choose|j: int| 0 <= j < v[d as int].children.len() && (#[trigger] v[d as int].children[j]).0 == line@;
                assert(v[d as int].children[j].0 != line@);
            }
        }
        let c = disk.dirs.len();
        disk.dirs[d].directories.push((line.to_owned(), c));
        disk.dirs.push(KDirectory::new(line.to_owned()));
        cwd.push(c);
        proof {
            let w = disk_view(disk);
            let parent = DirView { children: v[d as int].children.push((line@, c as int)), ..v[d as int] };
            let child = DirView { name: line@, children: Seq::empty(), files: Seq::empty() };
            assert(dir_view(disk.dirs@[d as int]).children =~= parent.children);
            assert(dir_view(disk.dirs@[d as int]).files =~= parent.files);
            assert(dir_view(disk.dirs@[c as int]).children =~= Seq::empty());
            assert(dir_view(disk.dirs@[c as int]).files =~= Seq::empty());
            assert(w =~= v.update(d as int, parent).push(child));
            assert forall|e: int| 0 <= e < w.len() implies unique_names(#[trigger] w[e].children) by {
                if e == d {
                    assert forall|a: int, b: int| 0 <= a < b < w[e].children.len() implies
                        (#[trigger] w[e].children[a]).0 != (#[trigger] w[e].children[b]).0 by {
                        if b == w[e].children.len() - 1 {
                            assert(w[e].children[a] == v[d as int].children[a]);
                        } else {
                            assert(w[e].children[a] == v[d as int].children[a]);
                            assert(w[e].children[b] == v[d as int].children[b]);
                        }
                    }
                }
            }
            assert forall|e: int, j: int| 0 <= e < w.len() && 0 <= j < w[e].children.len()
                implies e < (#[trigger] w[e].children[j]).1 < w.len() by {
                if e == d && j == w[e].children.len() - 1 {
                } else if e < v.len() {
                    assert(w[e].children[j] == v[e].children[j]);
                }
            }
        }
        Ok(())
    }
}

/// Records one output line of `ls` in the current directory: `dir NAME`
/// lines are skipped, `SIZE NAME` lines add (or replace) a file.
#[verifier::loop_isolation(false)]
pub fn process_output(line: &str, cwd: &Vec<usize>, disk: &mut Disk) -> (r: Result<(), Error>)
    requires
        wf(disk_view(old(disk))),
        valid_cwd(disk_view(old(disk)), cwd@),
    ensures
        wf(disk_view(final(disk))),
        output_spec(disk_view(old(disk)), cwd@, line@) matches Ok(w) ==> r is Ok && disk_view(final(disk)) == w,
        output_spec(disk_view(old(disk)), cwd@, line@) matches Err(k) ==> (r matches Err(e) && reports(e, k)
            && disk_view(final(disk)) == disk_view(old(disk))),
{
    let ghost v = disk_view(disk);
    let space = match find_char(line, ' ') {
        Some(i) => i,
        None => return Err(Error::InvalidOutput(line.to_owned())),
    };
    let n = line.unicode_len();
    let size_str = line.substring_char(0, space);
    if str_equal(size_str, "dir") {
        return Ok(());
    }
    let name = line.substring_char(space + 1, n);
    let size = match parse_usize(size_str) {
        Some(x) => x,
        None => return Err(Error::InvalidSize(line.to_owned())),
    };
    let d = cwd[cwd.len() - 1];
    let m = disk.dirs[d].files.len();
    let mut k: usize = 0;
    while k < m
        invariant
            v == disk_view(disk),
            v == disk_view(old(disk)),
            wf(v),
            m == disk.dirs@[d as int].files@.len(),
            d < disk.dirs@.len(),
            k <= m,
            forall|j: int| 0 <= j < k ==> (#[trigger] v[d as int].files[j]).0 != name@,
        decreases m - k,
    {
        proof {
            assert(v[d as int].files[k as int] == (disk.dirs@[d as int].files@[k as int].name@,
                disk.dirs@[d as int].files@[k as int].size as int));
        }
        if str_equal(disk.dirs[d].files[k].name.as_str(), name) {
            proof {
                lemma_lookup_found(v[d as int].files, name@, k as int);
            }
            disk.dirs[d].files.set(k, KFile::new(name.to_owned(), size));
            proof {
                let w = disk_view(disk);
                let files = v[d as int].files.update(k as int, (name@, size as int));
                assert(dir_view(disk.dirs@[d as int]).files =~= files);
                assert(dir_view(disk.dirs@[d as int]).children =~= v[d as int].children);
                assert(w =~= v.update(d as int, DirView { files, ..v[d as int] }));
                assert forall|e: int| 0 <= e < w.len() implies unique_names(#[trigger] w[e].files) by {
                    if e == d {
                        assert forall|a: int, b: int| 0 <= a < b < w[e].files.len() implies
                            (#[trigger] w[e].files[a]).0 != (#[trigger] w[e].files[b]).0 by {
                            if a != k && b != k {
                                assert(w[e].files[a] == v[d as int].files[a]);
                                assert(w[e].files[b] == v[d as int].files[b]);
                            } else if a == k {
                                assert(w[e].files[b] == v[d as int].files[b]);
                                assert(v[d as int].files[a].0 != v[d as int].files[b].0);
                            } else {
                                assert(w[e].files[a] == v[d as int].files[a]);
                                assert(v[d as int].files[a].0 != v[d as int].files[b].0);
                            }
                        }
                    }
                }
                assert forall|e: int, j: int| 0 <= e < w.len() && 0 <= j < w[e].children.len()
                    implies e < (#[trigger] w[e].children[j]).1 < w.len() by {
                    assert(w[e].children == v[e].children);
                }
                assert forall|e: int| 0 <= e < w.len() implies unique_names(#[trigger] w[e].children) by {
                    assert(w[e].children == v[e].children);
                }
            }
            return Ok(());
        }
        k = k + 1;
    }
    proof {
        if exists|j: int| 0 <= j < v[d as int].files.len() && (#[trigger] v[d as int].files[j]).0 == name@ {
            let j = choose|j: int| 0 <= j < v[d as int].files.len() && (#[trigger] v[d as int].files[j]).0 == name@;
            assert(v[d as int].files[j].0 != name@);
        }
    }
    disk.dirs[d].files.push(KFile::new(name.to_owned(), size));
    proof {
        let w = disk_view(disk);
        let files = v[d as int].files.push((name@, size as int));
        assert(dir_view(disk.dirs@[d as int]).files =~= files);
        assert(dir_view(disk.dirs@[d as int]).children =~= v[d as int].children);
        assert(w =~= v.update(d as int, DirView { files, ..v[d as int] }));
        assert forall|e: int| 0 <= e < w.len() implies unique_names(#[trigger] w[e].files) by {
            if e == d {
                assert forall|a: int, b: int| 0 <= a < b < w[e].files.len() implies
                    (#[trigger] w[e].files[a]).0 != (#[trigger] w[e].files[b]).0 by {
                    assert(w[e].files[a] == v[d as int].files[a]);
                    if b < w[e].files.len() - 1 {
                        assert(w[e].files[b] == v[d as int].files[b]);
                    }
                }
            }
        }
        assert forall|e: int, j: int| 0 <= e < w.len() && 0 <= j < w[e].children.len()
            implies e < (#[trigger] w[e].children[j]).1 < w.len() by {
            assert(w[e].children == v[e].children);
        }
        assert forall|e: int| 0 <= e < w.len() implies unique_names(#[trigger] w[e].children) by {
            assert(w[e].children == v[e].children);
        }
    }
    Ok(())
}

/// Runs one command (the text after `$ `): `cd` changes directory, `ls`
/// does nothing by itself, anything else fails.
pub fn process_command(line: &str, cwd: &mut Vec<usize>, disk: &mut Disk) -> (r: Result<(), Error>)
    requires
        wf(disk_view(old(disk))),
        valid_cwd(disk_view(old(disk)), old(cwd)@),
        line@.len() >= 2,
        line@.take(2) == "cd"@ ==> line@.len() >= 3,
    ensures
        wf(disk_view(final(disk))),
        valid_cwd(disk_view(final(disk)), final(cwd)@),
        command_spec(disk_view(old(disk)), old(cwd)@, line@) matches Ok(s) ==> r is Ok && disk_view(final(disk))
            == s.0 && final(cwd)@ == s.1,
        command_spec(disk_view(old(disk)), old(cwd)@, line@) matches Err(k) ==> (r matches Err(e) && reports(e, k)),
{
    let n = line.unicode_len();
    let head = line.substring_char(0, 2);
    if str_equal(head, "cd") {
        process_cd(line.substring_char(3, n), cwd, disk)
    } else if str_equal(head, "ls") {
        Ok(())
    } else {
        Err(Error::UnknownCommand(line.to_owned()))
    }
}

/// Session lines that the reader slices without failing: command lines are
/// ASCII and long enough for their command (and, for `cd`, its argument).
pub open spec fn line_ok(l: Seq<char>) -> bool {
    l.len() > 0 && l[0] == '$' ==> vstd::utf8::is_ascii_chars(l) && l.len() >= 4 && (l.skip(2).take(2) == "cd"@
        ==> l.len() >= 5)
}

proof fn lemma_session_error_stays(v: Seq<DirView>, cwd: Seq<usize>, lines: Seq<Seq<char>>, m: nat, n: nat, k: ErrKind)
    requires
        m <= n,
        session_spec(v, cwd, lines, m) == Err::<(Seq<DirView>, Seq<usize>), ErrKind>(k),
    ensures
        session_spec(v, cwd, lines, n) == Err::<(Seq<DirView>, Seq<usize>), ErrKind>(k),
    decreases n - m,
{
    if m < n {
        lemma_session_error_stays(v, cwd, lines, m, (n - 1) as nat, k);
    }
}

/// Replays a session (trimmed lines, blank ones skipped) from an empty disk.
pub fn process_commands(lines: &Vec<String>) -> (r: Result<Disk, Error>)
    requires
        forall|k: int| 0 <= k < lines@.len() ==> line_ok(#[trigger] lines@[k]@),
    ensures
        r matches Ok(disk) ==> wf(disk_view(&disk)),
        session_spec(empty_view(), seq![0usize],
            string_views(lines@), lines@.len()) matches Ok(s) ==> (r matches Ok(disk) && disk_view(&disk) == s.0),
        session_spec(empty_view(), seq![0usize],
            string_views(lines@), lines@.len()) matches Err(k) ==> (r matches Err(e) && reports(e, k)),
{
    let ghost views = string_views(lines@);
    let ghost v0 = empty_view();
    let (mut disk, mut cwd) = new_disk();
    let n = lines.len();
    for i in 0..n
        invariant
            n == lines@.len(),
            views == string_views(lines@),
            v0 == empty_view(),
            forall|k: int| 0 <= k < lines@.len() ==> line_ok(#[trigger] lines@[k]@),
            wf(disk_view(&disk)),
            valid_cwd(disk_view(&disk), cwd@),
            session_spec(v0, seq![0usize], views, i as nat) == Ok::<(Seq<DirView>, Seq<usize>), ErrKind>((disk_view(&disk), cwd@)),
    {
        let line = lines[i].as_str();
        proof {
            assert(views[i as int] == line@);
            assert(line_ok(lines@[i as int]@));
        }
        let len = line.unicode_len();
        if len != 0 {
            let res = if line.get_char(0) == '$' {
                let cmd = line.substring_char(2, len);
                proof {
                    assert(cmd@ == line@.skip(2));
                    assert(cmd@.take(2) == line@.skip(2).take(2));
                }
                process_command(cmd, &mut cwd, &mut disk)
            } else {
                process_output(line, &cwd, &mut disk)
            };
            match res {
                Ok(()) => {},
                Err(e) => {
                    proof {
                        let k = if line@[0] == '$' {
                            command_spec(session_spec(v0, seq![0usize], views, i as nat)->Ok_0.0,
                                session_spec(v0, seq![0usize], views, i as nat)->Ok_0.1, line@.skip(2))->Err_0
                        } else {
                            output_spec(session_spec(v0, seq![0usize], views, i as nat)->Ok_0.0,
                                session_spec(v0, seq![0usize], views, i as nat)->Ok_0.1, line@)->Err_0
                        };
                        assert(session_spec(v0, seq![0usize], views, (i + 1) as nat) == Err::<(Seq<DirView>, Seq<usize>), ErrKind>(k));
                        lemma_session_error_stays(v0, seq![0usize], views, (i + 1) as nat, n as nat, k);
                    }
                    return Err(e);
                },
            }
        }
    }
    Ok(disk)
}

/// The sum of the sizes of the first `k` entries.
pub open spec fn entries_size(entries: Seq<(Seq<char>, int)>, k: int) -> int
    decreases k,
{
    if k <= 0 { 0 } else { entries_size(entries, k - 1) + entries[k - 1].1 }
}

/// The total size of directory `d`: its files and all its subdirectories.
pub open spec fn tree_size(v: Seq<DirView>, d: int) -> int
    decreases v.len() - d, v[d].children.len() + 1,
{
    if 0 <= d < v.len() {
        entries_size(v[d].files, v[d].files.len() as int) + children_size(v, d, v[d].children.len() as int)
    } else {
        0
    }
}

/// The sum of the total sizes of the first `k` subdirectories of `d`.
pub open spec fn children_size(v: Seq<DirView>, d: int, k: int) -> int
    decreases v.len() - d, k,
{
    if k <= 0 || d < 0 || d >= v.len() || k > v[d].children.len() {
        0
    } else {
        let c = v[d].children[k - 1].1;
        children_size(v, d, k - 1) + if d < c < v.len() { tree_size(v, c) } else { 0 }
    }
}

/// File sizes are never negative.
pub open spec fn sizes_nonneg(v: Seq<DirView>) -> bool {
    forall|e: int, j: int| 0 <= e < v.len() && 0 <= j < v[e].files.len() ==> (#[trigger] v[e].files[j]).1 >= 0
}

proof fn lemma_tree_nonneg(v: Seq<DirView>, d: int)
    requires
        sizes_nonneg(v),
    ensures
        tree_size(v, d) >= 0,
    decreases v.len() - d, v[d].children.len() + 1,
{
    if 0 <= d < v.len() {
        lemma_files_nonneg(v, d, v[d].files.len() as int);
        lemma_children_nonneg(v, d, v[d].children.len() as int);
    }
}

proof fn lemma_children_nonneg(v: Seq<DirView>, d: int, k: int)
    requires
        sizes_nonneg(v),
    ensures
        children_size(v, d, k) >= 0,
    decreases v.len() - d, k,
{
    if !(k <= 0 || d < 0 || d >= v.len() || k > v[d].children.len()) {
        lemma_children_nonneg(v, d, k - 1);
        let c = v[d].children[k - 1].1;
        if d < c < v.len() {
            lemma_tree_nonneg(v, c);
        }
    }
}

proof fn lemma_files_nonneg(v: Seq<DirView>, d: int, k: int)
    requires
        0 <= d < v.len(),
        0 <= k <= v[d].files.len(),
        sizes_nonneg(v),
    ensures
        entries_size(v[d].files, k) >= 0,
    decreases k,
{
    if k > 0 {
        lemma_files_nonneg(v, d, k - 1);
        assert(v[d].files[k - 1].1 >= 0);
    }
}

proof fn lemma_entries_prefix(v: Seq<DirView>, d: int, k: int, m: int)
    requires
        0 <= d < v.len(),
        0 <= k <= m <= v[d].files.len(),
        sizes_nonneg(v),
    ensures
        entries_size(v[d].files, k) <= entries_size(v[d].files, m),
    decreases m - k,
{
    if k < m {
        lemma_entries_prefix(v, d, k, m - 1);
        assert(v[d].files[m - 1].1 >= 0);
    }
}

proof fn lemma_children_prefix(v: Seq<DirView>, d: int, k: int, m: int)
    requires
        0 <= d < v.len(),
        0 <= k <= m <= v[d].children.len(),
        sizes_nonneg(v),
    ensures
        children_size(v, d, k) <= children_size(v, d, m),
    decreases m - k,
{
    if k < m {
        lemma_children_prefix(v, d, k, m - 1);
        let c = v[d].children[m - 1].1;
        if d < c < v.len() {
            lemma_tree_nonneg(v, c);
        }
    }
}

/// Every directory's total size fits in a `usize`.
pub open spec fn sizes_fit(v: Seq<DirView>) -> bool {
    forall|d: int| 0 <= d < v.len() ==> #[trigger] tree_size(v, d) <= usize::MAX
}

/// Stores every directory's total size in its `size` field and returns the
/// total size of the root.
pub fn compute_size(disk: &mut Disk) -> (r: usize)
    requires
        wf(disk_view(old(disk))),
        sizes_fit(disk_view(old(disk))),
    ensures
        disk_view(final(disk)) == disk_view(old(disk)),
        final(disk).dirs@.len() == old(disk).dirs@.len(),
        forall|d: int| 0 <= d < final(disk).dirs@.len() ==> (#[trigger] final(disk).dirs@[d]).size
            == tree_size(disk_view(old(disk)), d),
        r == tree_size(disk_view(old(disk)), 0),
{
    let ghost v = disk_view(disk);
    proof {
        assert forall|e: int, j: int| 0 <= e < v.len() && 0 <= j < v[e].files.len() implies
            (#[trigger] v[e].files[j]).1 >= 0 by {
            assert(v[e].files[j].1 == disk.dirs@[e].files@[j].size);
        }
    }
    let n = disk.dirs.len();
    let mut i = n;
    while i > 0
        invariant
            i <= n,
            n == disk.dirs@.len(),
            v == disk_view(disk),
            wf(v),
            sizes_nonneg(v),
            sizes_fit(v),
            forall|e: int| i <= e < n ==> (#[trigger] disk.dirs@[e]).size == tree_size(v, e),
        decreases i,
    {
        i = i - 1;
        let d = i;
        let nf = disk.dirs[d].files.len();
        let mut size: usize = 0;
        proof {
            lemma_children_nonneg(v, d as int, v[d as int].children.len() as int);
        }
        for k in 0..nf
            invariant
                nf == v[d as int].files.len(),
                d < n,
                n == disk.dirs@.len(),
                v == disk_view(disk),
                sizes_nonneg(v),
                sizes_fit(v),
                children_size(v, d as int, v[d as int].children.len() as int) >= 0,
                size == entries_size(v[d as int].files, k as int),
        {
            proof {
                lemma_entries_prefix(v, d as int, k + 1, nf as int);
                assert(v[d as int].files[k as int].1 == disk.dirs@[d as int].files@[k as int].size);
                assert(tree_size(v, d as int) <= usize::MAX);
                assert(tree_size(v, d as int) == entries_size(v[d as int].files, nf as int)
                    + children_size(v, d as int, v[d as int].children.len() as int));
            }
            size = size + disk.dirs[d].files[k].size;
        }
        let nc = disk.dirs[d].directories.len();
        for k in 0..nc
            invariant
                nc == v[d as int].children.len(),
                d < n,
                n == disk.dirs@.len(),
                v == disk_view(disk),
                wf(v),
                sizes_nonneg(v),
                sizes_fit(v),
                forall|e: int| d < e < n ==> (#[trigger] disk.dirs@[e]).size == tree_size(v, e),
                size == entries_size(v[d as int].files, v[d as int].files.len() as int) + children_size(v, d as int, k as int),
        {
            let c = disk.dirs[d].directories[k].1;
            proof {
                assert(v[d as int].children[k as int].1 == c);
                lemma_children_prefix(v, d as int, k + 1, nc as int);
                lemma_files_nonneg(v, d as int, v[d as int].files.len() as int);
                assert(d < c < n);
                assert(tree_size(v, d as int) <= usize::MAX);
                assert(tree_size(v, d as int) == entries_size(v[d as int].files, v[d as int].files.len() as int)
                    + children_size(v, d as int, nc as int));
                assert(children_size(v, d as int, k + 1) == children_size(v, d as int, k as int) + tree_size(v, c as int));
            }
            size = size + disk.dirs[c].size;
        }
        disk.dirs[d].size = size;
        proof {
            assert(disk_view(disk) =~= v);
        }
    }
    disk.dirs[0].size
}

/// The sum of the total sizes, among the first `k` directories, of those of
/// at most 100000.
pub open spec fn small_sum(v: Seq<DirView>, k: int) -> int
    decreases k,
{
    if k <= 0 {
        0
    } else {
        small_sum(v, k - 1) + if tree_size(v, k - 1) <= 100000 { tree_size(v, k - 1) } else { 0 }
    }
}

/// The sum of the total sizes of all directories of at most 100000, once
/// `compute_size` has stored them.
pub fn sum_small(disk: &Disk) -> (r: usize)
    requires
        forall|d: int| 0 <= d < disk.dirs@.len() ==> (#[trigger] disk.dirs@[d]).size == tree_size(disk_view(disk), d),
        small_sum(disk_view(disk), disk.dirs@.len() as int) <= usize::MAX,
        sizes_nonneg(disk_view(disk)),
    ensures
        r == small_sum(disk_view(disk), disk.dirs@.len() as int),
{
    let ghost v = disk_view(disk);
    let mut sum: usize = 0;
    let n = disk.dirs.len();
    for d in 0..n
        invariant
            n == disk.dirs@.len(),
            v == disk_view(disk),
            sizes_nonneg(v),
            forall|e: int| 0 <= e < n ==> (#[trigger] disk.dirs@[e]).size == tree_size(v, e),
            small_sum(v, n as int) <= usize::MAX,
            sum == small_sum(v, d as int),
    {
        proof {
            lemma_small_prefix(v, d + 1, n as int);
        }
        let size = disk.dirs[d].size;
        if size <= 100000 {
            sum = sum + size;
        }
    }
    sum
}

proof fn lemma_small_prefix(v: Seq<DirView>, k: int, m: int)
    requires
        0 <= k <= m,
        sizes_nonneg(v),
    ensures
        small_sum(v, k) <= small_sum(v, m),
    decreases m - k,
{
    if k < m {
        lemma_small_prefix(v, k, m - 1);
        lemma_tree_nonneg(v, m - 1);
    }
}

} // verus!
