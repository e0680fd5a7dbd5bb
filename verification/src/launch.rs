//! Turning a package's command into a running module: which program is meant and whether it may
//! be run, what the process is given, and what becomes of its output.
//!
//! Paths, arguments and variables are bytes, as the system has them, wherever they need not be
//! shown. The system itself is asked elsewhere; here its answers are judged.
use crate::frame::IoFault;
use crate::text;
use vstd::prelude::*;
use vstd::string::*;

verus! {

/// Which fd the module's listening socket arrives on.
pub const ENV_LISTEN_FD: &'static str = "A24_LISTEN_FD";

/// Where the module connects and sends its first frame.
pub const ENV_CALLBACK_SOCK: &'static str = "A24_CALLBACK_SOCK";

/// The secret of this one process.
pub const ENV_HANDSHAKE_TOKEN: &'static str = "A24_HANDSHAKE_TOKEN";

/// The module's own data directory.
pub const ENV_DATA_DIR: &'static str = "A24_DATA_DIR";

/// Marks a process that was started to become a module.
pub const ENV_TRAMPOLINE: &'static str = "A24_TRAMPOLINE";

/// The fd of the listening socket: the first after the standard ones.
pub const LISTEN_FD: i32 = 3;

/// The variables of the kernel's own environment that a module inherits, besides those for the
/// locale: enough for an interpreter to find itself, and nothing that names a credential.
pub const INHERITED_ENV: [&'static str; 6] = ["PATH", "HOME", "LANG", "TZ", "TMPDIR", "USER"];

/// Marks, in the arguments, where the module's program and its arguments begin.
pub const TRAMPOLINE_ARG: &'static str = "--a24-exec-module";

/// Where a scan for open fds may have stopped. One at or above it may have been missed.
pub const FALLBACK_SCAN_END: i32 = 65_536;

/// The most entries that a package may have and still be started: all of them are looked at.
pub const MAX_PACKAGE_ENTRIES: usize = 200_000;

/// How many random bytes a handshake token is made of.
pub const TOKEN_BYTES: usize = 32;

/// The longest line of output that is logged.
pub const MAX_LOG_LINE: usize = 4096;

/// The most lines of one stream that are logged in a second.
pub const LOG_LINES_PER_SECOND: u32 = 200;

// ---------------------------------------------------------------------------
// Errors
// ---------------------------------------------------------------------------

/// Why a module could not be started.
#[derive(Debug)]
pub enum LaunchError {
    /// The command names no program, and why.
    Unresolved(String),
    /// It names one outside the package.
    EscapesPackage { resolved: Vec<u8>, package: Vec<u8> },
    /// The system refused to start it.
    Spawn(IoFault),
    /// There is no fresh token. An old one is never used again.
    NoEntropy(IoFault),
    /// Someone else could replace what is about to be run.
    UnsafeOwnership(Vec<u8>),
    /// Something in the package could not be looked at.
    Inspect { path: Vec<u8>, error: IoFault },
    /// The package has too many entries.
    TooLarge { package: Vec<u8> },
}

impl LaunchError {
    pub open spec fn text(self) -> Seq<char> {
        match self {
            LaunchError::Unresolved(s) => s@,
            LaunchError::EscapesPackage { resolved, package } => {
                "the spawn command resolves to "@ + text::lossy_text(resolved@)
                    + ", which is outside the package at "@ + text::lossy_text(package@)
            },
            LaunchError::Spawn(e) => "could not start the module process: "@ + e.text@,
            LaunchError::NoEntropy(e) => "could not mint a handshake token: "@ + e.text@,
            LaunchError::Inspect { path, error } => "could not inspect "@ + text::lossy_text(
                path@,
            ) + ": "@ + error.text@,
            LaunchError::TooLarge { package } => "the package at "@ + text::lossy_text(
                package@,
            ) + " has more than "@
                + text::decimal(MAX_PACKAGE_ENTRIES as nat)
                + " entries; too many to check at every start"@,
            LaunchError::UnsafeOwnership(p) => text::lossy_text(p@)
                + " is not owned by this user, or is writable by group or others; refusing to run a module from it"@,
        }
    }

    /// The failure in words.
    pub fn to_text(&self) -> (r: String)
        ensures
            r@ == self.text(),
    {
        match self {
            LaunchError::Unresolved(s) => s.clone(),
            LaunchError::EscapesPackage { resolved, package } => {
                let mut out = "the spawn command resolves to ".to_owned();
                out.append(text::shown(resolved).as_str());
                out.append(", which is outside the package at ");
                out.append(text::shown(package).as_str());
                out
            },
            LaunchError::Spawn(e) => {
                let mut out = "could not start the module process: ".to_owned();
                out.append(e.text.as_str());
                out
            },
            LaunchError::NoEntropy(e) => {
                let mut out = "could not mint a handshake token: ".to_owned();
                out.append(e.text.as_str());
                out
            },
            LaunchError::Inspect { path, error } => {
                let mut out = "could not inspect ".to_owned();
                out.append(text::shown(path).as_str());
                out.append(": ");
                out.append(error.text.as_str());
                out
            },
            LaunchError::TooLarge { package } => {
                let mut out = "the package at ".to_owned();
                out.append(text::shown(package).as_str());
                out.append(" has more than ");
                out.append(text::decimal_string(MAX_PACKAGE_ENTRIES as u64).as_str());
                out.append(" entries; too many to check at every start");
                out
            },
            LaunchError::UnsafeOwnership(p) => {
                let mut out = text::shown(p);
                out.append(
                    " is not owned by this user, or is writable by group or others; refusing to run a module from it",
                );
                out
            },
        }
    }
}

// ---------------------------------------------------------------------------
// Which program
// ---------------------------------------------------------------------------

/// What a manifest names to be run.
#[derive(Debug)]
pub struct SpawnCommand {
    pub command: String,
    pub args: Vec<String>,
}

/// Whether a path starts at the root.
pub open spec fn is_absolute(path: Seq<u8>) -> bool {
    path.len() > 0 && path[0] == 0x2f
}

fn absolute(path: &[u8]) -> (r: bool)
    ensures
        r == is_absolute(path@),
{
    path.len() > 0 && path[0] == 0x2f
}

/// The parts of a path: the root, where the path starts there, and the names between the slashes.
pub open spec fn components(path: Seq<u8>) -> Seq<Seq<u8>> {
    if is_absolute(path) {
        seq![seq![0x2fu8]] + names(text::pieces(path, 0x2f))
    } else {
        names(text::pieces(path, 0x2f))
    }
}

/// What is named between slashes. Nothing at all names nothing, and neither does a dot after a
/// slash.
pub open spec fn names(parts: Seq<Seq<u8>>) -> Seq<Seq<u8>>
    decreases parts.len(),
{
    if parts.len() == 0 {
        Seq::empty()
    } else if parts.last().len() == 0 || (parts.len() > 1 && parts.last() == seq![0x2eu8]) {
        names(parts.drop_last())
    } else {
        names(parts.drop_last()).push(parts.last())
    }
}

/// Whether a path lies in a directory, or is the directory. A name that merely begins alike does
/// not count.
pub open spec fn lies_in(package: Seq<u8>, path: Seq<u8>) -> bool {
    &&& components(package).len() <= components(path).len()
    &&& components(path).take(components(package).len() as int) == components(package)
}

fn split_path(path: &[u8]) -> (r: Vec<Vec<u8>>)
    ensures
        text::contents(r@) == components(path@),
{
    let parts = text::split_bytes(path, 0x2f);
    let ghost all = text::contents(parts@);
    let mut out: Vec<Vec<u8>> = Vec::new();
    if absolute(path) {
        let mut root: Vec<u8> = Vec::new();
        root.push(0x2f);
        assert(root@ =~= seq![0x2fu8]);
        out.push(root);
    }
    let ghost start = text::contents(out@);
    let mut i: usize = 0;
    assert(all.take(0) =~= Seq::<Seq<u8>>::empty());
    assert(start =~= start + Seq::<Seq<u8>>::empty());
    while i < parts.len()
        invariant
            i <= parts@.len(),
            all == text::contents(parts@),
            text::contents(out@) == start + names(all.take(i as int)),
        decreases parts@.len() - i,
    {
        let ghost next = all.take(i + 1);
        let ghost before = text::contents(out@);
        assert(next.drop_last() =~= all.take(i as int));
        assert(next.last() == parts@[i as int]@);
        let dot = parts[i].len() == 1 && parts[i][0] == 0x2e;
        proof {
            if dot {
                assert(next.last() =~= seq![0x2eu8]);
            }
        }
        if parts[i].len() > 0 && !(i > 0 && dot) {
            out.push(text::copy_bytes(parts[i].as_slice()));
            assert(text::contents(out@) =~= before.push(next.last()));
            assert(text::contents(out@) =~= start + names(next));
        }
        i = i + 1;
    }
    assert(all.take(all.len() as int) =~= all);
    proof {
        if is_absolute(path@) {
            assert(start =~= seq![seq![0x2fu8]]);
        } else {
            assert(start + names(all) =~= names(all));
        }
    }
    out
}

/// Whether a path lies in a directory, or is the directory.
pub fn is_in(package: &[u8], path: &[u8]) -> (r: bool)
    ensures
        r == lies_in(package@, path@),
{
    let a = split_path(package);
    let b = split_path(path);
    let ghost x = text::contents(a@);
    let ghost y = text::contents(b@);
    if a.len() > b.len() {
        return false;
    }
    let mut i: usize = 0;
    while i < a.len()
        invariant
            i <= a@.len() <= b@.len(),
            x == text::contents(a@),
            y == text::contents(b@),
            x == components(package@),
            y == components(path@),
            forall|j: int| 0 <= j < i ==> x[j] == y[j],
        decreases a@.len() - i,
    {
        assert(x[i as int] == a@[i as int]@);
        assert(y[i as int] == b@[i as int]@);
        if !text::same_bytes(a[i].as_slice(), b[i].as_slice()) {
            assert(y.take(x.len() as int)[i as int] != x[i as int]);
            return false;
        }
        i = i + 1;
    }
    assert(y.take(x.len() as int) =~= x);
    true
}

/// A path in a directory; one that starts at the root stands for itself.
pub open spec fn path_join(dir: Seq<u8>, name: Seq<u8>) -> Seq<u8> {
    if is_absolute(name) {
        name
    } else if dir.len() == 0 || dir.last() == 0x2f {
        dir + name
    } else {
        dir.push(0x2f) + name
    }
}

pub fn join_path(dir: &[u8], name: &[u8]) -> (r: Vec<u8>)
    ensures
        r@ == path_join(dir@, name@),
{
    if absolute(name) {
        return text::copy_bytes(name);
    }
    if dir.len() == 0 || dir[dir.len() - 1] == 0x2f {
        text::concat_bytes(dir, name)
    } else {
        let mut out = text::copy_bytes(dir);
        out.push(0x2f);
        text::concat_bytes(out.as_slice(), name)
    }
}

/// Whether a command is a bare name.
pub open spec fn is_bare(command: Seq<char>) -> bool {
    !command.contains('/')
}

fn bare(command: &str) -> (r: bool)
    ensures
        r == is_bare(command@),
{
    let chars = text::chars_of(command);
    let mut i: usize = 0;
    while i < chars.len()
        invariant
            i <= chars@.len(),
            chars@ == command@,
            forall|j: int| 0 <= j < i ==> chars@[j] != '/',
        decreases chars@.len() - i,
    {
        if chars[i] == '/' {
            assert(command@[i as int] == '/');
            return false;
        }
        i = i + 1;
    }
    true
}

/// A name in a directory.
pub open spec fn bytes_join(dir: Seq<u8>, name: Seq<u8>) -> Seq<u8> {
    if dir.last() == 0x2f {
        dir + name
    } else {
        dir.push(0x2f) + name
    }
}

/// The places where a bare name is looked for, among the first `n` directories. A relative directory
/// would be looked into from one place and run from another, so none is.
pub open spec fn places(dirs: Seq<Seq<u8>>, n: int, name: Seq<u8>) -> Seq<Seq<u8>>
    decreases n,
{
    if n <= 0 || dirs.len() < n {
        Seq::empty()
    } else if is_absolute(dirs[n - 1]) {
        places(dirs, n - 1, name).push(bytes_join(dirs[n - 1], name))
    } else {
        places(dirs, n - 1, name)
    }
}

/// The places where a bare name is looked for, in order.
pub open spec fn search_places(path: Option<Seq<u8>>, name: Seq<u8>) -> Seq<Seq<u8>> {
    match path {
        Some(path) => places(
            text::pieces(path, 0x3a),
            text::pieces(path, 0x3a).len() as int,
            name,
        ),
        None => Seq::empty(),
    }
}

/// The places where a bare name is looked for, in order.
pub fn which_in(name: &[u8], path: &[u8]) -> (r: Vec<Vec<u8>>)
    ensures
        text::contents(r@) == search_places(Some(path@), name@),
{
    let dirs = text::split_bytes(path, 0x3a);
    let ghost all = text::pieces(path@, 0x3a);
    let mut out: Vec<Vec<u8>> = Vec::new();
    assert(text::contents(out@) =~= Seq::<Seq<u8>>::empty());
    let mut i: usize = 0;
    while i < dirs.len()
        invariant
            i <= dirs@.len(),
            all == text::contents(dirs@),
            text::contents(out@) == places(all, i as int, name@),
        decreases dirs@.len() - i,
    {
        assert(all[i as int] == dirs@[i as int]@);
        let ghost before = text::contents(out@);
        if dirs[i].len() > 0 && dirs[i][0] == 0x2f {
            let mut place = vstd::slice::slice_to_vec(dirs[i].as_slice());
            if place[place.len() - 1] != 0x2f {
                place.push(0x2f);
            }
            let ghost start = place@;
            let mut j: usize = 0;
            while j < name.len()
                invariant
                    j <= name@.len(),
                    place@ == start + name@.take(j as int),
                decreases name@.len() - j,
            {
                place.push(name[j]);
                j = j + 1;
                assert(place@ =~= start + name@.take(j as int));
            }
            assert(name@.take(j as int) =~= name@);
            assert(place@ =~= bytes_join(all[i as int], name@));
            let ghost done = place@;
            out.push(place);
            assert(text::contents(out@) =~= before.push(done));
        }
        i = i + 1;
    }
    out
}

/// What was found at one of those places.
#[derive(Debug, Clone, Copy, PartialEq, Eq, Structural)]
pub struct FileSeen {
    pub is_file: bool,
    pub mode: u32,
}

/// Whether what was found, if anything was, can be run.
pub open spec fn is_program(seen: Option<FileSeen>) -> bool {
    seen matches Some(file) && file.is_file && file.mode & 0o111 != 0
}

/// Whether a file can be run.
pub fn is_executable_file(is_file: bool, mode: u32) -> (r: bool)
    ensures
        r == (is_file && mode & 0o111 != 0),
{
    is_file && mode & 0o111 != 0
}

// ---------------------------------------------------------------------------
// Who may have written it
// ---------------------------------------------------------------------------

/// What is known of one entry of a package. Links are not followed.
#[derive(Debug, Clone, Copy, PartialEq, Eq, Structural)]
pub struct Entry {
    pub uid: u32,
    pub mode: u32,
    pub is_symlink: bool,
    pub is_dir: bool,
}

/// Whether an entry is this user's, and no one else can write it. The mode of a link means
/// nothing.
pub open spec fn is_safe(entry: Entry, me: u32) -> bool {
    entry.uid == me && (entry.is_symlink || entry.mode & 0o022 == 0)
}

/// Where a walk stands, as mathematics.
pub enum WalkStage {
    /// The next entry can be looked at.
    Ready,
    /// That entry is looked at.
    Looking(Seq<u8>),
    /// The entries of that directory are listed.
    Listing(Seq<u8>),
    /// Something in the package was refused.
    Refused,
}

#[derive(Debug)]
enum Stage {
    Ready,
    Looking(Vec<u8>),
    Listing(Vec<u8>),
    Refused,
}

/// A walk through a package.
pub struct TreeWalk {
    root: Vec<u8>,
    me: u32,
    pending: Vec<Vec<u8>>,
    found: usize,
    stage: Stage,
    discovered: Ghost<Seq<Seq<u8>>>,
    judged: Ghost<Seq<(Seq<u8>, Entry)>>,
    listed: Ghost<Seq<Seq<u8>>>,
}

/// Whether a path was judged.
pub open spec fn was_judged(judged: Seq<(Seq<u8>, Entry)>, path: Seq<u8>) -> bool {
    exists|i: int| 0 <= i < judged.len() && (#[trigger] judged[i]).0 == path
}

impl TreeWalk {
    pub closed spec fn root(&self) -> Seq<u8> {
        self.root@
    }

    pub closed spec fn me(&self) -> u32 {
        self.me
    }

    /// What is still to be looked at; the last is next.
    pub closed spec fn pending(&self) -> Seq<Seq<u8>> {
        text::contents(self.pending@)
    }

    /// How many entries were found.
    pub closed spec fn found(&self) -> nat {
        self.found as nat
    }

    pub closed spec fn stage(&self) -> WalkStage {
        match self.stage {
            Stage::Ready => WalkStage::Ready,
            Stage::Looking(path) => WalkStage::Looking(path@),
            Stage::Listing(dir) => WalkStage::Listing(dir@),
            Stage::Refused => WalkStage::Refused,
        }
    }

    /// The root, and every entry that a listing brought.
    pub closed spec fn discovered(&self) -> Seq<Seq<u8>> {
        self.discovered@
    }

    /// What was looked at and passed, with what was seen.
    pub closed spec fn judged(&self) -> Seq<(Seq<u8>, Entry)> {
        self.judged@
    }

    /// The directories whose entries were listed to the end.
    pub closed spec fn listed(&self) -> Seq<Seq<u8>> {
        self.listed@
    }

    /// No more entries are held than there may be. As long as nothing was refused, whatever was
    /// found has passed, or is looked at, or is still to be; whatever passed is safe, and every
    /// directory among it was listed to the end, or is being listed.
    pub open spec fn wf(&self) -> bool {
        &&& self.pending().len() <= self.found() <= MAX_PACKAGE_ENTRIES
        &&& self.discovered().contains(self.root())
        &&& forall|i: int|
            0 <= i < self.judged().len() ==> is_safe((#[trigger] self.judged()[i]).1, self.me())
        &&& !(self.stage() is Refused) ==> {
            &&& self.discovered().len() == self.found()
            &&& forall|path: Seq<u8>| #[trigger]
                self.discovered().contains(path) ==> self.pending().contains(path) || self.stage()
                    == WalkStage::Looking(path) || was_judged(self.judged(), path)
            &&& forall|i: int|
                0 <= i < self.judged().len() && (#[trigger] self.judged()[i]).1.is_dir
                    ==> self.listed().contains(self.judged()[i].0) || self.stage()
                    == WalkStage::Listing(self.judged()[i].0)
        }
    }

    /// Begins at the root, which counts as found.
    pub fn new(root: &[u8], me: u32) -> (r: TreeWalk)
        ensures
            r.wf(),
            r.root() == root@,
            r.me() == me,
            r.pending() == seq![root@],
            r.found() == 1,
            r.stage() is Ready,
            r.discovered() == seq![root@],
            r.judged() == Seq::<(Seq<u8>, Entry)>::empty(),
            r.listed() == Seq::<Seq<u8>>::empty(),
    {
        let mut pending: Vec<Vec<u8>> = Vec::new();
        pending.push(text::copy_bytes(root));
        let ghost start = seq![root@];
        assert(text::contents(pending@) =~= start);
        let r = TreeWalk {
            root: text::copy_bytes(root),
            me,
            pending,
            found: 1,
            stage: Stage::Ready,
            discovered: Ghost(start),
            judged: Ghost(Seq::empty()),
            listed: Ghost(Seq::empty()),
        };
        proof {
            assert(r.discovered()[0] == root@);
            assert(r.pending()[0] == root@);
            assert forall|path: Seq<u8>| #[trigger]
                r.discovered().contains(path) implies r.pending().contains(path) by {
                assert(path == root@);
            }
        }
        r
    }

    /// What to look at next; nothing once all was looked at.
    pub fn next(&mut self) -> (r: Option<Vec<u8>>)
        requires
            old(self).wf(),
            old(self).stage() is Ready,
        ensures
            final(self).wf(),
            final(self).root() == old(self).root(),
            final(self).me() == old(self).me(),
            final(self).found() == old(self).found(),
            final(self).discovered() == old(self).discovered(),
            final(self).judged() == old(self).judged(),
            final(self).listed() == old(self).listed(),
            match r {
                Some(path) => {
                    &&& old(self).pending().len() > 0
                    &&& path@ == old(self).pending().last()
                    &&& final(self).pending() == old(self).pending().drop_last()
                    &&& final(self).stage() == WalkStage::Looking(path@)
                },
                None => {
                    &&& old(self).pending().len() == 0
                    &&& final(self).pending() == old(self).pending()
                    &&& final(self).stage() is Ready
                },
            },
    {
        let ghost before = self.pending();
        match self.pending.pop() {
            Some(path) => {
                let copy = text::copy_bytes(path.as_slice());
                self.stage = Stage::Looking(path);
                proof {
                    let after = self.pending();
                    assert(after =~= before.drop_last());
                    assert forall|p: Seq<u8>| #[trigger]
                        self.discovered().contains(p) implies after.contains(p) || self.stage()
                        == WalkStage::Looking(p) || was_judged(self.judged(), p) by {
                        if before.contains(p) {
                            let i = choose|i: int| 0 <= i < before.len() && before[i] == p;
                            if i < after.len() {
                                assert(after[i] == p);
                            }
                        }
                    }
                }
                Some(copy)
            },
            None => {
                assert(self.pending() =~= before);
                None
            },
        }
    }

    /// Judges the entry that is looked at: whether its own entries are to be listed.
    pub fn judge(&mut self, entry: Result<Entry, IoFault>) -> (r: Result<bool, LaunchError>)
        requires
            old(self).wf(),
            old(self).stage() is Looking,
        ensures
            final(self).wf(),
            final(self).root() == old(self).root(),
            final(self).me() == old(self).me(),
            final(self).found() == old(self).found(),
            final(self).pending() == old(self).pending(),
            final(self).discovered() == old(self).discovered(),
            final(self).listed() == old(self).listed(),
            ({
                let path = old(self).stage()->Looking_0;
                match entry {
                    Ok(entry) if is_safe(entry, old(self).me()) => {
                        &&& r == Ok::<bool, LaunchError>(entry.is_dir)
                        &&& final(self).judged() == old(self).judged().push((path, entry))
                        &&& final(self).stage() == (if entry.is_dir {
                            WalkStage::Listing(path)
                        } else {
                            WalkStage::Ready
                        })
                    },
                    Ok(_) => {
                        &&& r matches Err(LaunchError::UnsafeOwnership(p))
                        &&& p@ == path
                        &&& final(self).judged() == old(self).judged()
                        &&& final(self).stage() is Refused
                    },
                    Err(e) => {
                        &&& r matches Err(LaunchError::Inspect { path: p, error })
                        &&& p@ == path
                        &&& error == e
                        &&& final(self).judged() == old(self).judged()
                        &&& final(self).stage() is Refused
                    },
                }
            }),
    {
        let ghost was = self.stage();
        let ghost before = self.judged();
        let mut stage = Stage::Refused;
        std::mem::swap(&mut self.stage, &mut stage);
        let path = match stage {
            Stage::Looking(path) => path,
            _ => Vec::new(),
        };
        assert(was == WalkStage::Looking(path@));
        let entry = match entry {
            Err(error) => {
                return Err(LaunchError::Inspect { path, error });
            },
            Ok(entry) => entry,
        };
        if entry.uid != self.me || (!entry.is_symlink && entry.mode & 0o022 != 0) {
            return Err(LaunchError::UnsafeOwnership(path));
        }
        proof {
            self.judged@ = before.push((path@, entry));
        }
        let ghost now = before.push((path@, entry));
        let ghost here = path@;
        self.stage = if entry.is_dir {
            Stage::Listing(path)
        } else {
            Stage::Ready
        };
        proof {
            assert(self.judged() == now);
            assert(now[before.len() as int].0 == here);
            assert forall|i: int| 0 <= i < now.len() implies is_safe(
                (#[trigger] now[i]).1,
                self.me(),
            ) by {
                if i < before.len() {
                    assert(now[i] == before[i]);
                }
            }
            assert forall|p: Seq<u8>| #[trigger]
                self.discovered().contains(p) implies self.pending().contains(p) || was_judged(
                now,
                p,
            ) by {
                if was_judged(before, p) {
                    let i = choose|i: int| 0 <= i < before.len() && (#[trigger] before[i]).0 == p;
                    assert(now[i].0 == p);
                } else if !self.pending().contains(p) {
                    assert(was == WalkStage::Looking(p));
                }
            }
            assert forall|i: int|
                0 <= i < now.len() && (#[trigger] now[i]).1.is_dir implies self.listed().contains(
                now[i].0,
            ) || self.stage() == WalkStage::Listing(now[i].0) by {
                if i < before.len() {
                    assert(now[i] == before[i]);
                }
            }
        }
        Ok(entry.is_dir)
    }

    /// An entry was found in the directory that is listed. It counts when it is found, not when it
    /// is looked at, so no more are held than there may be.
    pub fn on_entry(&mut self, entry: Result<Vec<u8>, IoFault>) -> (r: Result<(), LaunchError>)
        requires
            old(self).wf(),
            old(self).stage() is Listing,
        ensures
            final(self).wf(),
            final(self).root() == old(self).root(),
            final(self).me() == old(self).me(),
            final(self).judged() == old(self).judged(),
            final(self).listed() == old(self).listed(),
            if old(self).found() >= MAX_PACKAGE_ENTRIES {
                &&& r matches Err(LaunchError::TooLarge { package })
                &&& package@ == old(self).root()
                &&& final(self).pending() == old(self).pending()
                &&& final(self).found() == old(self).found()
                &&& final(self).discovered() == old(self).discovered()
                &&& final(self).stage() is Refused
            } else {
                &&& final(self).found() == old(self).found() + 1
                &&& match entry {
                    Ok(path) => {
                        &&& r is Ok
                        &&& final(self).pending() == old(self).pending().push(path@)
                        &&& final(self).discovered() == old(self).discovered().push(path@)
                        &&& final(self).stage() == old(self).stage()
                    },
                    Err(e) => {
                        &&& r matches Err(LaunchError::Inspect { path, error })
                        &&& path@ == old(self).stage()->Listing_0
                        &&& error == e
                        &&& final(self).pending() == old(self).pending()
                        &&& final(self).discovered() == old(self).discovered()
                        &&& final(self).stage() is Refused
                    },
                }
            },
    {
        if self.found >= MAX_PACKAGE_ENTRIES {
            self.stage = Stage::Refused;
            assert(self.judged() == old(self).judged());
            return Err(LaunchError::TooLarge { package: text::copy_bytes(self.root.as_slice()) });
        }
        self.found = self.found + 1;
        match entry {
            Ok(path) => {
                let ghost before = self.pending();
                let ghost known = self.discovered();
                let ghost added = path@;
                self.pending.push(path);
                proof {
                    self.discovered@ = known.push(added);
                    let after = self.pending();
                    let now = self.discovered();
                    assert(self.judged() == old(self).judged());
                    assert(self.stage() == old(self).stage());
                    assert(after =~= before.push(added));
                    assert(after[before.len() as int] == added);
                    assert forall|p: Seq<u8>| #[trigger]
                        now.contains(p) implies after.contains(p) || was_judged(
                        self.judged(),
                        p,
                    ) by {
                        let i = choose|i: int| 0 <= i < now.len() && now[i] == p;
                        if i < known.len() {
                            assert(known[i] == p);
                            assert(known.contains(p));
                            if before.contains(p) {
                                let j = choose|j: int| 0 <= j < before.len() && before[j] == p;
                                assert(after[j] == p);
                            }
                        }
                    }
                    assert(known.contains(self.root()));
                    let i = choose|i: int| 0 <= i < known.len() && known[i] == self.root();
                    assert(now[i] == self.root());
                }
                Ok(())
            },
            Err(error) => {
                let path = self.refuse();
                assert(self.judged() == old(self).judged());
                Err(LaunchError::Inspect { path, error })
            },
        }
    }

    /// The entries of a directory were listed to the end, or could not be.
    pub fn on_listed(&mut self, read: Result<(), IoFault>) -> (r: Result<(), LaunchError>)
        requires
            old(self).wf(),
            old(self).stage() is Listing,
        ensures
            final(self).wf(),
            final(self).root() == old(self).root(),
            final(self).me() == old(self).me(),
            final(self).found() == old(self).found(),
            final(self).pending() == old(self).pending(),
            final(self).discovered() == old(self).discovered(),
            final(self).judged() == old(self).judged(),
            match read {
                Ok(_) => {
                    &&& r is Ok
                    &&& final(self).listed() == old(self).listed().push(
                        old(self).stage()->Listing_0,
                    )
                    &&& final(self).stage() is Ready
                },
                Err(e) => {
                    &&& r matches Err(LaunchError::Inspect { path, error })
                    &&& path@ == old(self).stage()->Listing_0
                    &&& error == e
                    &&& final(self).listed() == old(self).listed()
                    &&& final(self).stage() is Refused
                },
            },
    {
        match read {
            Ok(_) => {
                let ghost before = self.listed();
                let ghost dir = self.stage()->Listing_0;
                let ghost seen = self.judged();
                self.stage = Stage::Ready;
                proof {
                    self.listed@ = before.push(dir);
                    let now = self.listed();
                    assert(now[before.len() as int] == dir);
                    assert(self.judged() == seen);
                    assert forall|i: int|
                        0 <= i < seen.len() && (#[trigger] seen[i]).1.is_dir implies now.contains(
                        seen[i].0,
                    ) by {
                        let p = seen[i].0;
                        assert(old(self).judged()[i] == seen[i]);
                        if before.contains(p) {
                            let j = choose|j: int| 0 <= j < before.len() && before[j] == p;
                            assert(now[j] == p);
                        }
                    }
                }
                Ok(())
            },
            Err(error) => Err(LaunchError::Inspect { path: self.refuse(), error }),
        }
    }

    /// Gives the walk up while a directory is listed, and says which.
    fn refuse(&mut self) -> (r: Vec<u8>)
        requires
            old(self).stage() is Listing,
        ensures
            r@ == old(self).stage()->Listing_0,
            final(self).stage() is Refused,
            final(self).root() == old(self).root(),
            final(self).me() == old(self).me(),
            final(self).found() == old(self).found(),
            final(self).pending() == old(self).pending(),
            final(self).discovered() == old(self).discovered(),
            final(self).judged() == old(self).judged(),
            final(self).listed() == old(self).listed(),
    {
        let mut stage = Stage::Refused;
        std::mem::swap(&mut self.stage, &mut stage);
        match stage {
            Stage::Listing(dir) => dir,
            _ => Vec::new(),
        }
    }

    /// The walk has come to its end, and refused nothing.
    pub fn finish(self) -> (r: CheckedPackage)
        requires
            self.wf(),
            self.stage() is Ready,
            self.pending().len() == 0,
        ensures
            r.root() == self.root(),
            r.me() == self.me(),
            r.entries() == self.discovered(),
            r.judged() == self.judged(),
            r.is_safe_throughout(),
    {
        proof {
            assert forall|path: Seq<u8>| #[trigger]
                self.discovered().contains(path) implies was_judged(self.judged(), path) by {
                assert(!self.pending().contains(path));
            }
        }
        CheckedPackage {
            root: self.root,
            me: Ghost(self.me),
            entries: self.discovered,
            judged: self.judged,
            listed: self.listed,
        }
    }
}

/// A package that was walked through to the end, with nothing refused.
pub struct CheckedPackage {
    root: Vec<u8>,
    me: Ghost<u32>,
    entries: Ghost<Seq<Seq<u8>>>,
    judged: Ghost<Seq<(Seq<u8>, Entry)>>,
    listed: Ghost<Seq<Seq<u8>>>,
}

impl CheckedPackage {
    pub closed spec fn root(&self) -> Seq<u8> {
        self.root@
    }

    /// The user whose package it is.
    pub closed spec fn me(&self) -> u32 {
        self.me@
    }

    /// The root, and every entry that was found in it.
    pub closed spec fn entries(&self) -> Seq<Seq<u8>> {
        self.entries@
    }

    /// What was seen of each entry.
    pub closed spec fn judged(&self) -> Seq<(Seq<u8>, Entry)> {
        self.judged@
    }

    /// The directories whose entries were all found.
    pub closed spec fn listed(&self) -> Seq<Seq<u8>> {
        self.listed@
    }

    /// Every entry of the package, the root among them, was looked at, is this user's, and can be
    /// written by no one else. Every directory was listed to its end.
    pub open spec fn is_safe_throughout(&self) -> bool {
        &&& self.entries().contains(self.root())
        &&& forall|path: Seq<u8>| #[trigger]
            self.entries().contains(path) ==> was_judged(self.judged(), path)
        &&& forall|i: int|
            0 <= i < self.judged().len() ==> is_safe((#[trigger] self.judged()[i]).1, self.me())
        &&& forall|i: int|
            0 <= i < self.judged().len() && (#[trigger] self.judged()[i]).1.is_dir
                ==> self.listed().contains(self.judged()[i].0)
    }

    #[verifier::type_invariant]
    spec fn inv(&self) -> bool {
        self.is_safe_throughout()
    }
}

// ---------------------------------------------------------------------------
// Resolving a command
// ---------------------------------------------------------------------------

/// Begins with a package's own path, once the system has followed it.
pub fn enter_package(package_dir: &[u8], package: Result<Vec<u8>, IoFault>, me: u32) -> (r: Result<
    TreeWalk,
    LaunchError,
>)
    ensures
        match package {
            Err(e) => r matches Err(LaunchError::Unresolved(s)) && s@
                == "the package directory "@ + text::lossy_text(package_dir@)
                + " could not be resolved: "@ + e.text@,
            Ok(package) => {
                &&& r matches Ok(walk)
                &&& walk.wf()
                &&& walk.root() == package@
                &&& walk.me() == me
                &&& walk.pending() == seq![package@]
                &&& walk.discovered() == seq![package@]
                &&& walk.found() == 1
                &&& walk.stage() is Ready
            },
        },
{
    match package {
        Err(e) => {
            let mut s = "the package directory ".to_owned();
            s.append(text::shown(package_dir).as_str());
            s.append(" could not be resolved: ");
            s.append(e.text.as_str());
            Err(LaunchError::Unresolved(s))
        },
        Ok(package) => Ok(TreeWalk::new(package.as_slice(), me)),
    }
}

/// What was asked of the system for a command so far.
#[derive(Debug)]
pub struct Answers {
    /// What a path in the package really names.
    pub followed: Option<Result<Vec<u8>, IoFault>>,
    /// What was found at the places of a bare name, in order.
    pub seen: Vec<Option<FileSeen>>,
}

/// How far a command is resolved.
#[derive(Debug)]
pub enum Resolution {
    /// Follow this path to what it names.
    Follow(Vec<u8>),
    /// Look at this place.
    LookAt(Vec<u8>),
    /// This is the program.
    Program(Vec<u8>),
}

/// Which program a command names, given a package in which everything is safe and what the system
/// answered so far. Whatever the command is, there is no program without such a package. A path
/// has to lead to something inside the package, whatever stands in it; a bare name is the first
/// program among its places.
pub fn resolve(package: &CheckedPackage, command: &str, path: Option<&[u8]>, answers: Answers) -> (r:
    Result<Resolution, LaunchError>)
    ensures
        package.is_safe_throughout(),
        if is_bare(command@) {
            let at = search_places(
                match path {
                    Some(path) => Some(path@),
                    None => None,
                },
                vstd::utf8::encode_utf8(command@),
            );
            let i = first_program(answers.seen@, at.len() as int);
            if i < at.len() && i < answers.seen@.len() {
                r matches Ok(Resolution::Program(p)) && p@ == at[i] && is_program(
                    answers.seen@[i],
                )
            } else if answers.seen@.len() < at.len() {
                r matches Ok(Resolution::LookAt(p)) && p@ == at[answers.seen@.len() as int]
            } else {
                r matches Err(LaunchError::Unresolved(s)) && s@ == "spawn.command "@
                    + text::debug_text(command@) + " was not found on PATH"@
            }
        } else {
            match answers.followed {
                None => r matches Ok(Resolution::Follow(p)) && p@ == path_join(
                    package.root(),
                    vstd::utf8::encode_utf8(command@),
                ),
                Some(Err(e)) => r matches Err(LaunchError::Unresolved(s)) && s@
                    == "spawn.command "@ + text::debug_text(command@)
                    + " could not be resolved inside the package: "@ + e.text@,
                Some(Ok(p)) => if lies_in(package.root(), p@) {
                    r matches Ok(Resolution::Program(program)) && program@ == p@
                } else {
                    r matches Err(LaunchError::EscapesPackage { resolved, package: d })
                        && resolved@ == p@ && d@ == package.root()
                },
            }
        },
{
    proof {
        use_type_invariant(package);
    }
    if bare(command) {
        let at = match path {
            Some(path) => which_in(command.as_bytes(), path),
            None => {
                let none: Vec<Vec<u8>> = Vec::new();
                assert(text::contents(none@) =~= Seq::<Seq<u8>>::empty());
                none
            },
        };
        let ghost all = text::contents(at@);
        let ghost i = first_program(answers.seen@, all.len() as int);
        assert(0 <= i < all.len() ==> all[i] == at@[i]@);
        assert(answers.seen@.len() < all.len() ==> all[answers.seen@.len() as int]
            == at@[answers.seen@.len() as int]@);
        return resolved_on_path(command, &at, &answers.seen);
    }
    match answers.followed {
        None => Ok(
            Resolution::Follow(join_path(package.root.as_slice(), command.as_bytes())),
        ),
        Some(Err(e)) => {
            let mut s = "spawn.command ".to_owned();
            s.append(text::debug_string(command).as_str());
            s.append(" could not be resolved inside the package: ");
            s.append(e.text.as_str());
            Err(LaunchError::Unresolved(s))
        },
        Some(Ok(p)) => {
            if is_in(package.root.as_slice(), p.as_slice()) {
                Ok(Resolution::Program(p))
            } else {
                Err(
                    LaunchError::EscapesPackage {
                        resolved: p,
                        package: text::copy_bytes(package.root.as_slice()),
                    },
                )
            }
        },
    }
}

/// The first of `n` places where a program was found; the number of places that were looked at if
/// there is none.
pub open spec fn first_program(seen: Seq<Option<FileSeen>>, n: int) -> int
    decreases n,
{
    if n <= 0 || seen.len() == 0 || is_program(seen[0]) {
        0
    } else {
        1 + first_program(seen.drop_first(), n - 1)
    }
}

proof fn lemma_first_program(seen: Seq<Option<FileSeen>>, n: int, i: int)
    requires
        0 <= i <= seen.len(),
        i <= n,
        forall|j: int| 0 <= j < i ==> !is_program(#[trigger] seen[j]),
        i == n || i == seen.len() || is_program(seen[i]),
    ensures
        first_program(seen, n) == i,
    decreases n,
{
    if i > 0 {
        assert(!is_program(seen[0]));
        lemma_first_program(seen.drop_first(), n - 1, i - 1);
    }
}

/// Looks for a bare name among its places.
fn resolved_on_path(command: &str, at: &Vec<Vec<u8>>, seen: &Vec<Option<FileSeen>>) -> (r: Result<
    Resolution,
    LaunchError,
>)
    ensures
        ({
            let i = first_program(seen@, at@.len() as int);
            0 <= i && if i < at@.len() && i < seen@.len() {
                r matches Ok(Resolution::Program(p)) && p@ == at@[i]@ && is_program(seen@[i])
            } else if seen@.len() < at@.len() {
                r matches Ok(Resolution::LookAt(p)) && p@ == at@[seen@.len() as int]@
            } else {
                r matches Err(LaunchError::Unresolved(s)) && s@ == "spawn.command "@
                    + text::debug_text(command@) + " was not found on PATH"@
            }
        }),
{
    let mut i: usize = 0;
    while i < at.len() && i < seen.len()
        invariant
            i <= at@.len(),
            i <= seen@.len(),
            forall|j: int| 0 <= j < i ==> !is_program(#[trigger] seen@[j]),
        decreases at@.len() - i,
    {
        let found = match seen[i] {
            Some(file) => is_executable_file(file.is_file, file.mode),
            None => false,
        };
        if found {
            proof {
                lemma_first_program(seen@, at@.len() as int, i as int);
            }
            return Ok(Resolution::Program(text::copy_bytes(at[i].as_slice())));
        }
        i = i + 1;
    }
    proof {
        lemma_first_program(seen@, at@.len() as int, i as int);
    }
    if seen.len() < at.len() {
        return Ok(Resolution::LookAt(text::copy_bytes(at[seen.len()].as_slice())));
    }
    Err(
        LaunchError::Unresolved(
            text::concat3(
                "spawn.command ",
                text::debug_string(command).as_str(),
                " was not found on PATH",
            ),
        ),
    )
}

// ---------------------------------------------------------------------------
// What the process is given
// ---------------------------------------------------------------------------

/// Whether a variable of the kernel's own environment is passed on. Everything else is cleared:
/// it can carry credentials, which are the kernel's and not a module's.
pub open spec fn is_inherited(name: Seq<char>) -> bool {
    ||| exists|i: int| 0 <= i < INHERITED_ENV@.len() && name == (#[trigger] INHERITED_ENV@[i])@
    ||| text::starts_with(name, "LC_"@)
}

/// Whether a variable of the kernel's own environment is passed on.
pub fn inherited(name: &str) -> (r: bool)
    ensures
        r == is_inherited(name@),
{
    let names = INHERITED_ENV;
    let mut i: usize = 0;
    while i < names.len()
        invariant
            i <= names@.len(),
            names@ == INHERITED_ENV@,
            forall|j: int| 0 <= j < i ==> name@ != (#[trigger] names@[j])@,
        decreases names@.len() - i,
    {
        if text::same(name, names[i]) {
            assert(name@ == INHERITED_ENV@[i as int]@);
            return true;
        }
        i = i + 1;
    }
    text::has_prefix(name, "LC_")
}

/// A variable, as mathematics.
pub open spec fn variable(v: (String, Vec<u8>)) -> (Seq<char>, Seq<u8>) {
    (v.0@, v.1@)
}

/// Variables, as mathematics.
pub open spec fn variables(list: Seq<(String, Vec<u8>)>) -> Seq<(Seq<char>, Seq<u8>)> {
    Seq::new(list.len(), |i: int| variable(list[i]))
}

/// The variables that are passed on.
pub open spec fn inherited_of(vars: Seq<(Seq<char>, Seq<u8>)>) -> Seq<(Seq<char>, Seq<u8>)>
    decreases vars.len(),
{
    if vars.len() == 0 {
        Seq::empty()
    } else if is_inherited(vars.last().0) {
        inherited_of(vars.drop_last()).push(vars.last())
    } else {
        inherited_of(vars.drop_last())
    }
}

/// The environment of a module: what is passed on, and what the kernel says.
pub open spec fn module_environment(
    vars: Seq<(Seq<char>, Seq<u8>)>,
    callback_sock: Seq<u8>,
    token: Seq<u8>,
    data_dir: Seq<u8>,
) -> Seq<(Seq<char>, Seq<u8>)> {
    inherited_of(vars) + seq![
        (ENV_LISTEN_FD@, vstd::utf8::encode_utf8(text::decimal(LISTEN_FD as nat))),
        (ENV_CALLBACK_SOCK@, callback_sock),
        (ENV_HANDSHAKE_TOKEN@, token),
        (ENV_DATA_DIR@, data_dir),
        (ENV_TRAMPOLINE@, vstd::utf8::encode_utf8("1"@)),
    ]
}

fn push_var(out: &mut Vec<(String, Vec<u8>)>, name: &str, value: &[u8])
    ensures
        variables(final(out)@) == variables(old(out)@).push((name@, value@)),
{
    let ghost before = variables(out@);
    out.push((name.to_owned(), vstd::slice::slice_to_vec(value)));
    assert(variables(out@) =~= before.push((name@, value@)));
}

/// The environment that a module is started with. The token goes there, since arguments can be
/// read by everyone.
pub fn child_env(
    vars: &Vec<(String, Vec<u8>)>,
    callback_sock: &[u8],
    token: &str,
    data_dir: &[u8],
) -> (r: Vec<(String, Vec<u8>)>)
    ensures
        variables(r@) == module_environment(
            variables(vars@),
            callback_sock@,
            vstd::utf8::encode_utf8(token@),
            data_dir@,
        ),
{
    let ghost all = variables(vars@);
    let mut out: Vec<(String, Vec<u8>)> = Vec::new();
    assert(variables(out@) =~= Seq::<(Seq<char>, Seq<u8>)>::empty());
    assert(all.take(0) =~= Seq::<(Seq<char>, Seq<u8>)>::empty());
    let mut i: usize = 0;
    while i < vars.len()
        invariant
            i <= vars@.len(),
            all == variables(vars@),
            variables(out@) == inherited_of(all.take(i as int)),
        decreases vars@.len() - i,
    {
        let ghost next = all.take(i + 1);
        assert(next.drop_last() =~= all.take(i as int));
        assert(next.last() == variable(vars@[i as int]));
        if inherited(vars[i].0.as_str()) {
            push_var(&mut out, vars[i].0.as_str(), vars[i].1.as_slice());
        }
        i = i + 1;
    }
    assert(all.take(all.len() as int) =~= all);
    let ghost kept = variables(out@);
    let fd = text::decimal_string(LISTEN_FD as u64);
    push_var(&mut out, ENV_LISTEN_FD, fd.as_str().as_bytes());
    push_var(&mut out, ENV_CALLBACK_SOCK, callback_sock);
    push_var(&mut out, ENV_HANDSHAKE_TOKEN, token.as_bytes());
    push_var(&mut out, ENV_DATA_DIR, data_dir);
    push_var(&mut out, ENV_TRAMPOLINE, "1".as_bytes());
    assert(variables(out@) =~= module_environment(
        all,
        callback_sock@,
        vstd::utf8::encode_utf8(token@),
        data_dir@,
    ));
    out
}

/// A module gets no variable but those that are passed on and the kernel's own five.
pub proof fn law_the_environment_is_cleared(
    vars: Seq<(Seq<char>, Seq<u8>)>,
    callback_sock: Seq<u8>,
    token: Seq<u8>,
    data_dir: Seq<u8>,
    i: int,
)
    requires
        0 <= i < module_environment(vars, callback_sock, token, data_dir).len(),
    ensures
        ({
            let name = module_environment(vars, callback_sock, token, data_dir)[i].0;
            ||| is_inherited(name)
            ||| name == ENV_LISTEN_FD@
            ||| name == ENV_CALLBACK_SOCK@
            ||| name == ENV_HANDSHAKE_TOKEN@
            ||| name == ENV_DATA_DIR@
            ||| name == ENV_TRAMPOLINE@
        }),
{
    lemma_inherited_of(vars);
}

proof fn lemma_inherited_of(vars: Seq<(Seq<char>, Seq<u8>)>)
    ensures
        forall|i: int|
            0 <= i < inherited_of(vars).len() ==> is_inherited((#[trigger] inherited_of(vars)[i]).0),
    decreases vars.len(),
{
    if vars.len() > 0 {
        let before = inherited_of(vars.drop_last());
        lemma_inherited_of(vars.drop_last());
        assert forall|i: int| 0 <= i < inherited_of(vars).len() implies is_inherited(
            (#[trigger] inherited_of(vars)[i]).0,
        ) by {
            if i < before.len() {
                assert(inherited_of(vars)[i] == before[i]);
            }
        }
    }
}

/// The bytes of some texts.
pub open spec fn encoded(texts: Seq<Seq<char>>) -> Seq<Seq<u8>> {
    Seq::new(texts.len(), |i: int| vstd::utf8::encode_utf8(texts[i]))
}

/// The arguments of the process that becomes the module: its own, the mark, the module's program
/// and the module's arguments, each as an argument of its own.
pub fn child_args(trampoline: &Vec<Vec<u8>>, program: &[u8], args: &Vec<String>) -> (r: Vec<
    Vec<u8>,
>)
    ensures
        text::contents(r@) == text::contents(trampoline@) + seq![
            vstd::utf8::encode_utf8(TRAMPOLINE_ARG@),
            program@,
        ] + encoded(text::views(args@)),
{
    let mut out = text::copy_contents(trampoline);
    let ghost a = text::contents(out@);
    out.push(text::copy_bytes(TRAMPOLINE_ARG.as_bytes()));
    out.push(text::copy_bytes(program));
    let ghost start = a + seq![vstd::utf8::encode_utf8(TRAMPOLINE_ARG@), program@];
    let ghost all = encoded(text::views(args@));
    assert(text::contents(out@) =~= start);
    let mut i: usize = 0;
    assert(start + all.take(0) =~= start);
    while i < args.len()
        invariant
            i <= args@.len(),
            all == encoded(text::views(args@)),
            text::contents(out@) == start + all.take(i as int),
        decreases args@.len() - i,
    {
        let ghost before = text::contents(out@);
        out.push(text::copy_bytes(args[i].as_str().as_bytes()));
        assert(text::contents(out@) =~= before.push(all[i as int]));
        i = i + 1;
        assert(start + all.take(i as int) =~= before.push(all[i - 1]));
    }
    assert(all.take(i as int) =~= all);
    out
}

// ---------------------------------------------------------------------------
// Becoming the module
// ---------------------------------------------------------------------------

/// What a process was started for.
#[derive(Debug, Clone, Copy, PartialEq, Eq, Structural)]
pub enum Asked {
    /// An ordinary start.
    Nothing,
    /// To become a module, but no program is named.
    NoProgram,
    /// To become the program at that argument, with the arguments after it.
    Become { program: usize },
}

/// What a process was started for: to become a module only where it is marked both in its
/// environment and in its arguments. Either mark alone is an ordinary start.
pub open spec fn asked(marked: bool, args: Seq<Seq<u8>>) -> Asked {
    let mark = text::index_of_first(args, vstd::utf8::encode_utf8(TRAMPOLINE_ARG@));
    if !marked || mark >= args.len() {
        Asked::Nothing
    } else if mark + 1 >= args.len() {
        Asked::NoProgram
    } else {
        Asked::Become { program: (mark + 1) as usize }
    }
}

/// What a process was started for.
pub fn trampoline_asked(marked: bool, args: &Vec<Vec<u8>>) -> (r: Asked)
    ensures
        r == asked(marked, text::contents(args@)),
{
    let ghost all = text::contents(args@);
    let ghost mark = vstd::utf8::encode_utf8(TRAMPOLINE_ARG@);
    if !marked {
        return Asked::Nothing;
    }
    let mut i: usize = 0;
    while i < args.len() && !crate::drain::constant_time_eq(
        args[i].as_slice(),
        TRAMPOLINE_ARG.as_bytes(),
    )
        invariant
            i <= args@.len(),
            all == text::contents(args@),
            mark == vstd::utf8::encode_utf8(TRAMPOLINE_ARG@),
            forall|j: int| 0 <= j < i ==> all[j] != mark,
        decreases args@.len() - i,
    {
        assert(all[i as int] == args@[i as int]@);
        i = i + 1;
    }
    proof {
        if i < args@.len() {
            assert(all[i as int] == args@[i as int]@);
        }
        text::lemma_index_of_first_is(all, mark, i as int);
    }
    if i >= args.len() {
        Asked::Nothing
    } else if i + 1 >= args.len() {
        Asked::NoProgram
    } else {
        Asked::Become { program: i + 1 }
    }
}

/// Whether a name in a listing of fds is one at or above a bound.
pub open spec fn is_high(name: Seq<char>, bound: i32) -> bool {
    text::i32_value(name) matches Some(n) && bound <= n
}

/// The first of the names that is an fd at or above a bound.
pub open spec fn first_high(names: Seq<Seq<char>>, bound: i32) -> Option<int>
    decreases names.len(),
{
    if names.len() == 0 {
        None
    } else if is_high(names[0], bound) {
        text::i32_value(names[0])
    } else {
        first_high(names.drop_first(), bound)
    }
}

/// The first fd at or above a bound, in a listing of the names of fds.
pub fn open_fd_at_or_above(names: &Vec<String>, bound: i32) -> (r: Option<i32>)
    ensures
        match r {
            Some(fd) => first_high(text::views(names@), bound) == Some(fd as int),
            None => first_high(text::views(names@), bound) is None,
        },
{
    let ghost all = text::views(names@);
    let mut i: usize = 0;
    assert(all.skip(0) =~= all);
    while i < names.len()
        invariant
            i <= names@.len(),
            all == text::views(names@),
            first_high(all.skip(i as int), bound) == first_high(all, bound),
        decreases names@.len() - i,
    {
        let ghost rest = all.skip(i as int);
        assert(rest[0] == names@[i as int]@);
        assert(rest.drop_first() =~= all.skip(i + 1));
        match text::parse_i32(names[i].as_str()) {
            Some(fd) => {
                if fd >= bound {
                    return Some(fd);
                }
            },
            None => {},
        }
        i = i + 1;
    }
    None
}

/// What refuses to let a process become a module, in words, given a listing of its open fds.
pub open spec fn refused_fds(
    names: Seq<Seq<char>>,
    failed: Option<Seq<char>>,
    fd_dir: Seq<char>,
) -> Option<Seq<char>> {
    match (first_high(names, FALLBACK_SCAN_END), failed) {
        (Some(fd), _) => Some(
            "agent24: fd "@ + text::signed_decimal(fd)
                + " is open, above what can be verified as close-on-exec; refusing to start a module that might inherit it"@,
        ),
        (None, Some(e)) => Some(
            "agent24: cannot list this process's fds ("@ + fd_dir + ": "@ + e
                + "); refusing to start a module without being able to keep the daemon's fds from it"@,
        ),
        (None, None) => None,
    }
}

/// What refuses to let a process become a module, in words, given the names of its open fds and
/// what cut the listing short, if anything did. The scan that marks fds may have stopped early
/// without saying so, so an fd that it could have missed is a refusal, and so is a listing that
/// failed.
pub fn fds_refusal(names: &Vec<String>, failed: &Option<IoFault>, fd_dir: &str) -> (r: Option<
    String,
>)
    ensures
        match (
            r,
            refused_fds(
                text::views(names@),
                match failed {
                    Some(e) => Some(e.text@),
                    None => None,
                },
                fd_dir@,
            ),
        ) {
            (Some(a), Some(b)) => a@ == b,
            (None, None) => true,
            _ => false,
        },
{
    match open_fd_at_or_above(names, FALLBACK_SCAN_END) {
        Some(fd) => Some(
            text::concat3(
                "agent24: fd ",
                text::signed_decimal_string(fd).as_str(),
                " is open, above what can be verified as close-on-exec; refusing to start a module that might inherit it",
            ),
        ),
        None => match failed {
            Some(e) => {
                let mut s = "agent24: cannot list this process's fds (".to_owned();
                s.append(fd_dir);
                s.append(": ");
                s.append(e.text.as_str());
                s.append(
                    "); refusing to start a module without being able to keep the daemon's fds from it",
                );
                Some(s)
            },
            None => None,
        },
    }
}

// ---------------------------------------------------------------------------
// Tokens
// ---------------------------------------------------------------------------

/// Makes a token for one handshake from random bytes. Without them there is no token: a weaker one
/// would keep the kernel running and take away what the comparison of tokens rests on.
pub fn mint_token(entropy: Result<[u8; 32], IoFault>) -> (r: Result<String, LaunchError>)
    ensures
        match entropy {
            Ok(bytes) => r matches Ok(token) && token@ == text::hex(bytes@),
            Err(e) => r == Err::<String, LaunchError>(LaunchError::NoEntropy(e)),
        },
{
    match entropy {
        Ok(bytes) => Ok(text::hex_string(&bytes)),
        Err(e) => Err(LaunchError::NoEntropy(e)),
    }
}

/// A token keeps all that was random about it: other bytes make another token, of two digits for
/// each byte.
pub proof fn law_tokens_keep_their_entropy(a: Seq<u8>, b: Seq<u8>)
    ensures
        text::hex(a).len() == 2 * a.len(),
        text::hex(a) == text::hex(b) ==> a == b,
{
    text::lemma_hex_len(a);
    if text::hex(a) == text::hex(b) {
        text::law_hex_is_injective(a, b);
    }
}

// ---------------------------------------------------------------------------
// Output
// ---------------------------------------------------------------------------

/// One line of output, as mathematics.
#[verifier::ext_equal]
pub struct LineView {
    pub text: Seq<u8>,
    pub cut: bool,
}

/// One line of output, at most [`MAX_LOG_LINE`] bytes of it.
#[derive(Debug, PartialEq, Eq)]
pub struct Line {
    pub text: Vec<u8>,
    /// Whether more bytes than that were dropped.
    pub cut: bool,
}

impl View for Line {
    type V = LineView;

    open spec fn view(&self) -> LineView {
        LineView { text: self.text@, cut: self.cut }
    }
}

/// Some lines, as mathematics.
pub open spec fn line_views(lines: Seq<Line>) -> Seq<LineView> {
    Seq::new(lines.len(), |i: int| lines[i]@)
}

/// What is kept of a line.
pub open spec fn kept(line: Seq<u8>) -> LineView {
    if line.len() <= MAX_LOG_LINE {
        LineView { text: line, cut: false }
    } else {
        LineView { text: line.take(MAX_LOG_LINE as int), cut: true }
    }
}

/// What is kept of a line of which so much was kept, once more bytes of it came.
pub open spec fn grown(before: LineView, bytes: Seq<u8>) -> LineView {
    let all = kept(before.text + bytes);
    LineView { text: all.text, cut: before.cut || all.cut }
}

/// What is kept does not depend on how the line came in pieces.
pub proof fn law_pieces_make_no_difference(line: Seq<u8>, bytes: Seq<u8>)
    ensures
        grown(kept(line), bytes) == kept(line + bytes),
{
    let a = grown(kept(line), bytes);
    let b = kept(line + bytes);
    if line.len() > MAX_LOG_LINE {
        let short = line.take(MAX_LOG_LINE as int);
        assert((short + bytes).take(MAX_LOG_LINE as int) =~= short);
        assert((line + bytes).take(MAX_LOG_LINE as int) =~= short);
        if bytes.len() == 0 {
            assert(short + bytes =~= short);
        }
    }
    assert(a.text =~= b.text);
}

/// The lines that a stream finishes, as they are kept.
pub open spec fn lines_of(stream: Seq<u8>) -> Seq<LineView> {
    let parts = text::pieces(stream, 0x0a);
    Seq::new((parts.len() - 1) as nat, |i: int| kept(parts[i]))
}

/// What is kept of the line that a stream leaves unfinished.
pub open spec fn unfinished(stream: Seq<u8>) -> LineView {
    kept(text::pieces(stream, 0x0a).last())
}

/// The lines that more bytes finish, if so much was kept of the line before them.
pub open spec fn finished_by(before: LineView, bytes: Seq<u8>) -> Seq<LineView> {
    let parts = text::pieces(bytes, 0x0a);
    Seq::new(
        (parts.len() - 1) as nat,
        |i: int|
            if i == 0 {
                grown(before, parts[0])
            } else {
                kept(parts[i])
            },
    )
}

/// What is kept of the unfinished line after more bytes.
pub open spec fn left_by(before: LineView, bytes: Seq<u8>) -> LineView {
    let parts = text::pieces(bytes, 0x0a);
    if parts.len() == 1 {
        grown(before, parts[0])
    } else {
        kept(parts.last())
    }
}

/// The lines of a stream that comes in pieces, and what is left then.
pub open spec fn lines_in_pieces(pieces: Seq<Seq<u8>>) -> (Seq<LineView>, LineView)
    decreases pieces.len(),
{
    if pieces.len() == 0 {
        (Seq::empty(), kept(Seq::empty()))
    } else {
        let (lines, left) = lines_in_pieces(pieces.drop_last());
        (lines + finished_by(left, pieces.last()), left_by(left, pieces.last()))
    }
}

/// The pieces, one after the other.
pub open spec fn whole(pieces: Seq<Seq<u8>>) -> Seq<u8>
    decreases pieces.len(),
{
    if pieces.len() == 0 {
        Seq::empty()
    } else {
        whole(pieces.drop_last()) + pieces.last()
    }
}

/// How a stream is cut into pieces never shows in its lines.
pub proof fn law_cuts_make_no_difference(pieces: Seq<Seq<u8>>)
    ensures
        lines_in_pieces(pieces).0 == lines_of(whole(pieces)),
        lines_in_pieces(pieces).1 == unfinished(whole(pieces)),
    decreases pieces.len(),
{
    if pieces.len() == 0 {
        let empty = Seq::<u8>::empty();
        assert(!empty.contains(0x0a));
        text::lemma_one_piece(empty, 0x0a);
        assert(lines_of(empty) =~= Seq::<LineView>::empty());
    } else {
        law_cuts_make_no_difference(pieces.drop_last());
        lemma_more_bytes(whole(pieces.drop_last()), pieces.last());
    }
}

proof fn lemma_more_bytes(stream: Seq<u8>, bytes: Seq<u8>)
    ensures
        lines_of(stream) + finished_by(unfinished(stream), bytes) == lines_of(stream + bytes),
        left_by(unfinished(stream), bytes) == unfinished(stream + bytes),
{
    let a = text::pieces(stream, 0x0a);
    let b = text::pieces(bytes, 0x0a);
    let all = text::pieces(stream + bytes, 0x0a);
    text::lemma_pieces_concat(stream, bytes, 0x0a);
    law_pieces_make_no_difference(a.last(), b[0]);
    let lines = lines_of(stream) + finished_by(unfinished(stream), bytes);
    assert(all.len() == a.len() - 1 + b.len());
    assert forall|i: int| 0 <= i < lines.len() implies lines[i] == lines_of(stream + bytes)[i] by {
        if i < a.len() - 1 {
            assert(all[i] == a[i]);
        } else if i == a.len() - 1 {
            assert(all[i] == a.last() + b[0]);
        } else {
            assert(all[i] == b[i - (a.len() - 1)]);
        }
    }
    assert(lines =~= lines_of(stream + bytes));
    if b.len() == 1 {
        assert(all.last() == a.last() + b[0]);
    } else {
        assert(all.last() == b.last());
    }
}

/// Splits a stream of bytes into lines. However long a line runs, no more of it is held than is
/// logged.
#[derive(Debug)]
pub struct Lines {
    current: Vec<u8>,
    cut: bool,
}

impl Default for Lines {
    fn default() -> (r: Lines)
        ensures
            r.wf(),
            r.held() == kept(Seq::empty()),
    {
        let r = Lines { current: Vec::new(), cut: false };
        assert(r.held().text =~= Seq::<u8>::empty());
        r
    }
}

impl Lines {
    /// What is held of the line that is not finished.
    pub closed spec fn held(&self) -> LineView {
        LineView { text: self.current@, cut: self.cut }
    }

    /// No more is held than is logged.
    pub open spec fn wf(&self) -> bool {
        self.held().text.len() <= MAX_LOG_LINE
    }

    fn take(&mut self, bytes: &[u8], from: usize, to: usize)
        requires
            old(self).wf(),
            from <= to <= bytes@.len(),
        ensures
            final(self).wf(),
            final(self).held() == grown(
                old(self).held(),
                bytes@.subrange(from as int, to as int),
            ),
    {
        let ghost before = self.current@;
        let ghost piece = bytes@.subrange(from as int, to as int);
        let room: usize = MAX_LOG_LINE - self.current.len();
        let n: usize = if to - from < room {
            to - from
        } else {
            room
        };
        if to - from > room {
            self.cut = true;
        }
        let mut i: usize = 0;
        while i < n
            invariant
                i <= n <= to - from,
                from <= to <= bytes@.len(),
                piece == bytes@.subrange(from as int, to as int),
                self.current@ == before + piece.take(i as int),
                self.cut == (old(self).cut || to - from > room),
            decreases n - i,
        {
            self.current.push(bytes[from + i]);
            assert(self.current@ =~= before + piece.take(i + 1));
            i = i + 1;
        }
        proof {
            if to - from > room {
                assert((before + piece).take(MAX_LOG_LINE as int) =~= before + piece.take(n as int));
            } else {
                assert(piece.take(n as int) =~= piece);
            }
        }
    }

    /// More bytes came: the lines that they finish.
    pub fn push(&mut self, bytes: &[u8]) -> (r: Vec<Line>)
        requires
            old(self).wf(),
        ensures
            final(self).wf(),
            line_views(r@) == finished_by(old(self).held(), bytes@),
            final(self).held() == left_by(old(self).held(), bytes@),
    {
        let ghost parts = text::pieces(bytes@, 0x0a);
        let ghost first = self.held();
        let mut done: Vec<Line> = Vec::new();
        let mut start: usize = 0;
        let mut i: usize = 0;
        assert(bytes@.skip(0) =~= bytes@);
        proof {
            assert(Seq::<Seq<u8>>::empty() + parts =~= parts);
        }
        let ghost mut before: Seq<Seq<u8>> = Seq::empty();
        while i < bytes.len()
            invariant
                start <= i <= bytes@.len(),
                self.wf(),
                parts == text::pieces(bytes@, 0x0a),
                before + text::pieces(bytes@.skip(start as int), 0x0a) == parts,
                before.len() == done@.len(),
                forall|j: int| start <= j < i ==> bytes@[j] != 0x0a,
                self.held() == (if done@.len() == 0 {
                    first
                } else {
                    kept(Seq::empty())
                }),
                forall|k: int|
                    0 <= k < done@.len() ==> (#[trigger] done@[k])@ == (if k == 0 {
                        grown(first, parts[0])
                    } else {
                        kept(parts[k])
                    }),
            decreases bytes@.len() - i,
        {
            if bytes[i] == 0x0a {
                proof {
                    let tail = bytes@.skip(start as int);
                    let n = i - start;
                    text::lemma_index_of_first_is(tail, 0x0a, n);
                    assert(tail.take(n) =~= bytes@.subrange(start as int, i as int));
                    assert(tail.skip(n + 1) =~= bytes@.skip(i + 1));
                    let piece = tail.take(n);
                    assert(parts[before.len() as int] == piece);
                    assert(before + text::pieces(tail, 0x0a) =~= before.push(piece)
                        + text::pieces(bytes@.skip(i + 1), 0x0a));
                    before = before.push(piece);
                    law_pieces_make_no_difference(Seq::empty(), piece);
                    assert(Seq::<u8>::empty() + piece =~= piece);
                }
                self.take(bytes, start, i);
                let mut text: Vec<u8> = Vec::new();
                std::mem::swap(&mut text, &mut self.current);
                let cut = self.cut;
                self.cut = false;
                done.push(Line { text, cut });
                assert(self.held().text =~= Seq::<u8>::empty());
                start = i + 1;
            }
            i = i + 1;
        }
        proof {
            let tail = bytes@.skip(start as int);
            text::lemma_index_of_first_is(tail, 0x0a, tail.len() as int);
            assert(tail =~= bytes@.subrange(start as int, bytes@.len() as int));
            assert(parts.len() == before.len() + 1);
            assert(parts.last() == tail);
            law_pieces_make_no_difference(Seq::empty(), tail);
            assert(Seq::<u8>::empty() + tail =~= tail);
        }
        self.take(bytes, start, bytes.len());
        done
    }

    /// The last line, if the stream ended without a newline.
    pub fn finish(self) -> (r: Option<Line>)
        ensures
            match r {
                Some(line) => line@ == self.held() && (self.held().text.len() > 0
                    || self.held().cut),
                None => self.held().text.len() == 0 && !self.held().cut,
            },
    {
        if self.current.len() > 0 || self.cut {
            Some(Line { text: self.current, cut: self.cut })
        } else {
            None
        }
    }
}

/// A limit on lines, as mathematics.
pub struct LimitView {
    /// When the second began.
    pub window: u64,
    /// How many lines were admitted in it.
    pub admitted: u32,
    /// How many lines were dropped and not yet told of.
    pub dropped: u64,
}

impl LimitView {
    /// Whether the second is over.
    pub open spec fn is_over(self, now: u64) -> bool {
        now >= self.window && now - self.window >= 1_000_000_000
    }

    /// Whether a line that comes at `now` is logged.
    pub open spec fn logs(self, now: u64) -> bool {
        self.is_over(now) || self.admitted < LOG_LINES_PER_SECOND
    }

    /// How many dropped lines are told of when a line comes at `now`.
    pub open spec fn tells(self, now: u64) -> nat {
        if self.is_over(now) {
            self.dropped as nat
        } else {
            0
        }
    }

    /// The limit after a line that came at `now`.
    pub open spec fn after(self, now: u64) -> LimitView {
        if self.is_over(now) {
            LimitView { window: now, admitted: 1, dropped: 0 }
        } else if self.admitted < LOG_LINES_PER_SECOND {
            LimitView { admitted: (self.admitted + 1) as u32, ..self }
        } else if self.dropped < u64::MAX {
            LimitView { dropped: (self.dropped + 1) as u64, ..self }
        } else {
            self
        }
    }

    /// The limit after lines that came at these times.
    pub open spec fn after_all(self, times: Seq<u64>) -> LimitView
        decreases times.len(),
    {
        if times.len() == 0 {
            self
        } else {
            self.after_all(times.drop_last()).after(times.last())
        }
    }

    /// How many of these lines are logged.
    pub open spec fn logged(self, times: Seq<u64>) -> nat
        decreases times.len(),
    {
        if times.len() == 0 {
            0
        } else {
            self.logged(times.drop_last()) + if self.after_all(times.drop_last()).logs(
                times.last(),
            ) {
                1nat
            } else {
                0nat
            }
        }
    }

    /// How many dropped lines are told of while these come.
    pub open spec fn told(self, times: Seq<u64>) -> nat
        decreases times.len(),
    {
        if times.len() == 0 {
            0
        } else {
            self.told(times.drop_last()) + self.after_all(times.drop_last()).tells(times.last())
        }
    }
}

/// In one second no more lines are logged than the limit, and as many as it allows.
pub proof fn law_a_second_logs_up_to_its_limit(limit: LimitView, times: Seq<u64>)
    requires
        limit.admitted <= LOG_LINES_PER_SECOND,
        forall|i: int| 0 <= i < times.len() ==> !limit.is_over(#[trigger] times[i]),
    ensures
        limit.admitted + limit.logged(times) <= LOG_LINES_PER_SECOND,
        limit.logged(times) == times.len() || limit.admitted + limit.logged(times)
            == LOG_LINES_PER_SECOND,
{
    lemma_second(limit, times);
}

proof fn lemma_second(limit: LimitView, times: Seq<u64>)
    requires
        limit.admitted <= LOG_LINES_PER_SECOND,
        forall|i: int| 0 <= i < times.len() ==> !limit.is_over(#[trigger] times[i]),
    ensures
        limit.after_all(times).window == limit.window,
        limit.after_all(times).admitted == limit.admitted + limit.logged(times),
        limit.admitted + limit.logged(times) <= LOG_LINES_PER_SECOND,
        limit.logged(times) == times.len() || limit.admitted + limit.logged(times)
            == LOG_LINES_PER_SECOND,
    decreases times.len(),
{
    if times.len() > 0 {
        assert forall|i: int| 0 <= i < times.drop_last().len() implies !limit.is_over(
            #[trigger] times.drop_last()[i],
        ) by {
            assert(times.drop_last()[i] == times[i]);
        }
        lemma_second(limit, times.drop_last());
        assert(!limit.is_over(times[times.len() - 1]));
    }
}

/// Every line is logged, or told of as dropped, or still to be told of.
pub proof fn law_no_line_is_lost_untold(limit: LimitView, times: Seq<u64>)
    requires
        limit.dropped + times.len() <= u64::MAX,
    ensures
        limit.logged(times) + limit.told(times) + limit.after_all(times).dropped == limit.dropped
            + times.len(),
    decreases times.len(),
{
    if times.len() > 0 {
        law_no_line_is_lost_untold(limit, times.drop_last());
    }
}

/// At most [`LOG_LINES_PER_SECOND`] lines in each second. Holds no clock.
#[derive(Debug)]
pub struct RateLimit {
    window: u64,
    admitted: u32,
    dropped: u64,
}

impl RateLimit {
    /// When the second began.
    pub closed spec fn window(&self) -> u64 {
        self.window
    }

    /// How many lines were admitted in it.
    pub closed spec fn admitted(&self) -> u32 {
        self.admitted
    }

    /// How many lines were dropped and not yet told of.
    pub closed spec fn dropped(&self) -> u64 {
        self.dropped
    }

    /// The limit as mathematics.
    pub open spec fn model(&self) -> LimitView {
        LimitView { window: self.window(), admitted: self.admitted(), dropped: self.dropped() }
    }

    /// No more lines were admitted than may be.
    pub open spec fn wf(&self) -> bool {
        self.admitted() <= LOG_LINES_PER_SECOND
    }

    pub fn new(now: u64) -> (r: RateLimit)
        ensures
            r.wf(),
            r.window() == now,
            r.admitted() == 0,
            r.dropped() == 0,
    {
        RateLimit { window: now, admitted: 0, dropped: 0 }
    }

    /// Whether the second is over.
    pub open spec fn is_over(&self, now: u64) -> bool {
        self.model().is_over(now)
    }

    /// Begins a new second if this one is over: how many lines the old one dropped, if any.
    pub fn roll(&mut self, now: u64) -> (r: Option<u64>)
        requires
            old(self).wf(),
        ensures
            final(self).wf(),
            if old(self).is_over(now) {
                &&& final(self).window() == now
                &&& final(self).admitted() == 0
                &&& final(self).dropped() == 0
                &&& r == (if old(self).dropped() > 0 {
                    Some(old(self).dropped())
                } else {
                    None
                })
            } else {
                &&& r is None
                &&& final(self).window() == old(self).window()
                &&& final(self).admitted() == old(self).admitted()
                &&& final(self).dropped() == old(self).dropped()
            },
    {
        if now < self.window || now - self.window < 1_000_000_000 {
            return None;
        }
        self.window = now;
        self.admitted = 0;
        self.flush()
    }

    /// Whether one more line is logged. One that is not is counted.
    pub fn admits(&mut self) -> (r: bool)
        requires
            old(self).wf(),
        ensures
            final(self).wf(),
            final(self).window() == old(self).window(),
            r == (old(self).admitted() < LOG_LINES_PER_SECOND),
            final(self).admitted() == (if r {
                old(self).admitted() + 1
            } else {
                old(self).admitted() as int
            }),
            final(self).dropped() == (if r || old(self).dropped() == u64::MAX {
                old(self).dropped() as int
            } else {
                old(self).dropped() + 1
            }),
    {
        if self.admitted < LOG_LINES_PER_SECOND {
            self.admitted = self.admitted + 1;
            true
        } else {
            if self.dropped < u64::MAX {
                self.dropped = self.dropped + 1;
            }
            false
        }
    }

    /// How many lines were dropped, if any, told of once.
    pub fn flush(&mut self) -> (r: Option<u64>)
        ensures
            final(self).window() == old(self).window(),
            final(self).admitted() == old(self).admitted(),
            final(self).dropped() == 0,
            r == (if old(self).dropped() > 0 {
                Some(old(self).dropped())
            } else {
                None
            }),
    {
        if self.dropped > 0 {
            let n: u64 = self.dropped;
            self.dropped = 0;
            Some(n)
        } else {
            None
        }
    }

    /// A line came at `now`: what to tell of the second that is over, and whether to log the line.
    pub fn log_line(&mut self, now: u64) -> (r: (Option<u64>, bool))
        requires
            old(self).wf(),
        ensures
            final(self).wf(),
            final(self).model() == old(self).model().after(now),
            r.1 == old(self).model().logs(now),
            match r.0 {
                Some(n) => n > 0 && n == old(self).model().tells(now),
                None => old(self).model().tells(now) == 0,
            },
    {
        let told = self.roll(now);
        let logged = self.admits();
        (told, logged)
    }
}

/// An entry of a package is safe exactly if it is this user's and nobody else may write to it; of a
/// link only the owner counts.
pub proof fn law_exactly_what_nobody_else_can_replace_is_safe(entry: Entry, me: u32)
    ensures
        is_safe(entry, me) <==> {
            &&& entry.uid == me
            &&& entry.is_symlink || (entry.mode & 0o020 == 0 && entry.mode & 0o002 == 0)
        },
{
    let mode = entry.mode;
    assert(mode & 0o022 == 0 <==> (mode & 0o020 == 0 && mode & 0o002 == 0)) by (bit_vector);
}

/// A program is a file that someone may execute.
pub proof fn law_a_program_is_a_file_to_execute(seen: Option<FileSeen>)
    ensures
        is_program(seen) <==> {
            &&& seen is Some
            &&& seen->Some_0.is_file
            &&& seen->Some_0.mode & 0o100 != 0 || seen->Some_0.mode & 0o010 != 0
                || seen->Some_0.mode & 0o001 != 0
        },
{
    if let Some(file) = seen {
        let mode = file.mode;
        assert(mode & 0o111 != 0 <==> (mode & 0o100 != 0 || mode & 0o010 != 0 || mode & 0o001
            != 0)) by (bit_vector);
    }
}

/// A name that is an absolute path stands for itself, and any other is looked for in its directory.
pub proof fn law_a_name_is_looked_for_in_its_directory(dir: Seq<u8>, name: Seq<u8>)
    ensures
        name.len() > 0 && name[0] == 0x2f ==> path_join(dir, name) == name,
        (name.len() == 0 || name[0] != 0x2f) && dir.len() > 0 && dir[dir.len() - 1] != 0x2f
            ==> path_join(dir, name) == dir + seq![0x2fu8] + name,
        (name.len() == 0 || name[0] != 0x2f) && dir.len() > 0 && dir[dir.len() - 1] == 0x2f
            ==> path_join(dir, name) == dir + name,
        name.len() == 0 || name[0] != 0x2f ==> path_join(Seq::empty(), name) == name,
{
    assert(dir.push(0x2f) + name =~= dir + seq![0x2fu8] + name);
    assert(Seq::<u8>::empty() + name =~= name);
}

/// The absolute path through these names.
pub open spec fn path_through(parts: Seq<Seq<u8>>) -> Seq<u8>
    decreases parts.len(),
{
    if parts.len() == 0 {
        Seq::empty()
    } else {
        path_through(parts.drop_last()) + seq![0x2fu8] + parts.last()
    }
}

/// Whether a name is one that a file can have: not empty, no slash in it, and not a dot alone.
pub open spec fn is_file_name(name: Seq<u8>) -> bool {
    &&& name.len() > 0
    &&& name != seq![0x2eu8]
    &&& forall|i: int| 0 <= i < name.len() ==> #[trigger] name[i] != 0x2f
}

proof fn lemma_path_pieces(parts: Seq<Seq<u8>>)
    requires
        forall|i: int| 0 <= i < parts.len() ==> is_file_name(#[trigger] parts[i]),
    ensures
        text::pieces(path_through(parts), 0x2f) == seq![Seq::<u8>::empty()] + parts,
    decreases parts.len(),
{
    let empty = Seq::<u8>::empty();
    if parts.len() == 0 {
        text::lemma_one_piece(empty, 0x2fu8);
        assert(seq![empty] + parts =~= seq![empty]);
    } else {
        let front = parts.drop_last();
        let last = parts.last();
        lemma_path_pieces(front);
        let x = path_through(front);
        let mark = seq![0x2fu8];
        text::lemma_mark_pieces(0x2fu8);
        text::lemma_pieces_concat(x, mark, 0x2fu8);
        let before = seq![empty] + front;
        assert(before.last() + empty =~= before.last());
        assert(text::pieces(x + mark, 0x2fu8) =~= before.push(empty));
        assert(is_file_name(parts[parts.len() - 1]));
        assert(!last.contains(0x2f));
        text::lemma_one_piece(last, 0x2fu8);
        text::lemma_pieces_concat(x + mark, last, 0x2fu8);
        assert(empty + last =~= last);
        assert(before.push(empty).drop_last() =~= before);
        assert(text::pieces(x + mark + last, 0x2fu8) =~= before.push(last));
        assert(before.push(last) =~= seq![empty] + parts);
    }
}

proof fn lemma_names_stay(parts: Seq<Seq<u8>>)
    requires
        forall|i: int| 0 <= i < parts.len() ==> is_file_name(#[trigger] parts[i]),
    ensures
        names(seq![Seq::<u8>::empty()] + parts) == parts,
    decreases parts.len(),
{
    let all = seq![Seq::<u8>::empty()] + parts;
    if parts.len() == 0 {
        assert(all.drop_last() =~= Seq::<Seq<u8>>::empty());
        assert(names(all.drop_last()) =~= Seq::<Seq<u8>>::empty());
        assert(names(all) =~= parts);
    } else {
        lemma_names_stay(parts.drop_last());
        assert(is_file_name(parts[parts.len() - 1]));
        assert(all.drop_last() =~= seq![Seq::<u8>::empty()] + parts.drop_last());
        assert(all.last() == parts.last());
        assert(names(all) =~= parts);
    }
}

/// A path lies in a directory exactly if the names that lead to the directory are the first of those
/// that lead to the path: a name that merely begins alike does not count.
pub proof fn law_a_path_lies_in_what_leads_to_it(dir: Seq<Seq<u8>>, path: Seq<Seq<u8>>)
    requires
        dir.len() > 0,
        path.len() > 0,
        forall|i: int| 0 <= i < dir.len() ==> is_file_name(#[trigger] dir[i]),
        forall|i: int| 0 <= i < path.len() ==> is_file_name(#[trigger] path[i]),
    ensures
        lies_in(path_through(dir), path_through(path)) <==> {
            &&& dir.len() <= path.len()
            &&& forall|i: int| 0 <= i < dir.len() ==> #[trigger] dir[i] == path[i]
        },
{
    lemma_path_components(dir);
    lemma_path_components(path);
    let root = seq![seq![0x2fu8]];
    let a = root + dir;
    let b = root + path;
    if a.len() <= b.len() && b.take(a.len() as int) == a {
        assert forall|i: int| 0 <= i < dir.len() implies #[trigger] dir[i] == path[i] by {
            assert(b.take(a.len() as int)[i + 1] == b[i + 1]);
            assert(a[i + 1] == dir[i] && b[i + 1] == path[i]);
        }
    }
    if dir.len() <= path.len() && forall|i: int|
        0 <= i < dir.len() ==> #[trigger] dir[i] == path[i] {
        assert(b.take(a.len() as int) =~= a);
    }
}

proof fn lemma_path_components(parts: Seq<Seq<u8>>)
    requires
        parts.len() > 0,
        forall|i: int| 0 <= i < parts.len() ==> is_file_name(#[trigger] parts[i]),
    ensures
        components(path_through(parts)) == seq![seq![0x2fu8]] + parts,
{
    lemma_path_pieces(parts);
    lemma_names_stay(parts);
    lemma_path_is_absolute(parts);
}

proof fn lemma_path_is_absolute(parts: Seq<Seq<u8>>)
    requires
        parts.len() > 0,
    ensures
        is_absolute(path_through(parts)),
    decreases parts.len(),
{
    let x = path_through(parts.drop_last());
    if parts.len() > 1 {
        lemma_path_is_absolute(parts.drop_last());
        assert((x + seq![0x2fu8] + parts.last())[0] == x[0]);
    } else {
        assert(x.len() == 0);
        assert((x + seq![0x2fu8] + parts.last())[0] == 0x2f);
    }
}

/// Every path lies in itself, and what lies in a part of a directory lies in the directory.
pub proof fn law_lying_in_is_an_order(a: Seq<u8>, b: Seq<u8>, c: Seq<u8>)
    ensures
        lies_in(a, a),
        lies_in(a, b) && lies_in(b, c) ==> lies_in(a, c),
{
    let x = components(a);
    let y = components(b);
    let z = components(c);
    assert(x.take(x.len() as int) =~= x);
    if lies_in(a, b) && lies_in(b, c) {
        assert(z.take(x.len() as int) =~= z.take(y.len() as int).take(x.len() as int));
    }
}

/// A bare name is looked for in each absolute directory of the search path, in the order in which
/// they stand there; a directory that is not absolute is passed over.
pub proof fn law_a_bare_name_is_looked_for_in_order(
    dir: Seq<u8>,
    rest: Seq<u8>,
    name: Seq<u8>,
)
    requires
        !dir.contains(0x3a),
    ensures
        search_places(None, name).len() == 0,
        ({
            let here = if dir.len() > 0 && dir[0] == 0x2f {
                seq![
                    if dir[dir.len() - 1] == 0x2f {
                        dir + name
                    } else {
                        dir + seq![0x2fu8] + name
                    },
                ]
            } else {
                Seq::empty()
            };
            &&& search_places(Some(dir), name) == here
            &&& search_places(Some(dir + seq![0x3au8] + rest), name) == here + search_places(
                Some(rest),
                name,
            )
        }),
{
    let colon = 0x3au8;
    let empty = Seq::<u8>::empty();
    let here = search_places(Some(dir), name);
    text::lemma_one_piece(dir, colon);
    assert(dir.push(0x2f) + name =~= dir + seq![0x2fu8] + name);
    assert(places(seq![dir], 0, name) =~= Seq::<Seq<u8>>::empty());
    assert(here == places(seq![dir], 1, name));
    let own = if dir.len() > 0 && dir[0] == 0x2f {
        seq![
            if dir[dir.len() - 1] == 0x2f {
                dir + name
            } else {
                dir + seq![0x2fu8] + name
            },
        ]
    } else {
        Seq::empty()
    };
    assert(here =~= own);
    let mark = seq![colon];
    text::lemma_mark_pieces(colon);
    text::lemma_pieces_concat(dir, mark, colon);
    assert(dir + empty =~= dir);
    assert(text::pieces(dir + mark, colon) =~= seq![dir, empty]);
    text::lemma_pieces_concat(dir + mark, rest, colon);
    let more = text::pieces(rest, colon);
    assert(empty + more[0] =~= more[0]);
    let all = text::pieces(dir + mark + rest, colon);
    assert(all =~= seq![dir] + more);
    lemma_places_in_row(dir, more, more.len() as int, name);
}

proof fn lemma_places_in_row(dir: Seq<u8>, more: Seq<Seq<u8>>, n: int, name: Seq<u8>)
    requires
        0 <= n <= more.len(),
    ensures
        places(seq![dir] + more, n + 1, name) == places(seq![dir], 1, name) + places(
            more,
            n,
            name,
        ),
    decreases n,
{
    let all = seq![dir] + more;
    if n == 0 {
        assert(places(all, 0, name) =~= places(seq![dir], 0, name));
        assert(all[0] == dir);
        assert(places(all, 1, name) =~= places(seq![dir], 1, name) + places(more, 0, name));
    } else {
        lemma_places_in_row(dir, more, n - 1, name);
        assert(all[n] == more[n - 1]);
        assert(places(all, n + 1, name) =~= places(seq![dir], 1, name) + places(more, n, name));
    }
}

/// The program is the first of what was looked at that is one.
pub proof fn law_the_first_program_is_taken(seen: Seq<Option<FileSeen>>, n: int)
    requires
        0 <= n,
    ensures
        ({
            let i = first_program(seen, n);
            &&& 0 <= i <= n && i <= seen.len()
            &&& i < n && i < seen.len() ==> is_program(seen[i])
            &&& forall|j: int| 0 <= j < i ==> !is_program(#[trigger] seen[j])
        }),
    decreases n,
{
    if n > 0 && seen.len() > 0 && !is_program(seen[0]) {
        let rest = seen.drop_first();
        law_the_first_program_is_taken(rest, n - 1);
        assert forall|j: int| 0 <= j < first_program(seen, n) implies !is_program(
            #[trigger] seen[j],
        ) by {
            if j > 0 {
                assert(rest[j - 1] == seen[j]);
            }
        }
    }
}

/// The variables that a module inherits: six by name, and what begins with `LC_`.
pub proof fn law_which_variables_are_inherited(name: Seq<char>)
    ensures
        is_inherited(name) <==> {
            ||| name == "PATH"@
            ||| name == "HOME"@
            ||| name == "LANG"@
            ||| name == "TZ"@
            ||| name == "TMPDIR"@
            ||| name == "USER"@
            ||| name.len() >= 3 && name[0] == 'L' && name[1] == 'C' && name[2] == '_'
        },
{
    reveal_strlit("LC_");
    let list = INHERITED_ENV@;
    assert(list.len() == 6);
    assert(list[0]@ == "PATH"@ && list[1]@ == "HOME"@ && list[2]@ == "LANG"@ && list[3]@ == "TZ"@
        && list[4]@ == "TMPDIR"@ && list[5]@ == "USER"@);
    if name.len() >= 3 && name[0] == 'L' && name[1] == 'C' && name[2] == '_' {
        assert(name.take(3) =~= "LC_"@);
    }
    if text::starts_with(name, "LC_"@) {
        assert(name.take(3)[0] == 'L' && name.take(3)[1] == 'C' && name.take(3)[2] == '_');
    }
}

/// A module gets what it inherits, unchanged and in order, and after it what the kernel hands to it:
/// its listening socket, the callback socket, its secret and its directory.
pub proof fn law_what_a_module_finds_in_its_environment(
    vars: Seq<(Seq<char>, Seq<u8>)>,
    more: Seq<(Seq<char>, Seq<u8>)>,
    one: (Seq<char>, Seq<u8>),
    callback_sock: Seq<u8>,
    token: Seq<u8>,
    data_dir: Seq<u8>,
)
    ensures
        inherited_of(Seq::empty()).len() == 0,
        inherited_of(seq![one]) == if is_inherited(one.0) {
            seq![one]
        } else {
            Seq::empty()
        },
        inherited_of(vars + more) == inherited_of(vars) + inherited_of(more),
        ({
            let all = module_environment(vars, callback_sock, token, data_dir);
            let n = inherited_of(vars).len() as int;
            &&& all.len() == n + 5
            &&& all.take(n) == inherited_of(vars)
            &&& all[n] == ("A24_LISTEN_FD"@, seq![0x33u8])
            &&& all[n + 1] == ("A24_CALLBACK_SOCK"@, callback_sock)
            &&& all[n + 2] == ("A24_HANDSHAKE_TOKEN"@, token)
            &&& all[n + 3] == ("A24_DATA_DIR"@, data_dir)
            &&& all[n + 4] == ("A24_TRAMPOLINE"@, seq![0x31u8])
        }),
{
    assert(seq![one].drop_last() =~= Seq::<(Seq<char>, Seq<u8>)>::empty());
    assert(inherited_of(seq![one].drop_last()) =~= Seq::<(Seq<char>, Seq<u8>)>::empty());
    assert(inherited_of(seq![one]) =~= if is_inherited(one.0) {
        seq![one]
    } else {
        Seq::empty()
    });
    lemma_inherited_in_row(vars, more);
    let all = module_environment(vars, callback_sock, token, data_dir);
    assert(all.take(inherited_of(vars).len() as int) =~= inherited_of(vars));
    reveal_strlit("1");
    assert(text::decimal(3) =~= seq!['3']);
    assert("1"@ =~= seq!['1']);
    vstd::utf8::is_ascii_chars_encode_utf8(seq!['3']);
    vstd::utf8::is_ascii_chars_encode_utf8("1"@);
    assert(vstd::utf8::encode_utf8(seq!['3']) =~= seq![0x33u8]);
    assert(vstd::utf8::encode_utf8("1"@) =~= seq![0x31u8]);
}

proof fn lemma_inherited_in_row(
    vars: Seq<(Seq<char>, Seq<u8>)>,
    more: Seq<(Seq<char>, Seq<u8>)>,
)
    ensures
        inherited_of(vars + more) == inherited_of(vars) + inherited_of(more),
    decreases more.len(),
{
    let all = vars + more;
    if more.len() == 0 {
        assert(all =~= vars);
        assert(inherited_of(all) =~= inherited_of(vars) + inherited_of(more));
    } else {
        lemma_inherited_in_row(vars, more.drop_last());
        assert(all.drop_last() =~= vars + more.drop_last());
        assert(inherited_of(all) =~= inherited_of(vars) + inherited_of(more));
    }
}

/// A process becomes a module exactly if it is marked and its arguments name a program behind the
/// first mark among them.
pub proof fn law_when_a_process_becomes_a_module(marked: bool, args: Seq<Seq<u8>>, i: int)
    requires
        args.len() <= usize::MAX,
        0 <= i < args.len(),
        args[i] == vstd::utf8::encode_utf8("--a24-exec-module"@),
        forall|j: int|
            0 <= j < i ==> #[trigger] args[j] != vstd::utf8::encode_utf8("--a24-exec-module"@),
    ensures
        !marked ==> asked(marked, args) is Nothing,
        marked && i + 1 == args.len() ==> asked(marked, args) is NoProgram,
        marked && i + 1 < args.len() ==> asked(marked, args) == (Asked::Become {
            program: (i + 1) as usize,
        }),
{
    text::lemma_index_of_first_is(args, vstd::utf8::encode_utf8(TRAMPOLINE_ARG@), i);
}

/// Without the mark among its arguments a process starts as it always does.
pub proof fn law_an_unmarked_start_is_ordinary(marked: bool, args: Seq<Seq<u8>>)
    requires
        forall|j: int|
            0 <= j < args.len() ==> #[trigger] args[j] != vstd::utf8::encode_utf8(
                "--a24-exec-module"@,
            ),
    ensures
        asked(marked, args) is Nothing,
{
    text::lemma_index_of_first_is(
        args,
        vstd::utf8::encode_utf8(TRAMPOLINE_ARG@),
        args.len() as int,
    );
}

/// The first fd that is too high is found, if any is.
pub proof fn law_a_high_fd_is_found(fds: Seq<Seq<char>>, bound: i32)
    ensures
        match first_high(fds, bound) {
            Some(fd) => exists|i: int|
                {
                    &&& 0 <= i < fds.len()
                    &&& text::i32_value(#[trigger] fds[i]) == Some(fd)
                    &&& fd >= bound
                    &&& forall|j: int|
                        0 <= j < i ==> (text::i32_value(#[trigger] fds[j]) matches Some(n) ==> n
                            < bound)
                },
            None => forall|j: int|
                0 <= j < fds.len() ==> (text::i32_value(#[trigger] fds[j]) matches Some(n) ==> n
                    < bound),
        },
    decreases fds.len(),
{
    if fds.len() > 0 {
        let rest = fds.drop_first();
        law_a_high_fd_is_found(rest, bound);
        if is_high(fds[0], bound) {
            assert(text::i32_value(fds[0]) == first_high(fds, bound));
        } else {
            match first_high(rest, bound) {
                Some(fd) => {
                    let i = choose|i: int|
                        {
                            &&& 0 <= i < rest.len()
                            &&& text::i32_value(#[trigger] rest[i]) == Some(fd)
                            &&& fd >= bound
                            &&& forall|j: int|
                                0 <= j < i ==> (text::i32_value(#[trigger] rest[j]) matches Some(n)
                                    ==> n < bound)
                        };
                    assert(fds[i + 1] == rest[i]);
                    assert forall|j: int| 0 <= j < i + 1 implies (text::i32_value(
                        #[trigger] fds[j],
                    ) matches Some(n) ==> n < bound) by {
                        if j > 0 {
                            assert(rest[j - 1] == fds[j]);
                        }
                    }
                },
                None => {
                    assert forall|j: int| 0 <= j < fds.len() implies (text::i32_value(
                        #[trigger] fds[j],
                    ) matches Some(n) ==> n < bound) by {
                        if j > 0 {
                            assert(rest[j - 1] == fds[j]);
                        }
                    }
                },
            }
        }
    }
}

/// A module is started exactly if the fds could be listed and none of them is 65536 or more.
pub proof fn law_when_fds_stop_a_start(
    fds: Seq<Seq<char>>,
    failed: Option<Seq<char>>,
    fd_dir: Seq<char>,
)
    ensures
        refused_fds(fds, failed, fd_dir) is None <==> {
            &&& failed is None
            &&& forall|j: int|
                0 <= j < fds.len() ==> (text::i32_value(#[trigger] fds[j]) matches Some(n) ==> n
                    < 65_536)
        },
        first_high(fds, 65_536) matches Some(fd) ==> refused_fds(fds, failed, fd_dir) == Some(
            "agent24: fd "@ + text::signed_decimal(fd)
                + " is open, above what can be verified as close-on-exec; refusing to start a module that might inherit it"@,
        ),
        first_high(fds, 65_536) is None ==> (failed matches Some(e) ==> refused_fds(
            fds,
            failed,
            fd_dir,
        ) == Some(
            "agent24: cannot list this process's fds ("@ + fd_dir + ": "@ + e
                + "); refusing to start a module without being able to keep the daemon's fds from it"@,
        )),
{
    law_a_high_fd_is_found(fds, 65_536);
}

/// A line of output is kept whole up to 4096 bytes, and only a longer one is cut, to as many.
pub proof fn law_a_line_is_kept_up_to_its_limit(line: Seq<u8>)
    ensures
        kept(line).cut <==> line.len() > 4096,
        !kept(line).cut ==> kept(line).text == line,
        kept(line).cut ==> kept(line).text.len() == 4096 && kept(line).text == line.take(4096),
{
}

/// Output comes apart at its newlines: each line is kept in order, and what follows the last newline
/// is still to be finished.
pub proof fn law_output_comes_apart_at_newlines(line: Seq<u8>, rest: Seq<u8>)
    requires
        !line.contains(0x0a),
    ensures
        lines_of(line).len() == 0,
        unfinished(line) == kept(line),
        lines_of(line + seq![0x0au8] + rest) == seq![kept(line)] + lines_of(rest),
        unfinished(line + seq![0x0au8] + rest) == unfinished(rest),
{
    let end = 0x0au8;
    let empty = Seq::<u8>::empty();
    let mark = seq![end];
    text::lemma_one_piece(line, end);
    text::lemma_mark_pieces(end);
    text::lemma_pieces_concat(line, mark, end);
    assert(line + empty =~= line);
    assert(text::pieces(line + mark, end) =~= seq![line, empty]);
    text::lemma_pieces_concat(line + mark, rest, end);
    let more = text::pieces(rest, end);
    assert(empty + more[0] =~= more[0]);
    let all = text::pieces(line + mark + rest, end);
    assert(all =~= seq![line] + more);
    assert(lines_of(line + mark + rest) =~= seq![kept(line)] + lines_of(rest));
}

/// A line is logged exactly if its second is a new one or has room for it: 200 lines fit. A new second
/// begins with the first line that comes a whole second later, and what was dropped is told of then.
pub proof fn law_a_line_is_logged_or_counted(limit: LimitView, now: u64)
    ensures
        ({
            let over = now - limit.window >= 1_000_000_000;
            let after = limit.after(now);
            &&& limit.logs(now) <==> over || limit.admitted < 200
            &&& limit.tells(now) == if over {
                limit.dropped as nat
            } else {
                0
            }
            &&& over ==> after.window == now && after.admitted == 1 && after.dropped == 0
            &&& !over ==> after.window == limit.window
            &&& !over && limit.logs(now) ==> after.admitted == limit.admitted + 1
                && after.dropped == limit.dropped
            &&& !limit.logs(now) ==> after.admitted == limit.admitted
            &&& !limit.logs(now) && limit.dropped < u64::MAX ==> after.dropped == limit.dropped + 1
            &&& !limit.logs(now) && limit.dropped == u64::MAX ==> after.dropped == limit.dropped
        }),
{
}

/// A command is a bare name exactly if no slash is in it.
pub proof fn law_a_bare_name_has_no_slash(command: Seq<char>)
    ensures
        is_bare(command) <==> forall|i: int|
            0 <= i < command.len() ==> #[trigger] command[i] != '/',
{
    if is_bare(command) {
        assert forall|i: int| 0 <= i < command.len() implies #[trigger] command[i] != '/' by {
            assert(command.contains(command[i]));
        }
    }
}

/// What errors of starts say in words.
pub proof fn law_the_words_of_starts(
    path: Vec<u8>,
    package: Vec<u8>,
    why: String,
    fault: IoFault,
)
    ensures
        ({
            let place = text::lossy_text(path@);
            let home = text::lossy_text(package@);
            &&& LaunchError::Unresolved(why).text() == why@
            &&& (LaunchError::EscapesPackage { resolved: path, package }).text()
                == "the spawn command resolves to "@ + place
                + ", which is outside the package at "@ + home
            &&& LaunchError::Spawn(fault).text() == "could not start the module process: "@
                + fault.text@
            &&& LaunchError::NoEntropy(fault).text() == "could not mint a handshake token: "@
                + fault.text@
            &&& (LaunchError::Inspect { path, error: fault }).text() == "could not inspect "@
                + place + ": "@ + fault.text@
            &&& (LaunchError::TooLarge { package }).text() == "the package at "@ + home
                + " has more than "@ + text::decimal(200_000)
                + " entries; too many to check at every start"@
            &&& LaunchError::UnsafeOwnership(path).text() == place
                + " is not owned by this user, or is writable by group or others; refusing to run a module from it"@
        }),
{
}

} // verus!
