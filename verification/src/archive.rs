//! What goes into the archive of a downloaded directory, and under which names.
//!
//! The archive holds the directory's contents, not the directory: every file and
//! every directory below the source is an entry named by its path relative to the
//! source, and the source itself, whose relative path is empty, is none. The
//! caller walks the source and writes the archive; this module decides, from what
//! the walk found, which entries are written and in which order.

use crate::remote::{reported, reported_entries, Remote, RemoteEntry};
use crate::text::{
    chars_of, child_path, lemma_split_concat, lemma_split_plain, push_char, same_text,
    slash_joined, split, split_from, texts,
};
use vstd::prelude::*;
use vstd::string::*;

verus! {

/// How the contents of a file are stored in the archive.
#[derive(Debug, PartialEq, Eq, Clone, Copy)]
pub enum Compression {
    Stored,
    Deflated,
}

/// Why a directory was not archived.
#[derive(Debug, PartialEq, Eq)]
pub enum ArchiveError {
    /// The source is no directory; a lone file that was downloaded has none.
    SourceNotDirectory,
    /// The walk of the source handed over this path, which does not lie in the
    /// source.
    OutsideSource(String),
    /// Reading the source or writing the archive failed.
    Io(String),
}

/// An `ArchiveError` as a mathematical value.
pub enum ArchiveErrorView {
    SourceNotDirectory,
    OutsideSource(Seq<char>),
    Io(Seq<char>),
}

impl View for ArchiveError {
    type V = ArchiveErrorView;

    open spec fn view(&self) -> ArchiveErrorView {
        match self {
            ArchiveError::SourceNotDirectory => ArchiveErrorView::SourceNotDirectory,
            ArchiveError::OutsideSource(path) => ArchiveErrorView::OutsideSource(path@),
            ArchiveError::Io(detail) => ArchiveErrorView::Io(detail@),
        }
    }
}

/// One thing that the walk of the source found.
#[derive(Debug, PartialEq, Eq)]
pub struct Walked {
    pub path: String,
    /// Whether it is a regular file; what is none is taken for a directory.
    pub is_file: bool,
}

/// A `Walked` as a mathematical value.
pub struct WalkedView {
    pub path: Seq<char>,
    pub is_file: bool,
}

impl View for Walked {
    type V = WalkedView;

    open spec fn view(&self) -> WalkedView {
        WalkedView { path: self.path@, is_file: self.is_file }
    }
}

/// One step in writing the archive.
#[derive(Debug, PartialEq, Eq)]
pub enum ArchiveStep {
    /// Start a file entry called `name` and stream the contents of `source` into
    /// it.
    File { name: String, source: String },
    /// Add a directory entry called `name`.
    Directory { name: String },
    /// Finish the archive: write its directory of entries.
    Finish,
}

/// An `ArchiveStep` as a mathematical value.
pub enum ArchiveStepView {
    File { name: Seq<char>, source: Seq<char> },
    Directory { name: Seq<char> },
    Finish,
}

impl View for ArchiveStep {
    type V = ArchiveStepView;

    open spec fn view(&self) -> ArchiveStepView {
        match self {
            ArchiveStep::File { name, source } => ArchiveStepView::File {
                name: name@,
                source: source@,
            },
            ArchiveStep::Directory { name } => ArchiveStepView::Directory { name: name@ },
            ArchiveStep::Finish => ArchiveStepView::Finish,
        }
    }
}

impl ArchiveStepView {
    /// The name of the entry that the step writes; empty for the step that
    /// writes none.
    pub open spec fn name(self) -> Seq<char> {
        match self {
            ArchiveStepView::File { name, .. } => name,
            ArchiveStepView::Directory { name } => name,
            ArchiveStepView::Finish => Seq::<char>::empty(),
        }
    }
}

/// Whether the archive is begun anew or continued.
#[derive(Debug, PartialEq, Eq, Clone, Copy)]
pub enum Opening {
    /// The destination does not exist: create it and begin an archive.
    Create,
    /// The destination exists: open it and add to the archive that it holds.
    Append,
}

/// Everything that writing the archive takes: how the destination is opened, the
/// steps in their order, and how each entry is stored.
#[derive(Debug, PartialEq, Eq)]
pub struct ArchivePlan {
    pub opening: Opening,
    pub steps: Vec<ArchiveStep>,
    pub compression: Compression,
    pub unix_permissions: u32,
}

/// The steps as mathematical values.
pub open spec fn step_views(steps: Seq<ArchiveStep>) -> Seq<ArchiveStepView> {
    steps.map_values(|step: ArchiveStep| step@)
}

/// What the walk found, as mathematical values.
pub open spec fn walked_views(walked: Seq<Walked>) -> Seq<WalkedView> {
    walked.map_values(|entry: Walked| entry@)
}

/// Whether a piece of a path names something: it is neither empty nor `.`.
pub open spec fn names_something(piece: Seq<char>) -> bool {
    piece.len() > 0 && piece != "."@
}

/// The pieces that name something, in their order.
pub open spec fn naming(pieces: Seq<Seq<char>>) -> Seq<Seq<char>>
    decreases pieces.len(),
{
    if pieces.len() == 0 {
        Seq::<Seq<char>>::empty()
    } else if names_something(pieces.last()) {
        naming(pieces.drop_last()).push(pieces.last())
    } else {
        naming(pieces.drop_last())
    }
}

/// The components of a path: its pieces between slashes that name something.
pub open spec fn components(path: Seq<char>) -> Seq<Seq<char>> {
    naming(split(path, '/'))
}

/// The path of `path` relative to `root`: where the components of `root` begin
/// those of `path`, the components that follow, with slashes between them.
pub open spec fn relative_to(path: Seq<char>, root: Seq<char>) -> Option<Seq<char>> {
    let inner = components(path);
    let outer = components(root);
    if outer.is_prefix_of(inner) {
        Some(slash_joined(inner.skip(outer.len() as int)))
    } else {
        None
    }
}

/// What one thing that the walk found adds to the archive.
///
/// A path outside the source is an error. The source itself, and whatever else
/// has an empty relative path, adds nothing. Anything else adds an entry under
/// its relative path: a file entry for a file, a directory entry otherwise.
pub open spec fn entry_step(source: Seq<char>, entry: WalkedView) -> Result<
    Option<ArchiveStepView>,
    ArchiveErrorView,
> {
    match relative_to(entry.path, source) {
        None => Err(ArchiveErrorView::OutsideSource(entry.path)),
        Some(name) => if name.len() == 0 {
            Ok(None)
        } else if entry.is_file {
            Ok(Some(ArchiveStepView::File { name, source: entry.path }))
        } else {
            Ok(Some(ArchiveStepView::Directory { name }))
        },
    }
}

/// The entries that a walk adds to the archive, in the order of the walk; the
/// first path outside the source is the error.
pub open spec fn planned(source: Seq<char>, walked: Seq<WalkedView>) -> Result<
    Seq<ArchiveStepView>,
    ArchiveErrorView,
>
    decreases walked.len(),
{
    if walked.len() == 0 {
        Ok(Seq::<ArchiveStepView>::empty())
    } else {
        match planned(source, walked.drop_last()) {
            Err(error) => Err(error),
            Ok(steps) => match entry_step(source, walked.last()) {
                Err(error) => Err(error),
                Ok(None) => Ok(steps),
                Ok(Some(step)) => Ok(steps.push(step)),
            },
        }
    }
}

/// The components of a path.
fn components_of(path: &str) -> (found: Vec<String>)
    ensures
        texts(found@) == components(path@),
{
    let chars = chars_of(path);
    assert(chars@.skip(0) == chars@);
    let pieces = split_from(&chars, 0, '/');
    let ghost all = texts(pieces@);
    let mut found: Vec<String> = Vec::new();
    assert(texts(found@) == Seq::<Seq<char>>::empty());
    assert(all.take(0) == Seq::<Seq<char>>::empty());
    for i in 0..pieces.len()
        invariant
            all == texts(pieces@),
            texts(found@) == naming(all.take(i as int)),
    {
        assert(all.take(i + 1).drop_last() == all.take(i as int));
        assert(all.take(i + 1).last() == pieces@[i as int]@);
        let piece = pieces[i].as_str();
        if !piece.is_empty() && !same_text(piece, ".") {
            let ghost before = found@;
            found.push(pieces[i].clone());
            assert(texts(found@) == texts(before).push(pieces@[i as int]@));
        }
    }
    assert(all.take(pieces.len() as int) == all);
    found
}

/// The pieces from `from` on with a slash between neighbours.
fn join_from(pieces: &Vec<String>, from: usize) -> (joined: String)
    requires
        from <= pieces@.len(),
    ensures
        joined@ == slash_joined(texts(pieces@).skip(from as int)),
{
    let ghost tail = texts(pieces@).skip(from as int);
    let mut joined = String::new();
    let mut i: usize = from;
    assert(tail.take(0) == Seq::<Seq<char>>::empty());
    while i < pieces.len()
        invariant
            from <= i <= pieces@.len(),
            tail == texts(pieces@).skip(from as int),
            joined@ == slash_joined(tail.take(i - from)),
        decreases pieces@.len() - i,
    {
        let ghost done = tail.take(i - from);
        let ghost more = tail.take(i + 1 - from);
        assert(more.drop_last() == done);
        assert(more.last() == pieces@[i as int]@);
        if i > from {
            push_char(&mut joined, '/');
        } else {
            assert(more.len() == 1);
            assert(joined@ + pieces@[i as int]@ == pieces@[i as int]@);
        }
        joined.append(pieces[i].as_str());
        i = i + 1;
    }
    assert(tail.take(tail.len() as int) == tail);
    joined
}

/// The path of `path` relative to `root`.
pub fn relative_name(path: &str, root: &str) -> (name: Option<String>)
    ensures
        match name {
            Some(found) => relative_to(path@, root@) == Some(found@),
            None => relative_to(path@, root@) is None,
        },
{
    let inner = components_of(path);
    let outer = components_of(root);
    if outer.len() > inner.len() {
        return None;
    }
    let ghost a = texts(inner@);
    let ghost b = texts(outer@);
    let mut i: usize = 0;
    while i < outer.len()
        invariant
            i <= outer@.len() <= inner@.len(),
            a == texts(inner@),
            b == texts(outer@),
            a == components(path@),
            b == components(root@),
            forall|k: int| 0 <= k < i ==> a[k] == b[k],
        decreases outer@.len() - i,
    {
        if !same_text(inner[i].as_str(), outer[i].as_str()) {
            assert(a[i as int] != b[i as int]);
            assert(a.subrange(0, b.len() as int)[i as int] == a[i as int]);
            return None;
        }
        i = i + 1;
    }
    assert(b == a.subrange(0, b.len() as int));
    Some(join_from(&inner, outer.len()))
}

/// Archives the directory `src` into the zip file `dest`.
#[derive(Debug)]
pub struct ZipArchiver {
    src: String,
    dest: String,
    compression: Compression,
    unix_permissions: u32,
}

/// A `ZipArchiver` as a mathematical value.
pub struct ZipArchiverView {
    pub src: Seq<char>,
    pub dest: Seq<char>,
    pub compression: Compression,
    pub unix_permissions: u32,
}

/// An `ArchivePlan` as a mathematical value.
pub struct ArchivePlanView {
    pub opening: Opening,
    pub steps: Seq<ArchiveStepView>,
    pub compression: Compression,
    pub unix_permissions: u32,
}

impl View for ArchivePlan {
    type V = ArchivePlanView;

    open spec fn view(&self) -> ArchivePlanView {
        ArchivePlanView {
            opening: self.opening,
            steps: step_views(self.steps@),
            compression: self.compression,
            unix_permissions: self.unix_permissions,
        }
    }
}

impl View for ZipArchiver {
    type V = ZipArchiverView;

    closed spec fn view(&self) -> ZipArchiverView {
        ZipArchiverView {
            src: self.src@,
            dest: self.dest@,
            compression: self.compression,
            unix_permissions: self.unix_permissions,
        }
    }
}

/// What archiving amounts to, given what the caller found on disk.
///
/// A source that is no directory is the error `SourceNotDirectory`, whatever
/// else was found. A destination that exists is added to; one that does not is
/// created. The steps are the entries of the walk and then, once and last, the
/// finishing of the archive.
pub open spec fn archive_plan(
    archiver: ZipArchiverView,
    source_is_dir: bool,
    dest_exists: bool,
    walked: Seq<WalkedView>,
) -> Result<ArchivePlanView, ArchiveErrorView> {
    if !source_is_dir {
        Err(ArchiveErrorView::SourceNotDirectory)
    } else {
        match planned(archiver.src, walked) {
            Err(error) => Err(error),
            Ok(steps) => Ok(
                ArchivePlanView {
                    opening: if dest_exists {
                        Opening::Append
                    } else {
                        Opening::Create
                    },
                    steps: steps.push(ArchiveStepView::Finish),
                    compression: archiver.compression,
                    unix_permissions: archiver.unix_permissions,
                },
            ),
        }
    }
}

/// Once a walk has met a path outside the source, the error stays.
proof fn lemma_planned_fails_onwards(source: Seq<char>, walked: Seq<WalkedView>, upto: int)
    requires
        0 <= upto <= walked.len(),
        planned(source, walked.take(upto)) is Err,
    ensures
        planned(source, walked) == planned(source, walked.take(upto)),
    decreases walked.len() - upto,
{
    if upto < walked.len() {
        assert(walked.drop_last().take(upto) == walked.take(upto));
        lemma_planned_fails_onwards(source, walked.drop_last(), upto);
    } else {
        assert(walked.take(upto) == walked);
    }
}

impl ZipArchiver {
    /// An archiver that stores files deflated, with the permission bits `0755`.
    pub fn new(src: &str, dest: &str) -> (archiver: ZipArchiver)
        ensures
            archiver@ == (ZipArchiverView {
                src: src@,
                dest: dest@,
                compression: Compression::Deflated,
                unix_permissions: 0o755,
            }),
    {
        ZipArchiver {
            src: src.to_owned(),
            dest: dest.to_owned(),
            compression: Compression::Deflated,
            unix_permissions: 0o755,
        }
    }

    /// Decides what one thing that the walk found adds to the archive.
    pub fn add_path(&self, path: &str, is_file: bool) -> (step: Result<
        Option<ArchiveStep>,
        ArchiveError,
    >)
        ensures
            match step {
                Ok(Some(found)) => entry_step(self@.src, WalkedView { path: path@, is_file })
                    == Ok::<Option<ArchiveStepView>, ArchiveErrorView>(Some(found@))
                    && found@.name().len() > 0,
                Ok(None) => entry_step(self@.src, WalkedView { path: path@, is_file }) == Ok::<
                    Option<ArchiveStepView>,
                    ArchiveErrorView,
                >(None),
                Err(error) => entry_step(self@.src, WalkedView { path: path@, is_file }) == Err::<
                    Option<ArchiveStepView>,
                    ArchiveErrorView,
                >(error@),
            },
    {
        match relative_name(path, self.src.as_str()) {
            None => Err(ArchiveError::OutsideSource(path.to_owned())),
            Some(name) => if name.as_str().is_empty() {
                Ok(None)
            } else if is_file {
                Ok(Some(ArchiveStep::File { name, source: path.to_owned() }))
            } else {
                Ok(Some(ArchiveStep::Directory { name }))
            },
        }
    }

    /// Decides what a walk of the source adds to the archive.
    ///
    /// No entry has an empty name.
    pub fn zip_dir(&self, walked: &Vec<Walked>) -> (steps: Result<Vec<ArchiveStep>, ArchiveError>)
        ensures
            match steps {
                Ok(found) => {
                    &&& planned(self@.src, walked_views(walked@)) == Ok::<
                        Seq<ArchiveStepView>,
                        ArchiveErrorView,
                    >(step_views(found@))
                    &&& forall|i: int|
                        0 <= i < found@.len() ==> (#[trigger] found@[i])@.name().len() > 0
                },
                Err(error) => planned(self@.src, walked_views(walked@)) == Err::<
                    Seq<ArchiveStepView>,
                    ArchiveErrorView,
                >(error@),
            },
    {
        let ghost all = walked_views(walked@);
        let mut steps: Vec<ArchiveStep> = Vec::new();
        assert(step_views(steps@) == Seq::<ArchiveStepView>::empty());
        assert(all.take(0) == Seq::<WalkedView>::empty());
        for i in 0..walked.len()
            invariant
                all == walked_views(walked@),
                planned(self@.src, all.take(i as int)) == Ok::<
                    Seq<ArchiveStepView>,
                    ArchiveErrorView,
                >(step_views(steps@)),
                forall|k: int| 0 <= k < steps@.len() ==> (#[trigger] steps@[k])@.name().len() > 0,
        {
            assert(all.take(i + 1).drop_last() == all.take(i as int));
            assert(all.take(i + 1).last() == walked@[i as int]@);
            match self.add_path(walked[i].path.as_str(), walked[i].is_file) {
                Err(error) => {
                    proof {
                        lemma_planned_fails_onwards(self@.src, all, i + 1);
                    }
                    return Err(error);
                },
                Ok(None) => {},
                Ok(Some(step)) => {
                    let ghost before = steps@;
                    steps.push(step);
                    assert(step_views(steps@) == step_views(before).push(step@));
                },
            }
        }
        assert(all.take(walked.len() as int) == all);
        Ok(steps)
    }

    /// Decides how the source is archived, given what the caller found on disk:
    /// whether the source is a directory, whether the destination exists, and
    /// what the walk of the source met.
    pub fn run(
        &self,
        source_is_dir: bool,
        dest_exists: bool,
        walked: &Vec<Walked>,
    ) -> (plan: Result<ArchivePlan, ArchiveError>)
        ensures
            match plan {
                Ok(found) => archive_plan(
                    self@,
                    source_is_dir,
                    dest_exists,
                    walked_views(walked@),
                ) == Ok::<ArchivePlanView, ArchiveErrorView>(found@),
                Err(error) => archive_plan(
                    self@,
                    source_is_dir,
                    dest_exists,
                    walked_views(walked@),
                ) == Err::<ArchivePlanView, ArchiveErrorView>(error@),
            },
    {
        if !source_is_dir {
            return Err(ArchiveError::SourceNotDirectory);
        }
        match self.zip_dir(walked) {
            Err(error) => Err(error),
            Ok(entries) => {
                let ghost before = entries@;
                let mut steps = entries;
                steps.push(ArchiveStep::Finish);
                assert(step_views(steps@) == step_views(before).push(ArchiveStepView::Finish));
                Ok(
                    ArchivePlan {
                        opening: if dest_exists {
                            Opening::Append
                        } else {
                            Opening::Create
                        },
                        steps,
                        compression: self.compression,
                        unix_permissions: self.unix_permissions,
                    },
                )
            },
        }
    }

    /// The directory that is archived.
    pub fn source(&self) -> (src: &str)
        ensures
            src@ == self@.src,
    {
        self.src.as_str()
    }

    /// The zip file that is written.
    pub fn destination(&self) -> (dest: &str)
        ensures
            dest@ == self@.dest,
    {
        self.dest.as_str()
    }
}

proof fn lemma_naming_concat(x: Seq<Seq<char>>, y: Seq<Seq<char>>)
    ensures
        naming(x + y) == naming(x) + naming(y),
    decreases y.len(),
{
    if y.len() == 0 {
        assert(x + y == x);
    } else {
        assert((x + y).drop_last() == x + y.drop_last());
        lemma_naming_concat(x, y.drop_last());
    }
}

proof fn lemma_naming_one(piece: Seq<char>)
    ensures
        naming(seq![piece]) == if names_something(piece) {
            seq![piece]
        } else {
            Seq::<Seq<char>>::empty()
        },
{
    assert(seq![piece].drop_last() == Seq::<Seq<char>>::empty());
    assert(naming(seq![piece].drop_last()) == Seq::<Seq<char>>::empty());
}

/// The components of a path in a directory are those of the directory and, last,
/// the name.
proof fn lemma_components_child(dir: Seq<char>, name: Seq<char>)
    requires
        names_something(name),
        !name.contains('/'),
    ensures
        components(child_path(dir, name)) == components(dir).push(name),
{
    lemma_split_plain(name, '/');
    lemma_naming_one(name);
    lemma_naming_one(Seq::<char>::empty());
    let empty = Seq::<char>::empty();
    if dir.len() == 0 {
        assert(dir + name == name);
        assert(split(dir, '/') == seq![empty]);
    } else if dir.last() == '/' {
        let front = dir.drop_last();
        assert(dir == front + seq!['/'] + empty);
        assert(dir + name == front + seq!['/'] + name);
        lemma_split_concat(front, empty, '/');
        lemma_split_concat(front, name, '/');
        lemma_naming_concat(split(front, '/'), seq![empty]);
        lemma_naming_concat(split(front, '/'), seq![name]);
        assert(split(empty, '/') == seq![empty]);
        assert(naming(split(front, '/')) + Seq::<Seq<char>>::empty() == naming(split(front, '/')));
    } else {
        lemma_split_concat(dir, name, '/');
        lemma_naming_concat(split(dir, '/'), seq![name]);
    }
}

/// The source is no entry.
///
/// The path of the source relative to itself is empty, so the walk's first
/// find, the source itself, adds nothing to the archive.
pub proof fn law_source_is_no_entry(source: Seq<char>, is_file: bool)
    ensures
        relative_to(source, source) == Some(Seq::<char>::empty()),
        entry_step(source, WalkedView { path: source, is_file }) == Ok::<
            Option<ArchiveStepView>,
            ArchiveErrorView,
        >(None),
{
    let found = components(source);
    assert(found.subrange(0, found.len() as int) == found);
    assert(found.skip(found.len() as int) == Seq::<Seq<char>>::empty());
}

/// The names in the archive are the paths of the tree.
///
/// Let `dir` lie in the source, with the relative path `at`, and let `name` be
/// one name: not empty, not `.`, without a slash. Then what is called `name` in
/// `dir` has the relative path `name` where `dir` is the source itself, and `at`,
/// a slash and `name` anywhere below. So a file that the download wrote to
/// `root/sub/b.txt` is archived from `root` as `sub/b.txt`.
pub proof fn law_names_follow_the_tree(
    source: Seq<char>,
    dir: Seq<char>,
    name: Seq<char>,
    at: Seq<char>,
)
    requires
        relative_to(dir, source) == Some(at),
        names_something(name),
        !name.contains('/'),
    ensures
        relative_to(child_path(dir, name), source) == Some(
            if at.len() == 0 {
                name
            } else {
                at + seq!['/'] + name
            },
        ),
{
    lemma_components_child(dir, name);
    let outer = components(source);
    let inner = components(dir);
    let grown = inner.push(name);
    let k = outer.len() as int;
    assert(outer == inner.subrange(0, k));
    assert(grown.subrange(0, k) == inner.subrange(0, k));
    let rest = inner.skip(k);
    assert(grown.skip(k) == rest.push(name));
    assert(rest.push(name).drop_last() == rest);
    if rest.len() > 0 {
        lemma_joined_nonempty(rest);
        lemma_naming_pieces(split(dir, '/'));
    } else {
        assert(slash_joined(rest) == Seq::<char>::empty());
    }
}

/// Every piece that naming keeps names something.
proof fn lemma_naming_pieces(pieces: Seq<Seq<char>>)
    ensures
        forall|i: int|
            0 <= i < naming(pieces).len() ==> names_something(#[trigger] naming(pieces)[i]),
    decreases pieces.len(),
{
    if pieces.len() > 0 {
        lemma_naming_pieces(pieces.drop_last());
        let kept = naming(pieces);
        let front = naming(pieces.drop_last());
        assert forall|i: int| 0 <= i < kept.len() implies names_something(#[trigger] kept[i]) by {
            if i < front.len() {
                assert(kept[i] == front[i]);
            }
        }
    }
}

/// Pieces joined by slashes are not empty where the first piece is not.
proof fn lemma_joined_nonempty(pieces: Seq<Seq<char>>)
    requires
        pieces.len() > 0,
    ensures
        slash_joined(pieces).len() >= pieces[0].len(),
        pieces.len() > 1 ==> slash_joined(pieces).len() > 0,
    decreases pieces.len(),
{
    if pieces.len() > 1 {
        lemma_joined_nonempty(pieces.drop_last());
    }
}

/// The relative path of what is called `name` in the directory with the relative
/// path `at`.
pub open spec fn below(at: Seq<char>, name: Seq<char>) -> Seq<char> {
    if at.len() == 0 {
        name
    } else {
        at + seq!['/'] + name
    }
}

/// Whether a name is one name: not empty, not `.`, without a slash.
pub open spec fn plain_name(name: Seq<char>) -> bool {
    names_something(name) && !name.contains('/')
}

/// Whether every entry in what the service holds has a plain name.
pub open spec fn plainly_named(remote: Remote) -> bool
    decreases remote,
{
    match remote {
        Remote::File(node) => plain_name(node.name),
        Remote::Dir(entries) => forall|i: int|
            0 <= i < entries.len() ==> plain_name((#[trigger] entries[i]).node.name) && (
            entries[i].node.is_dir() ==> plainly_named(entries[i].holds)),
    }
}

/// The relative paths of everything in what the service holds, `at` being the
/// relative path of the directory that it goes into.
pub open spec fn names_in_tree(remote: Remote, at: Seq<char>) -> Set<Seq<char>>
    decreases remote, 0nat,
{
    match remote {
        Remote::File(node) => set![below(at, node.name)],
        Remote::Dir(entries) => names_in_entries(entries, entries.len(), at),
    }
}

/// The relative paths of everything in the first `count` entries of a directory.
pub open spec fn names_in_entries(entries: Seq<RemoteEntry>, count: nat, at: Seq<char>) -> Set<
    Seq<char>,
>
    decreases entries, count,
{
    if count == 0 || count > entries.len() {
        Set::<Seq<char>>::empty()
    } else {
        let entry = entries[count - 1];
        let inner = below(at, entry.node.name);
        names_in_entries(entries, (count - 1) as nat, at).insert(inner) + if entry.node.is_dir() {
            names_in_tree(entry.holds, inner)
        } else {
            Set::<Seq<char>>::empty()
        }
    }
}

/// Whether the relative paths of `paths` are exactly `names`, none of them empty.
pub open spec fn named_exactly(
    source: Seq<char>,
    paths: Set<Seq<char>>,
    names: Set<Seq<char>>,
) -> bool {
    &&& forall|path: Seq<char>| #[trigger]
        paths.contains(path) ==> relative_to(path, source) is Some && names.contains(
            relative_to(path, source)->0,
        )
    &&& forall|name: Seq<char>| #[trigger]
        names.contains(name) ==> name.len() > 0 && exists|path: Seq<char>| #[trigger]
            paths.contains(path) && relative_to(path, source) == Some(name)
}

/// The archive names the tree.
///
/// Let what the service holds, every entry plainly named, be downloaded into the
/// directory `dest`, which lies in `source` with the relative path `at`. Then the
/// paths that the download makes have, relative to `source`, exactly the
/// relative paths of the tree: each path one of them, each of them the name of a
/// path, and none of them empty. These are the names under which a walk that
/// finds those paths is archived.
pub proof fn law_archive_names_the_tree(
    source: Seq<char>,
    dest: Seq<char>,
    at: Seq<char>,
    remote: Remote,
)
    requires
        relative_to(dest, source) == Some(at),
        plainly_named(remote),
    ensures
        named_exactly(source, reported(remote, dest), names_in_tree(remote, at)),
    decreases remote, 0nat,
{
    match remote {
        Remote::File(node) => {
            law_names_follow_the_tree(source, dest, node.name, at);
            let path = child_path(dest, node.name);
            assert(reported(remote, dest).contains(path));
        },
        Remote::Dir(entries) => {
            lemma_entries_named(source, dest, at, entries, entries.len());
        },
    }
}

proof fn lemma_entries_named(
    source: Seq<char>,
    dest: Seq<char>,
    at: Seq<char>,
    entries: Seq<RemoteEntry>,
    count: nat,
)
    requires
        relative_to(dest, source) == Some(at),
        plainly_named(Remote::Dir(entries)),
        count <= entries.len(),
    ensures
        named_exactly(
            source,
            reported_entries(entries, count, dest),
            names_in_entries(entries, count, at),
        ),
    decreases entries, count,
{
    if count > 0 {
        let before = (count - 1) as nat;
        let entry = entries[count - 1];
        let child = child_path(dest, entry.node.name);
        let inner = below(at, entry.node.name);
        lemma_entries_named(source, dest, at, entries, before);
        law_names_follow_the_tree(source, dest, entry.node.name, at);
        let old_paths = reported_entries(entries, before, dest);
        let old_names = names_in_entries(entries, before, at);
        let deep_paths = if entry.node.is_dir() {
            reported(entry.holds, child)
        } else {
            Set::<Seq<char>>::empty()
        };
        let deep_names = if entry.node.is_dir() {
            names_in_tree(entry.holds, inner)
        } else {
            Set::<Seq<char>>::empty()
        };
        if entry.node.is_dir() {
            law_archive_names_the_tree(source, child, inner, entry.holds);
        }
        let paths = reported_entries(entries, count, dest);
        let names = names_in_entries(entries, count, at);
        assert(paths == old_paths.insert(child) + deep_paths);
        assert(names == old_names.insert(inner) + deep_names);
        assert forall|path: Seq<char>| #[trigger] paths.contains(path) implies relative_to(
            path,
            source,
        ) is Some && names.contains(relative_to(path, source)->0) by {
            if old_paths.contains(path) {
            } else if path == child {
            } else {
                assert(deep_paths.contains(path));
            }
        }
        assert forall|name: Seq<char>| #[trigger] names.contains(name) implies name.len() > 0
            && exists|path: Seq<char>| #[trigger]
            paths.contains(path) && relative_to(path, source) == Some(name) by {
            if old_names.contains(name) {
                let path = choose|path: Seq<char>| #[trigger]
                    old_paths.contains(path) && relative_to(path, source) == Some(name);
                assert(paths.contains(path));
            } else if name == inner {
                assert(paths.contains(child));
            } else {
                assert(deep_names.contains(name));
                let path = choose|path: Seq<char>| #[trigger]
                    deep_paths.contains(path) && relative_to(path, source) == Some(name);
                assert(paths.contains(path));
            }
        }
    }
}

} // verus!
