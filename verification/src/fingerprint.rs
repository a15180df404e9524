//! Build state fingerprinting: a string that changes whenever the inputs to a
//! build change, so that a project whose outputs are current can be skipped.
//!
//! The fingerprint folds the active profile, the compile settings, a content hash
//! of every source and include-dir file, dependency commits, and dependency
//! configuration into one string that is compared with the one of the last build.
//! Each of them is a field of its own, under a label, and every list is packed so
//! that it can be read back: two builds have the same fingerprint only if they have
//! the same inputs ([`law_fingerprint_shows_inputs`]).
//!
//! Content hashing is kept cheap by [`FileCache`]: it remembers each file's size,
//! mtime and hash, so a file is only read again when its stat changed.
//!
//! Everything that comes from a table (dependencies, lock entries) is sorted first,
//! so the fingerprint does not depend on the order in which a manifest or a
//! lockfile lists its entries.
use vstd::prelude::*;
use std::hash::{DefaultHasher, Hash, Hasher};
use crate::link;
use crate::names;
use crate::names::{Duplicate, NameMap};
use crate::order;
use crate::pack;
use crate::proj_parse;
use crate::proj_parse::{
    Arch, BuildSystem, BuildSystemV, Compile, CompileV, Dependency, DependencyV, Flags, FlagsV,
    Language, Linkage, Output, OutputV, Project, ProjectType, ProjectV, Test, TestV,
};
use crate::text;

verus! {

// ---------------------------------------------------------------------------
// Files
// ---------------------------------------------------------------------------

/// One file's last-seen stat and content hash.
#[derive(Clone, Copy, Debug, PartialEq, Eq, Structural)]
pub struct FileEntry {
    pub size: u64,
    pub mtime: i64,
    pub hash: u64,
}

impl View for FileEntry {
    type V = FileEntry;

    open spec fn view(&self) -> FileEntry {
        *self
    }
}

impl Duplicate for FileEntry {
    fn duplicate(&self) -> (out: Self) {
        *self
    }
}

/// Per-file hash cache persisted between builds, so unchanged files are not read
/// again. Deletable at any time: a miss just hashes again.
#[derive(Debug)]
pub struct FileCache {
    files: NameMap<FileEntry>,
}

impl View for FileCache {
    type V = Seq<(Seq<char>, FileEntry)>;

    closed spec fn view(&self) -> Seq<(Seq<char>, FileEntry)> {
        self.files@
    }
}

impl Default for FileCache {
    /// An empty cache.
    fn default() -> (out: Self)
        ensures
            out@ == Seq::<(Seq<char>, FileEntry)>::empty(),
    {
        FileCache { files: NameMap::new() }
    }
}

/// The hash of a file whose stat is the one on record.
pub open spec fn known_hash(
    cache: Seq<(Seq<char>, FileEntry)>,
    path: Seq<char>,
    size: u64,
    mtime: i64,
) -> Option<u64> {
    match names::lookup(cache, path) {
        Some(e) => if e.size == size && e.mtime == mtime {
            Some(e.hash)
        } else {
            None
        },
        None => None,
    }
}

/// What `DefaultHasher` makes of some bytes.
pub uninterp spec fn content_hash(bytes: Seq<u8>) -> u64;

/// The content hash of a file: std's `DefaultHasher`, made with `new`, over its
/// bytes. All hashers made with `new` are the same, so that the hash is a function
/// of the bytes; it is named. The algorithm is fixed by the standard library and
/// the platform that the library is built with, and other bytes may have the same
/// hash: it detects change.
#[verifier::external_body]
fn hash_bytes(bytes: &[u8]) -> (out: u64)
    ensures
        out == content_hash(bytes@),
{
    let mut h = DefaultHasher::new();
    bytes.hash(&mut h);
    h.finish()
}

impl FileCache {
    /// The hash of a file, if its size and mtime are those on record.
    pub fn known(&self, path: &str, size: u64, mtime: i64) -> (out: Option<u64>)
        ensures
            out == known_hash(self@, path@, size, mtime),
    {
        match self.files.get(path) {
            Some(e) => if e.size == size && e.mtime == mtime {
                Some(e.hash)
            } else {
                None
            },
            None => None,
        }
    }

    /// Record the stat and hash of a file.
    pub fn record(&mut self, path: &str, entry: FileEntry)
        ensures
            final(self)@ == names::put(old(self)@, path@, entry),
    {
        self.files.insert(path.to_owned(), entry);
    }

    /// Hash the contents of a file and record it with its stat.
    pub fn refresh(&mut self, path: &str, size: u64, mtime: i64, contents: &[u8]) -> (hash: u64)
        ensures
            hash == content_hash(contents@),
            final(self)@ == names::put(old(self)@, path@, FileEntry { size, mtime, hash }),
            known_hash(final(self)@, path@, size, mtime) == Some(hash),
    {
        let hash: u64 = hash_bytes(contents);
        let ghost before = self@;
        self.record(path, FileEntry { size, mtime, hash });
        proof {
            names::law_put(before, path@, FileEntry { size, mtime, hash }, path@);
        }
        hash
    }

    /// The files on record, to be written out.
    pub fn files(&self) -> (out: &NameMap<FileEntry>)
        ensures
            out@ == self@,
    {
        &self.files
    }
}

/// A file that was recorded is known as long as its stat stays the same, and is
/// read again as soon as its size or mtime differs.
pub proof fn law_file_cache(
    cache: Seq<(Seq<char>, FileEntry)>,
    path: Seq<char>,
    entry: FileEntry,
    size: u64,
    mtime: i64,
)
    ensures
        known_hash(names::put(cache, path, entry), path, entry.size, entry.mtime) == Some(
            entry.hash,
        ),
        size != entry.size || mtime != entry.mtime ==> known_hash(
            names::put(cache, path, entry),
            path,
            size,
            mtime,
        ) is None,
{
    names::law_put(cache, path, entry, path);
}

/// A file and the hash of its contents.
#[derive(Debug)]
pub struct FileHash {
    pub path: String,
    pub hash: u64,
}

/// The model of a list of [`FileHash`]es.
pub open spec fn hashes(v: Seq<FileHash>) -> Seq<(Seq<char>, u64)> {
    v.map_values(|f: FileHash| (f.path@, f.hash))
}

/// The files of one directory.
#[derive(Debug)]
pub struct FileList {
    pub files: Vec<FileHash>,
}

impl View for FileList {
    type V = Seq<(Seq<char>, u64)>;

    open spec fn view(&self) -> Seq<(Seq<char>, u64)> {
        hashes(self.files@)
    }
}

/// The model of a list of [`FileList`]s.
pub open spec fn file_lists(v: Seq<FileList>) -> Seq<Seq<(Seq<char>, u64)>> {
    v.map_values(|l: FileList| l@)
}

/// The line of one file: its path and its hash in sixteen digits.
pub open spec fn file_line_of(f: (Seq<char>, u64)) -> Seq<char> {
    f.0 + ":"@ + text::hex(f.1 as nat, 16)
}

/// The lines of some files, sorted so that they do not depend on the order in
/// which a directory was walked.
pub open spec fn file_lines_of(files: Seq<(Seq<char>, u64)>) -> Seq<Seq<char>> {
    order::sorted(files.map_values(|f: (Seq<char>, u64)| file_line_of(f)))
}

/// Stable `path:hash` lines for `files`, sorted so the result does not depend on
/// directory-walk order.
pub fn file_fingerprint(files: &Vec<FileHash>) -> (out: Vec<String>)
    ensures
        text::texts(out@) == file_lines_of(hashes(files@)),
{
    let ghost all = hashes(files@);
    let ghost want = all.map_values(|f: (Seq<char>, u64)| file_line_of(f));
    let mut out = text::none();
    let mut i: usize = 0;
    while i < files.len()
        invariant
            i <= files@.len(),
            all == hashes(files@),
            want == all.map_values(|f: (Seq<char>, u64)| file_line_of(f)),
            text::texts(out@) == want.take(i as int),
        decreases files@.len() - i,
    {
        let digits = text::hex_text(files[i].hash, 16);
        let line = text::cat3(files[i].path.as_str(), ":", digits.as_str());
        text::push_text(&mut out, line.as_str());
        i += 1;
        proof {
            assert(all[i - 1] == (files@[i - 1].path@, files@[i - 1].hash));
            assert(want.take(i as int) =~= want.take(i - 1).push(want[i - 1]));
        }
    }
    proof {
        assert(want.take(i as int) =~= want);
    }
    order::sort_texts(out.as_slice())
}

/// The key of a whole directory tree.
pub open spec fn dir_key_of(files: Seq<(Seq<char>, u64)>) -> Seq<char> {
    pack::pack(file_lines_of(files))
}

/// Fingerprint of an entire directory tree, used as a cache key for a local
/// dependency's sources.
pub fn dir_key(files: &Vec<FileHash>) -> (out: String)
    ensures
        out@ == dir_key_of(hashes(files@)),
{
    let lines = file_fingerprint(files);
    pack::pack_texts(lines.as_slice())
}

/// The lines and the key of a directory do not depend on the order in which its
/// files were found.
pub proof fn law_walk_order_does_not_matter(a: Seq<(Seq<char>, u64)>, b: Seq<(Seq<char>, u64)>)
    requires
        a.to_multiset() == b.to_multiset(),
    ensures
        file_lines_of(a) == file_lines_of(b),
        dir_key_of(a) == dir_key_of(b),
{
    let f = |f: (Seq<char>, u64)| file_line_of(f);
    lemma_map_multiset(a, b, f);
    order::law_sorted_ignores_order(a.map_values(f), b.map_values(f));
}

proof fn lemma_map_multiset<A, B>(a: Seq<A>, b: Seq<A>, f: spec_fn(A) -> B)
    requires
        a.to_multiset() == b.to_multiset(),
    ensures
        a.map_values(f).to_multiset() == b.map_values(f).to_multiset(),
    decreases a.len(),
{
    broadcast use vstd::seq_lib::group_to_multiset_ensures;

    a.to_multiset_ensures();
    b.to_multiset_ensures();
    assert(a.len() == a.to_multiset().len());
    assert(b.len() == b.to_multiset().len());
    if a.len() == 0 {
        assert(a.map_values(f) =~= b.map_values(f));
    } else {
        let x = a.last();
        let front = a.drop_last();
        assert(a =~= front.push(x));
        assert(a.to_multiset().count(x) > 0) by {
            assert(a.contains(x));
        }
        assert(b.contains(x));
        let i = choose|i: int| 0 <= i < b.len() && b[i] == x;
        let rest = b.remove(i);
        assert(b =~= rest.insert(i, x));
        assert(rest.to_multiset() =~= b.to_multiset().remove(x));
        assert(front.to_multiset() =~= a.to_multiset().remove(x));
        lemma_map_multiset(front, rest, f);
        assert(a.map_values(f) =~= front.map_values(f).push(f(x)));
        assert(b.map_values(f) =~= rest.map_values(f).insert(i, f(x)));
        assert(b.map_values(f).to_multiset() =~= rest.map_values(f).to_multiset().insert(f(x)));
    }
}

/// Two trees with the same key hold the same files, each with the same hash.
pub proof fn law_dir_key_shows_files(a: Seq<(Seq<char>, u64)>, b: Seq<(Seq<char>, u64)>)
    requires
        dir_key_of(a) == dir_key_of(b),
    ensures
        a.to_multiset() == b.to_multiset(),
{
    pack::law_pack_tells_apart(file_lines_of(a), file_lines_of(b));
    lemma_lines_show(a, b);
}

proof fn lemma_lines_show(a: Seq<(Seq<char>, u64)>, b: Seq<(Seq<char>, u64)>)
    requires
        file_lines_of(a) == file_lines_of(b),
    ensures
        a.to_multiset() == b.to_multiset(),
{
    let f = |x: (Seq<char>, u64)| file_line_of(x);
    order::law_sorted(a.map_values(f));
    order::law_sorted(b.map_values(f));
    assert forall|x: (Seq<char>, u64), y: (Seq<char>, u64)| #[trigger] f(x) == #[trigger] f(
        y,
    ) implies x == y by {
        lemma_line_shows(x, y);
    }
    assert forall|x: (Seq<char>, u64)| a.to_multiset().count(x) == b.to_multiset().count(x) by {
        lemma_count_under(a, f, x);
        lemma_count_under(b, f, x);
    }
    assert(a.to_multiset() =~= b.to_multiset());
}

proof fn lemma_count_under<A, B>(v: Seq<A>, f: spec_fn(A) -> B, x: A)
    requires
        forall|y: A, z: A| #[trigger] f(y) == #[trigger] f(z) ==> y == z,
    ensures
        v.to_multiset().count(x) == v.map_values(f).to_multiset().count(f(x)),
    decreases v.len(),
{
    broadcast use vstd::seq_lib::group_to_multiset_ensures;

    if v.len() > 0 {
        lemma_count_under(v.drop_last(), f, x);
        assert(v =~= v.drop_last().push(v.last()));
        assert(v.map_values(f) =~= v.drop_last().map_values(f).push(f(v.last())));
        assert(v.last() == x <==> f(v.last()) == f(x));
    } else {
        assert(v =~= Seq::empty());
        assert(v.map_values(f) =~= Seq::empty());
    }
}

proof fn lemma_line_shows(x: (Seq<char>, u64), y: (Seq<char>, u64))
    requires
        file_line_of(x) == file_line_of(y),
    ensures
        x == y,
{
    reveal_strlit(":");
    lemma_hex(x.1 as nat, 16);
    lemma_hex(y.1 as nat, 16);
    let s = file_line_of(x);
    let n = s.len() - 17;
    assert(x.0 =~= s.take(n));
    assert(y.0 =~= s.take(n));
    assert(text::hex(x.1 as nat, 16) =~= s.skip(n + 1));
    assert(text::hex(y.1 as nat, 16) =~= s.skip(n + 1));
    text::law_hex_tells_apart(x.1, y.1);
}

// ---------------------------------------------------------------------------
// Settings
// ---------------------------------------------------------------------------

/// An optional string as a list of words.
pub open spec fn item(o: Option<Seq<char>>) -> Seq<Seq<char>> {
    match o {
        Some(s) => seq![s],
        None => Seq::empty(),
    }
}

/// A list of words with a word in front.
pub open spec fn led(first: Seq<char>, rest: Seq<Seq<char>>) -> Seq<Seq<char>> {
    seq![first] + rest
}

/// An optional list as words.
pub open spec fn list_words(o: Option<Seq<Seq<char>>>) -> Seq<Seq<char>> {
    match o {
        Some(v) => led("list"@, v),
        None => Seq::empty(),
    }
}

/// A flag list as words.
pub open spec fn flag_words(o: Option<FlagsV>) -> Seq<Seq<char>> {
    match o {
        Some(FlagsV::Append(v)) => led("append"@, v),
        Some(FlagsV::Replace(v)) => led("replace"@, v),
        None => Seq::empty(),
    }
}

/// A build system as words.
pub open spec fn system_words(o: Option<BuildSystemV>) -> Seq<Seq<char>> {
    match o {
        Some(BuildSystemV::Conjure(t)) => led("conjure"@, item(t)),
        Some(BuildSystemV::Make(t)) => led("make"@, item(t)),
        Some(BuildSystemV::CMake(t)) => led("cmake"@, item(t)),
        Some(BuildSystemV::Autotools(t)) => led("autotools"@, item(t)),
        Some(BuildSystemV::Meson(t)) => led("meson"@, item(t)),
        Some(BuildSystemV::Ninja(t)) => led("ninja"@, item(t)),
        Some(BuildSystemV::Xmake(t)) => led("xmake"@, item(t)),
        Some(BuildSystemV::Just(t)) => led("just"@, seq![t]),
        Some(BuildSystemV::Custom(c)) => led("custom"@, seq![c]),
        None => Seq::empty(),
    }
}

/// A choice between yes and no as words.
pub open spec fn choice_words(o: Option<bool>) -> Seq<Seq<char>> {
    match o {
        Some(true) => seq!["yes"@],
        Some(false) => seq!["no"@],
        None => Seq::empty(),
    }
}

/// Where artifacts go, as words.
pub open spec fn output_words(o: Option<OutputV>) -> Seq<Seq<char>> {
    match o {
        Some(x) => seq![
            pack::pack(item(x.bin)),
            pack::pack(item(x.lib)),
            pack::pack(choice_words(x.symlink_binaries)),
        ],
        None => Seq::empty(),
    }
}

/// What goes into the pkg-config file of a library, as words.
pub open spec fn pc_words(p: ProjectV) -> Seq<Seq<char>> {
    if link::wants_pc(p) {
        seq![pack::pack(item(p.version)), pack::pack(item(p.description))]
    } else {
        Seq::empty()
    }
}

/// The name of a language in a fingerprint.
pub open spec fn language_name(l: Language) -> Seq<char> {
    match l {
        Language::C => "c"@,
        Language::Cpp => "c++"@,
    }
}

/// The name of a project type in a fingerprint.
pub open spec fn kind_name(t: ProjectType) -> Seq<char> {
    match t {
        ProjectType::Binary => "binary"@,
        ProjectType::Library => "library"@,
    }
}

/// The name of a linkage in a fingerprint.
pub open spec fn link_name(l: Linkage) -> Seq<char> {
    match l {
        Linkage::Dynamic => "dynamic"@,
        Linkage::Static => "static"@,
    }
}

/// The name of an architecture in a fingerprint.
pub open spec fn arch_name(a: Arch) -> Seq<char> {
    match a {
        Arch::Native => "native"@,
        Arch::X86 => "x86"@,
        Arch::X86_64 => "x86_64"@,
        Arch::Arm64 => "arm64"@,
    }
}

/// An optional architecture as words.
pub open spec fn arch_words(a: Option<Arch>) -> Seq<Seq<char>> {
    match a {
        Some(x) => seq![arch_name(x)],
        None => Seq::empty(),
    }
}

/// The sources of some tests.
pub open spec fn test_sources(tests: Seq<(Seq<char>, TestV)>) -> Seq<Seq<char>>
    decreases tests.len(),
{
    if tests.len() == 0 {
        Seq::empty()
    } else {
        test_sources(tests.drop_last()) + proj_parse::flags_or_none(tests.last().1.src)
    }
}

/// The sources that a project's own build leaves to its tests, sorted.
pub open spec fn excluded(tests: Option<Seq<(Seq<char>, TestV)>>) -> Seq<Seq<char>> {
    match tests {
        Some(t) => order::sorted(test_sources(t)),
        None => Seq::empty(),
    }
}

/// The files found in the directories a fingerprint covers.
pub struct Scan {
    /// The files below the source roots, with the extensions of the language.
    pub sources: Vec<FileHash>,
    /// The files of each include directory, in the order of the settings, and
    /// then the headers that are on record for the objects.
    pub includes: Vec<FileList>,
    /// The files of each local dependency, by name.
    pub locals: NameMap<FileList>,
}

/// The model of a [`Scan`].
pub struct ScanV {
    pub sources: Seq<(Seq<char>, u64)>,
    pub includes: Seq<Seq<(Seq<char>, u64)>>,
    pub locals: Seq<(Seq<char>, Seq<(Seq<char>, u64)>)>,
}

impl View for Scan {
    type V = ScanV;

    open spec fn view(&self) -> ScanV {
        ScanV {
            sources: hashes(self.sources@),
            includes: file_lists(self.includes@),
            locals: self.locals@,
        }
    }
}

/// All files of the include directories, one directory after the other.
pub open spec fn headers(v: Seq<Seq<(Seq<char>, u64)>>) -> Seq<(Seq<char>, u64)>
    decreases v.len(),
{
    if v.len() == 0 {
        Seq::empty()
    } else {
        headers(v.drop_last()) + v.last()
    }
}

/// The files of a local dependency; none where it was not scanned.
pub open spec fn local_files(
    locals: Seq<(Seq<char>, Seq<(Seq<char>, u64)>)>,
    name: Seq<char>,
) -> Seq<(Seq<char>, u64)> {
    match names::lookup(locals, name) {
        Some(f) => f,
        None => Seq::empty(),
    }
}

/// Where a local dependency lies and the files found there, as words.
pub open spec fn local_words(local: Option<Seq<char>>, files: Seq<(Seq<char>, u64)>) -> Seq<
    Seq<char>,
> {
    match local {
        Some(path) => seq![path, dir_key_of(files)],
        None => Seq::empty(),
    }
}

/// One dependency as words: its name, its configuration and, if it is local, its
/// files. What a remote dependency is fetched from shows in the pins.
pub open spec fn dependency_words(
    name: Seq<char>,
    d: DependencyV,
    files: Seq<(Seq<char>, u64)>,
) -> Seq<Seq<char>> {
    seq![
        name,
        pack::pack(system_words(d.build)),
        pack::pack(list_words(d.includes)),
        pack::pack(list_words(d.pkg_config)),
        pack::pack(list_words(d.src)),
        pack::pack(local_words(d.local, files)),
    ]
}

/// The dependency of a table under a name, with its files, as one word.
pub open spec fn dependency_item(
    deps: Seq<(Seq<char>, DependencyV)>,
    locals: Seq<(Seq<char>, Seq<(Seq<char>, u64)>)>,
    name: Seq<char>,
) -> Seq<char> {
    pack::pack(dependency_words(name, names::lookup(deps, name)->0, local_files(locals, name)))
}

/// A table of dependencies; empty where the section is absent.
pub open spec fn table(deps: Option<Seq<(Seq<char>, DependencyV)>>) -> Seq<
    (Seq<char>, DependencyV),
> {
    match deps {
        Some(d) => d,
        None => Seq::empty(),
    }
}

/// The dependencies of a project, sorted by name.
pub open spec fn dependency_items(
    deps: Seq<(Seq<char>, DependencyV)>,
    locals: Seq<(Seq<char>, Seq<(Seq<char>, u64)>)>,
) -> Seq<Seq<char>> {
    order::sorted(names::keys(deps)).map_values(|n: Seq<char>| dependency_item(deps, locals, n))
}

/// One field of a fingerprint: some words under a label.
pub open spec fn field(label: Seq<char>, words: Seq<Seq<char>>) -> Seq<char> {
    label + pack::pack(words)
}

/// Everything a build depends on but its sources and headers, field by field. Type
/// and linkage are among them: they decide library versus binary and
/// position-independent objects. So are the sources of tests: a build leaves them
/// out.
pub open spec fn base_fields(
    p: ProjectV,
    c: CompileV,
    profile: Seq<char>,
    commits: Seq<Seq<char>>,
    cflags: Seq<Seq<char>>,
    locals: Seq<(Seq<char>, Seq<(Seq<char>, u64)>)>,
) -> Seq<Seq<char>> {
    seq![
        field("profile:"@, seq![profile]),
        field("name:"@, seq![p.name]),
        field("lang:"@, seq![language_name(p.language)]),
        field("ty:"@, seq![kind_name(p.ty)]),
        field("link:"@, seq![link_name(p.link)]),
        field("cc:"@, item(c.cc)),
        field("linker:"@, item(c.linker)),
        field("std:"@, item(c.standard)),
        field("arch:"@, arch_words(c.arch)),
        field("roots:"@, proj_parse::roots(c.src)),
        field("tests:"@, excluded(p.tests)),
        field("inc:"@, proj_parse::flags_or_none(c.includes)),
        field("cflags:"@, flag_words(c.c_flags)),
        field("ldflags:"@, flag_words(c.ld_flags)),
        field("out:"@, output_words(p.output)),
        field("pins:"@, order::sorted(commits)),
        field("pkg:"@, cflags),
        field("deps:"@, dependency_items(table(p.dependencies), locals)),
        field("artifact:"@, item(p.artifact)),
        field("pc:"@, pc_words(p)),
    ]
}

/// Everything a build depends on, field by field.
pub open spec fn fields_of(
    p: ProjectV,
    c: CompileV,
    profile: Seq<char>,
    commits: Seq<Seq<char>>,
    cflags: Seq<Seq<char>>,
    scan: ScanV,
) -> Seq<Seq<char>> {
    base_fields(p, c, profile, commits, cflags, scan.locals) + seq![
        field("src:"@, file_lines_of(scan.sources)),
        field("hdr:"@, file_lines_of(headers(scan.includes))),
    ]
}

fn item_of(o: &Option<String>) -> (out: Vec<String>)
    ensures
        text::texts(out@) == item(text::opt(*o)),
{
    match o {
        Some(s) => text::one(s.as_str()),
        None => text::none(),
    }
}

fn led_by(first: &str, rest: &[String]) -> (out: Vec<String>)
    ensures
        text::texts(out@) == led(first@, text::texts(rest@)),
{
    let mut out = text::one(first);
    text::extend_texts(&mut out, rest);
    out
}

fn list_words_of(o: &Option<Vec<String>>) -> (out: Vec<String>)
    ensures
        text::texts(out@) == list_words(text::opt_texts(*o)),
{
    match o {
        Some(v) => led_by("list", v.as_slice()),
        None => text::none(),
    }
}

fn flag_words_of(o: &Option<Flags>) -> (out: Vec<String>)
    ensures
        text::texts(out@) == flag_words(text::opt(*o)),
{
    match o {
        Some(Flags::Append(v)) => led_by("append", v.as_slice()),
        Some(Flags::Replace(v)) => led_by("replace", v.as_slice()),
        None => text::none(),
    }
}

fn target_words(name: &str, t: &Option<String>) -> (out: Vec<String>)
    ensures
        text::texts(out@) == led(name@, item(text::opt(*t))),
{
    let rest = item_of(t);
    led_by(name, rest.as_slice())
}

fn pair(a: &str, b: &str) -> (out: Vec<String>)
    ensures
        text::texts(out@) == seq![a@, b@],
{
    let mut out = text::one(a);
    text::push_text(&mut out, b);
    proof {
        assert(text::texts(out@) =~= seq![a@, b@]);
    }
    out
}

fn system_words_of(o: &Option<BuildSystem>) -> (out: Vec<String>)
    ensures
        text::texts(out@) == system_words(text::opt(*o)),
{
    match o {
        Some(BuildSystem::Conjure(t)) => target_words("conjure", t),
        Some(BuildSystem::Make(t)) => target_words("make", t),
        Some(BuildSystem::CMake(t)) => target_words("cmake", t),
        Some(BuildSystem::Autotools(t)) => target_words("autotools", t),
        Some(BuildSystem::Meson(t)) => target_words("meson", t),
        Some(BuildSystem::Ninja(t)) => target_words("ninja", t),
        Some(BuildSystem::Xmake(t)) => target_words("xmake", t),
        Some(BuildSystem::Just(t)) => {
            let out = pair("just", t.as_str());
            proof {
                assert(text::texts(out@) =~= led("just"@, seq![t@]));
            }
            out
        },
        Some(BuildSystem::Custom(c)) => {
            let out = pair("custom", c.as_str());
            proof {
                assert(text::texts(out@) =~= led("custom"@, seq![c@]));
            }
            out
        },
        None => text::none(),
    }
}

fn choice_words_of(o: Option<bool>) -> (out: Vec<String>)
    ensures
        text::texts(out@) == choice_words(o),
{
    match o {
        Some(yes) => if yes {
            text::one("yes")
        } else {
            text::one("no")
        },
        None => text::none(),
    }
}

fn push_packed(v: &mut Vec<String>, words: &[String])
    ensures
        text::texts(final(v)@) == text::texts(old(v)@).push(pack::pack(text::texts(words@))),
{
    let one = pack::pack_texts(words);
    text::push_text(v, one.as_str());
}

fn output_words_of(o: &Option<Output>) -> (out: Vec<String>)
    ensures
        text::texts(out@) == output_words(text::opt(*o)),
{
    let mut out = text::none();
    if let Some(x) = o {
        let bin = item_of(&x.bin);
        let lib = item_of(&x.lib);
        let links = choice_words_of(x.symlink_binaries);
        push_packed(&mut out, bin.as_slice());
        push_packed(&mut out, lib.as_slice());
        push_packed(&mut out, links.as_slice());
        proof {
            assert(text::texts(out@) =~= output_words(Some(x@)));
        }
    }
    out
}

fn pc_words_of(project: &Project) -> (out: Vec<String>)
    ensures
        text::texts(out@) == pc_words(project@),
{
    let mut out = text::none();
    if link::writes_pc(project) {
        let version = item_of(&project.version);
        let about = item_of(&project.description);
        push_packed(&mut out, version.as_slice());
        push_packed(&mut out, about.as_slice());
        proof {
            assert(text::texts(out@) =~= pc_words(project@));
        }
    }
    out
}

fn language_text(l: Language) -> (out: &'static str)
    ensures
        out@ == language_name(l),
{
    match l {
        Language::C => "c",
        Language::Cpp => "c++",
    }
}

fn type_text(t: ProjectType) -> (out: &'static str)
    ensures
        out@ == kind_name(t),
{
    match t {
        ProjectType::Binary => "binary",
        ProjectType::Library => "library",
    }
}

fn link_text(l: Linkage) -> (out: &'static str)
    ensures
        out@ == link_name(l),
{
    match l {
        Linkage::Dynamic => "dynamic",
        Linkage::Static => "static",
    }
}

fn arch_words_of(a: Option<Arch>) -> (out: Vec<String>)
    ensures
        text::texts(out@) == arch_words(a),
{
    match a {
        Some(Arch::Native) => text::one("native"),
        Some(Arch::X86) => text::one("x86"),
        Some(Arch::X86_64) => text::one("x86_64"),
        Some(Arch::Arm64) => text::one("arm64"),
        None => text::none(),
    }
}

fn excluded_of(tests: &Option<NameMap<Test>>) -> (out: Vec<String>)
    ensures
        text::texts(out@) == excluded(text::opt(*tests)),
{
    match tests {
        Some(t) => {
            let mut out = text::none();
            let mut i: usize = 0;
            proof {
                assert(t@.take(0) =~= Seq::empty());
            }
            while i < t.len()
                invariant
                    i <= t@.len(),
                    text::texts(out@) == test_sources(t@.take(i as int)),
                decreases t@.len() - i,
            {
                proof {
                    assert(t@.take(i + 1).drop_last() =~= t@.take(i as int));
                    assert(t@.take(i + 1).last() == t@[i as int]);
                }
                let srcs = proj_parse::list_or_none(&t.value_at(i).src);
                text::extend_texts(&mut out, srcs.as_slice());
                i += 1;
            }
            proof {
                assert(t@.take(i as int) =~= t@);
            }
            order::sort_texts(out.as_slice())
        },
        None => text::none(),
    }
}

fn header_lines(lists: &Vec<FileList>) -> (out: Vec<String>)
    ensures
        text::texts(out@) == file_lines_of(headers(file_lists(lists@))),
{
    let ghost all = file_lists(lists@);
    let ghost f = |x: (Seq<char>, u64)| file_line_of(x);
    let mut out = text::none();
    let mut i: usize = 0;
    proof {
        assert(all.take(0) =~= Seq::empty());
        assert(headers(all.take(0)).map_values(f) =~= Seq::empty());
    }
    while i < lists.len()
        invariant
            i <= lists@.len(),
            all == file_lists(lists@),
            f == (|x: (Seq<char>, u64)| file_line_of(x)),
            text::texts(out@).to_multiset() == headers(all.take(i as int)).map_values(
                f,
            ).to_multiset(),
        decreases lists@.len() - i,
    {
        let lines = file_fingerprint(&lists[i].files);
        let ghost before = text::texts(out@);
        text::extend_texts(&mut out, lines.as_slice());
        proof {
            let one = lists@[i as int]@;
            assert(all.take(i + 1).drop_last() =~= all.take(i as int));
            assert(all.take(i + 1).last() == one);
            let front = headers(all.take(i as int));
            assert((front + one).map_values(f) =~= front.map_values(f) + one.map_values(f));
            order::law_sorted(one.map_values(f));
            vstd::seq_lib::lemma_multiset_commutative(before, text::texts(lines@));
            vstd::seq_lib::lemma_multiset_commutative(front.map_values(f), one.map_values(f));
        }
        i += 1;
    }
    proof {
        assert(all.take(i as int) =~= all);
        order::law_sorted_ignores_order(text::texts(out@), headers(all).map_values(f));
    }
    order::sort_texts(out.as_slice())
}

fn local_words_of(local: &Option<String>, files: Option<&FileList>) -> (out: Vec<String>)
    ensures
        text::texts(out@) == local_words(
            text::opt(*local),
            match files {
                Some(l) => l@,
                None => Seq::empty(),
            },
        ),
{
    match local {
        Some(path) => {
            let none: Vec<FileHash> = Vec::new();
            proof {
                assert(hashes(none@) =~= Seq::empty());
            }
            let key = match files {
                Some(list) => dir_key(&list.files),
                None => dir_key(&none),
            };
            pair(path.as_str(), key.as_str())
        },
        None => text::none(),
    }
}

fn dependency_text(name: &str, dep: &Dependency, files: Option<&FileList>) -> (out: String)
    ensures
        out@ == pack::pack(
            dependency_words(
                name@,
                dep@,
                match files {
                    Some(l) => l@,
                    None => Seq::empty(),
                },
            ),
        ),
{
    let build = system_words_of(&dep.build);
    let inc = list_words_of(&dep.includes);
    let pkg = list_words_of(&dep.pkg_config);
    let src = list_words_of(&dep.src);
    let local = local_words_of(&dep.local, files);
    let mut out = text::one(name);
    push_packed(&mut out, build.as_slice());
    push_packed(&mut out, inc.as_slice());
    push_packed(&mut out, pkg.as_slice());
    push_packed(&mut out, src.as_slice());
    push_packed(&mut out, local.as_slice());
    proof {
        let fs = match files {
            Some(l) => l@,
            None => Seq::empty(),
        };
        assert(text::texts(out@) =~= dependency_words(name@, dep@, fs));
    }
    pack::pack_texts(out.as_slice())
}

fn dependencies(deps: &NameMap<Dependency>, locals: &NameMap<FileList>) -> (out: Vec<String>)
    ensures
        text::texts(out@) == dependency_items(deps@, locals@),
{
    let sorted_names = deps.sorted_keys();
    let ghost order = order::sorted(names::keys(deps@));
    let ghost want = dependency_items(deps@, locals@);
    let mut out = text::none();
    let mut i: usize = 0;
    while i < sorted_names.len()
        invariant
            i <= sorted_names@.len(),
            order == text::texts(sorted_names@),
            order == order::sorted(names::keys(deps@)),
            want == dependency_items(deps@, locals@),
            text::texts(out@) == want.take(i as int),
        decreases sorted_names@.len() - i,
    {
        let name = sorted_names[i].as_str();
        proof {
            assert(order[i as int] == name@);
            assert(order.contains(name@));
            order::law_sorted(names::keys(deps@));
            names::lemma_holds(deps@, name@);
            assert(want[i as int] == dependency_item(deps@, locals@, name@));
            assert(want.take(i + 1) =~= want.take(i as int).push(want[i as int]));
        }
        if let Some(dep) = deps.get(name) {
            let one = dependency_text(name, dep, locals.get(name));
            text::push_text(&mut out, one.as_str());
        }
        i += 1;
    }
    proof {
        assert(order.len() == sorted_names@.len());
        assert(want.take(i as int) =~= want);
    }
    out
}

fn push_field(v: &mut Vec<String>, label: &str, words: &[String])
    ensures
        text::texts(final(v)@) == text::texts(old(v)@).push(field(label@, text::texts(words@))),
{
    let packed = pack::pack_texts(words);
    let one = text::cat(label, packed.as_str());
    text::push_text(v, one.as_str());
}

fn push_word(v: &mut Vec<String>, label: &str, word: &str)
    ensures
        text::texts(final(v)@) == text::texts(old(v)@).push(field(label@, seq![word@])),
{
    let words = text::one(word);
    push_field(v, label, words.as_slice());
}

fn base(
    project: &Project,
    compile: &Compile,
    profile: &str,
    commits: &[String],
    cflags: &[String],
    locals: &NameMap<FileList>,
) -> (out: Vec<String>)
    ensures
        text::texts(out@) == base_fields(
            project@,
            compile@,
            profile@,
            text::texts(commits@),
            text::texts(cflags@),
            locals@,
        ),
{
    let cc = item_of(&compile.cc);
    let linker = item_of(&compile.linker);
    let standard = item_of(&compile.standard);
    let arch = arch_words_of(compile.arch);
    let roots = compile.src_roots();
    let tests = excluded_of(&project.tests);
    let inc = proj_parse::list_or_none(&compile.includes);
    let c_flags = flag_words_of(&compile.c_flags);
    let ld_flags = flag_words_of(&compile.ld_flags);
    let output = output_words_of(&project.output);
    let artifact = item_of(&project.artifact);
    let pc = pc_words_of(project);
    let pins = order::sort_texts(commits);
    let deps = match &project.dependencies {
        Some(d) => dependencies(d, locals),
        None => {
            let none: NameMap<Dependency> = NameMap::new();
            dependencies(&none, locals)
        },
    };
    let mut out = text::none();
    push_word(&mut out, "profile:", profile);
    push_word(&mut out, "name:", project.name.as_str());
    push_word(&mut out, "lang:", language_text(project.language));
    push_word(&mut out, "ty:", type_text(project.ty));
    push_word(&mut out, "link:", link_text(project.link));
    push_field(&mut out, "cc:", cc.as_slice());
    push_field(&mut out, "linker:", linker.as_slice());
    push_field(&mut out, "std:", standard.as_slice());
    push_field(&mut out, "arch:", arch.as_slice());
    push_field(&mut out, "roots:", roots.as_slice());
    push_field(&mut out, "tests:", tests.as_slice());
    push_field(&mut out, "inc:", inc.as_slice());
    push_field(&mut out, "cflags:", c_flags.as_slice());
    push_field(&mut out, "ldflags:", ld_flags.as_slice());
    push_field(&mut out, "out:", output.as_slice());
    push_field(&mut out, "pins:", pins.as_slice());
    push_field(&mut out, "pkg:", cflags);
    push_field(&mut out, "deps:", deps.as_slice());
    push_field(&mut out, "artifact:", artifact.as_slice());
    push_field(&mut out, "pc:", pc.as_slice());
    proof {
        assert(text::texts(out@) =~= base_fields(
            project@,
            compile@,
            profile@,
            text::texts(commits@),
            text::texts(cflags@),
            locals@,
        ));
    }
    out
}

/// The fingerprint of a project, or why it has none.
pub open spec fn fingerprint_of(
    p: ProjectV,
    profile: Seq<char>,
    commits: Seq<Seq<char>>,
    cflags: Seq<Seq<char>>,
    scan: ScanV,
) -> Result<Seq<char>, Seq<char>> {
    match p.compile {
        Some(c) => Ok(pack::pack(fields_of(p, c, profile, commits, cflags, scan))),
        None => Err("no compile section"@),
    }
}

/// The fingerprint of `project` built under `profile`, with the given pinned
/// dependency commits and pkg-config flags, over the files that were found.
pub fn fingerprint(
    project: &Project,
    profile: &str,
    commits: &[String],
    cflags: &[String],
    scan: &Scan,
) -> (out: Result<String, String>)
    ensures
        match out {
            Ok(s) => fingerprint_of(
                project@,
                profile@,
                text::texts(commits@),
                text::texts(cflags@),
                scan@,
            ) == Ok::<Seq<char>, Seq<char>>(s@),
            Err(e) => fingerprint_of(
                project@,
                profile@,
                text::texts(commits@),
                text::texts(cflags@),
                scan@,
            ) == Err::<Seq<char>, Seq<char>>(e@),
        },
{
    match &project.compile {
        None => Err("no compile section".to_owned()),
        Some(compile) => {
            let mut fields = base(project, compile, profile, commits, cflags, &scan.locals);
            let sources = file_fingerprint(&scan.sources);
            let found = header_lines(&scan.includes);
            push_field(&mut fields, "src:", sources.as_slice());
            push_field(&mut fields, "hdr:", found.as_slice());
            proof {
                assert(text::texts(fields@) =~= fields_of(
                    project@,
                    compile@,
                    profile@,
                    text::texts(commits@),
                    text::texts(cflags@),
                    scan@,
                ));
            }
            Ok(pack::pack_texts(fields.as_slice()))
        },
    }
}

// ---------------------------------------------------------------------------
// What does not show in a fingerprint
// ---------------------------------------------------------------------------

/// The fingerprint does not depend on the order in which a manifest lists its
/// dependencies: two tables with the same names and the same entry under each give
/// the same fingerprint.
pub proof fn law_dependency_order_does_not_matter(
    p: ProjectV,
    a: Seq<(Seq<char>, DependencyV)>,
    b: Seq<(Seq<char>, DependencyV)>,
    profile: Seq<char>,
    commits: Seq<Seq<char>>,
    cflags: Seq<Seq<char>>,
    scan: ScanV,
)
    requires
        names::keys(a).to_multiset() == names::keys(b).to_multiset(),
        forall|name: Seq<char>| #[trigger] names::lookup(a, name) == names::lookup(b, name),
    ensures
        fingerprint_of(
            ProjectV { dependencies: Some(a), ..p },
            profile,
            commits,
            cflags,
            scan,
        ) == fingerprint_of(
            ProjectV { dependencies: Some(b), ..p },
            profile,
            commits,
            cflags,
            scan,
        ),
{
    order::law_sorted_ignores_order(names::keys(a), names::keys(b));
    let x = dependency_items(a, scan.locals);
    let y = dependency_items(b, scan.locals);
    assert forall|i: int| 0 <= i < x.len() implies #[trigger] x[i] == y[i] by {
        let n = order::sorted(names::keys(a))[i];
        assert(names::lookup(a, n) == names::lookup(b, n));
    }
    assert(x =~= y);
}

/// Nor does it depend on the order of the pinned commits, or on the order in which
/// source files and headers were found.
pub proof fn law_commit_order_does_not_matter(
    p: ProjectV,
    profile: Seq<char>,
    a: Seq<Seq<char>>,
    b: Seq<Seq<char>>,
    cflags: Seq<Seq<char>>,
    scan: ScanV,
    other: ScanV,
)
    requires
        a.to_multiset() == b.to_multiset(),
        scan.sources.to_multiset() == other.sources.to_multiset(),
        headers(scan.includes).to_multiset() == headers(other.includes).to_multiset(),
        scan.locals == other.locals,
    ensures
        fingerprint_of(p, profile, a, cflags, scan) == fingerprint_of(
            p,
            profile,
            b,
            cflags,
            other,
        ),
{
    order::law_sorted_ignores_order(a, b);
    law_walk_order_does_not_matter(scan.sources, other.sources);
    law_walk_order_does_not_matter(headers(scan.includes), headers(other.includes));
}

// ---------------------------------------------------------------------------
// What shows in a fingerprint
// ---------------------------------------------------------------------------

/// Whether two projects agree on the settings that a build depends on.
pub open spec fn same_settings(p: ProjectV, c: CompileV, q: ProjectV, d: CompileV) -> bool {
    &&& p.name == q.name
    &&& p.language == q.language
    &&& p.ty == q.ty
    &&& p.link == q.link
    &&& p.output == q.output
    &&& p.artifact == q.artifact
    &&& link::wants_pc(p) == link::wants_pc(q)
    &&& link::wants_pc(p) ==> p.version == q.version && p.description == q.description
    &&& excluded(p.tests) == excluded(q.tests)
    &&& c.cc == d.cc
    &&& c.linker == d.linker
    &&& c.standard == d.standard
    &&& c.arch == d.arch
    &&& proj_parse::roots(c.src) == proj_parse::roots(d.src)
    &&& proj_parse::flags_or_none(c.includes) == proj_parse::flags_or_none(d.includes)
    &&& c.c_flags == d.c_flags
    &&& c.ld_flags == d.ld_flags
}

/// Whether two dependencies are configured alike.
pub open spec fn same_configuration(a: DependencyV, b: DependencyV) -> bool {
    &&& a.build == b.build
    &&& a.includes == b.includes
    &&& a.pkg_config == b.pkg_config
    &&& a.src == b.src
    &&& a.local == b.local
}

/// Whether two tables hold the same dependencies, configured alike and, where they
/// are local, with the same files.
pub open spec fn same_dependencies(
    a: Seq<(Seq<char>, DependencyV)>,
    files: Seq<(Seq<char>, Seq<(Seq<char>, u64)>)>,
    b: Seq<(Seq<char>, DependencyV)>,
    others: Seq<(Seq<char>, Seq<(Seq<char>, u64)>)>,
) -> bool {
    &&& names::keys(a).to_multiset() == names::keys(b).to_multiset()
    &&& forall|name: Seq<char>| #[trigger]
        names::holds(a, name) ==> same_configuration(
            names::lookup(a, name)->0,
            names::lookup(b, name)->0,
        ) && (names::lookup(a, name)->0.local is Some ==> local_files(files, name).to_multiset()
            == local_files(others, name).to_multiset())
}

proof fn lemma_field(label: Seq<char>, v: Seq<Seq<char>>, w: Seq<Seq<char>>)
    requires
        field(label, v) == field(label, w),
    ensures
        v == w,
{
    let n = label.len() as int;
    assert(field(label, v).skip(n) =~= pack::pack(v));
    assert(field(label, w).skip(n) =~= pack::pack(w));
    pack::law_pack_tells_apart(v, w);
}

proof fn lemma_word(label: Seq<char>, a: Seq<char>, b: Seq<char>)
    requires
        field(label, seq![a]) == field(label, seq![b]),
    ensures
        a == b,
{
    lemma_field(label, seq![a], seq![b]);
    assert(seq![a][0] == seq![b][0]);
}

proof fn lemma_item(a: Option<Seq<char>>, b: Option<Seq<char>>)
    requires
        item(a) == item(b),
    ensures
        a == b,
{
    match (a, b) {
        (Some(x), Some(y)) => {
            assert(item(a)[0] == x);
            assert(item(b)[0] == y);
        },
        _ => {
            assert(a is Some ==> item(a).len() == 1);
            assert(b is Some ==> item(b).len() == 1);
        },
    }
}

proof fn lemma_led(a: Seq<char>, v: Seq<Seq<char>>, b: Seq<char>, w: Seq<Seq<char>>)
    requires
        led(a, v) == led(b, w),
    ensures
        a == b,
        v == w,
{
    assert(led(a, v)[0] == a);
    assert(led(b, w)[0] == b);
    assert(led(a, v).skip(1) =~= v);
    assert(led(b, w).skip(1) =~= w);
}

proof fn lemma_list_words(a: Option<Seq<Seq<char>>>, b: Option<Seq<Seq<char>>>)
    requires
        list_words(a) == list_words(b),
    ensures
        a == b,
{
    match (a, b) {
        (Some(v), Some(w)) => {
            lemma_led("list"@, v, "list"@, w);
        },
        _ => {
            assert(list_words(a).len() == list_words(b).len());
        },
    }
}

proof fn lemma_flag_words(a: Option<FlagsV>, b: Option<FlagsV>)
    requires
        flag_words(a) == flag_words(b),
    ensures
        a == b,
{
    reveal_strlit("append");
    reveal_strlit("replace");
    assert("append"@.len() != "replace"@.len());
    assert(flag_words(a).len() == flag_words(b).len());
    if let Some(x) = a {
        if let Some(y) = b {
            lemma_led(flag_words(a)[0], proj_parse::written(x), flag_words(b)[0], proj_parse::written(y));
        }
    }
}

/// The first word of a build system, and the rest of its words.
spec fn system_parts(b: BuildSystemV) -> (Seq<char>, Seq<Seq<char>>) {
    match b {
        BuildSystemV::Conjure(t) => ("conjure"@, item(t)),
        BuildSystemV::Make(t) => ("make"@, item(t)),
        BuildSystemV::CMake(t) => ("cmake"@, item(t)),
        BuildSystemV::Autotools(t) => ("autotools"@, item(t)),
        BuildSystemV::Meson(t) => ("meson"@, item(t)),
        BuildSystemV::Ninja(t) => ("ninja"@, item(t)),
        BuildSystemV::Xmake(t) => ("xmake"@, item(t)),
        BuildSystemV::Just(t) => ("just"@, item(Some(t))),
        BuildSystemV::Custom(c) => ("custom"@, item(Some(c))),
    }
}

/// What a build system is told to build.
spec fn system_target(b: BuildSystemV) -> Option<Seq<char>> {
    match b {
        BuildSystemV::Conjure(t) => t,
        BuildSystemV::Make(t) => t,
        BuildSystemV::CMake(t) => t,
        BuildSystemV::Autotools(t) => t,
        BuildSystemV::Meson(t) => t,
        BuildSystemV::Ninja(t) => t,
        BuildSystemV::Xmake(t) => t,
        BuildSystemV::Just(t) => Some(t),
        BuildSystemV::Custom(c) => Some(c),
    }
}

proof fn lemma_system_tags()
    ensures
        "conjure"@[0] == 'c' && "conjure"@[1] == 'o',
        "make"@[0] == 'm' && "make"@[1] == 'a',
        "cmake"@[0] == 'c' && "cmake"@[1] == 'm',
        "autotools"@[0] == 'a' && "autotools"@[1] == 'u',
        "meson"@[0] == 'm' && "meson"@[1] == 'e',
        "ninja"@[0] == 'n' && "ninja"@[1] == 'i',
        "xmake"@[0] == 'x' && "xmake"@[1] == 'm',
        "just"@[0] == 'j' && "just"@[1] == 'u',
        "custom"@[0] == 'c' && "custom"@[1] == 'u',
{
    reveal_strlit("conjure");
    reveal_strlit("make");
    reveal_strlit("cmake");
    reveal_strlit("autotools");
    reveal_strlit("meson");
    reveal_strlit("ninja");
    reveal_strlit("xmake");
    reveal_strlit("just");
    reveal_strlit("custom");
}

proof fn lemma_system_words(a: Option<BuildSystemV>, b: Option<BuildSystemV>)
    requires
        system_words(a) == system_words(b),
    ensures
        a == b,
{
    assert(system_words(a).len() == system_words(b).len());
    if let Some(x) = a {
        if let Some(y) = b {
            assert(system_words(a) == led(system_parts(x).0, system_parts(x).1));
            assert(system_words(b) == led(system_parts(y).0, system_parts(y).1));
            lemma_led(
                system_parts(x).0,
                system_parts(x).1,
                system_parts(y).0,
                system_parts(y).1,
            );
            assert(system_parts(x).1 == item(system_target(x)));
            assert(system_parts(y).1 == item(system_target(y)));
            lemma_item(system_target(x), system_target(y));
            lemma_system_tags();
        }
    }
}

proof fn lemma_output_words(a: Option<OutputV>, b: Option<OutputV>)
    requires
        output_words(a) == output_words(b),
    ensures
        a == b,
{
    assert(a is Some ==> output_words(a).len() == 3);
    assert(b is Some ==> output_words(b).len() == 3);
    if let Some(x) = a {
        if let Some(y) = b {
            assert(output_words(a)[0] == pack::pack(item(x.bin)));
            assert(output_words(b)[0] == pack::pack(item(y.bin)));
            pack::law_pack_tells_apart(item(x.bin), item(y.bin));
            lemma_item(x.bin, y.bin);
            assert(output_words(a)[1] == pack::pack(item(x.lib)));
            assert(output_words(b)[1] == pack::pack(item(y.lib)));
            pack::law_pack_tells_apart(item(x.lib), item(y.lib));
            lemma_item(x.lib, y.lib);
            let v = choice_words(x.symlink_binaries);
            let w = choice_words(y.symlink_binaries);
            assert(output_words(a)[2] == pack::pack(v));
            assert(output_words(b)[2] == pack::pack(w));
            pack::law_pack_tells_apart(v, w);
            reveal_strlit("yes");
            reveal_strlit("no");
            assert("yes"@.len() != "no"@.len());
            assert(v.len() == w.len());
            if v.len() > 0 {
                assert(v[0] == w[0]);
            }
        }
    }
}

proof fn lemma_pc_words(p: ProjectV, q: ProjectV)
    requires
        pc_words(p) == pc_words(q),
    ensures
        link::wants_pc(p) == link::wants_pc(q),
        link::wants_pc(p) ==> p.version == q.version && p.description == q.description,
{
    assert(link::wants_pc(p) ==> pc_words(p).len() == 2);
    assert(link::wants_pc(q) ==> pc_words(q).len() == 2);
    if link::wants_pc(p) {
        assert(pc_words(p)[0] == pack::pack(item(p.version)));
        assert(pc_words(q)[0] == pack::pack(item(q.version)));
        pack::law_pack_tells_apart(item(p.version), item(q.version));
        lemma_item(p.version, q.version);
        assert(pc_words(p)[1] == pack::pack(item(p.description)));
        assert(pc_words(q)[1] == pack::pack(item(q.description)));
        pack::law_pack_tells_apart(item(p.description), item(q.description));
        lemma_item(p.description, q.description);
    }
}

proof fn lemma_names_differ()
    ensures
        forall|a: Language, b: Language| #[trigger] language_name(a) == #[trigger] language_name(b)
            ==> a == b,
        forall|a: ProjectType, b: ProjectType| #[trigger] kind_name(a) == #[trigger] kind_name(b)
            ==> a == b,
        forall|a: Linkage, b: Linkage| #[trigger] link_name(a) == #[trigger] link_name(b) ==> a
            == b,
        forall|a: Arch, b: Arch| #[trigger] arch_name(a) == #[trigger] arch_name(b) ==> a == b,
{
    reveal_strlit("c");
    reveal_strlit("c++");
    reveal_strlit("binary");
    reveal_strlit("library");
    reveal_strlit("dynamic");
    reveal_strlit("static");
    reveal_strlit("native");
    reveal_strlit("x86");
    reveal_strlit("x86_64");
    reveal_strlit("arm64");
    assert("c"@.len() == 1);
    assert("c++"@.len() == 3);
    assert("binary"@[0] == 'b');
    assert("library"@[0] == 'l');
    assert("dynamic"@[0] == 'd');
    assert("static"@[0] == 's');
    assert("native"@[0] == 'n');
    assert("x86"@[0] == 'x');
    assert("x86_64"@[0] == 'x');
    assert("x86"@.len() == 3);
    assert("x86_64"@.len() == 6);
    assert("arm64"@[0] == 'a');
}

proof fn lemma_arch_words(a: Option<Arch>, b: Option<Arch>)
    requires
        arch_words(a) == arch_words(b),
    ensures
        a == b,
{
    lemma_names_differ();
    assert(a is Some ==> arch_words(a).len() == 1);
    assert(b is Some ==> arch_words(b).len() == 1);
    if let Some(x) = a {
        if let Some(y) = b {
            assert(arch_words(a)[0] == arch_name(x));
            assert(arch_words(b)[0] == arch_name(y));
        }
    }
}

proof fn lemma_local_words(
    a: Option<Seq<char>>,
    files: Seq<(Seq<char>, u64)>,
    b: Option<Seq<char>>,
    others: Seq<(Seq<char>, u64)>,
)
    requires
        local_words(a, files) == local_words(b, others),
    ensures
        a == b,
        a is Some ==> files.to_multiset() == others.to_multiset(),
{
    assert(a is Some ==> local_words(a, files).len() == 2);
    assert(b is Some ==> local_words(b, others).len() == 2);
    if let Some(x) = a {
        if let Some(y) = b {
            assert(local_words(a, files)[0] == x);
            assert(local_words(b, others)[0] == y);
            assert(local_words(a, files)[1] == dir_key_of(files));
            assert(local_words(b, others)[1] == dir_key_of(others));
            law_dir_key_shows_files(files, others);
        }
    }
}

proof fn lemma_dependency_words(
    n: Seq<char>,
    a: DependencyV,
    files: Seq<(Seq<char>, u64)>,
    m: Seq<char>,
    b: DependencyV,
    others: Seq<(Seq<char>, u64)>,
)
    requires
        dependency_words(n, a, files) == dependency_words(m, b, others),
    ensures
        n == m,
        same_configuration(a, b),
        a.local is Some ==> files.to_multiset() == others.to_multiset(),
{
    let v = dependency_words(n, a, files);
    let w = dependency_words(m, b, others);
    assert(v[0] == n && w[0] == m);
    assert(v[1] == pack::pack(system_words(a.build)) && w[1] == pack::pack(system_words(b.build)));
    pack::law_pack_tells_apart(system_words(a.build), system_words(b.build));
    lemma_system_words(a.build, b.build);
    assert(v[2] == pack::pack(list_words(a.includes)) && w[2] == pack::pack(
        list_words(b.includes),
    ));
    pack::law_pack_tells_apart(list_words(a.includes), list_words(b.includes));
    lemma_list_words(a.includes, b.includes);
    assert(v[3] == pack::pack(list_words(a.pkg_config)) && w[3] == pack::pack(
        list_words(b.pkg_config),
    ));
    pack::law_pack_tells_apart(list_words(a.pkg_config), list_words(b.pkg_config));
    lemma_list_words(a.pkg_config, b.pkg_config);
    assert(v[4] == pack::pack(list_words(a.src)) && w[4] == pack::pack(list_words(b.src)));
    pack::law_pack_tells_apart(list_words(a.src), list_words(b.src));
    lemma_list_words(a.src, b.src);
    let x = local_words(a.local, files);
    let y = local_words(b.local, others);
    assert(v[5] == pack::pack(x) && w[5] == pack::pack(y));
    pack::law_pack_tells_apart(x, y);
    lemma_local_words(a.local, files, b.local, others);
}

proof fn lemma_dependency_items(
    a: Seq<(Seq<char>, DependencyV)>,
    files: Seq<(Seq<char>, Seq<(Seq<char>, u64)>)>,
    b: Seq<(Seq<char>, DependencyV)>,
    others: Seq<(Seq<char>, Seq<(Seq<char>, u64)>)>,
)
    requires
        dependency_items(a, files) == dependency_items(b, others),
    ensures
        same_dependencies(a, files, b, others),
{
    let v = order::sorted(names::keys(a));
    let w = order::sorted(names::keys(b));
    order::law_sorted(names::keys(a));
    order::law_sorted(names::keys(b));
    assert(dependency_items(a, files).len() == v.len());
    assert(dependency_items(b, others).len() == w.len());
    assert forall|i: int| 0 <= i < v.len() implies #[trigger] v[i] == w[i] && same_configuration(
        names::lookup(a, v[i])->0,
        names::lookup(b, v[i])->0,
    ) && (names::lookup(a, v[i])->0.local is Some ==> local_files(files, v[i]).to_multiset()
        == local_files(others, v[i]).to_multiset()) by {
        assert(dependency_items(a, files)[i] == dependency_item(a, files, v[i]));
        assert(dependency_items(b, others)[i] == dependency_item(b, others, w[i]));
        let x = names::lookup(a, v[i])->0;
        let y = names::lookup(b, w[i])->0;
        let f = local_files(files, v[i]);
        let g = local_files(others, w[i]);
        pack::law_pack_tells_apart(dependency_words(v[i], x, f), dependency_words(w[i], y, g));
        lemma_dependency_words(v[i], x, f, w[i], y, g);
    }
    assert(v =~= w);
    assert forall|name: Seq<char>| #[trigger] names::holds(a, name) implies same_configuration(
        names::lookup(a, name)->0,
        names::lookup(b, name)->0,
    ) && (names::lookup(a, name)->0.local is Some ==> local_files(files, name).to_multiset()
        == local_files(others, name).to_multiset()) by {
        names::lemma_holds(a, name);
        assert(v.contains(name));
        let i = choose|i: int| 0 <= i < v.len() && v[i] == name;
        assert(v[i] == w[i]);
    }
}

/// Where two builds agree on everything but their files as a fingerprint records
/// it, they agree on the profile, on every setting, on pins and pkg-config flags,
/// and on their dependencies: another language, a flag that moved from one list to
/// another, or several changes at once show.
pub proof fn law_base_shows_inputs(
    p: ProjectV,
    c: CompileV,
    profile: Seq<char>,
    commits: Seq<Seq<char>>,
    cflags: Seq<Seq<char>>,
    files: Seq<(Seq<char>, Seq<(Seq<char>, u64)>)>,
    q: ProjectV,
    d: CompileV,
    other_profile: Seq<char>,
    other_commits: Seq<Seq<char>>,
    other_cflags: Seq<Seq<char>>,
    others: Seq<(Seq<char>, Seq<(Seq<char>, u64)>)>,
)
    requires
        base_fields(p, c, profile, commits, cflags, files) == base_fields(
            q,
            d,
            other_profile,
            other_commits,
            other_cflags,
            others,
        ),
    ensures
        profile == other_profile,
        same_settings(p, c, q, d),
        commits.to_multiset() == other_commits.to_multiset(),
        cflags == other_cflags,
        same_dependencies(table(p.dependencies), files, table(q.dependencies), others),
{
    let a = base_fields(p, c, profile, commits, cflags, files);
    let b = base_fields(q, d, other_profile, other_commits, other_cflags, others);
    lemma_names_differ();
    assert(a[0] == field("profile:"@, seq![profile]));
    assert(b[0] == field("profile:"@, seq![other_profile]));
    lemma_word("profile:"@, profile, other_profile);
    assert(a[1] == field("name:"@, seq![p.name]));
    assert(b[1] == field("name:"@, seq![q.name]));
    lemma_word("name:"@, p.name, q.name);
    assert(a[2] == field("lang:"@, seq![language_name(p.language)]));
    assert(b[2] == field("lang:"@, seq![language_name(q.language)]));
    lemma_word("lang:"@, language_name(p.language), language_name(q.language));
    assert(a[3] == field("ty:"@, seq![kind_name(p.ty)]));
    assert(b[3] == field("ty:"@, seq![kind_name(q.ty)]));
    lemma_word("ty:"@, kind_name(p.ty), kind_name(q.ty));
    assert(a[4] == field("link:"@, seq![link_name(p.link)]));
    assert(b[4] == field("link:"@, seq![link_name(q.link)]));
    lemma_word("link:"@, link_name(p.link), link_name(q.link));
    assert(a[5] == field("cc:"@, item(c.cc)) && b[5] == field("cc:"@, item(d.cc)));
    lemma_field("cc:"@, item(c.cc), item(d.cc));
    lemma_item(c.cc, d.cc);
    assert(a[6] == field("linker:"@, item(c.linker)));
    assert(b[6] == field("linker:"@, item(d.linker)));
    lemma_field("linker:"@, item(c.linker), item(d.linker));
    lemma_item(c.linker, d.linker);
    assert(a[7] == field("std:"@, item(c.standard)));
    assert(b[7] == field("std:"@, item(d.standard)));
    lemma_field("std:"@, item(c.standard), item(d.standard));
    lemma_item(c.standard, d.standard);
    assert(a[8] == field("arch:"@, arch_words(c.arch)));
    assert(b[8] == field("arch:"@, arch_words(d.arch)));
    lemma_field("arch:"@, arch_words(c.arch), arch_words(d.arch));
    lemma_arch_words(c.arch, d.arch);
    assert(a[9] == field("roots:"@, proj_parse::roots(c.src)));
    assert(b[9] == field("roots:"@, proj_parse::roots(d.src)));
    lemma_field("roots:"@, proj_parse::roots(c.src), proj_parse::roots(d.src));
    assert(a[10] == field("tests:"@, excluded(p.tests)));
    assert(b[10] == field("tests:"@, excluded(q.tests)));
    lemma_field("tests:"@, excluded(p.tests), excluded(q.tests));
    let v = proj_parse::flags_or_none(c.includes);
    let w = proj_parse::flags_or_none(d.includes);
    assert(a[11] == field("inc:"@, v) && b[11] == field("inc:"@, w));
    lemma_field("inc:"@, v, w);
    assert(a[12] == field("cflags:"@, flag_words(c.c_flags)));
    assert(b[12] == field("cflags:"@, flag_words(d.c_flags)));
    lemma_field("cflags:"@, flag_words(c.c_flags), flag_words(d.c_flags));
    lemma_flag_words(c.c_flags, d.c_flags);
    assert(a[13] == field("ldflags:"@, flag_words(c.ld_flags)));
    assert(b[13] == field("ldflags:"@, flag_words(d.ld_flags)));
    lemma_field("ldflags:"@, flag_words(c.ld_flags), flag_words(d.ld_flags));
    lemma_flag_words(c.ld_flags, d.ld_flags);
    assert(a[14] == field("out:"@, output_words(p.output)));
    assert(b[14] == field("out:"@, output_words(q.output)));
    lemma_field("out:"@, output_words(p.output), output_words(q.output));
    lemma_output_words(p.output, q.output);
    assert(a[15] == field("pins:"@, order::sorted(commits)));
    assert(b[15] == field("pins:"@, order::sorted(other_commits)));
    lemma_field("pins:"@, order::sorted(commits), order::sorted(other_commits));
    order::law_sorted(commits);
    order::law_sorted(other_commits);
    assert(a[16] == field("pkg:"@, cflags) && b[16] == field("pkg:"@, other_cflags));
    lemma_field("pkg:"@, cflags, other_cflags);
    let v = dependency_items(table(p.dependencies), files);
    let w = dependency_items(table(q.dependencies), others);
    assert(a[17] == field("deps:"@, v) && b[17] == field("deps:"@, w));
    lemma_field("deps:"@, v, w);
    lemma_dependency_items(table(p.dependencies), files, table(q.dependencies), others);
    assert(a[18] == field("artifact:"@, item(p.artifact)));
    assert(b[18] == field("artifact:"@, item(q.artifact)));
    lemma_field("artifact:"@, item(p.artifact), item(q.artifact));
    lemma_item(p.artifact, q.artifact);
    assert(a[19] == field("pc:"@, pc_words(p)) && b[19] == field("pc:"@, pc_words(q)));
    lemma_field("pc:"@, pc_words(p), pc_words(q));
    lemma_pc_words(p, q);
}

/// A fingerprint changes whenever the inputs to a build change: two builds with the
/// same fingerprint agree on the profile, on every setting and flag list, on pins
/// and pkg-config flags, on the dependencies with their configuration and local
/// files, and on the hash of every source and header.
pub proof fn law_fingerprint_shows_inputs(
    p: ProjectV,
    profile: Seq<char>,
    commits: Seq<Seq<char>>,
    cflags: Seq<Seq<char>>,
    scan: ScanV,
    q: ProjectV,
    other_profile: Seq<char>,
    other_commits: Seq<Seq<char>>,
    other_cflags: Seq<Seq<char>>,
    other_scan: ScanV,
)
    requires
        p.compile is Some,
        q.compile is Some,
        fingerprint_of(p, profile, commits, cflags, scan) == fingerprint_of(
            q,
            other_profile,
            other_commits,
            other_cflags,
            other_scan,
        ),
    ensures
        profile == other_profile,
        same_settings(p, p.compile->0, q, q.compile->0),
        commits.to_multiset() == other_commits.to_multiset(),
        cflags == other_cflags,
        same_dependencies(
            table(p.dependencies),
            scan.locals,
            table(q.dependencies),
            other_scan.locals,
        ),
        scan.sources.to_multiset() == other_scan.sources.to_multiset(),
        headers(scan.includes).to_multiset() == headers(other_scan.includes).to_multiset(),
{
    let c = p.compile->0;
    let d = q.compile->0;
    let x = base_fields(p, c, profile, commits, cflags, scan.locals);
    let y = base_fields(
        q,
        d,
        other_profile,
        other_commits,
        other_cflags,
        other_scan.locals,
    );
    let a = fields_of(p, c, profile, commits, cflags, scan);
    let b = fields_of(q, d, other_profile, other_commits, other_cflags, other_scan);
    pack::law_pack_tells_apart(a, b);
    assert(a.take(20) =~= x);
    assert(b.take(20) =~= y);
    law_base_shows_inputs(
        p,
        c,
        profile,
        commits,
        cflags,
        scan.locals,
        q,
        d,
        other_profile,
        other_commits,
        other_cflags,
        other_scan.locals,
    );
    let v = file_lines_of(scan.sources);
    let w = file_lines_of(other_scan.sources);
    assert(a[20] == field("src:"@, v) && b[20] == field("src:"@, w));
    lemma_field("src:"@, v, w);
    lemma_lines_show(scan.sources, other_scan.sources);
    let v = file_lines_of(headers(scan.includes));
    let w = file_lines_of(headers(other_scan.includes));
    assert(a[21] == field("hdr:"@, v) && b[21] == field("hdr:"@, w));
    lemma_field("hdr:"@, v, w);
    lemma_lines_show(headers(scan.includes), headers(other_scan.includes));
}

/// Editing a source so that its hash is another changes the fingerprint.
pub proof fn law_edited_source_shows(
    p: ProjectV,
    profile: Seq<char>,
    commits: Seq<Seq<char>>,
    cflags: Seq<Seq<char>>,
    scan: ScanV,
    i: int,
    hash: u64,
)
    requires
        p.compile is Some,
        0 <= i < scan.sources.len(),
        scan.sources[i].1 != hash,
    ensures
        fingerprint_of(p, profile, commits, cflags, scan) != fingerprint_of(
            p,
            profile,
            commits,
            cflags,
            ScanV { sources: scan.sources.update(i, (scan.sources[i].0, hash)), ..scan },
        ),
{
    broadcast use vstd::seq_lib::group_to_multiset_ensures;

    let f = (scan.sources[i].0, hash);
    let after = ScanV { sources: scan.sources.update(i, f), ..scan };
    if fingerprint_of(p, profile, commits, cflags, scan) == fingerprint_of(
        p,
        profile,
        commits,
        cflags,
        after,
    ) {
        law_fingerprint_shows_inputs(
            p,
            profile,
            commits,
            cflags,
            scan,
            p,
            profile,
            commits,
            cflags,
            after,
        );
        vstd::seq_lib::to_multiset_update(scan.sources, i, f);
        assert(after.sources.to_multiset().count(f) == scan.sources.to_multiset().count(f) + 1);
    }
}

/// A cache after some files were recorded, each with its stat and hash.
pub open spec fn recorded_all(
    cache: Seq<(Seq<char>, FileEntry)>,
    files: Seq<(Seq<char>, FileEntry)>,
) -> Seq<(Seq<char>, FileEntry)>
    decreases files.len(),
{
    if files.len() == 0 {
        cache
    } else {
        names::put(recorded_all(cache, files.drop_last()), files.last().0, files.last().1)
    }
}

/// Files with the hashes they are recorded with.
pub open spec fn entry_hashes(files: Seq<(Seq<char>, FileEntry)>) -> Seq<(Seq<char>, u64)> {
    files.map_values(|f: (Seq<char>, FileEntry)| (f.0, f.1.hash))
}

/// The same files with the hashes that a cache knows them by.
pub open spec fn cached_hashes(
    cache: Seq<(Seq<char>, FileEntry)>,
    files: Seq<(Seq<char>, FileEntry)>,
) -> Seq<(Seq<char>, u64)> {
    files.map_values(
        |f: (Seq<char>, FileEntry)| (f.0, known_hash(cache, f.0, f.1.size, f.1.mtime)->0),
    )
}

proof fn lemma_recorded_all(
    cache: Seq<(Seq<char>, FileEntry)>,
    files: Seq<(Seq<char>, FileEntry)>,
    i: int,
)
    requires
        names::distinct(files),
        0 <= i < files.len(),
    ensures
        names::lookup(recorded_all(cache, files), files[i].0) == Some(files[i].1),
    decreases files.len(),
{
    let front = files.drop_last();
    let last = files.last();
    names::law_put(recorded_all(cache, front), last.0, last.1, files[i].0);
    if i < files.len() - 1 {
        assert(names::distinct(front)) by {
            assert forall|j: int, k: int| 0 <= j < k < front.len() implies (#[trigger] front[j]).0
                != (#[trigger] front[k]).0 by {
                assert(files[j].0 != files[k].0);
            }
        }
        lemma_recorded_all(cache, front, i);
        assert(files[i].0 != files[files.len() - 1].0);
    }
}

/// While no stat changes, no file is read again and the fingerprint stays what it
/// was: every file that was recorded is known with its hash, so that the hashes the
/// cache gives make the same fingerprint.
pub proof fn law_unchanged_files_keep_the_fingerprint(
    p: ProjectV,
    profile: Seq<char>,
    commits: Seq<Seq<char>>,
    cflags: Seq<Seq<char>>,
    scan: ScanV,
    cache: Seq<(Seq<char>, FileEntry)>,
    files: Seq<(Seq<char>, FileEntry)>,
)
    requires
        names::distinct(files),
    ensures
        forall|i: int|
            0 <= i < files.len() ==> known_hash(
                recorded_all(cache, files),
                (#[trigger] files[i]).0,
                files[i].1.size,
                files[i].1.mtime,
            ) == Some(files[i].1.hash),
        fingerprint_of(
            p,
            profile,
            commits,
            cflags,
            ScanV { sources: cached_hashes(recorded_all(cache, files), files), ..scan },
        ) == fingerprint_of(
            p,
            profile,
            commits,
            cflags,
            ScanV { sources: entry_hashes(files), ..scan },
        ),
{
    let after = recorded_all(cache, files);
    assert forall|i: int| 0 <= i < files.len() implies known_hash(
        after,
        (#[trigger] files[i]).0,
        files[i].1.size,
        files[i].1.mtime,
    ) == Some(files[i].1.hash) by {
        lemma_recorded_all(cache, files, i);
    }
    assert(cached_hashes(after, files) =~= entry_hashes(files));
}

// ---------------------------------------------------------------------------
// Reading a fingerprint
// ---------------------------------------------------------------------------

/// Whether `c` is a digit of a hash.
pub open spec fn is_hex(c: char) -> bool {
    ('0' <= c && c <= '9') || ('a' <= c && c <= 'f')
}

/// The path and the hash of a file's line.
pub open spec fn file_item(s: Seq<char>) -> Option<(Seq<char>, Seq<char>)> {
    if s.len() >= 17 && s[s.len() - 17] == ':' && (forall|i: int|
        s.len() - 16 <= i < s.len() ==> is_hex(#[trigger] s[i])) {
        Some((s.take(s.len() - 17), s.skip(s.len() - 16)))
    } else {
        None
    }
}

/// A record of files with those of some lines added; what is no file's line is
/// passed over.
pub open spec fn recorded_files(
    start: Seq<(Seq<char>, Seq<char>)>,
    lines: Seq<Seq<char>>,
) -> Seq<(Seq<char>, Seq<char>)>
    decreases lines.len(),
{
    if lines.len() == 0 {
        start
    } else {
        let front = recorded_files(start, lines.drop_last());
        match file_item(lines.last()) {
            Some((p, h)) => names::put(front, p, h),
            None => front,
        }
    }
}

/// The lines of a field that holds files.
pub open spec fn file_field(s: Seq<char>) -> Option<Seq<Seq<char>>> {
    match text::after_prefix(s, "src:"@) {
        Some(rest) => Some(pack::unpack(rest)),
        None => match text::after_prefix(s, "hdr:"@) {
            Some(rest) => Some(pack::unpack(rest)),
            None => None,
        },
    }
}

/// What a fingerprint says: the fields that hold no files, and the files with their
/// hashes.
pub struct SnapshotV {
    pub base: Seq<Seq<char>>,
    pub files: Seq<(Seq<char>, Seq<char>)>,
}

/// What some fields of a fingerprint say.
pub open spec fn snapshot_of(fields: Seq<Seq<char>>) -> SnapshotV
    decreases fields.len(),
{
    if fields.len() == 0 {
        SnapshotV { base: Seq::empty(), files: Seq::empty() }
    } else {
        let front = snapshot_of(fields.drop_last());
        match file_field(fields.last()) {
            Some(lines) => SnapshotV { files: recorded_files(front.files, lines), ..front },
            None => SnapshotV { base: front.base.push(fields.last()), ..front },
        }
    }
}

/// What a fingerprint says.
pub open spec fn snapshot(s: Seq<char>) -> SnapshotV {
    snapshot_of(pack::unpack(s))
}

/// A fingerprint taken apart: the fields that hold no files, and the hash of each
/// file.
pub struct Snapshot {
    pub base: Vec<String>,
    pub files: NameMap<String>,
}

fn hex_char(c: char) -> (res: bool)
    ensures
        res == is_hex(c),
{
    ('0' <= c && c <= '9') || ('a' <= c && c <= 'f')
}

fn as_file(s: &str) -> (out: Option<(String, String)>)
    ensures
        match out {
            Some((p, h)) => file_item(s@) == Some((p@, h@)),
            None => file_item(s@) is None,
        },
{
    let cs = text::chars_of(s);
    let n: usize = cs.len();
    if n < 17 || cs[n - 17] != ':' {
        return None;
    }
    let mut i: usize = n - 16;
    while i < n
        invariant
            cs@ == s@,
            n == cs@.len(),
            17 <= n,
            n - 16 <= i <= n,
            forall|j: int| n - 16 <= j < i ==> is_hex(#[trigger] s@[j]),
        decreases n - i,
    {
        if !hex_char(cs[i]) {
            return None;
        }
        i += 1;
    }
    proof {
        assert(s@.subrange(0, n - 17) =~= s@.take(n - 17));
        assert(s@.subrange(n - 16, n as int) =~= s@.skip(n - 16));
    }
    Some((text::slice_text(&cs, 0, n - 17), text::slice_text(&cs, n - 16, n)))
}

fn record_files(files: &mut NameMap<String>, lines: &[String])
    ensures
        final(files)@ == recorded_files(old(files)@, text::texts(lines@)),
{
    let ghost start = files@;
    let ghost all = text::texts(lines@);
    let mut i: usize = 0;
    proof {
        assert(all.take(0) =~= Seq::empty());
    }
    while i < lines.len()
        invariant
            i <= lines@.len(),
            all == text::texts(lines@),
            files@ == recorded_files(start, all.take(i as int)),
        decreases lines@.len() - i,
    {
        proof {
            assert(all.take(i + 1).drop_last() =~= all.take(i as int));
            assert(all.take(i + 1).last() == lines@[i as int]@);
        }
        if let Some((p, h)) = as_file(lines[i].as_str()) {
            files.insert(p, h);
        }
        i += 1;
    }
    proof {
        assert(all.take(i as int) =~= all);
    }
}

fn file_lines_in(s: &str) -> (out: Option<Vec<String>>)
    ensures
        text::opt_texts(out) == file_field(s@),
{
    match text::strip_prefix(s, "src:") {
        Some(rest) => Some(pack::unpack_text(rest.as_str())),
        None => match text::strip_prefix(s, "hdr:") {
            Some(rest) => Some(pack::unpack_text(rest.as_str())),
            None => None,
        },
    }
}

/// Take a fingerprint apart.
pub fn split(s: &str) -> (out: Snapshot)
    ensures
        text::texts(out.base@) == snapshot(s@).base,
        out.files@ == snapshot(s@).files,
{
    let fields = pack::unpack_text(s);
    let ghost all = pack::unpack(s@);
    let mut base = text::none();
    let mut files: NameMap<String> = NameMap::new();
    let mut i: usize = 0;
    proof {
        assert(all.take(0) =~= Seq::empty());
    }
    while i < fields.len()
        invariant
            i <= fields@.len(),
            all == text::texts(fields@),
            snapshot_of(all.take(i as int)) == (SnapshotV {
                base: text::texts(base@),
                files: files@,
            }),
        decreases fields@.len() - i,
    {
        let one = fields[i].as_str();
        proof {
            assert(all.take(i + 1).drop_last() =~= all.take(i as int));
            assert(all.take(i + 1).last() == one@);
        }
        match file_lines_in(one) {
            Some(lines) => record_files(&mut files, lines.as_slice()),
            None => text::push_text(&mut base, one),
        }
        i += 1;
    }
    proof {
        assert(all.take(i as int) =~= all);
    }
    Snapshot { base, files }
}

proof fn lemma_hex(n: nat, width: nat)
    ensures
        text::hex(n, width).len() == width,
        forall|i: int| 0 <= i < width ==> is_hex(#[trigger] text::hex(n, width)[i]),
    decreases width,
{
    if width > 0 {
        lemma_hex(n / 16, (width - 1) as nat);
        let d = n % 16;
        let front = text::hex(n / 16, (width - 1) as nat);
        assert(is_hex(text::digit(d)));
        assert forall|i: int| 0 <= i < width implies is_hex(#[trigger] text::hex(n, width)[i]) by {
            if i < width - 1 {
                assert(text::hex(n, width)[i] == front[i]);
            }
        }
    }
}

/// The line of a file is read back as that file.
pub proof fn law_file_line(f: (Seq<char>, u64))
    ensures
        file_item(file_line_of(f)) == Some((f.0, text::hex(f.1 as nat, 16))),
{
    reveal_strlit(":");
    let h = text::hex(f.1 as nat, 16);
    let s = file_line_of(f);
    lemma_hex(f.1 as nat, 16);
    assert(s.len() == f.0.len() + 17);
    assert(s[s.len() - 17] == ':');
    assert forall|i: int| s.len() - 16 <= i < s.len() implies is_hex(#[trigger] s[i]) by {
        assert(s[i] == h[i - (s.len() - 16)]);
    }
    assert(s.take(s.len() - 17) =~= f.0);
    assert(s.skip(s.len() - 16) =~= h);
}

proof fn lemma_no_files(label: Seq<char>, words: Seq<Seq<char>>)
    requires
        label.len() >= 2,
        !(label[0] == 's' && label[1] == 'r'),
        label[0] != 'h',
    ensures
        file_field(field(label, words)) is None,
{
    let s = field(label, words);
    reveal_strlit("src:");
    reveal_strlit("hdr:");
    assert(s[0] == label[0] && s[1] == label[1]);
    if text::begins(s, "src:"@) {
        assert(s.take(4)[0] == 's' && s.take(4)[1] == 'r');
    }
    if text::begins(s, "hdr:"@) {
        assert(s.take(4)[0] == 'h');
    }
}

proof fn lemma_file_field(label: Seq<char>, words: Seq<Seq<char>>)
    requires
        label == "src:"@ || label == "hdr:"@,
    ensures
        file_field(field(label, words)) == Some(words),
{
    let s = field(label, words);
    reveal_strlit("src:");
    reveal_strlit("hdr:");
    assert(s.take(4) =~= label);
    assert(s.skip(4) =~= pack::pack(words));
    pack::law_unpack_undoes_pack(words);
    assert("src:"@[0] == 's' && "hdr:"@[0] == 'h');
}

#[verifier::rlimit(50)]
proof fn lemma_base_holds_no_files(
    p: ProjectV,
    c: CompileV,
    profile: Seq<char>,
    commits: Seq<Seq<char>>,
    cflags: Seq<Seq<char>>,
    locals: Seq<(Seq<char>, Seq<(Seq<char>, u64)>)>,
    i: int,
)
    requires
        0 <= i < 20,
    ensures
        file_field(base_fields(p, c, profile, commits, cflags, locals)[i]) is None,
{
    reveal_strlit("profile:");
    reveal_strlit("name:");
    reveal_strlit("lang:");
    reveal_strlit("ty:");
    reveal_strlit("link:");
    reveal_strlit("cc:");
    reveal_strlit("linker:");
    reveal_strlit("std:");
    reveal_strlit("arch:");
    reveal_strlit("roots:");
    reveal_strlit("tests:");
    reveal_strlit("inc:");
    reveal_strlit("cflags:");
    reveal_strlit("ldflags:");
    reveal_strlit("out:");
    reveal_strlit("pins:");
    reveal_strlit("pkg:");
    reveal_strlit("deps:");
    reveal_strlit("artifact:");
    reveal_strlit("pc:");
    lemma_no_files("profile:"@, seq![profile]);
    lemma_no_files("name:"@, seq![p.name]);
    lemma_no_files("lang:"@, seq![language_name(p.language)]);
    lemma_no_files("ty:"@, seq![kind_name(p.ty)]);
    lemma_no_files("link:"@, seq![link_name(p.link)]);
    lemma_no_files("cc:"@, item(c.cc));
    lemma_no_files("linker:"@, item(c.linker));
    lemma_no_files("std:"@, item(c.standard));
    lemma_no_files("arch:"@, arch_words(c.arch));
    lemma_no_files("roots:"@, proj_parse::roots(c.src));
    lemma_no_files("tests:"@, excluded(p.tests));
    lemma_no_files("inc:"@, proj_parse::flags_or_none(c.includes));
    lemma_no_files("cflags:"@, flag_words(c.c_flags));
    lemma_no_files("ldflags:"@, flag_words(c.ld_flags));
    lemma_no_files("out:"@, output_words(p.output));
    lemma_no_files("pins:"@, order::sorted(commits));
    lemma_no_files("pkg:"@, cflags);
    lemma_no_files("deps:"@, dependency_items(table(p.dependencies), locals));
    lemma_no_files("artifact:"@, item(p.artifact));
    lemma_no_files("pc:"@, pc_words(p));
}

proof fn lemma_snapshot_base(fields: Seq<Seq<char>>)
    requires
        forall|i: int| 0 <= i < fields.len() ==> file_field(#[trigger] fields[i]) is None,
    ensures
        snapshot_of(fields) == (SnapshotV { base: fields, files: Seq::empty() }),
    decreases fields.len(),
{
    if fields.len() > 0 {
        let front = fields.drop_last();
        assert forall|i: int| 0 <= i < front.len() implies file_field(
            #[trigger] front[i],
        ) is None by {
            assert(front[i] == fields[i]);
        }
        lemma_snapshot_base(front);
        assert(file_field(fields[fields.len() - 1]) is None);
        assert(front.push(fields.last()) =~= fields);
    } else {
        assert(fields =~= Seq::empty());
    }
}

/// Taking a fingerprint apart gives back what it was made of: everything but files
/// as the base, and every file with its hash.
pub proof fn law_split_reads_a_fingerprint(
    p: ProjectV,
    profile: Seq<char>,
    commits: Seq<Seq<char>>,
    cflags: Seq<Seq<char>>,
    scan: ScanV,
)
    requires
        p.compile is Some,
    ensures
        ({
            let s = fingerprint_of(p, profile, commits, cflags, scan)->Ok_0;
            &&& snapshot(s).base == base_fields(
                p,
                p.compile->0,
                profile,
                commits,
                cflags,
                scan.locals,
            )
            &&& snapshot(s).files == recorded_files(
                recorded_files(Seq::empty(), file_lines_of(scan.sources)),
                file_lines_of(headers(scan.includes)),
            )
        }),
{
    let c = p.compile->0;
    let head = base_fields(p, c, profile, commits, cflags, scan.locals);
    let all = fields_of(p, c, profile, commits, cflags, scan);
    pack::law_unpack_undoes_pack(all);
    assert forall|i: int| 0 <= i < head.len() implies file_field(#[trigger] head[i]) is None by {
        lemma_base_holds_no_files(p, c, profile, commits, cflags, scan.locals, i);
    }
    lemma_snapshot_base(head);
    let sources = field("src:"@, file_lines_of(scan.sources));
    let found = field("hdr:"@, file_lines_of(headers(scan.includes)));
    lemma_file_field("src:"@, file_lines_of(scan.sources));
    lemma_file_field("hdr:"@, file_lines_of(headers(scan.includes)));
    let some = head.push(sources);
    assert(some.drop_last() =~= head);
    assert(snapshot_of(some) == (SnapshotV {
        base: head,
        files: recorded_files(Seq::empty(), file_lines_of(scan.sources)),
    }));
    assert(all =~= some.push(found));
    assert(all.drop_last() =~= some);
    assert(all.last() == found);
}

/// All files of a build: its sources and its headers.
pub open spec fn found_files(scan: ScanV) -> Seq<(Seq<char>, u64)> {
    scan.sources + headers(scan.includes)
}

/// Whether a file that was found more than once has the same hash each time.
pub open spec fn one_hash_each(files: Seq<(Seq<char>, u64)>) -> bool {
    forall|i: int, j: int|
        0 <= i < files.len() && 0 <= j < files.len() && (#[trigger] files[i]).0 == (
        #[trigger] files[j]).0 ==> files[i].1 == files[j].1
}

/// Whether a line is that of a file at a path.
spec fn is_line_of(line: Seq<char>, path: Seq<char>) -> bool {
    file_item(line) matches Some(f) && f.0 == path
}

proof fn lemma_recorded_lookup(
    start: Seq<(Seq<char>, Seq<char>)>,
    lines: Seq<Seq<char>>,
    path: Seq<char>,
    hash: Seq<char>,
)
    requires
        forall|i: int|
            0 <= i < lines.len() ==> (file_item(#[trigger] lines[i]) matches Some(f) && (f.0 == path
                ==> f.1 == hash)),
    ensures
        (exists|i: int| 0 <= i < lines.len() && is_line_of(#[trigger] lines[i], path))
            ==> names::lookup(recorded_files(start, lines), path) == Some(hash),
        !(exists|i: int| 0 <= i < lines.len() && is_line_of(#[trigger] lines[i], path))
            ==> names::lookup(recorded_files(start, lines), path) == names::lookup(start, path),
    decreases lines.len(),
{
    if lines.len() > 0 {
        let front = lines.drop_last();
        let n = lines.len() - 1;
        assert forall|i: int| 0 <= i < front.len() implies (file_item(
            #[trigger] front[i],
        ) matches Some(f) && (f.0 == path ==> f.1 == hash)) by {
            assert(front[i] == lines[i]);
        }
        lemma_recorded_lookup(start, front, path, hash);
        assert(file_item(lines[n]) is Some);
        let f = file_item(lines[n])->0;
        names::law_put(recorded_files(start, front), f.0, f.1, path);
        if f.0 != path {
            if exists|i: int| 0 <= i < lines.len() && is_line_of(#[trigger] lines[i], path) {
                let i = choose|i: int|
                    0 <= i < lines.len() && is_line_of(#[trigger] lines[i], path);
                assert(front[i] == lines[i]);
            }
            if exists|i: int| 0 <= i < front.len() && is_line_of(#[trigger] front[i], path) {
                let i = choose|i: int|
                    0 <= i < front.len() && is_line_of(#[trigger] front[i], path);
                assert(front[i] == lines[i]);
            }
        }
    }
}

proof fn lemma_lines_hold(files: Seq<(Seq<char>, u64)>, path: Seq<char>, hash: u64)
    requires
        forall|i: int| 0 <= i < files.len() && (#[trigger] files[i]).0 == path ==> files[i].1 == hash,
    ensures
        forall|k: int|
            0 <= k < file_lines_of(files).len() ==> (file_item(
                #[trigger] file_lines_of(files)[k],
            ) matches Some(f) && (f.0 == path ==> f.1 == text::hex(hash as nat, 16))),
        (exists|k: int|
            0 <= k < file_lines_of(files).len() && is_line_of(#[trigger] file_lines_of(files)[k], path)) <==> (exists|i: int|
            0 <= i < files.len() && (#[trigger] files[i]).0 == path),
{
    let raw = files.map_values(|f: (Seq<char>, u64)| file_line_of(f));
    let lines = file_lines_of(files);
    order::law_sorted(raw);
    assert forall|k: int| 0 <= k < lines.len() implies (file_item(
        #[trigger] lines[k],
    ) matches Some(f) && (f.0 == path ==> f.1 == text::hex(hash as nat, 16))) && exists|i: int|
        0 <= i < files.len() && is_line_of(lines[k], (#[trigger] files[i]).0) by {
        assert(lines.contains(lines[k]));
        assert(raw.contains(lines[k]));
        let i = choose|i: int| 0 <= i < raw.len() && raw[i] == lines[k];
        law_file_line(files[i]);
        assert(is_line_of(lines[k], files[i].0));
    }
    if exists|i: int| 0 <= i < files.len() && (#[trigger] files[i]).0 == path {
        let i = choose|i: int| 0 <= i < files.len() && (#[trigger] files[i]).0 == path;
        law_file_line(files[i]);
        assert(raw[i] == file_line_of(files[i]));
        assert(raw.contains(raw[i]));
        assert(lines.contains(raw[i]));
        let k = choose|k: int| 0 <= k < lines.len() && lines[k] == raw[i];
        assert(is_line_of(lines[k], path));
    }
}

/// Reading a fingerprint gives every file with the hash it had, and no other file.
pub proof fn law_files_are_read_back(
    p: ProjectV,
    profile: Seq<char>,
    commits: Seq<Seq<char>>,
    cflags: Seq<Seq<char>>,
    scan: ScanV,
    path: Seq<char>,
)
    requires
        p.compile is Some,
        one_hash_each(found_files(scan)),
    ensures
        ({
            let files = snapshot(fingerprint_of(p, profile, commits, cflags, scan)->Ok_0).files;
            &&& forall|i: int|
                0 <= i < found_files(scan).len() && (#[trigger] found_files(scan)[i]).0 == path
                    ==> names::lookup(files, path) == Some(
                    text::hex(found_files(scan)[i].1 as nat, 16),
                )
            &&& (forall|i: int|
                0 <= i < found_files(scan).len() ==> (#[trigger] found_files(scan)[i]).0 != path)
                ==> names::lookup(files, path) is None
        }),
{
    let all = found_files(scan);
    let a = scan.sources;
    let b = headers(scan.includes);
    let n = a.len() as int;
    let hash = if exists|i: int| 0 <= i < all.len() && (#[trigger] all[i]).0 == path {
        let i = choose|i: int| 0 <= i < all.len() && (#[trigger] all[i]).0 == path;
        all[i].1
    } else {
        0u64
    };
    assert forall|i: int| 0 <= i < a.len() && (#[trigger] a[i]).0 == path implies a[i].1 == hash by {
        assert(all[i] == a[i]);
    }
    assert forall|i: int| 0 <= i < b.len() && (#[trigger] b[i]).0 == path implies b[i].1 == hash by {
        assert(all[n + i] == b[i]);
    }
    law_split_reads_a_fingerprint(p, profile, commits, cflags, scan);
    lemma_lines_hold(a, path, hash);
    lemma_lines_hold(b, path, hash);
    let digits = text::hex(hash as nat, 16);
    let none = Seq::<(Seq<char>, Seq<char>)>::empty();
    lemma_recorded_lookup(none, file_lines_of(a), path, digits);
    let first = recorded_files(none, file_lines_of(a));
    lemma_recorded_lookup(first, file_lines_of(b), path, digits);
    names::lemma_position(none, path);
    assert forall|i: int| 0 <= i < all.len() && (#[trigger] all[i]).0 == path implies names::lookup(
        recorded_files(first, file_lines_of(b)),
        path,
    ) == Some(text::hex(all[i].1 as nat, 16)) by {
        if i < n {
            assert(a[i] == all[i]);
        } else {
            assert(b[i - n] == all[i]);
        }
    }
    if forall|i: int| 0 <= i < all.len() ==> (#[trigger] all[i]).0 != path {
        if exists|i: int| 0 <= i < a.len() && (#[trigger] a[i]).0 == path {
            let i = choose|i: int| 0 <= i < a.len() && (#[trigger] a[i]).0 == path;
            assert(all[i] == a[i]);
        }
        if exists|i: int| 0 <= i < b.len() && (#[trigger] b[i]).0 == path {
            let i = choose|i: int| 0 <= i < b.len() && (#[trigger] b[i]).0 == path;
            assert(all[n + i] == b[i]);
        }
    }
}

/// The headers of a project are the files of all its include directories: every file
/// of every one of them is there, in order, and nothing else is.
pub proof fn law_headers_of_every_directory(v: Seq<Seq<(Seq<char>, u64)>>, i: int, j: int)
    ensures
        0 <= i < v.len() && 0 <= j < v[i].len() ==> headers(v).contains(v[i][j]),
        forall|f: (Seq<char>, u64)| #[trigger]
            headers(v).contains(f) ==> exists|k: int|
                0 <= k < v.len() && (#[trigger] v[k]).contains(f),
        headers(Seq::empty()).len() == 0,
        v.len() > 0 ==> headers(v) == headers(v.take(v.len() - 1)) + v[v.len() - 1],
    decreases v.len(),
{
    if v.len() > 0 {
        let front = v.drop_last();
        let all = headers(v);
        let h = headers(front);
        assert(v.take(v.len() - 1) =~= front);
        law_headers_of_every_directory(front, i, j);
        if 0 <= i < v.len() && 0 <= j < v[i].len() {
            if i < front.len() {
                assert(front[i] == v[i]);
                let k = choose|k: int| 0 <= k < h.len() && h[k] == v[i][j];
                assert(all[k] == v[i][j]);
            } else {
                assert(all[h.len() + j] == v[i][j]);
            }
        }
        assert forall|f: (Seq<char>, u64)| #[trigger] all.contains(f) implies exists|k: int|
            0 <= k < v.len() && (#[trigger] v[k]).contains(f) by {
            let k = choose|k: int| 0 <= k < all.len() && all[k] == f;
            if k < h.len() {
                assert(h[k] == f);
                assert(h.contains(f));
                let d = choose|d: int| 0 <= d < front.len() && (#[trigger] front[d]).contains(f);
                assert(v[d] == front[d]);
            } else {
                assert(v.last()[k - h.len()] == f);
                assert(v[v.len() - 1].contains(f));
            }
        }
    }
}

/// A line is a file's exactly where it ends with a colon and sixteen lower-case
/// hexadecimal digits; the path is what stands before them, and the hash is the digits.
pub proof fn law_lines_of_files(path: Seq<char>, hash: Seq<char>, s: Seq<char>)
    ensures
        hash.len() == 16 && (forall|i: int| 0 <= i < hash.len() ==> is_hex(#[trigger] hash[i]))
            ==> file_item(path + seq![':'] + hash) == Some((path, hash)),
        file_item(s) matches Some(f) ==> s == f.0 + seq![':'] + f.1 && f.1.len() == 16
            && forall|i: int| 0 <= i < 16 ==> is_hex(#[trigger] f.1[i]),
{
    if hash.len() == 16 && (forall|i: int| 0 <= i < hash.len() ==> is_hex(#[trigger] hash[i])) {
        let line = path + seq![':'] + hash;
        assert(line.len() == path.len() + 17);
        assert forall|i: int| line.len() - 16 <= i < line.len() implies is_hex(#[trigger] line[i]) by {
            assert(line[i] == hash[i - path.len() - 1]);
        }
        assert(line.take(line.len() - 17) =~= path);
        assert(line.skip(line.len() - 16) =~= hash);
    }
    if let Some(f) = file_item(s) {
        assert(s =~= f.0 + seq![':'] + f.1);
        assert forall|i: int| 0 <= i < 16 implies is_hex(#[trigger] f.1[i]) by {
            assert(f.1[i] == s[s.len() - 16 + i]);
            assert(is_hex(s[s.len() - 16 + i]));
        }
    }
}

/// A project has a fingerprint exactly where it has compile settings.
pub proof fn law_when_there_is_a_fingerprint(
    p: ProjectV,
    profile: Seq<char>,
    commits: Seq<Seq<char>>,
    cflags: Seq<Seq<char>>,
    scan: ScanV,
)
    ensures
        fingerprint_of(p, profile, commits, cflags, scan) is Ok <==> p.compile is Some,
        p.compile is None ==> fingerprint_of(p, profile, commits, cflags, scan) == Err::<
            Seq<char>,
            Seq<char>,
        >("no compile section"@),
{
}

} // verus!
