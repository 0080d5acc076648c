//! File system paths, as they are written, and the components they are made of.
//!
//! Two paths that differ only in repeated slashes, in slashes at their end or in `.` components
//! have the same components and are the same path. How a path is written still counts where it is
//! shown, and where it is handed to the system: a slash at the end of a path says that it names a
//! directory.

use vstd::prelude::*;
use vstd::slice::slice_subrange;
use vstd::utf8::*;

verus! {

/// A component of a path.
pub enum PartModel {
    /// The root directory.
    Root,
    /// The current directory, at the start of a relative path.
    Current,
    /// The parent directory.
    Parent,
    /// A name.
    Name(Seq<u8>),
}

/// The byte that separates components.
pub open spec fn slash() -> u8 {
    0x2f
}

/// The byte `.`.
pub open spec fn dot() -> u8 {
    0x2e
}

/// Position of the first slash at or after `from`, or the length of `path`.
pub open spec fn next_slash(path: Seq<u8>, from: int) -> int
    decreases path.len() - from,
{
    if from >= path.len() {
        path.len() as int
    } else if path[from] == slash() {
        from
    } else {
        next_slash(path, from + 1)
    }
}

/// What a piece between slashes adds to a path.
pub open spec fn piece(p: Seq<u8>) -> Seq<PartModel> {
    if p.len() == 0 || p == seq![dot()] {
        Seq::empty()
    } else if p == seq![dot(), dot()] {
        seq![PartModel::Parent]
    } else {
        seq![PartModel::Name(p)]
    }
}

pub proof fn lemma_next_slash(path: Seq<u8>, from: int)
    requires
        0 <= from <= path.len(),
    ensures
        from <= next_slash(path, from) <= path.len(),
        forall|i: int| from <= i < next_slash(path, from) ==> path[i] != slash(),
        next_slash(path, from) < path.len() ==> path[next_slash(path, from)] == slash(),
    decreases path.len() - from,
{
    if from < path.len() && path[from] != slash() {
        lemma_next_slash(path, from + 1);
    }
}

/// The parents and names of `path` from position `from` on, where a piece begins.
pub open spec fn parts_from(path: Seq<u8>, from: int) -> Seq<PartModel>
    decreases path.len() + 1 - from,
{
    if from < 0 || from >= path.len() {
        Seq::empty()
    } else {
        let end = next_slash(path, from);
        proof {
            lemma_next_slash(path, from);
        }
        piece(path.subrange(from, end)) + parts_from(path, end + 1)
    }
}

/// Where a path begins: at the root, at the current directory if it begins with `.`, or nowhere in
/// particular.
pub open spec fn lead(path: Seq<u8>) -> Seq<PartModel> {
    if path.len() > 0 && path[0] == slash() {
        seq![PartModel::Root]
    } else if path.len() > 0 && path.subrange(0, next_slash(path, 0)) == seq![dot()] {
        seq![PartModel::Current]
    } else {
        Seq::empty()
    }
}

/// The components of a path.
pub open spec fn parts_of(path: Seq<u8>) -> Seq<PartModel> {
    lead(path) + parts_from(path, 0)
}

/// A component of a path.
#[derive(Debug, Clone, PartialEq, Eq)]
pub enum PathPart {
    /// The root directory.
    Root,
    /// The current directory, at the start of a relative path.
    Current,
    /// The parent directory.
    Parent,
    /// A name.
    Name(Vec<u8>),
}

impl View for PathPart {
    type V = PartModel;

    open spec fn view(&self) -> PartModel {
        match self {
            PathPart::Root => PartModel::Root,
            PathPart::Current => PartModel::Current,
            PathPart::Parent => PartModel::Parent,
            PathPart::Name(name) => PartModel::Name(name@),
        }
    }
}

/// A path.
#[derive(Debug, Clone)]
pub struct FsPath {
    /// The path as it is written.
    pub bytes: Vec<u8>,
}

impl View for FsPath {
    type V = Seq<u8>;

    open spec fn view(&self) -> Seq<u8> {
        self.bytes@
    }
}

impl PartialEq for FsPath {
    /// Whether two paths have the same components.
    fn eq(&self, other: &FsPath) -> (same: bool) {
        self.is_same(other)
    }
}

impl vstd::std_specs::cmp::PartialEqSpecImpl for FsPath {
    open spec fn obeys_eq_spec() -> bool {
        true
    }

    open spec fn eq_spec(&self, other: &FsPath) -> bool {
        parts_of(self@) == parts_of(other@)
    }
}

impl Eq for FsPath {

}

/// The models of a list of components.
pub open spec fn part_models(parts: Seq<PathPart>) -> Seq<PartModel> {
    parts.map_values(|p: PathPart| p@)
}

/// `base` with `path` put after it, and a slash between the two where one is needed. An absolute
/// path takes the place of `base`.
pub open spec fn joined(base: Seq<u8>, path: Seq<u8>) -> Seq<u8> {
    if path.len() > 0 && path[0] == slash() {
        path
    } else if base.len() > 0 && base.last() != slash() {
        base + seq![slash()] + path
    } else {
        base + path
    }
}

/// `path` without what follows its last component: slashes, and `.` components.
pub open spec fn trimmed(path: Seq<u8>) -> Seq<u8>
    decreases path.len(),
{
    let n = path.len();
    if n >= 2 && (path[n - 1] == slash() || (path[n - 1] == dot() && path[n - 2] == slash())) {
        trimmed(path.drop_last())
    } else {
        path
    }
}

/// Position after the last slash of `path` before position `to`; zero when there is none.
pub open spec fn after_slash(path: Seq<u8>, to: int) -> int
    decreases to,
{
    if to <= 0 {
        0
    } else if path[to - 1] == slash() {
        to
    } else {
        after_slash(path, to - 1)
    }
}

/// `path` without its last component; a root and an empty path have no parent.
pub open spec fn parent_of(path: Seq<u8>) -> Option<Seq<u8>> {
    let parts = parts_of(path);
    let t = trimmed(path);
    if parts.len() == 0 || parts.last() is Root {
        None
    } else {
        Some(trimmed(t.take(after_slash(t, t.len() as int))))
    }
}

/// The name at the end of `path`.
pub open spec fn name_of(path: Seq<u8>) -> Option<Seq<u8>> {
    let parts = parts_of(path);
    if parts.len() > 0 && parts.last() is Name {
        Some(parts.last()->Name_0)
    } else {
        None
    }
}

/// Whether a path stays under the directory it is relative to: it names no root and no parent.
pub open spec fn stays_inside(path: Seq<PartModel>) -> bool {
    forall|i: int| 0 <= i < path.len() ==> (#[trigger] path[i] is Name || path[i] is Current)
}

/// Whether the path that a text names stays under the directory it is relative to.
pub open spec fn is_inside(link: Seq<char>) -> bool {
    stays_inside(parts_of(encode_utf8(link)))
}

/// Position of the last `.` of `name` before position `to`; -1 when there is none.
pub open spec fn last_dot(name: Seq<u8>, to: int) -> int
    decreases to,
{
    if to <= 0 {
        -1
    } else if name[to - 1] == dot() {
        to - 1
    } else {
        last_dot(name, to - 1)
    }
}

/// A file name without its extension: what stands before the last `.`, if something does.
pub open spec fn stem(name: Seq<u8>) -> Seq<u8> {
    let at = last_dot(name, name.len() as int);
    if at <= 0 {
        name
    } else {
        name.take(at)
    }
}

/// The path with `name` in the place of the file name of `path`.
pub open spec fn sibling(path: Seq<u8>, name: Seq<u8>) -> Seq<u8> {
    if name_of(path) is Some {
        joined(parent_of(path)->0, name)
    } else {
        joined(path, name)
    }
}

fn find_slash(path: &[u8], from: usize) -> (at: usize)
    requires
        from <= path@.len(),
    ensures
        at == next_slash(path@, from as int),
        from <= at <= path@.len(),
{
    let mut at: usize = from;
    while at < path.len() && path[at] != 0x2f
        invariant
            from <= at <= path@.len(),
            next_slash(path@, at as int) == next_slash(path@, from as int),
        decreases path@.len() - at,
    {
        at += 1;
    }
    at
}

/// Copies bytes.
pub fn copy_bytes(bytes: &[u8]) -> (copy: Vec<u8>)
    ensures
        copy@ == bytes@,
{
    let mut copy: Vec<u8> = Vec::new();
    for i in 0..bytes.len()
        invariant
            copy@ == bytes@.take(i as int),
    {
        copy.push(bytes[i]);
    }
    copy
}

/// Whether two byte strings are the same.
pub fn same_bytes(a: &[u8], b: &[u8]) -> (same: bool)
    ensures
        same == (a@ == b@),
{
    if a.len() != b.len() {
        return false;
    }
    for i in 0..a.len()
        invariant
            a@.len() == b@.len(),
            forall|j: int| 0 <= j < i ==> a@[j] == b@[j],
    {
        if a[i] != b[i] {
            return false;
        }
    }
    assert(a@ =~= b@);
    true
}

fn same_part(a: &PathPart, b: &PathPart) -> (same: bool)
    ensures
        same == (a@ == b@),
{
    match (a, b) {
        (PathPart::Root, PathPart::Root) => true,
        (PathPart::Current, PathPart::Current) => true,
        (PathPart::Parent, PathPart::Parent) => true,
        (PathPart::Name(x), PathPart::Name(y)) => same_bytes(x.as_slice(), y.as_slice()),
        _ => false,
    }
}

/// Whether a piece is `.`.
fn is_dot(p: &[u8]) -> (single: bool)
    ensures
        single == (p@ == seq![dot()]),
{
    let single = p.len() == 1 && p[0] == 0x2e;
    assert(single ==> p@ =~= seq![dot()]);
    assert(!single ==> p@ != seq![dot()]) by {
        if p@ == seq![dot()] {
            assert(p@.len() == 1 && p@[0] == dot());
        }
    }
    single
}

/// Whether a piece is `..`.
fn is_dot_dot(p: &[u8]) -> (double: bool)
    ensures
        double == (p@ == seq![dot(), dot()]),
{
    let double = p.len() == 2 && p[0] == 0x2e && p[1] == 0x2e;
    assert(double ==> p@ =~= seq![dot(), dot()]);
    assert(!double ==> p@ != seq![dot(), dot()]) by {
        if p@ == seq![dot(), dot()] {
            assert(p@.len() == 2 && p@[0] == dot() && p@[1] == dot());
        }
    }
    double
}

/// `path` without what follows its last component.
fn without_end(path: &[u8]) -> (rest: &[u8])
    ensures
        rest@ == trimmed(path@),
{
    let mut n: usize = path.len();
    assert(path@.take(n as int) =~= path@);
    while n >= 2 && (path[n - 1] == 0x2f || (path[n - 1] == 0x2e && path[n - 2] == 0x2f))
        invariant
            n <= path@.len(),
            trimmed(path@.take(n as int)) == trimmed(path@),
        decreases n,
    {
        assert(path@.take(n as int).drop_last() =~= path@.take(n - 1));
        n -= 1;
    }
    let rest = slice_subrange(path, 0, n);
    assert(rest@ =~= path@.take(n as int));
    rest
}

impl FsPath {
    /// The path that is written as `path`.
    pub fn parse(path: &[u8]) -> (parsed: FsPath)
        ensures
            parsed@ == path@,
    {
        FsPath { bytes: copy_bytes(path) }
    }

    /// The current directory.
    pub fn current() -> (here: FsPath)
        ensures
            here@ == seq![dot()],
    {
        let mut bytes: Vec<u8> = Vec::new();
        bytes.push(0x2e);
        assert(bytes@ =~= seq![dot()]);
        FsPath { bytes }
    }

    /// The path that a text names.
    pub fn from_text(path: &str) -> (parsed: FsPath)
        ensures
            parsed@ == encode_utf8(path@),
    {
        FsPath::parse(path.as_bytes())
    }

    /// The same path once more.
    pub fn duplicate(&self) -> (copy: FsPath)
        ensures
            copy@ == self@,
    {
        FsPath { bytes: copy_bytes(self.bytes.as_slice()) }
    }

    /// The components of this path.
    pub fn components(&self) -> (parts: Vec<PathPart>)
        ensures
            part_models(parts@) == parts_of(self@),
    {
        let path = self.bytes.as_slice();
        let mut parts: Vec<PathPart> = Vec::new();
        if path.len() > 0 {
            if path[0] == 0x2f {
                parts.push(PathPart::Root);
            } else if is_dot(slice_subrange(path, 0, find_slash(path, 0))) {
                parts.push(PathPart::Current);
            }
        }
        assert(part_models(parts@) =~= lead(path@));
        let mut from: usize = 0;
        while from < path.len()
            invariant
                path@ == self@,
                from <= path@.len(),
                part_models(parts@) + parts_from(path@, from as int) =~= parts_of(self@),
            decreases path@.len() - from,
        {
            let end = find_slash(path, from);
            let p = slice_subrange(path, from, end);
            let ghost before = parts@;
            if p.len() == 0 || is_dot(p) {
            } else if is_dot_dot(p) {
                parts.push(PathPart::Parent);
            } else {
                parts.push(PathPart::Name(copy_bytes(p)));
            }
            assert(part_models(parts@) =~= part_models(before) + piece(p@));
            if end == path.len() {
                assert(parts_from(path@, end + 1) =~= Seq::empty());
                assert(parts_from(path@, end as int) =~= Seq::empty());
                from = end;
            } else {
                from = end + 1;
            }
        }
        assert(parts_from(path@, from as int) =~= Seq::empty());
        assert(part_models(parts@) =~= parts_of(self@));
        parts
    }

    /// This path with `path` put after it. An absolute path takes its place.
    pub fn join_bytes(&self, path: &[u8]) -> (whole: FsPath)
        ensures
            whole@ == joined(self@, path@),
    {
        if path.len() > 0 && path[0] == 0x2f {
            return FsPath::parse(path);
        }
        let mut bytes = copy_bytes(self.bytes.as_slice());
        let n = bytes.len();
        if n > 0 && bytes[n - 1] != 0x2f {
            bytes.push(0x2f);
        }
        let mut added = copy_bytes(path);
        bytes.append(&mut added);
        assert(bytes@ =~= joined(self@, path@));
        FsPath { bytes }
    }

    /// This path with the path that a text names put after it. An absolute path takes its place.
    pub fn join(&self, path: &str) -> (whole: FsPath)
        ensures
            whole@ == joined(self@, encode_utf8(path@)),
    {
        self.join_bytes(path.as_bytes())
    }

    /// The name at the end of this path.
    pub fn file_name(&self) -> (name: Option<Vec<u8>>)
        ensures
            name is Some <==> name_of(self@) is Some,
            name matches Some(n) ==> Some(n@) == name_of(self@),
    {
        let parts = self.components();
        let n = parts.len();
        if n == 0 {
            assert(parts_of(self@).len() == 0);
            return None;
        }
        assert(parts_of(self@).last() == parts@[n - 1]@);
        match &parts[n - 1] {
            PathPart::Name(name) => Some(copy_bytes(name.as_slice())),
            _ => None,
        }
    }

    /// The name at the end of this path, without its extension.
    pub fn file_stem(&self) -> (name: Option<Vec<u8>>)
        ensures
            name is Some <==> name_of(self@) is Some,
            name matches Some(n) ==> n@ == stem(name_of(self@)->0),
    {
        let name = match self.file_name() {
            Some(name) => name,
            None => {
                return None;
            },
        };
        let mut at: usize = name.len();
        while at > 0 && name[at - 1] != 0x2e
            invariant
                at <= name@.len(),
                last_dot(name@, at as int) == last_dot(name@, name@.len() as int),
            decreases at,
        {
            at -= 1;
        }
        if at <= 1 {
            assert(last_dot(name@, at as int) <= 0);
            return Some(name);
        }
        let head = copy_bytes(slice_subrange(name.as_slice(), 0, at - 1));
        assert(head@ =~= name@.take(at - 1));
        Some(head)
    }

    /// This path with `name` in the place of its file name.
    pub fn with_file_name(&self, name: &[u8]) -> (path: FsPath)
        ensures
            path@ == sibling(self@, name@),
    {
        if self.file_name().is_some() {
            match self.parent() {
                Some(parent) => {
                    return parent.join_bytes(name);
                },
                None => {},
            }
        }
        self.join_bytes(name)
    }

    /// This path without its last component; a root and an empty path have no parent.
    pub fn parent(&self) -> (parent: Option<FsPath>)
        ensures
            parent is Some <==> parent_of(self@) is Some,
            parent matches Some(p) ==> Some(p@) == parent_of(self@),
    {
        let parts = self.components();
        let n = parts.len();
        if n == 0 {
            assert(parts_of(self@).len() == 0);
            return None;
        }
        assert(parts_of(self@).last() == parts@[n - 1]@);
        if matches!(parts[n - 1], PathPart::Root) {
            return None;
        }
        let path = without_end(self.bytes.as_slice());
        let mut to: usize = path.len();
        while to > 0 && path[to - 1] != 0x2f
            invariant
                to <= path@.len(),
                after_slash(path@, to as int) == after_slash(path@, path@.len() as int),
            decreases to,
        {
            to -= 1;
        }
        let head = slice_subrange(path, 0, to);
        assert(head@ =~= path@.take(to as int));
        Some(FsPath::parse(without_end(head)))
    }

    /// Whether this path begins with the components of `base`.
    pub fn starts_with(&self, base: &FsPath) -> (inside: bool)
        ensures
            inside == parts_of(base@).is_prefix_of(parts_of(self@)),
    {
        let all = self.components();
        let head = base.components();
        let ghost parts = parts_of(self@);
        let ghost start = parts_of(base@);
        if head.len() > all.len() {
            return false;
        }
        for i in 0..head.len()
            invariant
                parts == part_models(all@),
                parts == parts_of(self@),
                start == part_models(head@),
                start == parts_of(base@),
                start.len() <= parts.len(),
                forall|j: int| 0 <= j < i ==> start[j] == parts[j],
        {
            assert(start[i as int] == head@[i as int]@);
            assert(parts[i as int] == all@[i as int]@);
            if !same_part(&head[i], &all[i]) {
                assert(parts.subrange(0, start.len() as int)[i as int] == parts[i as int]);
                return false;
            }
        }
        assert(parts.subrange(0, start.len() as int) =~= start);
        true
    }

    /// Whether this is the same path as `other`: whether it has the same components.
    pub fn is_same(&self, other: &FsPath) -> (same: bool)
        ensures
            same == (parts_of(self@) == parts_of(other@)),
    {
        let ghost a = parts_of(self@);
        let ghost b = parts_of(other@);
        let same = self.starts_with(other) && other.starts_with(self);
        proof {
            if same {
                assert(a.subrange(0, b.len() as int) =~= a);
            }
            assert(a.subrange(0, a.len() as int) =~= a);
        }
        same
    }

    /// This path, as it is written.
    pub fn to_bytes(&self) -> (bytes: Vec<u8>)
        ensures
            bytes@ == self@,
    {
        copy_bytes(self.bytes.as_slice())
    }
}

/// Whether the path that `link` names stays under the directory it is relative to.
pub fn is_inside_dir(link: &str) -> (inside: bool)
    ensures
        inside == is_inside(link@),
{
    let parts = FsPath::from_text(link).components();
    let ghost models = parts_of(encode_utf8(link@));
    for i in 0..parts.len()
        invariant
            models == part_models(parts@),
            models == parts_of(encode_utf8(link@)),
            forall|j: int| 0 <= j < i ==> (#[trigger] models[j] is Name || models[j] is Current),
    {
        assert(models[i as int] == parts@[i as int]@);
        match &parts[i] {
            PathPart::Name(_) => {},
            PathPart::Current => {},
            _ => {
                return false;
            },
        }
    }
    true
}

/// The first slash at or after `from` is at `to`.
proof fn lemma_next_slash_is(path: Seq<u8>, from: int, to: int)
    requires
        0 <= from <= to <= path.len(),
        forall|i: int| from <= i < to ==> path[i] != slash(),
        to < path.len() ==> path[to] == slash(),
    ensures
        next_slash(path, from) == to,
    decreases to - from,
{
    if from < to {
        assert(path[from] != slash());
        lemma_next_slash_is(path, from + 1, to);
    }
}

/// The components of the last part of a path do not depend on what stands before it.
proof fn lemma_parts_shifted(a: Seq<u8>, b: Seq<u8>, from: int)
    requires
        0 <= from,
    ensures
        parts_from(a + b, a.len() + from) == parts_from(b, from),
    decreases b.len() + 1 - from,
{
    let all = a + b;
    if from < b.len() {
        let end = next_slash(b, from);
        lemma_next_slash(b, from);
        assert forall|i: int| a.len() + from <= i < a.len() + end implies all[i] != slash() by {
            assert(all[i] == b[i - a.len()]);
        }
        lemma_next_slash_is(all, a.len() + from, a.len() + end);
        assert(all.subrange(a.len() + from, a.len() + end) =~= b.subrange(from, end));
        lemma_parts_shifted(a, b, end + 1);
    }
}

/// The components of two paths with a slash between them.
proof fn lemma_parts_joined(a: Seq<u8>, b: Seq<u8>, from: int)
    requires
        0 <= from <= a.len(),
    ensures
        parts_from(a + seq![slash()] + b, from) == parts_from(a, from) + parts_from(b, 0),
    decreases a.len() + 1 - from,
{
    let all = a + seq![slash()] + b;
    let end = next_slash(a, from);
    lemma_next_slash(a, from);
    assert forall|i: int| from <= i < end implies all[i] != slash() by {
        assert(all[i] == a[i]);
    }
    assert(all[end] == slash());
    lemma_next_slash_is(all, from, end);
    assert(all.subrange(from, end) =~= a.subrange(from, end));
    if end < a.len() {
        lemma_parts_joined(a, b, end + 1);
        assert(parts_from(all, from) =~= parts_from(a, from) + parts_from(b, 0));
    } else {
        lemma_parts_shifted(a + seq![slash()], b, 0);
        assert(parts_from(all, end + 1) == parts_from(b, 0));
        assert(parts_from(a, end + 1) =~= Seq::empty());
        if from == a.len() {
            assert(all.subrange(from, end) =~= Seq::empty());
        }
        assert(parts_from(all, from) =~= parts_from(a, from) + parts_from(b, 0));
    }
}

/// Where a path begins does not depend on what follows its first slash.
proof fn lemma_lead_kept(a: Seq<u8>, b: Seq<u8>)
    ensures
        lead(a + seq![slash()] + b) == lead(a + seq![slash()]),
        a.len() > 0 ==> lead(a + seq![slash()]) == lead(a),
{
    let end = next_slash(a, 0);
    lemma_next_slash(a, 0);
    let x = a + seq![slash()] + b;
    let y = a + seq![slash()];
    assert forall|i: int| 0 <= i < end implies x[i] != slash() && y[i] != slash() by {
        assert(x[i] == a[i] && y[i] == a[i]);
    }
    assert(x[end] == slash() && y[end] == slash());
    lemma_next_slash_is(x, 0, end);
    lemma_next_slash_is(y, 0, end);
    assert(x.subrange(0, end) =~= a.subrange(0, end));
    assert(y.subrange(0, end) =~= a.subrange(0, end));
    assert(x[0] == y[0]);
    if a.len() > 0 {
        assert(y[0] == a[0]);
    }
}

/// A piece without a slash is read as itself.
proof fn lemma_single_piece(p: Seq<u8>)
    requires
        forall|i: int| 0 <= i < p.len() ==> p[i] != slash(),
    ensures
        parts_from(p, 0) == piece(p),
{
    lemma_next_slash_is(p, 0, p.len() as int);
    assert(parts_from(p, p.len() as int + 1) =~= Seq::empty());
    assert(p.subrange(0, p.len() as int) =~= p);
    assert(parts_from(p, 0) =~= piece(p));
}

/// A relative path that is put after another adds its parents and names to it.
pub proof fn lemma_joined_parts(base: Seq<u8>, path: Seq<u8>)
    requires
        base.len() > 0,
        path.len() > 0 ==> path[0] != slash(),
    ensures
        parts_of(joined(base, path)) == parts_of(base) + parts_from(path, 0),
{
    let none = Seq::<u8>::empty();
    if base.last() != slash() {
        lemma_parts_joined(base, path, 0);
        lemma_lead_kept(base, path);
    } else {
        let a = base.drop_last();
        assert(base =~= a + seq![slash()]);
        assert(base =~= a + seq![slash()] + none);
        assert(joined(base, path) =~= a + seq![slash()] + path);
        lemma_parts_joined(a, path, 0);
        lemma_parts_joined(a, none, 0);
        lemma_lead_kept(a, path);
        assert(parts_from(none, 0) =~= Seq::empty());
        assert(parts_from(a, 0) + Seq::<PartModel>::empty() =~= parts_from(a, 0));
    }
    assert(parts_of(joined(base, path)) =~= parts_of(base) + parts_from(path, 0));
}

/// A name that is put after a path is added to its components.
pub proof fn lemma_joined_name(path: Seq<u8>, name: Seq<u8>)
    requires
        path.len() > 0,
        parts_of(name) == seq![PartModel::Name(name)],
    ensures
        parts_of(joined(path, name)) == parts_of(path).push(PartModel::Name(name)),
        joined(path, name).len() > 0,
{
    assert(parts_of(name)[0] is Name);
    assert(lead(name).len() == 0) by {
        if lead(name).len() > 0 {
            assert(parts_of(name)[0] == lead(name)[0]);
        }
    }
    assert(parts_of(name) =~= parts_from(name, 0));
    lemma_joined_parts(path, name);
    assert(parts_of(joined(path, name)) =~= parts_of(path).push(PartModel::Name(name)));
}

/// Different relative paths that are put after the same path give different paths.
pub proof fn lemma_joined_injective(base: Seq<u8>, a: Seq<u8>, b: Seq<u8>)
    requires
        joined(base, a) == joined(base, b),
        a.len() > 0 && a[0] != slash(),
        b.len() > 0 && b[0] != slash(),
    ensures
        a == b,
{
    let start = joined(base, a).len() - a.len();
    assert(joined(base, a).skip(start) =~= a);
    assert(joined(base, b).skip(start) =~= b);
}

/// What follows the last component of a path is no component.
proof fn lemma_trimmed(path: Seq<u8>)
    ensures
        parts_of(trimmed(path)) == parts_of(path),
        trimmed(path).len() <= path.len(),
        trimmed(path).len() >= 2 ==> {
            let t = trimmed(path);
            let n = t.len();
            t[n - 1] != slash() && !(t[n - 1] == dot() && t[n - 2] == slash())
        },
    decreases path.len(),
{
    let n = path.len();
    let none = Seq::<u8>::empty();
    if n >= 2 && (path[n - 1] == slash() || (path[n - 1] == dot() && path[n - 2] == slash())) {
        let head = path.drop_last();
        lemma_trimmed(head);
        if path[n - 1] == slash() {
            assert(path =~= head + seq![slash()]);
            assert(path =~= head + seq![slash()] + none);
            lemma_parts_joined(head, none, 0);
            lemma_lead_kept(head, none);
            assert(parts_from(none, 0) =~= Seq::empty());
            assert(parts_of(path) =~= parts_of(head));
        } else {
            let a = path.take(n - 2);
            let single = seq![dot()];
            assert(head =~= a + seq![slash()]);
            assert(head =~= a + seq![slash()] + none);
            assert(path =~= a + seq![slash()] + single);
            lemma_parts_joined(a, none, 0);
            lemma_parts_joined(a, single, 0);
            lemma_lead_kept(a, none);
            lemma_lead_kept(a, single);
            lemma_single_piece(single);
            assert(parts_from(none, 0) =~= Seq::empty());
            assert(parts_of(path) =~= parts_of(head));
        }
    }
}

/// Position after the last slash.
proof fn lemma_after_slash(path: Seq<u8>, to: int)
    requires
        0 <= to <= path.len(),
    ensures
        0 <= after_slash(path, to) <= to,
        forall|i: int| after_slash(path, to) <= i < to ==> path[i] != slash(),
        after_slash(path, to) > 0 ==> path[after_slash(path, to) - 1] == slash(),
    decreases to,
{
    if to > 0 && path[to - 1] != slash() {
        lemma_after_slash(path, to - 1);
    }
}

/// The parent of a path has its components without the last one.
pub proof fn lemma_parent_parts(path: Seq<u8>)
    ensures
        parent_of(path) matches Some(parent) ==> parts_of(parent) == parts_of(path).drop_last(),
        name_of(path) is Some ==> parent_of(path) is Some,
{
    if parent_of(path) is Some {
        let t = trimmed(path);
        let n = t.len() as int;
        let at = after_slash(t, n);
        lemma_trimmed(path);
        lemma_after_slash(t, n);
        let head = t.take(at);
        lemma_trimmed(head);
        let last = t.skip(at);
        assert forall|i: int| 0 <= i < last.len() implies last[i] != slash() by {
            assert(last[i] == t[at + i]);
        }
        lemma_single_piece(last);
        if at == 0 {
            assert(last =~= t);
            assert(head =~= Seq::empty());
            lemma_next_slash_is(t, 0, n);
            assert(t.subrange(0, n) =~= t);
            assert(parts_from(head, 0) =~= Seq::empty());
            assert(parts_of(head) =~= parts_of(path).drop_last());
        } else {
            let a = t.take(at - 1);
            let none = Seq::<u8>::empty();
            assert(head =~= a + seq![slash()]);
            assert(head =~= a + seq![slash()] + none);
            assert(t =~= a + seq![slash()] + last);
            lemma_parts_joined(a, last, 0);
            lemma_parts_joined(a, none, 0);
            lemma_lead_kept(a, last);
            assert(parts_from(none, 0) =~= Seq::empty());
            if n == 1 {
                // The path is the root.
                assert(t =~= seq![slash()]);
                assert(a =~= none);
                assert(parts_of(t) =~= seq![PartModel::Root]);
                assert(false);
            }
            assert(last.len() > 0) by {
                if at == n {
                    assert(t[n - 1] == slash());
                }
            }
            assert(last != seq![dot()]) by {
                if last == seq![dot()] {
                    assert(at == n - 1);
                    assert(t[n - 1] == last[0]);
                    assert(t[n - 2] == slash());
                }
            }
            assert(piece(last).len() == 1);
            assert(parts_of(head) =~= parts_of(path).drop_last());
        }
    }
}

/// Apart from where a path begins, its components are parents and proper names.
proof fn lemma_parts_from_proper(path: Seq<u8>, from: int)
    requires
        0 <= from,
    ensures
        forall|i: int|
            0 <= i < parts_from(path, from).len() ==> match #[trigger] parts_from(path, from)[i] {
                PartModel::Parent => true,
                PartModel::Name(name) => piece(name) == seq![PartModel::Name(name)]
                    && !name.contains(slash()),
                _ => false,
            },
    decreases path.len() + 1 - from,
{
    if from < path.len() {
        let end = next_slash(path, from);
        lemma_next_slash(path, from);
        let p = path.subrange(from, end);
        let first = piece(p);
        let rest = parts_from(path, end + 1);
        lemma_parts_from_proper(path, end + 1);
        assert(!p.contains(slash())) by {
            if p.contains(slash()) {
                let i = choose|i: int| 0 <= i < p.len() && p[i] == slash();
                assert(path[from + i] == slash());
            }
        }
        let all = parts_from(path, from);
        assert forall|i: int| 0 <= i < all.len() implies match #[trigger] all[i] {
            PartModel::Parent => true,
            PartModel::Name(name) => piece(name) == seq![PartModel::Name(name)]
                && !name.contains(slash()),
            _ => false,
        } by {
            if i < first.len() {
                assert(all[i] == first[i]);
            } else {
                assert(all[i] == rest[i - first.len()]);
            }
        }
    }
}

/// The name of a path is a name by itself.
pub proof fn lemma_name_is_proper(path: Seq<u8>)
    ensures
        name_of(path) matches Some(name) ==> name.len() > 0 && name[0] != slash() && parts_from(
            name,
            0,
        ) == seq![PartModel::Name(name)] && parts_of(name) == seq![PartModel::Name(name)],
{
    if name_of(path) is Some {
        let name = name_of(path)->0;
        let rest = parts_from(path, 0);
        lemma_parts_from_proper(path, 0);
        assert(parts_of(path).last() == rest[rest.len() - 1]);
        assert forall|i: int| 0 <= i < name.len() implies name[i] != slash() by {
            assert(name.contains(name[i]));
        }
        lemma_single_piece(name);
        assert(name.len() > 0);
        lemma_next_slash_is(name, 0, name.len() as int);
        assert(name.subrange(0, name.len() as int) =~= name);
        assert(parts_of(name) =~= seq![PartModel::Name(name)]);
    }
}

/// A destination that stays inside is a name under the directory it is relative to, whatever
/// that directory is: the directory begins its path, and no parent directory follows.
pub proof fn law_inside_stays_under(dir: Seq<u8>, link: Seq<char>)
    requires
        dir.len() > 0,
        is_inside(link),
    ensures
        ({
            let base = parts_of(dir);
            let path = parts_of(joined(dir, encode_utf8(link)));
            &&& base.is_prefix_of(path)
            &&& forall|i: int| base.len() <= i < path.len() ==> #[trigger] path[i] is Name
        }),
{
    let written = encode_utf8(link);
    let base = parts_of(dir);
    let inner = parts_of(written);
    let added = parts_from(written, 0);
    if written.len() > 0 && written[0] == slash() {
        assert(inner[0] is Root);
    }
    lemma_joined_parts(dir, written);
    lemma_parts_from_proper(written, 0);
    let path = parts_of(joined(dir, written));
    assert(path.subrange(0, base.len() as int) =~= base);
    assert forall|i: int| base.len() <= i < path.len() implies #[trigger] path[i] is Name by {
        let j = i - base.len();
        assert(path[i] == added[j]);
        assert(inner[inner.len() - added.len() + j] == added[j]);
    }
}

/// The parent of a path with its name put after it is the same path.
pub proof fn law_parent_and_name_make_the_path(path: Seq<u8>)
    requires
        name_of(path) is Some,
    ensures
        parent_of(path) is Some,
        parts_of(joined(parent_of(path)->0, name_of(path)->0)) == parts_of(path),
{
    let name = name_of(path)->0;
    lemma_parent_parts(path);
    lemma_name_is_proper(path);
    let parent = parent_of(path)->0;
    if parent.len() > 0 {
        lemma_joined_parts(parent, name);
    } else {
        assert(joined(parent, name) =~= name);
        assert(parts_of(parent) =~= Seq::empty());
    }
    assert(parts_of(joined(parent, name)) =~= parts_of(path));
}

/// A path that goes up anywhere does not stay inside, and neither does one that begins at the root.
pub proof fn law_going_up_leads_outside(before: Seq<u8>, after: Seq<u8>)
    ensures
        !stays_inside(parts_of(seq![slash()] + after)),
        !stays_inside(parts_of(seq![dot(), dot()])),
        !stays_inside(parts_of(seq![dot(), dot()] + seq![slash()] + after)),
        !stays_inside(parts_of(before + seq![slash()] + seq![dot(), dot()])),
        !stays_inside(
            parts_of(before + seq![slash()] + (seq![dot(), dot()] + seq![slash()] + after)),
        ),
{
    let up = seq![dot(), dot()];
    let up_and = up + seq![slash()] + after;
    lemma_single_piece(up);
    assert(up[0] == dot() && up[1] == dot());
    assert(up != seq![dot()]) by {
        assert(up.len() == 2);
        assert(seq![dot()].len() == 1);
    }
    lemma_parts_joined(up, after, 0);
    assert(parts_from(up, 0) == seq![PartModel::Parent]);
    assert(parts_from(up_and, 0)[0] == PartModel::Parent);
    lemma_goes_up(up, 0);
    lemma_goes_up(up_and, 0);
    lemma_parts_joined(before, up, 0);
    lemma_parts_joined(before, up_and, 0);
    let n = parts_from(before, 0).len() as int;
    let a = before + seq![slash()] + up;
    let b = before + seq![slash()] + up_and;
    assert(parts_from(a, 0)[n] == parts_from(up, 0)[0]);
    assert(parts_from(b, 0)[n] == parts_from(up_and, 0)[0]);
    lemma_goes_up(a, n);
    lemma_goes_up(b, n);
    let absolute = seq![slash()] + after;
    assert(absolute[0] == slash());
    assert(parts_of(absolute)[0] is Root);
}

proof fn lemma_goes_up(path: Seq<u8>, i: int)
    requires
        0 <= i < parts_from(path, 0).len(),
        parts_from(path, 0)[i] is Parent,
    ensures
        !stays_inside(parts_of(path)),
{
    assert(parts_of(path)[lead(path).len() + i] == parts_from(path, 0)[i]);
}

/// A name stays inside, and so does a path of which both parts do.
pub proof fn law_names_stay_inside(name: Seq<u8>, rest: Seq<u8>)
    requires
        name.len() > 0,
        forall|i: int| 0 <= i < name.len() ==> name[i] != slash(),
        name != seq![dot(), dot()],
    ensures
        stays_inside(parts_of(name)),
        stays_inside(parts_of(rest)) ==> stays_inside(parts_of(name + seq![slash()] + rest)),
        name != seq![dot()] ==> parts_of(name) == seq![PartModel::Name(name)],
{
    lemma_single_piece(name);
    lemma_next_slash_is(name, 0, name.len() as int);
    assert(name.subrange(0, name.len() as int) =~= name);
    let whole = name + seq![slash()] + rest;
    lemma_parts_joined(name, rest, 0);
    let none = Seq::<u8>::empty();
    lemma_lead_kept(name, rest);
    let own = parts_of(rest);
    let inner = parts_from(rest, 0);
    assert(name != seq![dot()] ==> parts_of(name) =~= seq![PartModel::Name(name)]);
    if stays_inside(own) {
        assert forall|i: int| 0 <= i < parts_of(whole).len() implies (#[trigger] parts_of(
            whole,
        )[i] is Name || parts_of(whole)[i] is Current) by {
            let k = lead(name).len() + parts_from(name, 0).len();
            if i < k {
                assert(parts_of(whole)[i] == parts_of(name)[i]);
            } else {
                assert(parts_of(whole)[i] == inner[i - k]);
                assert(own[lead(rest).len() + i - k] == inner[i - k]);
            }
        }
    }
}

/// The stem of a name is the name without its extension: without the last dot and what follows it.
/// A name whose only dot is its first character has no extension.
pub proof fn law_stem_leaves_out_the_extension(name: Seq<u8>, extension: Seq<u8>)
    requires
        name.len() > 0,
        !extension.contains(dot()),
    ensures
        stem(name + seq![dot()] + extension) == name,
        !name.contains(dot()) ==> stem(name) == name,
        stem(seq![dot()] + extension) == seq![dot()] + extension,
{
    let full = name + seq![dot()] + extension;
    lemma_last_dot(full, full.len() as int);
    let at = last_dot(full, full.len() as int);
    let n = name.len() as int;
    assert(full[n] == dot());
    assert(at >= n);
    if at > n {
        assert(full[at] == extension[at - n - 1]);
        assert(extension.contains(extension[at - n - 1]));
    }
    assert(full.take(n) =~= name);
    lemma_last_dot(name, n);
    if !name.contains(dot()) && last_dot(name, n) >= 0 {
        assert(name.contains(name[last_dot(name, n)]));
    }
    let hidden = seq![dot()] + extension;
    lemma_last_dot(hidden, hidden.len() as int);
    let first = last_dot(hidden, hidden.len() as int);
    if first > 0 {
        assert(hidden[first] == extension[first - 1]);
        assert(extension.contains(extension[first - 1]));
    }
}

proof fn lemma_last_dot(name: Seq<u8>, to: int)
    requires
        0 <= to <= name.len(),
    ensures
        -1 <= last_dot(name, to) < to,
        last_dot(name, to) >= 0 ==> name[last_dot(name, to)] == dot(),
        forall|i: int| last_dot(name, to) < i < to ==> name[i] != dot(),
    decreases to,
{
    if to > 0 && name[to - 1] != dot() {
        lemma_last_dot(name, to - 1);
    }
}

/// A relative path that is put after a directory keeps both as they are written, with one slash
/// between them; an absolute path stands alone.
pub proof fn law_joined_keeps_both_parts(base: Seq<u8>, path: Seq<u8>)
    ensures
        path.len() > 0 && path[0] == slash() ==> joined(base, path) == path,
        path.len() == 0 || path[0] != slash() ==> base.is_prefix_of(joined(base, path))
            && path.is_suffix_of(joined(base, path)),
        (path.len() == 0 || path[0] != slash()) && base.len() > 0 ==> joined(base, path)[(joined(
            base,
            path,
        ).len() - path.len() - 1)] == slash(),
        (path.len() == 0 || path[0] != slash()) ==> joined(base, path).len() <= base.len() + 1
            + path.len(),
{
    let whole = joined(base, path);
    if path.len() == 0 || path[0] != slash() {
        assert(whole.subrange(0, base.len() as int) =~= base);
        assert(whole.subrange(whole.len() - path.len(), whole.len() as int) =~= path);
    }
}

/// A dot is the current directory.
pub proof fn lemma_current()
    ensures
        parts_of(seq![dot()]) == seq![PartModel::Current],
{
    let here = seq![dot()];
    lemma_single_piece(here);
    lemma_next_slash_is(here, 0, 1);
    assert(here.subrange(0, 1) =~= here);
    assert(parts_of(here) =~= seq![PartModel::Current]);
}

/// A link stays inside exactly if every component of the path that it names is a name or the
/// current directory.
pub proof fn law_inside_is_decided_by_the_components(link: Seq<char>)
    ensures
        is_inside(link) <==> forall|i: int|
            0 <= i < parts_of(encode_utf8(link)).len() ==> !(#[trigger] parts_of(
                encode_utf8(link),
            )[i] is Root) && !(parts_of(encode_utf8(link))[i] is Parent),
{
    let parts = parts_of(encode_utf8(link));
    if is_inside(link) {
        assert forall|i: int| 0 <= i < parts.len() implies !(#[trigger] parts[i] is Root) && !(
        parts[i] is Parent) by {
            assert(parts[i] is Name || parts[i] is Current);
        }
    }
    if forall|i: int|
        0 <= i < parts.len() ==> !(#[trigger] parts[i] is Root) && !(parts[i] is Parent) {
        assert forall|i: int| 0 <= i < parts.len() implies (#[trigger] parts[i] is Name
            || parts[i] is Current) by {
            assert(!(parts[i] is Root) && !(parts[i] is Parent));
        }
    }
}

} // verus!
