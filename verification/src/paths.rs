use vstd::prelude::*;

use crate::results::{HttmError, HttmErrorKind};

verus! {

/// An absolute filesystem path, stored as the sequence of its components
/// below the root; the root itself is the empty sequence.  Components are
/// raw bytes, as the operating system hands them out.
#[derive(Debug)]
pub struct HttmPath {
    pub components: Vec<Vec<u8>>,
}

impl View for HttmPath {
    type V = Seq<Seq<u8>>;

    open spec fn view(&self) -> Seq<Seq<u8>> {
        self.components@.map_values(|c: Vec<u8>| c@)
    }
}

/// Copy a byte string.
pub fn clone_bytes(v: &Vec<u8>) -> (r: Vec<u8>)
    ensures
        r@ == v@,
{
    let mut r: Vec<u8> = Vec::new();
    let mut i: usize = 0;
    while i < v.len()
        invariant
            i <= v.len(),
            r@ == v@.take(i as int),
        decreases v.len() - i,
    {
        r.push(v[i]);
        proof {
            assert(v@.take(i + 1 as int) =~= v@.take(i as int).push(v@[i as int]));
        }
        i += 1;
    }
    proof {
        assert(v@.take(v@.len() as int) =~= v@);
    }
    r
}

/// Compare two byte strings for equality.
pub fn bytes_eq(a: &Vec<u8>, b: &Vec<u8>) -> (r: bool)
    ensures
        r == (a@ == b@),
{
    if a.len() != b.len() {
        return false;
    }
    let mut i: usize = 0;
    while i < a.len()
        invariant
            i <= a.len(),
            a@.len() == b@.len(),
            forall|j: int| 0 <= j < i ==> a@[j] == b@[j],
        decreases a.len() - i,
    {
        if a[i] != b[i] {
            return false;
        }
        i += 1;
    }
    proof {
        assert(a@ =~= b@);
    }
    true
}

impl Clone for HttmPath {
    /// Cloning keeps the components.
    fn clone(&self) -> (r: Self)
        ensures
            r@ == self@,
    {
        let mut components: Vec<Vec<u8>> = Vec::new();
        let mut i: usize = 0;
        while i < self.components.len()
            invariant
                i <= self.components.len(),
                components@.map_values(|c: Vec<u8>| c@) == self@.take(i as int),
            decreases self.components.len() - i,
        {
            let ghost pre = components@;
            components.push(clone_bytes(&self.components[i]));
            proof {
                assert(components@.map_values(|c: Vec<u8>| c@) =~= pre.map_values(
                    |c: Vec<u8>| c@,
                ).push(self@[i as int]));
                assert(self@.take(i as int + 1) =~= self@.take(i as int).push(self@[i as int]));
            }
            i += 1;
        }
        proof {
            assert(self@.take(self@.len() as int) =~= self@);
        }
        HttmPath { components }
    }
}

impl HttmPath {
    /// Build a path from its components.
    pub fn new(components: Vec<Vec<u8>>) -> (p: Self)
        ensures
            p@ == components@.map_values(|c: Vec<u8>| c@),
    {
        HttmPath { components }
    }

    /// The root path.
    pub fn root() -> (p: Self)
        ensures
            p@ == Seq::<Seq<u8>>::empty(),
    {
        let p = HttmPath { components: Vec::new() };
        proof {
            assert(p@ =~= Seq::<Seq<u8>>::empty());
        }
        p
    }

    /// The number of components.
    pub fn depth(&self) -> (n: usize)
        ensures
            n == self@.len(),
    {
        self.components.len()
    }

    /// Whether `prefix` is an ancestor-or-self of this path.
    pub fn starts_with(&self, prefix: &HttmPath) -> (r: bool)
        ensures
            r == prefix@.is_prefix_of(self@),
    {
        if prefix.components.len() > self.components.len() {
            proof {
                assert(!prefix@.is_prefix_of(self@));
            }
            return false;
        }
        let mut i: usize = 0;
        while i < prefix.components.len()
            invariant
                i <= prefix.components.len(),
                prefix@.len() <= self@.len(),
                forall|j: int| 0 <= j < i ==> prefix@[j] == self@[j],
            decreases prefix.components.len() - i,
        {
            if !bytes_eq(&prefix.components[i], &self.components[i]) {
                proof {
                    assert(self@.subrange(0, prefix@.len() as int)[i as int] == self@[i as int]);
                    assert(!prefix@.is_prefix_of(self@));
                }
                return false;
            }
            i += 1;
        }
        proof {
            assert(self@.subrange(0, prefix@.len() as int) =~= prefix@);
        }
        true
    }

    /// Strip an ancestor prefix, leaving the relative suffix below it.
    pub fn strip_prefix(&self, prefix: &HttmPath) -> (r: Option<HttmPath>)
        ensures
            prefix@.is_prefix_of(self@) ==> r is Some && r->0@ == self@.skip(prefix@.len() as int),
            !prefix@.is_prefix_of(self@) ==> r is None,
    {
        if !self.starts_with(prefix) {
            return None;
        }
        let mut components: Vec<Vec<u8>> = Vec::new();
        let mut i: usize = prefix.components.len();
        while i < self.components.len()
            invariant
                prefix@.len() <= i <= self@.len(),
                self.components.len() == self@.len(),
                components@.map_values(|c: Vec<u8>| c@) == self@.subrange(
                    prefix@.len() as int,
                    i as int,
                ),
            decreases self.components.len() - i,
        {
            let ghost pre = components@;
            components.push(clone_bytes(&self.components[i]));
            proof {
                assert(components@.map_values(|c: Vec<u8>| c@) =~= pre.map_values(
                    |c: Vec<u8>| c@,
                ).push(self@[i as int]));
                assert(self@.subrange(prefix@.len() as int, i as int + 1) =~= self@.subrange(
                    prefix@.len() as int,
                    i as int,
                ).push(self@[i as int]));
            }
            i += 1;
        }
        proof {
            assert(self@.subrange(prefix@.len() as int, self@.len() as int) =~= self@.skip(
                prefix@.len() as int,
            ));
        }
        Some(HttmPath { components })
    }

    /// Append a relative suffix below this path.
    pub fn join(&self, suffix: &HttmPath) -> (r: HttmPath)
        ensures
            r@ == self@ + suffix@,
    {
        let mut components: Vec<Vec<u8>> = Vec::new();
        let mut i: usize = 0;
        while i < self.components.len()
            invariant
                i <= self.components.len(),
                components@.map_values(|c: Vec<u8>| c@) == self@.take(i as int),
            decreases self.components.len() - i,
        {
            let ghost pre = components@;
            components.push(clone_bytes(&self.components[i]));
            proof {
                assert(components@.map_values(|c: Vec<u8>| c@) =~= pre.map_values(
                    |c: Vec<u8>| c@,
                ).push(self@[i as int]));
                assert(self@.take(i as int + 1) =~= self@.take(i as int).push(self@[i as int]));
            }
            i += 1;
        }
        let mut j: usize = 0;
        while j < suffix.components.len()
            invariant
                j <= suffix.components.len(),
                self.components.len() == self@.len(),
                components@.map_values(|c: Vec<u8>| c@) == self@.take(self@.len() as int) + suffix@.take(j as int),
            decreases suffix.components.len() - j,
        {
            let ghost pre = components@;
            components.push(clone_bytes(&suffix.components[j]));
            proof {
                assert(components@.map_values(|c: Vec<u8>| c@) =~= pre.map_values(
                    |c: Vec<u8>| c@,
                ).push(suffix@[j as int]));
                assert(self@.take(self@.len() as int) + suffix@.take(j as int + 1) =~= (self@.take(
                    self@.len() as int,
                ) + suffix@.take(j as int)).push(suffix@[j as int]));
            }
            j += 1;
        }
        proof {
            assert(self@.take(self@.len() as int) + suffix@.take(suffix@.len() as int) =~= self@
                + suffix@);
        }
        HttmPath { components }
    }

    /// Append one component below this path.
    pub fn join_component(&self, name: &Vec<u8>) -> (r: HttmPath)
        ensures
            r@ == self@.push(name@),
    {
        let mut r = self.clone();
        r.components.push(clone_bytes(name));
        proof {
            assert(r@ =~= self@.push(name@));
        }
        r
    }

    /// The parent directory, or `None` at the root.
    pub fn parent(&self) -> (r: Option<HttmPath>)
        ensures
            self@.len() == 0 ==> r is None,
            self@.len() > 0 ==> r is Some && r->0@ == self@.take(self@.len() - 1),
    {
        if self.components.len() == 0 {
            return None;
        }
        let mut r = self.clone();
        r.components.pop();
        proof {
            assert(r@ =~= self@.take(self@.len() - 1));
        }
        Some(r)
    }

    /// The final component, or `None` at the root.
    pub fn file_name(&self) -> (r: Option<&Vec<u8>>)
        ensures
            self@.len() == 0 ==> r is None,
            self@.len() > 0 ==> r is Some && r->0@ == self@.last(),
    {
        if self.components.len() == 0 {
            None
        } else {
            Some(&self.components[self.components.len() - 1])
        }
    }

    /// The ancestor keeping the first `n` components.
    pub fn ancestor(&self, n: usize) -> (r: HttmPath)
        requires
            n <= self@.len(),
        ensures
            r@ == self@.take(n as int),
    {
        let mut components: Vec<Vec<u8>> = Vec::new();
        let mut i: usize = 0;
        while i < n
            invariant
                i <= n <= self.components.len(),
                self.components.len() == self@.len(),
                components@.map_values(|c: Vec<u8>| c@) == self@.take(i as int),
            decreases n - i,
        {
            let ghost pre = components@;
            components.push(clone_bytes(&self.components[i]));
            proof {
                assert(components@.map_values(|c: Vec<u8>| c@) =~= pre.map_values(
                    |c: Vec<u8>| c@,
                ).push(self@[i as int]));
                assert(self@.take(i as int + 1) =~= self@.take(i as int).push(self@[i as int]));
            }
            i += 1;
        }
        HttmPath { components }
    }

    /// Path equality.
    pub fn path_eq(&self, other: &HttmPath) -> (r: bool)
        ensures
            r == (self@ == other@),
    {
        if self.components.len() != other.components.len() {
            proof {
                assert(self@.len() != other@.len());
            }
            return false;
        }
        let mut i: usize = 0;
        while i < self.components.len()
            invariant
                i <= self.components.len(),
                self@.len() == other@.len(),
                self.components.len() == self@.len(),
                forall|j: int| 0 <= j < i ==> self@[j] == other@[j],
            decreases self.components.len() - i,
        {
            if !bytes_eq(&self.components[i], &other.components[i]) {
                proof {
                    assert(self@[i as int] != other@[i as int]);
                }
                return false;
            }
            i += 1;
        }
        proof {
            assert(self@ =~= other@);
        }
        true
    }
}

/// The views of a sequence of paths.
pub open spec fn paths_view(v: Seq<HttmPath>) -> Seq<Seq<Seq<u8>>> {
    v.map_values(|p: HttmPath| p@)
}

/// Copy a sequence of paths.
pub fn clone_paths(v: &Vec<HttmPath>) -> (r: Vec<HttmPath>)
    ensures
        paths_view(r@) == paths_view(v@),
{
    let mut r: Vec<HttmPath> = Vec::new();
    let mut i: usize = 0;
    while i < v.len()
        invariant
            i <= v@.len(),
            paths_view(r@) == paths_view(v@.take(i as int)),
        decreases v@.len() - i,
    {
        let ghost pre = r@;
        r.push(v[i].clone());
        proof {
            assert(paths_view(r@) =~= paths_view(pre).push(v@[i as int]@));
            assert(paths_view(v@.take(i as int + 1)) =~= paths_view(v@.take(i as int)).push(
                v@[i as int]@,
            ));
        }
        i += 1;
    }
    proof {
        assert(v@.take(v@.len() as int) =~= v@);
    }
    r
}

/// Lexicographic order on byte strings: the usual strict dictionary order.
pub open spec fn bytes_lt(a: Seq<u8>, b: Seq<u8>) -> bool
    decreases a.len(),
{
    if b.len() == 0 {
        false
    } else if a.len() == 0 {
        true
    } else if a[0] < b[0] {
        true
    } else if a[0] > b[0] {
        false
    } else {
        bytes_lt(a.skip(1), b.skip(1))
    }
}

/// Exactly one of `bytes_lt(a, b)`, `a == b`, `bytes_lt(b, a)` holds.
pub proof fn lemma_bytes_lt_trichotomy(a: Seq<u8>, b: Seq<u8>)
    ensures
        bytes_lt(a, b) || a == b || bytes_lt(b, a),
        bytes_lt(a, b) ==> a != b && !bytes_lt(b, a),
        a == b ==> !bytes_lt(a, b),
    decreases a.len(),
{
    if a.len() == 0 && b.len() == 0 {
        assert(a =~= b);
    } else if a.len() == 0 || b.len() == 0 {
        assert(a.len() != b.len());
    } else if a[0] == b[0] {
        lemma_bytes_lt_trichotomy(a.skip(1), b.skip(1));
        if a.skip(1) == b.skip(1) {
            assert forall|j: int| 0 <= j < a.len() implies a[j] == b[j] by {
                if j > 0 {
                    assert(a.skip(1)[j - 1] == a[j]);
                    assert(b.skip(1)[j - 1] == b[j]);
                }
            }
            assert(a =~= b);
        }
        if a == b {
            assert(a.skip(1) =~= b.skip(1));
        }
    }
}

/// The order on byte strings is transitive.
pub proof fn lemma_bytes_lt_trans(a: Seq<u8>, b: Seq<u8>, c: Seq<u8>)
    requires
        bytes_lt(a, b),
        bytes_lt(b, c),
    ensures
        bytes_lt(a, c),
    decreases a.len(),
{
    if a.len() == 0 || b.len() == 0 {
    } else if c.len() == 0 {
    } else {
        if a[0] == b[0] && b[0] == c[0] {
            lemma_bytes_lt_trans(a.skip(1), b.skip(1), c.skip(1));
        }
    }
}

/// Compare two byte strings in the dictionary order.
pub fn bytes_lt_exec(a: &Vec<u8>, b: &Vec<u8>) -> (r: bool)
    ensures
        r == bytes_lt(a@, b@),
{
    let mut i: usize = 0;
    let min: usize = if a.len() < b.len() {
        a.len()
    } else {
        b.len()
    };
    while i < min
        invariant
            i <= min,
            min == if a@.len() < b@.len() {
                a@.len()
            } else {
                b@.len()
            },
            forall|j: int| 0 <= j < i ==> a@[j] == b@[j],
        decreases min - i,
    {
        if a[i] < b[i] {
            proof {
                lemma_bytes_lt_common(a@, b@, i as int);
            }
            return true;
        }
        if a[i] > b[i] {
            proof {
                lemma_bytes_lt_common(a@, b@, i as int);
            }
            return false;
        }
        i += 1;
    }
    proof {
        lemma_bytes_lt_common(a@, b@, min as int);
    }
    a.len() < b.len()
}

/// After a common prefix of length `i`, the order is decided by the remainders.
proof fn lemma_bytes_lt_common(a: Seq<u8>, b: Seq<u8>, i: int)
    requires
        0 <= i <= a.len(),
        i <= b.len(),
        forall|j: int| 0 <= j < i ==> a[j] == b[j],
    ensures
        bytes_lt(a, b) == bytes_lt(a.skip(i), b.skip(i)),
        i < a.len() && i < b.len() && a[i] < b[i] ==> bytes_lt(a, b),
        i < a.len() && i < b.len() && a[i] > b[i] ==> !bytes_lt(a, b),
        i == a.len() || i == b.len() ==> bytes_lt(a, b) == (a.len() < b.len()),
    decreases i,
{
    if i == 0 {
        assert(a.skip(0) =~= a);
        assert(b.skip(0) =~= b);
        if a.len() > 0 && b.len() > 0 && a[0] == b[0] {
        }
        if i == a.len() {
            if b.len() > 0 {
                assert(bytes_lt(a, b));
            }
        } else if i == b.len() {
            assert(!bytes_lt(a, b));
        }
    } else {
        assert(a.len() > 0 && b.len() > 0 && a[0] == b[0]);
        assert(forall|j: int| 0 <= j < i - 1 ==> a.skip(1)[j] == b.skip(1)[j]);
        lemma_bytes_lt_common(a.skip(1), b.skip(1), i - 1);
        assert(a.skip(1).skip(i - 1) =~= a.skip(i));
        assert(b.skip(1).skip(i - 1) =~= b.skip(i));
        if i < a.len() && i < b.len() {
            assert(a.skip(1)[i - 1] == a[i]);
            assert(b.skip(1)[i - 1] == b[i]);
        }
    }
}

/// Lexicographic order on paths: componentwise dictionary order, a proper
/// ancestor ordering before its descendants.
pub open spec fn path_lt(a: Seq<Seq<u8>>, b: Seq<Seq<u8>>) -> bool
    decreases a.len(),
{
    if b.len() == 0 {
        false
    } else if a.len() == 0 {
        true
    } else if bytes_lt(a[0], b[0]) {
        true
    } else if a[0] != b[0] {
        false
    } else {
        path_lt(a.skip(1), b.skip(1))
    }
}

/// Exactly one of `path_lt(a, b)`, `a == b`, `path_lt(b, a)` holds.
pub proof fn lemma_path_lt_trichotomy(a: Seq<Seq<u8>>, b: Seq<Seq<u8>>)
    ensures
        path_lt(a, b) || a == b || path_lt(b, a),
        path_lt(a, b) ==> a != b && !path_lt(b, a),
        a == b ==> !path_lt(a, b),
    decreases a.len(),
{
    if a.len() == 0 && b.len() == 0 {
        assert(a =~= b);
    } else if a.len() == 0 || b.len() == 0 {
        assert(a.len() != b.len());
    } else {
        lemma_bytes_lt_trichotomy(a[0], b[0]);
        if a[0] == b[0] {
            lemma_path_lt_trichotomy(a.skip(1), b.skip(1));
            if a.skip(1) == b.skip(1) {
                assert forall|j: int| 0 <= j < a.len() implies a[j] == b[j] by {
                    if j > 0 {
                        assert(a.skip(1)[j - 1] == a[j]);
                        assert(b.skip(1)[j - 1] == b[j]);
                    }
                }
                assert(a =~= b);
            }
            if a == b {
                assert(a.skip(1) =~= b.skip(1));
            }
        }
    }
}

/// The order on paths is transitive.
pub proof fn lemma_path_lt_trans(a: Seq<Seq<u8>>, b: Seq<Seq<u8>>, c: Seq<Seq<u8>>)
    requires
        path_lt(a, b),
        path_lt(b, c),
    ensures
        path_lt(a, c),
    decreases a.len(),
{
    if a.len() == 0 || b.len() == 0 {
    } else if c.len() == 0 {
    } else {
        lemma_bytes_lt_trichotomy(a[0], b[0]);
        lemma_bytes_lt_trichotomy(b[0], c[0]);
        if bytes_lt(a[0], b[0]) && bytes_lt(b[0], c[0]) {
            lemma_bytes_lt_trans(a[0], b[0], c[0]);
        } else if a[0] == b[0] && b[0] == c[0] {
            lemma_path_lt_trans(a.skip(1), b.skip(1), c.skip(1));
        }
    }
}

/// Compare two paths in the lexicographic order.
pub fn path_lt_exec(a: &HttmPath, b: &HttmPath) -> (r: bool)
    ensures
        r == path_lt(a@, b@),
{
    let mut i: usize = 0;
    let min: usize = if a.components.len() < b.components.len() {
        a.components.len()
    } else {
        b.components.len()
    };
    while i < min
        invariant
            i <= min,
            min == if a@.len() < b@.len() {
                a@.len()
            } else {
                b@.len()
            },
            a.components.len() == a@.len(),
            b.components.len() == b@.len(),
            forall|j: int| 0 <= j < i ==> a@[j] == b@[j],
        decreases min - i,
    {
        if bytes_lt_exec(&a.components[i], &b.components[i]) {
            proof {
                lemma_path_lt_common(a@, b@, i as int);
            }
            return true;
        }
        if !bytes_eq(&a.components[i], &b.components[i]) {
            proof {
                lemma_path_lt_common(a@, b@, i as int);
            }
            return false;
        }
        i += 1;
    }
    proof {
        lemma_path_lt_common(a@, b@, min as int);
    }
    a.components.len() < b.components.len()
}

/// After a common prefix of length `i`, the path order is decided by the remainders.
proof fn lemma_path_lt_common(a: Seq<Seq<u8>>, b: Seq<Seq<u8>>, i: int)
    requires
        0 <= i <= a.len(),
        i <= b.len(),
        forall|j: int| 0 <= j < i ==> a[j] == b[j],
    ensures
        path_lt(a, b) == path_lt(a.skip(i), b.skip(i)),
        i < a.len() && i < b.len() && bytes_lt(a[i], b[i]) ==> path_lt(a, b),
        i < a.len() && i < b.len() && !bytes_lt(a[i], b[i]) && a[i] != b[i] ==> !path_lt(a, b),
        i == a.len() || i == b.len() ==> path_lt(a, b) == (a.len() < b.len()),
    decreases i,
{
    if i == 0 {
        assert(a.skip(0) =~= a);
        assert(b.skip(0) =~= b);
        if i == a.len() {
            if b.len() > 0 {
                assert(path_lt(a, b));
            }
        } else if i == b.len() {
            assert(!path_lt(a, b));
        }
    } else {
        assert(a.len() > 0 && b.len() > 0 && a[0] == b[0]);
        lemma_bytes_lt_trichotomy(a[0], b[0]);
        assert(forall|j: int| 0 <= j < i - 1 ==> a.skip(1)[j] == b.skip(1)[j]);
        lemma_path_lt_common(a.skip(1), b.skip(1), i - 1);
        assert(a.skip(1).skip(i - 1) =~= a.skip(i));
        assert(b.skip(1).skip(i - 1) =~= b.skip(i));
        if i < a.len() && i < b.len() {
            assert(a.skip(1)[i - 1] == a[i]);
            assert(b.skip(1)[i - 1] == b[i]);
        }
    }
}

/// The metadata pair that identifies one historical version of a file.
#[derive(Clone, Copy, Debug, PartialEq, Eq, Structural)]
pub struct PathMetadata {
    pub modify_time: u64,
    pub size: u64,
}

/// The placeholder metadata handed out for phantom records.
pub open spec fn phantom_metadata() -> PathMetadata {
    PathMetadata { modify_time: 0, size: 0 }
}

/// An absolute path together with its optional metadata; absent metadata
/// marks the record phantom (typically a deleted file's live path).
/// Identity is by path alone; metadata does not participate.
#[derive(Debug)]
pub struct PathData {
    pub path_buf: HttmPath,
    pub metadata: Option<PathMetadata>,
}

impl Clone for PathData {
    /// Cloning keeps the path and the metadata.
    fn clone(&self) -> (r: Self)
        ensures
            r.path_buf@ == self.path_buf@,
            r.metadata == self.metadata,
    {
        PathData { path_buf: self.path_buf.clone(), metadata: self.metadata }
    }
}

impl PathData {
    /// Build a record from a path and optional metadata.
    pub fn new(path_buf: HttmPath, metadata: Option<PathMetadata>) -> (r: Self)
        ensures
            r.path_buf == path_buf,
            r.metadata == metadata,
    {
        PathData { path_buf, metadata }
    }

    /// The metadata, or the phantom placeholder when absent.
    pub fn md_infallible(&self) -> (m: PathMetadata)
        ensures
            m == self.spec_md_infallible(),
    {
        match self.metadata {
            Some(md) => md,
            None => PathMetadata { modify_time: 0, size: 0 },
        }
    }

    /// Specification twin of `md_infallible`.
    pub open spec fn spec_md_infallible(&self) -> PathMetadata {
        match self.metadata {
            Some(md) => md,
            None => phantom_metadata(),
        }
    }

    /// A record is phantom when it carries no metadata.
    pub open spec fn is_phantom(&self) -> bool {
        self.metadata is None
    }
}

/// Compare two optional metadata values.
pub fn opt_metadata_eq(a: &Option<PathMetadata>, b: &Option<PathMetadata>) -> (r: bool)
    ensures
        r == (a == b),
{
    match (a, b) {
        (Some(x), Some(y)) => x.modify_time == y.modify_time && x.size == y.size,
        (None, None) => true,
        _ => false,
    }
}

/// The longest common component prefix of two paths, or `None` when they
/// share no leading component.
pub fn cmp_path(a: &HttmPath, b: &HttmPath) -> (r: Option<HttmPath>)
    ensures
        common_prefix(a@, b@).len() == 0 ==> r is None,
        common_prefix(a@, b@).len() > 0 ==> r is Some && r->0@ == common_prefix(a@, b@),
{
    let min: usize = if a.components.len() < b.components.len() {
        a.components.len()
    } else {
        b.components.len()
    };
    let mut i: usize = 0;
    let mut mismatch = false;
    while i < min && !mismatch
        invariant
            i <= min,
            min == if a@.len() < b@.len() {
                a@.len()
            } else {
                b@.len()
            },
            a.components.len() == a@.len(),
            b.components.len() == b@.len(),
            forall|j: int| 0 <= j < i ==> a@[j] == b@[j],
            mismatch ==> i < min && a@[i as int] != b@[i as int],
        decreases min - i, 1int - if mismatch { 1int } else { 0int },
    {
        if !bytes_eq(&a.components[i], &b.components[i]) {
            mismatch = true;
        } else {
            i += 1;
        }
    }
    proof {
        lemma_common_prefix_len(a@, b@, i as int);
    }
    if i == 0 {
        None
    } else {
        Some(a.ancestor(i))
    }
}

/// The longest common prefix, as a specification.
pub open spec fn common_prefix(a: Seq<Seq<u8>>, b: Seq<Seq<u8>>) -> Seq<Seq<u8>> {
    a.take(common_prefix_len(a, b))
}

/// The length of the longest common prefix.
pub open spec fn common_prefix_len(a: Seq<Seq<u8>>, b: Seq<Seq<u8>>) -> int
    decreases a.len(),
{
    if a.len() == 0 || b.len() == 0 {
        0
    } else if a[0] != b[0] {
        0
    } else {
        1 + common_prefix_len(a.skip(1), b.skip(1))
    }
}

/// A scan that stops at the first mismatch finds the common-prefix length.
proof fn lemma_common_prefix_len(a: Seq<Seq<u8>>, b: Seq<Seq<u8>>, i: int)
    requires
        0 <= i <= a.len(),
        i <= b.len(),
        forall|j: int| 0 <= j < i ==> a[j] == b[j],
        i < a.len() && i < b.len() ==> a[i] != b[i],
    ensures
        common_prefix_len(a, b) == i,
    decreases i,
{
    if i == 0 {
    } else {
        assert(a.len() > 0 && b.len() > 0 && a[0] == b[0]);
        assert(forall|j: int| 0 <= j < i - 1 ==> a.skip(1)[j] == b.skip(1)[j]);
        if i < a.len() && i < b.len() {
            assert(a.skip(1)[i - 1] == a[i]);
            assert(b.skip(1)[i - 1] == b[i]);
        }
        lemma_common_prefix_len(a.skip(1), b.skip(1), i - 1);
    }
}

/// The deepest directory common to all given paths, or `None` when the
/// first components already differ (or the set is empty).
pub fn get_common_path(paths: &Vec<HttmPath>) -> (r: Option<HttmPath>)
    ensures
        paths@.len() == 0 ==> r is None,
        r is Some ==> r->0@.len() > 0 && forall|k: int|
            0 <= k < paths@.len() ==> #[trigger] paths@[k]@.len() >= r->0@.len(),
        r is Some ==> forall|k: int|
            0 <= k < paths@.len() ==> r->0@.is_prefix_of(#[trigger] paths@[k]@),
{
    if paths.len() == 0 {
        return None;
    }
    let mut acc: HttmPath = paths[0].clone();
    proof {
        assert(acc@.is_prefix_of(paths@[0]@)) by {
            assert(paths@[0]@.subrange(0, acc@.len() as int) =~= acc@);
        }
    }
    let mut k: usize = 1;
    while k < paths.len()
        invariant
            1 <= k <= paths@.len(),
            forall|j: int| 0 <= j < k ==> acc@.is_prefix_of(#[trigger] paths@[j]@),
        decreases paths.len() - k,
    {
        let next = match cmp_path(&acc, &paths[k]) {
            Some(p) => p,
            None => {
                return None;
            },
        };
        proof {
            lemma_common_prefix_is_prefix(acc@, paths@[k as int]@);
            assert forall|j: int| 0 <= j < k + 1 implies next@.is_prefix_of(
                #[trigger] paths@[j]@,
            ) by {
                if j < k {
                    lemma_prefix_trans(next@, acc@, paths@[j]@);
                }
            }
        }
        acc = next;
        k += 1;
    }
    if acc.components.len() == 0 {
        None
    } else {
        Some(acc)
    }
}

/// The common prefix is a prefix of both inputs.
proof fn lemma_common_prefix_is_prefix(a: Seq<Seq<u8>>, b: Seq<Seq<u8>>)
    ensures
        common_prefix_len(a, b) <= a.len(),
        common_prefix_len(a, b) <= b.len(),
        0 <= common_prefix_len(a, b),
        common_prefix(a, b).is_prefix_of(a),
        common_prefix(a, b).is_prefix_of(b),
    decreases a.len(),
{
    if a.len() == 0 || b.len() == 0 || a[0] != b[0] {
        assert(common_prefix(a, b) =~= Seq::<Seq<u8>>::empty());
        assert(a.subrange(0, 0) =~= Seq::<Seq<u8>>::empty());
        assert(b.subrange(0, 0) =~= Seq::<Seq<u8>>::empty());
    } else {
        lemma_common_prefix_is_prefix(a.skip(1), b.skip(1));
        let n = common_prefix_len(a, b);
        assert(a.subrange(0, n).subrange(0, n) =~= a.subrange(0, n));
        assert(a.take(n) =~= seq![a[0]] + a.skip(1).take(n - 1));
        assert(a.skip(1).take(n - 1) =~= a.skip(1).subrange(0, n - 1));
        assert(a.subrange(0, n) =~= a.take(n));
        assert(b.subrange(0, n) =~= seq![b[0]] + b.skip(1).subrange(0, n - 1));
        assert(a.take(n) =~= b.subrange(0, n));
    }
}

/// Prefix-of is transitive.
proof fn lemma_prefix_trans(a: Seq<Seq<u8>>, b: Seq<Seq<u8>>, c: Seq<Seq<u8>>)
    requires
        a.is_prefix_of(b),
        b.is_prefix_of(c),
    ensures
        a.is_prefix_of(c),
{
    assert(c.subrange(0, a.len() as int) =~= b.subrange(0, a.len() as int));
}

/// Rename a path to its temporary sibling: the last component gains the
/// `.tmp` suffix; at the root a lone `.tmp` component is created.
pub fn make_tmp_path(path: &HttmPath) -> (r: HttmPath)
    ensures
        path@.len() == 0 ==> r@.len() == 1,
        path@.len() > 0 ==> r@.len() == path@.len() && r@.take(path@.len() - 1) == path@.take(
            path@.len() - 1,
        ) && r@.last() == path@.last() + tmp_suffix(),
        path@.len() == 0 ==> r@.last() == tmp_suffix(),
        r@.len() > 0,
{
    let suffix: [u8; 4] = [46u8, 116u8, 109u8, 112u8];
    let mut r = path.clone();
    if r.components.len() == 0 {
        let mut name: Vec<u8> = Vec::new();
        name.push(suffix[0]);
        name.push(suffix[1]);
        name.push(suffix[2]);
        name.push(suffix[3]);
        proof {
            assert(name@ =~= tmp_suffix());
        }
        r.components.push(name);
        proof {
            assert(r@ =~= path@.push(tmp_suffix()));
        }
        r
    } else {
        let last = r.components.len() - 1;
        let mut name = clone_bytes(&r.components[last]);
        name.push(suffix[0]);
        name.push(suffix[1]);
        name.push(suffix[2]);
        name.push(suffix[3]);
        proof {
            assert(name@ =~= path@.last() + tmp_suffix());
        }
        let mut components = r.components;
        components.pop();
        components.push(name);
        let out = HttmPath { components };
        proof {
            assert(out@.take(path@.len() - 1) =~= path@.take(path@.len() - 1));
        }
        out
    }
}

/// The bytes of the `.tmp` suffix.
pub open spec fn tmp_suffix() -> Seq<u8> {
    seq![46u8, 116u8, 109u8, 112u8]
}

/// Access to a record's path and metadata, for metadata comparison.
pub trait CompareModifyTime {
    /// The metadata this implementation exposes, as a specification.
    spec fn spec_opt_metadata(&self) -> Option<PathMetadata>;

    /// The path this implementation exposes, as a specification.
    spec fn spec_path(&self) -> Seq<Seq<u8>>;

    /// The optional metadata of the record.
    fn get_opt_metadata(&self) -> (m: Option<PathMetadata>)
        ensures
            m == self.spec_opt_metadata(),
    ;

    /// The path of the record.
    fn get_path(&self) -> (p: &HttmPath)
        ensures
            p@ == self.spec_path(),
    ;
}

impl CompareModifyTime for PathData {
    open spec fn spec_opt_metadata(&self) -> Option<PathMetadata> {
        self.metadata
    }

    open spec fn spec_path(&self) -> Seq<Seq<u8>> {
        self.path_buf@
    }

    fn get_opt_metadata(&self) -> (m: Option<PathMetadata>) {
        self.metadata
    }

    fn get_path(&self) -> (p: &HttmPath) {
        &self.path_buf
    }
}

/// Succeeds exactly when the two records carry equal metadata.
pub fn compare_metadata<T: CompareModifyTime>(src: &T, dst: &T) -> (r: Result<(), HttmError>)
    ensures
        r is Ok <==> src.spec_opt_metadata() == dst.spec_opt_metadata(),
        r is Err ==> r->Err_0.kind == HttmErrorKind::Generic,
{
    let src_md = src.get_opt_metadata();
    let dst_md = dst.get_opt_metadata();
    if opt_metadata_eq(&src_md, &dst_md) {
        Ok(())
    } else {
        Err(HttmError::new("metadata mismatch between source and destination"))
    }
}

} // verus!
