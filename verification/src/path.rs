//! Paths: splitting into components, normalisation, rendering and the order
//! that the entry table keeps its keys in.

use vstd::prelude::*;

verus! {

/// Outcome of comparing two names or two paths.
#[derive(Clone, Copy, Debug, PartialEq, Eq, Structural)]
pub enum Sort {
    Before,
    Same,
    After,
}

/// `k` is a position at which `a` is seen to come before `b`: they agree on
/// the first `k` elements, and then either `a` ends while `b` goes on, or the
/// element of `a` is smaller.
pub open spec fn lex_at<T>(a: Seq<T>, b: Seq<T>, lt: spec_fn(T, T) -> bool, k: int) -> bool {
    &&& 0 <= k <= a.len()
    &&& k <= b.len()
    &&& forall|j: int| 0 <= j < k ==> a[j] == b[j]
    &&& if k == a.len() {
        k < b.len()
    } else {
        k < b.len() && lt(a[k], b[k])
    }
}

/// Lexicographic order on sequences, over an order `lt` on their elements.
pub open spec fn lex_lt<T>(a: Seq<T>, b: Seq<T>, lt: spec_fn(T, T) -> bool) -> bool {
    exists|k: int| lex_at(a, b, lt, k)
}

/// Nothing comes before itself.
pub open spec fn irreflexive<T>(lt: spec_fn(T, T) -> bool) -> bool {
    forall|x: T| !#[trigger] lt(x, x)
}

/// What comes before something that comes before a third comes before the
/// third.
pub open spec fn transitive<T>(lt: spec_fn(T, T) -> bool) -> bool {
    forall|x: T, y: T, z: T| #[trigger] lt(x, y) && #[trigger] lt(y, z) ==> lt(x, z)
}

/// Over an order on the elements, the lexicographic order is transitive.
pub proof fn lemma_lex_transitive<T>(a: Seq<T>, b: Seq<T>, c: Seq<T>, lt: spec_fn(T, T) -> bool)
    requires
        irreflexive(lt),
        transitive(lt),
        lex_lt(a, b, lt),
        lex_lt(b, c, lt),
    ensures
        lex_lt(a, c, lt),
{
    let k1 = choose|k: int| lex_at(a, b, lt, k);
    let k2 = choose|k: int| lex_at(b, c, lt, k);
    let k = if k1 <= k2 { k1 } else { k2 };
    assert(lex_at(a, c, lt, k));
}

/// Any two different elements are ordered one way or the other.
pub open spec fn total<T>(lt: spec_fn(T, T) -> bool) -> bool {
    forall|x: T, y: T| x != y ==> #[trigger] lt(x, y) || lt(y, x)
}

/// Two sequences that agree on their first `k` elements and differ are
/// ordered one way or the other, over a total order on the elements.
proof fn lemma_lex_total_from<T>(a: Seq<T>, b: Seq<T>, lt: spec_fn(T, T) -> bool, k: int)
    requires
        total(lt),
        a != b,
        0 <= k <= a.len(),
        k <= b.len(),
        forall|j: int| 0 <= j < k ==> a[j] == b[j],
    ensures
        lex_lt(a, b, lt) || lex_lt(b, a, lt),
    decreases a.len() - k,
{
    if k == a.len() || k == b.len() {
        if a.len() == b.len() {
            assert(a =~= b);
        } else if k == a.len() {
            assert(lex_at(a, b, lt, k));
        } else {
            assert(lex_at(b, a, lt, k));
        }
    } else if a[k] != b[k] {
        if lt(a[k], b[k]) {
            assert(lex_at(a, b, lt, k));
        } else {
            assert(lt(b[k], a[k]));
            assert(lex_at(b, a, lt, k));
        }
    } else {
        lemma_lex_total_from(a, b, lt, k + 1);
    }
}

/// Order on characters: by code point.
pub open spec fn char_lt(x: char, y: char) -> bool {
    (x as u32) < (y as u32)
}

/// Order on names: lexicographic by code point.
pub open spec fn name_lt(a: Seq<char>, b: Seq<char>) -> bool {
    lex_lt(a, b, |x: char, y: char| char_lt(x, y))
}

/// The order on names is transitive.
pub proof fn lemma_name_lt_transitive(a: Seq<char>, b: Seq<char>, c: Seq<char>)
    requires
        name_lt(a, b),
        name_lt(b, c),
    ensures
        name_lt(a, c),
{
    lemma_lex_transitive(a, b, c, |x: char, y: char| char_lt(x, y));
}

/// Compares two names by code point, lexicographically.
pub fn compare_names(a: &Vec<char>, b: &Vec<char>) -> (r: Sort)
    ensures
        r == Sort::Before <==> name_lt(a@, b@),
        r == Sort::Same <==> a@ == b@,
        r == Sort::After <==> name_lt(b@, a@),
{
    let ghost lt = |x: char, y: char| char_lt(x, y);
    let mut i: usize = 0;
    while i < a.len() && i < b.len() && a[i] == b[i]
        invariant
            i <= a.len(),
            i <= b.len(),
            forall|j: int| 0 <= j < i ==> a@[j] == b@[j],
        decreases a.len() - i,
    {
        i += 1;
    }
    if i == a.len() {
        if i == b.len() {
            assert(a@ =~= b@);
            Sort::Same
        } else {
            assert(lex_at(a@, b@, lt, i as int));
            Sort::Before
        }
    } else if i == b.len() {
        assert(lex_at(b@, a@, lt, i as int));
        Sort::After
    } else if (a[i] as u32) < (b[i] as u32) {
        assert(lex_at(a@, b@, lt, i as int));
        Sort::Before
    } else {
        proof {
            vstd::utf8::char_u32_cast(a@[i as int], a@[i as int] as u32);
            vstd::utf8::char_u32_cast(b@[i as int], b@[i as int] as u32);
        }
        assert(lex_at(b@, a@, lt, i as int));
        Sort::After
    }
}

/// Copies the characters of a string into a vector.
pub fn to_chars(s: &str) -> (r: Vec<char>)
    ensures
        r@ == s@,
{
    let mut out: Vec<char> = Vec::new();
    for c in it: s.chars()
        invariant
            out@ == it.seq().take(it.index()),
            it.seq() == s@,
    {
        out.push(c);
    }
    out
}

/// `String::push` appends the given character to the end of the string.
pub assume_specification[ String::push ](s: &mut String, c: char)
    ensures
        final(s)@ == old(s)@.push(c),
;

/// Copies a name.
pub fn copy_name(name: &Vec<char>) -> (r: Vec<char>)
    ensures
        r@ == name@,
{
    let mut out: Vec<char> = Vec::new();
    let mut i: usize = 0;
    while i < name.len()
        invariant
            i <= name.len(),
            out@ == name@.take(i as int),
        decreases name.len() - i,
    {
        out.push(name[i]);
        i += 1;
    }
    out
}

/// Appends the characters of `name` to `out`.
pub fn push_chars(out: &mut String, name: &Vec<char>)
    ensures
        final(out)@ == old(out)@ + name@,
{
    let mut i: usize = 0;
    while i < name.len()
        invariant
            i <= name.len(),
            out@ == old(out)@ + name@.take(i as int),
        decreases name.len() - i,
    {
        out.push(name[i]);
        i += 1;
    }
}

/// The mathematical model of a normalised path: whether it starts at the
/// root, and the names of its components below that, outermost first.
pub struct PathView {
    pub absolute: bool,
    pub names: Seq<Seq<char>>,
}

impl PathView {
    /// The root directory, `/`.
    pub open spec fn root() -> PathView {
        PathView { absolute: true, names: Seq::empty() }
    }

    /// The path made of the first `n` names of this one.
    pub open spec fn prefix(self, n: int) -> PathView {
        PathView { absolute: self.absolute, names: self.names.take(n) }
    }

    /// The path names something: it is not the empty relative path.
    pub open spec fn named(self) -> bool {
        self.absolute || self.names.len() > 0
    }

    /// This path with the names of `to` in place of those of `from`, which
    /// it starts with.
    pub open spec fn rebased(self, from: PathView, to: PathView) -> PathView {
        PathView {
            absolute: to.absolute,
            names: to.names + self.names.skip(from.names.len() as int),
        }
    }

    /// `base` is this path or lies above it.
    pub open spec fn starts_with(self, base: PathView) -> bool {
        &&& self.absolute == base.absolute
        &&& base.names.len() <= self.names.len()
        &&& self.names.take(base.names.len() as int) == base.names
    }

    /// This path lies directly inside `dir`: it starts with `dir` and has
    /// exactly one more name.
    pub open spec fn is_child_of(self, dir: PathView) -> bool {
        self.starts_with(dir) && self.names.len() == dir.names.len() + 1
    }

    /// The number of names of the shortest prefix that counts as an ancestor:
    /// for an absolute path the root itself, for a relative one its first
    /// name.
    pub open spec fn first_depth(self) -> int {
        if self.absolute {
            0
        } else {
            1
        }
    }

    /// `anc` is a proper ancestor of this path: one of the prefixes that a
    /// walk over the components passes before it reaches the path itself.
    pub open spec fn has_ancestor(self, anc: PathView) -> bool {
        exists|n: int| self.first_depth() <= n < self.names.len() && anc == self.prefix(n)
    }
}

/// A prefix of a prefix is a prefix, and prefixes of different lengths
/// differ.
pub proof fn lemma_prefix(p: PathView, m: int, n: int)
    requires
        0 <= m <= n <= p.names.len(),
    ensures
        p.prefix(n).prefix(m) == p.prefix(m),
        p.prefix(n).names.len() == n,
        p.prefix(n).first_depth() == p.first_depth(),
        m != n ==> p.prefix(m) != p.prefix(n),
        p.prefix(p.names.len() as int) == p,
{
    assert(p.names.take(n).take(m) =~= p.names.take(m));
    assert(p.names.take(p.names.len() as int) =~= p.names);
}

/// Moving a path from `from` to `to` and back gives the path again, and
/// what was moved starts with `to`.
pub proof fn lemma_rebased(q: PathView, from: PathView, to: PathView)
    requires
        q.starts_with(from),
    ensures
        q.rebased(from, to).starts_with(to),
        q.rebased(from, to).rebased(to, from) == q,
        q.rebased(from, to).names.len() == to.names.len() + q.names.len() - from.names.len(),
        q == from ==> q.rebased(from, to) == to,
        q.clean() && to.clean() ==> q.rebased(from, to).clean(),
        to.named() ==> q.rebased(from, to).named(),
{
    let r = q.rebased(from, to);
    let tail = q.names.skip(from.names.len() as int);
    assert(r.names.take(to.names.len() as int) =~= to.names);
    assert(r.names.skip(to.names.len() as int) =~= tail);
    assert(from.names + tail =~= q.names) by {
        assert(q.names.take(from.names.len() as int) == from.names);
    }
    if q == from {
        assert(r.names =~= to.names);
    }
    if q.clean() && to.clean() {
        assert forall|i: int| 0 <= i < r.names.len() implies clean_name(#[trigger] r.names[i]) by {
            if i < to.names.len() {
                assert(clean_name(to.names[i]));
            } else {
                assert(r.names[i] == q.names[i - to.names.len() + from.names.len()]);
                assert(clean_name(q.names[i - to.names.len() + from.names.len()]));
            }
        }
    }
}

/// A prefix of a moved path is the moved prefix, or a prefix of `to`.
pub proof fn lemma_rebased_prefix(q: PathView, from: PathView, to: PathView, n: int)
    requires
        q.starts_with(from),
        0 <= n <= q.rebased(from, to).names.len(),
    ensures
        n <= to.names.len() ==> q.rebased(from, to).prefix(n) == to.prefix(n),
        n >= to.names.len() ==> {
            let m = n - to.names.len() + from.names.len();
            &&& from.names.len() <= m <= q.names.len()
            &&& q.prefix(m).starts_with(from)
            &&& q.rebased(from, to).prefix(n) == q.prefix(m).rebased(from, to)
        },
{
    let r = q.rebased(from, to);
    if n <= to.names.len() {
        assert(r.names.take(n) =~= to.names.take(n));
    }
    if n >= to.names.len() {
        let m = n - to.names.len() + from.names.len();
        assert(q.names.take(from.names.len() as int) == from.names);
        assert(q.prefix(m).names.take(from.names.len() as int) =~= from.names);
        assert(r.names.take(n) =~= to.names + q.prefix(m).names.skip(from.names.len() as int));
    }
}

/// A path starts with each of its prefixes, and with nothing longer.
pub proof fn lemma_starts_with_prefix(q: PathView, n: int)
    requires
        0 <= n <= q.names.len(),
    ensures
        q.starts_with(q.prefix(n)),
        n < q.names.len() ==> q.prefix(n) != q,
{
    assert(q.names.take(n).len() == n);
}

/// What starts with a path starts with what that path starts with.
pub proof fn lemma_starts_with_trans(x: PathView, a: PathView, b: PathView)
    requires
        x.starts_with(a),
        a.starts_with(b),
    ensures
        x.starts_with(b),
{
    assert(x.names.take(a.names.len() as int).take(b.names.len() as int) =~= x.names.take(
        b.names.len() as int,
    ));
}

/// What a path starts with is one of its prefixes.
pub proof fn lemma_starts_with_is_prefix(q: PathView, p: PathView)
    requires
        q.starts_with(p),
    ensures
        p == q.prefix(p.names.len() as int),
        q != p ==> p.names.len() < q.names.len(),
        q != p && p.named() ==> q.first_depth() <= p.names.len(),
{
    if q != p && p.names.len() == q.names.len() {
        assert(q.names.take(q.names.len() as int) =~= q.names);
    }
}

/// Order on paths: absolute paths come before relative ones, and within
/// each group the order is lexicographic over the names.
pub open spec fn path_lt(p: PathView, q: PathView) -> bool {
    if p.absolute != q.absolute {
        p.absolute
    } else {
        lex_lt(p.names, q.names, |a: Seq<char>, b: Seq<char>| name_lt(a, b))
    }
}

/// The order on names is one that the lexicographic order can be built on.
proof fn lemma_name_order_laws()
    ensures
        irreflexive(|a: Seq<char>, b: Seq<char>| name_lt(a, b)),
        transitive(|a: Seq<char>, b: Seq<char>| name_lt(a, b)),
{
    let lt = |a: Seq<char>, b: Seq<char>| name_lt(a, b);
    assert forall|x: Seq<char>, y: Seq<char>, z: Seq<char>| #[trigger]
        lt(x, y) && #[trigger] lt(y, z) implies lt(x, z) by {
        lemma_name_lt_transitive(x, y, z);
    }
}

/// The order on paths is transitive.
pub proof fn lemma_path_lt_transitive(p: PathView, q: PathView, r: PathView)
    requires
        path_lt(p, q),
        path_lt(q, r),
    ensures
        path_lt(p, r),
{
    lemma_name_order_laws();
    if p.absolute == q.absolute && q.absolute == r.absolute {
        lemma_lex_transitive(p.names, q.names, r.names, |a: Seq<char>, b: Seq<char>| name_lt(a, b));
    }
}

/// The order on paths is strict: no path comes before itself, and of two
/// paths at most one comes before the other.
pub proof fn law_path_order_strict(p: PathView, q: PathView)
    ensures
        !path_lt(p, p),
        !(path_lt(p, q) && path_lt(q, p)),
{
}

/// The order on paths is total: of two different paths one comes before
/// the other.
pub proof fn law_path_order_total(p: PathView, q: PathView)
    requires
        p != q,
    ensures
        path_lt(p, q) || path_lt(q, p),
{
    let by_char = |x: char, y: char| char_lt(x, y);
    let by_name = |a: Seq<char>, b: Seq<char>| name_lt(a, b);
    assert forall|x: char, y: char| x != y implies #[trigger] by_char(x, y) || by_char(y, x) by {
        vstd::utf8::char_u32_cast(x, x as u32);
        vstd::utf8::char_u32_cast(y, y as u32);
    }
    assert forall|a: Seq<char>, b: Seq<char>| a != b implies #[trigger] by_name(a, b) || by_name(
        b,
        a,
    ) by {
        lemma_lex_total_from(a, b, by_char, 0);
    }
    if p.absolute == q.absolute {
        assert(p.names != q.names);
        lemma_lex_total_from(p.names, q.names, by_name, 0);
    }
}

/// The paths come in strictly increasing order.
pub open spec fn strictly_sorted(s: Seq<PathView>) -> bool {
    forall|i: int, j: int| 0 <= i < j < s.len() ==> path_lt(#[trigger] s[i], #[trigger] s[j])
}

/// The views of a vector of names.
pub open spec fn names_view(names: Seq<Vec<char>>) -> Seq<Seq<char>> {
    names.map_values(|n: Vec<char>| n@)
}

/// A normalised path: `/`, `/a/b`, `a/b` or the empty path.
#[derive(Debug)]
pub struct FloppyPath {
    absolute: bool,
    names: Vec<Vec<char>>,
}

impl View for FloppyPath {
    type V = PathView;

    closed spec fn view(&self) -> PathView {
        PathView { absolute: self.absolute, names: names_view(self.names@) }
    }
}

impl FloppyPath {
    /// The root directory.
    pub fn root() -> (r: FloppyPath)
        ensures
            r@ == PathView::root(),
            r@.clean(),
    {
        let r = FloppyPath { absolute: true, names: Vec::new() };
        assert(names_view(r.names@) =~= Seq::empty());
        r
    }

    /// Whether the path starts at the root.
    pub fn is_absolute(&self) -> (r: bool)
        ensures
            r == self@.absolute,
    {
        self.absolute
    }

    /// The number of names in the path.
    pub fn depth(&self) -> (r: usize)
        ensures
            r == self@.names.len(),
    {
        self.names.len()
    }

    /// The path made of the first `n` names of this one.
    pub fn prefix(&self, n: usize) -> (r: FloppyPath)
        requires
            n <= self@.names.len(),
        ensures
            r@ == self@.prefix(n as int),
            self@.clean() ==> r@.clean(),
    {
        let mut names: Vec<Vec<char>> = Vec::new();
        let mut i: usize = 0;
        while i < n
            invariant
                i <= n <= self.names.len(),
                names_view(names@) == names_view(self.names@).take(i as int),
            decreases n - i,
        {
            let ghost before = names@;
            names.push(copy_name(&self.names[i]));
            assert(names_view(before).len() == i);
            i += 1;
        }
        FloppyPath { absolute: self.absolute, names }
    }

    /// This path with the names of `to` in place of its first `depth`
    /// names.
    pub fn rebased(&self, depth: usize, to: &FloppyPath) -> (r: FloppyPath)
        requires
            depth <= self@.names.len(),
        ensures
            r@ == (PathView {
                absolute: to@.absolute,
                names: to@.names + self@.names.skip(depth as int),
            }),
    {
        let mut names: Vec<Vec<char>> = Vec::new();
        let mut i: usize = 0;
        while i < to.names.len()
            invariant
                i <= to.names.len(),
                names_view(names@) == names_view(to.names@).take(i as int),
            decreases to.names.len() - i,
        {
            let ghost before = names@;
            names.push(copy_name(&to.names[i]));
            assert(names_view(before).len() == i);
            assert(names_view(names@) =~= names_view(to.names@).take(i + 1));
            i += 1;
        }
        assert(names_view(to.names@).take(to.names.len() as int) =~= names_view(to.names@));
        let mut j: usize = depth;
        while j < self.names.len()
            invariant
                depth <= j <= self.names.len(),
                names_view(names@) == names_view(to.names@) + names_view(self.names@).subrange(
                    depth as int,
                    j as int,
                ),
            decreases self.names.len() - j,
        {
            let ghost before = names@;
            names.push(copy_name(&self.names[j]));
            assert(names_view(before).len() == to.names.len() + j - depth);
            let ghost want = names_view(to.names@) + names_view(self.names@).subrange(
                depth as int,
                j + 1,
            );
            assert forall|k: int| 0 <= k < want.len() implies names_view(names@)[k] == want[k] by {
                if k < before.len() {
                    assert(names_view(names@)[k] == names_view(before)[k]);
                    assert(names_view(before)[k] == (names_view(to.names@) + names_view(
                        self.names@,
                    ).subrange(depth as int, j as int))[k]);
                }
            }
            assert(names_view(names@) =~= want);
            j += 1;
        }
        assert(names_view(self.names@).subrange(depth as int, self.names.len() as int)
            =~= names_view(self.names@).skip(depth as int));
        FloppyPath { absolute: to.absolute, names }
    }

    /// A copy of the path.
    pub fn duplicate(&self) -> (r: FloppyPath)
        ensures
            r@ == self@,
    {
        let r = self.prefix(self.names.len());
        assert(self@.names.take(self@.names.len() as int) =~= self@.names);
        r
    }

    /// The last name of the path, if it has one.
    pub fn file_name(&self) -> (r: Option<String>)
        ensures
            match r {
                Some(n) => self@.names.len() > 0 && n@ == self@.names.last(),
                None => self@.names.len() == 0,
            },
    {
        if self.names.len() == 0 {
            None
        } else {
            let mut out = String::new();
            push_chars(&mut out, &self.names[self.names.len() - 1]);
            Some(out)
        }
    }

    /// Compares two paths in the order of the entry table.
    #[verifier::loop_isolation(false)]
    pub fn compare(&self, other: &FloppyPath) -> (r: Sort)
        ensures
            r == Sort::Before <==> path_lt(self@, other@),
            r == Sort::Same <==> self@ == other@,
            r == Sort::After <==> path_lt(other@, self@),
    {
        if self.absolute != other.absolute {
            return if self.absolute {
                Sort::Before
            } else {
                Sort::After
            };
        }
        let ghost lt = |a: Seq<char>, b: Seq<char>| name_lt(a, b);
        let mut i: usize = 0;
        while i < self.names.len() && i < other.names.len()
            invariant
                i <= self.names.len(),
                i <= other.names.len(),
                forall|j: int| 0 <= j < i ==> self@.names[j] == other@.names[j],
            decreases self.names.len() - i,
        {
            match compare_names(&self.names[i], &other.names[i]) {
                Sort::Before => {
                    assert(lex_at(self@.names, other@.names, lt, i as int));
                    return Sort::Before;
                },
                Sort::After => {
                    assert(lex_at(other@.names, self@.names, lt, i as int));
                    return Sort::After;
                },
                Sort::Same => {},
            }
            i += 1;
        }
        if i == self.names.len() {
            if i == other.names.len() {
                assert(self@.names =~= other@.names);
                Sort::Same
            } else {
                assert(lex_at(self@.names, other@.names, lt, i as int));
                Sort::Before
            }
        } else {
            assert(lex_at(other@.names, self@.names, lt, i as int));
            Sort::After
        }
    }

    /// Whether two paths are the same.
    pub fn same(&self, other: &FloppyPath) -> (r: bool)
        ensures
            r == (self@ == other@),
    {
        match self.compare(other) {
            Sort::Same => true,
            _ => false,
        }
    }

    /// Whether `base` is this path or lies above it.
    #[verifier::loop_isolation(false)]
    pub fn starts_with(&self, base: &FloppyPath) -> (r: bool)
        ensures
            r == self@.starts_with(base@),
    {
        if self.absolute != base.absolute || base.names.len() > self.names.len() {
            return false;
        }
        let mut i: usize = 0;
        while i < base.names.len()
            invariant
                i <= base.names.len() <= self.names.len(),
                forall|j: int| 0 <= j < i ==> self@.names[j] == base@.names[j],
            decreases base.names.len() - i,
        {
            assert(base@.names[i as int] == base.names[i as int]@);
            match compare_names(&self.names[i], &base.names[i]) {
                Sort::Same => {},
                _ => {
                    return false;
                },
            }
            i += 1;
        }
        assert(self@.names.take(base@.names.len() as int) =~= base@.names);
        true
    }

    /// Whether this path lies directly inside `dir`.
    pub fn is_child_of(&self, dir: &FloppyPath) -> (r: bool)
        ensures
            r == self@.is_child_of(dir@),
    {
        self.names.len() > 0 && self.names.len() - 1 == dir.names.len() && self.starts_with(dir)
    }
}

/// The pieces of `s` between its `/` separators, empty ones included. A
/// string without a separator is one piece.
pub open spec fn split_segments(s: Seq<char>) -> Seq<Seq<char>>
    decreases s.len(),
{
    if s.len() == 0 {
        seq![Seq::empty()]
    } else {
        let before = split_segments(s.drop_last());
        if s.last() == '/' {
            before.push(Seq::empty())
        } else {
            before.drop_last().push(before.last().push(s.last()))
        }
    }
}

/// The segment `.`, which names the directory it stands in.
pub open spec fn is_cur_dir(seg: Seq<char>) -> bool {
    seg.len() == 1 && seg[0] == '.'
}

/// The segment `..`, which names the parent directory.
pub open spec fn is_parent_dir(seg: Seq<char>) -> bool {
    seg.len() == 2 && seg[0] == '.' && seg[1] == '.'
}

/// What one segment does to the names collected so far: an empty segment
/// and `.` leave them alone, `..` drops the last name if there is one and
/// is absorbed otherwise, and any other segment is added as a name.
pub open spec fn apply_segment(names: Seq<Seq<char>>, seg: Seq<char>) -> Seq<Seq<char>> {
    if seg.len() == 0 || is_cur_dir(seg) {
        names
    } else if is_parent_dir(seg) {
        if names.len() > 0 {
            names.drop_last()
        } else {
            names
        }
    } else {
        names.push(seg)
    }
}

/// The names left after every segment has been applied in turn, starting
/// from `names`.
pub open spec fn apply_segments(names: Seq<Seq<char>>, segs: Seq<Seq<char>>) -> Seq<Seq<char>>
    decreases segs.len(),
{
    if segs.len() == 0 {
        names
    } else {
        apply_segment(apply_segments(names, segs.drop_last()), segs.last())
    }
}

/// The normal form of a path string: it is absolute if the string starts
/// with `/`, and its names are what the segments leave behind.
pub open spec fn normalized(s: Seq<char>) -> PathView {
    PathView {
        absolute: s.len() > 0 && s[0] == '/',
        names: apply_segments(Seq::empty(), split_segments(s)),
    }
}

/// Every string has at least one segment.
pub proof fn lemma_split_nonempty(s: Seq<char>)
    ensures
        split_segments(s).len() >= 1,
{
}

/// The segments of two strings joined by a separator are the segments of
/// the one followed by those of the other.
pub proof fn lemma_split_joined(a: Seq<char>, b: Seq<char>)
    ensures
        split_segments(a + seq!['/'] + b) == split_segments(a) + split_segments(b),
    decreases b.len(),
{
    let s = a + seq!['/'] + b;
    if b.len() == 0 {
        assert(s.drop_last() =~= a);
    } else {
        lemma_split_joined(a, b.drop_last());
        assert(s.drop_last() =~= a + seq!['/'] + b.drop_last());
    }
}

/// Applying segments one run after another is applying them all.
pub proof fn lemma_apply_joined(names: Seq<Seq<char>>, x: Seq<Seq<char>>, y: Seq<Seq<char>>)
    ensures
        apply_segments(names, x + y) == apply_segments(apply_segments(names, x), y),
    decreases y.len(),
{
    if y.len() > 0 {
        lemma_apply_joined(names, x, y.drop_last());
        assert((x + y).drop_last() =~= x + y.drop_last());
    }
}

/// A string without a separator is its own single segment.
pub proof fn lemma_split_plain(s: Seq<char>)
    requires
        forall|i: int| 0 <= i < s.len() ==> s[i] != '/',
    ensures
        split_segments(s) == seq![s],
    decreases s.len(),
{
    if s.len() > 0 {
        lemma_split_plain(s.drop_last());
        assert(seq![s.drop_last()].drop_last().push(seq![s.drop_last()].last().push(s.last()))
            =~= seq![s]) by {
            assert(s.drop_last().push(s.last()) =~= s);
        }
    } else {
        assert(s =~= Seq::empty());
    }
}

/// Applying a single segment.
pub proof fn lemma_apply_single(names: Seq<Seq<char>>, seg: Seq<char>)
    ensures
        apply_segments(names, seq![seg]) == apply_segment(names, seg),
{
    assert(seq![seg].drop_last() =~= Seq::empty());
    assert(apply_segments(names, Seq::empty()) == names);
}

/// A `..` at the start of a path is absorbed: below the root there is
/// nothing to go up to, and a relative path has no directory that it
/// starts from.
pub proof fn law_leading_parent_absorbed(s: Seq<char>)
    ensures
        normalized(seq!['/', '.', '.', '/'] + s) == normalized(seq!['/'] + s),
        normalized(seq!['.', '.', '/'] + s).names == normalized(s).names,
        !normalized(seq!['.', '.', '/'] + s).absolute,
{
    let none = Seq::<Seq<char>>::empty();
    let e = Seq::<char>::empty();
    let up = seq!['.', '.'];
    lemma_split_plain(up);
    lemma_apply_single(none, e);
    lemma_apply_single(none, up);
    assert(apply_segments(none, seq![e, up]) == none) by {
        assert(seq![e, up].drop_last() =~= seq![e]);
    }
    lemma_split_joined(e, up);
    assert(e + seq!['/'] + up =~= seq!['/', '.', '.']);
    lemma_split_joined(seq!['/', '.', '.'], s);
    assert(seq!['/', '.', '.'] + seq!['/'] + s =~= seq!['/', '.', '.', '/'] + s);
    assert(seq![e] + seq![up] =~= seq![e, up]);
    lemma_apply_joined(none, seq![e, up], split_segments(s));
    lemma_split_joined(e, s);
    lemma_apply_joined(none, seq![e], split_segments(s));
    lemma_split_joined(up, s);
    assert(up + seq!['/'] + s =~= seq!['.', '.', '/'] + s);
    lemma_apply_joined(none, seq![up], split_segments(s));
}

/// Applies one segment to the names collected so far.
fn apply_one(names: &mut Vec<Vec<char>>, seg: Vec<char>)
    ensures
        names_view(final(names)@) == apply_segment(names_view(old(names)@), seg@),
{
    let n = seg.len();
    if n == 0 || (n == 1 && seg[0] == '.') {
    } else if n == 2 && seg[0] == '.' && seg[1] == '.' {
        if names.len() > 0 {
            names.pop();
        }
    } else {
        names.push(seg);
    }
}

/// Normalises the characters of a path.
pub fn normalize_chars(chars: &Vec<char>) -> (r: FloppyPath)
    ensures
        r@ == normalized(chars@),
        r@.clean(),
{
    proof {
        lemma_normalized_clean(chars@);
    }
    let mut names: Vec<Vec<char>> = Vec::new();
    let mut cur: Vec<char> = Vec::new();
    let mut i: usize = 0;
    while i < chars.len()
        invariant
            i <= chars.len(),
            split_segments(chars@.take(i as int)).len() >= 1,
            names_view(names@) == apply_segments(
                Seq::empty(),
                split_segments(chars@.take(i as int)).drop_last(),
            ),
            cur@ == split_segments(chars@.take(i as int)).last(),
        decreases chars.len() - i,
    {
        let c = chars[i];
        proof {
            let s = chars@.take(i + 1);
            let before = split_segments(chars@.take(i as int));
            assert(s.drop_last() =~= chars@.take(i as int));
            if c == '/' {
                assert(split_segments(s).drop_last() =~= before);
            } else {
                assert(split_segments(s).drop_last() =~= before.drop_last());
            }
        }
        if c == '/' {
            apply_one(&mut names, cur);
            cur = Vec::new();
        } else {
            cur.push(c);
        }
        i += 1;
    }
    proof {
        assert(chars@.take(chars.len() as int) =~= chars@);
    }
    apply_one(&mut names, cur);
    let absolute = chars.len() > 0 && chars[0] == '/';
    FloppyPath { absolute, names }
}

/// Normalises a path: splits it at `/`, drops `.` and empty components,
/// and lets each `..` remove the name before it. There is no working
/// directory, so a `..` with nothing before it is absorbed.
pub fn normalize(path: &str) -> (r: FloppyPath)
    ensures
        r@ == normalized(path@),
        r@.clean(),
{
    let chars = to_chars(path);
    normalize_chars(&chars)
}

/// The names joined by `/`.
pub open spec fn join_names(names: Seq<Seq<char>>) -> Seq<char>
    decreases names.len(),
{
    if names.len() == 0 {
        Seq::empty()
    } else if names.len() == 1 {
        names[0]
    } else {
        join_names(names.drop_last()) + seq!['/'] + names.last()
    }
}

/// The text of a normalised path: `/` for the root, `/a/b`, `a/b`, or the
/// empty string for the empty relative path.
pub open spec fn rendered(p: PathView) -> Seq<char> {
    if p.absolute {
        seq!['/'] + join_names(p.names)
    } else {
        join_names(p.names)
    }
}

impl FloppyPath {
    /// The text of the path.
    pub fn render(&self) -> (r: String)
        ensures
            r@ == rendered(self@),
    {
        let mut out = String::new();
        if self.absolute {
            out.push('/');
        }
        let ghost lead = out@;
        let mut i: usize = 0;
        while i < self.names.len()
            invariant
                i <= self.names.len(),
                out@ == lead + join_names(self@.names.take(i as int)),
            decreases self.names.len() - i,
        {
            if i > 0 {
                out.push('/');
            }
            push_chars(&mut out, &self.names[i]);
            proof {
                let now = self@.names.take(i + 1);
                assert(now.drop_last() =~= self@.names.take(i as int));
            }
            i += 1;
        }
        assert(self@.names.take(self.names.len() as int) =~= self@.names);
        out
    }
}

/// A name as normalisation leaves it: not empty, neither `.` nor `..`, and
/// without a separator.
pub open spec fn clean_name(n: Seq<char>) -> bool {
    &&& n.len() > 0
    &&& !is_cur_dir(n)
    &&& !is_parent_dir(n)
    &&& forall|i: int| 0 <= i < n.len() ==> n[i] != '/'
}

/// Names as normalisation leaves them.
pub open spec fn clean_names(names: Seq<Seq<char>>) -> bool {
    forall|i: int| 0 <= i < names.len() ==> clean_name(#[trigger] names[i])
}

impl PathView {
    /// The path is in normal form: each of its names is one that
    /// normalisation leaves.
    pub open spec fn clean(self) -> bool {
        clean_names(self.names)
    }
}

/// No segment holds a separator.
pub proof fn lemma_split_no_separator(s: Seq<char>)
    ensures
        forall|k: int, i: int|
            0 <= k < split_segments(s).len() && 0 <= i < split_segments(s)[k].len()
                ==> #[trigger] split_segments(s)[k][i] != '/',
    decreases s.len(),
{
    if s.len() > 0 {
        lemma_split_no_separator(s.drop_last());
        lemma_split_nonempty(s.drop_last());
    }
}

/// Applying segments without separators to clean names leaves clean
/// names.
pub proof fn lemma_apply_clean(names: Seq<Seq<char>>, segs: Seq<Seq<char>>)
    requires
        clean_names(names),
        forall|k: int, i: int|
            0 <= k < segs.len() && 0 <= i < segs[k].len() ==> #[trigger] segs[k][i] != '/',
    ensures
        clean_names(apply_segments(names, segs)),
    decreases segs.len(),
{
    if segs.len() > 0 {
        lemma_apply_clean(names, segs.drop_last());
    }
}

/// Normalisation yields a path in normal form.
pub proof fn lemma_normalized_clean(s: Seq<char>)
    ensures
        normalized(s).clean(),
{
    lemma_split_no_separator(s);
    lemma_apply_clean(Seq::empty(), split_segments(s));
}

/// Splitting the joined text of clean names gives the names back.
pub proof fn lemma_split_of_join(names: Seq<Seq<char>>)
    requires
        clean_names(names),
        names.len() > 0,
    ensures
        split_segments(join_names(names)) == names,
        join_names(names).len() > 0,
        join_names(names)[0] == names[0][0],
    decreases names.len(),
{
    if names.len() == 1 {
        lemma_split_plain(names[0]);
    } else {
        lemma_split_of_join(names.drop_last());
        lemma_split_plain(names.last());
        lemma_split_joined(join_names(names.drop_last()), names.last());
    }
}

/// Applying clean names to nothing gives the names back.
pub proof fn lemma_apply_of_clean(names: Seq<Seq<char>>)
    requires
        clean_names(names),
    ensures
        apply_segments(Seq::empty(), names) == names,
    decreases names.len(),
{
    if names.len() > 0 {
        lemma_apply_of_clean(names.drop_last());
    }
}

/// The text of a path in normal form normalises to that path.
pub proof fn law_render_round_trip(p: PathView)
    requires
        p.clean(),
    ensures
        normalized(rendered(p)) == p,
{
    let none = Seq::<Seq<char>>::empty();
    let e = Seq::<char>::empty();
    lemma_apply_single(none, e);
    lemma_apply_of_clean(p.names);
    if p.names.len() > 0 {
        lemma_split_of_join(p.names);
    }
    if p.absolute {
        lemma_split_joined(e, join_names(p.names));
        if p.names.len() > 0 {
            lemma_apply_joined(none, seq![e], p.names);
        } else {
            lemma_apply_joined(none, seq![e], seq![e]);
        }
    }
}

/// Normalising the text of a normalised path changes nothing.
pub proof fn law_normalize_idempotent(s: Seq<char>)
    ensures
        normalized(rendered(normalized(s))) == normalized(s),
{
    lemma_normalized_clean(s);
    law_render_round_trip(normalized(s));
}

} // verus!
