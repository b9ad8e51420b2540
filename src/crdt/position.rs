use std::cmp::Ordering;
use vstd::prelude::*;

verus! {

/// Lexicographic order on paths: components are compared one by one, and a
/// path that is a strict prefix of another sorts first.
pub open spec fn path_lt(a: Seq<u32>, b: Seq<u32>) -> bool
    decreases a.len(),
{
    if a.len() == 0 {
        b.len() > 0
    } else if b.len() == 0 {
        false
    } else if a[0] != b[0] {
        a[0] < b[0]
    } else {
        path_lt(a.drop_first(), b.drop_first())
    }
}

/// Length of the longest common prefix of two paths.
pub open spec fn common_len(a: Seq<u32>, b: Seq<u32>) -> nat
    decreases a.len(),
{
    if a.len() > 0 && b.len() > 0 && a[0] == b[0] {
        1 + common_len(a.drop_first(), b.drop_first())
    } else {
        0
    }
}

/// The path generated between `lo` and `hi` (with `lo` not above `hi`).
pub open spec fn path_between(lo: Seq<u32>, hi: Seq<u32>) -> Seq<u32> {
    let k = common_len(lo, hi) as int;
    if k < lo.len() && k < hi.len() {
        if hi[k] - lo[k] > 1 {
            lo.take(k).push((lo[k] + (hi[k] - lo[k]) / 2) as u32)
        } else {
            lo.push(1)
        }
    } else if k < hi.len() {
        lo.push((hi[k] / 2) as u32)
    } else {
        lo.push(1)
    }
}

/// Mathematical value of a position: its path and its end flag.
pub struct PositionView {
    pub path: Seq<u32>,
    pub is_end: bool,
}

/// Total order on positions: the end sentinel is above every other
/// position; other positions compare by path.
pub open spec fn position_lt(a: PositionView, b: PositionView) -> bool {
    !a.is_end && (b.is_end || path_lt(a.path, b.path))
}

/// Why no position could be generated between two bounds.
#[derive(Debug, Clone, Copy, PartialEq, Eq, Structural)]
pub enum PositionError {
    /// One of the bounds is the end sentinel.
    InvalidBound,
    /// The upper bound is the lower bound followed by a single zero
    /// component: no position lies strictly between them.
    Adjacent,
}

/// What `Position::between` returns for two bounds, as views.
pub open spec fn between_result(a: PositionView, b: PositionView) -> Result<
    PositionView,
    PositionError,
> {
    if a.is_end || b.is_end {
        Err(PositionError::InvalidBound)
    } else {
        let lo = if path_lt(b.path, a.path) { b.path } else { a.path };
        let hi = if path_lt(b.path, a.path) { a.path } else { b.path };
        if hi == lo.push(0) {
            Err(PositionError::Adjacent)
        } else {
            Ok(PositionView { path: path_between(lo, hi), is_end: false })
        }
    }
}

/// Positions produced by calling `between(prev, upper)` `n` times, each call
/// taking the previous result as its lower bound; the sequence stops growing
/// at the first call that fails.
pub open spec fn between_chain(start: PositionView, upper: PositionView, n: nat) -> Seq<
    PositionView,
>
    decreases n,
{
    if n == 0 {
        seq![start]
    } else {
        let s = between_chain(start, upper, (n - 1) as nat);
        match between_result(s.last(), upper) {
            Ok(p) => s.push(p),
            Err(_) => s,
        }
    }
}

proof fn lemma_common_len(a: Seq<u32>, b: Seq<u32>)
    ensures
        common_len(a, b) <= a.len(),
        common_len(a, b) <= b.len(),
        forall|j: int| 0 <= j < common_len(a, b) ==> a[j] == b[j],
        common_len(a, b) < a.len() && common_len(a, b) < b.len() ==> a[common_len(a, b) as int]
            != b[common_len(a, b) as int],
    decreases a.len(),
{
    if a.len() > 0 && b.len() > 0 && a[0] == b[0] {
        lemma_common_len(a.drop_first(), b.drop_first());
        assert forall|j: int| 0 <= j < common_len(a, b) implies a[j] == b[j] by {
            if j > 0 {
                assert(a[j] == a.drop_first()[j - 1]);
                assert(b[j] == b.drop_first()[j - 1]);
            }
        }
    }
}

/// Two paths that agree on their first `i` components compare as their
/// remainders do.
pub proof fn lemma_lt_after_prefix(a: Seq<u32>, b: Seq<u32>, i: int)
    requires
        0 <= i <= a.len(),
        i <= b.len(),
        forall|j: int| 0 <= j < i ==> a[j] == b[j],
    ensures
        path_lt(a, b) == path_lt(a.skip(i), b.skip(i)),
    decreases i,
{
    if i == 0 {
        assert(a.skip(0) =~= a);
        assert(b.skip(0) =~= b);
    } else {
        assert(a[0] == b[0]);
        let a1 = a.drop_first();
        let b1 = b.drop_first();
        assert forall|j: int| 0 <= j < i - 1 implies a1[j] == b1[j] by {
            assert(a[j + 1] == b[j + 1]);
        }
        lemma_lt_after_prefix(a1, b1, i - 1);
        assert(a1.skip(i - 1) =~= a.skip(i));
        assert(b1.skip(i - 1) =~= b.skip(i));
    }
}

/// A path sorts before every strict extension of it.
pub proof fn lemma_prefix_lt(a: Seq<u32>, s: Seq<u32>)
    requires
        s.len() > 0,
    ensures
        path_lt(a, a + s),
{
    let b = a + s;
    lemma_lt_after_prefix(a, b, a.len() as int);
    assert(b.skip(a.len() as int) =~= s);
    assert(a.skip(a.len() as int).len() == 0);
}

/// No path is below itself.
pub proof fn lemma_path_irreflexive(a: Seq<u32>)
    ensures
        !path_lt(a, a),
    decreases a.len(),
{
    if a.len() > 0 {
        lemma_path_irreflexive(a.drop_first());
    }
}

/// Of two paths, exactly one is below the other unless they are equal.
pub proof fn lemma_path_total(a: Seq<u32>, b: Seq<u32>)
    ensures
        a == b || path_lt(a, b) || path_lt(b, a),
        !(path_lt(a, b) && path_lt(b, a)),
    decreases a.len(),
{
    if a.len() > 0 && b.len() > 0 && a[0] == b[0] {
        lemma_path_total(a.drop_first(), b.drop_first());
        if a.drop_first() == b.drop_first() {
            assert(a =~= seq![a[0]] + a.drop_first());
            assert(b =~= seq![b[0]] + b.drop_first());
        }
    } else if a.len() == 0 && b.len() == 0 {
        assert(a =~= b);
    }
}

/// The path order is transitive.
pub proof fn lemma_path_transitive(a: Seq<u32>, b: Seq<u32>, c: Seq<u32>)
    requires
        path_lt(a, b),
        path_lt(b, c),
    ensures
        path_lt(a, c),
    decreases a.len(),
{
    if a.len() > 0 && b.len() > 0 && c.len() > 0 && a[0] == b[0] && b[0] == c[0] {
        lemma_path_transitive(a.drop_first(), b.drop_first(), c.drop_first());
    }
}

/// The position order is transitive.
pub proof fn lemma_position_transitive(a: PositionView, b: PositionView, c: PositionView)
    requires
        position_lt(a, b),
        position_lt(b, c),
    ensures
        position_lt(a, c),
{
    if !c.is_end {
        lemma_path_transitive(a.path, b.path, c.path);
    }
}

/// Of two positions, exactly one is below the other unless both are end
/// sentinels or they are equal.
pub proof fn lemma_position_total(a: PositionView, b: PositionView)
    ensures
        (a.is_end && b.is_end) || a == b || position_lt(a, b) || position_lt(b, a),
        !(position_lt(a, b) && position_lt(b, a)),
        !position_lt(a, a),
{
    lemma_path_total(a.path, b.path);
    lemma_path_irreflexive(a.path);
}

/// For two positions `a < b`, neither of them the end sentinel and `b` not
/// being `a` followed by a single zero, `between(a, b)` succeeds and returns
/// a position strictly between them.
pub proof fn lemma_between_inside(a: PositionView, b: PositionView)
    requires
        !a.is_end,
        !b.is_end,
        position_lt(a, b),
        b.path != a.path.push(0),
    ensures
        between_result(a, b) is Ok,
        position_lt(a, between_result(a, b)->Ok_0),
        position_lt(between_result(a, b)->Ok_0, b),
{
    lemma_path_total(a.path, b.path);
    let lo = a.path;
    let hi = b.path;
    let x = path_between(lo, hi);
    let k = common_len(lo, hi) as int;
    lemma_common_len(lo, hi);
    lemma_lt_after_prefix(lo, hi, k);
    assert(forall|j: int| 0 <= j < k ==> x[j] == lo[j]);
    if k < lo.len() && k < hi.len() {
        assert(lo[k] < hi[k]);
        if hi[k] - lo[k] > 1 {
            lemma_lt_after_prefix(lo, x, k);
            lemma_lt_after_prefix(x, hi, k);
            assert(x.skip(k) =~= seq![x[k]]);
            assert(lo.skip(k)[0] == lo[k]);
            assert(hi.skip(k)[0] == hi[k]);
            assert(x[k] == lo[k] + (hi[k] - lo[k]) / 2);
        } else {
            lemma_prefix_lt(lo, seq![1u32]);
            assert(lo + seq![1u32] =~= x);
            lemma_lt_after_prefix(x, hi, k);
            assert(x.skip(k)[0] == lo[k]);
            assert(hi.skip(k)[0] == hi[k]);
            assert(x.skip(k).len() > 0);
            assert(path_lt(x.skip(k), hi.skip(k)));
        }
    } else if k < hi.len() {
        lemma_prefix_lt(lo, seq![(hi[k] / 2) as u32]);
        assert(lo + seq![(hi[k] / 2) as u32] =~= x);
        lemma_lt_after_prefix(x, hi, k);
        assert(x.skip(k) =~= seq![x[k]]);
        assert(hi.skip(k)[0] == hi[k]);
        if hi[k] == 0 {
            if hi.len() == k + 1 {
                assert(hi =~= lo.push(0));
            }
            assert(hi.skip(k).drop_first().len() > 0);
            assert(x.skip(k).drop_first().len() == 0);
            assert(path_lt(x.skip(k).drop_first(), hi.skip(k).drop_first()));
        }
        assert(path_lt(x.skip(k), hi.skip(k)));
    } else {
        assert(hi.skip(k).len() == 0);
        if k < lo.len() {
            assert(lo.skip(k).len() > 0);
        }
        assert(false);
    }
}

/// Repeatedly generating a position between the previous one and a fixed
/// upper bound gives a strictly increasing sequence, every element of which
/// lies strictly below the upper bound.
pub proof fn lemma_between_chain(start: PositionView, upper: PositionView, n: nat)
    requires
        !upper.is_end,
        position_lt(start, upper),
    ensures
        between_chain(start, upper, n).len() >= 1,
        forall|i: int, j: int|
            0 <= i < j < between_chain(start, upper, n).len() ==> position_lt(
                #[trigger] between_chain(start, upper, n)[i],
                #[trigger] between_chain(start, upper, n)[j],
            ),
        forall|i: int|
            0 <= i < between_chain(start, upper, n).len() ==> position_lt(
                #[trigger] between_chain(start, upper, n)[i],
                upper,
            ),
    decreases n,
{
    if n > 0 {
        let s = between_chain(start, upper, (n - 1) as nat);
        lemma_between_chain(start, upper, (n - 1) as nat);
        let last = s.last();
        assert(position_lt(last, upper));
        if upper.path != last.path.push(0) {
            lemma_between_inside(last, upper);
            let p = between_result(last, upper)->Ok_0;
            let t = s.push(p);
            assert(t == between_chain(start, upper, n));
            assert forall|i: int, j: int| 0 <= i < j < t.len() implies position_lt(
                t[i],
                t[j],
            ) by {
                if j == t.len() - 1 && i < s.len() - 1 {
                    lemma_position_transitive(s[i], last, p);
                }
            }
        } else {
            lemma_path_total(last.path, upper.path);
            assert(between_result(last, upper) is Err);
        }
    }
}

/// Common bound checks on positions.
pub trait PositionBounds {
    /// Whether this is the start sentinel.
    fn is_start(&self) -> bool;

    /// Whether this is the end sentinel.
    fn is_end(&self) -> bool;
}

/// A character's identity in the document: a path of integers, or the end
/// sentinel.
#[derive(Debug, Clone)]
pub struct Position {
    path: Vec<u32>,
    is_end: bool,
}

impl View for Position {
    type V = PositionView;

    closed spec fn view(&self) -> PositionView {
        PositionView { path: self.path@, is_end: self.is_end }
    }
}

impl Position {
    /// A copy of this position with the same view.
    pub(crate) fn duplicate(&self) -> (r: Position)
        ensures
            r@ == self@,
    {
        let mut path: Vec<u32> = Vec::new();
        let mut i: usize = 0;
        while i < self.path.len()
            invariant
                i <= self.path.len(),
                path@ == self.path@.take(i as int),
            decreases self.path.len() - i,
        {
            path.push(self.path[i]);
            i = i + 1;
            assert(path@ =~= self.path@.take(i as int));
        }
        assert(self.path@.take(i as int) =~= self.path@);
        Position { path, is_end: self.is_end }
    }

    /// A position with the given path.
    pub fn new(path: Vec<u32>) -> (r: Self)
        ensures
            r@ == (PositionView { path: path@, is_end: false }),
    {
        Position { path, is_end: false }
    }

    /// The position's path.
    pub fn path(&self) -> (r: &Vec<u32>)
        ensures
            r@ == self@.path,
    {
        &self.path
    }

    /// The start sentinel: the empty path.
    pub fn start() -> (r: Self)
        ensures
            r@ == (PositionView { path: Seq::<u32>::empty(), is_end: false }),
    {
        Position { path: Vec::new(), is_end: false }
    }

    /// The end sentinel, above every other position.
    pub fn end() -> (r: Self)
        ensures
            r@ == (PositionView { path: Seq::<u32>::empty(), is_end: true }),
    {
        Position { path: Vec::new(), is_end: true }
    }

    /// Length of the longest common prefix of two paths.
    fn common_prefix_len(a: &Vec<u32>, b: &Vec<u32>) -> (k: usize)
        ensures
            k == common_len(a@, b@),
    {
        let mut k: usize = 0;
        assert(a@.skip(0) =~= a@);
        assert(b@.skip(0) =~= b@);
        while k < a.len() && k < b.len() && a[k] == b[k]
            invariant
                k <= a.len(),
                k <= b.len(),
                common_len(a@, b@) == k + common_len(a@.skip(k as int), b@.skip(k as int)),
            decreases a.len() - k,
        {
            assert(a@.skip(k as int).drop_first() =~= a@.skip(k + 1));
            assert(b@.skip(k as int).drop_first() =~= b@.skip(k + 1));
            k = k + 1;
        }
        k
    }

    /// Compares two paths in the path order.
    fn compare_paths(a: &Vec<u32>, b: &Vec<u32>) -> (r: Ordering)
        ensures
            (r == Ordering::Less) == path_lt(a@, b@),
            (r == Ordering::Greater) == path_lt(b@, a@),
            (r == Ordering::Equal) == (a@ == b@),
    {
        let k = Self::common_prefix_len(a, b);
        proof {
            lemma_common_len(a@, b@);
            lemma_lt_after_prefix(a@, b@, k as int);
            lemma_lt_after_prefix(b@, a@, k as int);
            lemma_path_total(a@, b@);
            lemma_path_irreflexive(a@);
        }
        if k < a.len() && k < b.len() {
            if a[k] < b[k] {
                Ordering::Less
            } else {
                Ordering::Greater
            }
        } else if k < b.len() {
            Ordering::Less
        } else if k < a.len() {
            Ordering::Greater
        } else {
            assert(a@ =~= b@);
            Ordering::Equal
        }
    }

    /// The path between two ordered paths.
    fn between_paths(lo: &Vec<u32>, hi: &Vec<u32>) -> (r: Result<Vec<u32>, PositionError>)
        requires
            !path_lt(hi@, lo@),
        ensures
            hi@ == lo@.push(0) ==> r == Err::<Vec<u32>, PositionError>(PositionError::Adjacent),
            hi@ != lo@.push(0) ==> r is Ok && r->Ok_0@ == path_between(lo@, hi@),
    {
        let k = Self::common_prefix_len(lo, hi);
        proof {
            lemma_common_len(lo@, hi@);
            lemma_lt_after_prefix(hi@, lo@, k as int);
        }
        let mut new_path: Vec<u32> = Vec::new();
        let mut i: usize = 0;
        while i < k
            invariant
                i <= k,
                k <= lo.len(),
                new_path@ == lo@.take(i as int),
            decreases k - i,
        {
            new_path.push(lo[i]);
            i = i + 1;
            assert(new_path@ =~= lo@.take(i as int));
        }
        if k < lo.len() && k < hi.len() {
            let l = lo[k];
            let r = hi[k];
            assert(hi@.skip(k as int)[0] == r);
            assert(lo@.skip(k as int)[0] == l);
            if r - l > 1 {
                new_path.push(l + (r - l) / 2);
            } else {
                while i < lo.len()
                    invariant
                        k <= i <= lo.len(),
                        new_path@ == lo@.take(i as int),
                    decreases lo.len() - i,
                {
                    new_path.push(lo[i]);
                    i = i + 1;
                    assert(new_path@ =~= lo@.take(i as int));
                }
                assert(lo@.take(i as int) =~= lo@);
                new_path.push(1);
            }
        } else if k < hi.len() {
            let r = hi[k];
            assert(lo@.take(k as int) =~= lo@);
            if r == 0 && hi.len() == k + 1 {
                assert(hi@ =~= lo@.push(0));
                return Err(PositionError::Adjacent);
            }
            new_path.push(r / 2);
            assert(hi@ != lo@.push(0));
        } else {
            if k < lo.len() {
                assert(hi@.skip(k as int).len() == 0);
                assert(false);
            }
            assert(lo@.take(k as int) =~= lo@);
            new_path.push(1);
        }
        Ok(new_path)
    }

    /// Generates a position strictly between two positions, taken in either
    /// order. Fails with `InvalidBound` when either is the end sentinel, and
    /// with `Adjacent` when nothing fits between them.
    pub fn between(left: &Position, right: &Position) -> (r: Result<Position, PositionError>)
        ensures
            match r {
                Ok(p) => between_result(left@, right@) == Ok::<PositionView, PositionError>(p@),
                Err(e) => between_result(left@, right@) == Err::<PositionView, PositionError>(e),
            },
            !left@.is_end && !right@.is_end && position_lt(left@, right@) && right@.path
                != left@.path.push(0) ==> r is Ok && position_lt(left@, r->Ok_0@)
                && position_lt(r->Ok_0@, right@),
    {
        if left.is_end || right.is_end {
            return Err(PositionError::InvalidBound);
        }
        proof {
            lemma_path_total(left.path@, right.path@);
            if position_lt(left@, right@) && right@.path != left@.path.push(0) {
                lemma_between_inside(left@, right@);
            }
        }
        let swapped = match Self::compare_paths(&left.path, &right.path) {
            Ordering::Greater => true,
            _ => false,
        };
        let res = if swapped {
            Self::between_paths(&right.path, &left.path)
        } else {
            Self::between_paths(&left.path, &right.path)
        };
        match res {
            Ok(path) => Ok(Position { path, is_end: false }),
            Err(e) => Err(e),
        }
    }
}

impl PositionBounds for Position {
    fn is_start(&self) -> (r: bool)
        ensures
            r == (!self@.is_end && self@.path.len() == 0),
    {
        !self.is_end && self.path.len() == 0
    }

    fn is_end(&self) -> (r: bool)
        ensures
            r == self@.is_end,
    {
        self.is_end
    }
}

impl PartialEq for Position {
    fn eq(&self, other: &Position) -> (r: bool)
        ensures
            r == (self@ == other@),
    {
        if self.is_end != other.is_end {
            return false;
        }
        match Self::compare_paths(&self.path, &other.path) {
            Ordering::Equal => true,
            _ => false,
        }
    }
}

impl vstd::std_specs::cmp::PartialEqSpecImpl for Position {
    open spec fn obeys_eq_spec() -> bool {
        true
    }

    open spec fn eq_spec(&self, other: &Position) -> bool {
        self@ == other@
    }
}

impl Eq for Position {

}

/// Ordering of two positions as views.
pub open spec fn position_cmp(a: PositionView, b: PositionView) -> Ordering {
    if position_lt(a, b) {
        Ordering::Less
    } else if position_lt(b, a) {
        Ordering::Greater
    } else {
        Ordering::Equal
    }
}

impl PartialOrd for Position {
    fn partial_cmp(&self, other: &Position) -> (r: Option<Ordering>)
        ensures
            r == Some(position_cmp(self@, other@)),
    {
        proof {
            lemma_position_total(self@, other@);
        }
        if self.is_end && other.is_end {
            Some(Ordering::Equal)
        } else if self.is_end {
            Some(Ordering::Greater)
        } else if other.is_end {
            Some(Ordering::Less)
        } else {
            Some(Self::compare_paths(&self.path, &other.path))
        }
    }
}

impl vstd::std_specs::cmp::PartialOrdSpecImpl for Position {
    open spec fn obeys_partial_cmp_spec() -> bool {
        true
    }

    open spec fn partial_cmp_spec(&self, other: &Position) -> Option<Ordering> {
        Some(position_cmp(self@, other@))
    }
}

} // verus!
