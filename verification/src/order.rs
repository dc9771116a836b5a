//! The orders that sorted collections keep: characters by code point,
//! sequences lexicographically, pairs and options by their parts.
use vstd::prelude::*;

verus! {

/// The outcome of comparing two values.
#[derive(Clone, Copy, Debug, PartialEq, Eq, Structural)]
pub enum Order {
    Less,
    Equal,
    Greater,
}

/// A strict total order.
pub trait Ordered: Sized {
    /// Whether `self` comes strictly before `other`.
    spec fn before(self, other: Self) -> bool;

    proof fn irreflexive(a: Self)
        ensures
            !a.before(a),
    ;

    proof fn transitive(a: Self, b: Self, c: Self)
        requires
            a.before(b),
            b.before(c),
        ensures
            a.before(c),
    ;

    proof fn total(a: Self, b: Self)
        ensures
            a == b || a.before(b) || b.before(a),
    ;
}

/// Whether `o` says how `a` and `b` compare.
pub open spec fn tells<T: Ordered>(o: Order, a: T, b: T) -> bool {
    match o {
        Order::Less => a.before(b),
        Order::Equal => a == b,
        Order::Greater => b.before(a),
    }
}

impl Ordered for char {
    open spec fn before(self, other: Self) -> bool {
        (self as int) < (other as int)
    }

    proof fn irreflexive(a: Self) {
    }

    proof fn transitive(a: Self, b: Self, c: Self) {
    }

    proof fn total(a: Self, b: Self) {
    }
}

impl Ordered for int {
    open spec fn before(self, other: Self) -> bool {
        self < other
    }

    proof fn irreflexive(a: Self) {
    }

    proof fn transitive(a: Self, b: Self, c: Self) {
    }

    proof fn total(a: Self, b: Self) {
    }
}

impl<A: Ordered, B: Ordered> Ordered for (A, B) {
    open spec fn before(self, other: Self) -> bool {
        self.0.before(other.0) || (self.0 == other.0 && self.1.before(other.1))
    }

    proof fn irreflexive(a: Self) {
        A::irreflexive(a.0);
        B::irreflexive(a.1);
    }

    proof fn transitive(a: Self, b: Self, c: Self) {
        if a.0.before(b.0) && b.0.before(c.0) {
            A::transitive(a.0, b.0, c.0);
        } else if a.0 == b.0 && b.0 == c.0 {
            B::transitive(a.1, b.1, c.1);
        }
    }

    proof fn total(a: Self, b: Self) {
        A::total(a.0, b.0);
        B::total(a.1, b.1);
    }
}

impl<T: Ordered> Ordered for Option<T> {
    open spec fn before(self, other: Self) -> bool {
        match (self, other) {
            (None, Some(_)) => true,
            (Some(a), Some(b)) => a.before(b),
            _ => false,
        }
    }

    proof fn irreflexive(a: Self) {
        if a is Some {
            T::irreflexive(a->0);
        }
    }

    proof fn transitive(a: Self, b: Self, c: Self) {
        if a is Some {
            T::transitive(a->0, b->0, c->0);
        }
    }

    proof fn total(a: Self, b: Self) {
        if a is Some && b is Some {
            T::total(a->0, b->0);
        }
    }
}

/// Whether `a` and `b` agree before position `k`, where `a` either ends or
/// holds the smaller element.
pub open spec fn differs_at<T: Ordered>(a: Seq<T>, b: Seq<T>, k: int) -> bool {
    &&& 0 <= k <= a.len()
    &&& k < b.len()
    &&& forall|i: int| 0 <= i < k ==> #[trigger] a[i] == b[i]
    &&& k == a.len() || a[k].before(b[k])
}

proof fn lemma_first_difference<T: Ordered>(a: Seq<T>, b: Seq<T>, k: int)
    requires
        0 <= k <= a.len(),
        k <= b.len(),
        forall|i: int| 0 <= i < k ==> #[trigger] a[i] == b[i],
    ensures
        a == b || (exists|i: int| #[trigger] differs_at(a, b, i)) || (exists|i: int| #[trigger]
            differs_at(b, a, i)),
    decreases a.len() - k,
{
    if k == a.len() && k == b.len() {
        assert(a =~= b);
    } else if k == a.len() {
        assert(differs_at(a, b, k));
    } else if k == b.len() {
        assert(differs_at(b, a, k));
    } else {
        T::total(a[k], b[k]);
        if a[k] == b[k] {
            lemma_first_difference(a, b, k + 1);
        } else if a[k].before(b[k]) {
            assert(differs_at(a, b, k));
        } else {
            assert(differs_at(b, a, k));
        }
    }
}

/// Lexicographic order: a proper prefix comes first, and otherwise the first
/// difference decides.
impl<T: Ordered> Ordered for Seq<T> {
    open spec fn before(self, other: Self) -> bool {
        exists|k: int| #[trigger] differs_at(self, other, k)
    }

    proof fn irreflexive(a: Self) {
        if a.before(a) {
            let k = choose|k: int| #[trigger] differs_at(a, a, k);
            T::irreflexive(a[k]);
        }
    }

    proof fn transitive(a: Self, b: Self, c: Self) {
        let i = choose|k: int| #[trigger] differs_at(a, b, k);
        let j = choose|k: int| #[trigger] differs_at(b, c, k);
        let k = if i < j {
            i
        } else {
            j
        };
        assert forall|m: int| 0 <= m < k implies #[trigger] a[m] == c[m] by {
            assert(a[m] == b[m]);
            assert(b[m] == c[m]);
        }
        if k < a.len() {
            if i == j {
                T::transitive(a[k], b[k], c[k]);
            } else if i < j {
                assert(b[k] == c[k]);
            } else {
                assert(a[k] == b[k]);
            }
        }
        assert(differs_at(a, c, k));
    }

    proof fn total(a: Self, b: Self) {
        lemma_first_difference(a, b, 0);
    }
}

/// At most one of the three outcomes holds of two values.
pub proof fn lemma_tells_unique<T: Ordered>(o: Order, p: Order, a: T, b: T)
    requires
        tells(o, a, b),
        tells(p, a, b),
    ensures
        o == p,
{
    T::irreflexive(a);
    if a.before(b) && b.before(a) {
        T::transitive(a, b, a);
    }
}

/// `first`, or `second` when `first` finds no difference.
pub open spec fn combined(first: Order, second: Order) -> Order {
    if first == Order::Equal {
        second
    } else {
        first
    }
}

/// Pairs compare by their first parts, and then by their second.
pub proof fn lemma_pair<A: Ordered, B: Ordered>(
    first: Order,
    second: Order,
    a: A,
    b: A,
    c: B,
    d: B,
)
    requires
        tells(first, a, b),
        tells(second, c, d),
    ensures
        tells(combined(first, second), (a, c), (b, d)),
{
}

/// `first`, or `second` when `first` finds no difference.
pub fn then_by(first: Order, second: Order) -> (r: Order)
    ensures
        r == combined(first, second),
{
    match first {
        Order::Equal => second,
        _ => first,
    }
}

/// Compares two strings lexicographically by code point.
pub fn compare_text(a: &str, b: &str) -> (r: Order)
    ensures
        tells(r, a@, b@),
{
    let ac = crate::text::chars_of(a);
    let bc = crate::text::chars_of(b);
    let mut k: usize = 0;
    while k < ac.len() && k < bc.len()
        invariant
            ac@ == a@,
            bc@ == b@,
            k <= a@.len(),
            k <= b@.len(),
            forall|i: int| 0 <= i < k ==> #[trigger] a@[i] == b@[i],
        decreases a@.len() - k,
    {
        if ac[k] < bc[k] {
            assert(differs_at(a@, b@, k as int));
            return Order::Less;
        }
        if bc[k] < ac[k] {
            assert(differs_at(b@, a@, k as int));
            return Order::Greater;
        }
        k += 1;
    }
    if k < bc.len() {
        assert(differs_at(a@, b@, k as int));
        Order::Less
    } else if k < ac.len() {
        assert(differs_at(b@, a@, k as int));
        Order::Greater
    } else {
        assert(a@ =~= b@);
        Order::Equal
    }
}

// ---------------------------------------------------------------------------
// Sorted sequences
// ---------------------------------------------------------------------------

/// Whether `s` is strictly increasing.
pub open spec fn sorted<T: Ordered>(s: Seq<T>) -> bool {
    forall|i: int, j: int| 0 <= i < j < s.len() ==> (#[trigger] s[i]).before(#[trigger] s[j])
}

/// Where `x` belongs in `s`: everything before position `p` is smaller, and
/// nothing from `p` on is.
pub open spec fn splits_at<T: Ordered>(s: Seq<T>, x: T, p: int) -> bool {
    &&& 0 <= p <= s.len()
    &&& forall|i: int| 0 <= i < p ==> (#[trigger] s[i]).before(x)
    &&& forall|i: int| p <= i < s.len() ==> #[trigger] s[i] == x || x.before(s[i])
}

/// A sorted sequence holds nothing twice.
pub proof fn lemma_sorted_distinct<T: Ordered>(s: Seq<T>)
    requires
        sorted(s),
    ensures
        s.no_duplicates(),
{
    assert forall|i: int, j: int| 0 <= i < s.len() && 0 <= j < s.len() && i != j implies s[i]
        != s[j] by {
        if i < j {
            T::irreflexive(s[i]);
        } else {
            T::irreflexive(s[j]);
        }
    }
}

/// Inserting an absent element where it belongs keeps a sequence sorted.
pub proof fn lemma_insert_sorted<T: Ordered>(s: Seq<T>, x: T, p: int)
    requires
        sorted(s),
        splits_at(s, x, p),
        p < s.len() ==> s[p] != x,
    ensures
        sorted(s.insert(p, x)),
        !s.contains(x),
        s.insert(p, x).to_set() == s.to_set().insert(x),
{
    let t = s.insert(p, x);
    assert forall|i: int| p <= i < s.len() implies x.before(#[trigger] s[i]) by {
        if s[i] == x {
            if p < i {
                assert(s[p].before(s[i]));
                T::irreflexive(x);
                if x.before(s[p]) {
                    T::transitive(x, s[p], x);
                }
            }
        }
    }
    assert forall|i: int, j: int| 0 <= i < j < t.len() implies (#[trigger] t[i]).before(
        #[trigger] t[j],
    ) by {
        let a = if i < p {
            i
        } else {
            i - 1
        };
        let b = if j < p {
            j
        } else {
            j - 1
        };
        if i == p {
            assert(x.before(s[b]));
        } else if j == p {
            assert(s[a].before(x));
        } else {
            assert(s[a].before(s[b]));
        }
    }
    assert forall|i: int| 0 <= i < s.len() implies s[i] != x by {
        T::irreflexive(x);
        if i < p {
            assert(s[i].before(x));
        } else {
            assert(x.before(s[i]));
        }
    }
    assert(t.to_set() =~= s.to_set().insert(x)) by {
        assert(t[p] == x);
        assert forall|y: T| s.contains(y) implies t.contains(y) by {
            let i = choose|i: int| 0 <= i < s.len() && s[i] == y;
            if i < p {
                assert(t[i] == y);
            } else {
                assert(t[i + 1] == y);
            }
        }
        assert forall|y: T| t.contains(y) implies s.contains(y) || y == x by {
            let i = choose|i: int| 0 <= i < t.len() && t[i] == y;
            if i < p {
                assert(s[i] == y);
            } else if i > p {
                assert(s[i - 1] == y);
            }
        }
    }
}

/// Two sorted sequences with the same elements are the same sequence.
pub proof fn lemma_sorted_unique<T: Ordered>(s: Seq<T>, t: Seq<T>)
    requires
        sorted(s),
        sorted(t),
        forall|x: T| s.contains(x) == t.contains(x),
    ensures
        s == t,
    decreases s.len(),
{
    if s.len() == 0 {
        if t.len() > 0 {
            assert(t.contains(t[0]));
            assert(s.contains(t[0]));
        }
        assert(s =~= t);
    } else {
        assert(s.contains(s[0]));
        assert(t.contains(s[0]));
        let j = choose|j: int| 0 <= j < t.len() && t[j] == s[0];
        assert(t.contains(t[0]));
        assert(s.contains(t[0]));
        let i = choose|i: int| 0 <= i < s.len() && s[i] == t[0];
        T::irreflexive(s[0]);
        if j > 0 && i > 0 {
            assert(t[0].before(t[j]));
            assert(s[0].before(s[i]));
            T::transitive(s[0], t[0], s[0]);
        }
        assert(s[0] == t[0]);
        let s1 = s.drop_first();
        let t1 = t.drop_first();
        assert forall|x: T| s1.contains(x) == t1.contains(x) by {
            if s1.contains(x) {
                let a = choose|a: int| 0 <= a < s1.len() && s1[a] == x;
                assert(s[a + 1] == x);
                assert(s[0].before(s[a + 1]));
                assert(t.contains(x));
                let b = choose|b: int| 0 <= b < t.len() && t[b] == x;
                assert(b > 0);
                assert(t1[b - 1] == x);
            }
            if t1.contains(x) {
                let a = choose|a: int| 0 <= a < t1.len() && t1[a] == x;
                assert(t[a + 1] == x);
                assert(t[0].before(t[a + 1]));
                assert(s.contains(x));
                let b = choose|b: int| 0 <= b < s.len() && s[b] == x;
                assert(b > 0);
                assert(s1[b - 1] == x);
            }
        }
        assert(sorted(s1)) by {
            assert forall|a: int, b: int| 0 <= a < b < s1.len() implies (#[trigger] s1[a]).before(
                #[trigger] s1[b],
            ) by {
                assert(s[a + 1].before(s[b + 1]));
            }
        }
        assert(sorted(t1)) by {
            assert forall|a: int, b: int| 0 <= a < b < t1.len() implies (#[trigger] t1[a]).before(
                #[trigger] t1[b],
            ) by {
                assert(t[a + 1].before(t[b + 1]));
            }
        }
        lemma_sorted_unique(s1, t1);
        assert(s =~= seq![s[0]] + s1);
        assert(t =~= seq![t[0]] + t1);
    }
}

// ---------------------------------------------------------------------------
// Sorted sets
// ---------------------------------------------------------------------------

/// `s` with `x` added in the place that the order gives it; nothing changes
/// when it is there already.
pub open spec fn added<T: Ordered>(s: Seq<T>, x: T) -> Seq<T>
    decreases s.len(),
{
    if s.len() == 0 {
        seq![x]
    } else if s[0] == x {
        s
    } else if s[0].before(x) {
        seq![s[0]] + added(s.drop_first(), x)
    } else {
        seq![x] + s
    }
}

/// The elements of `s`, sorted and without repetition.
pub open spec fn collected<T: Ordered>(s: Seq<T>) -> Seq<T>
    decreases s.len(),
{
    if s.len() == 0 {
        s
    } else {
        added(collected(s.drop_last()), s.last())
    }
}

/// The shape of an addition around the position where the element belongs.
pub proof fn lemma_added_at<T: Ordered>(s: Seq<T>, x: T, p: int)
    requires
        0 <= p <= s.len(),
        forall|i: int| 0 <= i < p ==> (#[trigger] s[i]).before(x),
        p < s.len() ==> s[p] == x || x.before(s[p]),
    ensures
        added(s, x) == (if p < s.len() && s[p] == x {
            s
        } else {
            s.insert(p, x)
        }),
    decreases s.len(),
{
    T::irreflexive(x);
    if s.len() == 0 {
        assert(added(s, x) =~= s.insert(0, x));
    } else if p == 0 {
        if s[0] != x {
            if s[0].before(x) {
                T::transitive(x, s[0], x);
            }
            assert(added(s, x) =~= s.insert(0, x));
        }
    } else {
        assert(s[0].before(x));
        let t = s.drop_first();
        assert forall|i: int| 0 <= i < p - 1 implies (#[trigger] t[i]).before(x) by {
            assert(s[i + 1].before(x));
        }
        lemma_added_at(t, x, p - 1);
        if p < s.len() && s[p] == x {
            assert(added(s, x) =~= s);
        } else {
            assert(added(s, x) =~= s.insert(p, x));
        }
    }
}

proof fn lemma_place<T: Ordered>(s: Seq<T>, x: T, from: int) -> (p: int)
    requires
        sorted(s),
        0 <= from <= s.len(),
        forall|i: int| 0 <= i < from ==> (#[trigger] s[i]).before(x),
    ensures
        splits_at(s, x, p),
    decreases s.len() - from,
{
    if from == s.len() {
        from
    } else {
        T::total(s[from], x);
        if s[from].before(x) {
            lemma_place(s, x, from + 1)
        } else {
            assert forall|i: int| from <= i < s.len() implies #[trigger] s[i] == x || x.before(
                s[i],
            ) by {
                if i > from {
                    assert(s[from].before(s[i]));
                    if s[from] != x {
                        T::transitive(x, s[from], s[i]);
                    }
                }
            }
            from
        }
    }
}

/// Adding keeps a sequence sorted, and adds just the one element.
pub proof fn lemma_added<T: Ordered>(s: Seq<T>, x: T)
    requires
        sorted(s),
    ensures
        sorted(added(s, x)),
        forall|y: T| #[trigger] added(s, x).contains(y) <==> (s.contains(y) || y == x),
{
    let p = lemma_place(s, x, 0);
    lemma_added_at(s, x, p);
    if p < s.len() && s[p] == x {
        assert(s.contains(x));
    } else {
        lemma_insert_sorted(s, x, p);
        let t = s.insert(p, x);
        assert forall|y: T| #[trigger] t.contains(y) <==> (s.contains(y) || y == x) by {
            assert(t.to_set().contains(y) == s.to_set().insert(x).contains(y));
        }
    }
}

/// Collecting sorts, and keeps exactly the elements that were there.
pub proof fn lemma_collected<T: Ordered>(s: Seq<T>)
    ensures
        sorted(collected(s)),
        forall|y: T| #[trigger] collected(s).contains(y) <==> s.contains(y),
    decreases s.len(),
{
    if s.len() > 0 {
        let d = s.drop_last();
        lemma_collected(d);
        lemma_added(collected(d), s.last());
        assert forall|y: T| #[trigger] collected(s).contains(y) <==> s.contains(y) by {
            if s.contains(y) {
                let i = choose|i: int| 0 <= i < s.len() && s[i] == y;
                if i < s.len() - 1 {
                    assert(d[i] == y);
                    assert(d.contains(y));
                    assert(collected(d).contains(y));
                }
            }
            if collected(s).contains(y) {
                if collected(d).contains(y) {
                    assert(d.contains(y));
                    let i = choose|i: int| 0 <= i < d.len() && d[i] == y;
                    assert(s[i] == y);
                } else {
                    assert(s[s.len() - 1] == y);
                }
            }
        }
    }
}

/// A type whose values are compared by a key.
pub trait Comparable: Sized {
    type Key: Ordered;

    /// What the value is compared by.
    spec fn key(&self) -> Self::Key;

    fn compare(&self, other: &Self) -> (r: Order)
        ensures
            tells(r, self.key(), other.key()),
    ;
}

/// The keys of a list of values.
pub open spec fn keys<T: Comparable>(list: Seq<T>) -> Seq<T::Key> {
    list.map_values(|t: T| t.key())
}

/// `false` comes before `true`.
impl Comparable for bool {
    type Key = int;

    open spec fn key(&self) -> int {
        if *self {
            1
        } else {
            0
        }
    }

    fn compare(&self, other: &Self) -> (r: Order) {
        let r = if *self == *other {
            Order::Equal
        } else if *other {
            Order::Less
        } else {
            Order::Greater
        };
        assert(tells::<int>(r, self.key(), other.key()));
        r
    }
}

impl Comparable for usize {
    type Key = int;

    open spec fn key(&self) -> int {
        *self as int
    }

    fn compare(&self, other: &Self) -> (r: Order) {
        let r = if *self == *other {
            Order::Equal
        } else if *self < *other {
            Order::Less
        } else {
            Order::Greater
        };
        assert(tells::<int>(r, self.key(), other.key()));
        r
    }
}

impl Comparable for String {
    type Key = Seq<char>;

    open spec fn key(&self) -> Seq<char> {
        self@
    }

    fn compare(&self, other: &Self) -> (r: Order) {
        compare_text(self.as_str(), other.as_str())
    }
}

impl<A: Comparable, B: Comparable> Comparable for (A, B) {
    type Key = (A::Key, B::Key);

    open spec fn key(&self) -> (A::Key, B::Key) {
        (self.0.key(), self.1.key())
    }

    fn compare(&self, other: &Self) -> (r: Order) {
        let first = self.0.compare(&other.0);
        let second = self.1.compare(&other.1);
        let r = then_by(first, second);
        proof {
            lemma_pair(first, second, self.0.key(), other.0.key(), self.1.key(), other.1.key());
            assert(tells::<(A::Key, B::Key)>(r, self.key(), other.key()));
        }
        r
    }
}

impl<T: Comparable> Comparable for Option<T> {
    type Key = Option<T::Key>;

    open spec fn key(&self) -> Option<T::Key> {
        match self {
            Some(t) => Some(t.key()),
            None => None,
        }
    }

    fn compare(&self, other: &Self) -> (r: Order) {
        let r = match (self, other) {
            (None, None) => Order::Equal,
            (None, Some(_)) => Order::Less,
            (Some(_), None) => Order::Greater,
            (Some(a), Some(b)) => a.compare(b),
        };
        assert(tells::<Option<T::Key>>(r, self.key(), other.key()));
        r
    }
}

impl<T: Comparable> Comparable for Vec<T> {
    type Key = Seq<T::Key>;

    open spec fn key(&self) -> Seq<T::Key> {
        keys(self@)
    }

    fn compare(&self, other: &Self) -> (r: Order) {
        let ghost a = keys(self@);
        let ghost b = keys(other@);
        let mut k: usize = 0;
        while k < self.len() && k < other.len()
            invariant
                a == keys(self@),
                b == keys(other@),
                k <= self@.len(),
                k <= other@.len(),
                forall|i: int| 0 <= i < k ==> #[trigger] a[i] == b[i],
            decreases self@.len() - k,
        {
            match self[k].compare(&other[k]) {
                Order::Less => {
                    assert(differs_at(a, b, k as int));
                    return Order::Less;
                },
                Order::Greater => {
                    assert(differs_at(b, a, k as int));
                    return Order::Greater;
                },
                Order::Equal => {
                    k += 1;
                },
            }
        }
        if k < other.len() {
            assert(differs_at(a, b, k as int));
            Order::Less
        } else if k < self.len() {
            assert(differs_at(b, a, k as int));
            Order::Greater
        } else {
            assert(a =~= b);
            Order::Equal
        }
    }
}

/// A set of values in the order of their keys, each key once.
#[derive(Debug, PartialEq, Eq)]
pub struct SortedSet<T: Comparable> {
    items: Vec<T>,
}

impl<T: Comparable> View for SortedSet<T> {
    type V = Seq<T::Key>;

    closed spec fn view(&self) -> Seq<T::Key> {
        keys(self.items@)
    }
}

impl<T: Comparable> SortedSet<T> {
    /// The keys are in strictly increasing order.
    #[verifier::type_invariant]
    pub open spec fn wf(self) -> bool {
        sorted(self@)
    }

    /// The values, in the order of their keys.
    pub closed spec fn values(self) -> Seq<T> {
        self.items@
    }

    /// The values have the keys of the set.
    pub proof fn lemma_values(self)
        ensures
            keys(self.values()) == self@,
    {
    }

    /// The empty set.
    pub fn new() -> (r: Self)
        ensures
            r@ == Seq::<T::Key>::empty(),
    {
        let items: Vec<T> = Vec::new();
        assert(keys(items@) =~= Seq::<T::Key>::empty());
        SortedSet { items }
    }

    /// The number of elements.
    pub fn len(&self) -> (n: usize)
        ensures
            n == self@.len(),
    {
        self.items.len()
    }

    /// Whether there is no element.
    pub fn is_empty(&self) -> (r: bool)
        ensures
            r == (self@.len() == 0),
    {
        self.items.len() == 0
    }

    /// The `i`-th element.
    pub fn get(&self, i: usize) -> (r: &T)
        requires
            i < self@.len(),
        ensures
            r.key() == self@[i as int],
            *r == self.values()[i as int],
    {
        &self.items[i]
    }

    /// The position where `x` belongs.
    fn place(items: &Vec<T>, x: &T) -> (n: usize)
        ensures
            n <= items@.len(),
            forall|i: int| 0 <= i < n ==> (#[trigger] keys(items@)[i]).before(x.key()),
            n < items@.len() ==> keys(items@)[n as int] == x.key() || x.key().before(
                keys(items@)[n as int],
            ),
    {
        let mut n: usize = 0;
        while n < items.len()
            invariant
                n <= items@.len(),
                forall|i: int| 0 <= i < n ==> (#[trigger] keys(items@)[i]).before(x.key()),
            decreases items@.len() - n,
        {
            match items[n].compare(x) {
                Order::Less => {
                    n += 1;
                },
                _ => {
                    return n;
                },
            }
        }
        n
    }

    /// Whether an element with the key of `x` is there.
    pub fn contains(&self, x: &T) -> (r: bool)
        ensures
            r == self@.contains(x.key()),
    {
        proof {
            use_type_invariant(self);
        }
        let n: usize = Self::place(&self.items, x);
        if n < self.items.len() {
            match self.items[n].compare(x) {
                Order::Equal => {
                    assert(self@[n as int] == x.key());
                    return true;
                },
                _ => {},
            }
        }
        proof {
            T::Key::irreflexive(x.key());
            assert forall|i: int| 0 <= i < self@.len() implies self@[i] != x.key() by {
                if i == n {
                    T::Key::irreflexive(x.key());
                    if self@[i] == x.key() {
                        lemma_tells_unique(Order::Equal, Order::Less, x.key(), x.key());
                    }
                } else if i > n {
                    assert(self@[n as int].before(self@[i]));
                    T::Key::transitive(x.key(), self@[n as int], self@[i]);
                }
            }
        }
        false
    }

    /// Adds `x`, unless an element with its key is there already.
    pub fn insert(&mut self, x: T)
        ensures
            final(self)@ == added(old(self)@, x.key()),
    {
        proof {
            use_type_invariant(&*self);
            lemma_added(self@, x.key());
        }
        let n: usize = Self::place(&self.items, &x);
        proof {
            lemma_added_at(self@, x.key(), n as int);
        }
        if n < self.items.len() {
            match self.items[n].compare(&x) {
                Order::Equal => {
                    return;
                },
                _ => {
                    proof {
                        if self@[n as int] == x.key() {
                            T::Key::irreflexive(x.key());
                        }
                    }
                },
            }
        }
        let ghost before = self@;
        let ghost k = x.key();
        let mut items: Vec<T> = Vec::new();
        std::mem::swap(&mut items, &mut self.items);
        items.insert(n, x);
        assert(keys(items@) =~= before.insert(n as int, k));
        *self = SortedSet { items };
    }

    /// The set of the elements of `list`.
    pub fn from_list(list: Vec<T>) -> (r: Self)
        ensures
            r@ == collected(keys(list@)),
    {
        let mut r = SortedSet::new();
        let ghost all = keys(list@);
        assert(all.take(0) =~= Seq::<T::Key>::empty());
        for x in it: list
            invariant
                it.seq() == list@,
                all == keys(list@),
                r@ == collected(all.take(it.index() as int)),
        {
            let ghost k = it.index() as int;
            assert(x == list@[k]);
            assert(all.take(k + 1).drop_last() =~= all.take(k));
            r.insert(x);
        }
        assert(all.take(list@.len() as int) =~= all);
        r
    }

    /// The elements, in the order of their keys.
    pub fn into_list(self) -> (r: Vec<T>)
        ensures
            r@ == self.values(),
            keys(r@) == self@,
            sorted(keys(r@)),
    {
        proof {
            use_type_invariant(&self);
        }
        self.items
    }
}

impl<T: Comparable> Comparable for SortedSet<T> {
    type Key = Seq<T::Key>;

    open spec fn key(&self) -> Seq<T::Key> {
        self@
    }

    fn compare(&self, other: &Self) -> (r: Order) {
        self.items.compare(&other.items)
    }
}

// ---------------------------------------------------------------------------
// Sorting
// ---------------------------------------------------------------------------

/// Whether `s` is in order; equal elements may repeat.
pub open spec fn weakly_sorted<T: Ordered>(s: Seq<T>) -> bool {
    forall|i: int, j: int|
        0 <= i < j < s.len() ==> #[trigger] s[i] == #[trigger] s[j] || s[i].before(s[j])
}

/// Whether `out` holds the elements of `s`, each as often as there, in order.
pub open spec fn is_sorting<T: Ordered>(out: Seq<T>, s: Seq<T>) -> bool {
    &&& weakly_sorted(out)
    &&& out.to_multiset() == s.to_multiset()
}

/// There is one way to sort: two sortings of the same elements are the same
/// sequence.
pub proof fn lemma_sorting_unique<T: Ordered>(a: Seq<T>, b: Seq<T>)
    requires
        weakly_sorted(a),
        weakly_sorted(b),
        a.to_multiset() == b.to_multiset(),
    ensures
        a == b,
{
    let leq = |x: T, y: T| x == y || x.before(y);
    assert forall|x: T, y: T| #[trigger] leq(x, y) && #[trigger] leq(y, x) implies x == y by {
        if x != y {
            T::transitive(x, y, x);
            T::irreflexive(x);
        }
    }
    assert forall|x: T, y: T, z: T| #[trigger] leq(x, y) && #[trigger] leq(y, z) implies leq(
        x,
        z,
    ) by {
        if x != y && y != z {
            T::transitive(x, y, z);
        }
    }
    assert forall|x: T, y: T| #[trigger] leq(x, y) || #[trigger] leq(y, x) by {
        T::total(x, y);
    }
    vstd::seq_lib::lemma_sorted_unique(a, b, leq);
}

proof fn lemma_insert_weakly_sorted<T: Ordered>(s: Seq<T>, x: T, p: int)
    requires
        weakly_sorted(s),
        0 <= p <= s.len(),
        forall|i: int| 0 <= i < p ==> #[trigger] s[i] == x || s[i].before(x),
        p < s.len() ==> x.before(s[p]),
    ensures
        weakly_sorted(s.insert(p, x)),
{
    let t = s.insert(p, x);
    assert forall|i: int| p <= i < s.len() implies x.before(#[trigger] s[i]) by {
        if i > p && s[p] != s[i] {
            T::transitive(x, s[p], s[i]);
        }
    }
    assert forall|i: int, j: int| 0 <= i < j < t.len() implies #[trigger] t[i] == #[trigger] t[j]
        || t[i].before(t[j]) by {
        let a = if i < p {
            i
        } else {
            i - 1
        };
        let b = if j < p {
            j
        } else {
            j - 1
        };
        if i == p {
            assert(x.before(s[b]));
        } else if j == p {
            assert(s[a] == x || s[a].before(x));
        } else {
            assert(s[a] == s[b] || s[a].before(s[b]));
        }
    }
}

proof fn lemma_insert_multiset<T>(s: Seq<T>, x: T, p: int)
    requires
        0 <= p <= s.len(),
    ensures
        s.insert(p, x).to_multiset() == s.to_multiset().insert(x),
{
    let t = s.insert(p, x);
    assert(t.remove(p) =~= s);
    vstd::seq_lib::to_multiset_remove(t, p);
    t.to_multiset_ensures();
    assert(t[p] == x);
    assert(t.contains(x));
    assert(t.to_multiset() =~= s.to_multiset().insert(x));
}

/// Sorts a list; equal elements keep their order.
pub fn sort_list<T: Comparable>(list: Vec<T>) -> (r: Vec<T>)
    ensures
        is_sorting(keys(r@), keys(list@)),
{
    let ghost all = keys(list@);
    let mut r: Vec<T> = Vec::new();
    assert(keys(r@) =~= Seq::<T::Key>::empty());
    assert(all.take(0) =~= Seq::<T::Key>::empty());
    for x in it: list
        invariant
            it.seq() == list@,
            all == keys(list@),
            weakly_sorted(keys(r@)),
            keys(r@).to_multiset() == all.take(it.index() as int).to_multiset(),
    {
        let ghost k = it.index() as int;
        let ghost before = keys(r@);
        let ghost xk = x.key();
        assert(x == list@[k]);
        let mut n: usize = r.len();
        while n > 0
            invariant
                n <= r@.len(),
                before == keys(r@),
                weakly_sorted(before),
                n < r@.len() ==> x.key().before(before[n as int]),
            ensures
                n <= r@.len(),
                n > 0 ==> before[n - 1] == x.key() || before[n - 1].before(x.key()),
                n < r@.len() ==> x.key().before(before[n as int]),
            decreases n,
        {
            match r[n - 1].compare(&x) {
                Order::Greater => {
                    n -= 1;
                },
                _ => {
                    break;
                },
            }
        }
        proof {
            assert forall|i: int| 0 <= i < n implies #[trigger] before[i] == xk || before[i].before(
                xk,
            ) by {
                if i < n - 1 && before[i] != before[n - 1] && before[n - 1] != xk {
                    T::Key::transitive(before[i], before[n - 1], xk);
                }
            }
            lemma_insert_weakly_sorted(before, xk, n as int);
            lemma_insert_multiset(before, xk, n as int);
            assert(all.take(k + 1) =~= all.take(k).push(xk));
            vstd::seq_lib::to_multiset_build(all.take(k), xk);
        }
        r.insert(n, x);
        assert(keys(r@) =~= before.insert(n as int, xk));
    }
    assert(all.take(list@.len() as int) =~= all);
    r
}

// ---------------------------------------------------------------------------
// Which comes first
// ---------------------------------------------------------------------------

/// A text comes before another one exactly when it is the shorter beginning of
/// it, or has the lower code point at the first difference.
pub proof fn lemma_text_order(p: Seq<char>, x: char, y: char, a: Seq<char>, b: Seq<char>)
    ensures
        x < y ==> (p + seq![x] + a).before(p + seq![y] + b),
        x < y ==> !(p + seq![y] + b).before(p + seq![x] + a),
        p.before(p + seq![x] + a),
        !(p + seq![x] + a).before(p),
        !p.before(p),
{
    let s = p + seq![x] + a;
    let t = p + seq![y] + b;
    let k = p.len() as int;
    Seq::<char>::irreflexive(p);
    assert(differs_at(p, s, k));
    if s.before(p) {
        Seq::<char>::transitive(p, s, p);
    }
    if x < y {
        assert(s[k] == x && t[k] == y);
        assert(differs_at(s, t, k));
        if t.before(s) {
            Seq::<char>::transitive(s, t, s);
            Seq::<char>::irreflexive(s);
        }
    }
}

/// Pairs are ordered by their first part, and by the second where that is the
/// same; a missing value comes before every other, and `false` before `true`.
pub proof fn lemma_part_order<A: Ordered, B: Ordered>(a: A, b: A, c: B, d: B)
    ensures
        a.before(b) ==> (a, c).before((b, d)),
        c.before(d) ==> (a, c).before((a, d)),
        (a, c).before((b, d)) ==> a.before(b) || (a == b && c.before(d)),
        None::<A>.before(Some(a)),
        !Some(a).before(None::<A>),
        Some(a).before(Some(b)) <==> a.before(b),
        false.key() < true.key(),
{
}

/// What comparing two values finds: nothing where they are the same, and
/// otherwise which of them comes first.
pub proof fn lemma_tells<T: Ordered>(o: Order, a: T, b: T)
    requires
        tells(o, a, b),
    ensures
        o == Order::Equal <==> a == b,
        o == Order::Less <==> a.before(b),
        o == Order::Greater <==> b.before(a),
{
    T::irreflexive(a);
    if a.before(b) && b.before(a) {
        T::transitive(a, b, a);
    }
}

/// A set made of a list has everything that the list has and nothing else, once
/// each and in order.
pub proof fn lemma_collected_elements<T: Ordered>(s: Seq<T>, i: int, x: T)
    ensures
        0 <= i < s.len() ==> collected(s).contains(s[i]),
        collected(s).contains(x) ==> s.contains(x),
        forall|j: int, k: int|
            0 <= j < k < collected(s).len() ==> (#[trigger] collected(s)[j]).before(
                #[trigger] collected(s)[k],
            ),
{
    lemma_collected(s);
    if 0 <= i < s.len() {
        assert(s.contains(s[i]));
    }
}

/// Sorting keeps every element, as often as it was there, and puts none before a
/// smaller one.
pub proof fn lemma_sorting_elements<T: Ordered>(out: Seq<T>, s: Seq<T>, i: int, j: int)
    requires
        is_sorting(out, s),
    ensures
        out.len() == s.len(),
        0 <= i < s.len() ==> out.contains(s[i]),
        0 <= i < out.len() ==> s.contains(out[i]),
        0 <= i < j < out.len() ==> !out[j].before(out[i]),
{
    broadcast use vstd::seq_lib::group_to_multiset_ensures;

    assert(out.len() == out.to_multiset().len());
    assert(s.len() == s.to_multiset().len());
    if 0 <= i < s.len() {
        assert(s.contains(s[i]));
        assert(s.to_multiset().count(s[i]) > 0);
    }
    if 0 <= i < out.len() {
        assert(out.contains(out[i]));
        assert(out.to_multiset().count(out[i]) > 0);
    }
    if 0 <= i < j < out.len() {
        T::irreflexive(out[i]);
        if out[j].before(out[i]) && out[i].before(out[j]) {
            T::transitive(out[i], out[j], out[i]);
        }
    }
}

} // verus!
