//! Total orders on keys, and sets of keys kept in that order.

use vstd::prelude::*;

verus! {

/// `a` comes before `b` in the dictionary order of their characters.
pub open spec fn chars_before(a: Seq<char>, b: Seq<char>) -> bool
    decreases a.len(),
{
    if b.len() == 0 {
        false
    } else if a.len() == 0 {
        true
    } else if a[0] == b[0] {
        chars_before(a.drop_first(), b.drop_first())
    } else {
        (a[0] as u32) < (b[0] as u32)
    }
}

proof fn lemma_chars_irreflexive(a: Seq<char>)
    ensures
        !chars_before(a, a),
    decreases a.len(),
{
    if a.len() > 0 {
        lemma_chars_irreflexive(a.drop_first());
    }
}

proof fn lemma_chars_transitive(a: Seq<char>, b: Seq<char>, c: Seq<char>)
    requires
        chars_before(a, b),
        chars_before(b, c),
    ensures
        chars_before(a, c),
    decreases a.len(),
{
    if a.len() > 0 && a[0] == b[0] && b[0] == c[0] {
        lemma_chars_transitive(a.drop_first(), b.drop_first(), c.drop_first());
    }
}

proof fn lemma_chars_total(a: Seq<char>, b: Seq<char>)
    ensures
        chars_before(a, b) || chars_before(b, a) || a == b,
    decreases a.len(),
{
    if a.len() > 0 && b.len() > 0 && a[0] == b[0] {
        lemma_chars_total(a.drop_first(), b.drop_first());
        if a.drop_first() == b.drop_first() {
            assert(a =~= seq![a[0]] + a.drop_first());
            assert(b =~= seq![b[0]] + b.drop_first());
        }
    } else if a.len() == 0 && b.len() == 0 {
        assert(a =~= b);
    } else if a.len() > 0 && b.len() > 0 {
        vstd::utf8::char_u32_cast(a[0], a[0] as u32);
        vstd::utf8::char_u32_cast(b[0], b[0] as u32);
    }
}

/// A key with a total order on what it stands for.
pub trait OrderedKey: View + Sized {
    /// `a` comes strictly before `b`.
    spec fn before(a: Self::V, b: Self::V) -> bool;

    proof fn irreflexive(a: Self::V)
        ensures
            !Self::before(a, a),
    ;

    proof fn transitive(a: Self::V, b: Self::V, c: Self::V)
        requires
            Self::before(a, b),
            Self::before(b, c),
        ensures
            Self::before(a, c),
    ;

    proof fn total(a: Self::V, b: Self::V)
        ensures
            Self::before(a, b) || Self::before(b, a) || a == b,
    ;

    fn is_before(&self, other: &Self) -> (r: bool)
        ensures
            r == Self::before(self@, other@),
    ;

    fn is_same(&self, other: &Self) -> (r: bool)
        ensures
            r == (self@ == other@),
    ;

    fn duplicate(&self) -> (r: Self)
        ensures
            r@ == self@,
    ;
}

impl OrderedKey for u64 {
    open spec fn before(a: u64, b: u64) -> bool {
        a < b
    }

    proof fn irreflexive(a: u64) {
    }

    proof fn transitive(a: u64, b: u64, c: u64) {
    }

    proof fn total(a: u64, b: u64) {
    }

    fn is_before(&self, other: &u64) -> (r: bool) {
        *self < *other
    }

    fn is_same(&self, other: &u64) -> (r: bool) {
        *self == *other
    }

    fn duplicate(&self) -> (r: u64) {
        *self
    }
}

/// The characters of a string, one by one.
pub fn chars_of(s: &str) -> (v: Vec<char>)
    ensures
        v@ == s@,
{
    let mut v: Vec<char> = Vec::new();
    for c in it: s.chars()
        invariant
            v@ == s@.take(it.index() as int),
            it.seq() == s@,
    {
        v.push(c);
        assert(s@.take(it.index() as int + 1) =~= s@.take(it.index() as int).push(c));
    }
    assert(s@.take(s@.len() as int) =~= s@);
    v
}

/// Whether the characters of `a` from `i` on come before those of `b` from `i` on.
fn chars_precede(a: &Vec<char>, b: &Vec<char>) -> (r: bool)
    ensures
        r == chars_before(a@, b@),
{
    let mut i: usize = 0;
    assert(a@.skip(0) =~= a@);
    assert(b@.skip(0) =~= b@);
    while i < a.len() && i < b.len() && a[i] == b[i]
        invariant
            i <= a@.len(),
            i <= b@.len(),
            chars_before(a@, b@) == chars_before(a@.skip(i as int), b@.skip(i as int)),
        decreases a@.len() - i,
    {
        assert(a@.skip(i as int).drop_first() =~= a@.skip(i + 1));
        assert(b@.skip(i as int).drop_first() =~= b@.skip(i + 1));
        i = i + 1;
    }
    if i >= b.len() {
        false
    } else if i >= a.len() {
        true
    } else {
        let x: char = a[i];
        let y: char = b[i];
        assert(a@.skip(i as int)[0] == x && b@.skip(i as int)[0] == y);
        (x as u32) < (y as u32)
    }
}

/// Whether `a` comes before `b` in dictionary order.
pub fn str_precedes(a: &str, b: &str) -> (r: bool)
    ensures
        r == chars_before(a@, b@),
{
    chars_precede(&chars_of(a), &chars_of(b))
}

/// Whether two strings hold the same characters.
pub fn str_same(a: &str, b: &str) -> (r: bool)
    ensures
        r == (a@ == b@),
{
    let x: Vec<char> = chars_of(a);
    let y: Vec<char> = chars_of(b);
    if x.len() != y.len() {
        return false;
    }
    let mut i: usize = 0;
    while i < x.len()
        invariant
            i <= x@.len(),
            x@.len() == y@.len(),
            x@ == a@,
            y@ == b@,
            forall|k: int| 0 <= k < i ==> x@[k] == y@[k],
        decreases x@.len() - i,
    {
        if x[i] != y[i] {
            return false;
        }
        i = i + 1;
    }
    assert(x@ =~= y@);
    true
}

impl OrderedKey for String {
    open spec fn before(a: Seq<char>, b: Seq<char>) -> bool {
        chars_before(a, b)
    }

    proof fn irreflexive(a: Seq<char>) {
        lemma_chars_irreflexive(a);
    }

    proof fn transitive(a: Seq<char>, b: Seq<char>, c: Seq<char>) {
        lemma_chars_transitive(a, b, c);
    }

    proof fn total(a: Seq<char>, b: Seq<char>) {
        lemma_chars_total(a, b);
    }

    fn is_before(&self, other: &String) -> (r: bool) {
        str_precedes(self.as_str(), other.as_str())
    }

    fn is_same(&self, other: &String) -> (r: bool) {
        *self == *other
    }

    fn duplicate(&self) -> (r: String) {
        self.clone()
    }
}

impl OrderedKey for &'static str {
    open spec fn before(a: Seq<char>, b: Seq<char>) -> bool {
        chars_before(a, b)
    }

    proof fn irreflexive(a: Seq<char>) {
        lemma_chars_irreflexive(a);
    }

    proof fn transitive(a: Seq<char>, b: Seq<char>, c: Seq<char>) {
        lemma_chars_transitive(a, b, c);
    }

    proof fn total(a: Seq<char>, b: Seq<char>) {
        lemma_chars_total(a, b);
    }

    fn is_before(&self, other: &&'static str) -> (r: bool) {
        str_precedes(*self, *other)
    }

    fn is_same(&self, other: &&'static str) -> (r: bool) {
        str_same(*self, *other)
    }

    fn duplicate(&self) -> (r: &'static str) {
        *self
    }
}

/// The views of a sequence of keys.
pub open spec fn views<K: View>(s: Seq<K>) -> Seq<K::V> {
    Seq::new(s.len(), |i: int| s[i]@)
}

/// Each element comes before all later ones; in particular nothing occurs twice.
pub open spec fn ascending<K: OrderedKey>(s: Seq<K::V>) -> bool {
    forall|i: int, j: int| 0 <= i < j < s.len() ==> K::before(#[trigger] s[i], #[trigger] s[j])
}

/// Two ascending sequences with the same elements are equal.
pub proof fn ascending_is_unique<K: OrderedKey>(a: Seq<K::V>, b: Seq<K::V>)
    requires
        ascending::<K>(a),
        ascending::<K>(b),
        forall|x: K::V| #[trigger] a.contains(x) == b.contains(x),
    ensures
        a == b,
    decreases a.len(),
{
    if a.len() == 0 {
        if b.len() > 0 {
            assert(b.contains(b[0]));
            assert(a.contains(b[0]));
        }
        assert(a =~= b);
    } else {
        assert(a.contains(a.last()));
        let k = b.index_of(a.last());
        assert(b.contains(a.last()));
        assert(0 <= k < b.len() && b[k] == a.last());
        assert(b.contains(b.last()));
        assert(a.contains(b.last()));
        let l = a.index_of(b.last());
        assert(0 <= l < a.len() && a[l] == b.last());
        if k != b.len() - 1 {
            assert(K::before(b[k], b.last()));
            if l == a.len() - 1 {
                K::irreflexive(a.last());
            } else {
                assert(K::before(a[l], a.last()));
                K::transitive(a.last(), b.last(), a.last());
                K::irreflexive(a.last());
            }
        }
        let a2 = a.drop_last();
        let b2 = b.drop_last();
        assert forall|x: K::V| #[trigger] a2.contains(x) == b2.contains(x) by {
            if a2.contains(x) {
                let i = a2.index_of(x);
                assert(a[i] == x);
                assert(a.contains(x));
                assert(b.contains(x));
                let j = b.index_of(x);
                if j == b.len() - 1 {
                    assert(K::before(a[i], a.last()));
                    K::irreflexive(x);
                }
                assert(b2[j] == x);
            }
            if b2.contains(x) {
                let i = b2.index_of(x);
                assert(b[i] == x);
                assert(b.contains(x));
                assert(a.contains(x));
                let j = a.index_of(x);
                if j == a.len() - 1 {
                    assert(K::before(b[i], b.last()));
                    K::irreflexive(x);
                }
                assert(a2[j] == x);
            }
        }
        ascending_is_unique::<K>(a2, b2);
        assert(a =~= a2.push(a.last()));
        assert(b =~= b2.push(b.last()));
    }
}

/// `s` lists, in ascending order, exactly what has the property `p`.
pub open spec fn lists<K: OrderedKey>(s: Seq<K::V>, p: spec_fn(K::V) -> bool) -> bool {
    &&& ascending::<K>(s)
    &&& forall|x: K::V| #[trigger] s.contains(x) <==> p(x)
}

pub proof fn lemma_ascending_distinct<K: OrderedKey>(s: Seq<K::V>)
    requires
        ascending::<K>(s),
    ensures
        s.no_duplicates(),
{
    assert forall|i: int, j: int| 0 <= i < s.len() && 0 <= j < s.len() && i != j implies s[i]
        != s[j] by {
        K::irreflexive(s[i]);
        if i < j {
            assert(K::before(s[i], s[j]));
        } else {
            assert(K::before(s[j], s[i]));
        }
    }
}

/// A finite set of keys, held in ascending order.
#[derive(Debug)]
pub struct OrderedSet<K: OrderedKey> {
    items: Vec<K>,
}

impl<K: OrderedKey> View for OrderedSet<K> {
    type V = Seq<K::V>;

    /// The members in ascending order.
    closed spec fn view(&self) -> Seq<K::V> {
        views(self.items@)
    }
}

impl<K: OrderedKey> OrderedSet<K> {
    /// The members are held in ascending order.
    pub open spec fn wf(&self) -> bool {
        ascending::<K>(self@)
    }

    /// Creates an empty set.
    pub fn new() -> (r: Self)
        ensures
            r.wf(),
            r@ == Seq::<K::V>::empty(),
    {
        let r = OrderedSet { items: Vec::new() };
        assert(r@ =~= Seq::<K::V>::empty());
        r
    }

    /// The number of members.
    pub fn len(&self) -> (n: usize)
        ensures
            n == self@.len(),
    {
        self.items.len()
    }

    /// The member at position `i` of the ascending order.
    pub fn at(&self, i: usize) -> (k: &K)
        requires
            i < self@.len(),
        ensures
            k@ == self@[i as int],
    {
        &self.items[i]
    }

    /// The members in ascending order.
    pub fn to_vec(&self) -> (v: Vec<K>)
        ensures
            views(v@) == self@,
    {
        let mut v: Vec<K> = Vec::new();
        let mut i: usize = 0;
        while i < self.items.len()
            invariant
                i <= self.items@.len(),
                views(v@) == self@.take(i as int),
            decreases self.items@.len() - i,
        {
            let ghost v0 = v@;
            v.push(self.items[i].duplicate());
            assert(views(v@) =~= views(v0).push(self@[i as int]));
            assert(self@.take(i + 1) =~= self@.take(i as int).push(self@[i as int]));
            i = i + 1;
        }
        assert(self@.take(i as int) =~= self@);
        v
    }

    /// The position of the first member that does not come before `key`.
    fn slot(&self, key: &K) -> (r: usize)
        requires
            self.wf(),
        ensures
            r <= self@.len(),
            forall|j: int| 0 <= j < r ==> K::before(#[trigger] self@[j], key@),
            forall|j: int| r <= j < self@.len() ==> !K::before(#[trigger] self@[j], key@),
    {
        let mut lo: usize = 0;
        let mut hi: usize = self.items.len();
        while lo < hi
            invariant
                lo <= hi <= self@.len(),
                self.wf(),
                self@.len() == self.items@.len(),
                forall|j: int| 0 <= j < lo ==> K::before(#[trigger] self@[j], key@),
                forall|j: int| hi <= j < self@.len() ==> !K::before(#[trigger] self@[j], key@),
            decreases hi - lo,
        {
            let mid: usize = lo + (hi - lo) / 2;
            if self.items[mid].is_before(key) {
                proof {
                    assert forall|j: int| 0 <= j <= mid implies K::before(
                        #[trigger] self@[j],
                        key@,
                    ) by {
                        if j < mid {
                            assert(K::before(self@[j], self@[mid as int]));
                            K::transitive(self@[j], self@[mid as int], key@);
                        }
                    }
                }
                lo = mid + 1;
            } else {
                proof {
                    assert forall|j: int| mid <= j < self@.len() implies !K::before(
                        #[trigger] self@[j],
                        key@,
                    ) by {
                        if j > mid && K::before(self@[j], key@) {
                            assert(K::before(self@[mid as int], self@[j]));
                            K::transitive(self@[mid as int], self@[j], key@);
                        }
                    }
                }
                hi = mid;
            }
        }
        lo
    }

    /// The position of `key` in the ascending order.
    pub fn position(&self, key: &K) -> (r: Option<usize>)
        requires
            self.wf(),
        ensures
            match r {
                Some(i) => i < self@.len() && self@[i as int] == key@,
                None => !self@.contains(key@),
            },
    {
        let i: usize = self.slot(key);
        if i < self.items.len() && self.items[i].is_same(key) {
            Some(i)
        } else {
            proof {
                if self@.contains(key@) {
                    let j = self@.index_of(key@);
                    K::irreflexive(key@);
                    assert(self@[j] == key@);
                    assert(j > i);
                    assert(K::before(self@[i as int], self@[j]));
                }
            }
            None
        }
    }

    /// Whether `key` is a member.
    pub fn contains(&self, key: &K) -> (r: bool)
        requires
            self.wf(),
        ensures
            r == self@.contains(key@),
    {
        match self.position(key) {
            Some(i) => {
                assert(self@[i as int] == key@);
                true
            },
            None => false,
        }
    }

    /// Adds `key`; says whether it was new. A key that is already a member changes nothing.
    pub fn insert(&mut self, key: K) -> (fresh: bool)
        requires
            old(self).wf(),
        ensures
            final(self).wf(),
            fresh == !old(self)@.contains(key@),
            !fresh ==> final(self)@ == old(self)@,
            forall|x: K::V| #[trigger]
                final(self)@.contains(x) == (old(self)@.contains(x) || x == key@),
            fresh ==> exists|i: int|
                0 <= i <= old(self)@.len() && final(self)@ == #[trigger] old(self)@.insert(i, key@),
    {
        let i: usize = self.slot(&key);
        if i < self.items.len() && self.items[i].is_same(&key) {
            assert(self@[i as int] == key@);
            return false;
        }
        let ghost before = self@;
        proof {
            if before.contains(key@) {
                let j = before.index_of(key@);
                K::irreflexive(key@);
                assert(before[j] == key@);
                assert(j > i);
                assert(K::before(before[i as int], before[j]));
            }
        }
        let ghost k = key@;
        self.items.insert(i, key);
        proof {
            assert(self@ =~= before.insert(i as int, k));
            assert forall|a: int, b: int| 0 <= a < b < self@.len() implies K::before(
                #[trigger] self@[a],
                #[trigger] self@[b],
            ) by {
                if a == i {
                    K::total(k, before[b - 1]);
                    assert(before.contains(before[b - 1]));
                } else if b == i {
                    assert(self@[a] == before[a]);
                } else {
                    let a0 = if a < i { a } else { a - 1 };
                    let b0 = if b < i { b } else { b - 1 };
                    assert(K::before(before[a0], before[b0]));
                }
            }
            assert forall|x: K::V| #[trigger] self@.contains(x) == (before.contains(x) || x
                == k) by {
                if self@.contains(x) {
                    let j = self@.index_of(x);
                    if j < i {
                        assert(before[j] == x);
                    } else if j > i {
                        assert(before[j - 1] == x);
                    }
                }
                if before.contains(x) {
                    let j = before.index_of(x);
                    if j < i {
                        assert(self@[j] == x);
                    } else {
                        assert(self@[j + 1] == x);
                    }
                }
                if x == k {
                    assert(self@[i as int] == x);
                }
            }
        }
        true
    }

    /// The members of `keys` as a set.
    pub fn from_vec(keys: Vec<K>) -> (r: Self)
        ensures
            r.wf(),
            forall|x: K::V| #[trigger] r@.contains(x) == views(keys@).contains(x),
    {
        let mut r: OrderedSet<K> = OrderedSet::new();
        let mut i: usize = 0;
        while i < keys.len()
            invariant
                i <= keys@.len(),
                r.wf(),
                forall|x: K::V| #[trigger]
                    r@.contains(x) == views(keys@).take(i as int).contains(x),
            decreases keys@.len() - i,
        {
            let ghost r0 = r@;
            let _ = r.insert(keys[i].duplicate());
            proof {
                let vs = views(keys@);
                assert forall|x: K::V| #[trigger] r@.contains(x) == vs.take(i + 1).contains(x) by {
                    assert(vs.take(i + 1) =~= vs.take(i as int).push(vs[i as int]));
                    if vs.take(i + 1).contains(x) {
                        let j = vs.take(i + 1).index_of(x);
                        if j < i {
                            assert(vs.take(i as int)[j] == x);
                        }
                    }
                    if vs.take(i as int).contains(x) {
                        let j = vs.take(i as int).index_of(x);
                        assert(vs.take(i + 1)[j] == x);
                    }
                    if x == vs[i as int] {
                        assert(vs.take(i + 1)[i as int] == x);
                    }
                }
            }
            i = i + 1;
        }
        assert(views(keys@).take(i as int) =~= views(keys@));
        r
    }
}

/// Dictionary order: of two strings with a common beginning, the one that goes on with the
/// character of the lower code comes first, and one that does not go on comes before one that
/// does.
pub proof fn first_difference_decides(common: Seq<char>, a: Seq<char>, b: Seq<char>)
    ensures
        a.len() > 0 && b.len() > 0 && a[0] != b[0] ==> chars_before(common + a, common + b) == ((
        a[0] as u32) < (b[0] as u32)),
        b.len() > 0 ==> chars_before(common, common + b) && !chars_before(common + b, common),
    decreases common.len(),
{
    let u = common + a;
    let v = common + b;
    if common.len() == 0 {
        assert(u =~= a);
        assert(v =~= b);
        assert(common =~= Seq::<char>::empty());
    } else {
        let rest = common.drop_first();
        first_difference_decides(rest, a, b);
        assert(u.drop_first() =~= rest + a);
        assert(v.drop_first() =~= rest + b);
        assert(u[0] == common[0] && v[0] == common[0]);
    }
}

} // verus!
