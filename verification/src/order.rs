use vstd::prelude::*;
use vstd::string::*;

verus! {

/// `lt` is a strict total order on `T`.
pub open spec fn strict_total<T>(lt: spec_fn(T, T) -> bool) -> bool {
    &&& forall|x: T| !#[trigger] lt(x, x)
    &&& forall|x: T, y: T, z: T| #[trigger] lt(x, y) && #[trigger] lt(y, z) ==> lt(x, z)
    &&& forall|x: T, y: T| x != y ==> #[trigger] lt(x, y) || #[trigger] lt(y, x)
}

/// Lexicographic comparison of `a` and `b` from position `i` on, with the
/// elements compared by `lt`; a proper prefix sorts first.
pub open spec fn lex_lt_from<T>(a: Seq<T>, b: Seq<T>, i: int, lt: spec_fn(T, T) -> bool) -> bool
    decreases a.len() - i,
{
    if i >= a.len() {
        i < b.len()
    } else if i >= b.len() {
        false
    } else if a[i] == b[i] {
        lex_lt_from(a, b, i + 1, lt)
    } else {
        lt(a[i], b[i])
    }
}

pub open spec fn lex_lt<T>(a: Seq<T>, b: Seq<T>, lt: spec_fn(T, T) -> bool) -> bool {
    lex_lt_from(a, b, 0, lt)
}

/// The lexicographic order built on `lt`, as an order of its own.
pub open spec fn lex_order<T>(lt: spec_fn(T, T) -> bool) -> spec_fn(Seq<T>, Seq<T>) -> bool {
    |a: Seq<T>, b: Seq<T>| lex_lt(a, b, lt)
}

/// Characters ordered by code point.
pub open spec fn char_order() -> spec_fn(char, char) -> bool {
    |x: char, y: char| x < y
}

/// The order of names: that of `String`'s `Ord` (UTF-8 preserves code
/// point order, so comparing bytes and comparing characters agree).
pub open spec fn name_order() -> spec_fn(Seq<char>, Seq<char>) -> bool {
    lex_order(char_order())
}

pub open spec fn chars_lt(a: Seq<char>, b: Seq<char>) -> bool {
    lex_lt(a, b, char_order())
}

/// The order of name sequences (a cycle as a list of names).
pub open spec fn chain_order() -> spec_fn(Seq<Seq<char>>, Seq<Seq<char>>) -> bool {
    lex_order(name_order())
}

/// The order of pairs of names: by the first, then by the second.
pub open spec fn pair_order() -> spec_fn((Seq<char>, Seq<char>), (Seq<char>, Seq<char>)) -> bool {
    |p: (Seq<char>, Seq<char>), q: (Seq<char>, Seq<char>)|
        chars_lt(p.0, q.0) || (p.0 == q.0 && chars_lt(p.1, q.1))
}

/// Every element of `s` sorts strictly before every later one.
pub open spec fn strictly_sorted<T>(s: Seq<T>, lt: spec_fn(T, T) -> bool) -> bool {
    forall|i: int, j: int| 0 <= i < j < s.len() ==> #[trigger] lt(s[i], s[j])
}

proof fn lemma_lex_irreflexive<T>(a: Seq<T>, i: int, lt: spec_fn(T, T) -> bool)
    ensures
        !lex_lt_from(a, a, i, lt),
    decreases a.len() - i,
{
    if i < a.len() {
        lemma_lex_irreflexive(a, i + 1, lt);
    }
}

proof fn lemma_lex_transitive<T>(a: Seq<T>, b: Seq<T>, c: Seq<T>, i: int, lt: spec_fn(T, T) -> bool)
    requires
        strict_total(lt),
        lex_lt_from(a, b, i, lt),
        lex_lt_from(b, c, i, lt),
    ensures
        lex_lt_from(a, c, i, lt),
    decreases a.len() - i,
{
    if i < a.len() && i < b.len() && i < c.len() {
        if a[i] == b[i] && b[i] == c[i] {
            lemma_lex_transitive(a, b, c, i + 1, lt);
        } else if a[i] != b[i] && b[i] != c[i] {
            assert(lt(a[i], b[i]) && lt(b[i], c[i]));
            assert(lt(a[i], c[i]));
        }
    }
}

proof fn lemma_lex_total<T>(a: Seq<T>, b: Seq<T>, i: int, lt: spec_fn(T, T) -> bool)
    requires
        strict_total(lt),
        0 <= i <= a.len(),
        i <= b.len(),
    ensures
        lex_lt_from(a, b, i, lt) || lex_lt_from(b, a, i, lt) || (a.len() == b.len() && forall|k: int|
            i <= k < a.len() ==> a[k] == b[k]),
    decreases a.len() - i,
{
    if i < a.len() && i < b.len() {
        if a[i] == b[i] {
            lemma_lex_total(a, b, i + 1, lt);
            if a.len() == b.len() && (forall|k: int| i + 1 <= k < a.len() ==> a[k] == b[k]) {
                assert forall|k: int| i <= k < a.len() implies a[k] == b[k] by {
                    if k == i {
                    }
                }
            }
        } else {
            assert(lt(a[i], b[i]) || lt(b[i], a[i]));
        }
    }
}

/// The lexicographic extension of a strict total order is one.
pub proof fn lemma_lex_strict_total<T>(lt: spec_fn(T, T) -> bool)
    requires
        strict_total(lt),
    ensures
        strict_total(lex_order(lt)),
{
    let o = lex_order(lt);
    assert forall|x: Seq<T>| !#[trigger] o(x, x) by {
        lemma_lex_irreflexive(x, 0, lt);
    }
    assert forall|x: Seq<T>, y: Seq<T>, z: Seq<T>| #[trigger] o(x, y) && #[trigger] o(y, z) implies o(
        x,
        z,
    ) by {
        lemma_lex_transitive(x, y, z, 0, lt);
    }
    assert forall|x: Seq<T>, y: Seq<T>| x != y implies #[trigger] o(x, y) || #[trigger] o(y, x) by {
        lemma_lex_total(x, y, 0, lt);
        if !o(x, y) && !o(y, x) {
            assert(x =~= y);
        }
    }
}

proof fn lemma_char_order_strict_total()
    ensures
        strict_total(char_order()),
{
    let c = char_order();
    assert forall|x: char, y: char| x != y implies #[trigger] c(x, y) || #[trigger] c(y, x) by {}
}

pub proof fn lemma_index_order_strict_total()
    ensures
        strict_total(index_order()),
{
}

pub proof fn lemma_orders_strict_total()
    ensures
        strict_total(char_order()),
        strict_total(name_order()),
        strict_total(chain_order()),
        strict_total(pair_order()),
{
    lemma_char_order_strict_total();
    lemma_lex_strict_total(char_order());
    lemma_lex_strict_total(name_order());
    let p = pair_order();
    let n = name_order();
    assert forall|x: (Seq<char>, Seq<char>), y: (Seq<char>, Seq<char>), z: (Seq<char>, Seq<char>)|
        #[trigger] p(x, y) && #[trigger] p(y, z) implies p(x, z) by {
        assert(n(x.0, y.0) || x.0 == y.0);
        assert(n(y.0, z.0) || y.0 == z.0);
        if n(x.0, y.0) && n(y.0, z.0) {
            assert(n(x.0, z.0));
        }
        if x.0 == y.0 && y.0 == z.0 {
            assert(n(x.1, y.1) && n(y.1, z.1));
            assert(n(x.1, z.1));
        }
    }
    assert forall|x: (Seq<char>, Seq<char>), y: (Seq<char>, Seq<char>)| x != y implies #[trigger] p(
        x,
        y,
    ) || #[trigger] p(y, x) by {
        if x.0 != y.0 {
            assert(n(x.0, y.0) || n(y.0, x.0));
        } else {
            assert(x.1 != y.1);
            assert(n(x.1, y.1) || n(y.1, x.1));
        }
    }
    assert forall|x: (Seq<char>, Seq<char>)| !#[trigger] p(x, x) by {
        assert(!n(x.0, x.0));
        assert(!n(x.1, x.1));
    }
}

/// Some strictly sorted sequence holds exactly the elements of `s`.
pub proof fn lemma_sorted_exists<T>(s: Seq<T>, lt: spec_fn(T, T) -> bool)
    requires
        strict_total(lt),
    ensures
        exists|t: Seq<T>| strictly_sorted(t, lt) && #[trigger] t.to_set() == s.to_set(),
    decreases s.len(),
{
    if s.len() == 0 {
        let t = Seq::<T>::empty();
        assert(t.to_set() =~= s.to_set());
        assert(strictly_sorted(t, lt));
    } else {
        let s0 = s.drop_last();
        let x = s.last();
        lemma_sorted_exists(s0, lt);
        let t0 = choose|t: Seq<T>| strictly_sorted(t, lt) && #[trigger] t.to_set() == s0.to_set();
        assert(s =~= s0.push(x));
        s0.lemma_push_to_set_commute(x);
        if t0.contains(x) {
            assert(t0.to_set().contains(x));
            assert(s.to_set() =~= t0.to_set());
        } else {
            let i = lemma_insert_position(t0, x, lt);
            let t = t0.insert(i, x);
            assert forall|a: int, b: int| 0 <= a < b < t.len() implies #[trigger] lt(t[a], t[b]) by {
                if a < i && b == i {
                } else if a == i && b > i {
                    assert(lt(x, t0[b - 1]));
                } else if a < i && b > i {
                    assert(lt(t0[a], t0[b - 1]));
                } else if a > i {
                    assert(lt(t0[a - 1], t0[b - 1]));
                } else {
                    assert(lt(t0[a], t0[b]));
                }
            }
            assert forall|y: T| #[trigger] t.to_set().contains(y) <==> t0.to_set().insert(x).contains(y) by {
                if t.to_set().contains(y) {
                    let k = choose|k: int| 0 <= k < t.len() && t[k] == y;
                    if k < i {
                        assert(t0[k] == y);
                    } else if k > i {
                        assert(t0[k - 1] == y);
                    }
                }
                if t0.to_set().contains(y) {
                    let k = choose|k: int| 0 <= k < t0.len() && t0[k] == y;
                    if k < i {
                        assert(t[k] == y);
                    } else {
                        assert(t[k + 1] == y);
                    }
                }
                if y == x {
                    assert(t[i] == y);
                }
            }
            assert(t.to_set() =~= s.to_set());
            assert(strictly_sorted(t, lt));
        }
    }
}

proof fn lemma_insert_position<T>(t: Seq<T>, x: T, lt: spec_fn(T, T) -> bool) -> (i: int)
    requires
        strict_total(lt),
        strictly_sorted(t, lt),
        !t.contains(x),
    ensures
        0 <= i <= t.len(),
        forall|k: int| 0 <= k < i ==> lt(#[trigger] t[k], x),
        forall|k: int| i <= k < t.len() ==> lt(x, #[trigger] t[k]),
    decreases t.len(),
{
    if t.len() == 0 {
        0
    } else {
        let t0 = t.drop_last();
        assert(!t0.contains(x)) by {
            if t0.contains(x) {
                let k = choose|k: int| 0 <= k < t0.len() && t0[k] == x;
                assert(t[k] == x);
            }
        }
        assert(strictly_sorted(t0, lt)) by {
            assert forall|a: int, b: int| 0 <= a < b < t0.len() implies #[trigger] lt(t0[a], t0[b]) by {
                assert(lt(t[a], t[b]));
            }
        }
        let i = lemma_insert_position(t0, x, lt);
        let last = t.last();
        assert(last != x) by {
            assert(t[t.len() - 1] == last);
        }
        if lt(last, x) {
            let j = t.len() as int;
            assert forall|k: int| 0 <= k < j implies lt(#[trigger] t[k], x) by {
                if k < j - 1 {
                    assert(lt(t[k], last));
                }
            }
            j
        } else {
            assert(lt(x, last));
            assert forall|k: int| 0 <= k < i implies lt(#[trigger] t[k], x) by {
                assert(t[k] == t0[k]);
            }
            assert forall|k: int| i <= k < t.len() implies lt(x, #[trigger] t[k]) by {
                if k < t.len() - 1 {
                    assert(t[k] == t0[k]);
                }
            }
            i
        }
    }
}

/// A strictly sorted sequence is determined by the set of its elements.
pub proof fn lemma_sorted_unique<T>(s1: Seq<T>, s2: Seq<T>, lt: spec_fn(T, T) -> bool)
    requires
        strict_total(lt),
        strictly_sorted(s1, lt),
        strictly_sorted(s2, lt),
        s1.to_set() == s2.to_set(),
    ensures
        s1 == s2,
    decreases s1.len(),
{
    if s1.len() == 0 {
        if s2.len() > 0 {
            assert(s2.to_set().contains(s2[0]));
        }
        assert(s2.len() == 0);
        assert(s1 =~= s2);
        return;
    }
    assert(s1.to_set().contains(s1[0]));
    assert(s2.len() > 0) by {
        assert(s2.to_set().contains(s1[0]));
    }
    assert(s2.to_set().contains(s2[0]));
    let j = choose|j: int| 0 <= j < s2.len() && s2[j] == s1[0];
    let i = choose|i: int| 0 <= i < s1.len() && s1[i] == s2[0];
    if j > 0 && i > 0 {
        assert(lt(s2[0], s2[j]));
        assert(lt(s1[0], s1[i]));
        assert(lt(s2[0], s2[0]));
    }
    if j > 0 && i == 0 {
        assert(lt(s2[0], s2[j]));
    }
    if i > 0 && j == 0 {
        assert(lt(s1[0], s1[i]));
    }
    assert(s1[0] == s2[0]);
    let t1 = s1.drop_first();
    let t2 = s2.drop_first();
    assert forall|x: T| #[trigger] t1.to_set().contains(x) <==> t2.to_set().contains(x) by {
        if t1.to_set().contains(x) {
            let k = choose|k: int| 0 <= k < t1.len() && t1[k] == x;
            assert(s1[k + 1] == x);
            assert(lt(s1[0], s1[k + 1]));
            assert(s2.to_set().contains(x));
            let m = choose|m: int| 0 <= m < s2.len() && s2[m] == x;
            if m == 0 {
                assert(lt(x, x));
            }
            assert(t2[m - 1] == x);
        }
        if t2.to_set().contains(x) {
            let k = choose|k: int| 0 <= k < t2.len() && t2[k] == x;
            assert(s2[k + 1] == x);
            assert(lt(s2[0], s2[k + 1]));
            assert(s1.to_set().contains(x));
            let m = choose|m: int| 0 <= m < s1.len() && s1[m] == x;
            if m == 0 {
                assert(lt(x, x));
            }
            assert(t1[m - 1] == x);
        }
    }
    assert(t1.to_set() =~= t2.to_set());
    lemma_sorted_unique(t1, t2, lt);
    assert(s1 =~= seq![s1[0]] + t1);
    assert(s2 =~= seq![s2[0]] + t2);
}

/// Whether two strings hold the same characters.
pub fn str_eq(a: &str, b: &str) -> (r: bool)
    ensures
        r == (a@ == b@),
{
    let la = a.unicode_len();
    let lb = b.unicode_len();
    if la != lb {
        return false;
    }
    let mut i: usize = 0;
    while i < la
        invariant
            la == a@.len(),
            lb == b@.len(),
            la == lb,
            i <= la,
            forall|k: int| 0 <= k < i ==> a@[k] == b@[k],
        decreases la - i,
    {
        if a.get_char(i) != b.get_char(i) {
            return false;
        }
        i = i + 1;
    }
    assert(a@ =~= b@);
    true
}

/// Executable comparison of two names, in `name_order`.
pub fn str_lt(a: &String, b: &String) -> (r: bool)
    ensures
        r == chars_lt(a@, b@),
{
    let sa = a.as_str();
    let sb = b.as_str();
    let la = sa.unicode_len();
    let lb = sb.unicode_len();
    let mut i: usize = 0;
    while i < la && i < lb
        invariant
            sa@ == a@,
            sb@ == b@,
            la == a@.len(),
            lb == b@.len(),
            i <= la,
            i <= lb,
            chars_lt(a@, b@) == lex_lt_from(a@, b@, i as int, char_order()),
        decreases la - i,
    {
        let ca = sa.get_char(i);
        let cb = sb.get_char(i);
        if ca != cb {
            return ca < cb;
        }
        i = i + 1;
    }
    i < lb
}

/// A value that can be kept in a sorted, duplicate-free vector: its deep
/// view is ordered by `key_order`, compared and told equal by executable code.
pub trait SortKey: DeepView + Sized {
    spec fn key_order() -> spec_fn(Self::V, Self::V) -> bool;

    fn key_lt(&self, other: &Self) -> (r: bool)
        ensures
            r == Self::key_order()(self.deep_view(), other.deep_view()),
    ;

    fn key_eq(&self, other: &Self) -> (r: bool)
        ensures
            r == (self.deep_view() == other.deep_view()),
    ;
}

impl SortKey for String {
    open spec fn key_order() -> spec_fn(Seq<char>, Seq<char>) -> bool {
        name_order()
    }

    fn key_lt(&self, other: &Self) -> (r: bool) {
        str_lt(self, other)
    }

    fn key_eq(&self, other: &Self) -> (r: bool) {
        *self == *other
    }
}

/// Vertex numbers in increasing order.
pub open spec fn index_order() -> spec_fn(usize, usize) -> bool {
    |x: usize, y: usize| x < y
}

impl SortKey for usize {
    open spec fn key_order() -> spec_fn(usize, usize) -> bool {
        index_order()
    }

    fn key_lt(&self, other: &Self) -> (r: bool) {
        *self < *other
    }

    fn key_eq(&self, other: &Self) -> (r: bool) {
        *self == *other
    }
}

impl SortKey for (String, String) {
    open spec fn key_order() -> spec_fn((Seq<char>, Seq<char>), (Seq<char>, Seq<char>)) -> bool {
        pair_order()
    }

    fn key_lt(&self, other: &Self) -> (r: bool) {
        str_lt(&self.0, &other.0) || (self.0 == other.0 && str_lt(&self.1, &other.1))
    }

    fn key_eq(&self, other: &Self) -> (r: bool) {
        self.0 == other.0 && self.1 == other.1
    }
}

impl SortKey for Vec<String> {
    open spec fn key_order() -> spec_fn(Seq<Seq<char>>, Seq<Seq<char>>) -> bool {
        chain_order()
    }

    fn key_lt(&self, other: &Self) -> (r: bool) {
        let mut i: usize = 0;
        while i < self.len() && i < other.len()
            invariant
                i <= self.len(),
                i <= other.len(),
                chain_order()(self.deep_view(), other.deep_view()) == lex_lt_from(
                    self.deep_view(),
                    other.deep_view(),
                    i as int,
                    name_order(),
                ),
            decreases self.len() - i,
        {
            if self[i] != other[i] {
                return str_lt(&self[i], &other[i]);
            }
            i = i + 1;
        }
        i < other.len()
    }

    fn key_eq(&self, other: &Self) -> (r: bool) {
        if self.len() != other.len() {
            assert(self.deep_view().len() != other.deep_view().len());
            return false;
        }
        let mut i: usize = 0;
        while i < self.len()
            invariant
                i <= self.len(),
                self.len() == other.len(),
                forall|k: int| 0 <= k < i ==> self.deep_view()[k] == other.deep_view()[k],
            decreases self.len() - i,
        {
            if self[i] != other[i] {
                assert(self.deep_view()[i as int] != other.deep_view()[i as int]);
                return false;
            }
            i = i + 1;
        }
        assert(self.deep_view() =~= other.deep_view());
        true
    }
}

/// Position in a sorted, duplicate-free vector at which `x` is, or would be
/// inserted: every earlier element sorts before `x`, and the element there,
/// if any, does not.
pub fn sorted_position<T: SortKey>(v: &Vec<T>, x: &T) -> (i: usize)
    requires
        strict_total(T::key_order()),
        strictly_sorted(v.deep_view(), T::key_order()),
    ensures
        i <= v.len(),
        forall|k: int| 0 <= k < i ==> T::key_order()(#[trigger] v.deep_view()[k], x.deep_view()),
        forall|k: int| i <= k < v.len() ==> !T::key_order()(#[trigger] v.deep_view()[k], x.deep_view()),
{
    let ghost o = T::key_order();
    let mut i: usize = 0;
    while i < v.len()
        invariant
            i <= v.len(),
            o == T::key_order(),
            strict_total(o),
            strictly_sorted(v.deep_view(), o),
            forall|k: int| 0 <= k < i ==> o(#[trigger] v.deep_view()[k], x.deep_view()),
        decreases v.len() - i,
    {
        if !v[i].key_lt(x) {
            proof {
                assert forall|k: int| i <= k < v.len() implies !o(#[trigger] v.deep_view()[k], x.deep_view()) by {
                    if k > i && o(v.deep_view()[k], x.deep_view()) {
                        assert(o(v.deep_view()[i as int], v.deep_view()[k]));
                    }
                }
            }
            return i;
        }
        i = i + 1;
    }
    i
}

/// Inserts `x` into a sorted, duplicate-free vector, unless an equal
/// element is already there.
pub fn insert_sorted<T: SortKey>(v: &mut Vec<T>, x: T)
    requires
        strict_total(T::key_order()),
        strictly_sorted(old(v).deep_view(), T::key_order()),
    ensures
        strictly_sorted(final(v).deep_view(), T::key_order()),
        final(v).deep_view().to_set() == old(v).deep_view().to_set().insert(x.deep_view()),
{
    let ghost o = T::key_order();
    let ghost old_dv = v.deep_view();
    let i = sorted_position(v, &x);
    if i < v.len() && v[i].key_eq(&x) {
        assert(old_dv[i as int] == x.deep_view());
        assert(old_dv.to_set().contains(x.deep_view()));
        assert(old_dv.to_set().insert(x.deep_view()) =~= old_dv.to_set());
        return;
    }
    let ghost xd = x.deep_view();
    proof {
        if i < v.len() {
            assert(o(xd, old_dv[i as int]));
        }
    }
    v.insert(i, x);
    let ghost new_dv = v.deep_view();
    assert(new_dv =~= old_dv.insert(i as int, xd));
    assert forall|a: int, b: int| 0 <= a < b < new_dv.len() implies #[trigger] o(new_dv[a], new_dv[b]) by {
        if a < i && b == i {
        } else if a == i && b > i {
            if b > i + 1 {
                assert(o(old_dv[i as int], old_dv[b - 1]));
            }
        } else if a < i && b > i {
            assert(o(old_dv[a], old_dv[b - 1]));
        } else if a > i {
            assert(o(old_dv[a - 1], old_dv[b - 1]));
        } else {
            assert(o(old_dv[a], old_dv[b]));
        }
    }
    assert forall|y| #[trigger] new_dv.to_set().contains(y) <==> old_dv.to_set().insert(xd).contains(y) by {
        if new_dv.to_set().contains(y) {
            let k = choose|k: int| 0 <= k < new_dv.len() && new_dv[k] == y;
            if k < i {
                assert(old_dv[k] == y);
            } else if k > i {
                assert(old_dv[k - 1] == y);
            }
        }
        if old_dv.to_set().contains(y) && y != xd {
            let k = choose|k: int| 0 <= k < old_dv.len() && old_dv[k] == y;
            if k < i {
                assert(new_dv[k] == y);
            } else {
                assert(new_dv[k + 1] == y);
            }
        }
        if y == xd {
            assert(new_dv[i as int] == y);
        }
    }
    assert(new_dv.to_set() =~= old_dv.to_set().insert(xd));
}

} // verus!
