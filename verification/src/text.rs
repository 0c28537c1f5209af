//! Text: equality, order and ordered lists of identifiers.
//!
//! Identifiers, type names and qualifiers are compared by their characters
//! and ordered lexicographically by code point.

use vstd::prelude::*;

verus! {

/// Lexicographic order of two texts by code point.
pub open spec fn precedes(a: Seq<char>, b: Seq<char>) -> bool
    decreases a.len(),
{
    if b.len() == 0 {
        false
    } else if a.len() == 0 {
        true
    } else if a[0] != b[0] {
        a[0] < b[0]
    } else {
        precedes(a.skip(1), b.skip(1))
    }
}

/// Every text in the list comes strictly before the ones after it.
pub open spec fn ascending(list: Seq<Seq<char>>) -> bool {
    forall|i: int, j: int|
        0 <= i < j < list.len() ==> #[trigger] precedes(list[i], list[j])
}

/// The members of `set` in ascending order.
pub open spec fn in_order(set: Set<Seq<char>>) -> Seq<Seq<char>> {
    choose|list: Seq<Seq<char>>| #![trigger ascending(list)] ascending(list) && list.to_set() == set
}

/// The decimal digits of a number.
pub open spec fn digits(n: nat) -> Seq<char>
    decreases n,
{
    let last = seq![('0' as u32 + (n % 10) as u32) as char];
    if n < 10 {
        last
    } else {
        digits(n / 10) + last
    }
}

/// A number in decimal notation.
pub open spec fn decimal(n: int) -> Seq<char> {
    if n < 0 {
        seq!['-'] + digits((-n) as nat)
    } else {
        digits(n as nat)
    }
}

/// Digits are written with the characters for digits.
proof fn lemma_digits(n: nat)
    ensures
        digits(n).len() > 0,
        forall|k: int| 0 <= k < digits(n).len() ==> '0' <= #[trigger] digits(n)[k] <= '9',
    decreases n,
{
    if n >= 10 {
        lemma_digits(n / 10);
    }
}

proof fn lemma_digits_injective(n: nat, m: nat)
    requires
        digits(n) == digits(m),
    ensures
        n == m,
    decreases n,
{
    let (a, b) = (digits(n), digits(m));
    assert(a.last() == ('0' as u32 + (n % 10) as u32) as char);
    assert(b.last() == ('0' as u32 + (m % 10) as u32) as char);
    assert(n % 10 == m % 10);
    if n >= 10 {
        lemma_digits(n / 10);
    }
    if m >= 10 {
        lemma_digits(m / 10);
    }
    if n >= 10 && m >= 10 {
        assert(a.drop_last() =~= digits(n / 10));
        assert(b.drop_last() =~= digits(m / 10));
        lemma_digits_injective(n / 10, m / 10);
    }
}

/// Numbers that are written alike are the same.
pub proof fn lemma_decimal_injective(n: int, m: int)
    requires
        decimal(n) == decimal(m),
    ensures
        n == m,
{
    let (p, q) = (if n < 0 { -n } else { n }, if m < 0 { -m } else { m });
    lemma_digits(p as nat);
    lemma_digits(q as nat);
    assert(n < 0 ==> decimal(n)[0] == '-');
    assert(m < 0 ==> decimal(m)[0] == '-');
    assert((n < 0) == (m < 0));
    if n < 0 {
        assert(decimal(n).skip(1) =~= digits(p as nat));
        assert(decimal(m).skip(1) =~= digits(q as nat));
    }
    lemma_digits_injective(p as nat, q as nat);
}

pub proof fn lemma_precedes_irreflexive(a: Seq<char>)
    ensures
        !precedes(a, a),
    decreases a.len(),
{
    if a.len() > 0 {
        lemma_precedes_irreflexive(a.skip(1));
    }
}

pub proof fn lemma_precedes_transitive(a: Seq<char>, b: Seq<char>, c: Seq<char>)
    requires
        precedes(a, b),
        precedes(b, c),
    ensures
        precedes(a, c),
    decreases a.len(),
{
    if a.len() > 0 && a[0] == b[0] && b[0] == c[0] {
        lemma_precedes_transitive(a.skip(1), b.skip(1), c.skip(1));
    }
}

/// Two different texts are ordered one way or the other.
pub proof fn lemma_precedes_total(a: Seq<char>, b: Seq<char>)
    ensures
        a == b || precedes(a, b) || precedes(b, a),
    decreases a.len(),
{
    if a.len() > 0 && b.len() > 0 && a[0] == b[0] {
        lemma_precedes_total(a.skip(1), b.skip(1));
        if a.skip(1) == b.skip(1) {
            assert(a =~= seq![a[0]] + a.skip(1));
            assert(b =~= seq![b[0]] + b.skip(1));
        }
    } else if a.len() == 0 && b.len() == 0 {
        assert(a =~= b);
    }
}

/// An ascending list is determined by its members.
pub proof fn lemma_ascending_unique(a: Seq<Seq<char>>, b: Seq<Seq<char>>)
    requires
        ascending(a),
        ascending(b),
        a.to_set() == b.to_set(),
    ensures
        a == b,
    decreases a.len(),
{
    if a.len() == 0 {
        if b.len() > 0 {
            assert(b.to_set().contains(b[0]));
            assert(a.contains(b[0]));
        }
        assert(a =~= b);
    } else if b.len() == 0 {
        assert(a.to_set().contains(a[0]));
        assert(b.contains(a[0]));
    } else {
        let x = a.last();
        let y = b.last();
        assert(a.to_set().contains(x) && b.to_set().contains(y));
        assert(b.contains(x) && a.contains(y));
        let i = choose|i: int| 0 <= i < b.len() && b[i] == x;
        let j = choose|j: int| 0 <= j < a.len() && a[j] == y;
        if x != y {
            assert(precedes(b[i], b[b.len() - 1]));
            assert(precedes(a[j], a[a.len() - 1]));
            lemma_precedes_transitive(x, y, x);
            lemma_precedes_irreflexive(x);
        }
        let c = a.drop_last();
        let d = b.drop_last();
        assert forall|t: Seq<char>| c.to_set().contains(t) implies d.to_set().contains(t) by {
            let k = choose|k: int| 0 <= k < c.len() && c[k] == t;
            assert(a[k] == t);
            assert(a.to_set().contains(t));
            assert(b.contains(t));
            let m = choose|m: int| 0 <= m < b.len() && b[m] == t;
            if m == b.len() - 1 {
                assert(precedes(a[k], a[a.len() - 1]));
                lemma_precedes_irreflexive(x);
            }
            assert(d[m] == t);
        }
        assert forall|t: Seq<char>| d.to_set().contains(t) implies c.to_set().contains(t) by {
            let k = choose|k: int| 0 <= k < d.len() && d[k] == t;
            assert(b[k] == t);
            assert(b.to_set().contains(t));
            assert(a.contains(t));
            let m = choose|m: int| 0 <= m < a.len() && a[m] == t;
            if m == a.len() - 1 {
                assert(precedes(b[k], b[b.len() - 1]));
                lemma_precedes_irreflexive(y);
            }
            assert(c[m] == t);
        }
        assert(c.to_set() =~= d.to_set());
        assert forall|p: int, q: int| 0 <= p < q < c.len() implies #[trigger] precedes(
            c[p],
            c[q],
        ) by {
            assert(precedes(a[p], a[q]));
        }
        assert forall|p: int, q: int| 0 <= p < q < d.len() implies #[trigger] precedes(
            d[p],
            d[q],
        ) by {
            assert(precedes(b[p], b[q]));
        }
        lemma_ascending_unique(c, d);
        assert(a =~= c.push(x));
        assert(b =~= d.push(y));
    }
}

/// A list that is ascending and holds exactly `set` is `in_order(set)`.
pub proof fn lemma_in_order(list: Seq<Seq<char>>, set: Set<Seq<char>>)
    requires
        ascending(list),
        list.to_set() == set,
    ensures
        list == in_order(set),
{
    lemma_ascending_unique(list, in_order(set));
}

/// An ascending list has room for one more text.
proof fn lemma_room(list: Seq<Seq<char>>, text: Seq<char>) -> (longer: Seq<Seq<char>>)
    requires
        ascending(list),
        !list.contains(text),
    ensures
        ascending(longer),
        longer.to_set() == list.to_set().insert(text),
    decreases list.len(),
{
    if list.len() == 0 || precedes(list.last(), text) {
        let longer = list.push(text);
        assert forall|i: int, j: int| 0 <= i < j < longer.len() implies #[trigger] precedes(
            longer[i],
            longer[j],
        ) by {
            if j < list.len() {
                assert(precedes(list[i], list[j]));
            } else if i < list.len() - 1 {
                assert(precedes(list[i], list[list.len() - 1]));
                lemma_precedes_transitive(list[i], list.last(), text);
            }
        }
        list.lemma_push_to_set_commute(text);
        longer
    } else {
        let front = list.drop_last();
        let last = list.last();
        assert(list[list.len() - 1] == last);
        lemma_precedes_total(last, text);
        assert forall|i: int, j: int| 0 <= i < j < front.len() implies #[trigger] precedes(
            front[i],
            front[j],
        ) by {
            assert(precedes(list[i], list[j]));
        }
        if front.contains(text) {
            let k = choose|k: int| 0 <= k < front.len() && front[k] == text;
            assert(list[k] == text);
        }
        let placed = lemma_room(front, text);
        let longer = placed.push(last);
        assert forall|i: int, j: int| 0 <= i < j < longer.len() implies #[trigger] precedes(
            longer[i],
            longer[j],
        ) by {
            if j < placed.len() {
                assert(precedes(placed[i], placed[j]));
            } else {
                assert(placed.to_set().contains(placed[i]));
                if placed[i] != text {
                    assert(front.contains(placed[i]));
                    let k = choose|k: int| 0 <= k < front.len() && front[k] == placed[i];
                    assert(precedes(list[k], list[list.len() - 1]));
                }
            }
        }
        placed.lemma_push_to_set_commute(last);
        front.lemma_push_to_set_commute(last);
        assert(front.push(last) =~= list);
        assert(longer.to_set() =~= list.to_set().insert(text));
        longer
    }
}

/// A finite set can be put in order.
pub proof fn lemma_orderable(set: Set<Seq<char>>)
    requires
        set.finite(),
    ensures
        ascending(in_order(set)),
        in_order(set).to_set() == set,
    decreases set.len(),
{
    if set.len() == 0 {
        let list = Seq::<Seq<char>>::empty();
        assert(list.to_set() =~= set);
        assert(ascending(list));
    } else {
        let text = set.choose();
        lemma_orderable(set.remove(text));
        let rest = in_order(set.remove(text));
        if rest.contains(text) {
            assert(rest.to_set().contains(text));
        }
        let list = lemma_room(rest, text);
        assert(list.to_set() =~= set);
        assert(ascending(list));
    }
}

/// Whether two texts hold the same characters.
///
/// Trusted: `str::eq` compares the two texts byte by byte, which is equality
/// of their characters.
#[verifier::external_body]
pub(crate) fn same_text(a: &str, b: &str) -> (same: bool)
    ensures
        same == (a@ == b@),
{
    a == b
}

/// Whether `a` comes before `b`.
///
/// Trusted: the order of `str` is lexicographic by byte value, which the
/// standard library documents to be the order of the code points.
#[verifier::external_body]
pub(crate) fn text_precedes(a: &str, b: &str) -> (before: bool)
    ensures
        before == precedes(a@, b@),
{
    a < b
}

/// A number in decimal notation.
///
/// Trusted: `usize::to_string` writes a number in decimal.
#[verifier::external_body]
pub(crate) fn number(n: usize) -> (written: String)
    ensures
        written@ == decimal(n as int),
{
    n.to_string()
}

/// Whether `names` holds `name`.
pub(crate) fn contains_text(names: &Vec<String>, name: &str) -> (found: bool)
    ensures
        found == names.deep_view().contains(name@),
{
    let mut i: usize = 0;
    while i < names.len()
        invariant
            i <= names.len(),
            forall|k: int| 0 <= k < i ==> names.deep_view()[k] != name@,
        decreases names.len() - i,
    {
        if same_text(names[i].as_str(), name) {
            assert(names.deep_view()[i as int] == name@);
            return true;
        }
        i += 1;
    }
    false
}

/// Add `name` to an ascending list, unless it is there already.
pub(crate) fn insert_in_order(list: &mut Vec<String>, name: String)
    requires
        ascending(old(list).deep_view()),
    ensures
        ascending(final(list).deep_view()),
        final(list).deep_view().to_set() == old(list).deep_view().to_set().insert(name@),
{
    let ghost before = list.deep_view();
    let mut i: usize = 0;
    while i < list.len() && text_precedes(list[i].as_str(), name.as_str())
        invariant
            i <= list.len(),
            list.deep_view() == before,
            forall|k: int| 0 <= k < i ==> precedes(#[trigger] before[k], name@),
        decreases list.len() - i,
    {
        i += 1;
    }
    if i < list.len() && same_text(list[i].as_str(), name.as_str()) {
        proof {
            assert(before[i as int] == name@);
            assert(before.to_set() =~= before.to_set().insert(name@));
        }
        return;
    }
    proof {
        if i < before.len() {
            lemma_precedes_total(before[i as int], name@);
        }
    }
    let ghost named = name@;
    list.insert(i, name);
    proof {
        let after = list.deep_view();
        assert(after =~= before.insert(i as int, named));
        assert forall|p: int, q: int| 0 <= p < q < after.len() implies #[trigger] precedes(
            after[p],
            after[q],
        ) by {
            if p < i && q < i {
                assert(precedes(before[p], before[q]));
            } else if p < i && q == i {
            } else if p < i {
                assert(precedes(before[p], before[q - 1]));
            } else if p == i {
                if q - 1 > i {
                    assert(precedes(before[i as int], before[q - 1]));
                    lemma_precedes_transitive(named, before[i as int], before[q - 1]);
                }
            } else {
                assert(precedes(before[p - 1], before[q - 1]));
            }
        }
        assert forall|t: Seq<char>| after.to_set().contains(t) <==> before.to_set().insert(
            named,
        ).contains(t) by {
            if after.contains(t) {
                let k = choose|k: int| 0 <= k < after.len() && after[k] == t;
                if k < i {
                    assert(before[k] == t);
                } else if k > i {
                    assert(before[k - 1] == t);
                }
            }
            if before.contains(t) {
                let k = choose|k: int| 0 <= k < before.len() && before[k] == t;
                if k < i {
                    assert(after[k] == t);
                } else {
                    assert(after[k + 1] == t);
                }
            }
            assert(after[i as int] == named);
        }
        assert(after.to_set() =~= before.to_set().insert(named));
    }
}

} // verus!
