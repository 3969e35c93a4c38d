//! Characters and strings: the few operations of `std` that the rest of the
//! library needs, and the lexicographic order of strings.

use vstd::prelude::*;
use vstd::string::*;

verus! {

/// The lowercase mapping of one character: the characters that
/// `char::to_lowercase` yields for it, in order.
pub uninterp spec fn char_lowercase(c: char) -> Seq<char>;

/// The lowercase form of a string, as `str::to_lowercase` returns it.
pub uninterp spec fn str_lowercase(s: Seq<char>) -> Seq<char>;

/// How `std` writes the exit code of a process with `{:?}`.
pub uninterp spec fn exit_code_text(code: Option<i32>) -> Seq<char>;

/// `String::push` appends one character to the string.
pub assume_specification[ String::push ](s: &mut String, c: char)
    ensures
        final(s)@ == old(s)@.push(c),
;

/// Calls `char::to_lowercase` and collects what it yields. Nothing is
/// claimed of the result but that it is the lowercase mapping of `c`.
#[verifier::external_body]
pub(crate) fn lowercase_of_char(c: char) -> (lowered: Vec<char>)
    ensures
        lowered@ == char_lowercase(c),
{
    c.to_lowercase().collect()
}

/// Calls `str::to_lowercase`. Nothing is claimed of the result but that it
/// is the lowercase form of `s`.
#[verifier::external_body]
pub(crate) fn lowercase_of_str(s: &str) -> (lowered: String)
    ensures
        lowered@ == str_lowercase(s@),
{
    s.to_lowercase()
}

/// Formats the exit code of a process with `{:?}`, as `std` writes an
/// `Option<i32>`. Nothing is claimed of the text but that it is that form.
#[verifier::external_body]
pub(crate) fn format_exit_code(code: Option<i32>) -> (text: String)
    ensures
        text@ == exit_code_text(code),
{
    format!("{:?}", code)
}

/// The character sequences of a sequence of strings.
pub open spec fn strings_view(names: Seq<String>) -> Seq<Seq<char>> {
    Seq::new(names.len(), |i: int| names[i]@)
}

/// The characters of a string.
pub fn str_chars(s: &str) -> (chars: Vec<char>)
    ensures
        chars@ == s@,
{
    let n: usize = s.unicode_len();
    let mut chars: Vec<char> = Vec::new();
    let mut i: usize = 0;
    while i < n
        invariant
            n == s@.len(),
            i <= n,
            chars@ == s@.subrange(0, i as int),
        decreases n - i,
    {
        chars.push(s.get_char(i));
        i += 1;
    }
    chars
}

/// Whether two strings hold the same characters.
pub fn str_eq(a: &str, b: &str) -> (same: bool)
    ensures
        same == (a@ == b@),
{
    let x = String::from_str(a);
    let y = String::from_str(b);
    x == y
}

/// Whether two strings agree on their first `k` characters.
pub open spec fn agree_before(a: Seq<char>, b: Seq<char>, k: int) -> bool {
    &&& 0 <= k <= a.len()
    &&& k <= b.len()
    &&& forall|j: int| 0 <= j < k ==> a[j] == b[j]
}

/// Whether `a` comes before `b` at position `k`: the two agree before
/// `k`, and there `a` ends while `b` goes on, or `a` has the smaller
/// character.
pub open spec fn less_at(a: Seq<char>, b: Seq<char>, k: int) -> bool {
    &&& agree_before(a, b, k)
    &&& k < b.len()
    &&& k < a.len() ==> a[k] < b[k]
}

/// The lexicographic order of strings by code point: whether `a` comes
/// strictly before `b`.
pub open spec fn str_less(a: Seq<char>, b: Seq<char>) -> bool {
    exists|k: int| less_at(a, b, k)
}

/// No string comes before itself, and of two strings at most one comes
/// before the other.
pub proof fn lemma_less_asymmetric(a: Seq<char>, b: Seq<char>)
    requires
        str_less(a, b),
    ensures
        !str_less(b, a),
        a != b,
{
    let k = choose|k: int| less_at(a, b, k);
    if str_less(b, a) {
        let m = choose|m: int| less_at(b, a, m);
        if k < m {
            assert(a[k] == b[k]);
        } else if m < k {
            assert(a[m] == b[m]);
        }
    }
}

/// The order is transitive.
pub proof fn lemma_less_transitive(a: Seq<char>, b: Seq<char>, c: Seq<char>)
    requires
        str_less(a, b),
        str_less(b, c),
    ensures
        str_less(a, c),
{
    let k = choose|k: int| less_at(a, b, k);
    let m = choose|m: int| less_at(b, c, m);
    let least = if k <= m {
        k
    } else {
        m
    };
    assert forall|j: int| 0 <= j < least implies a[j] == c[j] by {
        assert(a[j] == b[j]);
        assert(b[j] == c[j]);
    }
    if k < m {
        assert(b[k] == c[k]);
    } else if m < k {
        assert(a[m] == b[m]);
    }
    assert(less_at(a, c, least));
}

/// Two strings of which neither comes before the other agree as far as
/// both go.
proof fn lemma_agree_everywhere(a: Seq<char>, b: Seq<char>, k: int)
    requires
        !str_less(a, b),
        !str_less(b, a),
        0 <= k <= a.len(),
        k <= b.len(),
    ensures
        agree_before(a, b, k),
    decreases k,
{
    if k > 0 {
        lemma_agree_everywhere(a, b, k - 1);
        if a[k - 1] != b[k - 1] {
            assert(agree_before(b, a, k - 1));
            if a[k - 1] < b[k - 1] {
                assert(less_at(a, b, k - 1));
            } else {
                assert(less_at(b, a, k - 1));
            }
        }
    }
}

/// The order is total: of two different strings one comes before the
/// other.
pub proof fn lemma_less_total(a: Seq<char>, b: Seq<char>)
    requires
        !str_less(a, b),
        !str_less(b, a),
    ensures
        a == b,
{
    let k = if a.len() <= b.len() {
        a.len() as int
    } else {
        b.len() as int
    };
    lemma_agree_everywhere(a, b, k);
    assert(agree_before(b, a, k));
    if a.len() < b.len() {
        assert(less_at(a, b, k));
    } else if b.len() < a.len() {
        assert(less_at(b, a, k));
    }
    assert(a =~= b);
}

/// Whether `a` comes strictly before `b` in the lexicographic order by
/// code point.
pub fn chars_less(a: &Vec<char>, b: &Vec<char>) -> (less: bool)
    ensures
        less == str_less(a@, b@),
{
    let mut i: usize = 0;
    while i < a.len() && i < b.len()
        invariant
            agree_before(a@, b@, i as int),
        decreases a.len() - i,
    {
        if a[i] != b[i] {
            let less = a[i] < b[i];
            proof {
                if less {
                    assert(less_at(a@, b@, i as int));
                } else {
                    assert(agree_before(b@, a@, i as int));
                    assert(less_at(b@, a@, i as int));
                    lemma_less_asymmetric(b@, a@);
                }
            }
            return less;
        }
        i += 1;
    }
    proof {
        if i < b.len() {
            assert(less_at(a@, b@, i as int));
        } else {
            if a@ == b@ {
                if str_less(a@, b@) {
                    lemma_less_asymmetric(a@, b@);
                }
            } else {
                assert(agree_before(b@, a@, i as int));
                assert(i < a@.len()) by {
                    if i == a@.len() {
                        assert(a@ =~= b@);
                    }
                }
                assert(less_at(b@, a@, i as int));
                lemma_less_asymmetric(b@, a@);
            }
        }
    }
    i < b.len()
}

/// Whether `a` comes strictly before `b` in the lexicographic order by
/// code point.
pub fn str_before(a: &str, b: &str) -> (less: bool)
    ensures
        less == str_less(a@, b@),
{
    let x = str_chars(a);
    let y = str_chars(b);
    chars_less(&x, &y)
}

/// Whether `prefix` is how `s` begins.
pub fn starts_with(s: &str, prefix: &str) -> (found: bool)
    ensures
        found == prefix@.is_prefix_of(s@),
{
    let x = str_chars(s);
    let y = str_chars(prefix);
    if y.len() > x.len() {
        return false;
    }
    let mut i: usize = 0;
    while i < y.len()
        invariant
            x@ == s@,
            y@ == prefix@,
            y@.len() <= x@.len(),
            i <= y@.len(),
            forall|j: int| 0 <= j < i ==> x@[j] == y@[j],
        decreases y.len() - i,
    {
        if x[i] != y[i] {
            assert(x@.subrange(0, y@.len() as int)[i as int] != y@[i as int]);
            return false;
        }
        i += 1;
    }
    assert(x@.subrange(0, y@.len() as int) =~= y@);
    true
}

/// Whether two lists of names agree on their first `k` names.
pub open spec fn names_agree_before(a: Seq<Seq<char>>, b: Seq<Seq<char>>, k: int) -> bool {
    &&& 0 <= k <= a.len()
    &&& k <= b.len()
    &&& forall|j: int| 0 <= j < k ==> a[j] == b[j]
}

/// Whether list `a` comes before list `b` at position `k`: the two agree
/// before `k`, and there `a` ends while `b` goes on, or `a` has the name
/// that comes first.
pub open spec fn names_less_at(a: Seq<Seq<char>>, b: Seq<Seq<char>>, k: int) -> bool {
    &&& names_agree_before(a, b, k)
    &&& k < b.len()
    &&& k < a.len() ==> str_less(a[k], b[k])
}

/// The lexicographic order of lists of names: whether `a` comes strictly
/// before `b`.
pub open spec fn names_less(a: Seq<Seq<char>>, b: Seq<Seq<char>>) -> bool {
    exists|k: int| names_less_at(a, b, k)
}

/// Of two lists of names at most one comes before the other, and none
/// before itself.
pub proof fn lemma_names_less_asymmetric(a: Seq<Seq<char>>, b: Seq<Seq<char>>)
    requires
        names_less(a, b),
    ensures
        !names_less(b, a),
        a != b,
{
    let k = choose|k: int| names_less_at(a, b, k);
    if k < a.len() {
        lemma_less_asymmetric(a[k], b[k]);
    }
    if names_less(b, a) {
        let m = choose|m: int| names_less_at(b, a, m);
        if k < m {
            assert(b[k] == a[k]);
        } else if m < k {
            assert(a[m] == b[m]);
            lemma_less_asymmetric(b[m], a[m]);
        }
    }
}

/// The order of lists of names is transitive.
pub proof fn lemma_names_less_transitive(
    a: Seq<Seq<char>>,
    b: Seq<Seq<char>>,
    c: Seq<Seq<char>>,
)
    requires
        names_less(a, b),
        names_less(b, c),
    ensures
        names_less(a, c),
{
    let k = choose|k: int| names_less_at(a, b, k);
    let m = choose|m: int| names_less_at(b, c, m);
    let least = if k <= m {
        k
    } else {
        m
    };
    assert forall|j: int| 0 <= j < least implies a[j] == c[j] by {
        assert(a[j] == b[j]);
        assert(b[j] == c[j]);
    }
    if k < m {
        assert(b[k] == c[k]);
    } else if m < k {
        assert(a[m] == b[m]);
    } else if k < a.len() {
        lemma_less_transitive(a[k], b[k], c[k]);
    }
    assert(names_less_at(a, c, least));
}

/// Two lists of names of which neither comes before the other agree as
/// far as both go.
proof fn lemma_names_agree_everywhere(a: Seq<Seq<char>>, b: Seq<Seq<char>>, k: int)
    requires
        !names_less(a, b),
        !names_less(b, a),
        0 <= k <= a.len(),
        k <= b.len(),
    ensures
        names_agree_before(a, b, k),
    decreases k,
{
    if k > 0 {
        lemma_names_agree_everywhere(a, b, k - 1);
        if a[k - 1] != b[k - 1] {
            assert(names_agree_before(b, a, k - 1));
            if str_less(a[k - 1], b[k - 1]) {
                assert(names_less_at(a, b, k - 1));
            } else if str_less(b[k - 1], a[k - 1]) {
                assert(names_less_at(b, a, k - 1));
            } else {
                lemma_less_total(a[k - 1], b[k - 1]);
            }
        }
    }
}

/// The order of lists of names is total.
pub proof fn lemma_names_less_total(a: Seq<Seq<char>>, b: Seq<Seq<char>>)
    requires
        !names_less(a, b),
        !names_less(b, a),
    ensures
        a == b,
{
    let k = if a.len() <= b.len() {
        a.len() as int
    } else {
        b.len() as int
    };
    lemma_names_agree_everywhere(a, b, k);
    assert(names_agree_before(b, a, k));
    if a.len() < b.len() {
        assert(names_less_at(a, b, k));
    } else if b.len() < a.len() {
        assert(names_less_at(b, a, k));
    }
    assert(a =~= b);
}

/// Whether list `a` comes strictly before list `b` in the lexicographic
/// order of lists of names.
pub fn names_before(a: &Vec<String>, b: &Vec<String>) -> (less: bool)
    ensures
        less == names_less(strings_view(a@), strings_view(b@)),
{
    let ghost x = strings_view(a@);
    let ghost y = strings_view(b@);
    let mut i: usize = 0;
    while i < a.len() && i < b.len()
        invariant
            x == strings_view(a@),
            y == strings_view(b@),
            names_agree_before(x, y, i as int),
        decreases a.len() - i,
    {
        if !str_eq(a[i].as_str(), b[i].as_str()) {
            let less = str_before(a[i].as_str(), b[i].as_str());
            proof {
                if less {
                    assert(names_less_at(x, y, i as int));
                } else {
                    assert(names_agree_before(y, x, i as int));
                    if !str_less(y[i as int], x[i as int]) {
                        lemma_less_total(x[i as int], y[i as int]);
                    }
                    assert(names_less_at(y, x, i as int));
                    lemma_names_less_asymmetric(y, x);
                }
            }
            return less;
        }
        i += 1;
    }
    proof {
        if i < b.len() {
            assert(names_less_at(x, y, i as int));
        } else {
            if x == y {
                if names_less(x, y) {
                    lemma_names_less_asymmetric(x, y);
                }
            } else {
                assert(names_agree_before(y, x, i as int));
                assert(i < x.len()) by {
                    if i == x.len() {
                        assert(x =~= y);
                    }
                }
                assert(names_less_at(y, x, i as int));
                lemma_names_less_asymmetric(y, x);
            }
        }
    }
    i < b.len()
}

} // verus!
