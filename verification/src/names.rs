//! A set of names kept in lexicographic order.

use crate::text::{
    lemma_less_asymmetric, lemma_less_total, lemma_less_transitive, str_before, str_eq, str_less,
    strings_view,
};
use vstd::prelude::*;
use vstd::string::*;

verus! {

/// Whether every name comes strictly before all that follow it.
pub open spec fn strictly_sorted(names: Seq<Seq<char>>) -> bool {
    forall|i: int, j: int| 0 <= i < j < names.len() ==> str_less(names[i], names[j])
}

/// Whether `position` is where `name` stands in a sorted sequence, or
/// where it would have to be put: every name before it comes before
/// `name`, and none from there on does.
pub open spec fn is_position(names: Seq<Seq<char>>, name: Seq<char>, position: int) -> bool {
    &&& 0 <= position <= names.len()
    &&& forall|i: int| 0 <= i < position ==> str_less(#[trigger] names[i], name)
    &&& forall|i: int| position <= i < names.len() ==> !str_less(#[trigger] names[i], name)
}

/// A set of names. No name occurs twice, and the names stand in
/// lexicographic order by code point.
#[derive(Debug, Clone, PartialEq, Eq)]
pub struct SortedNames {
    pub names: Vec<String>,
}

impl View for SortedNames {
    type V = Seq<Seq<char>>;

    open spec fn view(&self) -> Seq<Seq<char>> {
        strings_view(self.names@)
    }
}

/// A sorted sequence holds a name only at the position of the name.
pub proof fn lemma_position_decides(names: Seq<Seq<char>>, name: Seq<char>, position: int)
    requires
        strictly_sorted(names),
        is_position(names, name, position),
    ensures
        names.contains(name) <==> position < names.len() && names[position] == name,
{
    if names.contains(name) {
        let i = choose|i: int| 0 <= i < names.len() && names[i] == name;
        if i < position {
            lemma_less_asymmetric(names[i], name);
        } else if i > position {
            assert(str_less(names[position], names[i]));
        }
    }
}

/// Putting a new name at its position keeps a sequence sorted.
pub proof fn lemma_insert_sorted(names: Seq<Seq<char>>, name: Seq<char>, position: int)
    requires
        strictly_sorted(names),
        is_position(names, name, position),
        !names.contains(name),
    ensures
        strictly_sorted(names.insert(position, name)),
{
    let longer = names.insert(position, name);
    assert forall|i: int, j: int| 0 <= i < j < longer.len() implies str_less(
        longer[i],
        longer[j],
    ) by {
        if j == position {
            assert(longer[i] == names[i]);
        } else if i == position {
            let after = names[j - 1];
            assert(longer[j] == after);
            assert(!str_less(after, name));
            assert(after != name);
            if !str_less(name, after) {
                lemma_less_total(name, after);
            }
        } else {
            let x = if i < position {
                i
            } else {
                i - 1
            };
            let y = if j < position {
                j
            } else {
                j - 1
            };
            assert(longer[i] == names[x]);
            assert(longer[j] == names[y]);
        }
    }
}

/// Two sorted sequences that hold the same names are the same sequence:
/// the order in which names were put in leaves no trace.
pub proof fn lemma_sorted_unique(a: Seq<Seq<char>>, b: Seq<Seq<char>>)
    requires
        strictly_sorted(a),
        strictly_sorted(b),
        forall|name: Seq<char>| a.contains(name) <==> b.contains(name),
    ensures
        a == b,
    decreases a.len(),
{
    if a.len() == 0 {
        if b.len() > 0 {
            assert(b.contains(b[0]));
        }
        assert(a =~= b);
    } else {
        assert(a.contains(a[0]));
        let i = choose|i: int| 0 <= i < b.len() && b[i] == a[0];
        assert(b.contains(b[0]));
        let j = choose|j: int| 0 <= j < a.len() && a[j] == b[0];
        if i > 0 {
            assert(str_less(b[0], b[i]));
            if j > 0 {
                assert(str_less(a[0], a[j]));
                lemma_less_asymmetric(b[0], b[i]);
            }
        }
        assert(a[0] == b[0]);
        let x = a.drop_first();
        let y = b.drop_first();
        assert forall|name: Seq<char>| x.contains(name) <==> y.contains(name) by {
            if x.contains(name) {
                let k = choose|k: int| 0 <= k < x.len() && x[k] == name;
                assert(a[k + 1] == name);
                assert(str_less(a[0], a[k + 1]));
                lemma_less_asymmetric(a[0], name);
                assert(a.contains(name));
                let m = choose|m: int| 0 <= m < b.len() && b[m] == name;
                assert(y[m - 1] == name);
            }
            if y.contains(name) {
                let k = choose|k: int| 0 <= k < y.len() && y[k] == name;
                assert(b[k + 1] == name);
                assert(str_less(b[0], b[k + 1]));
                lemma_less_asymmetric(b[0], name);
                assert(b.contains(name));
                let m = choose|m: int| 0 <= m < a.len() && a[m] == name;
                assert(x[m - 1] == name);
            }
        }
        assert(strictly_sorted(x)) by {
            assert forall|p: int, q: int| 0 <= p < q < x.len() implies str_less(x[p], x[q]) by {
                assert(str_less(a[p + 1], a[q + 1]));
            }
        }
        assert(strictly_sorted(y)) by {
            assert forall|p: int, q: int| 0 <= p < q < y.len() implies str_less(y[p], y[q]) by {
                assert(str_less(b[p + 1], b[q + 1]));
            }
        }
        lemma_sorted_unique(x, y);
        assert(a =~= seq![a[0]] + x);
        assert(b =~= seq![b[0]] + y);
    }
}

/// Putting a name into a sequence adds the name to what the sequence
/// holds, and nothing else.
pub proof fn lemma_insert_set(names: Seq<Seq<char>>, name: Seq<char>, position: int)
    requires
        0 <= position <= names.len(),
    ensures
        names.insert(position, name).to_set() == names.to_set().insert(name),
{
    let longer = names.insert(position, name);
    assert forall|other: Seq<char>| longer.to_set().contains(other) <==> names.to_set().insert(
        name,
    ).contains(other) by {
        if longer.contains(other) {
            let i = choose|i: int| 0 <= i < longer.len() && longer[i] == other;
            if i < position {
                assert(names[i] == other);
            } else if i > position {
                assert(names[i - 1] == other);
            }
        }
        if names.contains(other) {
            let i = choose|i: int| 0 <= i < names.len() && names[i] == other;
            if i < position {
                assert(longer[i] == other);
            } else {
                assert(longer[i + 1] == other);
            }
        }
        if other == name {
            assert(longer[position] == other);
        }
    }
    assert(longer.to_set() =~= names.to_set().insert(name));
}

impl SortedNames {
    /// Whether the names are in order, each once.
    pub open spec fn wf(&self) -> bool {
        strictly_sorted(self@)
    }

    /// The empty set.
    pub fn new() -> (names: Self)
        ensures
            names.wf(),
            names@ == Seq::<Seq<char>>::empty(),
    {
        let names = SortedNames { names: Vec::new() };
        assert(names@ =~= Seq::<Seq<char>>::empty());
        names
    }

    /// The number of names.
    pub fn len(&self) -> (n: usize)
        ensures
            n == self@.len(),
    {
        self.names.len()
    }

    /// The position of `name`, and whether the set holds it.
    pub fn locate(&self, name: &str) -> (found: (usize, bool))
        requires
            self.wf(),
        ensures
            is_position(self@, name@, found.0 as int),
            found.1 == self@.contains(name@),
    {
        let mut position: usize = 0;
        while position < self.names.len() && str_before(self.names[position].as_str(), name)
            invariant
                position <= self.names@.len(),
                forall|i: int| 0 <= i < position ==> str_less(#[trigger] self@[i], name@),
            decreases self.names.len() - position,
        {
            position += 1;
        }
        proof {
            assert forall|i: int| position <= i < self@.len() implies !str_less(
                #[trigger] self@[i],
                name@,
            ) by {
                assert(!str_less(self@[position as int], name@));
                if i > position && str_less(self@[i], name@) {
                    assert(str_less(self@[position as int], self@[i]));
                    lemma_less_transitive(self@[position as int], self@[i], name@);
                }
            }
            lemma_position_decides(self@, name@, position as int);
        }
        let found = position < self.names.len() && str_eq(self.names[position].as_str(), name);
        (position, found)
    }

    /// Whether the set holds `name`.
    pub fn contains(&self, name: &str) -> (found: bool)
        requires
            self.wf(),
        ensures
            found == self@.contains(name@),
    {
        self.locate(name).1
    }

    /// Puts `name` into the set. Returns the position of the name, and
    /// whether the name is new; a name that the set holds already leaves
    /// the set as it is.
    pub fn insert(&mut self, name: String) -> (placed: (usize, bool))
        requires
            old(self).wf(),
        ensures
            final(self).wf(),
            is_position(old(self)@, name@, placed.0 as int),
            placed.1 == !old(self)@.contains(name@),
            final(self)@ == if placed.1 {
                old(self)@.insert(placed.0 as int, name@)
            } else {
                old(self)@
            },
            final(self)@.to_set() == old(self)@.to_set().insert(name@),
    {
        let (position, found) = self.locate(name.as_str());
        let ghost before = self@;
        if !found {
            let ghost names_before = self.names@;
            self.names.insert(position, name);
            proof {
                assert(self@ =~= strings_view(names_before).insert(position as int, name@));
                lemma_insert_sorted(before, name@, position as int);
                lemma_insert_set(before, name@, position as int);
            }
        } else {
            assert(before.to_set().insert(name@) =~= before.to_set());
        }
        (position, !found)
    }
}

} // verus!
