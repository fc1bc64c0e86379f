//! Strings as sequences of characters, and ordered sets of strings.

use vstd::prelude::*;
use vstd::string::StringExecFns;

verus! {

/// `str::eq` of the standard library: two string slices are equal exactly
/// when they hold the same characters.
pub assume_specification[ <str as PartialEq>::eq ](a: &str, b: &str) -> (r: bool)
    ensures
        r == (a@ == b@),
;

/// Whether two string slices hold the same characters.
pub fn same(a: &str, b: &str) -> (r: bool)
    ensures
        r == (a@ == b@),
{
    *a == *b
}

/// The character sequences of a sequence of strings.
pub open spec fn strs(v: Seq<String>) -> Seq<Seq<char>> {
    v.map_values(|s: String| s@)
}

/// `s` with `x` appended unless it already occurs.
pub open spec fn push_distinct<A>(s: Seq<A>, x: A) -> Seq<A> {
    if s.contains(x) {
        s
    } else {
        s.push(x)
    }
}

/// Appending an element unless it occurs keeps a sequence free of
/// duplicates, keeps what it held, and makes the element a member.
pub proof fn lemma_push_distinct<A>(s: Seq<A>, x: A)
    requires
        s.no_duplicates(),
    ensures
        push_distinct(s, x).no_duplicates(),
        push_distinct(s, x).to_set() == s.to_set().insert(x),
        forall|i: int| 0 <= i < s.len() ==> push_distinct(s, x)[i] == s[i],
        s.len() <= push_distinct(s, x).len() <= s.len() + 1,
{
    let p = push_distinct(s, x);
    assert forall|y: A| p.to_set().contains(y) == s.to_set().insert(x).contains(y) by {
        if s.contains(x) {
        } else {
            if p.contains(y) {
                let i = choose|i: int| 0 <= i < p.len() && p[i] == y;
                if i < s.len() {
                    assert(s[i] == y);
                }
            }
            if s.contains(y) {
                let i = choose|i: int| 0 <= i < s.len() && s[i] == y;
                assert(p[i] == y);
            }
            assert(p[s.len() as int] == x);
        }
    }
    assert(p.to_set() =~= s.to_set().insert(x));
}

/// An ordered set of strings: no string occurs twice, and the strings keep
/// the order in which they were first inserted.
pub struct StringSet {
    pub(crate) items: Vec<String>,
}

impl View for StringSet {
    type V = Seq<Seq<char>>;

    /// The strings of the set, in insertion order.
    open(crate) spec fn view(&self) -> Seq<Seq<char>> {
        strs(self.items@)
    }
}

impl StringSet {
    /// No string occurs twice.
    pub open(crate) spec fn wf(&self) -> bool {
        self@.no_duplicates()
    }

    /// The empty set.
    pub fn new() -> (s: Self)
        ensures
            s.wf(),
            s@ == Seq::<Seq<char>>::empty(),
    {
        let s = StringSet { items: Vec::new() };
        assert(s@ =~= Seq::<Seq<char>>::empty());
        s
    }

    /// The number of members.
    pub fn len(&self) -> (n: usize)
        ensures
            n == self@.len(),
    {
        self.items.len()
    }

    /// The string at position `i`.
    pub fn get(&self, i: usize) -> (s: &String)
        requires
            i < self@.len(),
        ensures
            s@ == self@[i as int],
    {
        &self.items[i]
    }

    /// The position of `x`, if it is a member.
    pub fn index_of(&self, x: &str) -> (r: Option<usize>)
        ensures
            r matches Some(i) ==> i < self@.len() && self@[i as int] == x@,
            r is None ==> !self@.contains(x@),
    {
        let mut i: usize = 0;
        while i < self.items.len()
            invariant
                i <= self.items.len(),
                forall|j: int| 0 <= j < i ==> self@[j] != x@,
            decreases self.items.len() - i,
        {
            assert(self@[i as int] == self.items@[i as int]@);
            if same(self.items[i].as_str(), x) {
                return Some(i);
            }
            i += 1;
        }
        None
    }

    /// Whether `x` is a member.
    pub fn contains(&self, x: &str) -> (r: bool)
        ensures
            r == self@.contains(x@),
    {
        self.index_of(x).is_some()
    }

    /// Inserts `x` unless it is already a member; says whether it was added.
    pub fn insert(&mut self, x: String) -> (added: bool)
        requires
            old(self).wf(),
        ensures
            final(self).wf(),
            final(self)@ == push_distinct(old(self)@, x@),
            added == !old(self)@.contains(x@),
    {
        proof {
            lemma_push_distinct(self@, x@);
        }
        if self.contains(x.as_str()) {
            false
        } else {
            self.items.push(x);
            assert(self@ =~= old(self)@.push(x@));
            true
        }
    }

    /// A copy of the set.
    pub fn clone_set(&self) -> (set: StringSet)
        ensures
            set@ == self@,
    {
        StringSet { items: clone_strings(&self.items) }
    }

    /// The members, in insertion order.
    pub fn to_vec(&self) -> (v: Vec<String>)
        ensures
            strs(v@) == self@,
    {
        let mut v: Vec<String> = Vec::new();
        let mut i: usize = 0;
        while i < self.items.len()
            invariant
                i <= self.items.len(),
                v@.len() == i,
                forall|j: int| 0 <= j < i ==> v@[j]@ == self@[j],
            decreases self.items.len() - i,
        {
            v.push(self.items[i].clone());
            i += 1;
        }
        assert(strs(v@) =~= self@);
        v
    }
}

/// The parts joined, with `sep` between neighbours.
pub open spec fn join(parts: Seq<Seq<char>>, sep: Seq<char>) -> Seq<char>
    decreases parts.len(),
{
    if parts.len() == 0 {
        Seq::empty()
    } else if parts.len() == 1 {
        parts[0]
    } else {
        join(parts.drop_last(), sep) + sep + parts.last()
    }
}

/// The strings of `parts` joined, with `sep` between neighbours.
pub fn join_strings(parts: &Vec<String>, sep: &str) -> (r: String)
    ensures
        r@ == join(strs(parts@), sep@),
{
    let ghost all = strs(parts@);
    let mut r = String::new();
    let mut i: usize = 0;
    while i < parts.len()
        invariant
            all == strs(parts@),
            i <= parts.len(),
            r@ == join(all.take(i as int), sep@),
        decreases parts.len() - i,
    {
        proof {
            assert(all.take(i + 1).drop_last() =~= all.take(i as int));
            assert(all.take(i + 1).last() == parts@[i as int]@);
            if i == 0 {
                assert(r@ + parts@[0]@ =~= parts@[0]@);
                assert(all.take(1)[0] == parts@[0]@);
            }
        }
        if i > 0 {
            r.append(sep);
        }
        r.append(parts[i].as_str());
        i += 1;
    }
    assert(all.take(parts.len() as int) =~= all);
    r
}

/// The character of a digit.
pub open spec fn digit(d: nat) -> char {
    if d == 0 {
        '0'
    } else if d == 1 {
        '1'
    } else if d == 2 {
        '2'
    } else if d == 3 {
        '3'
    } else if d == 4 {
        '4'
    } else if d == 5 {
        '5'
    } else if d == 6 {
        '6'
    } else if d == 7 {
        '7'
    } else if d == 8 {
        '8'
    } else {
        '9'
    }
}

/// A number in decimal notation.
pub open spec fn digits(n: nat) -> Seq<char>
    decreases n,
{
    if n < 10 {
        seq![digit(n)]
    } else {
        digits(n / 10).push(digit(n % 10))
    }
}

/// The text of a digit.
fn digit_text(d: usize) -> (r: &'static str)
    requires
        d < 10,
    ensures
        r@ == seq![digit(d as nat)],
{
    proof {
        reveal_strlit("0");
        reveal_strlit("1");
        reveal_strlit("2");
        reveal_strlit("3");
        reveal_strlit("4");
        reveal_strlit("5");
        reveal_strlit("6");
        reveal_strlit("7");
        reveal_strlit("8");
        reveal_strlit("9");
    }
    let r = if d == 0 {
        "0"
    } else if d == 1 {
        "1"
    } else if d == 2 {
        "2"
    } else if d == 3 {
        "3"
    } else if d == 4 {
        "4"
    } else if d == 5 {
        "5"
    } else if d == 6 {
        "6"
    } else if d == 7 {
        "7"
    } else if d == 8 {
        "8"
    } else {
        "9"
    };
    assert(r@ =~= seq![digit(d as nat)]);
    r
}

/// `n` in decimal notation.
pub fn decimal(n: usize) -> (r: String)
    ensures
        r@ == digits(n as nat),
    decreases n,
{
    if n < 10 {
        owned(digit_text(n))
    } else {
        let mut r = decimal(n / 10);
        let ghost before = r@;
        r.append(digit_text(n % 10));
        assert(r@ =~= before.push(digit((n % 10) as nat)));
        r
    }
}

/// An owned copy of a string slice.
pub fn owned(s: &str) -> (r: String)
    ensures
        r@ == s@,
{
    s.to_owned()
}

/// A copy of a vector of strings.
pub fn clone_strings(v: &Vec<String>) -> (r: Vec<String>)
    ensures
        strs(r@) == strs(v@),
{
    let mut r: Vec<String> = Vec::new();
    let mut i: usize = 0;
    while i < v.len()
        invariant
            i <= v.len(),
            r@.len() == i,
            forall|j: int| 0 <= j < i ==> r@[j]@ == v@[j]@,
        decreases v.len() - i,
    {
        r.push(v[i].clone());
        i += 1;
    }
    assert(strs(r@) =~= strs(v@));
    r
}

} // verus!
