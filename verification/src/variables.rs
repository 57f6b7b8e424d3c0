//! The store of global variables: names bound to values.

use vstd::prelude::*;

use crate::tokenizer::{ValueEnum, ValueV};

verus! {

/// Names bound to values. A name is bound at most once in the view; the
/// first entry for a name is the one that counts.
pub struct Variables {
    entries: Vec<(String, ValueEnum)>,
}

/// The bindings that a list of entries makes: the first entry for a name wins.
pub open spec fn bindings(e: Seq<(String, ValueEnum)>) -> Map<Seq<char>, ValueV>
    decreases e.len(),
{
    if e.len() == 0 {
        Map::empty()
    } else {
        bindings(e.drop_first()).insert(e[0].0@, e[0].1@)
    }
}

/// The index of the first entry for `k`, counted from `from`.
pub open spec fn first_entry(e: Seq<(String, ValueEnum)>, k: Seq<char>, i: int) -> bool {
    0 <= i < e.len() && e[i].0@ == k && forall|j: int| 0 <= j < i ==> e[j].0@ != k
}

proof fn lemma_bindings_absent(e: Seq<(String, ValueEnum)>, k: Seq<char>)
    requires
        forall|j: int| 0 <= j < e.len() ==> e[j].0@ != k,
    ensures
        !bindings(e).contains_key(k),
    decreases e.len(),
{
    if e.len() > 0 {
        lemma_bindings_absent(e.drop_first(), k);
    }
}

proof fn lemma_bindings_first(e: Seq<(String, ValueEnum)>, k: Seq<char>, i: int)
    requires
        first_entry(e, k, i),
    ensures
        bindings(e).contains_key(k),
        bindings(e)[k] == e[i].1@,
    decreases e.len(),
{
    if i > 0 {
        assert(first_entry(e.drop_first(), k, i - 1));
        lemma_bindings_first(e.drop_first(), k, i - 1);
    }
}

proof fn lemma_bindings_update(e: Seq<(String, ValueEnum)>, k: Seq<char>, i: int, x: (String, ValueEnum))
    requires
        first_entry(e, k, i),
        x.0@ == k,
    ensures
        bindings(e.update(i, x)) == bindings(e).insert(k, x.1@),
    decreases e.len(),
{
    if i == 0 {
        assert(e.update(i, x).drop_first() =~= e.drop_first());
        assert(bindings(e.update(i, x)) =~= bindings(e).insert(k, x.1@));
    } else {
        assert(first_entry(e.drop_first(), k, i - 1));
        lemma_bindings_update(e.drop_first(), k, i - 1, x);
        assert(e.update(i, x).drop_first() =~= e.drop_first().update(i - 1, x));
        assert(e[0].0@ != k);
        assert(bindings(e.update(i, x)) =~= bindings(e).insert(k, x.1@));
    }
}

proof fn lemma_bindings_push(e: Seq<(String, ValueEnum)>, x: (String, ValueEnum))
    requires
        forall|j: int| 0 <= j < e.len() ==> e[j].0@ != x.0@,
    ensures
        bindings(e.push(x)) == bindings(e).insert(x.0@, x.1@),
    decreases e.len(),
{
    if e.len() == 0 {
        let ex = e.push(x);
        assert(ex.drop_first() =~= Seq::<(String, ValueEnum)>::empty());
        assert(ex[0] == x);
        assert(bindings(ex.drop_first()) == Map::<Seq<char>, ValueV>::empty());
        assert(bindings(ex) == bindings(ex.drop_first()).insert(x.0@, x.1@));
        assert(bindings(ex) =~= bindings(e).insert(x.0@, x.1@));
    } else {
        lemma_bindings_push(e.drop_first(), x);
        assert(e.push(x).drop_first() =~= e.drop_first().push(x));
        assert(e.push(x)[0] == e[0]);
        assert(e[0].0@ != x.0@);
        assert(bindings(e.push(x)) =~= bindings(e).insert(x.0@, x.1@));
    }
}

impl View for Variables {
    type V = Map<Seq<char>, ValueV>;

    closed spec fn view(&self) -> Map<Seq<char>, ValueV> {
        bindings(self.entries@)
    }
}

impl Variables {
    /// No variable is bound.
    pub fn new() -> (r: Variables)
        ensures
            r@ == Map::<Seq<char>, ValueV>::empty(),
    {
        Variables { entries: Vec::new() }
    }

    /// The index of the entry for `name`, if there is one.
    fn find(&self, name: &str) -> (r: Option<usize>)
        ensures
            match r {
                Some(i) => first_entry(self.entries@, name@, i as int),
                None => forall|j: int|
                    0 <= j < self.entries@.len() ==> self.entries@[j].0@ != name@,
            },
    {
        let mut i: usize = 0;
        while i < self.entries.len()
            invariant
                i <= self.entries@.len(),
                forall|j: int| 0 <= j < i ==> self.entries@[j].0@ != name@,
            decreases self.entries.len() - i,
        {
            if str_equal(self.entries[i].0.as_str(), name) {
                return Some(i);
            }
            i += 1;
        }
        None
    }

    /// The value bound to `name`.
    pub fn get(&self, name: &str) -> (r: Option<&ValueEnum>)
        ensures
            match r {
                Some(v) => self@.contains_key(name@) && v@ == self@[name@],
                None => !self@.contains_key(name@),
            },
    {
        match self.find(name) {
            Some(i) => {
                proof {
                    lemma_bindings_first(self.entries@, name@, i as int);
                }
                Some(&self.entries[i].1)
            },
            None => {
                proof {
                    lemma_bindings_absent(self.entries@, name@);
                }
                None
            },
        }
    }

    /// Binds `name` to `value`, in place of what it was bound to.
    pub fn insert(&mut self, name: String, value: ValueEnum)
        ensures
            final(self)@ == old(self)@.insert(name@, value@),
    {
        let ghost k = name@;
        let ghost vv = value@;
        match self.find(name.as_str()) {
            Some(i) => {
                proof {
                    lemma_bindings_update(self.entries@, k, i as int, (name, value));
                }
                self.entries.set(i, (name, value));
            },
            None => {
                proof {
                    lemma_bindings_push(self.entries@, (name, value));
                }
                self.entries.push((name, value));
            },
        }
    }

    /// Unbinds every name.
    pub fn clear(&mut self)
        ensures
            final(self)@ == Map::<Seq<char>, ValueV>::empty(),
    {
        self.entries = Vec::new();
    }
}

/// A line of block code: pairs of a token's class and its value.
pub open spec fn line_view(l: Seq<(String, ValueEnum)>) -> Seq<(Seq<char>, ValueV)> {
    l.map_values(|p: (String, ValueEnum)| (p.0@, p.1@))
}

/// The lines of a block.
pub open spec fn block_view(b: Seq<Vec<(String, ValueEnum)>>) -> Seq<Seq<(Seq<char>, ValueV)>> {
    b.map_values(|l: Vec<(String, ValueEnum)>| line_view(l@))
}

/// Function names bound to their lines (the first is the `FN` line).
pub struct Functions {
    entries: Vec<(String, Vec<Vec<(String, ValueEnum)>>)>,
}

pub open spec fn function_bindings(e: Seq<(String, Vec<Vec<(String, ValueEnum)>>)>) -> Map<
    Seq<char>,
    Seq<Seq<(Seq<char>, ValueV)>>,
>
    decreases e.len(),
{
    if e.len() == 0 {
        Map::empty()
    } else {
        function_bindings(e.drop_first()).insert(e[0].0@, block_view(e[0].1@))
    }
}

pub open spec fn first_function(e: Seq<(String, Vec<Vec<(String, ValueEnum)>>)>, k: Seq<char>, i: int) -> bool {
    0 <= i < e.len() && e[i].0@ == k && forall|j: int| 0 <= j < i ==> e[j].0@ != k
}

proof fn lemma_functions_absent(e: Seq<(String, Vec<Vec<(String, ValueEnum)>>)>, k: Seq<char>)
    requires
        forall|j: int| 0 <= j < e.len() ==> e[j].0@ != k,
    ensures
        !function_bindings(e).contains_key(k),
    decreases e.len(),
{
    if e.len() > 0 {
        lemma_functions_absent(e.drop_first(), k);
    }
}

proof fn lemma_functions_first(e: Seq<(String, Vec<Vec<(String, ValueEnum)>>)>, k: Seq<char>, i: int)
    requires
        first_function(e, k, i),
    ensures
        function_bindings(e).contains_key(k),
        function_bindings(e)[k] == block_view(e[i].1@),
    decreases e.len(),
{
    if i > 0 {
        assert(first_function(e.drop_first(), k, i - 1));
        lemma_functions_first(e.drop_first(), k, i - 1);
    }
}

proof fn lemma_functions_update(
    e: Seq<(String, Vec<Vec<(String, ValueEnum)>>)>,
    k: Seq<char>,
    i: int,
    x: (String, Vec<Vec<(String, ValueEnum)>>),
)
    requires
        first_function(e, k, i),
        x.0@ == k,
    ensures
        function_bindings(e.update(i, x)) == function_bindings(e).insert(k, block_view(x.1@)),
    decreases e.len(),
{
    if i == 0 {
        assert(e.update(i, x).drop_first() =~= e.drop_first());
        assert(function_bindings(e.update(i, x)) =~= function_bindings(e).insert(k, block_view(x.1@)));
    } else {
        assert(first_function(e.drop_first(), k, i - 1));
        lemma_functions_update(e.drop_first(), k, i - 1, x);
        assert(e.update(i, x).drop_first() =~= e.drop_first().update(i - 1, x));
        assert(e[0].0@ != k);
        assert(function_bindings(e.update(i, x)) =~= function_bindings(e).insert(k, block_view(x.1@)));
    }
}

proof fn lemma_functions_push(e: Seq<(String, Vec<Vec<(String, ValueEnum)>>)>, x: (String, Vec<Vec<(String, ValueEnum)>>))
    requires
        forall|j: int| 0 <= j < e.len() ==> e[j].0@ != x.0@,
    ensures
        function_bindings(e.push(x)) == function_bindings(e).insert(x.0@, block_view(x.1@)),
    decreases e.len(),
{
    let ex = e.push(x);
    if e.len() == 0 {
        assert(ex.drop_first() =~= Seq::<(String, Vec<Vec<(String, ValueEnum)>>)>::empty());
        assert(ex[0] == x);
        assert(function_bindings(ex.drop_first()) == Map::<Seq<char>, Seq<Seq<(Seq<char>, ValueV)>>>::empty());
        assert(function_bindings(ex) =~= function_bindings(e).insert(x.0@, block_view(x.1@)));
    } else {
        lemma_functions_push(e.drop_first(), x);
        assert(ex.drop_first() =~= e.drop_first().push(x));
        assert(ex[0] == e[0]);
        assert(function_bindings(ex) =~= function_bindings(e).insert(x.0@, block_view(x.1@)));
    }
}

impl View for Functions {
    type V = Map<Seq<char>, Seq<Seq<(Seq<char>, ValueV)>>>;

    closed spec fn view(&self) -> Map<Seq<char>, Seq<Seq<(Seq<char>, ValueV)>>> {
        function_bindings(self.entries@)
    }
}

impl Functions {
    /// No function is defined.
    pub fn new() -> (r: Functions)
        ensures
            r@ == Map::<Seq<char>, Seq<Seq<(Seq<char>, ValueV)>>>::empty(),
    {
        Functions { entries: Vec::new() }
    }

    fn find(&self, name: &str) -> (r: Option<usize>)
        ensures
            match r {
                Some(i) => first_function(self.entries@, name@, i as int),
                None => forall|j: int|
                    0 <= j < self.entries@.len() ==> self.entries@[j].0@ != name@,
            },
    {
        let mut i: usize = 0;
        while i < self.entries.len()
            invariant
                i <= self.entries@.len(),
                forall|j: int| 0 <= j < i ==> self.entries@[j].0@ != name@,
            decreases self.entries.len() - i,
        {
            if str_equal(self.entries[i].0.as_str(), name) {
                return Some(i);
            }
            i += 1;
        }
        None
    }

    /// The lines of the function `name`.
    pub fn get(&self, name: &str) -> (r: Option<&Vec<Vec<(String, ValueEnum)>>>)
        ensures
            match r {
                Some(v) => self@.contains_key(name@) && block_view(v@) == self@[name@],
                None => !self@.contains_key(name@),
            },
    {
        match self.find(name) {
            Some(i) => {
                proof {
                    lemma_functions_first(self.entries@, name@, i as int);
                }
                Some(&self.entries[i].1)
            },
            None => {
                proof {
                    lemma_functions_absent(self.entries@, name@);
                }
                None
            },
        }
    }

    /// Binds `name` to `lines`, in place of what it was bound to.
    pub fn insert(&mut self, name: String, lines: Vec<Vec<(String, ValueEnum)>>)
        ensures
            final(self)@ == old(self)@.insert(name@, block_view(lines@)),
    {
        match self.find(name.as_str()) {
            Some(i) => {
                proof {
                    lemma_functions_update(self.entries@, name@, i as int, (name, lines));
                }
                self.entries.set(i, (name, lines));
            },
            None => {
                proof {
                    lemma_functions_push(self.entries@, (name, lines));
                }
                self.entries.push((name, lines));
            },
        }
    }

    /// Appends `line` to the lines of the function `name`; `false` (and no
    /// change) if there is no such function.
    pub fn push_line(&mut self, name: &str, line: Vec<(String, ValueEnum)>) -> (r: bool)
        ensures
            r == old(self)@.contains_key(name@),
            r ==> final(self)@ == old(self)@.insert(name@, old(self)@[name@].push(line_view(line@))),
            !r ==> final(self)@ == old(self)@,
    {
        match self.find(name) {
            Some(i) => {
                proof {
                    lemma_functions_first(self.entries@, name@, i as int);
                }
                let ghost old_entries = self.entries@;
                let (n, mut lines) = self.entries.remove(i);
                let ghost old_lines = lines@;
                lines.push(line);
                assert(block_view(lines@) =~= block_view(old_lines).push(line_view(lines@.last()@)));
                proof {
                    lemma_functions_update(old_entries, name@, i as int, (n, lines));
                }
                self.entries.insert(i, (n, lines));
                assert(self.entries@ =~= old_entries.update(i as int, (n, lines)));
                true
            },
            None => {
                proof {
                    lemma_functions_absent(self.entries@, name@);
                }
                false
            },
        }
    }
}

/// Whether two string slices hold the same characters.
pub fn str_equal(a: &str, b: &str) -> (r: bool)
    ensures
        r == (a@ == b@),
{
    let x = crate::text::chars_of(a);
    let y = crate::text::chars_of(b);
    if x.len() != y.len() {
        return false;
    }
    let mut i: usize = 0;
    while i < x.len()
        invariant
            x@ == a@,
            y@ == b@,
            x@.len() == y@.len(),
            i <= x@.len(),
            forall|j: int| 0 <= j < i ==> x@[j] == y@[j],
        decreases x.len() - i,
    {
        if x[i] != y[i] {
            return false;
        }
        i += 1;
    }
    assert(x@ =~= y@);
    true
}

} // verus!
