//! A small map from names (character sequences) to values, kept as a list
//! of slots with distinct names. The compiler uses it for its dictionary
//! and its table of pending forward references.
use vstd::prelude::*;
use crate::text::chars_eq;

verus! {

/// One name and its value.
pub struct Slot<V> {
    pub name: Vec<char>,
    pub value: V,
}

/// A finite map from names to values.
pub struct NameMap<V> {
    slots: Vec<Slot<V>>,
}

/// A copy of the characters `v`.
pub fn copy_chars(v: &Vec<char>) -> (res: Vec<char>)
    ensures
        res@ == v@,
{
    let mut out: Vec<char> = Vec::new();
    let mut i: usize = 0;
    while i < v.len()
        invariant
            i <= v.len(),
            out@ == v@.subrange(0, i as int),
        decreases v.len() - i,
    {
        out.push(v[i]);
        i += 1;
        proof {
            assert(out@ =~= v@.subrange(0, i as int));
        }
    }
    proof {
        assert(v@.subrange(0, v.len() as int) =~= v@);
    }
    out
}

impl<V> NameMap<V> {
    /// The names of the slots, in slot order.
    pub closed spec fn names(&self) -> Seq<Seq<char>> {
        self.slots@.map_values(|s: Slot<V>| s.name@)
    }

    /// No name occurs in two slots.
    pub closed spec fn wf(&self) -> bool {
        forall|i: int, j: int|
            0 <= i < self.slots@.len() && 0 <= j < self.slots@.len() && i != j
                ==> #[trigger] self.slots@[i].name@ != #[trigger] self.slots@[j].name@
    }

    closed spec fn slot_of(&self, k: Seq<char>) -> int {
        choose|i: int| 0 <= i < self.slots@.len() && self.slots@[i].name@ == k
    }

    closed spec fn has(&self, k: Seq<char>) -> bool {
        exists|i: int| 0 <= i < self.slots@.len() && self.slots@[i].name@ == k
    }

    /// The map from names to values.
    pub closed spec fn view(&self) -> Map<Seq<char>, V> {
        Map::new(|k: Seq<char>| self.has(k), |k: Seq<char>| self.slots@[self.slot_of(k)].value)
    }

    /// The names, in slot order, form a duplicate-free listing of the
    /// map's domain.
    pub proof fn lemma_names(&self)
        requires
            self.wf(),
        ensures
            self.names().no_duplicates(),
            self.names().to_set() == self@.dom(),
            self@.dom().finite(),
            self.names().len() == self@.dom().len(),
    {
        let n = self.names();
        assert(n.no_duplicates()) by {
            assert forall|i: int, j: int| 0 <= i < n.len() && 0 <= j < n.len() && i != j implies n[i]
                != n[j] by {
                assert(n[i] == self.slots@[i].name@);
                assert(n[j] == self.slots@[j].name@);
            }
        }
        assert(n.to_set() =~= self@.dom()) by {
            assert forall|k: Seq<char>| n.to_set().contains(k) implies self@.dom().contains(k) by {
                let i = choose|i: int| 0 <= i < n.len() && n[i] == k;
                assert(self.slots@[i].name@ == k);
            }
            assert forall|k: Seq<char>| self@.dom().contains(k) implies n.to_set().contains(k) by {
                let i = self.slot_of(k);
                assert(n[i] == k);
            }
        }
        n.unique_seq_to_set();
    }

    pub fn new() -> (res: Self)
        ensures
            res.wf(),
            res@ == Map::<Seq<char>, V>::empty(),
    {
        let res = NameMap { slots: Vec::new() };
        assert(res@ =~= Map::<Seq<char>, V>::empty());
        res
    }

    /// The slot holding `name`, if any.
    fn find(&self, name: &Vec<char>) -> (res: Option<usize>)
        requires
            self.wf(),
        ensures
            match res {
                Some(i) => i < self.slots@.len() && self.slots@[i as int].name@ == name@,
                None => !self@.dom().contains(name@),
            },
    {
        let mut i: usize = 0;
        while i < self.slots.len()
            invariant
                i <= self.slots@.len(),
                forall|j: int| 0 <= j < i ==> self.slots@[j].name@ != name@,
            decreases self.slots.len() - i,
        {
            if chars_eq(&self.slots[i].name, name) {
                return Some(i);
            }
            i += 1;
        }
        None
    }

    proof fn lemma_slot(&self, i: int)
        requires
            self.wf(),
            0 <= i < self.slots@.len(),
        ensures
            self@.dom().contains(self.slots@[i].name@),
            self@[self.slots@[i].name@] == self.slots@[i].value,
    {
        let k = self.slots@[i].name@;
        assert(self.has(k));
        let j = self.slot_of(k);
        assert(self.slots@[j].name@ == k);
    }

    /// The value of `name`, if it is in the map.
    pub fn get(&self, name: &Vec<char>) -> (res: Option<&V>)
        requires
            self.wf(),
        ensures
            match res {
                Some(v) => self@.dom().contains(name@) && *v == self@[name@],
                None => !self@.dom().contains(name@),
            },
    {
        match self.find(name) {
            Some(i) => {
                proof {
                    self.lemma_slot(i as int);
                }
                Some(&self.slots[i].value)
            },
            None => None,
        }
    }

    /// Whether `name` is in the map.
    pub fn contains(&self, name: &Vec<char>) -> (res: bool)
        requires
            self.wf(),
        ensures
            res == self@.dom().contains(name@),
    {
        match self.find(name) {
            Some(i) => {
                proof {
                    self.lemma_slot(i as int);
                }
                true
            },
            None => false,
        }
    }

    /// Whether the map is empty.
    pub fn is_empty(&self) -> (res: bool)
        requires
            self.wf(),
        ensures
            res == (self@.dom() =~= Set::<Seq<char>>::empty()),
    {
        if self.slots.len() == 0 {
            assert(self@.dom() =~= Set::<Seq<char>>::empty());
            true
        } else {
            proof {
                self.lemma_slot(0);
            }
            false
        }
    }

    /// Binds `name` to `value`, replacing any earlier binding.
    pub fn insert(&mut self, name: Vec<char>, value: V)
        requires
            old(self).wf(),
        ensures
            final(self).wf(),
            final(self)@ == old(self)@.insert(name@, value),
    {
        let ghost k = name@;
        match self.find(&name) {
            Some(i) => {
                self.slots.set(i, Slot { name, value });
                proof {
                    assert forall|j: int| 0 <= j < old(self).slots@.len() && j != i implies
                        old(self).slots@[j].name@ != k by {
                    }
                    assert(self@ =~= old(self)@.insert(k, value)) by {
                        assert forall|q: Seq<char>| #[trigger] self@.dom().contains(q) <==> old(
                            self,
                        )@.insert(k, value).dom().contains(q) by {
                            if self.has(q) {
                                let j = choose|j: int| 0 <= j < self.slots@.len() && self.slots@[j].name@ == q;
                                if j != i {
                                    old(self).lemma_slot(j);
                                }
                            }
                            if old(self).has(q) && q != k {
                                let j = choose|j: int| 0 <= j < old(self).slots@.len() && old(self).slots@[j].name@ == q;
                                assert(self.slots@[j].name@ == q);
                            }
                            if q == k {
                                assert(self.slots@[i as int].name@ == q);
                            }
                        }
                        assert forall|q: Seq<char>| #[trigger] self@.dom().contains(q) implies self@[q]
                            == old(self)@.insert(k, value)[q] by {
                            let j = self.slot_of(q);
                            if j != i {
                                old(self).lemma_slot(j);
                            }
                        }
                    }
                }
            },
            None => {
                self.slots.push(Slot { name, value });
                proof {
                    let n = self.slots@.len() - 1;
                    assert(self.wf()) by {
                        assert forall|a: int, b: int|
                            0 <= a < self.slots@.len() && 0 <= b < self.slots@.len() && a != b
                                implies #[trigger] self.slots@[a].name@ != #[trigger] self.slots@[b].name@ by {
                            if a == n {
                                old(self).lemma_slot(b);
                            } else if b == n {
                                old(self).lemma_slot(a);
                            }
                        }
                    }
                    assert(self@ =~= old(self)@.insert(k, value)) by {
                        assert forall|q: Seq<char>| #[trigger] self@.dom().contains(q) <==> old(
                            self,
                        )@.insert(k, value).dom().contains(q) by {
                            if self.has(q) {
                                let j = choose|j: int| 0 <= j < self.slots@.len() && self.slots@[j].name@ == q;
                                if j != n {
                                    old(self).lemma_slot(j);
                                }
                            }
                            if old(self).has(q) {
                                let j = choose|j: int| 0 <= j < old(self).slots@.len() && old(self).slots@[j].name@ == q;
                                assert(self.slots@[j].name@ == q);
                            }
                            if q == k {
                                assert(self.slots@[n].name@ == q);
                            }
                        }
                        assert forall|q: Seq<char>| #[trigger] self@.dom().contains(q) implies self@[q]
                            == old(self)@.insert(k, value)[q] by {
                            let j = self.slot_of(q);
                            if j != n {
                                old(self).lemma_slot(j);
                            }
                        }
                    }
                }
            },
        }
    }

    /// Removes `name`, returning its value if it was bound.
    pub fn remove(&mut self, name: &Vec<char>) -> (res: Option<V>)
        requires
            old(self).wf(),
        ensures
            final(self).wf(),
            final(self)@ == old(self)@.remove(name@),
            match res {
                Some(v) => old(self)@.dom().contains(name@) && v == old(self)@[name@],
                None => !old(self)@.dom().contains(name@),
            },
    {
        match self.find(name) {
            Some(i) => {
                let ghost k = name@;
                proof {
                    self.lemma_slot(i as int);
                }
                let slot = self.slots.remove(i);
                proof {
                    assert(self.wf()) by {
                        assert forall|a: int, b: int|
                            0 <= a < self.slots@.len() && 0 <= b < self.slots@.len() && a != b
                                implies #[trigger] self.slots@[a].name@ != #[trigger] self.slots@[b].name@ by {
                            let a2 = if a < i { a } else { a + 1 };
                            let b2 = if b < i { b } else { b + 1 };
                            assert(self.slots@[a] == old(self).slots@[a2]);
                            assert(self.slots@[b] == old(self).slots@[b2]);
                        }
                    }
                    assert(self@ =~= old(self)@.remove(k)) by {
                        assert forall|q: Seq<char>| #[trigger] self@.dom().contains(q) <==> old(
                            self,
                        )@.remove(k).dom().contains(q) by {
                            if self.has(q) {
                                let j = choose|j: int| 0 <= j < self.slots@.len() && self.slots@[j].name@ == q;
                                let j2 = if j < i { j } else { j + 1 };
                                assert(self.slots@[j] == old(self).slots@[j2]);
                                old(self).lemma_slot(j2);
                            }
                            if old(self).has(q) && q != k {
                                let j = choose|j: int| 0 <= j < old(self).slots@.len() && old(self).slots@[j].name@ == q;
                                if j < i {
                                    assert(self.slots@[j] == old(self).slots@[j]);
                                } else {
                                    assert(j != i);
                                    assert(self.slots@[j - 1] == old(self).slots@[j]);
                                }
                            }
                        }
                        assert forall|q: Seq<char>| #[trigger] self@.dom().contains(q) implies self@[q]
                            == old(self)@.remove(k)[q] by {
                            let j = self.slot_of(q);
                            let j2 = if j < i { j } else { j + 1 };
                            assert(self.slots@[j] == old(self).slots@[j2]);
                            old(self).lemma_slot(j2);
                        }
                    }
                }
                Some(slot.value)
            },
            None => {
                proof {
                    assert(self@ =~= old(self)@.remove(name@));
                }
                None
            },
        }
    }

    /// Copies of all names, each once, in slot order.
    pub fn name_list(&self) -> (res: Vec<Vec<char>>)
        requires
            self.wf(),
        ensures
            res@.map_values(|v: Vec<char>| v@) == self.names(),
    {
        let mut out: Vec<Vec<char>> = Vec::new();
        let mut i: usize = 0;
        while i < self.slots.len()
            invariant
                i <= self.slots@.len(),
                out@.map_values(|v: Vec<char>| v@) == self.names().subrange(0, i as int),
            decreases self.slots.len() - i,
        {
            let c = copy_chars(&self.slots[i].name);
            let ghost before = out@.map_values(|v: Vec<char>| v@);
            out.push(c);
            proof {
                assert(out@.map_values(|v: Vec<char>| v@) =~= before.push(self.slots@[i as int].name@));
                assert(self.names().subrange(0, i + 1) =~= self.names().subrange(0, i as int).push(
                    self.slots@[i as int].name@,
                ));
            }
            i += 1;
        }
        proof {
            assert(self.names().subrange(0, i as int) =~= self.names());
        }
        out
    }
}


/// `a` sorts strictly before `b`: the byte order of their UTF-8 encodings,
/// which is the order of their characters' code points, with a proper
/// prefix first.
pub open spec fn lex_lt(a: Seq<char>, b: Seq<char>) -> bool
    decreases a.len(),
{
    if a.len() == 0 {
        b.len() > 0
    } else if b.len() == 0 {
        false
    } else if a[0] != b[0] {
        (a[0] as int) < (b[0] as int)
    } else {
        lex_lt(a.drop_first(), b.drop_first())
    }
}

/// Each name sorts strictly before every later one.
pub open spec fn strictly_sorted(s: Seq<Seq<char>>) -> bool {
    forall|i: int, j: int| 0 <= i < j < s.len() ==> lex_lt(#[trigger] s[i], #[trigger] s[j])
}

/// The names of `d` in increasing order.
pub open spec fn sorted_listing(d: Set<Seq<char>>) -> Seq<Seq<char>> {
    choose|s: Seq<Seq<char>>| strictly_sorted(s) && s.to_set() == d
}

/// No name sorts before itself.
pub proof fn lemma_lex_irreflexive(a: Seq<char>)
    ensures
        !lex_lt(a, a),
    decreases a.len(),
{
    if a.len() > 0 {
        lemma_lex_irreflexive(a.drop_first());
    }
}

/// The order is transitive.
pub proof fn lemma_lex_transitive(a: Seq<char>, b: Seq<char>, c: Seq<char>)
    requires
        lex_lt(a, b),
        lex_lt(b, c),
    ensures
        lex_lt(a, c),
    decreases a.len(),
{
    if a.len() > 0 && b.len() > 0 && c.len() > 0 {
        if a[0] == b[0] && b[0] == c[0] {
            lemma_lex_transitive(a.drop_first(), b.drop_first(), c.drop_first());
        }
    }
}

/// Of two different names, one sorts before the other.
pub proof fn lemma_lex_total(a: Seq<char>, b: Seq<char>)
    requires
        a != b,
    ensures
        lex_lt(a, b) || lex_lt(b, a),
    decreases a.len(),
{
    if a.len() > 0 && b.len() > 0 && a[0] == b[0] {
        if a.drop_first() == b.drop_first() {
            assert(a =~= seq![a[0]] + a.drop_first());
            assert(b =~= seq![b[0]] + b.drop_first());
        }
        lemma_lex_total(a.drop_first(), b.drop_first());
    } else if a.len() == 0 && b.len() == 0 {
        assert(a =~= b);
    } else if a.len() > 0 && b.len() > 0 {
        assert((a[0] as int) != (b[0] as int));
    }
}

/// Two strictly sorted listings of the same set are the same listing.
pub proof fn lemma_sorted_listing_unique(a: Seq<Seq<char>>, b: Seq<Seq<char>>)
    requires
        strictly_sorted(a),
        strictly_sorted(b),
        a.to_set() == b.to_set(),
    ensures
        a == b,
    decreases a.len(),
{
    if a.len() == 0 {
        if b.len() > 0 {
            assert(b.to_set().contains(b[0]));
        }
        assert(a =~= b);
    } else if b.len() == 0 {
        assert(a.to_set().contains(a[0]));
    } else {
        assert(b.to_set().contains(a[0]));
        assert(a.to_set().contains(b[0]));
        let j = choose|j: int| 0 <= j < b.len() && b[j] == a[0];
        let k = choose|k: int| 0 <= k < a.len() && a[k] == b[0];
        if j > 0 && k > 0 {
            assert(lex_lt(b[0], b[j]));
            assert(lex_lt(a[0], a[k]));
            lemma_lex_transitive(a[0], b[0], a[0]);
            lemma_lex_irreflexive(a[0]);
        } else if j > 0 {
            assert(lex_lt(b[0], b[j]));
            lemma_lex_irreflexive(a[0]);
        } else if k > 0 {
            assert(lex_lt(a[0], a[k]));
            lemma_lex_irreflexive(a[0]);
        }
        assert(a[0] == b[0]);
        let a1 = a.drop_first();
        let b1 = b.drop_first();
        assert(a1.to_set() =~= b1.to_set()) by {
            assert forall|x: Seq<char>| a1.to_set().contains(x) implies b1.to_set().contains(x) by {
                let i = choose|i: int| 0 <= i < a1.len() && a1[i] == x;
                assert(a[i + 1] == x);
                assert(lex_lt(a[0], x));
                assert(b.to_set().contains(x));
                let i2 = choose|i2: int| 0 <= i2 < b.len() && b[i2] == x;
                if i2 == 0 {
                    lemma_lex_irreflexive(x);
                }
                assert(b1[i2 - 1] == x);
            }
            assert forall|x: Seq<char>| b1.to_set().contains(x) implies a1.to_set().contains(x) by {
                let i = choose|i: int| 0 <= i < b1.len() && b1[i] == x;
                assert(b[i + 1] == x);
                assert(lex_lt(b[0], x));
                assert(a.to_set().contains(x));
                let i2 = choose|i2: int| 0 <= i2 < a.len() && a[i2] == x;
                if i2 == 0 {
                    lemma_lex_irreflexive(x);
                }
                assert(a1[i2 - 1] == x);
            }
        }
        lemma_sorted_listing_unique(a1, b1);
        assert(a =~= seq![a[0]] + a1);
        assert(b =~= seq![b[0]] + b1);
    }
}

/// Whether `a` sorts strictly before `b`; see [`lex_lt`].
pub fn chars_lt(a: &Vec<char>, b: &Vec<char>) -> (res: bool)
    ensures
        res == lex_lt(a@, b@),
{
    let mut i: usize = 0;
    proof {
        assert(a@.skip(0) =~= a@);
        assert(b@.skip(0) =~= b@);
    }
    loop
        invariant
            i <= a.len(),
            i <= b.len(),
            lex_lt(a@, b@) == lex_lt(a@.skip(i as int), b@.skip(i as int)),
        decreases a.len() - i,
    {
        if i == a.len() {
            return i < b.len();
        }
        if i == b.len() {
            return false;
        }
        if a[i] != b[i] {
            return a[i] < b[i];
        }
        proof {
            assert(a@.skip(i as int).drop_first() =~= a@.skip(i + 1));
            assert(b@.skip(i as int).drop_first() =~= b@.skip(i + 1));
        }
        i += 1;
    }
}

/// `names` (which holds no name twice) in increasing order.
pub fn sort_names(names: Vec<Vec<char>>) -> (res: Vec<Vec<char>>)
    requires
        names@.map_values(|v: Vec<char>| v@).no_duplicates(),
    ensures
        strictly_sorted(res@.map_values(|v: Vec<char>| v@)),
        res@.map_values(|v: Vec<char>| v@).to_set() == names@.map_values(|v: Vec<char>| v@).to_set(),
{
    let ghost input = names@.map_values(|v: Vec<char>| v@);
    let mut out: Vec<Vec<char>> = Vec::new();
    let mut rest = names;
    let mut i: usize = 0;
    let n = rest.len();
    while i < n
        invariant
            n == input.len(),
            i <= n,
            input.no_duplicates(),
            rest@.map_values(|v: Vec<char>| v@) == input,
            strictly_sorted(out@.map_values(|v: Vec<char>| v@)),
            out@.map_values(|v: Vec<char>| v@).to_set() == input.subrange(0, i as int).to_set(),
        decreases n - i,
    {
        let x = copy_chars(&rest[i]);
        let ghost xs = x@;
        let ghost o = out@.map_values(|v: Vec<char>| v@);
        // Position of the first name after `x`.
        let mut p: usize = 0;
        while p < out.len() && chars_lt(&out[p], &x)
            invariant
                p <= out@.len(),
                o == out@.map_values(|v: Vec<char>| v@),
                x@ == xs,
                forall|q: int| 0 <= q < p ==> lex_lt(#[trigger] o[q], xs),
            decreases out.len() - p,
        {
            proof {
                assert(o[p as int] == out@[p as int]@);
            }
            p += 1;
        }
        proof {
            // x is new: it occurs once in the input.
            assert(!o.to_set().contains(xs)) by {
                if o.to_set().contains(xs) {
                    assert(input.subrange(0, i as int).to_set().contains(xs));
                    let ii = input.subrange(0, i as int);
                    let q = choose|q: int| 0 <= q < ii.len() && ii[q] == xs;
                    assert(input[q] == input[i as int]);
                }
            }
            if p < o.len() {
                assert(!lex_lt(o[p as int], xs));
                assert(o.to_set().contains(o[p as int]));
                lemma_lex_total(o[p as int], xs);
            }
        }
        out.insert(p, x);
        proof {
            let o2 = out@.map_values(|v: Vec<char>| v@);
            assert(o2 =~= o.insert(p as int, xs));
            assert forall|a: int, b: int| 0 <= a < b < o2.len() implies lex_lt(
                #[trigger] o2[a],
                #[trigger] o2[b],
            ) by {
                if a < p && b == p {
                } else if a < p && b > p {
                    assert(o2[b] == o[b - 1]);
                    if b - 1 > a {
                        assert(lex_lt(o[a], o[b - 1]));
                    }
                } else if a == p {
                    assert(o2[b] == o[b - 1]);
                    if b - 1 > p {
                        assert(lex_lt(o[p as int], o[b - 1]));
                        lemma_lex_transitive(xs, o[p as int], o[b - 1]);
                    }
                } else if b < p {
                    assert(o2[a] == o[a]);
                    assert(o2[b] == o[b]);
                } else {
                    assert(o2[a] == o[a - 1]);
                    assert(o2[b] == o[b - 1]);
                }
            }
            assert(o2.to_set() =~= input.subrange(0, i + 1).to_set()) by {
                assert(input.subrange(0, i + 1) =~= input.subrange(0, i as int).push(xs));
                assert forall|y: Seq<char>| o2.to_set().contains(y) implies input.subrange(0, i + 1).to_set().contains(y) by {
                    let q = choose|q: int| 0 <= q < o2.len() && o2[q] == y;
                    if q == p {
                        assert(input.subrange(0, i + 1)[i as int] == y);
                    } else {
                        let q2 = if q < p { q } else { q - 1 };
                        assert(o[q2] == y);
                        assert(o.to_set().contains(y));
                        let ii = input.subrange(0, i as int);
                        let r = choose|r: int| 0 <= r < ii.len() && ii[r] == y;
                        assert(input.subrange(0, i + 1)[r] == y);
                    }
                }
                assert forall|y: Seq<char>| input.subrange(0, i + 1).to_set().contains(y) implies o2.to_set().contains(y) by {
                    let ip = input.subrange(0, i + 1);
                    let q = choose|q: int| 0 <= q < ip.len() && ip[q] == y;
                    if q == i {
                        assert(o2[p as int] == y);
                    } else {
                        assert(input.subrange(0, i as int)[q] == y);
                        assert(o.to_set().contains(y));
                        let r = choose|r: int| 0 <= r < o.len() && o[r] == y;
                        if r < p {
                            assert(o2[r] == y);
                        } else {
                            assert(o2[r + 1] == y);
                        }
                    }
                }
            }
        }
        i += 1;
    }
    proof {
        assert(input.subrange(0, n as int) =~= input);
    }
    out
}

} // verus!

