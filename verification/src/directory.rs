use vstd::prelude::*;
use vstd::slice::slice_to_vec;

verus! {

/// Byte order of names: `a` comes before `b` when, at the first byte where they differ, `a` has
/// the smaller byte, or when `a` is a proper prefix of `b`.
pub open spec fn name_lt(a: Seq<u8>, b: Seq<u8>) -> bool
    decreases a.len(),
{
    if a.len() == 0 {
        b.len() > 0
    } else if b.len() == 0 {
        false
    } else if a[0] != b[0] {
        a[0] < b[0]
    } else {
        name_lt(a.drop_first(), b.drop_first())
    }
}

/// No name comes before itself.
pub proof fn lemma_name_lt_irreflexive(a: Seq<u8>)
    ensures
        !name_lt(a, a),
    decreases a.len(),
{
    if a.len() > 0 {
        lemma_name_lt_irreflexive(a.drop_first());
    }
}

/// The byte order of names is transitive.
pub proof fn lemma_name_lt_transitive(a: Seq<u8>, b: Seq<u8>, c: Seq<u8>)
    requires
        name_lt(a, b),
        name_lt(b, c),
    ensures
        name_lt(a, c),
    decreases a.len(),
{
    if a.len() > 0 && b.len() > 0 && c.len() > 0 && a[0] == b[0] && b[0] == c[0] {
        lemma_name_lt_transitive(a.drop_first(), b.drop_first(), c.drop_first());
    }
}

/// Of two different names, one comes before the other.
pub proof fn lemma_name_lt_total(a: Seq<u8>, b: Seq<u8>)
    ensures
        a == b || name_lt(a, b) || name_lt(b, a),
    decreases a.len(),
{
    if a.len() == 0 && b.len() == 0 {
        assert(a =~= b);
    } else if a.len() > 0 && b.len() > 0 && a[0] == b[0] {
        lemma_name_lt_total(a.drop_first(), b.drop_first());
        if a.drop_first() == b.drop_first() {
            assert(a.len() == b.len()) by {
                assert(a.drop_first().len() == b.drop_first().len());
            }
            assert forall|i: int| 0 <= i < a.len() implies a[i] == b[i] by {
                if i > 0 {
                    assert(a[i] == a.drop_first()[i - 1]);
                    assert(b[i] == b.drop_first()[i - 1]);
                }
            }
            assert(a =~= b);
        }
    }
}

/// Where two names stand in byte order.
pub enum NameOrder {
    Before,
    Same,
    After,
}

/// Compares the names `a` and `b` byte after byte.
pub fn order_names(a: &Vec<u8>, b: &[u8]) -> (r: NameOrder)
    ensures
        r is Before <==> name_lt(a@, b@),
        r is Same <==> a@ == b@,
        r is After <==> name_lt(b@, a@),
{
    proof {
        lemma_name_lt_irreflexive(a@);
        lemma_name_lt_irreflexive(b@);
        if name_lt(a@, b@) && name_lt(b@, a@) {
            lemma_name_lt_transitive(a@, b@, a@);
        }
        lemma_name_lt_total(a@, b@);
        assert(a@.skip(0) =~= a@);
        assert(b@.skip(0) =~= b@);
    }
    let mut i: usize = 0;
    while i < a.len() && i < b.len()
        invariant
            i <= a@.len(),
            i <= b@.len(),
            a@.subrange(0, i as int) =~= b@.subrange(0, i as int),
            name_lt(a@, b@) == name_lt(a@.skip(i as int), b@.skip(i as int)),
            name_lt(b@, a@) == name_lt(b@.skip(i as int), a@.skip(i as int)),
        decreases a@.len() - i,
    {
        if a[i] != b[i] {
            if a[i] < b[i] {
                assert(a@ != b@) by {
                    assert(a@[i as int] != b@[i as int]);
                }
                return NameOrder::Before;
            } else {
                assert(a@ != b@) by {
                    assert(a@[i as int] != b@[i as int]);
                }
                return NameOrder::After;
            }
        }
        assert(a@.skip(i as int).drop_first() =~= a@.skip(i + 1));
        assert(b@.skip(i as int).drop_first() =~= b@.skip(i + 1));
        assert(a@.subrange(0, i + 1) =~= b@.subrange(0, i + 1)) by {
            assert forall|k: int| 0 <= k < i + 1 implies a@[k] == b@[k] by {
                if k < i {
                    assert(a@.subrange(0, i as int)[k] == b@.subrange(0, i as int)[k]);
                }
            }
        }
        i += 1;
    }
    if a.len() == b.len() {
        assert(a@ =~= b@) by {
            assert(a@ =~= a@.subrange(0, i as int));
            assert(b@ =~= b@.subrange(0, i as int));
        }
        NameOrder::Same
    } else if a.len() < b.len() {
        assert(a@ != b@);
        NameOrder::Before
    } else {
        assert(a@ != b@);
        NameOrder::After
    }
}

/// The entries of a directory: a name and the inumber it stands for, in byte order of the
/// names.
pub struct Directory {
    pub entries: Vec<(Vec<u8>, u32)>,
}

impl Directory {
    /// The names come in strictly increasing byte order, so no name occurs twice.
    pub open spec fn wf(&self) -> bool {
        forall|i: int, j: int|
            0 <= i < j < self.entries@.len() ==> name_lt(
                #[trigger] self.entries@[i].0@,
                #[trigger] self.entries@[j].0@,
            )
    }

    /// Some entry has the name `k`.
    pub open spec fn has(&self, k: Seq<u8>) -> bool {
        exists|i: int| 0 <= i < self.entries@.len() && #[trigger] self.entries@[i].0@ == k
    }

    /// The position of an entry with the name `k`.
    pub open spec fn index_of(&self, k: Seq<u8>) -> int {
        choose|i: int| 0 <= i < self.entries@.len() && #[trigger] self.entries@[i].0@ == k
    }
}

impl View for Directory {
    type V = Map<Seq<u8>, u32>;

    /// The directory as a map from names to inumbers.
    open spec fn view(&self) -> Map<Seq<u8>, u32> {
        Map::new(|k: Seq<u8>| self.has(k), |k: Seq<u8>| self.entries@[self.index_of(k)].1)
    }
}

/// Two entries of a well-formed directory have different names.
proof fn lemma_names_distinct(d: &Directory, i: int, j: int)
    requires
        d.wf(),
        0 <= i < d.entries@.len(),
        0 <= j < d.entries@.len(),
        i != j,
    ensures
        d.entries@[i].0@ != d.entries@[j].0@,
{
    if i < j {
        lemma_name_lt_irreflexive(d.entries@[i].0@);
    } else {
        lemma_name_lt_irreflexive(d.entries@[j].0@);
    }
}

/// The map of a well-formed directory gives each entry's name its inumber.
proof fn lemma_view_at(d: &Directory, i: int)
    requires
        d.wf(),
        0 <= i < d.entries@.len(),
    ensures
        d@.contains_key(d.entries@[i].0@),
        d@[d.entries@[i].0@] == d.entries@[i].1,
{
    let k = d.entries@[i].0@;
    assert(d.has(k));
    let j = d.index_of(k);
    if j != i {
        lemma_names_distinct(d, i, j);
    }
}

impl Directory {
    /// A directory whose entry "." is `inumber` and whose entry ".." is `parent`.
    pub fn new(inumber: u32, parent: u32) -> (r: Directory)
        ensures
            r.wf(),
            r@ == Map::<Seq<u8>, u32>::empty().insert(seq![46u8], inumber).insert(seq![46u8, 46u8], parent),
    {
        let mut d = Directory { entries: Vec::new() };
        proof {
            assert(d@ =~= Map::<Seq<u8>, u32>::empty());
        }
        let dot: Vec<u8> = vec![46u8];
        let dot_dot: Vec<u8> = vec![46u8, 46u8];
        assert(dot@ == seq![46u8]);
        assert(dot_dot@ == seq![46u8, 46u8]);
        d.add_entry(dot.as_slice(), inumber);
        d.add_entry(dot_dot.as_slice(), parent);
        d
    }

    /// The inumber of the entry `path`, or `Err(false)` when there is none.
    pub fn entry(&self, path: &[u8]) -> (r: Result<u32, bool>)
        requires
            self.wf(),
        ensures
            self@.contains_key(path@) ==> r == Ok::<u32, bool>(self@[path@]),
            !self@.contains_key(path@) ==> r == Err::<u32, bool>(false),
    {
        let mut i: usize = 0;
        while i < self.entries.len()
            invariant
                self.wf(),
                i <= self.entries@.len(),
                forall|j: int| 0 <= j < i ==> #[trigger] self.entries@[j].0@ != path@,
            decreases self.entries@.len() - i,
        {
            match order_names(&self.entries[i].0, path) {
                NameOrder::Same => {
                    proof {
                        lemma_view_at(self, i as int);
                    }
                    return Ok(self.entries[i].1);
                },
                _ => {},
            }
            i += 1;
        }
        Err(false)
    }

    /// Makes the entry `path` stand for `inumber`, in place of what it stood for.
    pub fn add_entry(&mut self, path: &[u8], inumber: u32)
        requires
            old(self).wf(),
        ensures
            final(self).wf(),
            final(self)@ == old(self)@.insert(path@, inumber),
    {
        let ghost o = *self;
        let mut i: usize = 0;
        while i < self.entries.len()
            invariant
                *self == o,
                o == *old(self),
                o.wf(),
                i <= o.entries@.len(),
                forall|j: int| 0 <= j < i ==> name_lt(#[trigger] o.entries@[j].0@, path@),
            decreases o.entries@.len() - i,
        {
            match order_names(&self.entries[i].0, path) {
                NameOrder::Before => {},
                NameOrder::Same => {
                    self.entries.set(i, (slice_to_vec(path), inumber));
                    proof {
                        lemma_replace_keeps_order(o, *self, i as int, path@, inumber);
                    }
                    return;
                },
                NameOrder::After => {
                    self.entries.insert(i, (slice_to_vec(path), inumber));
                    proof {
                        lemma_insert_keeps_order(o, *self, i as int, path@, inumber);
                    }
                    return;
                },
            }
            i += 1;
        }
        self.entries.push((slice_to_vec(path), inumber));
        proof {
            assert(self.entries@ == o.entries@.insert(i as int, (self.entries@[i as int].0, inumber)));
            lemma_insert_keeps_order(o, *self, i as int, path@, inumber);
        }
    }

    /// Takes out the entry `path`, when there is one.
    pub fn remove_entry(&mut self, path: &[u8])
        requires
            old(self).wf(),
        ensures
            final(self).wf(),
            final(self)@ == old(self)@.remove(path@),
    {
        let ghost o = *self;
        let mut i: usize = 0;
        while i < self.entries.len()
            invariant
                *self == o,
                o == *old(self),
                o.wf(),
                i <= o.entries@.len(),
                forall|j: int| 0 <= j < i ==> #[trigger] o.entries@[j].0@ != path@,
            decreases o.entries@.len() - i,
        {
            match order_names(&self.entries[i].0, path) {
                NameOrder::Same => {
                    self.entries.remove(i);
                    proof {
                        lemma_remove_keeps_order(o, *self, i as int, path@);
                    }
                    return;
                },
                _ => {},
            }
            i += 1;
        }
        proof {
            assert(self@ =~= o@.remove(path@));
        }
    }

    /// The inumber of the entry `path`, or `Err(false)` when there is none.
    pub fn find_by_path(&self, path: &[u8]) -> (r: Result<u32, bool>)
        requires
            self.wf(),
        ensures
            self@.contains_key(path@) ==> r == Ok::<u32, bool>(self@[path@]),
            !self@.contains_key(path@) ==> r == Err::<u32, bool>(false),
    {
        self.entry(path)
    }
}

/// Putting the entry `(p, v)` at position `i` of a well-formed directory, after the names that
/// come before `p` and before those that come after it, keeps it well-formed and adds `p` to
/// its map.
proof fn lemma_insert_keeps_order(o: Directory, n: Directory, i: int, p: Seq<u8>, v: u32)
    requires
        o.wf(),
        0 <= i <= o.entries@.len(),
        n.entries@.len() == o.entries@.len() + 1,
        n.entries@[i].0@ == p,
        n.entries@[i].1 == v,
        forall|j: int| 0 <= j < i ==> #[trigger] n.entries@[j] == o.entries@[j],
        forall|j: int| i < j < n.entries@.len() ==> #[trigger] n.entries@[j] == o.entries@[j - 1],
        forall|j: int| 0 <= j < i ==> name_lt(#[trigger] o.entries@[j].0@, p),
        i < o.entries@.len() ==> name_lt(p, o.entries@[i].0@),
    ensures
        n.wf(),
        n@ == o@.insert(p, v),
{
    assert forall|a: int, b: int| 0 <= a < b < n.entries@.len() implies name_lt(
        #[trigger] n.entries@[a].0@,
        #[trigger] n.entries@[b].0@,
    ) by {
        if b < i {
            assert(n.entries@[a] == o.entries@[a]);
            assert(n.entries@[b] == o.entries@[b]);
        } else if b == i {
            assert(n.entries@[a] == o.entries@[a]);
        } else if a == i {
            assert(n.entries@[b] == o.entries@[b - 1]);
            if b - 1 > i {
                lemma_name_lt_transitive(p, o.entries@[i].0@, o.entries@[b - 1].0@);
            }
        } else if a < i {
            assert(n.entries@[a] == o.entries@[a]);
            assert(n.entries@[b] == o.entries@[b - 1]);
            if b - 1 > i {
                lemma_name_lt_transitive(p, o.entries@[i].0@, o.entries@[b - 1].0@);
            }
            lemma_name_lt_transitive(o.entries@[a].0@, p, o.entries@[b - 1].0@);
        } else {
            assert(n.entries@[a] == o.entries@[a - 1]);
            assert(n.entries@[b] == o.entries@[b - 1]);
        }
    }
    assert forall|k: Seq<u8>| #[trigger] n@.contains_key(k) <==> (o@.contains_key(k) || k == p) by {
        if n.has(k) {
            let j = n.index_of(k);
            if j < i {
                assert(n.entries@[j] == o.entries@[j]);
                lemma_view_at(&o, j);
            } else if j > i {
                assert(n.entries@[j] == o.entries@[j - 1]);
                lemma_view_at(&o, j - 1);
            }
        }
        if o.has(k) {
            let j = o.index_of(k);
            if j < i {
                assert(n.entries@[j] == o.entries@[j]);
                lemma_view_at(&n, j);
            } else {
                assert(n.entries@[j + 1] == o.entries@[j]);
                lemma_view_at(&n, j + 1);
            }
        }
        if k == p {
            lemma_view_at(&n, i);
        }
    }
    assert forall|k: Seq<u8>| #[trigger] n@.contains_key(k) implies n@[k] == o@.insert(p, v)[k] by {
        let j = n.index_of(k);
        lemma_view_at(&n, j);
        if j < i {
            assert(n.entries@[j] == o.entries@[j]);
            lemma_names_distinct(&n, j, i);
            lemma_view_at(&o, j);
        } else if j > i {
            assert(n.entries@[j] == o.entries@[j - 1]);
            lemma_names_distinct(&n, j, i);
            lemma_view_at(&o, j - 1);
        }
    }
    assert(n@ =~= o@.insert(p, v));
}

/// Giving the entry at position `i`, whose name is `p`, the inumber `v` keeps a well-formed
/// directory well-formed and maps `p` to `v`.
proof fn lemma_replace_keeps_order(o: Directory, n: Directory, i: int, p: Seq<u8>, v: u32)
    requires
        o.wf(),
        0 <= i < o.entries@.len(),
        o.entries@[i].0@ == p,
        n.entries@ == o.entries@.update(i, (n.entries@[i].0, v)),
        n.entries@[i].0@ == p,
    ensures
        n.wf(),
        n@ == o@.insert(p, v),
{
    assert forall|a: int, b: int| 0 <= a < b < n.entries@.len() implies name_lt(
        #[trigger] n.entries@[a].0@,
        #[trigger] n.entries@[b].0@,
    ) by {
        assert(n.entries@[a].0@ == o.entries@[a].0@);
        assert(n.entries@[b].0@ == o.entries@[b].0@);
    }
    assert forall|k: Seq<u8>| #[trigger] n@.contains_key(k) <==> (o@.contains_key(k) || k == p) by {
        if n.has(k) {
            let j = n.index_of(k);
            assert(o.entries@[j].0@ == k);
            lemma_view_at(&o, j);
        }
        if o.has(k) {
            let j = o.index_of(k);
            assert(n.entries@[j].0@ == k);
            lemma_view_at(&n, j);
        }
        if k == p {
            lemma_view_at(&n, i);
        }
    }
    assert forall|k: Seq<u8>| #[trigger] n@.contains_key(k) implies n@[k] == o@.insert(p, v)[k] by {
        let j = n.index_of(k);
        lemma_view_at(&n, j);
        if j != i {
            lemma_names_distinct(&n, j, i);
            assert(o.entries@[j] == n.entries@[j]);
            lemma_view_at(&o, j);
        }
    }
    assert(n@ =~= o@.insert(p, v));
}

/// Taking out the entry at position `i`, whose name is `p`, keeps a well-formed directory
/// well-formed and takes `p` out of its map.
proof fn lemma_remove_keeps_order(o: Directory, n: Directory, i: int, p: Seq<u8>)
    requires
        o.wf(),
        0 <= i < o.entries@.len(),
        o.entries@[i].0@ == p,
        n.entries@ == o.entries@.remove(i),
    ensures
        n.wf(),
        n@ == o@.remove(p),
{
    assert forall|a: int, b: int| 0 <= a < b < n.entries@.len() implies name_lt(
        #[trigger] n.entries@[a].0@,
        #[trigger] n.entries@[b].0@,
    ) by {
        let a2 = if a < i { a } else { a + 1 };
        let b2 = if b < i { b } else { b + 1 };
        assert(n.entries@[a] == o.entries@[a2]);
        assert(n.entries@[b] == o.entries@[b2]);
    }
    assert forall|k: Seq<u8>| #[trigger] n@.contains_key(k) <==> (o@.contains_key(k) && k != p) by {
        if n.has(k) {
            let j = n.index_of(k);
            let j2 = if j < i { j } else { j + 1 };
            assert(n.entries@[j] == o.entries@[j2]);
            lemma_view_at(&o, j2);
            lemma_names_distinct(&o, j2, i);
        }
        if o.has(k) && k != p {
            let j = o.index_of(k);
            assert(j != i);
            let j2 = if j < i { j } else { j - 1 };
            assert(n.entries@[j2] == o.entries@[j]);
            lemma_view_at(&n, j2);
        }
    }
    assert forall|k: Seq<u8>| #[trigger] n@.contains_key(k) implies n@[k] == o@.remove(p)[k] by {
        let j = n.index_of(k);
        lemma_view_at(&n, j);
        let j2 = if j < i { j } else { j + 1 };
        assert(n.entries@[j] == o.entries@[j2]);
        lemma_view_at(&o, j2);
    }
    assert(n@ =~= o@.remove(p));
}

/// After `add_entry(p, v)` turns `before` into `after`, looking up `p` gives `v`, and every other
/// name `q` gives what it gave before.
pub proof fn law_add_then_find(before: Directory, after: Directory, p: Seq<u8>, v: u32, q: Seq<u8>)
    requires
        after@ == before@.insert(p, v),
    ensures
        after@.contains_key(p),
        after@[p] == v,
        q != p ==> (after@.contains_key(q) == before@.contains_key(q)),
        q != p && before@.contains_key(q) ==> after@[q] == before@[q],
{
}

/// After `remove_entry(p)` turns `before` into `after`, looking up `p` finds nothing, and every
/// other name `q` gives what it gave before.
pub proof fn law_remove_then_find(before: Directory, after: Directory, p: Seq<u8>, q: Seq<u8>)
    requires
        after@ == before@.remove(p),
    ensures
        !after@.contains_key(p),
        q != p ==> (after@.contains_key(q) == before@.contains_key(q)),
        q != p && before@.contains_key(q) ==> after@[q] == before@[q],
{
}

} // verus!
