use vstd::prelude::*;

use crate::chars::{str_chars, str_eq, string_from_chars};

verus! {

/// A single glyph: a list of row strings, one per font line.
///
/// All rows must be the same character-count width.
pub type Glyph = Vec<String>;

/// A key together with the rows of its glyph, as plain character sequences.
pub type GlyphEntry = (Seq<char>, Seq<Seq<char>>);

/// No two entries share a key.
pub open spec fn keys_unique(e: Seq<GlyphEntry>) -> bool {
    forall|i: int, j: int| 0 <= i < e.len() && 0 <= j < e.len() && i != j ==> e[i].0 != e[j].0
}

/// Whether some entry has key `k`.
pub open spec fn has_key(e: Seq<GlyphEntry>, k: Seq<char>) -> bool {
    exists|i: int| 0 <= i < e.len() && e[i].0 == k
}

/// The glyph stored under `k`, looking from the last entry backwards.
pub open spec fn lookup(e: Seq<GlyphEntry>, k: Seq<char>) -> Option<Seq<Seq<char>>>
    decreases e.len(),
{
    if e.len() == 0 {
        None
    } else if e.last().0 == k {
        Some(e.last().1)
    } else {
        lookup(e.drop_last(), k)
    }
}

/// The entries after storing `v` under `k`: an existing entry for `k` is
/// replaced in place, otherwise the pair is appended.
pub open spec fn insert_entry(e: Seq<GlyphEntry>, k: Seq<char>, v: Seq<Seq<char>>) -> Seq<GlyphEntry> {
    if has_key(e, k) {
        e.update(choose|i: int| 0 <= i < e.len() && e[i].0 == k, (k, v))
    } else {
        e.push((k, v))
    }
}

/// The entries after storing each pair of `pairs` in turn.
pub open spec fn insert_all(e: Seq<GlyphEntry>, pairs: Seq<GlyphEntry>) -> Seq<GlyphEntry>
    decreases pairs.len(),
{
    if pairs.len() == 0 {
        e
    } else {
        insert_entry(insert_all(e, pairs.drop_last()), pairs.last().0, pairs.last().1)
    }
}

pub proof fn lemma_lookup_index(e: Seq<GlyphEntry>, k: Seq<char>, i: int)
    requires
        keys_unique(e),
        0 <= i < e.len(),
        e[i].0 == k,
    ensures
        lookup(e, k) == Some(e[i].1),
    decreases e.len(),
{
    if i != e.len() - 1 {
        assert(e.drop_last()[i] == e[i]);
        lemma_lookup_index(e.drop_last(), k, i);
    }
}

pub proof fn lemma_lookup_absent(e: Seq<GlyphEntry>, k: Seq<char>)
    requires
        !has_key(e, k),
    ensures
        lookup(e, k) is None,
    decreases e.len(),
{
    if e.len() > 0 {
        assert(e.last().0 != k) by {
            if e.last().0 == k {
                assert(e[e.len() - 1].0 == k);
            }
        }
        assert forall|j: int| 0 <= j < e.drop_last().len() implies e.drop_last()[j].0 != k by {
            assert(e.drop_last()[j] == e[j]);
        }
        lemma_lookup_absent(e.drop_last(), k);
    }
}

/// What a lookup finds in a sequence of unique keys.
pub proof fn lemma_lookup(e: Seq<GlyphEntry>, k: Seq<char>)
    requires
        keys_unique(e),
    ensures
        lookup(e, k) is Some <==> has_key(e, k),
        has_key(e, k) ==> forall|i: int| 0 <= i < e.len() && e[i].0 == k ==> lookup(e, k) == Some(e[i].1),
{
    if has_key(e, k) {
        let i = choose|i: int| 0 <= i < e.len() && e[i].0 == k;
        lemma_lookup_index(e, k, i);
        assert forall|j: int| 0 <= j < e.len() && e[j].0 == k implies lookup(e, k) == Some(e[j].1) by {
            lemma_lookup_index(e, k, j);
        }
    } else {
        lemma_lookup_absent(e, k);
    }
}

/// Storing a pair keeps keys unique and makes lookups see the new value.
pub proof fn lemma_insert_entry(e: Seq<GlyphEntry>, k: Seq<char>, v: Seq<Seq<char>>)
    requires
        keys_unique(e),
    ensures
        keys_unique(insert_entry(e, k, v)),
        forall|q: Seq<char>| #[trigger] lookup(insert_entry(e, k, v), q) == if q == k { Some(v) } else { lookup(e, q) },
        forall|q: Seq<char>| #[trigger] has_key(insert_entry(e, k, v), q) == (q == k || has_key(e, q)),
{
    let n = insert_entry(e, k, v);
    if has_key(e, k) {
        let i = choose|i: int| 0 <= i < e.len() && e[i].0 == k;
        assert(n == e.update(i, (k, v)));
        assert forall|a: int, b: int| 0 <= a < n.len() && 0 <= b < n.len() && a != b implies n[a].0 != n[b].0 by {
        }
        assert forall|q: Seq<char>| has_key(n, q) == (q == k || has_key(e, q)) by {
            if q == k {
                assert(n[i].0 == k);
            }
            if has_key(e, q) {
                let j = choose|j: int| 0 <= j < e.len() && e[j].0 == q;
                if j == i {
                    assert(q == k);
                } else {
                    assert(n[j].0 == q);
                }
            }
            if has_key(n, q) {
                let j = choose|j: int| 0 <= j < n.len() && n[j].0 == q;
                if j != i {
                    assert(e[j].0 == q);
                }
            }
        }
        assert forall|q: Seq<char>| #[trigger] lookup(n, q) == if q == k { Some(v) } else { lookup(e, q) } by {
            lemma_lookup(n, q);
            lemma_lookup(e, q);
            if q == k {
                assert(n[i].0 == k);
            } else if has_key(e, q) {
                let j = choose|j: int| 0 <= j < e.len() && e[j].0 == q;
                assert(n[j] == e[j]);
            }
        }
    } else {
        assert(n == e.push((k, v)));
        assert forall|a: int, b: int| 0 <= a < n.len() && 0 <= b < n.len() && a != b implies n[a].0 != n[b].0 by {
            if a == e.len() {
                assert(e[b].0 != k);
            } else if b == e.len() {
                assert(e[a].0 != k);
            } else {
                assert(n[a] == e[a] && n[b] == e[b]);
            }
        }
        assert forall|q: Seq<char>| has_key(n, q) == (q == k || has_key(e, q)) by {
            if q == k {
                assert(n[e.len() as int].0 == k);
            }
            if has_key(e, q) {
                let j = choose|j: int| 0 <= j < e.len() && e[j].0 == q;
                assert(n[j].0 == q);
            }
            if has_key(n, q) {
                let j = choose|j: int| 0 <= j < n.len() && n[j].0 == q;
                if j != e.len() {
                    assert(e[j].0 == q);
                }
            }
        }
        assert forall|q: Seq<char>| #[trigger] lookup(n, q) == if q == k { Some(v) } else { lookup(e, q) } by {
            assert(n.drop_last() == e);
        }
    }
}

pub proof fn lemma_insert_all(e: Seq<GlyphEntry>, pairs: Seq<GlyphEntry>)
    requires
        keys_unique(e),
    ensures
        keys_unique(insert_all(e, pairs)),
        forall|q: Seq<char>| #[trigger] lookup(insert_all(e, pairs), q) == if lookup(pairs, q) is Some { lookup(pairs, q) } else { lookup(e, q) },
    decreases pairs.len(),
{
    if pairs.len() > 0 {
        lemma_insert_all(e, pairs.drop_last());
        lemma_insert_entry(insert_all(e, pairs.drop_last()), pairs.last().0, pairs.last().1);
    }
}

/// The plain view of stored pairs.
pub open spec fn entries_of(v: Seq<(String, Glyph)>) -> Seq<GlyphEntry> {
    Seq::new(v.len(), |i: int| (v[i].0@, v[i].1.deep_view()))
}

fn find_key(v: &Vec<(String, Glyph)>, key: &str) -> (r: Option<usize>)
    ensures
        match r {
            Some(i) => i < v@.len() && entries_of(v@)[i as int].0 == key@,
            None => !has_key(entries_of(v@), key@),
        },
{
    let mut i: usize = 0;
    while i < v.len()
        invariant
            i <= v@.len(),
            forall|j: int| 0 <= j < i ==> entries_of(v@)[j].0 != key@,
        decreases v@.len() - i,
    {
        if str_eq(v[i].0.as_str(), key) {
            return Some(i);
        }
        i = i + 1;
    }
    None
}

/// A glyph dictionary mapping single chars or ligature sequences to glyphs.
///
/// Entries keep the order in which their keys were first stored.
#[derive(Debug)]
pub struct Glyphs(Vec<(String, Glyph)>);

impl Glyphs {
    /// The entries of the dictionary, in order, as plain sequences.
    pub closed spec fn entries(&self) -> Seq<GlyphEntry> {
        entries_of(self.0@)
    }

    #[verifier::type_invariant]
    closed spec fn unique(&self) -> bool {
        keys_unique(self.entries())
    }

    /// No key is stored twice: every glyph map keeps this.
    pub fn keys_unique_holds(&self)
        ensures
            keys_unique(self.entries()),
    {
        proof {
            use_type_invariant(self);
        }
    }

    /// The glyph stored under `k`, if any.
    pub open spec fn lookup(&self, k: Seq<char>) -> Option<Seq<Seq<char>>> {
        lookup(self.entries(), k)
    }

    /// Create an empty `Glyphs` map.
    pub fn new() -> (r: Self)
        ensures
            r.entries() == Seq::<GlyphEntry>::empty(),
    {
        let r = Glyphs(Vec::new());
        assert(r.entries() =~= Seq::<GlyphEntry>::empty());
        r
    }

    fn find(&self, key: &str) -> (r: Option<usize>)
        ensures
            match r {
                Some(i) => i < self.entries().len() && self.entries()[i as int].0 == key@,
                None => !has_key(self.entries(), key@),
            },
    {
        find_key(&self.0, key)
    }

    /// Look up a glyph by key.
    pub fn get(&self, key: &str) -> (r: Option<&Glyph>)
        ensures
            match r {
                Some(g) => self.lookup(key@) == Some(g.deep_view()),
                None => self.lookup(key@) is None,
            },
    {
        proof {
            use_type_invariant(self);
            lemma_lookup(self.entries(), key@);
        }
        match self.find(key) {
            Some(i) => Some(&self.0[i].1),
            None => None,
        }
    }

    /// Returns true if the map contains the given key.
    pub fn contains_key(&self, key: &str) -> (r: bool)
        ensures
            r == (self.lookup(key@) is Some),
    {
        proof {
            use_type_invariant(self);
            lemma_lookup(self.entries(), key@);
        }
        self.find(key).is_some()
    }

    /// Insert a glyph.
    pub fn insert(&mut self, key: String, glyph: Glyph)
        ensures
            final(self).entries() == insert_entry(old(self).entries(), key@, glyph.deep_view()),
            keys_unique(old(self).entries()),
            keys_unique(final(self).entries()),
    {
        proof {
            use_type_invariant(&*self);
            lemma_insert_entry(self.entries(), key@, glyph.deep_view());
        }
        let ghost e = self.entries();
        let mut v: Vec<(String, Glyph)> = Vec::new();
        std::mem::swap(&mut v, &mut self.0);
        match find_key(&v, key.as_str()) {
            Some(i) => {
                proof {
                    let c = choose|j: int| 0 <= j < e.len() && e[j].0 == key@;
                    assert(c == i);
                }
                v.set(i, (key, glyph));
            }
            None => {
                v.push((key, glyph));
            }
        }
        assert(entries_of(v@) =~= insert_entry(e, key@, glyph.deep_view()));
        self.0 = v;
    }
}

impl Glyphs {
    /// All glyph keys in this map (chars and/or ligature sequences), in entry order.
    pub fn keys(&self) -> (r: Vec<String>)
        ensures
            r@.len() == self.entries().len(),
            forall|i: int| 0 <= i < r@.len() ==> #[trigger] r@[i]@ == self.entries()[i].0,
    {
        let mut r: Vec<String> = Vec::new();
        let mut i: usize = 0;
        while i < self.0.len()
            invariant
                i <= self.0@.len(),
                r@.len() == i,
                forall|j: int| 0 <= j < i ==> #[trigger] r@[j]@ == self.entries()[j].0,
            decreases self.0@.len() - i,
        {
            r.push(self.0[i].0.clone());
            i = i + 1;
        }
        r
    }

    /// Extend from another `Glyphs` map (right-side wins on duplicate keys).
    pub fn extend(&mut self, other: Glyphs)
        ensures
            final(self).entries() == insert_all(old(self).entries(), other.entries()),
            keys_unique(old(self).entries()),
            keys_unique(final(self).entries()),
    {
        proof {
            use_type_invariant(&*self);
            use_type_invariant(&other);
            lemma_insert_all(self.entries(), other.entries());
        }
        let ghost e = self.entries();
        let ghost o = other.entries();
        let mut i: usize = 0;
        while i < other.0.len()
            invariant
                o == other.entries(),
                i <= o.len(),
                o.len() == other.0@.len(),
                self.entries() == insert_all(e, o.take(i as int)),
            decreases o.len() - i,
        {
            self.insert(clone_key(&other.0[i].0), clone_glyph(&other.0[i].1));
            i = i + 1;
            assert(o.take(i as int).drop_last() =~= o.take(i - 1));
        }
        assert(o.take(i as int) =~= o);
    }

    /// Returns true if the map is empty.
    pub fn is_empty(&self) -> (r: bool)
        ensures
            r == (self.entries().len() == 0),
    {
        self.0.len() == 0
    }

    /// Number of rows of the first glyph stored (0 if the map is empty).
    pub fn line_height(&self) -> (r: usize)
        ensures
            r == (if self.entries().len() == 0 { 0 } else { self.entries()[0].1.len() }),
    {
        if self.0.len() == 0 {
            0
        } else {
            self.0[0].1.len()
        }
    }
}

/// A glyph with at least `height` rows, none longer than `width` characters.
pub open spec fn glyph_within(g: Seq<Seq<char>>, height: nat, width: nat) -> bool {
    g.len() >= height && forall|i: int| 0 <= i < g.len() ==> (#[trigger] g[i]).len() <= width
}

/// Every glyph of the entries is within `height` and `width`.
pub open spec fn entries_within(e: Seq<GlyphEntry>, height: nat, width: nat) -> bool {
    forall|i: int| 0 <= i < e.len() ==> glyph_within(#[trigger] e[i].1, height, width)
}

/// A glyph found by `lookup` is one of the entries' glyphs.
pub proof fn lemma_lookup_within(e: Seq<GlyphEntry>, k: Seq<char>, height: nat, width: nat)
    requires
        entries_within(e, height, width),
        lookup(e, k) is Some,
    ensures
        glyph_within(lookup(e, k)->0, height, width),
    decreases e.len(),
{
    if e.last().0 != k {
        assert(entries_within(e.drop_last(), height, width)) by {
            assert forall|i: int| 0 <= i < e.drop_last().len() implies glyph_within(#[trigger] e.drop_last()[i].1, height, width) by {
                assert(e.drop_last()[i] == e[i]);
            }
        }
        lemma_lookup_within(e.drop_last(), k, height, width);
    } else {
        assert(e.last() == e[e.len() - 1]);
    }
}

/// Whether a glyph has at least `height` rows, none longer than `width` characters.
pub fn glyph_is_within(g: &Glyph, height: usize, width: usize) -> (r: bool)
    ensures
        r == glyph_within(g.deep_view(), height as nat, width as nat),
{
    if g.len() < height {
        return false;
    }
    let mut i: usize = 0;
    while i < g.len()
        invariant
            i <= g@.len(),
            forall|j: int| 0 <= j < i ==> (#[trigger] g.deep_view()[j]).len() <= width,
        decreases g@.len() - i,
    {
        let n = str_chars(g[i].as_str()).len();
        if n > width {
            assert(g.deep_view()[i as int] == g@[i as int]@);
            return false;
        }
        i = i + 1;
    }
    true
}

/// The length of the longest row of a glyph (0 without rows).
pub open spec fn glyph_widest(g: Seq<Seq<char>>) -> nat
    decreases g.len(),
{
    if g.len() == 0 {
        0
    } else {
        let m = glyph_widest(g.drop_last());
        if g.last().len() > m { g.last().len() } else { m }
    }
}

/// The length of the longest row among the glyphs of the entries.
pub open spec fn entries_widest(e: Seq<GlyphEntry>) -> nat
    decreases e.len(),
{
    if e.len() == 0 {
        0
    } else {
        let m = entries_widest(e.drop_last());
        let w = glyph_widest(e.last().1);
        if w > m { w } else { m }
    }
}

/// No row is longer than the longest.
pub proof fn lemma_glyph_widest(g: Seq<Seq<char>>)
    ensures
        forall|i: int| 0 <= i < g.len() ==> (#[trigger] g[i]).len() <= glyph_widest(g),
    decreases g.len(),
{
    if g.len() > 0 {
        lemma_glyph_widest(g.drop_last());
        assert forall|i: int| 0 <= i < g.len() implies (#[trigger] g[i]).len() <= glyph_widest(g) by {
            if i < g.len() - 1 {
                assert(g.drop_last()[i] == g[i]);
            }
        }
    }
}

/// Every entry is within no height and the longest row of the entries.
pub proof fn lemma_entries_widest(e: Seq<GlyphEntry>)
    ensures
        entries_within(e, 0, entries_widest(e)),
    decreases e.len(),
{
    if e.len() > 0 {
        lemma_entries_widest(e.drop_last());
        assert forall|i: int| 0 <= i < e.len() implies glyph_within(#[trigger] e[i].1, 0, entries_widest(e)) by {
            lemma_glyph_widest(e[i].1);
            if i < e.len() - 1 {
                assert(e.drop_last()[i] == e[i]);
                assert(glyph_within(e.drop_last()[i].1, 0, entries_widest(e.drop_last())));
            }
        }
    }
}

/// The length of the longest row of a glyph.
pub fn glyph_widest_of(g: &Glyph) -> (r: usize)
    ensures
        r == glyph_widest(g.deep_view()),
{
    let ghost d = g.deep_view();
    let mut m: usize = 0;
    let mut i: usize = 0;
    while i < g.len()
        invariant
            d == g.deep_view(),
            d.len() == g@.len(),
            i <= g@.len(),
            m == glyph_widest(d.take(i as int)),
        decreases g@.len() - i,
    {
        let n = str_chars(g[i].as_str()).len();
        proof {
            assert(d.take(i + 1).drop_last() =~= d.take(i as int));
            assert(d.take(i + 1).last() == d[i as int]);
            assert(d[i as int] == g@[i as int]@);
        }
        if n > m {
            m = n;
        }
        i = i + 1;
    }
    assert(d.take(i as int) =~= d);
    m
}

impl Glyphs {
    /// The length of the longest row among the glyphs.
    pub fn widest(&self) -> (r: usize)
        ensures
            r == entries_widest(self.entries()),
    {
        let ghost e = self.entries();
        let mut m: usize = 0;
        let mut i: usize = 0;
        while i < self.0.len()
            invariant
                e == self.entries(),
                e.len() == self.0@.len(),
                i <= self.0@.len(),
                m == entries_widest(e.take(i as int)),
            decreases self.0@.len() - i,
        {
            let w = glyph_widest_of(&self.0[i].1);
            proof {
                assert(e.take(i + 1).drop_last() =~= e.take(i as int));
                assert(e.take(i + 1).last() == e[i as int]);
                assert(e[i as int].1 == self.0@[i as int].1.deep_view());
            }
            if w > m {
                m = w;
            }
            i = i + 1;
        }
        assert(e.take(i as int) =~= e);
        m
    }
}

impl Glyphs {
    /// Whether every glyph has at least `height` rows, none longer than
    /// `width` characters.
    pub fn all_within(&self, height: usize, width: usize) -> (r: bool)
        ensures
            r == entries_within(self.entries(), height as nat, width as nat),
    {
        let mut i: usize = 0;
        while i < self.0.len()
            invariant
                i <= self.0@.len(),
                forall|j: int| 0 <= j < i ==> glyph_within(#[trigger] self.entries()[j].1, height as nat, width as nat),
            decreases self.0@.len() - i,
        {
            if !glyph_is_within(&self.0[i].1, height, width) {
                assert(self.entries()[i as int].1 == self.0@[i as int].1.deep_view());
                return false;
            }
            i = i + 1;
        }
        true
    }
}

fn clone_key(k: &String) -> (r: String)
    ensures
        r@ == k@,
{
    k.clone()
}

/// A copy of a glyph.
pub fn clone_glyph(g: &Glyph) -> (r: Glyph)
    ensures
        r.deep_view() == g.deep_view(),
{
    let mut r: Glyph = Vec::new();
    let mut i: usize = 0;
    while i < g.len()
        invariant
            i <= g@.len(),
            r@.len() == i,
            forall|j: int| 0 <= j < i ==> r@[j]@ == g@[j]@,
        decreases g@.len() - i,
    {
        r.push(g[i].clone());
        i = i + 1;
    }
    assert(r.deep_view() =~= g.deep_view());
    r
}

impl Clone for Glyphs {
    fn clone(&self) -> (r: Self)
        ensures
            r.entries() == self.entries(),
    {
        proof {
            use_type_invariant(self);
        }
        let mut v: Vec<(String, Glyph)> = Vec::new();
        let mut i: usize = 0;
        while i < self.0.len()
            invariant
                i <= self.0@.len(),
                v@.len() == i,
                entries_of(v@) == entries_of(self.0@).take(i as int),
            decreases self.0@.len() - i,
        {
            let k = self.0[i].0.clone();
            let g = clone_glyph(&self.0[i].1);
            assert(k@ == self.0@[i as int].0@);
            let ghost old_v = v@;
            v.push((k, g));
            assert(v@ == old_v.push((k, g)));
            assert(entries_of(v@).last() == entries_of(self.0@)[i as int]);
            i = i + 1;
            assert forall|j: int| 0 <= j < i - 1 implies entries_of(v@)[j] == entries_of(old_v)[j] by {
                assert(v@[j] == old_v[j]);
            }
            assert(entries_of(v@) =~= entries_of(self.0@).take(i as int));
        }
        assert(entries_of(self.0@).take(i as int) =~= entries_of(self.0@));
        Glyphs(v)
    }
}

} // verus!
