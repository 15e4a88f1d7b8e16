use vstd::prelude::*;

use crate::text::str_eq;

verus! {

/// An association list of texts, each entry a name and its text, both taken as
/// character sequences.
pub type Entries = Seq<(Seq<char>, Seq<char>)>;

/// The character sequences of a list of string pairs.
pub open spec fn pairs_view(s: Seq<(String, String)>) -> Entries {
    s.map_values(|p: (String, String)| (p.0@, p.1@))
}

/// No name occurs in two entries.
pub open spec fn keys_unique(s: Entries) -> bool {
    forall|i: int, j: int| 0 <= i < s.len() && 0 <= j < s.len() && i != j ==> s[i].0 != s[j].0
}

/// The position of the last entry named `k`, or -1 where there is none.
pub open spec fn key_index(s: Entries, k: Seq<char>) -> int
    decreases s.len(),
{
    if s.len() == 0 {
        -1
    } else if s.last().0 == k {
        s.len() - 1
    } else {
        key_index(s.drop_last(), k)
    }
}

/// The text stored under `k`.
pub open spec fn lookup(s: Entries, k: Seq<char>) -> Option<Seq<char>> {
    let i = key_index(s, k);
    if i < 0 {
        None
    } else {
        Some(s[i].1)
    }
}

/// What inserting `(k, v)` does to the entries: the entry named `k` gets the
/// text `v` where there is one, else the pair is appended.
pub open spec fn insert_entry(s: Entries, k: Seq<char>, v: Seq<char>) -> Entries {
    let i = key_index(s, k);
    if i < 0 {
        s.push((k, v))
    } else {
        s.update(i, (k, v))
    }
}

/// Inserting every entry of `t`, in order, into `s`.
pub open spec fn extend_entries(s: Entries, t: Entries) -> Entries
    decreases t.len(),
{
    if t.len() == 0 {
        s
    } else {
        let prev = extend_entries(s, t.drop_last());
        insert_entry(prev, t.last().0, t.last().1)
    }
}

pub proof fn lemma_key_index(s: Entries, k: Seq<char>)
    ensures
        -1 <= key_index(s, k) < s.len(),
        key_index(s, k) >= 0 ==> s[key_index(s, k)].0 == k,
        key_index(s, k) < 0 ==> forall|j: int| 0 <= j < s.len() ==> s[j].0 != k,
        key_index(s, k) >= 0 ==> forall|j: int| key_index(s, k) < j < s.len() ==> s[j].0 != k,
    decreases s.len(),
{
    if s.len() > 0 {
        let d = s.drop_last();
        lemma_key_index(d, k);
        assert forall|j: int| 0 <= j < d.len() implies d[j] == s[j] by {}
    }
}

pub proof fn lemma_key_index_unique(s: Entries, k: Seq<char>, i: int)
    requires
        keys_unique(s),
        0 <= i < s.len(),
        s[i].0 == k,
    ensures
        key_index(s, k) == i,
{
    lemma_key_index(s, k);
}

/// After an insert, the name inserted reads the text inserted, and every
/// other name reads what it read before; no name occurs twice.
pub proof fn lemma_insert_entry(s: Entries, k: Seq<char>, v: Seq<char>)
    requires
        keys_unique(s),
    ensures
        keys_unique(insert_entry(s, k, v)),
        forall|k2: Seq<char>|
            #[trigger] lookup(insert_entry(s, k, v), k2) == if k2 == k {
                Some(v)
            } else {
                lookup(s, k2)
            },
{
    lemma_key_index(s, k);
    let r = insert_entry(s, k, v);
    assert(keys_unique(r));
    assert forall|k2: Seq<char>| #[trigger]
        lookup(r, k2) == if k2 == k {
            Some(v)
        } else {
            lookup(s, k2)
        } by {
        lemma_key_index(s, k2);
        lemma_key_index(r, k2);
        if k2 == k {
            if key_index(s, k) < 0 {
                lemma_key_index_unique(r, k, s.len() as int);
            } else {
                lemma_key_index_unique(r, k, key_index(s, k));
            }
        } else {
            if key_index(s, k2) >= 0 {
                lemma_key_index_unique(r, k2, key_index(s, k2));
            } else {
                assert forall|j: int| 0 <= j < r.len() implies r[j].0 != k2 by {}
            }
        }
    }
}

/// After inserting all of `t` into `s`, a name reads `t`'s text where `t`
/// has one, else `s`'s; no name occurs twice.
pub proof fn lemma_extend_entries(s: Entries, t: Entries)
    requires
        keys_unique(s),
    ensures
        keys_unique(extend_entries(s, t)),
        forall|k: Seq<char>|
            #[trigger] lookup(extend_entries(s, t), k) == if lookup(t, k) is Some {
                lookup(t, k)
            } else {
                lookup(s, k)
            },
    decreases t.len(),
{
    if t.len() > 0 {
        let prev = extend_entries(s, t.drop_last());
        lemma_extend_entries(s, t.drop_last());
        lemma_insert_entry(prev, t.last().0, t.last().1);
        assert forall|k: Seq<char>| #[trigger]
            lookup(extend_entries(s, t), k) == if lookup(t, k) is Some {
                lookup(t, k)
            } else {
                lookup(s, k)
            } by {
            lemma_key_index(t.drop_last(), k);
            lemma_key_index(t, k);
            assert(lookup(prev, k) == if lookup(t.drop_last(), k) is Some {
                lookup(t.drop_last(), k)
            } else {
                lookup(s, k)
            });
        }
    }
}

/// A map from names to texts that keeps its entries in the order in which
/// their names were first inserted: the labels of a sample, or the help texts
/// of a scrape.
#[derive(Debug)]
pub struct StrMap {
    entries: Vec<(String, String)>,
}

impl View for StrMap {
    type V = Entries;

    closed spec fn view(&self) -> Entries {
        pairs_view(self.entries@)
    }
}

impl StrMap {
    #[verifier::type_invariant]
    spec fn inv(&self) -> bool {
        keys_unique(self@)
    }

    /// The empty map.
    pub fn new() -> (r: Self)
        ensures
            r@ == Seq::<(Seq<char>, Seq<char>)>::empty(),
    {
        let r = StrMap { entries: Vec::new() };
        assert(r@ =~= Seq::<(Seq<char>, Seq<char>)>::empty());
        r
    }

    /// The number of entries.
    pub fn len(&self) -> (r: usize)
        ensures
            r == self@.len(),
            keys_unique(self@),
    {
        proof {
            use_type_invariant(self);
        }
        self.entries.len()
    }

    /// Whether the map holds no entry.
    pub fn is_empty(&self) -> (r: bool)
        ensures
            r == (self@.len() == 0),
    {
        self.entries.len() == 0
    }

    /// The entries, in order.
    pub fn entries(&self) -> (r: &[(String, String)])
        ensures
            pairs_view(r@) == self@,
            keys_unique(self@),
    {
        proof {
            use_type_invariant(self);
        }
        self.entries.as_slice()
    }

    /// The position of the entry named `name`, if any.
    fn position(&self, name: &str) -> (r: Option<usize>)
        ensures
            match r {
                Some(i) => key_index(self@, name@) == i,
                None => key_index(self@, name@) < 0,
            },
    {
        proof {
            use_type_invariant(self);
        }
        let n = self.entries.len();
        let mut i: usize = 0;
        while i < n
            invariant
                n == self.entries@.len(),
                i <= n,
                keys_unique(self@),
                forall|j: int| 0 <= j < i ==> self@[j].0 != name@,
            decreases n - i,
        {
            if str_eq(self.entries[i].0.as_str(), name) {
                proof {
                    lemma_key_index_unique(self@, name@, i as int);
                }
                return Some(i);
            }
            i = i + 1;
        }
        proof {
            lemma_key_index(self@, name@);
        }
        None
    }

    /// The text stored under `name`.
    pub fn get(&self, name: &str) -> (r: Option<&str>)
        ensures
            match r {
                Some(t) => lookup(self@, name@) == Some(t@),
                None => lookup(self@, name@) is None,
            },
    {
        proof {
            lemma_key_index(self@, name@);
        }
        match self.position(name) {
            Some(i) => Some(self.entries[i].1.as_str()),
            None => None,
        }
    }

    /// Stores `text` under `name`, in place of the text stored there before.
    pub fn insert(&mut self, name: String, text: String)
        ensures
            final(self)@ == insert_entry(old(self)@, name@, text@),
    {
        proof {
            use_type_invariant(&*self);
            lemma_insert_entry(self@, name@, text@);
            lemma_key_index(self@, name@);
        }
        let ghost old_view = self@;
        let pos = self.position(name.as_str());
        let mut entries: Vec<(String, String)> = Vec::new();
        std::mem::swap(&mut entries, &mut self.entries);
        assert(pairs_view(entries@) == old_view);
        match pos {
            Some(i) => {
                entries.set(i, (name, text));
            },
            None => {
                entries.push((name, text));
            },
        }
        assert(pairs_view(entries@) =~= insert_entry(old_view, name@, text@));
        self.entries = entries;
    }

    /// Inserts every entry of `other`, in order: where both hold a name, the
    /// text of `other` stays.
    pub fn extend(&mut self, other: StrMap)
        ensures
            final(self)@ == extend_entries(old(self)@, other@),
    {
        proof {
            use_type_invariant(&other);
        }
        let n = other.entries.len();
        let mut i: usize = 0;
        while i < n
            invariant
                n == other@.len(),
                i <= n,
                self@ == extend_entries(old(self)@, other@.take(i as int)),
            decreases n - i,
        {
            let name = other.entries[i].0.clone();
            let text = other.entries[i].1.clone();
            assert(other@.take(i + 1).drop_last() =~= other@.take(i as int));
            self.insert(name, text);
            i = i + 1;
        }
        assert(other@.take(n as int) =~= other@);
    }
}

impl Clone for StrMap {
    fn clone(&self) -> (r: Self)
        ensures
            r@ == self@,
    {
        proof {
            use_type_invariant(self);
        }
        let mut entries: Vec<(String, String)> = Vec::new();
        let n = self.entries.len();
        let mut i: usize = 0;
        while i < n
            invariant
                n == self.entries@.len(),
                n == self@.len(),
                i <= n,
                entries@.len() == i,
                pairs_view(entries@) =~= self@.take(i as int),
            decreases n - i,
        {
            let name = self.entries[i].0.clone();
            let text = self.entries[i].1.clone();
            assert(name@ == self@[i as int].0 && text@ == self@[i as int].1);
            let ghost before = entries@;
            entries.push((name, text));
            assert forall|j: int| 0 <= j < i implies #[trigger] pairs_view(entries@)[j] == pairs_view(before)[j] by {
                assert(entries@[j] == before[j]);
            }
            assert(pairs_view(entries@) =~= self@.take(i + 1));
            i = i + 1;
        }
        assert(self@.take(n as int) =~= self@);
        StrMap { entries }
    }
}

} // verus!
