use vstd::prelude::*;
use vstd::string::StrSliceExecFns;

verus! {

/// Whitespace characters recognized when deciding whether a key is blank:
/// the code points with the Unicode White_Space property, the set trimming
/// goes by.
pub open spec fn is_space_char(c: char) -> bool {
    c == '\u{9}' || c == '\u{a}' || c == '\u{b}' || c == '\u{c}' || c == '\u{d}' || c == ' ' || c
        == '\u{85}' || c == '\u{a0}' || c == '\u{1680}' || c == '\u{2000}' || c == '\u{2001}' || c
        == '\u{2002}' || c == '\u{2003}' || c == '\u{2004}' || c == '\u{2005}' || c == '\u{2006}'
        || c == '\u{2007}' || c == '\u{2008}' || c == '\u{2009}' || c == '\u{200a}' || c
        == '\u{2028}' || c == '\u{2029}' || c == '\u{202f}' || c == '\u{205f}' || c == '\u{3000}'
}

/// A key is accepted by a mutation only if it is non-empty after trimming,
/// that is, it contains at least one non-whitespace character.
pub open spec fn key_valid(k: Seq<char>) -> bool {
    exists|i: int| 0 <= i < k.len() && !is_space_char(k[i])
}

/// The mapping described by an entry sequence: entries bind keys to values,
/// a later entry for a key overriding an earlier one.
pub open spec fn map_of(es: Seq<(Seq<char>, Seq<char>)>) -> Map<Seq<char>, Seq<char>>
    decreases es.len(),
{
    if es.len() == 0 {
        Map::empty()
    } else {
        map_of(es.drop_last()).insert(es.last().0, es.last().1)
    }
}

/// The entry sequences a well-formed document may hold: every key is valid
/// and no key occurs twice.
pub open spec fn entries_wf(es: Seq<(Seq<char>, Seq<char>)>) -> bool {
    &&& forall|i: int| 0 <= i < es.len() ==> key_valid(#[trigger] es[i].0)
    &&& forall|i: int, j: int|
        0 <= i < j < es.len() ==> (#[trigger] es[i].0) != (#[trigger] es[j].0)
}

/// An in-memory key/value document: a mapping from string keys to string
/// values with unique, non-blank keys.
pub struct Document {
    entries: Vec<(String, String)>,
}

impl View for Document {
    type V = Map<Seq<char>, Seq<char>>;

    open spec fn view(&self) -> Map<Seq<char>, Seq<char>> {
        map_of(self.entry_seq())
    }
}

/// Decides whether a character counts as whitespace.
pub fn char_is_space(c: char) -> (r: bool)
    ensures
        r == is_space_char(c),
{
    c == '\u{9}' || c == '\u{a}' || c == '\u{b}' || c == '\u{c}' || c == '\u{d}' || c == ' ' || c
        == '\u{85}' || c == '\u{a0}' || c == '\u{1680}' || c == '\u{2000}' || c == '\u{2001}' || c
        == '\u{2002}' || c == '\u{2003}' || c == '\u{2004}' || c == '\u{2005}' || c == '\u{2006}'
        || c == '\u{2007}' || c == '\u{2008}' || c == '\u{2009}' || c == '\u{200a}' || c
        == '\u{2028}' || c == '\u{2029}' || c == '\u{202f}' || c == '\u{205f}' || c == '\u{3000}'
}

/// Decides whether a key is non-empty after trimming.
pub fn key_has_content(key: &str) -> (r: bool)
    ensures
        r == key_valid(key@),
{
    let n = key.unicode_len();
    let mut i: usize = 0;
    while i < n
        invariant
            i <= n,
            n == key@.len(),
            forall|j: int| 0 <= j < i ==> is_space_char(key@[j]),
        decreases n - i,
    {
        let c = key.get_char(i);
        if !char_is_space(c) {
            return true;
        }
        i = i + 1;
    }
    false
}

/// Character-by-character string equality.
pub fn str_eq(a: &str, b: &str) -> (r: bool)
    ensures
        r == (a@ == b@),
{
    let na = a.unicode_len();
    let nb = b.unicode_len();
    if na != nb {
        return false;
    }
    let mut i: usize = 0;
    while i < na
        invariant
            i <= na,
            na == a@.len(),
            na == b@.len(),
            forall|j: int| 0 <= j < i ==> a@[j] == b@[j],
        decreases na - i,
    {
        if a.get_char(i) != b.get_char(i) {
            return false;
        }
        i = i + 1;
    }
    proof {
        assert(a@ =~= b@);
    }
    true
}

proof fn lemma_map_of_contains(es: Seq<(Seq<char>, Seq<char>)>, k: Seq<char>)
    ensures
        map_of(es).contains_key(k) <==> exists|i: int| 0 <= i < es.len() && (#[trigger] es[i].0)
            == k,
    decreases es.len(),
{
    if es.len() > 0 {
        lemma_map_of_contains(es.drop_last(), k);
        if es.last().0 == k {
            assert(es[es.len() - 1].0 == k);
        } else {
            if exists|i: int| 0 <= i < es.len() && (#[trigger] es[i].0) == k {
                let i = choose|i: int| 0 <= i < es.len() && (#[trigger] es[i].0) == k;
                assert(i < es.len() - 1);
                assert(es.drop_last()[i].0 == k);
            }
        }
    }
}

proof fn lemma_map_of_get(es: Seq<(Seq<char>, Seq<char>)>, i: int)
    requires
        0 <= i < es.len(),
        forall|j: int| i < j < es.len() ==> (#[trigger] es[j].0) != es[i].0,
    ensures
        map_of(es).contains_key(es[i].0),
        map_of(es)[es[i].0] == es[i].1,
    decreases es.len(),
{
    if i == es.len() - 1 {
    } else {
        assert(es.drop_last()[i] == es[i]);
        lemma_map_of_get(es.drop_last(), i);
    }
}

proof fn lemma_map_of_remove(es: Seq<(Seq<char>, Seq<char>)>, i: int)
    requires
        0 <= i < es.len(),
        forall|p: int, q: int|
            0 <= p < q < es.len() ==> (#[trigger] es[p].0) != (#[trigger] es[q].0),
    ensures
        map_of(es.remove(i)) == map_of(es).remove(es[i].0),
    decreases es.len(),
{
    let k = es[i].0;
    if i == es.len() - 1 {
        assert(es.remove(i) =~= es.drop_last());
        lemma_map_of_contains(es.drop_last(), k);
        assert(forall|j: int|
            0 <= j < es.drop_last().len() ==> (#[trigger] es.drop_last()[j].0) != k);
        assert(!map_of(es.drop_last()).contains_key(k));
        assert(map_of(es.drop_last()).insert(k, es[i].1).remove(k) =~= map_of(es.drop_last()));
    } else {
        let dl = es.drop_last();
        assert(forall|p: int, q: int|
            0 <= p < q < dl.len() ==> (#[trigger] dl[p].0) != (#[trigger] dl[q].0));
        lemma_map_of_remove(dl, i);
        assert(es.remove(i).drop_last() =~= dl.remove(i));
        assert(es.remove(i).last() == es.last());
        assert(es.remove(i).len() == es.len() - 1);
        let lk = es.last().0;
        let lv = es.last().1;
        assert(lk != k);
        assert(map_of(es.remove(i)) == map_of(dl.remove(i)).insert(lk, lv));
        assert(map_of(dl).remove(k).insert(lk, lv) =~= map_of(dl).insert(lk, lv).remove(k));
    }
}

proof fn lemma_map_of_len(es: Seq<(Seq<char>, Seq<char>)>)
    requires
        forall|p: int, q: int|
            0 <= p < q < es.len() ==> (#[trigger] es[p].0) != (#[trigger] es[q].0),
    ensures
        map_of(es).dom().finite(),
        map_of(es).dom().len() == es.len(),
    decreases es.len(),
{
    if es.len() > 0 {
        let dl = es.drop_last();
        lemma_map_of_len(dl);
        lemma_map_of_contains(dl, es.last().0);
        assert(forall|j: int| 0 <= j < dl.len() ==> (#[trigger] dl[j].0) != es.last().0);
        assert(!map_of(dl).contains_key(es.last().0));
        assert(map_of(es).dom() =~= map_of(dl).dom().insert(es.last().0));
    }
}

impl Document {
    /// The entry sequence this document holds, in storage order.
    pub closed spec fn entry_seq(&self) -> Seq<(Seq<char>, Seq<char>)> {
        self.entries.deep_view()
    }

    /// Internal invariant: unique, valid keys.
    pub open spec fn wf(&self) -> bool {
        entries_wf(self.entry_seq())
    }

    /// The empty document.
    pub fn new() -> (d: Document)
        ensures
            d@ =~= Map::<Seq<char>, Seq<char>>::empty(),
            d.wf(),
            d.entry_seq().len() == 0,
    {
        Document { entries: Vec::new() }
    }

    fn find_key(&self, key: &str) -> (r: Option<usize>)
        ensures
            match r {
                Some(i) => i < self.entry_seq().len() && self.entry_seq()[i as int].0 == key@,
                None => forall|j: int|
                    0 <= j < self.entry_seq().len() ==> (#[trigger] self.entry_seq()[j].0) != key@,
            },
    {
        let n = self.entries.len();
        let mut i: usize = 0;
        while i < n
            invariant
                i <= n,
                n == self.entries.len(),
                self.entry_seq().len() == n,
                forall|j: int| 0 <= j < i ==> (#[trigger] self.entry_seq()[j].0) != key@,
            decreases n - i,
        {
            if str_eq(self.entries[i].0.as_str(), key) {
                assert(self.entry_seq()[i as int].0 == key@);
                return Some(i);
            }
            i = i + 1;
        }
        None
    }

    /// Bind `key` to `value`. A key that is empty after trimming is
    /// rejected and the document is left unchanged; otherwise the new
    /// binding replaces any existing one for the same key.
    pub fn set(&mut self, key: String, value: String) -> (r: bool)
        requires
            old(self).wf(),
        ensures
            final(self).wf(),
            r == key_valid(key@),
            r ==> final(self)@ == old(self)@.insert(key@, value@),
            !r ==> *final(self) == *old(self),
    {
        if !key_has_content(key.as_str()) {
            return false;
        }
        let ghost es0 = self.entry_seq();
        match self.find_key(key.as_str()) {
            Some(i) => {
                proof {
                    lemma_map_of_remove(es0, i as int);
                }
                self.entries.remove(i);
                proof {
                    assert(self.entries.deep_view() =~= es0.remove(i as int));
                }
            },
            None => {
                proof {
                    lemma_map_of_contains(es0, key@);
                    assert(map_of(es0) =~= map_of(es0).remove(key@));
                }
            },
        }
        let ghost es1 = self.entry_seq();
        proof {
            assert(forall|j: int| 0 <= j < es1.len() ==> (#[trigger] es1[j].0) != key@);
            assert(map_of(es1) =~= old(self)@.remove(key@));
        }
        self.entries.push((key, value));
        proof {
            assert(self.entries.deep_view() =~= es1.push((key@, value@)));
            assert(self.entries.deep_view().drop_last() =~= es1);
            assert(self@ =~= old(self)@.insert(key@, value@));
        }
        true
    }

    /// Remove the binding for `key`, if any; removing an absent key is a
    /// no-op. Returns whether the key was present.
    pub fn remove(&mut self, key: &str) -> (r: bool)
        requires
            old(self).wf(),
        ensures
            final(self).wf(),
            final(self)@ == old(self)@.remove(key@),
            r == old(self)@.contains_key(key@),
    {
        proof {
            lemma_map_of_contains(self.entry_seq(), key@);
        }
        let ghost es0 = self.entry_seq();
        match self.find_key(key) {
            Some(i) => {
                proof {
                    lemma_map_of_remove(es0, i as int);
                }
                self.entries.remove(i);
                proof {
                    assert(self.entries.deep_view() =~= es0.remove(i as int));
                }
                true
            },
            None => {
                proof {
                    assert(!old(self)@.contains_key(key@));
                    assert(self@ =~= old(self)@.remove(key@));
                }
                false
            },
        }
    }

    /// Look up the value bound to `key`.
    pub fn get(&self, key: &str) -> (r: Option<&String>)
        requires
            self.wf(),
        ensures
            match r {
                Some(v) => self@.contains_key(key@) && v@ == self@[key@],
                None => !self@.contains_key(key@),
            },
    {
        proof {
            lemma_map_of_contains(self.entry_seq(), key@);
        }
        match self.find_key(key) {
            Some(i) => {
                proof {
                    lemma_map_of_get(self.entry_seq(), i as int);
                }
                Some(&self.entries[i].1)
            },
            None => None,
        }
    }

    /// The number of bindings.
    pub fn len(&self) -> (n: usize)
        requires
            self.wf(),
        ensures
            n == self@.dom().len(),
            n == self.entry_seq().len(),
    {
        proof {
            lemma_map_of_len(self.entry_seq());
        }
        self.entries.len()
    }

    /// All bindings, in storage order.
    pub fn get_all(&self) -> (r: &Vec<(String, String)>)
        ensures
            r.deep_view() == self.entry_seq(),
    {
        &self.entries
    }

    /// Build a document from parsed pairs, inserting them in order; fails
    /// exactly when some key would be rejected by a mutation.
    pub fn from_pairs(pairs: Vec<(String, String)>) -> (r: Option<Document>)
        ensures
            match r {
                Some(d) => d.wf() && d@ == map_of(pairs.deep_view()) && (forall|i: int|
                    0 <= i < pairs.deep_view().len() ==> key_valid(
                        #[trigger] pairs.deep_view()[i].0,
                    )),
                None => !(forall|i: int|
                    0 <= i < pairs.deep_view().len() ==> key_valid(
                        #[trigger] pairs.deep_view()[i].0,
                    )),
            },
    {
        let mut doc = Document::new();
        let n = pairs.len();
        let mut i: usize = 0;
        while i < n
            invariant
                i <= n,
                n == pairs.len(),
                doc.wf(),
                doc@ == map_of(pairs.deep_view().take(i as int)),
                forall|j: int| 0 <= j < i ==> key_valid(#[trigger] pairs.deep_view()[j].0),
            decreases n - i,
        {
            let k = pairs[i].0.clone();
            let v = pairs[i].1.clone();
            let accepted = doc.set(k, v);
            if !accepted {
                proof {
                    let dv = pairs.deep_view();
                    assert(dv[i as int].0 == pairs@[i as int].0@);
                    assert(!key_valid(dv[i as int].0));
                }
                return None;
            }
            proof {
                let dv = pairs.deep_view();
                assert(dv.take(i + 1).drop_last() =~= dv.take(i as int));
                assert(dv.take(i + 1).last() == dv[i as int]);
            }
            i = i + 1;
        }
        proof {
            assert(pairs.deep_view().take(n as int) =~= pairs.deep_view());
        }
        Some(doc)
    }

    /// Every stored entry is a binding of the mapping, every key of the
    /// mapping is backed by a stored entry, and the counts agree.
    pub proof fn lemma_entries_view(&self)
        requires
            self.wf(),
        ensures
            forall|i: int|
                0 <= i < self.entry_seq().len() ==> self@.contains_key(
                    (#[trigger] self.entry_seq()[i]).0,
                ) && self@[self.entry_seq()[i].0] == self.entry_seq()[i].1,
            forall|k: Seq<char>|
                self@.contains_key(k) ==> exists|i: int|
                    0 <= i < self.entry_seq().len() && (#[trigger] self.entry_seq()[i].0) == k,
            self@.dom().len() == self.entry_seq().len(),
    {
        let es = self.entry_seq();
        lemma_map_of_len(es);
        assert forall|i: int| 0 <= i < es.len() implies self@.contains_key(
            (#[trigger] es[i]).0,
        ) && self@[es[i].0] == es[i].1 by {
            lemma_map_of_get(es, i);
        }
        assert forall|k: Seq<char>| self@.contains_key(k) implies exists|i: int|
            0 <= i < es.len() && (#[trigger] es[i].0) == k by {
            lemma_map_of_contains(es, k);
        }
    }
}

} // verus!
