//! The attributes of one element: a map from names to values, held in the
//! order of the names.
use vstd::prelude::*;
use crate::text::lemma_name_before_asymmetric;
use crate::text::lemma_name_before_total;
use crate::text::lemma_name_before_transitive;
use crate::text::name_before;
use crate::text::order_names;
use crate::text::NameOrder;

verus! {

/// A list of attributes as pairs of name and value.
pub type Listing = Seq<(Seq<char>, Seq<char>)>;

/// The map that a list of attributes stands for: each pair is put into the
/// map in turn, so of two pairs with one name the later one stays.
pub open spec fn map_of(s: Listing) -> Map<Seq<char>, Seq<char>>
    decreases s.len(),
{
    if s.len() == 0 {
        Map::empty()
    } else {
        map_of(s.drop_last()).insert(s.last().0, s.last().1)
    }
}

/// The names of the list rise strictly from each pair to the next.
pub open spec fn strictly_sorted(s: Listing) -> bool {
    forall|i: int, j: int|
        0 <= i < j < s.len() ==> name_before(#[trigger] s[i].0, #[trigger] s[j].0)
}

/// The attributes of a map in the order of their names: the one list whose
/// names rise strictly and which stands for the map.
pub open spec fn sorted_entries(m: Map<Seq<char>, Seq<char>>) -> Listing {
    choose|s: Listing| strictly_sorted(s) && map_of(s) == m
}

/// A list with strictly rising names stays one when its last pair is taken
/// away.
pub proof fn lemma_front_sorted(s: Listing)
    requires
        strictly_sorted(s),
        s.len() > 0,
    ensures
        strictly_sorted(s.drop_last()),
{
    let front = s.drop_last();
    assert forall|i: int, j: int| 0 <= i < j < front.len() implies name_before(
        #[trigger] front[i].0,
        #[trigger] front[j].0,
    ) by {
        assert(name_before(s[i].0, s[j].0));
    }
}

/// The names in the map of a list are the names in the list.
pub proof fn lemma_map_of_names(s: Listing)
    ensures
        forall|k: Seq<char>|
            map_of(s).contains_key(k) <==> exists|i: int|
                0 <= i < s.len() && #[trigger] s[i].0 == k,
        map_of(s).dom().finite(),
    decreases s.len(),
{
    if s.len() > 0 {
        let front = s.drop_last();
        lemma_map_of_names(front);
        assert forall|k: Seq<char>| map_of(s).contains_key(k) implies exists|i: int|
            0 <= i < s.len() && #[trigger] s[i].0 == k by {
            if k == s.last().0 {
                assert(s[s.len() - 1].0 == k);
            } else {
                let i = choose|i: int| 0 <= i < front.len() && #[trigger] front[i].0 == k;
                assert(s[i].0 == k);
            }
        }
        assert forall|k: Seq<char>| (exists|i: int| 0 <= i < s.len() && #[trigger] s[i].0 == k)
            implies map_of(s).contains_key(k) by {
            let i = choose|i: int| 0 <= i < s.len() && #[trigger] s[i].0 == k;
            if i < s.len() - 1 {
                assert(front[i].0 == k);
            }
        }
    }
}

/// No name occurs twice in the list.
pub open spec fn distinct_names(s: Listing) -> bool {
    forall|i: int, j: int| 0 <= i < j < s.len() ==> (#[trigger] s[i]).0 != (#[trigger] s[j]).0
}

/// In a list without a repeated name, the map holds exactly the pairs of the
/// list.
pub proof fn lemma_map_of_distinct(s: Listing)
    requires
        distinct_names(s),
    ensures
        forall|i: int| 0 <= i < s.len() ==> map_of(s).contains_key(#[trigger] s[i].0),
        forall|i: int| 0 <= i < s.len() ==> map_of(s)[#[trigger] s[i].0] == s[i].1,
    decreases s.len(),
{
    if s.len() > 0 {
        let front = s.drop_last();
        assert(distinct_names(front)) by {
            assert forall|i: int, j: int| 0 <= i < j < front.len() implies (#[trigger] front[i]).0
                != (#[trigger] front[j]).0 by {
                assert(s[i].0 != s[j].0);
            }
        }
        lemma_map_of_distinct(front);
        assert forall|i: int| 0 <= i < s.len() implies map_of(s).contains_key(#[trigger] s[i].0)
            && map_of(s)[s[i].0] == s[i].1 by {
            if i < s.len() - 1 {
                assert(front[i] == s[i]);
                assert(s[i].0 != s[s.len() - 1].0);
                assert(map_of(front).contains_key(front[i].0));
            }
        }
    }
}

/// In a list with strictly rising names no name occurs twice, and the map
/// holds exactly the pairs of the list.
pub proof fn lemma_map_of_values(s: Listing)
    requires
        strictly_sorted(s),
    ensures
        distinct_names(s),
        forall|i: int| 0 <= i < s.len() ==> map_of(s).contains_key(#[trigger] s[i].0),
        forall|i: int| 0 <= i < s.len() ==> map_of(s)[#[trigger] s[i].0] == s[i].1,
{
    assert forall|i: int, j: int| 0 <= i < j < s.len() implies (#[trigger] s[i]).0 != (
    #[trigger] s[j]).0 by {
        assert(name_before(s[i].0, s[j].0));
        lemma_name_before_asymmetric(s[i].0, s[j].0);
    }
    lemma_map_of_distinct(s);
}

/// A list with strictly rising names has as many pairs as its map has names.
pub proof fn lemma_map_of_len(s: Listing)
    requires
        strictly_sorted(s),
    ensures
        map_of(s).dom().finite(),
        map_of(s).len() == s.len(),
    decreases s.len(),
{
    lemma_map_of_names(s);
    if s.len() == 0 {
        assert(map_of(s).dom() =~= Set::empty());
    } else {
        let front = s.drop_last();
        lemma_front_sorted(s);
        lemma_map_of_len(front);
        lemma_map_of_names(front);
        assert(!map_of(front).contains_key(s.last().0)) by {
            if map_of(front).contains_key(s.last().0) {
                let i = choose|i: int| 0 <= i < front.len() && #[trigger] front[i].0 == s.last().0;
                assert(name_before(s[i].0, s[s.len() - 1].0));
                lemma_name_before_asymmetric(s.last().0, s.last().0);
            }
        }
        assert(map_of(s).dom() =~= map_of(front).dom().insert(s.last().0));
    }
}

/// Two lists with strictly rising names that stand for the same map are the
/// same list.
pub proof fn lemma_sorted_listing_unique(a: Listing, b: Listing)
    requires
        strictly_sorted(a),
        strictly_sorted(b),
        map_of(a) == map_of(b),
    ensures
        a == b,
    decreases a.len(),
{
    lemma_map_of_names(a);
    lemma_map_of_names(b);
    lemma_map_of_values(a);
    lemma_map_of_values(b);
    if a.len() == 0 {
        if b.len() > 0 {
            assert(map_of(b).contains_key(b[0].0));
        }
        assert(a =~= b);
    } else if b.len() == 0 {
        assert(map_of(a).contains_key(a[0].0));
    } else {
        let n = a.len() - 1;
        let m = b.len() - 1;
        // The last name of each list is the greatest name of the map.
        assert(map_of(b).contains_key(a[n].0));
        let j = choose|j: int| 0 <= j < b.len() && #[trigger] b[j].0 == a[n].0;
        assert(map_of(a).contains_key(b[m].0));
        let i = choose|i: int| 0 <= i < a.len() && #[trigger] a[i].0 == b[m].0;
        if j < m {
            assert(name_before(b[j].0, b[m].0));
            if i < n {
                assert(name_before(a[i].0, a[n].0));
            }
            lemma_name_before_asymmetric(a[n].0, b[m].0);
        }
        assert(a[n].0 == b[m].0);
        assert(a[n] == b[m]);
        let front_a = a.drop_last();
        let front_b = b.drop_last();
        let key = a[n].0;
        lemma_front_sorted(a);
        lemma_front_sorted(b);
        lemma_map_of_names(front_a);
        lemma_map_of_names(front_b);
        assert(!map_of(front_a).contains_key(key)) by {
            if map_of(front_a).contains_key(key) {
                let i = choose|i: int| 0 <= i < front_a.len() && #[trigger] front_a[i].0 == key;
                assert(name_before(a[i].0, a[n].0));
                lemma_name_before_asymmetric(key, key);
            }
        }
        assert(!map_of(front_b).contains_key(key)) by {
            if map_of(front_b).contains_key(key) {
                let i = choose|i: int| 0 <= i < front_b.len() && #[trigger] front_b[i].0 == key;
                assert(name_before(b[i].0, b[m].0));
                lemma_name_before_asymmetric(key, key);
            }
        }
        assert(map_of(front_a) =~= map_of(a).remove(key));
        assert(map_of(front_b) =~= map_of(b).remove(key));
        lemma_sorted_listing_unique(front_a, front_b);
        assert(a =~= front_a.push(a[n]));
        assert(b =~= front_b.push(b[m]));
    }
}

/// A list with strictly rising names is the sorted list of its own map.
pub proof fn lemma_sorted_entries_of_listing(s: Listing)
    requires
        strictly_sorted(s),
    ensures
        sorted_entries(map_of(s)) == s,
{
    let chosen = sorted_entries(map_of(s));
    lemma_sorted_listing_unique(chosen, s);
}

/// One attribute: a name and its value.
#[derive(Debug, PartialEq, Eq)]
pub struct Attribute {
    pub name: String,
    pub value: String,
}

impl View for Attribute {
    type V = (Seq<char>, Seq<char>);

    open spec fn view(&self) -> (Seq<char>, Seq<char>) {
        (self.name@, self.value@)
    }
}

/// The pairs of name and value that a sequence of attributes holds.
pub open spec fn listing_of(v: Seq<Attribute>) -> Listing {
    Seq::new(v.len(), |i: int| v[i]@)
}

/// The attributes of one element. No name is empty and none occurs twice.
#[derive(Debug)]
pub struct AttributeMap {
    entries: Vec<Attribute>,
}

impl View for AttributeMap {
    type V = Map<Seq<char>, Seq<char>>;

    closed spec fn view(&self) -> Map<Seq<char>, Seq<char>> {
        map_of(listing_of(self.entries@))
    }
}

impl AttributeMap {
    /// The attributes are held in the strict order of their names, and no
    /// name is empty.
    #[verifier::type_invariant]
    pub closed spec fn wf(&self) -> bool {
        &&& strictly_sorted(listing_of(self.entries@))
        &&& forall|i: int|
            0 <= i < self.entries@.len() ==> (#[trigger] self.entries@[i]).name@.len() > 0
    }

    /// The attributes of a well-formed map are finitely many, and none has an
    /// empty name.
    pub proof fn lemma_wf(&self)
        requires
            self.wf(),
        ensures
            self@.dom().finite(),
            forall|k: Seq<char>| self@.contains_key(k) ==> k.len() > 0,
    {
        let s = listing_of(self.entries@);
        lemma_map_of_names(s);
        assert forall|k: Seq<char>| self@.contains_key(k) implies k.len() > 0 by {
            let i = choose|i: int| 0 <= i < s.len() && #[trigger] s[i].0 == k;
            assert(self.entries@[i].name@ == k);
        }
    }

    /// A map without attributes.
    pub fn new() -> (m: AttributeMap)
        ensures
            m@ == Map::<Seq<char>, Seq<char>>::empty(),
            m.wf(),
    {
        let m = AttributeMap { entries: Vec::new() };
        assert(listing_of(m.entries@) =~= Seq::empty());
        m
    }

    /// The number of attributes.
    pub fn len(&self) -> (n: usize)
        ensures
            n == self@.len(),
    {
        proof {
            use_type_invariant(self);
            lemma_map_of_len(listing_of(self.entries@));
        }
        self.entries.len()
    }

    /// The value of the attribute `name`, if there is such an attribute.
    pub fn get(&self, name: &str) -> (value: Option<&String>)
        ensures
            value is Some <==> self@.contains_key(name@),
            value matches Some(v) ==> v@ == self@[name@],
    {
        let p = self.place_of(name);
        proof {
            use_type_invariant(self);
        }
        let ghost s = listing_of(self.entries@);
        proof {
            lemma_map_of_names(s);
            lemma_map_of_values(s);
        }
        if p < self.entries.len() && order_names(self.entries[p].name.as_str(), name)
            == NameOrder::Same {
            assert(s[p as int].0 == name@);
            Some(&self.entries[p].value)
        } else {
            proof {
                if self@.contains_key(name@) {
                    let i = choose|i: int| 0 <= i < s.len() && #[trigger] s[i].0 == name@;
                    if i < p {
                        assert(name_before(self.entries@[i].name@, name@));
                    } else if i > p {
                        assert(name_before(s[p as int].0, s[i].0));
                    }
                    lemma_name_before_asymmetric(name@, name@);
                }
            }
            None
        }
    }

    /// The attributes in the order of their names.
    pub fn entries(&self) -> (list: &Vec<Attribute>)
        ensures
            listing_of(list@) == sorted_entries(self@),
    {
        proof {
            use_type_invariant(self);
            lemma_sorted_entries_of_listing(listing_of(self.entries@));
        }
        &self.entries
    }

    /// The first place whose name does not stand before `name`.
    fn place_of(&self, name: &str) -> (p: usize)
        ensures
            p <= self.entries@.len(),
            forall|i: int| 0 <= i < p ==> name_before(self.entries@[i].name@, name@),
            p < self.entries@.len() ==> !name_before(self.entries@[p as int].name@, name@),
    {
        let mut p: usize = 0;
        while p < self.entries.len()
            invariant
                p <= self.entries@.len(),
                forall|i: int| 0 <= i < p ==> name_before(self.entries@[i].name@, name@),
            decreases self.entries@.len() - p,
        {
            match order_names(self.entries[p].name.as_str(), name) {
                NameOrder::Before => {
                    p += 1;
                },
                _ => {
                    return p;
                },
            }
        }
        p
    }

    /// Gives `name` the value `value`, in place of the value it had if it had
    /// one. An empty name is not a name: nothing is stored for it.
    pub fn insert(&mut self, name: String, value: String) -> (stored: bool)
        ensures
            stored == (name@.len() > 0),
            final(self)@ == if stored {
                old(self)@.insert(name@, value@)
            } else {
                old(self)@
            },
            final(self).wf(),
    {
        proof {
            use_type_invariant(&*self);
        }
        if name.as_str().is_empty() {
            return false;
        }
        let p = self.place_of(name.as_str());
        let ghost before = listing_of(self.entries@);
        let ghost pair = (name@, value@);
        let replace = p < self.entries.len() && order_names(
            self.entries[p].name.as_str(),
            name.as_str(),
        ) == NameOrder::Same;
        let mut entries: Vec<Attribute> = Vec::new();
        assert(listing_of(entries@) =~= Seq::empty());
        std::mem::swap(&mut self.entries, &mut entries);
        if replace {
            entries[p] = Attribute { name, value };
            proof {
                assert(listing_of(entries@) =~= before.update(p as int, pair));
                lemma_update_listing(before, p as int, pair.1);
            }
        } else {
            entries.insert(p, Attribute { name, value });
            proof {
                assert(listing_of(entries@) =~= before.insert(p as int, pair));
                assert(p < before.len() ==> name_before(pair.0, before[p as int].0)) by {
                    if p < before.len() {
                        lemma_name_before_total(pair.0, before[p as int].0);
                    }
                }
                lemma_insert_listing(before, p as int, pair);
            }
        }
        self.entries = entries;
        true
    }
}

impl Default for AttributeMap {
    /// A map without attributes.
    fn default() -> (m: AttributeMap)
        ensures
            m@ == Map::<Seq<char>, Seq<char>>::empty(),
            m.wf(),
    {
        AttributeMap::new()
    }
}

/// Putting another value beside a name of a sorted list changes the map at
/// that name alone.
proof fn lemma_update_listing(s: Listing, p: int, value: Seq<char>)
    requires
        strictly_sorted(s),
        0 <= p < s.len(),
    ensures
        strictly_sorted(s.update(p, (s[p].0, value))),
        map_of(s.update(p, (s[p].0, value))) == map_of(s).insert(s[p].0, value),
{
    let t = s.update(p, (s[p].0, value));
    assert(strictly_sorted(t)) by {
        assert forall|i: int, j: int| 0 <= i < j < t.len() implies name_before(
            #[trigger] t[i].0,
            #[trigger] t[j].0,
        ) by {
            assert(name_before(s[i].0, s[j].0));
        }
    }
    lemma_map_of_names(s);
    lemma_map_of_names(t);
    lemma_map_of_values(s);
    lemma_map_of_values(t);
    let want = map_of(s).insert(s[p].0, value);
    assert forall|k: Seq<char>| map_of(t).contains_key(k) <==> want.contains_key(k) by {
        if map_of(t).contains_key(k) {
            let i = choose|i: int| 0 <= i < t.len() && #[trigger] t[i].0 == k;
            assert(s[i].0 == k);
        }
        if want.contains_key(k) && k != s[p].0 {
            let i = choose|i: int| 0 <= i < s.len() && #[trigger] s[i].0 == k;
            assert(t[i].0 == k);
        }
        if k == s[p].0 {
            assert(t[p].0 == k);
        }
    }
    assert forall|k: Seq<char>| map_of(t).contains_key(k) implies map_of(t)[k] == want[k] by {
        let i = choose|i: int| 0 <= i < t.len() && #[trigger] t[i].0 == k;
        assert(map_of(t)[t[i].0] == t[i].1);
        if i != p {
            assert(s[i] == t[i]);
            assert(map_of(s)[s[i].0] == s[i].1);
            if i < p {
                assert(name_before(s[i].0, s[p].0));
            } else {
                assert(name_before(s[p].0, s[i].0));
            }
            lemma_name_before_asymmetric(s[i].0, s[p].0);
        }
    }
    assert(map_of(t) =~= want);
}

/// Putting a new pair into a sorted list at the place of its name adds the
/// pair to the map.
proof fn lemma_insert_listing(s: Listing, p: int, pair: (Seq<char>, Seq<char>))
    requires
        strictly_sorted(s),
        0 <= p <= s.len(),
        forall|i: int| 0 <= i < p ==> name_before(s[i].0, pair.0),
        p < s.len() ==> name_before(pair.0, s[p].0),
    ensures
        strictly_sorted(s.insert(p, pair)),
        map_of(s.insert(p, pair)) == map_of(s).insert(pair.0, pair.1),
{
    let t = s.insert(p, pair);
    assert(strictly_sorted(t)) by {
        assert forall|i: int, j: int| 0 <= i < j < t.len() implies name_before(
            #[trigger] t[i].0,
            #[trigger] t[j].0,
        ) by {
            if j < p {
                assert(name_before(s[i].0, s[j].0));
            } else if j == p {
                assert(name_before(s[i].0, pair.0));
            } else if i == p {
                if j - 1 > p {
                    assert(name_before(s[p].0, s[j - 1].0));
                    lemma_name_before_transitive(pair.0, s[p].0, s[j - 1].0);
                }
            } else if i < p {
                assert(name_before(s[i].0, s[j - 1].0));
            } else {
                assert(name_before(s[i - 1].0, s[j - 1].0));
            }
        }
    }
    lemma_map_of_names(s);
    lemma_map_of_names(t);
    lemma_map_of_values(s);
    lemma_map_of_values(t);
    let want = map_of(s).insert(pair.0, pair.1);
    assert forall|k: Seq<char>| map_of(t).contains_key(k) <==> want.contains_key(k) by {
        if map_of(t).contains_key(k) {
            let i = choose|i: int| 0 <= i < t.len() && #[trigger] t[i].0 == k;
            if i < p {
                assert(s[i].0 == k);
            } else if i > p {
                assert(s[i - 1].0 == k);
            }
        }
        if want.contains_key(k) && k != pair.0 {
            let i = choose|i: int| 0 <= i < s.len() && #[trigger] s[i].0 == k;
            if i < p {
                assert(t[i].0 == k);
            } else {
                assert(t[i + 1].0 == k);
            }
        }
        if k == pair.0 {
            assert(t[p].0 == k);
        }
    }
    assert forall|k: Seq<char>| map_of(t).contains_key(k) implies map_of(t)[k] == want[k] by {
        let i = choose|i: int| 0 <= i < t.len() && #[trigger] t[i].0 == k;
        assert(map_of(t)[t[i].0] == t[i].1);
        if i < p {
            assert(s[i] == t[i]);
            assert(map_of(s)[s[i].0] == s[i].1);
            lemma_name_before_asymmetric(s[i].0, pair.0);
        } else if i > p {
            assert(s[i - 1] == t[i]);
            assert(map_of(s)[s[i - 1].0] == s[i - 1].1);
            assert(name_before(t[p].0, t[i].0));
            lemma_name_before_asymmetric(pair.0, t[i].0);
        }
    }
    assert(map_of(t) =~= want);
}

} // verus!
