//! Tables keyed by identities, and a stable order on rows by their keys.

use crate::ids::Identity;
use vstd::prelude::*;

verus! {

/// How filtering goes on by one item.
pub proof fn lemma_filter_step<T>(items: Seq<T>, keep: spec_fn(T) -> bool, i: int)
    requires
        0 <= i < items.len(),
    ensures
        items.take(i + 1).filter(keep) == if keep(items[i]) {
            items.take(i).filter(keep).push(items[i])
        } else {
            items.take(i).filter(keep)
        },
{
    reveal(Seq::filter);
    assert(items.take(i + 1).drop_last() =~= items.take(i));
}

/// Whether `items` holds `item`.
pub fn holds<K: Identity>(items: &[K], item: &K) -> (r: bool)
    ensures
        r == items@.contains(*item),
{
    let mut i: usize = 0;
    while i < items.len()
        invariant
            i <= items@.len(),
            forall|k: int| 0 <= k < i ==> items@[k] != *item,
        decreases items@.len() - i,
    {
        if items[i].same(item) {
            assert(items@[i as int] == *item);
            return true;
        }
        i += 1;
    }
    false
}

/// A copy of a list of identities.
pub fn copy_ids<K: Identity>(items: &[K]) -> (r: Vec<K>)
    ensures
        r@ == items@,
{
    let mut copy: Vec<K> = Vec::new();
    let mut i: usize = 0;
    while i < items.len()
        invariant
            i <= items@.len(),
            copy@ == items@.take(i as int),
        decreases items@.len() - i,
    {
        copy.push(items[i]);
        assert(items@.take(i + 1) =~= items@.take(i as int).push(items@[i as int]));
        i += 1;
    }
    assert(items@.take(i as int) =~= items@);
    copy
}

/// Whether two lists of identities are equal.
pub fn same_ids<K: Identity>(a: &[K], b: &[K]) -> (r: bool)
    ensures
        r == (a@ == b@),
{
    if a.len() != b.len() {
        return false;
    }
    let mut i: usize = 0;
    while i < a.len()
        invariant
            i <= a@.len(),
            a@.len() == b@.len(),
            forall|k: int| 0 <= k < i ==> a@[k] == b@[k],
        decreases a@.len() - i,
    {
        if !a[i].same(&b[i]) {
            assert(a@[i as int] != b@[i as int]);
            return false;
        }
        i += 1;
    }
    assert(a@ =~= b@);
    true
}

/// A set of identities. The members keep the order in which they came.
#[derive(Debug)]
pub struct IdSet<K> {
    members: Vec<K>,
}

impl<K> View for IdSet<K> {
    type V = Set<K>;

    closed spec fn view(&self) -> Set<K> {
        self.members@.to_set()
    }
}

impl<K> IdSet<K> {
    /// The members in the order in which they came.
    pub closed spec fn order(&self) -> Seq<K> {
        self.members@
    }

    #[verifier::type_invariant]
    spec fn distinct(&self) -> bool {
        self.members@.no_duplicates()
    }
}

impl<K: Identity> IdSet<K> {
    /// The empty set.
    pub fn new() -> (r: Self)
        ensures
            r@ == Set::<K>::empty(),
            r.order() == Seq::<K>::empty(),
    {
        let r = IdSet { members: Vec::new() };
        assert(r@ =~= Set::empty());
        r
    }

    /// The set of the members of a list.
    pub fn of(items: &[K]) -> (r: Self)
        ensures
            r@ == items@.to_set(),
    {
        let mut set = IdSet::new();
        let mut i: usize = 0;
        while i < items.len()
            invariant
                i <= items@.len(),
                set@ == items@.take(i as int).to_set(),
            decreases items@.len() - i,
        {
            set.insert(items[i]);
            assert(set@ =~= items@.take(i + 1).to_set()) by {
                assert(items@.take(i + 1) =~= items@.take(i as int).push(items@[i as int]));
                let shorter = items@.take(i as int);
                let longer = items@.take(i + 1);
                assert forall|k: K| #[trigger] longer.contains(k) implies shorter.contains(k) || k
                    == items@[i as int] by {
                    let at = choose|at: int| 0 <= at < longer.len() && longer[at] == k;
                    if at < i {
                        assert(shorter[at] == k);
                    }
                }
                assert forall|k: K| #[trigger] shorter.contains(k) implies longer.contains(k) by {
                    let at = choose|at: int| 0 <= at < shorter.len() && shorter[at] == k;
                    assert(longer[at] == k);
                }
                assert(longer[i as int] == items@[i as int]);
            }
            i += 1;
        }
        assert(items@.take(i as int) =~= items@);
        set
    }

    /// Whether `item` is a member.
    pub fn contains(&self, item: &K) -> (r: bool)
        ensures
            r == self@.contains(*item),
    {
        holds(self.members.as_slice(), item)
    }

    /// Add a member; says whether it was new.
    pub fn insert(&mut self, item: K) -> (r: bool)
        ensures
            r == !old(self)@.contains(item),
            final(self)@ == old(self)@.insert(item),
            final(self).order() == if old(self)@.contains(item) {
                old(self).order()
            } else {
                old(self).order().push(item)
            },
    {
        proof {
            use_type_invariant(&*self);
        }
        if holds(self.members.as_slice(), &item) {
            assert(self@.insert(item) =~= self@);
            return false;
        }
        let ghost before = self.members@;
        let mut members: Vec<K> = Vec::new();
        std::mem::swap(&mut members, &mut self.members);
        members.push(item);
        proof {
            assert forall|k: K| #[trigger] members@.contains(k) implies before.contains(k) || k
                == item by {
                let at = choose|at: int| 0 <= at < members@.len() && members@[at] == k;
                if at < before.len() {
                    assert(before[at] == k);
                }
            }
            assert forall|k: K| #[trigger] before.contains(k) implies members@.contains(k) by {
                let at = choose|at: int| 0 <= at < before.len() && before[at] == k;
                assert(members@[at] == k);
            }
            assert(members@[before.len() as int] == item);
            assert(members@.to_set() =~= before.to_set().insert(item));
        }
        self.members = members;
        true
    }

    /// The number of members.
    pub fn len(&self) -> (r: usize)
        ensures
            r == self@.len(),
            r == self.order().len(),
    {
        proof {
            use_type_invariant(self);
            self.members@.unique_seq_to_set();
        }
        self.members.len()
    }

    /// The members in the order in which they came.
    pub fn as_slice(&self) -> (r: &[K])
        ensures
            r@ == self.order(),
            r@.to_set() == self@,
            r@.no_duplicates(),
    {
        proof {
            use_type_invariant(self);
        }
        self.members.as_slice()
    }
}

/// A map keyed by identities. The keys keep the order in which they came.
#[derive(Debug)]
pub struct IdMap<K, V> {
    names: Vec<K>,
    values: Vec<V>,
}

/// The map that a list of distinct keys and their values describe.
pub open spec fn pairs_map<K, V>(names: Seq<K>, values: Seq<V>) -> Map<K, V> {
    Map::new(|k: K| names.contains(k), |k: K| values[names.index_of(k)])
}

impl<K, V> View for IdMap<K, V> {
    type V = Map<K, V>;

    closed spec fn view(&self) -> Map<K, V> {
        pairs_map(self.names@, self.values@)
    }
}

impl<K, V> IdMap<K, V> {
    /// The keys in the order in which they came.
    pub closed spec fn order(&self) -> Seq<K> {
        self.names@
    }

    #[verifier::type_invariant]
    spec fn paired(&self) -> bool {
        self.names@.len() == self.values@.len() && self.names@.no_duplicates()
    }
}

impl<K: Identity, V> IdMap<K, V> {
    /// The empty map.
    pub fn new() -> (r: Self)
        ensures
            r@ == Map::<K, V>::empty(),
            r.order() == Seq::<K>::empty(),
    {
        let r = IdMap { names: Vec::new(), values: Vec::new() };
        assert(r@ =~= Map::empty());
        r
    }

    fn position(&self, key: &K) -> (r: Option<usize>)
        ensures
            match r {
                None => !self.names@.contains(*key),
                Some(i) => i < self.names@.len() && self.names@[i as int] == *key
                    && self.names@.contains(*key) && self.names@.index_of(*key) == i,
            },
    {
        proof {
            use_type_invariant(self);
        }
        let mut i: usize = 0;
        while i < self.names.len()
            invariant
                i <= self.names@.len(),
                self.names@.no_duplicates(),
                forall|k: int| 0 <= k < i ==> self.names@[k] != *key,
            decreases self.names@.len() - i,
        {
            if self.names[i].same(key) {
                assert(self.names@[i as int] == *key);
                return Some(i);
            }
            i += 1;
        }
        None
    }

    /// Whether the key has a value.
    pub fn contains_key(&self, key: &K) -> (r: bool)
        ensures
            r == self@.dom().contains(*key),
    {
        self.position(key).is_some()
    }

    /// The value of a key.
    pub fn get(&self, key: &K) -> (r: Option<&V>)
        ensures
            match r {
                None => !self@.dom().contains(*key),
                Some(value) => self@.dom().contains(*key) && self@[*key] == *value,
            },
    {
        proof {
            use_type_invariant(self);
        }
        match self.position(key) {
            None => None,
            Some(i) => Some(&self.values[i]),
        }
    }

    /// Give a key a value, in place of the one that it had.
    pub fn insert(&mut self, key: K, value: V)
        ensures
            final(self)@ == old(self)@.insert(key, value),
            final(self).order() == if old(self)@.dom().contains(key) {
                old(self).order()
            } else {
                old(self).order().push(key)
            },
    {
        proof {
            use_type_invariant(&*self);
        }
        let ghost before = self.names@;
        let ghost held = self.values@;
        let at = self.position(&key);
        let mut map = IdMap { names: Vec::new(), values: Vec::new() };
        std::mem::swap(&mut map, self);
        let IdMap { names, values } = map;
        let mut names = names;
        let mut values = values;
        match at {
            Some(i) => {
                values.set(i, value);
                assert(pairs_map(names@, values@) =~= pairs_map(before, held).insert(key, value));
            },
            None => {
                names.push(key);
                values.push(value);
                proof {
                    lemma_push_key(before, held, key, value);
                }
            },
        }
        *self = IdMap { names, values };
    }

    /// The number of keys.
    pub fn len(&self) -> (r: usize)
        ensures
            r == self@.dom().len(),
            r == self.order().len(),
    {
        proof {
            use_type_invariant(self);
            self.names@.unique_seq_to_set();
            assert(self@.dom() =~= self.names@.to_set());
        }
        self.names.len()
    }

    /// The keys in the order in which they came.
    pub fn keys(&self) -> (r: &[K])
        ensures
            r@ == self.order(),
            r@.to_set() == self@.dom(),
            r@.no_duplicates(),
    {
        proof {
            use_type_invariant(self);
            assert(self@.dom() =~= self.names@.to_set());
        }
        self.names.as_slice()
    }
}

proof fn lemma_push_key<K, V>(names: Seq<K>, values: Seq<V>, key: K, value: V)
    requires
        names.len() == values.len(),
        names.no_duplicates(),
        !names.contains(key),
    ensures
        names.push(key).no_duplicates(),
        pairs_map(names.push(key), values.push(value)) == pairs_map(names, values).insert(
            key,
            value,
        ),
{
    let longer = names.push(key);
    assert(longer[names.len() as int] == key);
    assert forall|k: K| #[trigger] longer.contains(k) implies names.contains(k) || k == key by {
        let at = choose|at: int| 0 <= at < longer.len() && longer[at] == k;
        if at < names.len() {
            assert(names[at] == k);
        }
    }
    assert forall|k: K| #[trigger] names.contains(k) implies longer.contains(k) && longer.index_of(
        k,
    ) == names.index_of(k) by {
        let at = names.index_of(k);
        assert(longer[at] == k);
        let other = longer.index_of(k);
        assert(longer[other] == k);
        if other < names.len() {
            assert(names[other] == names[at]);
        }
    }
    assert(longer.index_of(key) == names.len()) by {
        let other = longer.index_of(key);
        if other < names.len() {
            assert(names[other] == key);
        }
    }
    assert(pairs_map(longer, values.push(value)) =~= pairs_map(names, values).insert(key, value));
}

/// Whether the first key does not come after the second: keys are compared word
/// by word, and a key that ends comes first.
pub open spec fn key_at_most(a: Seq<u128>, b: Seq<u128>) -> bool
    decreases a.len(),
{
    if a.len() == 0 {
        true
    } else if b.len() == 0 {
        false
    } else if a[0] != b[0] {
        a[0] < b[0]
    } else {
        key_at_most(a.drop_first(), b.drop_first())
    }
}

/// Whether a key comes before another or is the same.
pub fn at_most(a: &[u128], b: &[u128]) -> (r: bool)
    ensures
        r == key_at_most(a@, b@),
{
    let mut i: usize = 0;
    assert(a@.skip(0) =~= a@ && b@.skip(0) =~= b@);
    while i < a.len()
        invariant
            i <= a@.len(),
            i <= b@.len(),
            key_at_most(a@, b@) == key_at_most(a@.skip(i as int), b@.skip(i as int)),
        decreases a@.len() - i,
    {
        assert(a@.skip(i as int).drop_first() =~= a@.skip(i + 1));
        if i >= b.len() {
            return false;
        }
        assert(b@.skip(i as int).drop_first() =~= b@.skip(i + 1));
        if a[i] != b[i] {
            return a[i] < b[i];
        }
        i += 1;
    }
    true
}

/// Where row `row` goes among the rows that are already in order: behind the last
/// one that does not come after it.
pub open spec fn slot(keys: Seq<Seq<u128>>, placed: Seq<int>, row: int, from: int) -> int
    decreases from,
{
    if from <= 0 || key_at_most(keys[placed[from - 1]], keys[row]) {
        from
    } else {
        slot(keys, placed, row, from - 1)
    }
}

/// The numbers of the first `count` rows in the order of their keys; rows with
/// equal keys stay in the order in which they stand.
pub open spec fn ordered_rows(keys: Seq<Seq<u128>>, count: nat) -> Seq<int>
    decreases count,
{
    if count == 0 {
        Seq::empty()
    } else {
        let placed = ordered_rows(keys, (count - 1) as nat);
        placed.insert(slot(keys, placed, count - 1, placed.len() as int), count - 1)
    }
}

/// The keys of a list of rows.
pub open spec fn key_views(keys: Seq<Vec<u128>>) -> Seq<Seq<u128>> {
    keys.map_values(|key: Vec<u128>| key@)
}

/// The rows in the order of their keys.
pub open spec fn in_order<T>(rows: Seq<T>, keys: Seq<Seq<u128>>) -> Seq<T> {
    ordered_rows(keys, rows.len()).map_values(|i: int| rows[i])
}

pub proof fn lemma_slot_bounds(keys: Seq<Seq<u128>>, placed: Seq<int>, row: int, from: int)
    requires
        0 <= from <= placed.len(),
    ensures
        0 <= slot(keys, placed, row, from) <= from,
    decreases from,
{
    if from > 0 && !key_at_most(keys[placed[from - 1]], keys[row]) {
        lemma_slot_bounds(keys, placed, row, from - 1);
    }
}

/// The order holds every row exactly once.
pub proof fn ordered_rows_is_a_permutation(keys: Seq<Seq<u128>>, count: nat)
    ensures
        ordered_rows(keys, count).len() == count,
        ordered_rows(keys, count).no_duplicates(),
        forall|i: int|
            0 <= i < count ==> 0 <= #[trigger] ordered_rows(keys, count)[i] < count,
        forall|i: int| 0 <= i < count ==> #[trigger] ordered_rows(keys, count).contains(i),
    decreases count,
{
    if count > 0 {
        let before = (count - 1) as nat;
        ordered_rows_is_a_permutation(keys, before);
        let placed = ordered_rows(keys, before);
        let at = slot(keys, placed, count - 1, placed.len() as int);
        lemma_slot_bounds(keys, placed, count - 1, placed.len() as int);
        let rows = placed.insert(at, count - 1);
        assert(rows == ordered_rows(keys, count));
        assert forall|i: int| 0 <= i < count implies #[trigger] rows.contains(i) by {
            if i == count - 1 {
                assert(rows[at] == i);
            } else {
                assert(placed.contains(i));
                let p = choose|p: int| 0 <= p < placed.len() && placed[p] == i;
                assert(rows[if p < at {
                    p
                } else {
                    p + 1
                }] == i);
            }
        }
    }
}

proof fn lemma_at_most_total(a: Seq<u128>, b: Seq<u128>)
    ensures
        key_at_most(a, b) || key_at_most(b, a),
    decreases a.len(),
{
    if a.len() > 0 && b.len() > 0 && a[0] == b[0] {
        lemma_at_most_total(a.drop_first(), b.drop_first());
    }
}

proof fn lemma_at_most_transitive(a: Seq<u128>, b: Seq<u128>, c: Seq<u128>)
    requires
        key_at_most(a, b),
        key_at_most(b, c),
    ensures
        key_at_most(a, c),
    decreases a.len(),
{
    if a.len() > 0 && b.len() > 0 && c.len() > 0 && a[0] == b[0] && b[0] == c[0] {
        lemma_at_most_transitive(a.drop_first(), b.drop_first(), c.drop_first());
    }
}

/// Whether the rows stand in the order of their keys.
pub open spec fn rows_sorted(keys: Seq<Seq<u128>>, rows: Seq<int>) -> bool {
    forall|i: int, j: int|
        0 <= i <= j < rows.len() ==> key_at_most(keys[#[trigger] rows[i]], keys[#[trigger] rows[j]])
}

proof fn lemma_slot_splits(keys: Seq<Seq<u128>>, placed: Seq<int>, row: int, from: int)
    requires
        0 <= from <= placed.len(),
        rows_sorted(keys, placed),
        forall|i: int|
            from <= i < placed.len() ==> key_at_most(keys[row], keys[#[trigger] placed[i]]),
    ensures
        ({
            let at = slot(keys, placed, row, from);
            &&& forall|i: int|
                at <= i < placed.len() ==> key_at_most(keys[row], keys[#[trigger] placed[i]])
            &&& forall|i: int| 0 <= i < at ==> key_at_most(keys[#[trigger] placed[i]], keys[row])
        }),
    decreases from,
{
    if from > 0 {
        if key_at_most(keys[placed[from - 1]], keys[row]) {
            assert forall|i: int| 0 <= i < from implies key_at_most(
                keys[#[trigger] placed[i]],
                keys[row],
            ) by {
                lemma_at_most_transitive(keys[placed[i]], keys[placed[from - 1]], keys[row]);
            }
        } else {
            lemma_at_most_total(keys[placed[from - 1]], keys[row]);
            lemma_slot_splits(keys, placed, row, from - 1);
        }
    }
}

/// The order is sorted by the keys.
pub proof fn ordered_rows_is_sorted(keys: Seq<Seq<u128>>, count: nat)
    ensures
        rows_sorted(keys, ordered_rows(keys, count)),
    decreases count,
{
    if count > 0 {
        let before = (count - 1) as nat;
        ordered_rows_is_sorted(keys, before);
        let placed = ordered_rows(keys, before);
        let row = count - 1;
        let at = slot(keys, placed, row, placed.len() as int);
        lemma_slot_bounds(keys, placed, row, placed.len() as int);
        lemma_slot_splits(keys, placed, row, placed.len() as int);
        let rows = placed.insert(at, row);
        assert forall|i: int, j: int| 0 <= i <= j < rows.len() implies key_at_most(
            keys[#[trigger] rows[i]],
            keys[#[trigger] rows[j]],
        ) by {
            if i == at && j == at {
                lemma_at_most_total(keys[row], keys[row]);
            } else if i == at {
                assert(rows[j] == placed[j - 1]);
            } else if j == at {
                assert(rows[i] == placed[i]);
            } else {
                let p = if i < at {
                    i
                } else {
                    i - 1
                };
                let q = if j < at {
                    j
                } else {
                    j - 1
                };
                assert(rows[i] == placed[p] && rows[j] == placed[q]);
            }
        }
    }
}

/// The numbers of the rows in the order of their keys.
pub fn stable_order(keys: &[Vec<u128>]) -> (r: Vec<usize>)
    ensures
        r@.len() == keys@.len(),
        r@.map_values(|i: usize| i as int) == ordered_rows(key_views(keys@), keys@.len()),
        forall|i: int| 0 <= i < r@.len() ==> (#[trigger] r@[i]) < keys@.len(),
{
    let ghost views = key_views(keys@);
    let mut placed: Vec<usize> = Vec::new();
    let mut row: usize = 0;
    while row < keys.len()
        invariant
            row <= keys@.len(),
            views == key_views(keys@),
            placed@.len() == row,
            placed@.map_values(|i: usize| i as int) == ordered_rows(views, row as nat),
            forall|i: int| 0 <= i < placed@.len() ==> (#[trigger] placed@[i]) < row,
        decreases keys@.len() - row,
    {
        let ghost numbers = placed@.map_values(|i: usize| i as int);
        let mut at: usize = placed.len();
        while at > 0 && !at_most(keys[placed[at - 1]].as_slice(), keys[row].as_slice())
            invariant
                row < keys@.len(),
                at <= placed@.len(),
                placed@.len() == row,
                views == key_views(keys@),
                numbers == placed@.map_values(|i: usize| i as int),
                forall|i: int| 0 <= i < placed@.len() ==> (#[trigger] placed@[i]) < row,
                slot(views, numbers, row as int, row as int) == slot(
                    views,
                    numbers,
                    row as int,
                    at as int,
                ),
            decreases at,
        {
            at -= 1;
        }
        let ghost before = placed@;
        placed.insert(at, row);
        assert(placed@.map_values(|i: usize| i as int) =~= numbers.insert(at as int, row as int));
        assert forall|i: int| 0 <= i < placed@.len() implies (#[trigger] placed@[i]) < row + 1 by {
            if i < at {
                assert(placed@[i] == before[i]);
            } else if i > at {
                assert(placed@[i] == before[i - 1]);
            }
        }
        row += 1;
    }
    placed
}

/// The rows in the order of their keys.
pub fn arrange<T: Copy>(rows: &[T], keys: &[Vec<u128>]) -> (r: Vec<T>)
    requires
        rows@.len() == keys@.len(),
    ensures
        r@ == in_order(rows@, key_views(keys@)),
{
    let order = stable_order(keys);
    let ghost numbers = ordered_rows(key_views(keys@), keys@.len());
    let mut placed: Vec<T> = Vec::new();
    let mut i: usize = 0;
    while i < order.len()
        invariant
            i <= order@.len(),
            order@.len() == rows@.len(),
            numbers == order@.map_values(|i: usize| i as int),
            forall|i: int| 0 <= i < order@.len() ==> (#[trigger] order@[i]) < rows@.len(),
            placed@ == numbers.take(i as int).map_values(|i: int| rows@[i]),
        decreases order@.len() - i,
    {
        assert(numbers.take(i + 1) =~= numbers.take(i as int).push(order@[i as int] as int));
        placed.push(rows[order[i]]);
        assert(placed@ =~= numbers.take(i + 1).map_values(|i: int| rows@[i]));
        i += 1;
    }
    assert(numbers.take(i as int) =~= numbers);
    placed
}

} // verus!
