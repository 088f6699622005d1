//! The per-table secondary index: an ordered mapping from value fingerprints
//! (`"<column-name>:<value>"`) to the positions of the rows holding that
//! value. It is maintained on every insert; the baseline read path scans rows
//! linearly and does not consult it (see `store`).

use vstd::prelude::*;

verus! {

/// One entry: a fingerprint key and the positions that produced it, in
/// insertion order.
pub struct IndexEntry {
    pub key: String,
    pub positions: Vec<usize>,
}

/// The model of an entry.
#[verifier::ext_equal]
pub struct IndexEntryView {
    pub key: Seq<char>,
    pub positions: Seq<int>,
}

impl View for IndexEntry {
    type V = IndexEntryView;

    open spec fn view(&self) -> IndexEntryView {
        IndexEntryView {
            key: self.key@,
            positions: self.positions@.map_values(|p: usize| p as int),
        }
    }
}

/// A table's index: entries in first-use order, keys pairwise distinct.
pub struct BTreeIndex {
    pub entries: Vec<IndexEntry>,
}

impl View for BTreeIndex {
    type V = Seq<IndexEntryView>;

    open spec fn view(&self) -> Seq<IndexEntryView> {
        self.entries@.map_values(|e: IndexEntry| e@)
    }
}

/// No two entries share a key, so the entry sequence denotes a mapping.
pub open spec fn unique_keys(entries: Seq<IndexEntryView>) -> bool {
    forall|i: int, j: int|
        0 <= i < j < entries.len() ==> (#[trigger] entries[i]).key != (#[trigger] entries[j]).key
}

/// The position of the first entry keyed `key`, if any.
pub open spec fn find_entry(entries: Seq<IndexEntryView>, key: Seq<char>) -> Option<int>
    decreases entries.len(),
{
    if entries.len() == 0 {
        Option::None
    } else if entries[0].key == key {
        Option::Some(0int)
    } else {
        match find_entry(entries.drop_first(), key) {
            Option::None => Option::None,
            Option::Some(i) => Option::Some(i + 1),
        }
    }
}

/// A matching position with no match before it is what `find_entry` returns.
pub proof fn lemma_find_entry_at(entries: Seq<IndexEntryView>, key: Seq<char>, i: int)
    requires
        0 <= i < entries.len(),
        entries[i].key == key,
        forall|j: int| 0 <= j < i ==> (#[trigger] entries[j]).key != key,
    ensures
        find_entry(entries, key) == Option::Some(i),
    decreases entries.len(),
{
    if i > 0 {
        assert(entries.drop_first()[i - 1] == entries[i]);
        assert forall|j: int| 0 <= j < i - 1 implies (#[trigger] entries.drop_first()[j]).key
            != key by {
            assert(entries.drop_first()[j] == entries[j + 1]);
        }
        lemma_find_entry_at(entries.drop_first(), key, i - 1);
    }
}

/// When no entry matches, `find_entry` returns `None`.
pub proof fn lemma_find_entry_absent(entries: Seq<IndexEntryView>, key: Seq<char>)
    requires
        forall|j: int| 0 <= j < entries.len() ==> (#[trigger] entries[j]).key != key,
    ensures
        find_entry(entries, key) is None,
    decreases entries.len(),
{
    if entries.len() > 0 {
        assert forall|j: int| 0 <= j < entries.len() - 1 implies (
        #[trigger] entries.drop_first()[j]).key != key by {
            assert(entries.drop_first()[j] == entries[j + 1]);
        }
        lemma_find_entry_absent(entries.drop_first(), key);
    }
}

/// What inserting `(key, pos)` does to an entry sequence: appends `pos` to the
/// entry keyed `key`, or appends a fresh entry when the key is new.
pub open spec fn index_insert(entries: Seq<IndexEntryView>, key: Seq<char>, pos: int) -> Seq<
    IndexEntryView,
> {
    match find_entry(entries, key) {
        Option::Some(i) => entries.update(
            i,
            IndexEntryView { key: key, positions: entries[i].positions.push(pos) },
        ),
        Option::None => entries.push(IndexEntryView { key: key, positions: seq![pos] }),
    }
}

/// Inserting preserves key uniqueness.
pub proof fn lemma_index_insert_unique(entries: Seq<IndexEntryView>, key: Seq<char>, pos: int)
    requires
        unique_keys(entries),
    ensures
        unique_keys(index_insert(entries, key, pos)),
{
    lemma_find_entry(entries, key);
}

/// `find_entry` returns exactly the first matching position.
pub proof fn lemma_find_entry(entries: Seq<IndexEntryView>, key: Seq<char>)
    ensures
        find_entry(entries, key) is None ==> forall|j: int|
            0 <= j < entries.len() ==> (#[trigger] entries[j]).key != key,
        find_entry(entries, key) matches Some(i) ==> {
            &&& 0 <= i < entries.len()
            &&& entries[i].key == key
            &&& forall|j: int| 0 <= j < i ==> (#[trigger] entries[j]).key != key
        },
    decreases entries.len(),
{
    if entries.len() > 0 && entries[0].key != key {
        lemma_find_entry(entries.drop_first(), key);
        assert forall|j: int|
            0 <= j < entries.len() && find_entry(entries, key) is None implies (
        #[trigger] entries[j]).key != key by {
            if j > 0 {
                assert(entries.drop_first()[j - 1] == entries[j]);
            }
        }
        if let Option::Some(i) = find_entry(entries, key) {
            assert(entries.drop_first()[i - 1] == entries[i]);
            assert forall|j: int| 0 <= j < i implies (#[trigger] entries[j]).key != key by {
                if j > 0 {
                    assert(entries.drop_first()[j - 1] == entries[j]);
                }
            }
        }
    }
}

/// The mapping an entry sequence denotes: each key to its position list.
pub open spec fn index_map(entries: Seq<IndexEntryView>) -> Map<Seq<char>, Seq<int>> {
    Map::new(
        |k: Seq<char>| exists|i: int| 0 <= i < entries.len() && (#[trigger] entries[i]).key == k,
        |k: Seq<char>|
            entries[choose|i: int|
                0 <= i < entries.len() && (#[trigger] entries[i]).key == k].positions,
    )
}

/// Under distinct keys, the mapping reads any entry off at its position.
pub proof fn lemma_index_map_at(entries: Seq<IndexEntryView>, w: int)
    requires
        unique_keys(entries),
        0 <= w < entries.len(),
    ensures
        index_map(entries).dom().contains(entries[w].key),
        index_map(entries)[entries[w].key] == entries[w].positions,
{
    let k = entries[w].key;
    assert(exists|i: int| 0 <= i < entries.len() && (#[trigger] entries[i]).key == k);
    let i = choose|i: int| 0 <= i < entries.len() && (#[trigger] entries[i]).key == k;
    assert(i == w);
}

/// What inserting means for the mapping: the key's position list gains `pos`
/// at its end — an empty list first, when the key is new — and every other
/// key keeps its positions unchanged.
pub proof fn lemma_index_insert_map(entries: Seq<IndexEntryView>, key: Seq<char>, pos: int)
    requires
        unique_keys(entries),
    ensures
        ({
            let m0 = index_map(entries);
            let m1 = index_map(index_insert(entries, key, pos));
            &&& m1.dom() =~= m0.dom().insert(key)
            &&& m1[key] == (if m0.dom().contains(key) {
                m0[key]
            } else {
                Seq::<int>::empty()
            }).push(pos)
            &&& forall|k2: Seq<char>|
                m0.dom().contains(k2) && k2 != key ==> #[trigger] m1[k2] == m0[k2]
        }),
{
    lemma_find_entry(entries, key);
    lemma_index_insert_unique(entries, key, pos);
    let e1 = index_insert(entries, key, pos);
    let m0 = index_map(entries);
    let m1 = index_map(e1);
    match find_entry(entries, key) {
        Option::Some(i) => {
            lemma_index_map_at(entries, i);
            lemma_index_map_at(e1, i);
            assert(m1.dom() =~= m0.dom().insert(key)) by {
                assert(m0.dom().contains(key));
                assert forall|k2: Seq<char>| m1.dom().contains(k2) implies m0.dom().contains(
                    k2,
                ) by {
                    let j = choose|j: int| 0 <= j < e1.len() && (#[trigger] e1[j]).key == k2;
                    assert(entries[j].key == k2);
                }
                assert forall|k2: Seq<char>| m0.dom().contains(k2) implies m1.dom().contains(
                    k2,
                ) by {
                    let j = choose|j: int|
                        0 <= j < entries.len() && (#[trigger] entries[j]).key == k2;
                    assert(e1[j].key == k2);
                }
            }
            assert forall|k2: Seq<char>| m0.dom().contains(k2) && k2 != key implies #[trigger] m1[k2]
                == m0[k2] by {
                let j = choose|j: int| 0 <= j < entries.len() && (#[trigger] entries[j]).key == k2;
                lemma_index_map_at(entries, j);
                assert(j != i);
                assert(e1[j] == entries[j]);
                lemma_index_map_at(e1, j);
            }
        },
        Option::None => {
            let n = entries.len() as int;
            lemma_index_map_at(e1, n);
            assert(!m0.dom().contains(key));
            assert(m1[key] =~= Seq::<int>::empty().push(pos));
            assert(m1.dom() =~= m0.dom().insert(key)) by {
                assert forall|k2: Seq<char>| m1.dom().contains(k2) && k2 != key implies m0.dom().contains(
                    k2,
                ) by {
                    let j = choose|j: int| 0 <= j < e1.len() && (#[trigger] e1[j]).key == k2;
                    assert(j < n);
                    assert(entries[j].key == k2);
                }
                assert forall|k2: Seq<char>| m0.dom().contains(k2) implies m1.dom().contains(
                    k2,
                ) by {
                    let j = choose|j: int|
                        0 <= j < entries.len() && (#[trigger] entries[j]).key == k2;
                    assert(e1[j].key == k2);
                }
            }
            assert forall|k2: Seq<char>| m0.dom().contains(k2) && k2 != key implies #[trigger] m1[k2]
                == m0[k2] by {
                let j = choose|j: int| 0 <= j < entries.len() && (#[trigger] entries[j]).key == k2;
                lemma_index_map_at(entries, j);
                assert(e1[j] == entries[j]);
                lemma_index_map_at(e1, j);
            }
        },
    }
}

impl BTreeIndex {
    /// An empty index, allocated together with its table.
    pub fn new() -> (r: BTreeIndex)
        ensures
            r@ =~= Seq::<IndexEntryView>::empty(),
    {
        BTreeIndex { entries: Vec::new() }
    }

    /// Record that the row at `row_index` produced `key`: append the position
    /// to the key's entry, creating the entry when the key is new.
    pub fn insert(&mut self, key: String, row_index: usize)
        ensures
            final(self)@ == index_insert(old(self)@, key@, row_index as int),
    {
        let ghost old_view = self@;
        let mut i: usize = 0;
        while i < self.entries.len()
            invariant
                0 <= i <= self.entries.len(),
                old_view == old(self)@,
                self@ == old_view,
                self.entries@.map_values(|e: IndexEntry| e@) == old_view,
                forall|j: int| 0 <= j < i ==> (#[trigger] old_view[j]).key != key@,
            decreases self.entries.len() - i,
        {
            if self.entries[i].key == key {
                proof {
                    lemma_find_entry_at(old_view, key@, i as int);
                }
                self.entries[i].positions.push(row_index);
                proof {
                    assert(self.entries@[i as int]@.positions =~= old_view[i as int].positions.push(
                        row_index as int,
                    ));
                    assert(self.entries@[i as int]@.key == key@);
                    assert(self@ =~~= index_insert(old_view, key@, row_index as int));
                }
                return ;
            }
            i = i + 1;
        }
        proof {
            lemma_find_entry_absent(old_view, key@);
        }
        let mut positions: Vec<usize> = Vec::new();
        positions.push(row_index);
        self.entries.push(IndexEntry { key, positions });
        proof {
            assert(self@ =~= index_insert(old_view, key@, row_index as int)) by {
                assert(self.entries@[old_view.len() as int]@.positions =~= seq![
                    row_index as int,
                ]);
            }
        }
    }
}

} // verus!
