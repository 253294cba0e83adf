//! The Bencode value tree, its mathematical model, and the order on
//! dictionary keys.

use vstd::prelude::*;

verus! {

/// The mathematical model of a Bencode value.
pub ghost enum Node {
    /// A signed 64-bit integer.
    Integer(i64),
    /// A sequence of raw bytes, not necessarily text.
    Bytes(Seq<u8>),
    /// The items of a list, in order.
    List(Seq<Node>),
    /// The entries of a dictionary, in the order in which they are written.
    Dictionary(Seq<(Seq<u8>, Node)>),
}

/// `a` comes before `b` in the lexicographic order of byte strings, given
/// that the two agree on their first `from` bytes.
pub open spec fn precedes_from(a: Seq<u8>, b: Seq<u8>, from: int) -> bool
    decreases a.len() - from,
{
    if from < 0 || from >= b.len() {
        false
    } else if from >= a.len() {
        true
    } else if a[from] != b[from] {
        a[from] < b[from]
    } else {
        precedes_from(a, b, from + 1)
    }
}

/// `a` comes strictly before `b` in the lexicographic order of byte strings:
/// at the first place where they differ `a` has the smaller byte, or `a` is a
/// proper prefix of `b`.
pub open spec fn precedes(a: Seq<u8>, b: Seq<u8>) -> bool {
    precedes_from(a, b, 0)
}

/// The keys of `entries` are strictly increasing, so no key occurs twice.
pub open spec fn keys_increasing(entries: Seq<(Seq<u8>, Node)>) -> bool {
    forall|i: int| 0 < i < entries.len() ==> precedes(entries[i - 1].0, #[trigger] entries[i].0)
}

impl Node {
    /// Every dictionary in the tree has strictly increasing keys.
    pub open spec fn well_formed(self) -> bool
        decreases self,
    {
        match self {
            Node::Integer(_) => true,
            Node::Bytes(_) => true,
            Node::List(items) => forall|i: int|
                0 <= i < items.len() ==> (#[trigger] items[i]).well_formed(),
            Node::Dictionary(entries) => {
                &&& keys_increasing(entries)
                &&& forall|i: int|
                    0 <= i < entries.len() ==> (#[trigger] entries[i]).1.well_formed()
            },
        }
    }

    /// No path from this node down to a leaf passes through more than
    /// `limit` containers.
    pub open spec fn nests_within(self, limit: nat) -> bool
        decreases self,
    {
        match self {
            Node::Integer(_) => true,
            Node::Bytes(_) => true,
            Node::List(items) => limit > 0 && forall|i: int|
                0 <= i < items.len() ==> (#[trigger] items[i]).nests_within((limit - 1) as nat),
            Node::Dictionary(entries) => limit > 0 && forall|i: int|
                0 <= i < entries.len() ==> (#[trigger] entries[i]).1.nests_within(
                    (limit - 1) as nat,
                ),
        }
    }
}

/// The first value stored under `key` in `entries` at index `from` or
/// behind it, if there is one.
pub open spec fn lookup_from(entries: Seq<(Seq<u8>, Node)>, key: Seq<u8>, from: int) -> Option<
    Node,
>
    decreases entries.len() - from,
{
    if from < 0 || from >= entries.len() {
        None
    } else if entries[from].0 == key {
        Some(entries[from].1)
    } else {
        lookup_from(entries, key, from + 1)
    }
}

/// The value stored under `key` in `entries`, if there is one; the first,
/// should the key occur more than once.
pub open spec fn lookup(entries: Seq<(Seq<u8>, Node)>, key: Seq<u8>) -> Option<Node> {
    lookup_from(entries, key, 0)
}

/// A Bencode value. Each container owns its children, so a value is a tree.
///
/// A dictionary is kept as its entries in key order; `well_formed` of the
/// view says that the keys are strictly increasing.
#[derive(Debug, PartialEq, Eq)]
pub enum Value {
    Integer(i64),
    ByteString(Vec<u8>),
    List(Vec<Value>),
    Dictionary(Vec<(Vec<u8>, Value)>),
}

/// The model of `value`: the same tree, with sequences for vectors.
pub open spec fn model(value: Value) -> Node
    decreases value,
{
    match value {
        Value::Integer(n) => Node::Integer(n),
        Value::ByteString(bytes) => Node::Bytes(bytes@),
        Value::List(items) => Node::List(
            Seq::new(
                items@.len(),
                |i: int|
                    if 0 <= i < items@.len() {
                        model(items@[i])
                    } else {
                        arbitrary()
                    },
            ),
        ),
        Value::Dictionary(entries) => Node::Dictionary(
            Seq::new(
                entries@.len(),
                |i: int|
                    if 0 <= i < entries@.len() {
                        (entries@[i].0@, model(entries@[i].1))
                    } else {
                        arbitrary()
                    },
            ),
        ),
    }
}

impl View for Value {
    type V = Node;

    open spec fn view(&self) -> Node {
        model(*self)
    }
}

/// The views of the values in `items`, in order.
pub open spec fn items_view(items: Seq<Value>) -> Seq<Node> {
    Seq::new(items.len(), |i: int| items[i]@)
}

/// The views of the keys and values in `entries`, in order.
pub open spec fn entries_view(entries: Seq<(Vec<u8>, Value)>) -> Seq<(Seq<u8>, Node)> {
    Seq::new(entries.len(), |i: int| (entries[i].0@, entries[i].1@))
}

/// No byte string comes before itself.
pub proof fn lemma_precedes_irreflexive(a: Seq<u8>, from: int)
    requires
        0 <= from,
    ensures
        !precedes_from(a, a, from),
    decreases a.len() - from,
{
    if from < a.len() {
        lemma_precedes_irreflexive(a, from + 1);
    }
}

/// What comes before a byte string comes before all that it comes before.
pub proof fn lemma_precedes_transitive(a: Seq<u8>, b: Seq<u8>, c: Seq<u8>, from: int)
    requires
        0 <= from,
        precedes_from(a, b, from),
        precedes_from(b, c, from),
    ensures
        precedes_from(a, c, from),
    decreases a.len() - from,
{
    if from < a.len() && a[from] == b[from] && b[from] == c[from] {
        lemma_precedes_transitive(a, b, c, from + 1);
    }
}

/// In a dictionary with strictly increasing keys, every key comes before
/// all the keys behind it, so no key occurs twice.
pub proof fn law_keys_distinct(entries: Seq<(Seq<u8>, Node)>, i: int, j: int)
    requires
        keys_increasing(entries),
        0 <= i < j < entries.len(),
    ensures
        precedes(entries[i].0, entries[j].0),
        entries[i].0 != entries[j].0,
    decreases j - i,
{
    assert(precedes(entries[j - 1].0, entries[j].0));
    if i < j - 1 {
        law_keys_distinct(entries, i, j - 1);
        lemma_precedes_transitive(entries[i].0, entries[j - 1].0, entries[j].0, 0);
    }
    lemma_precedes_irreflexive(entries[i].0, 0);
}

/// In a dictionary with strictly increasing keys, looking up the key of an
/// entry gives the value of that entry.
pub proof fn law_lookup_finds_entry(entries: Seq<(Seq<u8>, Node)>, i: int)
    requires
        keys_increasing(entries),
        0 <= i < entries.len(),
    ensures
        lookup(entries, entries[i].0) == Some(entries[i].1),
{
    lemma_lookup_from(entries, i, 0);
}

/// The same, for a search that starts at `from`, at or before the entry.
pub proof fn lemma_lookup_from(entries: Seq<(Seq<u8>, Node)>, i: int, from: int)
    requires
        keys_increasing(entries),
        0 <= from <= i < entries.len(),
    ensures
        lookup_from(entries, entries[i].0, from) == Some(entries[i].1),
    decreases i - from,
{
    if from < i {
        law_keys_distinct(entries, from, i);
        lemma_lookup_from(entries, i, from + 1);
    }
}

/// A list's view holds the views of its items.
pub proof fn lemma_list_view(items: Vec<Value>)
    ensures
        Value::List(items)@ == Node::List(items_view(items@)),
{
    assert(Value::List(items)@->List_0 =~= items_view(items@));
}

/// A dictionary's view holds the views of its entries.
pub proof fn lemma_dictionary_view(entries: Vec<(Vec<u8>, Value)>)
    ensures
        Value::Dictionary(entries)@ == Node::Dictionary(entries_view(entries@)),
{
    assert(Value::Dictionary(entries)@->Dictionary_0 =~= entries_view(entries@));
}

/// Each item of a well-formed list is well formed.
pub proof fn lemma_list_item_well_formed(items: Seq<Node>, i: int)
    requires
        0 <= i < items.len(),
        Node::List(items).well_formed(),
    ensures
        items[i].well_formed(),
{
    let whole = Node::List(items);
    assert(whole matches Node::List(inner) && inner == items);
}

/// Decides the lexicographic order of two byte strings.
pub fn bytes_precede(a: &[u8], b: &[u8]) -> (result: bool)
    ensures
        result == precedes(a@, b@),
{
    let mut i: usize = 0;
    while i < a.len() && i < b.len() && a[i] == b[i]
        invariant
            i <= a.len(),
            i <= b.len(),
            precedes(a@, b@) == precedes_from(a@, b@, i as int),
        decreases a.len() - i,
    {
        i += 1;
    }
    if i >= b.len() {
        false
    } else if i >= a.len() {
        true
    } else {
        a[i] < b[i]
    }
}

/// Decides whether two byte strings are equal.
pub fn bytes_equal(a: &[u8], b: &[u8]) -> (result: bool)
    ensures
        result == (a@ == b@),
{
    if a.len() != b.len() {
        return false;
    }
    let mut i: usize = 0;
    while i < a.len()
        invariant
            i <= a.len(),
            a.len() == b.len(),
            forall|k: int| 0 <= k < i ==> a[k] == b[k],
        decreases a.len() - i,
    {
        if a[i] != b[i] {
            return false;
        }
        i += 1;
    }
    proof {
        assert(a@ =~= b@);
    }
    true
}

/// Finds the value stored under `key` in the entries of a dictionary.
pub fn find<'a>(entries: &'a Vec<(Vec<u8>, Value)>, key: &[u8]) -> (result: Option<&'a Value>)
    ensures
        match result {
            Some(value) => lookup(entries_view(entries@), key@) == Some(value@),
            None => lookup(entries_view(entries@), key@) is None,
        },
{
    let mut i: usize = 0;
    while i < entries.len()
        invariant
            i <= entries.len(),
            lookup(entries_view(entries@), key@) == lookup_from(
                entries_view(entries@),
                key@,
                i as int,
            ),
        decreases entries.len() - i,
    {
        if bytes_equal(entries[i].0.as_slice(), key) {
            return Some(&entries[i].1);
        }
        i += 1;
    }
    None
}

impl Value {
    /// Decides whether every dictionary in the tree has strictly increasing
    /// keys.
    pub fn is_well_formed(&self) -> (result: bool)
        ensures
            result == self@.well_formed(),
        decreases self,
    {
        match self {
            Value::Integer(_) => true,
            Value::ByteString(_) => true,
            Value::List(items) => {
                let ghost nodes = items_view(items@);
                proof {
                    lemma_list_view(*items);
                }
                let mut i: usize = 0;
                while i < items.len()
                    invariant
                        i <= items.len(),
                        nodes == items_view(items@),
                        self@ == Node::List(nodes),
                        *self == Value::List(*items),
                        forall|k: int| 0 <= k < i ==> (#[trigger] nodes[k]).well_formed(),
                    decreases items.len() - i,
                {
                    proof {
                        vstd::std_specs::vec::axiom_vec_index_decreases(*items, i as int);
                        assert(self->List_0 == *items);
                        assert(nodes[i as int] == items@[i as int]@);
                    }
                    if !items[i].is_well_formed() {
                        proof {
                            assert(!nodes[i as int].well_formed());
                            if Node::List(nodes).well_formed() {
                                lemma_list_item_well_formed(nodes, i as int);
                            }
                        }
                        return false;
                    }
                    i += 1;
                }
                true
            },
            Value::Dictionary(entries) => {
                let ghost nodes = entries_view(entries@);
                proof {
                    lemma_dictionary_view(*entries);
                }
                let mut i: usize = 0;
                while i < entries.len()
                    invariant
                        i <= entries.len(),
                        nodes == entries_view(entries@),
                        self@ == Node::Dictionary(nodes),
                        *self == Value::Dictionary(*entries),
                        forall|k: int| 0 <= k < i ==> (#[trigger] nodes[k]).1.well_formed(),
                        forall|k: int|
                            0 < k < i ==> precedes(nodes[k - 1].0, #[trigger] nodes[k].0),
                    decreases entries.len() - i,
                {
                    proof {
                        vstd::std_specs::vec::axiom_vec_index_decreases(*entries, i as int);
                        assert(self->Dictionary_0 == *entries);
                        assert(nodes[i as int] == (entries@[i as int].0@, entries@[i as int].1@));
                    }
                    if i > 0 {
                        proof {
                            assert(nodes[i - 1] == (entries@[i - 1].0@, entries@[i - 1].1@));
                        }
                        if !bytes_precede(entries[i - 1].0.as_slice(), entries[i].0.as_slice()) {
                            proof {
                                assert(!precedes(nodes[i - 1].0, nodes[i as int].0));
                                assert(!keys_increasing(nodes));
                            }
                            return false;
                        }
                    }
                    if !entries[i].1.is_well_formed() {
                        return false;
                    }
                    i += 1;
                }
                true
            },
        }
    }
}

impl Clone for Value {
    /// Copies the tree.
    fn clone(&self) -> (result: Self)
        ensures
            result@ == self@,
        decreases self,
    {
        match self {
            Value::Integer(n) => Value::Integer(*n),
            Value::ByteString(bytes) => Value::ByteString(bytes.clone()),
            Value::List(items) => {
                let mut copies: Vec<Value> = Vec::new();
                let mut i: usize = 0;
                while i < items.len()
                    invariant
                        i <= items.len(),
                        copies.len() == i,
                        *self == Value::List(*items),
                        forall|k: int| 0 <= k < i ==> copies@[k]@ == items@[k]@,
                    decreases items.len() - i,
                {
                    proof {
                        vstd::std_specs::vec::axiom_vec_index_decreases(*items, i as int);
                        assert(self->List_0 == *items);
                    }
                    copies.push(items[i].clone());
                    i += 1;
                }
                proof {
                    lemma_list_view(*items);
                    lemma_list_view(copies);
                    assert(items_view(copies@) =~= items_view(items@));
                }
                Value::List(copies)
            },
            Value::Dictionary(entries) => {
                let mut copies: Vec<(Vec<u8>, Value)> = Vec::new();
                let mut i: usize = 0;
                while i < entries.len()
                    invariant
                        i <= entries.len(),
                        copies.len() == i,
                        *self == Value::Dictionary(*entries),
                        forall|k: int|
                            0 <= k < i ==> copies@[k].0@ == entries@[k].0@ && copies@[k].1@
                                == entries@[k].1@,
                    decreases entries.len() - i,
                {
                    proof {
                        vstd::std_specs::vec::axiom_vec_index_decreases(*entries, i as int);
                        assert(self->Dictionary_0 == *entries);
                    }
                    copies.push((entries[i].0.clone(), entries[i].1.clone()));
                    i += 1;
                }
                proof {
                    lemma_dictionary_view(*entries);
                    lemma_dictionary_view(copies);
                    assert(entries_view(copies@) =~= entries_view(entries@));
                }
                Value::Dictionary(copies)
            },
        }
    }
}

} // verus!
