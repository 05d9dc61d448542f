//! The order of the output: bindings ascend by group, then by binding
//! index, then by the bytes of their declaration; names ascend by their
//! bytes. Lists are kept sorted and free of duplicates as they are built.

use vstd::prelude::*;
use crate::ast::{Binding, BindingView};
use crate::scan::copy_range;

verus! {

/// Whether `a` comes before `b` when bytes are compared one by one from the
/// left; the shorter of two texts that agree so far comes first.
pub open spec fn bytes_lt(a: Seq<u8>, b: Seq<u8>) -> bool
    decreases a.len(),
{
    if b.len() == 0 {
        false
    } else if a.len() == 0 {
        true
    } else if a[0] != b[0] {
        a[0] < b[0]
    } else {
        bytes_lt(a.drop_first(), b.drop_first())
    }
}

/// What a list is ordered by.
pub struct SortKey {
    pub group: u32,
    pub binding: u32,
    pub text: Seq<u8>,
}

/// Whether key `a` comes before key `b`.
pub open spec fn key_lt(a: SortKey, b: SortKey) -> bool {
    a.group < b.group || (a.group == b.group && (a.binding < b.binding || (a.binding == b.binding
        && bytes_lt(a.text, b.text))))
}

/// Whether each key of the list comes before all that follow it. Such a
/// list holds no key twice.
pub open spec fn ascending(keys: Seq<SortKey>) -> bool {
    forall|i: int, j: int| 0 <= i < j < keys.len() ==> key_lt(keys[i], keys[j])
}

/// The key of a binding.
pub open spec fn binding_key(b: BindingView) -> SortKey {
    SortKey { group: b.group, binding: b.binding, text: b.decl }
}

/// The key of a name.
pub open spec fn name_key(name: Seq<u8>) -> SortKey {
    SortKey { group: 0, binding: 0, text: name }
}

/// No text comes before itself.
pub proof fn lemma_bytes_lt_irreflexive(a: Seq<u8>)
    ensures
        !bytes_lt(a, a),
    decreases a.len(),
{
    if a.len() > 0 {
        lemma_bytes_lt_irreflexive(a.drop_first());
    }
}

/// The order of texts is transitive.
pub proof fn lemma_bytes_lt_transitive(a: Seq<u8>, b: Seq<u8>, c: Seq<u8>)
    requires
        bytes_lt(a, b),
        bytes_lt(b, c),
    ensures
        bytes_lt(a, c),
    decreases a.len(),
{
    if a.len() > 0 && a[0] == b[0] && b[0] == c[0] {
        lemma_bytes_lt_transitive(a.drop_first(), b.drop_first(), c.drop_first());
    }
}

/// Of two different texts one comes before the other.
pub proof fn lemma_bytes_lt_total(a: Seq<u8>, b: Seq<u8>)
    ensures
        bytes_lt(a, b) || bytes_lt(b, a) || a == b,
    decreases a.len(),
{
    if a.len() == 0 || b.len() == 0 {
        if a.len() == 0 && b.len() == 0 {
            assert(a =~= b);
        }
    } else if a[0] == b[0] {
        let ta = a.drop_first();
        let tb = b.drop_first();
        lemma_bytes_lt_total(ta, tb);
        if ta == tb {
            assert forall|i: int| 0 <= i < a.len() implies a[i] == b[i] by {
                if i > 0 {
                    assert(a[i] == ta[i - 1]);
                    assert(b[i] == tb[i - 1]);
                }
            }
            assert(a.len() == ta.len() + 1 && b.len() == tb.len() + 1);
            assert(a =~= b);
        }
    }
}

/// The order of keys is strict, transitive and total.
pub proof fn lemma_key_order(a: SortKey, b: SortKey, c: SortKey)
    ensures
        !key_lt(a, a),
        key_lt(a, b) && key_lt(b, c) ==> key_lt(a, c),
        key_lt(a, b) || key_lt(b, a) || a == b,
{
    lemma_bytes_lt_irreflexive(a.text);
    lemma_bytes_lt_total(a.text, b.text);
    if bytes_lt(a.text, b.text) && bytes_lt(b.text, c.text) {
        lemma_bytes_lt_transitive(a.text, b.text, c.text);
    }
}

/// Two ascending lists that hold the same keys are the same list.
pub proof fn lemma_ascending_unique(a: Seq<SortKey>, b: Seq<SortKey>)
    requires
        ascending(a),
        ascending(b),
        a.to_set() == b.to_set(),
    ensures
        a == b,
    decreases a.len(),
{
    if a.len() == 0 {
        if b.len() > 0 {
            assert(b.to_set().contains(b[0]));
            assert(a.to_set().contains(b[0]));
        }
        assert(a =~= b);
    } else if b.len() == 0 {
        assert(a.to_set().contains(a[0]));
        assert(b.to_set().contains(a[0]));
    } else {
        // The first key of each list is the least of the common set.
        assert(a.to_set().contains(a[0]));
        assert(b.to_set().contains(a[0]));
        let ia = choose|i: int| 0 <= i < b.len() && b[i] == a[0];
        assert(b.to_set().contains(b[0]));
        assert(a.to_set().contains(b[0]));
        let ib = choose|i: int| 0 <= i < a.len() && a[i] == b[0];
        lemma_key_order(a[0], b[0], a[0]);
        assert(a[0] == b[0]);
        let ta = a.drop_first();
        let tb = b.drop_first();
        assert forall|k: SortKey| ta.to_set().contains(k) <==> tb.to_set().contains(k) by {
            lemma_key_order(k, k, k);
            if ta.to_set().contains(k) {
                let i = choose|i: int| 0 <= i < ta.len() && ta[i] == k;
                assert(a[i + 1] == k);
                assert(a.to_set().contains(k));
                assert(b.to_set().contains(k));
                let j = choose|j: int| 0 <= j < b.len() && b[j] == k;
                assert(j != 0);
                assert(tb[j - 1] == k);
            }
            if tb.to_set().contains(k) {
                let i = choose|i: int| 0 <= i < tb.len() && tb[i] == k;
                assert(b[i + 1] == k);
                assert(b.to_set().contains(k));
                assert(a.to_set().contains(k));
                let j = choose|j: int| 0 <= j < a.len() && a[j] == k;
                assert(j != 0);
                assert(ta[j - 1] == k);
            }
        }
        assert(ta.to_set() =~= tb.to_set());
        assert forall|i: int, j: int| 0 <= i < j < ta.len() implies key_lt(ta[i], ta[j]) by {
            assert(ta[i] == a[i + 1] && ta[j] == a[j + 1]);
        }
        assert forall|i: int, j: int| 0 <= i < j < tb.len() implies key_lt(tb[i], tb[j]) by {
            assert(tb[i] == b[i + 1] && tb[j] == b[j + 1]);
        }
        lemma_ascending_unique(ta, tb);
        assert forall|i: int| 0 <= i < a.len() implies a[i] == b[i] by {
            if i > 0 {
                assert(a[i] == ta[i - 1]);
                assert(b[i] == tb[i - 1]);
            }
        }
        assert(a.len() == ta.len() + 1 && b.len() == tb.len() + 1);
        assert(a =~= b);
    }
}

/// The keys of a list of bindings, in order.
pub open spec fn binding_keys(list: Seq<BindingView>) -> Seq<SortKey> {
    Seq::new(list.len(), |i: int| binding_key(list[i]))
}

/// The keys of a list of names, in order.
pub open spec fn name_keys(list: Seq<Seq<u8>>) -> Seq<SortKey> {
    Seq::new(list.len(), |i: int| name_key(list[i]))
}

/// Two lists put together hold what either holds.
pub proof fn lemma_concat_to_set<A>(a: Seq<A>, b: Seq<A>)
    ensures
        (a + b).to_set() == a.to_set().union(b.to_set()),
{
    assert forall|x: A| (a + b).to_set().contains(x) <==> a.to_set().contains(x)
        || b.to_set().contains(x) by {
        if (a + b).contains(x) {
            let i = choose|i: int| 0 <= i < (a + b).len() && (a + b)[i] == x;
            if i < a.len() {
                assert(a[i] == x);
            } else {
                assert(b[i - a.len()] == x);
            }
        }
        if a.contains(x) {
            let i = choose|i: int| 0 <= i < a.len() && a[i] == x;
            assert((a + b)[i] == x);
        }
        if b.contains(x) {
            let i = choose|i: int| 0 <= i < b.len() && b[i] == x;
            assert((a + b)[a.len() + i] == x);
        }
    }
    assert((a + b).to_set() =~= a.to_set().union(b.to_set()));
}

/// Lists of bindings with the same keys hold the same bindings.
pub proof fn lemma_same_bindings(a: Seq<BindingView>, b: Seq<BindingView>)
    requires
        binding_keys(a).to_set() == binding_keys(b).to_set(),
    ensures
        a.to_set() == b.to_set(),
{
    assert forall|v: BindingView| a.to_set().contains(v) <==> b.to_set().contains(v) by {
        if a.contains(v) {
            let i = choose|i: int| 0 <= i < a.len() && a[i] == v;
            assert(binding_keys(a)[i] == binding_key(v));
            assert(binding_keys(a).to_set().contains(binding_key(v)));
            assert(binding_keys(b).contains(binding_key(v)));
            let j = choose|j: int| 0 <= j < binding_keys(b).len() && binding_keys(b)[j] == binding_key(v);
            assert(b[j] == v);
        }
        if b.contains(v) {
            let i = choose|i: int| 0 <= i < b.len() && b[i] == v;
            assert(binding_keys(b)[i] == binding_key(v));
            assert(binding_keys(b).to_set().contains(binding_key(v)));
            assert(binding_keys(a).contains(binding_key(v)));
            let j = choose|j: int| 0 <= j < binding_keys(a).len() && binding_keys(a)[j] == binding_key(v);
            assert(a[j] == v);
        }
    }
    assert(a.to_set() =~= b.to_set());
}

/// Lists of names with the same keys hold the same names.
pub proof fn lemma_same_names(a: Seq<Seq<u8>>, b: Seq<Seq<u8>>)
    requires
        name_keys(a).to_set() == name_keys(b).to_set(),
    ensures
        a.to_set() == b.to_set(),
{
    assert forall|v: Seq<u8>| a.to_set().contains(v) <==> b.to_set().contains(v) by {
        if a.contains(v) {
            let i = choose|i: int| 0 <= i < a.len() && a[i] == v;
            assert(name_keys(a)[i] == name_key(v));
            assert(name_keys(a).to_set().contains(name_key(v)));
            assert(name_keys(b).contains(name_key(v)));
            let j = choose|j: int| 0 <= j < name_keys(b).len() && name_keys(b)[j] == name_key(v);
            assert(b[j] == v);
        }
        if b.contains(v) {
            let i = choose|i: int| 0 <= i < b.len() && b[i] == v;
            assert(name_keys(b)[i] == name_key(v));
            assert(name_keys(b).to_set().contains(name_key(v)));
            assert(name_keys(a).contains(name_key(v)));
            let j = choose|j: int| 0 <= j < name_keys(a).len() && name_keys(a)[j] == name_key(v);
            assert(a[j] == v);
        }
    }
    assert(a.to_set() =~= b.to_set());
}

/// Tests whether `a` comes before `b` in the order of texts.
pub fn bytes_before(a: &[u8], b: &[u8]) -> (r: bool)
    ensures
        r == bytes_lt(a@, b@),
{
    let mut i: usize = 0;
    assert(a@.skip(0) =~= a@ && b@.skip(0) =~= b@);
    loop
        invariant
            i <= a@.len(),
            i <= b@.len(),
            bytes_lt(a@, b@) == bytes_lt(a@.skip(i as int), b@.skip(i as int)),
        decreases a@.len() - i,
    {
        if i >= b.len() {
            return false;
        }
        if i >= a.len() {
            return true;
        }
        proof {
            let sa = a@.skip(i as int);
            let sb = b@.skip(i as int);
            assert(sa[0] == a@[i as int] && sb[0] == b@[i as int]);
            assert(sa.drop_first() =~= a@.skip(i + 1));
            assert(sb.drop_first() =~= b@.skip(i + 1));
        }
        if a[i] != b[i] {
            return a[i] < b[i];
        }
        i = i + 1;
    }
}

/// What can be kept in a sorted list: a value with a key, and a test of
/// the keys' order.
pub trait Keyed: Sized {
    /// The key of the value.
    spec fn key(&self) -> SortKey;

    /// Tests whether this value's key comes before that of `other`.
    fn precedes(&self, other: &Self) -> (r: bool)
        ensures
            r == key_lt(self.key(), other.key()),
    ;
}

impl Keyed for Binding {
    open spec fn key(&self) -> SortKey {
        binding_key(self@)
    }

    fn precedes(&self, other: &Self) -> (r: bool) {
        if self.group != other.group {
            self.group < other.group
        } else if self.binding != other.binding {
            self.binding < other.binding
        } else {
            bytes_before(self.decl.as_slice(), other.decl.as_slice())
        }
    }
}

impl Keyed for Vec<u8> {
    open spec fn key(&self) -> SortKey {
        name_key(self@)
    }

    fn precedes(&self, other: &Self) -> (r: bool) {
        bytes_before(self.as_slice(), other.as_slice())
    }
}

/// The keys of a list of values, in order.
pub open spec fn keys_of<T: Keyed>(list: Seq<T>) -> Seq<SortKey> {
    Seq::new(list.len(), |i: int| list[i].key())
}

/// Puts `item` into the ascending list `list` at its place, unless the
/// list holds its key already.
pub fn insert_sorted<T: Keyed>(list: &mut Vec<T>, item: T)
    requires
        ascending(keys_of(old(list)@)),
    ensures
        ascending(keys_of(final(list)@)),
        keys_of(final(list)@).to_set() == keys_of(old(list)@).to_set().insert(item.key()),
        keys_of(old(list)@).to_set().contains(item.key()) ==> final(list)@ == old(list)@,
        !keys_of(old(list)@).to_set().contains(item.key()) ==> exists|at: int|
            0 <= at <= old(list)@.len() && final(list)@ == old(list)@.insert(at, item),
{
    let ghost before = list@;
    let ghost keys = keys_of(list@);
    let mut at: usize = 0;
    while at < list.len() && list[at].precedes(&item)
        invariant
            list@ == before,
            keys == keys_of(before),
            at <= list@.len(),
            forall|k: int| 0 <= k < at ==> key_lt(#[trigger] keys[k], item.key()),
        decreases list@.len() - at,
    {
        at = at + 1;
    }
    let present = at < list.len() && !item.precedes(&list[at]);
    proof {
        if at < list@.len() {
            lemma_key_order(item.key(), keys[at as int], item.key());
        }
        assert forall|k: int| at < k < keys.len() implies key_lt(item.key(), #[trigger] keys[k]) by {
            lemma_key_order(item.key(), keys[at as int], keys[k]);
            lemma_key_order(keys[at as int], item.key(), keys[at as int]);
        }
    }
    if present {
        proof {
            assert(keys[at as int] == item.key());
            assert(keys.to_set().contains(item.key()));
            assert(keys.to_set().insert(item.key()) =~= keys.to_set());
        }
    } else {
        proof {
            assert(at < keys.len() ==> key_lt(item.key(), keys[at as int]));
            assert forall|k: int| 0 <= k < keys.len() implies keys[k] != item.key() by {
                lemma_key_order(item.key(), item.key(), item.key());
            }
        }
        list.insert(at, item);
        proof {
            let after = keys_of(list@);
            assert(after =~= keys.insert(at as int, item.key()));
            assert forall|i: int, j: int| 0 <= i < j < after.len() implies key_lt(
                after[i],
                after[j],
            ) by {
                let oi = if i < at { i } else { i - 1 };
                let oj = if j < at { j } else { j - 1 };
                if i != at && j != at {
                    assert(after[i] == keys[oi] && after[j] == keys[oj]);
                }
            }
            assert forall|k: SortKey| after.to_set().contains(k) <==> keys.to_set().insert(
                item.key(),
            ).contains(k) by {
                if after.to_set().contains(k) {
                    let i = choose|i: int| 0 <= i < after.len() && after[i] == k;
                    if i < at {
                        assert(keys[i] == k);
                    } else if i > at {
                        assert(keys[i - 1] == k);
                    }
                }
                if keys.to_set().contains(k) {
                    let i = choose|i: int| 0 <= i < keys.len() && keys[i] == k;
                    if i < at {
                        assert(after[i] == k);
                    } else {
                        assert(after[i + 1] == k);
                    }
                }
                if k == item.key() {
                    assert(after[at as int] == k);
                }
            }
            assert(after.to_set() =~= keys.to_set().insert(item.key()));
        }
    }
}

/// Copies a binding.
pub fn copy_binding(b: &Binding) -> (r: Binding)
    ensures
        r@ == b@,
{
    let decl = copy_range(b.decl.as_slice(), 0, b.decl.len());
    assert(b.decl@.subrange(0, b.decl@.len() as int) =~= b.decl@);
    Binding { group: b.group, binding: b.binding, decl }
}

/// Moves the values of `found` into the ascending list `sorted`, each at
/// its place, leaving out those whose key the list holds already.
pub fn gather<T: Keyed>(sorted: &mut Vec<T>, found: Vec<T>)
    requires
        ascending(keys_of(old(sorted)@)),
    ensures
        ascending(keys_of(final(sorted)@)),
        keys_of(final(sorted)@).to_set() == keys_of(old(sorted)@).to_set().union(
            keys_of(found@).to_set(),
        ),
{
    let ghost goal = keys_of(sorted@).to_set().union(keys_of(found@).to_set());
    let mut rest = found;
    loop
        invariant
            ascending(keys_of(sorted@)),
            keys_of(sorted@).to_set().union(keys_of(rest@).to_set()) == goal,
        ensures
            ascending(keys_of(sorted@)),
            keys_of(sorted@).to_set() == goal,
        decreases rest@.len(),
    {
        let ghost before = rest@;
        let ghost had = keys_of(sorted@).to_set();
        match rest.pop() {
            Some(item) => {
                insert_sorted(sorted, item);
                proof {
                    assert(keys_of(before) =~= keys_of(rest@).push(item.key()));
                    keys_of(rest@).lemma_push_to_set_commute(item.key());
                    assert(keys_of(sorted@).to_set().union(keys_of(rest@).to_set()) =~= had.union(
                        keys_of(before).to_set(),
                    ));
                }
            },
            None => {
                proof {
                    assert(keys_of(rest@).to_set() =~= Set::empty());
                    assert(keys_of(sorted@).to_set().union(Set::empty()) =~= keys_of(
                        sorted@,
                    ).to_set());
                }
                break ;
            },
        }
    }
}

} // verus!
