//! The table of named roots.

use vstd::prelude::*;

use vstd::utf8::encode_utf8;

use crate::error::ChiselError;
use crate::superblock::{NamedRoot, NAMED_ROOT_COUNT, NAMED_ROOT_NAME_LEN};

verus! {

/// A name that the table can hold: not empty, not too long, without zero bytes.
pub open spec fn name_valid(name: Seq<u8>) -> bool {
    &&& 0 < name.len() <= NAMED_ROOT_NAME_LEN
    &&& forall|i: int| 0 <= i < name.len() ==> #[trigger] name[i] != 0
}

/// A name as it is stored: padded with zero bytes.
pub open spec fn padded(name: Seq<u8>) -> Seq<u8> {
    Seq::new(
        NAMED_ROOT_NAME_LEN as nat,
        |i: int|
            if i < name.len() {
                name[i]
            } else {
                0u8
            },
    )
}

/// A name can be stored exactly if it has from one to 24 bytes and none is zero.
pub proof fn law_valid_names(name: Seq<u8>)
    ensures
        name_valid(name) <==> 1 <= name.len() <= 24 && !name.contains(0u8),
{
    if name_valid(name) && name.contains(0u8) {
        let i = name.index_of(0u8);
        assert(name[i] != 0);
    }
    if !name.contains(0u8) {
        assert forall|i: int| 0 <= i < name.len() implies #[trigger] name[i] != 0 by {
            assert(name.contains(name[i]));
        }
    }
}

/// Two names that can be stored are stored alike only if they are the same.
pub proof fn law_stored_names_differ(a: Seq<u8>, b: Seq<u8>)
    requires
        name_valid(a),
        name_valid(b),
        padded(a) == padded(b),
    ensures
        a == b,
{
    let n = if a.len() < b.len() {
        a.len()
    } else {
        b.len()
    };
    assert forall|i: int| 0 <= i < n implies #[trigger] a[i] == b[i] by {
        assert(padded(a)[i] == a[i]);
        assert(padded(b)[i] == b[i]);
    }
    if a.len() < b.len() {
        assert(b[a.len() as int] != 0);
        assert(padded(a)[a.len() as int] == 0);
        assert(padded(b)[a.len() as int] == b[a.len() as int]);
    }
    if b.len() < a.len() {
        assert(a[b.len() as int] != 0);
        assert(padded(b)[b.len() as int] == 0);
        assert(padded(a)[b.len() as int] == a[b.len() as int]);
    }
    assert(a =~= b);
}

/// A stored name begins with the bytes of the name, and nothing but zeros follows.
pub proof fn law_stored_names_begin_with_the_name(name: Seq<u8>)
    requires
        name_valid(name),
    ensures
        padded(name).len() == 24,
        padded(name).take(name.len() as int) == name,
        forall|i: int| name.len() <= i < 24 ==> padded(name)[i] == 0,
{
    assert(padded(name).take(name.len() as int) =~= name);
}

/// The first of the entries from `i` on that has this name.
pub open spec fn first_named(names: Seq<NamedRoot>, key: Seq<u8>, i: int) -> Option<int>
    decreases names.len() - i,
{
    if i < 0 || i >= names.len() {
        None
    } else if names[i].name@ == key {
        Some(i)
    } else {
        first_named(names, key, i + 1)
    }
}

/// What the stored names stand for.
pub open spec fn bindings(names: Seq<NamedRoot>) -> Map<Seq<u8>, u64> {
    Map::new(
        |key: Seq<u8>| key.len() == NAMED_ROOT_NAME_LEN && key[0] != 0 && first_named(names, key, 0) is Some,
        |key: Seq<u8>| names[first_named(names, key, 0)->0].handle,
    )
}

/// No entry is free.
pub open spec fn table_full(names: Seq<NamedRoot>) -> bool {
    forall|i: int| 0 <= i < names.len() ==> (#[trigger] names[i]).name@[0] != 0
}

/// No two entries in use bear one name.
pub open spec fn names_apart(names: Seq<NamedRoot>) -> bool {
    forall|i: int, j: int|
        0 <= i < j < names.len() && (#[trigger] names[i]).name@[0] != 0 ==> names[i].name@ != (#[trigger] names[j]).name@
}

/// The names of the first `n` entries.
spec fn used_names(names: Seq<NamedRoot>, n: int) -> Set<Seq<u8>> {
    Set::new(|key: Seq<u8>| key[0] != 0 && exists|i: int| 0 <= i < n && (#[trigger] names[i]).name@ == key)
}

/// So many names are used as there are entries in use.
proof fn lemma_used_names(names: Seq<NamedRoot>, n: int)
    requires
        0 <= n <= names.len(),
        names_apart(names),
    ensures
        used_names(names, n).finite(),
        used_names(names, n).len() <= n,
        used_names(names, n).len() == n <==> forall|i: int| 0 <= i < n ==> (#[trigger] names[i]).name@[0] != 0,
    decreases n,
{
    if n == 0 {
        assert(used_names(names, 0) =~= Set::<Seq<u8>>::empty());
    } else {
        let m = n - 1;
        lemma_used_names(names, m);
        let last = names[m].name@;
        let before = used_names(names, m);
        if last[0] != 0 {
            assert(used_names(names, n) =~= before.insert(last)) by {
                assert forall|key: Seq<u8>| used_names(names, n).contains(key) == before.insert(last).contains(key) by {
                    if used_names(names, n).contains(key) {
                        let i = choose|i: int| 0 <= i < n && (#[trigger] names[i]).name@ == key;
                        assert(i < m ==> before.contains(key));
                    }
                    if key == last {
                        assert(names[m].name@ == key);
                    }
                }
            }
            if before.contains(last) {
                let i = choose|i: int| 0 <= i < m && (#[trigger] names[i]).name@ == last;
                assert(names[i].name@ != names[m].name@);
            }
        } else {
            assert(used_names(names, n) =~= before) by {
                assert forall|key: Seq<u8>| used_names(names, n).contains(key) == before.contains(key) by {
                    if used_names(names, n).contains(key) {
                        let i = choose|i: int| 0 <= i < n && (#[trigger] names[i]).name@ == key;
                        assert(i < m);
                    }
                }
            }
        }
    }
}

/// A table is full exactly if it holds as many names as it has entries.
pub proof fn law_full_table(names: Seq<NamedRoot>)
    requires
        names_apart(names),
    ensures
        bindings(names).dom().finite(),
        bindings(names).dom().len() <= names.len(),
        table_full(names) <==> bindings(names).dom().len() == names.len(),
{
    let n = names.len() as int;
    lemma_used_names(names, n);
    assert(bindings(names).dom() =~= used_names(names, n)) by {
        assert forall|key: Seq<u8>| bindings(names).dom().contains(key) == used_names(names, n).contains(key) by {
            lemma_first_named(names, key, 0);
            if used_names(names, n).contains(key) {
                let i = choose|i: int| 0 <= i < n && (#[trigger] names[i]).name@ == key;
                assert(names[i].name@.len() == NAMED_ROOT_NAME_LEN);
            }
        }
    }
}

/// Whether no two entries in use bear one name.
pub fn check_names(names: &[NamedRoot; NAMED_ROOT_COUNT]) -> (apart: bool)
    ensures
        apart == names_apart(names@),
{
    let mut i: usize = 0;
    while i < NAMED_ROOT_COUNT
        invariant
            i <= NAMED_ROOT_COUNT,
            forall|a: int, b: int|
                0 <= a < i && a < b < NAMED_ROOT_COUNT && (#[trigger] names@[a]).name@[0] != 0 ==> names@[a].name@ != (
                #[trigger] names@[b]).name@,
        decreases NAMED_ROOT_COUNT - i,
    {
        let mut j: usize = i + 1;
        while j < NAMED_ROOT_COUNT
            invariant
                i < j <= NAMED_ROOT_COUNT,
                forall|b: int| i < b < j && names@[i as int].name@[0] != 0 ==> names@[i as int].name@ != (
                #[trigger] names@[b]).name@,
            decreases NAMED_ROOT_COUNT - j,
        {
            if names[i].name[0] != 0 && same_name(&names[i].name, &names[j].name) {
                assert(names@[i as int].name@ == names@[j as int].name@);
                return false;
            }
            j += 1;
        }
        i += 1;
    }
    true
}

/// The first entry with a name is where it is found.
proof fn lemma_first_named(names: Seq<NamedRoot>, key: Seq<u8>, i: int)
    requires
        0 <= i,
    ensures
        match first_named(names, key, i) {
            Some(j) => {
                &&& i <= j < names.len()
                &&& names[j].name@ == key
                &&& forall|k: int| i <= k < j ==> (#[trigger] names[k]).name@ != key
            },
            None => forall|k: int| i <= k < names.len() ==> (#[trigger] names[k]).name@ != key,
        },
    decreases names.len() - i,
{
    if i < names.len() && names[i].name@ != key {
        lemma_first_named(names, key, i + 1);
    }
}

/// Changing one entry that is free, or the first with the name.
proof fn lemma_bound(names: Seq<NamedRoot>, i: int, key: Seq<u8>, handle: u64, after: Seq<NamedRoot>)
    requires
        0 <= i < names.len(),
        after.len() == names.len(),
        after[i].name@ == key,
        after[i].handle == handle,
        forall|k: int| 0 <= k < names.len() && k != i ==> #[trigger] after[k] == names[k],
        key.len() == NAMED_ROOT_NAME_LEN,
        key[0] != 0,
        first_named(names, key, 0) == Some(i) || first_named(names, key, 0) is None && names[i].name@[0] == 0,
    ensures
        bindings(after) == bindings(names).insert(key, handle),
{
    assert forall|other: Seq<u8>| other.len() == NAMED_ROOT_NAME_LEN && other[0] != 0 implies first_named(after, other, 0)
        == (if other == key {
        Some(i)
    } else {
        first_named(names, other, 0)
    }) by {
        lemma_first_named(names, other, 0);
        lemma_first_named(names, key, 0);
        lemma_first_named(after, other, 0);
        let a = first_named(after, other, 0);
        let b = first_named(names, other, 0);
        if other == key {
            if let Some(j) = a {
                if j < i {
                    assert(after[j] == names[j]);
                }
            }
            assert(a is Some);
            assert(a->0 <= i);
        } else {
            if let Some(j) = a {
                assert(j != i);
                assert(after[j] == names[j]);
                assert(b is Some);
                if b->0 < j {
                    assert(b->0 != i);
                    assert(after[b->0] == names[b->0]);
                }
            }
            if let Some(j) = b {
                assert(j != i);
                assert(after[j] == names[j]);
                assert(a is Some);
                if a->0 < j {
                    assert(after[a->0] == names[a->0]);
                }
            }
        }
    }
    assert forall|other: Seq<u8>| #[trigger] bindings(after).contains_key(other) == bindings(names).insert(
        key,
        handle,
    ).contains_key(other) by {}
    assert(bindings(after) =~= bindings(names).insert(key, handle)) by {
        assert forall|other: Seq<u8>| #[trigger] bindings(after).contains_key(other) implies bindings(after)[other]
            == bindings(names).insert(key, handle)[other] by {
            if other != key {
                lemma_first_named(names, other, 0);
                lemma_first_named(names, key, 0);
                let j = first_named(names, other, 0)->0;
                assert(j != i);
                assert(after[j] == names[j]);
            }
        }
    }
}

/// Putting a name in its place, or in a free one, keeps the names apart.
proof fn lemma_still_apart(names: Seq<NamedRoot>, i: int, key: Seq<u8>, after: Seq<NamedRoot>)
    requires
        0 <= i < names.len(),
        after.len() == names.len(),
        after[i].name@ == key,
        forall|k: int| 0 <= k < names.len() && k != i ==> #[trigger] after[k] == names[k],
        key[0] != 0,
        first_named(names, key, 0) == Some(i) || first_named(names, key, 0) is None,
    ensures
        names_apart(names) ==> names_apart(after),
{
    lemma_first_named(names, key, 0);
    if names_apart(names) {
        assert forall|a: int, b: int| 0 <= a < b < after.len() && (#[trigger] after[a]).name@[0] != 0 implies after[a].name@
            != (#[trigger] after[b]).name@ by {
            if a == i {
                assert(names[b].name@ != key) by {
                    if first_named(names, key, 0) == Some(i) {
                        assert(names[i].name@ != names[b].name@);
                    }
                }
            } else if b == i {
                assert(after[a] == names[a]);
                if first_named(names, key, 0) == Some(i) {
                    assert(names[a].name@ != names[i].name@);
                }
            } else {
                assert(after[a] == names[a] && after[b] == names[b]);
            }
        }
    }
}

/// Freeing every entry with a name.
proof fn lemma_unbound(names: Seq<NamedRoot>, key: Seq<u8>, after: Seq<NamedRoot>)
    requires
        after.len() == names.len(),
        forall|k: int|
            0 <= k < names.len() ==> (if names[k].name@ == key {
                (#[trigger] after[k]).name@[0] == 0
            } else {
                after[k] == names[k]
            }),
        key.len() == NAMED_ROOT_NAME_LEN,
        key[0] != 0,
    ensures
        bindings(after) == bindings(names).remove(key),
{
    assert forall|other: Seq<u8>| other.len() == NAMED_ROOT_NAME_LEN && other[0] != 0 implies first_named(after, other, 0)
        == (if other == key {
        None
    } else {
        first_named(names, other, 0)
    }) by {
        lemma_first_named(names, other, 0);
        lemma_first_named(after, other, 0);
        let a = first_named(after, other, 0);
        let b = first_named(names, other, 0);
        if let Some(j) = a {
            assert(after[j].name@ == other);
            assert(after[j] == names[j]);
        }
        if other != key {
            if let Some(j) = b {
                assert(after[j] == names[j]);
                assert(a is Some);
                if a->0 < j {
                    assert(after[a->0] == names[a->0]);
                }
            }
        }
    }
    assert(bindings(after) =~= bindings(names).remove(key)) by {
        assert forall|other: Seq<u8>| #[trigger] bindings(after).contains_key(other) implies bindings(after)[other]
            == bindings(names).remove(key)[other] by {
            lemma_first_named(names, other, 0);
            let j = first_named(names, other, 0)->0;
            assert(after[j] == names[j]);
        }
    }
}

/// Two stored names are the same.
fn same_name(a: &[u8; NAMED_ROOT_NAME_LEN], b: &[u8; NAMED_ROOT_NAME_LEN]) -> (same: bool)
    ensures
        same == (a@ == b@),
{
    let mut i: usize = 0;
    while i < NAMED_ROOT_NAME_LEN
        invariant
            i <= NAMED_ROOT_NAME_LEN,
            forall|k: int| 0 <= k < i ==> a@[k] == b@[k],
        decreases NAMED_ROOT_NAME_LEN - i,
    {
        if a[i] != b[i] {
            assert(a@[i as int] != b@[i as int]);
            return false;
        }
        i += 1;
    }
    assert(a@ =~= b@);
    true
}

/// A name as it is stored.
pub fn stored_name(name: &str) -> (outcome: Result<[u8; NAMED_ROOT_NAME_LEN], ChiselError>)
    ensures
        match outcome {
            Ok(key) => name_valid(encode_utf8(name@)) && key@ == padded(encode_utf8(name@)),
            Err(e) => !name_valid(encode_utf8(name@)) && e is InvalidRootName,
        },
{
    let bytes = name.as_bytes();
    if bytes.len() == 0 || bytes.len() > NAMED_ROOT_NAME_LEN {
        return Err(ChiselError::InvalidRootName);
    }
    let mut key: [u8; NAMED_ROOT_NAME_LEN] = vstd::array::array_fill_for_copy_types::<u8, NAMED_ROOT_NAME_LEN>(0);
    let mut i: usize = 0;
    while i < bytes.len()
        invariant
            bytes@ == encode_utf8(name@),
            0 < bytes@.len() <= NAMED_ROOT_NAME_LEN,
            i <= bytes@.len(),
            forall|k: int| 0 <= k < i ==> #[trigger] bytes@[k] != 0 && key@[k] == bytes@[k],
            forall|k: int| i <= k < NAMED_ROOT_NAME_LEN ==> key@[k] == 0,
        decreases bytes@.len() - i,
    {
        if bytes[i] == 0 {
            assert(bytes@[i as int] == 0);
            return Err(ChiselError::InvalidRootName);
        }
        key[i] = bytes[i];
        i += 1;
    }
    assert(key@ =~= padded(encode_utf8(name@)));
    Ok(key)
}

/// A name as it is stored is not that of a free entry.
pub proof fn lemma_padded(name: Seq<u8>)
    requires
        name_valid(name),
    ensures
        padded(name).len() == NAMED_ROOT_NAME_LEN,
        padded(name)[0] != 0,
{
    assert(name[0] != 0);
}

/// A table without names.
pub fn free_names() -> (names: [NamedRoot; NAMED_ROOT_COUNT])
    ensures
        bindings(names@) == Map::<Seq<u8>, u64>::empty(),
        forall|i: int| 0 <= i < NAMED_ROOT_COUNT ==> (#[trigger] names@[i]).name@[0] == 0,
        names_apart(names@),
{
    let free: NamedRoot = NamedRoot::empty();
    let names = vstd::array::array_fill_for_copy_types::<NamedRoot, NAMED_ROOT_COUNT>(free);
    proof {
        assert forall|key: Seq<u8>| key.len() == NAMED_ROOT_NAME_LEN && key[0] != 0 implies #[trigger] first_named(
            names@,
            key,
            0,
        ) is None by {
            lemma_first_named(names@, key, 0);
        }
        assert(bindings(names@) =~= Map::<Seq<u8>, u64>::empty());
    }
    names
}

/// The handle that a name stands for.
pub fn find_root(names: &[NamedRoot; NAMED_ROOT_COUNT], key: &[u8; NAMED_ROOT_NAME_LEN]) -> (found: Option<u64>)
    requires
        key@[0] != 0,
    ensures
        match found {
            Some(handle) => bindings(names@).contains_key(key@) && bindings(names@)[key@] == handle,
            None => !bindings(names@).contains_key(key@),
        },
{
    proof {
        lemma_first_named(names@, key@, 0);
    }
    let mut i: usize = 0;
    while i < NAMED_ROOT_COUNT
        invariant
            key@[0] != 0,
            i <= NAMED_ROOT_COUNT,
            first_named(names@, key@, 0) == first_named(names@, key@, i as int),
        decreases NAMED_ROOT_COUNT - i,
    {
        if same_name(&names[i].name, key) {
            return Some(names[i].handle);
        }
        i += 1;
    }
    None
}

/// Let a name stand for a handle.
pub fn bind_root(names: &mut [NamedRoot; NAMED_ROOT_COUNT], key: [u8; NAMED_ROOT_NAME_LEN], handle: u64) -> (outcome:
    Result<(), ChiselError>)
    requires
        key@[0] != 0,
    ensures
        match outcome {
            Ok(_) => {
                &&& bindings(old(names)@).contains_key(key@) || !table_full(old(names)@)
                &&& bindings(final(names)@) == bindings(old(names)@).insert(key@, handle)
                &&& exists|i: int|
                    0 <= i < NAMED_ROOT_COUNT && final(names)@ == #[trigger] old(names)@.update(
                        i,
                        (NamedRoot { name: key, handle }),
                    )
                &&& names_apart(old(names)@) ==> names_apart(final(names)@)
            },
            Err(e) => {
                &&& !bindings(old(names)@).contains_key(key@) && table_full(old(names)@)
                &&& e is RootNameTableFull
                &&& *final(names) == *old(names)
            },
        },
{
    proof {
        lemma_first_named(names@, key@, 0);
    }
    let mut vacant: Option<usize> = None;
    let mut i: usize = 0;
    while i < NAMED_ROOT_COUNT
        invariant
            key@[0] != 0,
            i <= NAMED_ROOT_COUNT,
            *names == *old(names),
            first_named(names@, key@, 0) == first_named(names@, key@, i as int),
            match vacant {
                Some(v) => v < i && names@[v as int].name@[0] == 0,
                None => forall|k: int| 0 <= k < i ==> (#[trigger] names@[k]).name@[0] != 0,
            },
        decreases NAMED_ROOT_COUNT - i,
    {
        if same_name(&names[i].name, &key) {
            names[i] = NamedRoot { name: key, handle };
            proof {
                lemma_bound(old(names)@, i as int, key@, handle, names@);
                lemma_still_apart(old(names)@, i as int, key@, names@);
                assert(names@ =~= old(names)@.update(i as int, (NamedRoot { name: key, handle })));
            }
            return Ok(());
        }
        if vacant.is_none() && names[i].name[0] == 0 {
            vacant = Some(i);
        }
        i += 1;
    }
    match vacant {
        Some(v) => {
            names[v] = NamedRoot { name: key, handle };
            proof {
                lemma_bound(old(names)@, v as int, key@, handle, names@);
                lemma_still_apart(old(names)@, v as int, key@, names@);
                assert(names@ =~= old(names)@.update(v as int, (NamedRoot { name: key, handle })));
            }
            Ok(())
        },
        None => Err(ChiselError::RootNameTableFull),
    }
}

/// Let a name stand for nothing.
pub fn unbind_root(names: &mut [NamedRoot; NAMED_ROOT_COUNT], key: &[u8; NAMED_ROOT_NAME_LEN])
    requires
        key@[0] != 0,
    ensures
        bindings(final(names)@) == bindings(old(names)@).remove(key@),
        names_apart(old(names)@) ==> names_apart(final(names)@),
        forall|i: int|
            0 <= i < NAMED_ROOT_COUNT ==> (if old(names)@[i].name@ == key@ {
                (#[trigger] final(names)@[i]).name@[0] == 0
            } else {
                final(names)@[i] == old(names)@[i]
            }),
{
    let mut i: usize = 0;
    while i < NAMED_ROOT_COUNT
        invariant
            i <= NAMED_ROOT_COUNT,
            forall|k: int|
                0 <= k < i ==> (if old(names)@[k].name@ == key@ {
                    (#[trigger] names@[k]).name@[0] == 0
                } else {
                    names@[k] == old(names)@[k]
                }),
            forall|k: int| i <= k < NAMED_ROOT_COUNT ==> names@[k] == old(names)@[k],
        decreases NAMED_ROOT_COUNT - i,
    {
        if same_name(&names[i].name, key) {
            names[i] = NamedRoot::empty();
        }
        i += 1;
    }
    proof {
        lemma_unbound(old(names)@, key@, names@);
    }
}

} // verus!
