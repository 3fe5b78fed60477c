//! The task pool: a slab of task slots.
//!
//! The slab itself is the `slab` crate's. Its contents are named by
//! `task_slots`, and the functions below say what each of its methods does to
//! them.

use crate::runtime::task::Task;
use slab::Slab;
use vstd::prelude::*;

verus! {

/// The slab of the `slab` crate, as an opaque type.
#[verifier::external_type_specification]
#[verifier::external_body]
#[verifier::reject_recursive_types(T)]
pub struct ExSlab<T>(slab::Slab<T>);

/// What a pool holds: the occupied keys and their slots.
pub uninterp spec fn task_slots(pool: Slab<Option<Task>>) -> Map<usize, Option<Task>>;

/// A pool without tasks.
pub open spec fn no_tasks(slots: Map<usize, Option<Task>>) -> bool {
    slots == Map::<usize, Option<Task>>::empty()
}

/// `Slab::with_capacity`: an empty slab. The reservation of `capacity` entries
/// must be expressible in bytes; an entry of the pool takes less than a
/// kilobyte.
#[verifier::external_body]
pub(crate) fn pool_with_capacity(capacity: usize) -> (pool: Slab<Option<Task>>)
    requires
        capacity * 1024 <= isize::MAX,
    ensures
        no_tasks(task_slots(pool)),
{
    Slab::with_capacity(capacity)
}

/// `Slab::insert`: stores the value under a key that was vacant and returns
/// the key. Which vacant key it takes is left unsaid.
#[verifier::external_body]
pub(crate) fn pool_insert(pool: &mut Slab<Option<Task>>, task: Option<Task>) -> (key: usize)
    ensures
        !task_slots(*old(pool)).contains_key(key),
        task_slots(*final(pool)) == task_slots(*old(pool)).insert(key, task),
{
    pool.insert(task)
}

/// `Slab::get`: the value under `key`, if the key is occupied.
#[verifier::external_body]
pub(crate) fn pool_get(pool: &Slab<Option<Task>>, key: usize) -> (slot: Option<&Option<Task>>)
    ensures
        match slot {
            Some(s) => task_slots(*pool).contains_key(key) && *s == task_slots(*pool)[key],
            None => !task_slots(*pool).contains_key(key),
        },
{
    pool.get(key)
}

/// `Slab::get_mut`: the value under `key` for modification, if the key is
/// occupied; what is written there is then under the key, and nothing else
/// changes.
#[verifier::external_body]
pub(crate) fn pool_get_mut(pool: &mut Slab<Option<Task>>, key: usize) -> (slot: Option<
    &mut Option<Task>,
>)
    ensures
        match slot {
            Some(s) => {
                &&& task_slots(*old(pool)).contains_key(key)
                &&& *s == task_slots(*old(pool))[key]
                &&& task_slots(*final(pool)) == task_slots(*old(pool)).insert(key, *final(s))
            },
            None => !task_slots(*old(pool)).contains_key(key) && *final(pool) == *old(pool),
        },
{
    pool.get_mut(key)
}

/// `Slab::contains`: whether `key` is occupied.
#[verifier::external_body]
pub(crate) fn pool_contains(pool: &Slab<Option<Task>>, key: usize) -> (r: bool)
    ensures
        r == task_slots(*pool).contains_key(key),
{
    pool.contains(key)
}

/// `Slab::len`: the number of occupied keys, which is 0 only if there is none.
#[verifier::external_body]
pub(crate) fn pool_len(pool: &Slab<Option<Task>>) -> (n: usize)
    ensures
        n == task_slots(*pool).dom().len(),
        (n == 0) == no_tasks(task_slots(*pool)),
{
    pool.len()
}

/// `Slab::remove`: takes the value under an occupied key out and leaves the key
/// vacant.
#[verifier::external_body]
pub(crate) fn pool_remove(pool: &mut Slab<Option<Task>>, key: usize) -> (task: Option<Task>)
    requires
        task_slots(*old(pool)).contains_key(key),
    ensures
        task == task_slots(*old(pool))[key],
        task_slots(*final(pool)) == task_slots(*old(pool)).remove(key),
{
    pool.remove(key)
}

/// `Slab::iter`, of which only the keys are kept: every occupied key once, in
/// ascending order.
#[verifier::external_body]
pub(crate) fn pool_keys(pool: &Slab<Option<Task>>) -> (keys: Vec<usize>)
    ensures
        ascending_keys(keys@, task_slots(*pool)),
{
    pool.iter().map(|entry| entry.0).collect()
}

/// `keys` are the keys of `slots` in ascending order.
pub open spec fn ascending_keys(keys: Seq<usize>, slots: Map<usize, Option<Task>>) -> bool {
    &&& forall|i: int, j: int| 0 <= i < j < keys.len() ==> #[trigger] keys[i] < #[trigger] keys[j]
    &&& forall|k: usize| #[trigger] keys.contains(k) <==> slots.contains_key(k)
}


/// A pool without tasks has no task under any id; the ids of a pool are listed
/// each once and no others, the smaller first.
pub proof fn ids_are_listed_once(keys: Seq<usize>, slots: Map<usize, Option<Task>>, id: usize)
    ensures
        no_tasks(slots) ==> !slots.contains_key(id),
        no_tasks(slots) <==> forall|k: usize| !slots.contains_key(k),
        ascending_keys(keys, slots) ==> {
            &&& keys.no_duplicates()
            &&& slots.contains_key(id) <==> exists|i: int| 0 <= i < keys.len() && keys[i] == id
            &&& forall|i: int, j: int| 0 <= i < j < keys.len() ==> keys[i] < keys[j]
        },
{
    if forall|k: usize| !slots.contains_key(k) {
        assert(slots =~= Map::<usize, Option<Task>>::empty());
    }
    if ascending_keys(keys, slots) {
        assert forall|i: int, j: int| 0 <= i < keys.len() && 0 <= j < keys.len() && i
            != j implies keys[i] != keys[j] by {
            if i < j {
                assert(keys[i] < keys[j]);
            } else {
                assert(keys[j] < keys[i]);
            }
        }
        assert(keys.contains(id) <==> slots.contains_key(id));
    }
}

} // verus!
