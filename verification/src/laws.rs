//! Laws of the store, stated over the same views and spec functions the
//! operations' contracts use, and proved once for all inputs.

use vstd::prelude::*;

use crate::store::StoreView;
use crate::store::contains_id;
use crate::store::idx_of;
use crate::store::lemma_idx_of_unique;
use crate::store::lemma_wf_ids_unique;
use crate::todo::TodoView;

verus! {

/// What one create does to a store's value, as [`crate::store::Store::create`]
/// promises: a todo with the counter's id and a false flag is appended, and
/// the counter moves on.
pub open spec fn create_step(s: StoreView, title: Seq<char>) -> StoreView {
    StoreView {
        todos: s.todos.push(TodoView { id: s.next_id, title, completed: false }),
        next_id: (s.next_id + 1) as u64,
    }
}

/// The store after creating the given titles, one at a time, starting empty.
pub open spec fn run_creates(titles: Seq<Seq<char>>) -> StoreView
    decreases titles.len(),
{
    if titles.len() == 0 {
        StoreView { todos: Seq::empty(), next_id: 1 }
    } else {
        create_step(run_creates(titles.drop_last()), titles.last())
    }
}

/// Creating N todos, one at a time from an empty store, yields exactly the
/// ids 1..N in call order: listing returns one todo per call, in that order,
/// carrying that call's title, the id equal to its position plus one, and a
/// false completion flag.
pub proof fn lemma_creates_yield_sequential_ids(titles: Seq<Seq<char>>)
    requires
        titles.len() < u64::MAX,
    ensures
        run_creates(titles).wf(),
        run_creates(titles).todos.len() == titles.len(),
        run_creates(titles).next_id == titles.len() + 1,
        forall|i: int|
            0 <= i < titles.len() ==> #[trigger] run_creates(titles).todos[i] == (TodoView {
                id: (i + 1) as u64,
                title: titles[i],
                completed: false,
            }),
    decreases titles.len(),
{
    if titles.len() == 0 {
    } else {
        lemma_creates_yield_sequential_ids(titles.drop_last());
        let prev = run_creates(titles.drop_last());
        let cur = run_creates(titles);
        assert(cur == create_step(prev, titles.last()));
        assert forall|i: int| 0 <= i < titles.len() implies #[trigger] cur.todos[i] == (TodoView {
            id: (i + 1) as u64,
            title: titles[i],
            completed: false,
        }) by {
            if i < titles.len() - 1 {
                assert(cur.todos[i] == prev.todos[i]);
                assert(titles.drop_last()[i] == titles[i]);
            }
        }
    }
}

/// Toggling the same id twice returns the store to its starting value: the
/// second toggle flips the completion flag back, and the record the second
/// toggle returns carries the original flag.
pub proof fn lemma_toggle_twice_restores(s: StoreView, id: u64)
    requires
        s.wf(),
        contains_id(s.todos, id),
    ensures
        ({
            let i = idx_of(s.todos, id);
            let t1 = TodoView { id, title: s.todos[i].title, completed: !s.todos[i].completed };
            let s1 = StoreView { todos: s.todos.update(i, t1), next_id: s.next_id };
            &&& s1.wf()
            &&& contains_id(s1.todos, id)
            &&& idx_of(s1.todos, id) == i
            &&& (TodoView {
                id,
                title: s1.todos[i].title,
                completed: !s1.todos[i].completed,
            }) == s.todos[i]
            &&& s1.todos.update(i, s.todos[i]) == s.todos
        }),
{
    let i = idx_of(s.todos, id);
    assert(0 <= i < s.todos.len() && s.todos[i].id == id);
    let t1 = TodoView { id, title: s.todos[i].title, completed: !s.todos[i].completed };
    let s1 = StoreView { todos: s.todos.update(i, t1), next_id: s.next_id };
    assert(s1.wf());
    assert(s1.todos[i].id == id);
    lemma_idx_of_unique(s1, id, i);
    assert(s.todos[i].id == id);
    assert(s1.todos.update(i, s.todos[i]) =~= s.todos);
}

/// After a delete of the given id, the id is absent, so a toggle or a second
/// delete of it finds nothing.
pub proof fn lemma_deleted_id_stays_absent(s: StoreView, id: u64)
    requires
        s.wf(),
        contains_id(s.todos, id),
    ensures
        !contains_id(s.todos.remove(idx_of(s.todos, id)), id),
{
    let i = idx_of(s.todos, id);
    assert(0 <= i < s.todos.len() && s.todos[i].id == id);
    let rest = s.todos.remove(i);
    assert forall|k: int| 0 <= k < rest.len() implies #[trigger] rest[k].id != id by {
        if rest[k].id == id {
            if k < i {
                assert(s.todos[k].id == id);
                lemma_wf_ids_unique(s, k, i);
            } else {
                assert(s.todos[k + 1].id == id);
                lemma_wf_ids_unique(s, k + 1, i);
            }
        }
    }
}

} // verus!
