//! The store: an ordered in-memory list of todos with a monotonically
//! increasing id counter. Ids of stored todos are unique and listing keeps
//! insertion order. The counter (rather than the current count) is used to
//! assign ids, so an id is never reused after a delete.

use vstd::prelude::*;

use crate::todo::Todo;
use crate::todo::TodoView;

verus! {

/// True when some stored todo carries the given id.
pub open spec fn contains_id(todos: Seq<TodoView>, id: u64) -> bool {
    exists|i: int| 0 <= i < todos.len() && todos[i].id == id
}

/// The index of the stored todo with the given id. Under [`StoreView::wf`]
/// ids are unique, so this picks the one matching index.
pub open spec fn idx_of(todos: Seq<TodoView>, id: u64) -> int {
    choose|i: int| 0 <= i < todos.len() && todos[i].id == id
}

/// The mathematical value of a [`Store`]: the stored todos in insertion
/// order, and the id the next created todo will receive.
pub struct StoreView {
    pub todos: Seq<TodoView>,
    pub next_id: u64,
}

impl StoreView {
    /// Well-formedness: the counter starts at 1, every stored id is below the
    /// counter, and ids grow strictly in insertion order (so they are unique).
    pub open spec fn wf(self) -> bool {
        &&& 1 <= self.next_id
        &&& forall|i: int| 0 <= i < self.todos.len() ==> 1 <= #[trigger] self.todos[i].id
            < self.next_id
        &&& forall|i: int, j: int|
            0 <= i < j < self.todos.len() ==> #[trigger] self.todos[i].id
                < #[trigger] self.todos[j].id
    }
}

/// The guarded list of todos. All mutation goes through [`Store::create`],
/// [`Store::toggle`] and [`Store::delete`]; callers serialize access with a
/// lock of their own.
pub struct Store {
    todos: Vec<Todo>,
    next_id: u64,
}

impl View for Store {
    type V = StoreView;

    closed spec fn view(&self) -> StoreView {
        StoreView { todos: self.todos@.map_values(|t: Todo| t@), next_id: self.next_id }
    }
}

/// Ids of well-formed stores are unique among currently stored todos: two
/// stored todos with the same id stand at the same index.
pub proof fn lemma_wf_ids_unique(s: StoreView, i: int, j: int)
    requires
        s.wf(),
        0 <= i < s.todos.len(),
        0 <= j < s.todos.len(),
        s.todos[i].id == s.todos[j].id,
    ensures
        i == j,
{
}

/// Under well-formedness, any index holding the given id is `idx_of`.
pub proof fn lemma_idx_of_unique(s: StoreView, id: u64, i: int)
    requires
        s.wf(),
        0 <= i < s.todos.len(),
        s.todos[i].id == id,
    ensures
        idx_of(s.todos, id) == i,
{
    let k = idx_of(s.todos, id);
    lemma_wf_ids_unique(s, i, k);
}

impl Store {
    /// An empty store; the first created todo receives id 1.
    pub fn new() -> (s: Store)
        ensures
            s@.wf(),
            s@.todos == Seq::<TodoView>::empty(),
            s@.next_id == 1,
    {
        let s = Store { todos: Vec::new(), next_id: 1 };
        proof {
            assert(s@.todos =~= Seq::<TodoView>::empty());
        }
        s
    }

    /// Whether the id counter has room for another create: false only after
    /// an unreachable number of creates.
    pub fn can_create(&self) -> (r: bool)
        ensures
            r == (self@.next_id < u64::MAX),
    {
        self.next_id < u64::MAX
    }

    /// A snapshot copy of all todos, in insertion order.
    pub fn list(&self) -> (r: Vec<Todo>)
        ensures
            r@.map_values(|t: Todo| t@) == self@.todos,
    {
        let mut r: Vec<Todo> = Vec::new();
        let n = self.todos.len();
        for k in 0..n
            invariant
                n == self.todos.len(),
                r@.len() == k,
                forall|i: int| 0 <= i < k ==> #[trigger] r@[i]@ == self.todos@[i]@,
        {
            r.push(self.todos[k].clone());
        }
        proof {
            assert(r@.map_values(|t: Todo| t@) =~= self@.todos);
        }
        r
    }

    /// Appends a new todo carrying the next id, the given title, and
    /// `completed == false`, and returns a copy of it. Never fails; an empty
    /// title is accepted as-is.
    pub fn create(&mut self, title: String) -> (t: Todo)
        requires
            old(self)@.wf(),
            old(self)@.next_id < u64::MAX,
        ensures
            final(self)@.wf(),
            t@ == (TodoView { id: old(self)@.next_id, title: title@, completed: false }),
            final(self)@.todos == old(self)@.todos.push(t@),
            final(self)@.next_id == old(self)@.next_id + 1,
    {
        let t = Todo { id: self.next_id, title, completed: false };
        let copy = t.clone();
        self.todos.push(t);
        self.next_id = self.next_id + 1;
        proof {
            assert(self@.todos =~= old(self)@.todos.push(copy@));
        }
        copy
    }

    /// Flips the completion flag of the todo with the given id and returns a
    /// copy of the updated record, or returns `None` and leaves the store
    /// unchanged when no stored todo carries that id.
    pub fn toggle(&mut self, id: u64) -> (r: Option<Todo>)
        requires
            old(self)@.wf(),
        ensures
            final(self)@.wf(),
            final(self)@.next_id == old(self)@.next_id,
            r is Some <==> contains_id(old(self)@.todos, id),
            r matches Some(t) ==> {
                let i = idx_of(old(self)@.todos, id);
                &&& t@ == (TodoView {
                    id,
                    title: old(self)@.todos[i].title,
                    completed: !old(self)@.todos[i].completed,
                })
                &&& final(self)@.todos == old(self)@.todos.update(i, t@)
            },
            r is None ==> final(self)@ == old(self)@,
    {
        let ghost pre = self@;
        let n = self.todos.len();
        let mut k: usize = 0;
        while k < n
            invariant
                n == self.todos.len(),
                k <= n,
                self@ == pre,
                pre == old(self)@,
                pre.wf(),
                forall|i: int| 0 <= i < k ==> #[trigger] pre.todos[i].id != id,
            decreases n - k,
        {
            if self.todos[k].id == id {
                let old_t = &self.todos[k];
                let t = Todo {
                    id,
                    title: old_t.title.clone(),
                    completed: !old_t.completed,
                };
                let copy = t.clone();
                self.todos.set(k, t);
                proof {
                    lemma_idx_of_unique(pre, id, k as int);
                    assert(self@.todos =~= pre.todos.update(k as int, copy@));
                }
                return Some(copy);
            }
            k = k + 1;
        }
        proof {
            assert(!contains_id(pre.todos, id));
            assert(self@ =~= pre);
        }
        None
    }

    /// Removes the todo with the given id, keeping the order of the rest, and
    /// returns whether one was found; when none carries that id the store is
    /// unchanged. Afterwards no stored todo carries the id.
    pub fn delete(&mut self, id: u64) -> (r: bool)
        requires
            old(self)@.wf(),
        ensures
            final(self)@.wf(),
            final(self)@.next_id == old(self)@.next_id,
            r == contains_id(old(self)@.todos, id),
            r ==> final(self)@.todos == old(self)@.todos.remove(idx_of(old(self)@.todos, id)),
            !r ==> final(self)@ == old(self)@,
            !contains_id(final(self)@.todos, id),
    {
        let ghost pre = self@;
        let n = self.todos.len();
        let mut k: usize = 0;
        while k < n
            invariant
                n == self.todos.len(),
                k <= n,
                self@ == pre,
                pre == old(self)@,
                pre.wf(),
                forall|i: int| 0 <= i < k ==> #[trigger] pre.todos[i].id != id,
            decreases n - k,
        {
            if self.todos[k].id == id {
                self.todos.remove(k);
                proof {
                    assert(contains_id(pre.todos, id)) by {
                        assert(pre.todos[k as int].id == id);
                    }
                    lemma_idx_of_unique(pre, id, k as int);
                    assert(self@.todos =~= pre.todos.remove(k as int));
                    assert forall|i: int| 0 <= i < self@.todos.len() implies #[trigger] self@
                        .todos[i].id != id by {
                        if self@.todos[i].id == id {
                            if i < k {
                                assert(pre.todos[i].id == id);
                                lemma_wf_ids_unique(pre, i, k as int);
                            } else {
                                assert(pre.todos[i + 1].id == id);
                                lemma_wf_ids_unique(pre, i + 1, k as int);
                            }
                        }
                    }
                }
                return true;
            }
            k = k + 1;
        }
        proof {
            assert(!contains_id(pre.todos, id));
            assert(self@ =~= pre);
        }
        false
    }
}

} // verus!
