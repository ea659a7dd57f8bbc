//! The request handlers: each maps one route's inputs to a store operation,
//! an HTTP status code and a JSON body, exactly as the routes promise.

use vstd::prelude::*;

use crate::json::encode_greeting;
use crate::json::encode_todo;
use crate::json::encode_todos;
use crate::json::greeting_json;
use crate::json::json_of_todo;
use crate::json::json_of_todos;
use crate::parse::parse_create;
use crate::parse::parse_create_spec;
use crate::store::Store;
use crate::store::contains_id;
use crate::store::idx_of;
use crate::todo::TodoView;

verus! {

/// An HTTP response: a status code and a body (empty for 204, 400 and 404).
pub struct Response {
    pub status: u16,
    pub body: String,
}

/// GET `/`: the greeting.
pub fn handle_root() -> (r: Response)
    ensures
        r.status == 200,
        r.body@ == greeting_json(),
{
    Response { status: 200, body: encode_greeting() }
}

/// GET `/todos`: every stored todo, in insertion order, as a JSON array.
pub fn handle_list(store: &Store) -> (r: Response)
    ensures
        r.status == 200,
        r.body@ == json_of_todos(store@.todos),
{
    let todos = store.list();
    Response { status: 200, body: encode_todos(&todos) }
}

/// POST `/todos`: when the body is a JSON object with a string `title`, a
/// new todo with the next id and `completed == false` is appended and
/// returned with 201; any other body changes nothing and yields 400.
pub fn handle_create(store: &mut Store, body: &str) -> (r: Response)
    requires
        old(store)@.wf(),
        old(store)@.next_id < u64::MAX,
    ensures
        final(store)@.wf(),
        match parse_create_spec(body@) {
            Some(title) => {
                let t = TodoView { id: old(store)@.next_id, title, completed: false };
                &&& r.status == 201
                &&& r.body@ == json_of_todo(t)
                &&& final(store)@.todos == old(store)@.todos.push(t)
                &&& final(store)@.next_id == old(store)@.next_id + 1
            },
            None => r.status == 400 && final(store)@ == old(store)@ && r.body@.len() == 0,
        },
{
    match parse_create(body) {
        Some(title) => {
            let todo = store.create(title);
            let body = encode_todo(&todo);
            Response { status: 201, body }
        },
        None => Response { status: 400, body: String::new() },
    }
}

/// PUT `/todos/{id}/toggle`: flips the completion flag of the todo with the
/// given id and returns the updated record with 200; an absent id changes
/// nothing and yields 404.
pub fn handle_toggle(store: &mut Store, id: u64) -> (r: Response)
    requires
        old(store)@.wf(),
    ensures
        final(store)@.wf(),
        final(store)@.next_id == old(store)@.next_id,
        contains_id(old(store)@.todos, id) ==> {
            let i = idx_of(old(store)@.todos, id);
            let t = TodoView {
                id,
                title: old(store)@.todos[i].title,
                completed: !old(store)@.todos[i].completed,
            };
            &&& r.status == 200
            &&& r.body@ == json_of_todo(t)
            &&& final(store)@.todos == old(store)@.todos.update(i, t)
        },
        !contains_id(old(store)@.todos, id) ==> r.status == 404 && final(store)@ == old(store)@
            && r.body@.len() == 0,
{
    match store.toggle(id) {
        Some(todo) => {
            let body = encode_todo(&todo);
            Response { status: 200, body }
        },
        None => Response { status: 404, body: String::new() },
    }
}

/// DELETE `/todos/{id}`: removes the todo with the given id and yields 204
/// with an empty body; an absent id changes nothing and yields 404. Either
/// way the id is absent afterwards.
pub fn handle_delete(store: &mut Store, id: u64) -> (r: Response)
    requires
        old(store)@.wf(),
    ensures
        final(store)@.wf(),
        final(store)@.next_id == old(store)@.next_id,
        contains_id(old(store)@.todos, id) ==> r.status == 204 && final(store)@.todos == old(
            store,
        )@.todos.remove(idx_of(old(store)@.todos, id)),
        !contains_id(old(store)@.todos, id) ==> r.status == 404 && final(store)@ == old(store)@,
        r.body@.len() == 0,
        !contains_id(final(store)@.todos, id),
{
    if store.delete(id) {
        Response { status: 204, body: String::new() }
    } else {
        Response { status: 404, body: String::new() }
    }
}

} // verus!
