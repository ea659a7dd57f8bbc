//! An in-memory todo list with verified store operations, a verified JSON
//! codec for its wire format, and verified request handlers.

mod decode;
mod http;
mod json;
mod laws;
mod parse;
mod store;
mod strings;
mod todo;

pub use decode::decode_todo;
pub use decode::decode_todo_spec;
pub use decode::lemma_todo_round_trip;
pub use decode::lemma_unescape_escape;
pub use http::Response;
pub use http::handle_create;
pub use http::handle_delete;
pub use http::handle_list;
pub use http::handle_root;
pub use http::handle_toggle;
pub use json::encode_greeting;
pub use json::encode_todo;
pub use json::encode_todos;
pub use json::escape_string;
pub use json::greeting_json;
pub use json::json_of_todo;
pub use json::json_of_todos;
pub use json::lemma_json_of_todos_empty;
pub use laws::create_step;
pub use laws::lemma_creates_yield_sequential_ids;
pub use laws::lemma_deleted_id_stays_absent;
pub use laws::lemma_toggle_twice_restores;
pub use laws::run_creates;
pub use parse::parse_create;
pub use parse::parse_create_spec;
pub use parse::parse_string_body;
pub use store::Store;
pub use store::StoreView;
pub use store::contains_id;
pub use store::idx_of;
pub use todo::Todo;
pub use todo::TodoView;
