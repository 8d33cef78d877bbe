// Persistence for a priority-ordered message store: message identities encoded
// as order-preserving binary keys, and a two-table layout that keeps small
// metadata records apart from payloads.
pub mod id;
pub mod record;
pub mod store;
