//! Relays the posts of one channel to a changing set of subscribed chats.
//!
//! `settings` keeps the recipients, `message_sender` collects the posts of an
//! album until it has been quiet for a while, `fanout` plans one forward call per
//! recipient and keeps track of how each ended, and `handler` turns commands and
//! inbound posts into work for the other three.
pub mod fanout;
pub mod handler;
pub mod message_sender;
pub mod settings;
