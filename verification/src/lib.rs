pub mod client;
pub mod clock;
pub mod commands;
pub mod config;
pub mod connection;
pub mod persistence;
pub mod protocol;
pub mod pubsub;
pub mod queues;
pub mod seqs;
pub mod server;
pub mod session;
pub mod store;
pub mod strutil;
