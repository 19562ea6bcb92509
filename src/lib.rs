//! Servers for a set of small network protocols, chiefly a speed-enforcement
//! service: cameras report plate sightings, and dispatchers receive tickets for
//! vehicles whose average speed between two sightings exceeds the limit, at most
//! one per plate and day. The library holds the wire codec, the per-connection
//! role state machine, the violation engine and the other protocols' rules; the
//! sockets and tasks around them live in the program.
pub mod arith;
pub mod chat;
pub mod codec;
pub mod connection;
pub mod kv;
pub mod message;
pub mod prices;
pub mod primetime;
pub mod proxy;
pub mod ticketmaster;
