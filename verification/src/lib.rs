//! A small in-memory key-value server core: a binary frame codec with
//! incremental buffering, a command decoder, and a sharded store reached by a
//! pure routing function, plus a line-oriented cache protocol sharing the
//! same store design. Alongside it live several smaller verified components:
//! decorated bakery items, an employee report, kanban containers, a rover
//! simulator, a round-robin upstream picker, a counting game, and the
//! bit-path tables of a compression tree.
pub mod backend;
pub mod balancer;
pub mod buffer;
pub mod command;
pub mod command_parser;
pub mod connection;
pub mod cupcake;
pub mod decimal;
pub mod employeereport;
pub mod error;
pub mod fizzbuzz;
pub mod frame;
pub mod kanban;
pub mod memcached;
pub mod rover;
pub mod zip;
