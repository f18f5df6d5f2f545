//! A binary network-protocol toolkit: a bit-level packing engine, typed
//! serialization streams built on it, a delta code for sparse index lists, a
//! CRC-protected packet envelope, and fragmentation with windowed reassembly.
//!
//! Every function states what it does to the bit stream it works on. The
//! model of a stream is a `Seq<bool>`: the bits in the order in which they
//! travel, which is byte by byte and, within a byte, least significant bit
//! first.
//!
//! Beside the functions stand the laws that tie writing to reading, each a
//! proof function: what is written as a field, an integer of a range, a
//! byte block, a string, an object index or a list of them is read back as
//! it was; a block of bytes written at once leaves the stream that its bytes
//! written one by one leave; a packet cut into fragments comes out of the
//! reassembly buffer as it went in, in whatever order the fragments arrive;
//! and a window that has moved on far enough holds nothing of what it held.
pub mod bitpacker;
pub mod constants;
pub mod helpers;
pub mod packets;
pub mod serialization;
pub mod streams;
