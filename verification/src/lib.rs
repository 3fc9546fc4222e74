//! A static packer for ELF64 x86_64 executables.
//!
//! The library takes the bytes of an executable and returns the bytes of a
//! packed one: the executable segment is ciphered, a small deciphering stub
//! is spliced in behind it, and every header that the loader reads is
//! adjusted. It reads no file and writes none; `pack::pack` is its entry
//! point.
//!
//! - `bytes`: little-endian integers inside byte buffers.
//! - `cipher`: the byte cipher that the packer and the stub share.
//! - `elf`: the headers of an image, and how they are read and checked.
//! - `store`: how headers are written back into an image.
//! - `packer`: the stub, assembled for one executable.
//! - `rewrite`: the header rewrite that makes room for the stub.
//! - `pack`: the whole run, from image to packed file.
//! - `layout`: what a loader reads from a packed file.
pub mod bytes;
pub mod cipher;
pub mod elf;
pub mod layout;
pub mod pack;
pub mod packer;
pub mod rewrite;
pub mod store;
