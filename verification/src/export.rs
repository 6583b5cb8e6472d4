//! Binary exports of compressed packets to a byte sink. Opening files is
//! left to the caller, which hands in the sink.

use std::io::Write;
use vstd::prelude::*;

verus! {

/// `std::io::Error`, carried through unchanged.
#[verifier::external_type_specification]
#[verifier::external_body]
pub struct ExIoError(std::io::Error);

/// Writes every byte of `bytes` to `writer` with `std::io::Write::write_all`.
/// Trusted, and nothing is claimed of the outcome: whether the write
/// succeeds depends on the sink.
#[verifier::external_body]
fn write_all_to<Wr: Write>(writer: &mut Wr, bytes: &[u8]) -> Result<(), std::io::Error> {
    writer.write_all(bytes)
}

/// Writes a binary packet to the sink.
pub fn export_binary_packet<Wr: Write>(writer: &mut Wr, packet: &[u8]) -> Result<(), std::io::Error> {
    write_all_to(writer, packet)
}

/// Writes a compressed semantic-zoning packet to the sink.
pub fn export_semantic_zoning_compressed<Wr: Write>(writer: &mut Wr, packet: &[u8]) -> Result<
    (),
    std::io::Error,
> {
    export_binary_packet(writer, packet)
}

/// Writes a compressed pruning packet to the sink.
pub fn export_pruning_packet<Wr: Write>(writer: &mut Wr, packet: &[u8]) -> Result<(), std::io::Error> {
    export_binary_packet(writer, packet)
}

/// Writes a GPU-ready buffer to the sink.
pub fn export_gpu_buffer<Wr: Write>(writer: &mut Wr, buffer: &[u8]) -> Result<(), std::io::Error> {
    export_binary_packet(writer, buffer)
}

} // verus!
