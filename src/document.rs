//! Whole documents: compression, framing and the root.
use vstd::prelude::*;
use crate::compress::{compress, compressed, decompress, decompressed};
use crate::format::{document_fault, encode_document, parse_document, reports_read_fault, reports_write_fault};
use crate::reader::NbtReader;
use crate::types::{Compression, Endian, NbtError, NbtValue};
use crate::writer::{root_name, NbtWriter};

verus! {

/// Decodes a document held in `data` under `compression`: its root name and
/// value, exactly what the decompressed bytes decode to. A stream that does
/// not decompress gives `IoError`.
pub fn read_from_bytes(data: &[u8], compression: Compression, endian_style: Endian) -> (r: Result<
    (String, NbtValue),
    NbtError,
>)
    ensures
        match decompressed(data@, compression) {
            None => r matches Err(e) && e is IoError,
            Some(bytes) => match parse_document(bytes, 0, endian_style) {
                Ok((n, t)) => r matches Ok((name, value)) && name@ == n && value@ == t,
                Err(f) => r matches Err(e) && reports_read_fault(e, f),
            },
        },
{
    let bytes = decompress(data, compression)?;
    let mut parser = NbtReader::new(bytes.as_slice(), endian_style);
    parser.parse_data()
}

/// Encodes the document with root `value`, named `data_name` (by default
/// "Data" in the big-endian edition and "" in the little-endian one), and
/// wraps it in `compression`. A value the format cannot carry gives the error
/// of its first fault; an encoder failure gives `IoError`.
pub fn write_to_bytes(
    data_name: Option<&str>,
    value: NbtValue,
    compression: Compression,
    endian: Endian,
) -> (r: Result<Vec<u8>, NbtError>)
    ensures
        match document_fault(root_name(data_name, endian), value@, endian) {
            Some(f) => r matches Err(e) && reports_write_fault(e, f),
            None => match compressed(
                encode_document(root_name(data_name, endian), value@, endian),
                compression,
            ) {
                Some(s) => r matches Ok(b) && b@ == s,
                None => r matches Err(e) && e is IoError,
            },
        },
{
    let mut writer = NbtWriter::new(endian);
    writer.write_data(data_name, value)?;
    let bytes = writer.into_bytes();
    compress(bytes.as_slice(), compression)
}

} // verus!
