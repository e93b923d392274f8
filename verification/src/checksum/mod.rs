//! Checksum algorithms: Adler-32 (zlib) and CRC-32 (gzip).

pub mod adler32;
pub mod crc32;
pub mod tables;
