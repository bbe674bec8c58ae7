//! The write-ahead log: records of every change, their binary encoding and
//! checksum, the header of a log file and the choice of the file to write.
pub mod bytes_reader;
pub mod wal_file;
pub mod wal_manager;
pub mod wal_record;
