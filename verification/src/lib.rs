//! Reading a game-asset archive.
//!
//! An archive holds many level files. Its header is a table of pointer
//! records, each giving the offset and size of one level file; `archive`
//! reads the table and `extract` cuts the files out. A level file is a body
//! of 32-byte cipher blocks with a 16-byte footer; `cipher`, `checksum` and
//! `footer` model its parts and `codec` decodes it, chunk by chunk or whole.
//! `hash` gives the number that names a decoded level and `naming` the file
//! names themselves. `words` holds the little-endian arithmetic that the
//! others share.
//!
//! Nothing here reads or writes files: every function takes bytes and gives
//! bytes, and says in its contract exactly which.

pub mod archive;
pub mod checksum;
pub mod cipher;
pub mod codec;
pub mod error;
pub mod extract;
pub mod footer;
pub mod hash;
pub mod naming;
pub mod words;
