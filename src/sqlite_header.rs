//! The 100-byte database file header.
use crate::parsing_error::ParsingError;
use crate::reader::{be_u16_at, be_u32_at, get_u16, get_u32, get_u8, offset_range};
use vstd::prelude::*;

verus! {

/// The magic string "SQLite format 3" followed by a NUL byte.
pub open spec fn sqlite_magic() -> Seq<u8> {
    seq![0x53u8, 0x51, 0x4c, 0x69, 0x74, 0x65, 0x20, 0x66, 0x6f, 0x72, 0x6d, 0x61, 0x74, 0x20, 0x33, 0x00]
}

/// The fields of the database file header.
#[derive(Debug)]
pub struct SqliteHeader {
    pub page_size: u16,
    pub file_format_write_version: u8,
    pub file_format_read_version: u8,
    pub reserved_space: u8,
    pub max_payload_fraction: u8,
    pub min_payload_fraction: u8,
    pub leaf_payload_fraction: u8,
    pub file_change_counter: u32,
    pub database_size_in_pages: u32,
    pub first_freelist_trunk_page: u32,
    pub total_freelist_pages: u32,
    pub schema_cookie: u32,
    pub schema_format_number: u32,
    pub default_page_cache_size: u32,
    pub largest_root_btree_page_number: u32,
    pub text_encoding: u32,
    pub user_version: u32,
    pub incremental_vacuum_mode: u32,
    pub application_id: u32,
    pub reserved_for_expansion: Vec<u8>,
    pub version_valid_for_number: u32,
    pub sqlite_version_number: u32,
}

/// Whether `b` starts with a complete file header: 100 bytes that begin with the magic string.
pub open spec fn header_bytes_ok(b: Seq<u8>) -> bool {
    b.len() >= 100 && b.subrange(0, 16) == sqlite_magic()
}

impl SqliteHeader {
    /// Every field holds the big-endian value at its place in `b`.
    pub open spec fn decoded_from(&self, b: Seq<u8>) -> bool {
        &&& self.page_size == be_u16_at(b, 16)
        &&& self.file_format_write_version == b[18]
        &&& self.file_format_read_version == b[19]
        &&& self.reserved_space == b[20]
        &&& self.max_payload_fraction == b[21]
        &&& self.min_payload_fraction == b[22]
        &&& self.leaf_payload_fraction == b[23]
        &&& self.file_change_counter == be_u32_at(b, 24)
        &&& self.database_size_in_pages == be_u32_at(b, 28)
        &&& self.first_freelist_trunk_page == be_u32_at(b, 32)
        &&& self.total_freelist_pages == be_u32_at(b, 36)
        &&& self.schema_cookie == be_u32_at(b, 40)
        &&& self.schema_format_number == be_u32_at(b, 44)
        &&& self.default_page_cache_size == be_u32_at(b, 48)
        &&& self.largest_root_btree_page_number == be_u32_at(b, 52)
        &&& self.text_encoding == be_u32_at(b, 56)
        &&& self.user_version == be_u32_at(b, 60)
        &&& self.incremental_vacuum_mode == be_u32_at(b, 64)
        &&& self.application_id == be_u32_at(b, 68)
        &&& self.reserved_for_expansion@ == b.subrange(72, 92)
        &&& self.version_valid_for_number == be_u32_at(b, 92)
        &&& self.sqlite_version_number == be_u32_at(b, 96)
    }

    /// Decodes the file header at the start of `buffer`. A buffer shorter than
    /// 100 bytes is `SliceConversionError`; one without the magic string is
    /// `InvalidHeaderString`.
    pub fn from_bytes(buffer: &[u8]) -> (r: Result<Self, ParsingError>)
        ensures
            buffer@.len() < 100 ==> r == Err::<Self, ParsingError>(ParsingError::SliceConversionError),
            buffer@.len() >= 100 && !header_bytes_ok(buffer@) ==> r == Err::<Self, ParsingError>(
                ParsingError::InvalidHeaderString,
            ),
            header_bytes_ok(buffer@) ==> r is Ok && r->Ok_0.decoded_from(buffer@),
    {
        if buffer.len() < 100 {
            return Err(ParsingError::SliceConversionError);
        }
        let magic: [u8; 16] = [
            0x53u8, 0x51, 0x4c, 0x69, 0x74, 0x65, 0x20, 0x66, 0x6f, 0x72, 0x6d, 0x61, 0x74, 0x20,
            0x33, 0x00,
        ];
        assert(magic@ == sqlite_magic());
        let mut i: usize = 0;
        while i < 16
            invariant
                i <= 16,
                buffer@.len() >= 100,
                magic@ == sqlite_magic(),
                forall|j: int| 0 <= j < i ==> buffer@[j] == sqlite_magic()[j],
            decreases 16 - i,
        {
            if buffer[i] != magic[i] {
                return Err(ParsingError::InvalidHeaderString);
            }
            i = i + 1;
        }
        assert(buffer@.subrange(0, 16) == sqlite_magic());
        let mut offset: usize = 16;
        let page_size = get_u16(&mut offset, buffer)?;
        let file_format_write_version = get_u8(&mut offset, buffer)?;
        let file_format_read_version = get_u8(&mut offset, buffer)?;
        let reserved_space = get_u8(&mut offset, buffer)?;
        let max_payload_fraction = get_u8(&mut offset, buffer)?;
        let min_payload_fraction = get_u8(&mut offset, buffer)?;
        let leaf_payload_fraction = get_u8(&mut offset, buffer)?;
        let file_change_counter = get_u32(&mut offset, buffer)?;
        let database_size_in_pages = get_u32(&mut offset, buffer)?;
        let first_freelist_trunk_page = get_u32(&mut offset, buffer)?;
        let total_freelist_pages = get_u32(&mut offset, buffer)?;
        let schema_cookie = get_u32(&mut offset, buffer)?;
        let schema_format_number = get_u32(&mut offset, buffer)?;
        let default_page_cache_size = get_u32(&mut offset, buffer)?;
        let largest_root_btree_page_number = get_u32(&mut offset, buffer)?;
        let text_encoding = get_u32(&mut offset, buffer)?;
        let user_version = get_u32(&mut offset, buffer)?;
        let incremental_vacuum_mode = get_u32(&mut offset, buffer)?;
        let application_id = get_u32(&mut offset, buffer)?;
        let reserved = offset_range(buffer, &mut offset, 20)?;
        let mut reserved_for_expansion: Vec<u8> = Vec::new();
        let mut k: usize = 0;
        while k < reserved.len()
            invariant
                k <= reserved@.len(),
                reserved_for_expansion@ == reserved@.subrange(0, k as int),
            decreases reserved@.len() - k,
        {
            reserved_for_expansion.push(reserved[k]);
            k = k + 1;
        }
        assert(reserved_for_expansion@ == reserved@);
        let version_valid_for_number = get_u32(&mut offset, buffer)?;
        let sqlite_version_number = get_u32(&mut offset, buffer)?;
        Ok(
            SqliteHeader {
                page_size,
                file_format_write_version,
                file_format_read_version,
                reserved_space,
                max_payload_fraction,
                min_payload_fraction,
                leaf_payload_fraction,
                file_change_counter,
                database_size_in_pages,
                first_freelist_trunk_page,
                total_freelist_pages,
                schema_cookie,
                schema_format_number,
                default_page_cache_size,
                largest_root_btree_page_number,
                text_encoding,
                user_version,
                incremental_vacuum_mode,
                application_id,
                reserved_for_expansion,
                version_valid_for_number,
                sqlite_version_number,
            },
        )
    }
}

} // verus!
