use vstd::prelude::*;
use vstd::utf8::{decode_utf8, valid_utf8};

use crate::bytes::{bytes_window, le32_at, read_u32_le, trim_nuls, trim_trailing_nuls};
use crate::error::StoreError;

verus! {

/// The file-level header: flags, sizes, the root page index of each named
/// chain, and the path the container was originally built from. The fields
/// sit at scattered fixed offsets inside the first page; the bytes between
/// them are not modelled.
#[derive(Debug, Clone, PartialEq, Eq)]
pub struct Header {
    pub flags: u32,
    pub header_size: u32,
    pub block_size: u32,
    pub block0_size: u32,
    pub original_path: String,
    pub property_index: u32,
    pub category_index: u32,
    pub item_kind_index: u32,
    pub user_tags_index: u32,
}

/// The mathematical image of a decoded header.
pub struct HeaderV {
    pub flags: u32,
    pub header_size: u32,
    pub block_size: u32,
    pub block0_size: u32,
    pub original_path: Seq<char>,
    pub property_index: u32,
    pub category_index: u32,
    pub item_kind_index: u32,
    pub user_tags_index: u32,
}

impl View for Header {
    type V = HeaderV;

    open spec fn view(&self) -> HeaderV {
        HeaderV {
            flags: self.flags,
            header_size: self.header_size,
            block_size: self.block_size,
            block0_size: self.block0_size,
            original_path: self.original_path@,
            property_index: self.property_index,
            category_index: self.category_index,
            item_kind_index: self.item_kind_index,
            user_tags_index: self.user_tags_index,
        }
    }
}

/// The 256-byte window at offset 0x144 that holds the original path,
/// truncated where the file ends first.
pub open spec fn spec_path_window(data: Seq<u8>) -> Seq<u8> {
    if data.len() <= 324 {
        Seq::empty()
    } else if data.len() < 580 {
        data.subrange(324, data.len() as int)
    } else {
        data.subrange(324, 580)
    }
}

/// Whether the first four bytes are the file's magic number.
pub open spec fn spec_magic_ok(data: Seq<u8>) -> bool {
    data[0] == 0x38 && data[1] == 0x74 && data[2] == 0x73 && data[3] == 0x64
}

/// What decoding the header yields. The magic number is checked before any
/// other field is touched; then the fixed-offset fields are read, and the
/// path window is decoded as text and stripped of its NUL padding.
pub open spec fn spec_header(data: Seq<u8>) -> Result<HeaderV, StoreError> {
    if data.len() < 4 {
        Err(StoreError::UnexpectedEof)
    } else if !spec_magic_ok(data) {
        Err(StoreError::InvalidFormat)
    } else if data.len() < 56 {
        Err(StoreError::UnexpectedEof)
    } else if !valid_utf8(spec_path_window(data)) {
        Err(StoreError::InvalidText)
    } else {
        Ok(
            HeaderV {
                flags: le32_at(data, 4),
                header_size: le32_at(data, 36),
                block0_size: le32_at(data, 40),
                block_size: le32_at(data, 44),
                original_path: trim_nuls(decode_utf8(spec_path_window(data))),
                property_index: le32_at(data, 48),
                category_index: le32_at(data, 52),
                item_kind_index: le32_at(data, 4),
                user_tags_index: le32_at(data, 8),
            },
        )
    }
}

impl Header {
    /// Decodes the file header from the start of the input.
    pub fn read_from(data: &[u8]) -> (r: Result<Header, StoreError>)
        ensures
            match r {
                Ok(h) => spec_header(data@) == Ok::<HeaderV, StoreError>(h@),
                Err(e) => spec_header(data@) == Err::<HeaderV, StoreError>(e),
            },
    {
        if data.len() < 4 {
            return Err(StoreError::UnexpectedEof);
        }
        if !(data[0] == 0x38 && data[1] == 0x74 && data[2] == 0x73 && data[3] == 0x64) {
            return Err(StoreError::InvalidFormat);
        }
        if data.len() < 56 {
            return Err(StoreError::UnexpectedEof);
        }
        let flags = match read_u32_le(data, 4) {
            Ok(v) => v,
            Err(e) => {
                return Err(e);
            },
        };
        let header_size = match read_u32_le(data, 36) {
            Ok(v) => v,
            Err(e) => {
                return Err(e);
            },
        };
        let block0_size = match read_u32_le(data, 40) {
            Ok(v) => v,
            Err(e) => {
                return Err(e);
            },
        };
        let block_size = match read_u32_le(data, 44) {
            Ok(v) => v,
            Err(e) => {
                return Err(e);
            },
        };
        let property_index = match read_u32_le(data, 48) {
            Ok(v) => v,
            Err(e) => {
                return Err(e);
            },
        };
        let category_index = match read_u32_le(data, 52) {
            Ok(v) => v,
            Err(e) => {
                return Err(e);
            },
        };
        let item_kind_index = flags;
        let user_tags_index = match read_u32_le(data, 8) {
            Ok(v) => v,
            Err(e) => {
                return Err(e);
            },
        };
        let window = bytes_window(data, 324, 580);
        let path_text = match crate::bytes::utf8_to_string(window.as_slice()) {
            Some(s) => s,
            None => {
                return Err(StoreError::InvalidText);
            },
        };
        let original_path = trim_trailing_nuls(path_text.as_str());
        Ok(
            Header {
                flags,
                header_size,
                block_size,
                block0_size,
                original_path,
                property_index,
                category_index,
                item_kind_index,
                user_tags_index,
            },
        )
    }
}

} // verus!
