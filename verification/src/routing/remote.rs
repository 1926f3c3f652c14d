//! Remote rule-sets: what is used of a download and what of the copy that was kept.
use crate::encoding;
use crate::text;
use vstd::prelude::*;

verus! {

/// The largest rule-set that is taken, in bytes.
pub const SET_LIMIT: usize = 0x400_0000;

/// The bytes of a rule-set.
#[derive(Debug, PartialEq, Eq)]
pub enum SetBytes {
    /// They were downloaded, and are kept for later.
    Fresh(Vec<u8>),
    /// They were kept from before.
    Stale(Vec<u8>),
}

/// Why a rule-set is not to be had.
#[derive(Clone, Copy, Debug, PartialEq, Eq, Structural)]
pub enum SetBytesError {
    TooLarge,
    /// Neither a download nor a copy that was kept.
    Unavailable,
}

/// What is used of a rule-set: the download where there is one, and else the copy
/// that was kept. A download that is too large is used in no case.
pub fn choose_set_bytes(fetched: Option<Vec<u8>>, kept: Option<Vec<u8>>) -> (r: Result<
    SetBytes,
    SetBytesError,
>)
    ensures
        match fetched {
            Some(data) => if data@.len() > SET_LIMIT {
                r == Err::<SetBytes, SetBytesError>(SetBytesError::TooLarge)
            } else {
                r == Ok::<SetBytes, SetBytesError>(SetBytes::Fresh(data))
            },
            None => match kept {
                Some(data) => r == Ok::<SetBytes, SetBytesError>(SetBytes::Stale(data)),
                None => r == Err::<SetBytes, SetBytesError>(SetBytesError::Unavailable),
            },
        },
{
    match fetched {
        Some(data) => {
            if data.len() > SET_LIMIT {
                Err(SetBytesError::TooLarge)
            } else {
                Ok(SetBytes::Fresh(data))
            }
        },
        None => match kept {
            Some(data) => Ok(SetBytes::Stale(data)),
            None => Err(SetBytesError::Unavailable),
        },
    }
}

/// The tag of the copy that was kept, as its file holds it: without the space around
/// it, and none where nothing is left.
pub open spec fn kept_tag_text(b: Seq<u8>) -> Option<Seq<char>> {
    let tag = text::trim_space(text::lossy(b));
    if tag.len() == 0 {
        None
    } else {
        Some(tag)
    }
}

/// The tag of the copy that was kept, as its file holds it.
pub fn kept_tag(b: &[u8]) -> (r: Option<String>)
    ensures
        text::opt_text(r) == kept_tag_text(b@),
{
    let all = text::lossy_text(b);
    let tag = text::trim_text(all.as_str());
    if text::to_chars(tag.as_str()).len() == 0 {
        None
    } else {
        Some(tag)
    }
}

/// What becomes of a download that was asked for with the tag of the copy.
#[derive(Debug)]
pub struct Refreshed {
    /// What is used.
    pub data: Option<Vec<u8>>,
    /// Whether it is written over the copy.
    pub write_copy: bool,
    /// The tag that is written beside the copy.
    pub write_tag: Option<String>,
}

/// What becomes of a download: the copy stays in use where it is still the same, and
/// is written over where it is not.
pub fn refresh_copy(
    body: Vec<u8>,
    tag: Option<String>,
    not_modified: bool,
    kept: Option<Vec<u8>>,
) -> (r: Refreshed)
    ensures
        r.write_copy == !not_modified,
        encoding::opt_bytes(r.data) == (if not_modified {
            encoding::opt_bytes(kept)
        } else {
            Some(body@)
        }),
        text::opt_text(r.write_tag) == (if not_modified {
            None
        } else {
            text::opt_text(tag)
        }),
{
    if not_modified {
        Refreshed { data: kept, write_copy: false, write_tag: None }
    } else {
        Refreshed { data: Some(body), write_copy: true, write_tag: tag }
    }
}

} // verus!
