//! ZeroStore's layout: content ids (SHA-256 in hexadecimal), where an
//! object lives under the store (`objects/<first two id chars>/<id>`), the
//! temporary file it is written through, the lines of the manifest log, and
//! whether fetched bytes still match their id. Paths are given as the
//! components that are joined onto the store's base path.

use vstd::prelude::*;
use vstd::utf8::{encode_utf8, decode_utf8, is_char_boundary, is_ascii_chars};
use crate::digest::{sha256, lower_hex, sha256_digest, hex_encode, lemma_lower_hex_shape};
use crate::text::{decimal, push_decimal};

verus! {

/// The content id of `data`: its SHA-256 digest in lower-case hexadecimal.
pub open spec fn cid_of(data: Seq<u8>) -> Seq<char> {
    lower_hex(sha256(data))
}

/// The shard directory of an id: its first two bytes.
pub open spec fn shard_of(cid: Seq<char>) -> Seq<char> {
    decode_utf8(encode_utf8(cid).subrange(0, 2))
}

/// Why fetched bytes were refused.
pub enum StoreError {
    /// The stored bytes no longer match their id.
    Corrupted,
}

/// In an ASCII text every byte index up to its length is a character boundary.
pub proof fn lemma_ascii_boundary(chars: Seq<char>, index: int)
    requires
        is_ascii_chars(chars),
        0 <= index <= chars.len(),
    ensures
        is_char_boundary(encode_utf8(chars), index),
{
    let bytes = encode_utf8(chars);
    vstd::utf8::encode_utf8_valid_utf8(chars);
    vstd::utf8::is_ascii_chars_encode_utf8(chars);
    if index == bytes.len() {
        vstd::utf8::is_char_boundary_start_end_of_seq(bytes);
    } else {
        assert(chars[index] as u8 == bytes[index]);
        assert(vstd::utf8::is_leading_byte_width_1(bytes[index]));
        vstd::utf8::is_char_boundary_iff_is_leading_byte(bytes, index);
    }
}

/// The store: a base directory with `objects/` and `manifest.log` in it.
pub struct ZeroStore {
    base_path: String,
}

/// The views of a list of path components.
pub open spec fn parts_view(v: Seq<String>) -> Seq<Seq<char>> {
    v.map_values(|s: String| s@)
}

impl ZeroStore {
    pub closed spec fn base(&self) -> Seq<char> {
        self.base_path@
    }

    /// Components of the objects directory.
    pub open spec fn objects_dir(&self) -> Seq<Seq<char>> {
        seq![self.base(), "objects"@]
    }

    /// The store rooted at `path`. Only the layout is set here; creating
    /// its objects directory is left to the caller.
    pub fn new(path: &str) -> (s: Self)
        ensures
            s.base() == path@,
    {
        ZeroStore { base_path: String::from_str(path) }
    }

    /// Components of the objects directory.
    pub fn objects_path(&self) -> (r: Vec<String>)
        ensures
            parts_view(r@) == self.objects_dir(),
    {
        let mut r = Vec::new();
        r.push(self.base_path.clone());
        r.push(String::from_str("objects"));
        assert(parts_view(r@) =~= self.objects_dir());
        r
    }

    /// Components of the manifest log.
    pub fn manifest_path(&self) -> (r: Vec<String>)
        ensures
            parts_view(r@) == seq![self.base(), "manifest.log"@],
    {
        let mut r = Vec::new();
        r.push(self.base_path.clone());
        r.push(String::from_str("manifest.log"));
        assert(parts_view(r@) =~= seq![self.base(), "manifest.log"@]);
        r
    }

    /// The content id of `data`: 64 lower-case hexadecimal characters, so
    /// that its first two bytes name a shard.
    pub fn calculate_cid(data: &[u8]) -> (r: String)
        ensures
            r@ == cid_of(data@),
            r@.len() == 64,
            is_ascii_chars(r@),
            is_char_boundary(encode_utf8(r@), 2),
    {
        let digest = sha256_digest(data);
        let r = hex_encode(&digest);
        proof {
            lemma_lower_hex_shape(digest@);
            lemma_ascii_boundary(r@, 2);
        }
        r
    }

    /// The shard directory and the file an object with id `cid` is kept in.
    pub fn get_paths(&self, cid: &str) -> (r: (Vec<String>, Vec<String>))
        requires
            is_char_boundary(encode_utf8(cid@), 2),
        ensures
            parts_view(r.0@) == self.objects_dir().push(shard_of(cid@)),
            parts_view(r.1@) == self.objects_dir().push(shard_of(cid@)).push(cid@),
    {
        proof {
            vstd::utf8::encode_utf8_valid_utf8(cid@);
        }
        let (shard, _) = cid.split_at(2);
        proof {
            vstd::utf8::encode_utf8_decode_utf8(shard@);
        }
        let mut dir = self.objects_path();
        dir.push(String::from_str(shard));
        let mut file = self.objects_path();
        file.push(String::from_str(shard));
        file.push(String::from_str(cid));
        assert(parts_view(dir@) =~= self.objects_dir().push(shard_of(cid@)));
        assert(parts_view(file@) =~= self.objects_dir().push(shard_of(cid@)).push(cid@));
        (dir, file)
    }

    /// The temporary file an object with id `cid` is written through before
    /// it is moved into place.
    pub fn temp_path(&self, cid: &str) -> (r: Vec<String>)
        ensures
            parts_view(r@) == self.objects_dir().push("temp_"@ + cid@ + ".tmp"@),
    {
        let mut name = String::from_str("temp_");
        name.append(cid);
        name.append(".tmp");
        let mut r = self.objects_path();
        r.push(name);
        assert(parts_view(r@) =~= self.objects_dir().push("temp_"@ + cid@ + ".tmp"@));
        r
    }
}

/// A manifest line: `[time] ACTION id (Size: nb)` and a newline.
pub open spec fn manifest_line(timestamp: Seq<char>, action: Seq<char>, cid: Seq<char>, size: nat) -> Seq<char> {
    "["@ + timestamp + "] "@ + action + " "@ + cid + " (Size: "@ + decimal(size) + "b)\n"@
}

/// The manifest line recording `action` on `cid` of `size` bytes at `timestamp`.
pub fn manifest_entry(timestamp: &str, action: &str, cid: &str, size: usize) -> (r: String)
    ensures
        r@ == manifest_line(timestamp@, action@, cid@, size as nat),
{
    let mut r = String::from_str("[");
    r.append(timestamp);
    r.append("] ");
    r.append(action);
    r.append(" ");
    r.append(cid);
    r.append(" (Size: ");
    push_decimal(&mut r, size as u64);
    r.append("b)\n");
    assert(r@ =~= manifest_line(timestamp@, action@, cid@, size as nat));
    r
}

/// The manifest's word for a store: `DUP` when the object was already there,
/// `PUT` when it was written.
pub fn manifest_action(already_stored: bool) -> (r: String)
    ensures
        r@ == if already_stored { "DUP"@ } else { "PUT"@ },
{
    if already_stored {
        String::from_str("DUP")
    } else {
        String::from_str("PUT")
    }
}

/// Bytes read back for `cid` are accepted exactly when they still hash to
/// `cid`.
pub fn check_fetched(cid: &str, data: &[u8]) -> (r: Result<(), StoreError>)
    ensures
        r is Ok <==> cid_of(data@) == cid@,
{
    let calculated = ZeroStore::calculate_cid(data);
    let expected = String::from_str(cid);
    if calculated == expected {
        Ok(())
    } else {
        Err(StoreError::Corrupted)
    }
}

} // verus!
