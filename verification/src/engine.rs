//! The interface of a storage engine, and the tag that records which engine
//! last used a working directory.
use vstd::prelude::*;
use vstd::utf8::{encode_utf8, valid_utf8};

use crate::error::{KvStoreError, Result};

verus! {

/// A key-value storage engine.
pub trait KvsEngine {
    /// Whether the engine's methods are stated over `model`. An engine that
    /// states nothing keeps this default, and its methods promise nothing.
    open spec fn obeys_model() -> bool {
        false
    }

    /// What the engine holds: the UTF-8 bytes of each key, mapped to those of
    /// its value.
    open spec fn model(&self) -> Map<Seq<u8>, Seq<u8>> {
        Map::empty()
    }

    /// Whether `e` is an error that the engine's own failure gives (a failure
    /// of its storage, say), as opposed to an answer about the data. An
    /// engine that states nothing keeps this default.
    open spec fn engine_failure(e: KvStoreError) -> bool {
        true
    }

    /// Sets `key` to `value`, whatever the engine held for it before; it
    /// fails only with a failure of the engine.
    fn set(&mut self, key: String, value: String) -> (result: Result<()>)
        ensures
            Self::obeys_model() ==> (result matches Err(e) ==> Self::engine_failure(e)),
            Self::obeys_model() && result is Ok ==> final(self).model() == old(
                self,
            ).model().insert(encode_utf8(key@), encode_utf8(value@)),
    ;

    /// The value of `key`, if the engine holds it; it fails only with a
    /// failure of the engine, or with `Utf8` when the value held is not
    /// UTF-8.
    fn get(&mut self, key: String) -> (result: Result<Option<String>>)
        ensures
            Self::obeys_model() ==> (result matches Err(e) ==> Self::engine_failure(e) || (e
                == KvStoreError::Utf8 && old(self).model().contains_key(encode_utf8(key@))
                && !valid_utf8(old(self).model()[encode_utf8(key@)]))),
            Self::obeys_model() ==> (result matches Ok(v) ==> final(self).model() == old(
                self,
            ).model() && match v {
                Some(s) => old(self).model().contains_key(encode_utf8(key@))
                    && old(self).model()[encode_utf8(key@)] == encode_utf8(s@),
                None => !old(self).model().contains_key(encode_utf8(key@)),
            }),
    ;

    /// Removes `key`; fails with `KeyNotFound` when the engine does not hold
    /// it, and otherwise only with a failure of the engine.
    fn remove(&mut self, key: String) -> (result: Result<()>)
        ensures
            Self::obeys_model() ==> (result matches Err(e) ==> Self::engine_failure(e) || (e
                == KvStoreError::KeyNotFound && !old(self).model().contains_key(
                encode_utf8(key@),
            ))),
            Self::obeys_model() && result is Ok ==> old(self).model().contains_key(
                encode_utf8(key@),
            ) && final(self).model() == old(self).model().remove(encode_utf8(key@)),
            Self::obeys_model() && !old(self).model().contains_key(encode_utf8(key@))
                ==> result is Err,
    ;
}

/// The name of the file in the working directory that holds the engine tag.
pub open spec fn engine_tag_file_name() -> Seq<char> {
    seq!['e', 'n', 'g', 'i', 'n', 'e', '.', 't', 'a', 'g']
}

/// The tag of the `kvs` engine: `kvss`.
pub open spec fn kvs_tag() -> Seq<u8> {
    seq![107u8, 118u8, 115u8, 115u8]
}

/// The tag of the `sled` engine: `sled`.
pub open spec fn sled_tag() -> Seq<u8> {
    seq![115u8, 108u8, 101u8, 100u8]
}

/// What the tag file says of an engine about to use the directory.
pub enum TagCheck {
    /// The file is empty: no engine used the directory; the tag is to be
    /// written.
    Fresh,
    /// The file starts with the engine's tag.
    Matches,
    /// Another engine used the directory.
    Mismatch,
}

/// The verdict on a tag file holding `content` for the engine whose tag is
/// `tag`: fresh when empty, a match when its first four bytes are the tag,
/// a mismatch otherwise.
pub open spec fn tag_check(content: Seq<u8>, tag: Seq<u8>) -> TagCheck {
    if content.len() == 0 {
        TagCheck::Fresh
    } else if content.len() >= 4 && content.subrange(0, 4) == tag {
        TagCheck::Matches
    } else {
        TagCheck::Mismatch
    }
}

/// Checks the tag file's `content` against the engine tag `tag` (four bytes).
pub fn check_engine_tag(content: &[u8], tag: &[u8]) -> (verdict: TagCheck)
    requires
        tag@.len() == 4,
    ensures
        verdict == tag_check(content@, tag@),
{
    if content.len() == 0 {
        return TagCheck::Fresh;
    }
    if content.len() < 4 {
        return TagCheck::Mismatch;
    }
    let mut i: usize = 0;
    while i < 4
        invariant
            content@.len() >= 4,
            tag@.len() == 4,
            i <= 4,
            forall|j: int| 0 <= j < i ==> content@[j] == tag@[j],
        decreases 4 - i,
    {
        if content[i] != tag[i] {
            assert(content@.subrange(0, 4)[i as int] != tag@[i as int]);
            return TagCheck::Mismatch;
        }
        i = i + 1;
    }
    assert(content@.subrange(0, 4) =~= tag@);
    TagCheck::Matches
}

/// The tag of the `kvs` engine.
pub fn kvs_engine_tag() -> (tag: Vec<u8>)
    ensures
        tag@ == kvs_tag(),
{
    let tag = vec![107u8, 118u8, 115u8, 115u8];
    assert(tag@ =~= kvs_tag());
    tag
}

/// The tag of the `sled` engine.
pub fn sled_engine_tag() -> (tag: Vec<u8>)
    ensures
        tag@ == sled_tag(),
{
    let tag = vec![115u8, 108u8, 101u8, 100u8];
    assert(tag@ =~= sled_tag());
    tag
}

/// Joins a relative path `name` to the directory `dir`, as `Path::join`
/// does on Unix: `name` alone when `dir` is empty, no separator added when
/// `dir` already ends with one.
pub open spec fn join_path(dir: Seq<char>, name: Seq<char>) -> Seq<char> {
    if dir.len() == 0 {
        name
    } else if dir.last() == '/' {
        dir + name
    } else {
        dir + seq!['/'] + name
    }
}

/// `dir` joined with the relative path `name`.
pub fn join(dir: &String, name: &String) -> (path: String)
    ensures
        path@ == join_path(dir@, name@),
{
    let n = dir.as_str().unicode_len();
    let mut path = dir.clone();
    if n > 0 && dir.as_str().get_char(n - 1) != '/' {
        crate::decimal::push_char(&mut path, '/');
    }
    path.append(name.as_str());
    path
}

/// The name of the engine tag file.
pub fn engine_tag_file() -> (name: String)
    ensures
        name@ == engine_tag_file_name(),
{
    let mut name = String::new();
    crate::decimal::push_char(&mut name, 'e');
    crate::decimal::push_char(&mut name, 'n');
    crate::decimal::push_char(&mut name, 'g');
    crate::decimal::push_char(&mut name, 'i');
    crate::decimal::push_char(&mut name, 'n');
    crate::decimal::push_char(&mut name, 'e');
    crate::decimal::push_char(&mut name, '.');
    crate::decimal::push_char(&mut name, 't');
    crate::decimal::push_char(&mut name, 'a');
    crate::decimal::push_char(&mut name, 'g');
    assert(name@ =~= engine_tag_file_name());
    name
}

} // verus!
