//! Tags of an audio file, and the merge of two tag sources.
//!
//! A file may carry tags at two places: at the level of the stream, read
//! before the container is parsed, and inside the container. For each of
//! title, artist and album the stream's value wins; the container's is
//! taken only where the stream has none.

use vstd::prelude::*;
use crate::text::text_of;

verus! {

/// The standard meaning of a tag, as far as a record uses it.
#[derive(Debug, Clone, Copy, PartialEq, Eq, Structural)]
pub enum TagKey {
    /// The title of the track.
    TrackTitle,
    /// The artist.
    Artist,
    /// The album.
    Album,
    /// Any other meaning, or none that is standard.
    Other,
}

/// One tag of a file.
#[derive(Debug, Clone, PartialEq, Eq)]
pub struct Tag {
    /// The standard meaning of the tag.
    pub key: TagKey,
    /// Its value as text.
    pub value: String,
}

/// Whether some tag of `tags` has the key `key`.
pub open spec fn has_key(tags: Seq<Tag>, key: TagKey) -> bool {
    exists|i: int| 0 <= i < tags.len() && (#[trigger] tags[i]).key == key
}

/// The value of the last tag with the key `key`.
pub open spec fn last_value(tags: Seq<Tag>, key: TagKey) -> Option<Seq<char>>
    decreases tags.len(),
{
    if tags.len() == 0 {
        None
    } else if tags.last().key == key {
        Some(tags.last().value@)
    } else {
        last_value(tags.drop_last(), key)
    }
}

/// The value of the first tag with the key `key`.
pub open spec fn first_value(tags: Seq<Tag>, key: TagKey) -> Option<Seq<char>>
    decreases tags.len(),
{
    if tags.len() == 0 {
        None
    } else if tags[0].key == key {
        Some(tags[0].value@)
    } else {
        first_value(tags.drop_first(), key)
    }
}

/// The value that a record takes for `key`: the stream's last, else the
/// container's first.
pub open spec fn merged_value(stream: Seq<Tag>, container: Seq<Tag>, key: TagKey) -> Option<
    Seq<char>,
> {
    match last_value(stream, key) {
        Some(value) => Some(value),
        None => first_value(container, key),
    }
}

/// The value of the last tag of `tags` with the key `key`.
pub fn last_tagged(tags: &Vec<Tag>, key: TagKey) -> (r: Option<String>)
    ensures
        text_of(r) == last_value(tags@, key),
{
    let mut i: usize = tags.len();
    assert(tags@.take(i as int) =~= tags@);
    while i > 0
        invariant
            i <= tags.len(),
            last_value(tags@, key) == last_value(tags@.take(i as int), key),
        decreases i,
    {
        let ghost here = tags@.take(i as int);
        assert(here.drop_last() =~= tags@.take(i - 1));
        assert(here.last() == tags@[i - 1]);
        i -= 1;
        if tags[i].key == key {
            return Some(tags[i].value.clone());
        }
    }
    assert(tags@.take(0).len() == 0);
    None
}

/// The value of the first tag of `tags` with the key `key`.
pub fn first_tagged(tags: &Vec<Tag>, key: TagKey) -> (r: Option<String>)
    ensures
        text_of(r) == first_value(tags@, key),
{
    let mut i: usize = 0;
    assert(tags@.skip(0) =~= tags@);
    while i < tags.len()
        invariant
            i <= tags.len(),
            first_value(tags@, key) == first_value(tags@.skip(i as int), key),
        decreases tags.len() - i,
    {
        let ghost here = tags@.skip(i as int);
        assert(here.drop_first() =~= tags@.skip(i + 1));
        assert(here[0] == tags@[i as int]);
        if tags[i].key == key {
            return Some(tags[i].value.clone());
        }
        i += 1;
    }
    assert(tags@.skip(i as int).len() == 0);
    None
}

/// The value that a record takes for `key` from the two tag sources.
pub fn merge_tag(stream: &Vec<Tag>, container: &Vec<Tag>, key: TagKey) -> (r: Option<String>)
    ensures
        text_of(r) == merged_value(stream@, container@, key),
{
    match last_tagged(stream, key) {
        Some(value) => Some(value),
        None => first_tagged(container, key),
    }
}

/// `last_value` is present exactly when a tag has the key, and is then the
/// value of the tag with that key that no other such tag follows.
pub proof fn lemma_last_value(tags: Seq<Tag>, key: TagKey)
    ensures
        last_value(tags, key) is Some <==> has_key(tags, key),
        has_key(tags, key) ==> exists|i: int|
            {
                &&& 0 <= i < tags.len()
                &&& (#[trigger] tags[i]).key == key
                &&& last_value(tags, key) == Some(tags[i].value@)
                &&& forall|j: int| i < j < tags.len() ==> (#[trigger] tags[j]).key != key
            },
    decreases tags.len(),
{
    if tags.len() > 0 {
        let front = tags.drop_last();
        let n = tags.len() - 1;
        lemma_last_value(front, key);
        if tags.last().key == key {
            assert(tags[n].key == key);
        } else if has_key(tags, key) {
            let w = choose|i: int| 0 <= i < tags.len() && (#[trigger] tags[i]).key == key;
            assert(front[w].key == key);
            let i = choose|i: int|
                {
                    &&& 0 <= i < front.len()
                    &&& (#[trigger] front[i]).key == key
                    &&& last_value(front, key) == Some(front[i].value@)
                    &&& forall|j: int| i < j < front.len() ==> (#[trigger] front[j]).key != key
                };
            assert(tags[i] == front[i]);
            assert forall|j: int| i < j < tags.len() implies (#[trigger] tags[j]).key != key by {
                if j < n {
                    assert(front[j] == tags[j]);
                }
            }
        } else if has_key(front, key) {
            let w = choose|i: int| 0 <= i < front.len() && (#[trigger] front[i]).key == key;
            assert(tags[w] == front[w]);
        }
    }
}

/// `first_value` is present exactly when a tag has the key, and is then the
/// value of the tag with that key that no other such tag precedes.
pub proof fn lemma_first_value(tags: Seq<Tag>, key: TagKey)
    ensures
        first_value(tags, key) is Some <==> has_key(tags, key),
        has_key(tags, key) ==> exists|i: int|
            {
                &&& 0 <= i < tags.len()
                &&& (#[trigger] tags[i]).key == key
                &&& first_value(tags, key) == Some(tags[i].value@)
                &&& forall|j: int| 0 <= j < i ==> (#[trigger] tags[j]).key != key
            },
    decreases tags.len(),
{
    if tags.len() > 0 {
        let rest = tags.drop_first();
        lemma_first_value(rest, key);
        if tags[0].key == key {
        } else if has_key(tags, key) {
            let w = choose|i: int| 0 <= i < tags.len() && (#[trigger] tags[i]).key == key;
            assert(rest[w - 1].key == key);
            let i = choose|i: int|
                {
                    &&& 0 <= i < rest.len()
                    &&& (#[trigger] rest[i]).key == key
                    &&& first_value(rest, key) == Some(rest[i].value@)
                    &&& forall|j: int| 0 <= j < i ==> (#[trigger] rest[j]).key != key
                };
            assert(tags[i + 1] == rest[i]);
            assert forall|j: int| 0 <= j < i + 1 implies (#[trigger] tags[j]).key != key by {
                if j > 0 {
                    assert(rest[j - 1] == tags[j]);
                }
            }
        } else if has_key(rest, key) {
            let w = choose|i: int| 0 <= i < rest.len() && (#[trigger] rest[i]).key == key;
            assert(tags[w + 1] == rest[w]);
        }
    }
}

/// The stream's value wins: where the stream has a tag with the key, the
/// merged value is the stream's; where it has none, it is the container's;
/// where neither has one, it is absent.
pub proof fn lemma_merge_precedence(stream: Seq<Tag>, container: Seq<Tag>, key: TagKey)
    ensures
        has_key(stream, key) ==> merged_value(stream, container, key) is Some && merged_value(
            stream,
            container,
            key,
        ) == last_value(stream, key),
        !has_key(stream, key) ==> merged_value(stream, container, key) == first_value(
            container,
            key,
        ),
        !has_key(stream, key) && !has_key(container, key) ==> merged_value(stream, container, key)
            is None,
        !has_key(stream, key) && has_key(container, key) ==> merged_value(stream, container, key)
            is Some,
{
    lemma_last_value(stream, key);
    lemma_first_value(container, key);
}

} // verus!
