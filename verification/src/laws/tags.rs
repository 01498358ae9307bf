//! Rows of tags: the last tag of a name is the one that counts, and the first that cannot be read
//! is the one that is reported.

use vstd::prelude::*;

use crate::error::Fault;
use crate::tag::{fold_tags, TagView};

verus! {

/// Whether the tag at a position is the last of a name.
pub open spec fn last_named(tags: Seq<TagView>, name: Seq<char>, i: int) -> bool {
    &&& 0 <= i < tags.len()
    &&& tags[i][0] == name
    &&& forall|j: int| i < j < tags.len() ==> (#[trigger] tags[j])[0] != name
}

/// Whether no tag has a name.
pub open spec fn none_named(tags: Seq<TagView>, name: Seq<char>) -> bool {
    forall|j: int| 0 <= j < tags.len() ==> (#[trigger] tags[j])[0] != name
}

/// A part that is set by some tags, and left alone by all others, is what the last of those tags
/// says. Without such a tag it is what it was.
pub proof fn lemma_last_counts<T, V>(
    start: T,
    tags: Seq<TagView>,
    step: spec_fn(T, TagView) -> Result<T, Fault>,
    part: spec_fn(T) -> V,
    speaks: spec_fn(TagView) -> bool,
    said: spec_fn(TagView) -> V,
    i: int,
)
    requires
        forall|value: T, tag: TagView|
            #![trigger step(value, tag)]
            step(value, tag) matches Ok(after) ==> part(after) == (if speaks(tag) {
                said(tag)
            } else {
                part(value)
            }),
    ensures
        fold_tags(start, tags, step) matches Ok(after) ==> {
            &&& 0 <= i < tags.len() && speaks(tags[i]) && (forall|j: int|
                i < j < tags.len() ==> !speaks(#[trigger] tags[j])) ==> part(after) == said(tags[i])
            &&& (forall|j: int| 0 <= j < tags.len() ==> !speaks(#[trigger] tags[j])) ==> part(after)
                == part(start)
        },
    decreases tags.len(),
{
    if tags.len() > 0 && fold_tags(start, tags, step) is Ok {
        let rest = tags.drop_last();
        lemma_last_counts(start, rest, step, part, speaks, said, i);
        let before = fold_tags(start, rest, step)->Ok_0;
        assert(step(before, tags.last()) == fold_tags(start, tags, step));
        assert(tags.last() == tags[tags.len() - 1]);
        assert forall|j: int| 0 <= j < rest.len() implies rest[j] == tags[j] by {}
        if 0 <= i < tags.len() && speaks(tags[i]) && (forall|j: int|
            i < j < tags.len() ==> !speaks(#[trigger] tags[j])) {
            if speaks(tags.last()) {
                assert(i == tags.len() - 1);
            } else {
                assert forall|j: int| i < j < rest.len() implies !speaks(#[trigger] rest[j]) by {
                    assert(!speaks(tags[j]));
                }
            }
        }
        if forall|j: int| 0 <= j < tags.len() ==> !speaks(#[trigger] tags[j]) {
            assert forall|j: int| 0 <= j < rest.len() implies !speaks(#[trigger] rest[j]) by {
                assert(!speaks(tags[j]));
            }
            assert(!speaks(tags[tags.len() - 1]));
        }
    }
}

/// A part that is set by the tags of one name, and left alone by all others, is what the last tag
/// of that name says. Without such a tag it is what it was.
pub proof fn lemma_last_named_counts<T, V>(
    start: T,
    tags: Seq<TagView>,
    step: spec_fn(T, TagView) -> Result<T, Fault>,
    part: spec_fn(T) -> V,
    name: Seq<char>,
    said: spec_fn(TagView) -> V,
    i: int,
)
    requires
        forall|value: T, tag: TagView|
            #![trigger step(value, tag)]
            step(value, tag) matches Ok(after) ==> part(after) == (if tag[0] == name {
                said(tag)
            } else {
                part(value)
            }),
    ensures
        fold_tags(start, tags, step) matches Ok(after) ==> {
            &&& last_named(tags, name, i) ==> part(after) == said(tags[i])
            &&& none_named(tags, name) ==> part(after) == part(start)
        },
{
    let speaks = |tag: TagView| tag[0] == name;
    lemma_last_counts(start, tags, step, part, speaks, said, i);
    if last_named(tags, name, i) {
        assert forall|j: int| i < j < tags.len() implies !speaks(#[trigger] tags[j]) by {}
    }
    if none_named(tags, name) {
        assert forall|j: int| 0 <= j < tags.len() implies !speaks(#[trigger] tags[j]) by {}
    }
}

/// A set to which the tags of one name add what they say, and which all others leave alone, holds
/// what it held and what some tag of that name says.
pub proof fn lemma_all_named_are_gathered<T>(
    start: T,
    tags: Seq<TagView>,
    step: spec_fn(T, TagView) -> Result<T, Fault>,
    part: spec_fn(T) -> Set<Seq<char>>,
    name: Seq<char>,
    text: Seq<char>,
)
    requires
        forall|value: T, tag: TagView|
            #![trigger step(value, tag)]
            step(value, tag) matches Ok(after) ==> part(after) == (if tag[0] == name {
                part(value).insert(tag[1])
            } else {
                part(value)
            }),
    ensures
        fold_tags(start, tags, step) matches Ok(after) ==> (part(after).contains(text) <==> (part(
            start,
        ).contains(text) || exists|j: int|
            0 <= j < tags.len() && (#[trigger] tags[j])[0] == name && tags[j][1] == text)),
    decreases tags.len(),
{
    if tags.len() > 0 && fold_tags(start, tags, step) is Ok {
        let rest = tags.drop_last();
        lemma_all_named_are_gathered(start, rest, step, part, name, text);
        let before = fold_tags(start, rest, step)->Ok_0;
        let after = fold_tags(start, tags, step)->Ok_0;
        assert(step(before, tags.last()) == fold_tags(start, tags, step));
        assert forall|j: int| 0 <= j < rest.len() implies rest[j] == tags[j] by {}
        let last = tags.len() - 1;
        assert(tags.last() == tags[last]);
        if exists|j: int|
            0 <= j < rest.len() && (#[trigger] rest[j])[0] == name && rest[j][1] == text {
            let j = choose|j: int|
                0 <= j < rest.len() && (#[trigger] rest[j])[0] == name && rest[j][1] == text;
            assert(tags[j][0] == name && tags[j][1] == text);
        }
        if exists|j: int|
            0 <= j < tags.len() && (#[trigger] tags[j])[0] == name && tags[j][1] == text {
            let j = choose|j: int|
                0 <= j < tags.len() && (#[trigger] tags[j])[0] == name && tags[j][1] == text;
            if j < last {
                assert(rest[j][0] == name && rest[j][1] == text);
            }
        }
    }
}

/// Where whether a tag can be read does not depend on the tags in front of it, a row can be read
/// exactly when each of its tags can, and the first that cannot is the one that is reported.
pub proof fn lemma_first_unreadable_is_reported<T>(
    start: T,
    tags: Seq<TagView>,
    step: spec_fn(T, TagView) -> Result<T, Fault>,
    wrong: spec_fn(TagView) -> Option<Fault>,
    i: int,
)
    requires
        forall|value: T, tag: TagView|
            #![trigger step(value, tag)]
            match step(value, tag) {
                Ok(_) => wrong(tag) is None,
                Err(fault) => wrong(tag) == Some(fault),
            },
    ensures
        (forall|j: int| 0 <= j < tags.len() ==> wrong(#[trigger] tags[j]) is None) ==> fold_tags(
            start,
            tags,
            step,
        ) is Ok,
        0 <= i < tags.len() && wrong(tags[i]) is Some && (forall|j: int|
            0 <= j < i ==> wrong(#[trigger] tags[j]) is None) ==> fold_tags(start, tags, step)
            == Err::<T, Fault>(wrong(tags[i])->0),
    decreases tags.len(),
{
    if tags.len() > 0 {
        let rest = tags.drop_last();
        lemma_first_unreadable_is_reported(start, rest, step, wrong, i);
        assert(tags.last() == tags[tags.len() - 1]);
        assert forall|j: int| 0 <= j < rest.len() implies rest[j] == tags[j] by {}
        if fold_tags(start, rest, step) is Ok {
            let before = fold_tags(start, rest, step)->Ok_0;
            assert(step(before, tags.last()) == fold_tags(start, tags, step));
        }
        if forall|j: int| 0 <= j < tags.len() ==> wrong(#[trigger] tags[j]) is None {
            assert forall|j: int| 0 <= j < rest.len() implies wrong(
                #[trigger] rest[j],
            ) is None by {
                assert(wrong(tags[j]) is None);
            }
            assert(wrong(tags[tags.len() - 1]) is None);
        }
        if 0 <= i < tags.len() && wrong(tags[i]) is Some && (forall|j: int|
            0 <= j < i ==> wrong(#[trigger] tags[j]) is None) {
            assert forall|j: int| 0 <= j < i && j < rest.len() implies wrong(
                #[trigger] rest[j],
            ) is None by {
                assert(wrong(tags[j]) is None);
            }
        }
    }
}

} // verus!
