//! Named binary tags, as far as a sensor is stored in them.
use vstd::prelude::*;

use crate::binary64::binary32::Binary32;
use crate::binary64::Binary64;

verus! {

/// A tag.
#[derive(Debug)]
pub enum NbtTag {
    Int(i32),
    Float(Binary32),
    Double(Binary64),
    List(Vec<NbtTag>),
    Compound(NbtCompound),
    /// A tag of any other type.
    Other,
}

/// A list of named tags.
#[derive(Debug)]
pub struct NbtCompound {
    pub child_tags: Vec<(String, NbtTag)>,
}

/// The first tag of a name.
pub open spec fn first_named(tags: Seq<(String, NbtTag)>, name: Seq<char>) -> Option<NbtTag>
    decreases tags.len(),
{
    if tags.len() == 0 {
        None
    } else if tags[0].0@ == name {
        Some(tags[0].1)
    } else {
        first_named(tags.drop_first(), name)
    }
}

impl NbtTag {
    pub open spec fn as_double(self) -> Option<Binary64> {
        match self {
            NbtTag::Double(v) => Some(v),
            _ => None,
        }
    }

    pub fn extract_double(&self) -> (r: Option<Binary64>)
        ensures
            r == self.as_double(),
    {
        match self {
            NbtTag::Double(v) => Some(*v),
            _ => None,
        }
    }
}

impl NbtCompound {
    /// The tag of a name.
    pub open spec fn at(self, name: Seq<char>) -> Option<NbtTag> {
        first_named(self.child_tags@, name)
    }

    pub open spec fn int_at(self, name: Seq<char>) -> Option<i32> {
        match self.at(name) {
            Some(NbtTag::Int(v)) => Some(v),
            _ => None,
        }
    }

    pub open spec fn float_at(self, name: Seq<char>) -> Option<Binary32> {
        match self.at(name) {
            Some(NbtTag::Float(v)) => Some(v),
            _ => None,
        }
    }

    pub open spec fn list_at(self, name: Seq<char>) -> Option<Seq<NbtTag>> {
        match self.at(name) {
            Some(NbtTag::List(v)) => Some(v@),
            _ => None,
        }
    }

    pub open spec fn compound_at(self, name: Seq<char>) -> Option<NbtCompound> {
        match self.at(name) {
            Some(NbtTag::Compound(v)) => Some(v),
            _ => None,
        }
    }

    /// An empty compound.
    pub fn new() -> (r: NbtCompound)
        ensures
            r.child_tags@ == Seq::<(String, NbtTag)>::empty(),
    {
        NbtCompound { child_tags: Vec::new() }
    }

    /// The tag of a name.
    pub fn get(&self, name: &str) -> (r: Option<&NbtTag>)
        ensures
            r is Some == self.at(name@) is Some,
            r matches Some(tag) ==> *tag == self.at(name@)->0,
    {
        let key: String = name.to_owned();
        let mut i: usize = 0;
        proof {
            assert(self.child_tags@.skip(0) =~= self.child_tags@);
        }
        while i < self.child_tags.len()
            invariant
                key@ == name@,
                i <= self.child_tags@.len(),
                self.at(name@) == first_named(self.child_tags@.skip(i as int), name@),
            decreases self.child_tags@.len() - i,
        {
            if self.child_tags[i].0 == key {
                return Some(&self.child_tags[i].1);
            }
            proof {
                assert(self.child_tags@.skip(i as int).drop_first() =~= self.child_tags@.skip(
                    i + 1,
                ));
            }
            i = i + 1;
        }
        None
    }

    pub fn get_int(&self, name: &str) -> (r: Option<i32>)
        ensures
            r == self.int_at(name@),
    {
        match self.get(name) {
            Some(NbtTag::Int(v)) => Some(*v),
            _ => None,
        }
    }

    pub fn get_float(&self, name: &str) -> (r: Option<Binary32>)
        ensures
            r == self.float_at(name@),
    {
        match self.get(name) {
            Some(NbtTag::Float(v)) => Some(*v),
            _ => None,
        }
    }

    pub fn get_list(&self, name: &str) -> (r: Option<&Vec<NbtTag>>)
        ensures
            r is Some == self.list_at(name@) is Some,
            r matches Some(list) ==> list@ == self.list_at(name@)->0,
    {
        match self.get(name) {
            Some(NbtTag::List(v)) => Some(v),
            _ => None,
        }
    }

    pub fn get_compound(&self, name: &str) -> (r: Option<&NbtCompound>)
        ensures
            r is Some == self.compound_at(name@) is Some,
            r matches Some(c) ==> *c == self.compound_at(name@)->0,
    {
        match self.get(name) {
            Some(NbtTag::Compound(v)) => Some(v),
            _ => None,
        }
    }

    /// Gives a name a tag, in place of the one that it had.
    pub fn put(&mut self, name: &str, value: NbtTag)
        ensures
            final(self).at(name@) == Some(value),
            forall|other: Seq<char>|
                other != name@ ==> #[trigger] final(self).at(other) == old(self).at(other),
    {
        let key: String = name.to_owned();
        let ghost tags = self.child_tags@;
        let mut i: usize = 0;
        while i < self.child_tags.len()
            invariant
                key@ == name@,
                self.child_tags@ == tags,
                tags == old(self).child_tags@,
                i <= tags.len(),
                forall|j: int| 0 <= j < i ==> (#[trigger] tags[j]).0@ != name@,
            decreases tags.len() - i,
        {
            if self.child_tags[i].0 == key {
                self.child_tags[i] = (key, value);
                proof {
                    lemma_first_named_at(self.child_tags@, name@, i as int);
                    assert forall|other: Seq<char>| other != name@ implies #[trigger] self.at(other)
                        == first_named(tags, other) by {
                        lemma_first_named_elsewhere(tags, i as int, (key, value), other);
                    }
                }
                return;
            }
            i = i + 1;
        }
        self.child_tags.push((key, value));
        proof {
            lemma_first_named_at(self.child_tags@, name@, tags.len() as int);
            assert forall|other: Seq<char>| other != name@ implies #[trigger] self.at(other)
                == first_named(tags, other) by {
                lemma_first_named_push(tags, (key, value), other);
            }
        }
    }
}

/// The first tag of a name is where no earlier one has it.
proof fn lemma_first_named_at(tags: Seq<(String, NbtTag)>, name: Seq<char>, i: int)
    requires
        0 <= i < tags.len(),
        tags[i].0@ == name,
        forall|j: int| 0 <= j < i ==> (#[trigger] tags[j]).0@ != name,
    ensures
        first_named(tags, name) == Some(tags[i].1),
    decreases tags.len(),
{
    if i > 0 {
        lemma_first_named_at(tags.drop_first(), name, i - 1);
    }
}

/// Replacing a tag by one of the same name leaves the other names alone.
proof fn lemma_first_named_elsewhere(
    tags: Seq<(String, NbtTag)>,
    i: int,
    tag: (String, NbtTag),
    name: Seq<char>,
)
    requires
        0 <= i < tags.len(),
        tags[i].0@ == tag.0@,
        tag.0@ != name,
    ensures
        first_named(tags.update(i, tag), name) == first_named(tags, name),
    decreases tags.len(),
{
    if i > 0 {
        lemma_first_named_elsewhere(tags.drop_first(), i - 1, tag, name);
        assert(tags.update(i, tag).drop_first() =~= tags.drop_first().update(i - 1, tag));
    } else {
        assert(tags.update(0, tag).drop_first() =~= tags.drop_first());
    }
}

/// And so does a new tag at the end.
proof fn lemma_first_named_push(
    tags: Seq<(String, NbtTag)>,
    tag: (String, NbtTag),
    name: Seq<char>,
)
    requires
        tag.0@ != name,
    ensures
        first_named(tags.push(tag), name) == first_named(tags, name),
    decreases tags.len(),
{
    if tags.len() > 0 {
        lemma_first_named_push(tags.drop_first(), tag, name);
        assert(tags.push(tag).drop_first() =~= tags.drop_first().push(tag));
    } else {
        assert(tags.push(tag).drop_first() =~= tags);
    }
}

/// A name stands for the first tag that has it, and for none if no tag has it.
pub proof fn names_stand_for_their_first_tag(compound: NbtCompound, name: Seq<char>)
    ensures
        compound.at(name) is None <==> forall|i: int|
            0 <= i < compound.child_tags@.len() ==> (#[trigger] compound.child_tags@[i]).0@ != name,
        compound.at(name) matches Some(tag) ==> exists|i: int|
            0 <= i < compound.child_tags@.len() && (#[trigger] compound.child_tags@[i]).0@ == name
                && compound.child_tags@[i].1 == tag && forall|j: int|
                0 <= j < i ==> (#[trigger] compound.child_tags@[j]).0@ != name,
{
    lemma_first_named_is_first(compound.child_tags@, name);
}

proof fn lemma_first_named_is_first(tags: Seq<(String, NbtTag)>, name: Seq<char>)
    ensures
        first_named(tags, name) is None <==> forall|i: int|
            0 <= i < tags.len() ==> (#[trigger] tags[i]).0@ != name,
        first_named(tags, name) matches Some(tag) ==> exists|i: int|
            0 <= i < tags.len() && (#[trigger] tags[i]).0@ == name && tags[i].1 == tag && forall|
                j: int,
            |
                0 <= j < i ==> (#[trigger] tags[j]).0@ != name,
    decreases tags.len(),
{
    if tags.len() > 0 {
        let rest = tags.drop_first();
        lemma_first_named_is_first(rest, name);
        if tags[0].0@ != name {
            if first_named(tags, name) is None {
                assert forall|i: int| 0 <= i < tags.len() implies (#[trigger] tags[i]).0@
                    != name by {
                    if i > 0 {
                        assert(rest[i - 1] == tags[i]);
                    }
                }
            } else {
                let tag = first_named(rest, name)->0;
                let i = choose|i: int|
                    0 <= i < rest.len() && (#[trigger] rest[i]).0@ == name && rest[i].1 == tag
                        && forall|j: int| 0 <= j < i ==> (#[trigger] rest[j]).0@ != name;
                assert(tags[i + 1] == rest[i]);
                assert forall|j: int| 0 <= j < i + 1 implies (#[trigger] tags[j]).0@ != name by {
                    if j > 0 {
                        assert(rest[j - 1] == tags[j]);
                    }
                }
            }
        }
    }
}

/// A tag is read as what it is, and as nothing else.
pub proof fn tags_are_read_by_their_type(compound: NbtCompound, name: Seq<char>)
    ensures
        forall|v: i32| #[trigger]
            compound.int_at(name) == Some(v) <==> compound.at(name) == Some(NbtTag::Int(v)),
        forall|v: Binary32| #[trigger]
            compound.float_at(name) == Some(v) <==> compound.at(name) == Some(NbtTag::Float(v)),
        forall|c: NbtCompound| #[trigger]
            compound.compound_at(name) == Some(c) <==> compound.at(name) == Some(
                NbtTag::Compound(c),
            ),
        compound.list_at(name) is Some <==> (compound.at(name) is Some && compound.at(name)->0 is List),
        compound.at(name) matches Some(NbtTag::List(l)) ==> compound.list_at(name) == Some(l@),
        compound.at(name) matches Some(tag) ==> (tag matches NbtTag::Double(v) ==> tag.as_double()
            == Some(v)),
        compound.at(name) matches Some(tag) ==> (!(tag is Double) ==> tag.as_double() is None),
{
}

} // verus!
