//! The event model the announcement parsers consume.
//!
//! A relay event is its kind number and its raw tag list. A tag is the list
//! of its strings: the first string names the tag, the rest are its values.
//! A tag with no strings at all never matches any name.

use vstd::prelude::*;

verus! {

/// One tag of a relay event: its raw strings.
#[derive(Clone, Debug)]
pub struct EventTag {
    pub items: Vec<String>,
}

/// A relay event, reduced to what announcement parsing reads.
#[derive(Clone, Debug)]
pub struct RelayEvent {
    pub kind: u16,
    pub tags: Vec<EventTag>,
}

/// Whether the tag is named `name`.
pub open spec fn tag_matches(t: EventTag, name: Seq<char>) -> bool {
    t.items@.len() >= 1 && t.items@[0]@ == name
}

/// The first value of a tag (the string after its name), if any.
pub open spec fn spec_tag_content(t: EventTag) -> Option<Seq<char>> {
    if t.items@.len() >= 2 {
        Some(t.items@[1]@)
    } else {
        None
    }
}

/// The last value of a tag, if it has any value at all.
pub open spec fn spec_tag_last_value(t: EventTag) -> Option<Seq<char>> {
    if t.items@.len() >= 2 {
        Some(t.items@[t.items@.len() - 1]@)
    } else {
        None
    }
}

/// The first tag named `name`, if any.
pub open spec fn spec_find_tag(tags: Seq<EventTag>, name: Seq<char>) -> Option<EventTag>
    decreases tags.len(),
{
    if tags.len() == 0 {
        None
    } else if tag_matches(tags[0], name) {
        Some(tags[0])
    } else {
        spec_find_tag(tags.skip(1), name)
    }
}

/// The last values of all tags named `name` that carry a value, in order.
pub open spec fn spec_tag_values(tags: Seq<EventTag>, name: Seq<char>) -> Seq<Seq<char>>
    decreases tags.len(),
{
    if tags.len() == 0 {
        Seq::empty()
    } else {
        spec_tag_values(tags.drop_last(), name) + (if tag_matches(tags.last(), name)
            && spec_tag_last_value(tags.last()) is Some {
            seq![spec_tag_last_value(tags.last()).unwrap()]
        } else {
            Seq::empty()
        })
    }
}

impl EventTag {
    /// Whether the tag is named `name`.
    pub fn has_name(&self, name: &String) -> (r: bool)
        ensures
            r == tag_matches(*self, name@),
    {
        self.items.len() >= 1 && self.items[0] == *name
    }

    /// The tag's first value, as a mandatory field is read.
    pub fn content(&self) -> (r: Option<&String>)
        ensures
            match r {
                Some(s) => spec_tag_content(*self) == Some(s@),
                None => spec_tag_content(*self) is None,
            },
    {
        if self.items.len() >= 2 {
            Some(&self.items[1])
        } else {
            None
        }
    }

    /// The tag's last value, as a trailing list field is read.
    pub fn last_value(&self) -> (r: Option<&String>)
        ensures
            match r {
                Some(s) => spec_tag_last_value(*self) == Some(s@),
                None => spec_tag_last_value(*self) is None,
            },
    {
        if self.items.len() >= 2 {
            Some(&self.items[self.items.len() - 1])
        } else {
            None
        }
    }
}

/// The first tag of `tags` named `name`, if any.
pub fn find_tag<'a>(tags: &'a Vec<EventTag>, name: &String) -> (r: Option<&'a EventTag>)
    ensures
        match r {
            Some(t) => spec_find_tag(tags@, name@) == Some(*t),
            None => spec_find_tag(tags@, name@) is None,
        },
{
    let mut i: usize = 0;
    proof {
        assert(tags@.skip(0) =~= tags@);
    }
    while i < tags.len()
        invariant
            i <= tags@.len(),
            spec_find_tag(tags@.skip(i as int), name@) == spec_find_tag(tags@, name@),
        decreases tags@.len() - i,
    {
        proof {
            assert(tags@.skip(i as int)[0] == tags@[i as int]);
            assert(tags@.skip(i as int).skip(1) =~= tags@.skip(i + 1));
        }
        if tags[i].has_name(name) {
            return Some(&tags[i]);
        }
        i = i + 1;
    }
    proof {
        assert(tags@.skip(i as int) =~= Seq::<EventTag>::empty());
    }
    None
}

/// The last values of all tags of `tags` named `name` that carry a value,
/// in order of appearance.
pub fn tag_values(tags: &Vec<EventTag>, name: &String) -> (r: Vec<String>)
    ensures
        r.deep_view() == spec_tag_values(tags@, name@),
{
    let mut out: Vec<String> = Vec::new();
    let mut i: usize = 0;
    while i < tags.len()
        invariant
            i <= tags@.len(),
            out.deep_view() =~~= spec_tag_values(tags@.take(i as int), name@),
        decreases tags@.len() - i,
    {
        proof {
            assert(tags@.take(i + 1).drop_last() =~= tags@.take(i as int));
            assert(tags@.take(i + 1).last() == tags@[i as int]);
        }
        let t = &tags[i];
        if t.has_name(name) {
            match t.last_value() {
                Some(s) => {
                    let ghost old_dv = out.deep_view();
                    out.push(s.clone());
                    proof {
                        assert(out.deep_view() =~~= old_dv + seq![s@]);
                    }
                },
                None => {},
            }
        }
        i = i + 1;
    }
    proof {
        assert(tags@.take(tags@.len() as int) =~= tags@);
    }
    out
}

} // verus!
