//! A section of a file with tags and values.
use vstd::prelude::*;
use crate::apt::{entry, find_entry};

verus! {

/// A section of a tag file.
#[derive(Debug)]
pub struct TagSection {
    pub fields: Vec<(String, String)>,
}

impl TagSection {
    /// The value of a tag.
    pub open spec fn tag(self, key: Seq<char>) -> Option<Seq<char>> {
        entry(self.fields@, key)
    }

    /// The value of a tag.
    pub fn get(&self, key: &str) -> (r: Option<&String>)
        ensures
            match r {
                Some(s) => self.tag(key@) == Some(s@),
                None => self.tag(key@) is None,
            },
    {
        find_entry(&self.fields, key)
    }

    /// The value of a tag, or the default.
    pub fn get_default<'a>(&'a self, key: &str, default: &'a str) -> (r: &'a str)
        ensures
            r@ == match self.tag(key@) {
                Some(s) => s,
                None => default@,
            },
    {
        match self.get(key) {
            Some(s) => s.as_str(),
            None => default,
        }
    }
}

/// A tag gives the value of its first field, or else the default.
pub proof fn law_first_field_counts<'a>(
    section: &'a TagSection,
    key: &str,
    default: &'a str,
    r: &'a str,
    i: int,
)
    requires
        call_ensures(TagSection::get_default, (section, key, default), r),
    ensures
        0 <= i < section.fields@.len() && section.fields@[i].0@ == key@ && (forall|j: int|
            0 <= j < i ==> (#[trigger] section.fields@[j]).0@ != key@) ==> r@
            == section.fields@[i].1@,
        (forall|j: int|
            0 <= j < section.fields@.len() ==> (#[trigger] section.fields@[j]).0@ != key@) ==> r@
            == default@,
{
    crate::apt::law_entry_is_the_first(section.fields@, key@);
}

} // verus!
