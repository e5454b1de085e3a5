//! Tag maps of OpenStreetMap objects, and the filter that selects ways by
//! their tags.

use crate::model::Way;
use osmpbfreader::Tags;
use vstd::prelude::*;

verus! {

/// `osmpbfreader::Tags`, a map from keys to values, both strings. What is in
/// it is known through [`tags_map`] alone.
#[verifier::external_type_specification]
#[verifier::external_body]
pub struct ExTags(Tags);

/// The key/value pairs that a tag map holds, each key once.
pub uninterp spec fn tags_map(tags: Tags) -> Map<Seq<char>, Seq<char>>;

/// `Clone::clone` of `osmpbfreader::Tags`: the copy holds the same pairs.
pub assume_specification[ <Tags as Clone>::clone ](tags: &Tags) -> (copy: Tags)
    ensures
        tags_map(copy) == tags_map(*tags),
;

/// `flat_map::FlatMap::contains_key`, which `osmpbfreader::Tags` derefs to:
/// whether the tag map has an entry under `key`.
#[verifier::external_body]
pub(crate) fn tags_contains_key(tags: &Tags, key: &str) -> (found: bool)
    ensures
        found == tags_map(*tags).contains_key(key@),
{
    tags.contains_key(key)
}

/// Decides from a way's tags whether the way takes part in the graph.
#[derive(Debug, Clone, PartialEq, Eq)]
pub enum Filter {
    /// Every way takes part.
    AcceptAll,
    /// Only ways that carry a tag with this key take part.
    HasKey(String),
}

impl Filter {
    /// Whether a way with these tags takes part.
    pub open spec fn accepts(self, tags: Tags) -> bool {
        match self {
            Filter::AcceptAll => true,
            Filter::HasKey(key) => tags_map(tags).contains_key(key@),
        }
    }

    /// The filter that keeps the ways tagged `highway`.
    pub fn highway() -> (filter: Filter)
        ensures
            filter matches Filter::HasKey(key) && key@ == "highway"@,
    {
        Filter::HasKey("highway".to_string())
    }

    /// Evaluates the filter on a tag map.
    pub fn matches(&self, tags: &Tags) -> (res: bool)
        ensures
            res == self.accepts(*tags),
    {
        match self {
            Filter::AcceptAll => true,
            Filter::HasKey(key) => tags_contains_key(tags, key.as_str()),
        }
    }
}

/// Whether a way is tagged `highway`, whatever the value of the tag.
pub fn is_highway(way: &Way) -> (res: bool)
    ensures
        res == tags_map(way.tags).contains_key("highway"@),
{
    tags_contains_key(&way.tags, "highway")
}

} // verus!
