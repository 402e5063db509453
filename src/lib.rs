//! Runtime core of a programmable input-device macro engine: a tag set, a
//! profile of keys with tagged layers, and the runners that play each macro's
//! start, loop and end sequences as time is ticked in.
use vstd::prelude::*;

pub mod profile;
pub mod state;

use profile::LayerTag;

verus! {

/// The set of active context tags, held in two buckets: the internal one,
/// owned by the engine, and the external one, supplied by the host.
pub struct TagList {
    internal: Vec<LayerTag>,
    external: Vec<LayerTag>,
}

/// Views of a list of tags, in order, with duplicates kept.
pub open spec fn tag_views(tags: Seq<LayerTag>) -> Seq<Seq<char>> {
    tags.map_values(|t: LayerTag| t@)
}

/// Whether `i` is the first position of `t` in `s`.
pub open spec fn is_first_index(s: Seq<Seq<char>>, t: Seq<char>, i: int) -> bool {
    &&& 0 <= i < s.len()
    &&& s[i] == t
    &&& forall|j: int| 0 <= j < i ==> s[j] != t
}

/// `s` with the first occurrence of `t` taken out; `s` itself when `t` is absent.
pub open spec fn without_first(s: Seq<Seq<char>>, t: Seq<char>) -> Seq<Seq<char>> {
    if exists|i: int| is_first_index(s, t, i) {
        s.remove(choose|i: int| is_first_index(s, t, i))
    } else {
        s
    }
}

/// `s` with the first occurrence of each of `ts` taken out, one after another.
pub open spec fn without_each(s: Seq<Seq<char>>, ts: Seq<Seq<char>>) -> Seq<Seq<char>>
    decreases ts.len(),
{
    if ts.len() == 0 {
        s
    } else {
        without_first(without_each(s, ts.drop_last()), ts.last())
    }
}

proof fn lemma_first_index_unique(s: Seq<Seq<char>>, t: Seq<char>, i: int, k: int)
    requires
        is_first_index(s, t, i),
        is_first_index(s, t, k),
    ensures
        i == k,
{
}

fn position_of(v: &Vec<LayerTag>, tag: &LayerTag) -> (r: Option<usize>)
    ensures
        match r {
            Some(i) => is_first_index(tag_views(v@), tag@, i as int),
            None => !tag_views(v@).contains(tag@),
        },
{
    let mut i: usize = 0;
    while i < v.len()
        invariant
            i <= v.len(),
            forall|j: int| 0 <= j < i ==> v@[j]@ != tag@,
        decreases v.len() - i,
    {
        if v[i] == *tag {
            return Some(i);
        }
        i += 1;
    }
    None
}

impl TagList {
    /// The internal bucket, in insertion order.
    pub closed spec fn internal_tags(&self) -> Seq<Seq<char>> {
        tag_views(self.internal@)
    }

    /// The external bucket, as last set.
    pub closed spec fn external_tags(&self) -> Seq<Seq<char>> {
        tag_views(self.external@)
    }

    /// Membership in the union of both buckets.
    pub open spec fn has(&self, t: Seq<char>) -> bool {
        self.internal_tags().contains(t) || self.external_tags().contains(t)
    }

    pub open spec fn has_all(&self, ts: Seq<LayerTag>) -> bool {
        forall|i: int| 0 <= i < ts.len() ==> self.has(#[trigger] ts[i]@)
    }

    pub open spec fn has_any(&self, ts: Seq<LayerTag>) -> bool {
        exists|i: int| 0 <= i < ts.len() && self.has(#[trigger] ts[i]@)
    }

    /// Every tag of an empty list is in the set; none of them is.
    pub proof fn lemma_empty_queries(&self)
        ensures
            self.has_all(Seq::empty()),
            !self.has_any(Seq::empty()),
    {
    }

    pub fn new() -> (r: Self)
        ensures
            r.internal_tags() == Seq::<Seq<char>>::empty(),
            r.external_tags() == Seq::<Seq<char>>::empty(),
    {
        let r = TagList { internal: Vec::new(), external: Vec::new() };
        assert(r.internal_tags() =~= Seq::<Seq<char>>::empty());
        assert(r.external_tags() =~= Seq::<Seq<char>>::empty());
        r
    }

    pub fn add_internal(&mut self, tag: LayerTag)
        ensures
            final(self).internal_tags() == old(self).internal_tags().push(tag@),
            final(self).external_tags() == old(self).external_tags(),
    {
        self.internal.push(tag);
        assert(self.internal_tags() =~= old(self).internal_tags().push(tag@));
    }

    pub fn add_many_internal(&mut self, tags: Vec<LayerTag>)
        ensures
            final(self).internal_tags() == old(self).internal_tags() + tag_views(tags@),
            final(self).external_tags() == old(self).external_tags(),
    {
        let ghost added = tags@;
        let mut tags = tags;
        self.internal.append(&mut tags);
        assert(self.internal_tags() =~= old(self).internal_tags() + tag_views(added));
    }

    /// Takes out the first occurrence of `tag`; does nothing when it is absent.
    pub fn remove_internal(&mut self, tag: LayerTag)
        ensures
            final(self).internal_tags() == without_first(old(self).internal_tags(), tag@),
            final(self).external_tags() == old(self).external_tags(),
    {
        self.remove_first(&tag);
    }

    fn remove_first(&mut self, tag: &LayerTag)
        ensures
            final(self).internal_tags() == without_first(old(self).internal_tags(), tag@),
            final(self).external_tags() == old(self).external_tags(),
    {
        let ghost s = self.internal_tags();
        match position_of(&self.internal, tag) {
            Some(i) => {
                self.internal.remove(i);
                proof {
                    assert forall|k: int| is_first_index(s, tag@, k) implies k == i by {
                        lemma_first_index_unique(s, tag@, i as int, k);
                    }
                    assert(self.internal_tags() =~= s.remove(i as int));
                }
            },
            None => {
                assert(!exists|i: int| is_first_index(s, tag@, i));
            },
        }
    }

    /// Takes out the first occurrence of each of `tags`, in order.
    pub fn remove_many_internal(&mut self, tags: Vec<LayerTag>)
        ensures
            final(self).internal_tags() == without_each(old(self).internal_tags(), tag_views(tags@)),
            final(self).external_tags() == old(self).external_tags(),
    {
        let ghost ts = tag_views(tags@);
        let mut i: usize = 0;
        assert(ts.subrange(0, 0).len() == 0);
        while i < tags.len()
            invariant
                i <= tags.len(),
                ts == tag_views(tags@),
                self.internal_tags() == without_each(old(self).internal_tags(), ts.subrange(0, i as int)),
                self.external_tags() == old(self).external_tags(),
            decreases tags.len() - i,
        {
            self.remove_first(&tags[i]);
            assert(ts.subrange(0, i + 1).drop_last() =~= ts.subrange(0, i as int));
            i += 1;
        }
        assert(ts.subrange(0, tags.len() as int) =~= ts);
    }

    pub fn clear_internal(&mut self)
        ensures
            final(self).internal_tags() == Seq::<Seq<char>>::empty(),
            final(self).external_tags() == old(self).external_tags(),
    {
        self.internal.clear();
        assert(self.internal_tags() =~= Seq::<Seq<char>>::empty());
    }

    /// Replaces the external bucket as a whole.
    pub fn set_external(&mut self, tags: Vec<LayerTag>)
        ensures
            final(self).internal_tags() == old(self).internal_tags(),
            final(self).external_tags() == tag_views(tags@),
    {
        self.external = tags;
    }

    fn has_tag(&self, tag: &LayerTag) -> (r: bool)
        ensures
            r == self.has(tag@),
    {
        position_of(&self.internal, tag).is_some() || position_of(&self.external, tag).is_some()
    }

    /// Whether every one of `tags` is in the set; true of an empty list.
    pub fn contains_all(&self, tags: &Vec<LayerTag>) -> (r: bool)
        ensures
            r == self.has_all(tags@),
    {
        let mut i: usize = 0;
        while i < tags.len()
            invariant
                i <= tags.len(),
                forall|j: int| 0 <= j < i ==> self.has(#[trigger] tags@[j]@),
            decreases tags.len() - i,
        {
            if !self.has_tag(&tags[i]) {
                return false;
            }
            i += 1;
        }
        true
    }

    /// Whether at least one of `tags` is in the set; false of an empty list.
    pub fn contains_any(&self, tags: &Vec<LayerTag>) -> (r: bool)
        ensures
            r == self.has_any(tags@),
    {
        let mut i: usize = 0;
        while i < tags.len()
            invariant
                i <= tags.len(),
                forall|j: int| 0 <= j < i ==> !self.has(#[trigger] tags@[j]@),
            decreases tags.len() - i,
        {
            if self.has_tag(&tags[i]) {
                return true;
            }
            i += 1;
        }
        false
    }
}

} // verus!
