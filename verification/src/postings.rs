use vstd::prelude::*;

verus! {

/// A hash map of `hashbrown` from elements to lists of record positions.
#[verifier::external_body]
pub struct PostingLists {
    lists: hashbrown::HashMap<u32, Vec<u32>>,
}

/// A hash set of `hashbrown` of record positions.
#[verifier::external_body]
pub struct Positions {
    set: hashbrown::HashSet<u32>,
}

/// What the posting lists hold: the list stored under each key.
pub uninterp spec fn postings(lists: PostingLists) -> Map<u32, Seq<u32>>;

/// What the set of positions holds.
pub uninterp spec fn positions(set: Positions) -> Set<u32>;

/// The list under `elem`, empty where the map has none.
pub open spec fn list_at(lists: Map<u32, Seq<u32>>, elem: u32) -> Seq<u32> {
    if lists.dom().contains(elem) {
        lists[elem]
    } else {
        Seq::empty()
    }
}

/// `HashMap::new` of `hashbrown`: a map without entries.
#[verifier::external_body]
pub(crate) fn postings_new() -> (lists: PostingLists)
    ensures
        postings(lists).dom() == Set::<u32>::empty(),
{
    PostingLists { lists: hashbrown::HashMap::new() }
}

/// `HashMap::insert` of `hashbrown`: afterwards `list` stands under
/// `elem`, in place of what stood there; the other entries stay.
#[verifier::external_body]
pub(crate) fn postings_insert(lists: &mut PostingLists, elem: u32, list: Vec<u32>)
    ensures
        postings(*final(lists)) == postings(*old(lists)).insert(elem, list@),
{
    lists.lists.insert(elem, list);
}

/// `HashMap::remove` of `hashbrown`: takes out the entry under `elem` and
/// hands back its list, if there was one; the other entries stay.
#[verifier::external_body]
pub(crate) fn postings_remove(lists: &mut PostingLists, elem: u32) -> (list: Option<Vec<u32>>)
    ensures
        postings(*final(lists)) == postings(*old(lists)).remove(elem),
        list is Some <==> postings(*old(lists)).dom().contains(elem),
        list matches Some(l) ==> l@ == postings(*old(lists))[elem],
{
    lists.lists.remove(&elem)
}

/// `HashMap::get` of `hashbrown`: the list under `elem`, if there is one.
#[verifier::external_body]
pub(crate) fn postings_get(lists: &PostingLists, elem: u32) -> (list: Option<&Vec<u32>>)
    ensures
        list is Some <==> postings(*lists).dom().contains(elem),
        list matches Some(l) ==> l@ == postings(*lists)[elem],
{
    lists.lists.get(&elem)
}

/// `HashSet::new` of `hashbrown`: a set without members.
#[verifier::external_body]
pub(crate) fn positions_new() -> (set: Positions)
    ensures
        positions(set) == Set::<u32>::empty(),
{
    Positions { set: hashbrown::HashSet::new() }
}

/// `HashSet::insert` of `hashbrown`: afterwards `position` is a member;
/// the answer is whether it was none before.
#[verifier::external_body]
pub(crate) fn positions_insert(set: &mut Positions, position: u32) -> (fresh: bool)
    ensures
        positions(*final(set)) == positions(*old(set)).insert(position),
        fresh == !positions(*old(set)).contains(position),
{
    set.set.insert(position)
}

} // verus!
