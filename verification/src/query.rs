//! Query strings: the (name, value) pairs that one holds.
use vstd::prelude::*;
use crate::text::{str_eq, str_view};

verus! {

/// The (name, value) pairs that `form_urlencoded::parse` reads from a query
/// string, in the order in which they stand there.
pub uninterp spec fn query_pairs(query: Seq<char>) -> Seq<(Seq<char>, Seq<char>)>;

/// Calls `form_urlencoded::parse` on the bytes of `query` and collects the
/// owned pairs that it yields. What the pairs are is a matter of that crate:
/// the contract only names them.
#[verifier::external_body]
pub(crate) fn parse_query(query: &str) -> (pairs: Vec<(String, String)>)
    ensures
        pairs.deep_view() == query_pairs(query@),
{
    form_urlencoded::parse(query.as_bytes()).into_owned().collect()
}

/// The value of the parameter `name`: that of the last pair with this name.
pub open spec fn param(pairs: Seq<(Seq<char>, Seq<char>)>, name: Seq<char>) -> Option<Seq<char>>
    decreases pairs.len(),
{
    if pairs.len() == 0 {
        None
    } else if pairs.last().0 == name {
        Some(pairs.last().1)
    } else {
        param(pairs.drop_last(), name)
    }
}

/// The value of the parameter `name`.
pub fn get_param<'a>(pairs: &'a Vec<(String, String)>, name: &str) -> (r: Option<&'a str>)
    ensures
        str_view(r) == param(pairs.deep_view(), name@),
{
    let ghost all = pairs.deep_view();
    let mut i: usize = pairs.len();
    assert(all.take(i as int) =~= all);
    while i > 0
        invariant
            i <= pairs.len(),
            all == pairs.deep_view(),
            param(all, name@) == param(all.take(i as int), name@),
        decreases i,
    {
        i -= 1;
        proof {
            assert(all.take(i as int + 1).drop_last() =~= all.take(i as int));
        }
        if str_eq(pairs[i].0.as_str(), name) {
            return Some(pairs[i].1.as_str());
        }
    }
    None
}

} // verus!
