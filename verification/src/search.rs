//! Searching the node library by name.

use vstd::prelude::*;
use crate::node::{NodeCategory, NodeKind, category_nodes, kind_label};

verus! {

/// What `str::to_lowercase` returns for a text: its Unicode lower-case form.
pub uninterp spec fn lowercase_of(s: Seq<char>) -> Seq<char>;

/// `str::to_lowercase`: the Unicode lower-case form of `s`, character by
/// character. The mapping depends on `s` alone; the contract names the result
/// rather than spelling out Unicode's case tables, and states only that an
/// empty text stays empty.
#[verifier::external_body]
fn to_lowercase(s: &str) -> (r: String)
    ensures
        r@ == lowercase_of(s@),
        s@.len() == 0 ==> r@.len() == 0,
{
    s.to_lowercase()
}

/// `needle` occurs in `hay` as a run of consecutive characters.
pub open spec fn occurs_in(needle: Seq<char>, hay: Seq<char>) -> bool {
    exists|i: int| 0 <= i && i + needle.len() <= hay.len() && #[trigger] hay.subrange(i, i + needle.len()) == needle
}

/// A node library entry labelled `label_lower` (lower-cased) is shown for the
/// lower-cased search text `query_lower`: an empty search shows everything,
/// otherwise the search text must occur in the label.
pub open spec fn shown_for(label_lower: Seq<char>, query_lower: Seq<char>) -> bool {
    query_lower.len() == 0 || occurs_in(query_lower, label_lower)
}

/// Node kind `k` is listed for the search text `query`.
pub open spec fn kind_listed(k: NodeKind, query: Seq<char>) -> bool {
    shown_for(lowercase_of(kind_label(k)), lowercase_of(query))
}

/// Whether `needle` occurs in `hay`.
fn occurs(needle: &str, hay: &str) -> (r: bool)
    ensures
        r == occurs_in(needle@, hay@),
{
    let n = hay.unicode_len();
    let m = needle.unicode_len();
    if m > n {
        return false;
    }
    let mut i: usize = 0;
    while i <= n - m
        invariant
            n == hay@.len(),
            m == needle@.len(),
            m <= n,
            i <= n - m + 1,
            forall|k: int| 0 <= k < i ==> #[trigger] hay@.subrange(k, k + m) != needle@,
        decreases n + 1 - i,
    {
        let mut j: usize = 0;
        let mut same = true;
        while j < m && same
            invariant
                n == hay@.len(),
                m == needle@.len(),
                i + m <= n,
                j <= m,
                same ==> forall|k: int| 0 <= k < j ==> hay@[i + k] == needle@[k],
                !same ==> hay@[i + j - 1] != needle@[j - 1] && j >= 1,
            decreases m - j,
        {
            if hay.get_char(i + j) != needle.get_char(j) {
                same = false;
            }
            j += 1;
        }
        if same {
            assert(hay@.subrange(i as int, i + m) =~= needle@);
            return true;
        }
        assert(hay@.subrange(i as int, i + m)[j - 1] != needle@[j - 1]);
        i += 1;
    }
    false
}

/// Whether a library entry with the lower-cased label `label_lower` is shown
/// for the lower-cased search text `query_lower`.
pub fn is_shown(label_lower: &str, query_lower: &str) -> (r: bool)
    ensures
        r == shown_for(label_lower@, query_lower@),
{
    query_lower.is_empty() || occurs(query_lower, label_lower)
}

impl NodeCategory {
    /// The node kinds of this category that the node library lists for the
    /// search text `query`, in library order.
    pub fn matching_nodes(&self, query: &str) -> (r: Vec<NodeKind>)
        ensures
            r@ == category_nodes(*self).filter(|k: NodeKind| kind_listed(k, query@)),
            query@.len() == 0 ==> r@ == category_nodes(*self),
    {
        let query_lower = to_lowercase(query);
        let kinds = self.nodes();
        let mut r: Vec<NodeKind> = Vec::new();
        let mut i: usize = 0;
        while i < kinds.len()
            invariant
                i <= kinds@.len(),
                kinds@ == category_nodes(*self),
                query_lower@ == lowercase_of(query@),
                r@ == kinds@.take(i as int).filter(|k: NodeKind| kind_listed(k, query@)),
            decreases kinds@.len() - i,
        {
            proof {
                crate::seqs::lemma_filter_take_step(kinds@, |k: NodeKind| kind_listed(k, query@), i as int);
            }
            let label_lower = to_lowercase(kinds[i].label());
            if is_shown(label_lower.as_str(), query_lower.as_str()) {
                r.push(kinds[i]);
            }
            i += 1;
        }
        assert(kinds@.take(kinds@.len() as int) =~= kinds@);
        proof {
            if query@.len() == 0 {
                crate::seqs::lemma_filter_all(kinds@, |k: NodeKind| kind_listed(k, query@));
            }
        }
        r
    }
}

} // verus!
