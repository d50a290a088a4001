//! Domain names as ordered label sequences.
//!
//! A name is held most-specific label first (left to right as written),
//! with the root-ward labels last, so the configured zone apex is a suffix
//! of every name inside the zone.

use vstd::prelude::*;

verus! {

/// A domain name, split into its dot-separated labels, most specific first.
#[derive(Debug, PartialEq, Eq)]
pub struct DnsName {
    pub labels: Vec<String>,
}

impl View for DnsName {
    type V = Seq<Seq<char>>;

    open spec fn view(&self) -> Seq<Seq<char>> {
        self.labels.deep_view()
    }
}

impl DeepView for DnsName {
    type V = Seq<Seq<char>>;

    open spec fn deep_view(&self) -> Seq<Seq<char>> {
        self.view()
    }
}

/// `apex` is the whole of `name` or a root-ward suffix of it: `name` lies
/// at or below `apex` in the tree.
pub open spec fn spec_zone_of(apex: Seq<Seq<char>>, name: Seq<Seq<char>>) -> bool {
    name.len() >= apex.len() && name.skip(name.len() - apex.len()) == apex
}

/// Compares two string slices character by character.
pub fn str_eq(a: &str, b: &str) -> (r: bool)
    ensures
        r == (a@ == b@),
{
    let a_len = a.unicode_len();
    let b_len = b.unicode_len();
    if a_len != b_len {
        assert(a@.len() != b@.len());
        return false;
    }
    let mut i: usize = 0;
    while i < a_len
        invariant
            i <= a_len,
            a_len == a@.len(),
            b_len == b@.len(),
            a@.len() == b@.len(),
            forall|j: int| 0 <= j < i ==> a@[j] == b@[j],
        decreases a_len - i,
    {
        if a.get_char(i) != b.get_char(i) {
            return false;
        }
        i += 1;
    }
    assert(a@ =~= b@);
    true
}

impl DnsName {
    /// Builds a name from its labels, most specific first.
    pub fn new(labels: Vec<String>) -> (r: DnsName)
        ensures
            r@ == labels.deep_view(),
    {
        DnsName { labels }
    }

    /// An exact copy of the name.
    pub fn clone_name(&self) -> (r: DnsName)
        ensures
            r@ == self@,
    {
        let labels = self.labels.clone();
        assert(labels@ =~= self.labels@) by {
            assert(forall|i: int| 0 <= i < self.labels@.len() ==> labels@[i] == self.labels@[i]);
        }
        DnsName { labels }
    }

    /// Whole-name equality, label by label.
    pub fn equals(&self, other: &DnsName) -> (r: bool)
        ensures
            r == (self@ == other@),
    {
        if self.labels.len() != other.labels.len() {
            assert(self@.len() != other@.len());
            return false;
        }
        let n = self.labels.len();
        let mut i: usize = 0;
        while i < n
            invariant
                i <= n,
                n == self.labels@.len(),
                n == other.labels@.len(),
                forall|j: int| 0 <= j < i ==> self@[j] == other@[j],
            decreases n - i,
        {
            if !str_eq(self.labels[i].as_str(), other.labels[i].as_str()) {
                assert(self@[i as int] != other@[i as int]);
                return false;
            }
            i += 1;
        }
        assert(self@ =~= other@);
        true
    }

    /// `self` taken as a zone apex contains `name`: `name` equals `self`
    /// or is a strict descendant of it.
    pub fn zone_of(&self, name: &DnsName) -> (r: bool)
        ensures
            r == spec_zone_of(self@, name@),
    {
        let apex_len = self.labels.len();
        let name_len = name.labels.len();
        if name_len < apex_len {
            return false;
        }
        let offset = name_len - apex_len;
        let mut i: usize = 0;
        while i < apex_len
            invariant
                i <= apex_len,
                apex_len == self.labels@.len(),
                name_len == name.labels@.len(),
                offset == name_len - apex_len,
                forall|j: int| 0 <= j < i ==> name@[offset + j] == self@[j],
            decreases apex_len - i,
        {
            if !str_eq(name.labels[offset + i].as_str(), self.labels[i].as_str()) {
                assert(name@[offset + i] != self@[i as int]);
                assert(name@.skip(name@.len() - self@.len())[i as int] != self@[i as int]);
                return false;
            }
            i += 1;
        }
        assert(name@.skip(name@.len() - self@.len()) =~= self@);
        true
    }
}

} // verus!
