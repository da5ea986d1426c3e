//! The registry: every protocol by id, and the inheritance graph between them.

use vstd::prelude::*;
use crate::field::{opt_string_eq, opt_view, FieldRule, FieldRuleView};
use crate::protocol::{
    distinct_ids, fits, length_of, rules_view, unique_ids, well_formed, widths_fit, Endianness,
    Protocol, ProtocolError, ProtocolLength, ProtocolView,
};

verus! {

/// The position of the last protocol with the given id, or -1.
pub open spec fn index_of(s: Seq<ProtocolView>, id: Seq<char>) -> int
    decreases s.len(),
{
    if s.len() == 0 {
        -1
    } else if s.last().id == id {
        s.len() - 1
    } else {
        index_of(s.drop_last(), id)
    }
}

pub open spec fn contains_id(s: Seq<ProtocolView>, id: Seq<char>) -> bool {
    index_of(s, id) >= 0
}

pub open spec fn unique_protocol_ids(s: Seq<ProtocolView>) -> bool {
    forall|i: int, j: int| 0 <= i < s.len() && 0 <= j < s.len() && i != j ==> s[i].id != s[j].id
}

/// Every parent named is present, before the protocol that names it.
pub open spec fn parents_earlier(s: Seq<ProtocolView>) -> bool {
    forall|k: int|
        0 <= k < s.len() && (#[trigger] s[k].parent_id) is Some ==> exists|j: int|
            0 <= j < k && s[j].id == s[k].parent_id->Some_0
}

/// Each protocol is well formed.
#[verifier::opaque]
pub open spec fn all_well_formed(s: Seq<ProtocolView>) -> bool {
    forall|k: int| 0 <= k < s.len() ==> well_formed(#[trigger] s[k])
}

/// Distinct ids, parents before children, and each protocol well formed.
pub open spec fn registry_wf(s: Seq<ProtocolView>) -> bool {
    &&& unique_protocol_ids(s)
    &&& parents_earlier(s)
    &&& all_well_formed(s)
}

/// The positions of the inheritance chain of the protocol at `k`, root first: its
/// parent's chain, then `k`. The walk stops where a parent cannot be found.
pub open spec fn chain_from(s: Seq<ProtocolView>, k: int) -> Seq<int>
    decreases k,
{
    if !(0 <= k < s.len()) {
        Seq::empty()
    } else {
        match s[k].parent_id {
            Some(pid) => {
                let j = index_of(s, pid);
                if 0 <= j < k {
                    chain_from(s, j).push(k)
                } else {
                    seq![k]
                }
            },
            None => seq![k],
        }
    }
}

/// The inheritance chain of the protocol with the given id, root first.
pub open spec fn inheritance_chain(s: Seq<ProtocolView>, id: Seq<char>) -> Seq<int> {
    chain_from(s, index_of(s, id))
}

/// The combined length of the protocols at the positions `c`, root first: fixed
/// lengths add up, and the first variable one ends the sum with its prefix.
pub open spec fn chain_layout(s: Seq<ProtocolView>, c: Seq<int>) -> (bool, int)
    decreases c.len(),
{
    if c.len() == 0 {
        (false, 0)
    } else {
        let prev = chain_layout(s, c.drop_last());
        if prev.0 {
            prev
        } else {
            match s[c.last()].length {
                ProtocolLength::Fixed(b) => (false, prev.1 + b),
                ProtocolLength::Variable(b) => (true, prev.1 + b),
            }
        }
    }
}

/// The length of a protocol with all its ancestors.
pub open spec fn total_length(s: Seq<ProtocolView>, id: Seq<char>) -> ProtocolLength {
    let l = chain_layout(s, inheritance_chain(s, id));
    if l.0 {
        ProtocolLength::Variable(l.1 as u32)
    } else {
        ProtocolLength::Fixed(l.1 as u32)
    }
}

/// The fields of the protocols at the positions `c`, in that order.
pub open spec fn resolved(s: Seq<ProtocolView>, c: Seq<int>) -> Seq<FieldRuleView>
    decreases c.len(),
{
    if c.len() == 0 {
        Seq::empty()
    } else {
        resolved(s, c.drop_last()) + s[c.last()].fields
    }
}

proof fn lemma_index_of(s: Seq<ProtocolView>, id: Seq<char>)
    ensures
        -1 <= index_of(s, id) < s.len(),
        index_of(s, id) >= 0 ==> s[index_of(s, id)].id == id,
        index_of(s, id) < 0 ==> forall|i: int| 0 <= i < s.len() ==> s[i].id != id,
    decreases s.len(),
{
    if s.len() > 0 {
        lemma_index_of(s.drop_last(), id);
        if s.last().id != id {
            assert forall|i: int| 0 <= i < s.len() - 1 implies s[i] == s.drop_last()[i] by {}
        }
    }
}

proof fn lemma_index_of_unique(s: Seq<ProtocolView>, i: int)
    requires
        unique_protocol_ids(s),
        0 <= i < s.len(),
    ensures
        index_of(s, s[i].id) == i,
{
    lemma_index_of(s, s[i].id);
}

proof fn lemma_chain_bounds(s: Seq<ProtocolView>, k: int)
    ensures
        forall|i: int| 0 <= i < chain_from(s, k).len() ==> 0 <= #[trigger] chain_from(s, k)[i] < s.len(),
        0 <= k < s.len() ==> chain_from(s, k).len() > 0 && chain_from(s, k).last() == k,
    decreases k,
{
    if 0 <= k < s.len() {
        match s[k].parent_id {
            Some(pid) => {
                let j = index_of(s, pid);
                if 0 <= j < k {
                    lemma_chain_bounds(s, j);
                }
            },
            None => {},
        }
    }
}

pub open spec fn as_ints(v: Seq<usize>) -> Seq<int> {
    v.map_values(|i: usize| i as int)
}

proof fn lemma_chain_layout_variable(s: Seq<ProtocolView>, c: Seq<int>, i: int)
    requires
        0 <= i <= c.len(),
        chain_layout(s, c.subrange(0, i)).0,
    ensures
        chain_layout(s, c) == chain_layout(s, c.subrange(0, i)),
    decreases c.len() - i,
{
    if i < c.len() {
        assert(c.subrange(0, i + 1).drop_last() =~= c.subrange(0, i));
        lemma_chain_layout_variable(s, c, i + 1);
    } else {
        assert(c.subrange(0, i) =~= c);
    }
}

proof fn lemma_chain_layout_mono(s: Seq<ProtocolView>, c: Seq<int>, i: int)
    requires
        0 <= i <= c.len(),
    ensures
        0 <= chain_layout(s, c.subrange(0, i)).1 <= chain_layout(s, c).1,
    decreases c.len() - i,
{
    lemma_chain_layout_nonneg(s, c.subrange(0, i));
    if i < c.len() {
        assert(c.subrange(0, i + 1).drop_last() =~= c.subrange(0, i));
        lemma_chain_layout_mono(s, c, i + 1);
    } else {
        assert(c.subrange(0, i) =~= c);
    }
}

proof fn lemma_chain_layout_nonneg(s: Seq<ProtocolView>, c: Seq<int>)
    ensures
        chain_layout(s, c).1 >= 0,
    decreases c.len(),
{
    if c.len() > 0 {
        lemma_chain_layout_nonneg(s, c.drop_last());
    }
}

/// Whether the protocol at `k` is the one at `root` or descends from it.
pub open spec fn in_subtree(s: Seq<ProtocolView>, k: int, root: int) -> bool {
    chain_from(s, k).contains(root)
}

/// The protocols that stay when the one with id `root_id` is removed with all
/// its descendants.
pub open spec fn survives(s: Seq<ProtocolView>, root_id: Seq<char>, p: ProtocolView) -> bool {
    !in_subtree(s, index_of(s, p.id), index_of(s, root_id))
}

/// A protocol after the id `old_id` became `new_id`: its own id if it was that
/// one, and its parent reference if it named it.
pub open spec fn renamed(p: ProtocolView, old_id: Seq<char>, new_id: Seq<char>) -> ProtocolView {
    ProtocolView {
        id: if p.id == old_id { new_id } else { p.id },
        parent_id: if p.parent_id == Some(old_id) { Some(new_id) } else { p.parent_id },
        ..p
    }
}

/// What `edit_protocol` answers when `p` was edited into `edited`, the edit
/// having returned `res`.
pub open spec fn edit_protocol_result(
    p: ProtocolView,
    res: Result<(), String>,
    edited: ProtocolView,
) -> Result<(), ProtocolError> {
    match res {
        Err(e) => Err(ProtocolError::MutatorFailed(e)),
        Ok(_) => if edited.id != p.id {
            Err(ProtocolError::ProtocolIdImmutableHere)
        } else if edited.parent_id != p.parent_id {
            Err(ProtocolError::ParentImmutable)
        } else if !unique_ids(edited.fields) {
            Err(ProtocolError::InvalidFields)
        } else if !fits(edited.fields) {
            Err(ProtocolError::LengthOverflow)
        } else {
            Ok(())
        },
    }
}

/// The protocol that an accepted edit leaves: the edited one, its length derived
/// from its fields.
pub open spec fn committed(edited: ProtocolView) -> ProtocolView {
    ProtocolView { length: length_of(edited.fields), ..edited }
}

proof fn lemma_prefix_wf(s: Seq<ProtocolView>)
    requires
        registry_wf(s),
        s.len() > 0,
    ensures
        registry_wf(s.drop_last()),
{
    let d = s.drop_last();
    reveal(all_well_formed);
    assert forall|k: int| 0 <= k < d.len() && (#[trigger] d[k].parent_id) is Some implies exists|j: int|
        0 <= j < k && d[j].id == d[k].parent_id->Some_0 by {
        assert(d[k] == s[k]);
        let j = choose|j: int| 0 <= j < k && s[j].id == s[k].parent_id->Some_0;
        assert(d[j] == s[j]);
    }
}

/// Keeping a set of protocols that holds the parent of each protocol it holds
/// keeps the registry well formed.
proof fn lemma_filter_wf(s: Seq<ProtocolView>, keep: spec_fn(ProtocolView) -> bool)
    requires
        registry_wf(s),
        forall|i: int, j: int|
            0 <= i < s.len() && 0 <= j < s.len() && s[i].parent_id == Some(s[j].id) && keep(s[i])
                ==> keep(s[j]),
    ensures
        registry_wf(s.filter(keep)),
    decreases s.len(),
{
    reveal(Seq::filter);
    if s.len() == 0 {
        reveal(all_well_formed);
    } else {
        let d = s.drop_last();
        let x = s.last();
        lemma_prefix_wf(s);
        assert forall|i: int, j: int|
            0 <= i < d.len() && 0 <= j < d.len() && d[i].parent_id == Some(d[j].id) && keep(d[i])
                implies keep(d[j]) by {
            assert(d[i] == s[i] && d[j] == s[j]);
        }
        lemma_filter_wf(d, keep);
        let f = d.filter(keep);
        if keep(x) {
            let t = f.push(x);
            assert(s.filter(keep) == t);
            assert forall|i: int| 0 <= i < f.len() implies exists|m: int|
                0 <= m < d.len() && #[trigger] f[i] == d[m] by {
                assert(f.contains(f[i]));
                d.lemma_filter_contains_rev(keep, f[i]);
            }
            assert forall|i: int| 0 <= i < f.len() implies #[trigger] f[i].id != x.id by {
                let m = choose|m: int| 0 <= m < d.len() && f[i] == d[m];
                assert(d[m] == s[m]);
            }
            assert forall|k: int| 0 <= k < t.len() && (#[trigger] t[k].parent_id) is Some implies exists|j: int|
                0 <= j < k && t[j].id == t[k].parent_id->Some_0 by {
                if k < f.len() {
                    assert(t[k] == f[k]);
                    let j = choose|j: int| 0 <= j < k && f[j].id == f[k].parent_id->Some_0;
                    assert(t[j] == f[j]);
                } else {
                    let j = choose|j: int| 0 <= j < s.len() - 1 && s[j].id == s[s.len() - 1].parent_id->Some_0;
                    assert(s[j].id == x.parent_id->Some_0);
                    assert(keep(s[j]));
                    assert(d[j] == s[j]);
                    d.lemma_filter_contains(keep, j);
                    let m = choose|m: int| 0 <= m < f.len() && f[m] == d[j];
                    assert(t[m] == f[m]);
                }
            }
            reveal(all_well_formed);
            assert forall|k: int| 0 <= k < t.len() implies well_formed(#[trigger] t[k]) by {
                if k < f.len() {
                    assert(t[k] == f[k]);
                    let m = choose|m: int| 0 <= m < d.len() && f[k] == d[m];
                    assert(d[m] == s[m]);
                } else {
                    assert(t[k] == s[s.len() - 1]);
                }
            }
        } else {
            assert(s.filter(keep) == f);
        }
    }
}

/// Renaming a protocol rewrites the parent reference of each direct child and
/// of no other protocol (a grandchild names its own, unchanged parent), renames
/// the protocol itself, and leaves no protocol under the old id.
pub proof fn law_rename_reaches_direct_children_only(
    s: Seq<ProtocolView>,
    old_id: Seq<char>,
    new_id: Seq<char>,
    k: int,
)
    requires
        registry_wf(s),
        contains_id(s, old_id),
        !contains_id(s, new_id),
        0 <= k < s.len(),
    ensures
        ({
            let t = s.map_values(|p: ProtocolView| renamed(p, old_id, new_id));
            &&& s[k].parent_id == Some(old_id) ==> t[k].parent_id == Some(new_id)
            &&& s[k].parent_id != Some(old_id) ==> t[k].parent_id == s[k].parent_id
            &&& s[k].id == old_id ==> t[k].id == new_id
            &&& s[k].id != old_id ==> t[k].id == s[k].id
            &&& !contains_id(t, old_id)
        }),
{
    let t = s.map_values(|p: ProtocolView| renamed(p, old_id, new_id));
    lemma_index_of(s, new_id);
    lemma_index_of(t, old_id);
    if contains_id(t, old_id) {
        let i = index_of(t, old_id);
        assert(t[i] == renamed(s[i], old_id, new_id));
    }
}

/// In a well-formed registry a protocol is in the subtree of `root` when it is
/// `root` or its parent is in that subtree: descent through any number of
/// generations.
pub proof fn law_subtree_is_descent(s: Seq<ProtocolView>, k: int, root: int)
    requires
        registry_wf(s),
        0 <= k < s.len(),
        0 <= root < s.len(),
    ensures
        in_subtree(s, k, root) <==> (k == root || (s[k].parent_id is Some && in_subtree(
            s,
            index_of(s, s[k].parent_id->Some_0),
            root,
        ))),
{
    let c = chain_from(s, k);
    lemma_chain_bounds(s, k);
    match s[k].parent_id {
        Some(pid) => {
            let w = choose|w: int| 0 <= w < k && s[w].id == pid;
            lemma_index_of_unique(s, w);
            let cj = chain_from(s, w);
            assert(c == cj.push(k));
            if cj.contains(root) {
                let m = choose|m: int| 0 <= m < cj.len() && cj[m] == root;
                assert(c[m] == root);
            }
            if c.contains(root) && k != root {
                let m = choose|m: int| 0 <= m < c.len() && c[m] == root;
                assert(cj[m] == root);
            }
        },
        None => {
            assert(c == seq![k]);
        },
    }
}

/// Removing the protocol `root_id` keeps a protocol exactly when it is not in
/// the subtree of `root_id`.
pub proof fn law_remove_takes_exactly_the_subtree(s: Seq<ProtocolView>, root_id: Seq<char>, k: int)
    requires
        registry_wf(s),
        contains_id(s, root_id),
        0 <= k < s.len(),
    ensures
        s.filter(|p: ProtocolView| survives(s, root_id, p)).contains(s[k]) <==> !in_subtree(
            s,
            k,
            index_of(s, root_id),
        ),
{
    let keep = |p: ProtocolView| survives(s, root_id, p);
    let t = s.filter(keep);
    lemma_index_of_unique(s, k);
    if !in_subtree(s, k, index_of(s, root_id)) {
        s.lemma_filter_contains(keep, k);
    }
    if t.contains(s[k]) {
        let m = choose|m: int| 0 <= m < t.len() && t[m] == s[k];
        s.lemma_filter_pred(keep, m);
    }
}

/// The inheritance chain of a protocol in a well-formed registry runs from a
/// root, which has no parent, down to the protocol itself, each entry the
/// parent of the next.
pub proof fn law_chain_root_first(s: Seq<ProtocolView>, id: Seq<char>)
    requires
        registry_wf(s),
        contains_id(s, id),
    ensures
        ({
            let c = inheritance_chain(s, id);
            &&& c.len() > 0
            &&& c.last() == index_of(s, id)
            &&& s[c[0]].parent_id is None
            &&& forall|i: int| 0 < i < c.len() ==> s[#[trigger] c[i]].parent_id == Some(s[c[i - 1]].id)
        }),
{
    lemma_index_of(s, id);
    lemma_chain_links(s, index_of(s, id));
}

#[verifier::rlimit(50)]
proof fn lemma_chain_links(s: Seq<ProtocolView>, k: int)
    requires
        registry_wf(s),
        0 <= k < s.len(),
    ensures
        ({
            let c = chain_from(s, k);
            &&& c.len() > 0
            &&& c.last() == k
            &&& s[c[0]].parent_id is None
            &&& forall|i: int| 0 < i < c.len() ==> s[#[trigger] c[i]].parent_id == Some(s[c[i - 1]].id)
        }),
    decreases k,
{
    lemma_chain_bounds(s, k);
    match s[k].parent_id {
        Some(pid) => {
            let w = choose|w: int| 0 <= w < k && s[w].id == pid;
            lemma_index_of_unique(s, w);
            lemma_chain_links(s, w);
            let cj = chain_from(s, w);
            let c = chain_from(s, k);
            assert(c == cj.push(k));
            assert forall|i: int| 0 < i < c.len() implies s[#[trigger] c[i]].parent_id == Some(s[c[i - 1]].id) by {
                if i < cj.len() {
                    assert(c[i] == cj[i] && c[i - 1] == cj[i - 1]);
                } else {
                    assert(c[i - 1] == cj.last());
                }
            }
        },
        None => {
            assert(chain_from(s, k) == seq![k]);
        },
    }
}

/// Every protocol, by id. A parent always stands before its children, so each
/// inheritance chain ends at a root and no chain can loop.
pub struct ProtocolRegistry {
    protocols: Vec<Protocol>,
}

impl View for ProtocolRegistry {
    type V = Seq<ProtocolView>;

    closed spec fn view(&self) -> Seq<ProtocolView> {
        self.protocols@.map_values(|p: Protocol| p@)
    }
}

impl ProtocolRegistry {
    pub closed spec fn wf(&self) -> bool {
        registry_wf(self@)
    }

    /// An empty registry.
    pub fn new() -> (r: Self)
        ensures
            r.wf(),
            r@ == Seq::<ProtocolView>::empty(),
    {
        let r = ProtocolRegistry { protocols: Vec::new() };
        assert(r@ =~= Seq::<ProtocolView>::empty());
        proof {
            reveal(all_well_formed);
        }
        r
    }

    /// The number of protocols.
    pub fn len(&self) -> (r: usize)
        ensures
            r == self@.len(),
    {
        self.protocols.len()
    }

    /// The position of the protocol with the given id, if there is one.
    fn find(&self, id: &String) -> (r: Option<usize>)
        requires
            self.wf(),
        ensures
            match r {
                Some(i) => i < self@.len() && index_of(self@, id@) == i,
                None => index_of(self@, id@) == -1,
            },
    {
        let mut i: usize = 0;
        while i < self.protocols.len()
            invariant
                self.wf(),
                i <= self.protocols.len(),
                forall|j: int| 0 <= j < i ==> self@[j].id != id@,
            decreases self.protocols.len() - i,
        {
            if self.protocols[i].id == *id {
                proof {
                    lemma_index_of_unique(self@, i as int);
                }
                return Some(i);
            }
            i += 1;
        }
        proof {
            lemma_index_of(self@, id@);
        }
        None
    }

    /// The protocol with the given id.
    pub fn get_protocol(&self, protocol_id: &str) -> (r: Option<&Protocol>)
        requires
            self.wf(),
        ensures
            match r {
                Some(p) => contains_id(self@, protocol_id@) && p@ == self@[index_of(self@, protocol_id@)],
                None => !contains_id(self@, protocol_id@),
            },
    {
        let key = protocol_id.to_owned();
        match self.find(&key) {
            Some(i) => Some(&self.protocols[i]),
            None => None,
        }
    }
}

impl ProtocolRegistry {
    /// Adds an empty protocol. Refused when the id is taken or the parent named
    /// is absent.
    pub fn create_protocol(
        &mut self,
        id: &str,
        name: Option<String>,
        endianness: Endianness,
        parent_id: Option<String>,
    ) -> (r: Result<(), ProtocolError>)
        requires
            old(self).wf(),
        ensures
            final(self).wf(),
            ({
                let s = old(self)@;
                if contains_id(s, id@) {
                    r == Err::<(), ProtocolError>(ProtocolError::DuplicateProtocolId)
                } else if parent_id is Some && !contains_id(s, parent_id->Some_0@) {
                    r == Err::<(), ProtocolError>(ProtocolError::ParentNotFound)
                } else {
                    r is Ok
                }
            }),
            r is Ok ==> final(self)@ == old(self)@.push(
                ProtocolView {
                    id: id@,
                    name: opt_view(name),
                    endianness,
                    fields: Seq::empty(),
                    length: ProtocolLength::Fixed(0),
                    description: None,
                    metadata: Seq::empty(),
                    parent_id: opt_view(parent_id),
                    parent_constraints: Seq::empty(),
                },
            ),
            r is Err ==> final(self)@ == old(self)@,
    {
        let ghost s = self@;
        let key = id.to_owned();
        if self.find(&key).is_some() {
            return Err(ProtocolError::DuplicateProtocolId);
        }
        match &parent_id {
            Some(pid) => {
                if self.find(pid).is_none() {
                    return Err(ProtocolError::ParentNotFound);
                }
            },
            None => {},
        }
        let p = Protocol::new(id, name, endianness, parent_id);
        let ghost pv = p@;
        self.protocols.push(p);
        assert(self@ =~= s.push(pv));
        proof {
            lemma_index_of(s, id@);
            let t = s.push(pv);
            assert forall|k: int| 0 <= k < t.len() && (#[trigger] t[k].parent_id) is Some implies exists|j: int|
                0 <= j < k && t[j].id == t[k].parent_id->Some_0 by {
                if k < s.len() {
                    assert(t[k] == s[k]);
                    let j = choose|j: int| 0 <= j < k && s[j].id == s[k].parent_id->Some_0;
                    assert(t[j] == s[j]);
                } else {
                    let pid = pv.parent_id->Some_0;
                    lemma_index_of(s, pid);
                    let j = index_of(s, pid);
                    assert(t[j] == s[j]);
                }
            }
            reveal(all_well_formed);
        }
        Ok(())
    }

    /// Appends the positions of the chain of the protocol at `k`, root first.
    fn collect_chain(&self, k: usize, out: &mut Vec<usize>)
        requires
            self.wf(),
            k < self@.len(),
        ensures
            as_ints(final(out)@) == as_ints(old(out)@) + chain_from(self@, k as int),
        decreases k,
    {
        let ghost before = out@;
        match &self.protocols[k].parent_id {
            Some(pid) => {
                match self.find(pid) {
                    Some(j) => {
                        if j < k {
                            self.collect_chain(j, out);
                        }
                    },
                    None => {},
                }
            },
            None => {},
        }
        let ghost mid = out@;
        out.push(k);
        assert(as_ints(out@) =~= as_ints(mid).push(k as int));
        assert(as_ints(out@) =~= as_ints(before) + chain_from(self@, k as int));
    }

    /// The positions of the chain of the protocol with the given id, root first.
    fn chain_indices(&self, protocol_id: &str) -> (r: Vec<usize>)
        requires
            self.wf(),
        ensures
            as_ints(r@) == inheritance_chain(self@, protocol_id@),
            forall|i: int| 0 <= i < r@.len() ==> r@[i] < self@.len(),
    {
        let key = protocol_id.to_owned();
        let mut idx: Vec<usize> = Vec::new();
        match self.find(&key) {
            Some(k) => {
                self.collect_chain(k, &mut idx);
                assert(as_ints(Seq::<usize>::empty()) =~= Seq::<int>::empty());
            },
            None => {},
        }
        assert(as_ints(idx@) =~= inheritance_chain(self@, protocol_id@));
        proof {
            lemma_chain_bounds(self@, index_of(self@, protocol_id@));
            assert forall|i: int| 0 <= i < idx@.len() implies idx@[i] < self@.len() by {
                assert(as_ints(idx@)[i] == idx@[i] as int);
            }
        }
        idx
    }

    /// The protocol with the given id and its ancestors, root first. The walk
    /// stops where a parent is missing.
    pub fn get_inheritance_chain(&self, protocol_id: &str) -> (r: Vec<&Protocol>)
        requires
            self.wf(),
        ensures
            r@.len() == inheritance_chain(self@, protocol_id@).len(),
            forall|i: int|
                0 <= i < r@.len() ==> r@[i]@ == self@[#[trigger] inheritance_chain(self@, protocol_id@)[i]],
    {
        let idx = self.chain_indices(protocol_id);
        let ghost c = inheritance_chain(self@, protocol_id@);
        let mut chain: Vec<&Protocol> = Vec::new();
        let mut i: usize = 0;
        while i < idx.len()
            invariant
                self.wf(),
                as_ints(idx@) == c,
                forall|t: int| 0 <= t < idx@.len() ==> idx@[t] < self@.len(),
                i <= idx.len(),
                chain@.len() == i,
                forall|t: int| 0 <= t < i ==> chain@[t]@ == self@[c[t]],
            decreases idx.len() - i,
        {
            assert(c[i as int] == idx@[i as int] as int);
            chain.push(&self.protocols[idx[i]]);
            i += 1;
        }
        chain
    }

    /// The length of a protocol together with its ancestors: fixed lengths add up,
    /// and the first variable one, walking from the root, ends the sum.
    pub fn get_total_length(&self, protocol_id: &str) -> (r: ProtocolLength)
        requires
            self.wf(),
            chain_layout(self@, inheritance_chain(self@, protocol_id@)).1 <= u32::MAX,
        ensures
            r == total_length(self@, protocol_id@),
    {
        let idx = self.chain_indices(protocol_id);
        let ghost c = inheritance_chain(self@, protocol_id@);
        let mut total_fixed_bits: u32 = 0;
        let mut i: usize = 0;
        while i < idx.len()
            invariant
                self.wf(),
                as_ints(idx@) == c,
                forall|t: int| 0 <= t < idx@.len() ==> idx@[t] < self@.len(),
                c == inheritance_chain(self@, protocol_id@),
                chain_layout(self@, c).1 <= u32::MAX,
                i <= idx.len(),
                chain_layout(self@, c.subrange(0, i as int)) == (false, total_fixed_bits as int),
            decreases idx.len() - i,
        {
            proof {
                assert(c[i as int] == idx@[i as int] as int);
                assert(c.subrange(0, i + 1).drop_last() =~= c.subrange(0, i as int));
                lemma_chain_layout_mono(self@, c, i + 1);
            }
            match self.protocols[idx[i]].length {
                ProtocolLength::Fixed(bits) => {
                    total_fixed_bits = total_fixed_bits + bits;
                },
                ProtocolLength::Variable(bits) => {
                    proof {
                        assert(self@[c[i as int]].length == ProtocolLength::Variable(bits));
                        assert(chain_layout(self@, c.subrange(0, i + 1)) == (true, total_fixed_bits + bits));
                        lemma_chain_layout_variable(self@, c, i + 1);
                        assert(chain_layout(self@, c) == (true, total_fixed_bits + bits));
                    }
                    let total = total_fixed_bits + bits;
                    return ProtocolLength::Variable(total);
                },
            }
            i += 1;
        }
        assert(c.subrange(0, i as int) =~= c);
        ProtocolLength::Fixed(total_fixed_bits)
    }

    /// The fields of a protocol's chain, root first: the effective wire layout.
    /// Ids repeated along the chain are kept as they are.
    pub fn resolve_fields(&self, protocol_id: &str) -> (r: Result<Vec<FieldRule>, ProtocolError>)
        requires
            self.wf(),
        ensures
            !contains_id(self@, protocol_id@) ==> r == Err::<Vec<FieldRule>, ProtocolError>(ProtocolError::ProtocolNotFound),
            contains_id(self@, protocol_id@) ==> r is Ok,
            r matches Ok(v) ==> rules_view(v@) == resolved(self@, inheritance_chain(self@, protocol_id@)),
    {
        let idx = self.chain_indices(protocol_id);
        let ghost c = inheritance_chain(self@, protocol_id@);
        proof {
            lemma_index_of(self@, protocol_id@);
            lemma_chain_bounds(self@, index_of(self@, protocol_id@));
            assert(as_ints(idx@).len() == idx@.len());
        }
        if idx.len() == 0 {
            return Err(ProtocolError::ProtocolNotFound);
        }
        let mut out: Vec<FieldRule> = Vec::new();
        let mut i: usize = 0;
        assert(rules_view(out@) =~= resolved(self@, c.subrange(0, 0)));
        while i < idx.len()
            invariant
                self.wf(),
                as_ints(idx@) == c,
                forall|t: int| 0 <= t < idx@.len() ==> idx@[t] < self@.len(),
                i <= idx.len(),
                rules_view(out@) == resolved(self@, c.subrange(0, i as int)),
            decreases idx.len() - i,
        {
            let p = &self.protocols[idx[i]];
            let ghost pf = p@.fields;
            let ghost base = rules_view(out@);
            assert(c[i as int] == idx@[i as int] as int);
            let mut t: usize = 0;
            while t < p.fields.len()
                invariant
                    pf == rules_view(p.fields@),
                    t <= p.fields.len(),
                    rules_view(out@) == base + pf.subrange(0, t as int),
                decreases p.fields.len() - t,
            {
                let f = p.fields[t].clone();
                let ghost prev = out@;
                out.push(f);
                assert(rules_view(out@) =~= rules_view(prev).push(f@));
                t += 1;
                assert(rules_view(out@) =~= base + pf.subrange(0, t as int));
            }
            assert(pf.subrange(0, t as int) =~= pf);
            assert(c.subrange(0, i + 1).drop_last() =~= c.subrange(0, i as int));
            i += 1;
        }
        assert(c.subrange(0, i as int) =~= c);
        Ok(out)
    }
}

impl ProtocolRegistry {
    /// Removes a protocol together with every protocol that descends from it.
    pub fn remove_protocol(&mut self, protocol_id: &str) -> (r: Result<(), ProtocolError>)
        requires
            old(self).wf(),
        ensures
            final(self).wf(),
            !contains_id(old(self)@, protocol_id@) ==> r == Err::<(), ProtocolError>(ProtocolError::ProtocolNotFound),
            contains_id(old(self)@, protocol_id@) ==> r is Ok,
            r is Ok ==> final(self)@ == old(self)@.filter(
                |p: ProtocolView| survives(old(self)@, protocol_id@, p),
            ),
            r is Err ==> final(self)@ == old(self)@,
    {
        let ghost s = self@;
        let ghost ov = self.protocols@;
        let key = protocol_id.to_owned();
        let root = match self.find(&key) {
            None => {
                return Err(ProtocolError::ProtocolNotFound);
            },
            Some(root) => root,
        };
        let n = self.protocols.len();
        let mut doomed: Vec<bool> = Vec::new();
        let mut k: usize = 0;
        while k < n
            invariant
                self.wf(),
                self@ == s,
                n == s.len(),
                root < n,
                k <= n,
                doomed@.len() == k,
                forall|t: int| 0 <= t < k ==> doomed@[t] == in_subtree(s, t, root as int),
            decreases n - k,
        {
            proof {
                lemma_chain_bounds(s, k as int);
            }
            let d = if k == root {
                true
            } else {
                match &self.protocols[k].parent_id {
                    Some(pid) => match self.find(pid) {
                        Some(j) => j < k && doomed[j],
                        None => false,
                    },
                    None => false,
                }
            };
            proof {
                let c = chain_from(s, k as int);
                if k == root {
                    assert(c[c.len() - 1] == k);
                } else {
                    match s[k as int].parent_id {
                        Some(pid) => {
                            let j = index_of(s, pid);
                            if 0 <= j < k {
                                let cj = chain_from(s, j);
                                assert(c == cj.push(k as int));
                                if cj.contains(root as int) {
                                    let m = choose|m: int| 0 <= m < cj.len() && cj[m] == root;
                                    assert(c[m] == root);
                                }
                                if c.contains(root as int) {
                                    let m = choose|m: int| 0 <= m < c.len() && c[m] == root;
                                    assert(m < cj.len());
                                    assert(cj[m] == root);
                                }
                            } else {
                                assert(c == seq![k as int]);
                            }
                        },
                        None => {
                            assert(c == seq![k as int]);
                        },
                    }
                }
            }
            doomed.push(d);
            k += 1;
        }
        let ghost keep = |p: ProtocolView| survives(s, protocol_id@, p);
        let ghost keep_exec = |p: Protocol| survives(s, protocol_id@, p@);
        proof {
            lemma_index_of(s, protocol_id@);
            assert forall|t: int| 0 <= t < n implies doomed@[t] == !keep_exec(#[trigger] ov[t]) by {
                lemma_index_of_unique(s, t);
                assert(s[t] == ov[t]@);
            }
        }
        let mut k: usize = n;
        assert(ov.subrange(n as int, n as int).filter(keep_exec) =~= Seq::<Protocol>::empty()) by {
            reveal(Seq::filter);
        }
        assert(self.protocols@ =~= ov.subrange(0, n as int) + ov.subrange(n as int, n as int).filter(keep_exec));
        while k > 0
            invariant
                n == ov.len(),
                k <= n,
                doomed@.len() == n,
                forall|t: int| 0 <= t < n ==> doomed@[t] == !keep_exec(#[trigger] ov[t]),
                self.protocols@ == ov.subrange(0, k as int) + ov.subrange(k as int, n as int).filter(keep_exec),
            decreases k,
        {
            k -= 1;
            proof {
                assert(ov.subrange(k as int, n as int) =~= seq![ov[k as int]] + ov.subrange(k + 1, n as int));
                ov.subrange(k + 1, n as int).lemma_filter_prepend(ov[k as int], keep_exec);
            }
            let ghost rest = ov.subrange(k + 1, n as int).filter(keep_exec);
            if doomed[k] {
                self.protocols.remove(k);
                assert(self.protocols@ =~= ov.subrange(0, k as int) + ov.subrange(k as int, n as int).filter(keep_exec));
            } else {
                assert(self.protocols@ =~= ov.subrange(0, k as int) + ov.subrange(k as int, n as int).filter(keep_exec));
            }
        }
        proof {
            assert(ov.subrange(0, 0) + ov.subrange(0, n as int).filter(keep_exec) =~= ov.filter(keep_exec)) by {
                assert(ov.subrange(0, n as int) =~= ov);
            }
            vstd::seq_lib::lemma_filter_view_commute(ov, keep_exec, keep);
            assert(self@ =~= s.filter(keep));
            assert forall|i: int, j: int|
                0 <= i < s.len() && 0 <= j < s.len() && s[i].parent_id == Some(s[j].id) && keep(s[i])
                    implies keep(s[j]) by {
                lemma_index_of_unique(s, i);
                lemma_index_of_unique(s, j);
                lemma_index_of(s, s[j].id);
                let c = chain_from(s, i);
                let cj = chain_from(s, j);
                if j < i {
                    assert(c == cj.push(i));
                    if cj.contains(root as int) {
                        let m = choose|m: int| 0 <= m < cj.len() && cj[m] == root;
                        assert(c[m] == root);
                    }
                } else {
                    let w = choose|w: int| 0 <= w < i && s[w].id == s[i].parent_id->Some_0;
                    lemma_index_of_unique(s, w);
                }
            }
            lemma_filter_wf(s, keep);
        }
        Ok(())
    }
}

impl ProtocolRegistry {
    /// Renames a protocol and points its children at the new id; the only way to
    /// change a protocol's id.
    pub fn update_protocol_id(&mut self, old_id: &str, new_id: &str) -> (r: Result<(), ProtocolError>)
        requires
            old(self).wf(),
        ensures
            final(self).wf(),
            ({
                let s = old(self)@;
                if old_id@ == new_id@ {
                    r is Ok
                } else if contains_id(s, new_id@) {
                    r == Err::<(), ProtocolError>(ProtocolError::DuplicateProtocolId)
                } else if !contains_id(s, old_id@) {
                    r == Err::<(), ProtocolError>(ProtocolError::ProtocolNotFound)
                } else {
                    r is Ok
                }
            }),
            r is Ok && old_id@ != new_id@ ==> final(self)@ == old(self)@.map_values(
                |p: ProtocolView| renamed(p, old_id@, new_id@),
            ),
            r is Err || old_id@ == new_id@ ==> final(self)@ == old(self)@,
    {
        let ghost s = self@;
        let o = old_id.to_owned();
        let n = new_id.to_owned();
        if o == n {
            return Ok(());
        }
        if self.find(&n).is_some() {
            return Err(ProtocolError::DuplicateProtocolId);
        }
        if self.find(&o).is_none() {
            return Err(ProtocolError::ProtocolNotFound);
        }
        proof {
            lemma_index_of(s, new_id@);
            lemma_index_of(s, old_id@);
        }
        let len = self.protocols.len();
        let mut k: usize = 0;
        while k < len
            invariant
                len == s.len(),
                self@.len() == len,
                o@ == old_id@,
                n@ == new_id@,
                k <= len,
                forall|t: int| 0 <= t < k ==> self@[t] == renamed(s[t], old_id@, new_id@),
                forall|t: int| k <= t < len ==> self@[t] == s[t],
            decreases len - k,
        {
            let ghost before = self@;
            let mut p = self.protocols.remove(k);
            if p.id == o {
                p.id = n.clone();
            }
            let points_at_old = match &p.parent_id {
                Some(pid) => *pid == o,
                None => false,
            };
            if points_at_old {
                p.parent_id = Some(n.clone());
            }
            let ghost pv = p@;
            self.protocols.insert(k, p);
            assert(self@ =~= before.update(k as int, pv));
            k += 1;
        }
        let ghost t = s.map_values(|p: ProtocolView| renamed(p, old_id@, new_id@));
        assert(self@ =~= t);
        proof {
            assert forall|a: int, b: int| 0 <= a < t.len() && 0 <= b < t.len() && a != b implies t[a].id
                != t[b].id by {}
            assert forall|k: int| 0 <= k < t.len() && (#[trigger] t[k].parent_id) is Some implies exists|j: int|
                0 <= j < k && t[j].id == t[k].parent_id->Some_0 by {
                assert(s[k].parent_id is Some);
                let j = choose|j: int| 0 <= j < k && s[j].id == s[k].parent_id->Some_0;
                assert(t[j] == renamed(s[j], old_id@, new_id@));
            }
            reveal(all_well_formed);
            assert forall|k: int| 0 <= k < t.len() implies well_formed(#[trigger] t[k]) by {
                assert(well_formed(s[k]));
            }
        }
        Ok(())
    }

    /// Applies `f` to a copy of the protocol with the given id and keeps the
    /// result, its length derived anew, unless `f` fails, changes the id or the
    /// parent, or leaves fields with shared ids or widths that overflow: then
    /// nothing changes and the error says which.
    pub fn edit_protocol<F: FnOnce(&mut Protocol) -> Result<(), String>>(
        &mut self,
        protocol_id: &str,
        f: F,
    ) -> (r: Result<(), ProtocolError>)
        requires
            old(self).wf(),
            forall|x: &mut Protocol| f.requires((x,)),
        ensures
            final(self).wf(),
            !contains_id(old(self)@, protocol_id@) ==> r == Err::<(), ProtocolError>(ProtocolError::ProtocolNotFound),
            contains_id(old(self)@, protocol_id@) ==> exists|x: &mut Protocol, res: Result<(), String>|
                {
                    let s = old(self)@;
                    let i = index_of(s, protocol_id@);
                    &&& (*x)@ == s[i]
                    &&& #[trigger] f.ensures((x,), res)
                    &&& r == edit_protocol_result(s[i], res, (*final(x))@)
                    &&& r is Ok ==> final(self)@ == s.update(i, committed((*final(x))@))
                },
            r is Err ==> final(self)@ == old(self)@,
    {
        let ghost s = self@;
        let key = protocol_id.to_owned();
        match self.find(&key) {
            None => Err(ProtocolError::ProtocolNotFound),
            Some(i) => {
                let mut scratch = self.protocols[i].clone();
                let res = f(&mut scratch);
                match res {
                    Err(e) => {
                        return Err(ProtocolError::MutatorFailed(e));
                    },
                    Ok(()) => {},
                }
                if scratch.id != self.protocols[i].id {
                    return Err(ProtocolError::ProtocolIdImmutableHere);
                }
                if !opt_string_eq(&scratch.parent_id, &self.protocols[i].parent_id) {
                    return Err(ProtocolError::ParentImmutable);
                }
                if !distinct_ids(&scratch.fields) {
                    return Err(ProtocolError::InvalidFields);
                }
                if !widths_fit(&scratch.fields) {
                    return Err(ProtocolError::LengthOverflow);
                }
                let ghost edited = scratch@;
                scratch.calculate_length();
                let ghost pv = scratch@;
                assert(pv == committed(edited));
                self.protocols.set(i, scratch);
                assert(self@ =~= s.update(i as int, pv));
                proof {
                    let t = s.update(i as int, pv);
                    assert forall|k: int| 0 <= k < t.len() && (#[trigger] t[k].parent_id) is Some implies exists|j: int|
                        0 <= j < k && t[j].id == t[k].parent_id->Some_0 by {
                        assert(s[k].parent_id is Some);
                        let j = choose|j: int| 0 <= j < k && s[j].id == s[k].parent_id->Some_0;
                        assert(t[j].id == s[j].id);
                    }
                    reveal(all_well_formed);
                    assert forall|k: int| 0 <= k < t.len() implies well_formed(#[trigger] t[k]) by {
                        if k != i {
                            assert(t[k] == s[k]);
                        }
                    }
                }
                Ok(())
            },
        }
    }
}

} // verus!
