//! The recursive trie node: a mapping from characters to child nodes and a
//! terminal flag. The children are held as a vector of key/child pairs with
//! pairwise-distinct keys; the traversal order over children carries no
//! meaning, only the set of labelled paths does.

use vstd::prelude::*;

verus! {

/// One position in the indexed suffix space. A suffix is recorded in a node
/// by the labelled path that spells it, the node at the path's end carrying
/// `terminal == true`.
pub struct Node {
    pub children: Vec<(char, Node)>,
    pub terminal: bool,
}

impl Node {
    /// The structural invariant: child keys are pairwise distinct, every
    /// child subtree is itself well formed, and every child subtree records
    /// at least one suffix (the tree has no dead branches).
    pub open spec fn wf(self) -> bool
        decreases self,
    {
        &&& (forall|i: int, j: int|
            0 <= i < j < self.children@.len() ==> (#[trigger] self.children@[i]).0 != (
            #[trigger] self.children@[j]).0)
        &&& (forall|i: int|
            0 <= i < self.children@.len() ==> (#[trigger] self.children@[i]).1.wf())
        &&& (forall|i: int|
            0 <= i < self.children@.len() ==> (#[trigger] self.children@[i]).1.nonempty())
    }

    /// Whether some suffix is recorded at or below this node.
    pub open spec fn nonempty(self) -> bool
        decreases self,
    {
        self.terminal || exists|i: int|
            0 <= i < self.children@.len() && (#[trigger] self.children@[i]).1.nonempty()
    }

    /// Whether the suffix `s` is recorded at or below this node: the empty
    /// suffix is recorded exactly when this node is terminal, and a longer
    /// one when some child labelled with its first character records the
    /// rest.
    pub open spec fn contains_suffix(self, s: Seq<char>) -> bool
        decreases self,
    {
        if s.len() == 0 {
            self.terminal
        } else {
            exists|i: int|
                0 <= i < self.children@.len() && (#[trigger] self.children@[i]).0 == s[0]
                    && self.children@[i].1.contains_suffix(s.skip(1))
        }
    }

    /// Whether the labelled path spelling `p` exists in the tree, whether or
    /// not a suffix ends on it.
    pub open spec fn has_path(self, p: Seq<char>) -> bool
        decreases self,
    {
        if p.len() == 0 {
            true
        } else {
            exists|i: int|
                0 <= i < self.children@.len() && (#[trigger] self.children@[i]).0 == p[0]
                    && self.children@[i].1.has_path(p.skip(1))
        }
    }

    /// Like `contains_suffix`, but with the witness child restricted to the
    /// first `n` children; used to state how far a traversal has got.
    spec fn contains_suffix_upto(self, n: int, u: Seq<char>) -> bool {
        if u.len() == 0 {
            self.terminal
        } else {
            exists|i: int|
                0 <= i < n && i < self.children@.len() && (#[trigger] self.children@[i]).0 == u[0]
                    && self.children@[i].1.contains_suffix(u.skip(1))
        }
    }

    /// Creates a new, empty node: no children, not terminal, no suffix
    /// recorded.
    pub fn new() -> (n: Node)
        ensures
            n.wf(),
            !n.nonempty(),
            forall|s: Seq<char>| !n.contains_suffix(s),
            n.children@.len() == 0,
            !n.terminal,
    {
        Node { children: Vec::new(), terminal: false }
    }

    /// The index of the child labelled `c`, if one exists.
    fn find_child_index(&self, c: char) -> (r: Option<usize>)
        ensures
            match r {
                Some(j) => j < self.children@.len() && self.children@[j as int].0 == c,
                None => forall|i: int|
                    0 <= i < self.children@.len() ==> (#[trigger] self.children@[i]).0 != c,
            },
    {
        let mut j: usize = 0;
        while j < self.children.len()
            invariant
                j <= self.children@.len(),
                forall|i: int| 0 <= i < j ==> (#[trigger] self.children@[i]).0 != c,
            decreases self.children@.len() - j,
        {
            if self.children[j].0 == c {
                return Some(j);
            }
            j += 1;
        }
        None
    }

    /// Records the suffix of `s` that starts at character `i`, walking and
    /// growing the tree one character per recursion step. Exactly that one
    /// suffix is added to what the node records; nothing is removed.
    fn add_suffix_at(&mut self, s: &str, i: usize)
        requires
            old(self).wf(),
            i <= s@.len(),
        ensures
            final(self).wf(),
            forall|u: Seq<char>|
                final(self).contains_suffix(u) <==> (old(self).contains_suffix(u) || u == s@.skip(
                    i as int,
                )),
        decreases s@.len() - i,
    {
        if i == s.unicode_len() {
            self.terminal = true;
            proof {
                assert(s@.skip(i as int) =~= Seq::<char>::empty());
                assert forall|u: Seq<char>|
                    self.contains_suffix(u) <==> (old(self).contains_suffix(u) || u == s@.skip(
                        i as int,
                    )) by {
                    if u.len() == 0 {
                        assert(u =~= s@.skip(i as int));
                    } else {
                        lemma_same_children_suffix(*old(self), *self, u);
                    }
                }
            }
        } else {
            let c = s.get_char(i);
            match self.find_child_index(c) {
                Some(j) => {
                    let child = &mut self.children[j].1;
                    child.add_suffix_at(s, i + 1);
                    proof {
                        lemma_extend_established(*old(self), *self, s@, i as int, j as int);
                    }
                },
                None => {
                    let mut child = Node::new();
                    child.add_suffix_at(s, i + 1);
                    self.children.push((c, child));
                    proof {
                        lemma_fresh_established(*old(self), *self, s@, i as int);
                    }
                },
            }
        }
    }

    /// Collects every suffix recorded at or below this node, each one
    /// preceded by the accumulated path `prefix`: the returned strings are
    /// exactly `prefix` followed by a recorded suffix, every recorded suffix
    /// appearing exactly once (traversal order carries no meaning).
    fn collect_suffixes(&self, prefix: &str) -> (r: Vec<String>)
        requires
            self.wf(),
        ensures
            results_sound(*self, prefix@, r@),
            results_complete(*self, prefix@, r@),
            distinct_strings(r@),
        decreases *self,
    {
        let mut out: Vec<String> = Vec::new();
        if self.terminal {
            out.push(prefix.to_owned());
            proof {
                assert(prefix@ + Seq::<char>::empty() =~= prefix@);
                assert(self.contains_suffix(Seq::<char>::empty()) && out@[0]@ == prefix@
                    + Seq::<char>::empty());
                assert(entry_ok(*self, prefix@, out@[0]));
            }
        }
        proof {
            assert forall|k: int| 0 <= k < out@.len() implies entry_ok(
                *self,
                prefix@,
                #[trigger] out@[k],
            ) by {
                assert(k == 0);
            }
            assert(results_sound(*self, prefix@, out@));
            assert forall|u: Seq<char>|
                #[trigger] self.contains_suffix_upto(0, u) implies found_at(out@, prefix@ + u) by {
                assert(u.len() == 0 && self.terminal);
                assert(u =~= Seq::<char>::empty());
                assert(out@[0]@ == prefix@ + u);
            }
            assert(results_complete_upto(*self, 0, prefix@, out@));
            assert forall|k: int| 0 <= k < out@.len() implies entry_head_ok(
                *self,
                0,
                prefix@,
                #[trigger] out@[k],
            ) by {
                assert(k == 0);
                assert(out@[0]@ == prefix@);
            }
            assert(heads_ok(*self, 0, prefix@, out@));
        }
        let n = self.children.len();
        let mut idx: usize = 0;
        while idx < n
            invariant
                self.wf(),
                n == self.children@.len(),
                idx <= n,
                results_sound(*self, prefix@, out@),
                results_complete_upto(*self, idx as int, prefix@, out@),
                heads_ok(*self, idx as int, prefix@, out@),
                distinct_strings(out@),
            decreases n - idx,
        {
            let c = self.children[idx].0;
            let child = &self.children[idx].1;
            let mut new_prefix = prefix.to_owned();
            push_char(&mut new_prefix, c);
            let ghost new_prefix_view = new_prefix@;
            let mut rs = child.collect_suffixes(new_prefix.as_str());
            let ghost rs_snap = rs@;
            let ghost out_snap = out@;
            out.append(&mut rs);
            proof {
                lemma_collect_step(
                    *self,
                    idx as int,
                    prefix@,
                    new_prefix_view,
                    out_snap,
                    rs_snap,
                    out@,
                );
            }
            idx += 1;
        }
        proof {
            assert forall|u: Seq<char>| #[trigger] self.contains_suffix(u) implies
                self.contains_suffix_upto(n as int, u) by {}
            assert(results_complete(*self, prefix@, out@));
        }
        out
    }

    /// Follows `prefix` character by character from position `i` downward.
    /// Returns the continuations recorded below the reached position, or
    /// nothing when the spelled path does not exist in the tree.
    fn find_by_prefix_at(&self, prefix: &str, i: usize) -> (r: Option<Vec<String>>)
        requires
            self.wf(),
            i <= prefix@.len(),
        ensures
            r is Some <==> self.has_path(prefix@.skip(i as int)),
            r matches Some(v) ==> query_sound(*self, prefix@.skip(i as int), v@),
            r matches Some(v) ==> query_complete(*self, prefix@.skip(i as int), v@),
            r matches Some(v) ==> distinct_strings(v@),
        decreases prefix@.len() - i,
    {
        if i == prefix.unicode_len() {
            let v = self.collect_suffixes("");
            proof {
                reveal_strlit("");
                assert(""@ =~= Seq::<char>::empty());
                assert(prefix@.skip(i as int) =~= Seq::<char>::empty());
                lemma_query_base(*self, v@);
            }
            Some(v)
        } else {
            let c = prefix.get_char(i);
            let ghost rest = prefix@.skip(i as int);
            proof {
                lemma_skip_head(prefix@, i as int);
            }
            match self.find_child_index(c) {
                Some(j) => {
                    let r = self.children[j].1.find_by_prefix_at(prefix, i + 1);
                    proof {
                        lemma_has_path_step(*self, j as int, rest);
                        if r is Some {
                            lemma_query_step(*self, j as int, rest, r->Some_0@);
                        }
                    }
                    r
                },
                None => {
                    proof {
                        assert(!self.has_path(rest)) by {
                            if self.has_path(rest) {
                                let k = choose|k: int|
                                    0 <= k < self.children@.len() && (
                                    #[trigger] self.children@[k]).0 == rest[0]
                                        && self.children@[k].1.has_path(rest.skip(1));
                            }
                        }
                    }
                    None
                },
            }
        }
    }

    /// Searches for the position reached by spelling `prefix` from this
    /// node. When the path exists the result carries exactly the recorded
    /// continuations of `prefix`, each exactly once; when it does not, the
    /// result is absent.
    pub fn find_by_prefix(&self, prefix: &str) -> (r: Option<Vec<String>>)
        requires
            self.wf(),
        ensures
            r is Some <==> self.has_path(prefix@),
            r matches Some(v) ==> query_sound(*self, prefix@, v@),
            r matches Some(v) ==> query_complete(*self, prefix@, v@),
            r matches Some(v) ==> distinct_strings(v@),
    {
        let r = self.find_by_prefix_at(prefix, 0);
        proof {
            assert(prefix@.skip(0) =~= prefix@);
        }
        r
    }

    /// Records one suffix in this node's tree: afterwards the node records
    /// exactly what it recorded before, plus `suffix`. Always succeeds.
    pub fn add_suffix(&mut self, suffix: String)
        requires
            old(self).wf(),
        ensures
            final(self).wf(),
            forall|u: Seq<char>|
                final(self).contains_suffix(u) <==> (old(self).contains_suffix(u) || u
                    == suffix@),
    {
        self.add_suffix_at(suffix.as_str(), 0);
        proof {
            assert(suffix@.skip(0) =~= suffix@);
        }
    }
}

/// The string `s` spells the accumulated path `prefix` followed by some
/// suffix that `node` records.
spec fn entry_ok(node: Node, prefix: Seq<char>, s: String) -> bool {
    exists|u: Seq<char>| node.contains_suffix(u) && s@ == prefix + u
}

/// Some string in `out` spells exactly `t`.
pub open spec fn found_at(out: Seq<String>, t: Seq<char>) -> bool {
    exists|k: int| 0 <= k < out.len() && (#[trigger] out[k])@ == t
}

/// The strings in `out` are pairwise distinct: the list carries a set, with
/// no string repeated.
pub open spec fn distinct_strings(out: Seq<String>) -> bool {
    forall|i: int, j: int|
        0 <= i < j < out.len() ==> (#[trigger] out[i])@ != (#[trigger] out[j])@
}

/// The string `s` is either the accumulated path itself or continues it with
/// the key of one of the first `n` children; used to keep the batches
/// collected from different children apart.
spec fn entry_head_ok(node: Node, n: int, prefix: Seq<char>, s: String) -> bool {
    s@ == prefix || (s@.len() > prefix.len() && exists|i: int|
        0 <= i < n && i < node.children@.len() && (#[trigger] node.children@[i]).0 == s@[prefix.len() as int])
}

/// Every collected string so far starts, after the accumulated path, with
/// the key of an already traversed child, or is the path itself.
spec fn heads_ok(node: Node, n: int, prefix: Seq<char>, out: Seq<String>) -> bool {
    forall|k: int| 0 <= k < out.len() ==> entry_head_ok(node, n, prefix, #[trigger] out[k])
}

/// Every string in `out` is a continuation: the node records `p` followed
/// by it.
pub open spec fn query_sound(node: Node, p: Seq<char>, out: Seq<String>) -> bool {
    forall|k: int| 0 <= k < out.len() ==> node.contains_suffix(p + (#[trigger] out[k])@)
}

/// Every continuation the node records after `p` appears in `out`.
pub open spec fn query_complete(node: Node, p: Seq<char>, out: Seq<String>) -> bool {
    forall|t: Seq<char>| #[trigger] node.contains_suffix(p + t) ==> found_at(out, t)
}

/// Every collected string is the accumulated path followed by some suffix
/// that the node records.
spec fn results_sound(node: Node, prefix: Seq<char>, out: Seq<String>) -> bool {
    forall|k: int| 0 <= k < out.len() ==> entry_ok(node, prefix, #[trigger] out[k])
}

/// Every suffix the node records appears among the collected strings,
/// preceded by the accumulated path.
spec fn results_complete(node: Node, prefix: Seq<char>, out: Seq<String>) -> bool {
    forall|u: Seq<char>| #[trigger] node.contains_suffix(u) ==> found_at(out, prefix + u)
}

/// Like `results_complete`, but only for the suffixes whose witness child
/// lies among the first `n`.
spec fn results_complete_upto(node: Node, n: int, prefix: Seq<char>, out: Seq<String>) -> bool {
    forall|u: Seq<char>| #[trigger] node.contains_suffix_upto(n, u) ==> found_at(out, prefix + u)
}

/// Relies on String::push: appends exactly the one character `c` at the end
/// of `s` and changes nothing else.
#[verifier::external_body]
pub(crate) fn push_char(s: &mut String, c: char)
    ensures
        final(s)@ == old(s)@.push(c),
{
    s.push(c);
}

/// Two nodes with the same children record the same nonempty suffixes.
proof fn lemma_same_children_suffix(a: Node, b: Node, u: Seq<char>)
    requires
        a.children@ == b.children@,
        u.len() > 0,
    ensures
        a.contains_suffix(u) == b.contains_suffix(u),
{
    if a.contains_suffix(u) {
        let k = choose|k: int|
            0 <= k < a.children@.len() && (#[trigger] a.children@[k]).0 == u[0]
                && a.children@[k].1.contains_suffix(u.skip(1));
        assert(b.children@[k] == a.children@[k]);
    }
    if b.contains_suffix(u) {
        let k = choose|k: int|
            0 <= k < b.children@.len() && (#[trigger] b.children@[k]).0 == u[0]
                && b.children@[k].1.contains_suffix(u.skip(1));
        assert(a.children@[k] == b.children@[k]);
    }
}

/// One step of suffix collection: extending the gathered results by the
/// collected subtree of the child at `idx` accounts for exactly the suffixes
/// whose witness child lies among the first `idx + 1`.
proof fn lemma_collect_step(
    node: Node,
    idx: int,
    prefix: Seq<char>,
    new_prefix: Seq<char>,
    out_pre: Seq<String>,
    rs: Seq<String>,
    out_post: Seq<String>,
)
    requires
        node.wf(),
        0 <= idx < node.children@.len(),
        new_prefix == prefix.push(node.children@[idx].0),
        out_post == out_pre + rs,
        results_sound(node, prefix, out_pre),
        results_complete_upto(node, idx, prefix, out_pre),
        heads_ok(node, idx, prefix, out_pre),
        distinct_strings(out_pre),
        results_sound(node.children@[idx].1, new_prefix, rs),
        results_complete(node.children@[idx].1, new_prefix, rs),
        distinct_strings(rs),
    ensures
        results_sound(node, prefix, out_post),
        results_complete_upto(node, idx + 1, prefix, out_post),
        heads_ok(node, idx + 1, prefix, out_post),
        distinct_strings(out_post),
{
    let c = node.children@[idx].0;
    let child = node.children@[idx].1;
    assert forall|k: int| 0 <= k < out_post.len() implies entry_ok(
        node,
        prefix,
        #[trigger] out_post[k],
    ) by {
        if k < out_pre.len() {
            assert(out_post[k] == out_pre[k]);
            assert(entry_ok(node, prefix, out_pre[k]));
        } else {
            let k2 = k - out_pre.len();
            assert(out_post[k] == rs[k2]);
            assert(entry_ok(child, new_prefix, rs[k2]));
            let u2 = choose|u2: Seq<char>| child.contains_suffix(u2) && rs[k2]@ == new_prefix + u2;
            let w = seq![c] + u2;
            assert(w[0] == c);
            assert(w.skip(1) =~= u2);
            assert(node.contains_suffix(w));
            lemma_push_concat(prefix, c, u2);
            assert((out_post[k])@ == prefix + w);
        }
    }
    assert(results_sound(node, prefix, out_post));
    assert forall|u: Seq<char>|
        #[trigger] node.contains_suffix_upto(idx + 1, u) implies found_at(out_post, prefix + u) by {
        if u.len() == 0 {
            assert(node.contains_suffix_upto(idx, u));
            assert(found_at(out_pre, prefix + u));
            let k = choose|k: int| 0 <= k < out_pre.len() && (#[trigger] out_pre[k])@ == prefix + u;
            assert(out_post[k] == out_pre[k]);
        } else {
            let i = choose|i: int|
                0 <= i < idx + 1 && i < node.children@.len() && (#[trigger] node.children@[i]).0
                    == u[0] && node.children@[i].1.contains_suffix(u.skip(1));
            if i < idx {
                assert(node.contains_suffix_upto(idx, u));
                assert(found_at(out_pre, prefix + u));
                let k = choose|k: int|
                    0 <= k < out_pre.len() && (#[trigger] out_pre[k])@ == prefix + u;
                assert(out_post[k] == out_pre[k]);
            } else {
                assert(child.contains_suffix(u.skip(1)));
                assert(found_at(rs, new_prefix + u.skip(1)));
                let k2 = choose|k2: int|
                    0 <= k2 < rs.len() && (#[trigger] rs[k2])@ == new_prefix + u.skip(1);
                let k = out_pre.len() + k2;
                assert(out_post[k] == rs[k2]);
                lemma_push_head_tail(prefix, u);
                assert((out_post[k])@ == prefix + u);
            }
        }
    }
    assert(results_complete_upto(node, idx + 1, prefix, out_post));
    assert forall|k: int| 0 <= k < out_post.len() implies entry_head_ok(
        node,
        idx + 1,
        prefix,
        #[trigger] out_post[k],
    ) by {
        if k < out_pre.len() {
            assert(out_post[k] == out_pre[k]);
            assert(entry_head_ok(node, idx, prefix, out_pre[k]));
            if out_pre[k]@ != prefix {
                let i0 = choose|i0: int|
                    0 <= i0 < idx && i0 < node.children@.len() && (#[trigger] node.children@[i0]).0
                        == out_pre[k]@[prefix.len() as int];
                assert(0 <= i0 < idx + 1 && i0 < node.children@.len() && node.children@[i0].0
                    == out_post[k]@[prefix.len() as int]);
            }
        } else {
            let k2 = k - out_pre.len();
            assert(out_post[k] == rs[k2]);
            lemma_batch_head(node, idx, prefix, new_prefix, rs, k2);
        }
    }
    assert(heads_ok(node, idx + 1, prefix, out_post));
    assert forall|i: int, j: int|
        0 <= i < j < out_post.len() implies (#[trigger] out_post[i])@ != (
    #[trigger] out_post[j])@ by {
        if j < out_pre.len() {
            assert(out_post[i] == out_pre[i] && out_post[j] == out_pre[j]);
        } else if i >= out_pre.len() {
            assert(out_post[i] == rs[i - out_pre.len()] && out_post[j] == rs[j - out_pre.len()]);
        } else {
            // one entry from an earlier child or the terminal, one from this child
            assert(out_post[i] == out_pre[i] && out_post[j] == rs[j - out_pre.len()]);
            let k2 = j - out_pre.len();
            lemma_batch_head(node, idx, prefix, new_prefix, rs, k2);
            assert(entry_head_ok(node, idx, prefix, out_pre[i]));
            if out_pre[i]@ == prefix {
                assert(out_pre[i]@.len() < rs[k2]@.len());
            } else {
                let i0 = choose|i0: int|
                    0 <= i0 < idx && i0 < node.children@.len() && (#[trigger] node.children@[i0]).0
                        == out_pre[i]@[prefix.len() as int];
                assert(node.children@[i0].0 != node.children@[idx].0);
                assert(out_pre[i]@[prefix.len() as int] != rs[k2]@[prefix.len() as int]);
            }
        }
    }
    assert(distinct_strings(out_post));
}

/// A string collected below the child at `idx` is longer than the
/// accumulated path and continues it with that child's key.
proof fn lemma_batch_head(
    node: Node,
    idx: int,
    prefix: Seq<char>,
    new_prefix: Seq<char>,
    rs: Seq<String>,
    k2: int,
)
    requires
        0 <= idx < node.children@.len(),
        new_prefix == prefix.push(node.children@[idx].0),
        results_sound(node.children@[idx].1, new_prefix, rs),
        0 <= k2 < rs.len(),
    ensures
        rs[k2]@.len() > prefix.len(),
        rs[k2]@[prefix.len() as int] == node.children@[idx].0,
        entry_head_ok(node, idx + 1, prefix, rs[k2]),
{
    let c = node.children@[idx].0;
    let child = node.children@[idx].1;
    assert(entry_ok(child, new_prefix, rs[k2]));
    let u2 = choose|u2: Seq<char>| child.contains_suffix(u2) && rs[k2]@ == new_prefix + u2;
    lemma_push_concat(prefix, c, u2);
    assert(rs[k2]@ == prefix + (seq![c] + u2));
    assert((seq![c] + u2)[0] == c);
    assert(rs[k2]@[prefix.len() as int] == c);
    assert(rs[k2]@.len() > prefix.len());
}

/// Pushing a character and then concatenating is concatenating with the
/// character put in front of the second part.
proof fn lemma_push_concat(prefix: Seq<char>, c: char, u: Seq<char>)
    ensures
        prefix.push(c) + u == prefix + (seq![c] + u),
{
    assert(prefix.push(c) + u =~= prefix + (seq![c] + u));
}

/// A nonempty sequence appended after `prefix.push` of its head is the whole
/// sequence appended after `prefix`.
proof fn lemma_push_head_tail(prefix: Seq<char>, u: Seq<char>)
    requires
        u.len() > 0,
    ensures
        prefix.push(u[0]) + u.skip(1) == prefix + u,
{
    assert(prefix.push(u[0]) + u.skip(1) =~= prefix + u);
}

/// Collected results with an empty accumulated path are exactly the node's
/// recorded suffixes, stated as continuations of the empty path.
proof fn lemma_query_base(node: Node, out: Seq<String>)
    requires
        results_sound(node, Seq::<char>::empty(), out),
        results_complete(node, Seq::<char>::empty(), out),
    ensures
        query_sound(node, Seq::<char>::empty(), out),
        query_complete(node, Seq::<char>::empty(), out),
{
    assert forall|k: int|
        0 <= k < out.len() implies node.contains_suffix(
        Seq::<char>::empty() + (#[trigger] out[k])@,
    ) by {
        assert(entry_ok(node, Seq::<char>::empty(), out[k]));
        let u = choose|u: Seq<char>|
            node.contains_suffix(u) && out[k]@ == Seq::<char>::empty() + u;
        assert(Seq::<char>::empty() + u =~= u);
        assert(Seq::<char>::empty() + out[k]@ =~= out[k]@);
    }
    assert(query_sound(node, Seq::<char>::empty(), out));
    assert forall|t: Seq<char>|
        #[trigger] node.contains_suffix(Seq::<char>::empty() + t) implies found_at(out, t) by {
        let u = Seq::<char>::empty() + t;
        assert(found_at(out, Seq::<char>::empty() + u));
        assert(Seq::<char>::empty() + u =~= t);
    }
    assert(query_complete(node, Seq::<char>::empty(), out));
}

/// With pairwise-distinct child keys, the path `rest` exists exactly when
/// its tail exists below the one child labelled with its head.
proof fn lemma_has_path_step(node: Node, j: int, rest: Seq<char>)
    requires
        node.wf(),
        0 <= j < node.children@.len(),
        rest.len() > 0,
        node.children@[j].0 == rest[0],
    ensures
        node.has_path(rest) <==> node.children@[j].1.has_path(rest.skip(1)),
{
    if node.has_path(rest) {
        let k = choose|k: int|
            0 <= k < node.children@.len() && (#[trigger] node.children@[k]).0 == rest[0]
                && node.children@[k].1.has_path(rest.skip(1));
        assert(k == j);
    }
}

/// The continuations recorded below the child labelled with the head of
/// `rest` are exactly the continuations of `rest` in the whole node.
proof fn lemma_query_step(node: Node, j: int, rest: Seq<char>, v: Seq<String>)
    requires
        node.wf(),
        0 <= j < node.children@.len(),
        rest.len() > 0,
        node.children@[j].0 == rest[0],
        query_sound(node.children@[j].1, rest.skip(1), v),
        query_complete(node.children@[j].1, rest.skip(1), v),
    ensures
        query_sound(node, rest, v),
        query_complete(node, rest, v),
{
    let child = node.children@[j].1;
    assert forall|k: int|
        0 <= k < v.len() implies node.contains_suffix(rest + (#[trigger] v[k])@) by {
        assert(child.contains_suffix(rest.skip(1) + v[k]@));
        assert((rest + v[k]@).skip(1) =~= rest.skip(1) + v[k]@);
        assert((rest + v[k]@)[0] == rest[0]);
        assert(node.contains_suffix(rest + v[k]@));
    }
    assert(query_sound(node, rest, v));
    assert forall|t: Seq<char>|
        #[trigger] node.contains_suffix(rest + t) implies found_at(v, t) by {
        let w = rest + t;
        assert(w[0] == rest[0]);
        let k = choose|k: int|
            0 <= k < node.children@.len() && (#[trigger] node.children@[k]).0 == w[0]
                && node.children@[k].1.contains_suffix(w.skip(1));
        assert(k == j);
        assert((rest + t).skip(1) =~= rest.skip(1) + t);
        assert(child.contains_suffix(rest.skip(1) + t));
    }
    assert(query_complete(node, rest, v));
}

/// A well-formed nonempty node records at least one suffix.
pub proof fn lemma_nonempty_exists(node: Node)
    requires
        node.wf(),
        node.nonempty(),
    ensures
        exists|u: Seq<char>| node.contains_suffix(u),
    decreases node,
{
    if node.terminal {
        assert(node.contains_suffix(Seq::<char>::empty()));
    } else {
        let i = choose|i: int|
            0 <= i < node.children@.len() && (#[trigger] node.children@[i]).1.nonempty();
        lemma_nonempty_exists(node.children@[i].1);
        let u = choose|u: Seq<char>| node.children@[i].1.contains_suffix(u);
        let w = seq![node.children@[i].0] + u;
        assert(w[0] == node.children@[i].0);
        assert(w.skip(1) =~= u);
        assert(node.contains_suffix(w));
    }
}

/// In a well-formed node that records at least one suffix, a path exists
/// exactly when some recorded suffix extends it.
pub proof fn lemma_has_path_iff(node: Node, p: Seq<char>)
    requires
        node.wf(),
        exists|u0: Seq<char>| node.contains_suffix(u0),
    ensures
        node.has_path(p) <==> exists|t: Seq<char>| node.contains_suffix(p + t),
    decreases p.len(),
{
    if p.len() == 0 {
        let u0 = choose|u0: Seq<char>| node.contains_suffix(u0);
        assert(p + u0 =~= u0);
        assert(node.contains_suffix(p + u0));
    } else {
        if node.has_path(p) {
            let k = choose|k: int|
                0 <= k < node.children@.len() && (#[trigger] node.children@[k]).0 == p[0]
                    && node.children@[k].1.has_path(p.skip(1));
            let child = node.children@[k].1;
            lemma_nonempty_exists(child);
            lemma_has_path_iff(child, p.skip(1));
            let t = choose|t: Seq<char>| child.contains_suffix(p.skip(1) + t);
            assert((p + t)[0] == p[0]);
            assert((p + t).skip(1) =~= p.skip(1) + t);
            assert(node.contains_suffix(p + t));
        }
        if exists|t: Seq<char>| node.contains_suffix(p + t) {
            let t = choose|t: Seq<char>| node.contains_suffix(p + t);
            let w = p + t;
            assert(w[0] == p[0]);
            let k = choose|k: int|
                0 <= k < node.children@.len() && (#[trigger] node.children@[k]).0 == w[0]
                    && node.children@[k].1.contains_suffix(w.skip(1));
            let child = node.children@[k].1;
            assert((p + t).skip(1) =~= p.skip(1) + t);
            assert(child.contains_suffix(p.skip(1) + t));
            lemma_nonempty_exists(child);
            lemma_has_path_iff(child, p.skip(1));
            assert(child.has_path(p.skip(1)));
            assert(node.has_path(p));
        }
    }
}

/// A node that records some suffix is nonempty.
proof fn lemma_contains_nonempty(n: Node, u: Seq<char>)
    requires
        n.contains_suffix(u),
    ensures
        n.nonempty(),
    decreases n,
{
    if u.len() != 0 {
        let i = choose|i: int|
            0 <= i < n.children@.len() && (#[trigger] n.children@[i]).0 == u[0]
                && n.children@[i].1.contains_suffix(u.skip(1));
        lemma_contains_nonempty(n.children@[i].1, u.skip(1));
    }
}

/// After growing the child at index `j` (labelled with character `s[i]`) by
/// the suffix of `s` starting at `i + 1`, the whole node records exactly what
/// it did before plus the suffix of `s` starting at `i`.
proof fn lemma_extend_established(pre: Node, post: Node, s: Seq<char>, i: int, j: int)
    requires
        pre.wf(),
        0 <= i < s.len(),
        0 <= j < pre.children.len(),
        pre.children[j].0 == s[i],
        post.children@ == pre.children@.update(j, (pre.children[j].0, post.children[j].1)),
        post.terminal == pre.terminal,
        post.children[j].1.wf(),
        forall|u: Seq<char>|
            post.children[j].1.contains_suffix(u) <==> (pre.children[j].1.contains_suffix(u) || u
                == s.skip(i + 1)),
    ensures
        post.wf(),
        forall|u: Seq<char>|
            post.contains_suffix(u) <==> (pre.contains_suffix(u) || u == s.skip(i)),
{
    let c = s[i];
    assert(post.children[j].1.contains_suffix(s.skip(i + 1)));
    lemma_contains_nonempty(post.children[j].1, s.skip(i + 1));
    assert forall|u: Seq<char>|
        post.contains_suffix(u) <==> (pre.contains_suffix(u) || u == s.skip(i)) by {
        lemma_skip_head(s, i);
        if u.len() == 0 {
            assert(s.skip(i).len() > 0);
        } else if u[0] == c {
            // only index j carries the label c, in both the old and new children
            assert forall|k: int| 0 <= k < pre.children@.len() && k != j implies (
            #[trigger] pre.children@[k]).0 != c by {}
            assert(pre.contains_suffix(u) <==> pre.children[j].1.contains_suffix(u.skip(1)));
            assert(post.contains_suffix(u) <==> post.children[j].1.contains_suffix(u.skip(1)));
            lemma_head_tail_eq(u, s, i);
        } else {
            // u takes a label other than c: those children are untouched
            assert(u != s.skip(i));
            assert(pre.contains_suffix(u) <==> post.contains_suffix(u)) by {
                if pre.contains_suffix(u) {
                    let k = choose|k: int|
                        0 <= k < pre.children@.len() && (#[trigger] pre.children@[k]).0 == u[0]
                            && pre.children@[k].1.contains_suffix(u.skip(1));
                    assert(post.children@[k] == pre.children@[k]);
                }
                if post.contains_suffix(u) {
                    let k = choose|k: int|
                        0 <= k < post.children@.len() && (#[trigger] post.children@[k]).0 == u[0]
                            && post.children@[k].1.contains_suffix(u.skip(1));
                    assert(pre.children@[k] == post.children@[k]);
                }
            }
        }
    }
}

/// After pushing a fresh child labelled `s[i]` that records exactly the
/// suffix of `s` starting at `i + 1`, the whole node records exactly what it
/// did before plus the suffix of `s` starting at `i`.
proof fn lemma_fresh_established(pre: Node, post: Node, s: Seq<char>, i: int)
    requires
        pre.wf(),
        0 <= i < s.len(),
        forall|k: int| 0 <= k < pre.children@.len() ==> (#[trigger] pre.children@[k]).0 != s[i],
        post.children@ == pre.children@.push((s[i], post.children[pre.children@.len() as int].1)),
        post.terminal == pre.terminal,
        post.children[pre.children@.len() as int].1.wf(),
        forall|u: Seq<char>|
            post.children[pre.children@.len() as int].1.contains_suffix(u) <==> u == s.skip(i + 1),
    ensures
        post.wf(),
        forall|u: Seq<char>|
            post.contains_suffix(u) <==> (pre.contains_suffix(u) || u == s.skip(i)),
{
    let c = s[i];
    let j = pre.children@.len() as int;
    assert(post.children[j].1.contains_suffix(s.skip(i + 1)));
    lemma_contains_nonempty(post.children[j].1, s.skip(i + 1));
    assert forall|u: Seq<char>|
        post.contains_suffix(u) <==> (pre.contains_suffix(u) || u == s.skip(i)) by {
        lemma_skip_head(s, i);
        if u.len() == 0 {
            assert(s.skip(i).len() > 0);
        } else if u[0] == c {
            assert(!pre.contains_suffix(u));
            assert(post.contains_suffix(u) <==> post.children[j].1.contains_suffix(u.skip(1)));
            lemma_head_tail_eq(u, s, i);
        } else {
            assert(u != s.skip(i));
            assert(pre.contains_suffix(u) <==> post.contains_suffix(u)) by {
                if pre.contains_suffix(u) {
                    let k = choose|k: int|
                        0 <= k < pre.children@.len() && (#[trigger] pre.children@[k]).0 == u[0]
                            && pre.children@[k].1.contains_suffix(u.skip(1));
                    assert(post.children@[k] == pre.children@[k]);
                }
                if post.contains_suffix(u) {
                    let k = choose|k: int|
                        0 <= k < post.children@.len() && (#[trigger] post.children@[k]).0 == u[0]
                            && post.children@[k].1.contains_suffix(u.skip(1));
                    assert(k != j);
                    assert(pre.children@[k] == post.children@[k]);
                }
            }
        }
    }
}

/// The suffix of `s` starting at `i` begins with `s[i]` and continues as the
/// suffix starting at `i + 1`.
proof fn lemma_skip_head(s: Seq<char>, i: int)
    requires
        0 <= i < s.len(),
    ensures
        s.skip(i).len() == s.len() - i,
        s.skip(i)[0] == s[i],
        s.skip(i).skip(1) == s.skip(i + 1),
{
    assert(s.skip(i).skip(1) =~= s.skip(i + 1));
}

/// A nonempty sequence equals the suffix of `s` starting at `i` exactly when
/// its head is `s[i]` and its tail is the suffix starting at `i + 1`.
proof fn lemma_head_tail_eq(u: Seq<char>, s: Seq<char>, i: int)
    requires
        0 <= i < s.len(),
        u.len() > 0,
        u[0] == s[i],
    ensures
        u == s.skip(i) <==> u.skip(1) == s.skip(i + 1),
{
    lemma_skip_head(s, i);
    if u.skip(1) == s.skip(i + 1) {
        assert(u.skip(1).len() == u.len() - 1);
        assert(s.skip(i + 1).len() == s.len() - i - 1);
        assert(u.len() == s.skip(i).len());
        assert forall|k: int| 0 <= k < u.len() implies u[k] == s.skip(i)[k] by {
            if k > 0 {
                assert(u[k] == u.skip(1)[k - 1]);
                assert(s.skip(i)[k] == s[i + k]);
                assert(s.skip(i + 1)[k - 1] == s[i + k]);
            }
        }
        assert(u =~= s.skip(i));
    }
    if u == s.skip(i) {
        assert(u.skip(1) =~= s.skip(i + 1));
    }
}




} // verus!
