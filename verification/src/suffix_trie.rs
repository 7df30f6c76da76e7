//! The trie container: an ordered dictionary of the inserted words and a root
//! node indexing each word as one suffix chain. Prefix queries are answered
//! from the root node and are fully determined by the dictionary contents.

use vstd::prelude::*;
use crate::node::Node;
use crate::node::distinct_strings;
use crate::node::found_at;
use crate::node::lemma_has_path_iff;
use crate::node::push_char;
use vstd::string::StringExecFns;

verus! {

/// The views of a sequence of strings.
pub open spec fn views_of(words: Seq<String>) -> Seq<Seq<char>> {
    words.map_values(|w: String| w@)
}

/// The continuations that `dict` offers for the prefix `p`: every `t` such
/// that some word of `dict` spells exactly `p` followed by `t`.
pub open spec fn prefix_matches(dict: Seq<Seq<char>>, p: Seq<char>) -> Set<Seq<char>> {
    Set::new(|t: Seq<char>| exists|k: int| 0 <= k < dict.len() && #[trigger] dict[k] == p + t)
}

/// Some word of `dict` starts with `p`.
pub open spec fn some_word_starts_with(dict: Seq<Seq<char>>, p: Seq<char>) -> bool {
    exists|k: int| 0 <= k < dict.len() && p.is_prefix_of(#[trigger] dict[k])
}

/// A sequence starts with `p` exactly when it spells `p` followed by some
/// continuation.
pub proof fn lemma_prefix_iff_extends(w: Seq<char>, p: Seq<char>)
    ensures
        p.is_prefix_of(w) <==> exists|t: Seq<char>| w == #[trigger] (p + t),
{
    if p.is_prefix_of(w) {
        let t = w.skip(p.len() as int);
        assert(w =~= p + t);
    }
    if exists|t: Seq<char>| w == #[trigger] (p + t) {
        let t = choose|t: Seq<char>| w == p + t;
        assert((p + t).take(p.len() as int) =~= p);
        assert(p.is_prefix_of(w));
    }
}

/// A suffix trie: a dictionary logging every inserted word in order
/// (duplicates kept) and a root node recording exactly those words as
/// suffixes. Both are absent until the first word is inserted.
pub struct SuffixTrie {
    dictionary: Option<Vec<String>>,
    main_node: Option<Node>,
}

impl SuffixTrie {
    /// The words inserted so far, in insertion order, as character sequences.
    pub closed spec fn dict(self) -> Seq<Seq<char>> {
        match self.dictionary {
            Some(d) => views_of(d@),
            None => Seq::empty(),
        }
    }

    /// The container invariant: the dictionary and the root node are present
    /// together, only after at least one insertion, and the root records
    /// exactly the dictionary's words as its suffixes.
    pub closed spec fn wf(self) -> bool {
        &&& (self.dictionary is Some <==> self.main_node is Some)
        &&& (self.dictionary matches Some(d) ==> d@.len() > 0)
        &&& (self.main_node matches Some(n) ==> n.wf())
        &&& (self.main_node matches Some(n) ==> forall|u: Seq<char>|
            n.contains_suffix(u) <==> exists|k: int|
                0 <= k < self.dict().len() && #[trigger] self.dict()[k] == u)
    }

    /// Creates an empty trie: nothing inserted, nothing indexed.
    pub fn new() -> (t: SuffixTrie)
        ensures
            t.wf(),
            t.dict() == Seq::<Seq<char>>::empty(),
    {
        SuffixTrie { dictionary: None, main_node: None }
    }

    /// Inserts one word: it is appended to the dictionary verbatim
    /// (duplicates allowed, order preserved) and recorded in the root node
    /// as one suffix. Always succeeds.
    pub fn add_word(&mut self, word: String)
        requires
            old(self).wf(),
        ensures
            final(self).wf(),
            final(self).dict() == old(self).dict().push(word@),
    {
        let mut dict_opt: Option<Vec<String>> = None;
        core::mem::swap(&mut dict_opt, &mut self.dictionary);
        let mut node_opt: Option<Node> = None;
        core::mem::swap(&mut node_opt, &mut self.main_node);
        let mut d: Vec<String> = match dict_opt {
            Some(d) => d,
            None => Vec::new(),
        };
        let mut n: Node = match node_opt {
            Some(n) => n,
            None => Node::new(),
        };
        let ghost n_pre = n;
        d.push(word.clone());
        n.add_suffix(word);
        proof {
            if old(self).main_node is None {
                assert(old(self).dict().len() == 0);
                assert forall|u: Seq<char>|
                    n_pre.contains_suffix(u) <==> exists|k: int|
                        0 <= k < old(self).dict().len() && #[trigger] old(self).dict()[k]
                            == u by {}
            }
            lemma_dict_extend(n_pre, n, old(self).dict(), word@);
        }
        self.dictionary = Some(d);
        self.main_node = Some(n);
        proof {
            assert(views_of(d@) =~= old(self).dict().push(word@));
            let dict_new = self.dict();
            assert forall|u: Seq<char>|
                n.contains_suffix(u) <==> exists|k: int|
                    0 <= k < dict_new.len() && #[trigger] dict_new[k] == u by {
                if n.contains_suffix(u) {
                    let k = choose|k: int|
                        0 <= k < old(self).dict().push(word@).len() && #[trigger] old(
                            self,
                        ).dict().push(word@)[k] == u;
                    assert(dict_new[k] == u);
                }
                if exists|k: int| 0 <= k < dict_new.len() && #[trigger] dict_new[k] == u {
                    let k = choose|k: int| 0 <= k < dict_new.len() && #[trigger] dict_new[k] == u;
                    assert(old(self).dict().push(word@)[k] == u);
                }
            }
        }
    }

    /// Inserts the given words in order, as `add_word` does one by one.
    pub fn add_words(&mut self, words: Vec<String>)
        requires
            old(self).wf(),
        ensures
            final(self).wf(),
            final(self).dict() == old(self).dict() + views_of(words@),
    {
        let n = words.len();
        let mut i: usize = 0;
        while i < n
            invariant
                n == words@.len(),
                i <= n,
                self.wf(),
                self.dict() == old(self).dict() + views_of(words@.take(i as int)),
            decreases n - i,
        {
            let w = words[i].clone();
            self.add_word(w);
            proof {
                assert(views_of(words@.take(i + 1 as int)) =~= views_of(
                    words@.take(i as int),
                ).push(words@[i as int]@));
                assert((old(self).dict() + views_of(words@.take(i as int))).push(words@[i as int]@)
                    =~= old(self).dict() + views_of(words@.take(i + 1 as int)));
            }
            i += 1;
        }
        proof {
            assert(words@.take(n as int) =~= words@);
        }
    }

    /// Answers a prefix query: absent when no inserted word starts with
    /// `prefix` (in particular on a trie that never saw an insertion);
    /// otherwise exactly the set of continuations of `prefix` among the
    /// inserted words, each listed once, with no order guaranteed.
    pub fn find_prefixes(&self, prefix: &str) -> (r: Option<Vec<String>>)
        requires
            self.wf(),
        ensures
            r is Some <==> some_word_starts_with(self.dict(), prefix@),
            r matches Some(v) ==> forall|j: int|
                0 <= j < v@.len() ==> prefix_matches(self.dict(), prefix@).contains(
                    (#[trigger] v@[j])@,
                ),
            r matches Some(v) ==> forall|t: Seq<char>|
                prefix_matches(self.dict(), prefix@).contains(t) ==> #[trigger] found_at(v@, t),
            r matches Some(v) ==> distinct_strings(v@),
    {
        match &self.main_node {
            None => {
                proof {
                    assert(self.dict().len() == 0);
                }
                None
            },
            Some(n) => {
                let r = n.find_by_prefix(prefix);
                proof {
                    let dict = self.dict();
                    let p = prefix@;
                    assert(n.contains_suffix(dict[0])) by {
                        assert(0 <= 0 < dict.len() && dict[0] == dict[0]);
                    }
                    lemma_has_path_iff(*n, p);
                    assert((r is Some) <==> some_word_starts_with(dict, p)) by {
                        if r is Some {
                            let t = choose|t: Seq<char>| n.contains_suffix(p + t);
                            let k = choose|k: int| 0 <= k < dict.len() && dict[k] == p + t;
                            lemma_prefix_iff_extends(dict[k], p);
                        }
                        if some_word_starts_with(dict, p) {
                            let k = choose|k: int|
                                0 <= k < dict.len() && p.is_prefix_of(#[trigger] dict[k]);
                            lemma_prefix_iff_extends(dict[k], p);
                            let t = choose|t: Seq<char>| dict[k] == p + t;
                            assert(n.contains_suffix(p + t));
                        }
                    }
                    if r is Some {
                        let v = r->Some_0;
                        assert forall|j: int| 0 <= j < v@.len() implies prefix_matches(
                            dict,
                            p,
                        ).contains((#[trigger] v@[j])@) by {
                            assert(n.contains_suffix(p + v@[j]@));
                        }
                        assert forall|t: Seq<char>|
                            prefix_matches(dict, p).contains(t) implies #[trigger] found_at(
                            v@,
                            t,
                        ) by {
                            assert(n.contains_suffix(p + t));
                        }
                    }
                }
                r
            },
        }
    }

    /// Renders the dictionary for display: the words joined by single
    /// newlines in insertion order, or the fixed placeholder text when no
    /// word was ever inserted.
    pub fn display_string(&self) -> (r: String)
        requires
            self.wf(),
        ensures
            self.dict().len() == 0 ==> r@ == "dictionary is empty"@,
            self.dict().len() > 0 ==> r@ == joined_with_newlines(self.dict()),
    {
        match &self.dictionary {
            None => "dictionary is empty".to_owned(),
            Some(d) => {
                let mut out = d[0].clone();
                let n = d.len();
                let mut i: usize = 1;
                proof {
                    assert(views_of(d@).take(1) =~= seq![d@[0]@]);
                    assert(out@ == joined_with_newlines(views_of(d@).take(1)));
                }
                while i < n
                    invariant
                        n == d@.len(),
                        1 <= i <= n,
                        out@ == joined_with_newlines(views_of(d@).take(i as int)),
                    decreases n - i,
                {
                    let ghost out_pre = out@;
                    push_char(&mut out, '\n');
                    out.append(d[i].as_str());
                    proof {
                        let dv = views_of(d@);
                        assert(dv.take(i + 1 as int).drop_last() =~= dv.take(i as int));
                        assert(dv.take(i + 1 as int).last() == d@[i as int]@);
                        assert(out_pre.push('\n') + d@[i as int]@ =~= out_pre + seq!['\n']
                            + d@[i as int]@);
                    }
                    i += 1;
                }
                proof {
                    assert(views_of(d@).take(n as int) =~= views_of(d@));
                }
                out
            },
        }
    }
}

/// The given words joined by single newlines: empty for no words, the word
/// itself for one, and otherwise the earlier words' rendering, a newline and
/// the last word.
pub open spec fn joined_with_newlines(dict: Seq<Seq<char>>) -> Seq<char>
    decreases dict.len(),
{
    if dict.len() == 0 {
        Seq::empty()
    } else if dict.len() == 1 {
        dict[0]
    } else {
        joined_with_newlines(dict.drop_last()) + seq!['\n'] + dict.last()
    }
}

/// Growing a node by the one word `w` extends the dictionary it records by
/// exactly that word.
proof fn lemma_dict_extend(n_old: Node, n_new: Node, dict_old: Seq<Seq<char>>, w: Seq<char>)
    requires
        forall|u: Seq<char>|
            n_old.contains_suffix(u) <==> exists|k: int|
                0 <= k < dict_old.len() && #[trigger] dict_old[k] == u,
        forall|u: Seq<char>|
            n_new.contains_suffix(u) <==> (n_old.contains_suffix(u) || u == w),
    ensures
        forall|u: Seq<char>|
            n_new.contains_suffix(u) <==> exists|k: int|
                0 <= k < dict_old.push(w).len() && #[trigger] dict_old.push(w)[k] == u,
{
    assert forall|u: Seq<char>|
        n_new.contains_suffix(u) <==> exists|k: int|
            0 <= k < dict_old.push(w).len() && #[trigger] dict_old.push(w)[k] == u by {
        if n_new.contains_suffix(u) {
            if n_old.contains_suffix(u) {
                let k = choose|k: int| 0 <= k < dict_old.len() && #[trigger] dict_old[k] == u;
                assert(dict_old.push(w)[k] == u);
            } else {
                assert(u == w);
                assert(dict_old.push(w)[dict_old.len() as int] == u);
            }
        }
        if exists|k: int| 0 <= k < dict_old.push(w).len() && #[trigger] dict_old.push(w)[k] == u {
            let k = choose|k: int|
                0 <= k < dict_old.push(w).len() && #[trigger] dict_old.push(w)[k] == u;
            if k < dict_old.len() {
                assert(dict_old[k] == u);
            } else {
                assert(u == w);
            }
        }
    }
}

} // verus!
