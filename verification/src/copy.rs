//! The tree-copy checkout source, modelled on plain values: a file tree is
//! a map from relative paths (as bytes) to nodes, and copying one captured
//! source entry into a destination tree follows the same decision table as
//! the on-disk copy — create what is absent, replace what is stale, and
//! clear a replaced directory's whole subtree first. Walking the real
//! source tree and touching the disk is the caller's business; it hands
//! the captured entries in and mirrors the decisions out.

use vstd::prelude::*;

verus! {

/// The path separator byte.
pub const SLASH: u8 = 47;

/// One node of a file tree: a directory or a file with its contents.
pub enum FsNode {
    Dir,
    File { content: Vec<u8> },
}

/// The ghost value of a node: its kind and, for a file, its contents.
pub enum NodeV {
    Dir,
    File { content: Seq<u8> },
}

impl View for FsNode {
    type V = NodeV;

    open spec fn view(&self) -> NodeV {
        match self {
            FsNode::Dir => NodeV::Dir,
            FsNode::File { content } => NodeV::File { content: content@ },
        }
    }
}

impl Clone for FsNode {
    fn clone(&self) -> (r: Self)
        ensures
            r@ == self@,
    {
        match self {
            FsNode::Dir => FsNode::Dir,
            FsNode::File { content } => FsNode::File { content: clone_bytes(content) },
        }
    }
}

/// One captured source entry: a path relative to the project root, and
/// what stands at it.
pub struct Entry {
    pub path: Vec<u8>,
    pub node: FsNode,
}

/// The ghost value of a captured entry.
pub struct EntryV {
    pub path: Seq<u8>,
    pub node: NodeV,
}

impl View for Entry {
    type V = EntryV;

    open spec fn view(&self) -> EntryV {
        EntryV { path: self.path@, node: self.node@ }
    }
}

/// The ghost values of a captured entry list.
pub open spec fn entry_views(es: Seq<Entry>) -> Seq<EntryV> {
    es.map_values(|e: Entry| e@)
}

/// `anc` is a strict ancestor directory path of `desc`: `desc` starts with
/// `anc` followed by the separator.
pub open spec fn under(anc: Seq<u8>, desc: Seq<u8>) -> bool {
    desc.len() > anc.len() && desc.take(anc.len() as int) == anc && desc[anc.len() as int] == SLASH
}

/// Ancestry is transitive.
pub proof fn lemma_under_transitive(a: Seq<u8>, b: Seq<u8>, c: Seq<u8>)
    requires
        under(a, b),
        under(b, c),
    ensures
        under(a, c),
{
    assert(c.take(a.len() as int) =~= a) by {
        assert(forall|k: int| 0 <= k < b.len() ==> c[k] == b[k]) by {
            assert(forall|k: int| 0 <= k < b.len() ==> c.take(b.len() as int)[k] == c[k]);
            assert(forall|k: int| 0 <= k < b.len() ==> b[k] == c.take(b.len() as int)[k]);
        }
        assert(forall|k: int| 0 <= k < a.len() ==> b[k] == a[k]) by {
            assert(forall|k: int| 0 <= k < a.len() ==> b.take(a.len() as int)[k] == b[k]);
            assert(forall|k: int| 0 <= k < a.len() ==> a[k] == b.take(a.len() as int)[k]);
        }
    }
    assert(c[a.len() as int] == b[a.len() as int]);
}

fn bytes_eq(a: &Vec<u8>, b: &Vec<u8>) -> (r: bool)
    ensures
        r == (a@ == b@),
{
    if a.len() != b.len() {
        return false;
    }
    let n = a.len();
    let mut i: usize = 0;
    while i < n
        invariant
            n == a@.len(),
            n == b@.len(),
            i <= n,
            forall|j: int| 0 <= j < i ==> a@[j] == b@[j],
        decreases n - i,
    {
        if a[i] != b[i] {
            return false;
        }
        i = i + 1;
    }
    proof {
        assert(a@ =~= b@);
    }
    true
}

fn clone_bytes(a: &Vec<u8>) -> (r: Vec<u8>)
    ensures
        r@ == a@,
{
    let mut r: Vec<u8> = Vec::new();
    let n = a.len();
    let mut i: usize = 0;
    while i < n
        invariant
            n == a@.len(),
            i <= n,
            r@ == a@.take(i as int),
        decreases n - i,
    {
        r.push(a[i]);
        proof {
            assert(r@ =~= a@.take(i + 1));
        }
        i = i + 1;
    }
    proof {
        assert(a@.take(n as int) =~= a@);
    }
    r
}

/// Whether `desc` lies strictly under the directory path `anc`.
fn is_under(anc: &Vec<u8>, desc: &Vec<u8>) -> (r: bool)
    ensures
        r == under(anc@, desc@),
{
    let na = anc.len();
    let nd = desc.len();
    if nd <= na {
        return false;
    }
    if desc[na] != SLASH {
        return false;
    }
    let mut i: usize = 0;
    while i < na
        invariant
            na == anc@.len(),
            nd == desc@.len(),
            na < nd,
            i <= na,
            forall|j: int| 0 <= j < i ==> desc@[j] == anc@[j],
        decreases na - i,
    {
        if desc[i] != anc[i] {
            assert(desc@.take(na as int)[i as int] != anc@[i as int]);
            return false;
        }
        i = i + 1;
    }
    proof {
        assert(desc@.take(na as int) =~= anc@);
    }
    true
}

/// Some position of `s` holds the key `k`.
pub open spec fn key_in(s: Seq<(Vec<u8>, FsNode)>, k: Seq<u8>) -> bool {
    exists|j: int| 0 <= j < s.len() && (#[trigger] s[j]).0@ == k
}

/// The node stored at the key `k`.
pub open spec fn node_at(s: Seq<(Vec<u8>, FsNode)>, k: Seq<u8>) -> NodeV {
    s[choose|j: int| 0 <= j < s.len() && (#[trigger] s[j]).0@ == k].1@
}

/// No two positions of `s` hold the same key.
pub open spec fn unique_keys(s: Seq<(Vec<u8>, FsNode)>) -> bool {
    forall|i: int, j: int| 0 <= i < j < s.len() ==> (#[trigger] s[i]).0@ != (#[trigger] s[j]).0@
}

/// With unique keys, the node at a key is the node of any position that
/// holds the key.
proof fn lemma_node_at(s: Seq<(Vec<u8>, FsNode)>, k: Seq<u8>, j: int)
    requires
        unique_keys(s),
        0 <= j < s.len(),
        s[j].0@ == k,
    ensures
        node_at(s, k) == s[j].1@,
{
    let j0 = choose|j0: int| 0 <= j0 < s.len() && (#[trigger] s[j0]).0@ == k;
    if j0 != j {
        if j0 < j {
            assert(s[j0].0@ != s[j].0@);
        } else {
            assert(s[j].0@ != s[j0].0@);
        }
    }
}

/// A destination file tree: relative paths (as bytes) mapped to nodes.
pub struct Tree {
    entries: Vec<(Vec<u8>, FsNode)>,
}

impl View for Tree {
    type V = Map<Seq<u8>, NodeV>;

    closed spec fn view(&self) -> Map<Seq<u8>, NodeV> {
        Map::new(|k: Seq<u8>| key_in(self.entries@, k), |k: Seq<u8>| node_at(self.entries@, k))
    }
}

impl Tree {
    /// The tree's internal representation holds each path once.
    pub closed spec fn wf(&self) -> bool {
        unique_keys(self.entries@)
    }

    /// An empty destination: nothing exists yet.
    pub fn new() -> (t: Tree)
        ensures
            t.wf(),
            t@ == Map::<Seq<u8>, NodeV>::empty(),
    {
        let t = Tree { entries: Vec::new() };
        proof {
            assert(t@ =~= Map::<Seq<u8>, NodeV>::empty());
        }
        t
    }

    fn find(&self, path: &Vec<u8>) -> (r: Option<usize>)
        ensures
            match r {
                Some(idx) => idx < self.entries@.len() && self.entries@[idx as int].0@ == path@,
                None => !key_in(self.entries@, path@),
            },
    {
        let n = self.entries.len();
        let mut i: usize = 0;
        while i < n
            invariant
                n == self.entries@.len(),
                i <= n,
                forall|j: int| 0 <= j < i ==> (#[trigger] self.entries@[j]).0@ != path@,
            decreases n - i,
        {
            if bytes_eq(&self.entries[i].0, path) {
                return Some(i);
            }
            i = i + 1;
        }
        None
    }

    /// What stands at a path, if anything.
    pub fn lookup(&self, path: &Vec<u8>) -> (r: Option<&FsNode>)
        requires
            self.wf(),
        ensures
            r is Some <==> self@.contains_key(path@),
            r matches Some(n) ==> n@ == self@[path@],
    {
        match self.find(path) {
            Some(idx) => {
                proof {
                    lemma_node_at(self.entries@, path@, idx as int);
                }
                Some(&self.entries[idx].1)
            },
            None => None,
        }
    }

    /// How many paths exist.
    pub fn path_count(&self) -> (r: usize)
        requires
            self.wf(),
        ensures
            r == self@.dom().len(),
    {
        proof {
            lemma_unique_dom_len(self.entries@);
        }
        self.entries.len()
    }

    /// Put `node` at `path`, replacing whatever single entry stood there.
    pub fn set_node(&mut self, path: Vec<u8>, node: FsNode)
        requires
            old(self).wf(),
        ensures
            final (self).wf(),
            final (self)@ == old(self)@.insert(path@, node@),
    {
        let ghost pre = self.entries@;
        match self.find(&path) {
            Some(idx) => {
                self.entries.swap_remove(idx);
                proof {
                    lemma_swap_remove_entry(pre, idx as int);
                }
            },
            None => {},
        }
        let ghost mid = self.entries@;
        proof {
            assert(unique_keys(mid));
            assert forall|k: Seq<u8>|
                key_in(mid, k) implies (key_in(pre, k) && k != path@ && node_at(mid, k) == node_at(
                pre,
                k,
            )) by {}
            assert forall|k: Seq<u8>| key_in(pre, k) && k != path@ implies key_in(mid, k) by {}
        }
        self.entries.push((path, node));
        proof {
            let s2 = self.entries@;
            assert(s2[mid.len() as int] == (path, node));
            assert(forall|t: int| 0 <= t < mid.len() ==> s2[t] == mid[t]);
            assert forall|t: int| 0 <= t < mid.len() implies (#[trigger] mid[t]).0@ != path@ by {
                assert(key_in(mid, mid[t].0@));
            }
            assert(unique_keys(s2));
            assert(self@ =~= old(self)@.insert(path@, node@)) by {
                assert forall|k: Seq<u8>| key_in(s2, k) implies (k == path@ || key_in(pre, k))
                    && node_at(s2, k) == (if k == path@ {
                    node@
                } else {
                    node_at(pre, k)
                }) by {
                    let j = choose|j: int| 0 <= j < s2.len() && (#[trigger] s2[j]).0@ == k;
                    lemma_node_at(s2, k, j);
                    if j < mid.len() {
                        assert(s2[j] == mid[j]);
                        assert(key_in(mid, k));
                        lemma_node_at(mid, k, j);
                    } else {
                        assert(k == path@);
                    }
                }
                assert forall|k: Seq<u8>| key_in(pre, k) && k != path@ implies key_in(s2, k) by {
                    assert(key_in(mid, k));
                    let j = choose|j: int| 0 <= j < mid.len() && (#[trigger] mid[j]).0@ == k;
                    assert(s2[j].0@ == k);
                }
                assert(key_in(s2, path@)) by {
                    assert(s2[mid.len() as int].0@ == path@);
                }
            }
        }
    }

    /// Remove everything strictly under the directory path `path`; the
    /// path itself stays.
    pub fn remove_subtree(&mut self, path: &Vec<u8>)
        requires
            old(self).wf(),
        ensures
            final (self).wf(),
            final (self)@ == old(self)@.remove_keys(Set::new(|k: Seq<u8>| under(path@, k))),
    {
        let ghost orig = self.entries@;
        let ghost n = orig.len() as int;
        let mut kept: Vec<(Vec<u8>, FsNode)> = Vec::new();
        let ghost mut popped: int = 0;
        loop
            invariant
                0 <= popped <= n,
                n == orig.len(),
                self.entries@ == orig.take(n - popped),
                kept@ == orig.skip(n - popped).reverse().filter(
                    |p: (Vec<u8>, FsNode)| !under(path@, p.0@),
                ),
            ensures
                kept@ == orig.reverse().filter(|p: (Vec<u8>, FsNode)| !under(path@, p.0@)),
            decreases n - popped,
        {
            if self.entries.len() == 0 {
                proof {
                    assert(orig.take(n - popped).len() == 0);
                    assert(popped == n);
                    assert(orig.skip(0) =~= orig);
                }
                break ;
            }
            let pair = self.entries.pop().unwrap();
            proof {
                assert(self.entries@ =~= orig.take(n - popped - 1));
                assert(orig.take(n - popped).last() == orig[n - popped - 1]);
            }
            let keep = !is_under(path, &pair.0);
            if keep {
                kept.push(pair);
            }
            proof {
                broadcast use vstd::prelude::Seq::lemma_filter_push;

                assert(orig.skip(n - popped - 1).reverse() =~= orig.skip(n - popped).reverse().push(
                    orig[n - popped - 1],
                ));
                popped = popped + 1;
            }
        }
        self.entries = kept;
        proof {
            let pred = |p: (Vec<u8>, FsNode)| !under(path@, p.0@);
            let rev = orig.reverse();
            lemma_unique_symm(orig);
            assert forall|a: int, b: int| 0 <= a < b < rev.len() implies (#[trigger] rev[a]).0@
                != (#[trigger] rev[b]).0@ by {
                assert(rev[a] == orig[n - 1 - a]);
                assert(rev[b] == orig[n - 1 - b]);
            }
            lemma_filter_entries(rev, path@);
            assert forall|k: Seq<u8>| #[trigger] key_in(rev, k) implies key_in(orig, k) && node_at(
                rev,
                k,
            ) == node_at(orig, k) by {
                let j = choose|j: int| 0 <= j < rev.len() && (#[trigger] rev[j]).0@ == k;
                assert(orig[n - 1 - j].0@ == k);
                lemma_node_at(rev, k, j);
                lemma_node_at(orig, k, n - 1 - j);
            }
            assert forall|k: Seq<u8>| #[trigger] key_in(orig, k) implies key_in(rev, k) by {
                let j = choose|j: int| 0 <= j < orig.len() && (#[trigger] orig[j]).0@ == k;
                assert(rev[n - 1 - j].0@ == k);
            }
            assert(self@ =~= old(self)@.remove_keys(Set::new(|k: Seq<u8>| under(path@, k))));
        }
    }
}

/// With unique keys, any two distinct positions hold distinct keys.
proof fn lemma_unique_symm(s: Seq<(Vec<u8>, FsNode)>)
    requires
        unique_keys(s),
    ensures
        forall|a: int, b: int|
            0 <= a < s.len() && 0 <= b < s.len() && a != b ==> (#[trigger] s[a]).0@
                != (#[trigger] s[b]).0@,
{
    assert forall|a: int, b: int|
        0 <= a < s.len() && 0 <= b < s.len() && a != b implies (#[trigger] s[a]).0@
        != (#[trigger] s[b]).0@ by {
        if a < b {
            assert(s[a].0@ != s[b].0@);
        } else {
            assert(s[b].0@ != s[a].0@);
        }
    }
}

/// Filtering an association list by ancestry keeps exactly the keys that
/// do not lie under the excluded path, with their nodes.
proof fn lemma_filter_entries(s: Seq<(Vec<u8>, FsNode)>, excl: Seq<u8>)
    requires
        unique_keys(s),
    ensures
        ({
            let f = s.filter(|p: (Vec<u8>, FsNode)| !under(excl, p.0@));
            &&& unique_keys(f)
            &&& forall|k: Seq<u8>| #[trigger] key_in(f, k) <==> (key_in(s, k) && !under(excl, k))
            &&& forall|k: Seq<u8>| #[trigger] key_in(f, k) ==> node_at(f, k) == node_at(s, k)
        }),
    decreases s.len(),
{
    let pred = |p: (Vec<u8>, FsNode)| !under(excl, p.0@);
    let f = s.filter(pred);
    if s.len() == 0 {
        reveal(Seq::filter);
        assert(f =~= s);
        assert forall|k: Seq<u8>| #[trigger] key_in(f, k) implies (key_in(s, k) && !under(
            excl,
            k,
        )) by {}
    } else {
        let s0 = s.drop_last();
        let last = s.last();
        assert(unique_keys(s0)) by {
            assert(forall|t: int| 0 <= t < s0.len() ==> s0[t] == s[t]);
        }
        lemma_filter_entries(s0, excl);
        let f0 = s0.filter(pred);
        s0.lemma_filter_push(last, pred);
        assert(s0.push(last) =~= s);
        assert(f == if pred(last) {
            f0.push(last)
        } else {
            f0
        });
        assert(!key_in(s0, last.0@)) by {
            if key_in(s0, last.0@) {
                let j = choose|j: int| 0 <= j < s0.len() && (#[trigger] s0[j]).0@ == last.0@;
                assert(s[j].0@ == s[s.len() - 1].0@);
            }
        }
        assert forall|k: Seq<u8>| #[trigger] key_in(s, k) implies (key_in(s0, k) || k
            == last.0@) by {
            let j = choose|j: int| 0 <= j < s.len() && (#[trigger] s[j]).0@ == k;
            if j < s.len() - 1 {
                assert(s0[j].0@ == k);
            }
        }
        assert forall|k: Seq<u8>| #[trigger] key_in(s0, k) implies key_in(s, k) by {
            let j = choose|j: int| 0 <= j < s0.len() && (#[trigger] s0[j]).0@ == k;
            assert(s[j].0@ == k);
        }
        assert(key_in(s, last.0@)) by {
            assert(s[s.len() - 1].0@ == last.0@);
        }
        assert forall|k: Seq<u8>| #[trigger] key_in(s0, k) implies node_at(s0, k) == node_at(
            s,
            k,
        ) by {
            let j = choose|j: int| 0 <= j < s0.len() && (#[trigger] s0[j]).0@ == k;
            lemma_node_at(s0, k, j);
            lemma_node_at(s, k, j);
        }
        if pred(last) {
            assert(!key_in(f0, last.0@));
            assert(f[f0.len() as int] == last);
            assert(forall|t: int| 0 <= t < f0.len() ==> f[t] == f0[t]);
            assert(unique_keys(f)) by {
                assert forall|t: int| 0 <= t < f0.len() implies (#[trigger] f0[t]).0@
                    != last.0@ by {
                    assert(key_in(f0, f0[t].0@));
                }
            }
            assert forall|k: Seq<u8>| #[trigger] key_in(f, k) implies (key_in(s, k) && !under(
                excl,
                k,
            )) by {
                let j = choose|j: int| 0 <= j < f.len() && (#[trigger] f[j]).0@ == k;
                if j < f0.len() {
                    assert(f0[j].0@ == k);
                    assert(key_in(f0, k));
                } else {
                    assert(k == last.0@);
                }
            }
            assert forall|k: Seq<u8>| key_in(s, k) && !under(excl, k) implies #[trigger] key_in(
                f,
                k,
            ) by {
                if k == last.0@ {
                    assert(f[f0.len() as int].0@ == k);
                } else {
                    assert(key_in(s0, k));
                    assert(key_in(f0, k));
                    let j = choose|j: int| 0 <= j < f0.len() && (#[trigger] f0[j]).0@ == k;
                    assert(f[j].0@ == k);
                }
            }
            assert forall|k: Seq<u8>| #[trigger] key_in(f, k) implies node_at(f, k) == node_at(
                s,
                k,
            ) by {
                let j = choose|j: int| 0 <= j < f.len() && (#[trigger] f[j]).0@ == k;
                lemma_node_at(f, k, j);
                if j < f0.len() {
                    assert(f0[j].0@ == k);
                    assert(key_in(f0, k));
                    lemma_node_at(f0, k, j);
                } else {
                    assert(k == last.0@);
                    lemma_node_at(s, k, s.len() - 1);
                }
            }
        } else {
            assert(under(excl, last.0@));
            assert forall|k: Seq<u8>| #[trigger] key_in(f, k) implies (key_in(s, k) && !under(
                excl,
                k,
            )) by {}
            assert forall|k: Seq<u8>| key_in(s, k) && !under(excl, k) implies #[trigger] key_in(
                f,
                k,
            ) by {
                assert(k != last.0@);
                assert(key_in(s0, k));
            }
            assert forall|k: Seq<u8>| #[trigger] key_in(f, k) implies node_at(f, k) == node_at(
                s,
                k,
            ) by {}
        }
    }
}

/// With unique keys, the key set is finite and as large as the entry list.
proof fn lemma_unique_dom_len(s: Seq<(Vec<u8>, FsNode)>)
    requires
        unique_keys(s),
    ensures
        Map::new(|k: Seq<u8>| key_in(s, k), |k: Seq<u8>| node_at(s, k)).dom().finite(),
        Map::new(|k: Seq<u8>| key_in(s, k), |k: Seq<u8>| node_at(s, k)).dom().len() == s.len(),
    decreases s.len(),
{
    let m = Map::new(|k: Seq<u8>| key_in(s, k), |k: Seq<u8>| node_at(s, k));
    if s.len() == 0 {
        assert(m.dom() =~= Set::<Seq<u8>>::empty());
    } else {
        let s0 = s.drop_last();
        let m0 = Map::new(|k: Seq<u8>| key_in(s0, k), |k: Seq<u8>| node_at(s0, k));
        lemma_unique_dom_len(s0);
        assert forall|k: Seq<u8>| key_in(s0, k) implies key_in(s, k) by {
            let j = choose|j: int| 0 <= j < s0.len() && (#[trigger] s0[j]).0@ == k;
            assert(s[j].0@ == k);
        }
        assert forall|k: Seq<u8>| key_in(s, k) && k != s.last().0@ implies key_in(s0, k) by {
            let j = choose|j: int| 0 <= j < s.len() && (#[trigger] s[j]).0@ == k;
            assert(j < s.len() - 1);
            assert(s0[j].0@ == k);
        }
        assert(!key_in(s0, s.last().0@)) by {
            if key_in(s0, s.last().0@) {
                let j = choose|j: int| 0 <= j < s0.len() && (#[trigger] s0[j]).0@ == s.last().0@;
                assert(s[j].0@ == s.last().0@);
            }
        }
        assert(key_in(s, s.last().0@)) by {
            assert(s[s.len() - 1].0@ == s.last().0@);
        }
        assert(m.dom() =~= m0.dom().insert(s.last().0@));
        vstd::set::axiom_set_insert_len(m0.dom(), s.last().0@);
    }
}

/// Removing the position `idx` by a swap with the last element keeps every
/// other key and its node, and drops exactly the key at `idx`.
proof fn lemma_swap_remove_entry(s: Seq<(Vec<u8>, FsNode)>, idx: int)
    requires
        unique_keys(s),
        0 <= idx < s.len(),
    ensures
        unique_keys(s.update(idx, s.last()).drop_last()),
        forall|k: Seq<u8>|
            key_in(s.update(idx, s.last()).drop_last(), k) <==> (key_in(s, k) && k != s[idx].0@),
        forall|k: Seq<u8>|
            key_in(s.update(idx, s.last()).drop_last(), k) ==> node_at(
                s.update(idx, s.last()).drop_last(),
                k,
            ) == node_at(s, k),
{
    let s2 = s.update(idx, s.last()).drop_last();
    let n = s.len() as int;
    assert(s2.len() == n - 1);
    assert forall|j: int| 0 <= j < n - 1 implies #[trigger] s2[j] == (if j == idx {
        s[n - 1]
    } else {
        s[j]
    }) by {}
    assert forall|a: int, b: int| 0 <= a < n && 0 <= b < n && a != b implies (#[trigger] s[a]).0@
        != (#[trigger] s[b]).0@ by {
        if a < b {
            assert(s[a].0@ != s[b].0@);
        } else {
            assert(s[b].0@ != s[a].0@);
        }
    }
    assert(unique_keys(s2));
    assert forall|k: Seq<u8>| key_in(s2, k) implies (key_in(s, k) && k != s[idx].0@) by {
        let j = choose|j: int| 0 <= j < s2.len() && (#[trigger] s2[j]).0@ == k;
        if j == idx {
            assert(s[n - 1].0@ == k);
            assert(idx != n - 1);
        } else {
            assert(s[j].0@ == k);
        }
    }
    assert forall|k: Seq<u8>| key_in(s, k) && k != s[idx].0@ implies key_in(s2, k) by {
        let u = choose|u: int| 0 <= u < s.len() && (#[trigger] s[u]).0@ == k;
        assert(u != idx);
        if u == n - 1 {
            assert(idx < n - 1);
            assert(s2[idx].0@ == k);
        } else {
            assert(s2[u].0@ == k);
        }
    }
    assert forall|k: Seq<u8>| key_in(s2, k) implies node_at(s2, k) == node_at(s, k) by {
        let j = choose|j: int| 0 <= j < s2.len() && (#[trigger] s2[j]).0@ == k;
        lemma_node_at(s2, k, j);
        if j == idx {
            lemma_node_at(s, k, n - 1);
        } else {
            lemma_node_at(s, k, j);
        }
    }
}

/// What one copied entry does to the destination: the entry's node lands
/// at its path; when a directory stood there before, its whole subtree is
/// cleared first, exactly as removing the stale directory does on disk.
pub open spec fn spec_do_copy(m: Map<Seq<u8>, NodeV>, e: EntryV) -> Map<Seq<u8>, NodeV> {
    let cleared = if m.contains_key(e.path) && m[e.path] is Dir {
        m.remove_keys(Set::new(|k: Seq<u8>| under(e.path, k)))
    } else {
        m
    };
    cleared.insert(e.path, e.node)
}

/// Copy one captured source entry into the destination tree: create what
/// is absent, replace what stands there, clearing a replaced directory's
/// subtree first.
pub fn do_copy(entry: &Entry, tree: &mut Tree)
    requires
        old(tree).wf(),
    ensures
        final (tree).wf(),
        final (tree)@ == spec_do_copy(old(tree)@, entry@),
{
    let existing_is_dir = match tree.lookup(&entry.path) {
        Some(node) => match node {
            FsNode::Dir => true,
            FsNode::File { .. } => false,
        },
        None => false,
    };
    if existing_is_dir {
        tree.remove_subtree(&entry.path);
    }
    tree.set_node(clone_bytes(&entry.path), entry.node.clone());
}

/// What copying a whole captured entry list does, first entry first.
pub open spec fn spec_copy_all(m: Map<Seq<u8>, NodeV>, es: Seq<EntryV>) -> Map<Seq<u8>, NodeV>
    decreases es.len(),
{
    if es.len() == 0 {
        m
    } else {
        spec_do_copy(spec_copy_all(m, es.drop_last()), es.last())
    }
}

/// Copy every captured source entry into one destination tree, in capture
/// order.
pub fn copy_tree(tree: &mut Tree, entries: &Vec<Entry>)
    requires
        old(tree).wf(),
    ensures
        final (tree).wf(),
        final (tree)@ == spec_copy_all(old(tree)@, entry_views(entries@)),
{
    let ghost evs = entry_views(entries@);
    let n = entries.len();
    let mut i: usize = 0;
    while i < n
        invariant
            n == entries@.len(),
            evs == entry_views(entries@),
            i <= n,
            tree.wf(),
            tree@ == spec_copy_all(old(tree)@, evs.take(i as int)),
        decreases n - i,
    {
        do_copy(&entries[i], tree);
        proof {
            assert(evs.take(i + 1).drop_last() =~= evs.take(i as int));
            assert(evs.take(i + 1).last() == evs[i as int]);
            assert(evs[i as int] == entries@[i as int]@);
        }
        i = i + 1;
    }
    proof {
        assert(evs.take(n as int) =~= evs);
    }
}

/// Copy the captured source entries into every checkout's destination
/// tree, in input order. In this model no per-file operation can fail, so
/// the batch always reports success; the on-disk runner reports a failed
/// record through its status sink and continues with the next record.
pub fn copy_repo(trees: Vec<Tree>, entries: &Vec<Entry>) -> (r: (Vec<Tree>, bool))
    requires
        forall|i: int| 0 <= i < trees@.len() ==> (#[trigger] trees@[i]).wf(),
    ensures
        r.1 == true,
        r.0@.len() == trees@.len(),
        forall|i: int|
            0 <= i < trees@.len() ==> (#[trigger] r.0@[i]).wf() && r.0@[i]@ == spec_copy_all(
                trees@[i]@,
                entry_views(entries@),
            ),
{
    let ghost orig = trees@;
    let mut remaining = trees;
    let mut done: Vec<Tree> = Vec::new();
    let n = remaining.len();
    let mut i: usize = 0;
    while i < n
        invariant
            n == orig.len(),
            remaining@ == orig.skip(i as int),
            done@.len() == i,
            i <= n,
            forall|j: int| 0 <= j < n ==> (#[trigger] orig[j]).wf(),
            forall|j: int|
                0 <= j < i ==> (#[trigger] done@[j]).wf() && done@[j]@ == spec_copy_all(
                    orig[j]@,
                    entry_views(entries@),
                ),
        decreases n - i,
    {
        let mut t = remaining.remove(0);
        proof {
            assert(orig.skip(i as int)[0] == orig[i as int]);
            assert(remaining@ =~= orig.skip(i + 1));
        }
        copy_tree(&mut t, entries);
        done.push(t);
        i = i + 1;
    }
    (done, true)
}


/// Some entry has the path `k`.
pub open spec fn entry_key_in(es: Seq<EntryV>, k: Seq<u8>) -> bool {
    exists|i: int| 0 <= i < es.len() && (#[trigger] es[i]).path == k
}

/// The node of the entry whose path is `k`.
pub open spec fn entry_node_at(es: Seq<EntryV>, k: Seq<u8>) -> NodeV {
    es[choose|i: int| 0 <= i < es.len() && (#[trigger] es[i]).path == k].node
}

/// A captured entry list as one walk of a source tree yields it: each path
/// appears once, and every ancestor directory comes before everything
/// under it.
pub open spec fn wf_entries(es: Seq<EntryV>) -> bool {
    &&& forall|i: int, j: int|
        0 <= i < j < es.len() ==> (#[trigger] es[i]).path != (#[trigger] es[j]).path
    &&& forall|i: int, j: int|
        0 <= i < es.len() && 0 <= j < es.len() && under(
            (#[trigger] es[i]).path,
            (#[trigger] es[j]).path,
        ) ==> i < j
}

/// The tree that the captured entries themselves describe.
pub open spec fn entries_map(es: Seq<EntryV>) -> Map<Seq<u8>, NodeV> {
    Map::new(|k: Seq<u8>| entry_key_in(es, k), |k: Seq<u8>| entry_node_at(es, k))
}

/// With distinct paths, the node at a path is the node of any entry that
/// has it.
proof fn lemma_entry_node_at(es: Seq<EntryV>, k: Seq<u8>, i: int)
    requires
        wf_entries(es),
        0 <= i < es.len(),
        es[i].path == k,
    ensures
        entry_node_at(es, k) == es[i].node,
{
    let i0 = choose|i0: int| 0 <= i0 < es.len() && (#[trigger] es[i0]).path == k;
    if i0 != i {
        if i0 < i {
            assert(es[i0].path != es[i].path);
        } else {
            assert(es[i].path != es[i0].path);
        }
    }
}

/// One of the first `t` entries is a directory above `k`, so copying it
/// cleared `k` away.
spec fn removed_by(es: Seq<EntryV>, t: int, k: Seq<u8>) -> bool {
    exists|j: int| 0 <= j < t && (#[trigger] es[j]).node is Dir && under(es[j].path, k)
}

/// Whether `k` exists after the first `t` entries were copied onto `m0`:
/// either its entry was already copied, or it survived from `m0` because
/// no copied directory above it cleared it away.
spec fn mid_dom(m0: Map<Seq<u8>, NodeV>, es: Seq<EntryV>, t: int, k: Seq<u8>) -> bool {
    exists|i: int|
        0 <= i < es.len() && (#[trigger] es[i]).path == k && (i < t || (m0.contains_key(k)
            && !removed_by(es, t, k)))
}

/// The destination after the first `t` entries were copied onto `m0`.
spec fn mid_map(m0: Map<Seq<u8>, NodeV>, es: Seq<EntryV>, t: int) -> Map<Seq<u8>, NodeV> {
    Map::new(|k: Seq<u8>| mid_dom(m0, es, t, k), |k: Seq<u8>| entry_node_at(es, k))
}

/// A destination that copying the captured entries can start from: every
/// existing path is a captured path with the captured node — an empty
/// destination, or one that an earlier copy of the same capture left — and
/// an existing path under a captured directory has that directory present
/// too, as on a real disk.
pub open spec fn compatible_dest(m0: Map<Seq<u8>, NodeV>, es: Seq<EntryV>) -> bool {
    &&& forall|k: Seq<u8>| #[trigger] m0.contains_key(k) ==> entry_key_in(es, k)
    &&& forall|i: int|
        0 <= i < es.len() && m0.contains_key((#[trigger] es[i]).path) ==> m0[es[i].path]
            == es[i].node
    &&& forall|i: int, k: Seq<u8>|
        0 <= i < es.len() && #[trigger] m0.contains_key(k) && under((#[trigger] es[i]).path, k)
            ==> m0.contains_key(es[i].path)
}

/// Copying one more entry takes the destination from the state after `t`
/// entries to the state after `t + 1`.
proof fn lemma_do_copy_step(m0: Map<Seq<u8>, NodeV>, es: Seq<EntryV>, t: int)
    requires
        wf_entries(es),
        compatible_dest(m0, es),
        0 <= t < es.len(),
    ensures
        spec_do_copy(mid_map(m0, es, t), es[t]) == mid_map(m0, es, t + 1),
{
    let m = mid_map(m0, es, t);
    let e = es[t];
    let p = e.path;
    if m.contains_key(p) {
        lemma_entry_node_at(es, p, t);
        assert(m[p] == e.node);
    }
    let clearing = m.contains_key(p) && m[p] is Dir;
    let cleared = if clearing {
        m.remove_keys(Set::new(|k: Seq<u8>| under(p, k)))
    } else {
        m
    };
    let r = cleared.insert(p, e.node);
    assert(r == spec_do_copy(m, e));

    assert forall|k: Seq<u8>| #[trigger] r.contains_key(k) implies mid_dom(m0, es, t + 1, k)
        && r[k] == entry_node_at(es, k) by {
        if k == p {
            assert(0 <= t < es.len() && es[t].path == k && t < t + 1);
            assert(mid_dom(m0, es, t + 1, k));
            lemma_entry_node_at(es, k, t);
        } else {
            assert(cleared.contains_key(k));
            assert(m.contains_key(k));
            assert(clearing ==> !under(p, k));
            let i = choose|i: int|
                0 <= i < es.len() && (#[trigger] es[i]).path == k && (i < t || (m0.contains_key(k)
                    && !removed_by(es, t, k)));
            if i < t {
                assert(mid_dom(m0, es, t + 1, k));
            } else {
                assert(m0.contains_key(k) && !removed_by(es, t, k));
                assert(!removed_by(es, t + 1, k)) by {
                    if removed_by(es, t + 1, k) {
                        let j = choose|j: int|
                            0 <= j < t + 1 && (#[trigger] es[j]).node is Dir && under(es[j].path, k);
                        if j < t {
                            assert(removed_by(es, t, k));
                        } else {
                            assert(e.node is Dir && under(p, k));
                            assert(!clearing);
                            assert(!m.contains_key(p));
                            assert(m0.contains_key(p));
                            assert(!(t < t) && !(m0.contains_key(p) && !removed_by(es, t, p)));
                            assert(removed_by(es, t, p));
                            let j0 = choose|j0: int|
                                0 <= j0 < t && (#[trigger] es[j0]).node is Dir && under(
                                    es[j0].path,
                                    p,
                                );
                            lemma_under_transitive(es[j0].path, p, k);
                            assert(removed_by(es, t, k));
                        }
                    }
                }
                assert(mid_dom(m0, es, t + 1, k));
            }
        }
    }
    assert forall|k: Seq<u8>| mid_dom(m0, es, t + 1, k) implies #[trigger] r.contains_key(k) by {
        if k == p {
        } else {
            let i = choose|i: int|
                0 <= i < es.len() && (#[trigger] es[i]).path == k && (i < t + 1 || (
                m0.contains_key(k) && !removed_by(es, t + 1, k)));
            assert(i != t);
            if i < t {
                assert(mid_dom(m0, es, t, k));
                assert(m.contains_key(k));
                if clearing && under(p, k) {
                    assert(under(es[t].path, es[i].path));
                    assert(t < i);
                }
                assert(r.contains_key(k));
            } else {
                assert(m0.contains_key(k) && !removed_by(es, t + 1, k));
                assert(!removed_by(es, t, k)) by {
                    if removed_by(es, t, k) {
                        let j = choose|j: int|
                            0 <= j < t && (#[trigger] es[j]).node is Dir && under(es[j].path, k);
                        assert(removed_by(es, t + 1, k));
                    }
                }
                assert(mid_dom(m0, es, t, k));
                assert(m.contains_key(k));
                if clearing && under(p, k) {
                    assert(e.node is Dir);
                    assert(removed_by(es, t + 1, k));
                }
                assert(r.contains_key(k));
            }
        }
    }
    assert(r =~= mid_map(m0, es, t + 1));
}

/// After copying the first `t` entries onto a compatible destination, the
/// destination is exactly the intermediate state.
proof fn lemma_copy_prefix(m0: Map<Seq<u8>, NodeV>, es: Seq<EntryV>, t: int)
    requires
        wf_entries(es),
        compatible_dest(m0, es),
        0 <= t <= es.len(),
    ensures
        spec_copy_all(m0, es.take(t)) == mid_map(m0, es, t),
    decreases t,
{
    if t == 0 {
        assert(es.take(0) =~= Seq::<EntryV>::empty());
        assert(spec_copy_all(m0, es.take(0)) == m0);
        assert forall|k: Seq<u8>| #[trigger] m0.contains_key(k) implies mid_dom(m0, es, 0, k)
            && m0[k] == entry_node_at(es, k) by {
            let i = choose|i: int| 0 <= i < es.len() && (#[trigger] es[i]).path == k;
            assert(!removed_by(es, 0, k));
            assert(mid_dom(m0, es, 0, k));
            lemma_entry_node_at(es, k, i);
        }
        assert forall|k: Seq<u8>| mid_dom(m0, es, 0, k) implies #[trigger] m0.contains_key(k) by {}
        assert(m0 =~= mid_map(m0, es, 0));
    } else {
        lemma_copy_prefix(m0, es, t - 1);
        assert(es.take(t).drop_last() =~= es.take(t - 1));
        assert(es.take(t).last() == es[t - 1]);
        lemma_do_copy_step(m0, es, t - 1);
    }
}

/// The tree-copy round trip: copying a captured source into a destination
/// that does not yet exist produces exactly the captured tree, and copying
/// the same capture again onto that result leaves it unchanged — the
/// overwrite is idempotent, and the destination's file-kind and content
/// set equals the source's.
pub proof fn lemma_copy_round_trip(es: Seq<EntryV>)
    requires
        wf_entries(es),
    ensures
        spec_copy_all(Map::<Seq<u8>, NodeV>::empty(), es) == entries_map(es),
        spec_copy_all(spec_copy_all(Map::<Seq<u8>, NodeV>::empty(), es), es) == entries_map(es),
{
    let empty = Map::<Seq<u8>, NodeV>::empty();
    let full = entries_map(es);
    lemma_compatible_and_full(es, empty, es.len() as int);
    assert(spec_copy_all(empty, es) == full);
    assert(compatible_dest(full, es)) by {
        assert forall|i: int|
            0 <= i < es.len() && full.contains_key(
                (#[trigger] es[i]).path,
            ) implies full[es[i].path] == es[i].node by {
            lemma_entry_node_at(es, es[i].path, i);
        }
        assert forall|i: int, k: Seq<u8>|
            0 <= i < es.len() && #[trigger] full.contains_key(k) && under(
                (#[trigger] es[i]).path,
                k,
            ) implies full.contains_key(es[i].path) by {
            assert(entry_key_in(es, es[i].path));
        }
    }
    lemma_compatible_and_full(es, full, es.len() as int);
}

/// Copying every captured entry onto any compatible destination yields the
/// captured tree itself.
proof fn lemma_compatible_and_full(es: Seq<EntryV>, m0: Map<Seq<u8>, NodeV>, t: int)
    requires
        wf_entries(es),
        compatible_dest(m0, es),
        t == es.len(),
    ensures
        spec_copy_all(m0, es) == entries_map(es),
{
    lemma_copy_prefix(m0, es, t);
    assert(es.take(t) =~= es);
    assert forall|k: Seq<u8>| mid_dom(m0, es, t, k) implies #[trigger] entry_key_in(es, k) by {}
    assert forall|k: Seq<u8>| #[trigger] entry_key_in(es, k) implies mid_dom(m0, es, t, k) by {
        let i = choose|i: int| 0 <= i < es.len() && (#[trigger] es[i]).path == k;
        assert(0 <= i < es.len() && es[i].path == k && i < t);
    }
    assert(mid_map(m0, es, t) =~= entries_map(es));
}

/// Check that a captured entry list is as a walk of a source tree yields
/// it: each path once, ancestors always before what lies under them.
pub fn check_entries(entries: &Vec<Entry>) -> (r: bool)
    ensures
        r == wf_entries(entry_views(entries@)),
{
    let ghost evs = entry_views(entries@);
    let n = entries.len();
    let mut a: usize = 0;
    while a < n
        invariant
            n == entries@.len(),
            evs == entry_views(entries@),
            a <= n,
            forall|i: int, j: int|
                0 <= i < a && 0 <= j < n && i < j ==> (#[trigger] evs[i]).path
                    != (#[trigger] evs[j]).path,
            forall|i: int, j: int|
                0 <= i < n && 0 <= j < n && (i < a || j < a) && under(
                    (#[trigger] evs[i]).path,
                    (#[trigger] evs[j]).path,
                ) ==> i < j,
        decreases n - a,
    {
        let mut b: usize = 0;
        while b < n
            invariant
                n == entries@.len(),
                evs == entry_views(entries@),
                a < n,
                b <= n,
                forall|i: int, j: int|
                    0 <= i < a && 0 <= j < n && i < j ==> (#[trigger] evs[i]).path
                        != (#[trigger] evs[j]).path,
                forall|i: int, j: int|
                    0 <= i < n && 0 <= j < n && (i < a || j < a) && under(
                        (#[trigger] evs[i]).path,
                        (#[trigger] evs[j]).path,
                    ) ==> i < j,
                forall|j: int|
                    0 <= j < b && a < j ==> (#[trigger] evs[a as int]).path != evs[j].path,
                forall|j: int|
                    0 <= j < b ==> !under((#[trigger] evs[j]).path, evs[a as int].path) || j < a,
                forall|j: int|
                    0 <= j < b ==> !under((#[trigger] evs[a as int]).path, evs[j].path) || (a as int)
                        < j,
            decreases n - b,
        {
            proof {
                assert(evs[a as int] == entries@[a as int]@);
                assert(evs[b as int] == entries@[b as int]@);
            }
            if b != a && bytes_eq(&entries[a].path, &entries[b].path) {
                if a < b {
                    return false;
                }
                proof {
                    assert(evs[b as int].path != evs[a as int].path);
                }
                return false;
            }
            if b >= a && is_under(&entries[b].path, &entries[a].path) {
                assert(under(evs[b as int].path, evs[a as int].path));
                assert(!((b as int) < (a as int)));
                return false;
            }
            if b <= a && is_under(&entries[a].path, &entries[b].path) {
                assert(under(evs[a as int].path, evs[b as int].path));
                assert(!((a as int) < (b as int)));
                return false;
            }
            b = b + 1;
        }
        a = a + 1;
    }
    true
}


/// The entries of a tree's representation, as ghost values.
spec fn pair_views(s: Seq<(Vec<u8>, FsNode)>) -> Seq<EntryV> {
    s.map_values(|p: (Vec<u8>, FsNode)| EntryV { path: p.0@, node: p.1@ })
}

/// The entries whose path has exactly the given length, in order.
spec fn group_of(vs: Seq<EntryV>, l: int) -> Seq<EntryV> {
    vs.filter(|e: EntryV| e.path.len() == l)
}

/// The entries grouped by path length, shortest first: all lengths below
/// `l`.
spec fn groups_upto(vs: Seq<EntryV>, l: int) -> Seq<EntryV>
    decreases l,
{
    if l <= 0 {
        Seq::<EntryV>::empty()
    } else {
        groups_upto(vs, l - 1) + group_of(vs, l - 1)
    }
}

/// `e` is one of the entries of `vs`.
spec fn in_list(vs: Seq<EntryV>, e: EntryV) -> bool {
    exists|u: int| 0 <= u < vs.len() && e == #[trigger] vs[u]
}

/// One length group keeps distinct paths, holds exactly the entries of
/// that length, and only them.
proof fn lemma_group_of(vs: Seq<EntryV>, l: int)
    requires
        forall|i: int, j: int|
            0 <= i < j < vs.len() ==> (#[trigger] vs[i]).path != (#[trigger] vs[j]).path,
    ensures
        ({
            let f = group_of(vs, l);
            &&& forall|t1: int, t2: int|
                0 <= t1 < t2 < f.len() ==> (#[trigger] f[t1]).path != (#[trigger] f[t2]).path
            &&& forall|t: int| 0 <= t < f.len() ==> in_list(vs, #[trigger] f[t])
            &&& forall|u: int|
                0 <= u < vs.len() && (#[trigger] vs[u]).path.len() == l ==> in_list(f, vs[u])
            &&& forall|t: int| 0 <= t < f.len() ==> (#[trigger] f[t]).path.len() == l
        }),
    decreases vs.len(),
{
    let pred = |e: EntryV| e.path.len() == l;
    let f = group_of(vs, l);
    if vs.len() == 0 {
        reveal(Seq::filter);
        assert(f =~= vs);
    } else {
        let vs0 = vs.drop_last();
        let last = vs.last();
        assert(forall|t: int| 0 <= t < vs0.len() ==> vs0[t] == vs[t]);
        lemma_group_of(vs0, l);
        let f0 = group_of(vs0, l);
        vs0.lemma_filter_push(last, pred);
        assert(vs0.push(last) =~= vs);
        assert(f == if pred(last) {
            f0.push(last)
        } else {
            f0
        });
        assert forall|t: int| 0 <= t < f0.len() implies in_list(vs, #[trigger] f0[t]) by {
            let u = choose|u: int| 0 <= u < vs0.len() && f0[t] == #[trigger] vs0[u];
            assert(f0[t] == vs[u]);
        }
        if pred(last) {
            assert(f[f0.len() as int] == vs[vs.len() - 1]);
            assert(forall|t: int| 0 <= t < f0.len() ==> f[t] == f0[t]);
            assert forall|t1: int, t2: int|
                0 <= t1 < t2 < f.len() implies (#[trigger] f[t1]).path
                != (#[trigger] f[t2]).path by {
                if t2 == f0.len() {
                    let u = choose|u: int| 0 <= u < vs0.len() && f0[t1] == #[trigger] vs0[u];
                    assert(vs[u].path != vs[vs.len() - 1].path);
                }
            }
            assert forall|u: int|
                0 <= u < vs.len() && (#[trigger] vs[u]).path.len() == l implies in_list(
                f,
                vs[u],
            ) by {
                if u == vs.len() - 1 {
                    assert(vs[u] == f[f0.len() as int]);
                } else {
                    assert(vs0[u] == vs[u]);
                    assert(in_list(f0, vs0[u]));
                    let t = choose|t: int| 0 <= t < f0.len() && vs0[u] == #[trigger] f0[t];
                    assert(vs[u] == f[t]);
                }
            }
        } else {
            assert forall|u: int|
                0 <= u < vs.len() && (#[trigger] vs[u]).path.len() == l implies in_list(
                f,
                vs[u],
            ) by {
                assert(u != vs.len() - 1);
                assert(vs0[u] == vs[u]);
                assert(in_list(f0, vs0[u]));
                let t = choose|t: int| 0 <= t < f0.len() && vs0[u] == #[trigger] f0[t];
                assert(vs[u] == f[t]);
            }
        }
    }
}

/// Every entry of the length groups up to `l` is shorter than `l`, and
/// the groups come shortest first.
proof fn lemma_groups_upto_lens(vs: Seq<EntryV>, l: int)
    requires
        l >= 0,
        forall|i: int, j: int|
            0 <= i < j < vs.len() ==> (#[trigger] vs[i]).path != (#[trigger] vs[j]).path,
    ensures
        forall|t: int|
            0 <= t < groups_upto(vs, l).len() ==> (#[trigger] groups_upto(vs, l)[t]).path.len()
                < l,
        forall|t1: int, t2: int|
            0 <= t1 <= t2 < groups_upto(vs, l).len() ==> (#[trigger] groups_upto(
                vs,
                l,
            )[t1]).path.len() <= (#[trigger] groups_upto(vs, l)[t2]).path.len(),
    decreases l,
{
    if l == 0 {
    } else {
        lemma_groups_upto_lens(vs, l - 1);
        lemma_group_of(vs, l - 1);
        let g = groups_upto(vs, l);
        let g0 = groups_upto(vs, l - 1);
        let f = group_of(vs, l - 1);
        assert(forall|t: int| 0 <= t < g0.len() ==> #[trigger] g[t] == g0[t]);
        assert(forall|t: int| 0 <= t < f.len() ==> #[trigger] g[g0.len() + t] == f[t]);
        assert forall|t: int| 0 <= t < g.len() implies (#[trigger] g[t]).path.len() < l by {
            if t >= g0.len() {
                assert(g[t] == f[t - g0.len()]);
            }
        }
        assert forall|t1: int, t2: int|
            0 <= t1 <= t2 < g.len() implies (#[trigger] g[t1]).path.len()
            <= (#[trigger] g[t2]).path.len() by {
            if t1 < g0.len() && t2 >= g0.len() {
                assert(g[t2] == f[t2 - g0.len()]);
                assert(g0[t1].path.len() < l - 1);
            } else if t1 >= g0.len() {
                assert(g[t1] == f[t1 - g0.len()]);
                assert(g[t2] == f[t2 - g0.len()]);
            }
        }
    }
}

/// The length groups up to `l` hold each path once.
proof fn lemma_groups_upto_distinct(vs: Seq<EntryV>, l: int)
    requires
        l >= 0,
        forall|i: int, j: int|
            0 <= i < j < vs.len() ==> (#[trigger] vs[i]).path != (#[trigger] vs[j]).path,
    ensures
        forall|t1: int, t2: int|
            0 <= t1 < t2 < groups_upto(vs, l).len() ==> (#[trigger] groups_upto(vs, l)[t1]).path
                != (#[trigger] groups_upto(vs, l)[t2]).path,
    decreases l,
{
    if l == 0 {
    } else {
        lemma_groups_upto_distinct(vs, l - 1);
        lemma_groups_upto_lens(vs, l - 1);
        lemma_group_of(vs, l - 1);
        let g = groups_upto(vs, l);
        let g0 = groups_upto(vs, l - 1);
        let f = group_of(vs, l - 1);
        assert(forall|t: int| 0 <= t < g0.len() ==> #[trigger] g[t] == g0[t]);
        assert(forall|t: int| 0 <= t < f.len() ==> #[trigger] g[g0.len() + t] == f[t]);
        assert forall|t1: int, t2: int|
            0 <= t1 < t2 < g.len() implies (#[trigger] g[t1]).path != (#[trigger] g[t2]).path by {
            if t1 < g0.len() && t2 >= g0.len() {
                assert(g[t2] == f[t2 - g0.len()]);
                assert(g0[t1].path.len() < l - 1);
                assert(f[t2 - g0.len()].path.len() == l - 1);
            } else if t1 >= g0.len() {
                assert(g[t1] == f[t1 - g0.len()]);
                assert(g[t2] == f[t2 - g0.len()]);
            }
        }
    }
}

/// Every entry of the length groups comes from the entry list.
proof fn lemma_groups_upto_members(vs: Seq<EntryV>, l: int)
    requires
        l >= 0,
        forall|i: int, j: int|
            0 <= i < j < vs.len() ==> (#[trigger] vs[i]).path != (#[trigger] vs[j]).path,
    ensures
        forall|t: int|
            0 <= t < groups_upto(vs, l).len() ==> in_list(vs, #[trigger] groups_upto(vs, l)[t]),
    decreases l,
{
    if l == 0 {
    } else {
        lemma_groups_upto_members(vs, l - 1);
        lemma_group_of(vs, l - 1);
        let g = groups_upto(vs, l);
        let g0 = groups_upto(vs, l - 1);
        let f = group_of(vs, l - 1);
        assert forall|t: int| 0 <= t < g.len() implies in_list(vs, #[trigger] g[t]) by {
            if t < g0.len() {
                assert(g[t] == g0[t]);
                assert(in_list(vs, g0[t]));
            } else {
                assert(g[t] == f[t - g0.len()]);
                assert(in_list(vs, f[t - g0.len()]));
            }
        }
    }
}

/// Every entry shorter than `l` stands somewhere in the length groups up
/// to `l`.
proof fn lemma_groups_upto_complete(vs: Seq<EntryV>, l: int)
    requires
        l >= 0,
        forall|i: int, j: int|
            0 <= i < j < vs.len() ==> (#[trigger] vs[i]).path != (#[trigger] vs[j]).path,
    ensures
        forall|u: int|
            0 <= u < vs.len() && (#[trigger] vs[u]).path.len() < l ==> in_list(
                groups_upto(vs, l),
                vs[u],
            ),
    decreases l,
{
    if l == 0 {
    } else {
        lemma_groups_upto_complete(vs, l - 1);
        lemma_group_of(vs, l - 1);
        let g = groups_upto(vs, l);
        let g0 = groups_upto(vs, l - 1);
        let f = group_of(vs, l - 1);
        assert(forall|t: int| 0 <= t < g0.len() ==> #[trigger] g[t] == g0[t]);
        assert(forall|t: int| 0 <= t < f.len() ==> #[trigger] g[g0.len() + t] == f[t]);
        assert forall|u: int|
            0 <= u < vs.len() && (#[trigger] vs[u]).path.len() < l implies in_list(
            g,
            vs[u],
        ) by {
            if vs[u].path.len() < l - 1 {
                assert(in_list(g0, vs[u]));
                let t = choose|t: int| 0 <= t < g0.len() && vs[u] == #[trigger] g0[t];
                assert(vs[u] == g[t]);
            } else {
                assert(in_list(f, vs[u]));
                let t = choose|t: int| 0 <= t < f.len() && vs[u] == #[trigger] f[t];
                assert(vs[u] == g[g0.len() + t]);
            }
        }
    }
}

/// Capture a source tree as one entry per path, every ancestor directory
/// before what lies under it — the order a walk of the tree yields, and
/// exactly the shape `wf_entries` asks of a capture. The entries describe
/// the tree itself.
pub fn get_all_copy_targets(source: &Tree) -> (r: Vec<Entry>)
    requires
        source.wf(),
    ensures
        wf_entries(entry_views(r@)),
        entries_map(entry_views(r@)) == source@,
{
    let ghost s = source.entries@;
    let ghost vs = pair_views(s);
    proof {
        lemma_unique_symm(s);
        assert(forall|u: int| 0 <= u < s.len() ==> (#[trigger] vs[u]).path == s[u].0@);
        assert(forall|u: int| 0 <= u < s.len() ==> (#[trigger] vs[u]).node == s[u].1@);
        assert forall|i: int, j: int|
            0 <= i < j < vs.len() implies (#[trigger] vs[i]).path != (#[trigger] vs[j]).path by {
            assert(s[i].0@ != s[j].0@);
        }
    }
    let n = source.entries.len();
    let mut r: Vec<Entry> = Vec::new();
    if n == 0 {
        proof {
            assert(entry_views(r@) =~= Seq::<EntryV>::empty());
            assert(entries_map(entry_views(r@)) =~= source@);
        }
        return r;
    }

    // the longest path decides how many length groups the walk emits
    let mut max_len: usize = 0;
    let mut j: usize = 0;
    while j < n
        invariant
            n == source.entries@.len(),
            s == source.entries@,
            j <= n,
            forall|t: int| 0 <= t < j ==> (#[trigger] s[t]).0@.len() <= max_len,
        decreases n - j,
    {
        if source.entries[j].0.len() > max_len {
            max_len = source.entries[j].0.len();
        }
        j = j + 1;
    }

    // emit every entry of length l, shortest group first: an ancestor is
    // always strictly shorter than what lies under it
    let mut l: usize = 0;
    loop
        invariant_except_break
            n == source.entries@.len() && n > 0,
            s == source.entries@,
            vs == pair_views(s),
            l <= max_len,
            entry_views(r@) == groups_upto(vs, l as int),
        ensures
            entry_views(r@) == groups_upto(vs, max_len + 1),
        decreases max_len - l,
    {
        let mut j: usize = 0;
        while j < n
            invariant
                n == source.entries@.len(),
                s == source.entries@,
                vs == pair_views(s),
                j <= n,
                entry_views(r@) == groups_upto(vs, l as int) + group_of(
                    vs.take(j as int),
                    l as int,
                ),
            decreases n - j,
        {
            let ghost pre = entry_views(r@);
            if source.entries[j].0.len() == l {
                let entry = Entry {
                    path: clone_bytes(&source.entries[j].0),
                    node: source.entries[j].1.clone(),
                };
                r.push(entry);
            }
            proof {
                broadcast use vstd::prelude::Seq::lemma_filter_push;

                assert(vs.take(j + 1) =~= vs.take(j as int).push(vs[j as int]));
                assert(vs[j as int].path == s[j as int].0@);
                if s[j as int].0@.len() == l {
                    assert(entry_views(r@) =~= pre.push(vs[j as int]));
                } else {
                    assert(entry_views(r@) =~= pre);
                }
            }
            j = j + 1;
        }
        proof {
            assert(vs.take(n as int) =~= vs);
            assert(groups_upto(vs, l + 1) == groups_upto(vs, l as int) + group_of(vs, l as int));
        }
        if l == max_len {
            proof {
                assert(entry_views(r@) == groups_upto(vs, max_len + 1));
            }
            break ;
        }
        l = l + 1;
    }

    proof {
        let evs = entry_views(r@);
        lemma_groups_upto_lens(vs, max_len + 1);
        lemma_groups_upto_distinct(vs, max_len + 1);
        lemma_groups_upto_members(vs, max_len + 1);
        lemma_groups_upto_complete(vs, max_len + 1);
        assert(forall|u: int| 0 <= u < vs.len() ==> (#[trigger] vs[u]).path.len() <= max_len);
        assert(wf_entries(evs)) by {
            assert forall|i: int, j2: int|
                0 <= i < j2 < evs.len() implies (#[trigger] evs[i]).path
                != (#[trigger] evs[j2]).path by {}
            assert forall|i: int, j2: int|
                0 <= i < evs.len() && 0 <= j2 < evs.len() && under(
                    (#[trigger] evs[i]).path,
                    (#[trigger] evs[j2]).path,
                ) implies i < j2 by {
                assert(evs[i].path.len() < evs[j2].path.len());
                if j2 <= i {
                    assert(evs[j2].path.len() <= evs[i].path.len());
                }
            }
        }
        assert(entries_map(evs) =~= source@) by {
            assert forall|k: Seq<u8>| #[trigger] entry_key_in(evs, k) implies key_in(s, k)
                && entry_node_at(evs, k) == node_at(s, k) by {
                let t = choose|t: int| 0 <= t < evs.len() && (#[trigger] evs[t]).path == k;
                lemma_entry_node_at(evs, k, t);
                assert(in_list(vs, evs[t]));
                let u = choose|u: int| 0 <= u < vs.len() && evs[t] == #[trigger] vs[u];
                assert(s[u].0@ == k);
                lemma_node_at(s, k, u);
            }
            assert forall|k: Seq<u8>| #[trigger] key_in(s, k) implies entry_key_in(evs, k) by {
                let u = choose|u: int| 0 <= u < s.len() && (#[trigger] s[u]).0@ == k;
                assert(vs[u].path.len() < max_len + 1);
                assert(in_list(evs, vs[u]));
                let t = choose|t: int| 0 <= t < evs.len() && vs[u] == #[trigger] evs[t];
                assert(evs[t].path == k);
            }
        }
    }
    r
}

} // verus!
