//! A verified in-memory hierarchical key/value store.
//!
//! The store offers the same primitives as the system configuration store
//! the entry tree lives in — open, create with a creation disposition,
//! recursive delete, child rename, named values, child enumeration — so
//! the tree logic can be stated and proved against it. Keys are addressed
//! by segment paths; each key carries named string values, where an empty
//! value name stands for the key's default value.

use vstd::prelude::*;
use vstd::string::StringExecFns;

use crate::error::CtxError;
use crate::path::is_path_prefix;

verus! {

/// One named value on a key.
struct RegValueEntry {
    name: String,
    data: String,
}

/// One key: its absolute segment path and its named values.
struct RegKeyNode {
    path: Vec<String>,
    values: Vec<RegValueEntry>,
}

/// The store: a flat collection of keys with unique segment paths, closed
/// under taking parents (every key's proper prefixes are keys too), as
/// the system store is.
pub struct RegStore {
    keys: Vec<RegKeyNode>,
}

spec fn values_contains(vs: Seq<RegValueEntry>, name: Seq<char>) -> bool {
    exists|j: int| 0 <= j < vs.len() && (#[trigger] vs[j]).name@ == name
}

spec fn values_lookup(vs: Seq<RegValueEntry>, name: Seq<char>) -> Option<Seq<char>> {
    if values_contains(vs, name) {
        let j = choose|j: int| 0 <= j < vs.len() && (#[trigger] vs[j]).name@ == name;
        Some(vs[j].data@)
    } else {
        None
    }
}

spec fn values_distinct(vs: Seq<RegValueEntry>) -> bool {
    forall|j: int, k: int|
        0 <= j < k < vs.len() ==> (#[trigger] vs[j]).name@ != (#[trigger] vs[k]).name@
}

spec fn node_wf(n: RegKeyNode) -> bool {
    &&& n.path@.len() > 0
    &&& values_distinct(n.values@)
}

spec fn seq_has_path(s: Seq<RegKeyNode>, q: Seq<Seq<char>>) -> bool {
    exists|i: int| 0 <= i < s.len() && (#[trigger] s[i]).path.deep_view() == q
}

spec fn seq_path_index(s: Seq<RegKeyNode>, q: Seq<Seq<char>>) -> int {
    choose|i: int| 0 <= i < s.len() && (#[trigger] s[i]).path.deep_view() == q
}

spec fn seq_lookup(s: Seq<RegKeyNode>, q: Seq<Seq<char>>, name: Seq<char>) -> Option<Seq<char>> {
    if seq_has_path(s, q) {
        values_lookup(s[seq_path_index(s, q)].values@, name)
    } else {
        None
    }
}

spec fn seq_paths_distinct(s: Seq<RegKeyNode>) -> bool {
    forall|i: int, j: int|
        0 <= i < j < s.len() ==> (#[trigger] s[i]).path.deep_view() != (#[trigger] s[j]).path.deep_view()
}

/// With distinct paths, any index holding path `q` is the one `seq_lookup`
/// reads through.
proof fn lemma_seq_lookup_at(s: Seq<RegKeyNode>, i: int, name: Seq<char>)
    requires
        seq_paths_distinct(s),
        0 <= i < s.len(),
    ensures
        seq_has_path(s, s[i].path.deep_view()),
        seq_path_index(s, s[i].path.deep_view()) == i,
        seq_lookup(s, s[i].path.deep_view(), name) == values_lookup(s[i].values@, name),
{
    let q = s[i].path.deep_view();
    assert(seq_has_path(s, q));
    let j = seq_path_index(s, q);
    assert(0 <= j < s.len() && s[j].path.deep_view() == q);
    if i < j {
        assert(s[i].path.deep_view() != s[j].path.deep_view());
        assert(false);
    }
    if j < i {
        assert(s[j].path.deep_view() != s[i].path.deep_view());
        assert(false);
    }
}

/// With distinct value names, any index holding `name` is the one
/// `values_lookup` reads through.
proof fn lemma_values_lookup_at(vs: Seq<RegValueEntry>, j: int)
    requires
        values_distinct(vs),
        0 <= j < vs.len(),
    ensures
        values_contains(vs, vs[j].name@),
        values_lookup(vs, vs[j].name@) == Some(vs[j].data@),
{
    let n = vs[j].name@;
    assert(values_contains(vs, n));
    let k = choose|k: int| 0 <= k < vs.len() && (#[trigger] vs[k]).name@ == n;
    if j < k {
        assert(vs[j].name@ != vs[k].name@);
        assert(false);
    }
    if k < j {
        assert(vs[k].name@ != vs[j].name@);
        assert(false);
    }
}

/// Appending a node extends the path domain by exactly its path; lookups
/// at other paths, and at a previously absent path, are as expected.
proof fn lemma_observers_push(
    s: Seq<RegKeyNode>,
    node: RegKeyNode,
    q: Seq<Seq<char>>,
    name: Seq<char>,
)
    requires
        seq_paths_distinct(s),
    ensures
        seq_has_path(s.push(node), q) <==> (seq_has_path(s, q) || node.path.deep_view() == q),
        q != node.path.deep_view() ==> seq_lookup(s.push(node), q, name) == seq_lookup(
            s,
            q,
            name,
        ),
        !seq_has_path(s, node.path.deep_view()) ==> seq_lookup(
            s.push(node),
            node.path.deep_view(),
            name,
        ) == values_lookup(node.values@, name),
        !seq_has_path(s, node.path.deep_view()) ==> seq_paths_distinct(s.push(node)),
{
    let t = s.push(node);
    assert(t.len() == s.len() + 1);
    assert(t[s.len() as int] == node);
    assert(forall|i: int| 0 <= i < s.len() ==> #[trigger] t[i] == s[i]);
    if seq_has_path(s, q) {
        let i = choose|i: int| 0 <= i < s.len() && (#[trigger] s[i]).path.deep_view() == q;
        assert(t[i].path.deep_view() == q);
        assert(seq_has_path(t, q));
    }
    if node.path.deep_view() == q {
        assert(seq_has_path(t, q));
    }
    if !seq_has_path(s, node.path.deep_view()) {
        assert(seq_paths_distinct(t)) by {
            assert(forall|i: int|
                0 <= i < s.len() ==> (#[trigger] s[i]).path.deep_view()
                    != node.path.deep_view());
        }
        lemma_seq_lookup_at(t, s.len() as int, name);
    }
    if q != node.path.deep_view() && seq_has_path(t, q) {
        let i = choose|i: int| 0 <= i < t.len() && (#[trigger] t[i]).path.deep_view() == q;
        assert(i < s.len());
        assert(s[i].path.deep_view() == q);
        assert(seq_has_path(s, q));
    }
    if q != node.path.deep_view() && seq_has_path(s, q) && seq_paths_distinct(s) {
        let i = seq_path_index(s, q);
        assert(0 <= i < s.len() && s[i].path.deep_view() == q);
        if seq_paths_distinct(t) {
            lemma_seq_lookup_at(t, i, name);
            lemma_seq_lookup_at(s, i, name);
        } else {
            // the pushed path duplicates one in `s`: the chosen witness in
            // `t` still lies in `s`, since the duplicate shares its path
            let j = seq_path_index(t, q);
            assert(0 <= j < t.len() && t[j].path.deep_view() == q);
            assert(j < s.len());
            assert(s[j].path.deep_view() == q);
            if i != j {
                assert(false);
            }
            lemma_seq_lookup_at(s, i, name);
        }
    }
}

impl RegStore {
    /// Whether a key exists at exactly this segment path.
    pub closed spec fn has_key(&self, p: Seq<Seq<char>>) -> bool {
        seq_has_path(self.keys@, p)
    }

    /// The data of value `name` on the key at `p`: `None` when the key or
    /// the value is absent.
    pub closed spec fn val(&self, p: Seq<Seq<char>>, name: Seq<char>) -> Option<Seq<char>> {
        seq_lookup(self.keys@, p, name)
    }

    /// Key paths are unique, non-empty, with unique value names, and every
    /// proper prefix of a key path is itself a key path.
    pub closed spec fn wf(&self) -> bool {
        &&& seq_paths_distinct(self.keys@)
        &&& forall|i: int| 0 <= i < self.keys@.len() ==> node_wf(#[trigger] self.keys@[i])
        &&& forall|i: int, l: int|
            0 <= i < self.keys@.len() && 0 < l < (#[trigger] self.keys@[i]).path.deep_view().len()
                ==> self.has_key(#[trigger] self.keys@[i].path.deep_view().subrange(0, l))
    }

    /// An empty store.
    pub fn new() -> (r: RegStore)
        ensures
            r.wf(),
            forall|p: Seq<Seq<char>>| !(#[trigger] r.has_key(p)),
            forall|p: Seq<Seq<char>>, n: Seq<char>| (#[trigger] r.val(p, n)) is None,
    {
        RegStore { keys: Vec::new() }
    }

    /// The index of the key at `path`, if present.
    fn find_node(&self, path: &Vec<String>) -> (r: Option<usize>)
        ensures
            match r {
                Some(i) => i < self.keys@.len() && self.keys@[i as int].path.deep_view()
                    == path.deep_view() && self.has_key(path.deep_view()),
                None => !self.has_key(path.deep_view()),
            },
    {
        let mut i: usize = 0;
        while i < self.keys.len()
            invariant
                0 <= i <= self.keys@.len(),
                forall|j: int|
                    0 <= j < i ==> (#[trigger] self.keys@[j]).path.deep_view()
                        != path.deep_view(),
            decreases self.keys@.len() - i,
        {
            if str_vec_eq(&self.keys[i].path, path) {
                return Some(i);
            }
            i += 1;
        }
        None
    }

    /// Whether the store holds a key at exactly this segment path.
    pub fn key_exists(&self, path: &Vec<String>) -> (r: bool)
        ensures
            r == self.has_key(path.deep_view()),
    {
        self.find_node(path).is_some()
    }

    /// Reads value `name` of the key at `path`; absent when the key or the
    /// value is missing.
    pub fn get_value(&self, path: &Vec<String>, name: &str) -> (r: Option<String>)
        requires
            self.wf(),
        ensures
            match r {
                Some(s) => self.val(path.deep_view(), name@) == Some(s@),
                None => self.val(path.deep_view(), name@) is None,
            },
    {
        let i = match self.find_node(path) {
            None => {
                return None;
            },
            Some(i) => i,
        };
        let name_s = String::from_str(name);
        proof {
            lemma_seq_lookup_at(self.keys@, i as int, name@);
        }
        let node = &self.keys[i];
        let mut j: usize = 0;
        while j < node.values.len()
            invariant
                0 <= j <= node.values@.len(),
                forall|k: int| 0 <= k < j ==> (#[trigger] node.values@[k]).name@ != name_s@,
                name_s@ == name@,
                values_distinct(node.values@),
                node == &self.keys@[i as int],
                self.val(path.deep_view(), name@) == values_lookup(node.values@, name@),
            decreases node.values@.len() - j,
        {
            if node.values[j].name == name_s {
                proof {
                    lemma_values_lookup_at(node.values@, j as int);
                }
                return Some(node.values[j].data.clone());
            }
            j += 1;
        }
        proof {
            assert(!values_contains(node.values@, name@));
        }
        None
    }

    /// Creates the key at `path`, creating every missing ancestor on the
    /// way, and reports whether the key at `path` itself was newly
    /// created, as the system store's creation disposition does. No value
    /// anywhere is touched.
    pub fn create_key(&mut self, path: &Vec<String>) -> (created: bool)
        requires
            old(self).wf(),
            path@.len() > 0,
        ensures
            final(self).wf(),
            created == !old(self).has_key(path.deep_view()),
            final(self).has_key(path.deep_view()),
            forall|q: Seq<Seq<char>>|
                #[trigger] final(self).has_key(q) <==> old(self).has_key(q) || (exists|l: int|
                    1 <= l <= path.deep_view().len() && q == #[trigger] path.deep_view().subrange(
                        0,
                        l,
                    )),
            forall|q: Seq<Seq<char>>, n: Seq<char>|
                #[trigger] final(self).val(q, n) == old(self).val(q, n),
    {
        let ghost pre = *self;
        let created = !self.key_exists(path);
        let mut cur: Vec<String> = Vec::new();
        let mut l: usize = 0;
        while l < path.len()
            invariant
                0 <= l <= path@.len(),
                cur@.len() == l,
                cur.deep_view() == path.deep_view().subrange(0, l as int),
                self.wf(),
                pre.wf(),
                forall|q: Seq<Seq<char>>|
                    #[trigger] self.has_key(q) <==> pre.has_key(q) || (exists|k: int|
                        1 <= k <= l && q == #[trigger] path.deep_view().subrange(0, k)),
                forall|q: Seq<Seq<char>>, n: Seq<char>|
                    #[trigger] self.val(q, n) == pre.val(q, n),
                forall|k: int|
                    1 <= k <= l ==> self.has_key(#[trigger] path.deep_view().subrange(0, k)),
            decreases path@.len() - l,
        {
            cur.push(path[l].clone());
            proof {
                assert(cur.deep_view() =~~= path.deep_view().subrange(0, l + 1));
            }
            if !self.key_exists(&cur) {
                let node = RegKeyNode { path: clone_segs(&cur), values: Vec::new() };
                proof {
                    assert(node.path.deep_view() =~~= cur.deep_view());
                }
                let ghost sk = self.keys@;
                let ghost before = *self;
                self.keys.push(node);
                proof {
                    let p1 = path.deep_view().subrange(0, l + 1);
                    let newnode = self.keys@.last();
                    assert(self.keys@ == sk.push(newnode));
                    assert(newnode.path.deep_view() == p1);
                    assert(!seq_has_path(sk, p1));
                    assert forall|q: Seq<Seq<char>>|
                        #[trigger] self.has_key(q) <==> (before.has_key(q) || q == p1) by {
                        lemma_observers_push(sk, newnode, q, Seq::empty());
                    }
                    assert forall|q: Seq<Seq<char>>, n: Seq<char>|
                        #[trigger] self.val(q, n) == before.val(q, n) by {
                        lemma_observers_push(sk, newnode, q, n);
                        if q == p1 {
                            assert(!values_contains(newnode.values@, n));
                            assert(!before.has_key(p1));
                        }
                    }
                    assert forall|q: Seq<Seq<char>>|
                        #[trigger] self.has_key(q) <==> (pre.has_key(q) || (exists|k: int|
                            1 <= k <= l + 1 && q == #[trigger] path.deep_view().subrange(
                                0,
                                k,
                            ))) by {
                        if self.has_key(q) {
                            if q == p1 {
                                assert(1 <= l + 1 <= path.deep_view().len() && q
                                    == path.deep_view().subrange(0, l + 1));
                            }
                        }
                        if exists|k: int|
                            1 <= k <= l + 1 && q == #[trigger] path.deep_view().subrange(0, k) {
                            let k = choose|k: int|
                                1 <= k <= l + 1 && q == #[trigger] path.deep_view().subrange(0, k);
                            if k <= l {
                                assert(before.has_key(q));
                            } else {
                                assert(q == p1);
                            }
                        }
                    }
                    assert(seq_paths_distinct(self.keys@)) by {
                        lemma_observers_push(sk, newnode, p1, Seq::empty());
                    }
                    assert(forall|i: int|
                        0 <= i < self.keys@.len() ==> node_wf(#[trigger] self.keys@[i])) by {
                        assert(forall|i: int| 0 <= i < sk.len() ==> #[trigger] self.keys@[i] == sk[i]);
                        assert(newnode.path@.len() == p1.len());
                        assert(node_wf(newnode));
                    }
                    assert forall|i: int, ln: int|
                        0 <= i < self.keys@.len() && 0 < ln < (
                        #[trigger] self.keys@[i]).path.deep_view().len() implies self.has_key(
                        #[trigger] self.keys@[i].path.deep_view().subrange(0, ln)) by {
                        if i < sk.len() {
                            assert(sk[i] == self.keys@[i]);
                            assert(before.has_key(sk[i].path.deep_view().subrange(0, ln)));
                        } else {
                            assert(self.keys@[i].path.deep_view() == p1);
                            assert(p1.subrange(0, ln) =~= path.deep_view().subrange(0, ln));
                            assert(before.has_key(path.deep_view().subrange(0, ln)));
                        }
                    }
                }
            } else {
                proof {
                    let p1 = path.deep_view().subrange(0, l + 1);
                    assert(self.has_key(p1));
                    assert forall|q: Seq<Seq<char>>|
                        #[trigger] self.has_key(q) <==> (pre.has_key(q) || (exists|k: int|
                            1 <= k <= l + 1 && q == #[trigger] path.deep_view().subrange(
                                0,
                                k,
                            ))) by {
                        if exists|k: int|
                            1 <= k <= l + 1 && q == #[trigger] path.deep_view().subrange(0, k) {
                            let k = choose|k: int|
                                1 <= k <= l + 1 && q == #[trigger] path.deep_view().subrange(0, k);
                            if k <= l {
                            } else {
                                assert(q == p1);
                            }
                        }
                    }
                }
            }
            l += 1;
        }
        proof {
            assert(path.deep_view().subrange(0, path@.len() as int) =~= path.deep_view());
        }
        created
    }

    /// Writes value `name` on the key at `path`, replacing any previous
    /// data under that name. Fails with `NotFound` when the key is
    /// absent, as writing needs an open key in the system store.
    pub fn set_value(&mut self, path: &Vec<String>, name: &str, data: &str) -> (r: Result<
        (),
        CtxError,
    >)
        requires
            old(self).wf(),
        ensures
            final(self).wf(),
            match r {
                Ok(_) => {
                    &&& old(self).has_key(path.deep_view())
                    &&& forall|q: Seq<Seq<char>>|
                        #[trigger] final(self).has_key(q) == old(self).has_key(q)
                    &&& final(self).val(path.deep_view(), name@) == Some(data@)
                    &&& forall|q: Seq<Seq<char>>, n: Seq<char>|
                        q != path.deep_view() || n != name@ ==> #[trigger] final(self).val(q, n)
                            == old(self).val(q, n)
                },
                Err(e) => {
                    &&& e == CtxError::NotFound
                    &&& !old(self).has_key(path.deep_view())
                    &&& *final(self) == *old(self)
                },
            },
    {
        let idx = match self.find_node(path) {
            None => {
                return Err(CtxError::NotFound);
            },
            Some(i) => i,
        };
        let name_s = String::from_str(name);
        let data_s = String::from_str(data);
        let found = self.find_value(idx, &name_s);
        let ghost pre = *self;
        let mut node = self.keys.remove(idx);
        let ghost orig = node.values@;
        match found {
            Some(j) => {
                let mut entry = node.values.remove(j);
                entry.data = data_s;
                let ghost eg = entry;
                node.values.insert(j, entry);
                proof {
                    assert(node.values@ =~= orig.update(j as int, eg));
                    assert forall|n: Seq<char>|
                        (values_distinct(node.values@) && values_lookup(node.values@, name@)
                            == Some(data@) && (n != name@ ==> #[trigger] values_lookup(
                            node.values@,
                            n,
                        ) == values_lookup(orig, n))) by {
                        lemma_values_update(orig, j as int, eg, n);
                    }
                }
            },
            None => {
                node.values.push(RegValueEntry { name: name_s, data: data_s });
                proof {
                    let eg = node.values@.last();
                    assert(node.values@ == orig.push(eg));
                    assert(!values_contains(orig, name@));
                    assert forall|n: Seq<char>|
                        (values_distinct(node.values@) && values_lookup(node.values@, name@)
                            == Some(data@) && (n != name@ ==> #[trigger] values_lookup(
                            node.values@,
                            n,
                        ) == values_lookup(orig, n))) by {
                        lemma_values_push(orig, eg, n);
                    }
                }
            },
        }
        let ghost nodeg = node;
        self.keys.insert(idx, node);
        proof {
            assert(self.keys@ =~= pre.keys@.update(idx as int, nodeg));
            self.lemma_after_node_update(pre, idx as int, nodeg);
        }
        Ok(())
    }

    /// Deletes value `name` of the key at `path`. Fails with `NotFound`
    /// when the key is absent, and also when the key exists but the value
    /// does not, as the system store's value deletion does.
    pub fn remove_value(&mut self, path: &Vec<String>, name: &str) -> (r: Result<(), CtxError>)
        requires
            old(self).wf(),
        ensures
            final(self).wf(),
            match r {
                Ok(_) => {
                    &&& old(self).has_key(path.deep_view())
                    &&& old(self).val(path.deep_view(), name@) is Some
                    &&& forall|q: Seq<Seq<char>>|
                        #[trigger] final(self).has_key(q) == old(self).has_key(q)
                    &&& final(self).val(path.deep_view(), name@) is None
                    &&& forall|q: Seq<Seq<char>>, n: Seq<char>|
                        q != path.deep_view() || n != name@ ==> #[trigger] final(self).val(q, n)
                            == old(self).val(q, n)
                },
                Err(e) => {
                    &&& e == CtxError::NotFound
                    &&& !old(self).has_key(path.deep_view()) || old(self).val(
                        path.deep_view(),
                        name@,
                    ) is None
                    &&& *final(self) == *old(self)
                },
            },
    {
        let idx = match self.find_node(path) {
            None => {
                return Err(CtxError::NotFound);
            },
            Some(i) => i,
        };
        let name_s = String::from_str(name);
        let found = self.find_value(idx, &name_s);
        let j = match found {
            None => {
                return Err(CtxError::NotFound);
            },
            Some(j) => j,
        };
        let ghost pre = *self;
        let mut node = self.keys.remove(idx);
        let ghost orig = node.values@;
        proof {
            lemma_values_lookup_at(orig, j as int);
        }
        node.values.remove(j);
        proof {
            assert(node.values@ =~= orig.remove(j as int));
            assert forall|n: Seq<char>|
                (values_distinct(node.values@) && values_lookup(node.values@, name@) is None && (n
                    != name@ ==> #[trigger] values_lookup(node.values@, n) == values_lookup(
                    orig,
                    n,
                ))) by {
                lemma_values_remove(orig, j as int, n);
            }
        }
        let ghost nodeg = node;
        self.keys.insert(idx, node);
        proof {
            assert(self.keys@ =~= pre.keys@.update(idx as int, nodeg));
            self.lemma_after_node_update(pre, idx as int, nodeg);
        }
        Ok(())
    }

    /// Removes the key at `path` and every key below it in one call, as
    /// the system store's recursive delete does. Fails with `NotFound`,
    /// changing nothing, when the key is absent.
    pub fn delete_subtree(&mut self, path: &Vec<String>) -> (r: Result<(), CtxError>)
        requires
            old(self).wf(),
        ensures
            final(self).wf(),
            match r {
                Ok(_) => {
                    &&& old(self).has_key(path.deep_view())
                    &&& forall|q: Seq<Seq<char>>|
                        #[trigger] final(self).has_key(q) <==> (old(self).has_key(q)
                            && !is_path_prefix(path.deep_view(), q))
                    &&& forall|q: Seq<Seq<char>>, n: Seq<char>|
                        #[trigger] final(self).val(q, n) == (if is_path_prefix(
                            path.deep_view(),
                            q,
                        ) {
                            None::<Seq<char>>
                        } else {
                            old(self).val(q, n)
                        })
                },
                Err(e) => {
                    &&& e == CtxError::NotFound
                    &&& !old(self).has_key(path.deep_view())
                    &&& *final(self) == *old(self)
                },
            },
    {
        if !self.key_exists(path) {
            return Err(CtxError::NotFound);
        }
        let ghost pre = *self;
        let ghost p = path.deep_view();
        let mut kept: Vec<RegKeyNode> = Vec::new();
        proof {
            assert(self.keys@ =~= pre.keys@.subrange(0, pre.keys@.len() as int));
        }
        while self.keys.len() > 0
            invariant
                pre.wf(),
                pre == *old(self),
                p == path.deep_view(),
                self.keys@.len() <= pre.keys@.len(),
                self.keys@ == pre.keys@.subrange(
                    pre.keys@.len() - self.keys@.len(),
                    pre.keys@.len() as int,
                ),
                seq_paths_distinct(kept@),
                forall|i: int| 0 <= i < kept@.len() ==> node_wf(#[trigger] kept@[i]),
                forall|q: Seq<Seq<char>>|
                    #[trigger] seq_has_path(kept@, q) <==> (seq_has_path(
                        pre.keys@.subrange(0, pre.keys@.len() - self.keys@.len()),
                        q,
                    ) && !is_path_prefix(p, q)),
                forall|q: Seq<Seq<char>>, n: Seq<char>|
                    #[trigger] seq_lookup(kept@, q, n) == (if is_path_prefix(p, q) {
                        None::<Seq<char>>
                    } else {
                        seq_lookup(
                            pre.keys@.subrange(0, pre.keys@.len() - self.keys@.len()),
                            q,
                            n,
                        )
                    }),
            decreases self.keys@.len(),
        {
            let ghost k = pre.keys@.len() - self.keys@.len();
            let node = self.keys.remove(0);
            let ghost nodeg = node;
            proof {
                assert(nodeg == pre.keys@[k]);
                assert(self.keys@ =~= pre.keys@.subrange(k + 1, pre.keys@.len() as int));
            }
            let keep = !is_prefix_exec(path, &node.path);
            proof {
                assert(keep == !is_path_prefix(p, nodeg.path.deep_view()));
            }
            let ghost keptg = kept@;
            let ghost subk = pre.keys@.subrange(0, k);
            let ghost subk1 = pre.keys@.subrange(0, k + 1);
            proof {
                assert(subk1 =~= subk.push(pre.keys@[k]));
                assert(forall|a: int| 0 <= a < k ==> #[trigger] subk[a] == pre.keys@[a]);
                assert(seq_paths_distinct(subk));
                assert(!seq_has_path(subk, nodeg.path.deep_view())) by {
                    if seq_has_path(subk, nodeg.path.deep_view()) {
                        let a = choose|a: int|
                            0 <= a < subk.len() && (#[trigger] subk[a]).path.deep_view()
                                == nodeg.path.deep_view();
                        assert(pre.keys@[a].path.deep_view() == pre.keys@[k].path.deep_view());
                        assert(false);
                    }
                }
            }
            if keep {
                kept.push(node);
                proof {
                    assert(kept@ == keptg.push(nodeg));
                    assert(!seq_has_path(keptg, nodeg.path.deep_view())) by {
                        if seq_has_path(keptg, nodeg.path.deep_view()) {
                            assert(seq_has_path(subk, nodeg.path.deep_view()));
                        }
                    }
                    assert forall|q: Seq<Seq<char>>|
                        #[trigger] seq_has_path(kept@, q) <==> (seq_has_path(subk1, q)
                            && !is_path_prefix(p, q)) by {
                        lemma_observers_push(keptg, nodeg, q, Seq::empty());
                        lemma_observers_push(subk, pre.keys@[k], q, Seq::empty());
                    }
                    assert forall|q: Seq<Seq<char>>, n: Seq<char>|
                        #[trigger] seq_lookup(kept@, q, n) == (if is_path_prefix(p, q) {
                            None::<Seq<char>>
                        } else {
                            seq_lookup(subk1, q, n)
                        }) by {
                        lemma_observers_push(keptg, nodeg, q, n);
                        lemma_observers_push(subk, pre.keys@[k], q, n);
                        if !is_path_prefix(p, q) && q == nodeg.path.deep_view() {
                            assert(seq_lookup(kept@, q, n) == values_lookup(nodeg.values@, n));
                            assert(seq_lookup(subk1, q, n) == values_lookup(nodeg.values@, n));
                        }
                        if is_path_prefix(p, q) {
                            assert(!seq_has_path(kept@, q));
                        }
                    }
                    assert(seq_paths_distinct(kept@)) by {
                        lemma_observers_push(keptg, nodeg, nodeg.path.deep_view(), Seq::empty());
                    }
                    assert(forall|i: int| 0 <= i < kept@.len() ==> node_wf(#[trigger] kept@[i]))
                        by {
                        assert(forall|i: int|
                            0 <= i < keptg.len() ==> #[trigger] kept@[i] == keptg[i]);
                        assert(kept@.last() == nodeg);
                        assert(node_wf(nodeg));
                    }
                }
            } else {
                proof {
                    assert(is_path_prefix(p, nodeg.path.deep_view()));
                    assert forall|q: Seq<Seq<char>>|
                        #[trigger] seq_has_path(kept@, q) <==> (seq_has_path(subk1, q)
                            && !is_path_prefix(p, q)) by {
                        lemma_observers_push(subk, pre.keys@[k], q, Seq::empty());
                    }
                    assert forall|q: Seq<Seq<char>>, n: Seq<char>|
                        #[trigger] seq_lookup(kept@, q, n) == (if is_path_prefix(p, q) {
                            None::<Seq<char>>
                        } else {
                            seq_lookup(subk1, q, n)
                        }) by {
                        lemma_observers_push(subk, pre.keys@[k], q, n);
                        if is_path_prefix(p, q) {
                            assert(!seq_has_path(kept@, q));
                        }
                    }
                }
            }
        }
        let ghost keptfin = kept@;
        self.keys = kept;
        proof {
            assert(pre.keys@.subrange(0, pre.keys@.len() as int) =~= pre.keys@);
            assert(self.keys@ == keptfin);
            assert forall|i: int, ln: int|
                0 <= i < self.keys@.len() && 0 < ln < (
                #[trigger] self.keys@[i]).path.deep_view().len() implies self.has_key(
                #[trigger] self.keys@[i].path.deep_view().subrange(0, ln)) by {
                let q = self.keys@[i].path.deep_view();
                let q2 = q.subrange(0, ln);
                lemma_seq_lookup_at(self.keys@, i, Seq::empty());
                assert(seq_has_path(self.keys@, q));
                assert(pre.has_key(q) && !is_path_prefix(p, q));
                assert(pre.has_key(q2));
                assert(is_path_prefix(q2, q)) by {
                    assert(q.subrange(0, q2.len() as int) == q2);
                }
                if is_path_prefix(p, q2) {
                    lemma_prefix_trans(p, q2, q);
                    assert(false);
                }
                assert(seq_has_path(keptfin, q2));
            }
        }
        Ok(())
    }

    /// The names of the immediate child keys of `path`, each exactly
    /// once, in store order; empty when `path` itself is absent or
    /// childless.
    pub fn child_names(&self, path: &Vec<String>) -> (r: Vec<String>)
        requires
            self.wf(),
        ensures
            forall|i: int, j: int| 0 <= i < j < r@.len() ==> (#[trigger] r@[i])@ != (#[trigger] r@[j])@,
            forall|s: Seq<char>|
                seg_seq_contains(r@, s) <==> #[trigger] self.has_key(path.deep_view().push(s)),
    {
        let mut out: Vec<String> = Vec::new();
        let mut i: usize = 0;
        while i < self.keys.len()
            invariant
                0 <= i <= self.keys@.len(),
                self.wf(),
                forall|a: int, b: int|
                    0 <= a < b < out@.len() ==> (#[trigger] out@[a])@ != (#[trigger] out@[b])@,
                forall|s: Seq<char>|
                    #[trigger] seg_seq_contains(out@, s) <==> (exists|k: int|
                        0 <= k < i && (#[trigger] self.keys@[k]).path.deep_view()
                            == path.deep_view().push(s)),
            decreases self.keys@.len() - i,
        {
            let node = &self.keys[i];
            let is_child = node.path.len() > 0 && node.path.len() - 1 == path.len()
                && is_prefix_exec(path, &node.path);
            if is_child {
                let name = node.path[node.path.len() - 1].clone();
                proof {
                    let s0 = name@;
                    assert(node.path.deep_view() =~= path.deep_view().push(s0));
                    assert(!seg_seq_contains(out@, s0)) by {
                        if seg_seq_contains(out@, s0) {
                            let k = choose|k: int|
                                0 <= k < i && (#[trigger] self.keys@[k]).path.deep_view()
                                    == path.deep_view().push(s0);
                            assert(self.keys@[k].path.deep_view()
                                == self.keys@[i as int].path.deep_view());
                            assert(false);
                        }
                    }
                }
                let ghost outg = out@;
                out.push(name);
                proof {
                    let s0 = out@.last()@;
                    assert(forall|a: int| 0 <= a < outg.len() ==> #[trigger] out@[a] == outg[a]);
                    assert forall|s: Seq<char>|
                        #[trigger] seg_seq_contains(out@, s) <==> (exists|k: int|
                            0 <= k < i + 1 && (#[trigger] self.keys@[k]).path.deep_view()
                                == path.deep_view().push(s)) by {
                        if seg_seq_contains(out@, s) {
                            let a = choose|a: int|
                                0 <= a < out@.len() && (#[trigger] out@[a])@ == s;
                            if a < outg.len() {
                                assert(seg_seq_contains(outg, s));
                            } else {
                                assert(s == s0);
                                assert(self.keys@[i as int].path.deep_view()
                                    == path.deep_view().push(s));
                            }
                        }
                        if exists|k: int|
                            0 <= k < i + 1 && (#[trigger] self.keys@[k]).path.deep_view()
                                == path.deep_view().push(s) {
                            let k = choose|k: int|
                                0 <= k < i + 1 && (#[trigger] self.keys@[k]).path.deep_view()
                                    == path.deep_view().push(s);
                            if k < i {
                                assert(seg_seq_contains(outg, s));
                                let a = choose|a: int|
                                    0 <= a < outg.len() && (#[trigger] outg[a])@ == s;
                                assert(out@[a]@ == s);
                                assert(seg_seq_contains(out@, s));
                            } else {
                                assert(path.deep_view().push(s).last() == s);
                                assert(s == s0);
                                assert(out@.last()@ == s);
                                assert(seg_seq_contains(out@, s));
                            }
                        }
                    }
                }
            } else {
                proof {
                    assert forall|s: Seq<char>|
                        #[trigger] seg_seq_contains(out@, s) <==> (exists|k: int|
                            0 <= k < i + 1 && (#[trigger] self.keys@[k]).path.deep_view()
                                == path.deep_view().push(s)) by {
                        if exists|k: int|
                            0 <= k < i + 1 && (#[trigger] self.keys@[k]).path.deep_view()
                                == path.deep_view().push(s) {
                            let k = choose|k: int|
                                0 <= k < i + 1 && (#[trigger] self.keys@[k]).path.deep_view()
                                    == path.deep_view().push(s);
                            if k == i {
                                let q = path.deep_view().push(s);
                                assert(self.keys@[i as int].path.deep_view() == q);
                                assert(q.len() == path.deep_view().len() + 1);
                                assert(q.subrange(0, path.deep_view().len() as int) =~= path.deep_view());
                                assert(is_path_prefix(path.deep_view(), q));
                                assert(false);
                            }
                        }
                    }
                }
            }
            i += 1;
        }
        proof {
            assert forall|s: Seq<char>|
                #[trigger] seg_seq_contains(out@, s) <==> self.has_key(
                    path.deep_view().push(s),
                ) by {
                if self.has_key(path.deep_view().push(s)) {
                    let k = choose|k: int|
                        0 <= k < self.keys@.len() && (#[trigger] self.keys@[k]).path.deep_view()
                            == path.deep_view().push(s);
                    assert(exists|k2: int|
                        0 <= k2 < self.keys@.len() && (#[trigger] self.keys@[k2]).path.deep_view()
                            == path.deep_view().push(s));
                }
            }
        }
        out
    }

    /// Every proper leading part of an existing key path is itself a key
    /// path: the store is closed under taking parents.
    pub proof fn lemma_closure(&self, w: Seq<Seq<char>>, ln: int)
        requires
            self.wf(),
            self.has_key(w),
            0 < ln < w.len(),
        ensures
            self.has_key(w.subrange(0, ln)),
    {
        let wi = choose|i: int|
            0 <= i < self.keys@.len() && (#[trigger] self.keys@[i]).path.deep_view() == w;
        assert(self.has_key(self.keys@[wi].path.deep_view().subrange(0, ln)));
    }

    /// Renames the child `old_leaf` of `parent` to `new_leaf`, carrying
    /// the whole subtree along, as the system store's rename does. Fails
    /// with `NotFound` when the source key is absent and with
    /// `AlreadyExists` when the target key is present, changing nothing
    /// either way.
    pub fn rename_key(&mut self, parent: &Vec<String>, old_leaf: &String, new_leaf: &String) -> (r:
        Result<(), CtxError>)
        requires
            old(self).wf(),
        ensures
            final(self).wf(),
            match r {
                Ok(_) => {
                    &&& old(self).has_key(parent.deep_view().push(old_leaf@))
                    &&& !old(self).has_key(parent.deep_view().push(new_leaf@))
                    &&& forall|q: Seq<Seq<char>>|
                        #[trigger] final(self).has_key(q) <==> (if is_path_prefix(
                            parent.deep_view().push(new_leaf@),
                            q,
                        ) {
                            old(self).has_key(
                                parent.deep_view().push(old_leaf@) + q.subrange(
                                    parent.deep_view().push(new_leaf@).len() as int,
                                    q.len() as int,
                                ),
                            )
                        } else {
                            old(self).has_key(q) && !is_path_prefix(
                                parent.deep_view().push(old_leaf@),
                                q,
                            )
                        })
                    &&& forall|q: Seq<Seq<char>>, n: Seq<char>|
                        #[trigger] final(self).val(q, n) == (if is_path_prefix(
                            parent.deep_view().push(new_leaf@),
                            q,
                        ) {
                            old(self).val(
                                parent.deep_view().push(old_leaf@) + q.subrange(
                                    parent.deep_view().push(new_leaf@).len() as int,
                                    q.len() as int,
                                ),
                                n,
                            )
                        } else if is_path_prefix(parent.deep_view().push(old_leaf@), q) {
                            None::<Seq<char>>
                        } else {
                            old(self).val(q, n)
                        })
                },
                Err(e) => {
                    &&& *final(self) == *old(self)
                    &&& (e == CtxError::NotFound && !old(self).has_key(
                        parent.deep_view().push(old_leaf@),
                    )) || (e == CtxError::AlreadyExists && old(self).has_key(
                        parent.deep_view().push(old_leaf@),
                    ) && old(self).has_key(parent.deep_view().push(new_leaf@)))
                },
            },
    {
        let mut src = clone_segs(parent);
        src.push(old_leaf.clone());
        let mut dst = clone_segs(parent);
        dst.push(new_leaf.clone());
        proof {
            assert(src.deep_view() =~~= parent.deep_view().push(old_leaf@));
            assert(dst.deep_view() =~~= parent.deep_view().push(new_leaf@));
        }
        if !self.key_exists(&src) {
            return Err(CtxError::NotFound);
        }
        if self.key_exists(&dst) {
            return Err(CtxError::AlreadyExists);
        }
        let ghost pre = *self;
        let ghost sv = src.deep_view();
        let ghost dv = dst.deep_view();
        proof {
            assert forall|q: Seq<Seq<char>>| #[trigger] pre.has_key(q) implies !is_path_prefix(
                dv,
                q,
            ) by {
                if is_path_prefix(dv, q) {
                    if q.len() == dv.len() {
                        assert(q =~= dv);
                        assert(false);
                    } else {
                        pre.lemma_closure(q, dv.len() as int);
                        assert(false);
                    }
                }
            }
            assert(self.keys@ =~= pre.keys@.subrange(0, pre.keys@.len() as int));
        }
        let mut kept: Vec<RegKeyNode> = Vec::new();
        while self.keys.len() > 0
            invariant
                pre.wf(),
                pre == *old(self),
                sv == parent.deep_view().push(old_leaf@),
                dv == parent.deep_view().push(new_leaf@),
                sv == src.deep_view(),
                dv == dst.deep_view(),
                src@.len() == sv.len(),
                sv.len() == dv.len(),
                sv.len() >= 1,
                pre.has_key(sv),
                !pre.has_key(dv),
                forall|q: Seq<Seq<char>>| #[trigger] pre.has_key(q) ==> !is_path_prefix(dv, q),
                self.keys@.len() <= pre.keys@.len(),
                self.keys@ == pre.keys@.subrange(
                    pre.keys@.len() - self.keys@.len(),
                    pre.keys@.len() as int,
                ),
                seq_paths_distinct(kept@),
                forall|i: int| 0 <= i < kept@.len() ==> node_wf(#[trigger] kept@[i]),
                forall|q: Seq<Seq<char>>|
                    #[trigger] seq_has_path(kept@, q) <==> (if is_path_prefix(dv, q) {
                        seq_has_path(
                            pre.keys@.subrange(0, pre.keys@.len() - self.keys@.len()),
                            sv + q.subrange(dv.len() as int, q.len() as int),
                        )
                    } else if is_path_prefix(sv, q) {
                        false
                    } else {
                        seq_has_path(
                            pre.keys@.subrange(0, pre.keys@.len() - self.keys@.len()),
                            q,
                        )
                    }),
                forall|q: Seq<Seq<char>>, n: Seq<char>|
                    #[trigger] seq_lookup(kept@, q, n) == (if is_path_prefix(dv, q) {
                        seq_lookup(
                            pre.keys@.subrange(0, pre.keys@.len() - self.keys@.len()),
                            sv + q.subrange(dv.len() as int, q.len() as int),
                            n,
                        )
                    } else if is_path_prefix(sv, q) {
                        None::<Seq<char>>
                    } else {
                        seq_lookup(
                            pre.keys@.subrange(0, pre.keys@.len() - self.keys@.len()),
                            q,
                            n,
                        )
                    }),
            decreases self.keys@.len(),
        {
            let ghost k = pre.keys@.len() - self.keys@.len();
            let node = self.keys.remove(0);
            let ghost nodeg = node;
            proof {
                assert(nodeg == pre.keys@[k]);
                assert(self.keys@ =~= pre.keys@.subrange(k + 1, pre.keys@.len() as int));
            }
            let renamed = is_prefix_exec(&src, &node.path);
            let ghost keptg = kept@;
            let ghost subk = pre.keys@.subrange(0, k);
            let ghost subk1 = pre.keys@.subrange(0, k + 1);
            proof {
                assert(renamed == is_path_prefix(sv, nodeg.path.deep_view()));
                assert(subk1 =~= subk.push(pre.keys@[k]));
                assert(forall|a: int| 0 <= a < k ==> #[trigger] subk[a] == pre.keys@[a]);
                assert(seq_paths_distinct(subk));
                assert(!seq_has_path(subk, nodeg.path.deep_view())) by {
                    if seq_has_path(subk, nodeg.path.deep_view()) {
                        let a = choose|a: int|
                            0 <= a < subk.len() && (#[trigger] subk[a]).path.deep_view()
                                == nodeg.path.deep_view();
                        assert(pre.keys@[a].path.deep_view() == pre.keys@[k].path.deep_view());
                        assert(false);
                    }
                }
                assert(pre.has_key(nodeg.path.deep_view())) by {
                    assert((#[trigger] pre.keys@[k]).path.deep_view()
                        == nodeg.path.deep_view());
                }
                assert(!is_path_prefix(dv, nodeg.path.deep_view()));
                assert(node_wf(nodeg));
            }
            if renamed {
                let mut np = clone_segs(&dst);
                proof {
                    assert(np.deep_view() =~~= dv + nodeg.path.deep_view().subrange(
                        sv.len() as int,
                        sv.len() as int,
                    ));
                }
                let mut t: usize = src.len();
                while t < node.path.len()
                    invariant
                        sv == src.deep_view(),
                        dv == dst.deep_view(),
                        src@.len() == sv.len(),
                        sv.len() <= t <= node.path@.len(),
                        node == nodeg,
                        np.deep_view() == dv + node.path.deep_view().subrange(
                            sv.len() as int,
                            t as int,
                        ),
                    decreases node.path@.len() - t,
                {
                    let ghost npg = np.deep_view();
                    np.push(node.path[t].clone());
                    proof {
                        assert(np.deep_view() =~~= npg.push(node.path.deep_view()[t as int]));
                        assert(node.path.deep_view().subrange(sv.len() as int, t + 1)
                            =~= node.path.deep_view().subrange(sv.len() as int, t as int).push(
                            node.path.deep_view()[t as int],
                        ));
                        assert(np.deep_view() =~~= dv + node.path.deep_view().subrange(
                            sv.len() as int,
                            t + 1,
                        ));
                    }
                    t += 1;
                }
                let node2 = RegKeyNode { path: np, values: node.values };
                let ghost n2g = node2;
                kept.push(node2);
                proof {
                    let rest = nodeg.path.deep_view().subrange(
                        sv.len() as int,
                        nodeg.path.deep_view().len() as int,
                    );
                    let q0 = n2g.path.deep_view();
                    assert(q0 == dv + rest);
                    assert(n2g.values@ == nodeg.values@);
                    assert(kept@ == keptg.push(n2g));
                    assert(is_path_prefix(dv, q0)) by {
                        assert(q0.subrange(0, dv.len() as int) =~= dv);
                    }
                    assert(nodeg.path.deep_view() =~= sv + rest);
                    assert(q0.subrange(dv.len() as int, q0.len() as int) =~= rest);
                    assert(!seq_has_path(keptg, q0)) by {
                        assert(sv + q0.subrange(dv.len() as int, q0.len() as int)
                            =~= nodeg.path.deep_view());
                    }
                    assert(node_wf(n2g)) by {
                        assert(n2g.path@.len() == q0.len());
                    }
                    assert(seq_paths_distinct(kept@)) by {
                        lemma_observers_push(keptg, n2g, q0, Seq::empty());
                    }
                    assert(forall|i: int| 0 <= i < kept@.len() ==> node_wf(#[trigger] kept@[i]))
                        by {
                        assert(forall|i: int|
                            0 <= i < keptg.len() ==> #[trigger] kept@[i] == keptg[i]);
                        assert(kept@.last() == n2g);
                    }
                    assert forall|q: Seq<Seq<char>>|
                        #[trigger] seq_has_path(kept@, q) <==> (if is_path_prefix(dv, q) {
                            seq_has_path(
                                subk1,
                                sv + q.subrange(dv.len() as int, q.len() as int),
                            )
                        } else if is_path_prefix(sv, q) {
                            false
                        } else {
                            seq_has_path(subk1, q)
                        }) by {
                        lemma_observers_push(keptg, n2g, q, Seq::empty());
                        if is_path_prefix(dv, q) {
                            let x = sv + q.subrange(dv.len() as int, q.len() as int);
                            lemma_observers_push(subk, pre.keys@[k], x, Seq::empty());
                            if q == q0 {
                                assert(x =~= nodeg.path.deep_view());
                            }
                            if x == nodeg.path.deep_view() {
                                assert(q.subrange(dv.len() as int, q.len() as int) =~= rest);
                                assert(q =~= dv + q.subrange(dv.len() as int, q.len() as int));
                                assert(q =~= q0);
                            }
                        } else {
                            lemma_observers_push(subk, pre.keys@[k], q, Seq::empty());
                            assert(q != q0);
                            if !is_path_prefix(sv, q) {
                                assert(q != nodeg.path.deep_view());
                            }
                        }
                    }
                    assert forall|q: Seq<Seq<char>>, n: Seq<char>|
                        #[trigger] seq_lookup(kept@, q, n) == (if is_path_prefix(dv, q) {
                            seq_lookup(
                                subk1,
                                sv + q.subrange(dv.len() as int, q.len() as int),
                                n,
                            )
                        } else if is_path_prefix(sv, q) {
                            None::<Seq<char>>
                        } else {
                            seq_lookup(subk1, q, n)
                        }) by {
                        lemma_observers_push(keptg, n2g, q, n);
                        if is_path_prefix(dv, q) {
                            let x = sv + q.subrange(dv.len() as int, q.len() as int);
                            lemma_observers_push(subk, pre.keys@[k], x, n);
                            if q == q0 {
                                assert(x =~= nodeg.path.deep_view());
                                assert(seq_lookup(kept@, q0, n) == values_lookup(
                                    nodeg.values@,
                                    n,
                                ));
                                assert(seq_lookup(subk1, x, n) == values_lookup(
                                    nodeg.values@,
                                    n,
                                ));
                            }
                            if x == nodeg.path.deep_view() {
                                assert(q.subrange(dv.len() as int, q.len() as int) =~= rest);
                                assert(q =~= dv + q.subrange(dv.len() as int, q.len() as int));
                                assert(q =~= q0);
                            }
                        } else {
                            lemma_observers_push(subk, pre.keys@[k], q, n);
                            assert(q != q0);
                            if is_path_prefix(sv, q) {
                                assert(!seq_has_path(kept@, q));
                            } else {
                                assert(q != nodeg.path.deep_view());
                            }
                        }
                    }
                }
            } else {
                kept.push(node);
                proof {
                    let q1 = nodeg.path.deep_view();
                    assert(kept@ == keptg.push(nodeg));
                    assert(!is_path_prefix(sv, q1));
                    assert(!is_path_prefix(dv, q1));
                    assert(!seq_has_path(keptg, q1));
                    assert(seq_paths_distinct(kept@)) by {
                        lemma_observers_push(keptg, nodeg, q1, Seq::empty());
                    }
                    assert(forall|i: int| 0 <= i < kept@.len() ==> node_wf(#[trigger] kept@[i]))
                        by {
                        assert(forall|i: int|
                            0 <= i < keptg.len() ==> #[trigger] kept@[i] == keptg[i]);
                        assert(kept@.last() == nodeg);
                    }
                    assert forall|q: Seq<Seq<char>>|
                        #[trigger] seq_has_path(kept@, q) <==> (if is_path_prefix(dv, q) {
                            seq_has_path(
                                subk1,
                                sv + q.subrange(dv.len() as int, q.len() as int),
                            )
                        } else if is_path_prefix(sv, q) {
                            false
                        } else {
                            seq_has_path(subk1, q)
                        }) by {
                        lemma_observers_push(keptg, nodeg, q, Seq::empty());
                        if is_path_prefix(dv, q) {
                            let x = sv + q.subrange(dv.len() as int, q.len() as int);
                            lemma_observers_push(subk, pre.keys@[k], x, Seq::empty());
                            assert(q != q1);
                            assert(is_path_prefix(sv, x)) by {
                                assert(x.subrange(0, sv.len() as int) =~= sv);
                            }
                            assert(x != q1);
                        } else {
                            lemma_observers_push(subk, pre.keys@[k], q, Seq::empty());
                            if is_path_prefix(sv, q) {
                                assert(q != q1);
                            }
                        }
                    }
                    assert forall|q: Seq<Seq<char>>, n: Seq<char>|
                        #[trigger] seq_lookup(kept@, q, n) == (if is_path_prefix(dv, q) {
                            seq_lookup(
                                subk1,
                                sv + q.subrange(dv.len() as int, q.len() as int),
                                n,
                            )
                        } else if is_path_prefix(sv, q) {
                            None::<Seq<char>>
                        } else {
                            seq_lookup(subk1, q, n)
                        }) by {
                        lemma_observers_push(keptg, nodeg, q, n);
                        if is_path_prefix(dv, q) {
                            let x = sv + q.subrange(dv.len() as int, q.len() as int);
                            lemma_observers_push(subk, pre.keys@[k], x, n);
                            assert(q != q1);
                            assert(is_path_prefix(sv, x)) by {
                                assert(x.subrange(0, sv.len() as int) =~= sv);
                            }
                            assert(x != q1);
                        } else {
                            lemma_observers_push(subk, pre.keys@[k], q, n);
                            if is_path_prefix(sv, q) {
                                assert(q != q1);
                                assert(!seq_has_path(kept@, q));
                            } else {
                                if q == q1 {
                                    assert(seq_lookup(kept@, q1, n) == values_lookup(
                                        nodeg.values@,
                                        n,
                                    ));
                                    assert(seq_lookup(subk1, q1, n) == values_lookup(
                                        nodeg.values@,
                                        n,
                                    ));
                                }
                            }
                        }
                    }
                }
            }
        }
        let ghost keptfin = kept@;
        self.keys = kept;
        proof {
            assert(pre.keys@.subrange(0, pre.keys@.len() as int) =~= pre.keys@);
            assert(self.keys@ == keptfin);
            assert forall|i: int, ln: int|
                0 <= i < self.keys@.len() && 0 < ln < (
                #[trigger] self.keys@[i]).path.deep_view().len() implies self.has_key(
                #[trigger] self.keys@[i].path.deep_view().subrange(0, ln)) by {
                let q = self.keys@[i].path.deep_view();
                let q2 = q.subrange(0, ln);
                lemma_seq_lookup_at(self.keys@, i, Seq::empty());
                assert(seq_has_path(self.keys@, q));
                assert(is_path_prefix(q2, q)) by {
                    assert(q.subrange(0, q2.len() as int) == q2);
                }
                if is_path_prefix(dv, q) {
                    let rest = q.subrange(dv.len() as int, q.len() as int);
                    assert(pre.has_key(sv + rest));
                    if ln >= dv.len() {
                        let rest2 = q.subrange(dv.len() as int, ln);
                        assert(is_path_prefix(dv, q2)) by {
                            assert(q2.subrange(0, dv.len() as int) =~= dv);
                        }
                        assert(q2.subrange(dv.len() as int, q2.len() as int) =~= rest2);
                        if ln == dv.len() {
                            assert(sv + rest2 =~= sv);
                            assert(pre.has_key(sv + rest2));
                        } else {
                            let w = sv + rest;
                            assert(w.len() == q.len());
                            pre.lemma_closure(w, ln);
                            assert(w.subrange(0, ln) =~= sv + rest2);
                            assert(pre.has_key(sv + rest2));
                        }
                        assert(seq_has_path(keptfin, q2));
                    } else {
                        assert(q2 =~= sv.subrange(0, ln)) by {
                            assert(forall|a: int| 0 <= a < ln ==> q2[a] == dv[a]);
                            assert(forall|a: int|
                                0 <= a < ln ==> dv[a] == parent.deep_view()[a]);
                            assert(forall|a: int|
                                0 <= a < ln ==> sv[a] == parent.deep_view()[a]);
                        }
                        assert(!is_path_prefix(dv, q2));
                        assert(!is_path_prefix(sv, q2));
                        pre.lemma_closure(sv, ln);
                        assert(sv.subrange(0, ln) == q2 || sv.subrange(0, ln) =~= q2);
                        assert(pre.has_key(q2));
                        assert(seq_has_path(keptfin, q2));
                    }
                } else {
                    assert(!is_path_prefix(sv, q));
                    assert(pre.has_key(q));
                    pre.lemma_closure(q, ln);
                    if is_path_prefix(sv, q2) {
                        lemma_prefix_trans(sv, q2, q);
                        assert(false);
                    }
                    if is_path_prefix(dv, q2) {
                        lemma_prefix_trans(dv, q2, q);
                        assert(false);
                    }
                    assert(seq_has_path(keptfin, q2));
                }
            }
        }
        Ok(())
    }

    /// The index of value `name` on the key at index `idx`, if present.
    fn find_value(&self, idx: usize, name: &String) -> (r: Option<usize>)
        requires
            self.wf(),
            idx < self.keys@.len(),
        ensures
            match r {
                Some(j) => j < self.keys@[idx as int].values@.len()
                    && self.keys@[idx as int].values@[j as int].name@ == name@,
                None => !values_contains(self.keys@[idx as int].values@, name@),
            },
    {
        let node = &self.keys[idx];
        let mut j: usize = 0;
        while j < node.values.len()
            invariant
                0 <= j <= node.values@.len(),
                node == &self.keys@[idx as int],
                forall|k: int| 0 <= k < j ==> (#[trigger] node.values@[k]).name@ != name@,
            decreases node.values@.len() - j,
        {
            if node.values[j].name == *name {
                return Some(j);
            }
            j += 1;
        }
        None
    }

    /// After replacing the node at `i` of `pre` by `node` with the same
    /// path, the store is well-formed and its lookups changed only at
    /// that path, to `node`'s values.
    proof fn lemma_after_node_update(&self, pre: RegStore, i: int, node: RegKeyNode)
        requires
            pre.wf(),
            0 <= i < pre.keys@.len(),
            node.path.deep_view() == pre.keys@[i].path.deep_view(),
            node.path@.len() > 0,
            values_distinct(node.values@),
            self.keys@ == pre.keys@.update(i, node),
        ensures
            self.wf(),
            forall|q: Seq<Seq<char>>| #[trigger] self.has_key(q) == pre.has_key(q),
            forall|q: Seq<Seq<char>>, n: Seq<char>|
                q != node.path.deep_view() ==> #[trigger] self.val(q, n) == pre.val(q, n),
            forall|n: Seq<char>|
                #[trigger] self.val(node.path.deep_view(), n) == values_lookup(node.values@, n),
    {
        assert forall|q: Seq<Seq<char>>| #[trigger] self.has_key(q) == pre.has_key(q) by {
            lemma_observers_update(pre.keys@, i, node, q, Seq::empty());
        }
        assert forall|q: Seq<Seq<char>>, n: Seq<char>|
            q != node.path.deep_view() implies #[trigger] self.val(q, n) == pre.val(q, n) by {
            lemma_observers_update(pre.keys@, i, node, q, n);
        }
        assert forall|n: Seq<char>|
            #[trigger] self.val(node.path.deep_view(), n) == values_lookup(node.values@, n) by {
            lemma_observers_update(pre.keys@, i, node, node.path.deep_view(), n);
        }
        assert(seq_paths_distinct(self.keys@)) by {
            lemma_observers_update(pre.keys@, i, node, Seq::empty(), Seq::empty());
        }
        assert(forall|k: int|
            0 <= k < self.keys@.len() ==> node_wf(#[trigger] self.keys@[k])) by {
            assert(forall|k: int|
                0 <= k < pre.keys@.len() && k != i ==> #[trigger] self.keys@[k] == pre.keys@[k]);
            assert(node_wf(self.keys@[i]));
        }
        assert forall|k: int, ln: int|
            0 <= k < self.keys@.len() && 0 < ln < (
            #[trigger] self.keys@[k]).path.deep_view().len() implies self.has_key(
            #[trigger] self.keys@[k].path.deep_view().subrange(0, ln)) by {
            assert(self.keys@[k].path.deep_view() == pre.keys@[k].path.deep_view());
            assert(pre.has_key(pre.keys@[k].path.deep_view().subrange(0, ln)));
        }
    }
}

/// Appending an entry with a fresh name keeps names distinct; it binds
/// its own name and leaves every other name's lookup unchanged.
proof fn lemma_values_push(vs: Seq<RegValueEntry>, e: RegValueEntry, n: Seq<char>)
    requires
        values_distinct(vs),
        !values_contains(vs, e.name@),
    ensures
        values_distinct(vs.push(e)),
        values_lookup(vs.push(e), e.name@) == Some(e.data@),
        n != e.name@ ==> values_lookup(vs.push(e), n) == values_lookup(vs, n),
{
    let t = vs.push(e);
    assert(forall|k: int| 0 <= k < vs.len() ==> #[trigger] t[k] == vs[k]);
    assert(t[vs.len() as int] == e);
    assert(values_distinct(t)) by {
        assert(forall|k: int| 0 <= k < vs.len() ==> (#[trigger] vs[k]).name@ != e.name@);
    }
    lemma_values_lookup_at(t, vs.len() as int);
    if n != e.name@ {
        if values_contains(vs, n) {
            let j = choose|j: int| 0 <= j < vs.len() && (#[trigger] vs[j]).name@ == n;
            lemma_values_lookup_at(vs, j);
            lemma_values_lookup_at(t, j);
        } else {
            if values_contains(t, n) {
                let j = choose|j: int| 0 <= j < t.len() && (#[trigger] t[j]).name@ == n;
                assert(j < vs.len());
                assert(values_contains(vs, n));
                assert(false);
            }
        }
    }
}

/// Replacing the entry at `j` by one with the same name rebinds that name
/// and leaves every other name's lookup unchanged.
proof fn lemma_values_update(vs: Seq<RegValueEntry>, j: int, e: RegValueEntry, n: Seq<char>)
    requires
        values_distinct(vs),
        0 <= j < vs.len(),
        e.name@ == vs[j].name@,
    ensures
        values_distinct(vs.update(j, e)),
        values_lookup(vs.update(j, e), e.name@) == Some(e.data@),
        n != e.name@ ==> values_lookup(vs.update(j, e), n) == values_lookup(vs, n),
{
    let t = vs.update(j, e);
    assert(t.len() == vs.len());
    assert(forall|k: int| 0 <= k < vs.len() && k != j ==> #[trigger] t[k] == vs[k]);
    assert(t[j] == e);
    assert(values_distinct(t)) by {
        assert(forall|k: int|
            0 <= k < t.len() ==> (#[trigger] t[k]).name@ == vs[k].name@);
    }
    lemma_values_lookup_at(t, j);
    if n != e.name@ {
        if values_contains(vs, n) {
            let k = choose|k: int| 0 <= k < vs.len() && (#[trigger] vs[k]).name@ == n;
            assert(k != j);
            lemma_values_lookup_at(vs, k);
            lemma_values_lookup_at(t, k);
        } else {
            if values_contains(t, n) {
                let k = choose|k: int| 0 <= k < t.len() && (#[trigger] t[k]).name@ == n;
                assert(k != j);
                assert(vs[k].name@ == n);
                assert(false);
            }
        }
    }
}

/// Removing the entry at `j` unbinds its name and leaves every other
/// name's lookup unchanged.
proof fn lemma_values_remove(vs: Seq<RegValueEntry>, j: int, n: Seq<char>)
    requires
        values_distinct(vs),
        0 <= j < vs.len(),
    ensures
        values_distinct(vs.remove(j)),
        values_lookup(vs.remove(j), vs[j].name@) is None,
        n != vs[j].name@ ==> values_lookup(vs.remove(j), n) == values_lookup(vs, n),
{
    let t = vs.remove(j);
    assert(t.len() == vs.len() - 1);
    assert(forall|k: int| 0 <= k < j ==> #[trigger] t[k] == vs[k]);
    assert(forall|k: int| j <= k < t.len() ==> #[trigger] t[k] == vs[k + 1]);
    assert(values_distinct(t)) by {
        assert(forall|k1: int, k2: int|
            0 <= k1 < k2 < t.len() ==> (#[trigger] t[k1]).name@ != (#[trigger] t[k2]).name@) by {
            assert(forall|k: int|
                0 <= k < t.len() ==> (#[trigger] t[k]).name@ == (if k < j {
                    vs[k]
                } else {
                    vs[k + 1]
                }).name@);
        }
    }
    if values_contains(t, vs[j].name@) {
        let k = choose|k: int| 0 <= k < t.len() && (#[trigger] t[k]).name@ == vs[j].name@;
        if k < j {
            assert(vs[k].name@ == vs[j].name@);
        } else {
            assert(vs[k + 1].name@ == vs[j].name@);
        }
        assert(false);
    }
    if n != vs[j].name@ {
        if values_contains(vs, n) {
            let k = choose|k: int| 0 <= k < vs.len() && (#[trigger] vs[k]).name@ == n;
            assert(k != j);
            lemma_values_lookup_at(vs, k);
            if k < j {
                lemma_values_lookup_at(t, k);
            } else {
                assert(t[k - 1] == vs[k]);
                lemma_values_lookup_at(t, k - 1);
            }
        } else {
            if values_contains(t, n) {
                let k = choose|k: int| 0 <= k < t.len() && (#[trigger] t[k]).name@ == n;
                if k < j {
                    assert(vs[k].name@ == n);
                } else {
                    assert(vs[k + 1].name@ == n);
                }
                assert(false);
            }
        }
    }
}

/// Replacing the node at `i` by one with the same path leaves the key
/// domain unchanged and changes lookups only at that path.
proof fn lemma_observers_update(
    s: Seq<RegKeyNode>,
    i: int,
    node: RegKeyNode,
    q: Seq<Seq<char>>,
    name: Seq<char>,
)
    requires
        seq_paths_distinct(s),
        0 <= i < s.len(),
        node.path.deep_view() == s[i].path.deep_view(),
    ensures
        seq_paths_distinct(s.update(i, node)),
        seq_has_path(s.update(i, node), q) <==> seq_has_path(s, q),
        q != node.path.deep_view() ==> seq_lookup(s.update(i, node), q, name) == seq_lookup(
            s,
            q,
            name,
        ),
        seq_lookup(s.update(i, node), node.path.deep_view(), name) == values_lookup(
            node.values@,
            name,
        ),
{
    let t = s.update(i, node);
    assert(t.len() == s.len());
    assert(forall|k: int| 0 <= k < s.len() && k != i ==> #[trigger] t[k] == s[k]);
    assert(t[i] == node);
    assert(seq_paths_distinct(t)) by {
        assert(forall|k: int|
            0 <= k < t.len() ==> (#[trigger] t[k]).path.deep_view() == s[k].path.deep_view());
    }
    if seq_has_path(s, q) {
        let w = choose|w: int| 0 <= w < s.len() && (#[trigger] s[w]).path.deep_view() == q;
        assert(t[w].path.deep_view() == q);
        assert(seq_has_path(t, q));
    }
    if seq_has_path(t, q) {
        let w = choose|w: int| 0 <= w < t.len() && (#[trigger] t[w]).path.deep_view() == q;
        assert(s[w].path.deep_view() == q);
        assert(seq_has_path(s, q));
    }
    lemma_seq_lookup_at(t, i, name);
    if q != node.path.deep_view() && seq_has_path(s, q) {
        let w = seq_path_index(s, q);
        assert(0 <= w < s.len() && s[w].path.deep_view() == q);
        assert(w != i);
        lemma_seq_lookup_at(s, w, name);
        lemma_seq_lookup_at(t, w, name);
    }
}

/// Segment-path prefixing is transitive.
proof fn lemma_prefix_trans(a: Seq<Seq<char>>, b: Seq<Seq<char>>, c: Seq<Seq<char>>)
    requires
        is_path_prefix(a, b),
        is_path_prefix(b, c),
    ensures
        is_path_prefix(a, c),
{
    assert(c.subrange(0, a.len() as int) =~= b.subrange(0, a.len() as int));
}

/// A copy of a segment vector, equal element-wise.
pub(crate) fn clone_segs(v: &Vec<String>) -> (r: Vec<String>)
    ensures
        r@ == v@,
{
    let mut r: Vec<String> = Vec::new();
    let mut i: usize = 0;
    while i < v.len()
        invariant
            0 <= i <= v@.len(),
            r@.len() == i,
            forall|j: int| 0 <= j < i ==> #[trigger] r@[j] == v@[j],
        decreases v@.len() - i,
    {
        r.push(v[i].clone());
        i += 1;
    }
    proof {
        assert(r@ =~= v@);
    }
    r
}

/// A missing key holds no values.
pub broadcast proof fn lemma_val_of_absent_key(s: RegStore, p: Seq<Seq<char>>, n: Seq<char>)
    ensures
        !s.has_key(p) ==> #[trigger] s.val(p, n) is None,
{
}

/// Whether a vector of segments holds `x`, by character content.
pub open spec fn seg_seq_contains(s: Seq<String>, x: Seq<char>) -> bool {
    exists|i: int| 0 <= i < s.len() && (#[trigger] s[i])@ == x
}

/// Whether `p` is a segment-wise prefix of `q`.
fn is_prefix_exec(p: &Vec<String>, q: &Vec<String>) -> (r: bool)
    ensures
        r == is_path_prefix(p.deep_view(), q.deep_view()),
{
    if p.len() > q.len() {
        proof {
            assert(p.deep_view().len() == p@.len());
            assert(q.deep_view().len() == q@.len());
        }
        return false;
    }
    let mut i: usize = 0;
    while i < p.len()
        invariant
            0 <= i <= p@.len(),
            p@.len() <= q@.len(),
            forall|j: int| 0 <= j < i ==> p.deep_view()[j] == q.deep_view()[j],
        decreases p@.len() - i,
    {
        if !(p[i] == q[i]) {
            proof {
                assert(p.deep_view()[i as int] != q.deep_view()[i as int]);
                if is_path_prefix(p.deep_view(), q.deep_view()) {
                    assert(q.deep_view().subrange(0, p.deep_view().len() as int)[i as int]
                        == q.deep_view()[i as int]);
                }
            }
            return false;
        }
        i += 1;
    }
    proof {
        assert(q.deep_view().subrange(0, p.deep_view().len() as int) =~= p.deep_view());
    }
    true
}

/// Segment-wise equality of two string vectors.
fn str_vec_eq(a: &Vec<String>, b: &Vec<String>) -> (r: bool)
    ensures
        r == (a.deep_view() == b.deep_view()),
{
    if a.len() != b.len() {
        proof {
            assert(a.deep_view().len() == a@.len());
            assert(b.deep_view().len() == b@.len());
        }
        return false;
    }
    let mut i: usize = 0;
    while i < a.len()
        invariant
            0 <= i <= a@.len(),
            a@.len() == b@.len(),
            forall|j: int| 0 <= j < i ==> a.deep_view()[j] == b.deep_view()[j],
        decreases a@.len() - i,
    {
        if !(a[i] == b[i]) {
            proof {
                assert(a.deep_view()[i as int] != b.deep_view()[i as int]);
            }
            return false;
        }
        i += 1;
    }
    proof {
        assert(a.deep_view() =~= b.deep_view());
    }
    true
}

} // verus!
