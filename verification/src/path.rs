//! Canonical store paths derived from an activation context and a name path.
//!
//! Every other operation's correctness depends on consistent path
//! derivation, so it is implemented once here and shared. Paths exist in
//! two equivalent forms: the joined string shown to callers, and the
//! segment sequence that keys the hierarchical store.

use vstd::prelude::*;
use vstd::string::StringExecFns;

use crate::entry::ActivationType;

verus! {

/// A name usable as one path segment: non-empty and free of the `\`
/// separator, so that segment boundaries stay unambiguous.
pub open spec fn valid_name(s: Seq<char>) -> bool {
    s.len() > 0 && !s.contains('\\')
}

pub open spec fn valid_name_path(p: Seq<Seq<char>>) -> bool {
    forall|i: int| 0 <= i < p.len() ==> valid_name(#[trigger] p[i])
}

/// `p` is a (not necessarily proper) leading part of `q`, segment-wise.
pub open spec fn is_path_prefix(p: Seq<Seq<char>>, q: Seq<Seq<char>>) -> bool {
    p.len() <= q.len() && q.subrange(0, p.len() as int) == p
}

/// The root namespace token of a context, as a string.
pub open spec fn base_path_spec(t: ActivationType) -> Seq<char> {
    match t {
        ActivationType::File(ext) => ext@,
        ActivationType::Folder => "Directory"@,
        ActivationType::Background => "Directory\\Background"@,
    }
}

/// The root namespace of a context, as store segments.
pub open spec fn base_segments_spec(t: ActivationType) -> Seq<Seq<char>> {
    match t {
        ActivationType::File(ext) => seq![ext@],
        ActivationType::Folder => seq!["Directory"@],
        ActivationType::Background => seq!["Directory"@, "Background"@],
    }
}

/// The container segment interleaved before every name, with separators.
pub open spec fn sep_shell() -> Seq<char> {
    "\\shell\\"@
}

/// What a name path contributes to the joined string: `\shell\` before
/// every name.
pub open spec fn name_chain_spec(names: Seq<Seq<char>>) -> Seq<char>
    decreases names.len(),
{
    if names.len() == 0 {
        Seq::empty()
    } else {
        name_chain_spec(names.drop_last()) + sep_shell() + names.last()
    }
}

/// The canonical string path of a name path under a context. An empty
/// name path yields the context's top-level container, used to enumerate
/// all of its root entries.
pub open spec fn full_path_spec(t: ActivationType, names: Seq<Seq<char>>) -> Seq<char> {
    if names.len() == 0 {
        base_path_spec(t) + "\\shell"@
    } else {
        base_path_spec(t) + name_chain_spec(names)
    }
}

/// What a name path contributes to the segment form: a `shell` container
/// segment before every name.
pub open spec fn name_chain_segments(names: Seq<Seq<char>>) -> Seq<Seq<char>>
    decreases names.len(),
{
    if names.len() == 0 {
        Seq::empty()
    } else {
        name_chain_segments(names.drop_last()) + seq!["shell"@, names.last()]
    }
}

/// The store segments of the node addressed by a name path under a
/// context. An empty name path addresses the context's root key itself.
pub open spec fn full_segments_spec(t: ActivationType, names: Seq<Seq<char>>) -> Seq<Seq<char>> {
    base_segments_spec(t) + name_chain_segments(names)
}

/// A non-empty name path contributes at least the container segment with
/// its separators plus one name character.
proof fn lemma_name_chain_min_len(names: Seq<Seq<char>>)
    requires
        valid_name_path(names),
        names.len() > 0,
    ensures
        name_chain_spec(names).len() >= 8,
{
    reveal_strlit("\\shell\\");
    assert(names.last() == names[names.len() - 1]);
    assert(valid_name(names.last()));
}

/// Joining names with the container separator never conflates two valid
/// name paths: the last separator position pins the last name, and the
/// rest follows by induction.
proof fn lemma_name_chain_injective(a: Seq<Seq<char>>, b: Seq<Seq<char>>)
    requires
        valid_name_path(a),
        valid_name_path(b),
        name_chain_spec(a) == name_chain_spec(b),
    ensures
        a == b,
    decreases a.len(),
{
    reveal_strlit("\\shell\\");
    if a.len() == 0 {
        if b.len() > 0 {
            lemma_name_chain_min_len(b);
            assert(false);
        }
        assert(a =~~= b);
    } else if b.len() == 0 {
        lemma_name_chain_min_len(a);
        assert(false);
    } else {
        let c = name_chain_spec(a);
        let a2 = a.drop_last();
        let la = a.last();
        let b2 = b.drop_last();
        let lb = b.last();
        assert(la == a[a.len() - 1] && valid_name(la));
        assert(lb == b[b.len() - 1] && valid_name(lb));
        assert(c == name_chain_spec(a2) + sep_shell() + la);
        assert(c == name_chain_spec(b2) + sep_shell() + lb);
        assert(la.len() == lb.len()) by {
            if la.len() < lb.len() {
                let i = c.len() - 1 - la.len();
                assert(c[i] == sep_shell()[6]);
                let off = c.len() - lb.len();
                assert(c[i] == lb[i - off]);
                assert(lb.contains('\\')) by {
                    assert(lb[i - off] == '\\');
                }
                assert(false);
            }
            if lb.len() < la.len() {
                let i = c.len() - 1 - lb.len();
                assert(c[i] == sep_shell()[6]);
                let off = c.len() - la.len();
                assert(c[i] == la[i - off]);
                assert(la.contains('\\')) by {
                    assert(la[i - off] == '\\');
                }
                assert(false);
            }
        }
        let m = name_chain_spec(a2).len();
        assert(name_chain_spec(b2).len() == m);
        assert(name_chain_spec(a2) =~= c.subrange(0, m as int));
        assert(name_chain_spec(b2) =~= c.subrange(0, m as int));
        assert(la =~= c.subrange(c.len() - la.len(), c.len() as int));
        assert(lb =~= c.subrange(c.len() - lb.len(), c.len() as int));
        assert(valid_name_path(a2)) by {
            assert(forall|i: int| 0 <= i < a2.len() ==> #[trigger] a2[i] == a[i]);
        }
        assert(valid_name_path(b2)) by {
            assert(forall|i: int| 0 <= i < b2.len() ==> #[trigger] b2[i] == b[i]);
        }
        lemma_name_chain_injective(a2, b2);
        assert(a =~~= b) by {
            assert(forall|i: int| 0 <= i < a.len() - 1 ==> #[trigger] a[i] == a2[i]);
            assert(forall|i: int| 0 <= i < b.len() - 1 ==> #[trigger] b[i] == b2[i]);
        }
    }
}

/// Path derivation is injective under a fixed context: distinct valid
/// name paths never yield the same string. Determinism needs no separate
/// statement: `get_full_path` returns `full_path_spec` of its inputs, a
/// function of them.
pub proof fn lemma_full_path_injective(t: ActivationType, a: Seq<Seq<char>>, b: Seq<Seq<char>>)
    requires
        valid_name_path(a),
        valid_name_path(b),
        full_path_spec(t, a) == full_path_spec(t, b),
    ensures
        a == b,
{
    reveal_strlit("\\shell");
    let base = base_path_spec(t);
    if a.len() == 0 && b.len() == 0 {
        assert(a =~~= b);
    } else if a.len() == 0 {
        lemma_name_chain_min_len(b);
        assert((base + "\\shell"@).len() == (base + name_chain_spec(b)).len());
        assert(false);
    } else if b.len() == 0 {
        lemma_name_chain_min_len(a);
        assert((base + "\\shell"@).len() == (base + name_chain_spec(a)).len());
        assert(false);
    } else {
        assert(name_chain_spec(a) =~= name_chain_spec(b)) by {
            let ca = name_chain_spec(a);
            let cb = name_chain_spec(b);
            assert((base + ca).len() == (base + cb).len());
            assert(forall|i: int|
                0 <= i < ca.len() ==> #[trigger] ca[i] == (base + ca)[base.len() + i]);
            assert(forall|i: int|
                0 <= i < cb.len() ==> #[trigger] cb[i] == (base + cb)[base.len() + i]);
        }
        lemma_name_chain_injective(a, b);
    }
}

/// A child's store location extends its parent's by the container segment
/// and the child's name; in particular the parent's segments lead every
/// child's, so removing the parent's subtree removes every child.
pub proof fn lemma_child_segments_extend(t: ActivationType, names: Seq<Seq<char>>, child: Seq<char>)
    ensures
        full_segments_spec(t, names.push(child)) == full_segments_spec(t, names) + seq![
            "shell"@,
            child,
        ],
        is_path_prefix(full_segments_spec(t, names), full_segments_spec(t, names.push(child))),
{
    assert(names.push(child).drop_last() =~~= names);
    assert(names.push(child).last() == child);
    assert(full_segments_spec(t, names.push(child)) =~~= full_segments_spec(t, names) + seq![
        "shell"@,
        child,
    ]);
    let p = full_segments_spec(t, names);
    let q = full_segments_spec(t, names.push(child));
    assert(q.subrange(0, p.len() as int) =~= p);
}

/// Maps a context to its root namespace token.
pub fn get_base_path(entry_type: &ActivationType) -> (r: String)
    ensures
        r@ == base_path_spec(*entry_type),
{
    match entry_type {
        ActivationType::File(ext) => ext.clone(),
        ActivationType::Folder => String::from_str("Directory"),
        ActivationType::Background => String::from_str("Directory\\Background"),
    }
}

/// Joins the context's root token with each name, interleaving the fixed
/// container segment before every name.
pub fn get_full_path(entry_type: &ActivationType, name_path: &Vec<String>) -> (r: String)
    ensures
        r@ == full_path_spec(*entry_type, name_path.deep_view()),
{
    let mut path = get_base_path(entry_type);

    if name_path.len() == 0 {
        path.append("\\shell");
        return path;
    }
    let mut i: usize = 0;
    while i < name_path.len()
        invariant
            0 <= i <= name_path.len(),
            path@ == base_path_spec(*entry_type) + name_chain_spec(
                name_path.deep_view().take(i as int),
            ),
        decreases name_path.len() - i,
    {
        path.append("\\shell\\");
        path.append(name_path[i].as_str());
        proof {
            let names = name_path.deep_view();
            assert(names.take(i + 1).drop_last() =~= names.take(i as int));
            assert(names.take(i + 1).last() == names[i as int]);
        }
        i += 1;
    }
    proof {
        assert(name_path.deep_view().take(name_path.len() as int) =~= name_path.deep_view());
    }
    path
}

/// The store segments of the node addressed by `name_path` under
/// `entry_type`.
pub fn full_segments(entry_type: &ActivationType, name_path: &Vec<String>) -> (r: Vec<String>)
    ensures
        r.deep_view() == full_segments_spec(*entry_type, name_path.deep_view()),
{
    let mut segs: Vec<String> = Vec::new();
    match entry_type {
        ActivationType::File(ext) => {
            segs.push(ext.clone());
        }
        ActivationType::Folder => {
            segs.push(String::from_str("Directory"));
        }
        ActivationType::Background => {
            segs.push(String::from_str("Directory"));
            segs.push(String::from_str("Background"));
        }
    }
    proof {
        assert(segs.deep_view() =~~= base_segments_spec(*entry_type));
        assert(base_segments_spec(*entry_type) + name_chain_segments(
            name_path.deep_view().take(0),
        ) =~~= segs.deep_view());
    }
    let mut i: usize = 0;
    while i < name_path.len()
        invariant
            0 <= i <= name_path.len(),
            segs.deep_view() == base_segments_spec(*entry_type) + name_chain_segments(
                name_path.deep_view().take(i as int),
            ),
        decreases name_path.len() - i,
    {
        let ghost prev = segs.deep_view();
        segs.push(String::from_str("shell"));
        segs.push(name_path[i].clone());
        proof {
            let names = name_path.deep_view();
            assert(segs.deep_view() =~~= prev + seq!["shell"@, names[i as int]]);
            assert(names.take(i + 1).drop_last() =~= names.take(i as int));
            assert(names.take(i + 1).last() == names[i as int]);
            assert(segs.deep_view() =~~= base_segments_spec(*entry_type) + name_chain_segments(
                names.take(i + 1),
            ));
        }
        i += 1;
    }
    proof {
        assert(name_path.deep_view().take(name_path.len() as int) =~= name_path.deep_view());
    }
    segs
}

} // verus!
