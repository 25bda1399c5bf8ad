//! The global legacy-menu toggle: one fixed registration flipped on and
//! off, with no entry-tree semantics.

use vstd::prelude::*;
use vstd::string::StringExecFns;

use crate::error::CtxError;
use crate::path::is_path_prefix;
use crate::store::RegStore;

verus! {

broadcast use crate::store::lemma_val_of_absent_key;

/// The store path of the registration whose presence restores the
/// pre-Windows 11 context menu.
pub open spec fn classic_menu_segments() -> Seq<Seq<char>> {
    seq!["Software"@, "Classes"@, "CLSID"@, "{86ca1aa0-34aa-4e8b-a509-50c905bae2a2}"@]
}

/// The nested server key written when the classic menu is enabled.
pub open spec fn classic_menu_server_segments() -> Seq<Seq<char>> {
    classic_menu_segments().push("InprocServer32"@)
}

/// What enabling guarantees: the server registration and its ancestors
/// exist, its default value is blank, and nothing else changed.
pub open spec fn classic_menu_enabled_post(pre: RegStore, post: RegStore) -> bool {
    &&& post.has_key(classic_menu_server_segments())
    &&& post.val(classic_menu_server_segments(), ""@) == Some(""@)
    &&& forall|q: Seq<Seq<char>>|
        #[trigger] post.has_key(q) <==> (pre.has_key(q) || (exists|l: int|
            1 <= l <= classic_menu_server_segments().len() && q
                == #[trigger] classic_menu_server_segments().subrange(0, l)))
    &&& forall|q: Seq<Seq<char>>, n: Seq<char>|
        q != classic_menu_server_segments() || n != ""@ ==> #[trigger] post.val(q, n) == pre.val(
            q,
            n,
        )
}

/// What disabling guarantees: the registration and everything below it
/// are gone, and nothing else changed.
pub open spec fn classic_menu_disabled_post(pre: RegStore, post: RegStore) -> bool {
    &&& !post.has_key(classic_menu_segments())
    &&& forall|q: Seq<Seq<char>>|
        #[trigger] post.has_key(q) <==> (pre.has_key(q) && !is_path_prefix(
            classic_menu_segments(),
            q,
        ))
    &&& forall|q: Seq<Seq<char>>, n: Seq<char>|
        #[trigger] post.val(q, n) == (if is_path_prefix(classic_menu_segments(), q) {
            None::<Seq<char>>
        } else {
            pre.val(q, n)
        })
}

/// Enabling twice leaves the store exactly as the first call left it:
/// the toggle is idempotent in the enabling direction.
pub proof fn lemma_enable_idempotent(s0: RegStore, s1: RegStore, s2: RegStore)
    requires
        classic_menu_enabled_post(s0, s1),
        classic_menu_enabled_post(s1, s2),
    ensures
        forall|q: Seq<Seq<char>>| #[trigger] s2.has_key(q) == s1.has_key(q),
        forall|q: Seq<Seq<char>>, n: Seq<char>| #[trigger] s2.val(q, n) == s1.val(q, n),
{
    assert forall|q: Seq<Seq<char>>| #[trigger] s2.has_key(q) == s1.has_key(q) by {
        if s2.has_key(q) && !s1.has_key(q) {
            let l = choose|l: int|
                1 <= l <= classic_menu_server_segments().len() && q
                    == #[trigger] classic_menu_server_segments().subrange(0, l);
            assert(s1.has_key(classic_menu_server_segments().subrange(0, l)));
        }
    }
    assert forall|q: Seq<Seq<char>>, n: Seq<char>| #[trigger] s2.val(q, n) == s1.val(q, n) by {
        if q == classic_menu_server_segments() && n == ""@ {
            assert(s2.val(q, n) == Some(""@));
            assert(s1.val(q, n) == Some(""@));
        }
    }
}

/// Disabling twice leaves the store exactly as the first call left it:
/// the toggle is idempotent in the disabling direction.
pub proof fn lemma_disable_idempotent(s0: RegStore, s1: RegStore, s2: RegStore)
    requires
        classic_menu_disabled_post(s0, s1),
        classic_menu_disabled_post(s1, s2),
    ensures
        forall|q: Seq<Seq<char>>| #[trigger] s2.has_key(q) == s1.has_key(q),
        forall|q: Seq<Seq<char>>, n: Seq<char>| #[trigger] s2.val(q, n) == s1.val(q, n),
{
    assert forall|q: Seq<Seq<char>>| #[trigger] s2.has_key(q) == s1.has_key(q) by {
        if s1.has_key(q) {
            assert(!is_path_prefix(classic_menu_segments(), q));
        }
    }
    assert forall|q: Seq<Seq<char>>, n: Seq<char>| #[trigger] s2.val(q, n) == s1.val(q, n) by {
        if is_path_prefix(classic_menu_segments(), q) {
            assert(s1.val(q, n) is None);
        }
    }
}

/// The store path of the classic-menu registration, as a vector.
pub fn classic_menu_path() -> (r: Vec<String>)
    ensures
        r.deep_view() == classic_menu_segments(),
{
    let mut v: Vec<String> = Vec::new();
    v.push(String::from_str("Software"));
    v.push(String::from_str("Classes"));
    v.push(String::from_str("CLSID"));
    v.push(String::from_str("{86ca1aa0-34aa-4e8b-a509-50c905bae2a2}"));
    proof {
        assert(v.deep_view() =~~= classic_menu_segments());
    }
    v
}

/// Enable or disable the pre-Windows 11 context menu, idempotently in
/// both directions: enabling writes the server registration whether or
/// not it was present, and disabling removes it, treating its absence as
/// success. The host's file manager must be restarted for a change to
/// take effect.
pub fn toggle_classic_menu(enable: bool, store: &mut RegStore) -> (r: Result<(), CtxError>)
    requires
        old(store).wf(),
    ensures
        final(store).wf(),
        r is Ok,
        enable ==> classic_menu_enabled_post(*old(store), *final(store)),
        !enable ==> classic_menu_disabled_post(*old(store), *final(store)),
{
    if enable {
        let mut path = classic_menu_path();
        path.push(String::from_str("InprocServer32"));
        proof {
            assert(path.deep_view() =~~= classic_menu_server_segments());
        }
        let _ = store.create_key(&path);
        match store.set_value(&path, "", "") {
            Ok(_) => Ok(()),
            Err(e) => {
                proof {
                    assert(false);
                }
                Err(e)
            },
        }
    } else {
        let path = classic_menu_path();
        let ghost pre = *store;
        match store.delete_subtree(&path) {
            Ok(_) => {
                proof {
                    assert(is_path_prefix(classic_menu_segments(), classic_menu_segments())) by {
                        assert(classic_menu_segments().subrange(
                            0,
                            classic_menu_segments().len() as int,
                        ) =~= classic_menu_segments());
                    }
                }
                Ok(())
            },
            Err(_) => {
                proof {
                    assert forall|q: Seq<Seq<char>>| #[trigger] pre.has_key(q) implies
                        !is_path_prefix(classic_menu_segments(), q) by {
                        if is_path_prefix(classic_menu_segments(), q) {
                            if q.len() == classic_menu_segments().len() {
                                assert(q =~= classic_menu_segments());
                            } else {
                                pre.lemma_closure(q, classic_menu_segments().len() as int);
                            }
                        }
                    }
                    assert(is_path_prefix(classic_menu_segments(), classic_menu_segments())) by {
                        assert(classic_menu_segments().subrange(
                            0,
                            classic_menu_segments().len() as int,
                        ) =~= classic_menu_segments());
                    }
                }
                Ok(())
            },
        }
    }
}

} // verus!
