//! Tree nodes of the context menu and their attribute operations.

use vstd::prelude::*;
use vstd::string::StringExecFns;

use crate::error::CtxError;
use crate::path::base_segments_spec;
use crate::path::full_path_spec;
use crate::path::full_segments;
use crate::path::full_segments_spec;
use crate::path::get_full_path;
use crate::path::is_path_prefix;
use crate::path::lemma_child_segments_extend;
use crate::store::clone_segs;
use crate::store::seg_seq_contains;
use crate::store::RegStore;

verus! {

broadcast use {crate::store::lemma_val_of_absent_key, vstd::string::group_string_axioms};

/// Entry activation context: what kind of right-click target shows the entry.
#[derive(Clone, Debug)]
pub enum ActivationType {
    /// Activation on file right click. Holds an extension (e.g. `.rs`) or
    /// `*` for any file type.
    File(String),
    /// Activation on folder right click.
    Folder,
    /// Activation on directory background right click.
    Background,
}

/// Entry position in the context menu.
#[derive(Clone, Copy, Debug, PartialEq, Eq, Structural)]
pub enum MenuPosition {
    Top,
    Bottom,
}

/// Context menu separator placement around an entry.
#[derive(Clone, Copy, Debug, PartialEq, Eq, Structural)]
pub enum Separator {
    Before,
    After,
    Both,
}

/// A handle to one node of the context-menu tree.
///
/// The handle holds only the name path and the activation context; every
/// operation re-resolves the backing store location, so a handle to a node
/// deleted behind its back fails with the documented absence or error
/// instead of reading stale state.
#[derive(Debug)]
pub struct CtxEntry {
    /// The path to the entry as a list of entry names.
    pub path: Vec<String>,
    pub entry_type: ActivationType,
}

/// Options for further customizing an entry at creation.
#[derive(Clone)]
pub struct EntryOptions {
    /// Command to run when the entry is selected.
    pub command: Option<String>,
    /// Icon to display beside the entry.
    pub icon: Option<String>,
    /// Entry position in the context menu.
    pub position: Option<MenuPosition>,
    /// Separators to include around the entry.
    pub separator: Option<Separator>,
    /// Whether the entry should only appear with Shift+RClick.
    pub extended: bool,
}

impl ActivationType {
    /// A copy equal to `self`, usable where contracts depend on the context.
    pub fn duplicate(&self) -> (r: ActivationType)
        ensures
            r == *self,
    {
        match self {
            ActivationType::File(ext) => ActivationType::File(ext.clone()),
            ActivationType::Folder => ActivationType::Folder,
            ActivationType::Background => ActivationType::Background,
        }
    }
}

/// The token a menu position is stored as.
pub open spec fn position_token(p: MenuPosition) -> Seq<char> {
    match p {
        MenuPosition::Top => "Top"@,
        MenuPosition::Bottom => "Bottom"@,
    }
}

/// The position read back from a stored token: any token other than the
/// two literals, and absence, read as unset.
pub open spec fn position_of_token(v: Option<Seq<char>>) -> Option<MenuPosition> {
    match v {
        Some(s) => if s == "Top"@ {
            Some(MenuPosition::Top)
        } else if s == "Bottom"@ {
            Some(MenuPosition::Bottom)
        } else {
            None
        },
        None => None,
    }
}

/// The separator variant read from the two independent markers.
pub open spec fn separator_of_markers(before: bool, after: bool) -> Option<Separator> {
    if before && after {
        Some(Separator::Both)
    } else if before {
        Some(Separator::Before)
    } else if after {
        Some(Separator::After)
    } else {
        None
    }
}

/// The markers (before, after) a separator variant is stored as.
pub open spec fn markers_of_separator(s: Option<Separator>) -> (bool, bool) {
    match s {
        Some(Separator::Before) => (true, false),
        Some(Separator::After) => (false, true),
        Some(Separator::Both) => (true, true),
        None => (false, false),
    }
}

/// Writing any separator variant (or none) and reading the markers back
/// returns exactly what was written.
pub proof fn lemma_separator_round_trip(s: Option<Separator>)
    ensures
        separator_of_markers(markers_of_separator(s).0, markers_of_separator(s).1) == s,
{
}

/// Writing any menu position and reading its token back returns exactly
/// that position.
pub proof fn lemma_position_round_trip(p: MenuPosition)
    ensures
        position_of_token(Some(position_token(p))) == Some(p),
{
    broadcast use vstd::string::group_string_axioms;

    reveal_strlit("Top");
    reveal_strlit("Bottom");
    assert("Top"@.len() == 3);
    assert("Bottom"@.len() == 6);
}

/// Deleting a parent's subtree removes every child's location: a child's
/// segments extend its parent's, so after the delete neither the parent
/// nor any previously obtained child handle resolves, and no stale read
/// survives.
pub proof fn lemma_delete_orphans_child(
    t: ActivationType,
    parent_names: Seq<Seq<char>>,
    child: Seq<char>,
    pre: RegStore,
    post: RegStore,
)
    requires
        forall|q: Seq<Seq<char>>|
            #[trigger] post.has_key(q) <==> (pre.has_key(q) && !is_path_prefix(
                full_segments_spec(t, parent_names),
                q,
            )),
    ensures
        !post.has_key(full_segments_spec(t, parent_names)),
        !post.has_key(full_segments_spec(t, parent_names.push(child))),
{
    let p = full_segments_spec(t, parent_names);
    let c = full_segments_spec(t, parent_names.push(child));
    lemma_child_segments_extend(t, parent_names, child);
    assert(is_path_prefix(p, p)) by {
        assert(p.subrange(0, p.len() as int) =~= p);
    }
    assert(is_path_prefix(p, c));
}

impl CtxEntry {
    /// A handle is meaningful when its name path is non-empty.
    pub open spec fn wf(&self) -> bool {
        self.path@.len() > 0
    }

    /// The store segments of the node this handle is bound to.
    pub open spec fn segs(&self) -> Seq<Seq<char>> {
        full_segments_spec(self.entry_type, self.path.deep_view())
    }

    /// The store segments of the nested container holding the command.
    pub open spec fn command_segs(&self) -> Seq<Seq<char>> {
        self.segs().push("command"@)
    }

    /// The store segments this handle resolves to, as a vector.
    fn segs_vec(&self) -> (r: Vec<String>)
        ensures
            r.deep_view() == self.segs(),
    {
        full_segments(&self.entry_type, &self.path)
    }

    /// Gets an existing entry at the given name path. The last name
    /// corresponds to the returned entry. Absent when the backing store
    /// location is missing or the name path is empty.
    pub fn get(name_path: &Vec<String>, entry_type: &ActivationType, store: &RegStore) -> (r:
        Option<CtxEntry>)
        ensures
            match r {
                Some(e) => {
                    &&& name_path@.len() > 0
                    &&& store.has_key(full_segments_spec(*entry_type, name_path.deep_view()))
                    &&& e.path@ == name_path@
                    &&& e.entry_type == *entry_type
                    &&& e.wf()
                },
                None => name_path@.len() == 0 || !store.has_key(
                    full_segments_spec(*entry_type, name_path.deep_view()),
                ),
            },
    {
        if name_path.len() == 0 {
            return None;
        }
        let segs = full_segments(entry_type, name_path);
        if store.key_exists(&segs) {
            Some(
                CtxEntry {
                    path: clone_segs(name_path),
                    entry_type: entry_type.duplicate(),
                },
            )
        } else {
            None
        }
    }

    /// Creates the store location for the full path, failing with
    /// `AlreadyExists` (and touching no value) when it existed before the
    /// call, then applies the initial attributes in order: command, icon,
    /// position, extended. On a fresh location every write succeeds, so
    /// no partial application arises here.
    fn create(
        name_path: &Vec<String>,
        entry_type: &ActivationType,
        opts: &EntryOptions,
        store: &mut RegStore,
    ) -> (r: Result<CtxEntry, CtxError>)
        requires
            old(store).wf(),
            name_path@.len() > 0,
        ensures
            final(store).wf(),
            match r {
                Ok(e) => {
                    let segs = full_segments_spec(*entry_type, name_path.deep_view());
                    let cmd = segs.push("command"@);
                    &&& !old(store).has_key(segs)
                    &&& e.path@ == name_path@
                    &&& e.entry_type == *entry_type
                    &&& e.wf()
                    &&& final(store).has_key(segs)
                    &&& forall|q: Seq<Seq<char>>|
                        #[trigger] final(store).has_key(q) <==> (old(store).has_key(q) || (
                        exists|l: int|
                            1 <= l <= segs.len() && q == #[trigger] segs.subrange(0, l)) || (
                        opts.command is Some && q == cmd))
                    &&& final(store).val(segs, "Icon"@) == (match opts.icon {
                        Some(s) => Some(s@),
                        None => None::<Seq<char>>,
                    })
                    &&& final(store).val(segs, "Position"@) == (match opts.position {
                        Some(p) => Some(position_token(p)),
                        None => None::<Seq<char>>,
                    })
                    &&& final(store).val(segs, "Extended"@) == (if opts.extended {
                        Some(""@)
                    } else {
                        None::<Seq<char>>
                    })
                    &&& final(store).val(cmd, ""@) == (match opts.command {
                        Some(c) => Some(c@),
                        None => None::<Seq<char>>,
                    })
                    &&& forall|n: Seq<char>|
                        n != "Icon"@ && n != "Position"@ && n != "Extended"@
                            ==> #[trigger] final(store).val(segs, n) is None
                    &&& forall|n: Seq<char>| n != ""@ ==> #[trigger] final(store).val(cmd, n) is None
                    &&& forall|q: Seq<Seq<char>>, n: Seq<char>|
                        q != segs && q != cmd ==> #[trigger] final(store).val(q, n) == old(
                            store,
                        ).val(q, n)
                },
                Err(e) => {
                    let segs = full_segments_spec(*entry_type, name_path.deep_view());
                    &&& e == CtxError::AlreadyExists
                    &&& old(store).has_key(segs)
                    &&& forall|q: Seq<Seq<char>>|
                        #[trigger] final(store).has_key(q) == old(store).has_key(q)
                    &&& forall|q: Seq<Seq<char>>, n: Seq<char>|
                        #[trigger] final(store).val(q, n) == old(store).val(q, n)
                },
            },
    {
        let segs = full_segments(entry_type, name_path);
        let ghost pre = *old(store);
        let created = store.create_key(&segs);
        if !created {
            proof {
                assert forall|q: Seq<Seq<char>>|
                    #[trigger] store.has_key(q) == pre.has_key(q) by {
                    if store.has_key(q) && !pre.has_key(q) {
                        let l = choose|l: int|
                            1 <= l <= segs.deep_view().len() && q
                                == #[trigger] segs.deep_view().subrange(0, l);
                        if l == segs.deep_view().len() {
                            assert(q =~= segs.deep_view());
                            assert(pre.has_key(q));
                        } else {
                            pre.lemma_closure(segs.deep_view(), l);
                        }
                    }
                }
            }
            return Err(CtxError::AlreadyExists);
        }
        let mut e = CtxEntry {
            path: clone_segs(name_path),
            entry_type: entry_type.duplicate(),
        };
        proof {
            assert(e.segs() == segs.deep_view());
        }
        let ghost after_key = *store;
        match &opts.command {
            Some(c) => {
                match e.set_command(Some(c.as_str()), store) {
                    Ok(_) => {},
                    Err(er) => {
                        proof {
                            assert(false);
                        }
                        return Err(er);
                    },
                }
            },
            None => {
                match e.set_command(None, store) {
                    Ok(_) => {},
                    Err(er) => {
                        proof {
                            assert(false);
                        }
                        return Err(er);
                    },
                }
            },
        }
        let ghost after_cmd = *store;
        match &opts.icon {
            Some(s) => {
                match e.set_icon(Some(s.as_str()), store) {
                    Ok(_) => {},
                    Err(er) => {
                        proof {
                            assert(false);
                        }
                        return Err(er);
                    },
                }
            },
            None => {
                match e.set_icon(None, store) {
                    Ok(_) => {},
                    Err(er) => {
                        proof {
                            assert(false);
                        }
                        return Err(er);
                    },
                }
            },
        }
        let ghost after_icon = *store;
        let pos = match &opts.position {
            Some(p) => Some(*p),
            None => None,
        };
        match e.set_position(pos, store) {
            Ok(_) => {},
            Err(er) => {
                proof {
                    assert(false);
                }
                return Err(er);
            },
        }
        let ghost after_pos = *store;
        match e.set_extended(opts.extended, store) {
            Ok(_) => {},
            Err(er) => {
                proof {
                    assert(false);
                }
                return Err(er);
            },
        }
        proof {
            reveal_strlit("Icon");
            reveal_strlit("Position");
            reveal_strlit("Extended");
            reveal_strlit("command");
            reveal_strlit("");
            let sg = segs.deep_view();
            let cmdg = sg.push("command"@);
            assert(e.segs() == sg);
            assert(e.command_segs() == cmdg);
            assert(sg.len() >= 1);
            assert(cmdg.len() == sg.len() + 1);
            assert(sg != cmdg);
            assert("Icon"@.len() == 4 && "Position"@.len() == 8 && "Extended"@.len() == 8
                && ""@.len() == 0);
            assert("Position"@[0] == 'P');
            assert("Extended"@[0] == 'E');
            assert("Icon"@ != "Position"@ && "Icon"@ != "Extended"@ && "Position"@
                != "Extended"@ && "Icon"@ != ""@ && "Position"@ != ""@ && "Extended"@ != ""@);
            assert forall|q: Seq<Seq<char>>| #[trigger] after_key.has_key(q) implies
                !is_path_prefix(cmdg, q) by {
                if is_path_prefix(cmdg, q) {
                    assert(q.subrange(0, cmdg.len() as int) == cmdg);
                    assert(q.subrange(0, sg.len() as int) =~= sg) by {
                        assert(forall|i: int|
                            0 <= i < cmdg.len() ==> #[trigger] q[i] == cmdg[i]) by {
                            assert(forall|i: int|
                                0 <= i < cmdg.len() ==> #[trigger] q.subrange(
                                    0,
                                    cmdg.len() as int,
                                )[i] == q[i]);
                        }
                        assert(forall|i: int| 0 <= i < sg.len() ==> #[trigger] cmdg[i] == sg[i]);
                    }
                    if pre.has_key(q) {
                        if q.len() > sg.len() {
                            pre.lemma_closure(q, sg.len() as int);
                        }
                        assert(pre.has_key(sg));
                        assert(false);
                    } else {
                        let l = choose|l: int|
                            1 <= l <= sg.len() && q == #[trigger] sg.subrange(0, l);
                        assert(q.len() <= sg.len());
                        assert(false);
                    }
                }
            }
            assert(!after_key.has_key(cmdg)) by {
                assert(is_path_prefix(cmdg, cmdg)) by {
                    assert(cmdg.subrange(0, cmdg.len() as int) =~= cmdg);
                }
            }
            assert forall|q: Seq<Seq<char>>|
                #[trigger] after_cmd.has_key(q) <==> (after_key.has_key(q) || (
            opts.command is Some && q == cmdg)) by {
                if opts.command is None {
                    if after_key.has_key(q) {
                        assert(!is_path_prefix(cmdg, q));
                    }
                }
            }
            assert forall|q: Seq<Seq<char>>, n: Seq<char>|
                (q != cmdg || n != ""@) implies #[trigger] after_cmd.val(q, n) == after_key.val(
                q,
                n,
            ) by {
                if opts.command is None {
                    if is_path_prefix(cmdg, q) {
                        assert(!after_key.has_key(q));
                        assert(!after_cmd.has_key(q));
                    }
                }
            }
            assert(after_cmd.val(cmdg, ""@) == (match opts.command {
                Some(c) => Some(c@),
                None => None::<Seq<char>>,
            })) by {
                if opts.command is None {
                    assert(!after_cmd.has_key(cmdg));
                }
            }
            assert(store.has_key(sg)) by {
                assert(after_key.has_key(sg));
                assert(after_cmd.has_key(sg));
                assert(after_icon.has_key(sg));
                assert(after_pos.has_key(sg));
            }
            assert forall|q: Seq<Seq<char>>|
                #[trigger] store.has_key(q) <==> (pre.has_key(q) || (exists|l: int|
                    1 <= l <= sg.len() && q == #[trigger] sg.subrange(0, l)) || (
                opts.command is Some && q == cmdg)) by {
                assert(store.has_key(q) == after_pos.has_key(q));
                assert(after_pos.has_key(q) == after_icon.has_key(q));
                assert(after_icon.has_key(q) == after_cmd.has_key(q));
            }
            assert(store.val(sg, "Icon"@) == (match opts.icon {
                Some(s) => Some(s@),
                None => None::<Seq<char>>,
            })) by {
                assert(!pre.has_key(sg));
                assert(pre.val(sg, "Icon"@) is None);
            }
            assert(store.val(sg, "Position"@) == (match opts.position {
                Some(p) => Some(position_token(p)),
                None => None::<Seq<char>>,
            })) by {
                assert(pre.val(sg, "Position"@) is None);
                reveal_strlit("Top");
                reveal_strlit("Bottom");
                assert("Top"@ != "Position"@ && "Bottom"@ != "Position"@ || true);
            }
            assert(store.val(sg, "Extended"@) == (if opts.extended {
                Some(""@)
            } else {
                None::<Seq<char>>
            })) by {
                assert(pre.val(sg, "Extended"@) is None);
            }
            assert(store.val(cmdg, ""@) == (match opts.command {
                Some(c) => Some(c@),
                None => None::<Seq<char>>,
            }));
            assert forall|n: Seq<char>|
                n != "Icon"@ && n != "Position"@ && n != "Extended"@ implies #[trigger] store.val(
                sg,
                n,
            ) is None by {
                assert(pre.val(sg, n) is None);
                assert(after_key.val(sg, n) is None);
                assert(after_cmd.val(sg, n) is None);
            }
            assert forall|n: Seq<char>| n != ""@ implies #[trigger] store.val(cmdg, n) is None by {
                assert(!pre.has_key(cmdg)) by {
                    if pre.has_key(cmdg) {
                        assert(after_key.has_key(cmdg));
                    }
                }
                assert(pre.val(cmdg, n) is None);
                assert(after_key.val(cmdg, n) is None);
                assert(after_cmd.val(cmdg, n) is None);
            }
            assert forall|q: Seq<Seq<char>>, n: Seq<char>|
                q != sg && q != cmdg implies #[trigger] store.val(q, n) == pre.val(q, n) by {
                assert(after_key.val(q, n) == pre.val(q, n));
                assert(after_cmd.val(q, n) == after_key.val(q, n)) by {
                    if opts.command is None && is_path_prefix(cmdg, q) {
                        assert(!after_key.has_key(q));
                        assert(!after_cmd.has_key(q));
                    }
                }
                assert(after_icon.val(q, n) == after_cmd.val(q, n));
                assert(after_pos.val(q, n) == after_icon.val(q, n));
                assert(store.val(q, n) == after_pos.val(q, n));
            }
        }
        Ok(e)
    }

    /// Creates a new top-level entry under the given `entry_type`. The
    /// resulting entry will appear in the context menu but will do
    /// nothing until modified.
    pub fn new(name: &str, entry_type: &ActivationType, store: &mut RegStore) -> (r: Result<
        CtxEntry,
        CtxError,
    >)
        requires
            old(store).wf(),
        ensures
            final(store).wf(),
            Self::new_post(r, name@, *entry_type, *old(store), *final(store), None, None, None, false),
    {
        CtxEntry::new_with_options(
            name,
            entry_type,
            &EntryOptions {
                command: None,
                icon: None,
                position: None,
                separator: None,
                extended: false,
            },
            store,
        )
    }

    /// What creating a root entry with the given options guarantees:
    /// failure with `AlreadyExists` exactly when the location existed, no
    /// store change then, and otherwise a fresh location whose attribute
    /// values are exactly the requested ones.
    pub open spec fn new_post(
        r: Result<CtxEntry, CtxError>,
        name: Seq<char>,
        entry_type: ActivationType,
        pre: RegStore,
        post: RegStore,
        command: Option<Seq<char>>,
        icon: Option<Seq<char>>,
        position: Option<MenuPosition>,
        extended: bool,
    ) -> bool {
        let segs = full_segments_spec(entry_type, seq![name]);
        let cmd = segs.push("command"@);
        match r {
            Ok(e) => {
                &&& !pre.has_key(segs)
                &&& e.path.deep_view() == seq![name]
                &&& e.entry_type == entry_type
                &&& e.wf()
                &&& post.has_key(segs)
                &&& forall|q: Seq<Seq<char>>|
                    #[trigger] post.has_key(q) <==> (pre.has_key(q) || (exists|l: int|
                        1 <= l <= segs.len() && q == #[trigger] segs.subrange(0, l)) || (
                    command is Some && q == cmd))
                &&& post.val(segs, "Icon"@) == icon
                &&& post.val(segs, "Position"@) == (match position {
                    Some(p) => Some(position_token(p)),
                    None => None::<Seq<char>>,
                })
                &&& post.val(segs, "Extended"@) == (if extended {
                    Some(""@)
                } else {
                    None::<Seq<char>>
                })
                &&& post.val(cmd, ""@) == command
                &&& forall|n: Seq<char>|
                    n != "Icon"@ && n != "Position"@ && n != "Extended"@
                        ==> #[trigger] post.val(segs, n) is None
                &&& forall|n: Seq<char>| n != ""@ ==> #[trigger] post.val(cmd, n) is None
                &&& forall|q: Seq<Seq<char>>, n: Seq<char>|
                    q != segs && q != cmd ==> #[trigger] post.val(q, n) == pre.val(q, n)
            },
            Err(e) => {
                &&& e == CtxError::AlreadyExists
                &&& pre.has_key(segs)
                &&& forall|q: Seq<Seq<char>>| #[trigger] post.has_key(q) == pre.has_key(q)
                &&& forall|q: Seq<Seq<char>>, n: Seq<char>|
                    #[trigger] post.val(q, n) == pre.val(q, n)
            },
        }
    }

    /// Creates a new top-level entry under the given `entry_type` with
    /// the given initial attributes. The `separator` option is accepted
    /// for completeness but only `set_separator` writes separator
    /// markers, so a fresh entry carries none.
    pub fn new_with_options(
        name: &str,
        entry_type: &ActivationType,
        opts: &EntryOptions,
        store: &mut RegStore,
    ) -> (r: Result<CtxEntry, CtxError>)
        requires
            old(store).wf(),
        ensures
            final(store).wf(),
            Self::new_post(
                r,
                name@,
                *entry_type,
                *old(store),
                *final(store),
                match opts.command {
                    Some(c) => Some(c@),
                    None => None,
                },
                match opts.icon {
                    Some(s) => Some(s@),
                    None => None,
                },
                opts.position,
                opts.extended,
            ),
    {
        let mut name_path: Vec<String> = Vec::new();
        name_path.push(String::from_str(name));
        proof {
            assert(name_path.deep_view() =~~= seq![name@]);
        }
        let r = CtxEntry::create(&name_path, entry_type, opts, store);
        proof {
            match &r {
                Ok(e) => {
                    assert(e.path.deep_view() =~~= seq![name@]);
                },
                Err(_) => {},
            }
        }
        r
    }

    /// What setting one named value on the node guarantees: `NotFound`
    /// and no change when the node is gone; otherwise exactly that value
    /// bound or cleared, and nothing else changed.
    pub open spec fn set_value_post(
        r: Result<(), CtxError>,
        segs: Seq<Seq<char>>,
        name: Seq<char>,
        v: Option<Seq<char>>,
        pre: RegStore,
        post: RegStore,
    ) -> bool {
        match r {
            Ok(_) => {
                &&& pre.has_key(segs)
                &&& forall|q: Seq<Seq<char>>| #[trigger] post.has_key(q) == pre.has_key(q)
                &&& post.val(segs, name) == v
                &&& forall|q: Seq<Seq<char>>, n: Seq<char>|
                    q != segs || n != name ==> #[trigger] post.val(q, n) == pre.val(q, n)
            },
            Err(e) => {
                &&& e == CtxError::NotFound
                &&& !pre.has_key(segs)
                &&& post == pre
            },
        }
    }

    /// Deletes value `name` on the node, tolerating its absence; fails
    /// with `NotFound` only when the node itself is gone.
    fn safe_delete_value(&self, name: &str, store: &mut RegStore) -> (r: Result<(), CtxError>)
        requires
            self.wf(),
            old(store).wf(),
        ensures
            final(store).wf(),
            Self::set_value_post(r, self.segs(), name@, None, *old(store), *final(store)),
    {
        let segs = self.segs_vec();
        if !store.key_exists(&segs) {
            return Err(CtxError::NotFound);
        }
        match store.remove_value(&segs, name) {
            Ok(_) => Ok(()),
            Err(_) => Ok(()),
        }
    }

    /// Gets the entry's command, if any: absent when unset and also when
    /// the node itself is gone.
    pub fn command(&self, store: &RegStore) -> (r: Result<Option<String>, CtxError>)
        requires
            self.wf(),
            store.wf(),
        ensures
            r is Ok,
            match r {
                Ok(c) => match c {
                    Some(s) => store.val(self.command_segs(), ""@) == Some(s@),
                    None => store.val(self.command_segs(), ""@) is None,
                },
                Err(_) => false,
            },
    {
        let mut cmd = self.segs_vec();
        cmd.push(String::from_str("command"));
        proof {
            assert(cmd.deep_view() =~~= self.command_segs());
        }
        Ok(store.get_value(&cmd, ""))
    }

    /// Sets or clears the entry's command, stored as the default value of
    /// a nested `command` container under the node. Clearing deletes the
    /// container, tolerating its absence.
    pub fn set_command(&mut self, command: Option<&str>, store: &mut RegStore) -> (r: Result<
        (),
        CtxError,
    >)
        requires
            old(self).wf(),
            old(store).wf(),
        ensures
            *final(self) == *old(self),
            final(store).wf(),
            match r {
                Ok(_) => {
                    &&& old(store).has_key(old(self).segs())
                    &&& match command {
                        Some(c) => {
                            &&& forall|q: Seq<Seq<char>>|
                                #[trigger] final(store).has_key(q) <==> (old(store).has_key(q)
                                    || q == old(self).command_segs())
                            &&& final(store).val(old(self).command_segs(), ""@) == Some(c@)
                            &&& forall|q: Seq<Seq<char>>, n: Seq<char>|
                                q != old(self).command_segs() || n != ""@
                                    ==> #[trigger] final(store).val(q, n) == old(store).val(q, n)
                        },
                        None => {
                            &&& forall|q: Seq<Seq<char>>|
                                #[trigger] final(store).has_key(q) <==> (old(store).has_key(q)
                                    && !is_path_prefix(old(self).command_segs(), q))
                            &&& forall|q: Seq<Seq<char>>, n: Seq<char>|
                                #[trigger] final(store).val(q, n) == (if is_path_prefix(
                                    old(self).command_segs(),
                                    q,
                                ) {
                                    None::<Seq<char>>
                                } else {
                                    old(store).val(q, n)
                                })
                        },
                    }
                },
                Err(e) => {
                    &&& e == CtxError::NotFound
                    &&& !old(store).has_key(old(self).segs())
                    &&& *final(store) == *old(store)
                },
            },
    {
        let segs = self.segs_vec();
        if !store.key_exists(&segs) {
            return Err(CtxError::NotFound);
        }
        let ghost sg = segs.deep_view();
        let mut cmd = segs;
        cmd.push(String::from_str("command"));
        proof {
            assert(cmd.deep_view() =~~= self.command_segs());
        }
        match command {
            Some(c) => {
                let ghost pre2 = *store;
                let _created = store.create_key(&cmd);
                proof {
                    assert forall|q: Seq<Seq<char>>|
                        #[trigger] store.has_key(q) <==> (pre2.has_key(q) || q
                            == cmd.deep_view()) by {
                        if store.has_key(q) && !pre2.has_key(q) {
                            let l = choose|l: int|
                                1 <= l <= cmd.deep_view().len() && q
                                    == #[trigger] cmd.deep_view().subrange(0, l);
                            if l < cmd.deep_view().len() {
                                assert(cmd.deep_view().subrange(0, l) =~= sg.subrange(0, l));
                                if l == sg.len() {
                                    assert(q =~= sg);
                                } else {
                                    pre2.lemma_closure(sg, l);
                                }
                                assert(pre2.has_key(q));
                            } else {
                                assert(q =~= cmd.deep_view());
                            }
                        }
                    }
                }
                match store.set_value(&cmd, "", c) {
                    Ok(_) => Ok(()),
                    Err(er) => {
                        proof {
                            assert(false);
                        }
                        Err(er)
                    },
                }
            },
            None => {
                let ghost pre2 = *store;
                match store.delete_subtree(&cmd) {
                    Ok(_) => Ok(()),
                    Err(_) => {
                        proof {
                            assert forall|q: Seq<Seq<char>>|
                                #[trigger] pre2.has_key(q) implies !is_path_prefix(
                                cmd.deep_view(),
                                q,
                            ) by {
                                if is_path_prefix(cmd.deep_view(), q) {
                                    if q.len() == cmd.deep_view().len() {
                                        assert(q =~= cmd.deep_view());
                                    } else {
                                        pre2.lemma_closure(q, cmd.deep_view().len() as int);
                                    }
                                }
                            }
                        }
                        Ok(())
                    },
                }
            },
        }
    }

    /// Gets the entry's icon, if any; fails with `NotFound` when the
    /// node is gone.
    pub fn icon(&self, store: &RegStore) -> (r: Result<Option<String>, CtxError>)
        requires
            self.wf(),
            store.wf(),
        ensures
            match r {
                Ok(c) => {
                    &&& store.has_key(self.segs())
                    &&& match c {
                        Some(s) => store.val(self.segs(), "Icon"@) == Some(s@),
                        None => store.val(self.segs(), "Icon"@) is None,
                    }
                },
                Err(e) => e == CtxError::NotFound && !store.has_key(self.segs()),
            },
    {
        let segs = self.segs_vec();
        if !store.key_exists(&segs) {
            return Err(CtxError::NotFound);
        }
        Ok(store.get_value(&segs, "Icon"))
    }

    /// Sets or clears the entry's icon; clearing an unset icon is not an
    /// error.
    pub fn set_icon(&mut self, icon: Option<&str>, store: &mut RegStore) -> (r: Result<
        (),
        CtxError,
    >)
        requires
            old(self).wf(),
            old(store).wf(),
        ensures
            *final(self) == *old(self),
            final(store).wf(),
            Self::set_value_post(
                r,
                old(self).segs(),
                "Icon"@,
                match icon {
                    Some(s) => Some(s@),
                    None => None,
                },
                *old(store),
                *final(store),
            ),
    {
        let segs = self.segs_vec();
        match icon {
            Some(s) => store.set_value(&segs, "Icon", s),
            None => self.safe_delete_value("Icon", store),
        }
    }

    /// Gets the entry's menu position, if any; a stored token other than
    /// the two position literals reads back as unset. Fails with
    /// `NotFound` when the node is gone.
    pub fn position(&self, store: &RegStore) -> (r: Result<Option<MenuPosition>, CtxError>)
        requires
            self.wf(),
            store.wf(),
        ensures
            match r {
                Ok(p) => {
                    &&& store.has_key(self.segs())
                    &&& p == position_of_token(store.val(self.segs(), "Position"@))
                },
                Err(e) => e == CtxError::NotFound && !store.has_key(self.segs()),
            },
    {
        let segs = self.segs_vec();
        if !store.key_exists(&segs) {
            return Err(CtxError::NotFound);
        }
        let val = match store.get_value(&segs, "Position") {
            Some(v) => {
                if v == String::from_str("Top") {
                    Some(MenuPosition::Top)
                } else if v == String::from_str("Bottom") {
                    Some(MenuPosition::Bottom)
                } else {
                    None
                }
            },
            None => None,
        };
        Ok(val)
    }

    /// Sets or clears the entry's menu position. Only meaningful to the
    /// rendering host on root-level entries; stored wherever set.
    pub fn set_position(&mut self, position: Option<MenuPosition>, store: &mut RegStore) -> (r:
        Result<(), CtxError>)
        requires
            old(self).wf(),
            old(store).wf(),
        ensures
            *final(self) == *old(self),
            final(store).wf(),
            Self::set_value_post(
                r,
                old(self).segs(),
                "Position"@,
                match position {
                    Some(p) => Some(position_token(p)),
                    None => None,
                },
                *old(store),
                *final(store),
            ),
    {
        let segs = self.segs_vec();
        match position {
            Some(MenuPosition::Top) => store.set_value(&segs, "Position", "Top"),
            Some(MenuPosition::Bottom) => store.set_value(&segs, "Position", "Bottom"),
            None => self.safe_delete_value("Position", store),
        }
    }

    /// Gets whether the entry only appears with the modifier key held;
    /// fails with `NotFound` when the node is gone.
    pub fn extended(&self, store: &RegStore) -> (r: Result<bool, CtxError>)
        requires
            self.wf(),
            store.wf(),
        ensures
            match r {
                Ok(b) => {
                    &&& store.has_key(self.segs())
                    &&& b == (store.val(self.segs(), "Extended"@) is Some)
                },
                Err(e) => e == CtxError::NotFound && !store.has_key(self.segs()),
            },
    {
        let segs = self.segs_vec();
        if !store.key_exists(&segs) {
            return Err(CtxError::NotFound);
        }
        Ok(store.get_value(&segs, "Extended").is_some())
    }

    /// Sets or clears the extended marker: presence of the marker value,
    /// not a boolean payload, encodes the flag.
    pub fn set_extended(&mut self, extended: bool, store: &mut RegStore) -> (r: Result<
        (),
        CtxError,
    >)
        requires
            old(self).wf(),
            old(store).wf(),
        ensures
            *final(self) == *old(self),
            final(store).wf(),
            Self::set_value_post(
                r,
                old(self).segs(),
                "Extended"@,
                if extended {
                    Some(""@)
                } else {
                    None
                },
                *old(store),
                *final(store),
            ),
    {
        let segs = self.segs_vec();
        if extended {
            store.set_value(&segs, "Extended", "")
        } else {
            self.safe_delete_value("Extended", store)
        }
    }

    /// Gets the entry's separator placement, derived from the two
    /// independent markers; fails with `NotFound` when the node is gone.
    pub fn separator(&self, store: &RegStore) -> (r: Result<Option<Separator>, CtxError>)
        requires
            self.wf(),
            store.wf(),
        ensures
            match r {
                Ok(s) => {
                    &&& store.has_key(self.segs())
                    &&& s == separator_of_markers(
                        store.val(self.segs(), "SeparatorBefore"@) is Some,
                        store.val(self.segs(), "SeparatorAfter"@) is Some,
                    )
                },
                Err(e) => e == CtxError::NotFound && !store.has_key(self.segs()),
            },
    {
        let segs = self.segs_vec();
        if !store.key_exists(&segs) {
            return Err(CtxError::NotFound);
        }
        let before = store.get_value(&segs, "SeparatorBefore").is_some();
        let after = store.get_value(&segs, "SeparatorAfter").is_some();
        let val = if before && after {
            Some(Separator::Both)
        } else if before {
            Some(Separator::Before)
        } else if after {
            Some(Separator::After)
        } else {
            None
        };
        Ok(val)
    }

    /// Writes exactly the markers the requested variant implies and
    /// clears the others; `None` clears both.
    pub fn set_separator(&mut self, separator: Option<Separator>, store: &mut RegStore) -> (r:
        Result<(), CtxError>)
        requires
            old(self).wf(),
            old(store).wf(),
        ensures
            *final(self) == *old(self),
            final(store).wf(),
            match r {
                Ok(_) => {
                    &&& old(store).has_key(old(self).segs())
                    &&& forall|q: Seq<Seq<char>>|
                        #[trigger] final(store).has_key(q) == old(store).has_key(q)
                    &&& final(store).val(old(self).segs(), "SeparatorBefore"@) == (
                    if markers_of_separator(separator).0 {
                        Some(""@)
                    } else {
                        None::<Seq<char>>
                    })
                    &&& final(store).val(old(self).segs(), "SeparatorAfter"@) == (
                    if markers_of_separator(separator).1 {
                        Some(""@)
                    } else {
                        None::<Seq<char>>
                    })
                    &&& forall|q: Seq<Seq<char>>, n: Seq<char>|
                        q != old(self).segs() || (n != "SeparatorBefore"@ && n
                            != "SeparatorAfter"@) ==> #[trigger] final(store).val(q, n) == old(
                            store,
                        ).val(q, n)
                },
                Err(e) => {
                    &&& e == CtxError::NotFound
                    &&& !old(store).has_key(old(self).segs())
                    &&& *final(store) == *old(store)
                },
            },
    {
        proof {
            reveal_strlit("SeparatorBefore");
            reveal_strlit("SeparatorAfter");
            assert("SeparatorBefore"@.len() == 15);
            assert("SeparatorAfter"@.len() == 14);
        }
        let segs = self.segs_vec();
        match separator {
            Some(Separator::Before) => {
                match store.set_value(&segs, "SeparatorBefore", "") {
                    Ok(_) => {},
                    Err(e) => {
                        return Err(e);
                    },
                }
                match self.safe_delete_value("SeparatorAfter", store) {
                    Ok(_) => Ok(()),
                    Err(e) => {
                        proof {
                            assert(false);
                        }
                        Err(e)
                    },
                }
            },
            Some(Separator::After) => {
                match store.set_value(&segs, "SeparatorAfter", "") {
                    Ok(_) => {},
                    Err(e) => {
                        return Err(e);
                    },
                }
                match self.safe_delete_value("SeparatorBefore", store) {
                    Ok(_) => Ok(()),
                    Err(e) => {
                        proof {
                            assert(false);
                        }
                        Err(e)
                    },
                }
            },
            Some(Separator::Both) => {
                match store.set_value(&segs, "SeparatorBefore", "") {
                    Ok(_) => {},
                    Err(e) => {
                        return Err(e);
                    },
                }
                match store.set_value(&segs, "SeparatorAfter", "") {
                    Ok(_) => Ok(()),
                    Err(e) => {
                        proof {
                            assert(false);
                        }
                        Err(e)
                    },
                }
            },
            None => {
                match self.safe_delete_value("SeparatorBefore", store) {
                    Ok(_) => {},
                    Err(e) => {
                        return Err(e);
                    },
                }
                match self.safe_delete_value("SeparatorAfter", store) {
                    Ok(_) => Ok(()),
                    Err(e) => {
                        proof {
                            assert(false);
                        }
                        Err(e)
                    },
                }
            },
        }
    }

    /// Gets the entry's current name, verifying the node still exists in
    /// the store before trusting the in-memory value.
    pub fn name(&self, store: &RegStore) -> (r: Result<String, CtxError>)
        requires
            self.wf(),
        ensures
            match r {
                Ok(s) => store.has_key(self.segs()) && s@ == self.path.deep_view().last(),
                Err(e) => e == CtxError::NotFound && !store.has_key(self.segs()),
            },
    {
        let segs = self.segs_vec();
        if !store.key_exists(&segs) {
            return Err(CtxError::NotFound);
        }
        let r = self.path[self.path.len() - 1].clone();
        proof {
            assert(r@ == self.path.deep_view().last());
        }
        Ok(r)
    }

    /// Gets the full string path to the entry's store location.
    pub fn path(&self) -> (r: String)
        ensures
            r@ == full_path_spec(self.entry_type, self.path.deep_view()),
    {
        get_full_path(&self.entry_type, &self.path)
    }

    /// Deletes the entry and its entire subtree in one call, consuming
    /// the handle.
    pub fn delete(self, store: &mut RegStore) -> (r: Result<(), CtxError>)
        requires
            self.wf(),
            old(store).wf(),
        ensures
            final(store).wf(),
            match r {
                Ok(_) => {
                    &&& old(store).has_key(self.segs())
                    &&& forall|q: Seq<Seq<char>>|
                        #[trigger] final(store).has_key(q) <==> (old(store).has_key(q)
                            && !is_path_prefix(self.segs(), q))
                    &&& forall|q: Seq<Seq<char>>, n: Seq<char>|
                        #[trigger] final(store).val(q, n) == (if is_path_prefix(self.segs(), q) {
                            None::<Seq<char>>
                        } else {
                            old(store).val(q, n)
                        })
                },
                Err(e) => {
                    &&& e == CtxError::NotFound
                    &&& !old(store).has_key(self.segs())
                    &&& *final(store) == *old(store)
                },
            },
    {
        let segs = self.segs_vec();
        store.delete_subtree(&segs)
    }

    /// Gets the entry's parent: absent for root-level entries and when
    /// the parent's location no longer exists.
    pub fn parent(&self, store: &RegStore) -> (r: Option<CtxEntry>)
        requires
            self.wf(),
        ensures
            self.path@.len() == 1 ==> r is None,
            self.path@.len() > 1 ==> match r {
                Some(e) => {
                    &&& store.has_key(
                        full_segments_spec(self.entry_type, self.path.deep_view().drop_last()),
                    )
                    &&& e.path.deep_view() == self.path.deep_view().drop_last()
                    &&& e.entry_type == self.entry_type
                    &&& e.wf()
                },
                None => !store.has_key(
                    full_segments_spec(self.entry_type, self.path.deep_view().drop_last()),
                ),
            },
    {
        if self.path.len() <= 1 {
            return None;
        }
        let mut parent_names = clone_segs(&self.path);
        let _ = parent_names.pop();
        proof {
            assert(parent_names.deep_view() =~~= self.path.deep_view().drop_last());
        }
        CtxEntry::get(&parent_names, &self.entry_type, store)
    }

    /// Gets one of the entry's children by name; absent when no store
    /// location backs it.
    pub fn child(&self, name: &str, store: &RegStore) -> (r: Result<Option<CtxEntry>, CtxError>)
        requires
            self.wf(),
        ensures
            r is Ok,
            match r {
                Ok(c) => match c {
                    Some(e) => {
                        &&& store.has_key(
                            full_segments_spec(
                                self.entry_type,
                                self.path.deep_view().push(name@),
                            ),
                        )
                        &&& e.path.deep_view() == self.path.deep_view().push(name@)
                        &&& e.entry_type == self.entry_type
                        &&& e.wf()
                    },
                    None => !store.has_key(
                        full_segments_spec(self.entry_type, self.path.deep_view().push(name@)),
                    ),
                },
                Err(_) => false,
            },
    {
        let mut name_path = clone_segs(&self.path);
        name_path.push(String::from_str(name));
        proof {
            assert(name_path.deep_view() =~~= self.path.deep_view().push(name@));
        }
        Ok(CtxEntry::get(&name_path, &self.entry_type, store))
    }

    /// Gets the entry's children: one handle per name in the node's
    /// container. Fails with `NotFound` when the node itself is gone; a
    /// node without a container has no children.
    pub fn children(&self, store: &RegStore) -> (r: Result<Vec<CtxEntry>, CtxError>)
        requires
            self.wf(),
            store.wf(),
        ensures
            match r {
                Ok(v) => {
                    &&& store.has_key(self.segs())
                    &&& forall|i: int|
                        0 <= i < v@.len() ==> {
                            let e = #[trigger] v@[i];
                            &&& e.wf()
                            &&& e.entry_type == self.entry_type
                            &&& e.path.deep_view().len() == self.path.deep_view().len() + 1
                            &&& e.path.deep_view().drop_last() == self.path.deep_view()
                            &&& store.has_key(
                                full_segments_spec(self.entry_type, e.path.deep_view()),
                            )
                        }
                    &&& forall|i: int, j: int|
                        0 <= i < j < v@.len() ==> (#[trigger] v@[i]).path.deep_view() != (
                        #[trigger] v@[j]).path.deep_view()
                    &&& forall|s: Seq<char>|
                        (exists|i: int|
                            0 <= i < v@.len() && (#[trigger] v@[i]).path.deep_view()
                                == self.path.deep_view().push(s)) <==> #[trigger] store.has_key(
                            full_segments_spec(self.entry_type, self.path.deep_view().push(s)),
                        )
                },
                Err(e) => e == CtxError::NotFound && !store.has_key(self.segs()),
            },
    {
        let segs = self.segs_vec();
        if !store.key_exists(&segs) {
            return Err(CtxError::NotFound);
        }
        let mut container = segs;
        container.push(String::from_str("shell"));
        proof {
            assert(container.deep_view() =~~= self.segs().push("shell"@));
            assert forall|s: Seq<char>|
                #[trigger] container.deep_view().push(s) == full_segments_spec(
                    self.entry_type,
                    self.path.deep_view().push(s),
                ) by {
                lemma_child_segments_extend(self.entry_type, self.path.deep_view(), s);
                assert(self.segs().push("shell"@).push(s) =~~= self.segs() + seq!["shell"@, s]);
            }
        }
        let names = store.child_names(&container);
        let mut out: Vec<CtxEntry> = Vec::new();
        let mut i: usize = 0;
        while i < names.len()
            invariant
                0 <= i <= names@.len(),
                out@.len() == i,
                self.wf(),
                store.wf(),
                container.deep_view() == self.segs().push("shell"@),
                forall|s: Seq<char>|
                    #[trigger] container.deep_view().push(s) == full_segments_spec(
                        self.entry_type,
                        self.path.deep_view().push(s),
                    ),
                forall|a: int, b: int|
                    0 <= a < b < names@.len() ==> (#[trigger] names@[a])@ != (
                    #[trigger] names@[b])@,
                forall|s: Seq<char>|
                    seg_seq_contains(names@, s) <==> #[trigger] store.has_key(
                        container.deep_view().push(s),
                    ),
                forall|k: int|
                    0 <= k < i ==> (#[trigger] out@[k]).path.deep_view()
                        == self.path.deep_view().push(names@[k]@) && out@[k].entry_type
                        == self.entry_type && out@[k].path@.len() == self.path@.len() + 1,
            decreases names@.len() - i,
        {
            let mut child_path = clone_segs(&self.path);
            child_path.push(names[i].clone());
            proof {
                assert(child_path.deep_view() =~~= self.path.deep_view().push(
                    names@[i as int]@,
                ));
            }
            out.push(
                CtxEntry { path: child_path, entry_type: self.entry_type.duplicate() },
            );
            i += 1;
        }
        proof {
            assert forall|k: int|
                0 <= k < out@.len() implies store.has_key(
                full_segments_spec(self.entry_type, (#[trigger] out@[k]).path.deep_view())) by {
                assert(seg_seq_contains(names@, names@[k]@));
                assert(store.has_key(container.deep_view().push(names@[k]@)));
            }
            assert forall|k: int|
                0 <= k < out@.len() implies (#[trigger] out@[k]).path.deep_view().drop_last()
                == self.path.deep_view() by {
                assert(out@[k].path.deep_view() == self.path.deep_view().push(names@[k]@));
                assert(self.path.deep_view().push(names@[k]@).drop_last() =~~= self.path.deep_view());
            }
            assert forall|a: int, b: int|
                0 <= a < b < out@.len() implies (#[trigger] out@[a]).path.deep_view() != (
            #[trigger] out@[b]).path.deep_view() by {
                assert((names@[a])@ != (names@[b])@);
                assert(out@[a].path.deep_view().last() == names@[a]@);
                assert(out@[b].path.deep_view().last() == names@[b]@);
            }
            assert forall|s: Seq<char>|
                (exists|k: int|
                    0 <= k < out@.len() && (#[trigger] out@[k]).path.deep_view()
                        == self.path.deep_view().push(s)) <==> #[trigger] store.has_key(
                    full_segments_spec(self.entry_type, self.path.deep_view().push(s)),
                ) by {
                if exists|k: int|
                    0 <= k < out@.len() && (#[trigger] out@[k]).path.deep_view()
                        == self.path.deep_view().push(s) {
                    let k = choose|k: int|
                        0 <= k < out@.len() && (#[trigger] out@[k]).path.deep_view()
                            == self.path.deep_view().push(s);
                    assert(self.path.deep_view().push(names@[k]@).last() == names@[k]@);
                    assert(names@[k]@ == s);
                    assert(seg_seq_contains(names@, s));
                }
                if store.has_key(full_segments_spec(self.entry_type, self.path.deep_view().push(s))) {
                    assert(container.deep_view().push(s) == full_segments_spec(
                        self.entry_type,
                        self.path.deep_view().push(s),
                    ));
                    assert(store.has_key(container.deep_view().push(s)));
                    assert(seg_seq_contains(names@, s));
                    let a = choose|a: int|
                        0 <= a < names@.len() && (#[trigger] names@[a])@ == s;
                    assert(out@[a].path.deep_view() == self.path.deep_view().push(s));
                }
            }
        }
        Ok(out)
    }

    /// What creating a child entry guarantees: the parent gains its
    /// subcommands marker, then the child is created as a root entry
    /// would be, with `AlreadyExists` when the child's location existed
    /// (the marker is written even then) and `NotFound`, with no change,
    /// when the parent's own location is gone.
    pub open spec fn new_child_post(
        r: Result<CtxEntry, CtxError>,
        parent: CtxEntry,
        name: Seq<char>,
        pre: RegStore,
        post: RegStore,
        command: Option<Seq<char>>,
        icon: Option<Seq<char>>,
        position: Option<MenuPosition>,
        extended: bool,
    ) -> bool {
        let psegs = full_segments_spec(parent.entry_type, parent.path.deep_view());
        let segs = full_segments_spec(parent.entry_type, parent.path.deep_view().push(name));
        let cmd = segs.push("command"@);
        match r {
            Ok(e) => {
                &&& pre.has_key(psegs)
                &&& !pre.has_key(segs)
                &&& e.path.deep_view() == parent.path.deep_view().push(name)
                &&& e.entry_type == parent.entry_type
                &&& e.wf()
                &&& post.has_key(segs)
                &&& post.val(psegs, "Subcommands"@) == Some(""@)
                &&& forall|q: Seq<Seq<char>>|
                    #[trigger] post.has_key(q) <==> (pre.has_key(q) || (exists|l: int|
                        1 <= l <= segs.len() && q == #[trigger] segs.subrange(0, l)) || (
                    command is Some && q == cmd))
                &&& post.val(segs, "Icon"@) == icon
                &&& post.val(segs, "Position"@) == (match position {
                    Some(p) => Some(position_token(p)),
                    None => None::<Seq<char>>,
                })
                &&& post.val(segs, "Extended"@) == (if extended {
                    Some(""@)
                } else {
                    None::<Seq<char>>
                })
                &&& post.val(cmd, ""@) == command
                &&& forall|n: Seq<char>|
                    n != "Icon"@ && n != "Position"@ && n != "Extended"@
                        ==> #[trigger] post.val(segs, n) is None
                &&& forall|n: Seq<char>| n != ""@ ==> #[trigger] post.val(cmd, n) is None
                &&& forall|q: Seq<Seq<char>>, n: Seq<char>|
                    q != segs && q != cmd && !(q == psegs && n == "Subcommands"@)
                        ==> #[trigger] post.val(q, n) == pre.val(q, n)
            },
            Err(e) => {
                ||| {
                    &&& e == CtxError::NotFound
                    &&& !pre.has_key(psegs)
                    &&& post == pre
                }
                ||| {
                    &&& e == CtxError::AlreadyExists
                    &&& pre.has_key(psegs)
                    &&& pre.has_key(segs)
                    &&& forall|q: Seq<Seq<char>>| #[trigger] post.has_key(q) == pre.has_key(q)
                    &&& post.val(psegs, "Subcommands"@) == Some(""@)
                    &&& forall|q: Seq<Seq<char>>, n: Seq<char>|
                        q != psegs || n != "Subcommands"@ ==> #[trigger] post.val(q, n)
                            == pre.val(q, n)
                }
            },
        }
    }

    /// Creates a new child entry under the entry, first marking the node
    /// as having subcommands (required by the host to render a submenu).
    /// The resulting entry will appear in the context menu but will do
    /// nothing until modified.
    pub fn new_child(&self, name: &str, store: &mut RegStore) -> (r: Result<CtxEntry, CtxError>)
        requires
            self.wf(),
            old(store).wf(),
        ensures
            final(store).wf(),
            Self::new_child_post(
                r,
                *self,
                name@,
                *old(store),
                *final(store),
                None,
                None,
                None,
                false,
            ),
    {
        self.new_child_with_options(
            name,
            &EntryOptions {
                command: None,
                icon: None,
                position: None,
                separator: None,
                extended: false,
            },
            store,
        )
    }

    /// Creates a new child entry under the entry with the given initial
    /// attributes.
    pub fn new_child_with_options(
        &self,
        name: &str,
        opts: &EntryOptions,
        store: &mut RegStore,
    ) -> (r: Result<CtxEntry, CtxError>)
        requires
            self.wf(),
            old(store).wf(),
        ensures
            final(store).wf(),
            Self::new_child_post(
                r,
                *self,
                name@,
                *old(store),
                *final(store),
                match opts.command {
                    Some(c) => Some(c@),
                    None => None,
                },
                match opts.icon {
                    Some(s) => Some(s@),
                    None => None,
                },
                opts.position,
                opts.extended,
            ),
    {
        let segs = self.segs_vec();
        match store.set_value(&segs, "Subcommands", "") {
            Ok(_) => {},
            Err(e) => {
                return Err(e);
            },
        }
        let ghost s1 = *store;
        let mut child_path = clone_segs(&self.path);
        child_path.push(String::from_str(name));
        proof {
            assert(child_path.deep_view() =~~= self.path.deep_view().push(name@));
        }
        let r = CtxEntry::create(&child_path, &self.entry_type, opts, store);
        proof {
            let psegs = self.segs();
            let csegs = full_segments_spec(self.entry_type, self.path.deep_view().push(name@));
            let cmd = csegs.push("command"@);
            lemma_child_segments_extend(self.entry_type, self.path.deep_view(), name@);
            assert(csegs.len() == psegs.len() + 2);
            assert(psegs != csegs && psegs != cmd);
            match &r {
                Ok(e) => {
                    assert(e.path.deep_view() =~~= self.path.deep_view().push(name@));
                },
                Err(_) => {},
            }
        }
        r
    }

    /// The store key under which the entry's leaf is renamed: the
    /// context's top-level container for root entries, the parent
    /// entry's own key otherwise, matching how the parent path is
    /// resolved for the store's rename call.
    pub open spec fn parent_key_segs(e: CtxEntry) -> Seq<Seq<char>> {
        if e.path@.len() == 1 {
            base_segments_spec(e.entry_type).push("shell"@)
        } else {
            full_segments_spec(e.entry_type, e.path.deep_view().drop_last())
        }
    }

    /// Renames the entry. An empty name is rejected as invalid input
    /// before anything is touched. Once the store rename has been
    /// attempted, the in-memory name path is updated whether or not that
    /// call succeeded — intentional, for consistency with reading the
    /// name after a failed rename; the contract below states the exact
    /// outcome of every case.
    pub fn rename(&mut self, new_name: &str, store: &mut RegStore) -> (r: Result<(), CtxError>)
        requires
            old(self).wf(),
            old(store).wf(),
        ensures
            final(self).wf(),
            final(store).wf(),
            final(self).entry_type == old(self).entry_type,
            new_name@.len() == 0 ==> r == Err::<(), CtxError>(CtxError::InvalidInput)
                && *final(self) == *old(self) && *final(store) == *old(store),
            new_name@.len() > 0 && !old(store).has_key(old(self).segs()) ==> r == Err::<
                (),
                CtxError,
            >(CtxError::NotFound) && *final(self) == *old(self) && *final(store) == *old(store),
            new_name@.len() > 0 && old(store).has_key(old(self).segs()) ==> {
                let pk = Self::parent_key_segs(*old(self));
                let src = pk.push(old(self).path.deep_view().last());
                let dst = pk.push(new_name@);
                &&& final(self).path.deep_view() == old(self).path.deep_view().update(
                    old(self).path.deep_view().len() - 1,
                    new_name@,
                )
                &&& match r {
                    Ok(_) => {
                        &&& old(store).has_key(src)
                        &&& !old(store).has_key(dst)
                        &&& forall|q: Seq<Seq<char>>|
                            #[trigger] final(store).has_key(q) <==> (if is_path_prefix(dst, q) {
                                old(store).has_key(
                                    src + q.subrange(dst.len() as int, q.len() as int),
                                )
                            } else {
                                old(store).has_key(q) && !is_path_prefix(src, q)
                            })
                        &&& forall|q: Seq<Seq<char>>, n: Seq<char>|
                            #[trigger] final(store).val(q, n) == (if is_path_prefix(dst, q) {
                                old(store).val(
                                    src + q.subrange(dst.len() as int, q.len() as int),
                                    n,
                                )
                            } else if is_path_prefix(src, q) {
                                None::<Seq<char>>
                            } else {
                                old(store).val(q, n)
                            })
                    },
                    Err(e) => {
                        &&& *final(store) == *old(store)
                        &&& ((e == CtxError::NotFound && !old(store).has_key(src)) || (e
                            == CtxError::AlreadyExists && old(store).has_key(src) && old(
                            store,
                        ).has_key(dst)))
                    },
                }
            },
    {
        if new_name.is_empty() {
            return Err(CtxError::InvalidInput);
        }
        let old_name = match self.name(store) {
            Ok(s) => s,
            Err(e) => {
                return Err(e);
            },
        };
        let pk: Vec<String>;
        if self.path.len() == 1 {
            let empty: Vec<String> = Vec::new();
            let mut base = full_segments(&self.entry_type, &empty);
            base.push(String::from_str("shell"));
            proof {
                assert(empty.deep_view() =~~= Seq::<Seq<char>>::empty());
            }
            pk = base;
        } else {
            let mut parent_names = clone_segs(&self.path);
            let _ = parent_names.pop();
            proof {
                assert(parent_names.deep_view() =~~= self.path.deep_view().drop_last());
            }
            pk = full_segments(&self.entry_type, &parent_names);
        }
        proof {
            assert(pk.deep_view() =~~= Self::parent_key_segs(*self));
        }
        let new_s = String::from_str(new_name);
        let res = store.rename_key(&pk, &old_name, &new_s);
        let _ = self.path.pop();
        self.path.push(String::from_str(new_name));
        proof {
            assert(self.path.deep_view() =~~= old(self).path.deep_view().update(
                old(self).path.deep_view().len() - 1,
                new_name@,
            ));
            assert(pk.deep_view().push(old_name@) == Self::parent_key_segs(*old(self)).push(
                old(self).path.deep_view().last(),
            ));
        }
        res
    }

    /// Gets all top-level entries of a context, one per child name of
    /// the context's root container; an absent container yields none.
    pub fn get_all_of_type(entry_type: &ActivationType, store: &RegStore) -> (r: Vec<CtxEntry>)
        requires
            store.wf(),
        ensures
            forall|i: int|
                0 <= i < r@.len() ==> {
                    let e = #[trigger] r@[i];
                    &&& e.wf()
                    &&& e.entry_type == *entry_type
                    &&& e.path@.len() == 1
                    &&& store.has_key(full_segments_spec(*entry_type, e.path.deep_view()))
                },
            forall|i: int, j: int|
                0 <= i < j < r@.len() ==> (#[trigger] r@[i]).path.deep_view() != (
                #[trigger] r@[j]).path.deep_view(),
            forall|s: Seq<char>|
                (exists|i: int|
                    0 <= i < r@.len() && (#[trigger] r@[i]).path.deep_view() == seq![s])
                    <==> #[trigger] store.has_key(full_segments_spec(*entry_type, seq![s])),
    {
        let empty: Vec<String> = Vec::new();
        let mut container = full_segments(entry_type, &empty);
        container.push(String::from_str("shell"));
        proof {
            assert(empty.deep_view() =~~= Seq::<Seq<char>>::empty());
            assert forall|s: Seq<char>|
                #[trigger] container.deep_view().push(s) == full_segments_spec(
                    *entry_type,
                    seq![s],
                ) by {
                lemma_child_segments_extend(*entry_type, Seq::empty(), s);
                assert(Seq::<Seq<char>>::empty().push(s) =~~= seq![s]);
                assert(container.deep_view().push(s) =~~= full_segments_spec(
                    *entry_type,
                    Seq::<Seq<char>>::empty(),
                ) + seq!["shell"@, s]);
            }
        }
        let names = store.child_names(&container);
        let mut out: Vec<CtxEntry> = Vec::new();
        let mut i: usize = 0;
        while i < names.len()
            invariant
                0 <= i <= names@.len(),
                out@.len() == i,
                store.wf(),
                forall|s: Seq<char>|
                    #[trigger] container.deep_view().push(s) == full_segments_spec(
                        *entry_type,
                        seq![s],
                    ),
                forall|a: int, b: int|
                    0 <= a < b < names@.len() ==> (#[trigger] names@[a])@ != (
                    #[trigger] names@[b])@,
                forall|s: Seq<char>|
                    seg_seq_contains(names@, s) <==> #[trigger] store.has_key(
                        container.deep_view().push(s),
                    ),
                forall|k: int|
                    0 <= k < i ==> (#[trigger] out@[k]).path.deep_view() == seq![names@[k]@]
                        && out@[k].entry_type == *entry_type && out@[k].path@.len() == 1,
            decreases names@.len() - i,
        {
            let mut p: Vec<String> = Vec::new();
            p.push(names[i].clone());
            proof {
                assert(p.deep_view() =~~= seq![names@[i as int]@]);
            }
            out.push(CtxEntry { path: p, entry_type: entry_type.duplicate() });
            i += 1;
        }
        proof {
            assert forall|k: int|
                0 <= k < out@.len() implies store.has_key(
                full_segments_spec(*entry_type, (#[trigger] out@[k]).path.deep_view())) by {
                assert(seg_seq_contains(names@, names@[k]@));
                assert(store.has_key(container.deep_view().push(names@[k]@)));
                assert(out@[k].path.deep_view() == seq![names@[k]@]);
            }
            assert forall|a: int, b: int|
                0 <= a < b < out@.len() implies (#[trigger] out@[a]).path.deep_view() != (
            #[trigger] out@[b]).path.deep_view() by {
                assert((names@[a])@ != (names@[b])@);
                assert(out@[a].path.deep_view() == seq![names@[a]@]);
                assert(out@[b].path.deep_view() == seq![names@[b]@]);
                assert(seq![names@[a]@][0] == names@[a]@);
                assert(seq![names@[b]@][0] == names@[b]@);
            }
            assert forall|s: Seq<char>|
                (exists|k: int|
                    0 <= k < out@.len() && (#[trigger] out@[k]).path.deep_view() == seq![s])
                    <==> #[trigger] store.has_key(full_segments_spec(*entry_type, seq![s])) by {
                if exists|k: int|
                    0 <= k < out@.len() && (#[trigger] out@[k]).path.deep_view() == seq![s] {
                    let k = choose|k: int|
                        0 <= k < out@.len() && (#[trigger] out@[k]).path.deep_view() == seq![s];
                    assert(seq![names@[k]@] == out@[k].path.deep_view());
                    assert(seq![names@[k]@][0] == names@[k]@);
                    assert(seq![s][0] == s);
                    assert(names@[k]@ == s);
                    assert(seg_seq_contains(names@, s));
                }
                if store.has_key(full_segments_spec(*entry_type, seq![s])) {
                    assert(store.has_key(container.deep_view().push(s)));
                    assert(seg_seq_contains(names@, s));
                    let a = choose|a: int|
                        0 <= a < names@.len() && (#[trigger] names@[a])@ == s;
                    assert(out@[a].path.deep_view() == seq![s]);
                }
            }
        }
        out
    }
}

} // verus!
