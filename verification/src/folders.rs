//! What becomes of a workspace as its folders and its options change.


use vstd::prelude::*;

use crate::contexts::{changed_owners, OwnerChange, OwnerView, StoreView};
use crate::deleted::DeletedFiles;
use crate::events::no_contexts;
use crate::excludes::{compiled, optional_patterns, source_roots_of, WorkspaceRoot};
use crate::includes::{GraphView, IncludeGraph};
use crate::keymap::KeyMap;
use crate::names::path_views;
use crate::paths::{
    absolute_parts, absolute_path, equal_ci, path_starts_with_ci, paths_equal_ci, starts_with_ci,
    FilePath, Parts,
};
use crate::settings::WorkspaceOptionsView;
use crate::sorting::views;
use crate::sources::{with_pruned_contexts, without_source, SourcesView};
use crate::strings::texts;
use crate::strmap::{in_order, lemma_deep_remove, StrMap};
use crate::uris::{file_path_of, uri_path};
use crate::warnings::warned_with;
use crate::workspace::{after_global_change, Workspace, WorkspaceView};

verus! {

/// Of the first `n` folders, those that are not a path.
pub open spec fn roots_without(roots: Seq<WorkspaceRoot>, folder: Parts, n: int) -> Seq<WorkspaceRoot>
    decreases n,
{
    if n <= 0 {
        seq![]
    } else {
        let before = roots_without(roots, folder, n - 1);
        if equal_ci(roots[n - 1].path@, folder) {
            before
        } else {
            before.push(roots[n - 1])
        }
    }
}

fn drop_folder(roots: &mut Vec<WorkspaceRoot>, folder: &FilePath)
    ensures
        final(roots)@ == roots_without(old(roots)@, folder@, old(roots)@.len() as int),
{
    let ghost all = roots@;
    let ghost mut seen: int = 0;
    let mut i: usize = 0;
    proof {
        assert(roots_without(all, folder@, 0) + all.skip(0) =~= all);
    }
    while i < roots.len()
        invariant
            all == old(roots)@,
            0 <= seen <= all.len(),
            i <= roots@.len(),
            i == roots_without(all, folder@, seen).len(),
            roots@ == roots_without(all, folder@, seen) + all.skip(seen),
        decreases roots@.len() - i,
    {
        proof {
            assert(roots@[i as int] == all.skip(seen)[0]);
            assert(all.skip(seen)[0] == all[seen]);
        }
        let ghost kept = roots_without(all, folder@, seen);
        if paths_equal_ci(&roots[i].path, folder) {
            let _gone = roots.remove(i);
            proof {
                assert(roots@ =~= kept + all.skip(seen + 1));
            }
        } else {
            proof {
                assert(roots@ =~= kept.push(all[seen]) + all.skip(seen + 1));
            }
            i += 1;
        }
        proof {
            seen = seen + 1;
        }
    }
    proof {
        assert(roots@.len() == i);
        assert(all.skip(seen).len() == 0);
        assert(roots@ =~= roots_without(all, folder@, seen));
    }
}

/// The file of a URI lies in a folder.
pub open spec fn in_folder(uri: Seq<char>, folder: Parts) -> bool {
    uri_path(uri) is Some && starts_with_ci(uri_path(uri)->0, folder)
}

fn is_in_folder(uri: &str, folder: &FilePath) -> (r: bool)
    ensures
        r == in_folder(uri@, folder@),
{
    match file_path_of(uri) {
        Some(path) => path_starts_with_ci(&path, folder),
        None => false,
    }
}

/// Of the first `n` URIs, those whose files lie in a folder.
pub open spec fn those_in(list: Seq<Seq<char>>, folder: Parts, n: int) -> Seq<Seq<char>>
    decreases n,
{
    if n <= 0 {
        seq![]
    } else {
        let before = those_in(list, folder, n - 1);
        if in_folder(list[n - 1], folder) {
            before.push(list[n - 1])
        } else {
            before
        }
    }
}

fn list_in(list: &Vec<String>, folder: &FilePath) -> (r: Vec<String>)
    ensures
        texts(r@) == those_in(texts(list@), folder@, list@.len() as int),
{
    let ghost all = texts(list@);
    let mut found: Vec<String> = Vec::new();
    let mut i: usize = 0;
    proof {
        assert(texts(found@) =~= seq![]);
    }
    while i < list.len()
        invariant
            i <= list@.len(),
            all == texts(list@),
            texts(found@) == those_in(all, folder@, i as int),
        decreases list@.len() - i,
    {
        proof {
            assert(all[i as int] == list@[i as int]@);
        }
        if is_in_folder(list[i].as_str(), folder) {
            let ghost held = found@;
            let copied = list[i].clone();
            found.push(copied);
            proof {
                assert(texts(found@) =~= texts(held).push(copied@));
            }
        }
        i += 1;
    }
    found
}

/// A map without the first `n` keys of a list.
pub open spec fn without_keys<V>(m: Map<Seq<char>, V>, list: Seq<Seq<char>>, n: int) -> Map<
    Seq<char>,
    V,
>
    decreases n,
{
    if n <= 0 {
        m
    } else {
        without_keys(m, list, n - 1).remove(list[n - 1])
    }
}

/// The sources after those of the first `n` of a list were forgotten, one by one.
pub open spec fn forgotten_each(v: SourcesView, list: Seq<Seq<char>>, n: int) -> SourcesView
    decreases n,
{
    if n <= 0 {
        v
    } else {
        with_pruned_contexts(without_source(forgotten_each(v, list, n - 1), list[n - 1]))
    }
}

/// The owners of files in a folder.
pub open spec fn owners_in(store: StoreView, folder: Parts) -> Seq<Seq<char>> {
    let all = in_order(store.owners.dom());
    those_in(all, folder, all.len() as int)
}

/// The last uses of those that are no owners any more.
pub open spec fn stale_uses(last_used: Map<Seq<char>, u64>, owners: Map<Seq<char>, OwnerView>) -> Set<
    Seq<char>,
> {
    last_used.dom().filter(|uri: Seq<char>| !owners.contains_key(uri))
}

/// What is known of projects after a folder was removed.
pub open spec fn store_without_folder(store: StoreView, folder: Parts) -> StoreView {
    let gone = owners_in(store, folder);
    let owners = without_keys(store.owners, gone, gone.len() as int);
    StoreView {
        owners,
        owner_last_used: store.owner_last_used.remove_keys(
            stale_uses(store.owner_last_used, owners),
        ),
        ..store
    }
}

/// The sources after a folder was removed.
pub open spec fn sources_without_folder(v: SourcesView, folder: Parts) -> SourcesView {
    let known = SourcesView { store: store_without_folder(v.store, folder), ..v };
    let all = in_order(v.sizes.dom());
    let list = those_in(all, folder, all.len() as int);
    forgotten_each(known, list, list.len() as int)
}

/// The folders after the first `n` of a list were removed.
pub open spec fn roots_after_removal(
    roots: Seq<WorkspaceRoot>,
    cwd: Parts,
    removed: Seq<Parts>,
    n: int,
) -> Seq<WorkspaceRoot>
    decreases n,
{
    if n <= 0 {
        roots
    } else {
        let before = roots_after_removal(roots, cwd, removed, n - 1);
        roots_without(before, absolute_parts(cwd, removed[n - 1]), before.len() as int)
    }
}

/// The sources after the first `n` folders of a list were removed.
pub open spec fn sources_after_removal(v: SourcesView, cwd: Parts, removed: Seq<Parts>, n: int) -> SourcesView
    decreases n,
{
    if n <= 0 {
        v
    } else {
        sources_without_folder(
            sources_after_removal(v, cwd, removed, n - 1),
            absolute_parts(cwd, removed[n - 1]),
        )
    }
}

/// A folder of the workspace at a path, with the source paths and the patterns of options.
pub open spec fn is_folder(
    root: WorkspaceRoot,
    cwd: Parts,
    folder: Parts,
    options: WorkspaceOptionsView,
) -> bool {
    &&& root.path@ == folder
    &&& path_views(root.source_roots@) == source_roots_of(
        cwd,
        folder,
        options.source_paths,
        options.source_paths.len() as int,
    )
    &&& root.excludes.root@ == folder
    &&& root.excludes.config_root@ == folder
    &&& optional_patterns(root.excludes.patterns) == compiled(options.exclude)
}

/// The paths of folders.
pub open spec fn folder_paths(roots: Seq<WorkspaceRoot>) -> Seq<Parts> {
    roots.map_values(|root: WorkspaceRoot| root.path@)
}

/// The folders of the first `n` of a list that were not known.
pub open spec fn new_folders(known: Seq<Parts>, cwd: Parts, added: Seq<Parts>, n: int) -> Seq<Parts>
    decreases n,
{
    if n <= 0 {
        seq![]
    } else {
        let before = new_folders(known, cwd, added, n - 1);
        let folder = absolute_parts(cwd, added[n - 1]);
        if known.contains(folder) || before.contains(folder) {
            before
        } else {
            before.push(folder)
        }
    }
}

/// The log after what came up with the overrides of the new folders.
pub open spec fn captured_log(
    log: Seq<Seq<char>>,
    known: Seq<Parts>,
    cwd: Parts,
    added: Seq<Parts>,
    problems: Seq<Option<String>>,
    n: int,
) -> Seq<Seq<char>>
    decreases n,
{
    if n <= 0 {
        log
    } else {
        let before = captured_log(log, known, cwd, added, problems, n - 1);
        let folder = absolute_parts(cwd, added[n - 1]);
        if known.contains(folder) || new_folders(known, cwd, added, n - 1).contains(folder)
            || problems[n - 1] is None {
            before
        } else {
            warned_with(before, problems[n - 1]->0@)
        }
    }
}

/// The sources once no project is known: what they include is looked for again.
pub open spec fn without_projects(v: SourcesView) -> SourcesView {
    SourcesView {
        expansions: Map::empty(),
        graph: GraphView { uses: Map::empty(), parents: Map::empty() },
        store: no_contexts(v.store),
        ..v
    }
}

/// The workspace after its folders changed.
pub open spec fn folders_changed(
    ws: WorkspaceView,
    roots: Seq<WorkspaceRoot>,
    cwd: Parts,
    added: Seq<Parts>,
    removed: Seq<Parts>,
    problems: Seq<Option<String>>,
) -> WorkspaceView {
    let routed = SourcesView {
        store: StoreView {
            owners: changed_owners(ws.sources.store.owners, OwnerChange::ForgetRoutes),
            ..ws.sources.store
        },
        ..ws.sources
    };
    let kept = roots_after_removal(roots, cwd, removed, removed.len() as int);
    WorkspaceView {
        generations: after_global_change(ws.generations, true),
        sources: without_projects(
            sources_after_removal(routed, cwd, removed, removed.len() as int),
        ),
        log: captured_log(
            ws.log,
            folder_paths(kept),
            cwd,
            added,
            problems,
            added.len() as int,
        ),
        deleted: Map::empty(),
        ..ws
    }
}

/// Whether one of the folders is a path.
fn has_root(roots: &Vec<WorkspaceRoot>, folder: &FilePath) -> (r: bool)
    ensures
        r == folder_paths(roots@).contains(folder@),
{
    let ghost paths = folder_paths(roots@);
    let mut i: usize = 0;
    while i < roots.len()
        invariant
            i <= roots@.len(),
            paths == folder_paths(roots@),
            forall|j: int| 0 <= j < i ==> #[trigger] paths[j] != folder@,
        decreases roots@.len() - i,
    {
        proof {
            assert(paths[i as int] == roots@[i as int].path@);
        }
        if roots[i].path.same(folder) {
            return true;
        }
        i += 1;
    }
    false
}

impl Workspace {
    fn forget_each(&mut self, list: &Vec<String>)
        requires
            old(self).wf(),
        ensures
            final(self).wf(),
            final(self).same_rest(old(self)),
            final(self)@ == (WorkspaceView {
                sources: forgotten_each(
                    old(self)@.sources,
                    texts(list@),
                    list@.len() as int,
                ),
                ..old(self)@
            }),
    {
        let ghost start = self@;
        let ghost all = texts(list@);
        let mut i: usize = 0;
        while i < list.len()
            invariant
                i <= list@.len(),
                all == texts(list@),
                self.wf(),
                self.same_rest(old(self)),
                self@ == (WorkspaceView {
                    sources: forgotten_each(start.sources, all, i as int),
                    ..start
                }),
            decreases list@.len() - i,
        {
            proof {
                assert(all[i as int] == list@[i as int]@);
            }
            self.forget_source(list[i].as_str());
            i += 1;
        }
    }

    fn drop_owners(&mut self, folder: &FilePath)
        requires
            old(self).wf(),
        ensures
            final(self).wf(),
            final(self).same_rest(old(self)),
            final(self)@ == (WorkspaceView {
                sources: SourcesView {
                    store: store_without_folder(old(self)@.sources.store, folder@),
                    ..old(self)@.sources
                },
                ..old(self)@
            }),
    {
        let ghost start = self@;
        let ghost store = start.sources.store;
        let _count: usize = self.sources.contexts.owners.len();
        let all = self.sources.contexts.owners.key_list();
        proof {
            assert(store.owners.dom() =~= self.sources.contexts.owners@.dom());
            assert(texts(all@).len() == all@.len());
        }
        let gone = list_in(&all, folder);
        let ghost list = texts(gone@);
        let mut i: usize = 0;
        proof {
            assert(list.len() == gone@.len());
            assert(list == owners_in(store, folder@));
        }
        while i < gone.len()
            invariant
                i <= gone@.len(),
                list == texts(gone@),
                list.len() == gone@.len(),
                self.wf(),
                self.same_rest(old(self)),
                store == start.sources.store,
                self@ == (WorkspaceView {
                    sources: SourcesView {
                        store: StoreView {
                            owners: without_keys(store.owners, list, i as int),
                            ..store
                        },
                        ..start.sources
                    },
                    ..start
                }),
            decreases gone@.len() - i,
        {
            let ghost held = self@;
            proof {
                assert(list[i as int] == gone@[i as int]@);
                lemma_deep_remove(self.sources.contexts.owners@, list[i as int]);
            }
            let _owner = self.sources.contexts.owners.remove(gone[i].as_str());
            proof {
                assert(self@.sources.store =~= (StoreView {
                    owners: without_keys(store.owners, list, i + 1),
                    ..store
                }));
                assert(self@.sources =~= (SourcesView {
                    store: self@.sources.store,
                    ..held.sources
                }));
                assert(self@ =~= (WorkspaceView { sources: self@.sources, ..held }));
            }
            i += 1;
        }
        let ghost dropped = self@;
        let ghost owners = dropped.sources.store.owners;
        let ghost uses = store.owner_last_used;
        let _uses: usize = self.sources.contexts.owner_last_used.len();
        let names = self.sources.contexts.owner_last_used.key_list();
        let ghost used = texts(names@);
        let mut k: usize = 0;
        proof {
            assert(used.len() == names@.len());
            assert(uses.remove_keys(used.take(0).to_set().filter(|u: Seq<char>| !owners.contains_key(u)))
                =~= uses);
        }
        while k < names.len()
            invariant
                k <= names@.len(),
                used == texts(names@),
                self.wf(),
                self.same_rest(old(self)),
                owners == dropped.sources.store.owners,
                self.sources.contexts.owners.deep() == owners,
                self@ == (WorkspaceView {
                    sources: SourcesView {
                        store: StoreView {
                            owner_last_used: uses.remove_keys(
                                used.take(k as int).to_set().filter(
                                    |u: Seq<char>| !owners.contains_key(u),
                                ),
                            ),
                            ..dropped.sources.store
                        },
                        ..dropped.sources
                    },
                    ..dropped
                }),
            decreases names@.len() - k,
        {
            let ghost held = self@;
            let ghost f = |u: Seq<char>| !owners.contains_key(u);
            proof {
                assert(used[k as int] == names@[k as int]@);
                crate::strmap::lemma_take_set(used, k as int);
            }
            if !self.sources.contexts.owners.contains_key(names[k].as_str()) {
                let _use = self.sources.contexts.owner_last_used.remove(names[k].as_str());
            }
            proof {
                assert(self@.sources.store.owner_last_used =~= uses.remove_keys(
                    used.take(k + 1).to_set().filter(f),
                ));
                assert(self@.sources.store =~= (StoreView {
                    owner_last_used: uses.remove_keys(used.take(k + 1).to_set().filter(f)),
                    ..held.sources.store
                }));
                assert(self@.sources =~= (SourcesView {
                    store: self@.sources.store,
                    ..held.sources
                }));
                assert(self@ =~= (WorkspaceView { sources: self@.sources, ..held }));
            }
            k += 1;
        }
        proof {
            let f = |u: Seq<char>| !owners.contains_key(u);
            assert(used.take(used.len() as int) =~= used);
            assert(used.to_set() =~= uses.dom());
            assert(used.to_set().filter(f) =~= stale_uses(uses, owners));
            assert(self@.sources.store =~= store_without_folder(store, folder@));
        }
    }

    fn remove_folder(&mut self, folder: &FilePath)
        requires
            old(self).wf(),
        ensures
            final(self).wf(),
            final(self).roots@ == roots_without(
                old(self).roots@,
                folder@,
                old(self).roots@.len() as int,
            ),
            final(self).options == old(self).options,
            final(self).publications == old(self).publications,
            final(self).selections == old(self).selections,
            final(self)@ == (WorkspaceView {
                sources: sources_without_folder(old(self)@.sources, folder@),
                ..old(self)@
            }),
    {
        let ghost start = self@;
        drop_folder(&mut self.roots, folder);
        proof {
            assert(self@ =~= start);
        }
        self.drop_owners(folder);
        let _count: usize = self.sources.sizes.len();
        let all = self.sources.sizes.key_list();
        let list = list_in(&all, folder);
        proof {
            assert(texts(all@).len() == all@.len());
            assert(texts(list@).len() == list@.len());
        }
        self.forget_each(&list);
    }

    fn add_folder(&mut self, cwd: &FilePath, folder: &FilePath, problem: &Option<String>)
        requires
            old(self).wf(),
        ensures
            final(self).wf(),
            final(self).options == old(self).options,
            final(self).publications == old(self).publications,
            final(self).selections == old(self).selections,
            ({
                let whole = absolute_parts(cwd@, folder@);
                let known = folder_paths(old(self).roots@).contains(whole);
                &&& known ==> final(self).roots@ == old(self).roots@ && final(self)@ == old(
                    self,
                )@
                &&& !known ==> {
                    &&& final(self).roots@.len() == old(self).roots@.len() + 1
                    &&& final(self).roots@.drop_last() == old(self).roots@
                    &&& is_folder(final(self).roots@.last(), cwd@, whole, old(self).options@)
                    &&& final(self)@ == (WorkspaceView {
                        log: match *problem {
                            Some(text) => warned_with(old(self)@.log, text@),
                            None => old(self)@.log,
                        },
                        ..old(self)@
                    })
                }
            }),
    {
        let ghost start = self@;
        let whole = absolute_path(cwd, folder);
        if has_root(&self.roots, &whole) {
            return ;
        }
        let root = WorkspaceRoot::new(
            cwd,
            folder,
            &self.options.source_paths,
            &self.options.exclude,
        );
        if let Some(text) = problem {
            self.log.warn(text.clone());
        }
        let ghost held = self.roots@;
        self.roots.push(root);
        proof {
            assert(self.roots@.drop_last() =~= held);
            assert(self@ =~= (WorkspaceView { log: self@.log, ..start }));
        }
    }

    /// Adds folders and removes others. `problems` are those that come up with the overrides
    /// of the folders that are added. No result that was computed before holds.
    pub fn update_workspace_folders(
        &mut self,
        cwd: &FilePath,
        added: &Vec<FilePath>,
        removed: &Vec<FilePath>,
        problems: &Vec<Option<String>>,
    )
        requires
            old(self).wf(),
            added@.len() == problems@.len(),
        ensures
            final(self).wf(),
            final(self).options == old(self).options,
            final(self).publications == old(self).publications,
            final(self).selections == old(self).selections,
            final(self).catalogues_empty(),
            final(self)@ == folders_changed(
                old(self)@,
                old(self).roots@,
                cwd@,
                views(added@),
                views(removed@),
                problems@,
            ),
            ({
                let kept = roots_after_removal(
                    old(self).roots@,
                    cwd@,
                    views(removed@),
                    removed@.len() as int,
                );
                let new = new_folders(
                    folder_paths(kept),
                    cwd@,
                    views(added@),
                    added@.len() as int,
                );
                &&& final(self).roots@.len() == kept.len() + new.len()
                &&& final(self).roots@.take(kept.len() as int) == kept
                &&& forall|i: int|
                    0 <= i < new.len() ==> is_folder(
                        #[trigger] final(self).roots@[kept.len() + i],
                        cwd@,
                        new[i],
                        old(self).options@,
                    )
            }),
    {
        let ghost start = self@;
        let ghost first_roots = self.roots@;
        let ghost gone = views(removed@);
        let ghost more = views(added@);
        self.generations.bump_source_generation();
        self.generations.bump_configuration_generation();
        self.generations.mark_global_change();
        self.sources.contexts.change_owners(&OwnerChange::ForgetRoutes);
        let ghost routed = SourcesView {
            store: StoreView {
                owners: changed_owners(start.sources.store.owners, OwnerChange::ForgetRoutes),
                ..start.sources.store
            },
            ..start.sources
        };
        let ghost begun = WorkspaceView {
            generations: after_global_change(start.generations, true),
            sources: routed,
            ..start
        };
        proof {
            assert(self@.sources =~= routed);
            assert(self@ =~= begun);
            assert(self.sources.wf());
        }
        let mut i: usize = 0;
        while i < removed.len()
            invariant
                i <= removed@.len(),
                gone == views(removed@),
                self.wf(),
                self.options == old(self).options,
                self.publications == old(self).publications,
                self.selections == old(self).selections,
                self.roots@ == roots_after_removal(first_roots, cwd@, gone, i as int),
                self@ == (WorkspaceView {
                    sources: sources_after_removal(routed, cwd@, gone, i as int),
                    ..begun
                }),
            decreases removed@.len() - i,
        {
            proof {
                assert(gone[i as int] == removed@[i as int]@);
            }
            let folder = absolute_path(cwd, &removed[i]);
            self.remove_folder(&folder);
            i += 1;
        }
        let ghost kept = self.roots@;
        let ghost known = folder_paths(kept);
        let ghost removed_view = self@;
        let mut k: usize = 0;
        proof {
            assert(self.roots@.take(kept.len() as int) =~= kept);
        }
        while k < added.len()
            invariant
                k <= added@.len(),
                added@.len() == problems@.len(),
                more == views(added@),
                known == folder_paths(kept),
                self.wf(),
                self.options == old(self).options,
                self.publications == old(self).publications,
                self.selections == old(self).selections,
                self@ == (WorkspaceView {
                    log: captured_log(
                        removed_view.log,
                        known,
                        cwd@,
                        more,
                        problems@,
                        k as int,
                    ),
                    ..removed_view
                }),
                ({
                    let new = new_folders(known, cwd@, more, k as int);
                    &&& self.roots@.len() == kept.len() + new.len()
                    &&& self.roots@.take(kept.len() as int) == kept
                    &&& forall|j: int|
                        0 <= j < new.len() ==> is_folder(
                            #[trigger] self.roots@[kept.len() + j],
                            cwd@,
                            new[j],
                            old(self).options@,
                        )
                }),
            decreases added@.len() - k,
        {
            let ghost new = new_folders(known, cwd@, more, k as int);
            let ghost whole = absolute_parts(cwd@, added@[k as int]@);
            let ghost held = self.roots@;
            proof {
                assert(more[k as int] == added@[k as int]@);
                lemma_paths_of_all(held, kept, new);
                assert(folder_paths(held) =~= known + new);
                assert(folder_paths(held).contains(whole) == (known.contains(whole)
                    || new.contains(whole))) by {
                    if known.contains(whole) {
                        let j = choose|j: int| 0 <= j < known.len() && known[j] == whole;
                        assert((known + new)[j] == whole);
                    }
                    if new.contains(whole) {
                        let j = choose|j: int| 0 <= j < new.len() && new[j] == whole;
                        assert((known + new)[known.len() + j] == whole);
                    }
                    if (known + new).contains(whole) {
                        let j = choose|j: int|
                            0 <= j < (known + new).len() && (known + new)[j] == whole;
                        if j < known.len() {
                            assert(known[j] == whole);
                        } else {
                            assert(new[j - known.len()] == whole);
                        }
                    }
                }
            }
            self.add_folder(cwd, &added[k], &problems[k]);
            proof {
                if !folder_paths(held).contains(whole) {
                    let grown = new.push(whole);
                    assert(self.roots@.take(kept.len() as int) =~= held.take(
                        kept.len() as int,
                    )) by {
                        assert(self.roots@.drop_last() == held);
                        assert forall|j: int| 0 <= j < kept.len() implies self.roots@[j]
                            == held[j] by {
                            assert(self.roots@.drop_last()[j] == held[j]);
                        }
                    }
                    assert forall|j: int| 0 <= j < grown.len() implies is_folder(
                        #[trigger] self.roots@[kept.len() + j],
                        cwd@,
                        grown[j],
                        old(self).options@,
                    ) by {
                        if j < new.len() {
                            assert(self.roots@.drop_last()[kept.len() + j] == held[kept.len() + j]);
                            assert(is_folder(
                                held[kept.len() + j],
                                cwd@,
                                new[j],
                                old(self).options@,
                            ));
                        } else {
                            assert(self.roots@.last() == self.roots@[kept.len() + j]);
                        }
                    }
                }
            }
            k += 1;
        }
        let ghost added_view = self@;
        self.sources.includes = IncludeGraph::new();
        self.sources.contexts.contexts = KeyMap::new();
        self.sources.contexts.document_contexts = StrMap::new();
        self.sources.contexts.open_document_contexts = StrMap::new();
        self.deleted = DeletedFiles::new();
        self.directories.kept.clear();
        self.filenames.kept.clear();
        self.packages.cache.clear();
        self.package_metadata.readings.clear();
        proof {
            assert(self@.sources.store =~= no_contexts(added_view.sources.store));
            assert(self@.sources =~= without_projects(added_view.sources));
            assert(self@ =~= folders_changed(
                start,
                first_roots,
                cwd@,
                more,
                gone,
                problems@,
            ));
        }
    }
}

proof fn lemma_paths_of_all(
    roots: Seq<WorkspaceRoot>,
    kept: Seq<WorkspaceRoot>,
    new: Seq<Parts>,
)
    requires
        roots.len() == kept.len() + new.len(),
        roots.take(kept.len() as int) == kept,
        forall|j: int|
            0 <= j < new.len() ==> (#[trigger] roots[kept.len() + j]).path@ == new[j],
    ensures
        folder_paths(roots) == folder_paths(kept) + new,
{
    assert forall|j: int| 0 <= j < roots.len() implies folder_paths(roots)[j] == (folder_paths(kept)
        + new)[j] by {
        if j < kept.len() {
            assert(roots.take(kept.len() as int)[j] == roots[j]);
        } else {
            assert(roots[kept.len() + (j - kept.len())].path@ == new[j - kept.len()]);
        }
    }
    assert(folder_paths(roots) =~= folder_paths(kept) + new);
}

} // verus!
