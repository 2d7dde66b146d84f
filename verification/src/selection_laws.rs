//! Which project a source belongs to.

use vstd::prelude::*;

use crate::contexts::{
    bound, changed_owner, in_use, known_origin, pruned, OwnerChange, OwnerOrigin, OwnerView,
    StoreView,
};
use crate::discovery::folder_of;
use crate::documents::DocumentView;
use crate::excludes::WorkspaceRoot;
use crate::paths::{equal_ci, parent_of, FilePath, Parts};
use crate::project::{KeyView, ProjectContext};
use crate::selection::{
    configuration_directory, effective_choice, key_of, matches_selections, owner_key, owner_step,
    search_start, selection_current, CandidateStatus, EffectiveChoice, OwnerStep, Rediscovery,
    rediscovered, StartView, Surroundings,
};
use crate::strings::texts;
use crate::uris::{optional_parts, optional_text, uri_path};

verus! {

/// An owner that was found by itself is never taken for a choice. One that was chosen for a
/// directory holds exactly while the same project is chosen there and no nearer directory has
/// candidates; one that was chosen otherwise while nothing is chosen for the source, or, where
/// something is chosen for its own directory, while that is its own project.
pub proof fn law_when_a_choice_holds(
    owner: OwnerView,
    selections: Map<Parts, FilePath>,
    around: Surroundings,
)
    ensures
        ({
            let key = owner.key;
            let scope = key.selection_scope;
            let own = key.project_scope is Some && key.project_file is Some
                && selections.contains_key(key.project_scope->0);
            &&& owner.origin == OwnerOrigin::Automatic ==> !selection_current(
                owner,
                selections,
                around,
            )
            &&& owner.origin != OwnerOrigin::Automatic && scope is Some ==> (selection_current(
                owner,
                selections,
                around,
            ) <==> key.selection_project is Some && (around.directory is None || equal_ci(
                around.directory->0@,
                scope->0,
            )) && selections.contains_key(scope->0) && equal_ci(
                selections[scope->0]@,
                key.selection_project->0,
            ))
            &&& owner.origin != OwnerOrigin::Automatic && scope is None && own ==> (
            selection_current(owner, selections, around) <==> equal_ci(
                selections[key.project_scope->0]@,
                key.project_file->0,
            ))
            &&& owner.origin != OwnerOrigin::Automatic && scope is None && !own ==> (
            selection_current(owner, selections, around) <==> around.selected is None)
        }),
{
}

/// A context is what the current selections lead to: where one applies to the source, exactly
/// where the context is of that one; where none does, exactly where the context was not chosen,
/// or where its choice stands as it does, of a project or of none.
pub proof fn law_which_contexts_the_selections_lead_to(
    store: StoreView,
    key: KeyView,
    selections: Map<Parts, FilePath>,
    around: Surroundings,
)
    ensures
        around.selected is Some ==> (matches_selections(store, key, selections, around) <==> {
            let scope = around.selected->0.scope@;
            let project = around.selected->0.project@;
            &&& store.contexts.contains_key(key)
            &&& key.selection_scope is Some && equal_ci(key.selection_scope->0, scope)
            &&& key.selection_project is Some && equal_ci(key.selection_project->0, project)
            &&& store.contexts[key].context.project_file is Some ==> equal_ci(
                store.contexts[key].context.project_file->0@,
                project,
            )
        }),
        around.selected is None && key.selection_scope is None ==> matches_selections(
            store,
            key,
            selections,
            around,
        ),
        around.selected is None && key.selection_scope is Some && selections.contains_key(
            key.selection_scope->0,
        ) ==> (matches_selections(store, key, selections, around) <==> key.selection_project is Some
            && equal_ci(key.selection_project->0, selections[key.selection_scope->0]@)),
        around.selected is None && key.selection_scope is Some && !selections.contains_key(
            key.selection_scope->0,
        ) ==> (matches_selections(store, key, selections, around)
            <==> key.selection_project is None),
{
}

/// The search for a document's context begins with the one that it is open in, if that is
/// known, and with a new search if not; else with the one that it is read in; else with its
/// owner.
pub proof fn law_where_the_search_for_a_context_begins(store: StoreView, uri: Seq<char>)
    ensures
        ({
            let opened = store.open_document_contexts;
            let read = store.document_contexts;
            let start = search_start(store, uri);
            &&& opened.contains_key(uri) && store.contexts.contains_key(opened[uri]) ==> start
                == (StartView::Check { key: opened[uri], open: true })
            &&& opened.contains_key(uri) && !store.contexts.contains_key(opened[uri]) ==> start
                == (StartView::Owner { rediscover: true })
            &&& !opened.contains_key(uri) && read.contains_key(uri) && store.contexts.contains_key(
                read[uri],
            ) ==> start == (StartView::Check { key: read[uri], open: false })
            &&& !opened.contains_key(uri) && !(read.contains_key(uri)
                && store.contexts.contains_key(read[uri])) ==> start == (StartView::Owner {
                rediscover: false,
            })
        }),
{
}

/// An owner is restored exactly where it was chosen, does not follow the current project file,
/// and is asked for again or still the choice. It is used as it is exactly where it was found by
/// itself, is not asked for again, and where the source has lost its file and nothing else
/// changed. Else the project is looked for anew.
pub proof fn law_what_is_done_with_an_owner(
    owner: Option<OwnerView>,
    rediscover: bool,
    current: bool,
    overlaid: bool,
    fresh: bool,
)
    ensures
        owner_step(owner, rediscover, current, overlaid, fresh) == OwnerStep::Restore
            <==> owner is Some && owner->0.origin != OwnerOrigin::Automatic
            && !owner->0.follow_current_project_file && (rediscover || current),
        owner_step(owner, rediscover, current, overlaid, fresh) == OwnerStep::Reuse
            <==> owner is Some && owner->0.origin == OwnerOrigin::Automatic && !rediscover
            && overlaid && fresh,
        owner is None ==> owner_step(owner, rediscover, current, overlaid, fresh)
            == OwnerStep::Discover,
{
}

/// A document that is loaded for another is read in its owner's context while the choice of it
/// holds, as it is or found anew; in the given one otherwise, unless something else is chosen for
/// it.
pub proof fn law_which_context_a_loaded_document_is_read_in(
    store: StoreView,
    uri: Seq<char>,
    given: KeyView,
    selections: Map<Parts, FilePath>,
    around: Surroundings,
    fresh: bool,
)
    ensures
        ({
            let choice = effective_choice(store, uri, given, selections, around, fresh);
            let holds = uri_path(uri) is Some && store.owners.contains_key(uri)
                && selection_current(store.owners[uri], selections, around);
            let chosen = uri_path(uri) is Some && around.selected is Some;
            &&& holds ==> choice == (if fresh {
                EffectiveChoice::Owner
            } else {
                EffectiveChoice::Rediscover
            })
            &&& !holds && !chosen ==> choice == EffectiveChoice::Given
            &&& !holds && chosen ==> (choice == EffectiveChoice::Given <==> matches_selections(
                store,
                given,
                selections,
                around,
            ))
            &&& !holds && chosen && choice != EffectiveChoice::Given ==> choice
                == EffectiveChoice::Find
        }),
{
}

/// The key of a source's project names the project's file and settings as they were found, the
/// folder that the source lies in, the selection that applies, and as its scope the directory of
/// the project's file, else that of the selection, else the nearest one with candidates.
pub proof fn law_what_a_key_names(
    roots: Seq<WorkspaceRoot>,
    path: Parts,
    context: Option<ProjectContext>,
    around: Surroundings,
)
    ensures
        ({
            let key = key_of(roots, path, context, around);
            let file = context->0.project_file;
            let own = context is Some && file is Some && parent_of(file->0@) is Some;
            &&& key.workspace_root == folder_of(roots, path)
            &&& context is Some ==> key.project_file == optional_parts(file) && key.config
                == optional_text(context->0.config) && key.platform == optional_text(
                context->0.platform,
            ) && key.conditional_context == context->0.conditional_context@ && key.overrides
                == context->0.overrides@
            &&& context is None ==> key.project_file is None && key.config is None
                && key.platform is None
            &&& around.selected is Some ==> key.selection_scope == Some(around.selected->0.scope@)
                && key.selection_project == Some(around.selected->0.project@)
            &&& around.selected is None ==> key.selection_scope is None
                && key.selection_project is None
            &&& own ==> key.project_scope == parent_of(file->0@)
            &&& !own && around.selected is Some ==> key.project_scope == Some(
                around.selected->0.scope@,
            )
            &&& !own && around.selected is None ==> key.project_scope == optional_parts(
                around.directory,
            )
        }),
{
}

/// A project that is found again for its owner stays where it was and as it was chosen.
pub proof fn law_an_owner_keeps_its_place(owner: KeyView, found: KeyView)
    ensures
        owner.workspace_root is Some ==> owner_key(owner, found).workspace_root
            == owner.workspace_root,
        owner.workspace_root is None ==> owner_key(owner, found).workspace_root
            == found.workspace_root,
        owner.project_scope is Some ==> owner_key(owner, found).project_scope
            == owner.project_scope,
        owner.project_scope is None ==> owner_key(owner, found).project_scope
            == found.project_scope,
        owner_key(owner, found).selection_scope == owner.selection_scope,
        owner_key(owner, found).selection_project == owner.selection_project,
        owner_key(owner, found).project_file == found.project_file,
        owner_key(owner, found).config == found.config,
        owner_key(owner, found).platform == found.platform,
{
}

/// A chosen project is found again exactly where it is still a candidate; it is gone where it is
/// not. Without a choice the owner's project file counts, and without that whatever is current.
pub proof fn law_how_a_project_is_found_again(
    owner: KeyView,
    status: CandidateStatus,
    r: Rediscovery,
)
    requires
        rediscovered(owner, status, r),
    ensures
        ({
            let chosen = owner.selection_scope is Some && owner.selection_project is Some;
            &&& chosen ==> (r is Project <==> status is Current) && (r is Gone <==> !(
            status is Current))
            &&& chosen && r is Project ==> r->Project_0@ == owner.selection_project->0
            &&& r is Gone ==> r->key@.project_file is None && r->key@.selection_scope
                == owner.selection_scope && r->key@.project_scope == owner.selection_scope
                && r->metadata_file@ == owner.selection_project->0 && r->warnings@.len() > 0
            &&& !chosen && owner.project_file is Some ==> r is Project && r->Project_0@
                == owner.project_file->0
            &&& !chosen && owner.project_file is None ==> r is Current
        }),
{
    if r is Gone {
        assert(texts(r->warnings@).len() == r->warnings@.len());
    }
}

/// The configuration of a source is looked for in the directory of its project's file, else in
/// the scope of its key, else in that of the selection, else in the nearest directory with
/// candidates.
pub proof fn law_where_configuration_is_looked_for(
    context: ProjectContext,
    key: Option<KeyView>,
    around: Surroundings,
)
    ensures
        ({
            let file = context.project_file;
            let own = file is Some && parent_of(file->0@) is Some;
            let scoped = key is Some && key->0.project_scope is Some;
            let directory = configuration_directory(context, key, around);
            &&& own ==> directory == parent_of(file->0@)
            &&& !own && scoped ==> directory == key->0.project_scope
            &&& !own && !scoped && around.selected is Some ==> directory == Some(
                around.selected->0.scope@,
            )
            &&& !own && !scoped && around.selected is None ==> directory == optional_parts(
                around.directory,
            )
        }),
{
}

/// Exactly those contexts are kept that a document is read in, open or not, and nothing else of
/// what is known changes.
pub proof fn law_contexts_in_use_are_kept(store: StoreView, key: KeyView, uri: Seq<char>)
    ensures
        store.document_contexts.contains_key(uri) && store.document_contexts[uri] == key
            && store.contexts.contains_key(key) ==> pruned(store).contexts.contains_key(key),
        store.open_document_contexts.contains_key(uri) && store.open_document_contexts[uri] == key
            && store.contexts.contains_key(key) ==> pruned(store).contexts.contains_key(key),
        pruned(store).contexts.contains_key(key) ==> store.contexts.contains_key(key)
            && pruned(store).contexts[key] == store.contexts[key],
        pruned(store).contexts.contains_key(key) ==> (exists|u: Seq<char>| #[trigger]
            store.document_contexts.contains_key(u) && store.document_contexts[u] == key) || (
        exists|u: Seq<char>| #[trigger]
            store.open_document_contexts.contains_key(u) && store.open_document_contexts[u]
                == key),
        pruned(store).document_contexts == store.document_contexts,
        pruned(store).open_document_contexts == store.open_document_contexts,
        pruned(store).owners == store.owners,
{
    if pruned(store).contexts.contains_key(key) {
        assert(in_use(store, key));
    }
    if store.document_contexts.contains_key(uri) && store.document_contexts[uri] == key {
        assert(in_use(store, key));
    }
    if store.open_document_contexts.contains_key(uri) && store.open_document_contexts[uri] == key {
        assert(in_use(store, key));
    }
}

/// What a change to all owners does to one: routes are forgotten by every change of the
/// workspace; an owner is looked at again where its options changed, where everything is, or
/// where its own context does not hold any more; it follows the current project file only where
/// that changed and where nothing was chosen for it; and it takes up a new state only in its own
/// context. Its key and how it came to be stay.
pub proof fn law_what_a_change_to_all_owners_does(owner: OwnerView, change: OwnerChange)
    ensures
        ({
            let after = changed_owner(owner, change);
            &&& after.key == owner.key && after.origin == owner.origin
            &&& change is ForgetRoutes ==> after.legacy_route is None && after.needs_revalidation
                == owner.needs_revalidation && after.state == owner.state
            &&& change is Revalidate ==> after.legacy_route is None && after.needs_revalidation
                && after.follow_current_project_file == owner.follow_current_project_file
            &&& change is OptionsChanged ==> after.needs_revalidation && after.legacy_route is None
                && (after.follow_current_project_file <==> owner.follow_current_project_file || (
            change->OptionsChanged_0 && owner.key.selection_scope is None))
            &&& change is Refresh ==> after.legacy_route == owner.legacy_route
                && after.needs_revalidation == owner.needs_revalidation
            &&& change is Invalidate ==> (change->Invalidate_0@.contains_key(owner.key)
                ==> after.needs_revalidation && after.legacy_route is None) && (
            !change->Invalidate_0@.contains_key(owner.key) ==> after == owner)
        }),
{
}

/// A document that is read in a context is read in that one from then on, and open in it where
/// it is open; other documents are read where they were.
pub proof fn law_a_document_is_read_in_the_context_it_was_given(
    store: StoreView,
    open: Map<Seq<char>, DocumentView>,
    uri: Seq<char>,
    key: KeyView,
    other: Seq<char>,
)
    requires
        other != uri,
    ensures
        bound(store, open, uri, key).document_contexts.contains_key(uri),
        bound(store, open, uri, key).document_contexts[uri] == key,
        open.contains_key(uri) ==> bound(store, open, uri, key).open_document_contexts.contains_key(
            uri,
        ) && bound(store, open, uri, key).open_document_contexts[uri] == key,
        !open.contains_key(uri) ==> bound(store, open, uri, key).open_document_contexts
            == store.open_document_contexts,
        bound(store, open, uri, key).document_contexts.contains_key(other)
            == store.document_contexts.contains_key(other),
        bound(store, open, uri, key).document_contexts[other] == store.document_contexts[other],
        bound(store, open, uri, key).owners == store.owners,
        bound(store, open, uri, key).contexts == store.contexts,
{
}

/// An owner keeps how it came to be. A new one was chosen where the document is open and
/// something was chosen for it or a project is configured; found by itself where it is open and
/// not; and handed down where it is not open.
pub proof fn law_how_an_owner_comes_to_be(
    store: StoreView,
    open: Map<Seq<char>, DocumentView>,
    uri: Seq<char>,
    key: KeyView,
    configured: bool,
)
    ensures
        store.owners.contains_key(uri) ==> known_origin(store, open, uri, key, configured)
            == store.owners[uri].origin,
        !store.owners.contains_key(uri) && !open.contains_key(uri) ==> known_origin(
            store,
            open,
            uri,
            key,
            configured,
        ) == OwnerOrigin::Inherited,
        !store.owners.contains_key(uri) && open.contains_key(uri) ==> (known_origin(
            store,
            open,
            uri,
            key,
            configured,
        ) == OwnerOrigin::Explicit <==> key.selection_scope is Some || configured) && (known_origin(
            store,
            open,
            uri,
            key,
            configured,
        ) == OwnerOrigin::Automatic <==> key.selection_scope is None && !configured),
{
}

} // verus!
