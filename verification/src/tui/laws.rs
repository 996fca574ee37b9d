//! What the engine's search guarantees, as the result list shows it.

use vstd::prelude::*;
use crate::engine::lexical::{
    EntryView, hit_of, lemma_search_holds, lemma_search_sound, search, selects,
};
use crate::engine::model::Filters;
use crate::engine::query::ClauseView;
use crate::engine::registry::RepositoryView;
use crate::engine::searcher::{from_hit, lexical_results};
use crate::tui::app::{AppView, row_of, rows_of};
use crate::tui::views::search::{PaneView, heading_pieces, item_of, items_of, pane_of};

verus! {

/// What the search finds is listed: where the rows are those of the
/// results of a lexical search and a query is typed, the pane is the
/// result list, and for every chunk that passes the filters and matches
/// it has an item under the heading of that chunk's repository and file.
pub proof fn lemma_found_is_listed(
    lex: Seq<EntryView>,
    q: Seq<ClauseView>,
    f: Filters,
    i: int,
    repos: Seq<RepositoryView>,
    app: AppView,
    width: u16,
)
    requires
        0 <= i < lex.len(),
        selects(lex[i], q, f),
        app.search_input.len() > 0,
        app.search_results == rows_of(lexical_results(lex, q, f), repos),
    ensures
        pane_of(app, width) is Results,
        exists|k: int|
            0 <= k < app.search_results.len() && (#[trigger] items_of(app, width)[k]).heading
                == heading_pieces(row_of(from_hit(hit_of(lex, lex[i], q)), repos)),
{
    lemma_search_holds(lex, q, f, i);
    let hits = search(lex, q, f);
    let h = hit_of(lex, lex[i], q);
    let k = choose|k: int| 0 <= k < hits.len() && hits[k] == h;
    assert(lexical_results(lex, q, f)[k] == from_hit(h));
    assert(app.search_results[k] == row_of(from_hit(h), repos));
    assert(items_of(app, width)[k] == item_of(app, k, width));
}

/// What is not indexed is not listed: where the index holds no chunk of
/// a repository, no result of a lexical search is of that repository,
/// and every row is the row of a result of another one.
pub proof fn lemma_absent_repository_not_listed(
    lex: Seq<EntryView>,
    q: Seq<ClauseView>,
    f: Filters,
    repo_id: u64,
)
    requires
        forall|i: int| 0 <= i < lex.len() ==> (#[trigger] lex[i]).meta.repo_id != repo_id,
    ensures
        forall|k: int|
            0 <= k < lexical_results(lex, q, f).len() ==> (#[trigger] lexical_results(
                lex,
                q,
                f,
            )[k]).meta.repo_id != repo_id,
{
    lemma_search_sound(lex, q, f);
    let hits = search(lex, q, f);
    assert forall|k: int| 0 <= k < lexical_results(lex, q, f).len() implies (
    #[trigger] lexical_results(lex, q, f)[k]).meta.repo_id != repo_id by {
        let i = choose|i: int|
            0 <= i < lex.len() && selects(lex[i], q, f) && #[trigger] hits[k] == hit_of(
                lex,
                lex[i],
                q,
            );
        assert(lex[i].meta.repo_id != repo_id);
        assert(lexical_results(lex, q, f)[k] == from_hit(hits[k]));
    }
}

/// The list shows the results as they are ranked: item `k` is the item of
/// result `k`, whatever the selection and the width, so that the view
/// neither sorts nor merges nor drops a result.
pub proof fn lemma_list_keeps_the_ranking(app: AppView, width: u16, k: int)
    requires
        app.search_input.len() > 0,
        0 <= k < app.search_results.len(),
    ensures
        pane_of(app, width) matches PaneView::Results { block, items } && items.len()
            == app.search_results.len() && items[k].heading == heading_pieces(
            app.search_results[k],
        ),
{
    assert(items_of(app, width)[k] == item_of(app, k, width));
}

} // verus!
