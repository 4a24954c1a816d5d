//! The result aggregator: the one place where the results of all workers
//! come together. It keeps one result for each file path, in the order in
//! which they were accepted, and never a result without a match.

use vstd::prelude::*;
use vstd::hash_set::StringHashSet;
use crate::content::{file_matches, models, Match, MatchModel, NUL};
use crate::error::SearchError;

verus! {

/// The matches of one file.
#[derive(Clone, Debug)]
pub struct SearchResult {
    /// The file's canonical path.
    pub file_path: String,
    /// The file's matches, in line order.
    pub matches: Vec<Match>,
}

/// What a [`SearchResult`] says.
pub ghost struct ResultModel {
    pub file_path: Seq<char>,
    pub matches: Seq<MatchModel>,
}

impl View for SearchResult {
    type V = ResultModel;

    open spec fn view(&self) -> ResultModel {
        ResultModel { file_path: self.file_path@, matches: models(self.matches@) }
    }
}

/// The models of a sequence of results, in order.
pub open spec fn result_models(v: Seq<SearchResult>) -> Seq<ResultModel> {
    Seq::new(v.len(), |i: int| v[i]@)
}

/// Whether some result of `rs` is for the file at `path`.
pub open spec fn has_path(rs: Seq<ResultModel>, path: Seq<char>) -> bool {
    exists|i: int| 0 <= i < rs.len() && (#[trigger] rs[i]).file_path == path
}

/// What holds of every aggregate: no result is without a match, and no two
/// results are for the same file.
pub open spec fn results_ok(rs: Seq<ResultModel>) -> bool {
    &&& forall|i: int| 0 <= i < rs.len() ==> (#[trigger] rs[i]).matches.len() > 0
    &&& forall|i: int, j: int|
        0 <= i < j < rs.len() ==> (#[trigger] rs[i]).file_path != (#[trigger] rs[j]).file_path
}

/// Whether a result is turned away as an error: it has matches, and its
/// file already has a result.
pub open spec fn refuses(rs: Seq<ResultModel>, r: ResultModel) -> bool {
    r.matches.len() > 0 && has_path(rs, r.file_path)
}

/// The aggregate after `r` was offered: `r` joins at the end if it has a
/// match and its file has no result yet; otherwise nothing changes.
pub open spec fn offer(rs: Seq<ResultModel>, r: ResultModel) -> Seq<ResultModel> {
    if r.matches.len() == 0 || has_path(rs, r.file_path) {
        rs
    } else {
        rs.push(r)
    }
}

/// The aggregate after each result of `offered` was offered in turn.
pub open spec fn offer_all(rs: Seq<ResultModel>, offered: Seq<ResultModel>) -> Seq<ResultModel>
    decreases offered.len(),
{
    if offered.len() == 0 {
        rs
    } else {
        offer(offer_all(rs, offered.drop_last()), offered.last())
    }
}

/// Offering never loses a result: what was held before is held after, at
/// the same place.
pub proof fn lemma_offer_keeps_all(rs: Seq<ResultModel>, r: ResultModel)
    ensures
        rs.len() <= offer(rs, r).len(),
        forall|k: int| 0 <= k < rs.len() ==> (#[trigger] offer(rs, r)[k]) == rs[k],
{
}

/// Offering keeps an aggregate sound.
pub proof fn lemma_offer_ok(rs: Seq<ResultModel>, r: ResultModel)
    requires
        results_ok(rs),
    ensures
        results_ok(offer(rs, r)),
{
    let out = offer(rs, r);
    if out != rs {
        assert forall|i: int, j: int| 0 <= i < j < out.len() implies (#[trigger] out[i]).file_path != (
        #[trigger] out[j]).file_path by {
            if j == rs.len() {
                assert(out[i] == rs[i]);
            } else {
                assert(out[i] == rs[i] && out[j] == rs[j]);
            }
        }
    }
}

/// Offering any number of results keeps an aggregate sound.
pub proof fn lemma_offer_all_ok(rs: Seq<ResultModel>, offered: Seq<ResultModel>)
    requires
        results_ok(rs),
    ensures
        results_ok(offer_all(rs, offered)),
    decreases offered.len(),
{
    if offered.len() > 0 {
        lemma_offer_all_ok(rs, offered.drop_last());
        lemma_offer_ok(offer_all(rs, offered.drop_last()), offered.last());
    }
}

/// The result of a file with a NUL byte never enters an aggregate, whatever
/// else the file holds.
pub proof fn lemma_binary_never_reported(
    rs: Seq<ResultModel>,
    path: Seq<char>,
    pattern: Seq<char>,
    bytes: Seq<u8>,
)
    requires
        bytes.contains(NUL),
    ensures
        offer(rs, ResultModel { file_path: path, matches: file_matches(pattern, bytes) }) == rs,
{
}

/// Where every file offered has a match and no file is offered twice, the
/// aggregate holds exactly the results offered: as many as there were files,
/// each with the matches of its file.
pub proof fn lemma_each_file_once(offered: Seq<ResultModel>)
    requires
        results_ok(offered),
    ensures
        offer_all(Seq::empty(), offered) == offered,
    decreases offered.len(),
{
    if offered.len() > 0 {
        let init = offered.drop_last();
        let last = offered.last();
        assert forall|i: int, j: int| 0 <= i < j < init.len() implies (#[trigger] init[i]).file_path != (
        #[trigger] init[j]).file_path by {
            assert(init[i] == offered[i] && init[j] == offered[j]);
        }
        assert forall|i: int| 0 <= i < init.len() implies (#[trigger] init[i]).matches.len() > 0 by {
            assert(init[i] == offered[i]);
        }
        lemma_each_file_once(init);
        assert(!has_path(init, last.file_path)) by {
            if has_path(init, last.file_path) {
                let i = choose|i: int| 0 <= i < init.len() && (#[trigger] init[i]).file_path == last.file_path;
                assert(init[i] == offered[i]);
                assert(offered[i].file_path != offered[offered.len() - 1].file_path);
            }
        }
        assert(offered[offered.len() - 1].matches.len() > 0);
        assert(init.push(last) =~= offered);
    } else {
        assert(offered =~= Seq::<ResultModel>::empty());
    }
}

/// What an aggregate holds, as a set, is what was offered with a match:
/// the order of offering does not show in it.
pub proof fn lemma_offer_all_as_set(offered: Seq<ResultModel>)
    requires
        forall|i: int, j: int|
            0 <= i < j < offered.len() ==> (#[trigger] offered[i]).file_path != (
            #[trigger] offered[j]).file_path,
    ensures
        forall|r: ResultModel|
            offer_all(Seq::empty(), offered).contains(r) <==> (offered.contains(r) && r.matches.len()
                > 0),
    decreases offered.len(),
{
    let out = offer_all(Seq::empty(), offered);
    if offered.len() > 0 {
        let init = offered.drop_last();
        let last = offered.last();
        let mid = offer_all(Seq::empty(), init);
        assert forall|i: int, j: int| 0 <= i < j < init.len() implies (#[trigger] init[i]).file_path != (
        #[trigger] init[j]).file_path by {
            assert(init[i] == offered[i] && init[j] == offered[j]);
        }
        lemma_offer_all_as_set(init);
        assert(!has_path(mid, last.file_path)) by {
            if has_path(mid, last.file_path) {
                let k = choose|k: int| 0 <= k < mid.len() && (#[trigger] mid[k]).file_path == last.file_path;
                assert(mid.contains(mid[k]));
                assert(init.contains(mid[k]));
                let i = choose|i: int| 0 <= i < init.len() && init[i] == mid[k];
                assert(init[i] == offered[i]);
                assert(offered[i].file_path != offered[offered.len() - 1].file_path);
            }
        }
        assert forall|r: ResultModel| out.contains(r) <==> (offered.contains(r) && r.matches.len()
            > 0) by {
            if out.contains(r) {
                let k = choose|k: int| 0 <= k < out.len() && out[k] == r;
                if k < mid.len() {
                    assert(mid[k] == r);
                    assert(mid.contains(r));
                    assert(init.contains(r));
                    let i = choose|i: int| 0 <= i < init.len() && init[i] == r;
                    assert(offered[i] == r);
                } else {
                    assert(r == last);
                    assert(offered[offered.len() - 1] == r);
                }
            }
            if offered.contains(r) && r.matches.len() > 0 {
                let i = choose|i: int| 0 <= i < offered.len() && offered[i] == r;
                if i < init.len() {
                    assert(init[i] == r);
                    assert(init.contains(r));
                    assert(mid.contains(r));
                    let k = choose|k: int| 0 <= k < mid.len() && mid[k] == r;
                    assert(out[k] == r);
                } else {
                    assert(out[out.len() - 1] == r);
                }
            }
        }
    }
}

/// Two runs that offer the same results, in whatever order, end with the
/// same set of results.
pub proof fn lemma_order_does_not_show(first: Seq<ResultModel>, second: Seq<ResultModel>)
    requires
        forall|i: int, j: int|
            0 <= i < j < first.len() ==> (#[trigger] first[i]).file_path != (#[trigger] first[j]).file_path,
        forall|i: int, j: int|
            0 <= i < j < second.len() ==> (#[trigger] second[i]).file_path != (
            #[trigger] second[j]).file_path,
        first.to_set() == second.to_set(),
    ensures
        offer_all(Seq::empty(), first).to_set() == offer_all(Seq::empty(), second).to_set(),
{
    lemma_offer_all_as_set(first);
    lemma_offer_all_as_set(second);
    let a = offer_all(Seq::empty(), first);
    let b = offer_all(Seq::empty(), second);
    assert forall|r: ResultModel| a.to_set().contains(r) <==> b.to_set().contains(r) by {
        assert(first.contains(r) <==> first.to_set().contains(r));
        assert(second.contains(r) <==> second.to_set().contains(r));
        assert(a.contains(r) <==> a.to_set().contains(r));
        assert(b.contains(r) <==> b.to_set().contains(r));
    }
    assert(a.to_set() =~= b.to_set());
}

/// The aggregator of a content search.
pub struct ResultAggregator {
    results: Vec<SearchResult>,
    paths: StringHashSet,
}

impl View for ResultAggregator {
    type V = Seq<ResultModel>;

    closed spec fn view(&self) -> Seq<ResultModel> {
        result_models(self.results@)
    }
}

impl ResultAggregator {
    /// The aggregator's invariant.
    pub closed spec fn wf(&self) -> bool {
        &&& results_ok(self@)
        &&& forall|p: Seq<char>| self.paths@.contains(p) <==> has_path(self@, p)
    }

    /// In every state the aggregate is sound.
    pub proof fn lemma_results_ok(&self)
        requires
            self.wf(),
        ensures
            results_ok(self@),
    {
    }

    /// An aggregator that holds nothing yet.
    pub fn new() -> (r: ResultAggregator)
        ensures
            r.wf(),
            r@ == Seq::<ResultModel>::empty(),
    {
        let r = ResultAggregator { results: Vec::new(), paths: StringHashSet::new() };
        proof {
            assert(r@ =~= Seq::<ResultModel>::empty());
        }
        r
    }

    /// The number of results held.
    pub fn len(&self) -> (r: usize)
        ensures
            r == self@.len(),
    {
        self.results.len()
    }

    /// Offers the result of one file. `Ok(true)`: it was taken. `Ok(false)`:
    /// it has no match and was dropped. `Internal`: its file already has a
    /// result; nothing changes.
    pub fn accept(&mut self, result: SearchResult) -> (r: Result<bool, SearchError>)
        requires
            old(self).wf(),
        ensures
            final(self).wf(),
            final(self)@ == offer(old(self)@, result@),
            match r {
                Ok(taken) => !refuses(old(self)@, result@) && taken == (result@.matches.len() > 0),
                Err(e) => refuses(old(self)@, result@) && e == SearchError::Internal,
            },
    {
        if result.matches.len() == 0 {
            return Ok(false);
        }
        if self.paths.contains(result.file_path.as_str()) {
            return Err(SearchError::Internal);
        }
        let ghost before = self@;
        let _ = self.paths.insert(result.file_path.clone());
        self.results.push(result);
        proof {
            assert(self@ =~= before.push(result@));
            lemma_offer_ok(before, result@);
            assert forall|p: Seq<char>| self.paths@.contains(p) <==> has_path(self@, p) by {
                if has_path(self@, p) {
                    let i = choose|i: int| 0 <= i < self@.len() && (#[trigger] self@[i]).file_path == p;
                    if i < before.len() {
                        assert(before[i].file_path == p);
                        assert(has_path(before, p));
                    } else {
                        assert(self@[i] == result@);
                    }
                }
                if self.paths@.contains(p) {
                    if p == result@.file_path {
                        assert(self@[self@.len() - 1].file_path == p);
                    } else {
                        assert(has_path(before, p));
                        let i = choose|i: int| 0 <= i < before.len() && (#[trigger] before[i]).file_path == p;
                        assert(self@[i].file_path == p);
                    }
                }
            }
        }
        Ok(true)
    }

    /// Ends the aggregation and gives the results, in the order in which
    /// they were taken.
    pub fn finalize(self) -> (r: Vec<SearchResult>)
        requires
            self.wf(),
        ensures
            result_models(r@) == self@,
            results_ok(result_models(r@)),
    {
        self.results
    }
}

/// Whether `paths` holds no path twice.
pub open spec fn paths_distinct(paths: Seq<Seq<char>>) -> bool {
    forall|i: int, j: int| 0 <= i < j < paths.len() ==> #[trigger] paths[i] != #[trigger] paths[j]
}

/// The aggregator of a file name search: the paths of the files whose name
/// matched, each once, in the order in which they were accepted.
pub struct PathAggregator {
    found: Vec<String>,
    paths: StringHashSet,
}

impl View for PathAggregator {
    type V = Seq<Seq<char>>;

    closed spec fn view(&self) -> Seq<Seq<char>> {
        Seq::new(self.found@.len(), |i: int| self.found@[i]@)
    }
}

impl PathAggregator {
    /// The aggregator's invariant.
    pub closed spec fn wf(&self) -> bool {
        &&& paths_distinct(self@)
        &&& forall|p: Seq<char>| self.paths@.contains(p) <==> self@.contains(p)
    }

    /// In every state no path is held twice.
    pub proof fn lemma_paths_distinct(&self)
        requires
            self.wf(),
        ensures
            paths_distinct(self@),
    {
    }

    /// An aggregator that holds nothing yet.
    pub fn new() -> (r: PathAggregator)
        ensures
            r.wf(),
            r@ == Seq::<Seq<char>>::empty(),
    {
        let r = PathAggregator { found: Vec::new(), paths: StringHashSet::new() };
        proof {
            assert(r@ =~= Seq::<Seq<char>>::empty());
        }
        r
    }

    /// Offers the path of a file whose name matched. Fails with `Internal`,
    /// and changes nothing, if the path is already held.
    pub fn accept(&mut self, path: String) -> (r: Result<(), SearchError>)
        requires
            old(self).wf(),
        ensures
            final(self).wf(),
            match r {
                Ok(()) => !old(self)@.contains(path@) && final(self)@ == old(self)@.push(path@),
                Err(e) => old(self)@.contains(path@) && e == SearchError::Internal && final(self)@
                    == old(self)@,
            },
    {
        if self.paths.contains(path.as_str()) {
            return Err(SearchError::Internal);
        }
        let ghost before = self@;
        let _ = self.paths.insert(path.clone());
        self.found.push(path);
        proof {
            assert(self@ =~= before.push(path@));
            assert forall|p: Seq<char>| self.paths@.contains(p) <==> self@.contains(p) by {
                if self@.contains(p) {
                    let i = choose|i: int| 0 <= i < self@.len() && self@[i] == p;
                    if i < before.len() {
                        assert(before[i] == p);
                        assert(before.contains(p));
                    }
                }
                if self.paths@.contains(p) {
                    if p == path@ {
                        assert(self@[self@.len() - 1] == p);
                    } else {
                        assert(before.contains(p));
                        let i = choose|i: int| 0 <= i < before.len() && before[i] == p;
                        assert(self@[i] == p);
                    }
                }
            }
            assert forall|i: int, j: int| 0 <= i < j < self@.len() implies #[trigger] self@[i]
                != #[trigger] self@[j] by {
                if j == before.len() {
                    assert(before[i] == self@[i]);
                    assert(before.contains(self@[i]));
                } else {
                    assert(before[i] == self@[i] && before[j] == self@[j]);
                }
            }
        }
        Ok(())
    }

    /// Ends the aggregation and gives the paths, in the order in which they
    /// were taken.
    pub fn finalize(self) -> (r: Vec<String>)
        requires
            self.wf(),
        ensures
            crate::rules::texts(r@) == self@,
            paths_distinct(crate::rules::texts(r@)),
    {
        proof {
            assert(crate::rules::texts(self.found@) =~= self@);
        }
        self.found
    }
}

} // verus!
