use vstd::prelude::*;

use crate::documents::{opt_view, Dependency, DocumentData};

verus! {

/// The files kept in memory, each under the URL it was loaded from.
pub struct DocumentCache {
    entries: Vec<(String, DocumentData)>,
}

/// No URL occurs twice among the entries.
pub open spec fn keys_distinct(e: Seq<(String, DocumentData)>) -> bool {
    forall|i: int, j: int| 0 <= i < j < e.len() ==> (#[trigger] e[i]).0@ != (#[trigger] e[j]).0@
}

/// The map from URL to document that the entries make up.
pub open spec fn entries_map(e: Seq<(String, DocumentData)>) -> Map<Seq<char>, DocumentData>
    decreases e.len(),
{
    if e.len() == 0 {
        Map::empty()
    } else {
        entries_map(e.drop_last()).insert(e.last().0@, e.last().1)
    }
}

proof fn lemma_entries_map_absent(e: Seq<(String, DocumentData)>, k: Seq<char>)
    requires
        forall|i: int| 0 <= i < e.len() ==> (#[trigger] e[i]).0@ != k,
    ensures
        !entries_map(e).contains_key(k),
    decreases e.len(),
{
    if e.len() > 0 {
        lemma_entries_map_absent(e.drop_last(), k);
    }
}

proof fn lemma_entries_map_index(e: Seq<(String, DocumentData)>, i: int)
    requires
        keys_distinct(e),
        0 <= i < e.len(),
    ensures
        entries_map(e).contains_key(e[i].0@),
        entries_map(e)[e[i].0@] == e[i].1,
    decreases e.len(),
{
    if i < e.len() - 1 {
        assert(e[i].0@ != e[e.len() - 1].0@);
        lemma_entries_map_index(e.drop_last(), i);
    }
}

proof fn lemma_entries_map_remove(e: Seq<(String, DocumentData)>, i: int)
    requires
        keys_distinct(e),
        0 <= i < e.len(),
    ensures
        entries_map(e.remove(i)) == entries_map(e).remove(e[i].0@),
    decreases e.len(),
{
    let k = e[i].0@;
    if i == e.len() - 1 {
        assert(e.remove(i) == e.drop_last());
        assert forall|j: int| 0 <= j < e.drop_last().len() implies (#[trigger] e.drop_last()[j]).0@
            != k by {
            assert(e[j].0@ != e[i].0@);
        }
        lemma_entries_map_absent(e.drop_last(), k);
        assert(entries_map(e.drop_last()) =~= entries_map(e).remove(k));
    } else {
        let last = e.last();
        assert(e.remove(i).drop_last() == e.drop_last().remove(i));
        assert(e.remove(i).last() == last);
        lemma_entries_map_remove(e.drop_last(), i);
        assert(last.0@ != k);
        assert(entries_map(e.remove(i)) =~= entries_map(e).remove(k));
    }
}

/// What registering a document for a dependency with URL `url` makes of the map `m`: the
/// document is added under the URL unless the dependency has no URL or the URL is known.
pub open spec fn registered(
    m: Map<Seq<char>, DocumentData>,
    url: Option<Seq<char>>,
    document: DocumentData,
) -> Map<Seq<char>, DocumentData> {
    match url {
        Some(u) => if m.contains_key(u) {
            m
        } else {
            m.insert(u, document)
        },
        None => m,
    }
}

/// The URLs to load next for the dependencies with the URLs `urls`: those that are known and
/// not in `m`, each once, in the order in which they first appear.
pub open spec fn pending(m: Map<Seq<char>, DocumentData>, urls: Seq<Option<Seq<char>>>) -> Seq<
    Seq<char>,
>
    decreases urls.len(),
{
    if urls.len() == 0 {
        seq![]
    } else {
        let before = pending(m, urls.drop_last());
        match urls.last() {
            Some(u) => if !m.contains_key(u) && !before.contains(u) {
                before.push(u)
            } else {
                before
            },
            None => before,
        }
    }
}

/// The URLs of the dependencies `deps`.
pub open spec fn dependency_urls(deps: Seq<Dependency>) -> Seq<Option<Seq<char>>> {
    deps.map_values(|d: Dependency| d@.url)
}


/// What keeping the files `loaded`, one after the other, makes of the map `m`.
pub open spec fn inserted_all(
    m: Map<Seq<char>, DocumentData>,
    loaded: Seq<(String, DocumentData)>,
) -> Map<Seq<char>, DocumentData>
    decreases loaded.len(),
{
    if loaded.len() == 0 {
        m
    } else {
        inserted_all(m, loaded.drop_last()).insert(loaded.last().0@, loaded.last().1)
    }
}

/// The URLs of the dependencies of a document: none when it did not parse.
pub open spec fn document_urls(d: DocumentData) -> Seq<Option<Seq<char>>> {
    match d {
        DocumentData::Parsed { environment, .. } => dependency_urls(environment.dependencies@),
        DocumentData::NotParsed { .. } => seq![],
    }
}

/// The URLs of the dependencies of the files `loaded`, file after file.
pub open spec fn loaded_urls(loaded: Seq<(String, DocumentData)>) -> Seq<Option<Seq<char>>>
    decreases loaded.len(),
{
    if loaded.len() == 0 {
        seq![]
    } else {
        loaded_urls(loaded.drop_last()) + document_urls(loaded.last().1)
    }
}

/// The strings of `s` that are not among `excluded`, in order.
pub open spec fn without(s: Seq<Seq<char>>, excluded: Seq<Seq<char>>) -> Seq<Seq<char>>
    decreases s.len(),
{
    if s.len() == 0 {
        seq![]
    } else {
        let before = without(s.drop_last(), excluded);
        if excluded.contains(s.last()) {
            before
        } else {
            before.push(s.last())
        }
    }
}

/// The URLs to load in the next round, once the files of a round are kept in `m`: those of
/// the dependencies `urls` of these files that are pending, but for those that could not be
/// read (`excluded`).
pub open spec fn next_urls(
    m: Map<Seq<char>, DocumentData>,
    urls: Seq<Option<Seq<char>>>,
    excluded: Seq<Seq<char>>,
) -> Seq<Seq<char>> {
    without(pending(m, urls), excluded)
}

proof fn lemma_without(s: Seq<Seq<char>>, excluded: Seq<Seq<char>>)
    ensures
        forall|i: int|
            0 <= i < without(s, excluded).len() ==> s.contains(#[trigger] without(s, excluded)[i])
                && !excluded.contains(without(s, excluded)[i]),
        (forall|i: int, j: int| 0 <= i < j < s.len() ==> s[i] != s[j]) ==> forall|i: int, j: int|
            0 <= i < j < without(s, excluded).len() ==> #[trigger] without(s, excluded)[i]
                != #[trigger] without(s, excluded)[j],
    decreases s.len(),
{
    if s.len() > 0 {
        let init = s.drop_last();
        lemma_without(init, excluded);
        let b = without(init, excluded);
        let w = without(s, excluded);
        assert forall|i: int| 0 <= i < w.len() implies s.contains(#[trigger] w[i])
            && !excluded.contains(w[i]) by {
            if i < b.len() {
                assert(w[i] == b[i]);
                let k = choose|k: int| 0 <= k < init.len() && init[k] == b[i];
                assert(s[k] == init[k]);
            } else {
                assert(s[s.len() - 1] == w[i]);
            }
        }
        if forall|i: int, j: int| 0 <= i < j < s.len() ==> s[i] != s[j] {
            assert forall|i: int, j: int| 0 <= i < j < w.len() implies #[trigger] w[i]
                != #[trigger] w[j] by {
                if j < b.len() {
                    assert(w[i] == b[i] && w[j] == b[j]);
                    assert(forall|a: int, c: int| 0 <= a < c < init.len() ==> init[a] == s[a] && init[c] == s[c]);
                } else {
                    assert(w[i] == b[i]);
                    let k = choose|k: int| 0 <= k < init.len() && init[k] == b[i];
                    assert(s[k] == b[i]);
                    assert(w[j] == s.last());
                }
            }
        }
    }
}

/// A round never asks for a file that is kept or that could not be read, nor for one file
/// twice: every URL it names is a URL of one of the dependencies, and is named once.
pub proof fn lemma_next_round_fresh(
    m: Map<Seq<char>, DocumentData>,
    urls: Seq<Option<Seq<char>>>,
    excluded: Seq<Seq<char>>,
)
    ensures
        forall|i: int|
            0 <= i < next_urls(m, urls, excluded).len() ==> {
                let u = #[trigger] next_urls(m, urls, excluded)[i];
                &&& !m.contains_key(u)
                &&& !excluded.contains(u)
                &&& urls.contains(Some(u))
            },
        forall|i: int, j: int|
            0 <= i < j < next_urls(m, urls, excluded).len() ==> #[trigger] next_urls(
                m,
                urls,
                excluded,
            )[i] != #[trigger] next_urls(m, urls, excluded)[j],
{
    lemma_pending(m, urls);
    let p = pending(m, urls);
    lemma_without(p, excluded);
    let w = next_urls(m, urls, excluded);
    assert forall|i: int| 0 <= i < w.len() implies {
        let u = #[trigger] w[i];
        &&& !m.contains_key(u)
        &&& !excluded.contains(u)
        &&& urls.contains(Some(u))
    } by {
        assert(p.contains(w[i]));
        let k = choose|k: int| 0 <= k < p.len() && p[k] == w[i];
        assert(!m.contains_key(p[k]) && urls.contains(Some(p[k])));
    }
}

/// The URL of the `j`-th dependency of the document `d`, if it has one: a document that did not
/// parse has no dependencies.
pub open spec fn dependency_url(d: DocumentData, j: int) -> Option<Seq<char>> {
    match d {
        DocumentData::Parsed { environment, .. } => if 0 <= j < environment.dependencies.len() {
            environment.dependencies@[j]@.url
        } else {
            None
        },
        DocumentData::NotParsed { .. } => None,
    }
}

proof fn lemma_without_keeps(s: Seq<Seq<char>>, excluded: Seq<Seq<char>>, x: Seq<char>)
    requires
        s.contains(x),
        !excluded.contains(x),
    ensures
        without(s, excluded).contains(x),
    decreases s.len(),
{
    let init = s.drop_last();
    if s.last() == x {
        assert(without(s, excluded).last() == x);
    } else {
        let k = choose|k: int| 0 <= k < s.len() && s[k] == x;
        assert(init[k] == x);
        lemma_without_keeps(init, excluded, x);
        let b = without(init, excluded);
        let j = choose|j: int| 0 <= j < b.len() && b[j] == x;
        assert(without(s, excluded)[j] == x);
    }
}

/// The URLs of the dependencies of the loaded files are those of the dependencies of each of
/// them.
proof fn lemma_loaded_urls(loaded: Seq<(String, DocumentData)>)
    ensures
        forall|i: int, j: int|
            0 <= i < loaded.len() && (#[trigger] dependency_url(loaded[i].1, j)) is Some
                ==> loaded_urls(loaded).contains(dependency_url(loaded[i].1, j)),
        forall|u: Seq<char>|
            #[trigger] loaded_urls(loaded).contains(Some(u)) ==> exists|i: int, j: int|
                0 <= i < loaded.len() && #[trigger] dependency_url(loaded[i].1, j) == Some(u),
    decreases loaded.len(),
{
    if loaded.len() > 0 {
        let init = loaded.drop_last();
        let last = loaded.last();
        lemma_loaded_urls(init);
        let a = loaded_urls(init);
        let b = document_urls(last.1);
        assert(loaded_urls(loaded) == a + b);
        assert forall|i: int, j: int|
            0 <= i < loaded.len() && (#[trigger] dependency_url(loaded[i].1, j)) is Some
                implies loaded_urls(loaded).contains(dependency_url(loaded[i].1, j)) by {
            if i < init.len() {
                assert(init[i] == loaded[i]);
                assert(dependency_url(init[i].1, j) is Some);
                let x = choose|x: int| 0 <= x < a.len() && a[x] == dependency_url(init[i].1, j);
                assert((a + b)[x] == a[x]);
            } else {
                assert(loaded[i] == last);
                assert(b[j] == dependency_url(last.1, j));
                assert((a + b)[a.len() + j] == b[j]);
            }
        }
        assert forall|u: Seq<char>| #[trigger] loaded_urls(loaded).contains(Some(u)) implies exists|
            i: int,
            j: int,
        | 0 <= i < loaded.len() && #[trigger] dependency_url(loaded[i].1, j) == Some(u) by {
            let x = choose|x: int| 0 <= x < (a + b).len() && (a + b)[x] == Some(u);
            if x < a.len() {
                assert(a[x] == Some(u));
                assert(a.contains(Some(u)));
                let (i, j) = choose|i: int, j: int|
                    0 <= i < init.len() && #[trigger] dependency_url(init[i].1, j) == Some(u);
                assert(init[i] == loaded[i]);
                assert(dependency_url(loaded[i].1, j) == Some(u));
            } else {
                let j = x - a.len();
                assert(b[j] == Some(u));
                assert(loaded[loaded.len() - 1] == last);
                assert(dependency_url(loaded[loaded.len() - 1].1, j) == Some(u));
            }
        }
    }
}

/// A round follows the dependencies of every file it loaded, and nothing else: a URL is asked
/// for next exactly when it is the URL of a dependency of one of the loaded files, it is not
/// kept once the loaded files are, and its file was not found unreadable.
pub proof fn lemma_next_round_follows_every_file(
    m: Map<Seq<char>, DocumentData>,
    loaded: Seq<(String, DocumentData)>,
    excluded: Seq<Seq<char>>,
)
    ensures
        forall|i: int, j: int|
            0 <= i < loaded.len() && (#[trigger] dependency_url(loaded[i].1, j) matches Some(u)
                && !inserted_all(m, loaded).contains_key(u) && !excluded.contains(u))
                ==> next_urls(inserted_all(m, loaded), loaded_urls(loaded), excluded).contains(
                dependency_url(loaded[i].1, j)->0,
            ),
        forall|k: int|
            0 <= k < next_urls(inserted_all(m, loaded), loaded_urls(loaded), excluded).len()
                ==> {
                let u = #[trigger] next_urls(inserted_all(m, loaded), loaded_urls(loaded), excluded)[k];
                &&& !inserted_all(m, loaded).contains_key(u)
                &&& !excluded.contains(u)
                &&& exists|i: int, j: int|
                    0 <= i < loaded.len() && #[trigger] dependency_url(loaded[i].1, j) == Some(u)
            },
{
    let m1 = inserted_all(m, loaded);
    let urls = loaded_urls(loaded);
    lemma_loaded_urls(loaded);
    lemma_pending(m1, urls);
    lemma_next_round_fresh(m1, urls, excluded);
    assert forall|i: int, j: int|
        0 <= i < loaded.len() && (#[trigger] dependency_url(loaded[i].1, j) matches Some(u)
            && !m1.contains_key(u) && !excluded.contains(u)) implies next_urls(
        m1,
        urls,
        excluded,
    ).contains(dependency_url(loaded[i].1, j)->0) by {
        let u = dependency_url(loaded[i].1, j)->0;
        assert(urls.contains(Some(u)));
        assert(pending(m1, urls).contains(u));
        lemma_without_keeps(pending(m1, urls), excluded, u);
    }
}

/// Keeping the files of a round keeps every file kept before, unchanged, and adds each loaded
/// file under its URL: the files kept after the round are those kept before and those loaded.
/// With the URLs of a round new and distinct, the number of kept files grows by the number of
/// files loaded.
pub proof fn lemma_round_keeps_and_grows(
    m: Map<Seq<char>, DocumentData>,
    loaded: Seq<(String, DocumentData)>,
)
    requires
        m.dom().finite(),
        keys_distinct(loaded),
        forall|i: int| 0 <= i < loaded.len() ==> !m.contains_key(#[trigger] loaded[i].0@),
    ensures
        forall|k: Seq<char>|
            m.contains_key(k) ==> #[trigger] inserted_all(m, loaded).contains_key(k)
                && inserted_all(m, loaded)[k] == m[k],
        forall|i: int|
            0 <= i < loaded.len() ==> inserted_all(m, loaded).contains_key(
                (#[trigger] loaded[i]).0@,
            ) && inserted_all(m, loaded)[loaded[i].0@] == loaded[i].1,
        forall|k: Seq<char>|
            #[trigger] inserted_all(m, loaded).contains_key(k) ==> m.contains_key(k) || exists|
                i: int,
            | 0 <= i < loaded.len() && loaded[i].0@ == k,
        inserted_all(m, loaded).dom().finite(),
        inserted_all(m, loaded).dom().len() == m.dom().len() + loaded.len(),
    decreases loaded.len(),
{
    if loaded.len() > 0 {
        let init = loaded.drop_last();
        let last = loaded.last();
        assert forall|i: int, j: int| 0 <= i < j < init.len() implies (#[trigger] init[i]).0@
            != (#[trigger] init[j]).0@ by {
            assert(init[i] == loaded[i] && init[j] == loaded[j]);
        }
        assert forall|i: int| 0 <= i < init.len() implies !m.contains_key(
            #[trigger] init[i].0@,
        ) by {
            assert(init[i] == loaded[i]);
        }
        lemma_round_keeps_and_grows(m, init);
        let before = inserted_all(m, init);
        assert(last == loaded[loaded.len() - 1]);
        assert(!before.contains_key(last.0@)) by {
            if before.contains_key(last.0@) {
                if !m.contains_key(last.0@) {
                    let i = choose|i: int| 0 <= i < init.len() && init[i].0@ == last.0@;
                    assert(init[i] == loaded[i]);
                    assert(loaded[i].0@ != loaded[loaded.len() - 1].0@);
                }
            }
        }
        assert forall|i: int| 0 <= i < loaded.len() implies inserted_all(m, loaded).contains_key(
            (#[trigger] loaded[i]).0@,
        ) && inserted_all(m, loaded)[loaded[i].0@] == loaded[i].1 by {
            if i < loaded.len() - 1 {
                assert(init[i] == loaded[i]);
                assert(loaded[i].0@ != loaded[loaded.len() - 1].0@);
            }
        }
        assert forall|k: Seq<char>| #[trigger] inserted_all(m, loaded).contains_key(k) implies m.contains_key(
            k,
        ) || exists|i: int| 0 <= i < loaded.len() && loaded[i].0@ == k by {
            if k != last.0@ && !m.contains_key(k) {
                let i = choose|i: int| 0 <= i < init.len() && init[i].0@ == k;
                assert(init[i] == loaded[i]);
            }
        }
        assert forall|k: Seq<char>| m.contains_key(k) implies #[trigger] inserted_all(
            m,
            loaded,
        ).contains_key(k) && inserted_all(m, loaded)[k] == m[k] by {
            assert(k != last.0@);
        }
        assert(inserted_all(m, loaded).dom() == before.dom().insert(last.0@));
    }
}

/// Registering a document for a dependency whose URL is known and not kept yet keeps the
/// document under that URL and leaves every other URL as it was.
pub proof fn lemma_register_adds(
    m: Map<Seq<char>, DocumentData>,
    u: Seq<char>,
    document: DocumentData,
    k: Seq<char>,
)
    requires
        !m.contains_key(u),
    ensures
        registered(m, Some(u), document).contains_key(u),
        registered(m, Some(u), document)[u] == document,
        k != u ==> (registered(m, Some(u), document).contains_key(k) == m.contains_key(k)),
        k != u && m.contains_key(k) ==> registered(m, Some(u), document)[k] == m[k],
{
}

/// A dependency without a URL registers nothing.
pub proof fn lemma_register_without_url(m: Map<Seq<char>, DocumentData>, document: DocumentData)
    ensures
        registered(m, None, document) == m,
{
}

/// Pending URLs keep the order in which the dependencies name them: those pending for the
/// dependencies `a` come first, in the same order, among those pending for `a` followed by `b`.
pub proof fn lemma_pending_in_order(
    m: Map<Seq<char>, DocumentData>,
    a: Seq<Option<Seq<char>>>,
    b: Seq<Option<Seq<char>>>,
)
    ensures
        pending(m, a).len() <= pending(m, a + b).len(),
        pending(m, a + b).take(pending(m, a).len() as int) == pending(m, a),
    decreases b.len(),
{
    if b.len() == 0 {
        assert(a + b == a);
        assert(pending(m, a).take(pending(m, a).len() as int) == pending(m, a));
    } else {
        let b0 = b.drop_last();
        assert((a + b).drop_last() == a + b0);
        lemma_pending_in_order(m, a, b0);
        let p0 = pending(m, a + b0);
        let p = pending(m, a + b);
        let n = pending(m, a).len() as int;
        assert(p.take(p0.len() as int) == p0);
        assert(p.take(n) =~= p0.take(n));
    }
}

/// Registering a document for a dependency whose URL is already kept changes nothing; in
/// particular registering for the same dependency twice keeps the first document.
pub proof fn lemma_register_twice(
    m: Map<Seq<char>, DocumentData>,
    url: Option<Seq<char>>,
    first: DocumentData,
    second: DocumentData,
)
    ensures
        registered(registered(m, url, first), url, second) == registered(m, url, first),
{
}

/// Registering never drops nor replaces a document that is already kept.
pub proof fn lemma_register_keeps(
    m: Map<Seq<char>, DocumentData>,
    url: Option<Seq<char>>,
    document: DocumentData,
    k: Seq<char>,
)
    requires
        m.contains_key(k),
    ensures
        registered(m, url, document).contains_key(k),
        registered(m, url, document)[k] == m[k],
{
}

/// The pending URLs are known URLs of the dependencies, none of them kept yet and none listed
/// twice, and every known URL of a dependency that is not kept yet is pending.
pub proof fn lemma_pending(m: Map<Seq<char>, DocumentData>, urls: Seq<Option<Seq<char>>>)
    ensures
        forall|i: int|
            0 <= i < pending(m, urls).len() ==> !m.contains_key(#[trigger] pending(m, urls)[i])
                && urls.contains(Some(pending(m, urls)[i])),
        forall|i: int, j: int|
            0 <= i < j < pending(m, urls).len() ==> #[trigger] pending(m, urls)[i]
                != #[trigger] pending(m, urls)[j],
        forall|u: Seq<char>|
            urls.contains(Some(u)) && !m.contains_key(u) ==> #[trigger] pending(m, urls).contains(
                u,
            ),
    decreases urls.len(),
{
    if urls.len() > 0 {
        let init = urls.drop_last();
        lemma_pending(m, init);
        let before = pending(m, init);
        let p = pending(m, urls);
        assert forall|i: int| 0 <= i < p.len() implies !m.contains_key(#[trigger] p[i])
            && urls.contains(Some(p[i])) by {
            if i < before.len() {
                assert(p[i] == before[i]);
                let k = choose|k: int| 0 <= k < init.len() && init[k] == Some(before[i]);
                assert(urls[k] == init[k]);
            } else {
                assert(urls[urls.len() - 1] == Some(p[i]));
            }
        }
        assert forall|i: int, j: int| 0 <= i < j < p.len() implies #[trigger] p[i] != #[trigger] p[j] by {
            if j < before.len() {
                assert(p[i] == before[i] && p[j] == before[j]);
            } else {
                assert(p[i] == before[i]);
            }
        }
        assert forall|u: Seq<char>| urls.contains(Some(u)) && !m.contains_key(u) implies #[trigger] p.contains(
            u,
        ) by {
            let k = choose|k: int| 0 <= k < urls.len() && urls[k] == Some(u);
            if k < urls.len() - 1 {
                assert(init[k] == Some(u));
                assert(before.contains(u));
                let j = choose|j: int| 0 <= j < before.len() && before[j] == u;
                assert(p[j] == u);
            } else if !before.contains(u) {
                assert(p[p.len() - 1] == u);
            } else {
                let j = choose|j: int| 0 <= j < before.len() && before[j] == u;
                assert(p[j] == u);
            }
        }
    }
}

/// Loading the dependencies round after round comes to an end: once every URL that was
/// pending is kept (and nothing kept was dropped), nothing is pending any more for the same
/// dependencies.
pub proof fn lemma_pending_done(
    m: Map<Seq<char>, DocumentData>,
    next: Map<Seq<char>, DocumentData>,
    urls: Seq<Option<Seq<char>>>,
)
    requires
        forall|k: Seq<char>| m.contains_key(k) ==> #[trigger] next.contains_key(k),
        forall|i: int|
            0 <= i < pending(m, urls).len() ==> next.contains_key(#[trigger] pending(m, urls)[i]),
    ensures
        pending(next, urls).len() == 0,
{
    lemma_pending(m, urls);
    lemma_pending(next, urls);
    let p = pending(next, urls);
    if p.len() > 0 {
        let u = p[0];
        assert(urls.contains(Some(u)) && !next.contains_key(u));
        assert(!m.contains_key(u));
        assert(pending(m, urls).contains(u));
        let j = choose|j: int| 0 <= j < pending(m, urls).len() && pending(m, urls)[j] == u;
        assert(next.contains_key(pending(m, urls)[j]));
    }
}

impl View for DocumentCache {
    type V = Map<Seq<char>, DocumentData>;

    closed spec fn view(&self) -> Map<Seq<char>, DocumentData> {
        entries_map(self.entries@)
    }
}

impl Default for DocumentCache {
    fn default() -> (r: DocumentCache)
        ensures
            r@ == Map::<Seq<char>, DocumentData>::empty(),
    {
        DocumentCache::new()
    }
}

impl DocumentCache {
    #[verifier::type_invariant]
    spec fn distinct(self) -> bool {
        keys_distinct(self.entries@)
    }

    /// An empty cache.
    pub fn new() -> (r: DocumentCache)
        ensures
            r@ == Map::<Seq<char>, DocumentData>::empty(),
    {
        DocumentCache { entries: Vec::new() }
    }

    /// The position of the entry for `url`.
    fn find(&self, url: &String) -> (r: Option<usize>)
        ensures
            match r {
                Some(i) => i < self.entries.len() && self.entries@[i as int].0@ == url@,
                None => forall|i: int|
                    0 <= i < self.entries.len() ==> (#[trigger] self.entries@[i]).0@ != url@,
            },
    {
        let n = self.entries.len();
        for i in 0..n
            invariant
                n == self.entries.len(),
                forall|j: int| 0 <= j < i ==> (#[trigger] self.entries@[j]).0@ != url@,
        {
            if self.entries[i].0 == *url {
                return Some(i);
            }
        }
        None
    }

    /// Whether a document is kept under `url`.
    pub fn contains_key(&self, url: &String) -> (b: bool)
        ensures
            b == self@.contains_key(url@),
    {
        proof {
            use_type_invariant(self);
        }
        match self.find(url) {
            Some(i) => {
                proof {
                    lemma_entries_map_index(self.entries@, i as int);
                }
                true
            },
            None => {
                proof {
                    lemma_entries_map_absent(self.entries@, url@);
                }
                false
            },
        }
    }

    /// The document kept under `url`.
    pub fn get(&self, url: &String) -> (r: Option<&DocumentData>)
        ensures
            match r {
                Some(d) => self@.contains_key(url@) && self@[url@] == *d,
                None => !self@.contains_key(url@),
            },
    {
        proof {
            use_type_invariant(self);
        }
        match self.find(url) {
            Some(i) => {
                proof {
                    lemma_entries_map_index(self.entries@, i as int);
                }
                Some(&self.entries[i].1)
            },
            None => {
                proof {
                    lemma_entries_map_absent(self.entries@, url@);
                }
                None
            },
        }
    }

    /// Keeps `document` under `url`, in place of the one kept there before, which is returned.
    pub fn insert(&mut self, url: String, document: DocumentData) -> (r: Option<DocumentData>)
        ensures
            final(self)@ == old(self)@.insert(url@, document),
            match r {
                Some(d) => old(self)@.contains_key(url@) && old(self)@[url@] == d,
                None => !old(self)@.contains_key(url@),
            },
    {
        proof {
            use_type_invariant(&*self);
        }
        let found = self.find(&url);
        let ghost e0 = self.entries@;
        let ghost m0 = entries_map(e0);
        let mut entries: Vec<(String, DocumentData)> = Vec::new();
        std::mem::swap(&mut entries, &mut self.entries);
        let old_document = match found {
            Some(i) => {
                proof {
                    lemma_entries_map_index(e0, i as int);
                    lemma_entries_map_remove(e0, i as int);
                }
                let (_, d) = entries.remove(i);
                proof {
                    assert forall|a: int, b: int|
                        0 <= a < b < entries.len() implies (#[trigger] entries@[a]).0@
                        != (#[trigger] entries@[b]).0@ by {
                        let a0 = if a < i { a } else { a + 1 };
                        let b0 = if b < i { b } else { b + 1 };
                        assert(entries@[a] == e0[a0]);
                        assert(entries@[b] == e0[b0]);
                    }
                    assert forall|a: int| 0 <= a < entries.len() implies (#[trigger] entries@[a]).0@
                        != url@ by {
                        let a0 = if a < i { a } else { a + 1 };
                        assert(entries@[a] == e0[a0]);
                        assert(e0[a0].0@ != e0[i as int].0@);
                    }
                }
                Some(d)
            },
            None => {
                proof {
                    lemma_entries_map_absent(e0, url@);
                }
                None
            },
        };
        let ghost e1 = entries@;
        proof {
            if found is None {
                assert(e1 == e0);
            }
            assert(entries_map(e1) =~= m0.remove(url@));
        }
        let ghost k = url@;
        entries.push((url, document));
        proof {
            assert(entries@.drop_last() == e1);
            assert(entries_map(entries@) =~= m0.insert(k, document));
            assert forall|a: int, b: int|
                0 <= a < b < entries.len() implies (#[trigger] entries@[a]).0@
                != (#[trigger] entries@[b]).0@ by {
                if b < entries.len() - 1 {
                    assert(entries@[a] == e1[a]);
                    assert(entries@[b] == e1[b]);
                } else {
                    assert(entries@[a] == e1[a]);
                }
            }
        }
        self.entries = entries;
        old_document
    }

    /// Keeps `document` as the file of the dependency `dep`, unless `dep` has no URL or a file
    /// is already kept under its URL, in which case nothing changes. Returns whether it was
    /// kept.
    pub fn register_dependency(&mut self, dep: &Dependency, document: DocumentData) -> (r: bool)
        ensures
            final(self)@ == registered(old(self)@, dep@.url, document),
            r == (dep@.url matches Some(u) && !old(self)@.contains_key(u)),
    {
        match dep.url() {
            Some(u) => {
                let url = u.to_owned();
                if self.contains_key(&url) {
                    false
                } else {
                    self.insert(url, document);
                    true
                }
            },
            None => false,
        }
    }

    /// The URLs of the files to load next for the dependencies `deps`: those that are known and
    /// not kept yet, each once, in the order in which they first appear.
    pub fn pending_urls(&self, deps: &[Dependency]) -> (r: Vec<String>)
        ensures
            r@.map_values(|s: String| s@) == pending(self@, dependency_urls(deps@)),
    {
        let mut urls: Vec<Option<String>> = Vec::new();
        push_urls(&mut urls, deps);
        assert(urls@.map_values(|o: Option<String>| opt_view(o)) =~= dependency_urls(deps@));
        self.pending_of(&urls)
    }

    /// Those of the URLs `urls` that are known and not kept yet, each once, in order.
    fn pending_of(&self, urls: &Vec<Option<String>>) -> (r: Vec<String>)
        ensures
            r@.map_values(|s: String| s@) == pending(
                self@,
                urls@.map_values(|o: Option<String>| opt_view(o)),
            ),
    {
        let mut r: Vec<String> = Vec::new();
        let ghost us = urls@.map_values(|o: Option<String>| opt_view(o));
        let n = urls.len();
        for i in 0..n
            invariant
                n == urls.len(),
                us == urls@.map_values(|o: Option<String>| opt_view(o)),
                r@.map_values(|s: String| s@) == pending(self@, us.take(i as int)),
        {
            assert(us.take(i + 1).drop_last() == us.take(i as int));
            assert(us.take(i + 1).last() == opt_view(urls@[i as int]));
            match &urls[i] {
                Some(u) => {
                    let url = u.as_str().to_owned();
                    if !self.contains_key(&url) && !list_contains(&r, &url) {
                        let ghost before = r@;
                        r.push(url);
                        assert(r@.map_values(|s: String| s@) =~= before.map_values(|s: String| s@).push(
                            u@,
                        ));
                    }
                },
                None => {},
            }
        }
        assert(us.take(n as int) == us);
        r
    }

    /// Keeps the files `loaded` of a round, each under its URL, and returns the URLs to load in
    /// the next round: those of the dependencies of the loaded files that are known and not
    /// kept, but for those whose files could not be read (`unreadable`), each once, in the
    /// order in which they first appear.
    pub fn next_round(&mut self, loaded: Vec<(String, DocumentData)>, unreadable: &Vec<String>) -> (next: Vec<String>)
        requires
            keys_distinct(loaded@),
            forall|i: int|
                0 <= i < loaded.len() ==> !old(self)@.contains_key(#[trigger] loaded@[i].0@),
        ensures
            final(self)@ == inserted_all(old(self)@, loaded@),
            next@.map_values(|s: String| s@) == next_urls(
                final(self)@,
                loaded_urls(loaded@),
                unreadable@.map_values(|s: String| s@),
            ),
            forall|i: int, j: int|
                0 <= i < loaded.len() && (#[trigger] dependency_url(loaded@[i].1, j) matches Some(
                    u,
                ) && !final(self)@.contains_key(u) && !unreadable@.map_values(|s: String| s@).contains(
                    u,
                )) ==> next@.map_values(|s: String| s@).contains(
                    dependency_url(loaded@[i].1, j)->0,
                ),
    {
        let ghost all = loaded@;
        let ghost m0 = self@;
        let mut loaded = loaded;
        let mut urls: Vec<Option<String>> = Vec::new();
        let n = loaded.len();
        let mut k: usize = 0;
        assert(all.skip(0) == all);
        while loaded.len() > 0
            invariant
                k + loaded.len() == n,
                n == all.len(),
                loaded@ == all.skip(k as int),
                self@ == inserted_all(m0, all.take(k as int)),
                urls@.map_values(|o: Option<String>| opt_view(o)) == loaded_urls(
                    all.take(k as int),
                ),
            decreases loaded.len(),
        {
            let entry = loaded.remove(0);
            assert(all.skip(k as int)[0] == entry);
            assert(all.skip(k as int).drop_first() == all.skip(k + 1));
            assert(all.take(k + 1).drop_last() == all.take(k as int));
            assert(all.take(k + 1).last() == entry);
            let (url, doc) = entry;
            push_document_urls(&mut urls, &doc);
            self.insert(url, doc);
            k += 1;
        }
        assert(all.take(n as int) == all);
        let p = self.pending_of(&urls);
        let ghost pv = p@.map_values(|s: String| s@);
        let ghost ex = unreadable@.map_values(|s: String| s@);
        let mut next: Vec<String> = Vec::new();
        let np = p.len();
        for i in 0..np
            invariant
                np == p.len(),
                pv == p@.map_values(|s: String| s@),
                ex == unreadable@.map_values(|s: String| s@),
                next@.map_values(|s: String| s@) == without(pv.take(i as int), ex),
        {
            assert(pv.take(i + 1).drop_last() == pv.take(i as int));
            assert(pv.take(i + 1).last() == p@[i as int]@);
            let url = p[i].as_str().to_owned();
            if !list_contains(unreadable, &url) {
                let ghost before = next@;
                next.push(url);
                assert(next@.map_values(|s: String| s@) =~= before.map_values(|s: String| s@).push(
                    pv[i as int],
                ));
            }
        }
        assert(pv.take(np as int) == pv);
        proof {
            lemma_next_round_follows_every_file(m0, all, unreadable@.map_values(|s: String| s@));
        }
        next
    }
}

/// Appends the URLs of the dependencies `deps` to `urls`.
fn push_urls(urls: &mut Vec<Option<String>>, deps: &[Dependency])
    ensures
        final(urls)@.map_values(|o: Option<String>| opt_view(o)) == old(urls)@.map_values(
            |o: Option<String>| opt_view(o),
        ) + dependency_urls(deps@),
{
    let ghost u0 = urls@.map_values(|o: Option<String>| opt_view(o));
    let ghost ds = dependency_urls(deps@);
    let n = deps.len();
    for i in 0..n
        invariant
            n == deps.len(),
            ds == dependency_urls(deps@),
            urls@.map_values(|o: Option<String>| opt_view(o)) == u0 + ds.take(i as int),
    {
        let ghost before = urls@;
        let u = match deps[i].url() {
            Some(s) => Some(s.to_owned()),
            None => None,
        };
        urls.push(u);
        assert(ds.take(i + 1) == ds.take(i as int).push(deps@[i as int]@.url));
        assert(urls@.map_values(|o: Option<String>| opt_view(o)) =~= before.map_values(
            |o: Option<String>| opt_view(o),
        ).push(deps@[i as int]@.url));
    }
    assert(ds.take(n as int) == ds);
}

/// Appends the URLs of the dependencies of the document `doc` to `urls`.
fn push_document_urls(urls: &mut Vec<Option<String>>, doc: &DocumentData)
    ensures
        final(urls)@.map_values(|o: Option<String>| opt_view(o)) == old(urls)@.map_values(
            |o: Option<String>| opt_view(o),
        ) + document_urls(*doc),
{
    match doc {
        DocumentData::Parsed { environment, .. } => {
            push_urls(urls, environment.dependencies.as_slice());
        },
        DocumentData::NotParsed { .. } => {
            assert(urls@.map_values(|o: Option<String>| opt_view(o)) =~= urls@.map_values(
                |o: Option<String>| opt_view(o),
            ) + document_urls(*doc));
        },
    }
}

/// Whether `s` is among the strings `v`.
fn list_contains(v: &Vec<String>, s: &String) -> (b: bool)
    ensures
        b == v@.map_values(|x: String| x@).contains(s@),
{
    let n = v.len();
    for i in 0..n
        invariant
            n == v.len(),
            forall|j: int| 0 <= j < i ==> (#[trigger] v@[j])@ != s@,
    {
        if v[i] == *s {
            assert(v@.map_values(|x: String| x@)[i as int] == s@);
            return true;
        }
    }
    proof {
        if v@.map_values(|x: String| x@).contains(s@) {
            let m = v@.map_values(|x: String| x@);
            let j = choose|j: int| 0 <= j < m.len() && #[trigger] m[j] == s@;
            assert(v@[j]@ == s@);
        }
    }
    false
}


} // verus!
