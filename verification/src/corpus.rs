//! The corpus of a build: which files enter the index, and the order of
//! the segments in it.
//!
//! Segments arrive in no particular order. The index holds them sorted by
//! title, code point by code point, and segments of one title in the order
//! in which they arrived.

use vstd::prelude::*;
use vstd::seq_lib::{to_multiset_build, to_multiset_contains, to_multiset_insert, to_multiset_len};
use vstd::string::StringExecFns;
use crate::file::{segments_view, BuildSettings, File, Segment, SegmentView};
use crate::text::chars_of;

verus! {

/// Whether title `a` is not behind title `b`: the titles are compared code
/// point by code point, and a title comes before every longer title that
/// starts with it.
pub open spec fn title_le(a: Seq<char>, b: Seq<char>) -> bool
    decreases a.len(),
{
    if a.len() == 0 {
        true
    } else if b.len() == 0 {
        false
    } else if a.first() != b.first() {
        a.first() < b.first()
    } else {
        title_le(a.drop_first(), b.drop_first())
    }
}

/// Every title is not behind itself.
pub proof fn title_le_reflexive(a: Seq<char>)
    ensures
        title_le(a, a),
    decreases a.len(),
{
    if a.len() > 0 {
        title_le_reflexive(a.drop_first());
    }
}

/// Of two titles one is not behind the other.
pub proof fn title_le_total(a: Seq<char>, b: Seq<char>)
    ensures
        title_le(a, b) || title_le(b, a),
    decreases a.len(),
{
    if a.len() > 0 && b.len() > 0 && a.first() == b.first() {
        title_le_total(a.drop_first(), b.drop_first());
    }
}

/// The order of titles is transitive.
pub proof fn title_le_transitive(a: Seq<char>, b: Seq<char>, c: Seq<char>)
    requires
        title_le(a, b),
        title_le(b, c),
    ensures
        title_le(a, c),
    decreases a.len(),
{
    if a.len() > 0 && b.len() > 0 && c.len() > 0 && a.first() == b.first() && b.first()
        == c.first() {
        title_le_transitive(a.drop_first(), b.drop_first(), c.drop_first());
    }
}

/// Two titles of which neither is behind the other are the same title.
pub proof fn title_le_antisymmetric(a: Seq<char>, b: Seq<char>)
    requires
        title_le(a, b),
        title_le(b, a),
    ensures
        a == b,
    decreases a.len(),
{
    if a.len() > 0 && b.len() > 0 {
        title_le_antisymmetric(a.drop_first(), b.drop_first());
        assert(a =~= seq![a.first()] + a.drop_first());
        assert(b =~= seq![b.first()] + b.drop_first());
    } else {
        assert(a =~= b);
    }
}

/// Whether title `a` is not behind title `b`.
pub fn title_not_behind(a: &[char], b: &[char]) -> (r: bool)
    ensures
        r == title_le(a@, b@),
{
    let mut i: usize = 0;
    assert(a@.skip(0) =~= a@);
    assert(b@.skip(0) =~= b@);
    while i < a.len() && i < b.len() && a[i] == b[i]
        invariant
            i <= a@.len(),
            i <= b@.len(),
            title_le(a@, b@) == title_le(a@.skip(i as int), b@.skip(i as int)),
        decreases a@.len() - i,
    {
        assert(a@.skip(i as int).drop_first() =~= a@.skip(i + 1));
        assert(b@.skip(i as int).drop_first() =~= b@.skip(i + 1));
        i += 1;
    }
    proof {
        if i < a@.len() {
            assert(a@.skip(i as int).first() == a@[i as int]);
        }
        if i < b@.len() {
            assert(b@.skip(i as int).first() == b@[i as int]);
        }
    }
    if i == a.len() {
        true
    } else if i == b.len() {
        false
    } else {
        a[i] < b[i]
    }
}

/// The items in the given order.
pub open spec fn ordered<T>(items: Seq<T>, order: Seq<int>) -> Seq<T> {
    Seq::new(order.len(), |k: int| items[order[k]])
}

/// Where a new title goes into sorted titles: behind every title that is
/// not behind it.
pub open spec fn insert_index(sorted: Seq<Seq<char>>, title: Seq<char>) -> nat
    decreases sorted.len(),
{
    if sorted.len() == 0 {
        0
    } else if !title_le(sorted.last(), title) {
        insert_index(sorted.drop_last(), title)
    } else {
        sorted.len()
    }
}

/// The order in which titles stand after sorting: the index of each title,
/// titles ascending, and the indices of one title ascending.
pub open spec fn title_order(titles: Seq<Seq<char>>) -> Seq<int>
    decreases titles.len(),
{
    if titles.len() == 0 {
        Seq::empty()
    } else {
        let front = titles.drop_last();
        let before = title_order(front);
        before.insert(
            insert_index(ordered(front, before), titles.last()) as int,
            titles.len() - 1,
        )
    }
}

/// The titles of segments.
pub open spec fn titles_of(segments: Seq<SegmentView>) -> Seq<Seq<char>> {
    Seq::new(segments.len(), |i: int| segments[i].title)
}

/// The segments sorted by title, segments of one title in their old order.
pub open spec fn sorted_by_title(segments: Seq<SegmentView>) -> Seq<SegmentView> {
    ordered(segments, title_order(titles_of(segments)))
}

/// Whether an order sorts the titles: it names each title once, the titles
/// ascend along it, and titles that are the same keep their order.
pub open spec fn sorts(order: Seq<int>, titles: Seq<Seq<char>>) -> bool {
    &&& order.len() == titles.len()
    &&& forall|k: int| 0 <= k < order.len() ==> 0 <= #[trigger] order[k] < titles.len()
    &&& forall|i: int| 0 <= i < titles.len() ==> #[trigger] order.contains(i)
    &&& forall|a: int, b: int|
        0 <= a < b < order.len() ==> title_le(
            titles[#[trigger] order[a]],
            titles[#[trigger] order[b]],
        )
    &&& forall|a: int, b: int|
        0 <= a < b < order.len() && titles[#[trigger] order[a]] == titles[#[trigger] order[b]]
            ==> order[a] < order[b]
}

/// In sorted titles the place of a new title parts the titles that are not
/// behind it from those that are.
proof fn lemma_insert_index(sorted: Seq<Seq<char>>, title: Seq<char>)
    requires
        forall|a: int, b: int|
            0 <= a < b < sorted.len() ==> title_le(#[trigger] sorted[a], #[trigger] sorted[b]),
    ensures
        insert_index(sorted, title) <= sorted.len(),
        forall|k: int|
            0 <= k < insert_index(sorted, title) ==> title_le(#[trigger] sorted[k], title),
        forall|k: int|
            insert_index(sorted, title) <= k < sorted.len() ==> !title_le(
                #[trigger] sorted[k],
                title,
            ),
    decreases sorted.len(),
{
    if sorted.len() > 0 {
        let front = sorted.drop_last();
        let last = (sorted.len() - 1) as int;
        assert forall|a: int, b: int| 0 <= a < b < front.len() implies title_le(
            #[trigger] front[a],
            #[trigger] front[b],
        ) by {
            assert(front[a] == sorted[a] && front[b] == sorted[b]);
        }
        lemma_insert_index(front, title);
        if !title_le(sorted.last(), title) {
            assert forall|k: int| 0 <= k < insert_index(sorted, title) implies title_le(
                #[trigger] sorted[k],
                title,
            ) by {
                assert(front[k] == sorted[k]);
            }
            assert forall|k: int| insert_index(sorted, title) <= k < sorted.len() implies !title_le(
                #[trigger] sorted[k],
                title,
            ) by {
                if k < last {
                    assert(front[k] == sorted[k]);
                }
            }
        } else {
            assert forall|k: int| 0 <= k < sorted.len() implies title_le(
                #[trigger] sorted[k],
                title,
            ) by {
                if k < last {
                    assert(title_le(sorted[k], sorted[last]));
                    title_le_transitive(sorted[k], sorted[last], title);
                }
            }
        }
    }
}

/// Sorting is ascending by title and stable under ties: the order of the
/// sorted titles names every title once, the titles ascend along it, and
/// titles that are the same stand in the order in which they came.
pub proof fn title_order_sorts(titles: Seq<Seq<char>>)
    ensures
        sorts(title_order(titles), titles),
    decreases titles.len(),
{
    if titles.len() > 0 {
        let front = titles.drop_last();
        let before = title_order(front);
        let last = (titles.len() - 1) as int;
        let title = titles.last();
        title_order_sorts(front);
        let sorted = ordered(front, before);
        assert forall|a: int, b: int| 0 <= a < b < sorted.len() implies title_le(
            #[trigger] sorted[a],
            #[trigger] sorted[b],
        ) by {
            assert(title_le(front[before[a]], front[before[b]]));
        }
        lemma_insert_index(sorted, title);
        let p = insert_index(sorted, title) as int;
        let after = before.insert(p, last);
        assert(after == title_order(titles));
        assert forall|k: int| 0 <= k < after.len() implies 0 <= #[trigger] after[k]
            < titles.len() by {
            if k < p {
                assert(after[k] == before[k]);
            } else if k > p {
                assert(after[k] == before[k - 1]);
            }
        }
        assert forall|i: int| 0 <= i < titles.len() implies #[trigger] after.contains(i) by {
            if i < last {
                assert(before.contains(i));
                let k = choose|k: int| 0 <= k < before.len() && before[k] == i;
                if k < p {
                    assert(after[k] == before[k]);
                } else {
                    assert(after[k + 1] == before[k]);
                }
            } else {
                assert(after[p] == last);
            }
        }
        assert forall|a: int, b: int| 0 <= a < b < after.len() implies title_le(
            titles[#[trigger] after[a]],
            titles[#[trigger] after[b]],
        ) && (titles[after[a]] == titles[after[b]] ==> after[a] < after[b]) by {
            let x = if a < p {
                before[a]
            } else if a == p {
                last
            } else {
                before[a - 1]
            };
            let y = if b < p {
                before[b]
            } else if b == p {
                last
            } else {
                before[b - 1]
            };
            assert(after[a] == x && after[b] == y);
            if a != p {
                assert(titles[x] == front[x]);
            }
            if b != p {
                assert(titles[y] == front[y]);
            }
            if b == p {
                assert(sorted[a] == front[x]);
            } else if a == p {
                assert(sorted[b - 1] == front[y]);
                title_le_total(front[y], title);
                title_le_reflexive(title);
            } else if b < p {
                assert(title_le(front[before[a]], front[before[b]]));
            } else if a < p {
                assert(title_le(front[before[a]], front[before[b - 1]]));
            } else {
                assert(title_le(front[before[a - 1]], front[before[b - 1]]));
            }
        }
    }
}

/// Whether the titles of the segments ascend.
pub open spec fn ascending(segments: Seq<SegmentView>) -> bool {
    forall|a: int, b: int|
        0 <= a < b < segments.len() ==> title_le(
            (#[trigger] segments[a]).title,
            (#[trigger] segments[b]).title,
        )
}

/// The segments sorted by title are as many as before, and their titles
/// ascend.
pub proof fn sorted_by_title_ascends(segments: Seq<SegmentView>)
    ensures
        sorted_by_title(segments).len() == segments.len(),
        ascending(sorted_by_title(segments)),
{
    let titles = titles_of(segments);
    let order = title_order(titles);
    title_order_sorts(titles);
    let sorted = sorted_by_title(segments);
    assert forall|a: int, b: int| 0 <= a < b < sorted.len() implies title_le(
        (#[trigger] sorted[a]).title,
        (#[trigger] sorted[b]).title,
    ) by {
        assert(title_le(titles[order[a]], titles[order[b]]));
    }
}

/// Whether no two of the segments have the same title.
pub open spec fn distinct_titles(segments: Seq<SegmentView>) -> bool {
    forall|i: int, j: int|
        0 <= i < j < segments.len() ==> (#[trigger] segments[i]).title != (
        #[trigger] segments[j]).title
}

/// Sorting keeps the segments: every segment occurs in the sorted
/// segments as often as before.
pub proof fn sorting_keeps_the_segments(segments: Seq<SegmentView>)
    ensures
        sorted_by_title(segments).to_multiset() == segments.to_multiset(),
    decreases segments.len(),
{
    if segments.len() == 0 {
        assert(sorted_by_title(segments) =~= segments);
    } else {
        let front = segments.drop_last();
        let last = segments.last();
        let titles = titles_of(segments);
        let front_titles = titles.drop_last();
        assert(titles_of(front) =~= front_titles);
        sorting_keeps_the_segments(front);
        title_order_sorts(front_titles);
        let before = title_order(front_titles);
        let in_order = ordered(front_titles, before);
        assert forall|a: int, b: int| 0 <= a < b < in_order.len() implies title_le(
            #[trigger] in_order[a],
            #[trigger] in_order[b],
        ) by {
            assert(title_le(front_titles[before[a]], front_titles[before[b]]));
        }
        lemma_insert_index(in_order, titles.last());
        let p = insert_index(in_order, titles.last()) as int;
        let sorted_front = sorted_by_title(front);
        let sorted = sorted_by_title(segments);
        assert(title_order(titles) == before.insert(p, segments.len() - 1));
        assert(sorted =~= sorted_front.insert(p, last)) by {
            let order = title_order(titles);
            assert forall|k: int| 0 <= k < sorted.len() implies sorted[k] == sorted_front.insert(
                p,
                last,
            )[k] by {
                if k < p {
                    assert(order[k] == before[k]);
                    assert(segments[before[k]] == front[before[k]]);
                } else if k > p {
                    assert(order[k] == before[k - 1]);
                    assert(segments[before[k - 1]] == front[before[k - 1]]);
                }
            }
        }
        to_multiset_insert(sorted_front, p, last);
        to_multiset_build(front, last);
        assert(front.push(last) =~= segments);
    }
}

/// Segments in ascending order are determined by what they hold: two
/// ascending runs of the same segments, no two of one title, are the same
/// run.
pub proof fn ascending_order_is_unique(first: Seq<SegmentView>, second: Seq<SegmentView>)
    requires
        ascending(first),
        ascending(second),
        distinct_titles(first),
        first.to_multiset() == second.to_multiset(),
    ensures
        first == second,
    decreases first.len(),
{
    to_multiset_len(first);
    to_multiset_len(second);
    if first.len() == 0 {
        assert(first =~= second);
    } else {
        let n = first.len() as int;
        let x = first.last();
        let y = second.last();
        assert(first[n - 1] == x);
        assert(second[n - 1] == y);
        assert(first.contains(x));
        assert(second.contains(y));
        to_multiset_contains(first, x);
        to_multiset_contains(second, x);
        to_multiset_contains(first, y);
        to_multiset_contains(second, y);
        let i = choose|i: int| 0 <= i < first.len() && first[i] == y;
        let j = choose|j: int| 0 <= j < second.len() && second[j] == x;
        if i < n - 1 {
            assert(title_le(first[i].title, first[n - 1].title));
        } else {
            title_le_reflexive(x.title);
        }
        if j < n - 1 {
            assert(title_le(second[j].title, second[n - 1].title));
        } else {
            title_le_reflexive(y.title);
        }
        title_le_antisymmetric(x.title, y.title);
        assert(i == n - 1);
        assert(x == y);
        let front = first.drop_last();
        let other = second.drop_last();
        to_multiset_build(front, x);
        to_multiset_build(other, y);
        assert(front.push(x) =~= first);
        assert(other.push(y) =~= second);
        assert(front.to_multiset() =~= other.to_multiset()) by {
            assert forall|v: SegmentView| front.to_multiset().count(v) == other.to_multiset().count(
                v,
            ) by {
                assert(front.to_multiset().insert(x).count(v) == other.to_multiset().insert(
                    x,
                ).count(v));
            }
        }
        assert forall|a: int, b: int| 0 <= a < b < front.len() implies title_le(
            (#[trigger] front[a]).title,
            (#[trigger] front[b]).title,
        ) && front[a].title != front[b].title by {
            assert(front[a] == first[a] && front[b] == first[b]);
        }
        assert forall|a: int, b: int| 0 <= a < b < other.len() implies title_le(
            (#[trigger] other[a]).title,
            (#[trigger] other[b]).title,
        ) by {
            assert(other[a] == second[a] && other[b] == second[b]);
        }
        ascending_order_is_unique(front, other);
        assert(first =~= second);
    }
}

/// The index does not depend on the order in which the segments arrive:
/// the same segments, no two of one title, are sorted to the same run
/// whatever their order was.
pub proof fn order_of_arrival_does_not_matter(first: Seq<SegmentView>, second: Seq<SegmentView>)
    requires
        distinct_titles(first),
        first.to_multiset() == second.to_multiset(),
    ensures
        sorted_by_title(first) == sorted_by_title(second),
{
    let sorted = sorted_by_title(first);
    sorting_keeps_the_segments(first);
    sorting_keeps_the_segments(second);
    sorted_by_title_ascends(first);
    sorted_by_title_ascends(second);
    let titles = titles_of(first);
    let order = title_order(titles);
    title_order_sorts(titles);
    assert forall|i: int, j: int| 0 <= i < j < sorted.len() implies (#[trigger] sorted[i]).title != (
    #[trigger] sorted[j]).title by {
        if titles[order[i]] == titles[order[j]] {
            assert(order[i] < order[j]);
            assert(first[order[i]].title != first[order[j]].title);
        }
    }
    ascending_order_is_unique(sorted, sorted_by_title(second));
}

/// Sorts the segments by title. Segments of one title keep their order.
pub fn sort_segments(segments: Vec<Segment>) -> (sorted: Vec<Segment>)
    ensures
        segments_view(sorted@) == sorted_by_title(segments_view(segments@)),
        sorted@.len() == segments@.len(),
        ascending(segments_view(sorted@)),
{
    let ghost views = segments_view(segments@);
    let ghost titles = titles_of(views);
    let ghost mut order: Seq<int> = Seq::empty();
    let mut keys: Vec<Vec<char>> = Vec::new();
    let mut sorted: Vec<Segment> = Vec::new();
    assert(titles.take(0) =~= Seq::<Seq<char>>::empty());
    for segment in it: segments
        invariant
            it.seq() == segments@,
            views == segments_view(segments@),
            titles == titles_of(views),
            order == title_order(titles.take(it.index() as int)),
            order.len() == it.index(),
            keys@.len() == it.index(),
            sorted@.len() == it.index(),
            forall|k: int| 0 <= k < order.len() ==> 0 <= #[trigger] order[k] < it.index(),
            forall|k: int| 0 <= k < order.len() ==> (#[trigger] keys@[k])@ == titles[order[k]],
            forall|k: int| 0 <= k < order.len() ==> (#[trigger] sorted@[k])@ == views[order[k]],
    {
        let ghost i = it.index() as int;
        let ghost front = titles.take(i);
        let key = chars_of(segment.title.as_str());
        proof {
            assert(segment@ == views[i]);
            assert(key@ == titles[i]);
            assert(titles.take(i + 1).drop_last() =~= front);
            assert(titles.take(i + 1).last() == key@);
            title_order_sorts(front);
        }
        let ghost in_order = ordered(front, order);
        let mut position: usize = keys.len();
        assert(in_order.take(position as int) =~= in_order);
        while position > 0 && !title_not_behind(keys[position - 1].as_slice(), key.as_slice())
            invariant
                position <= keys@.len(),
                keys@.len() == in_order.len(),
                in_order == ordered(front, order),
                front == titles.take(i),
                order.len() == keys@.len(),
                0 <= i <= titles.len(),
                forall|k: int| 0 <= k < order.len() ==> 0 <= #[trigger] order[k] < i,
                forall|k: int| 0 <= k < order.len() ==> (#[trigger] keys@[k])@ == titles[order[k]],
                insert_index(in_order, key@) == insert_index(
                    in_order.take(position as int),
                    key@,
                ),
            decreases position,
        {
            proof {
                assert(in_order.take(position as int).last() == in_order[position - 1]);
                assert(in_order[position - 1] == front[order[position - 1]]);
                assert(in_order.take(position as int).drop_last() =~= in_order.take(
                    position - 1,
                ));
            }
            position -= 1;
        }
        proof {
            if position > 0 {
                assert(in_order.take(position as int).last() == in_order[position - 1]);
                assert(in_order[position - 1] == front[order[position - 1]]);
            }
            let next = order.insert(position as int, i);
            assert(next == title_order(titles.take(i + 1)));
            assert forall|k: int| 0 <= k < next.len() implies 0 <= #[trigger] next[k] < i + 1 by {
                if k < position {
                    assert(next[k] == order[k]);
                } else if k > position {
                    assert(next[k] == order[k - 1]);
                }
            }
            assert forall|k: int| 0 <= k < next.len() implies (#[trigger] keys@.insert(
                position as int,
                key,
            )[k])@ == titles[next[k]] by {
                if k < position {
                    assert(next[k] == order[k]);
                } else if k > position {
                    assert(next[k] == order[k - 1]);
                    assert(keys@.insert(position as int, key)[k] == keys@[k - 1]);
                }
            }
            assert forall|k: int| 0 <= k < next.len() implies (#[trigger] sorted@.insert(
                position as int,
                segment,
            )[k])@ == views[next[k]] by {
                if k < position {
                    assert(next[k] == order[k]);
                } else if k > position {
                    assert(next[k] == order[k - 1]);
                    assert(sorted@.insert(position as int, segment)[k] == sorted@[k - 1]);
                }
            }
            order = next;
        }
        keys.insert(position, key);
        sorted.insert(position, segment);
    }
    proof {
        assert(titles.take(segments@.len() as int) =~= titles);
        assert(segments_view(sorted@) =~= ordered(views, order));
        sorted_by_title_ascends(views);
    }
    sorted
}

/// The index of a build: the parameters, and the segments sorted by title.
pub fn build_index(build_settings: BuildSettings, segments: Vec<Segment>) -> (file: File)
    ensures
        file@.build_settings == build_settings,
        file@.segments == sorted_by_title(segments_view(segments@)),
        ascending(file@.segments),
{
    File { build_settings, segments: sort_segments(segments) }
}

/// A file found under a search directory: its name, the path that the
/// segment will be titled with, and its canonical path.
#[derive(Debug, Clone, PartialEq, Eq)]
pub struct CorpusFile {
    pub file_name: String,
    pub path: String,
    pub canonical_path: String,
}

/// Whether a file enters the index: its name is not `.gitignore`, and its
/// canonical path is none of the ignored paths.
pub open spec fn is_selected(file: CorpusFile, ignored: Seq<String>) -> bool {
    &&& file.file_name@ != ".gitignore"@
    &&& forall|i: int| 0 <= i < ignored.len() ==> (#[trigger] ignored[i])@ != file.canonical_path@
}

/// Whether a file enters the index.
pub fn is_file_selected(file: &CorpusFile, ignored: &Vec<String>) -> (r: bool)
    ensures
        r == is_selected(*file, ignored@),
{
    let marker = String::from_str(".gitignore");
    if file.file_name == marker {
        return false;
    }
    let mut i: usize = 0;
    while i < ignored.len()
        invariant
            i <= ignored@.len(),
            forall|k: int| 0 <= k < i ==> (#[trigger] ignored@[k])@ != file.canonical_path@,
        decreases ignored@.len() - i,
    {
        if ignored[i] == file.canonical_path {
            return false;
        }
        i += 1;
    }
    true
}

/// The files that enter the index: those that are selected, in the order
/// in which they were found.
pub open spec fn selected_files(files: Seq<CorpusFile>, ignored: Seq<String>) -> Seq<CorpusFile>
    decreases files.len(),
{
    if files.len() == 0 {
        Seq::empty()
    } else {
        let front = selected_files(files.drop_last(), ignored);
        if is_selected(files.last(), ignored) {
            front.push(files.last())
        } else {
            front
        }
    }
}

/// Leaves out the files named `.gitignore` and the files whose canonical
/// path is one of the ignored paths.
pub fn select_files(files: Vec<CorpusFile>, ignored: &Vec<String>) -> (selected: Vec<CorpusFile>)
    ensures
        selected@ == selected_files(files@, ignored@),
{
    let mut selected: Vec<CorpusFile> = Vec::new();
    assert(files@.take(0) =~= Seq::<CorpusFile>::empty());
    for file in it: files
        invariant
            it.seq() == files@,
            selected@ == selected_files(files@.take(it.index() as int), ignored@),
    {
        proof {
            assert(files@.take(it.index() + 1).drop_last() =~= files@.take(it.index() as int));
            assert(files@.take(it.index() + 1).last() == file);
        }
        if is_file_selected(&file, ignored) {
            selected.push(file);
        }
    }
    assert(files@.take(files@.len() as int) =~= files@);
    selected
}

} // verus!
