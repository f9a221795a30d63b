//! The instrumented sorting algorithms, which drive a run.

use vstd::prelude::*;
use std::collections::HashMap;
use crate::highlight::fracs;
use crate::output::{frame_file_name, frame_file_name_spec, NamedImage};
use crate::ratio::{Frac, Ratio};
use crate::render::{RenderError, Sort};
use crate::state::{
    exchange, lemma_kept_after, lemma_kept_by_itself, lemma_kept_on, Op, SortData, StateView,
};

verus! {

/// The values of `s` ascend.
pub open spec fn sorted(s: Seq<u32>) -> bool {
    forall|i: int, j: int| 0 <= i <= j < s.len() ==> s[i] <= s[j]
}

/// `b` holds the values of `a`, each as often as `a` does.
pub open spec fn permutation(a: Seq<u32>, b: Seq<u32>) -> bool {
    a.to_multiset() == b.to_multiset()
}

/// The values of `s` at the indices `lo..=hi` ascend.
pub open spec fn sorted_between(s: Seq<u32>, lo: int, hi: int) -> bool {
    forall|i: int, j: int| 0 <= lo <= i <= j <= hi < s.len() ==> s[i] <= s[j]
}

/// The values of `s` at the indices `lo..=hi` lie in `low..=high`.
pub open spec fn within(s: Seq<u32>, lo: int, hi: int, low: int, high: int) -> bool {
    forall|k: int| 0 <= lo <= k <= hi < s.len() ==> low <= #[trigger] s[k] <= high
}

/// `a` and `b` agree at every index outside `lo..=hi`.
pub open spec fn same_outside(a: Seq<u32>, b: Seq<u32>, lo: int, hi: int) -> bool {
    &&& a.len() == b.len()
    &&& forall|k: int| 0 <= k < a.len() && !(lo <= k <= hi) ==> a[k] == b[k]
}

/// The intensity of the pivot while its range is partitioned: 0.5.
pub open spec fn pivot_light() -> Frac {
    Frac { num: 1, den: 2 }
}

/// The intensity of the index that a partition is looking at: 0.3.
pub open spec fn scan_light() -> Frac {
    Frac { num: 3, den: 10 }
}

/// The intensity that removes a highlight: 0.
pub open spec fn no_light() -> Frac {
    Frac { num: 0, den: 1 }
}

/// The highlight map `highlights` without the indices `lo..=hi`.
pub open spec fn unlit(highlights: Map<usize, Frac>, lo: usize, hi: usize) -> Map<usize, Frac> {
    highlights.remove_keys(Set::new(|k: usize| lo <= k <= hi))
}

/// The highlight map while a partition of `lo..=hi` is looking at the index
/// `j`, where it was `highlights` before: the pivot is lit, and no index
/// that has been looked at.
pub open spec fn lit_for_scan(highlights: Map<usize, Frac>, lo: usize, hi: usize, j: usize) -> Map<
    usize,
    Frac,
> {
    highlights.remove_keys(Set::new(|k: usize| lo <= k < j)).insert(hi, pivot_light())
}

/// The state after a partition has looked at the indices `j..hi`, together
/// with the index behind the values found to be at most `pivot`, which stands
/// at `i` before. Each index is lit while it is looked at; a value that is
/// at most `pivot` is swapped to the front.
pub open spec fn scanned(s: StateView, hi: usize, pivot: u32, j: usize, i: usize) -> (
    StateView,
    usize,
)
    decreases hi - j,
{
    if j >= hi {
        (s, i)
    } else if s.list[j as int] <= pivot {
        scanned(
            s.highlighted(j, scan_light()).swapped(i, j).highlighted(j, no_light()),
            hi,
            pivot,
            (j + 1) as usize,
            (i + 1) as usize,
        )
    } else {
        scanned(
            s.highlighted(j, scan_light()).highlighted(j, no_light()),
            hi,
            pivot,
            (j + 1) as usize,
            i,
        )
    }
}

/// The state after the range `lo..=hi` has been partitioned around the value
/// at `hi`, together with the index at which that value ends up. The pivot
/// is lit during the scan, and swapped into its place after it.
pub open spec fn partitioned(s: StateView, lo: usize, hi: usize) -> (StateView, usize) {
    let (after, i) = scanned(s.highlighted(hi, pivot_light()), hi, s.list[hi as int], lo, lo);
    (after.highlighted(hi, no_light()).swapped(i, hi), i)
}

/// A scan moves the index behind the small values forward by at most one
/// for each index that it looks at.
pub proof fn lemma_scanned_index(s: StateView, hi: usize, pivot: u32, j: usize, i: usize)
    requires
        i <= j <= hi,
    ensures
        i <= scanned(s, hi, pivot, j, i).1 <= i + (hi - j),
    decreases hi - j,
{
    if j < hi {
        if s.list[j as int] <= pivot {
            lemma_scanned_index(
                s.highlighted(j, scan_light()).swapped(i, j).highlighted(j, no_light()),
                hi,
                pivot,
                (j + 1) as usize,
                (i + 1) as usize,
            );
        } else {
            lemma_scanned_index(
                s.highlighted(j, scan_light()).highlighted(j, no_light()),
                hi,
                pivot,
                (j + 1) as usize,
                i,
            );
        }
    }
}

/// A partition leaves its pivot within the range that it partitions.
pub proof fn lemma_pivot_in_range(s: StateView, lo: usize, hi: usize)
    requires
        lo <= hi,
    ensures
        lo <= partitioned(s, lo, hi).1 <= hi,
{
    lemma_scanned_index(s.highlighted(hi, pivot_light()), hi, s.list[hi as int], lo, lo);
}

/// The state after the range `lo..=hi` has been sorted: it is partitioned,
/// then the part before the pivot is sorted, then the part after it, where
/// there is one. (The pivot always ends up within the range, see
/// [`lemma_pivot_in_range`].)
pub open spec fn quicksorted(s: StateView, lo: usize, hi: usize) -> StateView
    decreases hi + 1 - lo,
{
    if lo >= hi {
        s
    } else {
        let (parted, p) = partitioned(s, lo, hi);
        if lo <= p <= hi {
            let left = quicksorted(
                parted,
                lo,
                if p == 0 {
                    0
                } else {
                    (p - 1) as usize
                },
            );
            if p < hi {
                quicksorted(left, (p + 1) as usize, hi)
            } else {
                left
            }
        } else {
            parted
        }
    }
}

/// The state after the whole array has been sorted.
pub open spec fn qsort_spec(s: StateView) -> StateView {
    if s.list.len() == 0 {
        s
    } else {
        quicksorted(s, 0, (s.list.len() - 1) as usize)
    }
}

/// Exchanging two values of a sequence gives a permutation of it.
pub proof fn lemma_swap_permutes(s: Seq<u32>, x: int, y: int)
    requires
        0 <= x < s.len(),
        0 <= y < s.len(),
    ensures
        permutation(s, exchange(s, x, y)),
{
    broadcast use vstd::seq_lib::to_multiset_update;
    broadcast use vstd::multiset::group_multiset_axioms;

    let once = s.update(x, s[y]);
    let twice = once.update(y, s[x]);
    assert(once.to_multiset() == s.to_multiset().insert(s[y]).remove(s[x]));
    assert(twice.to_multiset() == once.to_multiset().insert(s[x]).remove(once[y]));
    vstd::seq_lib::to_multiset_contains(s, s[x]);
    vstd::seq_lib::to_multiset_contains(s, s[y]);
    assert(s.contains(s[x]) && s.contains(s[y]));
    assert(twice.to_multiset() =~= s.to_multiset());
}

/// Partitions the range `lo..=hi` around the value at `hi`.
fn partition(
    data: &mut SortData,
    lo: usize,
    hi: usize,
    Ghost(low): Ghost<int>,
    Ghost(high): Ghost<int>,
) -> (p: usize)
    requires
        old(data).wf(),
        lo < hi < old(data)@.list.len(),
        within(old(data)@.list, lo as int, hi as int, low, high),
    ensures
        final(data).wf(),
        final(data).name() == old(data).name(),
        final(data).config() == old(data).config(),
        (final(data)@, p) == partitioned(old(data)@, lo, hi),
        lo <= p <= hi,
        old(data)@.kept_by(final(data)@),
        final(data)@.highlights == unlit(old(data)@.highlights, lo, hi),
        permutation(old(data)@.list, final(data)@.list),
        same_outside(old(data)@.list, final(data)@.list, lo as int, hi as int),
        within(final(data)@.list, lo as int, hi as int, low, high),
        forall|k: int| lo <= k < p ==> final(data)@.list[k] <= final(data)@.list[p as int],
        forall|k: int| p < k <= hi ==> final(data)@.list[k] > final(data)@.list[p as int],
{
    let pivot: u32 = data.values()[hi];
    let mut i: usize = lo;
    proof {
        lemma_kept_by_itself(data@);
        lemma_kept_after(data@, data@, Op::SetHighlight(hi, pivot_light()));
    }
    data.set_highlight(hi, Ratio::known(1, 2));
    let ghost start = data@;
    let mut j: usize = lo;
    assert(data@.highlights =~= lit_for_scan(old(data)@.highlights, lo, hi, j));
    while j < hi
        invariant
            data.wf(),
            old(data)@.kept_by(data@),
            data@.highlights == lit_for_scan(old(data)@.highlights, lo, hi, j),
            data.name() == old(data).name(),
            data.config() == old(data).config(),
            lo <= i <= j <= hi,
            hi < data@.list.len(),
            data@.list[hi as int] == pivot,
            scanned(data@, hi, pivot, j, i) == scanned(start, hi, pivot, lo, lo),
            forall|k: int| lo <= k < i ==> data@.list[k] <= pivot,
            forall|k: int| i <= k < j ==> data@.list[k] > pivot,
            permutation(old(data)@.list, data@.list),
            same_outside(old(data)@.list, data@.list, lo as int, hi as int),
            within(data@.list, lo as int, hi as int, low, high),
        decreases hi - j,
    {
        let ghost before = data@;
        proof {
            lemma_kept_after(old(data)@, data@, Op::SetHighlight(j, scan_light()));
        }
        data.set_highlight(j, Ratio::known(3, 10));
        if data.values()[j] <= pivot {
            proof {
                lemma_swap_permutes(data@.list, i as int, j as int);
                lemma_kept_after(old(data)@, data@, Op::Swap(i, j));
            }
            data.swap(i, j);
            i += 1;
        }
        proof {
            lemma_kept_after(old(data)@, data@, Op::SetHighlight(j, no_light()));
        }
        data.set_highlight(j, Ratio::zero());
        assert(data@.highlights =~= lit_for_scan(old(data)@.highlights, lo, hi, (j + 1) as usize));
        j += 1;
    }
    proof {
        lemma_kept_after(old(data)@, data@, Op::SetHighlight(hi, no_light()));
    }
    data.set_highlight(hi, Ratio::zero());
    assert(data@.highlights =~= unlit(old(data)@.highlights, lo, hi));
    proof {
        lemma_swap_permutes(data@.list, i as int, hi as int);
        lemma_kept_after(old(data)@, data@, Op::Swap(i, hi));
    }
    data.swap(i, hi);
    i
}

/// Sorts the range `lo..=hi`, whose values lie in `low..=high`.
fn qsort_recurse(
    data: &mut SortData,
    lo: usize,
    hi: usize,
    Ghost(low): Ghost<int>,
    Ghost(high): Ghost<int>,
)
    requires
        old(data).wf(),
        lo < hi ==> hi < old(data)@.list.len(),
        within(old(data)@.list, lo as int, hi as int, low, high),
    ensures
        final(data).wf(),
        final(data).name() == old(data).name(),
        final(data).config() == old(data).config(),
        final(data)@ == quicksorted(old(data)@, lo, hi),
        old(data)@.kept_by(final(data)@),
        final(data)@.highlights == if lo < hi {
            unlit(old(data)@.highlights, lo, hi)
        } else {
            old(data)@.highlights
        },
        permutation(old(data)@.list, final(data)@.list),
        same_outside(old(data)@.list, final(data)@.list, lo as int, hi as int),
        within(final(data)@.list, lo as int, hi as int, low, high),
        sorted_between(final(data)@.list, lo as int, hi as int),
    decreases hi + 1 - lo,
{
    if lo >= hi {
        proof {
            lemma_kept_by_itself(data@);
        }
        return ;
    }
    let pivot: usize = partition(data, lo, hi, Ghost(low), Ghost(high));
    let ghost first = data@;
    let ghost parted = data@.list;
    let ghost value = parted[pivot as int] as int;
    let before: usize = if pivot == 0 {
        0
    } else {
        pivot - 1
    };
    qsort_recurse(data, lo, before, Ghost(low), Ghost(value));
    let ghost second = data@;
    let ghost left = data@.list;
    qsort_recurse(data, pivot + 1, hi, Ghost(value + 1), Ghost(high));
    proof {
        lemma_kept_on(old(data)@, first, second);
        lemma_kept_on(old(data)@, second, data@);
        assert(second.highlights =~= first.highlights);
        assert(data@.highlights =~= first.highlights);
        let done = data@.list;
        assert(done[pivot as int] == value);
        assert forall|k: int| lo <= k < pivot implies done[k] <= value by {
            assert(left[k] <= value);
        }
        assert forall|k: int| pivot < k <= hi implies done[k] > value by {
            assert(done[k] >= value + 1);
        }
    }
}

/// Sorts the array of a run by quicksort, with the last value of a range as
/// its pivot. Every swap schedules a frame; the pivot and the index under
/// inspection are lit while a range is partitioned, so that a run of two or
/// more values ends without any highlight. The frames scheduled before stay
/// as they are.
pub fn qsort(data: &mut SortData)
    requires
        old(data).wf(),
    ensures
        final(data).wf(),
        final(data).name() == old(data).name(),
        final(data).config() == old(data).config(),
        final(data)@ == qsort_spec(old(data)@),
        sorted(final(data)@.list),
        permutation(old(data)@.list, final(data)@.list),
        old(data)@.kept_by(final(data)@),
        final(data)@.highlights == if old(data)@.list.len() >= 2 {
            Map::empty()
        } else {
            old(data)@.highlights
        },
{
    let n: usize = data.values().len();
    if n == 0 {
        proof {
            lemma_kept_by_itself(data@);
        }
        return ;
    }
    qsort_recurse(data, 0, n - 1, Ghost(0), Ghost(u32::MAX as int));
    assert(n >= 2 ==> data@.highlights =~= Map::empty());
}

/// What a bubble sort leaves behind: the sorted list, and one image for each
/// swap that it made, in the order of the swaps.
#[derive(Clone, Debug)]
pub struct BubbleRun {
    pub list: Vec<u32>,
    pub images: Vec<NamedImage>,
}

/// The list after bubble sort has compared the value at `i` with the values
/// at `j..`, swapping wherever the later value is the smaller one, together
/// with `shots` and the list as it stood after each of these swaps.
pub open spec fn bubble_inner(list: Seq<u32>, shots: Seq<Seq<u32>>, i: int, j: int) -> (
    Seq<u32>,
    Seq<Seq<u32>>,
)
    decreases list.len() - j,
{
    if i < 0 || i >= j || j >= list.len() {
        (list, shots)
    } else if list[j] < list[i] {
        bubble_inner(exchange(list, i, j), shots.push(exchange(list, i, j)), i, j + 1)
    } else {
        bubble_inner(list, shots, i, j + 1)
    }
}

/// The list after bubble sort has settled the indices `i..`, together with
/// `shots` and the list as it stood after each swap made for that.
pub open spec fn bubble_outer(list: Seq<u32>, shots: Seq<Seq<u32>>, i: int) -> (
    Seq<u32>,
    Seq<Seq<u32>>,
)
    decreases list.len() - i,
{
    if i < 0 || i >= list.len() {
        (list, shots)
    } else {
        bubble_rest(list, shots, i, i + 1)
    }
}

/// The list after bubble sort has finished the scan for the index `i` from
/// `j` on and has settled the indices after `i`, with the shots as in
/// [`bubble_outer`].
pub open spec fn bubble_rest(list: Seq<u32>, shots: Seq<Seq<u32>>, i: int, j: int) -> (
    Seq<u32>,
    Seq<Seq<u32>>,
)
    decreases list.len() - i, 0int,
{
    let (next, more) = bubble_inner(list, shots, i, j);
    if 0 <= i < list.len() && next.len() == list.len() {
        bubble_outer(next, more, i + 1)
    } else {
        (next, more)
    }
}

/// The list as bubble sort leaves it, and the list as it stood after each
/// swap on the way.
pub open spec fn bubble_shots(list: Seq<u32>) -> (Seq<u32>, Seq<Seq<u32>>) {
    bubble_outer(list, Seq::empty(), 0)
}

/// `image` is the image of swap `k`: it shows `shot` without highlights and
/// has the name of frame `k` of the run `sort`.
pub open spec fn shown(sort: Sort, shot: Seq<u32>, k: int, image: NamedImage) -> bool {
    &&& image.name@ == frame_file_name_spec("sort"@, k as nat)
    &&& sort.render_spec(shot, Map::empty()) == Ok::<Seq<u8>, RenderError>(image.data@)
}

/// `images` are the images of `shots`, one for one.
pub open spec fn all_shown(sort: Sort, shots: Seq<Seq<u32>>, images: Seq<NamedImage>) -> bool {
    &&& images.len() == shots.len()
    &&& forall|k: int| 0 <= k < shots.len() ==> shown(sort, shots[k], k, #[trigger] images[k])
}

/// What [`bubble_sort`] returns for `list`: the sorted list with the image of
/// every swap, or else the error of the first swap whose image could not be
/// made.
pub open spec fn bubble_outcome(
    sort: Sort,
    list: Seq<u32>,
    r: Result<BubbleRun, RenderError>,
) -> bool {
    match r {
        Ok(run) => {
            &&& run.list@ == bubble_shots(list).0
            &&& all_shown(sort, bubble_shots(list).1, run.images@)
        },
        Err(e) => exists|k: int| first_failure(sort, bubble_shots(list).1, k, e),
    }
}

/// Shot `k` is the first one that cannot be rendered, and `e` is why.
pub open spec fn first_failure(sort: Sort, shots: Seq<Seq<u32>>, k: int, e: RenderError) -> bool {
    &&& 0 <= k < shots.len()
    &&& sort.render_spec(shots[k], Map::empty()) == Err::<Seq<u8>, RenderError>(e)
    &&& forall|m: int| 0 <= m < k ==> sort.render_spec(#[trigger] shots[m], Map::empty()) is Ok
}

/// The first `i` values ascend, and none of them is above a later value.
pub open spec fn settled(list: Seq<u32>, i: int) -> bool {
    &&& forall|a: int, b: int| 0 <= a <= b < i ==> list[a] <= list[b]
    &&& forall|a: int, b: int| 0 <= a < i <= b < list.len() ==> list[a] <= list[b]
}

/// The value at `i` is not above any value at `i + 1..j`.
pub open spec fn least_so_far(list: Seq<u32>, i: int, j: int) -> bool {
    forall|k: int| i < k < j ==> list[i] <= list[k]
}

/// A scan that finds the later value no smaller goes on with the same list.
pub proof fn lemma_scan_keeps(list: Seq<u32>, shots: Seq<Seq<u32>>, i: int, j: int)
    requires
        0 <= i < j < list.len(),
        list[j] >= list[i],
        settled(list, i),
        least_so_far(list, i, j),
    ensures
        bubble_rest(list, shots, i, j) == bubble_rest(list, shots, i, j + 1),
        least_so_far(list, i, j + 1),
{
}

/// A scan that finds the later value smaller goes on with the two values
/// exchanged and one more shot.
pub proof fn lemma_scan_swaps(list: Seq<u32>, shots: Seq<Seq<u32>>, i: int, j: int)
    requires
        0 <= i < j < list.len(),
        list[j] < list[i],
        settled(list, i),
        least_so_far(list, i, j),
    ensures
        bubble_rest(list, shots, i, j) == bubble_rest(
            exchange(list, i, j),
            shots.push(exchange(list, i, j)),
            i,
            j + 1,
        ),
        settled(exchange(list, i, j), i),
        least_so_far(exchange(list, i, j), i, j + 1),
        permutation(list, exchange(list, i, j)),
{
    lemma_swap_permutes(list, i, j);
}

/// When the scan for `i` is over, the first `i + 1` values are settled, and
/// the sort goes on with the next index.
pub proof fn lemma_scan_ends(list: Seq<u32>, shots: Seq<Seq<u32>>, i: int)
    requires
        0 <= i < list.len(),
        settled(list, i),
        least_so_far(list, i, list.len() as int),
    ensures
        bubble_rest(list, shots, i, list.len() as int) == bubble_outer(list, shots, i + 1),
        settled(list, i + 1),
{
}

/// The inner scan keeps the length of the list and every earlier shot.
pub proof fn lemma_inner_extends(list: Seq<u32>, shots: Seq<Seq<u32>>, i: int, j: int)
    ensures
        bubble_inner(list, shots, i, j).0.len() == list.len(),
        bubble_inner(list, shots, i, j).1.len() >= shots.len(),
        forall|k: int|
            0 <= k < shots.len() ==> #[trigger] bubble_inner(list, shots, i, j).1[k] == shots[k],
    decreases list.len() - j,
{
    if i < 0 || i >= j || j >= list.len() {
    } else if list[j] < list[i] {
        let next = exchange(list, i, j);
        lemma_inner_extends(next, shots.push(next), i, j + 1);
        assert forall|k: int| 0 <= k < shots.len() implies #[trigger] bubble_inner(
            list,
            shots,
            i,
            j,
        ).1[k] == shots[k] by {
            assert(shots.push(next)[k] == shots[k]);
        }
    } else {
        lemma_inner_extends(list, shots, i, j + 1);
    }
}

/// The rest of a sort keeps the length of the list and every earlier shot.
pub proof fn lemma_rest_extends(list: Seq<u32>, shots: Seq<Seq<u32>>, i: int, j: int)
    ensures
        bubble_rest(list, shots, i, j).0.len() == list.len(),
        bubble_rest(list, shots, i, j).1.len() >= shots.len(),
        forall|k: int|
            0 <= k < shots.len() ==> #[trigger] bubble_rest(list, shots, i, j).1[k] == shots[k],
    decreases list.len() - i,
{
    let (next, more) = bubble_inner(list, shots, i, j);
    lemma_inner_extends(list, shots, i, j);
    if 0 <= i < list.len() {
        if i + 1 < next.len() {
            lemma_rest_extends(next, more, i + 1, i + 2);
        }
        assert forall|k: int| 0 <= k < shots.len() implies #[trigger] bubble_rest(
            list,
            shots,
            i,
            j,
        ).1[k] == shots[k] by {
            assert(more[k] == shots[k]);
        }
    }
}

/// A shot that cannot be rendered, taken after shots that all could, is the
/// first failure of the whole sort.
pub proof fn lemma_first_failure(
    sort: Sort,
    start: Seq<u32>,
    list: Seq<u32>,
    shots: Seq<Seq<u32>>,
    images: Seq<NamedImage>,
    i: int,
    j: int,
    e: RenderError,
)
    requires
        all_shown(sort, shots, images),
        sort.render_spec(list, Map::empty()) == Err::<Seq<u8>, RenderError>(e),
        bubble_rest(list, shots.push(list), i, j) == bubble_shots(start),
    ensures
        bubble_outcome(sort, start, Err(e)),
{
    let all = bubble_shots(start).1;
    let now = shots.push(list);
    lemma_rest_extends(list, now, i, j);
    let k = shots.len() as int;
    assert(all[k] == now[k]);
    assert forall|m: int| 0 <= m < k implies sort.render_spec(#[trigger] all[m], Map::empty())
        is Ok by {
        assert(all[m] == now[m]);
        assert(shown(sort, shots[m], m, images[m]));
    }
    assert(first_failure(sort, all, k, e));
}

/// Renders `list` without highlights and adds the image to `images`, under
/// the name of the next frame of the run `sort`.
fn shoot(
    sort: &Sort,
    list: &Vec<u32>,
    images: &mut Vec<NamedImage>,
    Ghost(shots): Ghost<Seq<Seq<u32>>>,
) -> (r: Result<(), RenderError>)
    requires
        all_shown(*sort, shots, old(images)@),
    ensures
        match r {
            Ok(_) => all_shown(*sort, shots.push(list@), final(images)@),
            Err(e) => {
                &&& final(images)@ == old(images)@
                &&& sort.render_spec(list@, Map::empty()) == Err::<Seq<u8>, RenderError>(e)
            },
        },
{
    let highlights: HashMap<usize, Ratio> = HashMap::new();
    assert(fracs(highlights@) =~= Map::empty());
    match sort.render(list, highlights) {
        Ok(data) => {
            let name = frame_file_name("sort", images.len());
            images.push(NamedImage { name, data });
            assert forall|k: int| 0 <= k < shots.push(list@).len() implies shown(
                *sort,
                shots.push(list@)[k],
                k,
                #[trigger] images@[k],
            ) by {
                if k < shots.len() {
                    assert(images@[k] == old(images)@[k]);
                }
            }
            Ok(())
        },
        Err(e) => Err(e),
    }
}

/// Sorts `list` by comparing every value with every later one and swapping
/// the two wherever the later one is smaller. After each swap the list is
/// rendered without highlights; the images come back in the order of the
/// swaps, named `sort-0.png`, `sort-1.png` and so on. The first image that
/// cannot be made ends the sort with its error.
pub fn bubble_sort(sort: &Sort, list: Vec<u32>) -> (r: Result<BubbleRun, RenderError>)
    ensures
        bubble_outcome(*sort, list@, r),
        r matches Ok(run) ==> sorted(run.list@) && permutation(list@, run.list@),
{
    let ghost start = list@;
    let mut values = list;
    let mut images: Vec<NamedImage> = Vec::new();
    let ghost mut shots: Seq<Seq<u32>> = Seq::empty();
    let n: usize = values.len();
    let mut i: usize = 0;
    while i < n
        invariant
            start == list@,
            n == values@.len(),
            i <= n,
            bubble_outer(values@, shots, i as int) == bubble_shots(start),
            all_shown(*sort, shots, images@),
            permutation(start, values@),
            settled(values@, i as int),
        decreases n - i,
    {
        let mut j: usize = i + 1;
        while j < n
            invariant
                start == list@,
                n == values@.len(),
                i < j <= n,
                bubble_rest(values@, shots, i as int, j as int) == bubble_shots(start),
                all_shown(*sort, shots, images@),
                permutation(start, values@),
                settled(values@, i as int),
                least_so_far(values@, i as int, j as int),
            decreases n - j,
        {
            if values[j] < values[i] {
                let ghost before = values@;
                proof {
                    lemma_scan_swaps(before, shots, i as int, j as int);
                }
                let tmp: u32 = values[j];
                let other: u32 = values[i];
                values[j] = other;
                values[i] = tmp;
                assert(values@ =~= exchange(before, i as int, j as int));
                match shoot(sort, &values, &mut images, Ghost(shots)) {
                    Ok(_) => {
                        proof {
                            shots = shots.push(values@);
                        }
                    },
                    Err(e) => {
                        proof {
                            lemma_first_failure(
                                *sort,
                                start,
                                values@,
                                shots,
                                images@,
                                i as int,
                                j + 1,
                                e,
                            );
                        }
                        return Err(e);
                    },
                }
            } else {
                proof {
                    lemma_scan_keeps(values@, shots, i as int, j as int);
                }
            }
            j += 1;
        }
        proof {
            lemma_scan_ends(values@, shots, i as int);
        }
        i += 1;
    }
    Ok(BubbleRun { list: values, images })
}

} // verus!
