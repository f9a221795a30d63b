use std::collections::HashMap;

use sortviz::color::{Color, Gradient};
use sortviz::queue::Step;
use sortviz::ratio::Ratio;
use sortviz::render::{RenderError, Sort};
use sortviz::sorting::{bubble_sort, qsort};
use sortviz::state::{FrameSnapshot, SortData};

fn config() -> Sort {
    Sort {
        bar_width: 2,
        height: 4,
        margin: 1,
        margin_top: 1,
        spacing: 1,
        bg_color: Color(0x101010),
        colors: Gradient { colors: vec![Color(0x0000FF), Color(0xFF0000)] },
    }
}

fn entries(map: &HashMap<usize, Ratio>) -> Vec<(usize, i64, i64)> {
    let mut all: Vec<(usize, i64, i64)> = map.iter().map(|(k, v)| (*k, v.numer(), v.denom())).collect();
    all.sort();
    all
}

fn drain(data: SortData) -> Vec<FrameSnapshot> {
    let mut queue = data.finish();
    let mut frames = Vec::new();
    loop {
        match queue.next_step() {
            Step::Start(job) => {
                frames.push(job.frame);
                queue.task_finished(true);
            }
            Step::Done => return frames,
            other => panic!("{:?}", other),
        }
    }
}

fn quicksorted(list: Vec<u32>) -> (Vec<u32>, Vec<FrameSnapshot>) {
    let mut data = SortData::new(config(), "quicksort", list);
    qsort(&mut data);
    let sorted = data.values().clone();
    (sorted, drain(data))
}

#[test]
fn qsort_sorts_a_permutation() {
    let list = vec![5, 19, 1, 7, 12, 3, 18, 2, 9, 14, 4, 16, 6, 11, 8, 17, 10, 13, 15];
    let (sorted, _) = quicksorted(list);
    assert_eq!(sorted, (1..20).collect::<Vec<u32>>());
}

#[test]
fn qsort_keeps_every_value_as_often_as_it_occurs() {
    let (sorted, _) = quicksorted(vec![3, 1, 3, 0, 2, 1, 3]);
    assert_eq!(sorted, vec![0, 1, 1, 2, 3, 3, 3]);
}

#[test]
fn qsort_of_nothing_and_of_one_value_does_nothing() {
    assert_eq!(quicksorted(vec![]).0, Vec::<u32>::new());
    assert!(quicksorted(vec![]).1.is_empty());
    assert_eq!(quicksorted(vec![7]).0, vec![7]);
    assert!(quicksorted(vec![7]).1.is_empty());
}

#[test]
fn qsort_of_two_values_out_of_order_places_the_pivot_with_one_swap() {
    let (sorted, frames) = quicksorted(vec![2, 1]);
    assert_eq!(sorted, vec![1, 2]);
    assert_eq!(frames.len(), 1);
    assert_eq!(frames[0].list, vec![1, 2]);
    assert_eq!(frames[0].number, 0);
    assert_eq!(entries(&frames[0].highlights), vec![(0, 1, 5), (1, 1, 5)]);
}

#[test]
fn qsort_of_two_values_in_order_swaps_each_with_itself() {
    let (sorted, frames) = quicksorted(vec![1, 2]);
    assert_eq!(sorted, vec![1, 2]);
    assert_eq!(frames.len(), 2);
    // the scan finds 1 below the pivot: the pivot is lit, the index is marked by the swap
    assert_eq!(frames[0].list, vec![1, 2]);
    assert_eq!(entries(&frames[0].highlights), vec![(0, 1, 5), (1, 1, 2)]);
    // then the pivot is put in its place, with no highlight left but the swap's
    assert_eq!(frames[1].list, vec![1, 2]);
    assert_eq!(entries(&frames[1].highlights), vec![(1, 1, 5)]);
}

#[test]
fn qsort_shows_the_scan_of_a_partition() {
    let (sorted, frames) = quicksorted(vec![3, 1, 2]);
    assert_eq!(sorted, vec![1, 2, 3]);
    let lists: Vec<Vec<u32>> = frames.iter().map(|f| f.list.clone()).collect();
    // pivot 2: 3 stays, 1 is swapped to the front, the pivot goes between them; then [3] and [1] are single.
    assert_eq!(lists, vec![vec![1, 3, 2], vec![1, 2, 3]]);
    assert_eq!(entries(&frames[0].highlights), vec![(0, 1, 5), (1, 1, 5), (2, 1, 2)]);
    assert_eq!(entries(&frames[1].highlights), vec![(1, 1, 5), (2, 1, 5)]);
}

#[test]
fn qsort_leaves_no_highlight_behind() {
    let mut data = SortData::new(config(), "quicksort", vec![4, 2, 5, 1, 3]);
    qsort(&mut data);
    for idx in 0..5 {
        assert!(data.highlight(idx).is_zero());
    }
}

#[test]
fn qsort_numbers_its_frames_from_the_count_it_starts_with() {
    let mut data = SortData::new(config(), "quicksort", vec![2, 1, 3]);
    data.swap(0, 1);
    data.swap(0, 1);
    qsort(&mut data);
    let count = data.frame_count();
    let frames = drain(data);
    assert_eq!(frames.len(), count);
    let numbers: Vec<usize> = frames.iter().map(|f| f.number).collect();
    assert_eq!(numbers, (0..count).collect::<Vec<usize>>());
    assert_eq!(frames[0].list, vec![1, 2, 3]);
    assert_eq!(frames[1].list, vec![2, 1, 3]);
}

#[test]
fn qsort_of_a_descending_list_sorts_it() {
    let (sorted, frames) = quicksorted(vec![6, 5, 4, 3, 2, 1]);
    assert_eq!(sorted, vec![1, 2, 3, 4, 5, 6]);
    assert_eq!(frames.last().unwrap().list, vec![1, 2, 3, 4, 5, 6]);
}

#[test]
fn bubble_sort_sorts_and_shows_every_swap() {
    let run = bubble_sort(&config(), vec![3, 1, 2]).unwrap();
    assert_eq!(run.list, vec![1, 2, 3]);
    // 3,1,2 -> 1,3,2 -> 1,2,3
    assert_eq!(run.images.len(), 2);
    assert_eq!(run.images[0].name, "sort-0.png");
    assert_eq!(run.images[1].name, "sort-1.png");
    assert_eq!(run.images[0].data, config().render(&vec![1, 3, 2], HashMap::new()).unwrap());
    assert_eq!(run.images[1].data, config().render(&vec![1, 2, 3], HashMap::new()).unwrap());
}

#[test]
fn bubble_sort_of_a_sorted_list_makes_no_image() {
    let run = bubble_sort(&config(), vec![1, 2, 3, 4]).unwrap();
    assert_eq!(run.list, vec![1, 2, 3, 4]);
    assert!(run.images.is_empty());
    let run = bubble_sort(&config(), vec![]).unwrap();
    assert!(run.list.is_empty() && run.images.is_empty());
}

#[test]
fn bubble_sort_makes_one_image_for_each_swap() {
    // 4,3,2,1: i=0 swaps at j=1,2,3; i=1 swaps at j=2,3; i=2 swaps at j=3.
    let run = bubble_sort(&config(), vec![4, 3, 2, 1]).unwrap();
    assert_eq!(run.list, vec![1, 2, 3, 4]);
    assert_eq!(run.images.len(), 6);
    assert_eq!(run.images[5].name, "sort-5.png");
    assert_eq!(run.images[0].data, config().render(&vec![3, 4, 2, 1], HashMap::new()).unwrap());
    assert_eq!(run.images[2].data, config().render(&vec![1, 4, 3, 2], HashMap::new()).unwrap());
}

#[test]
fn bubble_sort_sorts_a_permutation() {
    let list = vec![5, 19, 1, 7, 12, 3, 18, 2, 9, 14, 4, 16, 6, 11, 8, 17, 10, 13, 15];
    let run = bubble_sort(&config(), list).unwrap();
    assert_eq!(run.list, (1..20).collect::<Vec<u32>>());
}

#[test]
fn bubble_sort_without_a_swap_needs_no_renderable_chart() {
    let cfg = Sort { colors: Gradient { colors: vec![] }, ..config() };
    assert!(bubble_sort(&cfg, vec![1, 2]).is_ok());
}

#[test]
fn bubble_sort_ends_with_the_error_of_the_first_image() {
    let cfg = Sort { colors: Gradient { colors: vec![] }, ..config() };
    assert_eq!(bubble_sort(&cfg, vec![2, 1]).err(), Some(RenderError::EmptyGradient));
    let cfg = Sort { bar_width: u32::MAX, ..config() };
    assert_eq!(bubble_sort(&cfg, vec![2, 1]).err(), Some(RenderError::CanvasTooLarge));
}
