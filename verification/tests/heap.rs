use data_structures::heap::Heap;

#[test]
fn test_sort_array() {
    let s = [1, 2, 3, 4, 5];
    let expected = [5, 4, 3, 2, 1].to_vec();
    let mut heap = Heap::<usize>::from_slice(&s, true);
    let res: Vec<usize> = (0..5).map(|_| heap.extract_root()).collect();
    assert_eq!(&expected, &res);
}

fn drain(heap: &mut Heap<usize>) -> Vec<usize> {
    let mut out = Vec::new();
    while heap.len() > 0 {
        out.push(heap.extract_root());
    }
    out
}

fn is_heap(heap: &Heap<usize>, greatest_first: bool) -> bool {
    (1..heap.len()).all(|c| {
        let child = *heap.get(c);
        let parent = *heap.get(Heap::<usize>::parent_index(c));
        if greatest_first {
            !(child > parent)
        } else {
            !(child < parent)
        }
    })
}

#[test]
fn index_arithmetic() {
    assert_eq!(Heap::<usize>::parent_index(0), 0);
    assert_eq!(Heap::<usize>::parent_index(1), 0);
    assert_eq!(Heap::<usize>::parent_index(7), 3);
    assert_eq!(Heap::<usize>::left_index(0), 0);
    assert_eq!(Heap::<usize>::left_index(3), 6);
    assert_eq!(Heap::<usize>::right_index(0), 1);
    assert_eq!(Heap::<usize>::right_index(3), 7);
}

#[test]
fn empty_heaps() {
    let greatest = Heap::<usize>::max();
    assert_eq!(greatest.len(), 0);
    let least = Heap::<usize>::min();
    assert_eq!(least.len(), 0);
    let built = Heap::<usize>::from_slice(&[], false);
    assert_eq!(built.len(), 0);
}

#[test]
fn min_heap_sorts_ascending() {
    let values = [9, 3, 7, 3, 0, 12, 5, 5, 1];
    let mut heap = Heap::<usize>::from_slice(&values, false);
    assert!(is_heap(&heap, false));
    assert_eq!(*heap.get(0), 0);
    assert_eq!(drain(&mut heap), vec![0, 1, 3, 3, 5, 5, 7, 9, 12]);
}

#[test]
fn max_heap_sorts_descending() {
    let values = [9, 3, 7, 3, 0, 12, 5, 5, 1];
    let mut heap = Heap::<usize>::from_slice(&values, true);
    assert!(is_heap(&heap, true));
    assert_eq!(*heap.get(0), 12);
    assert_eq!(drain(&mut heap), vec![12, 9, 7, 5, 5, 3, 3, 1, 0]);
}

#[test]
fn insert_keeps_the_order() {
    let mut heap = Heap::<usize>::max();
    for value in [4, 8, 1, 8, 6, 2] {
        heap.insert(value);
        assert!(is_heap(&heap, true));
    }
    assert_eq!(heap.len(), 6);
    assert_eq!(drain(&mut heap), vec![8, 8, 6, 4, 2, 1]);

    let mut heap = Heap::<usize>::min();
    for value in [4, 8, 1, 8, 6, 2] {
        heap.insert(value);
        assert!(is_heap(&heap, false));
    }
    assert_eq!(drain(&mut heap), vec![1, 2, 4, 6, 8, 8]);
}

#[test]
fn insert_at_moves_the_new_value_down() {
    let mut heap = Heap::<usize>::from_slice(&[5, 4, 3, 2, 1], true);
    heap.insert_at(0, 0);
    assert!(is_heap(&heap, true));
    assert_eq!(drain(&mut heap), vec![4, 3, 2, 1, 0]);
}

#[test]
fn insert_at_moves_the_new_value_up() {
    let mut heap = Heap::<usize>::from_slice(&[5, 4, 3, 2, 1], true);
    let last = heap.len() - 1;
    let replaced = *heap.get(last);
    heap.insert_at(last, 9);
    assert!(is_heap(&heap, true));
    assert_eq!(*heap.get(0), 9);
    let mut expected: Vec<usize> = vec![5, 4, 3, 2, 1, 9];
    let at = expected.iter().position(|v| *v == replaced).unwrap();
    expected.remove(at);
    expected.sort();
    expected.reverse();
    assert_eq!(drain(&mut heap), expected);
}

#[test]
fn remove_takes_out_the_element_at_the_index() {
    for i in 0..6 {
        let mut heap = Heap::<usize>::from_slice(&[10, 20, 30, 40, 50, 60], false);
        let gone = *heap.get(i);
        heap.remove(i);
        assert!(is_heap(&heap, false));
        let mut expected: Vec<usize> = vec![10, 20, 30, 40, 50, 60];
        expected.retain(|v| *v != gone);
        assert_eq!(drain(&mut heap), expected);
    }
}

#[test]
fn sifting_a_heap_keeps_its_elements() {
    let mut heap = Heap::<usize>::from_slice(&[2, 2, 7, 1, 7, 3], true);
    for i in 0..heap.len() {
        heap.swift_up(i);
        assert!(is_heap(&heap, true));
        heap.swift_down(i);
        assert!(is_heap(&heap, true));
    }
    heap.swift_down(100);
    assert_eq!(drain(&mut heap), vec![7, 7, 3, 2, 2, 1]);
}

#[test]
fn extract_root_of_single_element() {
    let mut heap = Heap::<usize>::from_slice(&[42], true);
    assert_eq!(heap.extract_root(), 42);
    assert_eq!(heap.len(), 0);
}
