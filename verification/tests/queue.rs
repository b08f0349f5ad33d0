use polyanya::queue::{OperationQueue, PolygonMeshSetOperation};

fn union(a: &Vec<u32>, b: &Vec<u32>) -> Vec<u32> {
    let mut r = a.clone();
    r.extend(b.iter().copied());
    r
}

fn kinds(ops: &[PolygonMeshSetOperation<Vec<u32>>]) -> Vec<(bool, Vec<u32>)> {
    ops.iter()
        .map(|op| match op {
            PolygonMeshSetOperation::Add(s) => (true, s.clone()),
            PolygonMeshSetOperation::Subtract(s) => (false, s.clone()),
        })
        .collect()
}

#[test]
fn new_queue_is_empty() {
    let queue: OperationQueue<Vec<u32>> = OperationQueue::new();
    assert!(queue.is_empty());
    assert_eq!(queue.len(), 0);
}

#[test]
fn consecutive_operations_of_one_kind_merge() {
    let mut queue = OperationQueue::new();
    queue.queue_add(vec![1], union);
    queue.queue_add(vec![2], union);
    queue.queue_subtract(vec![3], union);
    queue.queue_subtract(vec![4], union);
    queue.queue_add(vec![5], union);
    assert_eq!(queue.len(), 3);
    assert!(!queue.is_empty());
    let ops = queue.take_operations();
    assert_eq!(kinds(&ops), vec![(true, vec![1, 2]), (false, vec![3, 4]), (true, vec![5])]);
    assert!(queue.is_empty());
}

#[test]
fn subtract_first_then_add() {
    let mut queue = OperationQueue::new();
    queue.queue_subtract(vec![7], union);
    queue.queue_add(vec![8], union);
    let ops = queue.take_operations();
    assert_eq!(kinds(&ops), vec![(false, vec![7]), (true, vec![8])]);
}
