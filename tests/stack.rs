use std::cell::RefCell;
use std::rc::Rc;

use undo_history::stack::LoopedStack;

/// Records which tracked items have been dropped.
#[derive(Clone)]
struct DropLog {
    dropped: Rc<RefCell<Vec<usize>>>,
    created: Rc<RefCell<usize>>,
}

struct Item {
    id: usize,
    log: Rc<RefCell<Vec<usize>>>,
}

impl Drop for Item {
    fn drop(&mut self) {
        self.log.borrow_mut().push(self.id);
    }
}

impl DropLog {
    fn new() -> Self {
        DropLog {
            dropped: Rc::new(RefCell::new(Vec::new())),
            created: Rc::new(RefCell::new(0)),
        }
    }

    fn new_item(&self) -> Item {
        let id = *self.created.borrow();
        *self.created.borrow_mut() += 1;
        Item { id, log: self.dropped.clone() }
    }

    fn times_dropped(&self, id: usize) -> usize {
        self.dropped.borrow().iter().filter(|d| **d == id).count()
    }

    fn assert_drop(&self, id: usize) {
        assert_eq!(self.times_dropped(id), 1, "item {} should be dropped once", id);
    }

    fn assert_no_drop(&self, id: usize) {
        assert_eq!(self.times_dropped(id), 0, "item {} should be alive", id);
    }

    fn num_dropped_items(&self) -> usize {
        self.dropped.borrow().len()
    }
}

#[test]
fn test_looped_stack() {
    let mut stack = LoopedStack::new(3);

    assert_eq!(stack.offset(), 0);
    assert_eq!(stack.len(), 0);
    assert_eq!(stack.size(), 3);

    stack.push(1);
    assert_eq!(stack.offset(), 0);
    assert_eq!(stack.len(), 1);
    assert_eq!(stack.last(), Some(&1));

    stack.push(2);
    stack.push(3);

    assert_eq!(stack.len(), 3);
    assert_eq!(stack.offset(), 0);
    assert_eq!(stack.peek(0), Some(&3));

    stack.push(4);

    assert_eq!(stack.len(), 3);
    assert_eq!(stack.offset(), 1);

    assert_eq!(stack.get(0), Some(&2));
    assert_eq!(stack.get(1), Some(&3));
    assert_eq!(stack.get(2), Some(&4));

    assert_eq!(stack.peek(0), Some(&4));
    assert_eq!(stack.peek(1), Some(&3));
    assert_eq!(stack.peek(2), Some(&2));
    assert_eq!(stack.peek(3), None);

    assert_eq!(stack.pop(), Some(4));
    assert_eq!(stack.len(), 2);
    assert_eq!(stack.offset(), 1);
    assert_eq!(stack.pop(), Some(3));
    assert_eq!(stack.pop(), Some(2));
    assert_eq!(stack.pop(), None);
    assert_eq!(stack.offset(), 1);
    assert_eq!(stack.len(), 0);
}

#[test]
fn test_looped_stack_memory() {
    let td = DropLog::new();
    {
        let mut stack = LoopedStack::new(3);
        stack.push(td.new_item());
        stack.push(td.new_item());
        stack.push(td.new_item());
        stack.push(td.new_item());
        stack.push(td.new_item());
        let vier = stack.pop().unwrap();
        td.assert_no_drop(4);
        drop(vier);

        td.assert_drop(0);
        td.assert_drop(1);
        td.assert_no_drop(2);
        td.assert_no_drop(3);
        td.assert_drop(4);
    }
    assert_eq!(td.num_dropped_items(), 5);
}

#[test]
fn push_beyond_capacity_returns_oldest() {
    let mut stack = LoopedStack::new(2);
    assert_eq!(stack.push(10), None);
    assert_eq!(stack.push(20), None);
    assert_eq!(stack.push(30), Some(10));
    assert_eq!(stack.push(40), Some(20));
    assert_eq!(stack.len(), 2);
    assert_eq!(stack.get(0), Some(&30));
    assert_eq!(stack.get(1), Some(&40));
}

#[test]
fn capacity_one_never_exceeded() {
    let mut stack = LoopedStack::new(1);
    for v in 0..10 {
        let evicted = stack.push(v);
        assert_eq!(evicted, if v == 0 { None } else { Some(v - 1) });
        assert_eq!(stack.len(), 1);
        assert_eq!(stack.offset(), 0);
    }
    assert_eq!(stack.last(), Some(&9));
}

#[test]
fn pop_after_wraparound_push_returns_newest() {
    let mut stack = LoopedStack::new(3);
    stack.extend(vec![1, 2, 3, 4, 5]);
    // Physically the slots hold [4, 5, 3]; the newest is 5, not 3.
    assert_eq!(stack.as_slice(), &[Some(4), Some(5), Some(3)]);
    assert_eq!(stack.pop(), Some(5));
    assert_eq!(stack.pop(), Some(4));
    assert_eq!(stack.pop(), Some(3));
    assert_eq!(stack.pop(), None);
}

#[test]
fn extend_discards_evicted_values() {
    let mut stack = LoopedStack::new(4);
    stack.extend(vec![1, 2]);
    assert_eq!(stack.len(), 2);
    stack.extend(vec![3, 4, 5, 6, 7]);
    assert_eq!(stack.len(), 4);
    let mut it = stack.iter();
    assert_eq!(it.next(), Some(&4));
    assert_eq!(it.next(), Some(&5));
    assert_eq!(it.next(), Some(&6));
    assert_eq!(it.next(), Some(&7));
    assert_eq!(it.next(), None);
}

#[test]
fn iter_runs_both_ways() {
    let mut stack = LoopedStack::new(3);
    stack.extend(vec![1, 2, 3, 4]);
    let mut it = stack.iter();
    assert_eq!(it.next_back(), Some(&4));
    assert_eq!(it.next(), Some(&2));
    assert_eq!(it.next_back(), Some(&3));
    assert_eq!(it.next_back(), None);
    assert_eq!(it.next(), None);
    let empty: LoopedStack<u8> = LoopedStack::new(2);
    assert_eq!(empty.iter().next(), None);
    assert_eq!(empty.last(), None);
    assert_eq!(empty.get(0), None);
}

#[test]
fn as_slice_leaves_popped_slots_empty() {
    let mut stack = LoopedStack::new(3);
    stack.extend(vec![1, 2, 3, 4]);
    stack.pop();
    assert_eq!(stack.as_slice(), &[None, Some(2), Some(3)]);
}

fn clear_and_count(cap: usize, pushes: usize, pops: usize) {
    let td = DropLog::new();
    let mut stack = LoopedStack::new(cap);
    for _ in 0..pushes {
        drop(stack.push(td.new_item()));
    }
    for _ in 0..pops {
        drop(stack.pop());
    }
    let before = td.num_dropped_items();
    let live = stack.len();
    assert_eq!(stack.clear(), live);
    assert_eq!(td.num_dropped_items(), before + live);
    for id in 0..pushes {
        assert!(td.times_dropped(id) == 1);
    }
    assert_eq!(stack.len(), 0);
    assert!(stack.as_slice().iter().all(|s| s.is_none()));
    drop(stack);
    assert_eq!(td.num_dropped_items(), pushes);
}

#[test]
fn clear_releases_each_live_slot_once() {
    // empty
    clear_and_count(3, 0, 0);
    // full, offset 0
    clear_and_count(3, 3, 0);
    // full after wrapping
    clear_and_count(3, 4, 0);
    // partly popped, offset 0
    clear_and_count(4, 3, 1);
    // offset past 0, occupied range does not wrap
    clear_and_count(4, 5, 1);
    // wrapped with a hole in the middle
    clear_and_count(3, 5, 1);
    clear_and_count(5, 8, 2);
}

#[test]
fn drop_releases_each_live_slot_once() {
    for &(cap, pushes, pops) in &[(3, 0, 0), (3, 3, 0), (3, 4, 0), (4, 5, 1), (3, 5, 1), (5, 8, 2)] {
        let td = DropLog::new();
        {
            let mut stack = LoopedStack::new(cap);
            for _ in 0..pushes {
                drop(stack.push(td.new_item()));
            }
            for _ in 0..pops {
                drop(stack.pop());
            }
        }
        assert_eq!(td.num_dropped_items(), pushes);
        for id in 0..pushes {
            assert_eq!(td.times_dropped(id), 1);
        }
    }
}
