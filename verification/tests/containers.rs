use algos::deque::Deque;
use algos::linklist::List;
use algos::linklist_stack::LStack;
use algos::queue::Queue;
use algos::stack::Stack;
use algos::vec_impl::LVec;

#[test]
fn stack_basic() {
    let mut s = Stack::new();
    s.push(1);
    s.push(2);
    s.push(3);

    println!("size: {}, {:?}", s.len(), s);
    println!("pop: {}, size: {:?}", s.pop().unwrap(), s.len());
    println!("empty: {}, {:?}", s.is_empty(), s);

    s.clear();
    println!("{:?}", s);
}

#[test]
fn peek() {
    let mut s = Stack::new();
    s.push(1);
    s.push(2);
    s.push(3);

    println!("{:?}", s);
    let peek_mut = s.peek_mut();
    if let Some(top) = peek_mut {
        *top = 4;
    }

    println!("top: {:?}", s.peek().unwrap());
    println!("{:?}", s);
    assert_eq!(s.peek(), Some(&4));
}

#[test]
fn stack_iterators_run_top_first() {
    let mut s = Stack::new();
    s.push(10);
    s.push(20);
    s.push(30);

    let mut it = s.iter();
    assert_eq!(it.next(), Some(&30));
    assert_eq!(it.next(), Some(&20));
    assert_eq!(it.next(), Some(&10));
    assert_eq!(it.next(), None);

    let mut owned = s.into_iter();
    assert_eq!(owned.next(), Some(30));
    assert_eq!(owned.next(), Some(20));
    assert_eq!(owned.next(), Some(10));
    assert_eq!(owned.next(), None);
}

#[test]
fn queue_basic_test() {
    let mut q = Queue::new(4);
    let _r1 = q.enqueue(1);
    let _r2 = q.enqueue(2);
    let _r3 = q.enqueue(3);
    let _r4 = q.enqueue(4);

    if let Err(e) = q.enqueue(5) {
        println!("Enqueue error: {}", e);
    }
    assert!(q.enqueue(5).is_err());

    if let Some(data) = q.dequeue() {
        println!("dequeue data: {}", data);
    } else {
        println!("empty queue");
    }

    println!("empty: {}, len: {}", q.is_empty(), q.len());
    println!("full: {}", q.is_full());
    println!("q: {:?}", q);
    q.clear();
    println!("{:?}", q);
}

#[test]
fn queue_runs_first_in_first_out() {
    let mut q = Queue::new(3);
    assert_eq!(q.enqueue(1), Ok(()));
    assert_eq!(q.enqueue(2), Ok(()));
    assert_eq!(q.enqueue(3), Ok(()));
    assert_eq!(q.dequeue(), Some(1));
    assert_eq!(q.dequeue(), Some(2));
    assert_eq!(q.enqueue(4), Ok(()));
    assert_eq!(q.dequeue(), Some(3));
    assert_eq!(q.dequeue(), Some(4));
    assert_eq!(q.dequeue(), None);
}

#[test]
fn deque_basic_test() {
    let mut d = Deque::new(4);
    let _r1 = d.add_front(1);
    let _r2 = d.add_front(2);
    let _r3 = d.add_rear(3);
    let _r4 = d.add_rear(4);

    if let Err(e) = d.add_front(5) {
        println!("add_front error: {:?}", e);
    }
    assert!(d.add_front(5).is_err());
    println!("{:?}", d);

    match d.remove_rear() {
        Some(val) => println!("remove rear data {val}"),
        None => println!("empty deque"),
    }

    match d.remove_front() {
        Some(val) => println!("remove rear data {val}"),
        None => println!("empty deque"),
    }

    println!("empty: {}, len: {}", d.is_empty(), d.len());
    println!("full: {}, {:?}", d.is_full(), d);

    d.clear();
    println!("{:?}", d);
}

#[test]
fn deque_works_at_both_ends() {
    let mut d = Deque::new(4);
    assert_eq!(d.add_front(1), Ok(()));
    assert_eq!(d.add_front(2), Ok(()));
    assert_eq!(d.add_rear(3), Ok(()));
    assert_eq!(d.add_rear(4), Ok(()));
    assert_eq!(d.remove_rear(), Some(4));
    assert_eq!(d.remove_front(), Some(2));
    assert_eq!(d.remove_front(), Some(1));
    assert_eq!(d.remove_rear(), Some(3));
    assert_eq!(d.remove_front(), None);
}

#[test]
fn linklist_basic_test() {
    let mut list = List::new();
    list.push(1);
    list.push(2);
    list.push(3);

    assert_eq!(list.len(), 3);
    assert_eq!(list.is_empty(), false);
    assert_eq!(list.pop(), Some(3));
    assert_eq!(list.peek(), Some(&2));
    assert_eq!(list.peek_mut(), Some(&mut 2));

    list.peek_mut().map(|val| {
        *val = 4;
    });
    assert_eq!(list.peek(), Some(&4));
    list.clear();
}

#[test]
fn into_iter_test() {
    let mut list = List::new();
    list.push(1);
    list.push(2);
    list.push(3);

    let mut iter = list.into_iter();
    assert_eq!(iter.next(), Some(3));
    assert_eq!(iter.next(), Some(2));
    assert_eq!(iter.next(), Some(1));
    assert_eq!(iter.next(), None);
}

#[test]
fn linklist_iter_borrows_in_order() {
    let mut list = List::new();
    list.push(1);
    list.push(2);
    list.push(3);

    let mut iter = list.iter();
    assert_eq!(iter.next(), Some(&3));
    assert_eq!(iter.next(), Some(&2));
    assert_eq!(iter.next(), Some(&1));
    assert_eq!(iter.next(), None);
    assert_eq!(list.len(), 3);
}

#[test]
fn linklist_stack_basic() {
    let mut s = LStack::new();
    s.push(1);
    s.push(2);
    s.push(3);

    println!("empty: {:?}", s.is_empty());
    println!("top: {:?}, size: {}", s.peek(), s.len());
    println!("pop: {:?}, size: {}", s.pop(), s.len());

    if let Some(data) = s.peek_mut() {
        *data = 4
    }
    println!("top: {:?}, size: {}", s.peek(), s.len());
    println!("{:?}", s);
    assert_eq!(s.peek(), Some(&4));
    s.clear();
    println!("{:?}", s);
    assert!(s.is_empty());
}

#[test]
fn vec_impl_basic_ops() {
    let mut lvec1 = LVec::new();
    lvec1.push(10);
    lvec1.push(11);
    lvec1.push(12);
    lvec1.push(13);
    lvec1.insert(0, 9);
    assert_eq!(lvec1.len(), 5);

    let mut lvec2 = LVec::new();
    lvec2.insert(0, 8);
    lvec2.append(&mut lvec1);
    assert_eq!(lvec2.len(), 6);
    assert!(lvec1.is_empty());

    assert_eq!(lvec2.pop(), Some(13));
    assert_eq!(lvec2.remove(0), Some(8));
    assert_eq!(lvec2.remove(100), None);
    assert_eq!(lvec2.len(), 4);

    lvec2.clear();
    assert!(lvec2.is_empty());
}

#[test]
fn vec_impl_iter() {
    let mut lvec = LVec::new();
    lvec.push(10);
    lvec.push(11);
    lvec.push(12);
    lvec.push(13);

    let mut expected = 10;
    let mut it = lvec.into_iter();
    while let Some(i) = it.next() {
        println!("{} ", i);
        assert_eq!(i, expected);
        expected += 1;
    }
}
