use sorted_queue::SortedQueue;

use std::collections::HashMap;

#[test]
fn compare_tuple() {
    let x = (4, "hello");
    let y = (4, "there");
    println!("{}", x > y);
}

#[derive(Debug)]
struct Employee<'a> {
    name: &'a str,
    id: u64,
}

#[test]
fn simple_queue() {
    let emp_list = vec![
        Employee { name: "victor", id: 10237 },
        Employee { name: "hugo", id: 2937 },
        Employee { name: "marcus", id: 1902 },
    ];
    let mut queue = SortedQueue::new(true);
    for i in 0..3 {
        queue.enq(i as i64, emp_list[i].id);
    }
    let mut seen = vec![];
    for _ in 0..3 {
        let (_, emp_id) = queue.deq().unwrap();
        let emp = emp_list.iter().find(|e| e.id == emp_id).unwrap();
        println!("{:?}", emp);
        seen.push(emp_id);
    }
    // max-first: the employees come back from the highest priority down
    assert_eq!(seen, vec![1902, 2937, 10237]);
}

#[test]
fn graph_queue() {
    let adjacency_list: Vec<Vec<(usize, i64)>> = vec![
        vec![(1, 4), (2, 3)],
        vec![(2, 5), (3, 2)],
        vec![(3, 7)],
        vec![(4, 2)],
        vec![(0, 4), (1, 4), (5, 6)],
        vec![],
    ];
    let infinity = i64::from(i32::MAX);
    let mut queue: SortedQueue = SortedQueue::new(false);
    for i in 1..adjacency_list.len() {
        queue.enq(infinity, i as u64);
    }
    let mut weights = vec![infinity; 6];
    weights[0] = 0;
    let mut path = HashMap::new();
    path.insert(0, 0);
    let (mut cur_weight, mut cur_node): (i64, usize) = (0, 0);
    loop {
        for adj in adjacency_list[cur_node].iter() {
            let (index, weight) = adj;
            let total_weight = weight + cur_weight;
            if total_weight < weights[*index] {
                queue.change_priority(total_weight, *index as u64).unwrap();
                weights[*index] = total_weight;
                path.insert(*index, cur_node);
            }
        }
        if queue.size() == 0 {
            break;
        }
        let cur = queue.deq().unwrap();
        cur_weight = cur.0;
        cur_node = cur.1 as usize;
    }
    let mut traversal = vec![];
    let mut next = 5;
    loop {
        traversal.push(next);
        if next != 0 {
            next = *path.get(&next).unwrap();
        } else {
            break;
        }
    }
    traversal.reverse();
    println!("{:?}", traversal);
    assert_eq!(traversal, vec![0, 1, 3, 4, 5]);
    assert_eq!(weights, vec![0, 4, 3, 6, 8, 14]);
}
