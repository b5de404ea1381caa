use rbtree::aligned_ptr_pun::AlignedPtrPun;
use rbtree::red_black::Tree;

#[test]
fn it_works() {
}

// ---------------------------------------------------------------------------
// A red-black invariant checker, kept out of the core on purpose: it walks
// the stored structure through the public accessors and verifies, after
// every mutation, that no red link leans right, that no two red links are
// consecutive, that every root-to-sentinel path carries the same number of
// black links, and that the root is black.
// ---------------------------------------------------------------------------

fn black_height(t: &Tree, i: usize, parent_red: bool) -> usize {
    if i == 0 {
        return 1;
    }
    let red = t.node_is_red(i);
    if red {
        assert!(!parent_red, "two consecutive red links");
    }
    let l = t.node_left(i);
    let r = t.node_right(i);
    if r != 0 {
        assert!(!t.node_is_red(r), "right-leaning red link");
    }
    let bl = black_height(t, l, red);
    let br = black_height(t, r, false);
    assert_eq!(bl, br, "black height differs between subtrees");
    bl + if red { 0 } else { 1 }
}

fn check_invariants(t: &Tree) {
    let root = t.root_index();
    if root != 0 {
        assert!(!t.node_is_red(root), "root is red");
    }
    black_height(t, root, false);
}

fn height(t: &Tree, i: usize) -> usize {
    if i == 0 {
        0
    } else {
        1 + height(t, t.node_left(i)).max(height(t, t.node_right(i)))
    }
}

fn in_order(t: &mut Tree) -> Vec<u64> {
    let mut out = Vec::new();
    let mut cur = t.first();
    while let Some(i) = cur {
        out.push(t.node_key(i));
        cur = t.next(i);
    }
    out
}

fn structure_snapshot(t: &Tree) -> Vec<(usize, usize, usize, bool, u64)> {
    let mut v = Vec::new();
    v.push((t.root_index(), 0, 0, false, 0));
    for i in 0..t.slot_count() {
        v.push((i, t.node_left(i), t.node_right(i), t.node_is_red(i), t.node_key(i)));
    }
    v
}

#[test]
fn pun_packs_and_unpacks() {
    let p = AlignedPtrPun::new(4, true);
    assert_eq!(p.eliminate(), (4, true));
    let mut q = AlignedPtrPun::new(10, false);
    assert_eq!(q.eliminate(), (10, false));
    q.set_flag(true);
    assert_eq!(q.eliminate(), (10, true));
    q.set_ptr(6);
    assert_eq!(q.eliminate(), (6, true));
    q.set_flag(false);
    assert_eq!(q.eliminate(), (6, false));
}

#[test]
fn empty_tree_has_nothing() {
    let mut t = Tree::place();
    t.init();
    assert_eq!(t.first(), None);
    assert_eq!(t.last(), None);
    assert_eq!(t.search(7), None);
    assert_eq!(t.nsearch(7), None);
    assert_eq!(t.psearch(7), None);
    check_invariants(&t);
}

#[test]
fn seven_keys_scenario() {
    let mut t = Tree::place();
    t.init();
    for k in [5u64, 3, 8, 1, 4, 7, 9] {
        t.insert(k);
        check_invariants(&t);
    }
    let first = t.first().unwrap();
    assert_eq!(t.node_key(first), 1);
    let last = t.last().unwrap();
    assert_eq!(t.node_key(last), 9);
    assert_eq!(in_order(&mut t), vec![1, 3, 4, 5, 7, 8, 9]);
    let five = t.search(5).unwrap();
    t.remove(five);
    check_invariants(&t);
    assert_eq!(in_order(&mut t), vec![1, 3, 4, 7, 8, 9]);
}

#[test]
fn ascending_thousand_stays_shallow() {
    let mut t = Tree::place();
    t.init();
    for k in 1u64..=1000 {
        t.insert(k);
    }
    check_invariants(&t);
    assert!(height(&t, t.root_index()) <= 20);
    let keys = in_order(&mut t);
    assert_eq!(keys.len(), 1000);
    for (p, k) in keys.iter().enumerate() {
        assert_eq!(*k, p as u64 + 1);
    }
}

#[test]
fn search_finds_exactly_the_members() {
    let mut t = Tree::place();
    t.init();
    let mut idxs = Vec::new();
    for k in [20u64, 10, 30, 25, 5] {
        idxs.push((k, t.insert(k)));
    }
    for (k, i) in &idxs {
        let found = t.search(*k).unwrap();
        assert_eq!(found, *i);
        assert_eq!(t.node_key(found), *k);
    }
    assert_eq!(t.search(7), None);
    assert_eq!(t.search(21), None);
    assert_eq!(t.search(31), None);
}

#[test]
fn bounded_searches_find_neighbours() {
    let mut t = Tree::place();
    t.init();
    for k in [10u64, 20, 30, 40] {
        t.insert(k);
    }
    let n15 = t.nsearch(15).unwrap();
    assert_eq!(t.node_key(n15), 20);
    let n20 = t.nsearch(20).unwrap();
    assert_eq!(t.node_key(n20), 20);
    let n1 = t.nsearch(1).unwrap();
    assert_eq!(t.node_key(n1), 10);
    assert_eq!(t.nsearch(41), None);
    let p15 = t.psearch(15).unwrap();
    assert_eq!(t.node_key(p15), 10);
    let p20 = t.psearch(20).unwrap();
    assert_eq!(t.node_key(p20), 20);
    let p100 = t.psearch(100).unwrap();
    assert_eq!(t.node_key(p100), 40);
    assert_eq!(t.psearch(9), None);
    // an exact match short-circuits: all three searches agree on it
    let s = t.search(30).unwrap();
    assert_eq!(t.nsearch(30).unwrap(), s);
    assert_eq!(t.psearch(30).unwrap(), s);
}

#[test]
fn next_and_prev_walk_the_order() {
    let mut t = Tree::place();
    t.init();
    for k in [8u64, 2, 6, 4, 10] {
        t.insert(k);
    }
    let sorted = [2u64, 4, 6, 8, 10];
    let mut cur = t.first();
    for k in sorted {
        let i = cur.unwrap();
        assert_eq!(t.node_key(i), k);
        cur = t.next(i);
    }
    assert_eq!(cur, None);
    let mut cur = t.last();
    for k in sorted.iter().rev() {
        let i = cur.unwrap();
        assert_eq!(t.node_key(i), *k);
        cur = t.prev(i);
    }
    assert_eq!(cur, None);
}

#[test]
fn queries_do_not_disturb_the_shape() {
    let mut t = Tree::place();
    t.init();
    for k in [3u64, 1, 4, 5, 9, 2, 6] {
        t.insert(k);
    }
    let before = structure_snapshot(&t);
    let f = t.first();
    let l = t.last();
    t.search(4);
    t.nsearch(7);
    t.psearch(7);
    t.next(f.unwrap());
    t.prev(l.unwrap());
    let after = structure_snapshot(&t);
    assert_eq!(before, after);
}

#[test]
fn round_trip_leaves_the_tree_empty() {
    let keys = [13u64, 7, 21, 3, 9, 17, 29, 1, 5];
    // several removal orders, each back to empty with invariants intact
    let orders: [[usize; 9]; 3] = [
        [0, 1, 2, 3, 4, 5, 6, 7, 8],
        [8, 7, 6, 5, 4, 3, 2, 1, 0],
        [4, 0, 8, 2, 6, 1, 7, 3, 5],
    ];
    for order in orders {
        let mut t = Tree::place();
        t.init();
        let mut handles = Vec::new();
        for k in keys {
            handles.push(t.insert(k));
            check_invariants(&t);
        }
        for p in order {
            t.remove(handles[p]);
            check_invariants(&t);
        }
        assert_eq!(t.first(), None);
    }
}

#[test]
fn removal_keeps_the_rest() {
    let mut t = Tree::place();
    t.init();
    let mut live: Vec<u64> = Vec::new();
    for k in [50u64, 25, 75, 12, 37, 62, 87, 6, 18, 31, 43] {
        t.insert(k);
        live.push(k);
    }
    for k in [25u64, 87, 50, 6] {
        let i = t.search(k).unwrap();
        t.remove(i);
        check_invariants(&t);
        live.retain(|x| *x != k);
        let mut expect = live.clone();
        expect.sort();
        assert_eq!(in_order(&mut t), expect);
    }
}

#[test]
fn init_resets_the_tree() {
    let mut t = Tree::place();
    t.init();
    t.insert(1);
    t.insert(2);
    t.init();
    assert_eq!(t.first(), None);
    t.insert(3);
    assert_eq!(in_order(&mut t), vec![3]);
    check_invariants(&t);
}

#[test]
fn mixed_workload_keeps_invariants() {
    // a deterministic mixed workload, checked after every step
    let mut t = Tree::place();
    t.init();
    let mut live: Vec<(u64, usize)> = Vec::new();
    let mut state: u64 = 0x2545_f491_4f6c_dd1d;
    for step in 0..400 {
        state = state.wrapping_mul(6364136223846793005).wrapping_add(1442695040888963407);
        let k = state >> 40;
        if step % 3 != 2 || live.is_empty() {
            if t.search(k).is_none() {
                let i = t.insert(k);
                live.push((k, i));
            }
        } else {
            let pick = (state as usize >> 8) % live.len();
            let (_, i) = live.swap_remove(pick);
            t.remove(i);
        }
        check_invariants(&t);
    }
    let mut expect: Vec<u64> = live.iter().map(|kv| kv.0).collect();
    expect.sort();
    assert_eq!(in_order(&mut t), expect);
    let ops = live.len();
    for _ in 0..ops {
        let (_, i) = live.pop().unwrap();
        t.remove(i);
        check_invariants(&t);
    }
    assert_eq!(t.first(), None);
}
