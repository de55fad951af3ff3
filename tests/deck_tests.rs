use deck::Deck;

fn deck_of(n: usize) -> Deck<usize> {
    let mut deck = Deck::<usize>::new();
    (0..n).for_each(|i| deck.put_top(i));
    deck
}

#[test]
fn test_draw() {
    let mut deck = Deck::<u8>::new();

    assert!(!deck.can_draw());
    assert_eq!(deck.see_draw().len(), 0);
    assert_eq!(deck.remaining(), 0);
    assert_eq!(deck.draw_top(), None);
    assert_eq!(deck.draw_bottom(), None);

    deck.put_top(11);
    assert_eq!(deck.see_draw().len(), 1);
    assert_eq!(deck.remaining(), 1);
    assert!(deck.can_draw());

    deck.put_top(7);
    assert_eq!(deck.see_draw().len(), 2);
    assert_eq!(deck.remaining(), 2);
    assert!(deck.can_draw());

    deck.put_bottom(5);
    assert_eq!(deck.see_draw().len(), 3);
    assert_eq!(deck.remaining(), 3);
    assert!(deck.can_draw());

    assert_eq!(deck.draw_top(), Some(7));
    assert!(deck.can_draw());
    assert_eq!(deck.draw_bottom(), Some(5));
    assert!(deck.can_draw());
    assert_eq!(deck.draw_bottom(), Some(11));

    assert!(!deck.can_draw());
    assert_eq!(deck.draw_top(), None);
    assert_eq!(deck.draw_bottom(), None);
}

#[test]
fn test_shuffle_draw() {
    let mut deck = Deck::<u8>::new();
    deck.put_top(1);
    deck.put_bottom(2);
    for _ in 0..2 {
        deck.put_top(0);
        deck.put_bottom(0);
    }

    for _ in 0..10000 {
        deck.shuffle_draw();
        if deck.see_draw().last() == Some(&1) {
            break;
        }
    }
    assert_eq!(deck.draw_top(), Some(1));

    for _ in 0..10000 {
        deck.shuffle_draw();
        if deck.see_draw().last() == Some(&2) {
            break;
        }
    }
    assert_eq!(deck.draw_top(), Some(2));
}

#[test]
fn test_shuffle_discard() {
    let mut deck = Deck::<u8>::new();
    deck.discard(0);
    deck.discard(1);
    assert_eq!(deck.see_discarded(), [0, 1]);

    for _ in 0..1000 {
        deck.shuffle_discard();
        if deck.see_discarded().last() == Some(&0) {
            break;
        }
    }

    assert_eq!(deck.see_discarded(), [1, 0]);
}

#[test]
fn test_remove() {
    let mut deck = Deck::<u8>::new();
    assert_eq!(deck.see_removed().len(), 0);
    deck.remove(3);
    assert_eq!(deck.see_removed().len(), 1);
    deck.remove(8);
    assert_eq!(deck.see_removed().len(), 2);
    assert_eq!(deck.see_removed(), [3, 8]);
}

#[test]
fn test_discard() {
    let mut deck = Deck::<u8>::new();
    assert_eq!(deck.see_discarded().len(), 0);
    deck.discard(5);
    assert_eq!(deck.see_discarded().len(), 1);
    deck.discard(7);
    assert_eq!(deck.see_discarded().len(), 2);
    assert_eq!(deck.see_discarded(), [5, 7]);
}

fn check_sparse_zero(initial_deck_size: usize) {
    let mut deck = deck_of(initial_deck_size);

    deck.put_sparse(Vec::new());
    let draw = deck.see_draw();
    assert_eq!(draw.len(), initial_deck_size);
    for i in 0..draw.len() {
        assert_eq!(draw[i], i);
    }
}

fn check_sparse(initial_deck_size: usize, n_insert: usize) {
    let mut deck = deck_of(initial_deck_size);

    deck.put_sparse((initial_deck_size..initial_deck_size + n_insert).collect());
    let draw = deck.see_draw();
    assert_eq!(draw.len(), initial_deck_size + n_insert);

    let bucket_standard_size = initial_deck_size / n_insert + 1;
    let mut carry = initial_deck_size % n_insert;
    let mut start_counter: usize = 0;
    let mut remaining = draw;
    let mut expected = initial_deck_size;

    while !remaining.is_empty() {
        let size = bucket_standard_size + if carry > 0 { carry -= 1; 1 } else { 0 };

        let (bucket, tail) = remaining.split_at(size);

        assert_eq!(bucket.len(), size);
        assert!(bucket.contains(&expected));

        for (i, e) in bucket.iter().filter(|x| **x != expected).enumerate() {
            assert_eq!(*e, start_counter + i);
        }

        remaining = tail;
        start_counter += size - 1;
        expected += 1;
    }
}

#[test]
fn test_put_sparse() {
    check_sparse_zero(50);

    for deck_size in 0..60 {
        for n_insert in 1..(deck_size + 1) {
            check_sparse(deck_size, n_insert);
        }
    }
}

#[test]
fn put_sparse_more_items_than_pile() {
    for deck_size in 0..10 {
        for n_insert in (deck_size + 1)..(deck_size + 6) {
            check_sparse(deck_size, n_insert);
        }
    }
}

#[test]
fn put_sparse_into_empty_pile_keeps_batch_order() {
    let mut deck = Deck::<usize>::new();
    deck.put_sparse(vec![4, 9, 2]);
    assert_eq!(deck.see_draw(), [4, 9, 2]);
}

#[test]
fn put_sparse_fifty_and_three() {
    let mut deck = deck_of(50);
    deck.put_sparse(vec![50, 51, 52]);
    let draw = deck.see_draw().to_vec();
    assert_eq!(draw.len(), 53);
    // buckets of 17, 17 and 16 original items, each with one new item
    let spans = [(0usize, 18usize), (18, 36), (36, 53)];
    for (b, (lo, hi)) in spans.iter().enumerate() {
        assert!(draw[*lo..*hi].contains(&(50 + b)));
    }
    let kept: Vec<usize> = draw.iter().copied().filter(|x| *x < 50).collect();
    assert_eq!(kept, (0..50).collect::<Vec<usize>>());
}

#[test]
fn put_sparse_at_places_items_at_offsets() {
    let mut deck = deck_of(5);
    deck.put_sparse_at(vec![10, 11], &vec![0, 2]);
    assert_eq!(deck.see_draw(), [10, 0, 1, 2, 3, 4, 11]);

    let mut deck = deck_of(5);
    deck.put_sparse_at(vec![10, 11], &vec![3, 0]);
    assert_eq!(deck.see_draw(), [0, 1, 2, 10, 11, 3, 4]);

    let mut deck = deck_of(7);
    deck.put_sparse_at(vec![20, 21, 22], &vec![1, 1, 2]);
    assert_eq!(deck.see_draw(), [0, 20, 1, 2, 3, 21, 4, 5, 6, 22]);
}

#[test]
fn put_sparse_at_with_no_items_changes_nothing() {
    let mut deck = deck_of(4);
    deck.put_sparse_at(Vec::new(), &Vec::new());
    assert_eq!(deck.see_draw(), [0, 1, 2, 3]);
}

#[test]
fn put_sparse_draws_every_offset() {
    let mut seen_before = false;
    let mut seen_after = false;
    for _ in 0..1000 {
        let mut deck = deck_of(1);
        deck.put_sparse(vec![7]);
        match deck.see_draw() {
            [7, 0] => seen_before = true,
            [0, 7] => seen_after = true,
            other => panic!("unexpected layout {:?}", other),
        }
        if seen_before && seen_after {
            break;
        }
    }
    assert!(seen_before && seen_after);
}

#[test]
fn draw_pile_scenario() {
    let mut deck = Deck::<u8>::new();
    deck.put_top(11);
    assert_eq!(deck.see_draw(), [11]);
    deck.put_top(7);
    assert_eq!(deck.see_draw(), [11, 7]);
    deck.put_bottom(5);
    assert_eq!(deck.see_draw(), [5, 11, 7]);
    assert_eq!(deck.draw_top(), Some(7));
    assert_eq!(deck.see_draw(), [5, 11]);
    assert_eq!(deck.draw_bottom(), Some(5));
    assert_eq!(deck.see_draw(), [11]);
    assert_eq!(deck.draw_bottom(), Some(11));
    assert_eq!(deck.see_draw().len(), 0);
    assert_eq!(deck.draw_top(), None);
    assert_eq!(deck.draw_bottom(), None);
}

#[test]
fn draw_pile_is_deque() {
    let mut deck = Deck::<u8>::new();
    deck.put_top(1);
    deck.put_top(2);
    assert_eq!(deck.draw_top(), Some(2));
    assert_eq!(deck.draw_top(), Some(1));
    deck.put_bottom(3);
    deck.put_bottom(4);
    assert_eq!(deck.draw_bottom(), Some(4));
    assert_eq!(deck.draw_top(), Some(3));
    deck.put_top(5);
    assert_eq!(deck.draw_bottom(), Some(5));
}

#[test]
fn remaining_tracks_draw_pile() {
    let mut deck = Deck::<u8>::new();
    assert_eq!(deck.remaining(), 0);
    assert!(!deck.can_draw());
    deck.put_top(1);
    deck.put_bottom(2);
    deck.put_sparse(vec![3, 4, 5]);
    assert_eq!(deck.remaining(), 5);
    assert!(deck.can_draw());
    deck.draw_top();
    assert_eq!(deck.remaining(), 4);
    assert_eq!(deck.remaining(), deck.see_draw().len());
}

#[test]
fn discard_and_remove_leave_draw_pile_alone() {
    let mut deck = Deck::<u8>::new();
    deck.put_top(1);
    deck.put_top(2);
    deck.discard(9);
    deck.remove(8);
    assert_eq!(deck.see_draw(), [1, 2]);
    assert_eq!(deck.remaining(), 2);
    assert_eq!(deck.see_discarded(), [9]);
    assert_eq!(deck.see_removed(), [8]);
}

#[test]
fn shuffles_keep_the_same_items() {
    let mut deck = deck_of(20);
    for i in 0..10 {
        deck.discard(100 + i);
    }
    deck.remove(42);
    deck.shuffle_draw();
    deck.shuffle_discard();
    let mut draw = deck.see_draw().to_vec();
    draw.sort();
    assert_eq!(draw, (0..20).collect::<Vec<usize>>());
    let mut discarded = deck.see_discarded().to_vec();
    discarded.sort();
    assert_eq!(discarded, (100..110).collect::<Vec<usize>>());
    assert_eq!(deck.see_removed(), [42]);
}
