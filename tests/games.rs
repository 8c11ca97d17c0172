use basic_lex::hexapawn::{Board, Brain, Cell, Move};
use basic_lex::life;

fn mv(from: u8, to: u8) -> Move {
    Move { from, to }
}

#[test]
fn hexapawn_forward_moves() {
    assert!(mv(1, 4).is_forward());
    assert!(mv(8, 5).is_forward());
    assert!(!mv(1, 5).is_forward());
    assert!(!mv(6, 8).is_forward());
}

#[test]
fn hexapawn_candidate_moves() {
    let w = Move::all_white_moves();
    assert_eq!(w.len(), 14);
    assert_eq!(w[0], mv(1, 4));
    assert_eq!(w[13], mv(6, 9));
    let b = Move::all_black_moves();
    assert_eq!(b.len(), 14);
    assert_eq!(b[0], mv(9, 6));
    assert_eq!(b[13], mv(4, 1));
}

#[test]
fn hexapawn_opening_moves() {
    let board = Board::new();
    assert_eq!(board.cell(1), Cell::White);
    assert_eq!(board.cell(5), Cell::Empty);
    assert_eq!(board.cell(9), Cell::Black);
    assert_eq!(board.white_moves(), vec![mv(1, 4), mv(2, 5), mv(3, 6)]);
    assert_eq!(board.black_moves(), vec![mv(9, 6), mv(8, 5), mv(7, 4)]);
    assert!(!board.black_promoted());
    assert!(!board.white_promoted());
    assert_eq!(board.key(), 18967);
}

#[test]
fn hexapawn_capture_and_promotion() {
    let mut board = Board::new();
    board.do_move(&mv(2, 5));
    assert_eq!(board.cell(2), Cell::Empty);
    assert_eq!(board.cell(5), Cell::White);
    // black may now take on 5 diagonally, but not walk into it
    let black = board.black_moves();
    assert!(black.contains(&mv(9, 5)));
    assert!(black.contains(&mv(7, 5)));
    assert!(!black.contains(&mv(8, 5)));
    board.do_move(&mv(9, 5));
    board.do_move(&mv(5, 2));
    assert!(board.black_promoted());
    assert!(!board.white_promoted());
}

#[test]
fn hexapawn_brain_learns() {
    let mut brain = Brain::new();
    let board = Board::new();
    let mut after = board;
    after.do_move(&mv(2, 5));
    assert_eq!(brain.get(&after), after.black_moves());
    let first = brain.choose_move(&after).unwrap();
    assert!(after.black_moves().contains(&first));
    assert!(brain.forget(&after, &mv(9, 5)));
    assert!(!brain.get(&after).contains(&mv(9, 5)));
    let left = brain.get(&after);
    for m in left.iter() {
        brain.forget(&after, m);
    }
    assert!(brain.get(&after).is_empty());
    assert_eq!(brain.choose_move(&after), None);
}

#[test]
fn life_blinker_turns() {
    let mut b = life::Board::new(5, 5);
    b.set(1, 2, life::Cell::Occupied);
    b.set(2, 2, life::Cell::Occupied);
    b.set(3, 2, life::Cell::Occupied);
    b.evolve();
    for y in 0..5 {
        for x in 0..5 {
            let expected = if x == 2 && (1..=3).contains(&y) {
                life::Cell::Occupied
            } else {
                life::Cell::Empty
            };
            assert_eq!(b.get(x, y), expected);
        }
    }
    b.evolve();
    assert_eq!(b.get(1, 2), life::Cell::Occupied);
    assert_eq!(b.get(2, 1), life::Cell::Empty);
}

#[test]
fn life_border_stays() {
    let mut b = life::Board::new(4, 4);
    b.set(0, 0, life::Cell::Occupied);
    b.set(1, 0, life::Cell::Occupied);
    b.set(0, 1, life::Cell::Occupied);
    b.evolve();
    assert_eq!(b.get(0, 0), life::Cell::Occupied);
    // the inner square (1, 1) has three live neighbours and fills
    assert_eq!(b.get(1, 1), life::Cell::Occupied);
    let mut tiny = life::Board::new(2, 2);
    tiny.set(0, 0, life::Cell::Occupied);
    tiny.evolve();
    assert_eq!(tiny.get(0, 0), life::Cell::Occupied);
}

#[test]
fn life_example_pattern() {
    let mut b = life::example1();
    let mut count = 0;
    for y in 0..12 {
        for x in 0..39 {
            if b.get(x, y) == life::Cell::Occupied {
                count += 1;
            }
        }
    }
    assert_eq!(count, 8);
    assert_eq!(b.get(19, 5), life::Cell::Occupied);
    b.evolve();
    // (19, 6) has five live neighbours and empties
    assert_eq!(b.get(19, 6), life::Cell::Empty);
    // (19, 4) has a single live neighbour and stays empty
    assert_eq!(b.get(19, 4), life::Cell::Empty);
}

use basic_lex::cards::{settle, Card, Deck, Hand};

fn card(rank: u8) -> Card {
    Card { rank }
}

#[test]
fn deck_is_full_after_reset() {
    let mut deck = Deck::new();
    assert!(deck.cards.is_empty());
    deck.reset();
    assert_eq!(deck.cards.len(), 56);
    for r in 2..=15u8 {
        assert_eq!(deck.cards.iter().filter(|c| c.rank == r).count(), 4);
    }
}

#[test]
fn dealing_takes_from_the_top() {
    let mut deck = Deck { cards: (0..12).map(|i| card(2 + i)).collect() };
    let hand = deck.hand();
    assert_eq!(hand, [card(13), card(12), card(11)]);
    assert_eq!(deck.cards.len(), 9);
    // fewer than ten left: a fresh deck is gathered first
    let hand = deck.hand();
    assert_eq!(deck.cards.len(), 53);
    assert!(hand.iter().all(|c| 2 <= c.rank && c.rank <= 15));
}

#[test]
fn winning_hands() {
    let mut deck = Deck { cards: vec![card(9); 10] };
    let mut h = Hand::new(&mut deck);
    assert!(!h.revealed);
    h.cards = [card(3), card(10), card(7)];
    assert!(h.is_winner());
    assert!(h.revealed);
    h.cards = [card(10), card(3), card(7)];
    assert!(h.is_winner());
    h.cards = [card(3), card(10), card(10)];
    assert!(!h.is_winner());
    h.cards = [card(5), card(5), card(5)];
    assert!(!h.is_winner());
}

#[test]
fn settling_bets() {
    assert_eq!(settle(100, 150, true), None);
    assert_eq!(settle(100, 30, true), Some(130));
    assert_eq!(settle(100, 30, false), Some(70));
    assert_eq!(settle(100, 100, false), Some(0));
}

#[test]
fn hexapawn_game_end() {
    let board = Board::new();
    assert!(!board.white_lost());
    assert!(!board.black_lost());
    let mut b = board;
    b.do_move(&mv(2, 5));
    b.do_move(&mv(8, 2));
    assert!(b.white_lost());
    let mut w = board;
    w.do_move(&mv(8, 5));
    w.do_move(&mv(2, 8));
    assert!(w.black_lost());
}

#[test]
fn hexapawn_learning_takes_back_moves() {
    let mut brain = Brain::new();
    let start = Board::new();
    let mut after = start;
    after.do_move(&mv(2, 5));
    // a position with a single black reply
    let mut lonely = Board { cells: [Cell::Empty; 9] };
    lonely.cells[8] = Cell::Black;
    assert_eq!(lonely.black_moves(), vec![mv(9, 6)]);
    let mut history = vec![(after, mv(9, 5)), (lonely, mv(9, 6))];
    brain.learn(&mut history);
    // the lonely position lost its only reply, so the one before went too
    assert!(history.is_empty());
    assert!(brain.get(&lonely).is_empty());
    assert!(!brain.get(&after).contains(&mv(9, 5)));
    assert!(!brain.get(&after).is_empty());
    let mut history = vec![(after, mv(7, 5))];
    brain.learn(&mut history);
    assert!(history.is_empty());
    let mut history = vec![(after, mv(9, 6)), (start, mv(9, 6))];
    brain.learn(&mut history);
    assert_eq!(history.len(), 1);
}
