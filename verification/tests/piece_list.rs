use piecetext::piece::{Piece, PieceSource};
use piecetext::piece_list::{PieceList, SENTINEL};

fn piece(start: usize, length: usize) -> Piece {
    Piece { start, length, source: PieceSource::Original }
}

fn collect(list: &PieceList) -> Vec<Piece> {
    let mut walk = list.iter();
    let mut pieces = Vec::new();
    while let Some(found) = walk.next() {
        pieces.push(*found);
    }
    pieces
}

#[test]
fn new_list_holds_one_piece() {
    let list = PieceList::new(piece(0, 4));
    assert_eq!(collect(&list), vec![piece(0, 4)]);
    assert_eq!(list.first(), 0);
    assert_eq!(list.last(), 0);
    assert_eq!(list.next(0), SENTINEL);
    assert_eq!(list.prev(0), SENTINEL);
    assert_eq!(list.piece(0), piece(0, 4));
}

#[test]
fn empty_list_has_no_first_piece() {
    let list = PieceList::empty();
    assert_eq!(list.first(), SENTINEL);
    assert_eq!(list.last(), SENTINEL);
    assert!(collect(&list).is_empty());
    assert_eq!(SENTINEL, usize::MAX);
}

#[test]
fn insert_before_the_sentinel_appends() {
    let mut list = PieceList::empty();
    let a = list.insert_before(SENTINEL, 0, 1, PieceSource::Append);
    let b = list.insert_before(SENTINEL, 1, 2, PieceSource::Append);
    assert_eq!((a, b), (0, 1));
    assert_eq!(list.first(), a);
    assert_eq!(list.last(), b);
    assert_eq!(list.next(a), b);
    assert_eq!(list.prev(b), a);
    assert_eq!(
        collect(&list),
        vec![
            Piece { start: 0, length: 1, source: PieceSource::Append },
            Piece { start: 1, length: 2, source: PieceSource::Append },
        ]
    );
}

#[test]
fn insert_before_a_piece_links_in_front_of_it() {
    let mut list = PieceList::new(piece(10, 1));
    let middle = list.insert_before(SENTINEL, 30, 3, PieceSource::Original);
    let last = list.insert_before(SENTINEL, 40, 4, PieceSource::Original);
    let second = list.insert_before(middle, 20, 2, PieceSource::Original);
    let first = list.insert_before(0, 5, 5, PieceSource::Original);
    assert_eq!(
        collect(&list),
        vec![piece(5, 5), piece(10, 1), piece(20, 2), piece(30, 3), piece(40, 4)]
    );
    assert_eq!(list.first(), first);
    assert_eq!(list.last(), last);
    assert_eq!(list.next(0), second);
    assert_eq!(list.prev(middle), second);
    assert_eq!(list.prev(first), SENTINEL);
    assert_eq!(list.next(last), SENTINEL);
}

#[test]
fn remove_unlinks_and_returns_the_piece() {
    let mut list = PieceList::new(piece(0, 1));
    let b = list.insert_before(SENTINEL, 1, 2, PieceSource::Original);
    let c = list.insert_before(SENTINEL, 3, 3, PieceSource::Original);
    assert_eq!(list.remove(b), piece(1, 2));
    assert_eq!(collect(&list), vec![piece(0, 1), piece(3, 3)]);
    assert_eq!(list.next(0), c);
    assert_eq!(list.prev(c), 0);
    assert_eq!(list.remove(0), piece(0, 1));
    assert_eq!(list.first(), c);
    assert_eq!(list.last(), c);
    assert_eq!(list.remove(c), piece(3, 3));
    assert_eq!(list.first(), SENTINEL);
    assert_eq!(list.last(), SENTINEL);
    assert!(collect(&list).is_empty());
}

#[test]
fn removed_slots_are_reused_last_removed_first() {
    let mut list = PieceList::new(piece(0, 1));
    let b = list.insert_before(SENTINEL, 1, 1, PieceSource::Original);
    let c = list.insert_before(SENTINEL, 2, 1, PieceSource::Original);
    assert_eq!((b, c), (1, 2));
    list.remove(b);
    list.remove(0);
    assert_eq!(list.insert_before(c, 7, 1, PieceSource::Original), 0);
    assert_eq!(list.insert_before(c, 8, 1, PieceSource::Original), b);
    assert_eq!(list.insert_before(c, 9, 1, PieceSource::Original), 3);
    assert_eq!(collect(&list), vec![piece(7, 1), piece(8, 1), piece(9, 1), piece(2, 1)]);
}

#[test]
fn each_walk_starts_at_the_head() {
    let mut list = PieceList::new(piece(0, 1));
    list.insert_before(SENTINEL, 1, 1, PieceSource::Original);
    let mut walk = list.iter();
    assert_eq!(walk.next(), Some(&piece(0, 1)));
    let mut again = list.iter();
    assert_eq!(again.next(), Some(&piece(0, 1)));
    assert_eq!(walk.next(), Some(&piece(1, 1)));
    assert_eq!(walk.next(), None);
    assert_eq!(walk.next(), None);
}
