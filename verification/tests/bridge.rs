use tsuitate_bot::bridge::{hand_list, read_reply, FileBridge, Reply};
use tsuitate_bot::protocol::{Hand, Role};

#[test]
fn a_bridge_counts_its_turns() {
    let mut b = FileBridge::new();
    assert_eq!(b.dir, "bridge");
    assert_eq!(b.name(), "bridge");
    assert_eq!(b.next_turn(), 1);
    assert_eq!(b.next_turn(), 2);
    assert_eq!(b.seq, 2);
    assert_eq!(FileBridge::default().seq, 0);
}

#[test]
fn a_reply_is_read_without_the_space_around_it() {
    assert!(matches!(read_reply(""), Reply::Pending));
    assert!(matches!(read_reply(" \n\t"), Reply::Pending));
    assert!(matches!(read_reply("resign\n"), Reply::Resign));
    assert!(matches!(read_reply(" 7g7f \r\n"), Reply::Move(m) if m == "7g7f"));
    assert!(matches!(read_reply("Resign"), Reply::Move(m) if m == "Resign"));
}

#[test]
fn a_hand_is_listed_without_what_it_lacks() {
    let mut hand = Hand::empty();
    assert!(hand_list(&hand).is_empty());
    hand.counts[0] = 3;
    hand.counts[6] = 1;
    assert_eq!(hand_list(&hand), vec![(Role::Pawn, 3), (Role::Rook, 1)]);
    assert_eq!(hand.get(Role::Pawn), 3);
    assert_eq!(hand.get(Role::Tokin), 0);
}
