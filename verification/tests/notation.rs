use tsuitate_bot::notation::{jp_move, kanji_rank, role_name};
use tsuitate_bot::protocol::Role;
use tsuitate_bot::shogi::Position;

#[test]
fn moves_are_written_in_japanese() {
    let pos = Position::initial();
    assert_eq!(jp_move(&pos, "7g7f"), "7六歩");
    assert_eq!(jp_move(&pos, "8h2b+"), "2二角成");
    assert_eq!(jp_move(&pos, "G*5e"), "5五金打");
    assert_eq!(jp_move(&pos, "5e5d"), "5四?");
    assert_eq!(jp_move(&pos, "resign"), "resign");
}

#[test]
fn ranks_and_roles_have_names() {
    assert_eq!(kanji_rank(1), "一");
    assert_eq!(kanji_rank(9), "九");
    assert_eq!(role_name(Role::Promotedsilver), "成銀");
    assert_eq!(role_name(Role::Dragon), "龍");
    assert_eq!(role_name(Role::King), "玉");
}
