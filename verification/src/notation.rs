//! Moves as they are written in Japanese.

use crate::protocol::Role;
use crate::shogi::{move_of_text, parse_usi, Position, PositionModel, ShogiMove};
use crate::text::{append_decimal, decimal};
use vstd::prelude::*;
use vstd::string::*;

verus! {

/// The numeral of a rank.
pub open spec fn rank_text(rank: i8) -> Seq<char> {
    match rank {
        1 => "一"@,
        2 => "二"@,
        3 => "三"@,
        4 => "四"@,
        5 => "五"@,
        6 => "六"@,
        7 => "七"@,
        8 => "八"@,
        _ => "九"@,
    }
}

/// The numeral of a rank.
pub fn kanji_rank(r: i8) -> (res: &'static str)
    requires
        1 <= r <= 9,
    ensures
        res@ == rank_text(r),
{
    match r {
        1 => "一",
        2 => "二",
        3 => "三",
        4 => "四",
        5 => "五",
        6 => "六",
        7 => "七",
        8 => "八",
        _ => "九",
    }
}

/// The name of a role.
pub open spec fn role_text(role: Role) -> Seq<char> {
    match role {
        Role::Pawn => "歩"@,
        Role::Lance => "香"@,
        Role::Knight => "桂"@,
        Role::Silver => "銀"@,
        Role::Gold => "金"@,
        Role::Bishop => "角"@,
        Role::Rook => "飛"@,
        Role::King => "玉"@,
        Role::Tokin => "と"@,
        Role::Promotedlance => "成香"@,
        Role::Promotedknight => "成桂"@,
        Role::Promotedsilver => "成銀"@,
        Role::Horse => "馬"@,
        Role::Dragon => "龍"@,
    }
}

/// The name of a role.
pub fn role_name(role: Role) -> (res: &'static str)
    ensures
        res@ == role_text(role),
{
    match role {
        Role::Pawn => "歩",
        Role::Lance => "香",
        Role::Knight => "桂",
        Role::Silver => "銀",
        Role::Gold => "金",
        Role::Bishop => "角",
        Role::Rook => "飛",
        Role::King => "玉",
        Role::Tokin => "と",
        Role::Promotedlance => "成香",
        Role::Promotedknight => "成桂",
        Role::Promotedsilver => "成銀",
        Role::Horse => "馬",
        Role::Dragon => "龍",
    }
}

/// A move in Japanese: where it goes, with what, and whether it promotes or drops. Where it comes
/// from is not said. A text that is no move stays as it is.
pub open spec fn japanese(pos: PositionModel, usi: Seq<char>) -> Seq<char> {
    match move_of_text(usi) {
        Some(ShogiMove::Board { from, to, promote }) => decimal(to.file as nat) + rank_text(to.rank) + (match pos.at(from) {
            Some(p) => role_text(p.role),
            None => "?"@,
        }) + (if promote {
            "成"@
        } else {
            ""@
        }),
        Some(ShogiMove::Drop { role, to }) => decimal(to.file as nat) + rank_text(to.rank)
            + role_text(role) + "打"@,
        None => usi,
    }
}

/// A move in Japanese.
pub fn jp_move(pos: &Position, usi: &str) -> (res: String)
    ensures
        res@ == japanese(pos@, usi@),
{
    let mut out = String::new();
    match parse_usi(usi) {
        Some(ShogiMove::Board { from, to, promote }) => {
            append_decimal(&mut out, to.file as u64);
            out.append(kanji_rank(to.rank));
            out.append(
                match pos.piece_at(from) {
                    Some(p) => role_name(p.role),
                    None => "?",
                },
            );
            out.append(
                if promote {
                    "成"
                } else {
                    ""
                },
            );
        },
        Some(ShogiMove::Drop { role, to }) => {
            append_decimal(&mut out, to.file as u64);
            out.append(kanji_rank(to.rank));
            out.append(role_name(role));
            out.append("打");
        },
        None => {
            return usi.to_owned();
        },
    }
    assert(out@ =~= japanese(pos@, usi@));
    out
}

/// Different roles and different ranks are written differently.
pub proof fn law_names_differ(a: Role, b: Role, r: i8, s: i8)
    requires
        1 <= r <= 9,
        1 <= s <= 9,
    ensures
        role_text(a) == role_text(b) ==> a == b,
        rank_text(r) == rank_text(s) ==> r == s,
{
    reveal_strlit("一");
    reveal_strlit("二");
    reveal_strlit("三");
    reveal_strlit("四");
    reveal_strlit("五");
    reveal_strlit("六");
    reveal_strlit("七");
    reveal_strlit("八");
    reveal_strlit("九");
    reveal_strlit("歩");
    reveal_strlit("香");
    reveal_strlit("桂");
    reveal_strlit("銀");
    reveal_strlit("金");
    reveal_strlit("角");
    reveal_strlit("飛");
    reveal_strlit("玉");
    reveal_strlit("と");
    reveal_strlit("成香");
    reveal_strlit("成桂");
    reveal_strlit("成銀");
    reveal_strlit("馬");
    reveal_strlit("龍");
    let x = role_text(a);
    let y = role_text(b);
    if x == y {
        assert(x.len() == y.len());
        assert(x[0] == y[0]);
        assert(x[x.len() - 1] == y[y.len() - 1]);
    }
    if rank_text(r) == rank_text(s) {
        assert(rank_text(r)[0] == rank_text(s)[0]);
    }
}

/// A move is written by its target, the piece that makes it and whether it promotes or drops: the
/// file and the rank of the target first, then the piece that stands on the square it comes from.
pub proof fn law_written_move(pos: PositionModel, mv: ShogiMove)
    requires
        crate::shogi::writable(mv),
    ensures
        ({
            let t = japanese(pos, crate::shogi::text_of_move(mv));
            match mv {
                ShogiMove::Board { from, to, promote } => pos.at(from) matches Some(p) ==> t
                    == decimal(to.file as nat) + rank_text(to.rank) + role_text(p.role) + (if promote {
                    "成"@
                } else {
                    ""@
                }),
                ShogiMove::Drop { role, to } => t == decimal(to.file as nat) + rank_text(to.rank)
                    + role_text(role) + "打"@,
            }
        }),
{
    crate::shogi::law_usi_round_trip(mv);
}

} // verus!
