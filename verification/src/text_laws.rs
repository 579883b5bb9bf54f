//! How texts are ordered, written and quoted, and how squares and roles are named.

use crate::board::{drop_letter_of, is_on_board, move_text, square_text, Coord};
use crate::digest::{hex_digit, hex_of};
use crate::json::{escaped, listed, quoted};
use crate::model::{fresh_side, own_start};
use crate::protocol::{other_color, promoted, role_at_slot, slot_of, unpromoted, Color, Role};
use crate::replay::only_side;
use crate::shogi::{initial_model, role_of_letter, text_of_move, Piece, ShogiMove};
use crate::text::{begins, comes_before, decimal, ends, signed_decimal};
use vstd::prelude::*;
use vstd::string::*;

verus! {

/// Texts are ordered by their first difference: the one that ends there, or has the smaller character,
/// comes first.
pub proof fn law_order_of_texts(a: Seq<char>, b: Seq<char>, k: int)
    requires
        0 <= k <= a.len(),
        k <= b.len(),
        a.take(k) == b.take(k),
    ensures
        k == a.len() ==> (comes_before(a, b) <==> k < b.len()),
        k == b.len() ==> !comes_before(a, b),
        k < a.len() && k < b.len() && a[k] != b[k] ==> (comes_before(a, b) <==> a[k] < b[k]),
    decreases k,
{
    if k > 0 {
        let x = a.drop_first();
        let y = b.drop_first();
        assert(a.take(k)[0] == a[0] && b.take(k)[0] == b[0]);
        assert(x.take(k - 1) =~= a.take(k).drop_first());
        assert(y.take(k - 1) =~= b.take(k).drop_first());
        law_order_of_texts(x, y, k - 1);
    }
}

/// A text begins or ends with another where it is that one with something behind or before it.
pub proof fn law_ends_of_texts(s: Seq<char>, t: Seq<char>, u: Seq<char>)
    ensures
        begins(s + t, s),
        ends(s + t, t),
        begins(u, s) ==> u == s + u.skip(s.len() as int),
        ends(u, t) ==> u == u.take(u.len() - t.len()) + t,
{
    assert((s + t).take(s.len() as int) =~= s);
    assert((s + t).skip((s + t).len() - t.len()) =~= t);
    if begins(u, s) {
        assert(u =~= u.take(s.len() as int) + u.skip(s.len() as int));
    }
    if ends(u, t) {
        assert(u =~= u.take(u.len() - t.len()) + u.skip(u.len() - t.len()));
    }
}

/// A negative number is written with a minus sign before its size, others without a sign.
pub proof fn law_signs(n: nat)
    requires
        n > 0,
    ensures
        signed_decimal(-(n as int)) == seq!['-'] + decimal(n),
        signed_decimal(n as int) == decimal(n),
        signed_decimal(0) == seq!['0'],
{
    assert((48 + 0int) as char == '0');
    assert(decimal(0) =~= seq!['0']);
}

/// A character in a quoted text stands for itself, unless it is a quotation mark, a backslash or a control
/// character: then a backslash stands before what names it. No two characters are written alike, and
/// none is written with a control character.
pub proof fn law_escapes(a: char, b: char, i: int)
    ensures
        escaped(a) == escaped(b) ==> a == b,
        escaped(a).len() > 0,
        a as u32 >= 32 && a != '"' && a != '\\' ==> escaped(a) == seq![a],
        a as u32 <= 31 || a == '"' || a == '\\' ==> escaped(a)[0] == '\\' && escaped(a).len() > 1,
        0 <= i < escaped(a).len() ==> escaped(a)[i] as u32 >= 32,
        escaped('\n') == seq!['\\', 'n'],
        escaped('\t') == seq!['\\', 't'],
        escaped('\r') == seq!['\\', 'r'],
{
    let x = escaped(a);
    let y = escaped(b);
    if (a as u32) < 32 {
        assert(0 <= a as int / 16 < 2 && 0 <= a as int % 16 < 16);
    }
    if (b as u32) < 32 {
        assert(0 <= b as int / 16 < 2 && 0 <= b as int % 16 < 16);
    }
    if x == y {
        assert(x[0] == y[0]);
        if x.len() > 1 {
            assert(x[1] == y[1]);
        }
        if x.len() > 2 {
            assert(x[4] == y[4] && x[5] == y[5]);
            lemma_hex_digit(a as int / 16, b as int / 16);
            lemma_hex_digit(a as int % 16, b as int % 16);
            assert(a as int == 16 * (a as int / 16) + a as int % 16);
            assert(b as int == 16 * (b as int / 16) + b as int % 16);
        }
    }
}

proof fn lemma_hex_digit(a: int, b: int)
    requires
        0 <= a < 16,
        0 <= b < 16,
        hex_digit(a) == hex_digit(b),
    ensures
        a == b,
{
}

/// A quoted text stands between quotation marks, and what is quoted together is written one after the
/// other.
pub proof fn law_quoted(s: Seq<char>, c: char)
    ensures
        quoted(s)[0] == '"' && quoted(s).last() == '"' && quoted(s).len() >= 2,
        quoted(Seq::empty()) == seq!['"', '"'],
        quoted(s.push(c)) == quoted(s).drop_last() + escaped(c) + seq!['"'],
{
    let f = |c: char| escaped(c);
    assert(s.push(c).flat_map(f) =~= s.flat_map(f) + f(c)) by {
        s.lemma_flat_map_push(f, c);
    }
    assert(Seq::<char>::empty().flat_map(f) =~= Seq::<char>::empty());
    assert(quoted(Seq::empty()) =~= seq!['"', '"']);
    assert(quoted(s.push(c)) =~= quoted(s).drop_last() + escaped(c) + seq!['"']);
}

/// Texts in a list have one comma between each two of them.
pub proof fn law_listed(texts: Seq<Seq<char>>, n: int)
    requires
        0 < n < texts.len(),
    ensures
        listed(texts, 0).len() == 0,
        listed(texts, 1) == texts[0],
        listed(texts, n + 1) == listed(texts, n) + seq![','] + texts[n],
{
    reveal_strlit(",");
    assert(","@ =~= seq![',']);
}

/// A byte is written as two digits, the higher one first: nought to nine and `a` to `f`.
pub proof fn law_hexadecimal(bytes: Seq<u8>, x: u8, d: int)
    ensures
        hex_of(bytes.push(x)) == hex_of(bytes) + seq![
            hex_digit(x as int / 16),
            hex_digit(x as int % 16),
        ],
        hex_of(Seq::empty()).len() == 0,
        0 <= d < 10 ==> hex_digit(d) as u32 == '0' as u32 + d,
        10 <= d < 16 ==> hex_digit(d) as u32 == 'a' as u32 + (d - 10),
{
    assert(bytes.push(x).drop_last() =~= bytes);
}

/// A square is named by the digit of its file and the letter of its rank, `a` for the first.
pub proof fn law_square_names(c: Coord)
    requires
        is_on_board(c),
    ensures
        square_text(c).len() == 2,
        square_text(c)[0] as u32 == '0' as u32 + c.file,
        square_text(c)[1] as u32 == 'a' as u32 + (c.rank - 1),
{
    assert(decimal(c.file as nat) =~= seq![crate::text::digit_char(c.file as int)]);
}

/// A move is named by its squares, with a plus sign where it promotes; a drop by a letter, a star and its
/// square.
pub proof fn law_move_names(from: Coord, to: Coord, role: Role, i: int)
    requires
        is_on_board(from),
        is_on_board(to),
        drop_letter_of(role) is Some,
    ensures
        text_of_move(ShogiMove::Board { from, to, promote: false }) == square_text(from) + square_text(to),
        text_of_move(ShogiMove::Board { from, to, promote: true }) == square_text(from) + square_text(to)
            + seq!['+'],
        text_of_move(ShogiMove::Drop { role, to }) == seq![drop_letter_of(role)->0, '*'] + square_text(to),
{
    assert(move_text(from, to, false) =~= square_text(from) + square_text(to));
}

/// The letters of the roles that can be dropped.
pub proof fn law_drop_letters(role: Role)
    ensures
        drop_letter_of(role) == (match role {
            Role::Pawn => Some('P'),
            Role::Lance => Some('L'),
            Role::Knight => Some('N'),
            Role::Silver => Some('S'),
            Role::Gold => Some('G'),
            Role::Bishop => Some('B'),
            Role::Rook => Some('R'),
            _ => None,
        }),
        drop_letter_of(role) matches Some(c) ==> role_of_letter(c) == Some(role),
        slot_of(role) is Some <==> drop_letter_of(role) is Some,
        slot_of(role) matches Some(i) ==> 0 <= i < 7 && role_at_slot(i) == role,
{
}

/// Promoting and turning back undo each other, and only what is not promoted can be dropped.
pub proof fn law_promotions(role: Role)
    ensures
        promoted(role) matches Some(up) ==> unpromoted(up) == role && promoted(up) is None && slot_of(up)
            is None,
        unpromoted(role) != role ==> promoted(unpromoted(role)) == Some(role),
        unpromoted(unpromoted(role)) == unpromoted(role),
{
}

/// A game starts with the board the same from both sides: what stands on a square of one stands on the
/// opposite square of the other. Behind nine pawns stand the bishop to the left and the rook to the right,
/// and on the last rank lance, knight, silver, gold and king.
pub proof fn law_first_position(c: Coord)
    requires
        is_on_board(c),
    ensures
        ({
            let m = initial_model();
            let far = Coord { file: (10 - c.file) as i8, rank: (10 - c.rank) as i8 };
            let mine = |role: Role| Some(Piece { color: Color::Sente, role });
            &&& m.at(far) == (match m.at(c) {
                Some(p) => Some(Piece { color: other_color(p.color), role: p.role }),
                None => None,
            })
            &&& c.rank == 7 ==> m.at(c) == mine(Role::Pawn)
            &&& c.rank == 8 ==> m.at(c) == (if c.file == 8 {
                mine(Role::Bishop)
            } else if c.file == 2 {
                mine(Role::Rook)
            } else {
                None
            })
            &&& c.rank == 9 && (c.file == 1 || c.file == 9) ==> m.at(c) == mine(Role::Lance)
            &&& c.rank == 9 && (c.file == 2 || c.file == 8) ==> m.at(c) == mine(Role::Knight)
            &&& c.rank == 9 && (c.file == 3 || c.file == 7) ==> m.at(c) == mine(Role::Silver)
            &&& c.rank == 9 && (c.file == 4 || c.file == 6) ==> m.at(c) == mine(Role::Gold)
            &&& c.rank == 9 && c.file == 5 ==> m.at(c) == mine(Role::King)
            &&& c.rank == 4 || c.rank == 5 || c.rank == 6 ==> m.at(c) is None
            &&& m.turn == Color::Sente && m.move_number == 1
            &&& forall|i: int| 0 <= i < 7 ==> #[trigger] m.sente_hand[i] == 0 && m.gote_hand[i] == 0
        }),
{
    let far = Coord { file: (10 - c.file) as i8, rank: (10 - c.rank) as i8 };
    crate::board::lemma_square_index(c, 0);
    crate::board::lemma_square_index(far, 0);
}

/// A player starts with its own half of the first position, nothing lost and no fouls.
pub proof fn law_own_start(color: Color)
    ensures
        own_start(color).cells == only_side(initial_model(), color).cells,
        own_start(color).turn == color,
        fresh_side(color).lost.len() == 0 && fresh_side(color).my_fouls == 0 && fresh_side(
            color,
        ).opponent_fouls == 0 && fresh_side(color).consistent,
{
    assert(own_start(color).cells =~= only_side(initial_model(), color).cells);
}

} // verus!
