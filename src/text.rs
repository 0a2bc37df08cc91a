use crate::board::NBoard;
use crate::tile::{Tile, TileType};
use vstd::prelude::*;
use vstd::string::StringExecFns;

verus! {

/// The character of a decimal digit.
pub open spec fn digit_char(d: nat) -> char {
    if d == 0 {
        '0'
    } else if d == 1 {
        '1'
    } else if d == 2 {
        '2'
    } else if d == 3 {
        '3'
    } else if d == 4 {
        '4'
    } else if d == 5 {
        '5'
    } else if d == 6 {
        '6'
    } else if d == 7 {
        '7'
    } else if d == 8 {
        '8'
    } else {
        '9'
    }
}

/// `x` written in decimal, without leading zeros.
pub open spec fn decimal(x: nat) -> Seq<char>
    decreases x,
{
    if x < 10 {
        seq![digit_char(x)]
    } else {
        decimal(x / 10) + seq![digit_char(x % 10)]
    }
}

/// Text of one tile: its home index in decimal, `*` if it is Missing, then `,`.
pub open(crate) spec fn tile_text(t: Tile) -> Seq<char> {
    decimal(t.index as nat) + (if t.tile_type == TileType::Missing {
        seq!['*', ',']
    } else {
        seq![',']
    })
}

/// Text of a row-major sequence of tiles: the text of each tile in turn.
pub open(crate) spec fn tiles_text(t: Seq<Tile>) -> Seq<char>
    decreases t.len(),
{
    if t.len() == 0 {
        Seq::empty()
    } else {
        tiles_text(t.drop_last()) + tile_text(t.last())
    }
}

fn digit_str(d: usize) -> (r: &'static str)
    requires
        d < 10,
    ensures
        r@ == seq![digit_char(d as nat)],
{
    proof {
        reveal_strlit("0");
        reveal_strlit("1");
        reveal_strlit("2");
        reveal_strlit("3");
        reveal_strlit("4");
        reveal_strlit("5");
        reveal_strlit("6");
        reveal_strlit("7");
        reveal_strlit("8");
        reveal_strlit("9");
    }
    if d == 0 {
        "0"
    } else if d == 1 {
        "1"
    } else if d == 2 {
        "2"
    } else if d == 3 {
        "3"
    } else if d == 4 {
        "4"
    } else if d == 5 {
        "5"
    } else if d == 6 {
        "6"
    } else if d == 7 {
        "7"
    } else if d == 8 {
        "8"
    } else {
        "9"
    }
}

fn push_decimal(s: &mut String, x: usize)
    ensures
        final(s)@ == old(s)@ + decimal(x as nat),
    decreases x,
{
    if x >= 10 {
        push_decimal(s, x / 10);
    }
    s.append(digit_str(x % 10));
    assert(final(s)@ =~= old(s)@ + decimal(x as nat));
}

impl NBoard {
    /// The tiles as text, in board order: each home index in decimal,
    /// followed by `*` for the Missing tile, and a comma.
    pub fn to_string_representation(&self) -> (r: String)
        ensures
            r@ == tiles_text(self.tiles()),
    {
        let mut s = String::new();
        let mut i: usize = 0;
        while i < self.board.len()
            invariant
                i <= self.board@.len(),
                s@ == tiles_text(self.board@.subrange(0, i as int)),
            decreases self.board@.len() - i,
        {
            let t = self.board[i];
            push_decimal(&mut s, t.index);
            if t.tile_type == TileType::Missing {
                proof {
                    reveal_strlit("*,");
                }
                s.append("*,");
            } else {
                proof {
                    reveal_strlit(",");
                }
                s.append(",");
            }
            proof {
                let sub = self.board@.subrange(0, i + 1);
                assert(sub.drop_last() =~= self.board@.subrange(0, i as int));
                assert(sub.last() == t);
            }
            i += 1;
            assert(s@ =~= tiles_text(self.board@.subrange(0, i as int)));
        }
        assert(self.board@.subrange(0, i as int) =~= self.board@);
        s
    }
}

} // verus!
