use crate::board::NBoard;
use crate::moves::{valid_position, Position};
use crate::tile::{Tile, TileType};
use vstd::arithmetic::div_mod::lemma_fundamental_div_mod_converse;
use vstd::prelude::*;
use vstd::set_lib::{lemma_int_range, lemma_len_subset, lemma_map_size, set_int_range};

verus! {

/// The key of a state: the home indices in board order, then the position
/// of the Missing tile.
pub open(crate) spec fn key_of(s: Position) -> Seq<usize> {
    s.0.map_values(|t: Tile| t.index) + seq![s.1 as usize]
}

/// `b` to the power `k`.
pub open spec fn power(b: int, k: nat) -> int
    decreases k,
{
    if k == 0 {
        1
    } else {
        b * power(b, (k - 1) as nat)
    }
}

/// Reads `s` as the digits, least significant first, of a number in base `b`.
pub open spec fn encode(s: Seq<usize>, b: int) -> int
    decreases s.len(),
{
    if s.len() == 0 {
        0
    } else {
        s[0] as int + b * encode(s.drop_first(), b)
    }
}

/// Every entry of `s` is below `b`.
pub open spec fn digits_below(s: Seq<usize>, b: int) -> bool {
    forall|i: int| 0 <= i < s.len() ==> (#[trigger] s[i] as int) < b
}

proof fn lemma_encode_bound(s: Seq<usize>, b: int)
    requires
        b >= 1,
        digits_below(s, b),
    ensures
        0 <= encode(s, b) < power(b, s.len()),
    decreases s.len(),
{
    if s.len() > 0 {
        let r = s.drop_first();
        assert(digits_below(r, b)) by {
            assert forall|i: int| 0 <= i < r.len() implies (#[trigger] r[i] as int) < b by {
                assert(r[i] == s[i + 1]);
            }
        }
        lemma_encode_bound(r, b);
        let e = encode(r, b);
        let p = power(b, r.len());
        let d = s[0] as int;
        assert(power(b, s.len()) == b * p);
        assert(0 <= d + b * e < b * p) by (nonlinear_arith)
            requires
                0 <= d < b,
                0 <= e < p,
        ;
    }
}

proof fn lemma_encode_injective(s: Seq<usize>, t: Seq<usize>, b: int)
    requires
        b >= 1,
        s.len() == t.len(),
        digits_below(s, b),
        digits_below(t, b),
        encode(s, b) == encode(t, b),
    ensures
        s == t,
    decreases s.len(),
{
    if s.len() > 0 {
        let rs = s.drop_first();
        let rt = t.drop_first();
        assert(digits_below(rs, b)) by {
            assert forall|i: int| 0 <= i < rs.len() implies (#[trigger] rs[i] as int) < b by {
                assert(rs[i] == s[i + 1]);
            }
        }
        assert(digits_below(rt, b)) by {
            assert forall|i: int| 0 <= i < rt.len() implies (#[trigger] rt[i] as int) < b by {
                assert(rt[i] == t[i + 1]);
            }
        }
        let e = encode(s, b);
        assert(e == encode(rs, b) * b + s[0] as int) by (nonlinear_arith)
            requires
                e == s[0] as int + b * encode(rs, b),
        ;
        assert(e == encode(rt, b) * b + t[0] as int) by (nonlinear_arith)
            requires
                e == t[0] as int + b * encode(rt, b),
        ;
        lemma_fundamental_div_mod_converse(e, b, encode(rs, b), s[0] as int);
        lemma_fundamental_div_mod_converse(e, b, encode(rt, b), t[0] as int);
        lemma_encode_injective(rs, rt, b);
        assert(s =~= t) by {
            assert forall|i: int| 0 <= i < s.len() implies s[i] == t[i] by {
                if i > 0 {
                    assert(s[i] == rs[i - 1] && t[i] == rt[i - 1]);
                }
            }
        }
    }
}

/// A finite set of sequences of length `k` whose entries are below `b` has
/// at most `b` to the power `k` members.
pub proof fn lemma_bounded_keys(v: Set<Seq<usize>>, k: nat, b: int)
    requires
        v.finite(),
        b >= 1,
        forall|s: Seq<usize>| #[trigger] v.contains(s) ==> s.len() == k && digits_below(s, b),
    ensures
        v.len() <= power(b, k),
{
    let f = |s: Seq<usize>| encode(s, b);
    assert(vstd::relations::injective_on(f, v)) by {
        assert forall|x: Seq<usize>, y: Seq<usize>|
            v.contains(x) && v.contains(y) && #[trigger] f(x) == #[trigger] f(y) implies x == y by {
            lemma_encode_injective(x, y, b);
        }
    }
    let y = v.map(f);
    lemma_map_size(v, y, f);
    let range = set_int_range(0, power(b, k));
    assert(power(b, k) >= 1) by {
        lemma_power_positive(b, k);
    }
    lemma_int_range(0, power(b, k));
    assert(y.subset_of(range)) by {
        assert forall|e: int| y.contains(e) implies range.contains(e) by {
            let s = choose|s: Seq<usize>| v.contains(s) && f(s) == e;
            lemma_encode_bound(s, b);
        }
    }
    lemma_len_subset(y, range);
}

proof fn lemma_power_positive(b: int, k: nat)
    requires
        b >= 1,
    ensures
        power(b, k) >= 1,
    decreases k,
{
    if k > 0 {
        lemma_power_positive(b, (k - 1) as nat);
        let p = power(b, (k - 1) as nat);
        assert(b * p >= 1) by (nonlinear_arith)
            requires
                b >= 1,
                p >= 1,
        ;
    }
}

/// Keys of states in play on a board of side `n` have `n * n + 1` entries,
/// each below `n * n`.
pub proof fn lemma_key_digits(n: int, s: Position)
    requires
        valid_position(n, s),
    ensures
        key_of(s).len() == n * n + 1,
        digits_below(key_of(s), n * n),
{
    let k = key_of(s);
    assert forall|i: int| 0 <= i < k.len() implies (#[trigger] k[i] as int) < n * n by {
        if i < s.0.len() {
            assert(k[i] == s.0[i].index);
        } else {
            assert(k[i] == s.1 as usize);
        }
    }
}

/// States in play on a board with the same key are the same state.
pub proof fn lemma_key_injective(n: int, s: Position, t: Position)
    requires
        valid_position(n, s),
        valid_position(n, t),
        key_of(s) == key_of(t),
    ensures
        s == t,
{
    let len = s.0.len() as int;
    assert(key_of(s)[len] == s.1 as usize);
    assert(key_of(t)[len] == t.1 as usize);
    assert(s.0 =~= t.0) by {
        assert forall|i: int| 0 <= i < len implies s.0[i] == t.0[i] by {
            assert(key_of(s)[i] == s.0[i].index);
            assert(key_of(t)[i] == t.0[i].index);
            assert(s.0[i].tile_type == TileType::Missing <==> i == s.1);
            assert(t.0[i].tile_type == TileType::Missing <==> i == t.1);
        }
    }
}

impl NBoard {
    /// The key of this board's state, for telling visited states apart.
    pub(crate) fn state_key(&self) -> (r: Vec<usize>)
        ensures
            r@ == key_of((self.board@, self.missing_index as int)),
    {
        let mut r: Vec<usize> = Vec::new();
        let mut i: usize = 0;
        while i < self.board.len()
            invariant
                i <= self.board@.len(),
                r@ == self.board@.subrange(0, i as int).map_values(|t: Tile| t.index),
            decreases self.board@.len() - i,
        {
            r.push(self.board[i].index);
            i += 1;
            assert(r@ =~= self.board@.subrange(0, i as int).map_values(|t: Tile| t.index));
        }
        r.push(self.missing_index);
        assert(self.board@.subrange(0, i as int) =~= self.board@);
        assert(r@ =~= key_of((self.board@, self.missing_index as int)));
        r
    }
}

} // verus!
