//! The wire form of a game state: the fixed-shape JSON text the two sides
//! exchange, with a verified encoder and decoder.
//!
//! The shape is one object with the fields `piles`, `selected_pile`,
//! `amount_selected`, `current_player` and `player_type`, in that order,
//! with canonical decimal numbers. The decoder accepts exactly the
//! canonical encodings.
use crate::game::{spec_flip, GameState, GameView, PlayerType};
use vstd::prelude::*;

verus! {

broadcast use vstd::seq::group_seq_axioms;

pub open spec fn is_digit(b: u8) -> bool {
    48 <= b <= 57
}

/// Canonical decimal digits of a number, most significant first.
pub open spec fn dec(n: nat) -> Seq<u8>
    decreases n,
{
    if n < 10 {
        seq![(48 + n) as u8]
    } else {
        dec(n / 10).push((48 + n % 10) as u8)
    }
}

#[verifier::opaque]
pub open spec fn lit_open() -> Seq<u8> {
    seq![123u8, 34u8, 112u8, 105u8, 108u8, 101u8, 115u8, 34u8, 58u8, 91u8]
}

#[verifier::opaque]
pub open spec fn lit_sel() -> Seq<u8> {
    seq![
        93u8, 44u8, 34u8, 115u8, 101u8, 108u8, 101u8, 99u8, 116u8, 101u8, 100u8, 95u8, 112u8, 105u8, 108u8,
        101u8, 34u8, 58u8,
    ]
}

#[verifier::opaque]
pub open spec fn lit_amt() -> Seq<u8> {
    seq![
        44u8, 34u8, 97u8, 109u8, 111u8, 117u8, 110u8, 116u8, 95u8, 115u8, 101u8, 108u8, 101u8, 99u8, 116u8,
        101u8, 100u8, 34u8, 58u8,
    ]
}

#[verifier::opaque]
pub open spec fn lit_cur() -> Seq<u8> {
    seq![
        44u8, 34u8, 99u8, 117u8, 114u8, 114u8, 101u8, 110u8, 116u8, 95u8, 112u8, 108u8, 97u8, 121u8, 101u8,
        114u8, 34u8, 58u8,
    ]
}

#[verifier::opaque]
pub open spec fn lit_role() -> Seq<u8> {
    seq![
        44u8, 34u8, 112u8, 108u8, 97u8, 121u8, 101u8, 114u8, 95u8, 116u8, 121u8, 112u8, 101u8, 34u8, 58u8,
    ]
}

#[verifier::opaque]
pub open spec fn lit_null() -> Seq<u8> {
    seq![110u8, 117u8, 108u8, 108u8]
}

#[verifier::opaque]
pub open spec fn lit_host() -> Seq<u8> {
    seq![34u8, 72u8, 111u8, 115u8, 116u8, 34u8]
}

#[verifier::opaque]
pub open spec fn lit_guest() -> Seq<u8> {
    seq![34u8, 71u8, 117u8, 101u8, 115u8, 116u8, 34u8]
}

/// The pile counts, separated by commas.
pub open spec fn enc_piles(ps: Seq<i8>) -> Seq<u8>
    decreases ps.len(),
{
    if ps.len() == 0 {
        Seq::empty()
    } else if ps.len() == 1 {
        dec(ps[0] as nat)
    } else {
        enc_piles(ps.drop_last()) + seq![44u8] + dec(ps.last() as nat)
    }
}

pub open spec fn enc_amount(a: Option<i8>) -> Seq<u8> {
    match a {
        None => lit_null(),
        Some(v) => dec(v as nat),
    }
}

pub open spec fn enc_player(p: PlayerType) -> Seq<u8> {
    match p {
        PlayerType::Host => lit_host(),
        PlayerType::Guest => lit_guest(),
    }
}

/// The whole wire form of a game state.
pub open spec fn spec_encode(g: GameView) -> Seq<u8> {
    lit_open() + enc_piles(g.piles) + lit_sel() + dec(g.selected as nat) + lit_amt() + enc_amount(
        g.amount,
    ) + lit_cur() + enc_player(g.current) + lit_role() + enc_player(g.role) + lit_close()
}

#[verifier::opaque]
pub open spec fn lit_close() -> Seq<u8> {
    seq![125u8]
}

fn lit_open_vec() -> (v: Vec<u8>)
    ensures
        v@ == lit_open(),
{
    let mut v: Vec<u8> = Vec::new();
    v.push(123u8);
    v.push(34u8);
    v.push(112u8);
    v.push(105u8);
    v.push(108u8);
    v.push(101u8);
    v.push(115u8);
    v.push(34u8);
    v.push(58u8);
    v.push(91u8);
    proof {
        reveal(lit_open);
        assert(v@ =~= lit_open());
    }
    v
}

fn lit_sel_vec() -> (v: Vec<u8>)
    ensures
        v@ == lit_sel(),
{
    let mut v: Vec<u8> = Vec::new();
    v.push(93u8);
    v.push(44u8);
    v.push(34u8);
    v.push(115u8);
    v.push(101u8);
    v.push(108u8);
    v.push(101u8);
    v.push(99u8);
    v.push(116u8);
    v.push(101u8);
    v.push(100u8);
    v.push(95u8);
    v.push(112u8);
    v.push(105u8);
    v.push(108u8);
    v.push(101u8);
    v.push(34u8);
    v.push(58u8);
    proof {
        reveal(lit_sel);
        assert(v@ =~= lit_sel());
    }
    v
}

fn lit_amt_vec() -> (v: Vec<u8>)
    ensures
        v@ == lit_amt(),
{
    let mut v: Vec<u8> = Vec::new();
    v.push(44u8);
    v.push(34u8);
    v.push(97u8);
    v.push(109u8);
    v.push(111u8);
    v.push(117u8);
    v.push(110u8);
    v.push(116u8);
    v.push(95u8);
    v.push(115u8);
    v.push(101u8);
    v.push(108u8);
    v.push(101u8);
    v.push(99u8);
    v.push(116u8);
    v.push(101u8);
    v.push(100u8);
    v.push(34u8);
    v.push(58u8);
    proof {
        reveal(lit_amt);
        assert(v@ =~= lit_amt());
    }
    v
}

fn lit_cur_vec() -> (v: Vec<u8>)
    ensures
        v@ == lit_cur(),
{
    let mut v: Vec<u8> = Vec::new();
    v.push(44u8);
    v.push(34u8);
    v.push(99u8);
    v.push(117u8);
    v.push(114u8);
    v.push(114u8);
    v.push(101u8);
    v.push(110u8);
    v.push(116u8);
    v.push(95u8);
    v.push(112u8);
    v.push(108u8);
    v.push(97u8);
    v.push(121u8);
    v.push(101u8);
    v.push(114u8);
    v.push(34u8);
    v.push(58u8);
    proof {
        reveal(lit_cur);
        assert(v@ =~= lit_cur());
    }
    v
}

fn lit_role_vec() -> (v: Vec<u8>)
    ensures
        v@ == lit_role(),
{
    let mut v: Vec<u8> = Vec::new();
    v.push(44u8);
    v.push(34u8);
    v.push(112u8);
    v.push(108u8);
    v.push(97u8);
    v.push(121u8);
    v.push(101u8);
    v.push(114u8);
    v.push(95u8);
    v.push(116u8);
    v.push(121u8);
    v.push(112u8);
    v.push(101u8);
    v.push(34u8);
    v.push(58u8);
    proof {
        reveal(lit_role);
        assert(v@ =~= lit_role());
    }
    v
}

fn lit_null_vec() -> (v: Vec<u8>)
    ensures
        v@ == lit_null(),
{
    let mut v: Vec<u8> = Vec::new();
    v.push(110u8);
    v.push(117u8);
    v.push(108u8);
    v.push(108u8);
    proof {
        reveal(lit_null);
        assert(v@ =~= lit_null());
    }
    v
}

fn lit_host_vec() -> (v: Vec<u8>)
    ensures
        v@ == lit_host(),
{
    let mut v: Vec<u8> = Vec::new();
    v.push(34u8);
    v.push(72u8);
    v.push(111u8);
    v.push(115u8);
    v.push(116u8);
    v.push(34u8);
    proof {
        reveal(lit_host);
        assert(v@ =~= lit_host());
    }
    v
}

fn lit_guest_vec() -> (v: Vec<u8>)
    ensures
        v@ == lit_guest(),
{
    let mut v: Vec<u8> = Vec::new();
    v.push(34u8);
    v.push(71u8);
    v.push(117u8);
    v.push(101u8);
    v.push(115u8);
    v.push(116u8);
    v.push(34u8);
    proof {
        reveal(lit_guest);
        assert(v@ =~= lit_guest());
    }
    v
}

/// Append the canonical decimal digits of `n`.
fn push_dec(out: &mut Vec<u8>, n: u64)
    ensures
        final(out)@ == old(out)@ + dec(n as nat),
    decreases n,
{
    if n >= 10 {
        push_dec(out, n / 10);
    }
    out.push((48 + (n % 10)) as u8);
    proof {
        assert(final(out)@ =~= old(out)@ + dec(n as nat));
    }
}

/// Encode a game state into its wire form.
pub fn encode_game_state(g: &GameState) -> (out: Vec<u8>)
    requires
        g@.wf(),
    ensures
        out@ == spec_encode(g@),
{
    let mut out: Vec<u8> = Vec::new();
    let mut piece = lit_open_vec();
    out.append(&mut piece);
    let mut k: usize = 0;
    while k < g.piles.len()
        invariant
            0 <= k <= g.piles@.len(),
            g@.wf(),
            out@ == lit_open() + enc_piles(g.piles@.take(k as int)),
        decreases g.piles@.len() - k,
    {
        if k > 0 {
            out.push(44u8);
        }
        let p = g.piles[k];
        push_dec(&mut out, p as u64);
        proof {
            let taken = g.piles@.take(k + 1 as int);
            assert(taken.drop_last() =~= g.piles@.take(k as int));
            assert(taken.last() == g.piles@[k as int]);
            if k == 0 {
                assert(out@ =~= lit_open() + enc_piles(taken));
            } else {
                assert(out@ =~= lit_open() + enc_piles(taken));
            }
        }
        k += 1;
    }
    proof {
        assert(g.piles@.take(g.piles@.len() as int) =~= g.piles@);
    }
    let mut piece = lit_sel_vec();
    out.append(&mut piece);
    push_dec(&mut out, selected_as_u64(g));
    let mut piece = lit_amt_vec();
    out.append(&mut piece);
    match g.amount_selected {
        None => {
            let mut piece = lit_null_vec();
            out.append(&mut piece);
        },
        Some(a) => {
            push_dec(&mut out, a as u64);
        },
    }
    let mut piece = lit_cur_vec();
    out.append(&mut piece);
    match g.current_player {
        PlayerType::Host => {
            let mut piece = lit_host_vec();
            out.append(&mut piece);
        },
        PlayerType::Guest => {
            let mut piece = lit_guest_vec();
            out.append(&mut piece);
        },
    }
    let mut piece = lit_role_vec();
    out.append(&mut piece);
    match g.player_type {
        PlayerType::Host => {
            let mut piece = lit_host_vec();
            out.append(&mut piece);
        },
        PlayerType::Guest => {
            let mut piece = lit_guest_vec();
            out.append(&mut piece);
        },
    }
    out.push(125u8);
    proof {
        reveal(lit_close);
        assert(out@ =~= spec_encode(g@));
    }
    out
}

/// The selected pile index, widened for digit printing.
fn selected_as_u64(g: &GameState) -> (r: u64)
    ensures
        r == g@.selected,
{
    g.selected_pile as u64
}

/// Encode a game state as the other side must receive it: the wire form
/// of the same state with the role flipped.
pub fn encode_for_peer(g: &GameState) -> (out: Vec<u8>)
    requires
        g@.wf(),
    ensures
        out@ == spec_encode(GameView { role: spec_flip(g@.role), ..g@ }),
{
    let flipped = g.to_peer_perspective();
    encode_game_state(&flipped)
}

/// True when the bytes from `i` on start with exactly `pat`.
fn expect(bytes: &Vec<u8>, i: usize, pat: &Vec<u8>) -> (r: bool)
    ensures
        r <==> (i + pat@.len() <= bytes@.len() && bytes@.subrange(i as int, i + pat@.len())
            == pat@),
{
    if pat.len() > bytes.len() || i > bytes.len() - pat.len() {
        return false;
    }
    let mut k: usize = 0;
    while k < pat.len()
        invariant
            i + pat@.len() <= bytes@.len(),
            bytes@.len() <= usize::MAX,
            0 <= k <= pat@.len(),
            forall|t: int| 0 <= t < k ==> bytes@[i + t] == pat@[t],
        decreases pat@.len() - k,
    {
        if bytes[i + k] != pat[k] {
            proof {
                assert(bytes@.subrange(i as int, i + pat@.len())[k as int] == bytes@[i + k]);
            }
            return false;
        }
        k += 1;
    }
    proof {
        assert(bytes@.subrange(i as int, i + pat@.len()) =~= pat@);
    }
    true
}


/// A canonical number of value `v` sits at position `i`: its digits,
/// followed by the end of the input or by a non-digit.
pub open spec fn num_at(s: Seq<u8>, i: int, v: nat) -> bool {
    &&& 0 <= i
    &&& i + dec(v).len() <= s.len()
    &&& s.subrange(i, i + dec(v).len()) == dec(v)
    &&& (i + dec(v).len() == s.len() || !is_digit(s[i + dec(v).len()]))
}

/// A number whose digits are a prefix of another's digits is no larger.
pub proof fn lemma_dec_prefix_le(a: nat, b: nat, rest: Seq<u8>)
    requires
        dec(a) + rest == dec(b),
    ensures
        a <= b,
    decreases rest.len(),
{
    assert((dec(a) + rest).len() == dec(a).len() + rest.len());
    if rest.len() == 0 {
        assert(dec(a) =~= dec(b));
        lemma_dec_injective(a, b);
    } else {
        lemma_dec_props(a);
        if b < 10 {
            assert(dec(b).len() == 1);
            assert(false);
        }
        assert(dec(b) == dec(b / 10).push((48 + b % 10) as u8));
        assert(dec(b / 10) =~= dec(b).drop_last());
        assert(dec(a) + rest.drop_last() =~= dec(b).drop_last());
        lemma_dec_prefix_le(a, b / 10, rest.drop_last());

        assert(b / 10 <= b) by (nonlinear_arith);
    }
}

/// While a digit run continues, it stays inside the digits of any
/// canonical number sitting at its start.
proof fn lemma_num_at_digit_run(s: Seq<u8>, i: int, cap: nat, j: int, w: nat)
    requires
        num_at(s, i, cap),
        i < j < s.len(),
        s.subrange(i, j) == dec(w),
        is_digit(s[j]),
    ensures
        j < i + dec(cap).len(),
{
    lemma_dec_props(cap);
    lemma_dec_props(w);
    let ln = dec(cap).len() as int;
    if j >= i + ln {
        if j == i + ln {
            assert(!is_digit(s[j]));
        } else {
            assert(s.subrange(i, j)[ln] == s[i + ln]);
            assert(is_digit(dec(w)[ln]));
            assert(!is_digit(s[i + ln]));
        }
        assert(false);
    }
}

/// Parse a canonical decimal number of value at most `max` at position `i`.
fn parse_num(bytes: &Vec<u8>, i: usize, max: u64) -> (r: Option<(u64, usize)>)
    ensures
        r matches Some(p) ==> {
            &&& i < p.1 <= bytes@.len()
            &&& p.0 <= max
            &&& bytes@.subrange(i as int, p.1 as int) == dec(p.0 as nat)
            &&& (p.1 == bytes@.len() || !is_digit(bytes@[p.1 as int]))
        },
        r is None ==> (forall|v: nat| v <= max ==> !num_at(bytes@, i as int, v)),
{
    if i >= bytes.len() {
        proof {
            assert forall|v: nat| v <= max implies !num_at(bytes@, i as int, v) by {
                lemma_dec_props(v);
            }
        }
        return None;
    }
    let b0 = bytes[i];
    if !(48 <= b0 && b0 <= 57) {
        proof {
            assert forall|v: nat| v <= max implies !num_at(bytes@, i as int, v) by {
                lemma_dec_props(v);
                if num_at(bytes@, i as int, v) {
                    assert(bytes@.subrange(i as int, i + dec(v).len())[0] == bytes@[i as int]);
                    assert(is_digit(dec(v)[0]));
                }
            }
        }
        return None;
    }
    if b0 == 48 {
        // a canonical zero is a lone digit
        if i + 1 < bytes.len() {
            let b1 = bytes[i + 1];
            if 48 <= b1 && b1 <= 57 {
                proof {
                    assert forall|v: nat| v <= max implies !num_at(bytes@, i as int, v) by {
                        lemma_dec_props(v);
                        if num_at(bytes@, i as int, v) {
                            let bi = bytes@[i as int];
                            assert(bytes@.subrange(i as int, i + dec(v).len())[0] == bi);
                            if v >= 1 {
                                assert(dec(v)[0] != 48);
                            }
                            assert(v == 0 && dec(v).len() == 1);
                            assert(!is_digit(bytes@[i + 1]));
                        }
                    }
                }
                return None;
            }
        }
        proof {
            assert(bytes@.subrange(i as int, i + 1) =~= dec(0));
        }
        return Some((0, i + 1));
    }
    let mut v: u64 = (b0 - 48) as u64;
    let mut j: usize = i + 1;
    if v > max {
        proof {
            assert forall|cap: nat| cap <= max implies !num_at(bytes@, i as int, cap) by {
                lemma_dec_props(cap);
                if num_at(bytes@, i as int, cap) {
                    assert(bytes@.subrange(i as int, i + dec(cap).len())[0] == bytes@[i as int]);
                    if cap < 10 {
                        assert(dec(cap).len() == 1);
                        assert(dec(cap)[0] == (48 + cap) as u8);
                        assert(cap == v);
                    }
                    assert(false);
                }
            }
        }
        return None;
    }
    proof {
        assert(bytes@.subrange(i as int, j as int) =~= dec(v as nat));
    }
    loop
        invariant
            i < j <= bytes@.len(),
            1 <= v <= max,
            bytes@.subrange(i as int, j as int) == dec(v as nat),
        ensures
            i < j <= bytes@.len(),
            1 <= v <= max,
            bytes@.subrange(i as int, j as int) == dec(v as nat),
            j == bytes@.len() || !is_digit(bytes@[j as int]),
        decreases bytes@.len() - j,
    {
        if j >= bytes.len() {
            break ;
        }
        let b = bytes[j];
        if !(48 <= b && b <= 57) {
            break ;
        }
        let d = (b - 48) as u64;
        if d > max {
            proof {
                assert forall|cap: nat| cap <= max implies !num_at(bytes@, i as int, cap) by {
                    if num_at(bytes@, i as int, cap) {
                        lemma_num_at_digit_run(bytes@, i as int, cap, j as int, v as nat);
                        lemma_dec_props(cap);
                        if cap < 10 {
                            assert(dec(cap).len() == 1);
                        }
                        assert(false);
                    }
                }
            }
            return None;
        }
        if v > (max - d) / 10 {
            proof {
                let q = ((max - d) / 10) as nat;
                let rr = ((max - d) % 10) as nat;
                assert((max - d) as nat == 10 * q + rr && rr < 10) by (nonlinear_arith)
                    requires
                        d <= max && q == ((max - d) / 10) as nat && rr == ((max - d) % 10) as nat,
                ;
                assert forall|cap: nat| cap <= max implies !num_at(bytes@, i as int, cap) by {
                    if num_at(bytes@, i as int, cap) {
                        lemma_num_at_digit_run(bytes@, i as int, cap, j as int, v as nat);
                        let ln = dec(cap).len() as int;
                        let x = (v * 10 + d) as nat;
                        assert(x / 10 == v && x % 10 == d) by (nonlinear_arith)
                            requires
                                1 <= v && 0 <= d < 10 && x == v * 10 + d,
                        ;
                        assert(x >= 10);
                        assert(dec(x) == dec(v as nat).push((48 + x % 10) as u8));
                        assert((48 + x % 10) as u8 == b);
                        assert(bytes@.subrange(i as int, j + 1) =~= bytes@.subrange(
                            i as int,
                            j as int,
                        ).push(bytes@[j as int]));
                        assert(bytes@.subrange(i as int, j + 1) == dec(x));
                        assert(dec(x) + bytes@.subrange(j + 1, i + ln) =~= bytes@.subrange(
                            i as int,
                            i + ln,
                        ));
                        lemma_dec_prefix_le(x, cap, bytes@.subrange(j + 1, i + ln));
                        // x exceeds max, so no number this large fits under the cap
                        assert(v * 10 >= 10 * q + 10);
                        assert(false);
                    }
                }
            }
            return None;
        }
        proof {
            assert(v * 10 <= max - d && v * 10 + d <= max) by (nonlinear_arith)
                requires
                    1 <= v && v <= (max - d) / 10 && 0 <= d && d <= max,
            ;
            assert((v * 10 + d) / 10 == v && (v * 10 + d) % 10 == d) by (nonlinear_arith)
                requires
                    1 <= v && 0 <= d < 10,
            ;
        }
        let ghost old_v = v as nat;
        v = v * 10 + d;
        proof {
            assert(v >= 10);
            assert(dec(v as nat) == dec(old_v).push((48 + (v as nat) % 10) as u8));
            assert((48 + (v as nat) % 10) as u8 == b);
            assert(bytes@.subrange(i as int, j + 1 as int) =~= bytes@.subrange(
                i as int,
                j as int,
            ).push(bytes@[j as int]));
        }
        j += 1;
    }
    Some((v, j))
}

/// Decode a wire form. A successful decode yields a well-formed state
/// whose canonical encoding is exactly the input.
#[verifier::rlimit(100)]
pub fn decode_game_state(bytes: &Vec<u8>) -> (r: Option<GameState>)
    ensures
        r matches Some(g) ==> g@.wf() && bytes@ == spec_encode(g@),
        r is None ==> forall|g: GameView| !(#[trigger] encodes(bytes@, g)),
{
    let _total = bytes.len();
    proof {
        lemma_lit_facts();
    }
    let pat_open = lit_open_vec();
    if !expect(bytes, 0, &pat_open) {
        proof {
            lemma_none_open(bytes@);
        }
        return None;
    }
    let mut i: usize = pat_open.len();
    proof {
        assert(bytes@.subrange(0, i as int) == lit_open());
    }
    // the pile list: at least one number, separated by commas
    let first = match parse_num(bytes, i, 127) {
        Some(p) => p,
        None => {
            proof {
                lemma_none_first_pile(bytes@);
            }
            return None;
        },
    };
    let mut piles: Vec<i8> = Vec::new();
    piles.push(first.0 as i8);
    let ghost start_piles: int = i as int;
    proof {
        assert(piles@ =~= seq![first.0 as i8]);
        assert(enc_piles(piles@) == dec(first.0 as nat));
        assert(bytes@.subrange(start_piles, first.1 as int) == enc_piles(piles@));
    }
    i = first.1;
    loop
        invariant
            start_piles == 10,
            0 <= start_piles < i <= bytes@.len(),
            piles@.len() >= 1,
            forall|t: int| 0 <= t < piles@.len() ==> 0 <= #[trigger] piles@[t] <= 127,
            bytes@.subrange(start_piles, i as int) == enc_piles(piles@),
            i == bytes@.len() || !is_digit(bytes@[i as int]),
        ensures
            start_piles == 10,
            0 <= start_piles < i <= bytes@.len(),
            piles@.len() >= 1,
            forall|t: int| 0 <= t < piles@.len() ==> 0 <= #[trigger] piles@[t] <= 127,
            bytes@.subrange(start_piles, i as int) == enc_piles(piles@),
            i == bytes@.len() || !is_digit(bytes@[i as int]),
            i == bytes@.len() || bytes@[i as int] != 44,
        decreases bytes@.len() - i,
    {
        if !(i < bytes.len() && bytes[i] == 44) {
            break ;
        }
        let next = match parse_num(bytes, i + 1, 127) {
            Some(p) => p,
            None => {
                proof {
                    lemma_none_more_piles(bytes@, piles@, i as int);
                }
                return None;
            },
        };
        let ghost piles_before = piles@;
        let ghost i_before = i as int;
        piles.push(next.0 as i8);
        proof {
            assert(piles@.drop_last() =~= piles_before);
            assert(piles@.last() == next.0 as i8);
            assert(enc_piles(piles@) == enc_piles(piles_before) + seq![44u8] + dec(
                next.0 as nat,
            ));
            assert(bytes@.subrange(start_piles, next.1 as int) =~= bytes@.subrange(
                start_piles,
                i_before,
            ) + seq![bytes@[i_before]] + bytes@.subrange(i_before + 1, next.1 as int));
        }
        i = next.1;
    }
    let ghost end_piles: int = i as int;
    let pat_sel = lit_sel_vec();
    if !expect(bytes, i, &pat_sel) {
        proof {
            lemma_none_sel_lit(bytes@, piles@, end_piles);
        }
        return None;
    }
    let ghost psel = piles@;
    proof {
        assert(bytes@.subrange(0, end_piles) =~= bytes@.subrange(0, start_piles)
            + bytes@.subrange(start_piles, end_piles));
        assert(bytes@.subrange(0, end_piles) == lit_open() + enc_piles(psel));
    }
    i = i + pat_sel.len();
    proof {
        assert(bytes@.subrange(0, i as int) =~= bytes@.subrange(0, end_piles) + bytes@.subrange(
            end_piles,
            i as int,
        ));
        assert(bytes@.subrange(0, i as int) == lit_open() + enc_piles(psel) + lit_sel());
    }
    // the selected pile index
    let sel_max: u64 = usize::MAX as u64;
    let selp = match parse_num(bytes, i, sel_max) {
        Some(p) => p,
        None => {
            proof {
                assert(sel_max as nat == usize::MAX as nat);
                assert forall|v: nat| v <= usize::MAX implies !(#[trigger] num_at(
                    bytes@,
                    end_piles + 18,
                    v,
                )) by {
                    assert(v <= sel_max);
                }
                lemma_none_sel_num(bytes@, psel, end_piles);
            }
            return None;
        },
    };
    let selected: usize = selp.0 as usize;
    proof {
        assert(bytes@.subrange(0, selp.1 as int) =~= bytes@.subrange(0, i as int)
            + bytes@.subrange(i as int, selp.1 as int));
        assert(bytes@.subrange(0, selp.1 as int) == lit_open() + enc_piles(psel) + lit_sel() + dec(
            selected as nat,
        ));
    }
    i = selp.1;
    let pat_amt = lit_amt_vec();
    if !expect(bytes, i, &pat_amt) {
        proof {
            lemma_none_amt_lit(bytes@, psel, end_piles, selp.0 as nat, selp.1 as int);
        }
        return None;
    }
    let ghost before_amt: int = i as int;
    i = i + pat_amt.len();
    proof {
        assert(bytes@.subrange(0, i as int) =~= bytes@.subrange(0, before_amt) + bytes@.subrange(
            before_amt,
            i as int,
        ));
        assert(bytes@.subrange(0, i as int) == lit_open() + enc_piles(psel) + lit_sel() + dec(
            selected as nat,
        ) + lit_amt());
    }
    // the staged amount: null or a number
    let pat_null = lit_null_vec();
    let amount: Option<i8>;
    if expect(bytes, i, &pat_null) {
        amount = None;
        let ghost before_null: int = i as int;
        i = i + pat_null.len();
        proof {
            assert(bytes@.subrange(0, i as int) =~= bytes@.subrange(0, before_null)
                + bytes@.subrange(before_null, i as int));
        }
    } else {
        let amtp = match parse_num(bytes, i, 127) {
            Some(p) => p,
            None => {
                proof {
                    lemma_none_amt_val(bytes@, psel, end_piles, selp.0 as nat, selp.1 as int);
                }
                return None;
            },
        };
        amount = Some(amtp.0 as i8);
        proof {
            assert((amtp.0 as i8) as nat == amtp.0 as nat);
            assert(bytes@.subrange(0, amtp.1 as int) =~= bytes@.subrange(0, i as int)
                + bytes@.subrange(i as int, amtp.1 as int));
        }
        i = amtp.1;
    }
    let ghost amt_end: int = i as int;
    proof {
        assert(bytes@.subrange(0, i as int) == lit_open() + enc_piles(psel) + lit_sel() + dec(
            selected as nat,
        ) + lit_amt() + enc_amount(amount));
        assert(before_amt + 19 < amt_end <= bytes@.len());
        assert(bytes@.subrange(before_amt + 19, amt_end) == enc_amount(amount));
        assert(amount matches Some(a) ==> a >= 0 && (amt_end == bytes@.len() || !is_digit(
            bytes@[amt_end],
        )));
    }
    let pat_cur = lit_cur_vec();
    if !expect(bytes, i, &pat_cur) {
        proof {
            lemma_none_cur_lit(
                bytes@,
                psel,
                end_piles,
                selp.0 as nat,
                before_amt,
                amount,
                amt_end,
            );
        }
        return None;
    }
    let ghost before_cur: int = i as int;
    i = i + pat_cur.len();
    proof {
        assert(bytes@.subrange(0, i as int) =~= bytes@.subrange(0, before_cur) + bytes@.subrange(
            before_cur,
            i as int,
        ));
    }
    let current = match parse_player(bytes, &mut i) {
        Some(p) => p,
        None => {
            proof {
                lemma_none_cur_player(
                    bytes@,
                    psel,
                    end_piles,
                    selp.0 as nat,
                    before_amt,
                    amount,
                    amt_end,
                );
            }
            return None;
        },
    };
    let ghost cur_end: int = i as int;
    proof {
        assert(bytes@.subrange(0, i as int) == lit_open() + enc_piles(psel) + lit_sel() + dec(
            selected as nat,
        ) + lit_amt() + enc_amount(amount) + lit_cur() + enc_player(current));
        assert(amt_end + 18 < cur_end <= bytes@.len());
        assert(bytes@.subrange(amt_end + 18, cur_end) == enc_player(current));
    }
    let pat_role = lit_role_vec();
    if !expect(bytes, i, &pat_role) {
        proof {
            lemma_none_role_lit(
                bytes@,
                psel,
                end_piles,
                selp.0 as nat,
                before_amt,
                amount,
                amt_end,
                current,
                cur_end,
            );
        }
        return None;
    }
    let ghost before_role: int = i as int;
    i = i + pat_role.len();
    proof {
        assert(bytes@.subrange(0, i as int) =~= bytes@.subrange(0, before_role) + bytes@.subrange(
            before_role,
            i as int,
        ));
    }
    let role = match parse_player(bytes, &mut i) {
        Some(p) => p,
        None => {
            proof {
                lemma_none_role_player(
                    bytes@,
                    psel,
                    end_piles,
                    selp.0 as nat,
                    before_amt,
                    amount,
                    amt_end,
                    current,
                    cur_end,
                );
            }
            return None;
        },
    };
    let ghost role_end: int = i as int;
    proof {
        assert(bytes@.subrange(0, i as int) == lit_open() + enc_piles(psel) + lit_sel() + dec(
            selected as nat,
        ) + lit_amt() + enc_amount(amount) + lit_cur() + enc_player(current) + lit_role()
            + enc_player(role));
        assert(cur_end + 15 < role_end <= bytes@.len());
        assert(bytes@.subrange(cur_end + 15, role_end) == enc_player(role));
    }
    // the closing brace must end the input
    if !(i < bytes.len() && bytes[i] == 125 && i + 1 == bytes.len()) {
        proof {
            lemma_none_close(
                bytes@,
                psel,
                end_piles,
                selp.0 as nat,
                before_amt,
                amount,
                amt_end,
                current,
                cur_end,
                role,
                role_end,
            );
        }
        return None;
    }
    let ghost before_close: int = i as int;
    proof {
        reveal(lit_close);
        assert(bytes@.subrange(before_close, before_close + 1) =~= lit_close());
        assert(bytes@.subrange(0, before_close + 1) =~= bytes@.subrange(0, before_close)
            + bytes@.subrange(before_close, before_close + 1));
        assert(bytes@ =~= bytes@.subrange(0, bytes@.len() as int));
        assert(bytes@ == lit_open() + enc_piles(psel) + lit_sel() + dec(selected as nat)
            + lit_amt() + enc_amount(amount) + lit_cur() + enc_player(current) + lit_role()
            + enc_player(role) + lit_close());
    }
    // the decoded fields must form a well-formed state
    if selected >= piles.len() {
        proof {
            lemma_none_wf_sel(bytes@, psel, end_piles, selp.0 as nat, before_amt);
        }
        return None;
    }
    match amount {
        Some(a) => {
            if a > piles[selected] {
                proof {
                    lemma_none_wf_amt(
                        bytes@,
                        psel,
                        end_piles,
                        selp.0 as nat,
                        before_amt,
                        amount,
                        amt_end,
                    );
                }
                return None;
            }
        },
        None => {},
    }
    let g = GameState {
        piles,
        selected_pile: selected,
        amount_selected: amount,
        current_player: current,
        player_type: role,
    };
    proof {
        assert(g@.wf());
        assert(g@.piles == psel);
        assert(bytes@ == spec_encode(g@));
    }
    Some(g)
}

pub proof fn lemma_dec_props(n: nat)
    ensures
        dec(n).len() >= 1,
        forall|t: int| 0 <= t < dec(n).len() ==> is_digit(#[trigger] dec(n)[t]),
        n >= 1 ==> dec(n)[0] != 48,
    decreases n,
{
    if n >= 10 {
        lemma_dec_props(n / 10);
    }
}

pub proof fn lemma_dec_injective(a: nat, b: nat)
    requires
        dec(a) == dec(b),
    ensures
        a == b,
    decreases a,
{
    lemma_dec_props(a);
    lemma_dec_props(b);
    if a < 10 && b < 10 {
        assert(dec(a)[0] == dec(b)[0]);
    } else if a < 10 && b >= 10 {
        lemma_dec_props(b / 10);
        assert(dec(b).len() >= 2);
    } else if a >= 10 && b < 10 {
        lemma_dec_props(a / 10);
        assert(dec(a).len() >= 2);
    } else {
        assert(dec(a / 10) =~= dec(a).drop_last());
        assert(dec(b / 10) =~= dec(b).drop_last());
        lemma_dec_injective(a / 10, b / 10);
        assert(dec(a).last() == dec(b).last());
        assert(dec(a).last() == (48 + a % 10) as u8);
        assert(dec(b).last() == (48 + b % 10) as u8);
        assert(a % 10 < 10 && b % 10 < 10) by (nonlinear_arith);
        assert((48 + a % 10) as u8 == 48 + a % 10);
        assert((48 + b % 10) as u8 == 48 + b % 10);
        assert(a % 10 == b % 10);
        assert(a == 10 * (a / 10) + a % 10) by (nonlinear_arith);
        assert(b == 10 * (b / 10) + b % 10) by (nonlinear_arith);
    }
}

/// Digit runs parse deterministically: equal streams that each start with
/// a canonical number followed by a non-digit carry the same number.
pub proof fn lemma_dec_unambiguous(a: nat, b: nat, ra: Seq<u8>, rb: Seq<u8>)
    requires
        dec(a) + ra == dec(b) + rb,
        ra.len() == 0 || !is_digit(ra[0]),
        rb.len() == 0 || !is_digit(rb[0]),
    ensures
        a == b,
        ra == rb,
{
    lemma_dec_props(a);
    lemma_dec_props(b);
    let la = dec(a).len() as int;
    let lb = dec(b).len() as int;
    assert((dec(a) + ra).len() == (dec(b) + rb).len());
    assert((dec(a) + ra).len() == dec(a).len() + ra.len());
    assert((dec(b) + rb).len() == dec(b).len() + rb.len());
    assert(la + ra.len() == lb + rb.len());
    if la < lb {
        assert(ra.len() > 0);
        assert((dec(a) + ra)[la] == ra[0]);
        assert((dec(b) + rb)[la] == dec(b)[la]);
        assert(false);
    } else if lb < la {
        assert(rb.len() > 0);
        assert((dec(b) + rb)[lb] == rb[0]);
        assert((dec(a) + ra)[lb] == dec(a)[lb]);
        assert(false);
    } else {
        assert(dec(a) =~= (dec(a) + ra).subrange(0, la));
        assert(dec(b) =~= (dec(b) + rb).subrange(0, la));
        lemma_dec_injective(a, b);
        assert(ra =~= rb) by {
            assert(forall|t: int|
                0 <= t < ra.len() ==> ra[t] == (dec(a) + ra)[la + t] && rb[t] == (dec(b) + rb)[la
                    + t]);
        }
    }
}

/// Equal sequences with equal prefixes have equal remainders.
pub proof fn lemma_cancel(x: Seq<u8>, a: Seq<u8>, b: Seq<u8>)
    requires
        x + a == x + b,
    ensures
        a == b,
{
    let n = x.len() as int;
    assert((x + a).len() == (x + b).len());
    assert((x + a).len() == x.len() + a.len());
    assert((x + b).len() == x.len() + b.len());
    assert(a.len() == b.len());
    assert(a =~= b) by {
        assert(forall|t: int| 0 <= t < a.len() ==> a[t] == (x + a)[n + t] && b[t] == (x + b)[n + t]);
    }
}

/// The pile list's encoding seen from its first element.
pub proof fn lemma_enc_piles_head(ps: Seq<i8>)
    requires
        ps.len() >= 1,
    ensures
        ps.len() == 1 ==> enc_piles(ps) == dec(ps[0] as nat),
        ps.len() >= 2 ==> enc_piles(ps) == dec(ps[0] as nat) + seq![44u8] + enc_piles(
            ps.drop_first(),
        ),
    decreases ps.len(),
{
    if ps.len() == 2 {
        assert(ps.drop_last() =~= seq![ps[0]]);
        assert(ps.drop_first() =~= seq![ps[1]]);
        assert(enc_piles(ps) =~= dec(ps[0] as nat) + seq![44u8] + dec(ps[1] as nat));
    } else if ps.len() > 2 {
        lemma_enc_piles_head(ps.drop_last());
        assert(ps.drop_last().drop_first() =~= ps.drop_first().drop_last());
        assert(ps.drop_last()[0] == ps[0]);
        assert(ps.drop_first().last() == ps.last());
        assert(ps.drop_first().len() >= 2);
        assert(enc_piles(ps) == enc_piles(ps.drop_last()) + seq![44u8] + dec(ps.last() as nat));
        assert(enc_piles(ps.drop_first()) == enc_piles(ps.drop_first().drop_last()) + seq![44u8]
            + dec(ps.drop_first().last() as nat));
        assert(enc_piles(ps) =~= dec(ps[0] as nat) + seq![44u8] + enc_piles(ps.drop_first()));
    }
}

/// Pile lists parse deterministically: equal streams that each start with
/// an encoded pile list followed by a byte that is neither a digit nor a
/// separator carry the same list.
#[verifier::rlimit(100)]
#[verifier::spinoff_prover]
pub proof fn lemma_piles_unambiguous(xs: Seq<i8>, ys: Seq<i8>, ra: Seq<u8>, rb: Seq<u8>)
    requires
        xs.len() >= 1,
        ys.len() >= 1,
        forall|t: int| 0 <= t < xs.len() ==> 0 <= #[trigger] xs[t],
        forall|t: int| 0 <= t < ys.len() ==> 0 <= #[trigger] ys[t],
        enc_piles(xs) + ra == enc_piles(ys) + rb,
        ra.len() > 0 && !is_digit(ra[0]) && ra[0] != 44,
        rb.len() > 0 && !is_digit(rb[0]) && rb[0] != 44,
    ensures
        xs == ys,
        ra == rb,
    decreases xs.len(),
{
    lemma_enc_piles_head(xs);
    lemma_enc_piles_head(ys);
    let x0 = xs[0] as nat;
    let y0 = ys[0] as nat;
    if xs.len() == 1 && ys.len() == 1 {
        lemma_dec_unambiguous(x0, y0, ra, rb);
        assert(xs[0] == ys[0]);
        assert(xs =~= ys);
    } else if xs.len() == 1 && ys.len() >= 2 {
        let rb2 = seq![44u8] + enc_piles(ys.drop_first()) + rb;
        assert(dec(y0) + rb2 =~= enc_piles(ys) + rb);
        lemma_dec_unambiguous(x0, y0, ra, rb2);
        assert(ra[0] == 44);
        assert(false);
    } else if xs.len() >= 2 && ys.len() == 1 {
        let ra2 = seq![44u8] + enc_piles(xs.drop_first()) + ra;
        assert(dec(x0) + ra2 =~= enc_piles(xs) + ra);
        lemma_dec_unambiguous(x0, y0, ra2, rb);
        assert(rb[0] == 44);
        assert(false);
    } else {
        let ra2 = seq![44u8] + (enc_piles(xs.drop_first()) + ra);
        let rb2 = seq![44u8] + (enc_piles(ys.drop_first()) + rb);
        assert(dec(x0) + ra2 =~= enc_piles(xs) + ra);
        assert(dec(y0) + rb2 =~= enc_piles(ys) + rb);
        lemma_dec_unambiguous(x0, y0, ra2, rb2);
        lemma_cancel(seq![44u8], enc_piles(xs.drop_first()) + ra, enc_piles(ys.drop_first()) + rb);
        assert(forall|t: int| 0 <= t < xs.drop_first().len() ==> 0 <= #[trigger] xs.drop_first()[t]);
        assert(forall|t: int| 0 <= t < ys.drop_first().len() ==> 0 <= #[trigger] ys.drop_first()[t]);
        lemma_piles_unambiguous(xs.drop_first(), ys.drop_first(), ra, rb);
        assert(xs[0] == ys[0]);
        assert(xs.len() == ys.len());
        assert(forall|t: int|
            1 <= t < xs.len() ==> xs[t] == xs.drop_first()[t - 1] && ys[t] == ys.drop_first()[t
                - 1]);
        assert(xs =~= ys);
    }
}


/// Every byte of an encoded pile list is a digit or a separator.
proof fn lemma_enc_piles_chars(ps: Seq<i8>)
    requires
        forall|t: int| 0 <= t < ps.len() ==> 0 <= #[trigger] ps[t],
    ensures
        forall|t: int|
            0 <= t < enc_piles(ps).len() ==> (is_digit(#[trigger] enc_piles(ps)[t]) || enc_piles(
                ps,
            )[t] == 44),
    decreases ps.len(),
{
    if ps.len() == 0 {
    } else if ps.len() == 1 {
        lemma_dec_props(ps[0] as nat);
    } else {
        assert(forall|t: int| 0 <= t < ps.drop_last().len() ==> 0 <= #[trigger] ps.drop_last()[t]);
        lemma_enc_piles_chars(ps.drop_last());
        lemma_dec_props(ps.last() as nat);
        let a = enc_piles(ps.drop_last());
        let b = dec(ps.last() as nat);
        assert(enc_piles(ps) == a + seq![44u8] + b);
        assert((a + seq![44u8]).len() == a.len() + 1);
        assert((a + seq![44u8] + b).len() == (a + seq![44u8]).len() + b.len());
        assert forall|t: int|
            0 <= t < enc_piles(ps).len() implies (is_digit(#[trigger] enc_piles(ps)[t])
            || enc_piles(ps)[t] == 44) by {
            if t < a.len() {
                assert(enc_piles(ps)[t] == a[t]);
            } else if t == a.len() {
                assert(enc_piles(ps)[t] == (a + seq![44u8])[t]);
                assert(enc_piles(ps)[t] == 44);
            } else {
                assert(enc_piles(ps)[t] == b[t - a.len() - 1]);
            }
        }
    }
}

/// Splitting any wire form after the opening text.
proof fn lemma_align_open(bytes: Seq<u8>, g: GameView)
    requires
        bytes == spec_encode(g),
    ensures
        10 <= bytes.len(),
        bytes.subrange(0, 10) == lit_open(),
        bytes.subrange(10, bytes.len() as int) == enc_tail(g),
{
    lemma_reassoc(g);
    lemma_lit_facts();
    assert((lit_open() + enc_tail(g)).len() == lit_open().len() + enc_tail(g).len());
    assert(bytes.subrange(0, 10) =~= lit_open());
    assert(bytes.subrange(10, bytes.len() as int) =~= enc_tail(g));
}

/// An encoded pile list at the head of a stream, followed by a byte that
/// is neither a digit nor a separator, starts with its first number.
proof fn lemma_piles_head_num(bytes: Seq<u8>, i: int, ps: Seq<i8>, t: Seq<u8>)
    requires
        0 <= i <= bytes.len(),
        ps.len() >= 1,
        forall|u: int| 0 <= u < ps.len() ==> 0 <= #[trigger] ps[u],
        bytes.subrange(i, bytes.len() as int) == enc_piles(ps) + t,
        t.len() > 0 && !is_digit(t[0]) && t[0] != 44,
    ensures
        num_at(bytes, i, ps[0] as nat),
{
    lemma_enc_piles_head(ps);
    lemma_dec_props(ps[0] as nat);
    let len = bytes.len() as int;
    let l0 = dec(ps[0] as nat).len() as int;
    if ps.len() == 1 {
        assert(bytes.subrange(i, len) == dec(ps[0] as nat) + t);
        assert((dec(ps[0] as nat) + t).len() == dec(ps[0] as nat).len() + t.len());
        assert(i + l0 < len);
        assert(bytes.subrange(i, i + l0) =~= dec(ps[0] as nat));
        assert(bytes.subrange(i, len)[l0] == bytes[i + l0]);
        assert(bytes[i + l0] == t[0]);
    } else {
        let t2 = seq![44u8] + (enc_piles(ps.drop_first()) + t);
        assert(bytes.subrange(i, len) =~= dec(ps[0] as nat) + t2);
        assert((dec(ps[0] as nat) + t2).len() == dec(ps[0] as nat).len() + t2.len());
        assert(t2.len() == 1 + (enc_piles(ps.drop_first()) + t).len());
        assert(i + l0 < len);
        assert(bytes.subrange(i, i + l0) =~= dec(ps[0] as nat));
        assert(bytes.subrange(i, len)[l0] == bytes[i + l0]);
        assert(bytes[i + l0] == t2[0]);
        assert(!is_digit(bytes[i + l0]));
    }
}

/// A canonical number at the head of a stream, followed by a non-digit,
/// is a parseable number.
proof fn lemma_dec_head_num(bytes: Seq<u8>, i: int, v: nat, t: Seq<u8>)
    requires
        0 <= i <= bytes.len(),
        bytes.subrange(i, bytes.len() as int) == dec(v) + t,
        t.len() > 0 && !is_digit(t[0]),
    ensures
        num_at(bytes, i, v),
{
    lemma_dec_props(v);
    let len = bytes.len() as int;
    let l0 = dec(v).len() as int;
    assert((dec(v) + t).len() == dec(v).len() + t.len());
    assert(i + l0 < len);
    assert(bytes.subrange(i, i + l0) =~= dec(v));
    assert(bytes.subrange(i, len)[l0] == bytes[i + l0]);
    assert(bytes[i + l0] == t[0]);
}

/// A parsed pile list that ends before a byte that is neither a digit nor
/// a separator is the whole encoded pile list of the wire form.
#[verifier::rlimit(100)]
#[verifier::spinoff_prover]
proof fn lemma_align_piles(bytes: Seq<u8>, g: GameView, p: Seq<i8>, ep: int)
    requires
        g.wf(),
        bytes == spec_encode(g),
        10 < ep <= bytes.len(),
        p.len() >= 1,
        forall|t: int| 0 <= t < p.len() ==> 0 <= #[trigger] p[t],
        bytes.subrange(10, ep) == enc_piles(p),
        ep == bytes.len() || !is_digit(bytes[ep]),
        ep == bytes.len() || bytes[ep] != 44,
    ensures
        g.piles == p,
        ep + 18 <= bytes.len(),
        bytes.subrange(ep, ep + 18) == lit_sel(),
        bytes.subrange(ep + 18, bytes.len() as int) == dec(g.selected as nat) + tail_from_amt(g),
{
    lemma_lit_facts();
    lemma_align_open(bytes, g);
    let len = bytes.len() as int;
    let restp = bytes.subrange(ep, len);
    assert(enc_piles(p) + restp =~= bytes.subrange(10, len));
    assert(tail_from_sel(g).len() == 18 + (dec(g.selected as nat) + tail_from_amt(g)).len());
    assert(tail_from_sel(g)[0] == 93);
    if restp.len() == 0 {
        lemma_enc_piles_chars(p);
        assert((enc_piles(g.piles) + tail_from_sel(g)).len() == enc_piles(g.piles).len()
            + tail_from_sel(g).len());
        assert(enc_piles(p)[enc_piles(g.piles).len() as int] == tail_from_sel(g)[0]);
        assert(false);
    }
    assert(restp[0] == bytes[ep]);
    lemma_piles_unambiguous(p, g.piles, restp, tail_from_sel(g));
    assert(bytes.subrange(ep, ep + 18) =~= lit_sel());
    assert(bytes.subrange(ep + 18, len) =~= dec(g.selected as nat) + tail_from_amt(g));
}

/// A parsed canonical number that ends before a non-digit matches the
/// number the stream continues with.
proof fn lemma_align_dec(bytes: Seq<u8>, i: int, j: int, v: nat, w: nat, t: Seq<u8>)
    requires
        0 <= i < j <= bytes.len(),
        bytes.subrange(i, bytes.len() as int) == dec(w) + t,
        bytes.subrange(i, j) == dec(v),
        j == bytes.len() || !is_digit(bytes[j]),
        t.len() == 0 || !is_digit(t[0]),
    ensures
        v == w,
        bytes.subrange(j, bytes.len() as int) == t,
{
    let len = bytes.len() as int;
    let rest = bytes.subrange(j, len);
    assert(dec(v) + rest =~= bytes.subrange(i, len));
    assert(rest.len() == 0 || rest[0] == bytes[j]);
    lemma_dec_unambiguous(v, w, rest, t);
}

/// A parsed player name matches the one the stream continues with.
proof fn lemma_align_player(bytes: Seq<u8>, i: int, j: int, p: PlayerType, w: PlayerType, t: Seq<
    u8,
>)
    requires
        0 <= i < j <= bytes.len(),
        bytes.subrange(i, bytes.len() as int) == enc_player(w) + t,
        bytes.subrange(i, j) == enc_player(p),
    ensures
        p == w,
        bytes.subrange(j, bytes.len() as int) == t,
{
    lemma_lit_facts();
    let len = bytes.len() as int;
    assert((enc_player(w) + t).len() == enc_player(w).len() + t.len());
    if p != w {
        assert(bytes.subrange(i, j)[1] == bytes[i + 1]);
        assert(bytes.subrange(i, len)[1] == bytes[i + 1]);
        assert((enc_player(w) + t)[1] == enc_player(w)[1]);
        assert(false);
    }
    assert(bytes.subrange(i, j).len() == j - i);
    assert(j - i == enc_player(p).len());
    assert forall|k: int| 0 <= k < t.len() implies bytes[j + k] == t[k] by {
        assert(bytes.subrange(i, len)[j - i + k] == bytes[j + k]);
        assert((enc_player(w) + t)[j - i + k] == t[k]);
    }
    assert(bytes.subrange(j, len) =~= t);
}

/// The alignment of everything parsed up to and including the selected
/// pile with the wire form of `g`.
#[verifier::rlimit(100)]
#[verifier::spinoff_prover]
proof fn lemma_align_sel(bytes: Seq<u8>, g: GameView, p: Seq<i8>, ep: int, sv: nat, se: int)
    requires
        g.wf(),
        bytes == spec_encode(g),
        10 < ep <= bytes.len(),
        p.len() >= 1,
        forall|t: int| 0 <= t < p.len() ==> 0 <= #[trigger] p[t],
        bytes.subrange(10, ep) == enc_piles(p),
        ep == bytes.len() || !is_digit(bytes[ep]),
        ep == bytes.len() || bytes[ep] != 44,
        ep + 18 < se <= bytes.len(),
        bytes.subrange(ep + 18, se) == dec(sv),
        se == bytes.len() || !is_digit(bytes[se]),
    ensures
        g.piles == p,
        g.selected == sv,
        se + 19 <= bytes.len(),
        bytes.subrange(se, se + 19) == lit_amt(),
        bytes.subrange(se + 19, bytes.len() as int) == enc_amount(g.amount) + tail_from_cur(g),
{
    lemma_lit_facts();
    lemma_align_piles(bytes, g, p, ep);
    let len = bytes.len() as int;
    assert(tail_from_amt(g)[0] == 44);
    lemma_align_dec(bytes, ep + 18, se, sv, g.selected as nat, tail_from_amt(g));
    assert(bytes.subrange(se, len) == tail_from_amt(g));
    assert(tail_from_amt(g).len() == 19 + (enc_amount(g.amount) + tail_from_cur(g)).len());
    assert(bytes.subrange(se, se + 19) =~= lit_amt());
    assert(bytes.subrange(se + 19, len) =~= enc_amount(g.amount) + tail_from_cur(g));
}

/// The alignment of everything parsed up to and including the staged
/// amount with the wire form of `g`.
#[verifier::rlimit(100)]
#[verifier::spinoff_prover]
proof fn lemma_align_amt(
    bytes: Seq<u8>,
    g: GameView,
    p: Seq<i8>,
    ep: int,
    sv: nat,
    se: int,
    amt: Option<i8>,
    ae: int,
)
    requires
        g.wf(),
        bytes == spec_encode(g),
        10 < ep <= bytes.len(),
        p.len() >= 1,
        forall|t: int| 0 <= t < p.len() ==> 0 <= #[trigger] p[t],
        bytes.subrange(10, ep) == enc_piles(p),
        ep == bytes.len() || !is_digit(bytes[ep]),
        ep == bytes.len() || bytes[ep] != 44,
        ep + 18 < se <= bytes.len(),
        bytes.subrange(ep + 18, se) == dec(sv),
        se == bytes.len() || !is_digit(bytes[se]),
        se + 19 < ae <= bytes.len(),
        bytes.subrange(se + 19, ae) == enc_amount(amt),
        amt matches Some(a) ==> a >= 0 && (ae == bytes.len() || !is_digit(bytes[ae])),
    ensures
        g.piles == p,
        g.selected == sv,
        g.amount == amt,
        ae + 18 <= bytes.len(),
        bytes.subrange(ae, ae + 18) == lit_cur(),
        bytes.subrange(ae + 18, bytes.len() as int) == enc_player(g.current) + tail_from_role(g),
{
    lemma_lit_facts();
    lemma_align_sel(bytes, g, p, ep, sv, se);
    let len = bytes.len() as int;
    let gt = tail_from_cur(g);
    assert(gt[0] == 44);
    assert((enc_amount(g.amount) + gt).len() == enc_amount(g.amount).len() + gt.len());
    match amt {
        None => {
            match g.amount {
                None => {
                    assert(bytes.subrange(se + 19, ae) == lit_null());
                    assert(ae == se + 19 + 4);
                    assert(bytes.subrange(ae, len) =~= gt);
                },
                Some(b) => {
                    lemma_dec_props(b as nat);
                    assert(bytes.subrange(se + 19, ae)[0] == bytes[se + 19]);
                    assert(bytes.subrange(se + 19, len)[0] == bytes[se + 19]);
                    assert(bytes[se + 19] == lit_null()[0]);
                    assert(bytes[se + 19] == dec(b as nat)[0]);
                    assert(false);
                },
            }
        },
        Some(a) => {
            match g.amount {
                None => {
                    lemma_dec_props(a as nat);
                    assert(bytes.subrange(se + 19, ae)[0] == bytes[se + 19]);
                    assert(bytes.subrange(se + 19, len)[0] == bytes[se + 19]);
                    assert(bytes[se + 19] == dec(a as nat)[0]);
                    assert(bytes[se + 19] == lit_null()[0]);
                    assert(false);
                },
                Some(b) => {
                    lemma_align_dec(bytes, se + 19, ae, a as nat, b as nat, gt);
                    assert(a == b);
                },
            }
        },
    }
    assert(bytes.subrange(ae, len) == gt);
    assert(gt.len() == 18 + (enc_player(g.current) + tail_from_role(g)).len());
    assert(bytes.subrange(ae, ae + 18) =~= lit_cur());
    assert(bytes.subrange(ae + 18, len) =~= enc_player(g.current) + tail_from_role(g));
}


/// A parsed pile list followed by a separator continues a longer encoded
/// pile list: the next number of that list follows the separator.
#[verifier::rlimit(100)]
#[verifier::spinoff_prover]
proof fn lemma_piles_comma(p: Seq<i8>, gs: Seq<i8>, ra: Seq<u8>, rb: Seq<u8>)
    requires
        p.len() >= 1,
        gs.len() >= 1,
        forall|t: int| 0 <= t < p.len() ==> 0 <= #[trigger] p[t],
        forall|t: int| 0 <= t < gs.len() ==> 0 <= #[trigger] gs[t],
        enc_piles(p) + (seq![44u8] + ra) == enc_piles(gs) + rb,
        rb.len() > 0 && !is_digit(rb[0]) && rb[0] != 44,
    ensures
        gs.len() > p.len(),
        gs.skip(p.len() as int).len() >= 1,
        ra == enc_piles(gs.skip(p.len() as int)) + rb,
    decreases p.len(),
{
    lemma_enc_piles_head(p);
    lemma_enc_piles_head(gs);
    if p.len() == 1 && gs.len() == 1 {
        lemma_dec_unambiguous(p[0] as nat, gs[0] as nat, seq![44u8] + ra, rb);
        assert((seq![44u8] + ra)[0] == 44);
        assert(false);
    } else if p.len() == 1 {
        let rb2 = seq![44u8] + (enc_piles(gs.drop_first()) + rb);
        assert(dec(gs[0] as nat) + rb2 =~= enc_piles(gs) + rb);
        lemma_dec_unambiguous(p[0] as nat, gs[0] as nat, seq![44u8] + ra, rb2);
        lemma_cancel(seq![44u8], ra, enc_piles(gs.drop_first()) + rb);
        assert(gs.skip(1) == gs.drop_first());
    } else if gs.len() == 1 {
        let ra2 = seq![44u8] + (enc_piles(p.drop_first()) + (seq![44u8] + ra));
        assert(dec(p[0] as nat) + ra2 =~= enc_piles(p) + (seq![44u8] + ra));
        lemma_dec_unambiguous(p[0] as nat, gs[0] as nat, ra2, rb);
        assert(ra2[0] == 44);
        assert(false);
    } else {
        let ra2 = seq![44u8] + (enc_piles(p.drop_first()) + (seq![44u8] + ra));
        let rb2 = seq![44u8] + (enc_piles(gs.drop_first()) + rb);
        assert(dec(p[0] as nat) + ra2 =~= enc_piles(p) + (seq![44u8] + ra));
        assert(dec(gs[0] as nat) + rb2 =~= enc_piles(gs) + rb);
        lemma_dec_unambiguous(p[0] as nat, gs[0] as nat, ra2, rb2);
        lemma_cancel(
            seq![44u8],
            enc_piles(p.drop_first()) + (seq![44u8] + ra),
            enc_piles(gs.drop_first()) + rb,
        );
        assert(forall|t: int|
            0 <= t < p.drop_first().len() ==> 0 <= #[trigger] p.drop_first()[t]);
        assert(forall|t: int|
            0 <= t < gs.drop_first().len() ==> 0 <= #[trigger] gs.drop_first()[t]);
        lemma_piles_comma(p.drop_first(), gs.drop_first(), ra, rb);
        assert(gs.drop_first().skip(p.len() - 1) =~= gs.skip(p.len() as int));
    }
}

/// The alignment of everything parsed up to and including the turn owner
/// with the wire form of `g`.
#[verifier::rlimit(100)]
#[verifier::spinoff_prover]
proof fn lemma_align_cur(
    bytes: Seq<u8>,
    g: GameView,
    p: Seq<i8>,
    ep: int,
    sv: nat,
    se: int,
    amt: Option<i8>,
    ae: int,
    cur: PlayerType,
    ce: int,
)
    requires
        g.wf(),
        bytes == spec_encode(g),
        10 < ep <= bytes.len(),
        p.len() >= 1,
        forall|t: int| 0 <= t < p.len() ==> 0 <= #[trigger] p[t],
        bytes.subrange(10, ep) == enc_piles(p),
        ep == bytes.len() || !is_digit(bytes[ep]),
        ep == bytes.len() || bytes[ep] != 44,
        ep + 18 < se <= bytes.len(),
        bytes.subrange(ep + 18, se) == dec(sv),
        se == bytes.len() || !is_digit(bytes[se]),
        se + 19 < ae <= bytes.len(),
        bytes.subrange(se + 19, ae) == enc_amount(amt),
        amt matches Some(a) ==> a >= 0 && (ae == bytes.len() || !is_digit(bytes[ae])),
        ae + 18 < ce <= bytes.len(),
        bytes.subrange(ae + 18, ce) == enc_player(cur),
    ensures
        g.piles == p,
        g.selected == sv,
        g.amount == amt,
        g.current == cur,
        ce + 15 <= bytes.len(),
        bytes.subrange(ce, ce + 15) == lit_role(),
        bytes.subrange(ce + 15, bytes.len() as int) == enc_player(g.role) + lit_close(),
{
    lemma_lit_facts();
    lemma_align_amt(bytes, g, p, ep, sv, se, amt, ae);
    let len = bytes.len() as int;
    lemma_align_player(bytes, ae + 18, ce, cur, g.current, tail_from_role(g));
    assert(bytes.subrange(ce, len) == tail_from_role(g));
    assert(tail_from_role(g).len() == 15 + (enc_player(g.role) + lit_close()).len());
    assert(bytes.subrange(ce, ce + 15) =~= lit_role());
    assert(bytes.subrange(ce + 15, len) =~= enc_player(g.role) + lit_close());
}

/// The alignment of everything parsed up to and including the role with
/// the wire form of `g`: only the closing brace is left.
#[verifier::rlimit(100)]
#[verifier::spinoff_prover]
proof fn lemma_align_role(
    bytes: Seq<u8>,
    g: GameView,
    p: Seq<i8>,
    ep: int,
    sv: nat,
    se: int,
    amt: Option<i8>,
    ae: int,
    cur: PlayerType,
    ce: int,
    role: PlayerType,
    re: int,
)
    requires
        g.wf(),
        bytes == spec_encode(g),
        10 < ep <= bytes.len(),
        p.len() >= 1,
        forall|t: int| 0 <= t < p.len() ==> 0 <= #[trigger] p[t],
        bytes.subrange(10, ep) == enc_piles(p),
        ep == bytes.len() || !is_digit(bytes[ep]),
        ep == bytes.len() || bytes[ep] != 44,
        ep + 18 < se <= bytes.len(),
        bytes.subrange(ep + 18, se) == dec(sv),
        se == bytes.len() || !is_digit(bytes[se]),
        se + 19 < ae <= bytes.len(),
        bytes.subrange(se + 19, ae) == enc_amount(amt),
        amt matches Some(a) ==> a >= 0 && (ae == bytes.len() || !is_digit(bytes[ae])),
        ae + 18 < ce <= bytes.len(),
        bytes.subrange(ae + 18, ce) == enc_player(cur),
        ce + 15 < re <= bytes.len(),
        bytes.subrange(ce + 15, re) == enc_player(role),
    ensures
        g.piles == p,
        g.selected == sv,
        g.amount == amt,
        g.current == cur,
        g.role == role,
        re + 1 == bytes.len(),
        bytes[re] == 125,
{
    lemma_lit_facts();
    lemma_align_cur(bytes, g, p, ep, sv, se, amt, ae, cur, ce);
    let len = bytes.len() as int;
    lemma_align_player(bytes, ce + 15, re, role, g.role, lit_close());
    assert(bytes.subrange(re, len) == lit_close());
    assert(bytes.subrange(re, len).len() == len - re);
    assert(bytes.subrange(re, len)[0] == bytes[re]);
}


/// No wire form begins otherwise than with the opening text.
proof fn lemma_none_open(bytes: Seq<u8>)
    requires
        !(10 <= bytes.len() && bytes.subrange(0, 10) == lit_open()),
    ensures
        forall|g: GameView| !(#[trigger] encodes(bytes, g)),
{
    assert forall|g: GameView| !(#[trigger] encodes(bytes, g)) by {
        if encodes(bytes, g) {
            lemma_align_open(bytes, g);
        }
    }
}

/// Every wire form carries a parseable first pile count.
proof fn lemma_none_first_pile(bytes: Seq<u8>)
    requires
        forall|v: nat| v <= 127 ==> !(#[trigger] num_at(bytes, 10, v)),
    ensures
        forall|g: GameView| !(#[trigger] encodes(bytes, g)),
{
    assert forall|g: GameView| !(#[trigger] encodes(bytes, g)) by {
        if encodes(bytes, g) {
            lemma_lit_facts();
            lemma_align_open(bytes, g);
            assert(tail_from_sel(g).len() >= 18);
            assert(tail_from_sel(g)[0] == 93);
            lemma_piles_head_num(bytes, 10, g.piles, tail_from_sel(g));
            assert(!num_at(bytes, 10, g.piles[0] as nat));
            assert(false);
        }
    }
}

/// A separator after some pile counts is always followed by another
/// parseable pile count.
proof fn lemma_none_more_piles(bytes: Seq<u8>, p: Seq<i8>, cp: int)
    requires
        10 < cp < bytes.len(),
        p.len() >= 1,
        forall|t: int| 0 <= t < p.len() ==> 0 <= #[trigger] p[t],
        bytes.subrange(10, cp) == enc_piles(p),
        bytes[cp] == 44,
        forall|v: nat| v <= 127 ==> !(#[trigger] num_at(bytes, cp + 1, v)),
    ensures
        forall|g: GameView| !(#[trigger] encodes(bytes, g)),
{
    assert forall|g: GameView| !(#[trigger] encodes(bytes, g)) by {
        if encodes(bytes, g) {
            lemma_lit_facts();
            lemma_align_open(bytes, g);
            let len = bytes.len() as int;
            let ra = bytes.subrange(cp + 1, len);
            assert(enc_piles(p) + (seq![44u8] + ra) =~= bytes.subrange(10, len));
            assert(tail_from_sel(g).len() >= 18);
            assert(tail_from_sel(g)[0] == 93);
            lemma_piles_comma(p, g.piles, ra, tail_from_sel(g));
            let rest_piles = g.piles.skip(p.len() as int);
            assert(forall|t: int|
                0 <= t < rest_piles.len() ==> 0 <= #[trigger] rest_piles[t]) by {
                assert(forall|t: int|
                    0 <= t < rest_piles.len() ==> #[trigger] rest_piles[t] == g.piles[t + p.len()]);
            }
            assert(bytes.subrange(cp + 1, len) == enc_piles(rest_piles) + tail_from_sel(g));
            lemma_piles_head_num(bytes, cp + 1, rest_piles, tail_from_sel(g));
            assert(!num_at(bytes, cp + 1, rest_piles[0] as nat));
            assert(false);
        }
    }
}

/// After the pile list, every wire form continues with the selected-pile
/// field's text.
proof fn lemma_none_sel_lit(bytes: Seq<u8>, p: Seq<i8>, ep: int)
    requires
        10 < ep <= bytes.len(),
        p.len() >= 1,
        forall|t: int| 0 <= t < p.len() ==> 0 <= #[trigger] p[t],
        bytes.subrange(10, ep) == enc_piles(p),
        ep == bytes.len() || !is_digit(bytes[ep]),
        ep == bytes.len() || bytes[ep] != 44,
        !(ep + 18 <= bytes.len() && bytes.subrange(ep, ep + 18) == lit_sel()),
    ensures
        forall|g: GameView| !(#[trigger] encodes(bytes, g)),
{
    assert forall|g: GameView| !(#[trigger] encodes(bytes, g)) by {
        if encodes(bytes, g) {
            lemma_align_piles(bytes, g, p, ep);
        }
    }
}

/// The selected-pile field always carries a parseable index.
proof fn lemma_none_sel_num(bytes: Seq<u8>, p: Seq<i8>, ep: int)
    requires
        10 < ep <= bytes.len(),
        p.len() >= 1,
        forall|t: int| 0 <= t < p.len() ==> 0 <= #[trigger] p[t],
        bytes.subrange(10, ep) == enc_piles(p),
        ep == bytes.len() || !is_digit(bytes[ep]),
        ep == bytes.len() || bytes[ep] != 44,
        forall|v: nat| v <= usize::MAX ==> !(#[trigger] num_at(bytes, ep + 18, v)),
    ensures
        forall|g: GameView| !(#[trigger] encodes(bytes, g)),
{
    assert forall|g: GameView| !(#[trigger] encodes(bytes, g)) by {
        if encodes(bytes, g) {
            lemma_lit_facts();
            lemma_align_piles(bytes, g, p, ep);
            assert(tail_from_amt(g).len() >= 19);
            assert(tail_from_amt(g)[0] == 44);
            lemma_dec_head_num(bytes, ep + 18, g.selected as nat, tail_from_amt(g));
            assert(!num_at(bytes, ep + 18, g.selected as nat));
            assert(false);
        }
    }
}

/// After the selected pile, every wire form continues with the staged-
/// amount field's text.
proof fn lemma_none_amt_lit(bytes: Seq<u8>, p: Seq<i8>, ep: int, sv: nat, se: int)
    requires
        10 < ep <= bytes.len(),
        p.len() >= 1,
        forall|t: int| 0 <= t < p.len() ==> 0 <= #[trigger] p[t],
        bytes.subrange(10, ep) == enc_piles(p),
        ep == bytes.len() || !is_digit(bytes[ep]),
        ep == bytes.len() || bytes[ep] != 44,
        ep + 18 < se <= bytes.len(),
        bytes.subrange(ep + 18, se) == dec(sv),
        se == bytes.len() || !is_digit(bytes[se]),
        !(se + 19 <= bytes.len() && bytes.subrange(se, se + 19) == lit_amt()),
    ensures
        forall|g: GameView| !(#[trigger] encodes(bytes, g)),
{
    assert forall|g: GameView| !(#[trigger] encodes(bytes, g)) by {
        if encodes(bytes, g) {
            lemma_align_sel(bytes, g, p, ep, sv, se);
        }
    }
}

/// The staged-amount field is always either the empty marker or a
/// parseable amount.
proof fn lemma_none_amt_val(bytes: Seq<u8>, p: Seq<i8>, ep: int, sv: nat, se: int)
    requires
        10 < ep <= bytes.len(),
        p.len() >= 1,
        forall|t: int| 0 <= t < p.len() ==> 0 <= #[trigger] p[t],
        bytes.subrange(10, ep) == enc_piles(p),
        ep == bytes.len() || !is_digit(bytes[ep]),
        ep == bytes.len() || bytes[ep] != 44,
        ep + 18 < se <= bytes.len(),
        bytes.subrange(ep + 18, se) == dec(sv),
        se == bytes.len() || !is_digit(bytes[se]),
        !(se + 23 <= bytes.len() && bytes.subrange(se + 19, se + 23) == lit_null()),
        forall|v: nat| v <= 127 ==> !(#[trigger] num_at(bytes, se + 19, v)),
    ensures
        forall|g: GameView| !(#[trigger] encodes(bytes, g)),
{
    assert forall|g: GameView| !(#[trigger] encodes(bytes, g)) by {
        if encodes(bytes, g) {
            lemma_lit_facts();
            lemma_align_sel(bytes, g, p, ep, sv, se);
            let len = bytes.len() as int;
            assert(tail_from_cur(g).len() >= 18);
            assert(tail_from_cur(g)[0] == 44);
            match g.amount {
                None => {
                    assert((lit_null() + tail_from_cur(g)).len() == 4 + tail_from_cur(g).len());
                    assert(se + 23 <= len);
                    assert(bytes.subrange(se + 19, se + 23) =~= lit_null());
                    assert(false);
                },
                Some(a) => {
                    lemma_dec_head_num(bytes, se + 19, a as nat, tail_from_cur(g));
                    assert(!num_at(bytes, se + 19, a as nat));
                    assert(false);
                },
            }
        }
    }
}

/// After the staged amount, every wire form continues with the turn-owner
/// field's text.
proof fn lemma_none_cur_lit(
    bytes: Seq<u8>,
    p: Seq<i8>,
    ep: int,
    sv: nat,
    se: int,
    amt: Option<i8>,
    ae: int,
)
    requires
        10 < ep <= bytes.len(),
        p.len() >= 1,
        forall|t: int| 0 <= t < p.len() ==> 0 <= #[trigger] p[t],
        bytes.subrange(10, ep) == enc_piles(p),
        ep == bytes.len() || !is_digit(bytes[ep]),
        ep == bytes.len() || bytes[ep] != 44,
        ep + 18 < se <= bytes.len(),
        bytes.subrange(ep + 18, se) == dec(sv),
        se == bytes.len() || !is_digit(bytes[se]),
        se + 19 < ae <= bytes.len(),
        bytes.subrange(se + 19, ae) == enc_amount(amt),
        amt matches Some(a) ==> a >= 0 && (ae == bytes.len() || !is_digit(bytes[ae])),
        !(ae + 18 <= bytes.len() && bytes.subrange(ae, ae + 18) == lit_cur()),
    ensures
        forall|g: GameView| !(#[trigger] encodes(bytes, g)),
{
    assert forall|g: GameView| !(#[trigger] encodes(bytes, g)) by {
        if encodes(bytes, g) {
            lemma_align_amt(bytes, g, p, ep, sv, se, amt, ae);
        }
    }
}

/// The turn-owner field always names one of the two sides.
proof fn lemma_none_cur_player(
    bytes: Seq<u8>,
    p: Seq<i8>,
    ep: int,
    sv: nat,
    se: int,
    amt: Option<i8>,
    ae: int,
)
    requires
        10 < ep <= bytes.len(),
        p.len() >= 1,
        forall|t: int| 0 <= t < p.len() ==> 0 <= #[trigger] p[t],
        bytes.subrange(10, ep) == enc_piles(p),
        ep == bytes.len() || !is_digit(bytes[ep]),
        ep == bytes.len() || bytes[ep] != 44,
        ep + 18 < se <= bytes.len(),
        bytes.subrange(ep + 18, se) == dec(sv),
        se == bytes.len() || !is_digit(bytes[se]),
        se + 19 < ae <= bytes.len(),
        bytes.subrange(se + 19, ae) == enc_amount(amt),
        amt matches Some(a) ==> a >= 0 && (ae == bytes.len() || !is_digit(bytes[ae])),
        !(ae + 24 <= bytes.len() && bytes.subrange(ae + 18, ae + 24) == lit_host()),
        !(ae + 25 <= bytes.len() && bytes.subrange(ae + 18, ae + 25) == lit_guest()),
    ensures
        forall|g: GameView| !(#[trigger] encodes(bytes, g)),
{
    assert forall|g: GameView| !(#[trigger] encodes(bytes, g)) by {
        if encodes(bytes, g) {
            lemma_lit_facts();
            lemma_align_amt(bytes, g, p, ep, sv, se, amt, ae);
            let len = bytes.len() as int;
            assert((enc_player(g.current) + tail_from_role(g)).len() == enc_player(
                g.current,
            ).len() + tail_from_role(g).len());
            match g.current {
                PlayerType::Host => {
                    assert(ae + 24 <= len);
                    assert(bytes.subrange(ae + 18, ae + 24) =~= lit_host());
                    assert(false);
                },
                PlayerType::Guest => {
                    assert(ae + 25 <= len);
                    assert(bytes.subrange(ae + 18, ae + 25) =~= lit_guest());
                    assert(false);
                },
            }
        }
    }
}

/// After the turn owner, every wire form continues with the role field's
/// text.
proof fn lemma_none_role_lit(
    bytes: Seq<u8>,
    p: Seq<i8>,
    ep: int,
    sv: nat,
    se: int,
    amt: Option<i8>,
    ae: int,
    cur: PlayerType,
    ce: int,
)
    requires
        10 < ep <= bytes.len(),
        p.len() >= 1,
        forall|t: int| 0 <= t < p.len() ==> 0 <= #[trigger] p[t],
        bytes.subrange(10, ep) == enc_piles(p),
        ep == bytes.len() || !is_digit(bytes[ep]),
        ep == bytes.len() || bytes[ep] != 44,
        ep + 18 < se <= bytes.len(),
        bytes.subrange(ep + 18, se) == dec(sv),
        se == bytes.len() || !is_digit(bytes[se]),
        se + 19 < ae <= bytes.len(),
        bytes.subrange(se + 19, ae) == enc_amount(amt),
        amt matches Some(a) ==> a >= 0 && (ae == bytes.len() || !is_digit(bytes[ae])),
        ae + 18 < ce <= bytes.len(),
        bytes.subrange(ae + 18, ce) == enc_player(cur),
        !(ce + 15 <= bytes.len() && bytes.subrange(ce, ce + 15) == lit_role()),
    ensures
        forall|g: GameView| !(#[trigger] encodes(bytes, g)),
{
    assert forall|g: GameView| !(#[trigger] encodes(bytes, g)) by {
        if encodes(bytes, g) {
            lemma_align_cur(bytes, g, p, ep, sv, se, amt, ae, cur, ce);
        }
    }
}

/// The role field always names one of the two sides.
proof fn lemma_none_role_player(
    bytes: Seq<u8>,
    p: Seq<i8>,
    ep: int,
    sv: nat,
    se: int,
    amt: Option<i8>,
    ae: int,
    cur: PlayerType,
    ce: int,
)
    requires
        10 < ep <= bytes.len(),
        p.len() >= 1,
        forall|t: int| 0 <= t < p.len() ==> 0 <= #[trigger] p[t],
        bytes.subrange(10, ep) == enc_piles(p),
        ep == bytes.len() || !is_digit(bytes[ep]),
        ep == bytes.len() || bytes[ep] != 44,
        ep + 18 < se <= bytes.len(),
        bytes.subrange(ep + 18, se) == dec(sv),
        se == bytes.len() || !is_digit(bytes[se]),
        se + 19 < ae <= bytes.len(),
        bytes.subrange(se + 19, ae) == enc_amount(amt),
        amt matches Some(a) ==> a >= 0 && (ae == bytes.len() || !is_digit(bytes[ae])),
        ae + 18 < ce <= bytes.len(),
        bytes.subrange(ae + 18, ce) == enc_player(cur),
        !(ce + 21 <= bytes.len() && bytes.subrange(ce + 15, ce + 21) == lit_host()),
        !(ce + 22 <= bytes.len() && bytes.subrange(ce + 15, ce + 22) == lit_guest()),
    ensures
        forall|g: GameView| !(#[trigger] encodes(bytes, g)),
{
    assert forall|g: GameView| !(#[trigger] encodes(bytes, g)) by {
        if encodes(bytes, g) {
            lemma_lit_facts();
            lemma_align_cur(bytes, g, p, ep, sv, se, amt, ae, cur, ce);
            let len = bytes.len() as int;
            assert((enc_player(g.role) + lit_close()).len() == enc_player(g.role).len()
                + lit_close().len());
            match g.role {
                PlayerType::Host => {
                    assert(ce + 21 <= len);
                    assert(bytes.subrange(ce + 15, ce + 21) =~= lit_host());
                    assert(false);
                },
                PlayerType::Guest => {
                    assert(ce + 22 <= len);
                    assert(bytes.subrange(ce + 15, ce + 22) =~= lit_guest());
                    assert(false);
                },
            }
        }
    }
}

/// After the role, every wire form closes immediately and ends.
proof fn lemma_none_close(
    bytes: Seq<u8>,
    p: Seq<i8>,
    ep: int,
    sv: nat,
    se: int,
    amt: Option<i8>,
    ae: int,
    cur: PlayerType,
    ce: int,
    role: PlayerType,
    re: int,
)
    requires
        10 < ep <= bytes.len(),
        p.len() >= 1,
        forall|t: int| 0 <= t < p.len() ==> 0 <= #[trigger] p[t],
        bytes.subrange(10, ep) == enc_piles(p),
        ep == bytes.len() || !is_digit(bytes[ep]),
        ep == bytes.len() || bytes[ep] != 44,
        ep + 18 < se <= bytes.len(),
        bytes.subrange(ep + 18, se) == dec(sv),
        se == bytes.len() || !is_digit(bytes[se]),
        se + 19 < ae <= bytes.len(),
        bytes.subrange(se + 19, ae) == enc_amount(amt),
        amt matches Some(a) ==> a >= 0 && (ae == bytes.len() || !is_digit(bytes[ae])),
        ae + 18 < ce <= bytes.len(),
        bytes.subrange(ae + 18, ce) == enc_player(cur),
        ce + 15 < re <= bytes.len(),
        bytes.subrange(ce + 15, re) == enc_player(role),
        !(re < bytes.len() && bytes[re] == 125 && re + 1 == bytes.len()),
    ensures
        forall|g: GameView| !(#[trigger] encodes(bytes, g)),
{
    assert forall|g: GameView| !(#[trigger] encodes(bytes, g)) by {
        if encodes(bytes, g) {
            lemma_align_role(bytes, g, p, ep, sv, se, amt, ae, cur, ce, role, re);
        }
    }
}

/// The selected pile of a wire form is always inside its pile list.
proof fn lemma_none_wf_sel(bytes: Seq<u8>, p: Seq<i8>, ep: int, sv: nat, se: int)
    requires
        10 < ep <= bytes.len(),
        p.len() >= 1,
        forall|t: int| 0 <= t < p.len() ==> 0 <= #[trigger] p[t],
        bytes.subrange(10, ep) == enc_piles(p),
        ep == bytes.len() || !is_digit(bytes[ep]),
        ep == bytes.len() || bytes[ep] != 44,
        ep + 18 < se <= bytes.len(),
        bytes.subrange(ep + 18, se) == dec(sv),
        se == bytes.len() || !is_digit(bytes[se]),
        sv >= p.len(),
    ensures
        forall|g: GameView| !(#[trigger] encodes(bytes, g)),
{
    assert forall|g: GameView| !(#[trigger] encodes(bytes, g)) by {
        if encodes(bytes, g) {
            lemma_align_sel(bytes, g, p, ep, sv, se);
        }
    }
}

/// The staged amount of a wire form never exceeds the selected pile.
proof fn lemma_none_wf_amt(
    bytes: Seq<u8>,
    p: Seq<i8>,
    ep: int,
    sv: nat,
    se: int,
    amt: Option<i8>,
    ae: int,
)
    requires
        10 < ep <= bytes.len(),
        p.len() >= 1,
        forall|t: int| 0 <= t < p.len() ==> 0 <= #[trigger] p[t],
        bytes.subrange(10, ep) == enc_piles(p),
        ep == bytes.len() || !is_digit(bytes[ep]),
        ep == bytes.len() || bytes[ep] != 44,
        ep + 18 < se <= bytes.len(),
        bytes.subrange(ep + 18, se) == dec(sv),
        se == bytes.len() || !is_digit(bytes[se]),
        se + 19 < ae <= bytes.len(),
        bytes.subrange(se + 19, ae) == enc_amount(amt),
        amt matches Some(a) ==> a >= 0 && (ae == bytes.len() || !is_digit(bytes[ae])),
        sv < p.len(),
        amt matches Some(a) ==> a > p[sv as int],
        amt is Some,
    ensures
        forall|g: GameView| !(#[trigger] encodes(bytes, g)),
{
    assert forall|g: GameView| !(#[trigger] encodes(bytes, g)) by {
        if encodes(bytes, g) {
            lemma_align_amt(bytes, g, p, ep, sv, se, amt, ae);
        }
    }
}

/// Parse a quoted player name at `*i`, advancing past it.
fn parse_player(bytes: &Vec<u8>, i: &mut usize) -> (r: Option<PlayerType>)
    ensures
        r matches Some(p) ==> {
            &&& *old(i) < *final(i) <= bytes@.len()
            &&& bytes@.subrange(*old(i) as int, *final(i) as int) == enc_player(p)
        },
        r is None ==> {
            &&& *final(i) == *old(i)
            &&& !(*old(i) + lit_host().len() <= bytes@.len() && bytes@.subrange(
                *old(i) as int,
                *old(i) + lit_host().len(),
            ) == lit_host())
            &&& !(*old(i) + lit_guest().len() <= bytes@.len() && bytes@.subrange(
                *old(i) as int,
                *old(i) + lit_guest().len(),
            ) == lit_guest())
        },
{
    let n = bytes.len();
    let pat_host = lit_host_vec();
    if expect(bytes, *i, &pat_host) {
        proof {
            reveal(lit_host);
            assert(lit_host().len() == 6);
        }
        *i = *i + pat_host.len();
        return Some(PlayerType::Host);
    }
    let pat_guest = lit_guest_vec();
    if expect(bytes, *i, &pat_guest) {
        proof {
            reveal(lit_guest);
            assert(lit_guest().len() == 7);
        }
        *i = *i + pat_guest.len();
        return Some(PlayerType::Guest);
    }
    None
}

/// The few facts about the fixed pieces of text that the alignment and
/// round-trip arguments need: their lengths and their first bytes.
pub proof fn lemma_lit_facts()
    ensures
        lit_open().len() == 10,
        lit_sel().len() == 18 && lit_sel()[0] == 93,
        lit_amt().len() == 19 && lit_amt()[0] == 44,
        lit_cur().len() == 18 && lit_cur()[0] == 44,
        lit_role().len() == 15 && lit_role()[0] == 44,
        lit_null().len() == 4 && lit_null()[0] == 110,
        lit_host().len() == 6 && lit_host()[1] == 72,
        lit_guest().len() == 7 && lit_guest()[1] == 71,
        lit_close().len() == 1 && lit_close()[0] == 125,
{
    reveal(lit_open);
    reveal(lit_sel);
    reveal(lit_amt);
    reveal(lit_cur);
    reveal(lit_role);
    reveal(lit_null);
    reveal(lit_host);
    reveal(lit_guest);
    reveal(lit_close);
}

/// The wire form, after the opening text: everything grouped to the right.
pub open spec fn enc_tail(g: GameView) -> Seq<u8> {
    enc_piles(g.piles) + tail_from_sel(g)
}

/// The wire form from the selected-pile field on.
pub open spec fn tail_from_sel(g: GameView) -> Seq<u8> {
    lit_sel() + (dec(g.selected as nat) + tail_from_amt(g))
}

/// The wire form from the staged-amount field on.
pub open spec fn tail_from_amt(g: GameView) -> Seq<u8> {
    lit_amt() + (enc_amount(g.amount) + tail_from_cur(g))
}

/// The wire form from the turn-owner field on.
pub open spec fn tail_from_cur(g: GameView) -> Seq<u8> {
    lit_cur() + (enc_player(g.current) + tail_from_role(g))
}

/// The wire form from the role field on.
pub open spec fn tail_from_role(g: GameView) -> Seq<u8> {
    lit_role() + (enc_player(g.role) + lit_close())
}

/// `bytes` is the wire form of the well-formed, machine-representable
/// state `g`.
pub open spec fn encodes(bytes: Seq<u8>, g: GameView) -> bool {
    g.wf() && g.selected <= usize::MAX && bytes == spec_encode(g)
}

#[verifier::rlimit(100)]
#[verifier::spinoff_prover]
proof fn lemma_tail_round_trip(a: GameView, b: GameView)
    requires
        a.wf(),
        b.wf(),
        enc_tail(a) == enc_tail(b),
    ensures
        a.piles == b.piles,
        a.selected == b.selected,
        a.amount == b.amount,
        a.current == b.current,
        a.role == b.role,
{
    lemma_lit_facts();
    let a9 = enc_player(a.role) + lit_close();
    let a8 = lit_role() + a9;
    let a7 = enc_player(a.current) + a8;
    let a6 = lit_cur() + a7;
    let a5 = enc_amount(a.amount) + a6;
    let a4 = lit_amt() + a5;
    let a3 = dec(a.selected as nat) + a4;
    let a2 = lit_sel() + a3;
    let b9 = enc_player(b.role) + lit_close();
    let b8 = lit_role() + b9;
    let b7 = enc_player(b.current) + b8;
    let b6 = lit_cur() + b7;
    let b5 = enc_amount(b.amount) + b6;
    let b4 = lit_amt() + b5;
    let b3 = dec(b.selected as nat) + b4;
    let b2 = lit_sel() + b3;
    assert(a8 == tail_from_role(a) && a6 == tail_from_cur(a) && a4 == tail_from_amt(a) && a2
        == tail_from_sel(a));
    assert(b8 == tail_from_role(b) && b6 == tail_from_cur(b) && b4 == tail_from_amt(b) && b2
        == tail_from_sel(b));
    assert(enc_piles(a.piles) + a2 == enc_piles(b.piles) + b2);
    assert(a2[0] == 93 && b2[0] == 93);
    lemma_piles_unambiguous(a.piles, b.piles, a2, b2);
    lemma_cancel(lit_sel(), a3, b3);
    assert(a4[0] == 44 && b4[0] == 44);
    lemma_dec_unambiguous(a.selected as nat, b.selected as nat, a4, b4);
    lemma_cancel(lit_amt(), a5, b5);
    if a.amount is None && b.amount is None {
        lemma_cancel(lit_null(), a6, b6);
    } else if a.amount is Some && b.amount is Some {
        assert(a6[0] == 44 && b6[0] == 44);
        lemma_dec_unambiguous(a.amount->0 as nat, b.amount->0 as nat, a6, b6);
        assert(a.amount->0 == b.amount->0);
    } else if a.amount is None && b.amount is Some {
        lemma_dec_props(b.amount->0 as nat);
        assert(a5[0] == 110);
        assert(b5[0] == dec(b.amount->0 as nat)[0]);
        assert(is_digit(b5[0]));
        assert(false);
    } else {
        lemma_dec_props(a.amount->0 as nat);
        assert(b5[0] == 110);
        assert(a5[0] == dec(a.amount->0 as nat)[0]);
        assert(is_digit(a5[0]));
        assert(false);
    }
    assert(a.amount == b.amount && a6 == b6);
    lemma_cancel(lit_cur(), a7, b7);
    if a.current == b.current {
        if a.current is Host {
            lemma_cancel(lit_host(), a8, b8);
        } else {
            lemma_cancel(lit_guest(), a8, b8);
        }
    } else {
        assert(a7[1] != b7[1]);
        assert(false);
    }
    lemma_cancel(lit_role(), a9, b9);
    if a.role != b.role {
        assert(a9[1] != b9[1]);
        assert(false);
    }
}

/// Concatenation of byte sequences is associative.
proof fn lemma_assoc(x: Seq<u8>, y: Seq<u8>, z: Seq<u8>)
    ensures
        (x + y) + z == x + (y + z),
{
    assert((x + y) + z =~= x + (y + z));
}

/// Regrouping the wire form: the opening text, then the rest.
proof fn lemma_reassoc(g: GameView)
    ensures
        spec_encode(g) == lit_open() + enc_tail(g),
{
    let p1 = lit_open();
    let p2 = enc_piles(g.piles);
    let p3 = lit_sel();
    let p4 = dec(g.selected as nat);
    let p5 = lit_amt();
    let p6 = enc_amount(g.amount);
    let p7 = lit_cur();
    let p8 = enc_player(g.current);
    let p9 = lit_role();
    let p10 = enc_player(g.role);
    let p11 = lit_close();
    let l2 = p1 + p2;
    let l3 = l2 + p3;
    let l4 = l3 + p4;
    let l5 = l4 + p5;
    let l6 = l5 + p6;
    let l7 = l6 + p7;
    let l8 = l7 + p8;
    let l9 = l8 + p9;
    let l10 = l9 + p10;
    assert(spec_encode(g) == l10 + p11);
    let t10 = p10 + p11;
    lemma_assoc(l9, p10, p11);
    let t9 = p9 + t10;
    lemma_assoc(l8, p9, t10);
    let t8 = p8 + t9;
    lemma_assoc(l7, p8, t9);
    let t7 = p7 + t8;
    lemma_assoc(l6, p7, t8);
    let t6 = p6 + t7;
    lemma_assoc(l5, p6, t7);
    let t5 = p5 + t6;
    lemma_assoc(l4, p5, t6);
    let t4 = p4 + t5;
    lemma_assoc(l3, p4, t5);
    let t3 = p3 + t4;
    lemma_assoc(l2, p3, t4);
    let t2 = p2 + t3;
    lemma_assoc(p1, p2, t3);
    assert(t9 == tail_from_role(g) && t7 == tail_from_cur(g) && t5 == tail_from_amt(g) && t3
        == tail_from_sel(g));
    assert(enc_tail(g) == t2);
    assert(spec_encode(g) == p1 + t2);
}

/// Round trip: two well-formed states with the same wire form agree on
/// every field. Together with the decoder's contract this says that
/// decoding a wire form recovers exactly the piles, selected pile, staged
/// amount, turn owner and role that were encoded.
pub proof fn lemma_wire_round_trip(a: GameView, b: GameView)
    requires
        a.wf(),
        b.wf(),
        spec_encode(a) == spec_encode(b),
    ensures
        a.piles == b.piles,
        a.selected == b.selected,
        a.amount == b.amount,
        a.current == b.current,
        a.role == b.role,
{
    lemma_reassoc(a);
    lemma_reassoc(b);
    lemma_cancel(lit_open(), enc_tail(a), enc_tail(b));
    lemma_tail_round_trip(a, b);
}

/// The wire payload always reports state from the recipient's perspective:
/// what one side encodes for its peer decodes to the same piles, selected
/// pile, staged amount and turn owner, with the role flipped.
pub proof fn lemma_peer_round_trip(g: GameView, d: GameView)
    requires
        g.wf(),
        d.wf(),
        spec_encode(GameView { role: spec_flip(g.role), ..g }) == spec_encode(d),
    ensures
        d.piles == g.piles,
        d.selected == g.selected,
        d.amount == g.amount,
        d.current == g.current,
        d.role == spec_flip(g.role),
{
    let sent = GameView { role: spec_flip(g.role), ..g };
    assert(sent.wf());
    lemma_wire_round_trip(sent, d);
}

} // verus!
