//! The store codec: a room record as a flat character string, for the shared
//! store's GET and SET. Numbers are decimal with a `;` terminator, strings
//! and lists are length-prefixed, options are tagged `S`/`N`. Decoding a
//! record that encoding produced yields the record back, field for field;
//! anything the grammar rejects is a `DeserializationFailure`.
use vstd::prelude::*;
use vstd::seq_lib::lemma_concat_associative;
use vstd::string::StrSliceExecFns;
use vstd::string::StringExecFns;
use crate::ServerError;
use crate::room::{GameV, Lobby, LobbyV, SelectionV, UserV, Game, Selection, User, roster_view};

verus! {

pub open spec fn is_digit(c: char) -> bool {
    '0' <= c && c <= '9'
}

pub open spec fn digit_val(c: char) -> nat {
    (c as int - '0' as int) as nat
}

pub open spec fn digit_of(d: nat) -> char {
    if d == 0 { '0' }
    else if d == 1 { '1' }
    else if d == 2 { '2' }
    else if d == 3 { '3' }
    else if d == 4 { '4' }
    else if d == 5 { '5' }
    else if d == 6 { '6' }
    else if d == 7 { '7' }
    else if d == 8 { '8' }
    else { '9' }
}

pub open spec fn pow10(k: nat) -> nat
    decreases k,
{
    if k == 0 { 1 } else { 10 * pow10((k - 1) as nat) }
}

/// The decimal digits of `n`, most significant first.
pub open spec fn dec_digits(n: nat) -> Seq<char>
    decreases n,
{
    if n < 10 { seq![digit_of(n)] } else { dec_digits(n / 10).push(digit_of(n % 10)) }
}

pub open spec fn enc_nat(n: nat) -> Seq<char> {
    dec_digits(n) + seq![';']
}

pub open spec fn enc_int(v: int) -> Seq<char> {
    if v >= 0 { seq!['+'] + enc_nat(v as nat) } else { seq!['-'] + enc_nat((-v) as nat) }
}

pub open spec fn enc_str(t: Seq<char>) -> Seq<char> {
    enc_nat(t.len()) + t
}

pub open spec fn enc_bool(b: bool) -> Seq<char> {
    if b { seq!['T'] } else { seq!['F'] }
}

pub open spec fn enc_tokens_from(ts: Seq<Seq<char>>) -> Seq<char>
    decreases ts.len(),
{
    if ts.len() == 0 { Seq::empty() } else { enc_str(ts[0]) + enc_tokens_from(ts.drop_first()) }
}

pub open spec fn enc_tokens(ts: Seq<Seq<char>>) -> Seq<char> {
    enc_nat(ts.len()) + enc_tokens_from(ts)
}

pub open spec fn enc_opt_str(o: Option<Seq<char>>) -> Seq<char> {
    match o {
        None => seq!['N'],
        Some(t) => seq!['S'] + enc_str(t),
    }
}

pub open spec fn enc_sel(p: SelectionV) -> Seq<char> {
    enc_str(p.user) + enc_bool(p.valid) + enc_tokens(p.selection)
}

pub open spec fn enc_opt_sel(o: Option<SelectionV>) -> Seq<char> {
    match o {
        None => seq!['N'],
        Some(p) => seq!['S'] + enc_sel(p),
    }
}

pub open spec fn enc_user(p: (nat, UserV)) -> Seq<char> {
    enc_nat(p.0) + enc_str(p.1.name) + enc_int(p.1.points)
}

pub open spec fn enc_users_from(us: Seq<(nat, UserV)>) -> Seq<char>
    decreases us.len(),
{
    if us.len() == 0 { Seq::empty() } else { enc_user(us[0]) + enc_users_from(us.drop_first()) }
}

pub open spec fn enc_game(g: GameV) -> Seq<char> {
    enc_nat(g.number_of_sets) + enc_str(g.deck) + enc_tokens(g.board)
        + enc_opt_sel(g.previous_selection)
}

pub open spec fn enc_opt_game(o: Option<GameV>) -> Seq<char> {
    match o {
        None => seq!['N'],
        Some(g) => seq!['S'] + enc_game(g),
    }
}

/// A room record on the wire to the store.
pub open spec fn enc_lobby(l: LobbyV) -> Seq<char> {
    enc_nat(l.users.len()) + enc_users_from(l.users) + enc_opt_str(l.game_type)
        + enc_opt_game(l.game_state)
}

// ---------------------------------------------------------------------------
// The grammar read back: each parser returns the value and the position after
// it, or nothing when the input does not fit. Numbers above `u64::MAX` and
// sizes above `usize::MAX` are outside the grammar.

pub open spec fn parse_digits(s: Seq<char>, i: int, acc: nat) -> Option<(nat, int)>
    decreases s.len() - i,
{
    if 0 <= i < s.len() {
        if is_digit(s[i]) {
            if acc * 10 + digit_val(s[i]) > u64::MAX {
                None
            } else {
                parse_digits(s, i + 1, acc * 10 + digit_val(s[i]))
            }
        } else if s[i] == ';' {
            Some((acc, i + 1))
        } else {
            None
        }
    } else {
        None
    }
}

pub open spec fn parse_nat(s: Seq<char>, i: int) -> Option<(nat, int)> {
    parse_digits(s, i, 0)
}

pub open spec fn parse_int(s: Seq<char>, i: int) -> Option<(int, int)> {
    if 0 <= i < s.len() {
        if s[i] == '+' {
            match parse_nat(s, i + 1) {
                Some((n, j)) => if n <= i64::MAX { Some((n as int, j)) } else { None },
                None => None,
            }
        } else if s[i] == '-' {
            match parse_nat(s, i + 1) {
                Some((n, j)) => if n <= i64::MAX as nat + 1 { Some((-(n as int), j)) } else { None },
                None => None,
            }
        } else {
            None
        }
    } else {
        None
    }
}

pub open spec fn parse_str(s: Seq<char>, i: int) -> Option<(Seq<char>, int)> {
    match parse_nat(s, i) {
        Some((n, j)) => if j + n <= s.len() {
            Some((s.subrange(j, j + n), j + n))
        } else {
            None
        },
        None => None,
    }
}

pub open spec fn parse_bool(s: Seq<char>, i: int) -> Option<(bool, int)> {
    if 0 <= i < s.len() {
        if s[i] == 'T' { Some((true, i + 1)) }
        else if s[i] == 'F' { Some((false, i + 1)) }
        else { None }
    } else {
        None
    }
}

pub open spec fn parse_tokens_from(s: Seq<char>, i: int, cnt: nat) -> Option<(Seq<Seq<char>>, int)>
    decreases cnt,
{
    if cnt == 0 {
        Some((Seq::empty(), i))
    } else {
        match parse_str(s, i) {
            Some((t, j)) => match parse_tokens_from(s, j, (cnt - 1) as nat) {
                Some((rest, j2)) => Some((seq![t] + rest, j2)),
                None => None,
            },
            None => None,
        }
    }
}

pub open spec fn parse_tokens(s: Seq<char>, i: int) -> Option<(Seq<Seq<char>>, int)> {
    match parse_nat(s, i) {
        Some((cnt, j)) => parse_tokens_from(s, j, cnt),
        None => None,
    }
}

pub open spec fn parse_opt_str(s: Seq<char>, i: int) -> Option<(Option<Seq<char>>, int)> {
    if 0 <= i < s.len() {
        if s[i] == 'N' {
            Some((None, i + 1))
        } else if s[i] == 'S' {
            match parse_str(s, i + 1) {
                Some((t, j)) => Some((Some(t), j)),
                None => None,
            }
        } else {
            None
        }
    } else {
        None
    }
}

pub open spec fn parse_sel(s: Seq<char>, i: int) -> Option<(SelectionV, int)> {
    match parse_str(s, i) {
        Some((user, j)) => match parse_bool(s, j) {
            Some((valid, j2)) => match parse_tokens(s, j2) {
                Some((sel, j3)) => Some((SelectionV { user, valid, selection: sel }, j3)),
                None => None,
            },
            None => None,
        },
        None => None,
    }
}

pub open spec fn parse_opt_sel(s: Seq<char>, i: int) -> Option<(Option<SelectionV>, int)> {
    if 0 <= i < s.len() {
        if s[i] == 'N' {
            Some((None, i + 1))
        } else if s[i] == 'S' {
            match parse_sel(s, i + 1) {
                Some((p, j)) => Some((Some(p), j)),
                None => None,
            }
        } else {
            None
        }
    } else {
        None
    }
}

pub open spec fn parse_game(s: Seq<char>, i: int) -> Option<(GameV, int)> {
    match parse_nat(s, i) {
        Some((sets, j)) => if sets <= usize::MAX {
            match parse_str(s, j) {
                Some((deck, j2)) => match parse_tokens(s, j2) {
                    Some((board, j3)) => match parse_opt_sel(s, j3) {
                        Some((prev, j4)) => Some((GameV {
                            number_of_sets: sets,
                            deck,
                            board,
                            previous_selection: prev,
                        }, j4)),
                        None => None,
                    },
                    None => None,
                },
                None => None,
            }
        } else {
            None
        },
        None => None,
    }
}

pub open spec fn parse_opt_game(s: Seq<char>, i: int) -> Option<(Option<GameV>, int)> {
    if 0 <= i < s.len() {
        if s[i] == 'N' {
            Some((None, i + 1))
        } else if s[i] == 'S' {
            match parse_game(s, i + 1) {
                Some((g, j)) => Some((Some(g), j)),
                None => None,
            }
        } else {
            None
        }
    } else {
        None
    }
}

pub open spec fn parse_user(s: Seq<char>, i: int) -> Option<((nat, UserV), int)> {
    match parse_nat(s, i) {
        Some((id, j)) => if id <= usize::MAX {
            match parse_str(s, j) {
                Some((name, j2)) => match parse_int(s, j2) {
                    Some((points, j3)) => Some(((id, UserV { name, points }), j3)),
                    None => None,
                },
                None => None,
            }
        } else {
            None
        },
        None => None,
    }
}

pub open spec fn parse_users_from(s: Seq<char>, i: int, cnt: nat) -> Option<(Seq<(nat, UserV)>, int)>
    decreases cnt,
{
    if cnt == 0 {
        Some((Seq::empty(), i))
    } else {
        match parse_user(s, i) {
            Some((u, j)) => match parse_users_from(s, j, (cnt - 1) as nat) {
                Some((rest, j2)) => Some((seq![u] + rest, j2)),
                None => None,
            },
            None => None,
        }
    }
}

pub open spec fn parse_lobby(s: Seq<char>, i: int) -> Option<(LobbyV, int)> {
    match parse_nat(s, i) {
        Some((cnt, j)) => match parse_users_from(s, j, cnt) {
            Some((users, j2)) => match parse_opt_str(s, j2) {
                Some((gt, j3)) => match parse_opt_game(s, j3) {
                    Some((gs, j4)) => Some((LobbyV {
                        users,
                        game_type: gt,
                        game_state: gs,
                    }, j4)),
                    None => None,
                },
                None => None,
            },
            None => None,
        },
        None => None,
    }
}

// ---------------------------------------------------------------------------
// Round trip: parsing reads back exactly what encoding wrote, for every value
// within the machine's bounds.

/// `frag` stands in `s` at position `i`.
pub open spec fn matches_at(s: Seq<char>, i: int, frag: Seq<char>) -> bool {
    0 <= i && i + frag.len() <= s.len() && s.subrange(i, i + frag.len()) == frag
}

proof fn lemma_matches_split(s: Seq<char>, i: int, a: Seq<char>, b: Seq<char>)
    requires
        matches_at(s, i, a + b),
    ensures
        matches_at(s, i, a),
        matches_at(s, i + a.len(), b),
{
    let ab = a + b;
    assert forall|k: int| 0 <= k < a.len() implies s.subrange(i, i + a.len())[k] == a[k] by {
        assert(ab[k] == s.subrange(i, i + ab.len() as int)[k]);
    }
    assert(s.subrange(i, i + a.len()) =~= a);
    assert forall|k: int| 0 <= k < b.len()
        implies s.subrange(i + a.len(), i + a.len() + b.len())[k] == b[k] by {
        assert(ab[a.len() + k] == s.subrange(i, i + ab.len() as int)[a.len() + k]);
        assert(ab[a.len() + k] == b[k]);
    }
    assert(s.subrange(i + a.len(), i + a.len() + b.len()) =~= b);
}

/// Digits within bounds: every digit of `n` is a digit character.
proof fn lemma_dec_digits_digits(n: nat)
    ensures
        forall|k: int| 0 <= k < dec_digits(n).len()
            ==> is_digit(#[trigger] dec_digits(n)[k]) && dec_digits(n)[k] != ';',
        dec_digits(n).len() >= 1,
    decreases n,
{
    if n < 10 {
    } else {
        lemma_dec_digits_digits(n / 10);
    }
}

/// Consuming the digits of `n` multiplies the accumulator accordingly.
proof fn lemma_rt_digits(s: Seq<char>, i: int, acc: nat, n: nat)
    requires
        matches_at(s, i, dec_digits(n)),
        acc * pow10(dec_digits(n).len() as nat) + n <= u64::MAX,
    ensures
        parse_digits(s, i, acc) == parse_digits(
            s,
            i + dec_digits(n).len(),
            acc * pow10(dec_digits(n).len() as nat) + n,
        ),
    decreases n,
{
    let d = dec_digits(n);
    if n < 10 {
        assert(s.subrange(i, i + 1)[0] == s[i]);
        assert(s[i] == digit_of(n));
        assert(is_digit(digit_of(n)) && digit_val(digit_of(n)) == n);
        assert(pow10(1) == 10 * pow10(0));
        assert(acc * 10 + n <= u64::MAX);
    } else {
        let front = dec_digits(n / 10);
        let lp = front.len() as nat;
        let p = pow10(lp);
        assert(d =~= front + seq![digit_of(n % 10)]);
        lemma_matches_split(s, i, front, seq![digit_of(n % 10)]);
        assert(s.subrange(i + front.len(), i + front.len() + 1)[0] == s[i + front.len()]);
        assert(s[i + front.len()] == digit_of(n % 10));
        assert(pow10(lp + 1) == 10 * p);
        assert(acc * pow10(lp + 1) + n == (acc * p + n / 10) * 10 + n % 10) by (nonlinear_arith)
            requires
                pow10(lp + 1) == 10 * p,
                n == 10 * (n / 10) + n % 10,
        ;
        assert(acc * p + n / 10 <= acc * pow10(lp + 1) + n) by (nonlinear_arith)
            requires
                pow10(lp + 1) == 10 * p,
                n >= 10,
                acc >= 0,
                p >= 0,
        ;
        lemma_rt_digits(s, i, acc, n / 10);
        let mid = acc * p + n / 10;
        assert(is_digit(digit_of(n % 10)) && digit_val(digit_of(n % 10)) == n % 10);
        assert(mid * 10 + n % 10 == acc * pow10(lp + 1) + n);
        assert(parse_digits(s, i + front.len(), mid)
            == parse_digits(s, i + front.len() + 1, mid * 10 + n % 10));
    }
}

proof fn lemma_rt_nat(s: Seq<char>, i: int, n: nat)
    requires
        matches_at(s, i, enc_nat(n)),
        n <= u64::MAX,
    ensures
        parse_nat(s, i) == Some((n, i + enc_nat(n).len())),
{
    let d = dec_digits(n);
    lemma_matches_split(s, i, d, seq![';']);
    assert(s.subrange(i + d.len(), i + d.len() + 1)[0] == s[i + d.len()]);
    assert(s[i + d.len()] == ';');
    lemma_dec_digits_digits(n);
    assert(0 * pow10(d.len() as nat) == 0) by (nonlinear_arith);
    lemma_rt_digits(s, i, 0, n);
    assert(!is_digit(';'));
}

proof fn lemma_rt_str(s: Seq<char>, i: int, t: Seq<char>)
    requires
        matches_at(s, i, enc_str(t)),
        t.len() <= u64::MAX,
    ensures
        parse_str(s, i) == Some((t, i + enc_str(t).len())),
{
    lemma_matches_split(s, i, enc_nat(t.len()), t);
    lemma_rt_nat(s, i, t.len());
    let j = i + enc_nat(t.len()).len();
    assert(s.subrange(j, j + t.len()) == t);
}

proof fn lemma_rt_int(s: Seq<char>, i: int, v: int)
    requires
        matches_at(s, i, enc_int(v)),
        i64::MIN <= v <= i64::MAX,
    ensures
        parse_int(s, i) == Some((v, i + enc_int(v).len())),
{
    if v >= 0 {
        lemma_matches_split(s, i, seq!['+'], enc_nat(v as nat));
        assert(s.subrange(i, i + 1)[0] == s[i]);
        assert(s[i] == '+');
        lemma_rt_nat(s, i + 1, v as nat);
    } else {
        lemma_matches_split(s, i, seq!['-'], enc_nat((-v) as nat));
        assert(s.subrange(i, i + 1)[0] == s[i]);
        assert(s[i] == '-');
        lemma_rt_nat(s, i + 1, (-v) as nat);
    }
}

proof fn lemma_rt_bool(s: Seq<char>, i: int, b: bool)
    requires
        matches_at(s, i, enc_bool(b)),
    ensures
        parse_bool(s, i) == Some((b, i + 1)),
{
    assert(s.subrange(i, i + 1)[0] == s[i]);
}

/// Every token's length fits the wire's number type.
pub open spec fn tokens_bounded(ts: Seq<Seq<char>>) -> bool {
    ts.len() <= u64::MAX && forall|k: int| 0 <= k < ts.len()
        ==> (#[trigger] ts[k]).len() <= u64::MAX
}

proof fn lemma_rt_tokens_from(s: Seq<char>, i: int, ts: Seq<Seq<char>>)
    requires
        matches_at(s, i, enc_tokens_from(ts)),
        tokens_bounded(ts),
    ensures
        parse_tokens_from(s, i, ts.len()) == Some((ts, i + enc_tokens_from(ts).len())),
    decreases ts.len(),
{
    if ts.len() == 0 {
        assert(parse_tokens_from(s, i, 0) == Some((Seq::<Seq<char>>::empty(), i)));
        assert(Seq::<Seq<char>>::empty() =~= ts);
    } else {
        lemma_matches_split(s, i, enc_str(ts[0]), enc_tokens_from(ts.drop_first()));
        lemma_rt_str(s, i, ts[0]);
        let j = i + enc_str(ts[0]).len();
        assert(tokens_bounded(ts.drop_first())) by {
            assert(forall|k: int| 0 <= k < ts.drop_first().len()
                ==> (#[trigger] ts.drop_first()[k]) == ts[k + 1]);
        }
        lemma_rt_tokens_from(s, j, ts.drop_first());
        assert(seq![ts[0]] + ts.drop_first() =~= ts);
    }
}

proof fn lemma_rt_tokens(s: Seq<char>, i: int, ts: Seq<Seq<char>>)
    requires
        matches_at(s, i, enc_tokens(ts)),
        tokens_bounded(ts),
    ensures
        parse_tokens(s, i) == Some((ts, i + enc_tokens(ts).len())),
{
    lemma_matches_split(s, i, enc_nat(ts.len()), enc_tokens_from(ts));
    lemma_rt_nat(s, i, ts.len());
    lemma_rt_tokens_from(s, i + enc_nat(ts.len()).len(), ts);
}

/// A user entry's numbers fit their machine types.
pub open spec fn user_bounded(p: (nat, UserV)) -> bool {
    p.0 <= usize::MAX && p.1.name.len() <= u64::MAX && i64::MIN <= p.1.points <= i64::MAX
}

proof fn lemma_rt_user(s: Seq<char>, i: int, p: (nat, UserV))
    requires
        matches_at(s, i, enc_user(p)),
        user_bounded(p),
    ensures
        parse_user(s, i) == Some((p, i + enc_user(p).len())),
{
    lemma_concat_associative(enc_nat(p.0), enc_str(p.1.name), enc_int(p.1.points));
    lemma_matches_split(s, i, enc_nat(p.0), enc_str(p.1.name) + enc_int(p.1.points));
    lemma_rt_nat(s, i, p.0);
    let j = i + enc_nat(p.0).len();
    lemma_matches_split(s, j, enc_str(p.1.name), enc_int(p.1.points));
    lemma_rt_str(s, j, p.1.name);
    let j2 = j + enc_str(p.1.name).len();
    lemma_rt_int(s, j2, p.1.points);
    assert((p.0, UserV { name: p.1.name, points: p.1.points }) == p);
}

pub open spec fn users_bounded(us: Seq<(nat, UserV)>) -> bool {
    us.len() <= u64::MAX && forall|k: int| 0 <= k < us.len() ==> user_bounded(#[trigger] us[k])
}

proof fn lemma_rt_users_from(s: Seq<char>, i: int, us: Seq<(nat, UserV)>)
    requires
        matches_at(s, i, enc_users_from(us)),
        users_bounded(us),
    ensures
        parse_users_from(s, i, us.len()) == Some((us, i + enc_users_from(us).len())),
    decreases us.len(),
{
    if us.len() == 0 {
        assert(Seq::<(nat, UserV)>::empty() =~= us);
    } else {
        lemma_matches_split(s, i, enc_user(us[0]), enc_users_from(us.drop_first()));
        lemma_rt_user(s, i, us[0]);
        let j = i + enc_user(us[0]).len();
        assert(users_bounded(us.drop_first())) by {
            assert(forall|k: int| 0 <= k < us.drop_first().len()
                ==> (#[trigger] us.drop_first()[k]) == us[k + 1]);
        }
        lemma_rt_users_from(s, j, us.drop_first());
        assert(seq![us[0]] + us.drop_first() =~= us);
    }
}

proof fn lemma_rt_opt_str(s: Seq<char>, i: int, o: Option<Seq<char>>)
    requires
        matches_at(s, i, enc_opt_str(o)),
        (o matches Some(t) ==> t.len() <= u64::MAX),
    ensures
        parse_opt_str(s, i) == Some((o, i + enc_opt_str(o).len())),
{
    match o {
        None => {
            assert(s.subrange(i, i + 1)[0] == s[i]);
        },
        Some(t) => {
            lemma_matches_split(s, i, seq!['S'], enc_str(t));
            assert(s.subrange(i, i + 1)[0] == s[i]);
            lemma_rt_str(s, i + 1, t);
        },
    }
}

pub open spec fn sel_bounded(p: SelectionV) -> bool {
    p.user.len() <= u64::MAX && tokens_bounded(p.selection)
}

proof fn lemma_rt_sel(s: Seq<char>, i: int, p: SelectionV)
    requires
        matches_at(s, i, enc_sel(p)),
        sel_bounded(p),
    ensures
        parse_sel(s, i) == Some((p, i + enc_sel(p).len())),
{
    lemma_concat_associative(enc_str(p.user), enc_bool(p.valid), enc_tokens(p.selection));
    lemma_matches_split(s, i, enc_str(p.user), enc_bool(p.valid) + enc_tokens(p.selection));
    lemma_rt_str(s, i, p.user);
    let j = i + enc_str(p.user).len();
    lemma_matches_split(s, j, enc_bool(p.valid), enc_tokens(p.selection));
    lemma_rt_bool(s, j, p.valid);
    let j2 = j + enc_bool(p.valid).len();
    lemma_rt_tokens(s, j2, p.selection);
    assert((SelectionV { user: p.user, valid: p.valid, selection: p.selection }) == p);
}

pub open spec fn game_bounded(g: GameV) -> bool {
    &&& g.number_of_sets <= usize::MAX
    &&& g.deck.len() <= u64::MAX
    &&& tokens_bounded(g.board)
    &&& (g.previous_selection matches Some(p) ==> sel_bounded(p))
}

proof fn lemma_rt_game(s: Seq<char>, i: int, g: GameV)
    requires
        matches_at(s, i, enc_game(g)),
        game_bounded(g),
    ensures
        parse_game(s, i) == Some((g, i + enc_game(g).len())),
{
    lemma_concat_associative(enc_nat(g.number_of_sets), enc_str(g.deck), enc_tokens(g.board));
    lemma_concat_associative(enc_nat(g.number_of_sets),
        enc_str(g.deck) + enc_tokens(g.board), enc_opt_sel(g.previous_selection));
    lemma_matches_split(s, i, enc_nat(g.number_of_sets),
        enc_str(g.deck) + enc_tokens(g.board) + enc_opt_sel(g.previous_selection));
    lemma_rt_nat(s, i, g.number_of_sets);
    let j = i + enc_nat(g.number_of_sets).len();
    lemma_concat_associative(enc_str(g.deck), enc_tokens(g.board),
        enc_opt_sel(g.previous_selection));
    lemma_matches_split(s, j, enc_str(g.deck),
        enc_tokens(g.board) + enc_opt_sel(g.previous_selection));
    lemma_rt_str(s, j, g.deck);
    let j2 = j + enc_str(g.deck).len();
    lemma_matches_split(s, j2, enc_tokens(g.board), enc_opt_sel(g.previous_selection));
    lemma_rt_tokens(s, j2, g.board);
    let j3 = j2 + enc_tokens(g.board).len();
    match g.previous_selection {
        None => {
            assert(s.subrange(j3, j3 + 1)[0] == s[j3]);
        },
        Some(p) => {
            lemma_matches_split(s, j3, seq!['S'], enc_sel(p));
            assert(s.subrange(j3, j3 + 1)[0] == s[j3]);
            lemma_rt_sel(s, j3 + 1, p);
        },
    }
    assert((GameV {
        number_of_sets: g.number_of_sets,
        deck: g.deck,
        board: g.board,
        previous_selection: g.previous_selection,
    }) == g);
}

proof fn lemma_rt_opt_game(s: Seq<char>, i: int, o: Option<GameV>)
    requires
        matches_at(s, i, enc_opt_game(o)),
        (o matches Some(g) ==> game_bounded(g)),
    ensures
        parse_opt_game(s, i) == Some((o, i + enc_opt_game(o).len())),
{
    match o {
        None => {
            assert(s.subrange(i, i + 1)[0] == s[i]);
        },
        Some(g) => {
            lemma_matches_split(s, i, seq!['S'], enc_game(g));
            assert(s.subrange(i, i + 1)[0] == s[i]);
            lemma_rt_game(s, i + 1, g);
        },
    }
}

/// Every number and length in the record fits its machine type; every record
/// that a `Lobby` value views to is bounded.
pub open spec fn lobby_bounded(l: LobbyV) -> bool {
    &&& users_bounded(l.users)
    &&& (l.game_type matches Some(t) ==> t.len() <= u64::MAX)
    &&& (l.game_state matches Some(g) ==> game_bounded(g))
}

/// Round trip: parsing an encoded room record yields the record, whole.
#[verifier::rlimit(100)]
pub proof fn lemma_store_round_trip(l: LobbyV)
    requires
        lobby_bounded(l),
    ensures
        parse_lobby(enc_lobby(l), 0) == Some((l, enc_lobby(l).len() as int)),
{
    let s = enc_lobby(l);
    assert(matches_at(s, 0, enc_lobby(l))) by {
        assert(s.subrange(0, s.len() as int) =~= s);
    }
    lemma_concat_associative(enc_nat(l.users.len()), enc_users_from(l.users),
        enc_opt_str(l.game_type));
    lemma_concat_associative(enc_nat(l.users.len()),
        enc_users_from(l.users) + enc_opt_str(l.game_type), enc_opt_game(l.game_state));
    lemma_matches_split(s, 0, enc_nat(l.users.len()),
        enc_users_from(l.users) + enc_opt_str(l.game_type) + enc_opt_game(l.game_state));
    lemma_rt_nat(s, 0, l.users.len());
    let j = enc_nat(l.users.len()).len() as int;
    lemma_concat_associative(enc_users_from(l.users), enc_opt_str(l.game_type),
        enc_opt_game(l.game_state));
    lemma_matches_split(s, j, enc_users_from(l.users),
        enc_opt_str(l.game_type) + enc_opt_game(l.game_state));
    lemma_rt_users_from(s, j, l.users);
    let j2 = j + enc_users_from(l.users).len();
    lemma_matches_split(s, j2, enc_opt_str(l.game_type), enc_opt_game(l.game_state));
    lemma_rt_opt_str(s, j2, l.game_type);
    let j3 = j2 + enc_opt_str(l.game_type).len();
    lemma_rt_opt_game(s, j3, l.game_state);
    assert((LobbyV { users: l.users, game_type: l.game_type, game_state: l.game_state }) == l);
}


// ---------------------------------------------------------------------------
// Executable encoding.

/// The one-character string for a decimal digit.
fn digit_str(d: u64) -> (r: &'static str)
    requires
        d < 10,
    ensures
        r@ == seq![digit_of(d as nat)],
{
    proof {
        reveal_strlit("0");
        reveal_strlit("1");
        reveal_strlit("2");
        reveal_strlit("3");
        reveal_strlit("4");
        reveal_strlit("5");
        reveal_strlit("6");
        reveal_strlit("7");
        reveal_strlit("8");
        reveal_strlit("9");
    }
    let r: &'static str = if d == 0 { "0" }
    else if d == 1 { "1" }
    else if d == 2 { "2" }
    else if d == 3 { "3" }
    else if d == 4 { "4" }
    else if d == 5 { "5" }
    else if d == 6 { "6" }
    else if d == 7 { "7" }
    else if d == 8 { "8" }
    else { "9" };
    proof {
        assert(r@ =~= seq![digit_of(d as nat)]);
    }
    r
}

fn push_digits(out: &mut String, v: u64)
    ensures
        final(out)@ == old(out)@ + dec_digits(v as nat),
    decreases v,
{
    if v < 10 {
        out.append(digit_str(v));
        proof {
            assert(final(out)@ =~= old(out)@ + dec_digits(v as nat));
        }
    } else {
        push_digits(out, v / 10);
        out.append(digit_str(v % 10));
        proof {
            assert(dec_digits(v as nat)
                == dec_digits(v as nat / 10).push(digit_of(v as nat % 10)));
            assert(v as nat / 10 == (v / 10) as nat);
            assert(final(out)@ =~= old(out)@ + dec_digits(v as nat));
        }
    }
}

fn push_nat(out: &mut String, v: u64)
    ensures
        final(out)@ == old(out)@ + enc_nat(v as nat),
{
    push_digits(out, v);
    out.append(";");
    proof {
        reveal_strlit(";");
        assert(";"@ =~= seq![';']);
        assert(final(out)@ =~= old(out)@ + enc_nat(v as nat));
    }
}

fn push_str_part(out: &mut String, t: &String)
    ensures
        final(out)@ == old(out)@ + enc_str(t@),
        t@.len() <= u64::MAX,
{
    let len = t.as_str().unicode_len();
    push_nat(out, len as u64);
    out.append(t.as_str());
    proof {
        assert((len as u64) as nat == t@.len());
        assert(final(out)@ =~= old(out)@ + enc_str(t@));
    }
}

fn push_bool(out: &mut String, b: bool)
    ensures
        final(out)@ == old(out)@ + enc_bool(b),
{
    if b {
        out.append("T");
    } else {
        out.append("F");
    }
    proof {
        reveal_strlit("T");
        reveal_strlit("F");
        assert(final(out)@ =~= old(out)@ + enc_bool(b));
    }
}

fn push_int(out: &mut String, v: i64)
    ensures
        final(out)@ == old(out)@ + enc_int(v as int),
{
    if v >= 0 {
        out.append("+");
        push_nat(out, v as u64);
        proof {
            reveal_strlit("+");
            assert("+"@ =~= seq!['+']);
            assert((v as u64) as nat == v as int);
            assert(final(out)@ =~= old(out)@ + enc_int(v as int));
        }
    } else {
        out.append("-");
        let m: u64 = (-(v as i128)) as u64;
        push_nat(out, m);
        proof {
            reveal_strlit("-");
            assert("-"@ =~= seq!['-']);
            assert(m as nat == (-(v as int)) as nat);
            assert(final(out)@ =~= old(out)@ + enc_int(v as int));
        }
    }
}

fn push_tokens_from(out: &mut String, ts: &Vec<String>, i: usize)
    requires
        i <= ts@.len(),
    ensures
        final(out)@ == old(out)@ + enc_tokens_from(ts.deep_view().skip(i as int)),
        forall|k: int| i <= k < ts@.len() ==> (#[trigger] ts.deep_view()[k]).len() <= u64::MAX,
    decreases ts@.len() - i,
{
    let ghost dv = ts.deep_view();
    if i < ts.len() {
        push_str_part(out, &ts[i]);
        push_tokens_from(out, ts, i + 1);
        proof {
            assert(dv.skip(i as int)[0] == dv[i as int]);
            assert(dv.skip(i as int).drop_first() =~= dv.skip(i + 1));
            assert(enc_tokens_from(dv.skip(i as int))
                == enc_str(dv[i as int]) + enc_tokens_from(dv.skip(i + 1)));
            assert(dv[i as int] == ts@[i as int]@);
            assert(final(out)@ =~= old(out)@ + enc_tokens_from(dv.skip(i as int)));
        }
    } else {
        proof {
            assert(dv.skip(i as int) =~= Seq::<Seq<char>>::empty());
            assert(final(out)@ =~= old(out)@ + enc_tokens_from(dv.skip(i as int)));
        }
    }
}

fn push_tokens(out: &mut String, ts: &Vec<String>)
    ensures
        final(out)@ == old(out)@ + enc_tokens(ts.deep_view()),
        tokens_bounded(ts.deep_view()),
{
    push_nat(out, ts.len() as u64);
    push_tokens_from(out, ts, 0);
    proof {
        assert(ts.deep_view().skip(0) =~= ts.deep_view());
        assert((ts.len() as u64) as nat == ts.deep_view().len());
        assert(final(out)@ =~= old(out)@ + enc_tokens(ts.deep_view()));
    }
}

fn push_opt_str(out: &mut String, o: &Option<String>)
    ensures
        final(out)@ == old(out)@ + enc_opt_str(match *o {
            Some(ref t) => Some(t@),
            None => None,
        }),
        (o matches Some(t) ==> t@.len() <= u64::MAX),
{
    match o {
        None => {
            out.append("N");
            proof {
                reveal_strlit("N");
                assert(final(out)@ =~= old(out)@ + seq!['N']);
            }
        },
        Some(t) => {
            out.append("S");
            push_str_part(out, t);
            proof {
                reveal_strlit("S");
                assert("S"@ =~= seq!['S']);
                assert(final(out)@ =~= old(out)@ + (seq!['S'] + enc_str(t@)));
            }
        },
    }
}

fn push_sel(out: &mut String, p: &Selection)
    ensures
        final(out)@ == old(out)@ + enc_sel(p@),
        sel_bounded(p@),
{
    push_str_part(out, &p.user);
    push_bool(out, p.valid);
    push_tokens(out, &p.selection);
    proof {
        assert(final(out)@ =~= old(out)@ + enc_sel(p@));
    }
}

fn push_game(out: &mut String, g: &Game)
    ensures
        final(out)@ == old(out)@ + enc_game(g@),
        game_bounded(g@),
{
    push_nat(out, g.number_of_sets as u64);
    push_str_part(out, &g.deck);
    push_tokens(out, &g.board);
    match &g.previous_selection {
        None => {
            out.append("N");
            proof {
                reveal_strlit("N");
                assert("N"@ =~= seq!['N']);
            }
        },
        Some(p) => {
            out.append("S");
            push_sel(out, p);
            proof {
                reveal_strlit("S");
                assert("S"@ =~= seq!['S']);
            }
        },
    }
    proof {
        assert((g.number_of_sets as u64) as nat == g@.number_of_sets);
        assert(final(out)@ =~= old(out)@ + enc_game(g@));
    }
}

fn push_user(out: &mut String, id: usize, u: &User)
    ensures
        final(out)@ == old(out)@ + enc_user((id as nat, u@)),
        user_bounded((id as nat, u@)),
{
    push_nat(out, id as u64);
    push_str_part(out, &u.name);
    push_int(out, u.points);
    proof {
        assert((id as u64) as nat == id as nat);
        assert(final(out)@ =~= old(out)@ + enc_user((id as nat, u@)));
    }
}

fn push_users_from(out: &mut String, us: &Vec<(usize, User)>, i: usize)
    requires
        i <= us@.len(),
    ensures
        final(out)@ == old(out)@ + enc_users_from(roster_view(us@).skip(i as int)),
        forall|k: int| i <= k < us@.len() ==> user_bounded(#[trigger] roster_view(us@)[k]),
    decreases us@.len() - i,
{
    let ghost rv = roster_view(us@);
    if i < us.len() {
        push_user(out, us[i].0, &us[i].1);
        push_users_from(out, us, i + 1);
        proof {
            assert(rv.skip(i as int)[0] == rv[i as int]);
            assert(rv.skip(i as int).drop_first() =~= rv.skip(i + 1));
            assert(rv[i as int] == (us@[i as int].0 as nat, us@[i as int].1@));
            assert(enc_users_from(rv.skip(i as int))
                == enc_user(rv[i as int]) + enc_users_from(rv.skip(i + 1)));
            assert(final(out)@ =~= old(out)@ + enc_users_from(rv.skip(i as int)));
        }
    } else {
        proof {
            assert(rv.skip(i as int) =~= Seq::<(nat, UserV)>::empty());
            assert(final(out)@ =~= old(out)@ + enc_users_from(rv.skip(i as int)));
        }
    }
}

/// Encode a room record for the shared store.
pub fn encode_lobby(l: &Lobby) -> (r: String)
    ensures
        r@ == enc_lobby(l@),
        lobby_bounded(l@),
{
    let mut out = String::new();
    push_nat(&mut out, l.users.len() as u64);
    push_users_from(&mut out, &l.users, 0);
    push_opt_str(&mut out, &l.game_type);
    match &l.game_state {
        None => {
            out.append("N");
            proof {
                reveal_strlit("N");
                assert("N"@ =~= seq!['N']);
            }
        },
        Some(g) => {
            out.append("S");
            push_game(&mut out, g);
            proof {
                reveal_strlit("S");
                assert("S"@ =~= seq!['S']);
            }
        },
    }
    proof {
        assert(roster_view(l.users@).skip(0) =~= roster_view(l.users@));
        assert((l.users.len() as u64) as nat == l@.users.len());
        assert(out@ =~= enc_lobby(l@));
        assert(users_bounded(l@.users));
    }
    out
}


// ---------------------------------------------------------------------------
// Executable decoding: each function mirrors its grammar parser exactly.

fn parse_digits_e(s: &str, n: usize, i: usize, acc: u64) -> (r: Option<(u64, usize)>)
    requires
        n as nat == s@.len(),
        i <= n,
    ensures
        (match parse_digits(s@, i as int, acc as nat) {
            Some((v, j)) => r matches Some(p) && p.0 as nat == v && p.1 as int == j && p.1 <= n,
            None => r is None,
        }),
    decreases n - i,
{
    if i == n {
        return None;
    }
    let c = s.get_char(i);
    if '0' <= c && c <= '9' {
        let d = (c as u32 - 48) as u64;
        proof {
            assert(is_digit(s@[i as int]));
            assert(d as nat == digit_val(s@[i as int]));
        }
        if acc > (u64::MAX - d) / 10 {
            proof {
                let q = (u64::MAX - d) as nat / 10;
                assert(acc as nat * 10 + d as nat > u64::MAX) by (nonlinear_arith)
                    requires
                        acc as nat >= q + 1,
                        q == (u64::MAX - d) as nat / 10,
                        (u64::MAX - d) as nat == 10 * q + (u64::MAX - d) as nat % 10,
                        (u64::MAX - d) as nat % 10 < 10,
                        d as nat <= 9,
                ;
            }
            return None;
        }
        proof {
            let q = (u64::MAX - d) as nat / 10;
            assert(acc as nat * 10 + d as nat <= u64::MAX) by (nonlinear_arith)
                requires
                    acc as nat <= q,
                    q == (u64::MAX - d) as nat / 10,
                    (u64::MAX - d) as nat == 10 * q + (u64::MAX - d) as nat % 10,
                    d as nat <= 9,
            ;
        }
        parse_digits_e(s, n, i + 1, acc * 10 + d)
    } else if c == ';' {
        Some((acc, i + 1))
    } else {
        None
    }
}

fn parse_nat_e(s: &str, n: usize, i: usize) -> (r: Option<(u64, usize)>)
    requires
        n as nat == s@.len(),
        i <= n,
    ensures
        (match parse_nat(s@, i as int) {
            Some((v, j)) => r matches Some(p) && p.0 as nat == v && p.1 as int == j && p.1 <= n,
            None => r is None,
        }),
{
    parse_digits_e(s, n, i, 0)
}

fn parse_str_e(s: &str, n: usize, i: usize) -> (r: Option<(String, usize)>)
    requires
        n as nat == s@.len(),
        i <= n,
    ensures
        (match parse_str(s@, i as int) {
            Some((t, j)) => r matches Some(p) && p.0@ == t && p.1 as int == j && p.1 <= n,
            None => r is None,
        }),
{
    match parse_nat_e(s, n, i) {
        None => None,
        Some((v, j)) => {
            if v > (n - j) as u64 {
                return None;
            }
            let len = v as usize;
            let sub = s.substring_char(j, j + len);
            Some((String::from_str(sub), j + len))
        },
    }
}

fn parse_int_e(s: &str, n: usize, i: usize) -> (r: Option<(i64, usize)>)
    requires
        n as nat == s@.len(),
        i <= n,
    ensures
        (match parse_int(s@, i as int) {
            Some((v, j)) => r matches Some(p) && p.0 as int == v && p.1 as int == j && p.1 <= n,
            None => r is None,
        }),
{
    if i == n {
        return None;
    }
    let c = s.get_char(i);
    if c == '+' {
        match parse_nat_e(s, n, i + 1) {
            None => None,
            Some((v, j)) => {
                if v > i64::MAX as u64 {
                    return None;
                }
                Some((v as i64, j))
            },
        }
    } else if c == '-' {
        match parse_nat_e(s, n, i + 1) {
            None => None,
            Some((v, j)) => {
                if v > (i64::MAX as u64) + 1 {
                    return None;
                }
                let m: i64 = (-(v as i128)) as i64;
                Some((m, j))
            },
        }
    } else {
        None
    }
}

fn parse_bool_e(s: &str, n: usize, i: usize) -> (r: Option<(bool, usize)>)
    requires
        n as nat == s@.len(),
        i <= n,
    ensures
        (match parse_bool(s@, i as int) {
            Some((v, j)) => r matches Some(p) && p.0 == v && p.1 as int == j && p.1 <= n,
            None => r is None,
        }),
{
    if i == n {
        return None;
    }
    let c = s.get_char(i);
    if c == 'T' {
        Some((true, i + 1))
    } else if c == 'F' {
        Some((false, i + 1))
    } else {
        None
    }
}

fn parse_tokens_from_e(s: &str, n: usize, i: usize, cnt: u64) -> (r: Option<(Vec<String>, usize)>)
    requires
        n as nat == s@.len(),
        i <= n,
    ensures
        (match parse_tokens_from(s@, i as int, cnt as nat) {
            Some((ts, j)) => r matches Some(p) && p.0.deep_view() == ts && p.1 as int == j
                && p.1 <= n,
            None => r is None,
        }),
    decreases cnt,
{
    if cnt == 0 {
        let out: Vec<String> = Vec::new();
        proof {
            assert(out.deep_view() =~= Seq::<Seq<char>>::empty());
        }
        return Some((out, i));
    }
    match parse_str_e(s, n, i) {
        None => None,
        Some((t, j)) => match parse_tokens_from_e(s, n, j, cnt - 1) {
            None => None,
            Some((mut rest, j2)) => {
                let ghost t_v = t@;
                let ghost rest_dv = rest.deep_view();
                rest.insert(0, t);
                proof {
                    assert(rest.deep_view() =~= seq![t_v] + rest_dv);
                }
                Some((rest, j2))
            },
        },
    }
}

fn parse_tokens_e(s: &str, n: usize, i: usize) -> (r: Option<(Vec<String>, usize)>)
    requires
        n as nat == s@.len(),
        i <= n,
    ensures
        (match parse_tokens(s@, i as int) {
            Some((ts, j)) => r matches Some(p) && p.0.deep_view() == ts && p.1 as int == j
                && p.1 <= n,
            None => r is None,
        }),
{
    match parse_nat_e(s, n, i) {
        None => None,
        Some((cnt, j)) => parse_tokens_from_e(s, n, j, cnt),
    }
}

fn parse_opt_str_e(s: &str, n: usize, i: usize) -> (r: Option<(Option<String>, usize)>)
    requires
        n as nat == s@.len(),
        i <= n,
    ensures
        (match parse_opt_str(s@, i as int) {
            Some((o, j)) => r matches Some(p) && p.1 as int == j && p.1 <= n && (match p.0 {
                Some(t) => o matches Some(tv) && t@ == tv,
                None => o is None,
            }),
            None => r is None,
        }),
{
    if i == n {
        return None;
    }
    let c = s.get_char(i);
    if c == 'N' {
        Some((None, i + 1))
    } else if c == 'S' {
        match parse_str_e(s, n, i + 1) {
            None => None,
            Some((t, j)) => Some((Some(t), j)),
        }
    } else {
        None
    }
}

fn parse_sel_e(s: &str, n: usize, i: usize) -> (r: Option<(Selection, usize)>)
    requires
        n as nat == s@.len(),
        i <= n,
    ensures
        (match parse_sel(s@, i as int) {
            Some((p, j)) => r matches Some(q) && q.0@ == p && q.1 as int == j && q.1 <= n,
            None => r is None,
        }),
{
    match parse_str_e(s, n, i) {
        None => None,
        Some((user, j)) => match parse_bool_e(s, n, j) {
            None => None,
            Some((valid, j2)) => match parse_tokens_e(s, n, j2) {
                None => None,
                Some((sel, j3)) => {
                    let out = Selection { user, valid, selection: sel };
                    Some((out, j3))
                },
            },
        },
    }
}

fn parse_opt_sel_e(s: &str, n: usize, i: usize) -> (r: Option<(Option<Selection>, usize)>)
    requires
        n as nat == s@.len(),
        i <= n,
    ensures
        (match parse_opt_sel(s@, i as int) {
            Some((o, j)) => r matches Some(p) && p.1 as int == j && p.1 <= n && (match p.0 {
                Some(q) => o matches Some(qv) && q@ == qv,
                None => o is None,
            }),
            None => r is None,
        }),
{
    if i == n {
        return None;
    }
    let c = s.get_char(i);
    if c == 'N' {
        Some((None, i + 1))
    } else if c == 'S' {
        match parse_sel_e(s, n, i + 1) {
            None => None,
            Some((p, j)) => Some((Some(p), j)),
        }
    } else {
        None
    }
}

fn parse_game_e(s: &str, n: usize, i: usize) -> (r: Option<(Game, usize)>)
    requires
        n as nat == s@.len(),
        i <= n,
    ensures
        (match parse_game(s@, i as int) {
            Some((g, j)) => r matches Some(p) && p.0@ == g && p.1 as int == j && p.1 <= n,
            None => r is None,
        }),
{
    match parse_nat_e(s, n, i) {
        None => None,
        Some((sets, j)) => {
            if sets > usize::MAX as u64 {
                return None;
            }
            match parse_str_e(s, n, j) {
                None => None,
                Some((deck, j2)) => match parse_tokens_e(s, n, j2) {
                    None => None,
                    Some((board, j3)) => match parse_opt_sel_e(s, n, j3) {
                        None => None,
                        Some((prev, j4)) => {
                            let out = Game {
                                number_of_sets: sets as usize,
                                deck,
                                board,
                                previous_selection: prev,
                            };
                            proof {
                                assert(out@ =~= parse_game(s@, i as int).unwrap().0);
                            }
                            Some((out, j4))
                        },
                    },
                },
            }
        },
    }
}

fn parse_opt_game_e(s: &str, n: usize, i: usize) -> (r: Option<(Option<Game>, usize)>)
    requires
        n as nat == s@.len(),
        i <= n,
    ensures
        (match parse_opt_game(s@, i as int) {
            Some((o, j)) => r matches Some(p) && p.1 as int == j && p.1 <= n && (match p.0 {
                Some(g) => o matches Some(gv) && g@ == gv,
                None => o is None,
            }),
            None => r is None,
        }),
{
    if i == n {
        return None;
    }
    let c = s.get_char(i);
    if c == 'N' {
        Some((None, i + 1))
    } else if c == 'S' {
        match parse_game_e(s, n, i + 1) {
            None => None,
            Some((g, j)) => Some((Some(g), j)),
        }
    } else {
        None
    }
}

fn parse_user_e(s: &str, n: usize, i: usize) -> (r: Option<((usize, User), usize)>)
    requires
        n as nat == s@.len(),
        i <= n,
    ensures
        (match parse_user(s@, i as int) {
            Some((u, j)) => r matches Some(p) && p.0.0 as nat == u.0 && p.0.1@ == u.1
                && p.1 as int == j && p.1 <= n,
            None => r is None,
        }),
{
    match parse_nat_e(s, n, i) {
        None => None,
        Some((id, j)) => {
            if id > usize::MAX as u64 {
                return None;
            }
            match parse_str_e(s, n, j) {
                None => None,
                Some((name, j2)) => match parse_int_e(s, n, j2) {
                    None => None,
                    Some((points, j3)) => Some(((id as usize, User { name, points }), j3)),
                },
            }
        },
    }
}

fn parse_users_from_e(s: &str, n: usize, i: usize, cnt: u64) -> (r: Option<
    (Vec<(usize, User)>, usize),
>)
    requires
        n as nat == s@.len(),
        i <= n,
    ensures
        (match parse_users_from(s@, i as int, cnt as nat) {
            Some((us, j)) => r matches Some(p) && roster_view(p.0@) == us && p.1 as int == j
                && p.1 <= n,
            None => r is None,
        }),
    decreases cnt,
{
    if cnt == 0 {
        let out: Vec<(usize, User)> = Vec::new();
        proof {
            assert(roster_view(out@) =~= Seq::<(nat, UserV)>::empty());
        }
        return Some((out, i));
    }
    match parse_user_e(s, n, i) {
        None => None,
        Some((u, j)) => match parse_users_from_e(s, n, j, cnt - 1) {
            None => None,
            Some((mut rest, j2)) => {
                let ghost u_v = (u.0 as nat, u.1@);
                let ghost rest_rv = roster_view(rest@);
                rest.insert(0, u);
                proof {
                    assert(roster_view(rest@) =~= seq![u_v] + rest_rv);
                }
                Some((rest, j2))
            },
        },
    }
}

/// Decode a stored room record. Succeeds exactly on the strings the grammar
/// accepts whole; everything else is a `DeserializationFailure`.
pub fn decode_lobby(s: &str) -> (r: Result<Lobby, ServerError>)
    ensures
        r is Ok <==> (parse_lobby(s@, 0) matches Some(p) && p.1 == s@.len()),
        (r matches Ok(l) ==> parse_lobby(s@, 0) == Some((l@, s@.len() as int))),
        (r matches Err(e) ==> e == ServerError::DeserializationFailure),
{
    let n = s.unicode_len();
    let outcome = match parse_nat_e(s, n, 0) {
        None => None,
        Some((cnt, j)) => match parse_users_from_e(s, n, j, cnt) {
            None => None,
            Some((users, j2)) => match parse_opt_str_e(s, n, j2) {
                None => None,
                Some((game_type, j3)) => match parse_opt_game_e(s, n, j3) {
                    None => None,
                    Some((game_state, j4)) => Some((Lobby { users, game_type, game_state }, j4)),
                },
            },
        },
    };
    match outcome {
        Some((lobby, j)) => {
            if j == n {
                proof {
                    assert(parse_lobby(s@, 0).unwrap().0 =~= lobby@);
                }
                Ok(lobby)
            } else {
                Err(ServerError::DeserializationFailure)
            }
        },
        None => Err(ServerError::DeserializationFailure),
    }
}

} // verus!
